//! The per-chat conversation: role checks, menus, and the state machine that
//! routes each operator message.

use vstd::prelude::*;
use crate::iiko::{GetShifts, Server, Shift, ShiftError, total_paid};
use crate::markdown::{escape, escaped, format_with_dots, with_dots};
use crate::olap::{Olap, OlapMap, nothing_found_text, OlapElement, keys_of, strings_view, sums_fit, render};

verus! {

// ---------------------------------------------------------------------------
// Server registry and roles

/// The servers the bot may report on, by alias, and the alias in use.
pub struct ServerState {
    pub map: Vec<(String, String)>,
    pub current: String,
}

pub open spec fn aliases(map: Seq<(String, String)>) -> Seq<Seq<char>> {
    map.map_values(|e: (String, String)| e.0@)
}

impl ServerState {
    /// No alias occurs twice, and the alias in use is one of them.
    pub open spec fn wf(self) -> bool {
        &&& aliases(self.map@).no_duplicates()
        &&& aliases(self.map@).contains(self.current@)
    }

    /// The registry over `map` with its first server in use; `None` when `map` is empty.
    pub fn new(map: Vec<(String, String)>) -> (r: Option<ServerState>)
        requires
            aliases(map@).no_duplicates(),
        ensures
            r is None <==> map@.len() == 0,
            r matches Some(s) ==> s.wf() && s.map == map && s.current@ == map@[0].0@,
    {
        if map.len() == 0 {
            None
        } else {
            let current = map[0].0.clone();
            proof {
                assert(aliases(map@)[0] == current@);
            }
            Some(ServerState { map, current })
        }
    }

    /// The index of `alias`, if it is registered.
    pub fn find(&self, alias: &String) -> (r: Option<usize>)
        ensures
            r is None <==> !aliases(self.map@).contains(alias@),
            r matches Some(i) ==> i < self.map@.len() && self.map@[i as int].0@ == alias@,
    {
        let mut i: usize = 0;
        while i < self.map.len()
            invariant
                i <= self.map@.len(),
                forall|k: int| 0 <= k < i ==> (#[trigger] self.map@[k]).0@ != alias@,
            decreases self.map@.len() - i,
        {
            if self.map[i].0 == *alias {
                proof {
                    assert(aliases(self.map@)[i as int] == alias@);
                }
                return Some(i);
            }
            i = i + 1;
        }
        proof {
            if aliases(self.map@).contains(alias@) {
                let k = choose|k: int| 0 <= k < self.map@.len() && aliases(self.map@)[k] == alias@;
                assert(self.map@[k].0@ != alias@);
            }
        }
        None
    }

    /// The address of the server in use.
    pub fn current_url(&self) -> (r: String)
        requires
            self.wf(),
        ensures
            exists|i: int| 0 <= i < self.map@.len() && self.map@[i].0@ == self.current@ && r@ == self.map@[i].1@,
    {
        match self.find(&self.current) {
            Some(i) => self.map[i].1.clone(),
            None => {
                proof {
                    assert(false);
                }
                String::new()
            },
        }
    }
}

pub open spec fn names(v: Seq<String>) -> Seq<Seq<char>> {
    strings_view(v)
}

fn contains_name(list: &Vec<String>, name: &String) -> (r: bool)
    ensures
        r == names(list@).contains(name@),
{
    let mut i: usize = 0;
    while i < list.len()
        invariant
            i <= list@.len(),
            forall|k: int| 0 <= k < i ==> (#[trigger] list@[k])@ != name@,
        decreases list@.len() - i,
    {
        if list[i] == *name {
            proof {
                assert(names(list@)[i as int] == name@);
            }
            return true;
        }
        i = i + 1;
    }
    proof {
        if names(list@).contains(name@) {
            let k = choose|k: int| 0 <= k < list@.len() && names(list@)[k] == name@;
            assert(list@[k]@ != name@);
        }
    }
    false
}

/// Whether `username` is on the allow-list.
pub fn is_allowed(allowed_list: &Vec<String>, username: &String) -> (r: bool)
    ensures
        r == names(allowed_list@).contains(username@),
{
    contains_name(allowed_list, username)
}

/// Whether `username` is an administrator.
pub fn is_admin(admins_list: &Vec<String>, username: &String) -> (r: bool)
    ensures
        r == names(admins_list@).contains(username@),
{
    contains_name(admins_list, username)
}

// ---------------------------------------------------------------------------
// Replies

/// A message for the chat, with the options to offer as keyboard rows.
pub struct Reply {
    pub text: String,
    pub markdown: bool,
    pub keyboard: Vec<Vec<String>>,
}

pub open spec fn rows_view(k: Seq<Vec<String>>) -> Seq<Seq<Seq<char>>> {
    k.map_values(|row: Vec<String>| strings_view(row@))
}

impl Reply {
    pub open spec fn says(self, text: Seq<char>) -> bool {
        self.text@ == text && !self.markdown && self.keyboard@.len() == 0
    }

    pub open spec fn says_markdown(self, text: Seq<char>) -> bool {
        self.text@ == text && self.markdown && self.keyboard@.len() == 0
    }

    pub open spec fn offers(self, text: Seq<char>, options: Seq<Seq<Seq<char>>>) -> bool {
        self.text@ == text && rows_view(self.keyboard@) == options
    }
}

fn plain(text: String) -> (r: Reply)
    ensures
        r.says(text@),
{
    Reply { text, markdown: false, keyboard: Vec::new() }
}

fn marked(text: String) -> (r: Reply)
    ensures
        r.says_markdown(text@),
{
    Reply { text, markdown: true, keyboard: Vec::new() }
}

fn row2(a: &str, b: &str) -> (r: Vec<String>)
    ensures
        strings_view(r@) == seq![a@, b@],
{
    let mut r: Vec<String> = Vec::new();
    r.push(a.to_owned());
    r.push(b.to_owned());
    assert(strings_view(r@) =~= seq![a@, b@]);
    r
}

fn row1(a: &str) -> (r: Vec<String>)
    ensures
        strings_view(r@) == seq![a@],
{
    let mut r: Vec<String> = Vec::new();
    r.push(a.to_owned());
    assert(strings_view(r@) =~= seq![a@]);
    r
}

/// The options of `items`, two to a row.
pub open spec fn in_pairs(items: Seq<Seq<char>>) -> Seq<Seq<Seq<char>>>
    decreases items.len(),
{
    if items.len() == 0 {
        Seq::empty()
    } else if items.len() == 1 {
        seq![items]
    } else {
        seq![items.take(2)] + in_pairs(items.skip(2))
    }
}

fn pairs(items: &Vec<String>) -> (r: Vec<Vec<String>>)
    ensures
        rows_view(r@) == in_pairs(strings_view(items@)),
{
    let ghost all = strings_view(items@);
    let mut r: Vec<Vec<String>> = Vec::new();
    let mut i: usize = 0;
    proof {
        assert(all.skip(0) =~= all);
        assert(rows_view(r@) + in_pairs(all) =~= in_pairs(all));
    }
    while i < items.len()
        invariant
            all == strings_view(items@),
            i <= items@.len(),
            rows_view(r@) + in_pairs(all.skip(i as int)) == in_pairs(all),
        decreases items@.len() - i,
    {
        let ghost rest = all.skip(i as int);
        let mut row: Vec<String> = Vec::new();
        row.push(items[i].clone());
        let next: usize;
        if i + 1 < items.len() {
            row.push(items[i + 1].clone());
            next = i + 2;
            proof {
                assert(strings_view(row@) =~= rest.take(2));
                assert(all.skip(next as int) =~= rest.skip(2));
            }
        } else {
            next = i + 1;
            proof {
                assert(strings_view(row@) =~= rest);
                assert(all.skip(next as int) =~= Seq::<Seq<char>>::empty());
            }
        }
        let ghost before = r@;
        r.push(row);
        proof {
            assert(in_pairs(rest) == seq![strings_view(row@)] + in_pairs(all.skip(next as int)));
            assert(rows_view(r@) =~= rows_view(before).push(strings_view(row@)));
            assert(rows_view(r@) + in_pairs(all.skip(next as int)) =~= rows_view(before) + in_pairs(rest));
        }
        i = next;
    }
    proof {
        assert(all.skip(i as int) =~= Seq::<Seq<char>>::empty());
        assert(rows_view(r@) + in_pairs(Seq::<Seq<char>>::empty()) =~= rows_view(r@));
    }
    r
}

pub open spec fn main_menu_options() -> Seq<Seq<Seq<char>>> {
    seq![seq!["Отчёты"@, "Сменить сервер"@], seq!["Список серверов"@, "Администрирование"@]]
}

pub open spec fn report_menu_options() -> Seq<Seq<Seq<char>>> {
    seq![
        seq!["За сегодня"@, "За вчера"@],
        seq!["За 7 дней"@, "За текущий месяц"@],
        seq!["Olap отчёт"@],
        seq!["Назад"@],
    ]
}

pub open spec fn admin_menu_options() -> Seq<Seq<Seq<char>>> {
    seq![
        seq!["Добавить пользователя"@, "Удалить пользователя"@],
        seq!["Список пользователей"@, "Список админов"@],
        seq!["Назад"@],
    ]
}

pub open spec fn is_main_menu(r: Reply) -> bool {
    r.offers("Выберите опцию"@, main_menu_options())
}

fn main_menu() -> (r: Reply)
    ensures
        is_main_menu(r),
{
    let mut k: Vec<Vec<String>> = Vec::new();
    k.push(row2("Отчёты", "Сменить сервер"));
    k.push(row2("Список серверов", "Администрирование"));
    assert(rows_view(k@) =~= main_menu_options());
    Reply { text: "Выберите опцию".to_owned(), markdown: false, keyboard: k }
}

fn report_menu() -> (r: Reply)
    ensures
        r.offers("Выберите опцию"@, report_menu_options()),
{
    let mut k: Vec<Vec<String>> = Vec::new();
    k.push(row2("За сегодня", "За вчера"));
    k.push(row2("За 7 дней", "За текущий месяц"));
    k.push(row1("Olap отчёт"));
    k.push(row1("Назад"));
    assert(rows_view(k@) =~= report_menu_options());
    Reply { text: "Выберите опцию".to_owned(), markdown: false, keyboard: k }
}

fn admin_menu() -> (r: Reply)
    ensures
        r.offers("Выберите опцию"@, admin_menu_options()),
{
    let mut k: Vec<Vec<String>> = Vec::new();
    k.push(row2("Добавить пользователя", "Удалить пользователя"));
    k.push(row2("Список пользователей", "Список админов"));
    k.push(row1("Назад"));
    assert(rows_view(k@) =~= admin_menu_options());
    Reply { text: "Выберите опцию".to_owned(), markdown: false, keyboard: k }
}

// ---------------------------------------------------------------------------
// Report texts

/// Whole currency units of an amount in hundredths: nothing for a negative
/// amount, at most `usize::MAX`.
pub open spec fn whole_units(m: int) -> nat {
    if m <= 0 {
        0
    } else if m / 100 > usize::MAX {
        usize::MAX as nat
    } else {
        (m / 100) as nat
    }
}

fn whole(m: i128) -> (r: usize)
    ensures
        r == whole_units(m as int),
{
    if m <= 0 {
        0
    } else if m / 100 > usize::MAX as i128 {
        usize::MAX
    } else {
        (m / 100) as usize
    }
}

pub open spec fn amount_text(n: nat) -> Seq<char> {
    escaped(with_dots(n))
}

fn amount(n: usize) -> (r: String)
    ensures
        r@ == amount_text(n as nat),
{
    let d = format_with_dots(n);
    escape(d.as_str())
}

/// The report on one shift, under the heading `heading`.
pub open spec fn shift_text(server: Seq<char>, heading: Seq<char>, s: Shift) -> Seq<char> {
    "*Сервер*: *"@ + server + "*\n*"@ + heading + "*:\nНомер смены: *"@ + amount_text(
        s.session_number as nat,
    ) + "*\nСтатус: *"@ + s.session_status.label_spec() + "*\nОплачено картой: *"@ + amount_text(
        whole_units(s.sales_card as int),
    ) + "*\nОплачено наличкой: *"@ + amount_text(s.sales_cash as nat) + "*\nИтог: *"@
        + amount_text(whole_units(s.pay_orders as int)) + "*"@
}

fn shift_report(server: &String, heading: &str, s: &Shift) -> (r: String)
    ensures
        r@ == shift_text(server@, heading@, *s),
{
    let mut t = String::new();
    t.append("*Сервер*: *");
    t.append(server.as_str());
    t.append("*\n*");
    t.append(heading);
    t.append("*:\nНомер смены: *");
    t.append(amount(s.session_number).as_str());
    t.append("*\nСтатус: *");
    t.append(s.session_status.label());
    t.append("*\nОплачено картой: *");
    t.append(amount(whole(s.sales_card as i128)).as_str());
    t.append("*\nОплачено наличкой: *");
    t.append(amount(s.sales_cash).as_str());
    t.append("*\nИтог: *");
    t.append(amount(whole(s.pay_orders as i128)).as_str());
    t.append("*");
    t
}

/// The report on a period's total, under the label `label`.
pub open spec fn total_text(server: Seq<char>, label: Seq<char>, sum: int) -> Seq<char> {
    "*Сервер*: *"@ + server + "*\n*"@ + label + "*: *"@ + amount_text(whole_units(sum)) + "*"@
}

fn total_report(server: &String, label: &str, sum: i128) -> (r: String)
    ensures
        r@ == total_text(server@, label@, sum as int),
{
    let mut t = String::new();
    t.append("*Сервер*: *");
    t.append(server.as_str());
    t.append("*\n*");
    t.append(label);
    t.append("*: *");
    t.append(amount(whole(sum)).as_str());
    t.append("*");
    t
}

// ---------------------------------------------------------------------------
// The conversation

/// Where a chat stands: which kind of message the bot waits for next.
#[derive(Clone, Copy, Debug, PartialEq, Eq, Structural)]
pub enum ChatState {
    Idle,
    AwaitingMenuChoice,
    AwaitingServerChoice,
    AwaitingOlapCategoryChoice,
    AwaitingNewUserName,
    AwaitingUserToDelete,
    AwaitingAdminMenuChoice,
    AwaitingReportMenuChoice,
}

/// A report on shifts.
#[derive(Clone, Copy, Debug, PartialEq, Eq, Structural)]
pub enum ShiftReport {
    /// The latest shift.
    Today,
    /// The shift before the latest.
    Yesterday,
    /// The total of the last seven days.
    Week,
    /// The total of the current month.
    Month,
}

/// Work on the POS server that a message asks for. Its result comes back
/// through `shifts_ready`, `olap_ready` or `fetch_failed`.
#[derive(Clone, Copy, Debug, PartialEq, Eq, Structural)]
pub enum Fetch {
    Shifts(ShiftReport),
    Olap,
}

/// One chat: its state and the sales breakdown fetched for it last.
pub struct ChatSession {
    pub state: ChatState,
    pub olap: OlapMap,
}

impl ChatSession {
    pub fn new() -> (r: ChatSession)
        ensures
            r.state == ChatState::Idle,
            r.olap@.len() == 0,
    {
        ChatSession { state: ChatState::Idle, olap: Vec::new() }
    }
}

/// The operators and the administrators, by handle without the leading `@`.
pub struct Accounts {
    pub allowed_list: Vec<String>,
    pub admins_list: Vec<String>,
}

/// What the bot does after one message: the replies to send, the server work to
/// start, and whether the allow-list must be written back to the configuration.
pub struct Outcome {
    pub replies: Vec<Reply>,
    pub fetch: Option<Fetch>,
    pub persist: bool,
}

pub open spec fn denied_text() -> Seq<char> {
    "Вы не в списке пользователей"@
}

pub open spec fn empty_name_text() -> Seq<char> {
    "Вы не ввели имя пользователя."@
}

pub open spec fn no_category_text() -> Seq<char> {
    "Нет такой категории"@
}

pub open spec fn added_text(name: Seq<char>) -> Seq<char> {
    "Пользователь @"@ + name + " успешно добавлен"@
}

pub open spec fn removed_text(name: Seq<char>) -> Seq<char> {
    "Пользователь @"@ + name + " успешно удалён"@
}

pub open spec fn switched_text(alias: Seq<char>, url: Seq<char>) -> Seq<char> {
    "Текущий сервер теперь '"@ + alias + "' -> "@ + url
}

pub open spec fn failure_text() -> Seq<char> {
    "Сервис недоступен, попробуйте позже."@
}

/// Whether `sender` is a known operator or administrator.
pub open spec fn may_use(acc: Accounts, sender: Option<String>) -> bool {
    sender matches Some(u) && u@.len() > 0 && (names(acc.allowed_list@).contains(u@) || names(
        acc.admins_list@,
    ).contains(u@))
}

pub open spec fn is_admin_sender(acc: Accounts, sender: Option<String>) -> bool {
    sender matches Some(u) && names(acc.admins_list@).contains(u@)
}

/// The server work that `text` asks for in state `s`.
pub open spec fn fetch_for(s: ChatState, text: Seq<char>) -> Option<Fetch> {
    if s == ChatState::AwaitingReportMenuChoice {
        if text == "За сегодня"@ {
            Some(Fetch::Shifts(ShiftReport::Today))
        } else if text == "За вчера"@ {
            Some(Fetch::Shifts(ShiftReport::Yesterday))
        } else if text == "За 7 дней"@ {
            Some(Fetch::Shifts(ShiftReport::Week))
        } else if text == "За текущий месяц"@ {
            Some(Fetch::Shifts(ShiftReport::Month))
        } else if text == "Olap отчёт"@ {
            Some(Fetch::Olap)
        } else {
            None
        }
    } else {
        None
    }
}

/// The state after `text` in state `s`; `admin` tells whether the sender is an
/// administrator. Unrecognised input leads back to the main menu.
pub open spec fn next_state(s: ChatState, text: Seq<char>, admin: bool) -> ChatState {
    match s {
        ChatState::AwaitingMenuChoice => if text == "Отчёты"@ {
            ChatState::AwaitingReportMenuChoice
        } else if text == "Сменить сервер"@ {
            ChatState::AwaitingServerChoice
        } else if text == "Администрирование"@ && admin {
            ChatState::AwaitingAdminMenuChoice
        } else {
            ChatState::AwaitingMenuChoice
        },
        ChatState::AwaitingReportMenuChoice => if fetch_for(s, text) is Some {
            ChatState::AwaitingReportMenuChoice
        } else {
            ChatState::AwaitingMenuChoice
        },
        ChatState::AwaitingAdminMenuChoice => if text == "Добавить пользователя"@ {
            ChatState::AwaitingNewUserName
        } else if text == "Удалить пользователя"@ {
            ChatState::AwaitingUserToDelete
        } else {
            ChatState::AwaitingMenuChoice
        },
        ChatState::AwaitingNewUserName => if text.len() == 0 {
            ChatState::AwaitingNewUserName
        } else {
            ChatState::AwaitingMenuChoice
        },
        _ => ChatState::AwaitingMenuChoice,
    }
}

/// `text` without one leading `@`.
pub open spec fn handle_of(text: Seq<char>) -> Seq<char> {
    if text.len() > 0 && text[0] == '@' { text.skip(1) } else { text }
}

/// `list` with `name` appended unless it is there already.
pub open spec fn with_name(list: Seq<Seq<char>>, name: Seq<char>) -> Seq<Seq<char>> {
    if list.contains(name) { list } else { list.push(name) }
}

/// `list` without any entry `name`.
pub open spec fn without_name(list: Seq<Seq<char>>, name: Seq<char>) -> Seq<Seq<char>>
    decreases list.len(),
{
    if list.len() == 0 {
        Seq::empty()
    } else {
        let pre = without_name(list.drop_last(), name);
        if list.last() == name { pre } else { pre.push(list.last()) }
    }
}

/// The allow-list after `text` in state `s`.
pub open spec fn next_allowed(s: ChatState, text: Seq<char>, list: Seq<Seq<char>>) -> Seq<Seq<char>> {
    if s == ChatState::AwaitingNewUserName && text.len() > 0 {
        with_name(list, handle_of(text))
    } else if s == ChatState::AwaitingUserToDelete && list.contains(text) {
        without_name(list, text)
    } else {
        list
    }
}

/// Whether `text` in state `s` changes the allow-list, which must then be saved.
pub open spec fn persists(s: ChatState, text: Seq<char>, list: Seq<Seq<char>>) -> bool {
    (s == ChatState::AwaitingNewUserName && text.len() > 0) || (s
        == ChatState::AwaitingUserToDelete && list.contains(text))
}

fn is_text(text: &String, lit: &str) -> (r: bool)
    ensures
        r == (text@ == lit@),
{
    *text == lit.to_owned()
}

fn strip_handle(text: &String) -> (r: String)
    ensures
        r@ == handle_of(text@),
{
    let cs = crate::text::chars_of(text.as_str());
    if cs.len() > 0 && cs[0] == '@' {
        let mut rest: Vec<char> = Vec::new();
        let mut i: usize = 1;
        while i < cs.len()
            invariant
                1 <= i <= cs@.len(),
                rest@ == cs@.subrange(1, i as int),
            decreases cs@.len() - i,
        {
            rest.push(cs[i]);
            i = i + 1;
            proof {
                assert(rest@ =~= cs@.subrange(1, i as int));
            }
        }
        proof {
            assert(cs@.subrange(1, cs@.len() as int) =~= text@.skip(1));
        }
        crate::text::string_of(&rest)
    } else {
        text.clone()
    }
}

fn remove_name(list: &Vec<String>, name: &String) -> (r: Vec<String>)
    ensures
        names(r@) == without_name(names(list@), name@),
{
    let mut r: Vec<String> = Vec::new();
    let mut i: usize = 0;
    while i < list.len()
        invariant
            i <= list@.len(),
            names(r@) == without_name(names(list@).take(i as int), name@),
        decreases list@.len() - i,
    {
        proof {
            assert(names(list@).take(i + 1).drop_last() =~= names(list@).take(i as int));
            assert(names(list@).take(i + 1).last() == list@[i as int]@);
        }
        if list[i] != *name {
            let s = list[i].clone();
            let ghost before = r@;
            r.push(s);
            proof {
                assert(names(r@) =~= names(before).push(s@));
            }
        }
        i = i + 1;
    }
    proof {
        assert(names(list@).take(list@.len() as int) =~= names(list@));
    }
    r
}

/// Entries joined by line breaks.
pub open spec fn line_list(s: Seq<Seq<char>>) -> Seq<char>
    decreases s.len(),
{
    if s.len() == 0 {
        Seq::empty()
    } else if s.len() == 1 {
        s[0]
    } else {
        line_list(s.drop_last()) + "\n"@ + s.last()
    }
}

fn lines_of(list: &Vec<String>) -> (r: String)
    ensures
        r@ == line_list(names(list@)),
{
    let ghost all = names(list@);
    let mut t = String::new();
    let mut i: usize = 0;
    while i < list.len()
        invariant
            i <= list@.len(),
            all == names(list@),
            t@ == line_list(all.take(i as int)),
        decreases list@.len() - i,
    {
        proof {
            assert(all.take(i + 1).drop_last() =~= all.take(i as int));
            assert(all.take(i + 1).last() == list@[i as int]@);
        }
        if i > 0 {
            t.append("\n");
        } else {
            proof {
                assert(all.take(0) =~= Seq::<Seq<char>>::empty());
            }
        }
        t.append(list[i].as_str());
        i = i + 1;
    }
    proof {
        assert(all.take(list@.len() as int) =~= all);
    }
    t
}

fn with_menu(first: Reply) -> (r: Vec<Reply>)
    ensures
        r@.len() == 2,
        r@[0] == first,
        is_main_menu(r@[1]),
{
    let mut r: Vec<Reply> = Vec::new();
    r.push(first);
    r.push(main_menu());
    r
}

fn only(first: Reply) -> (r: Vec<Reply>)
    ensures
        r@ == seq![first],
{
    let mut r: Vec<Reply> = Vec::new();
    r.push(first);
    assert(r@ =~= seq![first]);
    r
}

fn menu_only() -> (r: Vec<Reply>)
    ensures
        r@.len() == 1,
        is_main_menu(r@[0]),
{
    let mut r: Vec<Reply> = Vec::new();
    r.push(main_menu());
    r
}

fn done(replies: Vec<Reply>) -> (r: Outcome)
    ensures
        r.replies == replies,
        r.fetch is None,
        !r.persist,
{
    Outcome { replies, fetch: None, persist: false }
}

/// The registry's entries as `alias -> address`.
pub open spec fn entries(map: Seq<(String, String)>) -> Seq<Seq<char>> {
    map.map_values(|e: (String, String)| e.0@ + " -> "@ + e.1@)
}

pub open spec fn server_list_text_of(s: ServerState) -> Seq<char> {
    "*Список серверов*:\n"@ + escaped(line_list(entries(s.map@))) + "\n*Выбранный сервер*: *"@
        + s.current@ + "*"@
}

fn server_list_text(servers: &ServerState) -> (r: String)
    ensures
        r@ == server_list_text_of(*servers),
{
    let ghost all = entries(servers.map@);
    let mut lines = String::new();
    let mut i: usize = 0;
    while i < servers.map.len()
        invariant
            i <= servers.map@.len(),
            all == entries(servers.map@),
            lines@ == line_list(all.take(i as int)),
        decreases servers.map@.len() - i,
    {
        proof {
            assert(all.take(i + 1).drop_last() =~= all.take(i as int));
        }
        let ghost before = lines@;
        if i > 0 {
            lines.append("\n");
        } else {
            proof {
                assert(all.take(0) =~= Seq::<Seq<char>>::empty());
            }
        }
        lines.append(servers.map[i].0.as_str());
        lines.append(" -> ");
        lines.append(servers.map[i].1.as_str());
        proof {
            let e = servers.map@[i as int].0@ + " -> "@ + servers.map@[i as int].1@;
            assert(all.take(i + 1).last() == e);
            if i > 0 {
                assert(lines@ =~= before + "\n"@ + e);
            } else {
                assert(lines@ =~= e);
            }
        }
        i = i + 1;
    }
    proof {
        assert(all.take(servers.map@.len() as int) =~= all);
    }
    let mut t = String::new();
    t.append("*Список серверов*:\n");
    t.append(escape(lines.as_str()).as_str());
    t.append("\n*Выбранный сервер*: *");
    t.append(servers.current.as_str());
    t.append("*");
    t
}

/// One alias to a row.
pub open spec fn one_per_row(s: Seq<Seq<char>>) -> Seq<Seq<Seq<char>>> {
    s.map_values(|a: Seq<char>| seq![a])
}

fn switch_prompt(servers: &ServerState) -> (r: Reply)
    ensures
        r.markdown,
        r.offers("Текущий сервер: *"@ + servers.current@ + "*"@, one_per_row(aliases(servers.map@))),
{
    let ghost all = aliases(servers.map@);
    let mut k: Vec<Vec<String>> = Vec::new();
    let mut i: usize = 0;
    while i < servers.map.len()
        invariant
            i <= servers.map@.len(),
            all == aliases(servers.map@),
            rows_view(k@) == one_per_row(all.take(i as int)),
        decreases servers.map@.len() - i,
    {
        let row = row1(servers.map[i].0.as_str());
        let ghost before = k@;
        k.push(row);
        proof {
            assert(rows_view(k@) =~= rows_view(before).push(strings_view(row@)));
            assert(one_per_row(all.take(i + 1)) =~= one_per_row(all.take(i as int)).push(seq![all[i as int]]));
        }
        i = i + 1;
    }
    proof {
        assert(all.take(servers.map@.len() as int) =~= all);
    }
    let mut t = String::new();
    t.append("Текущий сервер: *");
    t.append(servers.current.as_str());
    t.append("*");
    Reply { text: t, markdown: true, keyboard: k }
}

/// Entries joined by ", ".
pub open spec fn comma_list(s: Seq<Seq<char>>) -> Seq<char>
    decreases s.len(),
{
    if s.len() == 0 {
        Seq::empty()
    } else if s.len() == 1 {
        s[0]
    } else {
        comma_list(s.drop_last()) + ", "@ + s.last()
    }
}

pub open spec fn unknown_server_text_of(map: Seq<(String, String)>) -> Seq<char> {
    "Нет такого сервера. Доступные серверы: "@ + comma_list(aliases(map))
}

fn unknown_server_text(servers: &ServerState) -> (r: String)
    ensures
        r@ == unknown_server_text_of(servers.map@),
{
    let ghost all = aliases(servers.map@);
    let mut list = String::new();
    let mut i: usize = 0;
    while i < servers.map.len()
        invariant
            i <= servers.map@.len(),
            all == aliases(servers.map@),
            list@ == comma_list(all.take(i as int)),
        decreases servers.map@.len() - i,
    {
        proof {
            assert(all.take(i + 1).drop_last() =~= all.take(i as int));
            assert(all.take(i + 1).last() == servers.map@[i as int].0@);
        }
        if i > 0 {
            list.append(", ");
        } else {
            proof {
                assert(all.take(0) =~= Seq::<Seq<char>>::empty());
            }
        }
        list.append(servers.map[i].0.as_str());
        i = i + 1;
    }
    proof {
        assert(all.take(servers.map@.len() as int) =~= all);
    }
    let mut t = String::new();
    t.append("Нет такого сервера. Доступные серверы: ");
    t.append(list.as_str());
    t
}

fn find_group(m: &OlapMap, key: &String) -> (r: Option<usize>)
    ensures
        r is None <==> !keys_of(m@).contains(key@),
        r matches Some(i) ==> i < m@.len() && m@[i as int].0@ == key@,
{
    let mut i: usize = 0;
    while i < m.len()
        invariant
            i <= m@.len(),
            forall|k: int| 0 <= k < i ==> (#[trigger] m@[k]).0@ != key@,
        decreases m@.len() - i,
    {
        if m[i].0 == *key {
            proof {
                assert(keys_of(m@)[i as int] == key@);
            }
            return Some(i);
        }
        i = i + 1;
    }
    proof {
        if keys_of(m@).contains(key@) {
            let k = choose|k: int| 0 <= k < m@.len() && keys_of(m@)[k] == key@;
            assert(m@[k].0@ != key@);
        }
    }
    None
}

fn sums_fit_check(es: &Vec<OlapElement>) -> (r: bool)
    ensures
        r == sums_fit(es@),
{
    let mut i: usize = 0;
    while i < es.len()
        invariant
            i <= es@.len(),
            forall|k: int| 0 <= k < i ==> #[trigger] es@[k].dish_discount_sum@.len() + 4 <= usize::MAX,
        decreases es@.len() - i,
    {
        if es[i].dish_discount_sum.as_str().unicode_len() > usize::MAX - 4 {
            proof {
                assert(!(es@[i as int].dish_discount_sum@.len() + 4 <= usize::MAX));
            }
            return false;
        }
        i = i + 1;
    }
    true
}

/// Handles one message of `sender` in a chat: checks the sender's role, then
/// acts on `text` according to the chat's state.
pub fn handle_states(
    accounts: &mut Accounts,
    servers: &mut ServerState,
    chat: &mut ChatSession,
    sender: &Option<String>,
    text: &String,
) -> (r: Outcome)
    requires
        old(servers).wf(),
    ensures
        final(servers).wf(),
        final(accounts).admins_list == old(accounts).admins_list,
        final(servers).map == old(servers).map,
        final(chat).olap == old(chat).olap,
        !may_use(*old(accounts), *sender) ==> {
            &&& *final(chat) == *old(chat)
            &&& *final(accounts) == *old(accounts)
            &&& *final(servers) == *old(servers)
            &&& r.fetch is None
            &&& !r.persist
            &&& r.replies@.len() == 1
            &&& r.replies@[0].says(denied_text())
        },
        may_use(*old(accounts), *sender) ==> {
            &&& final(chat).state == next_state(
                old(chat).state,
                text@,
                is_admin_sender(*old(accounts), *sender),
            )
            &&& r.fetch == fetch_for(old(chat).state, text@)
            &&& r.persist == persists(old(chat).state, text@, names(old(accounts).allowed_list@))
            &&& names(final(accounts).allowed_list@) == next_allowed(
                old(chat).state,
                text@,
                names(old(accounts).allowed_list@),
            )
            &&& (old(chat).state == ChatState::AwaitingServerChoice && aliases(
                old(servers).map@,
            ).contains(text@)) ==> final(servers).current@ == text@
            &&& !(old(chat).state == ChatState::AwaitingServerChoice && aliases(
                old(servers).map@,
            ).contains(text@)) ==> final(servers).current == old(servers).current
            &&& final(chat).state == ChatState::AwaitingMenuChoice ==> r.replies@.len() > 0
                && is_main_menu(r.replies@.last())
            &&& fetch_for(old(chat).state, text@) is Some ==> r.replies@.len() == 0
            &&& old(chat).state == ChatState::Idle ==> r.replies@.len() == 1 && is_main_menu(r.replies@[0])
            &&& (old(chat).state == ChatState::AwaitingUserToDelete && !names(
                old(accounts).allowed_list@,
            ).contains(text@)) ==> r.replies@.len() == 1 && is_main_menu(r.replies@[0])
            &&& (old(chat).state == ChatState::AwaitingNewUserName && text@.len() == 0)
                ==> r.replies@.len() == 1 && r.replies@[0].says(empty_name_text())
            &&& (old(chat).state == ChatState::AwaitingNewUserName && text@.len() > 0)
                ==> r.replies@[0].says(added_text(handle_of(text@)))
            &&& persists(old(chat).state, text@, names(old(accounts).allowed_list@))
                && old(chat).state == ChatState::AwaitingUserToDelete
                ==> r.replies@[0].says(removed_text(text@))
            &&& (old(chat).state == ChatState::AwaitingMenuChoice && text@ == "Отчёты"@)
                ==> r.replies@.len() == 1 && r.replies@[0].offers("Выберите опцию"@, report_menu_options())
            &&& (old(chat).state == ChatState::AwaitingMenuChoice && text@ == "Администрирование"@)
                ==> if is_admin_sender(*old(accounts), *sender) {
                r.replies@.len() == 1 && r.replies@[0].offers("Выберите опцию"@, admin_menu_options())
            } else {
                r.replies@[0].says("Вы не находитесь в списке админов"@)
            }
            &&& (old(chat).state == ChatState::AwaitingAdminMenuChoice && text@ == "Добавить пользователя"@)
                ==> r.replies@.len() == 1 && r.replies@[0].says("Введите имя пользователя"@)
            &&& (old(chat).state == ChatState::AwaitingAdminMenuChoice && text@ == "Удалить пользователя"@)
                ==> r.replies@.len() == 1 && r.replies@[0].offers(
                "Выберите аккаунт для удаления"@,
                in_pairs(names(old(accounts).allowed_list@)),
            )
            &&& (old(chat).state == ChatState::AwaitingMenuChoice && text@ == "Сменить сервер"@)
                ==> r.replies@.len() == 1 && r.replies@[0].markdown && r.replies@[0].offers(
                "Текущий сервер: *"@ + old(servers).current@ + "*"@,
                one_per_row(aliases(old(servers).map@)),
            )
            &&& (old(chat).state == ChatState::AwaitingMenuChoice && text@ == "Список серверов"@)
                ==> r.replies@[0].says_markdown(server_list_text_of(*old(servers)))
            &&& (old(chat).state == ChatState::AwaitingAdminMenuChoice && text@ == "Список пользователей"@)
                ==> r.replies@[0].says("Список пользователей:\n"@ + line_list(names(old(accounts).allowed_list@)))
            &&& (old(chat).state == ChatState::AwaitingAdminMenuChoice && text@ == "Список админов"@)
                ==> r.replies@[0].says("Список админов:\n"@ + line_list(names(old(accounts).admins_list@)))
            &&& old(chat).state == ChatState::AwaitingServerChoice ==> if aliases(old(servers).map@).contains(text@) {
                exists|i: int| 0 <= i < old(servers).map@.len() && old(servers).map@[i].0@ == text@
                    && r.replies@[0].says(switched_text(text@, old(servers).map@[i].1@))
            } else {
                r.replies@[0].says(unknown_server_text_of(old(servers).map@))
            }
            &&& old(chat).state == ChatState::AwaitingOlapCategoryChoice ==> if keys_of(old(chat).olap@).contains(text@) {
                exists|j: int| 0 <= j < old(chat).olap@.len() && old(chat).olap@[j].0@ == text@
                    && if old(chat).olap@[j].1@.len() == 0 {
                        r.replies@[0].says(nothing_found_text())
                    } else if sums_fit(old(chat).olap@[j].1@) {
                        r.replies@[0].says_markdown(render(old(chat).olap@[j].1@))
                    } else {
                        r.replies@[0].says(failure_text())
                    }
            } else {
                r.replies@[0].says(no_category_text())
            }
        },
{
    let user = match sender {
        Some(u) => u,
        None => {
            return done(only(plain("Вы не в списке пользователей".to_owned())));
        },
    };
    let allowed = is_allowed(&accounts.allowed_list, user);
    let admin = is_admin(&accounts.admins_list, user);
    if user.as_str().unicode_len() == 0 || (!allowed && !admin) {
        return done(only(plain("Вы не в списке пользователей".to_owned())));
    }
    proof {
        reveal_strlit("Отчёты");
        reveal_strlit("Сменить сервер");
        reveal_strlit("Администрирование");
        reveal_strlit("Добавить пользователя");
        reveal_strlit("Удалить пользователя");
        reveal_strlit("Список серверов");
        reveal_strlit("Список пользователей");
        reveal_strlit("Список админов");
        assert("Удалить пользователя"@ != "Список пользователей"@) by {
            assert("Удалить пользователя"@[0] != "Список пользователей"@[0]);
        }
    }
    match chat.state {
        ChatState::Idle => {
            chat.state = ChatState::AwaitingMenuChoice;
            done(menu_only())
        },
        ChatState::AwaitingMenuChoice => {
            if is_text(text, "Отчёты") {
                chat.state = ChatState::AwaitingReportMenuChoice;
                done(only(report_menu()))
            } else if is_text(text, "Сменить сервер") {
                chat.state = ChatState::AwaitingServerChoice;
                done(only(switch_prompt(servers)))
            } else if is_text(text, "Администрирование") {
                if admin {
                    chat.state = ChatState::AwaitingAdminMenuChoice;
                    done(only(admin_menu()))
                } else {
                    chat.state = ChatState::AwaitingMenuChoice;
                    done(with_menu(plain("Вы не находитесь в списке админов".to_owned())))
                }
            } else if is_text(text, "Список серверов") {
                chat.state = ChatState::AwaitingMenuChoice;
                done(with_menu(marked(server_list_text(servers))))
            } else {
                chat.state = ChatState::AwaitingMenuChoice;
                done(menu_only())
            }
        },
        ChatState::AwaitingReportMenuChoice => {
            let fetch = if is_text(text, "За сегодня") {
                Some(Fetch::Shifts(ShiftReport::Today))
            } else if is_text(text, "За вчера") {
                Some(Fetch::Shifts(ShiftReport::Yesterday))
            } else if is_text(text, "За 7 дней") {
                Some(Fetch::Shifts(ShiftReport::Week))
            } else if is_text(text, "За текущий месяц") {
                Some(Fetch::Shifts(ShiftReport::Month))
            } else if is_text(text, "Olap отчёт") {
                Some(Fetch::Olap)
            } else {
                None
            };
            match fetch {
                Some(f) => Outcome { replies: Vec::new(), fetch: Some(f), persist: false },
                None => {
                    chat.state = ChatState::AwaitingMenuChoice;
                    done(menu_only())
                },
            }
        },
        ChatState::AwaitingServerChoice => {
            chat.state = ChatState::AwaitingMenuChoice;
            match servers.find(text) {
                Some(i) => {
                    let url = servers.map[i].1.clone();
                    servers.current = text.clone();
                    proof {
                        assert(aliases(servers.map@)[i as int] == text@);
                    }
                    let mut t = String::new();
                    t.append("Текущий сервер теперь '");
                    t.append(text.as_str());
                    t.append("' -> ");
                    t.append(url.as_str());
                    done(with_menu(plain(t)))
                },
                None => done(with_menu(plain(unknown_server_text(servers)))),
            }
        },
        ChatState::AwaitingOlapCategoryChoice => {
            chat.state = ChatState::AwaitingMenuChoice;
            match find_group(&chat.olap, text) {
                Some(i) => {
                    if chat.olap[i].1.len() == 0 {
                        done(with_menu(plain("По вашим фильтрам ничего не найдено.".to_owned())))
                    } else if sums_fit_check(&chat.olap[i].1) {
                        let table = Server::display_olap(&chat.olap[i].1);
                        done(with_menu(marked(table)))
                    } else {
                        done(with_menu(plain("Сервис недоступен, попробуйте позже.".to_owned())))
                    }
                },
                None => done(with_menu(plain("Нет такой категории".to_owned()))),
            }
        },
        ChatState::AwaitingAdminMenuChoice => {
            if is_text(text, "Добавить пользователя") {
                chat.state = ChatState::AwaitingNewUserName;
                done(only(plain("Введите имя пользователя".to_owned())))
            } else if is_text(text, "Удалить пользователя") {
                chat.state = ChatState::AwaitingUserToDelete;
                let k = pairs(&accounts.allowed_list);
                done(only(Reply { text: "Выберите аккаунт для удаления".to_owned(), markdown: false, keyboard: k }))
            } else if is_text(text, "Список пользователей") {
                chat.state = ChatState::AwaitingMenuChoice;
                let mut t = String::new();
                t.append("Список пользователей:\n");
                t.append(lines_of(&accounts.allowed_list).as_str());
                done(with_menu(plain(t)))
            } else if is_text(text, "Список админов") {
                chat.state = ChatState::AwaitingMenuChoice;
                let mut t = String::new();
                t.append("Список админов:\n");
                t.append(lines_of(&accounts.admins_list).as_str());
                done(with_menu(plain(t)))
            } else {
                chat.state = ChatState::AwaitingMenuChoice;
                done(menu_only())
            }
        },
        ChatState::AwaitingNewUserName => {
            if text.as_str().unicode_len() == 0 {
                done(only(plain("Вы не ввели имя пользователя.".to_owned())))
            } else {
                let name = strip_handle(text);
                if !contains_name(&accounts.allowed_list, &name) {
                    let ghost before = accounts.allowed_list@;
                    accounts.allowed_list.push(name.clone());
                    proof {
                        assert(names(accounts.allowed_list@) =~= names(before).push(name@));
                    }
                }
                chat.state = ChatState::AwaitingMenuChoice;
                let mut t = String::new();
                t.append("Пользователь @");
                t.append(name.as_str());
                t.append(" успешно добавлен");
                Outcome { replies: with_menu(plain(t)), fetch: None, persist: true }
            }
        },
        ChatState::AwaitingUserToDelete => {
            chat.state = ChatState::AwaitingMenuChoice;
            if contains_name(&accounts.allowed_list, text) {
                accounts.allowed_list = remove_name(&accounts.allowed_list, text);
                let mut t = String::new();
                t.append("Пользователь @");
                t.append(text.as_str());
                t.append(" успешно удалён");
                Outcome { replies: with_menu(plain(t)), fetch: None, persist: true }
            } else {
                done(menu_only())
            }
        },
    }
}

/// The heading of a single-shift report and how many shifts back it looks.
pub open spec fn shift_offset(report: ShiftReport) -> nat {
    if report == ShiftReport::Yesterday { 1 } else { 0 }
}

pub open spec fn shift_heading(report: ShiftReport) -> Seq<char> {
    if report == ShiftReport::Yesterday { "Предыдущая смена"@ } else { "Текущая смена"@ }
}

pub open spec fn total_label(report: ShiftReport) -> Seq<char> {
    if report == ShiftReport::Week { "Сумма за прошедшие 7 дней"@ } else { "Сумма за текущий месяц"@ }
}

pub open spec fn not_found_text(offset: nat) -> Seq<char> {
    "Нет смены со сдвигом "@ + crate::text::decimal(offset)
}

/// Takes the shifts listed for `report` on the server `server` and answers the
/// chat: the latest or the previous shift, or the total of the period, then the
/// main menu. Where the listing holds no shift that far back, says so and leaves
/// the chat where it was.
pub fn shifts_ready(chat: &mut ChatSession, report: ShiftReport, server: &String, shifts: Vec<Shift>) -> (r: Outcome)
    ensures
        r.fetch is None,
        !r.persist,
        final(chat).olap == old(chat).olap,
        (report == ShiftReport::Today || report == ShiftReport::Yesterday) ==> if shift_offset(report) < shifts@.len() {
            &&& final(chat).state == ChatState::AwaitingMenuChoice
            &&& r.replies@.len() == 2
            &&& r.replies@[0].says_markdown(shift_text(
                server@,
                shift_heading(report),
                shifts@[shifts@.len() - 1 - shift_offset(report)],
            ))
            &&& is_main_menu(r.replies@[1])
        } else {
            &&& final(chat).state == old(chat).state
            &&& r.replies@.len() == 1
            &&& r.replies@[0].says(not_found_text(shift_offset(report)))
        },
        (report == ShiftReport::Week || report == ShiftReport::Month) ==> {
            &&& final(chat).state == ChatState::AwaitingMenuChoice
            &&& r.replies@.len() == 2
            &&& r.replies@[0].says_markdown(total_text(server@, total_label(report), total_paid(shifts@)))
            &&& is_main_menu(r.replies@[1])
        },
{
    match report {
        ShiftReport::Today | ShiftReport::Yesterday => {
            let offset: usize = match report {
                ShiftReport::Yesterday => 1,
                _ => 0,
            };
            let heading = match report {
                ShiftReport::Yesterday => "Предыдущая смена",
                _ => "Текущая смена",
            };
            match Server::latest_shift(shifts, offset) {
                Ok(shift) => {
                    chat.state = ChatState::AwaitingMenuChoice;
                    done(with_menu(marked(shift_report(server, heading, &shift))))
                },
                Err(ShiftError::NotFound { offset }) => {
                    let mut t = String::new();
                    t.append("Нет смены со сдвигом ");
                    let digits = crate::text::decimal_of(offset as u64);
                    t.append(crate::text::string_of(&digits).as_str());
                    done(only(plain(t)))
                },
            }
        },
        ShiftReport::Week | ShiftReport::Month => {
            let label = match report {
                ShiftReport::Week => "Сумма за прошедшие 7 дней",
                _ => "Сумма за текущий месяц",
            };
            let sum = Server::sum_shifts(&shifts);
            chat.state = ChatState::AwaitingMenuChoice;
            done(with_menu(marked(total_report(server, label, sum))))
        },
    }
}

/// Takes the sales breakdown fetched for the chat and keeps it for the category
/// choice that follows. An empty breakdown is reported as such and the chat goes
/// back to the main menu; otherwise the categories are offered, two to a row.
pub fn olap_ready(chat: &mut ChatSession, server: &String, groups: OlapMap) -> (r: Outcome)
    ensures
        r.fetch is None,
        !r.persist,
        final(chat).olap == groups,
        groups@.len() == 0 ==> {
            &&& final(chat).state == ChatState::AwaitingMenuChoice
            &&& r.replies@.len() == 2
            &&& r.replies@[0].says(nothing_found_text())
            &&& is_main_menu(r.replies@[1])
        },
        groups@.len() > 0 ==> {
            &&& final(chat).state == ChatState::AwaitingOlapCategoryChoice
            &&& r.replies@.len() == 1
            &&& r.replies@[0].markdown
            &&& r.replies@[0].offers(
                "Режим Olap отчёта\\. Текущий сервер: *"@ + server@ + "*"@,
                in_pairs(keys_of(groups@)),
            )
        },
{
    if groups.len() == 0 {
        chat.olap = groups;
        chat.state = ChatState::AwaitingMenuChoice;
        return done(with_menu(plain("По вашим фильтрам ничего не найдено.".to_owned())));
    }
    let mut keys: Vec<String> = Vec::new();
    let mut i: usize = 0;
    while i < groups.len()
        invariant
            i <= groups@.len(),
            strings_view(keys@) == keys_of(groups@).take(i as int),
        decreases groups@.len() - i,
    {
        let k = groups[i].0.clone();
        let ghost before = keys@;
        keys.push(k);
        proof {
            assert(strings_view(keys@) =~= strings_view(before).push(k@));
            assert(keys_of(groups@).take(i + 1) =~= keys_of(groups@).take(i as int).push(groups@[i as int].0@));
        }
        i = i + 1;
    }
    proof {
        assert(keys_of(groups@).take(groups@.len() as int) =~= keys_of(groups@));
    }
    let keyboard = pairs(&keys);
    let mut t = String::new();
    t.append("Режим Olap отчёта\\. Текущий сервер: *");
    t.append(server.as_str());
    t.append("*");
    chat.olap = groups;
    chat.state = ChatState::AwaitingOlapCategoryChoice;
    done(only(Reply { text: t, markdown: true, keyboard }))
}

/// The answer when server work failed: a notice, and the chat stays where it was
/// so that the same choice can be made again.
pub fn fetch_failed() -> (r: Outcome)
    ensures
        r.fetch is None,
        !r.persist,
        r.replies@.len() == 1,
        r.replies@[0].says(failure_text()),
{
    done(only(plain("Сервис недоступен, попробуйте позже.".to_owned())))
}

/// A new session on the server in use, with the bot's credentials.
pub fn collect_server_info(servers: &ServerState, login: &String, pass: &String) -> (r: Server)
    requires
        servers.wf(),
    ensures
        r.login == *login,
        r.pass == *pass,
        exists|i: int| 0 <= i < servers.map@.len() && servers.map@[i].0@ == servers.current@ && r.url@ == servers.map@[i].1@,
        r.token is None,
{
    Server::new(login.clone(), pass.clone(), servers.current_url())
}

/// An idle chat moves to the main menu on the next message of a known operator,
/// whatever it says (`/start` among others), and asks for no server work.
pub proof fn lemma_start_reaches_menu(text: Seq<char>, admin: bool)
    ensures
        next_state(ChatState::Idle, text, admin) == ChatState::AwaitingMenuChoice,
        fetch_for(ChatState::Idle, text) is None,
{
}

/// Adding a handle puts it on the allow-list, after the entries already there,
/// unless it is there already; adding it again changes nothing. So a handle that
/// was absent is on the list exactly once, however often it is added.
pub proof fn lemma_add_user_idempotent(list: Seq<Seq<char>>, text: Seq<char>)
    requires
        text.len() > 0,
    ensures
        next_allowed(ChatState::AwaitingNewUserName, text, list).contains(handle_of(text)),
        next_allowed(
            ChatState::AwaitingNewUserName,
            text,
            next_allowed(ChatState::AwaitingNewUserName, text, list),
        ) == next_allowed(ChatState::AwaitingNewUserName, text, list),
        list.contains(handle_of(text)) ==> next_allowed(ChatState::AwaitingNewUserName, text, list)
            == list,
        !list.contains(handle_of(text)) ==> next_allowed(ChatState::AwaitingNewUserName, text, list)
            == list.push(handle_of(text)),
        !list.contains(handle_of(text)) ==> next_allowed(
            ChatState::AwaitingNewUserName,
            text,
            list,
        ).to_multiset().count(handle_of(text)) == 1,
{
    let h = handle_of(text);
    let l1 = list.push(h);
    assert(l1.contains(h)) by {
        assert(l1[list.len() as int] == h);
    }
    list.to_multiset_ensures();
    l1.to_multiset_ensures();
}

} // verus!
