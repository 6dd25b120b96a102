use iiko_bot::iiko::{SessionStatus, Shift};
use iiko_bot::olap::{OlapElement, OlapMap};
use iiko_bot::tg::{
    collect_server_info, fetch_failed, handle_states, is_admin, is_allowed, olap_ready, shifts_ready,
    Accounts, ChatSession, ChatState, Fetch, Outcome, ServerState, ShiftReport,
};

fn accounts() -> Accounts {
    Accounts {
        allowed_list: vec!["olga".to_string(), "petr".to_string()],
        admins_list: vec!["boss".to_string()],
    }
}

fn servers() -> ServerState {
    ServerState::new(vec![
        ("main".to_string(), "main.example.com".to_string()),
        ("spare".to_string(), "spare.example.com".to_string()),
    ])
    .unwrap()
}

fn send(acc: &mut Accounts, srv: &mut ServerState, chat: &mut ChatSession, who: &str, text: &str) -> Outcome {
    handle_states(acc, srv, chat, &Some(who.to_string()), &text.to_string())
}

fn in_state(state: ChatState) -> ChatSession {
    let mut c = ChatSession::new();
    c.state = state;
    c
}

fn shift(number: usize, pay_orders: i64) -> Shift {
    Shift {
        id: format!("id-{number}"),
        session_number: number,
        fiscal_number: 0,
        cash_reg_number: 1,
        cash_reg_serial: "S".to_string(),
        open_date: "1999-09-01".to_string(),
        close_date: None,
        accept_date: None,
        manager_id: "m".to_string(),
        responsible_user_id: None,
        session_start_cash: 0,
        pay_orders,
        sum_writeoff_orders: 0,
        sales_cash: 2_500,
        sales_credit: 0,
        sales_card: 1_234_599,
        pay_in: 0,
        pay_out: 0,
        pay_income: 0,
        cash_remain: None,
        cash_diff: 0,
        session_status: SessionStatus::OPEN,
        conception_id: None,
    }
}

fn is_main_menu(o: &Outcome) -> bool {
    let last = o.replies.last().unwrap();
    last.text == "Выберите опцию"
        && last.keyboard
            == vec![
                vec!["Отчёты".to_string(), "Сменить сервер".to_string()],
                vec!["Список серверов".to_string(), "Администрирование".to_string()],
            ]
}

#[test]
fn roles_are_looked_up_by_handle() {
    let a = accounts();
    assert!(is_allowed(&a.allowed_list, &"olga".to_string()));
    assert!(!is_allowed(&a.allowed_list, &"boss".to_string()));
    assert!(is_admin(&a.admins_list, &"boss".to_string()));
    assert!(!is_admin(&a.admins_list, &"olga".to_string()));
}

#[test]
fn start_from_idle_reaches_the_main_menu() {
    let (mut a, mut s, mut c) = (accounts(), servers(), ChatSession::new());
    let o = send(&mut a, &mut s, &mut c, "olga", "/start");
    assert_eq!(c.state, ChatState::AwaitingMenuChoice);
    assert!(is_main_menu(&o));
    assert!(o.fetch.is_none());
}

#[test]
fn unknown_sender_is_denied_and_nothing_moves() {
    for state in [ChatState::Idle, ChatState::AwaitingReportMenuChoice, ChatState::AwaitingNewUserName] {
        let (mut a, mut s, mut c) = (accounts(), servers(), in_state(state));
        let o = send(&mut a, &mut s, &mut c, "stranger", "За 7 дней");
        assert_eq!(c.state, state);
        assert_eq!(o.replies.len(), 1);
        assert_eq!(o.replies[0].text, "Вы не в списке пользователей");
        assert!(o.fetch.is_none());
        assert!(!o.persist);
    }
    let (mut a, mut s, mut c) = (accounts(), servers(), ChatSession::new());
    let o = handle_states(&mut a, &mut s, &mut c, &None, &"/start".to_string());
    assert_eq!(c.state, ChatState::Idle);
    assert_eq!(o.replies[0].text, "Вы не в списке пользователей");
    let o = send(&mut a, &mut s, &mut c, "", "/start");
    assert_eq!(c.state, ChatState::Idle);
    assert_eq!(o.replies[0].text, "Вы не в списке пользователей");
}

#[test]
fn report_choices_ask_for_server_work() {
    let cases = [
        ("За сегодня", Fetch::Shifts(ShiftReport::Today)),
        ("За вчера", Fetch::Shifts(ShiftReport::Yesterday)),
        ("За 7 дней", Fetch::Shifts(ShiftReport::Week)),
        ("За текущий месяц", Fetch::Shifts(ShiftReport::Month)),
        ("Olap отчёт", Fetch::Olap),
    ];
    for (text, fetch) in cases {
        let (mut a, mut s, mut c) = (accounts(), servers(), in_state(ChatState::AwaitingReportMenuChoice));
        let o = send(&mut a, &mut s, &mut c, "olga", text);
        assert_eq!(o.fetch, Some(fetch));
        assert_eq!(c.state, ChatState::AwaitingReportMenuChoice);
    }
}

#[test]
fn menu_moves_to_submenus() {
    let (mut a, mut s, mut c) = (accounts(), servers(), in_state(ChatState::AwaitingMenuChoice));
    send(&mut a, &mut s, &mut c, "olga", "Отчёты");
    assert_eq!(c.state, ChatState::AwaitingReportMenuChoice);
    let (mut a, mut s, mut c) = (accounts(), servers(), in_state(ChatState::AwaitingMenuChoice));
    let o = send(&mut a, &mut s, &mut c, "olga", "Сменить сервер");
    assert_eq!(c.state, ChatState::AwaitingServerChoice);
    assert_eq!(o.replies[0].keyboard, vec![vec!["main".to_string()], vec!["spare".to_string()]]);
    let (mut a, mut s, mut c) = (accounts(), servers(), in_state(ChatState::AwaitingMenuChoice));
    let o = send(&mut a, &mut s, &mut c, "olga", "Список серверов");
    assert_eq!(c.state, ChatState::AwaitingMenuChoice);
    assert!(o.replies[0].text.contains("main \\-\\> main\\.example\\.com"));
    assert!(is_main_menu(&o));
}

#[test]
fn admin_menu_needs_an_administrator() {
    let (mut a, mut s, mut c) = (accounts(), servers(), in_state(ChatState::AwaitingMenuChoice));
    let o = send(&mut a, &mut s, &mut c, "olga", "Администрирование");
    assert_eq!(c.state, ChatState::AwaitingMenuChoice);
    assert_eq!(o.replies[0].text, "Вы не находитесь в списке админов");
    assert!(is_main_menu(&o));
    let (mut a, mut s, mut c) = (accounts(), servers(), in_state(ChatState::AwaitingMenuChoice));
    send(&mut a, &mut s, &mut c, "boss", "Администрирование");
    assert_eq!(c.state, ChatState::AwaitingAdminMenuChoice);
}

#[test]
fn unrecognised_input_falls_back_to_the_menu() {
    for state in [
        ChatState::AwaitingMenuChoice,
        ChatState::AwaitingReportMenuChoice,
        ChatState::AwaitingAdminMenuChoice,
    ] {
        let (mut a, mut s, mut c) = (accounts(), servers(), in_state(state));
        let o = send(&mut a, &mut s, &mut c, "boss", "что-то ещё");
        assert_eq!(c.state, ChatState::AwaitingMenuChoice);
        assert!(is_main_menu(&o));
    }
}

#[test]
fn switching_server_changes_the_current_one() {
    let (mut a, mut s, mut c) = (accounts(), servers(), in_state(ChatState::AwaitingServerChoice));
    assert_eq!(s.current, "main");
    let o = send(&mut a, &mut s, &mut c, "olga", "spare");
    assert_eq!(s.current, "spare");
    assert_eq!(o.replies[0].text, "Текущий сервер теперь 'spare' -> spare.example.com");
    assert_eq!(c.state, ChatState::AwaitingMenuChoice);
}

#[test]
fn unknown_server_is_reported_with_the_valid_aliases() {
    let (mut a, mut s, mut c) = (accounts(), servers(), in_state(ChatState::AwaitingServerChoice));
    let o = send(&mut a, &mut s, &mut c, "olga", "other");
    assert_eq!(s.current, "main");
    assert_eq!(o.replies[0].text, "Нет такого сервера. Доступные серверы: main, spare");
    assert!(is_main_menu(&o));
}

#[test]
fn empty_registry_is_refused() {
    assert!(ServerState::new(Vec::new()).is_none());
}

#[test]
fn session_uses_the_current_server() {
    let s = servers();
    let server = collect_server_info(&s, &"bot".to_string(), &"pw".to_string());
    assert_eq!(server.url, "main.example.com");
    assert_eq!(server.login, "bot");
    assert!(server.token.is_none());
}

#[test]
fn adding_a_user_twice_keeps_one_entry() {
    let (mut a, mut s, mut c) = (accounts(), servers(), in_state(ChatState::AwaitingAdminMenuChoice));
    for _ in 0..2 {
        send(&mut a, &mut s, &mut c, "boss", "Администрирование");
        c.state = ChatState::AwaitingAdminMenuChoice;
        send(&mut a, &mut s, &mut c, "boss", "Добавить пользователя");
        assert_eq!(c.state, ChatState::AwaitingNewUserName);
        let o = send(&mut a, &mut s, &mut c, "boss", "@alice");
        assert!(o.persist);
        assert_eq!(o.replies[0].text, "Пользователь @alice успешно добавлен");
        assert_eq!(c.state, ChatState::AwaitingMenuChoice);
        c.state = ChatState::AwaitingAdminMenuChoice;
    }
    assert_eq!(a.allowed_list.iter().filter(|u| u.as_str() == "alice").count(), 1);
}

#[test]
fn empty_user_name_is_asked_again() {
    let (mut a, mut s, mut c) = (accounts(), servers(), in_state(ChatState::AwaitingNewUserName));
    let o = send(&mut a, &mut s, &mut c, "boss", "");
    assert_eq!(c.state, ChatState::AwaitingNewUserName);
    assert_eq!(o.replies.len(), 1);
    assert_eq!(o.replies[0].text, "Вы не ввели имя пользователя.");
    assert!(!o.persist);
    assert_eq!(a.allowed_list.len(), 2);
}

#[test]
fn deleting_a_user_removes_the_handle() {
    let (mut a, mut s, mut c) = (accounts(), servers(), in_state(ChatState::AwaitingAdminMenuChoice));
    let o = send(&mut a, &mut s, &mut c, "boss", "Удалить пользователя");
    assert_eq!(c.state, ChatState::AwaitingUserToDelete);
    assert_eq!(o.replies[0].keyboard, vec![vec!["olga".to_string(), "petr".to_string()]]);
    let o = send(&mut a, &mut s, &mut c, "boss", "olga");
    assert!(o.persist);
    assert_eq!(a.allowed_list, vec!["petr".to_string()]);
    assert_eq!(c.state, ChatState::AwaitingMenuChoice);
}

#[test]
fn deleting_an_absent_user_changes_nothing() {
    let (mut a, mut s, mut c) = (accounts(), servers(), in_state(ChatState::AwaitingUserToDelete));
    let o = send(&mut a, &mut s, &mut c, "boss", "nobody");
    assert!(!o.persist);
    assert_eq!(a.allowed_list.len(), 2);
    assert_eq!(o.replies.len(), 1);
    assert!(is_main_menu(&o));
}

#[test]
fn week_total_of_three_shifts() {
    let mut c = in_state(ChatState::AwaitingReportMenuChoice);
    let shifts = vec![shift(1, 10_000), shift(2, 25_000), shift(3, 7_500)];
    let o = shifts_ready(&mut c, ShiftReport::Week, &"main".to_string(), shifts);
    assert_eq!(o.replies[0].text, "*Сервер*: *main*\n*Сумма за прошедшие 7 дней*: *425*");
    assert!(o.replies[0].markdown);
    assert!(is_main_menu(&o));
    assert_eq!(c.state, ChatState::AwaitingMenuChoice);
}

#[test]
fn month_total_groups_thousands() {
    let mut c = in_state(ChatState::AwaitingReportMenuChoice);
    let o = shifts_ready(&mut c, ShiftReport::Month, &"main".to_string(), vec![shift(1, 123_456_789)]);
    assert_eq!(o.replies[0].text, "*Сервер*: *main*\n*Сумма за текущий месяц*: *1\\.234\\.567*");
}

#[test]
fn today_reports_the_latest_shift() {
    let mut c = in_state(ChatState::AwaitingReportMenuChoice);
    let o = shifts_ready(&mut c, ShiftReport::Today, &"main".to_string(), vec![shift(7, 100), shift(8, 4_200_050)]);
    assert_eq!(
        o.replies[0].text,
        "*Сервер*: *main*\n*Текущая смена*:\nНомер смены: *8*\nСтатус: *Открыта*\n\
Оплачено картой: *12\\.345*\nОплачено наличкой: *2\\.500*\nИтог: *42\\.000*"
    );
    assert_eq!(c.state, ChatState::AwaitingMenuChoice);
}

#[test]
fn yesterday_without_an_earlier_shift_is_not_found() {
    let mut c = in_state(ChatState::AwaitingReportMenuChoice);
    let o = shifts_ready(&mut c, ShiftReport::Yesterday, &"main".to_string(), vec![shift(7, 100)]);
    assert_eq!(o.replies.len(), 1);
    assert_eq!(o.replies[0].text, "Нет смены со сдвигом 1");
    assert_eq!(c.state, ChatState::AwaitingReportMenuChoice);
}

#[test]
fn empty_olap_result_returns_to_the_menu() {
    let mut c = in_state(ChatState::AwaitingReportMenuChoice);
    let o = olap_ready(&mut c, &"main".to_string(), Vec::new());
    assert_eq!(o.replies[0].text, "По вашим фильтрам ничего не найдено.");
    assert!(is_main_menu(&o));
    assert_eq!(c.state, ChatState::AwaitingMenuChoice);
}

fn groups() -> OlapMap {
    vec![
        ("Супы".to_string(), vec![OlapElement { dish_discount_sum: "100".into(), dish_name: "Борщ".into(), guest_num: 2 }]),
        ("Напитки".to_string(), vec![OlapElement { dish_discount_sum: "50".into(), dish_name: "Морс".into(), guest_num: 4 }]),
        ("Другие".to_string(), vec![OlapElement { dish_discount_sum: "5".into(), dish_name: "Хлеб".into(), guest_num: 9 }]),
    ]
}

#[test]
fn olap_categories_are_offered_and_rendered() {
    let (mut a, mut s, mut c) = (accounts(), servers(), in_state(ChatState::AwaitingReportMenuChoice));
    let o = olap_ready(&mut c, &"main".to_string(), groups());
    assert_eq!(c.state, ChatState::AwaitingOlapCategoryChoice);
    assert_eq!(
        o.replies[0].keyboard,
        vec![vec!["Супы".to_string(), "Напитки".to_string()], vec!["Другие".to_string()]]
    );
    let o = send(&mut a, &mut s, &mut c, "olga", "Напитки");
    assert!(o.replies[0].markdown);
    assert!(o.replies[0].text.contains("│ Морс     │ 50    │ 4      │"));
    assert_eq!(c.state, ChatState::AwaitingMenuChoice);
}

#[test]
fn unknown_olap_category_is_reported() {
    let (mut a, mut s, mut c) = (accounts(), servers(), in_state(ChatState::AwaitingReportMenuChoice));
    olap_ready(&mut c, &"main".to_string(), groups());
    let o = send(&mut a, &mut s, &mut c, "olga", "Салаты");
    assert_eq!(o.replies[0].text, "Нет такой категории");
    assert_eq!(c.state, ChatState::AwaitingMenuChoice);
}

#[test]
fn failed_server_work_keeps_the_chat_where_it_was() {
    let o = fetch_failed();
    assert_eq!(o.replies.len(), 1);
    assert_eq!(o.replies[0].text, "Сервис недоступен, попробуйте позже.");
    assert!(o.fetch.is_none());
}

#[test]
fn user_and_admin_lists_are_one_per_line() {
    let (mut a, mut s, mut c) = (accounts(), servers(), in_state(ChatState::AwaitingAdminMenuChoice));
    let o = send(&mut a, &mut s, &mut c, "boss", "Список пользователей");
    assert_eq!(o.replies[0].text, "Список пользователей:\nolga\npetr");
    assert!(is_main_menu(&o));
    let (mut a, mut s, mut c) = (accounts(), servers(), in_state(ChatState::AwaitingAdminMenuChoice));
    let o = send(&mut a, &mut s, &mut c, "boss", "Список админов");
    assert_eq!(o.replies[0].text, "Список админов:\nboss");
    assert_eq!(c.state, ChatState::AwaitingMenuChoice);
}

#[test]
fn server_listing_and_switch_prompt() {
    let (mut a, mut s, mut c) = (accounts(), servers(), in_state(ChatState::AwaitingMenuChoice));
    let o = send(&mut a, &mut s, &mut c, "olga", "Список серверов");
    assert_eq!(
        o.replies[0].text,
        "*Список серверов*:\nmain \\-\\> main\\.example\\.com\nspare \\-\\> spare\\.example\\.com\n*Выбранный сервер*: *main*"
    );
    let (mut a, mut s, mut c) = (accounts(), servers(), in_state(ChatState::AwaitingMenuChoice));
    let o = send(&mut a, &mut s, &mut c, "olga", "Сменить сервер");
    assert_eq!(o.replies[0].text, "Текущий сервер: *main*");
    assert!(o.replies[0].markdown);
}

#[test]
fn empty_category_choice_says_nothing_was_found() {
    let (mut a, mut s, mut c) = (accounts(), servers(), in_state(ChatState::AwaitingReportMenuChoice));
    olap_ready(&mut c, &"main".to_string(), vec![("Пусто".to_string(), Vec::new())]);
    let o = send(&mut a, &mut s, &mut c, "olga", "Пусто");
    assert_eq!(o.replies[0].text, "По вашим фильтрам ничего не найдено.");
    assert!(!o.replies[0].markdown);
    assert!(is_main_menu(&o));
}

#[test]
fn report_choice_sends_nothing_until_the_server_answers() {
    let (mut a, mut s, mut c) = (accounts(), servers(), in_state(ChatState::AwaitingReportMenuChoice));
    let o = send(&mut a, &mut s, &mut c, "olga", "За 7 дней");
    assert!(o.replies.is_empty());
}
