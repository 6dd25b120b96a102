//! The POS server: its session token, the requests the bot sends it, and the
//! cash shifts it returns.

use vstd::prelude::*;
use crate::date::{Dates, ReportingDay, iso_date_of, month_day_of, days_back, date_bounds, FIRST_DAY, LAST_DAY};
use crate::shared::{make_url, sha1sum, url_of, sha1_hex_of};

verus! {

// ---------------------------------------------------------------------------
// Session token

/// How long a session token stays usable, in seconds.
pub const TOKEN_LIFETIME: u64 = 3600;

/// A session token and when it was issued, on the caller's clock in seconds.
pub struct NewToken {
    pub id: String,
    pub creation_time: u64,
    pub lifetime: u64,
}

impl NewToken {
    /// Seconds since issue; zero if the clock reads earlier than the issue time.
    pub open spec fn elapsed(self, now: u64) -> int {
        if now >= self.creation_time { now - self.creation_time } else { 0 }
    }

    pub open spec fn expired(self, now: u64) -> bool {
        self.elapsed(now) >= self.lifetime
    }

    pub fn is_expired(&self, now: u64) -> (r: bool)
        ensures
            r == self.expired(now),
    {
        let elapsed: u64 = if now >= self.creation_time { now - self.creation_time } else { 0 };
        elapsed >= self.lifetime
    }
}

/// How an HTTP request is sent.
#[derive(Clone, Copy, Debug, PartialEq, Eq, Structural)]
pub enum Method {
    Get,
    Post,
}

/// A request to the POS server: method, address and query parameters.
pub struct Request {
    pub method: Method,
    pub url: String,
    pub query: Vec<(String, String)>,
}

pub open spec fn query_view(q: Seq<(String, String)>) -> Seq<(Seq<char>, Seq<char>)> {
    q.map_values(|p: (String, String)| (p.0@, p.1@))
}

impl Request {
    pub open spec fn is(self, method: Method, url: Seq<char>, query: Seq<(Seq<char>, Seq<char>)>) -> bool {
        self.method == method && self.url@ == url && query_view(self.query@) == query
    }
}

fn pair(k: &str, v: String) -> (r: (String, String))
    ensures
        r.0@ == k@,
        r.1@ == v@,
{
    (k.to_owned(), v)
}

/// A POS server, with the credentials to open sessions on it and the session
/// token held, if any.
pub struct Server {
    pub login: String,
    pub pass: String,
    pub url: String,
    pub token: Option<NewToken>,
}

/// What to do to obtain a session token.
pub enum TokenStep {
    /// The held token is still usable.
    Cached(String),
    /// A new session must be opened with this request; its answer is the token.
    Authenticate(Request),
}

impl Server {
    pub fn new(login: String, pass: String, url: String) -> (r: Server)
        ensures
            r.login == login,
            r.pass == pass,
            r.url == url,
            r.token is None,
    {
        Server { login, pass, url, token: None }
    }

    pub open spec fn authenticated(self, now: u64) -> bool {
        self.token matches Some(t) && !t.expired(now)
    }

    /// Whether a token is held and has not expired.
    pub fn is_authenticated(&self, now: u64) -> (r: bool)
        ensures
            r == self.authenticated(now),
    {
        match &self.token {
            None => false,
            Some(t) => !t.is_expired(now),
        }
    }

    /// The server once a token `id` issued at `now` is held.
    pub open spec fn with_token(self, id: String, now: u64) -> Server {
        Server {
            token: Some(NewToken { id, creation_time: now, lifetime: TOKEN_LIFETIME }),
            ..self
        }
    }

    pub open spec fn is_auth_request(self, r: Request) -> bool {
        r.is(
            Method::Get,
            url_of(self.url@, seq!["auth"]),
            seq![("login"@, self.login@), ("pass"@, sha1_hex_of(self.pass@))],
        )
    }

    /// The request that opens a session: the login and the SHA-1 of the password.
    pub fn auth_request(&self) -> (r: Request)
        ensures
            self.is_auth_request(r),
    {
        let path: [&str; 1] = ["auth"];
        let url = make_url(&self.url, path.as_slice());
        let mut query: Vec<(String, String)> = Vec::new();
        query.push(pair("login", self.login.clone()));
        query.push(pair("pass", sha1sum(self.pass.as_str())));
        proof {
            assert(path@ =~= seq!["auth"]);
            assert(query_view(query@) =~= seq![("login"@, self.login@), ("pass"@, sha1_hex_of(self.pass@))]);
        }
        Request { method: Method::Get, url, query }
    }

    pub open spec fn token_step_is(self, now: u64, r: TokenStep) -> bool {
        if self.authenticated(now) {
            r matches TokenStep::Cached(id) && id == self.token->0.id
        } else {
            r matches TokenStep::Authenticate(q) && self.is_auth_request(q)
        }
    }

    /// The usable token if one is held, else the request that opens a new session.
    pub fn get_token(&self, now: u64) -> (r: TokenStep)
        ensures
            self.token_step_is(now, r),
    {
        if self.is_authenticated(now) {
            match &self.token {
                Some(t) => TokenStep::Cached(t.id.clone()),
                None => TokenStep::Authenticate(self.auth_request()),
            }
        } else {
            TokenStep::Authenticate(self.auth_request())
        }
    }

    /// Holds the token `id` that the server issued at `now`.
    pub fn accept_token(&mut self, id: String, now: u64)
        ensures
            *final(self) == old(self).with_token(id, now),
    {
        self.token = Some(NewToken { id, creation_time: now, lifetime: TOKEN_LIFETIME });
    }

    pub open spec fn is_logout_request(self, r: Request, key: Seq<char>) -> bool {
        r.is(Method::Get, url_of(self.url@, seq!["logout"]), seq![("key"@, key)])
    }

    /// Drops the held token. Where it was still usable, returns the request that
    /// closes its session on the server; an expired token is never sent.
    pub fn deauth(&mut self, now: u64) -> (r: Option<Request>)
        ensures
            final(self).token is None,
            final(self).login == old(self).login,
            final(self).pass == old(self).pass,
            final(self).url == old(self).url,
            r is Some <==> old(self).authenticated(now),
            r matches Some(q) ==> old(self).is_logout_request(q, old(self).token->0.id@),
    {
        let r = if self.is_authenticated(now) {
            match &self.token {
                Some(t) => {
                    let path: [&str; 1] = ["logout"];
                    let url = make_url(&self.url, path.as_slice());
                    let mut query: Vec<(String, String)> = Vec::new();
                    query.push(pair("key", t.id.clone()));
                    proof {
                        assert(path@ =~= seq!["logout"]);
                        assert(query_view(query@) =~= seq![("key"@, t.id@)]);
                    }
                    Some(Request { method: Method::Get, url, query })
                },
                None => None,
            }
        } else {
            None
        };
        self.token = None;
        r
    }
}

/// A token accepted at `issued` is handed out again, unchanged and without a new
/// session, at every moment before its lifetime has passed; from then on exactly
/// one new session is asked for, and the token accepted for it is handed out in
/// turn until its own lifetime passes.
pub proof fn lemma_token_reuse(s: Server, id: String, issued: u64, now: u64, renewed: String, later: u64)
    requires
        issued <= now,
        now <= later,
    ensures
        now < issued + TOKEN_LIFETIME ==> forall|r: TokenStep| #[trigger]
            s.with_token(id, issued).token_step_is(now, r) ==> (r matches TokenStep::Cached(t) && t == id),
        now >= issued + TOKEN_LIFETIME ==> forall|r: TokenStep| #[trigger]
            s.with_token(id, issued).token_step_is(now, r) ==> (r matches TokenStep::Authenticate(q)
                && s.is_auth_request(q)),
        later < now + TOKEN_LIFETIME ==> forall|r: TokenStep| #[trigger]
            s.with_token(id, issued).with_token(renewed, now).token_step_is(later, r)
                ==> (r matches TokenStep::Cached(t) && t == renewed),
{
}

// ---------------------------------------------------------------------------
// Shift listing

pub open spec fn is_shift_list_request(
    server: Seq<char>,
    r: Request,
    from: int,
    to: int,
    key: Seq<char>,
) -> bool {
    r.is(
        Method::Get,
        url_of(server, seq!["v2", "cashshifts", "list"]),
        seq![
            ("openDateFrom"@, iso_date_of(from)),
            ("openDateTo"@, iso_date_of(to)),
            ("status"@, "ANY"@),
            ("key"@, key),
        ],
    )
}

impl Server {
    /// The request for the sales breakdown, with session token `key`; the report
    /// description travels as its body.
    pub fn olap_request(server_url: &String, key: &String) -> (r: Request)
        ensures
            r.is(Method::Post, url_of(server_url@, seq!["v2", "reports", "olap"]), seq![("key"@, key@)]),
    {
        let path: [&str; 3] = ["v2", "reports", "olap"];
        let url = make_url(server_url, path.as_slice());
        let mut query: Vec<(String, String)> = Vec::new();
        query.push(pair("key", key.clone()));
        proof {
            assert(path@ =~= seq!["v2", "reports", "olap"]);
            assert(query_view(query@) =~= seq![("key"@, key@)]);
        }
        Request { method: Method::Post, url, query }
    }
}

// ---------------------------------------------------------------------------
// Shifts

/// The state of a cash shift as the server reports it.
#[derive(Clone, Copy, Debug, PartialEq, Eq, Structural)]
#[allow(non_camel_case_types, clippy::upper_case_acronyms)]
pub enum SessionStatus {
    OPEN,
    CLOSED,
    ACCEPTED,
    UNACCEPTED,
    HASWARNINGS,
}

impl SessionStatus {
    pub open spec fn label_spec(self) -> Seq<char> {
        if self == SessionStatus::OPEN { "Открыта"@ } else { "Закрыта"@ }
    }

    /// How the status reads to an operator: open, or closed.
    pub fn label(&self) -> (r: &'static str)
        ensures
            r@ == self.label_spec(),
    {
        match self {
            SessionStatus::OPEN => "Открыта",
            _ => "Закрыта",
        }
    }
}

/// A cash shift. The paid orders (`pay_orders`) and the card sales (`sales_card`)
/// are held in hundredths of the currency unit; the other amounts in whole units.
pub struct Shift {
    pub id: String,
    pub session_number: usize,
    pub fiscal_number: usize,
    pub cash_reg_number: usize,
    pub cash_reg_serial: String,
    pub open_date: String,
    pub close_date: Option<String>,
    pub accept_date: Option<String>,
    pub manager_id: String,
    pub responsible_user_id: Option<String>,
    pub session_start_cash: usize,
    pub pay_orders: i64,
    pub sum_writeoff_orders: usize,
    pub sales_cash: usize,
    pub sales_credit: usize,
    pub sales_card: i64,
    pub pay_in: usize,
    pub pay_out: usize,
    pub pay_income: i32,
    pub cash_remain: Option<usize>,
    pub cash_diff: i32,
    pub session_status: SessionStatus,
    pub conception_id: Option<String>,
}

/// Why no shift was selected.
#[derive(Clone, Copy, Debug, PartialEq, Eq, Structural)]
pub enum ShiftError {
    /// The listing holds no shift that far back.
    NotFound { offset: usize },
}

/// The sum of the paid orders of `shifts`, in hundredths.
pub open spec fn total_paid(shifts: Seq<Shift>) -> int
    decreases shifts.len(),
{
    if shifts.len() == 0 {
        0
    } else {
        total_paid(shifts.drop_last()) + shifts.last().pay_orders
    }
}

/// Listing, selecting and summing shifts.
pub trait GetShifts {
    /// The request that lists the shifts opened in the span of `date` that ends
    /// `today` (`offset` days long for a custom span), of any status, with session
    /// token `key`; `None` where the span starts before the first day that the
    /// library handles.
    fn list_shifts_with_offset(server: &Server, date: Dates, offset: i64, today: ReportingDay, key: &String) -> (r: Option<Request>)
        requires
            today.wf(),
        ensures
            1 <= month_day_of(today.days_from_ce as int) <= 31,
            r is None <==> !(FIRST_DAY <= today.days_from_ce - days_back(
                date,
                offset as int,
                month_day_of(today.days_from_ce as int),
            ) <= LAST_DAY),
            r matches Some(q) ==> is_shift_list_request(
                server.url@,
                q,
                today.days_from_ce - days_back(date, offset as int, month_day_of(today.days_from_ce as int)),
                today.days_from_ce as int,
                key@,
            ),
    ;

    /// The shift `offset` places before the latest one (the last in the listing):
    /// offset 0 is the latest shift, offset 1 the one before it.
    fn latest_shift(shifts: Vec<Shift>, offset: usize) -> (r: Result<Shift, ShiftError>)
        ensures
            offset < shifts@.len() ==> r == Ok::<Shift, ShiftError>(shifts@[shifts@.len() - 1 - offset]),
            offset >= shifts@.len() ==> r == Err::<Shift, ShiftError>(ShiftError::NotFound { offset }),
    ;

    /// The sum of the paid orders of all `shifts`, in hundredths.
    fn sum_shifts(shifts: &Vec<Shift>) -> (r: i128)
        ensures
            r == total_paid(shifts@),
    ;
}

impl GetShifts for Server {
    fn list_shifts_with_offset(server: &Server, date: Dates, offset: i64, today: ReportingDay, key: &String) -> (r: Option<Request>)
    {
        match date_bounds(date, offset, today) {
            None => None,
            Some((from, to)) => {
                let path: [&str; 3] = ["v2", "cashshifts", "list"];
                let url = make_url(&server.url, path.as_slice());
                let mut query: Vec<(String, String)> = Vec::new();
                query.push(pair("openDateFrom", from.label()));
                query.push(pair("openDateTo", to.label()));
                query.push(pair("status", "ANY".to_owned()));
                query.push(pair("key", key.clone()));
                proof {
                    assert(path@ =~= seq!["v2", "cashshifts", "list"]);
                    assert(query_view(query@) =~= seq![
                        ("openDateFrom"@, iso_date_of(from.days_from_ce as int)),
                        ("openDateTo"@, iso_date_of(to.days_from_ce as int)),
                        ("status"@, "ANY"@),
                        ("key"@, key@),
                    ]);
                }
                Some(Request { method: Method::Get, url, query })
            },
        }
    }

    fn latest_shift(shifts: Vec<Shift>, offset: usize) -> (r: Result<Shift, ShiftError>)
    {
        let len = shifts.len();
        if offset >= len {
            return Err(ShiftError::NotFound { offset });
        }
        let idx = len - offset - 1;
        let mut shifts = shifts;
        shifts.truncate(idx + 1);
        match shifts.pop() {
            Some(s) => Ok(s),
            None => Err(ShiftError::NotFound { offset }),
        }
    }

    fn sum_shifts(shifts: &Vec<Shift>) -> (r: i128)
    {
        let mut sum: i128 = 0;
        let mut i: usize = 0;
        while i < shifts.len()
            invariant
                i <= shifts@.len(),
                sum == total_paid(shifts@.subrange(0, i as int)),
                -(i as int) * 0x8000_0000_0000_0000 <= sum <= (i as int) * 0x8000_0000_0000_0000,
            decreases shifts@.len() - i,
        {
            proof {
                assert(shifts@.subrange(0, i + 1).drop_last() =~= shifts@.subrange(0, i as int));
                assert((i as int) < 0x1_0000_0000_0000_0000);
                assert((i as int) * 0x8000_0000_0000_0000 + 0x8000_0000_0000_0000 == (i + 1) as int * 0x8000_0000_0000_0000) by (nonlinear_arith);
                assert((i as int + 1) * 0x8000_0000_0000_0000 <= 0x1_0000_0000_0000_0000 * 0x8000_0000_0000_0000) by (nonlinear_arith)
                    requires (i as int) < 0x1_0000_0000_0000_0000;
            }
            sum = sum + shifts[i].pay_orders as i128;
            i = i + 1;
        }
        proof {
            assert(shifts@.subrange(0, shifts@.len() as int) =~= shifts@);
        }
        sum
    }
}

/// Removing one shift from a listing lowers the total by exactly its paid orders.
proof fn lemma_total_remove(s: Seq<Shift>, j: int)
    requires
        0 <= j < s.len(),
    ensures
        total_paid(s) == total_paid(s.remove(j)) + s[j].pay_orders,
    decreases s.len(),
{
    if j == s.len() - 1 {
        assert(s.remove(j) =~= s.drop_last());
    } else {
        assert(s.remove(j).drop_last() =~= s.drop_last().remove(j));
        assert(s.remove(j).last() == s.last());
        lemma_total_remove(s.drop_last(), j);
    }
}

/// The total of an empty listing is zero, and the total does not depend on the
/// order of the shifts: two listings that hold the same shifts have equal totals.
pub proof fn lemma_total_order_independent(a: Seq<Shift>, b: Seq<Shift>)
    requires
        a.to_multiset() == b.to_multiset(),
    ensures
        total_paid(Seq::<Shift>::empty()) == 0,
        total_paid(a) == total_paid(b),
    decreases a.len(),
{
    a.to_multiset_ensures();
    b.to_multiset_ensures();
    if a.len() == 0 {
        assert(b.len() == 0);
    } else {
        let x = a.last();
        let d = a.drop_last();
        assert(a =~= d.push(x));
        d.to_multiset_ensures();
        assert(b.to_multiset().count(x) > 0);
        assert(b.contains(x));
        let j = choose|j: int| 0 <= j < b.len() && b[j] == x;
        let c = b.remove(j);
        c.to_multiset_ensures();
        assert(d.to_multiset() =~= c.to_multiset());
        lemma_total_order_independent(d, c);
        lemma_total_remove(b, j);
    }
}

} // verus!
