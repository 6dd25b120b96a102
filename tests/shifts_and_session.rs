use iiko_bot::date::{Dates, ReportingDay};
use iiko_bot::iiko::{GetShifts, Method, Server, SessionStatus, Shift, ShiftError, TokenStep, TOKEN_LIFETIME};

fn shift(number: usize, pay_orders: i64) -> Shift {
    Shift {
        id: format!("id-{number}"),
        session_number: number,
        fiscal_number: 0,
        cash_reg_number: 1,
        cash_reg_serial: "S".to_string(),
        open_date: "1999-09-01".to_string(),
        close_date: None,
        accept_date: None,
        manager_id: "m".to_string(),
        responsible_user_id: None,
        session_start_cash: 0,
        pay_orders,
        sum_writeoff_orders: 0,
        sales_cash: 0,
        sales_credit: 0,
        sales_card: 0,
        pay_in: 0,
        pay_out: 0,
        pay_income: 0,
        cash_remain: None,
        cash_diff: 0,
        session_status: SessionStatus::CLOSED,
        conception_id: None,
    }
}

fn numbers() -> Vec<Shift> {
    vec![shift(1, 100), shift(2, 200), shift(3, 300)]
}

#[test]
fn latest_shift_is_the_last_of_the_listing() {
    let s = Server::latest_shift(numbers(), 0).unwrap();
    assert_eq!(s.session_number, 3);
}

#[test]
fn latest_shift_offsets_count_back_from_the_end() {
    assert_eq!(Server::latest_shift(numbers(), 1).unwrap().session_number, 2);
    assert_eq!(Server::latest_shift(numbers(), 2).unwrap().session_number, 1);
}

#[test]
fn latest_shift_past_the_start_is_not_found() {
    assert_eq!(
        Server::latest_shift(numbers(), 3).err(),
        Some(ShiftError::NotFound { offset: 3 })
    );
    assert_eq!(
        Server::latest_shift(Vec::new(), 0).err(),
        Some(ShiftError::NotFound { offset: 0 })
    );
}

#[test]
fn sum_of_no_shifts_is_zero() {
    assert_eq!(Server::sum_shifts(&Vec::new()), 0);
}

#[test]
fn sum_is_the_arithmetic_sum_in_any_order() {
    let a = vec![shift(1, 10_000), shift(2, 25_000), shift(3, 7_500)];
    let b = vec![shift(3, 7_500), shift(1, 10_000), shift(2, 25_000)];
    assert_eq!(Server::sum_shifts(&a), 42_500);
    assert_eq!(Server::sum_shifts(&b), 42_500);
    let neg = vec![shift(1, -500), shift(2, 200)];
    assert_eq!(Server::sum_shifts(&neg), -300);
}

#[test]
fn status_labels() {
    assert_eq!(SessionStatus::OPEN.label(), "Открыта");
    assert_eq!(SessionStatus::ACCEPTED.label(), "Закрыта");
}

fn server() -> Server {
    Server::new("bot".to_string(), "abc".to_string(), "pos.example.com".to_string())
}

fn query(pairs: &[(String, String)]) -> Vec<(&str, &str)> {
    pairs.iter().map(|(k, v)| (k.as_str(), v.as_str())).collect()
}

#[test]
fn without_a_token_a_session_is_opened() {
    let s = server();
    assert!(!s.is_authenticated(0));
    match s.get_token(0) {
        TokenStep::Authenticate(r) => {
            assert_eq!(r.method, Method::Get);
            assert_eq!(r.url, "https://pos.example.com/resto/api/auth");
            assert_eq!(
                query(&r.query),
                vec![("login", "bot"), ("pass", "a9993e364706816aba3e25717850c26c9cd0d89d")]
            );
        }
        TokenStep::Cached(_) => panic!("no token is held"),
    }
}

#[test]
fn token_is_reused_within_its_lifetime() {
    let mut s = server();
    s.accept_token("tok-1".to_string(), 100);
    for now in [100, 101, 100 + TOKEN_LIFETIME - 1] {
        match s.get_token(now) {
            TokenStep::Cached(id) => assert_eq!(id, "tok-1"),
            TokenStep::Authenticate(_) => panic!("the token is still usable"),
        }
    }
}

#[test]
fn expired_token_leads_to_exactly_one_new_session() {
    let mut s = server();
    s.accept_token("tok-1".to_string(), 100);
    let later = 100 + TOKEN_LIFETIME;
    assert!(matches!(s.get_token(later), TokenStep::Authenticate(_)));
    s.accept_token("tok-2".to_string(), later);
    match s.get_token(later + 1) {
        TokenStep::Cached(id) => assert_eq!(id, "tok-2"),
        TokenStep::Authenticate(_) => panic!("the new token is usable"),
    }
}

#[test]
fn deauth_closes_a_live_session_only() {
    let mut s = server();
    s.accept_token("tok-1".to_string(), 100);
    let r = s.deauth(200).unwrap();
    assert_eq!(r.url, "https://pos.example.com/resto/api/logout");
    assert_eq!(query(&r.query), vec![("key", "tok-1")]);
    assert!(s.token.is_none());

    s.accept_token("tok-2".to_string(), 100);
    assert!(s.deauth(100 + TOKEN_LIFETIME).is_none());
    assert!(s.token.is_none());
}

#[test]
fn shift_listing_request_covers_the_week() {
    let s = server();
    let today = ReportingDay::from_days(730_000).unwrap();
    let r = Server::list_shifts_with_offset(&s, Dates::Week, 0, today, &"tok".to_string()).unwrap();
    assert_eq!(r.url, "https://pos.example.com/resto/api/v2/cashshifts/list");
    assert_eq!(
        query(&r.query),
        vec![
            ("openDateFrom", "1999-08-28"),
            ("openDateTo", "1999-09-03"),
            ("status", "ANY"),
            ("key", "tok"),
        ]
    );
    let m = Server::list_shifts_with_offset(&s, Dates::ThisMonth, 0, today, &"tok".to_string()).unwrap();
    assert_eq!(query(&m.query)[0], ("openDateFrom", "1999-09-01"));
}

#[test]
fn olap_request_posts_with_the_key() {
    let r = Server::olap_request(&"pos.example.com".to_string(), &"tok".to_string());
    assert_eq!(r.method, Method::Post);
    assert_eq!(r.url, "https://pos.example.com/resto/api/v2/reports/olap");
    assert_eq!(query(&r.query), vec![("key", "tok")]);
}

#[test]
fn custom_span_counts_the_offset_back() {
    let s = server();
    let today = ReportingDay::from_days(730_000).unwrap();
    let r = Server::list_shifts_with_offset(&s, Dates::Custom, 2, today, &"tok".to_string()).unwrap();
    assert_eq!(query(&r.query)[0], ("openDateFrom", "1999-09-01"));
    assert!(Server::list_shifts_with_offset(&s, Dates::Custom, 800_000, today, &"tok".to_string()).is_none());
}
