use backoffice_api::api::web_api::{
    check_auth, logged_in_as, login_gate, needs_auth_check, search_gate, try_logged_in_as, Gate,
    SearchQuery, Sessions, WebClient,
};

fn client(cookie: &str, password: &str) -> WebClient {
    WebClient {
        client: reqwest::Client::new(),
        cookie: cookie.to_string(),
        password: password.to_string(),
        search_query: None,
    }
}

#[test]
fn opening_a_session_twice_gives_the_first() {
    let mut s = Sessions::new();
    let name = "ivanov".to_string();
    let a = s.create_client_or_send_exist(&name, client("", ""));
    assert_eq!(a.cookie, "");
    let b = s.create_client_or_send_exist(&name, client("other", "pw"));
    assert_eq!(b.cookie, "");
    assert!(s.contains(&name));
}

#[test]
fn successful_login_keeps_the_credentials() {
    let mut s = Sessions::new();
    let name = "ivanov".to_string();
    s.create_client_or_send_exist(&name, client("", ""));
    let reply = s.finish_login(&name, "secret".into(), "JSESSION1".into(), true);
    assert_eq!(reply, "login");
    let c = s.create_client_or_send_exist(&name, client("", ""));
    assert_eq!(c.cookie, "JSESSION1");
    assert_eq!(c.password, "secret");
}

#[test]
fn failed_login_drops_the_session() {
    let mut s = Sessions::new();
    let name = "ivanov".to_string();
    s.create_client_or_send_exist(&name, client("old", "pw"));
    let reply = s.finish_login(&name, "secret".into(), "JSESSION1".into(), false);
    assert_eq!(reply, "error");
    assert!(!s.contains(&name));
    let c = s.create_client_or_send_exist(&name, client("", ""));
    assert_eq!(c.cookie, "");
}

#[test]
fn logout_drops_only_that_session() {
    let mut s = Sessions::new();
    let a = "a".to_string();
    let b = "b".to_string();
    s.insert(a.clone(), client("ca", "pa"));
    s.insert(b.clone(), client("cb", "pb"));
    assert_eq!(s.logout(&a), "logout");
    assert!(!s.contains(&a));
    assert!(s.contains(&b));
    assert_eq!(s.create_client_or_send_exist(&b, client("", "")).cookie, "cb");
    s.remove(&a);
    assert!(s.contains(&b));
}

#[test]
fn insert_replaces_and_credentials_need_a_session() {
    let mut s = Sessions::new();
    let a = "a".to_string();
    s.set_credentials(&a, "c".into(), "p".into());
    assert!(!s.contains(&a));
    s.insert(a.clone(), client("1", "1"));
    s.insert(a.clone(), client("2", "2"));
    assert_eq!(s.create_client_or_send_exist(&a, client("", "")).cookie, "2");
}

#[test]
fn a_session_without_cookie_is_dropped_before_the_organisations() {
    let mut s = Sessions::new();
    let a = "a".to_string();
    let wc = s.create_client_or_send_exist(&a, client("", ""));
    let gate = s.organizations_gate(&a, &wc, None);
    assert!(matches!(gate, Gate::Reply(ref r) if r == "такого пользователя нет"));
    assert!(!s.contains(&a));
    let wc = s.create_client_or_send_exist(&a, client("c", ""));
    assert!(matches!(s.organizations_gate(&a, &wc, None), Gate::CheckAuth));
    assert!(s.contains(&a));
    assert!(matches!(s.organizations_gate(&a, &wc, Some(true)), Gate::Proceed));
    let gate = s.organizations_gate(&a, &wc, Some(false));
    assert!(matches!(gate, Gate::Reply(ref r) if r == "пока не авторизован"));
    assert!(s.contains(&a));
}

#[test]
fn a_fresh_session_has_no_credentials() {
    let wc = WebClient::new(reqwest::Client::new());
    assert_eq!(wc.cookie, "");
    assert_eq!(wc.password, "");
    assert!(wc.search_query.is_none());
    assert!(matches!(login_gate(&wc, None), Gate::Proceed));
    assert!(matches!(search_gate(&wc, Some(false)), Gate::Proceed));
}

#[test]
fn login_asks_first_and_stops_an_accepted_session() {
    let wc = client("c", "p");
    assert!(matches!(login_gate(&wc, None), Gate::CheckAuth));
    assert!(matches!(login_gate(&wc, Some(true)), Gate::Reply(ref r) if r == "уже авторизован"));
    assert!(matches!(login_gate(&wc, Some(false)), Gate::Proceed));
}

#[test]
fn searches_stop_a_refused_session() {
    let wc = client("c", "p");
    assert!(matches!(search_gate(&wc, None), Gate::CheckAuth));
    assert!(matches!(search_gate(&wc, Some(true)), Gate::Proceed));
    assert!(matches!(search_gate(&wc, Some(false)), Gate::Reply(ref r) if r == "Не авторизован"));
}

#[test]
fn the_last_search_is_remembered() {
    let mut s = Sessions::new();
    let a = "a".to_string();
    let wc = s.create_client_or_send_exist(&a, client("c", "p"));
    s.remember_search(&a, wc, SearchQuery { search: "Иванов".into(), school_id: 3, deleted: true });
    let wc = s.create_client_or_send_exist(&a, client("", ""));
    let q = wc.search_query.unwrap();
    assert_eq!((q.search.as_str(), q.school_id, q.deleted), ("Иванов", 3, true));
    assert_eq!(wc.cookie, "c");
}

#[test]
fn auth_checks() {
    assert!(!needs_auth_check(&client("", "")));
    assert!(needs_auth_check(&client("c", "")));
    assert!(check_auth(&"c".to_string(), &client("c", "")));
    assert!(!check_auth(&"d".to_string(), &client("c", "")));
}

#[test]
fn login_page_shows_the_user() {
    let page = "<div><span id=\"headerForm:sysuser\">ivanov</span></div>".to_string();
    assert!(logged_in_as(&page, &"ivanov".to_string()));
    assert!(!logged_in_as(&page, &"petrov".to_string()));
    assert_eq!(try_logged_in_as(&String::new(), &"x".to_string()), None);
}
