use chatcore::pingpong::TableTennis;

fn send(t: &mut TableTennis, text: &str) -> Option<String> {
    t.on_text(&text.to_owned())
}

#[test]
fn ping_before_serve_yields_nothing() {
    let mut t = TableTennis::new();
    assert_eq!(send(&mut t, "ping"), None);
    assert_eq!(send(&mut t, "ping"), None);
}

#[test]
fn serve_then_ping_yields_one_pong() {
    let mut t = TableTennis::new();
    assert_eq!(send(&mut t, "serve"), None);
    assert_eq!(send(&mut t, "ping"), Some("pong".to_owned()));
}

#[test]
fn ping_serve_ping_yields_exactly_one_pong() {
    let mut t = TableTennis::new();
    let replies = [
        send(&mut t, "ping"),
        send(&mut t, "serve"),
        send(&mut t, "ping"),
    ];
    assert_eq!(replies[0], None);
    assert_eq!(replies[1], None);
    assert_eq!(replies[2], Some("pong".to_owned()));
    assert_eq!(replies.iter().filter(|r| r.is_some()).count(), 1);
}

#[test]
fn serve_is_idempotent_and_never_resets() {
    let mut t = TableTennis::new();
    assert_eq!(send(&mut t, "serve"), None);
    assert_eq!(send(&mut t, "serve"), None);
    assert_eq!(send(&mut t, "ping"), Some("pong".to_owned()));
    assert_eq!(send(&mut t, "ping"), Some("pong".to_owned()));
}

#[test]
fn other_text_is_ignored() {
    let mut t = TableTennis::new();
    assert_eq!(send(&mut t, "pong"), None);
    assert_eq!(send(&mut t, ""), None);
    assert_eq!(send(&mut t, "serve "), None);
    assert_eq!(send(&mut t, "ping"), None); // "serve " did not serve
    assert_eq!(send(&mut t, "serve"), None);
    assert_eq!(send(&mut t, "PING"), None); // case matters
    assert_eq!(send(&mut t, "ping"), Some("pong".to_owned()));
}
