use chatcore::registry::ChatServer;
use chatcore::registry::Delivery;
use chatcore::registry::decimal_digits;
use chatcore::session::FrameAction;
use chatcore::session::WsChatSession;

fn targets(out: &[Delivery]) -> Vec<u64> {
    out.iter().map(|d| d.to).collect()
}

#[test]
fn connect_registers_a_session() {
    let mut srv = ChatServer::new();
    let id = srv.connect(7);
    assert!(srv.is_connected(id));
    assert_eq!(srv.counter(), 0);
}

#[test]
fn handle_of_returns_the_registered_token() {
    let mut srv = ChatServer::new();
    let id = srv.connect(7);
    assert_eq!(srv.handle_of(id), Some(7));
    srv.disconnect(id);
    assert_eq!(srv.handle_of(id), None);
}

#[test]
fn disconnect_removes_table_entry_and_memberships() {
    let mut srv = ChatServer::new();
    let a = srv.connect(1);
    let b = srv.connect(2);
    srv.join(a, 5);
    srv.join(b, 5);
    srv.disconnect(a);
    assert!(!srv.is_connected(a));
    assert!(srv.is_connected(b));
    assert_eq!(srv.room_members(5), vec![b]);
}

#[test]
fn disconnect_of_unknown_id_is_a_noop() {
    let mut srv = ChatServer::new();
    let a = srv.connect(1);
    srv.join(a, 3);
    srv.disconnect(a.wrapping_add(1));
    assert!(srv.is_connected(a));
    assert_eq!(srv.room_members(3), vec![a]);
}

#[test]
fn join_exclusivity_two_rooms() {
    // Join(S, room_a) then Join(S, room_b): S is in room_b and not in room_a.
    let mut srv = ChatServer::new();
    let s = srv.connect(1);
    srv.join(s, 10);
    srv.join(s, 20);
    assert!(!srv.room_members(10).contains(&s));
    assert_eq!(srv.room_members(20), vec![s]);
}

#[test]
fn relay_skips_sender_and_unregistered_members() {
    let mut srv = ChatServer::new();
    let a = srv.connect(100);
    let b = srv.connect(200);
    let c = srv.connect(300);
    srv.join(a, 1);
    srv.join(b, 1);
    srv.join(c, 1);
    let out = srv.relay(a, 1);
    let mut tos = targets(&out);
    tos.sort();
    let mut expected = vec![b, c];
    expected.sort();
    assert_eq!(tos, expected);
    for d in &out {
        assert_ne!(d.to, a);
    }
}

#[test]
fn relay_increments_counter_even_with_zero_recipients() {
    let mut srv = ChatServer::new();
    assert_eq!(srv.counter(), 0);
    let out = srv.relay(42, 9); // unknown sender, unknown room
    assert!(out.is_empty());
    assert_eq!(srv.counter(), 1);
    let out2 = srv.relay(42, 9);
    assert!(out2.is_empty());
    assert_eq!(srv.counter(), 2);
}

#[test]
fn counter_only_moves_on_relay() {
    let mut srv = ChatServer::new();
    let a = srv.connect(1);
    srv.join(a, 1);
    srv.disconnect(a);
    srv.reset();
    assert_eq!(srv.counter(), 0);
    srv.relay(a, 1);
    assert_eq!(srv.counter(), 1);
}

#[test]
fn reset_changes_nothing() {
    let mut srv = ChatServer::new();
    let a = srv.connect(11);
    srv.join(a, 4);
    srv.relay(a, 4);
    srv.reset();
    assert!(srv.is_connected(a));
    assert_eq!(srv.room_members(4), vec![a]);
    assert_eq!(srv.counter(), 1);
}

#[test]
fn scenario_three_sessions_one_disconnect() {
    // A, B, C join room 1; B disconnects; A sends {"message":"hi"}:
    // C receives {"user":"A","message":"hi"}, A gets the same payload as its
    // local echo, the counter moves by exactly 1, and nothing reaches B.
    let mut srv = ChatServer::new();
    let a = srv.connect(1);
    let b = srv.connect(2);
    let c = srv.connect(3);
    srv.join(a, 1);
    srv.join(b, 1);
    srv.join(c, 1);
    srv.disconnect(b);

    let session_a = WsChatSession::new(a, 1, b"A".to_vec());
    let inbound = b"{\"message\":\"hi\"}".to_vec();
    match session_a.handle_text(&inbound) {
        FrameAction::Broadcast { room, sender, payload } => {
            assert_eq!(room, 1);
            assert_eq!(sender, a);
            // the local echo and every relayed copy are this same payload
            assert_eq!(payload, b"{\"user\":\"A\",\"message\":\"hi\"}".to_vec());
            let before = srv.counter();
            let out = srv.relay(sender, room);
            assert_eq!(srv.counter(), before + 1);
            assert_eq!(targets(&out), vec![c]);
            assert_eq!(out[0].handle, 3);
            for d in &out {
                assert_ne!(d.to, a);
                assert_ne!(d.to, b);
            }
        }
        FrameAction::Close => panic!("well-formed frame must not close the session"),
    }
}

#[test]
fn scenario_rejoin_moves_the_session() {
    // A joins room 1 then room 2: room 1 no longer lists A, and a message
    // sent by A is relayed only to room 2's other members.
    let mut srv = ChatServer::new();
    let a = srv.connect(1);
    let d = srv.connect(2);
    let e = srv.connect(3);
    srv.join(d, 1);
    srv.join(e, 2);
    srv.join(a, 1);
    srv.join(a, 2);
    assert!(!srv.room_members(1).contains(&a));
    assert!(srv.room_members(2).contains(&a));
    let out = srv.relay(a, 2);
    assert_eq!(targets(&out), vec![e]);
}

#[test]
fn decimal_digits_exact_values() {
    assert_eq!(decimal_digits(0), b"0".to_vec());
    assert_eq!(decimal_digits(7), b"7".to_vec());
    assert_eq!(decimal_digits(10), b"10".to_vec());
    assert_eq!(decimal_digits(1234567890), b"1234567890".to_vec());
    assert_eq!(decimal_digits(u64::MAX), b"18446744073709551615".to_vec());
}

#[test]
fn counter_body_is_plain_decimal() {
    let mut srv = ChatServer::new();
    for _ in 0..12 {
        srv.relay(0, 0);
    }
    assert_eq!(decimal_digits(srv.counter()), b"12".to_vec());
}
