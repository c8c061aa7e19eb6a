use chatcore::frames::parse_message;
use chatcore::frames::render_broadcast;
use chatcore::session::FrameAction;
use chatcore::session::WsChatSession;

fn parse(s: &str) -> Option<Vec<u8>> {
    parse_message(&s.as_bytes().to_vec())
}

#[test]
fn parse_plain_frame() {
    assert_eq!(parse("{\"message\":\"hi\"}"), Some(b"hi".to_vec()));
    assert_eq!(parse("{\"message\":\"\"}"), Some(b"".to_vec()));
}

#[test]
fn parse_allows_json_whitespace() {
    assert_eq!(
        parse("  {\n\t\"message\" \r:  \"hello world\"\n}  "),
        Some(b"hello world".to_vec())
    );
}

#[test]
fn parse_decodes_escapes() {
    assert_eq!(
        parse("{\"message\":\"a\\\"b\\\\c\\/d\\n\\t\\r\\b\\f\"}"),
        Some(b"a\"b\\c/d\n\t\r\x08\x0c".to_vec())
    );
    assert_eq!(parse("{\"message\":\"\\u0041\"}"), Some(b"A".to_vec()));
    // two-byte, three-byte and four-byte UTF-8 targets
    assert_eq!(parse("{\"message\":\"\\u00e9\"}"), Some("é".as_bytes().to_vec()));
    assert_eq!(parse("{\"message\":\"\\u20ac\"}"), Some("€".as_bytes().to_vec()));
    assert_eq!(
        parse("{\"message\":\"\\ud83d\\ude00\"}"),
        Some("😀".as_bytes().to_vec())
    );
}

#[test]
fn parse_passes_raw_utf8_through() {
    assert_eq!(
        parse("{\"message\":\"grüße 😀\"}"),
        Some("grüße 😀".as_bytes().to_vec())
    );
}

#[test]
fn parse_rejects_malformed_frames() {
    assert_eq!(parse(""), None);
    assert_eq!(parse("hi"), None);
    assert_eq!(parse("\"message\""), None);
    assert_eq!(parse("{\"message\":\"hi\""), None); // no closing brace
    assert_eq!(parse("{\"message\":\"hi}"), None); // unterminated string
    assert_eq!(parse("{\"message\":42}"), None); // not a string
    assert_eq!(parse("{\"msg\":\"hi\"}"), None); // wrong key
    assert_eq!(parse("{\"message\":\"hi\"} x"), None); // trailing input
    assert_eq!(parse("{\"message\":\"hi\",\"extra\":1}"), None); // extra member
    assert_eq!(parse("{\"message\":\"a\\q\"}"), None); // unknown escape
    assert_eq!(parse("{\"message\":\"a\\u12\"}"), None); // short hex escape
    assert_eq!(parse("{\"message\":\"a\\u12zz\"}"), None); // bad hex digits
    assert_eq!(parse("{\"message\":\"\\ud83d\"}"), None); // lone high surrogate
    assert_eq!(parse("{\"message\":\"\\ude00\"}"), None); // lone low surrogate
    assert_eq!(parse("{\"message\":\"a\nb\"}"), None); // raw control byte
}

#[test]
fn render_exact_bytes() {
    let out = render_broadcast(&b"A".to_vec(), &b"hi".to_vec());
    assert_eq!(out, b"{\"user\":\"A\",\"message\":\"hi\"}".to_vec());
}

#[test]
fn render_escapes_quotes_backslashes_and_controls() {
    let out = render_broadcast(&b"a\"b".to_vec(), &b"c\\d\ne\x01".to_vec());
    assert_eq!(
        out,
        b"{\"user\":\"a\\\"b\",\"message\":\"c\\\\d\\u000ae\\u0001\"}".to_vec()
    );
}

#[test]
fn rendered_frames_are_json_serde_agrees() {
    let name = "grü\"ße\\";
    let text = "line1\nline2\t😀";
    let out = render_broadcast(&name.as_bytes().to_vec(), &text.as_bytes().to_vec());
    let v: serde_json::Value = serde_json::from_slice(&out).expect("rendered frame must be JSON");
    assert_eq!(v.get("user").and_then(|u| u.as_str()), Some(name));
    assert_eq!(v.get("message").and_then(|m| m.as_str()), Some(text));
}

#[test]
fn parse_agrees_with_serde_on_well_formed_frames() {
    let frames = [
        "{\"message\":\"hi\"}",
        "{ \"message\" : \"a\\u00e9b\" }",
        "{\"message\":\"\\ud83d\\ude00 ok\"}",
        "{\"message\":\"esc \\\\ \\\" \\n\"}",
    ];
    for f in frames {
        let v: serde_json::Value = serde_json::from_str(f).expect("fixture must be JSON");
        let expected = v.get("message").and_then(|m| m.as_str()).expect("string member");
        assert_eq!(parse(f), Some(expected.as_bytes().to_vec()));
    }
}

#[test]
fn round_trip_through_render_and_parse() {
    let texts = ["hi", "", "with \"quotes\" and \\slashes\\", "controls\n\t\rhere", "grüße 😀"];
    for t in texts {
        let out = render_broadcast(&b"me".to_vec(), &t.as_bytes().to_vec());
        // dropping the user member turns the outbound frame into a valid
        // inbound one, whose message parses back to the original text
        let reframed = String::from_utf8(out).unwrap().replace("\"user\":\"me\",", "");
        assert_eq!(parse(&reframed), Some(t.as_bytes().to_vec()));
    }
}

#[test]
fn handle_text_broadcasts_or_closes() {
    let s = WsChatSession::new(77, 3, b"bob".to_vec());
    match s.handle_text(&b"{\"message\":\"yo\"}".to_vec()) {
        FrameAction::Broadcast { room, sender, payload } => {
            assert_eq!(room, 3);
            assert_eq!(sender, 77);
            assert_eq!(payload, b"{\"user\":\"bob\",\"message\":\"yo\"}".to_vec());
        }
        FrameAction::Close => panic!("well-formed frame must broadcast"),
    }
    match s.handle_text(&b"not json".to_vec()) {
        FrameAction::Close => {}
        FrameAction::Broadcast { .. } => panic!("malformed frame must close"),
    }
}
