//! The wire frames of the chat protocol, as functions on UTF-8 bytes.
//!
//! Inbound, a session accepts a single JSON object `{"message": <string>}`;
//! anything else is a fatal protocol error for that session. Outbound, every
//! copy of a relayed message — the sender's local echo and each registry
//! delivery alike — is the single JSON object
//! `{"user": <name>, "message": <text>}`.

use vstd::prelude::*;

verus! {

pub const QUOTE: u8 = 34;

pub const BACKSLASH: u8 = 92;

pub const SLASH: u8 = 47;

pub const LBRACE: u8 = 123;

pub const RBRACE: u8 = 125;

pub const COLON: u8 = 58;

pub const COMMA: u8 = 44;

pub const SPACE: u8 = 32;

pub const TAB: u8 = 9;

pub const LF: u8 = 10;

pub const CR: u8 = 13;

pub const BACKSPACE: u8 = 8;

pub const FORMFEED: u8 = 12;

pub const LOWER_B: u8 = 98;

pub const LOWER_F: u8 = 102;

pub const LOWER_N: u8 = 110;

pub const LOWER_R: u8 = 114;

pub const LOWER_T: u8 = 116;

pub const LOWER_U: u8 = 117;

/// One hexadecimal digit, lower case: 0..9 then a..f.
pub open spec fn hex_digit_of(v: int) -> u8
    recommends
        0 <= v < 16,
{
    if v < 10 {
        (48 + v) as u8
    } else {
        (87 + v) as u8
    }
}

/// How one byte of string content is written inside a JSON string: quotes
/// and backslashes get a backslash escape, control bytes a \u00XX escape,
/// everything else stands for itself.
pub open spec fn esc_byte(b: u8) -> Seq<u8> {
    if b == QUOTE {
        seq![BACKSLASH, QUOTE]
    } else if b == BACKSLASH {
        seq![BACKSLASH, BACKSLASH]
    } else if b < 32 {
        seq![BACKSLASH, LOWER_U, 48u8, 48u8, hex_digit_of(b as int / 16), hex_digit_of(b as int % 16)]
    } else {
        seq![b]
    }
}

/// JSON escaping of a whole string, byte by byte.
pub open spec fn json_escape(s: Seq<u8>) -> Seq<u8>
    decreases s.len(),
{
    if s.len() == 0 {
        Seq::empty()
    } else {
        esc_byte(s[0]) + json_escape(s.drop_first())
    }
}

/// The bytes of `"user"`, quotes included.
pub open spec fn user_key() -> Seq<u8> {
    seq![QUOTE, 117u8, 115u8, 101u8, 114u8, QUOTE]
}

/// The bytes of `"message"`, quotes included.
pub open spec fn message_key() -> Seq<u8> {
    seq![QUOTE, 109u8, 101u8, 115u8, 115u8, 97u8, 103u8, 101u8, QUOTE]
}

/// The one outbound frame shape: `{"user":<name>,"message":<text>}`, with
/// both strings JSON-escaped. Echo and relay use this same frame.
pub open spec fn broadcast_frame(user: Seq<u8>, message: Seq<u8>) -> Seq<u8> {
    seq![LBRACE] + user_key() + seq![COLON, QUOTE] + json_escape(user) + seq![QUOTE, COMMA]
        + message_key() + seq![COLON, QUOTE] + json_escape(message) + seq![QUOTE, RBRACE]
}

/// The whitespace JSON allows between tokens.
pub open spec fn is_json_ws(b: u8) -> bool {
    b == SPACE || b == TAB || b == LF || b == CR
}

/// First index at or after `i` that holds no whitespace (or the end).
pub open spec fn skip_ws_idx(s: Seq<u8>, i: int) -> int
    decreases s.len() - i,
{
    if 0 <= i < s.len() && is_json_ws(s[i]) {
        skip_ws_idx(s, i + 1)
    } else {
        i
    }
}

/// Value of one hexadecimal digit (either case), or -1.
pub open spec fn hex_val(b: u8) -> int {
    if 48 <= b <= 57 {
        b - 48
    } else if 97 <= b <= 102 {
        b - 87
    } else if 65 <= b <= 70 {
        b - 55
    } else {
        -1
    }
}

/// Value of the four hexadecimal digits at `i`, or -1 if any is no digit.
pub open spec fn hex4_val(s: Seq<u8>, i: int) -> int
    recommends
        0 <= i && i + 4 <= s.len(),
{
    if hex_val(s[i]) >= 0 && hex_val(s[i + 1]) >= 0 && hex_val(s[i + 2]) >= 0 && hex_val(
        s[i + 3],
    ) >= 0 {
        4096 * hex_val(s[i]) + 256 * hex_val(s[i + 1]) + 16 * hex_val(s[i + 2]) + hex_val(s[i + 3])
    } else {
        -1
    }
}

/// The UTF-8 encoding of one Unicode scalar value.
pub open spec fn utf8_enc(cp: int) -> Seq<u8>
    recommends
        0 <= cp < 0x110000,
{
    if cp < 0x80 {
        seq![cp as u8]
    } else if cp < 0x800 {
        seq![(0xC0 + cp / 0x40) as u8, (0x80 + cp % 0x40) as u8]
    } else if cp < 0x10000 {
        seq![(0xE0 + cp / 0x1000) as u8, (0x80 + (cp / 0x40) % 0x40) as u8, (0x80 + cp % 0x40) as u8]
    } else {
        seq![
            (0xF0 + cp / 0x40000) as u8,
            (0x80 + (cp / 0x1000) % 0x40) as u8,
            (0x80 + (cp / 0x40) % 0x40) as u8,
            (0x80 + cp % 0x40) as u8,
        ]
    }
}

/// What a one-letter escape after a backslash stands for, if anything.
pub open spec fn simple_escape(e: u8) -> Option<u8> {
    if e == QUOTE {
        Some(QUOTE)
    } else if e == BACKSLASH {
        Some(BACKSLASH)
    } else if e == SLASH {
        Some(SLASH)
    } else if e == LOWER_B {
        Some(BACKSPACE)
    } else if e == LOWER_F {
        Some(FORMFEED)
    } else if e == LOWER_N {
        Some(LF)
    } else if e == LOWER_R {
        Some(CR)
    } else if e == LOWER_T {
        Some(TAB)
    } else {
        None
    }
}

/// Parse the body of a JSON string starting at `i` (just past the opening
/// quote): the decoded content as UTF-8 bytes, and the index just past the
/// closing quote. A \uXXXX escape decodes the scalar it names; a surrogate
/// pair decodes as one scalar, a lone surrogate is an error, as are raw
/// control bytes and unknown escapes.
pub open spec fn parse_string_body(s: Seq<u8>, i: int) -> Option<(Seq<u8>, int)>
    decreases s.len() - i,
{
    if i < 0 || i >= s.len() {
        None
    } else if s[i] == QUOTE {
        Some((Seq::empty(), i + 1))
    } else if s[i] == BACKSLASH {
        if i + 2 > s.len() {
            None
        } else {
            match simple_escape(s[i + 1]) {
                Some(c) => match parse_string_body(s, i + 2) {
                    None => None,
                    Some((tail, end)) => Some((seq![c] + tail, end)),
                },
                None => {
                    if s[i + 1] != LOWER_U {
                        None
                    } else if i + 6 > s.len() {
                        None
                    } else {
                        let cp = hex4_val(s, i + 2);
                        if cp < 0 {
                            None
                        } else if 0xD800 <= cp < 0xDC00 {
                            if i + 12 > s.len() {
                                None
                            } else if s[i + 6] == BACKSLASH && s[i + 7] == LOWER_U {
                                let cp2 = hex4_val(s, i + 8);
                                if 0xDC00 <= cp2 < 0xE000 {
                                    let full = 0x10000 + (cp - 0xD800) * 0x400 + (cp2 - 0xDC00);
                                    match parse_string_body(s, i + 12) {
                                        None => None,
                                        Some((tail, end)) => Some((utf8_enc(full) + tail, end)),
                                    }
                                } else {
                                    None
                                }
                            } else {
                                None
                            }
                        } else if 0xDC00 <= cp < 0xE000 {
                            None
                        } else {
                            match parse_string_body(s, i + 6) {
                                None => None,
                                Some((tail, end)) => Some((utf8_enc(cp) + tail, end)),
                            }
                        }
                    }
                },
            }
        }
    } else if s[i] < 32 {
        None
    } else {
        match parse_string_body(s, i + 1) {
            None => None,
            Some((tail, end)) => Some((seq![s[i]] + tail, end)),
        }
    }
}

/// Parse the one inbound frame shape: a JSON object whose single member is
/// the key "message" (written literally) with a string value, with any JSON
/// whitespace around the tokens. The result is the decoded message text;
/// anything else — other keys, other value types, trailing input — is a
/// malformed frame.
pub open spec fn parse_message_frame(s: Seq<u8>) -> Option<Seq<u8>> {
    let i0 = skip_ws_idx(s, 0);
    if !(i0 < s.len() && s[i0] == LBRACE) {
        None
    } else {
        let i1 = skip_ws_idx(s, i0 + 1);
        if !(i1 + 9 <= s.len() && s.subrange(i1, i1 + 9) == message_key()) {
            None
        } else {
            let i2 = skip_ws_idx(s, i1 + 9);
            if !(i2 < s.len() && s[i2] == COLON) {
                None
            } else {
                let i3 = skip_ws_idx(s, i2 + 1);
                if !(i3 < s.len() && s[i3] == QUOTE) {
                    None
                } else {
                    match parse_string_body(s, i3 + 1) {
                        None => None,
                        Some((content, i4)) => {
                            let i5 = skip_ws_idx(s, i4);
                            if i5 < s.len() && s[i5] == RBRACE && skip_ws_idx(s, i5 + 1)
                                == s.len() {
                                Some(content)
                            } else {
                                None
                            }
                        },
                    }
                }
            }
        }
    }
}

/// Escaping distributes over appending one byte at the end.
proof fn lemma_json_escape_snoc(s: Seq<u8>, x: u8)
    ensures
        json_escape(s.push(x)) == json_escape(s) + esc_byte(x),
    decreases s.len(),
{
    if s.len() == 0 {
        assert(s.push(x).drop_first() =~= s);
        assert(s.push(x)[0] == x);
        assert(json_escape(s.push(x)) =~= json_escape(s) + esc_byte(x));
    } else {
        assert(s.push(x).drop_first() =~= s.drop_first().push(x));
        lemma_json_escape_snoc(s.drop_first(), x);
        assert(json_escape(s.push(x)) =~= json_escape(s) + esc_byte(x));
    }
}

/// One hexadecimal digit, lower case.
fn hex_digit_byte(v: u8) -> (r: u8)
    requires
        v < 16,
    ensures
        r == hex_digit_of(v as int),
{
    if v < 10 {
        48 + v
    } else {
        87 + v
    }
}

/// Append the JSON escaping of `s` to `out`.
fn push_escaped(out: &mut Vec<u8>, s: &Vec<u8>)
    ensures
        final(out)@ == old(out)@ + json_escape(s@),
{
    let mut i: usize = 0;
    proof {
        assert(s@.subrange(0, 0) =~= Seq::<u8>::empty());
        assert(out@ =~= out@ + json_escape(s@.subrange(0, 0)));
    }
    while i < s.len()
        invariant
            i <= s@.len(),
            out@ == old(out)@ + json_escape(s@.subrange(0, i as int)),
        decreases s@.len() - i,
    {
        let ghost done = s@.subrange(0, i as int);
        proof {
            assert(s@.subrange(0, i as int + 1) =~= done.push(s@[i as int]));
            lemma_json_escape_snoc(done, s@[i as int]);
        }
        let b = s[i];
        if b == QUOTE {
            out.push(BACKSLASH);
            out.push(QUOTE);
        } else if b == BACKSLASH {
            out.push(BACKSLASH);
            out.push(BACKSLASH);
        } else if b < 32 {
            out.push(BACKSLASH);
            out.push(LOWER_U);
            out.push(48);
            out.push(48);
            out.push(hex_digit_byte(b / 16));
            out.push(hex_digit_byte(b % 16));
        } else {
            out.push(b);
        }
        proof {
            assert(out@ =~= old(out)@ + json_escape(s@.subrange(0, i as int + 1)));
        }
        i += 1;
    }
    proof {
        assert(s@.subrange(0, s@.len() as int) =~= s@);
    }
}

/// The shape of a well-formed inbound frame carrying the message `m`,
/// written without optional whitespace: `{"message":"<escaped m>"}`.
pub open spec fn message_frame(m: Seq<u8>) -> Seq<u8> {
    seq![LBRACE] + message_key() + seq![COLON, QUOTE] + json_escape(m) + seq![QUOTE, RBRACE]
}

/// Decoding inverts escaping: a string body that holds exactly
/// `json_escape(m)` before its closing quote decodes to `m` and stops just
/// past that quote.
proof fn lemma_unescape_escape(s: Seq<u8>, i: int, m: Seq<u8>)
    requires
        0 <= i,
        i + json_escape(m).len() + 1 <= s.len(),
        s.subrange(i, i + json_escape(m).len() + 1) == json_escape(m) + seq![QUOTE],
    ensures
        parse_string_body(s, i) == Some((m, i + json_escape(m).len() + 1)),
    decreases m.len(),
{
    let esc = json_escape(m);
    let close = i + esc.len() + 1;
    let sub = s.subrange(i, close);
    if m.len() == 0 {
        assert(esc =~= Seq::<u8>::empty());
        assert(s[i] == QUOTE) by {
            assert(sub[0] == (esc + seq![QUOTE])[0]);
        }
        assert(parse_string_body(s, i) == Some((Seq::<u8>::empty(), i + 1)));
        assert(m =~= Seq::<u8>::empty());
    } else {
        let b = m[0];
        let m1 = m.drop_first();
        let e0 = esc_byte(b);
        let esc1 = json_escape(m1);
        assert(esc == e0 + esc1);
        let rest = i + e0.len();
        assert(s.subrange(rest, rest + esc1.len() + 1) =~= esc1 + seq![QUOTE]) by {
            assert forall|t: int|
                0 <= t < esc1.len() + 1 implies s.subrange(rest, rest + esc1.len() as int + 1)[t]
                == (esc1 + seq![QUOTE])[t] by {
                assert(s.subrange(rest, rest + esc1.len() as int + 1)[t] == s[rest + t]);
                assert(sub[e0.len() + t] == (esc + seq![QUOTE])[e0.len() + t]);
                assert((esc + seq![QUOTE])[e0.len() + t] == (esc1 + seq![QUOTE])[t]);
            }
        }
        lemma_unescape_escape(s, rest, m1);
        assert(seq![b] + m1 =~= m);
        if b == QUOTE || b == BACKSLASH {
            assert(s[i] == BACKSLASH && s[i + 1] == b) by {
                assert(sub[0] == (esc + seq![QUOTE])[0]);
                assert(sub[1] == (esc + seq![QUOTE])[1]);
                assert(e0 == seq![BACKSLASH, b]);
            }
            assert(simple_escape(b) == Some(b));
            assert(parse_string_body(s, i) == Some((m, close)));
        } else if b < 32 {
            assert(e0 == seq![
                BACKSLASH,
                LOWER_U,
                48u8,
                48u8,
                hex_digit_of(b as int / 16),
                hex_digit_of(b as int % 16),
            ]);
            assert(s[i] == BACKSLASH && s[i + 1] == LOWER_U) by {
                assert(sub[0] == (esc + seq![QUOTE])[0]);
                assert(sub[1] == (esc + seq![QUOTE])[1]);
            }
            assert(s[i + 2] == 48 && s[i + 3] == 48) by {
                assert(sub[2] == (esc + seq![QUOTE])[2]);
                assert(sub[3] == (esc + seq![QUOTE])[3]);
            }
            assert(s[i + 4] == hex_digit_of(b as int / 16) && s[i + 5] == hex_digit_of(
                b as int % 16,
            )) by {
                assert(sub[4] == (esc + seq![QUOTE])[4]);
                assert(sub[5] == (esc + seq![QUOTE])[5]);
            }
            assert(simple_escape(LOWER_U) is None);
            assert(hex_val(48) == 0);
            assert(hex_val(hex_digit_of(b as int / 16)) == b as int / 16);
            assert(hex_val(hex_digit_of(b as int % 16)) == b as int % 16);
            assert(hex4_val(s, i + 2) == 16 * (b as int / 16) + b as int % 16);
            assert(hex4_val(s, i + 2) == b as int);
            assert(utf8_enc(b as int) =~= seq![b]);
            assert(parse_string_body(s, i) == Some((m, close)));
        } else {
            assert(s[i] == b) by {
                assert(sub[0] == (esc + seq![QUOTE])[0]);
                assert(e0 == seq![b]);
            }
            assert(parse_string_body(s, i) == Some((m, close)));
        }
    }
}

/// Round trip: framing a message and parsing the frame gives the message
/// back unchanged — escaping loses nothing on the wire.
pub proof fn lemma_message_frame_round_trip(m: Seq<u8>)
    ensures
        parse_message_frame(message_frame(m)) == Some(m),
{
    let s = message_frame(m);
    let esc = json_escape(m);
    assert(s.len() == 14 + esc.len());
    assert(s[0] == LBRACE);
    assert(!is_json_ws(LBRACE));
    assert(skip_ws_idx(s, 0) == 0);
    assert(s[1] == QUOTE && !is_json_ws(QUOTE));
    assert(skip_ws_idx(s, 1) == 1);
    assert(s.subrange(1, 10) =~= message_key());
    assert(s[10] == COLON && !is_json_ws(COLON));
    assert(skip_ws_idx(s, 10) == 10);
    assert(s[11] == QUOTE);
    assert(skip_ws_idx(s, 11) == 11);
    assert(s.subrange(12, 12 + esc.len() as int + 1) =~= esc + seq![QUOTE]);
    lemma_unescape_escape(s, 12, m);
    assert(parse_string_body(s, 12) == Some((m, 13 + esc.len() as int)));
    assert(s[13 + esc.len() as int] == RBRACE && !is_json_ws(RBRACE));
    assert(skip_ws_idx(s, 13 + esc.len() as int) == 13 + esc.len() as int);
    assert(skip_ws_idx(s, 14 + esc.len() as int) == 14 + esc.len() as int);
}

fn is_ws_byte(b: u8) -> (r: bool)
    ensures
        r == is_json_ws(b),
{
    b == SPACE || b == TAB || b == LF || b == CR
}

/// Step over JSON whitespace.
fn skip_ws(s: &Vec<u8>, from: usize) -> (j: usize)
    requires
        from <= s@.len(),
    ensures
        from <= j <= s@.len(),
        j as int == skip_ws_idx(s@, from as int),
{
    let mut j = from;
    while j < s.len() && is_ws_byte(s[j])
        invariant
            from <= j <= s@.len(),
            skip_ws_idx(s@, from as int) == skip_ws_idx(s@, j as int),
        decreases s@.len() - j,
    {
        j += 1;
    }
    j
}

fn simple_escape_byte(e: u8) -> (r: Option<u8>)
    ensures
        r == simple_escape(e),
{
    if e == QUOTE {
        Some(QUOTE)
    } else if e == BACKSLASH {
        Some(BACKSLASH)
    } else if e == SLASH {
        Some(SLASH)
    } else if e == LOWER_B {
        Some(BACKSPACE)
    } else if e == LOWER_F {
        Some(FORMFEED)
    } else if e == LOWER_N {
        Some(LF)
    } else if e == LOWER_R {
        Some(CR)
    } else if e == LOWER_T {
        Some(TAB)
    } else {
        None
    }
}

fn hex_digit_val(b: u8) -> (r: Option<u8>)
    ensures
        match r {
            Some(v) => hex_val(b) == v as int,
            None => hex_val(b) < 0,
        },
{
    if 48 <= b && b <= 57 {
        Some(b - 48)
    } else if 97 <= b && b <= 102 {
        Some(b - 87)
    } else if 65 <= b && b <= 70 {
        Some(b - 55)
    } else {
        None
    }
}

fn hex4_at(s: &Vec<u8>, i: usize) -> (r: Option<u32>)
    requires
        i + 4 <= s@.len(),
    ensures
        match r {
            Some(v) => hex4_val(s@, i as int) == v as int && v <= 0xFFFF,
            None => hex4_val(s@, i as int) < 0,
        },
{
    proof {
        assert(s@.len() == s.len());
    }
    let d0 = match hex_digit_val(s[i]) {
        Some(v) => v,
        None => {
            return None;
        },
    };
    let d1 = match hex_digit_val(s[i + 1]) {
        Some(v) => v,
        None => {
            return None;
        },
    };
    let d2 = match hex_digit_val(s[i + 2]) {
        Some(v) => v,
        None => {
            return None;
        },
    };
    let d3 = match hex_digit_val(s[i + 3]) {
        Some(v) => v,
        None => {
            return None;
        },
    };
    Some(4096 * (d0 as u32) + 256 * (d1 as u32) + 16 * (d2 as u32) + (d3 as u32))
}

/// Append the UTF-8 encoding of one scalar value to `out`.
fn push_utf8(out: &mut Vec<u8>, cp: u32)
    requires
        cp < 0x110000,
    ensures
        final(out)@ == old(out)@ + utf8_enc(cp as int),
{
    if cp < 0x80 {
        out.push(cp as u8);
    } else if cp < 0x800 {
        out.push((0xC0 + cp / 0x40) as u8);
        out.push((0x80 + cp % 0x40) as u8);
    } else if cp < 0x10000 {
        out.push((0xE0 + cp / 0x1000) as u8);
        out.push((0x80 + (cp / 0x40) % 0x40) as u8);
        out.push((0x80 + cp % 0x40) as u8);
    } else {
        out.push((0xF0 + cp / 0x40000) as u8);
        out.push((0x80 + (cp / 0x1000) % 0x40) as u8);
        out.push((0x80 + (cp / 0x40) % 0x40) as u8);
        out.push((0x80 + cp % 0x40) as u8);
    }
    proof {
        assert(out@ =~= old(out)@ + utf8_enc(cp as int));
    }
}

/// Decode a JSON string body starting just past the opening quote; the
/// result pairs the decoded bytes with the index just past the closing
/// quote.
fn parse_string_at(s: &Vec<u8>, start: usize) -> (r: Option<(Vec<u8>, usize)>)
    requires
        start <= s@.len(),
    ensures
        match r {
            Some(p) => {
                &&& parse_string_body(s@, start as int) == Some((p.0@, p.1 as int))
                &&& start < p.1 <= s@.len()
            },
            None => parse_string_body(s@, start as int) is None,
        },
{
    let mut acc: Vec<u8> = Vec::new();
    let mut i: usize = start;
    proof {
        if parse_string_body(s@, start as int) is Some {
            let p = parse_string_body(s@, start as int).unwrap();
            assert(acc@ + p.0 =~= p.0);
        }
    }
    loop
        invariant
            start <= i <= s@.len(),
            match parse_string_body(s@, i as int) {
                None => parse_string_body(s@, start as int) is None,
                Some((tail, end)) => parse_string_body(s@, start as int) == Some(
                    (acc@ + tail, end),
                ),
            },
        decreases s@.len() - i,
    {
        if i >= s.len() {
            return None;
        }
        let b = s[i];
        if b == QUOTE {
            proof {
                assert(parse_string_body(s@, i as int) == Some((Seq::<u8>::empty(), i as int + 1)));
                assert(acc@ + Seq::<u8>::empty() =~= acc@);
            }
            return Some((acc, i + 1));
        } else if b == BACKSLASH {
            if s.len() - i < 2 {
                return None;
            }
            let e = s[i + 1];
            match simple_escape_byte(e) {
                Some(c) => {
                    let ghost acc0 = acc@;
                    acc.push(c);
                    proof {
                        if parse_string_body(s@, i as int + 2) is Some {
                            let p = parse_string_body(s@, i as int + 2).unwrap();
                            assert(acc0 + (seq![c] + p.0) =~= acc@ + p.0);
                        }
                    }
                    i = i + 2;
                },
                None => {
                    if e != LOWER_U {
                        return None;
                    }
                    if s.len() - i < 6 {
                        return None;
                    }
                    let cp = match hex4_at(s, i + 2) {
                        Some(v) => v,
                        None => {
                            return None;
                        },
                    };
                    if 0xD800 <= cp && cp < 0xDC00 {
                        if s.len() - i < 12 {
                            return None;
                        }
                        if !(s[i + 6] == BACKSLASH && s[i + 7] == LOWER_U) {
                            return None;
                        }
                        let cp2 = match hex4_at(s, i + 8) {
                            Some(v) => v,
                            None => {
                                return None;
                            },
                        };
                        if !(0xDC00 <= cp2 && cp2 < 0xE000) {
                            return None;
                        }
                        let full: u32 = 0x10000 + (cp - 0xD800) * 0x400 + (cp2 - 0xDC00);
                        let ghost acc0 = acc@;
                        push_utf8(&mut acc, full);
                        proof {
                            if parse_string_body(s@, i as int + 12) is Some {
                                let p = parse_string_body(s@, i as int + 12).unwrap();
                                assert(acc0 + (utf8_enc(full as int) + p.0) =~= acc@ + p.0);
                            }
                        }
                        i = i + 12;
                    } else if 0xDC00 <= cp && cp < 0xE000 {
                        return None;
                    } else {
                        let ghost acc0 = acc@;
                        push_utf8(&mut acc, cp);
                        proof {
                            if parse_string_body(s@, i as int + 6) is Some {
                                let p = parse_string_body(s@, i as int + 6).unwrap();
                                assert(acc0 + (utf8_enc(cp as int) + p.0) =~= acc@ + p.0);
                            }
                        }
                        i = i + 6;
                    }
                },
            }
        } else if b < 32 {
            return None;
        } else {
            let ghost acc0 = acc@;
            acc.push(b);
            proof {
                if parse_string_body(s@, i as int + 1) is Some {
                    let p = parse_string_body(s@, i as int + 1).unwrap();
                    assert(acc0 + (seq![b] + p.0) =~= acc@ + p.0);
                }
            }
            i = i + 1;
        }
    }
}

/// Whether the bytes of `pat` stand at position `at` of `s`.
fn match_at(s: &Vec<u8>, at: usize, pat: &Vec<u8>) -> (r: bool)
    requires
        at + pat@.len() <= s@.len(),
    ensures
        r <==> s@.subrange(at as int, at as int + pat@.len() as int) == pat@,
{
    let ghost whole = s@.subrange(at as int, at as int + pat@.len() as int);
    proof {
        assert(s@.len() == s.len());
        assert(pat@.len() == pat.len());
    }
    let mut k: usize = 0;
    while k < pat.len()
        invariant
            k <= pat@.len(),
            at + pat@.len() <= s@.len(),
            s@.len() == s.len(),
            pat@.len() == pat.len(),
            whole == s@.subrange(at as int, at as int + pat@.len() as int),
            forall|t: int| 0 <= t < k ==> s@[at + t] == pat@[t],
        decreases pat@.len() - k,
    {
        if s[at + k] != pat[k] {
            proof {
                assert(whole[k as int] != pat@[k as int]);
            }
            return false;
        }
        k += 1;
    }
    proof {
        assert(whole =~= pat@);
    }
    true
}

fn message_key_vec() -> (v: Vec<u8>)
    ensures
        v@ == message_key(),
{
    let mut v: Vec<u8> = Vec::new();
    v.push(QUOTE);
    v.push(109);
    v.push(101);
    v.push(115);
    v.push(115);
    v.push(97);
    v.push(103);
    v.push(101);
    v.push(QUOTE);
    proof {
        assert(v@ =~= message_key());
    }
    v
}

/// Decode one inbound frame. `Some(text)` carries the message of a
/// well-formed `{"message": <string>}` object; `None` is a malformed frame,
/// which is fatal to the session that received it.
pub fn parse_message(frame: &Vec<u8>) -> (r: Option<Vec<u8>>)
    ensures
        match r {
            Some(m) => parse_message_frame(frame@) == Some(m@),
            None => parse_message_frame(frame@) is None,
        },
{
    let i0 = skip_ws(frame, 0);
    if i0 >= frame.len() {
        return None;
    }
    if frame[i0] != LBRACE {
        return None;
    }
    let i1 = skip_ws(frame, i0 + 1);
    if frame.len() - i1 < 9 {
        return None;
    }
    let key = message_key_vec();
    if !match_at(frame, i1, &key) {
        return None;
    }
    let i2 = skip_ws(frame, i1 + 9);
    if i2 >= frame.len() {
        return None;
    }
    if frame[i2] != COLON {
        return None;
    }
    let i3 = skip_ws(frame, i2 + 1);
    if i3 >= frame.len() {
        return None;
    }
    if frame[i3] != QUOTE {
        return None;
    }
    match parse_string_at(frame, i3 + 1) {
        None => None,
        Some((content, i4)) => {
            let i5 = skip_ws(frame, i4);
            if i5 >= frame.len() {
                return None;
            }
            if frame[i5] != RBRACE {
                return None;
            }
            let i6 = skip_ws(frame, i5 + 1);
            if i6 != frame.len() {
                return None;
            }
            Some(content)
        },
    }
}

/// Render the outbound frame `{"user":<user>,"message":<message>}`. The one
/// result serves as the sender's local echo and as the relayed payload: the
/// two are wire-identical by construction.
pub fn render_broadcast(user: &Vec<u8>, message: &Vec<u8>) -> (out: Vec<u8>)
    ensures
        out@ == broadcast_frame(user@, message@),
{
    let mut out: Vec<u8> = Vec::new();
    out.push(LBRACE);
    out.push(QUOTE);
    out.push(117);
    out.push(115);
    out.push(101);
    out.push(114);
    out.push(QUOTE);
    out.push(COLON);
    out.push(QUOTE);
    push_escaped(&mut out, user);
    out.push(QUOTE);
    out.push(COMMA);
    out.push(QUOTE);
    out.push(109);
    out.push(101);
    out.push(115);
    out.push(115);
    out.push(97);
    out.push(103);
    out.push(101);
    out.push(QUOTE);
    out.push(COLON);
    out.push(QUOTE);
    push_escaped(&mut out, message);
    out.push(QUOTE);
    out.push(RBRACE);
    proof {
        assert(out@ =~= broadcast_frame(user@, message@));
    }
    out
}

} // verus!
