//! The two byte-level codecs on their own: percent-encoding against the
//! unreserved allowlist (checked against an outside implementation), and the
//! flat structured body document.

use endpoint_codec::json::{parse_object, render_object};
use endpoint_codec::percent::{percent_decode, percent_encode};
use percent_encoding::{utf8_percent_encode, AsciiSet, NON_ALPHANUMERIC};

fn b(s: &str) -> Vec<u8> {
    s.as_bytes().to_vec()
}

const UNRESERVED_KEPT: &AsciiSet = &NON_ALPHANUMERIC.remove(b'-').remove(b'.').remove(b'_').remove(
    b'~',
);

#[test]
fn encode_escapes_everything_outside_the_allowlist() {
    assert_eq!(percent_encode(&b("!abc:example.com")), b("%21abc%3Aexample.com"));
    assert_eq!(percent_encode(&b("m.room.message")), b("m.room.message"));
    assert_eq!(percent_encode(&b("a b/c")), b("a%20b%2Fc"));
    assert_eq!(percent_encode(&b("")), b(""));
}

#[test]
fn encode_agrees_with_outside_implementation() {
    for sample in ["!abc:example.com", "m.room.message", "42", "a b/c&d=e?f#g", "_-.~%"] {
        let ours = percent_encode(&b(sample));
        let theirs: String = utf8_percent_encode(sample, UNRESERVED_KEPT).to_string();
        assert_eq!(ours, theirs.into_bytes());
    }
}

#[test]
fn decode_inverts_encode() {
    for sample in ["!abc:example.com", "m.room.message", "", "100% sure"] {
        let encoded = percent_encode(&b(sample));
        assert_eq!(percent_decode(&encoded), Some(b(sample)));
    }
}

#[test]
fn decode_accepts_lowercase_hex_and_plain_bytes() {
    assert_eq!(percent_decode(&b("%2fx")), Some(b("/x")));
    assert_eq!(percent_decode(&b("plain")), Some(b("plain")));
}

#[test]
fn decode_rejects_truncated_or_bad_escapes() {
    assert_eq!(percent_decode(&b("%")), None);
    assert_eq!(percent_decode(&b("%2")), None);
    assert_eq!(percent_decode(&b("%zz")), None);
    assert_eq!(percent_decode(&b("ok%")), None);
}

#[test]
fn object_renders_members_in_order() {
    let pairs = vec![(b("errcode"), b("M_FORBIDDEN")), (b("error"), b("no"))];
    assert_eq!(render_object(&pairs), b("{\"errcode\":\"M_FORBIDDEN\",\"error\":\"no\"}"));
    assert_eq!(render_object(&vec![]), b("{}"));
}

#[test]
fn object_parses_back_exactly() {
    let doc = b("{\"a\":\"x\",\"b\":\"y:z\"}");
    let pairs = parse_object(&doc).unwrap();
    assert_eq!(pairs, vec![(b("a"), b("x")), (b("b"), b("y:z"))]);
    assert_eq!(parse_object(&b("{}")), Some(vec![]));
}

#[test]
fn object_round_trips() {
    let pairs = vec![(b("event_id"), b("$1")), (b("sender"), b("@carl:example.com"))];
    let doc = render_object(&pairs);
    assert_eq!(parse_object(&doc), Some(pairs));
}

#[test]
fn object_rejects_malformed_documents() {
    assert_eq!(parse_object(&b("")), None);
    assert_eq!(parse_object(&b("{")), None);
    assert_eq!(parse_object(&b("{\"a\":\"x\"")), None);
    assert_eq!(parse_object(&b("{\"a\":1}")), None);
    assert_eq!(parse_object(&b("{ \"a\" : \"x\" }")), None);
    assert_eq!(parse_object(&b("{\"a\":\"x\"}extra")), None);
}
