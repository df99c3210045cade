//! End-to-end scenarios on a concrete message-send endpoint: path
//! substitution, authentication enforcement, status classification, and the
//! request/response round trip.

use endpoint_codec::builder::{build_request, build_response};
use endpoint_codec::errors::{EncodingError, FromResponseError, ParseErrorKind, ServerError};
use endpoint_codec::message::{FieldValue, Value, WireRequest, WireResponse};
use endpoint_codec::parse::{parse_request, parse_response};
use endpoint_codec::schema::{EndpointSchema, FieldDef, FieldRole, Metadata, Method};

fn b(s: &str) -> Vec<u8> {
    s.as_bytes().to_vec()
}

fn send_message_schema() -> EndpointSchema {
    EndpointSchema {
        metadata: Metadata {
            description: b("Send a message event to a room."),
            method: Method::Put,
            name: b("create_message_event"),
            path_template: b("/_matrix/client/r0/rooms/:room_id/send/:event_type/:txn_id"),
            rate_limited: false,
            requires_authentication: true,
        },
        request: vec![
            FieldDef { name: b("room_id"), role: FieldRole::PathSegment(b("room_id")), required: true },
            FieldDef {
                name: b("event_type"),
                role: FieldRole::PathSegment(b("event_type")),
                required: true,
            },
            FieldDef { name: b("txn_id"), role: FieldRole::PathSegment(b("txn_id")), required: true },
            FieldDef { name: b("content"), role: FieldRole::Body, required: true },
        ],
        response: vec![
            FieldDef {
                name: b("event_id"),
                role: FieldRole::BodyField(b("event_id")),
                required: true,
            },
        ],
    }
}

fn request_value(content: &str) -> Value {
    Value {
        fields: vec![
            Some(FieldValue::Text(b("!abc:example.com"))),
            Some(FieldValue::Text(b("m.room.message"))),
            Some(FieldValue::Text(b("42"))),
            Some(FieldValue::Json(b(content))),
        ],
    }
}

#[test]
fn path_substitution() {
    let s = send_message_schema();
    let v = request_value("{\"body\":\"hi\"}");
    let token = b("secret");
    let w = build_request(&s, &v, &b("https://example.com"), Some(&token)).unwrap();
    assert_eq!(
        w.path,
        b("/_matrix/client/r0/rooms/%21abc%3Aexample.com/send/m.room.message/42")
    );
    assert_eq!(w.query, b(""));
    assert_eq!(w.base, b("https://example.com"));
    assert_eq!(
        w.uri(),
        b("https://example.com/_matrix/client/r0/rooms/%21abc%3Aexample.com/send/m.room.message/42")
    );
}

#[test]
fn trailing_slash_stripped_from_base() {
    let s = send_message_schema();
    let v = request_value("{}");
    let token = b("secret");
    let w = build_request(&s, &v, &b("https://example.com/"), Some(&token)).unwrap();
    assert_eq!(w.base, b("https://example.com"));
}

#[test]
fn auth_required_without_token() {
    let s = send_message_schema();
    let v = request_value("{}");
    let r = build_request(&s, &v, &b("https://example.com"), None);
    assert_eq!(r.unwrap_err(), EncodingError::AuthRequired);
}

#[test]
fn credential_header_attached_when_required() {
    let s = send_message_schema();
    let v = request_value("{}");
    let token = b("secret");
    let w = build_request(&s, &v, &b("https://example.com"), Some(&token)).unwrap();
    assert_eq!(w.headers, vec![(b("authorization"), b("Bearer secret"))]);
}

#[test]
fn no_credential_header_when_not_required() {
    let mut s = send_message_schema();
    s.metadata.requires_authentication = false;
    let v = request_value("{}");
    let token = b("secret");
    let w = build_request(&s, &v, &b("https://example.com"), Some(&token)).unwrap();
    assert!(w.headers.is_empty());
}

#[test]
fn invalid_token_is_invalid_header() {
    let s = send_message_schema();
    let v = request_value("{}");
    let token = b("bad\ntoken");
    let r = build_request(&s, &v, &b("https://example.com"), Some(&token));
    assert_eq!(r.unwrap_err(), EncodingError::InvalidHeader);
}

#[test]
fn body_must_be_well_formed() {
    let s = send_message_schema();
    let v = request_value("not json at all");
    let token = b("secret");
    let r = build_request(&s, &v, &b("https://example.com"), Some(&token));
    assert_eq!(r.unwrap_err(), EncodingError::BodySerialization);
}

#[test]
fn request_round_trip() {
    let s = send_message_schema();
    let v = request_value("{\"msgtype\":\"m.text\",\"body\":\"hello\"}");
    let token = b("secret");
    let w = build_request(&s, &v, &b("https://example.com"), Some(&token)).unwrap();
    let parsed = parse_request(&s, w).unwrap();
    assert_eq!(parsed, v);
}

#[test]
fn parse_rejects_wrong_path() {
    let s = send_message_schema();
    let w = WireRequest {
        method: Method::Put,
        base: b(""),
        path: b("/_matrix/client/r0/other/x/send/y/z"),
        query: b(""),
        headers: vec![],
        body: b("{}"),
    };
    let e = parse_request(&s, w).unwrap_err();
    assert_eq!(e.kind, ParseErrorKind::PathShape);
}

#[test]
fn parse_rejects_bad_percent_escape() {
    let s = send_message_schema();
    let w = WireRequest {
        method: Method::Put,
        base: b(""),
        path: b("/_matrix/client/r0/rooms/%zz/send/m.room.message/42"),
        query: b(""),
        headers: vec![],
        body: b("{}"),
    };
    let e = parse_request(&s, w).unwrap_err();
    assert_eq!(e.kind, ParseErrorKind::PathSegmentDecode);
}

#[test]
fn response_round_trip() {
    let s = send_message_schema();
    let v = Value { fields: vec![Some(FieldValue::Text(b("$1")))] };
    let w = build_response(&s, &v).unwrap();
    assert_eq!(w.status, 200);
    assert_eq!(w.body, b("{\"event_id\":\"$1\"}"));
    let parsed = parse_response(&s, w).unwrap();
    assert_eq!(parsed, v);
}

#[test]
fn status_200_decodes_event_id() {
    let s = send_message_schema();
    let w = WireResponse { status: 200, headers: vec![], body: b("{\"event_id\":\"$1\"}") };
    let parsed = parse_response(&s, w).unwrap();
    assert_eq!(parsed.fields, vec![Some(FieldValue::Text(b("$1")))]);
}

#[test]
fn status_403_with_error_payload_is_known() {
    let s = send_message_schema();
    let w = WireResponse {
        status: 403,
        headers: vec![],
        body: b("{\"errcode\":\"M_FORBIDDEN\",\"error\":\"Access denied\"}"),
    };
    match parse_response(&s, w).unwrap_err() {
        FromResponseError::Server(ServerError::Known(k)) => {
            assert_eq!(k.errcode, b("M_FORBIDDEN"));
            assert_eq!(k.message, b("Access denied"));
            assert_eq!(k.status, 403);
        },
        other => panic!("expected a known server error, got {:?}", other),
    }
}

#[test]
fn status_500_with_unrecognized_body_is_unknown() {
    let s = send_message_schema();
    let w = WireResponse { status: 500, headers: vec![], body: b("gateway fell over") };
    match parse_response(&s, w).unwrap_err() {
        FromResponseError::Server(ServerError::Unknown(status, body)) => {
            assert_eq!(status, 500);
            assert_eq!(body, b("gateway fell over"));
        },
        other => panic!("expected an unknown server error, got {:?}", other),
    }
}

#[test]
fn status_200_with_malformed_body_is_deserialization_error() {
    let s = send_message_schema();
    let w = WireResponse { status: 200, headers: vec![], body: b("nonsense") };
    match parse_response(&s, w).unwrap_err() {
        FromResponseError::Deserialization(d) => {
            assert_eq!(d.kind, ParseErrorKind::BodyMalformed);
        },
        other => panic!("expected a deserialization error, got {:?}", other),
    }
}

#[test]
fn status_200_missing_member_is_missing_body_field() {
    let s = send_message_schema();
    let w = WireResponse { status: 200, headers: vec![], body: b("{\"other\":\"x\"}") };
    match parse_response(&s, w).unwrap_err() {
        FromResponseError::Deserialization(d) => {
            assert_eq!(d.kind, ParseErrorKind::MissingBodyField);
        },
        other => panic!("expected a deserialization error, got {:?}", other),
    }
}
