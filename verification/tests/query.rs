//! Query-string marshaling: declaration order, the query-map catch-all, raw
//! bodies, headers, and their round trips.

use endpoint_codec::builder::{build_request, build_response};
use endpoint_codec::errors::ParseErrorKind;
use endpoint_codec::message::{FieldValue, Value, WireRequest};
use endpoint_codec::parse::{parse_request, parse_query_exec};
use endpoint_codec::schema::{EndpointSchema, FieldDef, FieldRole, Metadata, Method};

fn b(s: &str) -> Vec<u8> {
    s.as_bytes().to_vec()
}

fn list_schema() -> EndpointSchema {
    EndpointSchema {
        metadata: Metadata {
            description: b("List the visible rooms."),
            method: Method::Get,
            name: b("list_rooms"),
            path_template: b("/_matrix/client/r0/publicRooms"),
            rate_limited: true,
            requires_authentication: false,
        },
        request: vec![
            FieldDef { name: b("limit"), role: FieldRole::QueryParam, required: false },
            FieldDef { name: b("filters"), role: FieldRole::QueryMap, required: true },
            FieldDef { name: b("x-trace"), role: FieldRole::Header(b("X-Trace")), required: false },
        ],
        response: vec![
            FieldDef { name: b("chunk"), role: FieldRole::RawBody, required: true },
        ],
    }
}

#[test]
fn query_map_preserves_order() {
    let s = list_schema();
    let v = Value {
        fields: vec![
            None,
            Some(FieldValue::Pairs(vec![(b("a"), b("1")), (b("b"), b("2"))])),
            None,
        ],
    };
    let w = build_request(&s, &v, &b(""), None).unwrap();
    assert_eq!(w.query, b("a=1&b=2"));
    let parsed = parse_request(&s, w).unwrap();
    assert_eq!(
        parsed.fields[1],
        Some(FieldValue::Pairs(vec![(b("a"), b("1")), (b("b"), b("2"))]))
    );
}

#[test]
fn query_params_precede_map_pairs() {
    let s = list_schema();
    let v = Value {
        fields: vec![
            Some(FieldValue::Text(b("10"))),
            Some(FieldValue::Pairs(vec![(b("since"), b("s:1"))])),
            None,
        ],
    };
    let w = build_request(&s, &v, &b(""), None).unwrap();
    assert_eq!(w.query, b("limit=10&since=s%3A1"));
    let parsed = parse_request(&s, w).unwrap();
    assert_eq!(parsed, v);
}

#[test]
fn empty_query_value_round_trips() {
    let s = list_schema();
    let v = Value {
        fields: vec![
            Some(FieldValue::Text(b(""))),
            Some(FieldValue::Pairs(vec![])),
            None,
        ],
    };
    let w = build_request(&s, &v, &b(""), None).unwrap();
    assert_eq!(w.query, b("limit="));
    let parsed = parse_request(&s, w).unwrap();
    assert_eq!(parsed, v);
}

#[test]
fn header_is_matched_case_insensitively() {
    let s = list_schema();
    let w = WireRequest {
        method: Method::Get,
        base: b(""),
        path: b("/_matrix/client/r0/publicRooms"),
        query: b(""),
        headers: vec![(b("x-TRACE"), b("t1"))],
        body: b(""),
    };
    let parsed = parse_request(&s, w).unwrap();
    assert_eq!(parsed.fields[2], Some(FieldValue::Text(b("t1"))));
}

#[test]
fn raw_body_passes_through() {
    let s = list_schema();
    let v = Value {
        fields: vec![None, Some(FieldValue::Pairs(vec![])), None],
    };
    let w = build_request(&s, &v, &b(""), None).unwrap();
    assert_eq!(w.body, b(""));
    let rv = Value { fields: vec![Some(FieldValue::Bytes(vec![0, 159, 146, 150]))] };
    let resp = build_response(&s, &rv).unwrap();
    assert_eq!(resp.body, vec![0, 159, 146, 150]);
}

#[test]
fn malformed_query_pair_is_rejected() {
    let s = list_schema();
    let w = WireRequest {
        method: Method::Get,
        base: b(""),
        path: b("/_matrix/client/r0/publicRooms"),
        query: b("limit"),
        headers: vec![],
        body: b(""),
    };
    let e = parse_request(&s, w).unwrap_err();
    assert_eq!(e.kind, ParseErrorKind::QueryMalformed);
}

#[test]
fn missing_required_query_param_is_rejected() {
    let mut s = list_schema();
    s.request[0].required = true;
    let w = WireRequest {
        method: Method::Get,
        base: b(""),
        path: b("/_matrix/client/r0/publicRooms"),
        query: b(""),
        headers: vec![],
        body: b(""),
    };
    let e = parse_request(&s, w).unwrap_err();
    assert_eq!(e.kind, ParseErrorKind::MissingQueryParam);
}

#[test]
fn missing_required_header_is_rejected() {
    let mut s = list_schema();
    s.request[2].required = true;
    let w = WireRequest {
        method: Method::Get,
        base: b(""),
        path: b("/_matrix/client/r0/publicRooms"),
        query: b(""),
        headers: vec![],
        body: b(""),
    };
    let e = parse_request(&s, w).unwrap_err();
    assert_eq!(e.kind, ParseErrorKind::MissingHeader);
}

#[test]
fn query_string_with_equals_in_value() {
    let pairs = parse_query_exec(&b("k=a%3Db=c")).unwrap();
    assert_eq!(pairs, vec![(b("k"), b("a=b=c"))]);
}
