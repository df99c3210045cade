//! Schema registration: every invariant violation is caught when a schema is
//! registered, before any request is built or parsed.

use endpoint_codec::schema::{
    DefinitionError, EndpointSchema, FieldDef, FieldRole, Metadata, Method, SchemaRegistry,
};

fn b(s: &str) -> Vec<u8> {
    s.as_bytes().to_vec()
}

fn base_schema() -> EndpointSchema {
    EndpointSchema {
        metadata: Metadata {
            description: b("Fetch one thing."),
            method: Method::Get,
            name: b("get_thing"),
            path_template: b("/things/:thing_id"),
            rate_limited: false,
            requires_authentication: false,
        },
        request: vec![
            FieldDef {
                name: b("thing_id"),
                role: FieldRole::PathSegment(b("thing_id")),
                required: true,
            },
        ],
        response: vec![
            FieldDef { name: b("name"), role: FieldRole::BodyField(b("name")), required: true },
        ],
    }
}

#[test]
fn well_formed_schema_is_accepted() {
    assert!(base_schema().validate().is_ok());
}

#[test]
fn raw_body_beside_body_is_rejected() {
    let mut s = base_schema();
    s.request.push(FieldDef { name: b("blob"), role: FieldRole::RawBody, required: true });
    s.request.push(FieldDef { name: b("doc"), role: FieldRole::Body, required: true });
    assert_eq!(s.validate(), Err(DefinitionError::ConflictingBodyRoles));
    let r = SchemaRegistry::build(vec![s]);
    match r {
        Err(e) => assert_eq!(e, DefinitionError::ConflictingBodyRoles),
        Ok(_) => panic!("registration must fail before any request is built"),
    }
}

#[test]
fn two_whole_bodies_are_rejected() {
    let mut s = base_schema();
    s.request.push(FieldDef { name: b("doc1"), role: FieldRole::Body, required: true });
    s.request.push(FieldDef { name: b("doc2"), role: FieldRole::Body, required: true });
    assert_eq!(s.validate(), Err(DefinitionError::ConflictingBodyRoles));
}

#[test]
fn unmatched_placeholder_is_rejected() {
    let mut s = base_schema();
    s.metadata.path_template = b("/things/:thing_id/:extra");
    assert_eq!(s.validate(), Err(DefinitionError::PlaceholderMismatch));
}

#[test]
fn unclaimed_path_field_is_rejected() {
    let mut s = base_schema();
    s.metadata.path_template = b("/things");
    assert_eq!(s.validate(), Err(DefinitionError::PlaceholderMismatch));
}

#[test]
fn template_must_start_with_slash() {
    let mut s = base_schema();
    s.metadata.path_template = b("things/:thing_id");
    assert_eq!(s.validate(), Err(DefinitionError::BadTemplate));
}

#[test]
fn duplicate_field_names_are_rejected() {
    let mut s = base_schema();
    s.response.push(FieldDef { name: b("name"), role: FieldRole::BodyField(b("other")), required: false });
    assert_eq!(s.validate(), Err(DefinitionError::DuplicateField));
}

#[test]
fn two_query_maps_are_rejected() {
    let mut s = base_schema();
    s.request.push(FieldDef { name: b("m1"), role: FieldRole::QueryMap, required: true });
    s.request.push(FieldDef { name: b("m2"), role: FieldRole::QueryMap, required: true });
    assert_eq!(s.validate(), Err(DefinitionError::DuplicateQueryMap));
}

#[test]
fn case_colliding_headers_are_rejected() {
    let mut s = base_schema();
    s.request.push(FieldDef { name: b("h1"), role: FieldRole::Header(b("X-Tag")), required: false });
    s.request.push(FieldDef { name: b("h2"), role: FieldRole::Header(b("x-tag")), required: false });
    assert_eq!(s.validate(), Err(DefinitionError::DuplicateHeader));
}

#[test]
fn reserved_credential_header_is_rejected() {
    let mut s = base_schema();
    s.request.push(FieldDef {
        name: b("h"),
        role: FieldRole::Header(b("Authorization")),
        required: false,
    });
    assert_eq!(s.validate(), Err(DefinitionError::ReservedHeader));
}

#[test]
fn duplicate_body_members_are_rejected() {
    let mut s = base_schema();
    s.response.push(FieldDef { name: b("other"), role: FieldRole::BodyField(b("name")), required: false });
    assert_eq!(s.validate(), Err(DefinitionError::DuplicateBodyField));
}

#[test]
fn quoted_body_member_name_is_rejected() {
    let mut s = base_schema();
    s.response = vec![
        FieldDef { name: b("bad"), role: FieldRole::BodyField(b("na\"me")), required: true },
    ];
    assert_eq!(s.validate(), Err(DefinitionError::BadBodyFieldName));
}

#[test]
fn optional_path_field_is_rejected() {
    let mut s = base_schema();
    s.request[0].required = false;
    assert_eq!(s.validate(), Err(DefinitionError::OptionalStructuralField));
}

#[test]
fn query_role_in_response_is_rejected() {
    let mut s = base_schema();
    s.response.push(FieldDef { name: b("q"), role: FieldRole::QueryParam, required: false });
    assert_eq!(s.validate(), Err(DefinitionError::ResponseRole));
}

#[test]
fn registry_serves_schemas_by_name() {
    let reg = SchemaRegistry::build(vec![base_schema()]).unwrap();
    assert!(reg.get(&b("get_thing")).is_some());
    assert!(reg.get(&b("missing")).is_none());
}
