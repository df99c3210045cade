//! The endpoint schema: transport metadata, one wire role per field, and the
//! well-formedness rules that are enforced once, when a schema is registered.
//! Every violation is a [`DefinitionError`], reported at registration and
//! never at request time.

use vstd::prelude::*;
use crate::bytes::{absent, lower, lower_bytes, bytes_eq, split, COLON, QMARK, SLASH};
use crate::json::text_ok;

verus! {

/// The wire verb of an endpoint.
#[derive(Clone, Copy, PartialEq, Eq, Structural, Debug)]
pub enum Method {
    Get,
    Post,
    Put,
    Delete,
}

/// Static description of one endpoint's transport characteristics.
pub struct Metadata {
    /// Human-readable description of the endpoint.
    pub description: Vec<u8>,
    /// The wire verb.
    pub method: Method,
    /// The endpoint's identifier.
    pub name: Vec<u8>,
    /// Path template: literal segments and `:name` placeholders.
    pub path_template: Vec<u8>,
    /// Whether the endpoint is rate-limited.
    pub rate_limited: bool,
    /// Whether a bearer credential must accompany every request.
    pub requires_authentication: bool,
}

/// The wire location a field is mapped to.
pub enum FieldRole {
    /// Substituted, percent-encoded, for the placeholder of this name.
    PathSegment(Vec<u8>),
    /// One `key=value` query pair, keyed by the field's name.
    QueryParam,
    /// The ordered catch-all for query pairs not claimed by a `QueryParam`.
    QueryMap,
    /// One wire header of this name, matched case-insensitively.
    Header(Vec<u8>),
    /// The whole body as one opaque structured document.
    Body,
    /// One text member of this name in the flat structured body document.
    BodyField(Vec<u8>),
    /// The body as raw bytes, passed through unmodified.
    RawBody,
}

/// One field of a request or response shape.
pub struct FieldDef {
    /// The field's name.
    pub name: Vec<u8>,
    /// Where the field lives on the wire.
    pub role: FieldRole,
    /// Whether the field must be present.  Path, body, and query-map fields
    /// are always required.
    pub required: bool,
}

/// One endpoint: metadata plus the request and response shapes.
pub struct EndpointSchema {
    /// Transport metadata.
    pub metadata: Metadata,
    /// The request shape, in declaration order.
    pub request: Vec<FieldDef>,
    /// The response shape, in declaration order.
    pub response: Vec<FieldDef>,
}

/// A schema violation, detected when the schema is registered.
#[derive(Clone, Copy, PartialEq, Eq, Structural, Debug)]
pub enum DefinitionError {
    /// The template is empty, lacks its leading slash, or contains `?`.
    BadTemplate,
    /// Placeholders and path-segment fields are not in exact correspondence.
    PlaceholderMismatch,
    /// Two fields of one shape share a name.
    DuplicateField,
    /// More than one query-map field on one shape.
    DuplicateQueryMap,
    /// Two header fields share a case-insensitive name.
    DuplicateHeader,
    /// A header field uses the reserved credential header name.
    ReservedHeader,
    /// Body roles conflict: at most one body document or raw body, and
    /// neither beside body members.
    ConflictingBodyRoles,
    /// Two body-member fields share a member name.
    DuplicateBodyField,
    /// A body-member name is not plain quote-free text.
    BadBodyFieldName,
    /// A path, body, raw-body, or query-map field was marked optional.
    OptionalStructuralField,
    /// A response field uses a path or query role.
    ResponseRole,
}

/// The reserved, lower-case name of the credential header.
pub open spec fn auth_header_name() -> Seq<u8> {
    seq![0x61u8, 0x75, 0x74, 0x68, 0x6F, 0x72, 0x69, 0x7A, 0x61, 0x74, 0x69, 0x6F, 0x6E]
}

/// Runtime copy of the credential header name.
pub fn auth_header_name_exec() -> (r: Vec<u8>)
    ensures
        r@ == auth_header_name(),
{
    let mut v: Vec<u8> = Vec::new();
    v.push(0x61);
    v.push(0x75);
    v.push(0x74);
    v.push(0x68);
    v.push(0x6F);
    v.push(0x72);
    v.push(0x69);
    v.push(0x7A);
    v.push(0x61);
    v.push(0x74);
    v.push(0x69);
    v.push(0x6F);
    v.push(0x6E);
    proof {
        assert(v@ =~= auth_header_name());
    }
    v
}

/// Whether a template segment is a `:name` placeholder.
pub open spec fn seg_is_placeholder(seg: Seq<u8>) -> bool {
    seg.len() >= 1 && seg[0] == COLON
}

/// A role that occupies the body.
pub open spec fn is_body_role(r: FieldRole) -> bool {
    r is Body || r is BodyField || r is RawBody
}

/// Field names are pairwise distinct on one shape.
pub open spec fn distinct_names(fields: Seq<FieldDef>) -> bool {
    forall|i: int, j: int|
        0 <= i < j < fields.len() ==> (#[trigger] fields[i]).name@ != (#[trigger] fields[j]).name@
}

/// At most one query-map field on one shape.
pub open spec fn single_query_map(fields: Seq<FieldDef>) -> bool {
    forall|i: int, j: int|
        0 <= i < j < fields.len() ==> !((#[trigger] fields[i]).role is QueryMap && (
        #[trigger] fields[j]).role is QueryMap)
}

/// Header names are pairwise distinct, case-insensitively.
pub open spec fn distinct_headers(fields: Seq<FieldDef>) -> bool {
    forall|i: int, j: int|
        0 <= i < j < fields.len() ==> !((#[trigger] fields[i]).role matches FieldRole::Header(m)
            && (#[trigger] fields[j]).role matches FieldRole::Header(n) && lower(m@) == lower(n@))
}

/// No header field claims the reserved credential header.
pub open spec fn no_reserved_header(fields: Seq<FieldDef>) -> bool {
    forall|i: int|
        0 <= i < fields.len() ==> !((#[trigger] fields[i]).role matches FieldRole::Header(n)
            && lower(n@) == auth_header_name())
}

/// Body roles do not conflict: any two body-occupying fields are both
/// body members.
pub open spec fn body_roles_ok(fields: Seq<FieldDef>) -> bool {
    forall|i: int, j: int|
        0 <= i < j < fields.len() ==> !(is_body_role((#[trigger] fields[i]).role) && is_body_role(
            (#[trigger] fields[j]).role,
        ) && !((fields[i]).role is BodyField && (fields[j]).role is BodyField))
}

/// Body-member names are pairwise distinct.
pub open spec fn distinct_body_fields(fields: Seq<FieldDef>) -> bool {
    forall|i: int, j: int|
        0 <= i < j < fields.len() ==> !((#[trigger] fields[i]).role matches FieldRole::BodyField(m)
            && (#[trigger] fields[j]).role matches FieldRole::BodyField(n) && m@ == n@)
}

/// Body-member names are quote-free text.
pub open spec fn body_field_names_ok(fields: Seq<FieldDef>) -> bool {
    forall|i: int|
        0 <= i < fields.len() ==> ((#[trigger] fields[i]).role matches FieldRole::BodyField(n)
            ==> text_ok(n@))
}

/// Path, body, raw-body, and query-map fields are required.
pub open spec fn structural_required(fields: Seq<FieldDef>) -> bool {
    forall|i: int|
        0 <= i < fields.len() ==> (((#[trigger] fields[i]).role is PathSegment || fields[i].role
            is Body || fields[i].role is RawBody || fields[i].role is QueryMap) ==> fields[i].required)
}

/// All shape rules that apply to requests and responses alike.
pub open spec fn wf_shape(fields: Seq<FieldDef>) -> bool {
    &&& distinct_names(fields)
    &&& single_query_map(fields)
    &&& distinct_headers(fields)
    &&& no_reserved_header(fields)
    &&& body_roles_ok(fields)
    &&& distinct_body_fields(fields)
    &&& body_field_names_ok(fields)
    &&& structural_required(fields)
}

/// The template is nonempty, starts with `/`, and contains no `?`.
pub open spec fn wf_template(t: Seq<u8>) -> bool {
    t.len() >= 1 && t[0] == SLASH && absent(t, QMARK)
}

/// Path-segment role names are pairwise distinct.
pub open spec fn distinct_path_fields(fields: Seq<FieldDef>) -> bool {
    forall|i: int, j: int|
        0 <= i < j < fields.len() ==> !((#[trigger] fields[i]).role matches FieldRole::PathSegment(
        m) && (#[trigger] fields[j]).role matches FieldRole::PathSegment(n) && m@ == n@)
}

/// Placeholder names are pairwise distinct in the template.
pub open spec fn distinct_placeholders(segs: Seq<Seq<u8>>) -> bool {
    forall|p: int, q: int|
        0 <= p < q < segs.len() ==> !(seg_is_placeholder(#[trigger] segs[p]) && seg_is_placeholder(
            #[trigger] segs[q],
        ) && segs[p].drop_first() == segs[q].drop_first())
}

/// Every path-segment field claims a placeholder of the template.
pub open spec fn fields_claim_placeholders(segs: Seq<Seq<u8>>, fields: Seq<FieldDef>) -> bool {
    forall|i: int|
        0 <= i < fields.len() ==> ((#[trigger] fields[i]).role matches FieldRole::PathSegment(n)
            ==> exists|p: int|
            0 <= p < segs.len() && seg_is_placeholder(#[trigger] segs[p]) && segs[p].drop_first()
                == n@)
}

/// Every placeholder of the template is claimed by a path-segment field.
pub open spec fn placeholders_claimed(segs: Seq<Seq<u8>>, fields: Seq<FieldDef>) -> bool {
    forall|p: int|
        0 <= p < segs.len() ==> (seg_is_placeholder(#[trigger] segs[p]) ==> exists|i: int|
            0 <= i < fields.len() && ((#[trigger] fields[i]).role matches FieldRole::PathSegment(n)
                && n@ == segs[p].drop_first()))
}

/// The full placeholder/field correspondence of the request path.
pub open spec fn wf_path(s: EndpointSchema) -> bool {
    let segs = split(s.metadata.path_template@, SLASH);
    &&& distinct_path_fields(s.request@)
    &&& distinct_placeholders(segs)
    &&& fields_claim_placeholders(segs, s.request@)
    &&& placeholders_claimed(segs, s.request@)
}

/// Response fields carry only header and body roles.
pub open spec fn wf_response_roles(fields: Seq<FieldDef>) -> bool {
    forall|i: int|
        0 <= i < fields.len() ==> ((#[trigger] fields[i]).role is Header || fields[i].role is Body
            || fields[i].role is BodyField || fields[i].role is RawBody)
}

/// A well-formed endpoint schema.
pub open spec fn wf_schema(s: EndpointSchema) -> bool {
    &&& wf_template(s.metadata.path_template@)
    &&& wf_shape(s.request@)
    &&& wf_shape(s.response@)
    &&& wf_path(s)
    &&& wf_response_roles(s.response@)
}

/// Runtime check of [`seg_is_placeholder`].
pub fn seg_placeholder_exec(seg: &Vec<u8>) -> (r: bool)
    ensures
        r == seg_is_placeholder(seg@),
{
    seg.len() >= 1 && seg[0] == COLON
}

/// The segment after its leading byte.
pub fn tail_bytes(v: &Vec<u8>) -> (r: Vec<u8>)
    requires
        v@.len() >= 1,
    ensures
        r@ == v@.drop_first(),
{
    let mut out: Vec<u8> = Vec::new();
    let mut i: usize = 1;
    while i < v.len()
        invariant
            1 <= i <= v@.len(),
            out@ == v@.subrange(1, i as int),
        decreases v@.len() - i,
    {
        out.push(v[i]);
        proof {
            assert(v@.subrange(1, i + 1) =~= v@.subrange(1, i as int).push(v@[i as int]));
        }
        i += 1;
    }
    proof {
        assert(v@.subrange(1, v@.len() as int) =~= v@.drop_first());
    }
    out
}

fn check_distinct_names(fields: &Vec<FieldDef>) -> (r: bool)
    ensures
        r == distinct_names(fields@),
{
    let mut i: usize = 0;
    while i < fields.len()
        invariant
            i <= fields@.len(),
            forall|a: int, b: int|
                0 <= a < b < fields@.len() && a < i ==> (#[trigger] fields@[a]).name@ != (
                #[trigger] fields@[b]).name@,
        decreases fields@.len() - i,
    {
        let mut j: usize = i + 1;
        while j < fields.len()
            invariant
                i < j <= fields@.len() || (i + 1 == j && j > fields@.len() - 1 && i < fields@.len()),
                i < fields@.len(),
                j >= i + 1,
                j <= fields@.len() || j == i + 1,
                forall|a: int, b: int|
                    0 <= a < b < fields@.len() && a < i ==> (#[trigger] fields@[a]).name@ != (
                    #[trigger] fields@[b]).name@,
                forall|b: int| i < b < j ==> (#[trigger] fields@[b]).name@ != fields@[i as int].name@,
            decreases fields@.len() - j,
        {
            if bytes_eq(&fields[i].name, &fields[j].name) {
                return false;
            }
            j += 1;
        }
        i += 1;
    }
    true
}

fn check_single_query_map(fields: &Vec<FieldDef>) -> (r: bool)
    ensures
        r == single_query_map(fields@),
{
    let mut count: usize = 0;
    let mut i: usize = 0;
    let ghost mut witness: int = 0;
    while i < fields.len()
        invariant
            i <= fields@.len(),
            count <= i,
            count == 0 ==> forall|a: int|
                0 <= a < i ==> !((#[trigger] fields@[a]).role is QueryMap),
            count >= 1 ==> 0 <= witness < i && fields@[witness].role is QueryMap,
            count >= 1 ==> forall|a: int|
                0 <= a < i && a != witness ==> !((#[trigger] fields@[a]).role is QueryMap),
            count <= 1,
        decreases fields@.len() - i,
    {
        let qm = match &fields[i].role {
            FieldRole::QueryMap => true,
            _ => false,
        };
        if qm {
            if count >= 1 {
                proof {
                    assert(fields@[witness].role is QueryMap && fields@[i as int].role is QueryMap);
                }
                return false;
            }
            count = 1;
            proof {
                witness = i as int;
            }
        }
        i += 1;
    }
    true
}

fn role_header_name(role: &FieldRole) -> (r: Option<&Vec<u8>>)
    ensures
        match r {
            Some(n) => role matches FieldRole::Header(m) && m@ == n@,
            None => !(role is Header),
        },
{
    match role {
        FieldRole::Header(n) => Some(n),
        _ => None,
    }
}

fn role_path_name(role: &FieldRole) -> (r: Option<&Vec<u8>>)
    ensures
        match r {
            Some(n) => role matches FieldRole::PathSegment(m) && m@ == n@,
            None => !(role is PathSegment),
        },
{
    match role {
        FieldRole::PathSegment(n) => Some(n),
        _ => None,
    }
}

fn role_body_field_name(role: &FieldRole) -> (r: Option<&Vec<u8>>)
    ensures
        match r {
            Some(n) => role matches FieldRole::BodyField(m) && m@ == n@,
            None => !(role is BodyField),
        },
{
    match role {
        FieldRole::BodyField(n) => Some(n),
        _ => None,
    }
}

fn check_distinct_headers(fields: &Vec<FieldDef>) -> (r: bool)
    ensures
        r == distinct_headers(fields@),
{
    let mut i: usize = 0;
    while i < fields.len()
        invariant
            i <= fields@.len(),
            forall|a: int, b: int|
                0 <= a < b < fields@.len() && a < i ==> !((#[trigger] fields@[a]).role matches
                FieldRole::Header(m) && (#[trigger] fields@[b]).role matches FieldRole::Header(n)
                    && lower(m@) == lower(n@)),
        decreases fields@.len() - i,
    {
        if let Some(ni) = role_header_name(&fields[i].role) {
            let li = lower_bytes(ni);
            let mut j: usize = i + 1;
            while j < fields.len()
                invariant
                    i < fields@.len(),
                    i + 1 <= j <= fields@.len(),
                    fields@[i as int].role matches FieldRole::Header(m) && lower(m@) == li@,
                    forall|b: int|
                        i < b < j ==> !((#[trigger] fields@[b]).role matches FieldRole::Header(n)
                            && lower(n@) == li@),
                decreases fields@.len() - j,
            {
                if let Some(nj) = role_header_name(&fields[j].role) {
                    let lj = lower_bytes(nj);
                    if bytes_eq(&li, &lj) {
                        return false;
                    }
                }
                j += 1;
            }
        }
        i += 1;
    }
    true
}

fn check_no_reserved_header(fields: &Vec<FieldDef>) -> (r: bool)
    ensures
        r == no_reserved_header(fields@),
{
    let reserved = auth_header_name_exec();
    let mut i: usize = 0;
    while i < fields.len()
        invariant
            i <= fields@.len(),
            reserved@ == auth_header_name(),
            forall|a: int|
                0 <= a < i ==> !((#[trigger] fields@[a]).role matches FieldRole::Header(n) && lower(
                    n@,
                ) == auth_header_name()),
        decreases fields@.len() - i,
    {
        if let Some(n) = role_header_name(&fields[i].role) {
            let ln = lower_bytes(n);
            if bytes_eq(&ln, &reserved) {
                return false;
            }
        }
        i += 1;
    }
    true
}

fn role_is_body_exec(role: &FieldRole) -> (r: bool)
    ensures
        r == is_body_role(*role),
{
    match role {
        FieldRole::Body => true,
        FieldRole::BodyField(_) => true,
        FieldRole::RawBody => true,
        _ => false,
    }
}

fn role_is_body_field_exec(role: &FieldRole) -> (r: bool)
    ensures
        r == (role is BodyField),
{
    match role {
        FieldRole::BodyField(_) => true,
        _ => false,
    }
}

fn check_body_roles(fields: &Vec<FieldDef>) -> (r: bool)
    ensures
        r == body_roles_ok(fields@),
{
    let mut i: usize = 0;
    while i < fields.len()
        invariant
            i <= fields@.len(),
            forall|a: int, b: int|
                0 <= a < b < fields@.len() && a < i ==> !(is_body_role(
                    (#[trigger] fields@[a]).role,
                ) && is_body_role((#[trigger] fields@[b]).role) && !(fields@[a].role is BodyField
                    && fields@[b].role is BodyField)),
        decreases fields@.len() - i,
    {
        if role_is_body_exec(&fields[i].role) {
            let bf_i = role_is_body_field_exec(&fields[i].role);
            let mut j: usize = i + 1;
            while j < fields.len()
                invariant
                    i < fields@.len(),
                    i + 1 <= j <= fields@.len(),
                    is_body_role(fields@[i as int].role),
                    bf_i == (fields@[i as int].role is BodyField),
                    forall|b: int|
                        i < b < j ==> !(is_body_role((#[trigger] fields@[b]).role) && !(
                        fields@[i as int].role is BodyField && fields@[b].role is BodyField)),
                decreases fields@.len() - j,
            {
                if role_is_body_exec(&fields[j].role) {
                    let bf_j = role_is_body_field_exec(&fields[j].role);
                    if !(bf_i && bf_j) {
                        return false;
                    }
                }
                j += 1;
            }
        }
        i += 1;
    }
    true
}

fn check_distinct_body_fields(fields: &Vec<FieldDef>) -> (r: bool)
    ensures
        r == distinct_body_fields(fields@),
{
    let mut i: usize = 0;
    while i < fields.len()
        invariant
            i <= fields@.len(),
            forall|a: int, b: int|
                0 <= a < b < fields@.len() && a < i ==> !((#[trigger] fields@[a]).role matches
                FieldRole::BodyField(m) && (#[trigger] fields@[b]).role matches
                FieldRole::BodyField(n) && m@ == n@),
        decreases fields@.len() - i,
    {
        if let Some(ni) = role_body_field_name(&fields[i].role) {
            let ghost niv = ni@;
            let key = crate::bytes::copy_bytes(ni);
            let mut j: usize = i + 1;
            while j < fields.len()
                invariant
                    i < fields@.len(),
                    i + 1 <= j <= fields@.len(),
                    fields@[i as int].role matches FieldRole::BodyField(m) && m@ == key@,
                    forall|b: int|
                        i < b < j ==> !((#[trigger] fields@[b]).role matches FieldRole::BodyField(
                        n) && n@ == key@),
                decreases fields@.len() - j,
            {
                if let Some(nj) = role_body_field_name(&fields[j].role) {
                    if bytes_eq(&key, nj) {
                        return false;
                    }
                }
                j += 1;
            }
        }
        i += 1;
    }
    true
}

fn check_body_field_names(fields: &Vec<FieldDef>) -> (r: bool)
    ensures
        r == body_field_names_ok(fields@),
{
    let mut i: usize = 0;
    while i < fields.len()
        invariant
            i <= fields@.len(),
            forall|a: int|
                0 <= a < i ==> ((#[trigger] fields@[a]).role matches FieldRole::BodyField(n)
                    ==> text_ok(n@)),
        decreases fields@.len() - i,
    {
        if let Some(n) = role_body_field_name(&fields[i].role) {
            if !crate::json::text_ok_exec(n) {
                return false;
            }
        }
        i += 1;
    }
    true
}

fn check_structural_required(fields: &Vec<FieldDef>) -> (r: bool)
    ensures
        r == structural_required(fields@),
{
    let mut i: usize = 0;
    while i < fields.len()
        invariant
            i <= fields@.len(),
            forall|a: int|
                0 <= a < i ==> (((#[trigger] fields@[a]).role is PathSegment || fields@[a].role
                    is Body || fields@[a].role is RawBody || fields@[a].role is QueryMap)
                    ==> fields@[a].required),
        decreases fields@.len() - i,
    {
        let structural = match &fields[i].role {
            FieldRole::PathSegment(_) => true,
            FieldRole::Body => true,
            FieldRole::RawBody => true,
            FieldRole::QueryMap => true,
            _ => false,
        };
        if structural && !fields[i].required {
            return false;
        }
        i += 1;
    }
    true
}

fn check_template(t: &Vec<u8>) -> (r: bool)
    ensures
        r == wf_template(t@),
{
    if t.len() == 0 || t[0] != SLASH {
        return false;
    }
    let mut i: usize = 0;
    while i < t.len()
        invariant
            i <= t@.len(),
            t@.len() >= 1 && t@[0] == SLASH,
            forall|j: int| 0 <= j < i ==> t@[j] != QMARK,
        decreases t@.len() - i,
    {
        if t[i] == QMARK {
            return false;
        }
        i += 1;
    }
    true
}

fn check_distinct_path_fields(fields: &Vec<FieldDef>) -> (r: bool)
    ensures
        r == distinct_path_fields(fields@),
{
    let mut i: usize = 0;
    while i < fields.len()
        invariant
            i <= fields@.len(),
            forall|a: int, b: int|
                0 <= a < b < fields@.len() && a < i ==> !((#[trigger] fields@[a]).role matches
                FieldRole::PathSegment(m) && (#[trigger] fields@[b]).role matches
                FieldRole::PathSegment(n) && m@ == n@),
        decreases fields@.len() - i,
    {
        if let Some(ni) = role_path_name(&fields[i].role) {
            let key = crate::bytes::copy_bytes(ni);
            let mut j: usize = i + 1;
            while j < fields.len()
                invariant
                    i < fields@.len(),
                    i + 1 <= j <= fields@.len(),
                    fields@[i as int].role matches FieldRole::PathSegment(m) && m@ == key@,
                    forall|b: int|
                        i < b < j ==> !((#[trigger] fields@[b]).role matches
                        FieldRole::PathSegment(n) && n@ == key@),
                decreases fields@.len() - j,
            {
                if let Some(nj) = role_path_name(&fields[j].role) {
                    if bytes_eq(&key, nj) {
                        return false;
                    }
                }
                j += 1;
            }
        }
        i += 1;
    }
    true
}

fn check_distinct_placeholders(segs: &Vec<Vec<u8>>) -> (r: bool)
    ensures
        r == distinct_placeholders(crate::bytes::seqs_of(segs@)),
{
    let ghost sv = crate::bytes::seqs_of(segs@);
    proof {
        assert(forall|p: int| 0 <= p < segs@.len() ==> sv[p] == (#[trigger] segs@[p])@);
    }
    let mut i: usize = 0;
    while i < segs.len()
        invariant
            i <= segs@.len(),
            sv == crate::bytes::seqs_of(segs@),
            sv.len() == segs@.len(),
            forall|p: int| 0 <= p < segs@.len() ==> sv[p] == (#[trigger] segs@[p])@,
            forall|p: int, q: int|
                0 <= p < q < sv.len() && p < i ==> !(seg_is_placeholder(#[trigger] sv[p])
                    && seg_is_placeholder(#[trigger] sv[q]) && sv[p].drop_first()
                    == sv[q].drop_first()),
        decreases segs@.len() - i,
    {
        if seg_placeholder_exec(&segs[i]) {
            let ti = tail_bytes(&segs[i]);
            let mut j: usize = i + 1;
            while j < segs.len()
                invariant
                    i < segs@.len(),
                    i + 1 <= j <= segs@.len(),
                    sv == crate::bytes::seqs_of(segs@),
                    sv.len() == segs@.len(),
                    forall|p: int| 0 <= p < segs@.len() ==> sv[p] == (#[trigger] segs@[p])@,
                    seg_is_placeholder(sv[i as int]) && sv[i as int].drop_first() == ti@,
                    forall|q: int|
                        i < q < j ==> !(seg_is_placeholder(#[trigger] sv[q]) && sv[q].drop_first()
                            == ti@),
                decreases segs@.len() - j,
            {
                if seg_placeholder_exec(&segs[j]) {
                    let tj = tail_bytes(&segs[j]);
                    if bytes_eq(&ti, &tj) {
                        return false;
                    }
                }
                j += 1;
            }
        }
        i += 1;
    }
    true
}

fn check_fields_claim(segs: &Vec<Vec<u8>>, fields: &Vec<FieldDef>) -> (r: bool)
    ensures
        r == fields_claim_placeholders(crate::bytes::seqs_of(segs@), fields@),
{
    let ghost sv = crate::bytes::seqs_of(segs@);
    proof {
        assert(forall|p: int| 0 <= p < segs@.len() ==> sv[p] == (#[trigger] segs@[p])@);
    }
    let mut i: usize = 0;
    while i < fields.len()
        invariant
            i <= fields@.len(),
            sv == crate::bytes::seqs_of(segs@),
            sv.len() == segs@.len(),
            forall|p: int| 0 <= p < segs@.len() ==> sv[p] == (#[trigger] segs@[p])@,
            forall|a: int|
                0 <= a < i ==> ((#[trigger] fields@[a]).role matches FieldRole::PathSegment(n)
                    ==> exists|p: int|
                    0 <= p < sv.len() && seg_is_placeholder(#[trigger] sv[p]) && sv[p].drop_first()
                        == n@),
        decreases fields@.len() - i,
    {
        if let Some(n) = role_path_name(&fields[i].role) {
            let key = crate::bytes::copy_bytes(n);
            let mut j: usize = 0;
            let mut found: bool = false;
            while j < segs.len()
                invariant
                    j <= segs@.len(),
                    sv == crate::bytes::seqs_of(segs@),
                    sv.len() == segs@.len(),
                    forall|p: int| 0 <= p < segs@.len() ==> sv[p] == (#[trigger] segs@[p])@,
                    fields@[i as int].role matches FieldRole::PathSegment(m) && m@ == key@,
                    i < fields@.len(),
                    found ==> exists|p: int|
                        0 <= p < sv.len() && seg_is_placeholder(#[trigger] sv[p])
                            && sv[p].drop_first() == key@,
                    !found ==> forall|p: int|
                        0 <= p < j ==> !(seg_is_placeholder(#[trigger] sv[p]) && sv[p].drop_first()
                            == key@),
                decreases segs@.len() - j,
            {
                if !found && seg_placeholder_exec(&segs[j]) {
                    let tj = tail_bytes(&segs[j]);
                    if bytes_eq(&key, &tj) {
                        found = true;
                    }
                }
                j += 1;
            }
            if !found {
                return false;
            }
        }
        i += 1;
    }
    true
}

fn check_placeholders_claimed(segs: &Vec<Vec<u8>>, fields: &Vec<FieldDef>) -> (r: bool)
    ensures
        r == placeholders_claimed(crate::bytes::seqs_of(segs@), fields@),
{
    let ghost sv = crate::bytes::seqs_of(segs@);
    proof {
        assert(forall|p: int| 0 <= p < segs@.len() ==> sv[p] == (#[trigger] segs@[p])@);
    }
    let mut p: usize = 0;
    while p < segs.len()
        invariant
            p <= segs@.len(),
            sv == crate::bytes::seqs_of(segs@),
            sv.len() == segs@.len(),
            forall|q: int| 0 <= q < segs@.len() ==> sv[q] == (#[trigger] segs@[q])@,
            forall|a: int|
                0 <= a < p ==> (seg_is_placeholder(#[trigger] sv[a]) ==> exists|i: int|
                    0 <= i < fields@.len() && ((#[trigger] fields@[i]).role matches
                    FieldRole::PathSegment(n) && n@ == sv[a].drop_first())),
        decreases segs@.len() - p,
    {
        if seg_placeholder_exec(&segs[p]) {
            let tp = tail_bytes(&segs[p]);
            let mut i: usize = 0;
            let mut found: bool = false;
            while i < fields.len()
                invariant
                    i <= fields@.len(),
                    p < segs@.len(),
                    sv == crate::bytes::seqs_of(segs@),
                    sv.len() == segs@.len(),
                    forall|q: int| 0 <= q < segs@.len() ==> sv[q] == (#[trigger] segs@[q])@,
                    seg_is_placeholder(sv[p as int]) && sv[p as int].drop_first() == tp@,
                    found ==> exists|k: int|
                        0 <= k < fields@.len() && ((#[trigger] fields@[k]).role matches
                        FieldRole::PathSegment(n) && n@ == tp@),
                    !found ==> forall|k: int|
                        0 <= k < i ==> !((#[trigger] fields@[k]).role matches
                        FieldRole::PathSegment(n) && n@ == tp@),
                decreases fields@.len() - i,
            {
                if !found {
                    if let Some(n) = role_path_name(&fields[i].role) {
                        if bytes_eq(&tp, n) {
                            found = true;
                        }
                    }
                }
                i += 1;
            }
            if !found {
                return false;
            }
        }
        p += 1;
    }
    true
}

/// Which violated rule each [`DefinitionError`] reports.
pub open spec fn definition_error_witness(s: EndpointSchema, e: DefinitionError) -> bool {
    match e {
        DefinitionError::BadTemplate => !wf_template(s.metadata.path_template@),
        DefinitionError::PlaceholderMismatch => !wf_path(s),
        DefinitionError::DuplicateField => !distinct_names(s.request@) || !distinct_names(
            s.response@,
        ),
        DefinitionError::DuplicateQueryMap => !single_query_map(s.request@) || !single_query_map(
            s.response@,
        ),
        DefinitionError::DuplicateHeader => !distinct_headers(s.request@) || !distinct_headers(
            s.response@,
        ),
        DefinitionError::ReservedHeader => !no_reserved_header(s.request@) || !no_reserved_header(
            s.response@,
        ),
        DefinitionError::ConflictingBodyRoles => !body_roles_ok(s.request@) || !body_roles_ok(
            s.response@,
        ),
        DefinitionError::DuplicateBodyField => !distinct_body_fields(s.request@)
            || !distinct_body_fields(s.response@),
        DefinitionError::BadBodyFieldName => !body_field_names_ok(s.request@)
            || !body_field_names_ok(s.response@),
        DefinitionError::OptionalStructuralField => !structural_required(s.request@)
            || !structural_required(s.response@),
        DefinitionError::ResponseRole => !wf_response_roles(s.response@),
    }
}

impl EndpointSchema {
    /// Checks every schema rule; `Ok` exactly for well-formed schemas, and
    /// each error names a rule that the schema violates.
    pub fn validate(&self) -> (r: Result<(), DefinitionError>)
        ensures
            r is Ok <==> wf_schema(*self),
            r matches Err(e) ==> definition_error_witness(*self, e),
    {
        if !check_template(&self.metadata.path_template) {
            return Err(DefinitionError::BadTemplate);
        }
        if !check_distinct_names(&self.request) || !check_distinct_names(&self.response) {
            return Err(DefinitionError::DuplicateField);
        }
        if !check_single_query_map(&self.request) || !check_single_query_map(&self.response) {
            return Err(DefinitionError::DuplicateQueryMap);
        }
        if !check_distinct_headers(&self.request) || !check_distinct_headers(&self.response) {
            return Err(DefinitionError::DuplicateHeader);
        }
        if !check_no_reserved_header(&self.request) || !check_no_reserved_header(&self.response) {
            return Err(DefinitionError::ReservedHeader);
        }
        if !check_body_roles(&self.request) || !check_body_roles(&self.response) {
            return Err(DefinitionError::ConflictingBodyRoles);
        }
        if !check_distinct_body_fields(&self.request) || !check_distinct_body_fields(
            &self.response,
        ) {
            return Err(DefinitionError::DuplicateBodyField);
        }
        if !check_body_field_names(&self.request) || !check_body_field_names(&self.response) {
            return Err(DefinitionError::BadBodyFieldName);
        }
        if !check_structural_required(&self.request) || !check_structural_required(
            &self.response,
        ) {
            return Err(DefinitionError::OptionalStructuralField);
        }
        let segs = crate::bytes::split_bytes(&self.metadata.path_template, SLASH);
        if !check_distinct_path_fields(&self.request) || !check_distinct_placeholders(&segs)
            || !check_fields_claim(&segs, &self.request) || !check_placeholders_claimed(
            &segs,
            &self.request,
        ) {
            return Err(DefinitionError::PlaceholderMismatch);
        }
        if !check_response_roles(&self.response) {
            return Err(DefinitionError::ResponseRole);
        }
        Ok(())
    }
}

fn check_response_roles(fields: &Vec<FieldDef>) -> (r: bool)
    ensures
        r == wf_response_roles(fields@),
{
    let mut i: usize = 0;
    while i < fields.len()
        invariant
            i <= fields@.len(),
            forall|a: int|
                0 <= a < i ==> ((#[trigger] fields@[a]).role is Header || fields@[a].role is Body
                    || fields@[a].role is BodyField || fields@[a].role is RawBody),
        decreases fields@.len() - i,
    {
        let ok = match &fields[i].role {
            FieldRole::Header(_) => true,
            FieldRole::Body => true,
            FieldRole::BodyField(_) => true,
            FieldRole::RawBody => true,
            _ => false,
        };
        if !ok {
            return false;
        }
        i += 1;
    }
    true
}

/// The process-wide, write-once table of validated endpoint schemas.
pub struct SchemaRegistry {
    /// The validated schemas, in registration order.
    pub schemas: Vec<EndpointSchema>,
}

impl SchemaRegistry {
    /// Every held schema is well-formed.
    pub open spec fn all_wf(&self) -> bool {
        forall|k: int| 0 <= k < self.schemas@.len() ==> wf_schema(#[trigger] self.schemas@[k])
    }

    /// Builds the registry once, at initialization, validating every schema;
    /// a single violation rejects the whole table before any request runs.
    pub fn build(schemas: Vec<EndpointSchema>) -> (r: Result<SchemaRegistry, DefinitionError>)
        ensures
            match r {
                Ok(reg) => reg.schemas@ == schemas@ && reg.all_wf(),
                Err(e) => exists|k: int|
                    0 <= k < schemas@.len() && !wf_schema(#[trigger] schemas@[k])
                        && definition_error_witness(schemas@[k], e),
            },
    {
        let mut i: usize = 0;
        while i < schemas.len()
            invariant
                i <= schemas@.len(),
                forall|k: int| 0 <= k < i ==> wf_schema(#[trigger] schemas@[k]),
            decreases schemas@.len() - i,
        {
            if let Err(e) = schemas[i].validate() {
                return Err(e);
            }
            i += 1;
        }
        Ok(SchemaRegistry { schemas })
    }

    /// Looks an endpoint up by name.
    pub fn get(&self, name: &Vec<u8>) -> (r: Option<&EndpointSchema>)
        ensures
            match r {
                Some(s) => exists|k: int|
                    0 <= k < self.schemas@.len() && #[trigger] self.schemas@[k].metadata.name@
                        == name@ && *s == self.schemas@[k],
                None => forall|k: int|
                    0 <= k < self.schemas@.len() ==> #[trigger] self.schemas@[k].metadata.name@
                        != name@,
            },
    {
        let mut i: usize = 0;
        while i < self.schemas.len()
            invariant
                i <= self.schemas@.len(),
                forall|k: int|
                    0 <= k < i ==> #[trigger] self.schemas@[k].metadata.name@ != name@,
            decreases self.schemas@.len() - i,
        {
            if bytes_eq(&self.schemas[i].metadata.name, name) {
                return Some(&self.schemas[i]);
            }
            i += 1;
        }
        None
    }
}

} // verus!
