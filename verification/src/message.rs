//! Runtime values and wire messages.  A `Value` is one request or response
//! instance: an optional field value per schema field, in declaration order.
//! A wire message is the transport-level form: verb, path, query string,
//! ordered headers, and a byte body; a response carries a status code.

use vstd::prelude::*;
use crate::bytes::QMARK;
use crate::json::pairs_of;
use crate::schema::{FieldDef, FieldRole, Method};

verus! {

/// One field's runtime value.
#[derive(Debug, PartialEq, Eq)]
pub enum FieldValue {
    /// Plain text bytes: path segments, query values, headers, body members.
    Text(Vec<u8>),
    /// An opaque structured document for a whole-body field.
    Json(Vec<u8>),
    /// Raw bytes for a raw-body field.
    Bytes(Vec<u8>),
    /// The ordered pairs of a query-map field.
    Pairs(Vec<(Vec<u8>, Vec<u8>)>),
}

/// The mathematical value of one field.
pub enum FieldValueV {
    /// Plain text bytes.
    Text(Seq<u8>),
    /// An opaque structured document.
    Json(Seq<u8>),
    /// Raw bytes.
    Bytes(Seq<u8>),
    /// Ordered query pairs.
    Pairs(Seq<(Seq<u8>, Seq<u8>)>),
}

impl View for FieldValue {
    type V = FieldValueV;

    open spec fn view(&self) -> FieldValueV {
        match self {
            FieldValue::Text(v) => FieldValueV::Text(v@),
            FieldValue::Json(v) => FieldValueV::Json(v@),
            FieldValue::Bytes(v) => FieldValueV::Bytes(v@),
            FieldValue::Pairs(ps) => FieldValueV::Pairs(pairs_of(ps@)),
        }
    }
}

/// A request or response instance: one optional value per schema field.
#[derive(Debug, PartialEq, Eq)]
pub struct Value {
    /// The field values, aligned with the shape's declaration order.
    pub fields: Vec<Option<FieldValue>>,
}

impl View for Value {
    type V = Seq<Option<FieldValueV>>;

    open spec fn view(&self) -> Seq<Option<FieldValueV>> {
        self.fields@.map_values(
            |o: Option<FieldValue>|
                match o {
                    Some(f) => Some(f@),
                    None => None::<FieldValueV>,
                },
        )
    }
}

/// Which field values fit which roles.
pub open spec fn role_matches(role: FieldRole, fv: FieldValueV) -> bool {
    match role {
        FieldRole::PathSegment(_) => fv is Text,
        FieldRole::QueryParam => fv is Text,
        FieldRole::QueryMap => fv is Pairs,
        FieldRole::Header(_) => fv is Text,
        FieldRole::Body => fv is Json,
        FieldRole::BodyField(_) => fv is Text,
        FieldRole::RawBody => fv is Bytes,
    }
}

/// A value fits a shape: same length, required fields present, and every
/// present value of the kind its role calls for.
pub open spec fn valid_value(fields: Seq<FieldDef>, v: Seq<Option<FieldValueV>>) -> bool {
    &&& v.len() == fields.len()
    &&& forall|i: int|
        0 <= i < fields.len() ==> match #[trigger] v[i] {
            Some(fv) => role_matches(fields[i].role, fv),
            None => !fields[i].required,
        }
}

/// Runtime check of [`valid_value`].
pub fn value_matches(fields: &Vec<FieldDef>, v: &Value) -> (r: bool)
    ensures
        r == valid_value(fields@, v@),
{
    if v.fields.len() != fields.len() {
        return false;
    }
    let mut i: usize = 0;
    while i < fields.len()
        invariant
            i <= fields@.len(),
            v@.len() == v.fields@.len(),
            v.fields@.len() == fields@.len(),
            forall|k: int| 0 <= k < v.fields@.len() ==> #[trigger] v@[k] == match v.fields@[k] {
                Some(f) => Some(f@),
                None => None::<FieldValueV>,
            },
            forall|k: int|
                0 <= k < i ==> match #[trigger] v@[k] {
                    Some(fv) => role_matches(fields@[k].role, fv),
                    None => !fields@[k].required,
                },
        decreases fields@.len() - i,
    {
        let ok = match &v.fields[i] {
            Some(fv) => match (&fields[i].role, fv) {
                (FieldRole::PathSegment(_), FieldValue::Text(_)) => true,
                (FieldRole::QueryParam, FieldValue::Text(_)) => true,
                (FieldRole::QueryMap, FieldValue::Pairs(_)) => true,
                (FieldRole::Header(_), FieldValue::Text(_)) => true,
                (FieldRole::Body, FieldValue::Json(_)) => true,
                (FieldRole::BodyField(_), FieldValue::Text(_)) => true,
                (FieldRole::RawBody, FieldValue::Bytes(_)) => true,
                _ => false,
            },
            None => !fields[i].required,
        };
        if !ok {
            proof {
                assert(v@[i as int] == match v.fields@[i as int] {
                    Some(f) => Some(f@),
                    None => None::<FieldValueV>,
                });
                assert(match v@[i as int] {
                    Some(fvv) => !role_matches(fields@[i as int].role, fvv),
                    None => fields@[i as int].required,
                });
                assert(!valid_value(fields@, v@));
            }
            return false;
        }
        i += 1;
    }
    true
}

/// A wire request: verb, base, path, query string, headers, body.  The full
/// request target is `base + path`, with `?` and the query string appended
/// when the query is nonempty.
#[derive(Debug, PartialEq, Eq)]
pub struct WireRequest {
    /// The wire verb.
    pub method: Method,
    /// The base of the request target, without a trailing slash.
    pub base: Vec<u8>,
    /// The resolved path, beginning with a slash.
    pub path: Vec<u8>,
    /// The query string, without its leading `?`; empty when absent.
    pub query: Vec<u8>,
    /// The ordered header name/value pairs.
    pub headers: Vec<(Vec<u8>, Vec<u8>)>,
    /// The body bytes.
    pub body: Vec<u8>,
}

/// The mathematical value of a wire request.
pub struct WireReqV {
    /// The wire verb.
    pub method: Method,
    /// The base of the request target.
    pub base: Seq<u8>,
    /// The resolved path.
    pub path: Seq<u8>,
    /// The query string.
    pub query: Seq<u8>,
    /// The ordered headers.
    pub headers: Seq<(Seq<u8>, Seq<u8>)>,
    /// The body bytes.
    pub body: Seq<u8>,
}

impl View for WireRequest {
    type V = WireReqV;

    open spec fn view(&self) -> WireReqV {
        WireReqV {
            method: self.method,
            base: self.base@,
            path: self.path@,
            query: self.query@,
            headers: pairs_of(self.headers@),
            body: self.body@,
        }
    }
}

/// The full request target of a wire request.
pub open spec fn spec_uri(w: WireReqV) -> Seq<u8> {
    w.base + w.path + (if w.query.len() == 0 {
        Seq::<u8>::empty()
    } else {
        seq![QMARK] + w.query
    })
}

impl WireRequest {
    /// Renders the full request target.
    pub fn uri(&self) -> (r: Vec<u8>)
        ensures
            r@ == spec_uri(self@),
    {
        let mut out: Vec<u8> = Vec::new();
        crate::bytes::append_bytes(&mut out, &self.base);
        crate::bytes::append_bytes(&mut out, &self.path);
        if self.query.len() > 0 {
            out.push(QMARK);
            crate::bytes::append_bytes(&mut out, &self.query);
        }
        proof {
            assert(out@ =~= spec_uri(self@));
        }
        out
    }
}

/// A wire response: status code, headers, body.
#[derive(Debug, PartialEq, Eq)]
pub struct WireResponse {
    /// The numeric status code; below 400 means success.
    pub status: u16,
    /// The ordered header name/value pairs.
    pub headers: Vec<(Vec<u8>, Vec<u8>)>,
    /// The body bytes.
    pub body: Vec<u8>,
}

/// The mathematical value of a wire response.
pub struct WireRespV {
    /// The numeric status code.
    pub status: u16,
    /// The ordered headers.
    pub headers: Seq<(Seq<u8>, Seq<u8>)>,
    /// The body bytes.
    pub body: Seq<u8>,
}

impl View for WireResponse {
    type V = WireRespV;

    open spec fn view(&self) -> WireRespV {
        WireRespV { status: self.status, headers: pairs_of(self.headers@), body: self.body@ }
    }
}

} // verus!
