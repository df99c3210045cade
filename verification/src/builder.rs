//! The outgoing builder: a schema plus a value yield a wire request (or a
//! wire response), by resolving the path template with percent-encoded
//! segment values, marshaling query pairs in declaration order, emitting one
//! header per header field, attaching the bearer credential when the endpoint
//! demands authentication, and encoding the body by its declared strategy.

use vstd::prelude::*;
use crate::bytes::{append_bytes, copy_bytes, join, seqs_of, split, split_bytes, join_bytes, AMP, EQUALS, SLASH};
use crate::json::{is_json, pairs_of, pairs_ok, render_obj, render_object, text_ok_exec, json_well_formed};
use crate::message::{FieldValue, FieldValueV, Value, WireReqV, WireRequest, WireRespV, WireResponse};
use crate::percent::{pe, percent_encode};
use crate::schema::{auth_header_name, auth_header_name_exec, seg_is_placeholder, EndpointSchema, FieldDef, FieldRole};
use crate::errors::EncodingError;

verus! {

/// `Bearer ` — the prefix of the credential header's value.
pub open spec fn bearer_prefix() -> Seq<u8> {
    seq![0x42u8, 0x65, 0x61, 0x72, 0x65, 0x72, 0x20]
}

/// Runtime copy of the bearer prefix.
pub fn bearer_prefix_exec() -> (r: Vec<u8>)
    ensures
        r@ == bearer_prefix(),
{
    let mut v: Vec<u8> = Vec::new();
    v.push(0x42);
    v.push(0x65);
    v.push(0x61);
    v.push(0x72);
    v.push(0x65);
    v.push(0x72);
    v.push(0x20);
    proof {
        assert(v@ =~= bearer_prefix());
    }
    v
}

/// The base with a trailing slash removed, so that `base + path` never holds
/// a doubled slash.
pub open spec fn strip_slash(base: Seq<u8>) -> Seq<u8> {
    if base.len() > 0 && base[base.len() - 1] == SLASH {
        base.drop_last()
    } else {
        base
    }
}

/// A byte fit for a header value: horizontal tab or a non-control byte.
pub open spec fn header_byte_ok(b: u8) -> bool {
    b == 0x09 || (0x20 <= b && b != 0x7F)
}

/// Header content without forbidden control characters.
pub open spec fn header_value_ok(t: Seq<u8>) -> bool {
    forall|j: int| 0 <= j < t.len() ==> header_byte_ok(#[trigger] t[j])
}

/// Runtime check of [`header_value_ok`].
pub fn header_value_ok_exec(t: &Vec<u8>) -> (r: bool)
    ensures
        r == header_value_ok(t@),
{
    let mut i: usize = 0;
    while i < t.len()
        invariant
            i <= t@.len(),
            forall|j: int| 0 <= j < i ==> header_byte_ok(#[trigger] t@[j]),
        decreases t@.len() - i,
    {
        let b = t[i];
        if !(b == 0x09 || (0x20 <= b && b != 0x7F)) {
            return false;
        }
        i += 1;
    }
    true
}

/// The value of the path field that claims placeholder `n`, scanning from
/// field `i`.
pub open spec fn path_value_from(
    fields: Seq<FieldDef>,
    v: Seq<Option<FieldValueV>>,
    n: Seq<u8>,
    i: int,
) -> Option<Seq<u8>>
    decreases fields.len() - i,
{
    if !(0 <= i < fields.len()) {
        None
    } else {
        match fields[i].role {
            FieldRole::PathSegment(m) => if m@ == n {
                match v[i] {
                    Some(FieldValueV::Text(t)) => Some(t),
                    _ => None,
                }
            } else {
                path_value_from(fields, v, n, i + 1)
            },
            _ => path_value_from(fields, v, n, i + 1),
        }
    }
}

/// One template segment, rendered: placeholders become the percent-encoded
/// value of the claiming field, literals pass unchanged.
pub open spec fn render_seg(
    fields: Seq<FieldDef>,
    v: Seq<Option<FieldValueV>>,
    seg: Seq<u8>,
) -> Seq<u8> {
    if seg_is_placeholder(seg) {
        match path_value_from(fields, v, seg.drop_first(), 0) {
            Some(t) => pe(t),
            None => Seq::<u8>::empty(),
        }
    } else {
        seg
    }
}

/// The resolved request path: every template segment rendered, re-joined.
pub open spec fn spec_path(s: EndpointSchema, v: Seq<Option<FieldValueV>>) -> Seq<u8> {
    join(
        split(s.metadata.path_template@, SLASH).map_values(|seg: Seq<u8>| render_seg(s.request@, v, seg)),
        SLASH,
    )
}

/// The raw (not yet encoded) query pairs contributed by fields `i..`:
/// query-param fields first by declaration order, the query map's own pairs
/// where it stands.
pub open spec fn query_pairs_from(
    fields: Seq<FieldDef>,
    v: Seq<Option<FieldValueV>>,
    i: int,
) -> Seq<(Seq<u8>, Seq<u8>)>
    decreases fields.len() - i,
{
    if !(0 <= i < fields.len()) {
        Seq::empty()
    } else {
        let rest = query_pairs_from(fields, v, i + 1);
        match fields[i].role {
            FieldRole::QueryParam => match v[i] {
                Some(FieldValueV::Text(t)) => seq![(fields[i].name@, t)] + rest,
                _ => rest,
            },
            FieldRole::QueryMap => match v[i] {
                Some(FieldValueV::Pairs(ps)) => ps + rest,
                _ => rest,
            },
            _ => rest,
        }
    }
}

/// One encoded `key=value` query pair.
pub open spec fn render_qpair(p: (Seq<u8>, Seq<u8>)) -> Seq<u8> {
    pe(p.0) + seq![EQUALS] + pe(p.1)
}

/// The query string: encoded pairs joined with `&`; empty without pairs.
pub open spec fn render_query(pairs: Seq<(Seq<u8>, Seq<u8>)>) -> Seq<u8> {
    if pairs.len() == 0 {
        Seq::<u8>::empty()
    } else {
        join(pairs.map_values(|p: (Seq<u8>, Seq<u8>)| render_qpair(p)), AMP)
    }
}

/// The header pairs contributed by fields `i..`, in declaration order.
pub open spec fn header_pairs_from(
    fields: Seq<FieldDef>,
    v: Seq<Option<FieldValueV>>,
    i: int,
) -> Seq<(Seq<u8>, Seq<u8>)>
    decreases fields.len() - i,
{
    if !(0 <= i < fields.len()) {
        Seq::empty()
    } else {
        let rest = header_pairs_from(fields, v, i + 1);
        match fields[i].role {
            FieldRole::Header(n) => match v[i] {
                Some(FieldValueV::Text(t)) => seq![(n@, t)] + rest,
                _ => rest,
            },
            _ => rest,
        }
    }
}

/// The body members contributed by fields `i..`, in declaration order.
pub open spec fn body_field_pairs_from(
    fields: Seq<FieldDef>,
    v: Seq<Option<FieldValueV>>,
    i: int,
) -> Seq<(Seq<u8>, Seq<u8>)>
    decreases fields.len() - i,
{
    if !(0 <= i < fields.len()) {
        Seq::empty()
    } else {
        let rest = body_field_pairs_from(fields, v, i + 1);
        match fields[i].role {
            FieldRole::BodyField(n) => match v[i] {
                Some(FieldValueV::Text(t)) => seq![(n@, t)] + rest,
                _ => rest,
            },
            _ => rest,
        }
    }
}

/// The first raw-body field at or after `i`.
pub open spec fn first_raw_index(fields: Seq<FieldDef>, i: int) -> Option<int>
    decreases fields.len() - i,
{
    if !(0 <= i < fields.len()) {
        None
    } else if fields[i].role is RawBody {
        Some(i)
    } else {
        first_raw_index(fields, i + 1)
    }
}

/// The first whole-body field at or after `i`.
pub open spec fn first_body_index(fields: Seq<FieldDef>, i: int) -> Option<int>
    decreases fields.len() - i,
{
    if !(0 <= i < fields.len()) {
        None
    } else if fields[i].role is Body {
        Some(i)
    } else {
        first_body_index(fields, i + 1)
    }
}

/// Whether any field at or after `i` is a body member.
pub open spec fn has_body_fields(fields: Seq<FieldDef>) -> bool {
    exists|i: int| 0 <= i < fields.len() && (#[trigger] fields[i]).role is BodyField
}

/// The body of a shape: raw bytes pass through; a whole-body document must
/// be well-formed; body members render as the flat object; otherwise empty.
pub open spec fn spec_body(
    fields: Seq<FieldDef>,
    v: Seq<Option<FieldValueV>>,
) -> Result<Seq<u8>, EncodingError> {
    match first_raw_index(fields, 0) {
        Some(k) => match v[k] {
            Some(FieldValueV::Bytes(b)) => Ok(b),
            _ => Err(EncodingError::BodySerialization),
        },
        None => match first_body_index(fields, 0) {
            Some(k) => match v[k] {
                Some(FieldValueV::Json(d)) => if is_json(d) {
                    Ok(d)
                } else {
                    Err(EncodingError::BodySerialization)
                },
                _ => Err(EncodingError::BodySerialization),
            },
            None => if has_body_fields(fields) {
                let pairs = body_field_pairs_from(fields, v, 0);
                if pairs_ok(pairs) {
                    Ok(render_obj(pairs))
                } else {
                    Err(EncodingError::BodySerialization)
                }
            } else {
                Ok(Seq::<u8>::empty())
            },
        },
    }
}

/// Whether every emitted header value is valid header content.
pub open spec fn headers_ok(pairs: Seq<(Seq<u8>, Seq<u8>)>) -> bool {
    forall|k: int| 0 <= k < pairs.len() ==> header_value_ok((#[trigger] pairs[k]).1)
}

/// What [`build_request`] returns, stated as one function of the schema, the
/// value, the base, and the credential.
pub open spec fn spec_build_request(
    s: EndpointSchema,
    v: Seq<Option<FieldValueV>>,
    base: Seq<u8>,
    token: Option<Seq<u8>>,
) -> Result<WireReqV, EncodingError> {
    if s.metadata.requires_authentication && token is None {
        Err(EncodingError::AuthRequired)
    } else if s.metadata.requires_authentication && !header_value_ok(token.unwrap()) {
        Err(EncodingError::InvalidHeader)
    } else if !headers_ok(header_pairs_from(s.request@, v, 0)) {
        Err(EncodingError::InvalidHeader)
    } else {
        match spec_body(s.request@, v) {
            Err(e) => Err(e),
            Ok(body) => Ok(
                WireReqV {
                    method: s.metadata.method,
                    base: strip_slash(base),
                    path: spec_path(s, v),
                    query: render_query(query_pairs_from(s.request@, v, 0)),
                    headers: (if s.metadata.requires_authentication {
                        seq![(auth_header_name(), bearer_prefix() + token.unwrap())]
                    } else {
                        Seq::empty()
                    }) + header_pairs_from(s.request@, v, 0),
                    body,
                },
            ),
        }
    }
}

/// What [`build_response`] returns: status 200, the shape's headers, the
/// shape's body; no authentication concerns.
pub open spec fn spec_build_response(
    s: EndpointSchema,
    v: Seq<Option<FieldValueV>>,
) -> Result<WireRespV, EncodingError> {
    if !headers_ok(header_pairs_from(s.response@, v, 0)) {
        Err(EncodingError::InvalidHeader)
    } else {
        match spec_body(s.response@, v) {
            Err(e) => Err(e),
            Ok(body) => Ok(
                WireRespV { status: 200, headers: header_pairs_from(s.response@, v, 0), body },
            ),
        }
    }
}

pub fn find_raw(fields: &Vec<FieldDef>, i: usize) -> (r: Option<usize>)
    requires
        i <= fields@.len(),
    ensures
        match r {
            Some(k) => i <= k < fields@.len() && first_raw_index(fields@, i as int) == Some(
                k as int,
            ),
            None => first_raw_index(fields@, i as int) is None,
        },
    decreases fields@.len() - i,
{
    if i == fields.len() {
        None
    } else {
        let raw = match &fields[i].role {
            FieldRole::RawBody => true,
            _ => false,
        };
        if raw {
            Some(i)
        } else {
            find_raw(fields, i + 1)
        }
    }
}

pub fn find_body(fields: &Vec<FieldDef>, i: usize) -> (r: Option<usize>)
    requires
        i <= fields@.len(),
    ensures
        match r {
            Some(k) => i <= k < fields@.len() && first_body_index(fields@, i as int) == Some(
                k as int,
            ),
            None => first_body_index(fields@, i as int) is None,
        },
    decreases fields@.len() - i,
{
    if i == fields.len() {
        None
    } else {
        let b = match &fields[i].role {
            FieldRole::Body => true,
            _ => false,
        };
        if b {
            Some(i)
        } else {
            find_body(fields, i + 1)
        }
    }
}

pub fn any_body_fields(fields: &Vec<FieldDef>) -> (r: bool)
    ensures
        r == has_body_fields(fields@),
{
    let mut i: usize = 0;
    while i < fields.len()
        invariant
            i <= fields@.len(),
            forall|k: int| 0 <= k < i ==> !((#[trigger] fields@[k]).role is BodyField),
        decreases fields@.len() - i,
    {
        let bf = match &fields[i].role {
            FieldRole::BodyField(_) => true,
            _ => false,
        };
        if bf {
            return true;
        }
        i += 1;
    }
    false
}

fn collect_headers(fields: &Vec<FieldDef>, v: &Value, i: usize) -> (r: Vec<(Vec<u8>, Vec<u8>)>)
    requires
        i <= fields@.len(),
        v.fields@.len() == fields@.len(),
    ensures
        pairs_of(r@) == header_pairs_from(fields@, v@, i as int),
    decreases fields@.len() - i,
{
    if i == fields.len() {
        let r: Vec<(Vec<u8>, Vec<u8>)> = Vec::new();
        proof {
            assert(pairs_of(r@) =~= header_pairs_from(fields@, v@, i as int));
        }
        r
    } else {
        let mut rest = collect_headers(fields, v, i + 1);
        proof {
            assert(v@[i as int] == match v.fields@[i as int] {
                Some(f) => Some(f@),
                None => None::<FieldValueV>,
            });
        }
        match (&fields[i].role, &v.fields[i]) {
            (FieldRole::Header(n), Some(FieldValue::Text(t))) => {
                rest.insert(0, (copy_bytes(n), copy_bytes(t)));
                proof {
                    assert(pairs_of(rest@) =~= seq![(n@, t@)] + header_pairs_from(
                        fields@,
                        v@,
                        i + 1,
                    ));
                }
                rest
            },
            _ => {
                proof {
                    assert(header_pairs_from(fields@, v@, i as int) == header_pairs_from(
                        fields@,
                        v@,
                        i + 1,
                    ));
                }
                rest
            },
        }
    }
}

fn collect_body_fields(fields: &Vec<FieldDef>, v: &Value, i: usize) -> (r: Vec<(Vec<u8>, Vec<u8>)>)
    requires
        i <= fields@.len(),
        v.fields@.len() == fields@.len(),
    ensures
        pairs_of(r@) == body_field_pairs_from(fields@, v@, i as int),
    decreases fields@.len() - i,
{
    if i == fields.len() {
        let r: Vec<(Vec<u8>, Vec<u8>)> = Vec::new();
        proof {
            assert(pairs_of(r@) =~= body_field_pairs_from(fields@, v@, i as int));
        }
        r
    } else {
        let mut rest = collect_body_fields(fields, v, i + 1);
        proof {
            assert(v@[i as int] == match v.fields@[i as int] {
                Some(f) => Some(f@),
                None => None::<FieldValueV>,
            });
        }
        match (&fields[i].role, &v.fields[i]) {
            (FieldRole::BodyField(n), Some(FieldValue::Text(t))) => {
                rest.insert(0, (copy_bytes(n), copy_bytes(t)));
                proof {
                    assert(pairs_of(rest@) =~= seq![(n@, t@)] + body_field_pairs_from(
                        fields@,
                        v@,
                        i + 1,
                    ));
                }
                rest
            },
            _ => {
                proof {
                    assert(body_field_pairs_from(fields@, v@, i as int) == body_field_pairs_from(
                        fields@,
                        v@,
                        i + 1,
                    ));
                }
                rest
            },
        }
    }
}

fn copy_pairs(ps: &Vec<(Vec<u8>, Vec<u8>)>) -> (r: Vec<(Vec<u8>, Vec<u8>)>)
    ensures
        pairs_of(r@) == pairs_of(ps@),
{
    let mut out: Vec<(Vec<u8>, Vec<u8>)> = Vec::new();
    let mut i: usize = 0;
    while i < ps.len()
        invariant
            i <= ps@.len(),
            pairs_of(out@) == pairs_of(ps@).take(i as int),
        decreases ps@.len() - i,
    {
        proof {
            assert(pairs_of(out@) == pairs_of(ps@).take(i as int));
            assert(pairs_of(ps@).len() == ps@.len());
            assert(i < ps@.len());
            assert(pairs_of(out@).len() == i);
        }
        let c0 = copy_bytes(&ps[i].0);
        let c1 = copy_bytes(&ps[i].1);
        let ghost prev = out@;
        out.push((c0, c1));
        proof {
            assert(out@ == prev.push((c0, c1)));
            assert(out@.len() == prev.len() + 1);
            assert(prev.len() == i);
            assert(pairs_of(out@).len() == out@.len());
            assert(pairs_of(out@).len() == i + 1);
            assert forall|k: int| 0 <= k < i + 1 implies pairs_of(out@)[k] == pairs_of(
                ps@,
            ).take(i + 1)[k] by {
                if k < i {
                    assert(out@[k] == prev[k]);
                    assert(pairs_of(out@)[k] == pairs_of(prev)[k]);
                    assert(pairs_of(prev)[k] == pairs_of(ps@).take(i as int)[k]);
                } else {
                    assert(out@[k] == (c0, c1));
                    assert(pairs_of(out@)[k] == (c0@, c1@));
                    assert(pairs_of(ps@).take(i + 1)[k] == (ps@[k].0@, ps@[k].1@));
                }
            }
            assert(pairs_of(out@) =~= pairs_of(ps@).take(i + 1));
        }
        i += 1;
    }
    proof {
        assert(pairs_of(ps@).take(ps@.len() as int) =~= pairs_of(ps@));
    }
    out
}

fn collect_query_pairs(fields: &Vec<FieldDef>, v: &Value, i: usize) -> (r: Vec<(Vec<u8>, Vec<u8>)>)
    requires
        i <= fields@.len(),
        v.fields@.len() == fields@.len(),
    ensures
        pairs_of(r@) == query_pairs_from(fields@, v@, i as int),
    decreases fields@.len() - i,
{
    if i == fields.len() {
        let r: Vec<(Vec<u8>, Vec<u8>)> = Vec::new();
        proof {
            assert(pairs_of(r@) =~= query_pairs_from(fields@, v@, i as int));
        }
        r
    } else {
        let rest = collect_query_pairs(fields, v, i + 1);
        proof {
            assert(v@[i as int] == match v.fields@[i as int] {
                Some(f) => Some(f@),
                None => None::<FieldValueV>,
            });
        }
        match (&fields[i].role, &v.fields[i]) {
            (FieldRole::QueryParam, Some(FieldValue::Text(t))) => {
                let mut rest2 = rest;
                rest2.insert(0, (copy_bytes(&fields[i].name), copy_bytes(t)));
                proof {
                    assert(pairs_of(rest2@) =~= seq![(fields@[i as int].name@, t@)]
                        + query_pairs_from(fields@, v@, i + 1));
                }
                rest2
            },
            (FieldRole::QueryMap, Some(FieldValue::Pairs(ps))) => {
                let mut out = copy_pairs(ps);
                let mut k: usize = 0;
                proof {
                    assert(pairs_of(out@) + pairs_of(rest@).take(0) =~= pairs_of(out@));
                }
                while k < rest.len()
                    invariant
                        k <= rest@.len(),
                        pairs_of(out@) == pairs_of(ps@) + pairs_of(rest@).take(k as int),
                    decreases rest@.len() - k,
                {
                    proof {
                        assert(pairs_of(rest@).len() == rest@.len());
                        assert(k < rest@.len());
                        assert(pairs_of(out@).len() == pairs_of(ps@).len() + k);
                    }
                    let c0 = copy_bytes(&rest[k].0);
                    let c1 = copy_bytes(&rest[k].1);
                    let ghost prev = out@;
                    out.push((c0, c1));
                    proof {
                        assert(out@ == prev.push((c0, c1)));
                        assert(pairs_of(out@).len() == pairs_of(ps@).len() + k + 1);
                        assert forall|m: int|
                            0 <= m < pairs_of(out@).len() implies pairs_of(out@)[m] == (pairs_of(
                            ps@,
                        ) + pairs_of(rest@).take(k + 1))[m] by {
                            if m < pairs_of(ps@).len() + k {
                                assert(out@[m] == prev[m]);
                                assert(pairs_of(out@)[m] == pairs_of(prev)[m]);
                            } else {
                                assert(out@[m] == (c0, c1));
                                assert(pairs_of(out@)[m] == (c0@, c1@));
                                assert(pairs_of(rest@).take(k + 1)[k as int] == (
                                    rest@[k as int].0@,
                                    rest@[k as int].1@,
                                ));
                            }
                        }
                        assert(pairs_of(out@) =~= pairs_of(ps@) + pairs_of(rest@).take(k + 1));
                    }
                    k += 1;
                }
                proof {
                    assert(pairs_of(rest@).take(rest@.len() as int) =~= pairs_of(rest@));
                    assert(pairs_of(out@) =~= pairs_of(ps@) + query_pairs_from(fields@, v@, i + 1));
                }
                out
            },
            _ => {
                proof {
                    assert(query_pairs_from(fields@, v@, i as int) == query_pairs_from(
                        fields@,
                        v@,
                        i + 1,
                    ));
                }
                rest
            },
        }
    }
}

fn find_path_value(fields: &Vec<FieldDef>, v: &Value, n: &Vec<u8>, i: usize) -> (r: Option<Vec<u8>>)
    requires
        i <= fields@.len(),
        v.fields@.len() == fields@.len(),
    ensures
        match r {
            Some(t) => path_value_from(fields@, v@, n@, i as int) == Some(t@),
            None => path_value_from(fields@, v@, n@, i as int) is None,
        },
    decreases fields@.len() - i,
{
    if i == fields.len() {
        None
    } else {
        proof {
            assert(v@[i as int] == match v.fields@[i as int] {
                Some(f) => Some(f@),
                None => None::<FieldValueV>,
            });
        }
        let is_match = match &fields[i].role {
            FieldRole::PathSegment(m) => crate::bytes::bytes_eq(m, n),
            _ => false,
        };
        if is_match {
            match &v.fields[i] {
                Some(FieldValue::Text(t)) => Some(copy_bytes(t)),
                _ => None,
            }
        } else {
            find_path_value(fields, v, n, i + 1)
        }
    }
}

fn check_header_values(hs: &Vec<(Vec<u8>, Vec<u8>)>) -> (r: bool)
    ensures
        r == headers_ok(pairs_of(hs@)),
{
    let mut i: usize = 0;
    while i < hs.len()
        invariant
            i <= hs@.len(),
            forall|k: int| 0 <= k < i ==> header_value_ok((#[trigger] pairs_of(hs@)[k]).1),
        decreases hs@.len() - i,
    {
        if !header_value_ok_exec(&hs[i].1) {
            proof {
                assert(pairs_of(hs@)[i as int].1 == hs@[i as int].1@);
            }
            return false;
        }
        proof {
            assert(pairs_of(hs@)[i as int].1 == hs@[i as int].1@);
        }
        i += 1;
    }
    true
}

fn check_pair_texts(ps: &Vec<(Vec<u8>, Vec<u8>)>) -> (r: bool)
    ensures
        r == pairs_ok(pairs_of(ps@)),
{
    let mut i: usize = 0;
    while i < ps.len()
        invariant
            i <= ps@.len(),
            forall|k: int|
                0 <= k < i ==> crate::json::text_ok((#[trigger] pairs_of(ps@)[k]).0)
                    && crate::json::text_ok(pairs_of(ps@)[k].1),
        decreases ps@.len() - i,
    {
        proof {
            assert(pairs_of(ps@)[i as int].0 == ps@[i as int].0@);
            assert(pairs_of(ps@)[i as int].1 == ps@[i as int].1@);
        }
        if !text_ok_exec(&ps[i].0) || !text_ok_exec(&ps[i].1) {
            return false;
        }
        i += 1;
    }
    true
}

/// Encodes the body of one shape per its declared strategy.
fn build_body(fields: &Vec<FieldDef>, v: &Value) -> (r: Result<Vec<u8>, EncodingError>)
    requires
        v.fields@.len() == fields@.len(),
    ensures
        match r {
            Ok(b) => spec_body(fields@, v@) == Ok::<Seq<u8>, EncodingError>(b@),
            Err(e) => spec_body(fields@, v@) == Err::<Seq<u8>, EncodingError>(e),
        },
{
    if let Some(k) = find_raw(fields, 0) {
        proof {
            assert(v@[k as int] == match v.fields@[k as int] {
                Some(f) => Some(f@),
                None => None::<FieldValueV>,
            });
        }
        match &v.fields[k] {
            Some(FieldValue::Bytes(b)) => Ok(copy_bytes(b)),
            _ => Err(EncodingError::BodySerialization),
        }
    } else if let Some(k) = find_body(fields, 0) {
        proof {
            assert(v@[k as int] == match v.fields@[k as int] {
                Some(f) => Some(f@),
                None => None::<FieldValueV>,
            });
        }
        match &v.fields[k] {
            Some(FieldValue::Json(d)) => {
                if json_well_formed(d) {
                    Ok(copy_bytes(d))
                } else {
                    Err(EncodingError::BodySerialization)
                }
            },
            _ => Err(EncodingError::BodySerialization),
        }
    } else if any_body_fields(fields) {
        let pairs = collect_body_fields(fields, v, 0);
        if check_pair_texts(&pairs) {
            Ok(render_object(&pairs))
        } else {
            Err(EncodingError::BodySerialization)
        }
    } else {
        let r: Vec<u8> = Vec::new();
        proof {
            assert(r@ =~= Seq::<u8>::empty());
        }
        Ok(r)
    }
}

/// Renders the path by substituting placeholder segments.
fn build_path(s: &EndpointSchema, v: &Value) -> (r: Vec<u8>)
    requires
        v.fields@.len() == s.request@.len(),
    ensures
        r@ == spec_path(*s, v@),
{
    let segs = split_bytes(&s.metadata.path_template, SLASH);
    let ghost segv = split(s.metadata.path_template@, SLASH);
    let ghost target = segv.map_values(|seg: Seq<u8>| render_seg(s.request@, v@, seg));
    let mut rendered: Vec<Vec<u8>> = Vec::new();
    let mut p: usize = 0;
    while p < segs.len()
        invariant
            p <= segs@.len(),
            seqs_of(segs@) == segv,
            segv.len() == segs@.len(),
            target == segv.map_values(|seg: Seq<u8>| render_seg(s.request@, v@, seg)),
            target.len() == segv.len(),
            v.fields@.len() == s.request@.len(),
            seqs_of(rendered@) == target.take(p as int),
        decreases segs@.len() - p,
    {
        proof {
            assert(segv[p as int] == (#[trigger] segs@[p as int])@);
            assert(target[p as int] == render_seg(s.request@, v@, segv[p as int]));
        }
        let piece: Vec<u8>;
        if crate::schema::seg_placeholder_exec(&segs[p]) {
            let name = crate::schema::tail_bytes(&segs[p]);
            match find_path_value(&s.request, v, &name, 0) {
                Some(t) => {
                    piece = percent_encode(&t);
                },
                None => {
                    piece = Vec::new();
                    proof {
                        assert(piece@ =~= Seq::<u8>::empty());
                    }
                },
            }
        } else {
            piece = copy_bytes(&segs[p]);
        }
        let ghost prev = rendered@;
        proof {
            assert(seqs_of(prev).len() == prev.len());
            assert(seqs_of(prev).len() == p);
            assert(piece@ == target[p as int]);
        }
        rendered.push(piece);
        proof {
            assert(seqs_of(rendered@).len() == p + 1);
            assert forall|m: int|
                0 <= m < p + 1 implies seqs_of(rendered@)[m] == target.take(p + 1)[m] by {
                if m < p {
                    assert(rendered@[m] == prev[m]);
                    assert(seqs_of(rendered@)[m] == seqs_of(prev)[m]);
                } else {
                    assert(seqs_of(rendered@)[m] == rendered@[m]@);
                }
            }
            assert(seqs_of(rendered@) =~= target.take(p + 1));
        }
        p += 1;
    }
    proof {
        assert(target.take(target.len() as int) =~= target);
    }
    let out = join_bytes(&rendered, SLASH);
    out
}

/// Renders the query string from the raw pairs.
fn build_query(pairs: &Vec<(Vec<u8>, Vec<u8>)>) -> (r: Vec<u8>)
    ensures
        r@ == render_query(pairs_of(pairs@)),
{
    if pairs.len() == 0 {
        let r: Vec<u8> = Vec::new();
        proof {
            assert(r@ =~= Seq::<u8>::empty());
        }
        return r;
    }
    let ghost target = pairs_of(pairs@).map_values(|p: (Seq<u8>, Seq<u8>)| render_qpair(p));
    let mut parts: Vec<Vec<u8>> = Vec::new();
    let mut i: usize = 0;
    while i < pairs.len()
        invariant
            i <= pairs@.len(),
            target == pairs_of(pairs@).map_values(|p: (Seq<u8>, Seq<u8>)| render_qpair(p)),
            target.len() == pairs@.len(),
            seqs_of(parts@) == target.take(i as int),
        decreases pairs@.len() - i,
    {
        let mut part = percent_encode(&pairs[i].0);
        part.push(EQUALS);
        let ev = percent_encode(&pairs[i].1);
        append_bytes(&mut part, &ev);
        proof {
            assert(pairs_of(pairs@)[i as int] == (pairs@[i as int].0@, pairs@[i as int].1@));
            assert(part@ =~= render_qpair(pairs_of(pairs@)[i as int]));
        }
        let ghost prev = parts@;
        let ghost piecev = part@;
        proof {
            assert(seqs_of(prev).len() == i);
            assert(piecev == target[i as int]);
        }
        parts.push(part);
        proof {
            assert(seqs_of(parts@).len() == i + 1);
            assert forall|m: int|
                0 <= m < i + 1 implies seqs_of(parts@)[m] == target.take(i + 1)[m] by {
                if m < i {
                    assert(parts@[m] == prev[m]);
                    assert(seqs_of(parts@)[m] == seqs_of(prev)[m]);
                } else {
                    assert(seqs_of(parts@)[m] == parts@[m]@);
                }
            }
            assert(seqs_of(parts@) =~= target.take(i + 1));
        }
        i += 1;
    }
    proof {
        assert(target.take(target.len() as int) =~= target);
    }
    join_bytes(&parts, AMP)
}

/// Builds the wire request for `v` against schema `s`, with the given base
/// and optional bearer credential.  Success and every failure are fixed by
/// [`spec_build_request`].
pub fn build_request(
    s: &EndpointSchema,
    v: &Value,
    base: &Vec<u8>,
    token: Option<&Vec<u8>>,
) -> (r: Result<WireRequest, EncodingError>)
    requires
        v.fields@.len() == s.request@.len(),
    ensures
        match r {
            Ok(w) => spec_build_request(*s, v@, base@, match token {
                Some(t) => Some(t@),
                None => None,
            }) == Ok::<WireReqV, EncodingError>(w@),
            Err(e) => spec_build_request(*s, v@, base@, match token {
                Some(t) => Some(t@),
                None => None,
            }) == Err::<WireReqV, EncodingError>(e),
        },
{
    let mut headers: Vec<(Vec<u8>, Vec<u8>)> = Vec::new();
    if s.metadata.requires_authentication {
        match token {
            None => {
                return Err(EncodingError::AuthRequired);
            },
            Some(t) => {
                if !header_value_ok_exec(t) {
                    return Err(EncodingError::InvalidHeader);
                }
                let mut value = bearer_prefix_exec();
                append_bytes(&mut value, t);
                headers.push((auth_header_name_exec(), value));
            },
        }
    }
    let field_headers = collect_headers(&s.request, v, 0);
    if !check_header_values(&field_headers) {
        return Err(EncodingError::InvalidHeader);
    }
    let ghost auth_part: Seq<(Seq<u8>, Seq<u8>)> = if s.metadata.requires_authentication {
        seq![(auth_header_name(), bearer_prefix() + token.unwrap()@)]
    } else {
        Seq::empty()
    };
    proof {
        assert(pairs_of(headers@) =~= auth_part);
    }
    let mut k: usize = 0;
    while k < field_headers.len()
        invariant
            k <= field_headers@.len(),
            pairs_of(headers@) == auth_part + pairs_of(field_headers@).take(k as int),
        decreases field_headers@.len() - k,
    {
        proof {
            assert(pairs_of(field_headers@).len() == field_headers@.len());
            assert(pairs_of(headers@).len() == auth_part.len() + k);
        }
        let c0 = copy_bytes(&field_headers[k].0);
        let c1 = copy_bytes(&field_headers[k].1);
        let ghost prev = headers@;
        headers.push((c0, c1));
        proof {
            assert(headers@ == prev.push((c0, c1)));
            assert(pairs_of(headers@).len() == auth_part.len() + k + 1);
            assert forall|m: int|
                0 <= m < pairs_of(headers@).len() implies pairs_of(headers@)[m] == (auth_part
                + pairs_of(field_headers@).take(k + 1))[m] by {
                if m < auth_part.len() + k {
                    assert(headers@[m] == prev[m]);
                    assert(pairs_of(headers@)[m] == pairs_of(prev)[m]);
                } else {
                    assert(headers@[m] == (c0, c1));
                    assert(pairs_of(headers@)[m] == (c0@, c1@));
                    assert(pairs_of(field_headers@).take(k + 1)[k as int] == (
                        field_headers@[k as int].0@,
                        field_headers@[k as int].1@,
                    ));
                }
            }
            assert(pairs_of(headers@) =~= auth_part + pairs_of(field_headers@).take(k + 1));
        }
        k += 1;
    }
    proof {
        assert(pairs_of(field_headers@).take(field_headers@.len() as int) =~= pairs_of(
            field_headers@,
        ));
    }
    let body = match build_body(&s.request, v) {
        Ok(b) => b,
        Err(e) => {
            return Err(e);
        },
    };
    let path = build_path(s, v);
    let qpairs = collect_query_pairs(&s.request, v, 0);
    let query = build_query(&qpairs);
    let mut stripped = copy_bytes(base);
    if stripped.len() > 0 && stripped[stripped.len() - 1] == SLASH {
        let _ = stripped.pop();
        proof {
            assert(stripped@ =~= strip_slash(base@));
        }
    } else {
        proof {
            assert(stripped@ =~= strip_slash(base@));
        }
    }
    let w = WireRequest {
        method: s.metadata.method,
        base: stripped,
        path,
        query,
        headers,
        body,
    };
    proof {
        let tv: Option<Seq<u8>> = match token {
            Some(t) => Some(t@),
            None => None,
        };
        assert(w@ =~= spec_build_request(*s, v@, base@, tv).unwrap());
    }
    Ok(w)
}

/// Builds the wire response for `v` against schema `s`: status 200, the
/// response shape's headers and body.  Fixed by [`spec_build_response`].
pub fn build_response(s: &EndpointSchema, v: &Value) -> (r: Result<WireResponse, EncodingError>)
    requires
        v.fields@.len() == s.response@.len(),
    ensures
        match r {
            Ok(w) => spec_build_response(*s, v@) == Ok::<WireRespV, EncodingError>(w@),
            Err(e) => spec_build_response(*s, v@) == Err::<WireRespV, EncodingError>(e),
        },
{
    let headers = collect_headers(&s.response, v, 0);
    if !check_header_values(&headers) {
        return Err(EncodingError::InvalidHeader);
    }
    let body = match build_body(&s.response, v) {
        Ok(b) => b,
        Err(e) => {
            return Err(e);
        },
    };
    let w = WireResponse { status: 200, headers, body };
    proof {
        assert(w@ =~= spec_build_response(*s, v@).unwrap());
    }
    Ok(w)
}

} // verus!
