//! The incoming parser: a wire message is matched against the schema to
//! recover an owned value.  Path segments are matched positionally against
//! the template and percent-decoded; the query string becomes ordered pairs,
//! routed to query fields and the query map; headers are read
//! case-insensitively; the body is decoded by its declared strategy.  The
//! response half first classifies the status code: success decodes the
//! response shape, failure decodes the protocol's well-known error payload
//! or falls back to the raw status and body.

use vstd::prelude::*;
use crate::builder::{first_body_index, first_raw_index, has_body_fields};
use crate::bytes::{bytes_eq, copy_bytes, join, join_bytes, lower, lower_bytes, seqs_of, split, split_bytes, AMP, EQUALS, SLASH};
use crate::errors::{FromResponseError, KnownServerError, ParseErrorKind, RequestDeserializationError, ServerError};
use crate::json::{is_json, json_well_formed, pairs_of, parse_obj, parse_object};
use crate::message::{FieldValue, FieldValueV, Value, WireReqV, WireRequest, WireRespV, WireResponse};
use crate::percent::{pd, percent_decode};
use crate::schema::{seg_is_placeholder, seg_placeholder_exec, tail_bytes, EndpointSchema, FieldDef, FieldRole};

verus! {

/// `errcode` — the code member of the well-known error payload.
pub open spec fn errcode_key() -> Seq<u8> {
    seq![0x65u8, 0x72, 0x72, 0x63, 0x6F, 0x64, 0x65]
}

/// `error` — the message member of the well-known error payload.
pub open spec fn error_key() -> Seq<u8> {
    seq![0x65u8, 0x72, 0x72, 0x6F, 0x72]
}

fn errcode_key_exec() -> (r: Vec<u8>)
    ensures
        r@ == errcode_key(),
{
    let mut v: Vec<u8> = Vec::new();
    v.push(0x65);
    v.push(0x72);
    v.push(0x72);
    v.push(0x63);
    v.push(0x6F);
    v.push(0x64);
    v.push(0x65);
    proof {
        assert(v@ =~= errcode_key());
    }
    v
}

fn error_key_exec() -> (r: Vec<u8>)
    ensures
        r@ == error_key(),
{
    let mut v: Vec<u8> = Vec::new();
    v.push(0x65);
    v.push(0x72);
    v.push(0x72);
    v.push(0x6F);
    v.push(0x72);
    proof {
        assert(v@ =~= error_key());
    }
    v
}

/// The value of the first pair whose key is `key`.
pub open spec fn find_pair(pairs: Seq<(Seq<u8>, Seq<u8>)>, key: Seq<u8>) -> Option<Seq<u8>>
    decreases pairs.len(),
{
    if pairs.len() == 0 {
        None
    } else if pairs[0].0 == key {
        Some(pairs[0].1)
    } else {
        find_pair(pairs.drop_first(), key)
    }
}

/// The value of the first header whose lower-cased name is `lkey`.
pub open spec fn find_header(headers: Seq<(Seq<u8>, Seq<u8>)>, lkey: Seq<u8>) -> Option<Seq<u8>>
    decreases headers.len(),
{
    if headers.len() == 0 {
        None
    } else if lower(headers[0].0) == lkey {
        Some(headers[0].1)
    } else {
        find_header(headers.drop_first(), lkey)
    }
}

/// Whether a query key is claimed by some query-param field.
pub open spec fn claimed_key(fields: Seq<FieldDef>, key: Seq<u8>) -> bool {
    exists|i: int|
        0 <= i < fields.len() && (#[trigger] fields[i]).role is QueryParam && fields[i].name@
            == key
}

/// The query pairs not claimed by any query-param field, in order.
pub open spec fn unclaimed(
    fields: Seq<FieldDef>,
    pairs: Seq<(Seq<u8>, Seq<u8>)>,
) -> Seq<(Seq<u8>, Seq<u8>)>
    decreases pairs.len(),
{
    if pairs.len() == 0 {
        Seq::empty()
    } else {
        let rest = unclaimed(fields, pairs.drop_first());
        if claimed_key(fields, pairs[0].0) {
            rest
        } else {
            seq![pairs[0]] + rest
        }
    }
}

/// One `key=value` query pair, decoded: the key is everything before the
/// first `=`, the value everything after it; both percent-decoded.
pub open spec fn parse_qpart(part: Seq<u8>) -> Option<(Seq<u8>, Seq<u8>)> {
    let sub = split(part, EQUALS);
    if sub.len() < 2 {
        None
    } else {
        match (pd(sub[0]), pd(join(sub.drop_first(), EQUALS))) {
            (Some(k), Some(v)) => Some((k, v)),
            _ => None,
        }
    }
}

/// All query pairs from part `i` on; one malformed pair fails the parse.
pub open spec fn parse_qparts(parts: Seq<Seq<u8>>, i: int) -> Option<Seq<(Seq<u8>, Seq<u8>)>>
    decreases parts.len() - i,
{
    if !(0 <= i < parts.len()) {
        Some(Seq::empty())
    } else {
        match parse_qpart(parts[i]) {
            Some(p) => match parse_qparts(parts, i + 1) {
                Some(ps) => Some(seq![p] + ps),
                None => None,
            },
            None => None,
        }
    }
}

/// The ordered pairs of a query string; empty input means no pairs.
pub open spec fn parse_query(q: Seq<u8>) -> Option<Seq<(Seq<u8>, Seq<u8>)>> {
    if q.len() == 0 {
        Some(Seq::empty())
    } else {
        parse_qparts(split(q, AMP), 0)
    }
}

/// Literal template segments match the wire path exactly, and the segment
/// counts agree.
pub open spec fn literals_match(t: Seq<Seq<u8>>, w: Seq<Seq<u8>>) -> bool {
    t.len() == w.len() && forall|p: int|
        0 <= p < t.len() ==> (!seg_is_placeholder(#[trigger] t[p]) ==> w[p] == t[p])
}

/// Every dynamic wire segment percent-decodes.
pub open spec fn placeholders_decode(t: Seq<Seq<u8>>, w: Seq<Seq<u8>>) -> bool {
    forall|p: int| 0 <= p < t.len() ==> (seg_is_placeholder(#[trigger] t[p]) ==> pd(w[p]) is Some)
}

/// The position of the placeholder named `n`, scanning from `p`.
pub open spec fn placeholder_pos(t: Seq<Seq<u8>>, n: Seq<u8>, p: int) -> Option<int>
    decreases t.len() - p,
{
    if !(0 <= p < t.len()) {
        None
    } else if seg_is_placeholder(t[p]) && t[p].drop_first() == n {
        Some(p)
    } else {
        placeholder_pos(t, n, p + 1)
    }
}

/// The structural body phase: raw bodies pass; a whole-body document must be
/// well-formed; body members must parse as the flat object, whose members
/// are returned; shapes without body fields ignore the body.
pub open spec fn spec_parse_body(fields: Seq<FieldDef>, body: Seq<u8>) -> Result<
    Seq<(Seq<u8>, Seq<u8>)>,
    ParseErrorKind,
> {
    if first_raw_index(fields, 0) is Some {
        Ok(Seq::empty())
    } else if first_body_index(fields, 0) is Some {
        if is_json(body) {
            Ok(Seq::empty())
        } else {
            Err(ParseErrorKind::BodyMalformed)
        }
    } else if has_body_fields(fields) {
        match parse_obj(body) {
            Some(ps) => Ok(ps),
            None => Err(ParseErrorKind::BodyMalformed),
        }
    } else {
        Ok(Seq::empty())
    }
}

/// The owned value of each field from `i` on, or the first failure in
/// declaration order.
pub open spec fn extract_fields(
    fields: Seq<FieldDef>,
    i: int,
    segs_t: Seq<Seq<u8>>,
    segs_w: Seq<Seq<u8>>,
    qpairs: Seq<(Seq<u8>, Seq<u8>)>,
    obj: Seq<(Seq<u8>, Seq<u8>)>,
    headers: Seq<(Seq<u8>, Seq<u8>)>,
    body: Seq<u8>,
) -> Result<Seq<Option<FieldValueV>>, ParseErrorKind>
    decreases fields.len() - i,
{
    if !(0 <= i < fields.len()) {
        Ok(Seq::empty())
    } else {
        let cur: Result<Option<FieldValueV>, ParseErrorKind> = match fields[i].role {
            FieldRole::PathSegment(n) => match placeholder_pos(segs_t, n@, 0) {
                Some(p) => if 0 <= p < segs_w.len() {
                    match pd(segs_w[p]) {
                        Some(t) => Ok(Some(FieldValueV::Text(t))),
                        None => Err(ParseErrorKind::PathSegmentDecode),
                    }
                } else {
                    Err(ParseErrorKind::PathShape)
                },
                None => Err(ParseErrorKind::PathShape),
            },
            FieldRole::QueryParam => match find_pair(qpairs, fields[i].name@) {
                Some(t) => Ok(Some(FieldValueV::Text(t))),
                None => if fields[i].required {
                    Err(ParseErrorKind::MissingQueryParam)
                } else {
                    Ok(None)
                },
            },
            FieldRole::QueryMap => Ok(Some(FieldValueV::Pairs(unclaimed(fields, qpairs)))),
            FieldRole::Header(n) => match find_header(headers, lower(n@)) {
                Some(t) => Ok(Some(FieldValueV::Text(t))),
                None => if fields[i].required {
                    Err(ParseErrorKind::MissingHeader)
                } else {
                    Ok(None)
                },
            },
            FieldRole::Body => Ok(Some(FieldValueV::Json(body))),
            FieldRole::BodyField(n) => match find_pair(obj, n@) {
                Some(t) => Ok(Some(FieldValueV::Text(t))),
                None => if fields[i].required {
                    Err(ParseErrorKind::MissingBodyField)
                } else {
                    Ok(None)
                },
            },
            FieldRole::RawBody => Ok(Some(FieldValueV::Bytes(body))),
        };
        match cur {
            Err(e) => Err(e),
            Ok(c) => match extract_fields(fields, i + 1, segs_t, segs_w, qpairs, obj, headers, body) {
                Ok(rs) => Ok(seq![c] + rs),
                Err(e) => Err(e),
            },
        }
    }
}

/// What [`parse_request`] returns, as one function of the schema and the
/// wire message.
pub open spec fn spec_parse_request(s: EndpointSchema, w: WireReqV) -> Result<
    Seq<Option<FieldValueV>>,
    ParseErrorKind,
> {
    let segs_t = split(s.metadata.path_template@, SLASH);
    let segs_w = split(w.path, SLASH);
    if !literals_match(segs_t, segs_w) {
        Err(ParseErrorKind::PathShape)
    } else if !placeholders_decode(segs_t, segs_w) {
        Err(ParseErrorKind::PathSegmentDecode)
    } else {
        match parse_query(w.query) {
            None => Err(ParseErrorKind::QueryMalformed),
            Some(qpairs) => match spec_parse_body(s.request@, w.body) {
                Err(e) => Err(e),
                Ok(obj) => extract_fields(
                    s.request@,
                    0,
                    segs_t,
                    segs_w,
                    qpairs,
                    obj,
                    w.headers,
                    w.body,
                ),
            },
        }
    }
}

/// What a response parse can yield.
pub enum RespOutcomeV {
    /// A success value for the response shape.
    Success(Seq<Option<FieldValueV>>),
    /// A success-status response whose content failed to decode.
    Deser(ParseErrorKind),
    /// The well-known error payload: its code and its message.
    Known(Seq<u8>, Seq<u8>),
    /// A non-success response whose body is not the well-known payload.
    Unknown,
}

/// What [`parse_response`] returns: status below 400 decodes the response
/// shape; any other status is classified as a known or unknown server error.
pub open spec fn spec_parse_response(s: EndpointSchema, w: WireRespV) -> RespOutcomeV {
    if w.status < 400 {
        match spec_parse_body(s.response@, w.body) {
            Err(e) => RespOutcomeV::Deser(e),
            Ok(obj) => match extract_fields(
                s.response@,
                0,
                Seq::empty(),
                Seq::empty(),
                Seq::empty(),
                obj,
                w.headers,
                w.body,
            ) {
                Ok(v) => RespOutcomeV::Success(v),
                Err(e) => RespOutcomeV::Deser(e),
            },
        }
    } else {
        match parse_obj(w.body) {
            Some(ps) => match (find_pair(ps, errcode_key()), find_pair(ps, error_key())) {
                (Some(ec), Some(msg)) => RespOutcomeV::Known(ec, msg),
                _ => RespOutcomeV::Unknown,
            },
            None => RespOutcomeV::Unknown,
        }
    }
}

fn find_pair_exec(pairs: &Vec<(Vec<u8>, Vec<u8>)>, key: &Vec<u8>, i: usize) -> (r: Option<Vec<u8>>)
    requires
        i <= pairs@.len(),
    ensures
        match r {
            Some(t) => find_pair(pairs_of(pairs@).skip(i as int), key@) == Some(t@),
            None => find_pair(pairs_of(pairs@).skip(i as int), key@) is None,
        },
    decreases pairs@.len() - i,
{
    let ghost tail = pairs_of(pairs@).skip(i as int);
    if i == pairs.len() {
        proof {
            assert(tail =~= Seq::<(Seq<u8>, Seq<u8>)>::empty());
        }
        None
    } else {
        proof {
            assert(tail[0] == pairs_of(pairs@)[i as int]);
            assert(tail[0] == (pairs@[i as int].0@, pairs@[i as int].1@));
            assert(tail.drop_first() =~= pairs_of(pairs@).skip(i + 1));
        }
        if bytes_eq(&pairs[i].0, key) {
            Some(copy_bytes(&pairs[i].1))
        } else {
            find_pair_exec(pairs, key, i + 1)
        }
    }
}

fn find_header_exec(headers: &Vec<(Vec<u8>, Vec<u8>)>, lkey: &Vec<u8>, i: usize) -> (r: Option<
    Vec<u8>,
>)
    requires
        i <= headers@.len(),
    ensures
        match r {
            Some(t) => find_header(pairs_of(headers@).skip(i as int), lkey@) == Some(t@),
            None => find_header(pairs_of(headers@).skip(i as int), lkey@) is None,
        },
    decreases headers@.len() - i,
{
    let ghost tail = pairs_of(headers@).skip(i as int);
    if i == headers.len() {
        proof {
            assert(tail =~= Seq::<(Seq<u8>, Seq<u8>)>::empty());
        }
        None
    } else {
        proof {
            assert(tail[0] == pairs_of(headers@)[i as int]);
            assert(tail[0] == (headers@[i as int].0@, headers@[i as int].1@));
            assert(tail.drop_first() =~= pairs_of(headers@).skip(i + 1));
        }
        let ln = lower_bytes(&headers[i].0);
        if bytes_eq(&ln, lkey) {
            Some(copy_bytes(&headers[i].1))
        } else {
            find_header_exec(headers, lkey, i + 1)
        }
    }
}

fn claimed_exec(fields: &Vec<FieldDef>, key: &Vec<u8>) -> (r: bool)
    ensures
        r == claimed_key(fields@, key@),
{
    let mut i: usize = 0;
    while i < fields.len()
        invariant
            i <= fields@.len(),
            forall|k: int|
                0 <= k < i ==> !((#[trigger] fields@[k]).role is QueryParam && fields@[k].name@
                    == key@),
        decreases fields@.len() - i,
    {
        let is_qp = match &fields[i].role {
            FieldRole::QueryParam => true,
            _ => false,
        };
        if is_qp && bytes_eq(&fields[i].name, key) {
            return true;
        }
        i += 1;
    }
    false
}

fn unclaimed_exec(fields: &Vec<FieldDef>, pairs: &Vec<(Vec<u8>, Vec<u8>)>, i: usize) -> (r: Vec<
    (Vec<u8>, Vec<u8>),
>)
    requires
        i <= pairs@.len(),
    ensures
        pairs_of(r@) == unclaimed(fields@, pairs_of(pairs@).skip(i as int)),
    decreases pairs@.len() - i,
{
    let ghost tail = pairs_of(pairs@).skip(i as int);
    if i == pairs.len() {
        let r: Vec<(Vec<u8>, Vec<u8>)> = Vec::new();
        proof {
            assert(tail =~= Seq::<(Seq<u8>, Seq<u8>)>::empty());
            assert(pairs_of(r@) =~= unclaimed(fields@, tail));
        }
        r
    } else {
        let mut rest = unclaimed_exec(fields, pairs, i + 1);
        proof {
            assert(pairs_of(pairs@)[i as int] == (pairs@[i as int].0@, pairs@[i as int].1@));
            assert(tail[0] == pairs_of(pairs@)[i as int]);
            assert(tail.drop_first() =~= pairs_of(pairs@).skip(i + 1));
        }
        if claimed_exec(fields, &pairs[i].0) {
            rest
        } else {
            let ghost prev = rest@;
            rest.insert(0, (copy_bytes(&pairs[i].0), copy_bytes(&pairs[i].1)));
            proof {
                assert(rest@.len() == prev.len() + 1);
                assert forall|m: int|
                    0 <= m < rest@.len() implies pairs_of(rest@)[m] == (seq![tail[0]] + pairs_of(
                    prev,
                ))[m] by {
                    if m == 0 {
                        assert(rest@[0] == (rest@[0].0, rest@[0].1));
                        assert(pairs_of(rest@)[0] == (rest@[0].0@, rest@[0].1@));
                    } else {
                        assert(rest@[m] == prev[m - 1]);
                        assert(pairs_of(rest@)[m] == pairs_of(prev)[m - 1]);
                    }
                }
                assert(pairs_of(rest@) =~= seq![tail[0]] + pairs_of(prev));
                assert(pairs_of(rest@) =~= unclaimed(fields@, tail));
            }
            rest
        }
    }
}

fn copy_tail_vecs(parts: &Vec<Vec<u8>>) -> (r: Vec<Vec<u8>>)
    requires
        parts@.len() >= 1,
    ensures
        seqs_of(r@) == seqs_of(parts@).drop_first(),
{
    let mut out: Vec<Vec<u8>> = Vec::new();
    let mut i: usize = 1;
    while i < parts.len()
        invariant
            1 <= i <= parts@.len(),
            seqs_of(out@) == seqs_of(parts@).subrange(1, i as int),
        decreases parts@.len() - i,
    {
        let c = copy_bytes(&parts[i]);
        let ghost prev = out@;
        proof {
            assert(seqs_of(prev).len() == prev.len());
            assert(seqs_of(parts@).len() == parts@.len());
            assert(seqs_of(prev).len() == i - 1);
        }
        out.push(c);
        proof {
            assert(out@ == prev.push(c));
            assert(seqs_of(out@).len() == i);
            assert forall|m: int|
                0 <= m < i implies seqs_of(out@)[m] == seqs_of(parts@).subrange(1, i + 1)[m] by {
                if m < i - 1 {
                    assert(out@[m] == prev[m]);
                    assert(seqs_of(out@)[m] == seqs_of(prev)[m]);
                } else {
                    assert(out@[m] == c);
                    assert(seqs_of(out@)[m] == c@);
                }
            }
            assert(seqs_of(out@) =~= seqs_of(parts@).subrange(1, i + 1));
        }
        i += 1;
    }
    proof {
        assert(seqs_of(parts@).subrange(1, parts@.len() as int) =~= seqs_of(parts@).drop_first());
    }
    out
}

fn parse_qpart_exec(part: &Vec<u8>) -> (r: Option<(Vec<u8>, Vec<u8>)>)
    ensures
        match r {
            Some(p) => parse_qpart(part@) == Some((p.0@, p.1@)),
            None => parse_qpart(part@) is None,
        },
{
    let sub = split_bytes(part, EQUALS);
    if sub.len() < 2 {
        return None;
    }
    let tail = copy_tail_vecs(&sub);
    let venc = join_bytes(&tail, EQUALS);
    proof {
        assert(seqs_of(sub@)[0] == sub@[0]@);
        assert(venc@ == join(split(part@, EQUALS).drop_first(), EQUALS));
    }
    let k = match percent_decode(&sub[0]) {
        Some(k) => k,
        None => {
            return None;
        },
    };
    let v = match percent_decode(&venc) {
        Some(v) => v,
        None => {
            return None;
        },
    };
    Some((k, v))
}

fn parse_qparts_exec(parts: &Vec<Vec<u8>>, i: usize) -> (r: Option<Vec<(Vec<u8>, Vec<u8>)>>)
    requires
        i <= parts@.len(),
    ensures
        match r {
            Some(ps) => parse_qparts(seqs_of(parts@), i as int) == Some(pairs_of(ps@)),
            None => parse_qparts(seqs_of(parts@), i as int) is None,
        },
    decreases parts@.len() - i,
{
    if i == parts.len() {
        let r: Vec<(Vec<u8>, Vec<u8>)> = Vec::new();
        proof {
            assert(pairs_of(r@) =~= Seq::<(Seq<u8>, Seq<u8>)>::empty());
        }
        Some(r)
    } else {
        proof {
            assert(seqs_of(parts@)[i as int] == parts@[i as int]@);
        }
        let p = match parse_qpart_exec(&parts[i]) {
            Some(p) => p,
            None => {
                return None;
            },
        };
        match parse_qparts_exec(parts, i + 1) {
            Some(mut ps) => {
                let ghost pv = (p.0@, p.1@);
                ps.insert(0, p);
                proof {
                    assert(pairs_of(ps@) =~= seq![pv] + pairs_of(ps@).drop_first());
                }
                Some(ps)
            },
            None => None,
        }
    }
}

/// Parses a query string into its ordered decoded pairs.
pub fn parse_query_exec(q: &Vec<u8>) -> (r: Option<Vec<(Vec<u8>, Vec<u8>)>>)
    ensures
        match r {
            Some(ps) => parse_query(q@) == Some(pairs_of(ps@)),
            None => parse_query(q@) is None,
        },
{
    if q.len() == 0 {
        let r: Vec<(Vec<u8>, Vec<u8>)> = Vec::new();
        proof {
            assert(pairs_of(r@) =~= Seq::<(Seq<u8>, Seq<u8>)>::empty());
        }
        return Some(r);
    }
    let parts = split_bytes(q, AMP);
    parse_qparts_exec(&parts, 0)
}

fn placeholder_pos_exec(segs_t: &Vec<Vec<u8>>, n: &Vec<u8>, p: usize) -> (r: Option<usize>)
    requires
        p <= segs_t@.len(),
    ensures
        match r {
            Some(q) => q < segs_t@.len() && placeholder_pos(seqs_of(segs_t@), n@, p as int)
                == Some(q as int),
            None => placeholder_pos(seqs_of(segs_t@), n@, p as int) is None,
        },
    decreases segs_t@.len() - p,
{
    if p == segs_t.len() {
        None
    } else {
        proof {
            assert(seqs_of(segs_t@)[p as int] == segs_t@[p as int]@);
        }
        if seg_placeholder_exec(&segs_t[p]) {
            let t = tail_bytes(&segs_t[p]);
            if bytes_eq(&t, n) {
                return Some(p);
            }
        }
        placeholder_pos_exec(segs_t, n, p + 1)
    }
}

/// The view of a vector of optional field values.
pub open spec fn opts_of(vs: Seq<Option<FieldValue>>) -> Seq<Option<FieldValueV>> {
    vs.map_values(
        |o: Option<FieldValue>|
            match o {
                Some(f) => Some(f@),
                None => None::<FieldValueV>,
            },
    )
}

fn extract_exec(
    fields: &Vec<FieldDef>,
    i: usize,
    segs_t: &Vec<Vec<u8>>,
    segs_w: &Vec<Vec<u8>>,
    qpairs: &Vec<(Vec<u8>, Vec<u8>)>,
    obj: &Vec<(Vec<u8>, Vec<u8>)>,
    headers: &Vec<(Vec<u8>, Vec<u8>)>,
    body: &Vec<u8>,
) -> (r: Result<Vec<Option<FieldValue>>, ParseErrorKind>)
    requires
        i <= fields@.len(),
    ensures
        match r {
            Ok(vs) => extract_fields(
                fields@,
                i as int,
                seqs_of(segs_t@),
                seqs_of(segs_w@),
                pairs_of(qpairs@),
                pairs_of(obj@),
                pairs_of(headers@),
                body@,
            ) == Ok::<Seq<Option<FieldValueV>>, ParseErrorKind>(opts_of(vs@)),
            Err(e) => extract_fields(
                fields@,
                i as int,
                seqs_of(segs_t@),
                seqs_of(segs_w@),
                pairs_of(qpairs@),
                pairs_of(obj@),
                pairs_of(headers@),
                body@,
            ) == Err::<Seq<Option<FieldValueV>>, ParseErrorKind>(e),
        },
    decreases fields@.len() - i,
{
    if i == fields.len() {
        let r: Vec<Option<FieldValue>> = Vec::new();
        proof {
            assert(opts_of(r@) =~= Seq::<Option<FieldValueV>>::empty());
        }
        return Ok(r);
    }
    let cur: Option<FieldValue> = match &fields[i].role {
        FieldRole::PathSegment(n) => {
            match placeholder_pos_exec(segs_t, n, 0) {
                Some(p) => {
                    if p < segs_w.len() {
                        proof {
                            assert(seqs_of(segs_w@)[p as int] == segs_w@[p as int]@);
                        }
                        match percent_decode(&segs_w[p]) {
                            Some(t) => Some(FieldValue::Text(t)),
                            None => {
                                return Err(ParseErrorKind::PathSegmentDecode);
                            },
                        }
                    } else {
                        return Err(ParseErrorKind::PathShape);
                    }
                },
                None => {
                    return Err(ParseErrorKind::PathShape);
                },
            }
        },
        FieldRole::QueryParam => {
            match find_pair_exec(qpairs, &fields[i].name, 0) {
                Some(t) => {
                    proof {
                        assert(pairs_of(qpairs@).skip(0) =~= pairs_of(qpairs@));
                    }
                    Some(FieldValue::Text(t))
                },
                None => {
                    proof {
                        assert(pairs_of(qpairs@).skip(0) =~= pairs_of(qpairs@));
                    }
                    if fields[i].required {
                        return Err(ParseErrorKind::MissingQueryParam);
                    } else {
                        None
                    }
                },
            }
        },
        FieldRole::QueryMap => {
            let ps = unclaimed_exec(fields, qpairs, 0);
            proof {
                assert(pairs_of(qpairs@).skip(0) =~= pairs_of(qpairs@));
            }
            Some(FieldValue::Pairs(ps))
        },
        FieldRole::Header(n) => {
            let ln = lower_bytes(n);
            match find_header_exec(headers, &ln, 0) {
                Some(t) => {
                    proof {
                        assert(pairs_of(headers@).skip(0) =~= pairs_of(headers@));
                    }
                    Some(FieldValue::Text(t))
                },
                None => {
                    proof {
                        assert(pairs_of(headers@).skip(0) =~= pairs_of(headers@));
                    }
                    if fields[i].required {
                        return Err(ParseErrorKind::MissingHeader);
                    } else {
                        None
                    }
                },
            }
        },
        FieldRole::Body => Some(FieldValue::Json(copy_bytes(body))),
        FieldRole::BodyField(n) => {
            match find_pair_exec(obj, n, 0) {
                Some(t) => {
                    proof {
                        assert(pairs_of(obj@).skip(0) =~= pairs_of(obj@));
                    }
                    Some(FieldValue::Text(t))
                },
                None => {
                    proof {
                        assert(pairs_of(obj@).skip(0) =~= pairs_of(obj@));
                    }
                    if fields[i].required {
                        return Err(ParseErrorKind::MissingBodyField);
                    } else {
                        None
                    }
                },
            }
        },
        FieldRole::RawBody => Some(FieldValue::Bytes(copy_bytes(body))),
    };
    let ghost cv: Option<FieldValueV> = match &cur {
        Some(f) => Some(f@),
        None => None,
    };
    proof {
        let full = extract_fields(
            fields@,
            i as int,
            seqs_of(segs_t@),
            seqs_of(segs_w@),
            pairs_of(qpairs@),
            pairs_of(obj@),
            pairs_of(headers@),
            body@,
        );
        let rest = extract_fields(
            fields@,
            i + 1,
            seqs_of(segs_t@),
            seqs_of(segs_w@),
            pairs_of(qpairs@),
            pairs_of(obj@),
            pairs_of(headers@),
            body@,
        );
        assert(full == match rest {
            Ok(rs) => Ok::<Seq<Option<FieldValueV>>, ParseErrorKind>(seq![cv] + rs),
            Err(e) => Err(e),
        });
    }
    match extract_exec(fields, i + 1, segs_t, segs_w, qpairs, obj, headers, body) {
        Ok(mut rs) => {
            let ghost prev = rs@;
            rs.insert(0, cur);
            proof {
                assert(rs@ == prev.insert(0, cur));
                assert(rs@.len() == prev.len() + 1);
                assert forall|m: int|
                    0 <= m < rs@.len() implies opts_of(rs@)[m] == (seq![cv] + opts_of(prev))[m] by {
                    if m == 0 {
                        assert(rs@[0] == cur);
                    } else {
                        assert(rs@[m] == prev[m - 1]);
                        assert(opts_of(rs@)[m] == opts_of(prev)[m - 1]);
                    }
                }
                assert(opts_of(rs@) =~= seq![cv] + opts_of(prev));
            }
            Ok(rs)
        },
        Err(e) => Err(e),
    }
}

/// Parses a wire request against schema `s` into an owned value.  Success
/// and every failure are fixed by [`spec_parse_request`]; a failure carries
/// the original message for diagnostics.
pub fn parse_request(s: &EndpointSchema, w: WireRequest) -> (r: Result<
    Value,
    RequestDeserializationError,
>)
    ensures
        match r {
            Ok(v) => spec_parse_request(*s, w@) == Ok::<Seq<Option<FieldValueV>>, ParseErrorKind>(
                v@,
            ),
            Err(e) => spec_parse_request(*s, w@) == Err::<Seq<Option<FieldValueV>>, ParseErrorKind>(
                e.kind,
            ) && e.message@ == w@,
        },
{
    let segs_t = split_bytes(&s.metadata.path_template, SLASH);
    let segs_w = split_bytes(&w.path, SLASH);
    if segs_t.len() != segs_w.len() {
        return Err(RequestDeserializationError { kind: ParseErrorKind::PathShape, message: w });
    }
    let mut p: usize = 0;
    while p < segs_t.len()
        invariant
            p <= segs_t@.len(),
            seqs_of(segs_t@) == split(s.metadata.path_template@, SLASH),
            seqs_of(segs_w@) == split(w.path@, SLASH),
            segs_t@.len() == segs_w@.len(),
            forall|k: int|
                0 <= k < p ==> (!seg_is_placeholder(#[trigger] seqs_of(segs_t@)[k]) ==> seqs_of(
                    segs_w@,
                )[k] == seqs_of(segs_t@)[k]),
        decreases segs_t@.len() - p,
    {
        proof {
            assert(seqs_of(segs_t@)[p as int] == segs_t@[p as int]@);
            assert(seqs_of(segs_w@)[p as int] == segs_w@[p as int]@);
        }
        if !seg_placeholder_exec(&segs_t[p]) {
            if !bytes_eq(&segs_w[p], &segs_t[p]) {
                return Err(
                    RequestDeserializationError { kind: ParseErrorKind::PathShape, message: w },
                );
            }
        }
        p += 1;
    }
    let mut p2: usize = 0;
    while p2 < segs_t.len()
        invariant
            p2 <= segs_t@.len(),
            seqs_of(segs_t@) == split(s.metadata.path_template@, SLASH),
            seqs_of(segs_w@) == split(w.path@, SLASH),
            segs_t@.len() == segs_w@.len(),
            literals_match(seqs_of(segs_t@), seqs_of(segs_w@)),
            forall|k: int|
                0 <= k < p2 ==> (seg_is_placeholder(#[trigger] seqs_of(segs_t@)[k]) ==> pd(
                    seqs_of(segs_w@)[k],
                ) is Some),
        decreases segs_t@.len() - p2,
    {
        proof {
            assert(seqs_of(segs_t@)[p2 as int] == segs_t@[p2 as int]@);
            assert(seqs_of(segs_w@)[p2 as int] == segs_w@[p2 as int]@);
        }
        if seg_placeholder_exec(&segs_t[p2]) {
            if percent_decode(&segs_w[p2]).is_none() {
                return Err(
                    RequestDeserializationError {
                        kind: ParseErrorKind::PathSegmentDecode,
                        message: w,
                    },
                );
            }
        }
        p2 += 1;
    }
    let qpairs = match parse_query_exec(&w.query) {
        Some(ps) => ps,
        None => {
            return Err(
                RequestDeserializationError { kind: ParseErrorKind::QueryMalformed, message: w },
            );
        },
    };
    let obj = match parse_body_exec(&s.request, &w.body) {
        Ok(ps) => ps,
        Err(e) => {
            return Err(RequestDeserializationError { kind: e, message: w });
        },
    };
    match extract_exec(&s.request, 0, &segs_t, &segs_w, &qpairs, &obj, &w.headers, &w.body) {
        Ok(fields) => {
            let v = Value { fields };
            proof {
                assert(v@ =~= opts_of(v.fields@));
            }
            Ok(v)
        },
        Err(e) => Err(RequestDeserializationError { kind: e, message: w }),
    }
}

/// The structural body phase, shared by both parsers.
fn parse_body_exec(fields: &Vec<FieldDef>, body: &Vec<u8>) -> (r: Result<
    Vec<(Vec<u8>, Vec<u8>)>,
    ParseErrorKind,
>)
    ensures
        match r {
            Ok(ps) => spec_parse_body(fields@, body@) == Ok::<Seq<(Seq<u8>, Seq<u8>)>, ParseErrorKind>(
                pairs_of(ps@),
            ),
            Err(e) => spec_parse_body(fields@, body@) == Err::<Seq<(Seq<u8>, Seq<u8>)>, ParseErrorKind>(
                e,
            ),
        },
{
    let empty: Vec<(Vec<u8>, Vec<u8>)> = Vec::new();
    proof {
        assert(pairs_of(empty@) =~= Seq::<(Seq<u8>, Seq<u8>)>::empty());
    }
    if crate::builder::find_raw(fields, 0).is_some() {
        Ok(empty)
    } else if crate::builder::find_body(fields, 0).is_some() {
        if json_well_formed(body) {
            Ok(empty)
        } else {
            Err(ParseErrorKind::BodyMalformed)
        }
    } else if crate::builder::any_body_fields(fields) {
        match parse_object(body) {
            Some(ps) => Ok(ps),
            None => Err(ParseErrorKind::BodyMalformed),
        }
    } else {
        Ok(empty)
    }
}

/// Parses a wire response against schema `s`: a status below 400 decodes the
/// response shape into an owned value; any other status is classified into
/// the protocol's known error payload or an unknown server error.  Fixed by
/// [`spec_parse_response`].
pub fn parse_response(s: &EndpointSchema, w: WireResponse) -> (r: Result<Value, FromResponseError>)
    ensures
        match r {
            Ok(v) => spec_parse_response(*s, w@) == RespOutcomeV::Success(v@),
            Err(e) => match e {
                FromResponseError::Deserialization(d) => spec_parse_response(*s, w@)
                    == RespOutcomeV::Deser(d.kind) && d.message@ == w@,
                FromResponseError::Server(se) => match se {
                    ServerError::Known(k) => spec_parse_response(*s, w@) == RespOutcomeV::Known(
                        k.errcode@,
                        k.message@,
                    ) && k.status == w.status,
                    ServerError::Unknown(st, b) => spec_parse_response(*s, w@)
                        == RespOutcomeV::Unknown && st == w.status && b@ == w.body@,
                },
            },
        },
{
    if w.status < 400 {
        let obj = match parse_body_exec(&s.response, &w.body) {
            Ok(ps) => ps,
            Err(e) => {
                return Err(
                    FromResponseError::Deserialization(
                        crate::errors::ResponseDeserializationError { kind: e, message: w },
                    ),
                );
            },
        };
        let segs_t: Vec<Vec<u8>> = Vec::new();
        let segs_w: Vec<Vec<u8>> = Vec::new();
        let qpairs: Vec<(Vec<u8>, Vec<u8>)> = Vec::new();
        proof {
            assert(seqs_of(segs_t@) =~= Seq::<Seq<u8>>::empty());
            assert(pairs_of(qpairs@) =~= Seq::<(Seq<u8>, Seq<u8>)>::empty());
        }
        match extract_exec(&s.response, 0, &segs_t, &segs_w, &qpairs, &obj, &w.headers, &w.body) {
            Ok(fields) => {
                let v = Value { fields };
                proof {
                    assert(v@ =~= opts_of(v.fields@));
                }
                Ok(v)
            },
            Err(e) => Err(
                FromResponseError::Deserialization(
                    crate::errors::ResponseDeserializationError { kind: e, message: w },
                ),
            ),
        }
    } else {
        match parse_object(&w.body) {
            Some(ps) => {
                let ec_key = errcode_key_exec();
                let msg_key = error_key_exec();
                let ec = find_pair_exec(&ps, &ec_key, 0);
                let msg = find_pair_exec(&ps, &msg_key, 0);
                proof {
                    assert(pairs_of(ps@).skip(0) =~= pairs_of(ps@));
                }
                match (ec, msg) {
                    (Some(errcode), Some(message)) => Err(
                        FromResponseError::Server(
                            ServerError::Known(
                                KnownServerError { errcode, message, status: w.status },
                            ),
                        ),
                    ),
                    _ => Err(FromResponseError::Server(ServerError::Unknown(w.status, w.body))),
                }
            },
            None => Err(FromResponseError::Server(ServerError::Unknown(w.status, w.body))),
        }
    }
}

} // verus!
