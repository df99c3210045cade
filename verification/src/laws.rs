//! The laws of the codec, proved once for every schema and value: parsing
//! inverts building, field for field, for any well-formed endpoint schema and
//! any valid outgoing value whose build succeeds; and an endpoint that does
//! not require authentication never emits the credential header.

use vstd::prelude::*;
use crate::builder::{bearer_prefix, body_field_pairs_from, first_body_index, first_raw_index, has_body_fields, header_pairs_from, path_value_from, query_pairs_from, render_qpair, render_query, render_seg, spec_body, spec_build_request, spec_build_response, spec_path};
use crate::bytes::{absent, join, lower, lower_byte, split, AMP, EQUALS, SLASH};
use crate::errors::ParseErrorKind;
use crate::json::{pairs_ok};
use crate::message::{role_matches, valid_value, FieldValueV, WireReqV, WireRespV};
use crate::parse::{claimed_key, extract_fields, find_header, find_pair, literals_match, parse_qpart, parse_qparts, parse_query, placeholder_pos, placeholders_decode, spec_parse_body, spec_parse_request, spec_parse_response, unclaimed, RespOutcomeV};
use crate::percent::{lemma_pd_pe, lemma_pe_absent, pd, pe};
use crate::schema::{auth_header_name, body_roles_ok, distinct_body_fields, distinct_headers, distinct_names, distinct_path_fields, fields_claim_placeholders, no_reserved_header, placeholders_claimed, seg_is_placeholder, single_query_map, structural_required, wf_response_roles, wf_schema, EndpointSchema, FieldDef, FieldRole};

verus! {

/// Invariant of valid outgoing values: the keys of a query-map field never
/// collide with the declared query-param fields.
pub open spec fn query_map_disjoint(fields: Seq<FieldDef>, v: Seq<Option<FieldValueV>>) -> bool {
    forall|i: int|
        0 <= i < fields.len() && (#[trigger] fields[i]).role is QueryMap ==> match v[i] {
            Some(FieldValueV::Pairs(ps)) => forall|k: int|
                0 <= k < ps.len() ==> !claimed_key(fields, (#[trigger] ps[k]).0),
            _ => true,
        }
}

proof fn lemma_find_pair_prepend(a: Seq<(Seq<u8>, Seq<u8>)>, b: Seq<(Seq<u8>, Seq<u8>)>, key: Seq<u8>)
    requires
        forall|m: int| 0 <= m < a.len() ==> (#[trigger] a[m]).0 != key,
    ensures
        find_pair(a + b, key) == find_pair(b, key),
    decreases a.len(),
{
    if a.len() == 0 {
        assert(a + b =~= b);
    } else {
        assert((a + b)[0] == a[0]);
        assert((a + b).drop_first() =~= a.drop_first() + b);
        lemma_find_pair_prepend(a.drop_first(), b, key);
    }
}

proof fn lemma_find_header_prepend(
    a: Seq<(Seq<u8>, Seq<u8>)>,
    b: Seq<(Seq<u8>, Seq<u8>)>,
    lkey: Seq<u8>,
)
    requires
        forall|m: int| 0 <= m < a.len() ==> lower((#[trigger] a[m]).0) != lkey,
    ensures
        find_header(a + b, lkey) == find_header(b, lkey),
    decreases a.len(),
{
    if a.len() == 0 {
        assert(a + b =~= b);
    } else {
        assert((a + b)[0] == a[0]);
        assert((a + b).drop_first() =~= a.drop_first() + b);
        lemma_find_header_prepend(a.drop_first(), b, lkey);
    }
}

proof fn lemma_qpairs_no_key(
    fields: Seq<FieldDef>,
    v: Seq<Option<FieldValueV>>,
    key: Seq<u8>,
    j: int,
)
    requires
        0 <= j <= fields.len(),
        v.len() == fields.len(),
        claimed_key(fields, key),
        query_map_disjoint(fields, v),
        forall|jj: int|
            j <= jj < fields.len() && (#[trigger] fields[jj]).role is QueryParam
                ==> fields[jj].name@ != key,
    ensures
        find_pair(query_pairs_from(fields, v, j), key) is None,
    decreases fields.len() - j,
{
    if j == fields.len() {
    } else {
        lemma_qpairs_no_key(fields, v, key, j + 1);
        let rest = query_pairs_from(fields, v, j + 1);
        match fields[j].role {
            FieldRole::QueryParam => {
                match v[j] {
                    Some(FieldValueV::Text(t)) => {
                        let pair = (fields[j].name@, t);
                        lemma_find_pair_prepend(seq![pair], rest, key);
                        assert(seq![pair] + rest == query_pairs_from(fields, v, j));
                    },
                    _ => {},
                }
            },
            FieldRole::QueryMap => {
                match v[j] {
                    Some(FieldValueV::Pairs(ps)) => {
                        assert(forall|k: int|
                            0 <= k < ps.len() ==> !claimed_key(fields, (#[trigger] ps[k]).0));
                        assert(forall|k: int| 0 <= k < ps.len() ==> (#[trigger] ps[k]).0 != key);
                        lemma_find_pair_prepend(ps, rest, key);
                    },
                    _ => {},
                }
            },
            _ => {},
        }
    }
}

proof fn lemma_qpairs_yes(fields: Seq<FieldDef>, v: Seq<Option<FieldValueV>>, i: int, j: int)
    requires
        0 <= j <= i < fields.len(),
        valid_value(fields, v),
        distinct_names(fields),
        query_map_disjoint(fields, v),
        fields[i].role is QueryParam,
    ensures
        find_pair(query_pairs_from(fields, v, j), fields[i].name@) == match v[i] {
            Some(FieldValueV::Text(t)) => Some(t),
            _ => None,
        },
    decreases i - j,
{
    let key = fields[i].name@;
    assert(claimed_key(fields, key));
    if j == i {
        let rest = query_pairs_from(fields, v, j + 1);
        match v[i] {
            Some(FieldValueV::Text(t)) => {
                let pair = (key, t);
                assert(query_pairs_from(fields, v, j) == seq![pair] + rest);
                assert((seq![pair] + rest)[0] == pair);
                assert(find_pair(seq![pair] + rest, key) == Some(t));
            },
            _ => {
                assert(v[i] is None);
                lemma_qpairs_no_key(fields, v, key, i + 1);
            },
        }
    } else {
        lemma_qpairs_yes(fields, v, i, j + 1);
        let rest = query_pairs_from(fields, v, j + 1);
        match fields[j].role {
            FieldRole::QueryParam => {
                match v[j] {
                    Some(FieldValueV::Text(t)) => {
                        let pair = (fields[j].name@, t);
                        assert(fields[j].name@ != key);
                        lemma_find_pair_prepend(seq![pair], rest, key);
                    },
                    _ => {},
                }
            },
            FieldRole::QueryMap => {
                match v[j] {
                    Some(FieldValueV::Pairs(ps)) => {
                        assert(forall|k: int| 0 <= k < ps.len() ==> (#[trigger] ps[k]).0 != key);
                        lemma_find_pair_prepend(ps, rest, key);
                    },
                    _ => {},
                }
            },
            _ => {},
        }
    }
}

/// The query-map contributions of fields `j..`.
pub open spec fn map_pairs_from(
    fields: Seq<FieldDef>,
    v: Seq<Option<FieldValueV>>,
    j: int,
) -> Seq<(Seq<u8>, Seq<u8>)>
    decreases fields.len() - j,
{
    if !(0 <= j < fields.len()) {
        Seq::empty()
    } else {
        let rest = map_pairs_from(fields, v, j + 1);
        match fields[j].role {
            FieldRole::QueryMap => match v[j] {
                Some(FieldValueV::Pairs(ps)) => ps + rest,
                _ => rest,
            },
            _ => rest,
        }
    }
}

proof fn lemma_unclaimed_concat(
    fields: Seq<FieldDef>,
    a: Seq<(Seq<u8>, Seq<u8>)>,
    b: Seq<(Seq<u8>, Seq<u8>)>,
)
    ensures
        unclaimed(fields, a + b) == unclaimed(fields, a) + unclaimed(fields, b),
    decreases a.len(),
{
    if a.len() == 0 {
        assert(a + b =~= b);
        assert(unclaimed(fields, a) + unclaimed(fields, b) =~= unclaimed(fields, b));
    } else {
        assert((a + b)[0] == a[0]);
        assert((a + b).drop_first() =~= a.drop_first() + b);
        lemma_unclaimed_concat(fields, a.drop_first(), b);
        if claimed_key(fields, a[0].0) {
        } else {
            assert(seq![a[0]] + (unclaimed(fields, a.drop_first()) + unclaimed(fields, b)) =~= (
            seq![a[0]] + unclaimed(fields, a.drop_first())) + unclaimed(fields, b));
        }
    }
}

proof fn lemma_unclaimed_all(fields: Seq<FieldDef>, ps: Seq<(Seq<u8>, Seq<u8>)>)
    requires
        forall|k: int| 0 <= k < ps.len() ==> !claimed_key(fields, (#[trigger] ps[k]).0),
    ensures
        unclaimed(fields, ps) == ps,
    decreases ps.len(),
{
    if ps.len() == 0 {
        assert(unclaimed(fields, ps) =~= ps);
    } else {
        lemma_unclaimed_all(fields, ps.drop_first());
        assert(seq![ps[0]] + ps.drop_first() =~= ps);
    }
}

proof fn lemma_unclaimed_qpairs(fields: Seq<FieldDef>, v: Seq<Option<FieldValueV>>, j: int)
    requires
        0 <= j <= fields.len(),
        v.len() == fields.len(),
        query_map_disjoint(fields, v),
    ensures
        unclaimed(fields, query_pairs_from(fields, v, j)) == map_pairs_from(fields, v, j),
    decreases fields.len() - j,
{
    if j == fields.len() {
        assert(unclaimed(fields, query_pairs_from(fields, v, j)) =~= Seq::<(
            Seq<u8>,
            Seq<u8>,
        )>::empty());
    } else {
        lemma_unclaimed_qpairs(fields, v, j + 1);
        let rest = query_pairs_from(fields, v, j + 1);
        match fields[j].role {
            FieldRole::QueryParam => {
                match v[j] {
                    Some(FieldValueV::Text(t)) => {
                        let pair = (fields[j].name@, t);
                        assert(claimed_key(fields, pair.0));
                        lemma_unclaimed_concat(fields, seq![pair], rest);
                        assert(seq![pair].drop_first() =~= Seq::<(Seq<u8>, Seq<u8>)>::empty());
                        assert(unclaimed(fields, seq![pair].drop_first()) =~= Seq::<(
                            Seq<u8>,
                            Seq<u8>,
                        )>::empty());
                        assert(unclaimed(fields, seq![pair]) =~= Seq::<(Seq<u8>, Seq<u8>)>::empty());
                        assert(unclaimed(fields, seq![pair] + rest) =~= unclaimed(fields, rest));
                    },
                    _ => {},
                }
            },
            FieldRole::QueryMap => {
                match v[j] {
                    Some(FieldValueV::Pairs(ps)) => {
                        lemma_unclaimed_concat(fields, ps, rest);
                        assert(forall|k: int|
                            0 <= k < ps.len() ==> !claimed_key(fields, (#[trigger] ps[k]).0));
                        lemma_unclaimed_all(fields, ps);
                    },
                    _ => {},
                }
            },
            _ => {},
        }
    }
}

proof fn lemma_map_pairs_single(fields: Seq<FieldDef>, v: Seq<Option<FieldValueV>>, i: int, j: int)
    requires
        0 <= j <= fields.len(),
        v.len() == fields.len(),
        single_query_map(fields),
        0 <= i < fields.len(),
        fields[i].role is QueryMap,
    ensures
        map_pairs_from(fields, v, j) == if j <= i {
            match v[i] {
                Some(FieldValueV::Pairs(ps)) => ps,
                _ => Seq::<(Seq<u8>, Seq<u8>)>::empty(),
            }
        } else {
            Seq::<(Seq<u8>, Seq<u8>)>::empty()
        },
    decreases fields.len() - j,
{
    if j == fields.len() {
    } else {
        lemma_map_pairs_single(fields, v, i, j + 1);
        if j == i {
            match v[i] {
                Some(FieldValueV::Pairs(ps)) => {
                    assert(ps + map_pairs_from(fields, v, j + 1) =~= ps);
                },
                _ => {},
            }
        } else if fields[j].role is QueryMap {
            assert(false);
        }
    }
}

proof fn lemma_headers_no_key(
    fields: Seq<FieldDef>,
    v: Seq<Option<FieldValueV>>,
    lkey: Seq<u8>,
    j: int,
)
    requires
        0 <= j <= fields.len(),
        v.len() == fields.len(),
        forall|jj: int|
            j <= jj < fields.len() ==> ((#[trigger] fields[jj]).role matches FieldRole::Header(n)
                ==> lower(n@) != lkey),
    ensures
        find_header(header_pairs_from(fields, v, j), lkey) is None,
    decreases fields.len() - j,
{
    if j == fields.len() {
    } else {
        lemma_headers_no_key(fields, v, lkey, j + 1);
        let rest = header_pairs_from(fields, v, j + 1);
        match fields[j].role {
            FieldRole::Header(n) => {
                match v[j] {
                    Some(FieldValueV::Text(t)) => {
                        lemma_find_header_prepend(seq![(n@, t)], rest, lkey);
                    },
                    _ => {},
                }
            },
            _ => {},
        }
    }
}

proof fn lemma_headers_yes(fields: Seq<FieldDef>, v: Seq<Option<FieldValueV>>, i: int, j: int)
    requires
        0 <= j <= i < fields.len(),
        valid_value(fields, v),
        distinct_headers(fields),
        fields[i].role is Header,
    ensures
        find_header(
            header_pairs_from(fields, v, j),
            lower(fields[i].role->Header_0@),
        ) == match v[i] {
            Some(FieldValueV::Text(t)) => Some(t),
            _ => None,
        },
    decreases i - j,
{
    let lkey = lower(fields[i].role->Header_0@);
    if j == i {
        let rest = header_pairs_from(fields, v, j + 1);
        match fields[i].role {
            FieldRole::Header(n) => {
                match v[i] {
                    Some(FieldValueV::Text(t)) => {
                        assert(header_pairs_from(fields, v, j) == seq![(n@, t)] + rest);
                        assert((seq![(n@, t)] + rest)[0] == (n@, t));
                    },
                    _ => {
                        lemma_headers_no_key(fields, v, lkey, i + 1);
                    },
                }
            },
            _ => {},
        }
    } else {
        lemma_headers_yes(fields, v, i, j + 1);
        let rest = header_pairs_from(fields, v, j + 1);
        match fields[j].role {
            FieldRole::Header(n) => {
                match v[j] {
                    Some(FieldValueV::Text(t)) => {
                        assert(lower(n@) != lkey);
                        lemma_find_header_prepend(seq![(n@, t)], rest, lkey);
                    },
                    _ => {},
                }
            },
            _ => {},
        }
    }
}

proof fn lemma_body_fields_no_key(
    fields: Seq<FieldDef>,
    v: Seq<Option<FieldValueV>>,
    key: Seq<u8>,
    j: int,
)
    requires
        0 <= j <= fields.len(),
        v.len() == fields.len(),
        forall|jj: int|
            j <= jj < fields.len() ==> ((#[trigger] fields[jj]).role matches FieldRole::BodyField(
            n) ==> n@ != key),
    ensures
        find_pair(body_field_pairs_from(fields, v, j), key) is None,
    decreases fields.len() - j,
{
    if j == fields.len() {
    } else {
        lemma_body_fields_no_key(fields, v, key, j + 1);
        let rest = body_field_pairs_from(fields, v, j + 1);
        match fields[j].role {
            FieldRole::BodyField(n) => {
                match v[j] {
                    Some(FieldValueV::Text(t)) => {
                        lemma_find_pair_prepend(seq![(n@, t)], rest, key);
                    },
                    _ => {},
                }
            },
            _ => {},
        }
    }
}

proof fn lemma_body_fields_yes(fields: Seq<FieldDef>, v: Seq<Option<FieldValueV>>, i: int, j: int)
    requires
        0 <= j <= i < fields.len(),
        valid_value(fields, v),
        distinct_body_fields(fields),
        fields[i].role is BodyField,
    ensures
        find_pair(
            body_field_pairs_from(fields, v, j),
            fields[i].role->BodyField_0@,
        ) == match v[i] {
            Some(FieldValueV::Text(t)) => Some(t),
            _ => None,
        },
    decreases i - j,
{
    let key = fields[i].role->BodyField_0@;
    if j == i {
        let rest = body_field_pairs_from(fields, v, j + 1);
        match fields[i].role {
            FieldRole::BodyField(n) => {
                match v[i] {
                    Some(FieldValueV::Text(t)) => {
                        assert(body_field_pairs_from(fields, v, j) == seq![(n@, t)] + rest);
                        assert((seq![(n@, t)] + rest)[0] == (n@, t));
                    },
                    _ => {
                        lemma_body_fields_no_key(fields, v, key, i + 1);
                    },
                }
            },
            _ => {},
        }
    } else {
        lemma_body_fields_yes(fields, v, i, j + 1);
        let rest = body_field_pairs_from(fields, v, j + 1);
        match fields[j].role {
            FieldRole::BodyField(n) => {
                match v[j] {
                    Some(FieldValueV::Text(t)) => {
                        assert(n@ != key);
                        lemma_find_pair_prepend(seq![(n@, t)], rest, key);
                    },
                    _ => {},
                }
            },
            _ => {},
        }
    }
}

proof fn lemma_path_value_yes(fields: Seq<FieldDef>, v: Seq<Option<FieldValueV>>, i: int, j: int)
    requires
        0 <= j <= i < fields.len(),
        valid_value(fields, v),
        structural_required(fields),
        distinct_path_fields(fields),
        fields[i].role is PathSegment,
    ensures
        v[i] matches Some(FieldValueV::Text(t)) && path_value_from(
            fields,
            v,
            fields[i].role->PathSegment_0@,
            j,
        ) == Some(t),
    decreases i - j,
{
    let n = fields[i].role->PathSegment_0@;
    assert(fields[i].required);
    assert(match v[i] {
        Some(fv) => role_matches(fields[i].role, fv),
        None => !fields[i].required,
    });
    if j == i {
    } else {
        lemma_path_value_yes(fields, v, i, j + 1);
        match fields[j].role {
            FieldRole::PathSegment(m) => {
                assert(m@ != n);
            },
            _ => {},
        }
    }
}

proof fn lemma_placeholder_pos_none(t: Seq<Seq<u8>>, n: Seq<u8>, j: int)
    requires
        0 <= j <= t.len(),
        placeholder_pos(t, n, j) is None,
    ensures
        forall|p: int|
            j <= p < t.len() ==> !(seg_is_placeholder(#[trigger] t[p]) && t[p].drop_first() == n),
    decreases t.len() - j,
{
    if j == t.len() {
    } else {
        lemma_placeholder_pos_none(t, n, j + 1);
    }
}

proof fn lemma_placeholder_pos_finds(t: Seq<Seq<u8>>, n: Seq<u8>, j: int)
    requires
        0 <= j <= t.len(),
    ensures
        placeholder_pos(t, n, j) matches Some(p) ==> j <= p < t.len() && seg_is_placeholder(t[p])
            && t[p].drop_first() == n,
    decreases t.len() - j,
{
    if j == t.len() {
    } else {
        lemma_placeholder_pos_finds(t, n, j + 1);
    }
}

proof fn lemma_first_raw_finds(fields: Seq<FieldDef>, j: int)
    requires
        0 <= j <= fields.len(),
    ensures
        first_raw_index(fields, j) matches Some(k) ==> j <= k < fields.len() && fields[k].role
            is RawBody,
        first_raw_index(fields, j) is None ==> forall|k: int|
            j <= k < fields.len() ==> !((#[trigger] fields[k]).role is RawBody),
    decreases fields.len() - j,
{
    if j == fields.len() {
    } else {
        lemma_first_raw_finds(fields, j + 1);
    }
}

proof fn lemma_first_body_finds(fields: Seq<FieldDef>, j: int)
    requires
        0 <= j <= fields.len(),
    ensures
        first_body_index(fields, j) matches Some(k) ==> j <= k < fields.len() && fields[k].role
            is Body,
        first_body_index(fields, j) is None ==> forall|k: int|
            j <= k < fields.len() ==> !((#[trigger] fields[k]).role is Body),
    decreases fields.len() - j,
{
    if j == fields.len() {
    } else {
        lemma_first_body_finds(fields, j + 1);
    }
}

/// The per-field facts that extraction needs, distilled from the message.
pub open spec fn extraction_context(
    fields: Seq<FieldDef>,
    v: Seq<Option<FieldValueV>>,
    segs_t: Seq<Seq<u8>>,
    segs_w: Seq<Seq<u8>>,
    qpairs: Seq<(Seq<u8>, Seq<u8>)>,
    obj: Seq<(Seq<u8>, Seq<u8>)>,
    headers: Seq<(Seq<u8>, Seq<u8>)>,
    body: Seq<u8>,
) -> bool {
    forall|i: int|
        0 <= i < fields.len() ==> match (#[trigger] fields[i]).role {
            FieldRole::PathSegment(n) => (placeholder_pos(segs_t, n@, 0) matches Some(p) && 0 <= p
                < segs_w.len() && pd(segs_w[p]) == match v[i] {
                Some(FieldValueV::Text(t)) => Some(t),
                _ => None::<Seq<u8>>,
            }),
            FieldRole::QueryParam => find_pair(qpairs, fields[i].name@) == (match v[i] {
                Some(FieldValueV::Text(t)) => Some(t),
                _ => None::<Seq<u8>>,
            }),
            FieldRole::QueryMap => (match v[i] {
                Some(FieldValueV::Pairs(ps)) => unclaimed(fields, qpairs) == ps,
                _ => false,
            }),
            FieldRole::Header(n) => find_header(headers, lower(n@)) == (match v[i] {
                Some(FieldValueV::Text(t)) => Some(t),
                _ => None::<Seq<u8>>,
            }),
            FieldRole::Body => v[i] == Some(FieldValueV::Json(body)),
            FieldRole::BodyField(n) => find_pair(obj, n@) == (match v[i] {
                Some(FieldValueV::Text(t)) => Some(t),
                _ => None::<Seq<u8>>,
            }),
            FieldRole::RawBody => v[i] == Some(FieldValueV::Bytes(body)),
        }
}

proof fn lemma_extract_from_context(
    fields: Seq<FieldDef>,
    v: Seq<Option<FieldValueV>>,
    segs_t: Seq<Seq<u8>>,
    segs_w: Seq<Seq<u8>>,
    qpairs: Seq<(Seq<u8>, Seq<u8>)>,
    obj: Seq<(Seq<u8>, Seq<u8>)>,
    headers: Seq<(Seq<u8>, Seq<u8>)>,
    body: Seq<u8>,
    i: int,
)
    requires
        0 <= i <= fields.len(),
        valid_value(fields, v),
        structural_required(fields),
        extraction_context(fields, v, segs_t, segs_w, qpairs, obj, headers, body),
    ensures
        extract_fields(fields, i, segs_t, segs_w, qpairs, obj, headers, body) == Ok::<
            Seq<Option<FieldValueV>>,
            ParseErrorKind,
        >(v.skip(i)),
    decreases fields.len() - i,
{
    if i == fields.len() {
        assert(v.skip(i) =~= Seq::<Option<FieldValueV>>::empty());
    } else {
        lemma_extract_from_context(fields, v, segs_t, segs_w, qpairs, obj, headers, body, i + 1);
        assert(match v[i] {
            Some(fv) => role_matches(fields[i].role, fv),
            None => !fields[i].required,
        });
        match fields[i].role {
            FieldRole::PathSegment(n) => {
                assert(fields[i].required);
            },
            FieldRole::QueryMap => {
                assert(fields[i].required);
            },
            FieldRole::Body => {},
            FieldRole::RawBody => {},
            _ => {},
        }
        assert(seq![v[i]] + v.skip(i + 1) =~= v.skip(i));
    }
}

proof fn lemma_lower_auth_name()
    ensures
        lower(auth_header_name()) == auth_header_name(),
{
    assert forall|k: int|
        0 <= k < auth_header_name().len() implies lower(auth_header_name())[k]
        == auth_header_name()[k] by {
        assert(lower_byte(auth_header_name()[k]) == auth_header_name()[k]);
    }
    assert(lower(auth_header_name()) =~= auth_header_name());
}

proof fn lemma_qpart_round(k: Seq<u8>, vv: Seq<u8>)
    ensures
        parse_qpart(render_qpair((k, vv))) == Some((k, vv)),
{
    let part = pe(k) + seq![EQUALS] + pe(vv);
    assert(render_qpair((k, vv)) == part);
    lemma_pe_absent(k, EQUALS);
    lemma_pe_absent(vv, EQUALS);
    crate::bytes::lemma_split_sep(pe(k), pe(vv), EQUALS);
    crate::bytes::lemma_split_nosep(pe(vv), EQUALS);
    let sub = split(part, EQUALS);
    assert(sub == seq![pe(k)] + seq![pe(vv)]);
    assert(sub.len() == 2);
    assert(sub[0] == pe(k));
    assert(sub.drop_first() =~= seq![pe(vv)]);
    assert(join(seq![pe(vv)], EQUALS) == pe(vv));
    lemma_pd_pe(k);
    lemma_pd_pe(vv);
}

proof fn lemma_qparts_round(qpairs: Seq<(Seq<u8>, Seq<u8>)>, j: int)
    requires
        0 <= j <= qpairs.len(),
    ensures
        parse_qparts(
            qpairs.map_values(|p: (Seq<u8>, Seq<u8>)| render_qpair(p)),
            j,
        ) == Some(qpairs.skip(j)),
    decreases qpairs.len() - j,
{
    let parts = qpairs.map_values(|p: (Seq<u8>, Seq<u8>)| render_qpair(p));
    if j == qpairs.len() {
        assert(qpairs.skip(j) =~= Seq::<(Seq<u8>, Seq<u8>)>::empty());
    } else {
        lemma_qparts_round(qpairs, j + 1);
        assert(parts[j] == render_qpair(qpairs[j]));
        assert(qpairs[j] == (qpairs[j].0, qpairs[j].1));
        lemma_qpart_round(qpairs[j].0, qpairs[j].1);
        assert(parse_qpart(parts[j]) == Some(qpairs[j]));
        assert(seq![qpairs[j]] + qpairs.skip(j + 1) =~= qpairs.skip(j));
    }
}

proof fn lemma_query_round(qpairs: Seq<(Seq<u8>, Seq<u8>)>)
    ensures
        parse_query(render_query(qpairs)) == Some(qpairs),
{
    if qpairs.len() == 0 {
        assert(render_query(qpairs).len() == 0);
        assert(parse_query(render_query(qpairs)) == Some(Seq::<(Seq<u8>, Seq<u8>)>::empty()));
        assert(Seq::<(Seq<u8>, Seq<u8>)>::empty() =~= qpairs);
    } else {
        let parts = qpairs.map_values(|p: (Seq<u8>, Seq<u8>)| render_qpair(p));
        let q = join(parts, AMP);
        assert(render_query(qpairs) == q);
        assert forall|m: int| 0 <= m < parts.len() implies absent(#[trigger] parts[m], AMP) by {
            assert(parts[m] == render_qpair(qpairs[m]));
            lemma_pe_absent(qpairs[m].0, AMP);
            lemma_pe_absent(qpairs[m].1, AMP);
            let pm = pe(qpairs[m].0) + seq![EQUALS] + pe(qpairs[m].1);
            assert forall|b: int| 0 <= b < pm.len() implies pm[b] != AMP by {
                if b < pe(qpairs[m].0).len() {
                    assert(pm[b] == pe(qpairs[m].0)[b]);
                } else if b == pe(qpairs[m].0).len() {
                    assert(pm[b] == EQUALS);
                } else {
                    assert(pm[b] == pe(qpairs[m].1)[b - pe(qpairs[m].0).len() - 1]);
                }
            }
        }
        crate::bytes::lemma_split_join(parts, AMP);
        assert(parts[0] == render_qpair(qpairs[0]));
        assert(parts[0].len() >= 1);
        assert(q.len() >= 1) by {
            if parts.len() == 1 {
                assert(q == parts[0]);
            } else {
                assert(q == parts[0] + seq![AMP] + join(parts.drop_first(), AMP));
            }
        }
        lemma_qparts_round(qpairs, 0);
        assert(qpairs.skip(0) =~= qpairs);
    }
}

/// Parsing inverts building for requests: for any well-formed schema and any
/// valid value with disjoint query-map keys, a successful build parses back
/// to the same value, field for field.
pub proof fn lemma_request_round_trip(
    s: EndpointSchema,
    v: Seq<Option<FieldValueV>>,
    base: Seq<u8>,
    token: Option<Seq<u8>>,
    w: WireReqV,
)
    requires
        wf_schema(s),
        valid_value(s.request@, v),
        query_map_disjoint(s.request@, v),
        spec_build_request(s, v, base, token) == Ok::<WireReqV, crate::errors::EncodingError>(w),
    ensures
        spec_parse_request(s, w) == Ok::<Seq<Option<FieldValueV>>, ParseErrorKind>(v),
{
    let fields = s.request@;
    let segs_t = split(s.metadata.path_template@, SLASH);
    let rendered = segs_t.map_values(|seg: Seq<u8>| render_seg(fields, v, seg));
    let qpairs = query_pairs_from(fields, v, 0);
    let hpairs = header_pairs_from(fields, v, 0);
    let auth_part: Seq<(Seq<u8>, Seq<u8>)> = if s.metadata.requires_authentication {
        seq![(auth_header_name(), bearer_prefix() + token.unwrap())]
    } else {
        Seq::empty()
    };
    assert(w.path == spec_path(s, v));
    assert(w.query == render_query(qpairs));
    assert(w.headers == auth_part + hpairs);
    assert(spec_body(fields, v) == Ok::<Seq<u8>, crate::errors::EncodingError>(w.body));

    // The wire path splits back into the rendered segments.
    crate::bytes::lemma_split_shape(s.metadata.path_template@, SLASH);
    assert forall|p: int| 0 <= p < rendered.len() implies absent(#[trigger] rendered[p], SLASH) by {
        assert(rendered[p] == render_seg(fields, v, segs_t[p]));
        if seg_is_placeholder(segs_t[p]) {
            match path_value_from(fields, v, segs_t[p].drop_first(), 0) {
                Some(t) => {
                    lemma_pe_absent(t, SLASH);
                },
                None => {},
            }
        } else {
            assert(absent(segs_t[p], SLASH));
        }
    }
    crate::bytes::lemma_split_join(rendered, SLASH);
    let segs_w = split(w.path, SLASH);
    assert(segs_w == rendered);

    // Every placeholder has a claiming field whose text renders it.
    assert forall|p: int|
        0 <= p < segs_t.len() && seg_is_placeholder(#[trigger] segs_t[p]) implies (
    path_value_from(fields, v, segs_t[p].drop_first(), 0) matches Some(t) && rendered[p] == pe(
        t,
    )) by {
        assert(placeholders_claimed(segs_t, fields));
        let i = choose|i: int|
            0 <= i < fields.len() && ((#[trigger] fields[i]).role matches FieldRole::PathSegment(n)
                && n@ == segs_t[p].drop_first());
        lemma_path_value_yes(fields, v, i, 0);
    }
    assert(literals_match(segs_t, segs_w));
    assert forall|p: int|
        0 <= p < segs_t.len() && seg_is_placeholder(#[trigger] segs_t[p]) implies pd(
        segs_w[p],
    ) is Some by {
        if seg_is_placeholder(segs_t[p]) {
            let t = path_value_from(fields, v, segs_t[p].drop_first(), 0).unwrap();
            lemma_pd_pe(t);
        }
    }
    assert(placeholders_decode(segs_t, segs_w));

    // The query string parses back to the raw pairs.
    lemma_query_round(qpairs);

    // The body phase yields the body members (or nothing).
    lemma_first_raw_finds(fields, 0);
    lemma_first_body_finds(fields, 0);
    let obj: Seq<(Seq<u8>, Seq<u8>)> = match spec_parse_body(fields, w.body) {
        Ok(o) => o,
        Err(_) => Seq::empty(),
    };
    assert(spec_parse_body(fields, w.body) == Ok::<Seq<(Seq<u8>, Seq<u8>)>, ParseErrorKind>(obj)
        && obj == body_field_pairs_from(fields, v, 0)) by {
        match first_raw_index(fields, 0) {
            Some(k) => {
                assert(body_roles_ok(fields));
                assert forall|jj: int|
                    0 <= jj < fields.len() && jj != k implies !((#[trigger] fields[jj]).role
                    is BodyField) by {
                    if fields[jj].role is BodyField {
                        if jj < k {
                            assert(!(fields[jj].role is BodyField && fields[k].role is BodyField));
                        } else {
                            assert(!(fields[k].role is BodyField && fields[jj].role is BodyField));
                        }
                        assert(false);
                    }
                }
                lemma_body_field_pairs_empty(fields, v, 0, k);
            },
            None => {
                match first_body_index(fields, 0) {
                    Some(k) => {
                        assert(match v[k] {
                            Some(FieldValueV::Json(d)) => crate::json::is_json(d) && w.body == d,
                            _ => false,
                        });
                        assert forall|jj: int|
                            0 <= jj < fields.len() && jj != k implies !((#[trigger] fields[jj]).role
                            is BodyField) by {
                            if fields[jj].role is BodyField {
                                if jj < k {
                                    assert(!(fields[jj].role is BodyField && fields[k].role
                                        is BodyField));
                                } else {
                                    assert(!(fields[k].role is BodyField && fields[jj].role
                                        is BodyField));
                                }
                                assert(false);
                            }
                        }
                        lemma_body_field_pairs_empty(fields, v, 0, k);
                    },
                    None => {
                        if has_body_fields(fields) {
                            let pairs = body_field_pairs_from(fields, v, 0);
                            assert(pairs_ok(pairs));
                            crate::json::lemma_parse_render(pairs);
                        } else {
                            lemma_body_field_pairs_none(fields, v, 0);
                        }
                    },
                }
            },
        }
    }

    // Each field's extraction fact.
    assert(extraction_context(fields, v, segs_t, segs_w, qpairs, obj, w.headers, w.body)) by {
        lemma_lower_auth_name();
        assert forall|i: int| 0 <= i < fields.len() implies match (#[trigger] fields[i]).role {
            FieldRole::PathSegment(n) => (placeholder_pos(segs_t, n@, 0) matches Some(p) && 0 <= p
                < segs_w.len() && pd(segs_w[p]) == match v[i] {
                Some(FieldValueV::Text(t)) => Some(t),
                _ => None::<Seq<u8>>,
            }),
            FieldRole::QueryParam => find_pair(qpairs, fields[i].name@) == (match v[i] {
                Some(FieldValueV::Text(t)) => Some(t),
                _ => None::<Seq<u8>>,
            }),
            FieldRole::QueryMap => (match v[i] {
                Some(FieldValueV::Pairs(ps)) => unclaimed(fields, qpairs) == ps,
                _ => false,
            }),
            FieldRole::Header(n) => find_header(w.headers, lower(n@)) == (match v[i] {
                Some(FieldValueV::Text(t)) => Some(t),
                _ => None::<Seq<u8>>,
            }),
            FieldRole::Body => v[i] == Some(FieldValueV::Json(w.body)),
            FieldRole::BodyField(n) => find_pair(obj, n@) == (match v[i] {
                Some(FieldValueV::Text(t)) => Some(t),
                _ => None::<Seq<u8>>,
            }),
            FieldRole::RawBody => v[i] == Some(FieldValueV::Bytes(w.body)),
        } by {
            match fields[i].role {
                FieldRole::PathSegment(n) => {
                    assert(fields_claim_placeholders(segs_t, fields));
                    let p = choose|p: int|
                        0 <= p < segs_t.len() && seg_is_placeholder(#[trigger] segs_t[p])
                            && segs_t[p].drop_first() == n@;
                    if placeholder_pos(segs_t, n@, 0) is None {
                        lemma_placeholder_pos_none(segs_t, n@, 0);
                        assert(false);
                    }
                    lemma_placeholder_pos_finds(segs_t, n@, 0);
                    let q = placeholder_pos(segs_t, n@, 0).unwrap();
                    lemma_path_value_yes(fields, v, i, 0);
                    let t = v[i]->Some_0->Text_0;
                    assert(path_value_from(fields, v, n@, 0) == Some(t));
                    assert(rendered[q] == render_seg(fields, v, segs_t[q]));
                    assert(segs_w[q] == pe(t));
                    lemma_pd_pe(t);
                },
                FieldRole::QueryParam => {
                    lemma_qpairs_yes(fields, v, i, 0);
                },
                FieldRole::QueryMap => {
                    assert(fields[i].required);
                    lemma_unclaimed_qpairs(fields, v, 0);
                    lemma_map_pairs_single(fields, v, i, 0);
                },
                FieldRole::Header(n) => {
                    assert(no_reserved_header(fields));
                    assert(lower(n@) != auth_header_name());
                    if s.metadata.requires_authentication {
                        assert(forall|m: int|
                            0 <= m < auth_part.len() ==> lower((#[trigger] auth_part[m]).0)
                                != lower(n@));
                    }
                    lemma_find_header_prepend(auth_part, hpairs, lower(n@));
                    lemma_headers_yes(fields, v, i, 0);
                },
                FieldRole::Body => {
                    let k = first_body_index(fields, 0).unwrap();
                    if k != i {
                        assert(!(fields[k].role is BodyField && fields[i].role is BodyField));
                        assert(false);
                    }
                },
                FieldRole::BodyField(n) => {
                    lemma_body_fields_yes(fields, v, i, 0);
                },
                FieldRole::RawBody => {
                    let k = first_raw_index(fields, 0).unwrap();
                    if k != i {
                        assert(false);
                    }
                },
            }
        }
    }
    lemma_extract_from_context(fields, v, segs_t, segs_w, qpairs, obj, w.headers, w.body, 0);
    assert(v.skip(0) =~= v);
}

proof fn lemma_body_field_pairs_empty(
    fields: Seq<FieldDef>,
    v: Seq<Option<FieldValueV>>,
    j: int,
    k: int,
)
    requires
        0 <= j <= fields.len(),
        0 <= k < fields.len(),
        forall|jj: int|
            0 <= jj < fields.len() && jj != k ==> !((#[trigger] fields[jj]).role is BodyField),
        !(fields[k].role is BodyField),
    ensures
        body_field_pairs_from(fields, v, j) == Seq::<(Seq<u8>, Seq<u8>)>::empty(),
    decreases fields.len() - j,
{
    if j == fields.len() {
    } else {
        lemma_body_field_pairs_empty(fields, v, j + 1, k);
    }
}

proof fn lemma_body_field_pairs_none(fields: Seq<FieldDef>, v: Seq<Option<FieldValueV>>, j: int)
    requires
        0 <= j <= fields.len(),
        !has_body_fields(fields),
    ensures
        body_field_pairs_from(fields, v, j) == Seq::<(Seq<u8>, Seq<u8>)>::empty(),
    decreases fields.len() - j,
{
    if j == fields.len() {
    } else {
        if fields[j].role is BodyField {
            assert(has_body_fields(fields));
        }
        lemma_body_field_pairs_none(fields, v, j + 1);
    }
}

/// Parsing inverts building for responses: a successfully built response for
/// a valid value decodes back to the same value.
pub proof fn lemma_response_round_trip(
    s: EndpointSchema,
    v: Seq<Option<FieldValueV>>,
    w: WireRespV,
)
    requires
        wf_schema(s),
        valid_value(s.response@, v),
        spec_build_response(s, v) == Ok::<WireRespV, crate::errors::EncodingError>(w),
    ensures
        spec_parse_response(s, w) == RespOutcomeV::Success(v),
{
    let fields = s.response@;
    assert(w.status == 200);
    assert(w.headers == header_pairs_from(fields, v, 0));
    assert(spec_body(fields, v) == Ok::<Seq<u8>, crate::errors::EncodingError>(w.body));
    lemma_first_raw_finds(fields, 0);
    lemma_first_body_finds(fields, 0);
    let obj: Seq<(Seq<u8>, Seq<u8>)> = match spec_parse_body(fields, w.body) {
        Ok(o) => o,
        Err(_) => Seq::empty(),
    };
    assert(spec_parse_body(fields, w.body) == Ok::<Seq<(Seq<u8>, Seq<u8>)>, ParseErrorKind>(obj)
        && obj == body_field_pairs_from(fields, v, 0)) by {
        match first_raw_index(fields, 0) {
            Some(k) => {
                assert forall|jj: int|
                    0 <= jj < fields.len() && jj != k implies !((#[trigger] fields[jj]).role
                    is BodyField) by {
                    if fields[jj].role is BodyField {
                        if jj < k {
                            assert(!(fields[jj].role is BodyField && fields[k].role is BodyField));
                        } else {
                            assert(!(fields[k].role is BodyField && fields[jj].role is BodyField));
                        }
                        assert(false);
                    }
                }
                lemma_body_field_pairs_empty(fields, v, 0, k);
            },
            None => {
                match first_body_index(fields, 0) {
                    Some(k) => {
                        assert(match v[k] {
                            Some(FieldValueV::Json(d)) => crate::json::is_json(d) && w.body == d,
                            _ => false,
                        });
                        assert forall|jj: int|
                            0 <= jj < fields.len() && jj != k implies !((#[trigger] fields[jj]).role
                            is BodyField) by {
                            if fields[jj].role is BodyField {
                                if jj < k {
                                    assert(!(fields[jj].role is BodyField && fields[k].role
                                        is BodyField));
                                } else {
                                    assert(!(fields[k].role is BodyField && fields[jj].role
                                        is BodyField));
                                }
                                assert(false);
                            }
                        }
                        lemma_body_field_pairs_empty(fields, v, 0, k);
                    },
                    None => {
                        if has_body_fields(fields) {
                            let pairs = body_field_pairs_from(fields, v, 0);
                            assert(pairs_ok(pairs));
                            crate::json::lemma_parse_render(pairs);
                        } else {
                            lemma_body_field_pairs_none(fields, v, 0);
                        }
                    },
                }
            },
        }
    }
    let nothing: Seq<Seq<u8>> = Seq::empty();
    let nopairs: Seq<(Seq<u8>, Seq<u8>)> = Seq::empty();
    assert(extraction_context(fields, v, nothing, nothing, nopairs, obj, w.headers, w.body)) by {
        assert forall|i: int| 0 <= i < fields.len() implies match (#[trigger] fields[i]).role {
            FieldRole::PathSegment(n) => (placeholder_pos(nothing, n@, 0) matches Some(p) && 0 <= p
                < nothing.len() && pd(nothing[p]) == match v[i] {
                Some(FieldValueV::Text(t)) => Some(t),
                _ => None::<Seq<u8>>,
            }),
            FieldRole::QueryParam => find_pair(nopairs, fields[i].name@) == (match v[i] {
                Some(FieldValueV::Text(t)) => Some(t),
                _ => None::<Seq<u8>>,
            }),
            FieldRole::QueryMap => (match v[i] {
                Some(FieldValueV::Pairs(ps)) => unclaimed(fields, nopairs) == ps,
                _ => false,
            }),
            FieldRole::Header(n) => find_header(w.headers, lower(n@)) == (match v[i] {
                Some(FieldValueV::Text(t)) => Some(t),
                _ => None::<Seq<u8>>,
            }),
            FieldRole::Body => v[i] == Some(FieldValueV::Json(w.body)),
            FieldRole::BodyField(n) => find_pair(obj, n@) == (match v[i] {
                Some(FieldValueV::Text(t)) => Some(t),
                _ => None::<Seq<u8>>,
            }),
            FieldRole::RawBody => v[i] == Some(FieldValueV::Bytes(w.body)),
        } by {
            assert(wf_response_roles(fields));
            match fields[i].role {
                FieldRole::Header(n) => {
                    lemma_headers_yes(fields, v, i, 0);
                },
                FieldRole::Body => {
                    let k = first_body_index(fields, 0).unwrap();
                    if k != i {
                        assert(!(fields[k].role is BodyField && fields[i].role is BodyField));
                        assert(false);
                    }
                },
                FieldRole::BodyField(n) => {
                    lemma_body_fields_yes(fields, v, i, 0);
                },
                FieldRole::RawBody => {
                    let k = first_raw_index(fields, 0).unwrap();
                    if k != i {
                        assert(false);
                    }
                },
                _ => {
                    assert(false);
                },
            }
        }
    }
    lemma_extract_from_context(fields, v, nothing, nothing, nopairs, obj, w.headers, w.body, 0);
    assert(v.skip(0) =~= v);
}

proof fn lemma_header_pairs_names(fields: Seq<FieldDef>, v: Seq<Option<FieldValueV>>, j: int)
    requires
        0 <= j <= fields.len(),
        no_reserved_header(fields),
    ensures
        forall|m: int|
            0 <= m < header_pairs_from(fields, v, j).len() ==> lower(
                (#[trigger] header_pairs_from(fields, v, j)[m]).0,
            ) != auth_header_name(),
    decreases fields.len() - j,
{
    if j == fields.len() {
    } else {
        lemma_header_pairs_names(fields, v, j + 1);
        let rest = header_pairs_from(fields, v, j + 1);
        match fields[j].role {
            FieldRole::Header(n) => {
                match v[j] {
                    Some(FieldValueV::Text(t)) => {
                        assert forall|m: int|
                            0 <= m < (seq![(n@, t)] + rest).len() implies lower(
                            (#[trigger] (seq![(n@, t)] + rest)[m]).0,
                        ) != auth_header_name() by {
                            if m == 0 {
                                assert((seq![(n@, t)] + rest)[0] == (n@, t));
                            } else {
                                assert((seq![(n@, t)] + rest)[m] == rest[m - 1]);
                            }
                        }
                    },
                    _ => {},
                }
            },
            _ => {},
        }
    }
}

/// A build fails only for a missing credential, forbidden header content, or
/// a body that does not encode: wherever none of the three holds, success is
/// owed.
pub proof fn lemma_build_succeeds(
    s: EndpointSchema,
    v: Seq<Option<FieldValueV>>,
    base: Seq<u8>,
    token: Option<Seq<u8>>,
)
    requires
        s.metadata.requires_authentication ==> token is Some && crate::builder::header_value_ok(
            token.unwrap(),
        ),
        crate::builder::headers_ok(header_pairs_from(s.request@, v, 0)),
        spec_body(s.request@, v) is Ok,
    ensures
        spec_build_request(s, v, base, token) is Ok,
{
}

/// An endpoint that requires authentication refuses to build a request
/// without a credential, whatever the value holds.
pub proof fn lemma_auth_enforced(
    s: EndpointSchema,
    v: Seq<Option<FieldValueV>>,
    base: Seq<u8>,
)
    requires
        s.metadata.requires_authentication,
    ensures
        spec_build_request(s, v, base, None) == Err::<WireReqV, crate::errors::EncodingError>(
            crate::errors::EncodingError::AuthRequired,
        ),
{
}

/// An endpoint that does not require authentication never emits the
/// credential header, whatever token the caller supplies.
pub proof fn lemma_no_credential_unless_required(
    s: EndpointSchema,
    v: Seq<Option<FieldValueV>>,
    base: Seq<u8>,
    token: Option<Seq<u8>>,
    w: WireReqV,
)
    requires
        wf_schema(s),
        !s.metadata.requires_authentication,
        spec_build_request(s, v, base, token) == Ok::<WireReqV, crate::errors::EncodingError>(w),
    ensures
        forall|m: int|
            0 <= m < w.headers.len() ==> lower((#[trigger] w.headers[m]).0) != auth_header_name(),
{
    let hpairs = header_pairs_from(s.request@, v, 0);
    assert(w.headers == Seq::<(Seq<u8>, Seq<u8>)>::empty() + hpairs);
    assert(w.headers =~= hpairs);
    lemma_header_pairs_names(s.request@, v, 0);
}

} // verus!
