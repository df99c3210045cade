//! The structured body document: a flat object of text members, written as
//! `{"key":"value",...}`.  Building and parsing are exact inverses for member
//! texts drawn from the quote-free text alphabet.  Whole-document bodies are
//! opaque byte sequences whose well-formedness is checked through the JSON
//! parser of an outside crate.

use vstd::prelude::*;
use crate::bytes::{join, COLON, COMMA, LBRACE, QUOTE, RBRACE};

verus! {

/// Text that may stand between quotes without escaping: no control bytes, no
/// quote, no backslash.
pub open spec fn text_ok(s: Seq<u8>) -> bool {
    forall|j: int|
        0 <= j < s.len() ==> s[j] >= 0x20 && s[j] != QUOTE && s[j] != crate::bytes::BACKSLASH
}

/// Runtime check for [`text_ok`].
pub fn text_ok_exec(s: &Vec<u8>) -> (r: bool)
    ensures
        r == text_ok(s@),
{
    let mut i: usize = 0;
    while i < s.len()
        invariant
            i <= s.len(),
            forall|j: int|
                0 <= j < i ==> s@[j] >= 0x20 && s@[j] != QUOTE && s@[j] != crate::bytes::BACKSLASH,
        decreases s.len() - i,
    {
        let b = s[i];
        if b < 0x20 || b == QUOTE || b == crate::bytes::BACKSLASH {
            return false;
        }
        i += 1;
    }
    true
}

/// Scans a quoted string's content after its opening quote: the content up to
/// the closing quote, and what follows that quote.
pub open spec fn scan_str(s: Seq<u8>) -> Option<(Seq<u8>, Seq<u8>)>
    decreases s.len(),
{
    if s.len() == 0 {
        None
    } else if s[0] == QUOTE {
        Some((Seq::<u8>::empty(), s.drop_first()))
    } else if s[0] >= 0x20 && s[0] != crate::bytes::BACKSLASH {
        match scan_str(s.drop_first()) {
            Some((t, r)) => Some((seq![s[0]] + t, r)),
            None => None,
        }
    } else {
        None
    }
}

/// Scans one `"key":"value"` member; yields the pair and what follows it.
pub open spec fn scan_member(s: Seq<u8>) -> Option<((Seq<u8>, Seq<u8>), Seq<u8>)> {
    if s.len() >= 1 && s[0] == QUOTE {
        match scan_str(s.drop_first()) {
            Some((k, r1)) => if r1.len() >= 2 && r1[0] == COLON && r1[1] == QUOTE {
                match scan_str(r1.skip(2)) {
                    Some((v, r2)) => Some(((k, v), r2)),
                    None => None,
                }
            } else {
                None
            },
            None => None,
        }
    } else {
        None
    }
}

/// Scans a comma-separated run of members.
pub open spec fn scan_members(s: Seq<u8>) -> Option<(Seq<(Seq<u8>, Seq<u8>)>, Seq<u8>)>
    decreases s.len(),
{
    match scan_member(s) {
        Some((p, r)) => if r.len() >= 1 && r[0] == COMMA && r.len() < s.len() {
            match scan_members(r.drop_first()) {
                Some((ps, r2)) => Some((seq![p] + ps, r2)),
                None => None,
            }
        } else if r.len() >= 1 && r[0] == COMMA {
            None
        } else {
            Some((seq![p], r))
        },
        None => None,
    }
}

/// Parses a whole flat object document into its ordered members.
pub open spec fn parse_obj(s: Seq<u8>) -> Option<Seq<(Seq<u8>, Seq<u8>)>> {
    if s.len() == 2 && s[0] == LBRACE && s[1] == RBRACE {
        Some(Seq::<(Seq<u8>, Seq<u8>)>::empty())
    } else if s.len() >= 1 && s[0] == LBRACE {
        match scan_members(s.drop_first()) {
            Some((ps, r)) => if r.len() == 1 && r[0] == RBRACE {
                Some(ps)
            } else {
                None
            },
            None => None,
        }
    } else {
        None
    }
}

/// One rendered `"key":"value"` member.
pub open spec fn render_member(k: Seq<u8>, v: Seq<u8>) -> Seq<u8> {
    seq![QUOTE] + k + seq![QUOTE, COLON, QUOTE] + v + seq![QUOTE]
}

/// The rendered members of an object, comma-joined, without the braces.
pub open spec fn render_members(pairs: Seq<(Seq<u8>, Seq<u8>)>) -> Seq<u8> {
    join(pairs.map_values(|p: (Seq<u8>, Seq<u8>)| render_member(p.0, p.1)), COMMA)
}

/// The whole rendered flat object document.
pub open spec fn render_obj(pairs: Seq<(Seq<u8>, Seq<u8>)>) -> Seq<u8> {
    seq![LBRACE] + (if pairs.len() == 0 {
        Seq::<u8>::empty()
    } else {
        render_members(pairs)
    }) + seq![RBRACE]
}

/// Every member text of `pairs` is in the quote-free alphabet.
pub open spec fn pairs_ok(pairs: Seq<(Seq<u8>, Seq<u8>)>) -> bool {
    forall|k: int| 0 <= k < pairs.len() ==> text_ok(#[trigger] pairs[k].0) && text_ok(pairs[k].1)
}

/// A successful string scan consumes at least the closing quote.
pub proof fn lemma_scan_str_shrink(s: Seq<u8>)
    ensures
        scan_str(s) matches Some(tr) ==> tr.1.len() < s.len(),
    decreases s.len(),
{
    if s.len() == 0 {
    } else if s[0] == QUOTE {
    } else if s[0] >= 0x20 && s[0] != crate::bytes::BACKSLASH {
        lemma_scan_str_shrink(s.drop_first());
    }
}

/// A successful member scan strictly consumes input.
pub proof fn lemma_scan_member_shrink(s: Seq<u8>)
    ensures
        scan_member(s) matches Some(pr) ==> pr.1.len() < s.len(),
{
    if s.len() >= 1 && s[0] == QUOTE {
        lemma_scan_str_shrink(s.drop_first());
        if scan_str(s.drop_first()) is Some {
            let r1 = scan_str(s.drop_first()).unwrap().1;
            if r1.len() >= 2 && r1[0] == COLON && r1[1] == QUOTE {
                lemma_scan_str_shrink(r1.skip(2));
            }
        }
    }
}

/// Scanning recovers a quote-free text placed before a closing quote.
pub proof fn lemma_scan_str_text(v: Seq<u8>, rest: Seq<u8>)
    requires
        text_ok(v),
    ensures
        scan_str(v + seq![QUOTE] + rest) == Some((v, rest)),
    decreases v.len(),
{
    let s = v + seq![QUOTE] + rest;
    if v.len() == 0 {
        assert(s[0] == QUOTE);
        assert(s.drop_first() =~= rest);
        assert(scan_str(s) == Some((Seq::<u8>::empty(), rest)));
        assert(Seq::<u8>::empty() =~= v);
    } else {
        assert(s[0] == v[0]);
        assert(v[0] != QUOTE && v[0] >= 0x20 && v[0] != crate::bytes::BACKSLASH);
        assert(text_ok(v.drop_first()));
        lemma_scan_str_text(v.drop_first(), rest);
        assert(s.drop_first() =~= v.drop_first() + seq![QUOTE] + rest);
        assert(scan_str(s) == Some((seq![v[0]] + v.drop_first(), rest)));
        assert(seq![v[0]] + v.drop_first() =~= v);
    }
}

/// Scanning recovers one rendered member placed before arbitrary input.
pub proof fn lemma_scan_member_render(k: Seq<u8>, v: Seq<u8>, rest: Seq<u8>)
    requires
        text_ok(k),
        text_ok(v),
    ensures
        scan_member(render_member(k, v) + rest) == Some(((k, v), rest)),
{
    let s = render_member(k, v) + rest;
    assert(s.len() >= 1);
    assert(s[0] == QUOTE);
    let after_k = seq![QUOTE, COLON, QUOTE] + v + seq![QUOTE] + rest;
    assert(s.drop_first() =~= k + seq![QUOTE] + (seq![COLON, QUOTE] + v + seq![QUOTE] + rest));
    lemma_scan_str_text(k, seq![COLON, QUOTE] + v + seq![QUOTE] + rest);
    let r1 = seq![COLON, QUOTE] + v + seq![QUOTE] + rest;
    assert(scan_str(s.drop_first()) == Some((k, r1)));
    assert(r1.len() >= 2);
    assert(r1[0] == COLON);
    assert(r1[1] == QUOTE);
    assert(r1.skip(2) =~= v + seq![QUOTE] + rest);
    lemma_scan_str_text(v, rest);
    assert(scan_member(s) == Some(((k, v), rest)));
}

/// Scanning recovers a nonempty run of rendered members placed before input
/// that does not begin with a comma.
pub proof fn lemma_scan_members_render(pairs: Seq<(Seq<u8>, Seq<u8>)>, rest: Seq<u8>)
    requires
        pairs.len() >= 1,
        pairs_ok(pairs),
        rest.len() == 0 || rest[0] != COMMA,
    ensures
        scan_members(render_members(pairs) + rest) == Some((pairs, rest)),
    decreases pairs.len(),
{
    let rendered = pairs.map_values(|p: (Seq<u8>, Seq<u8>)| render_member(p.0, p.1));
    let s = render_members(pairs) + rest;
    if pairs.len() == 1 {
        assert(rendered.len() == 1);
        assert(join(rendered, COMMA) == rendered[0]);
        assert(rendered[0] == render_member(pairs[0].0, pairs[0].1));
        lemma_scan_member_render(pairs[0].0, pairs[0].1, rest);
        assert(scan_member(s) == Some(((pairs[0].0, pairs[0].1), rest)));
        assert((pairs[0].0, pairs[0].1) == pairs[0]);
        if rest.len() >= 1 && rest[0] == COMMA {
            assert(false);
        }
        assert(scan_members(s) == Some((seq![pairs[0]], rest)));
        assert(seq![pairs[0]] =~= pairs);
    } else {
        assert(rendered.len() == pairs.len());
        assert(join(rendered, COMMA) == rendered[0] + seq![COMMA] + join(
            rendered.drop_first(),
            COMMA,
        ));
        assert(rendered.drop_first() =~= pairs.drop_first().map_values(
            |p: (Seq<u8>, Seq<u8>)| render_member(p.0, p.1),
        ));
        assert(pairs_ok(pairs.drop_first()));
        lemma_scan_members_render(pairs.drop_first(), rest);
        let tail = render_members(pairs.drop_first()) + rest;
        assert(s =~= render_member(pairs[0].0, pairs[0].1) + (seq![COMMA] + tail));
        lemma_scan_member_render(pairs[0].0, pairs[0].1, seq![COMMA] + tail);
        assert(scan_member(s) == Some(((pairs[0].0, pairs[0].1), seq![COMMA] + tail)));
        let r = seq![COMMA] + tail;
        assert(r[0] == COMMA);
        assert(s.len() == render_member(pairs[0].0, pairs[0].1).len() + r.len());
        assert(render_member(pairs[0].0, pairs[0].1).len() >= 5);
        assert(r.len() < s.len());
        assert(r.drop_first() =~= tail);
        assert(scan_members(r.drop_first()) == Some((pairs.drop_first(), rest)));
        assert((pairs[0].0, pairs[0].1) == pairs[0]);
        assert(scan_members(s) == Some((seq![pairs[0]] + pairs.drop_first(), rest)));
        assert(seq![pairs[0]] + pairs.drop_first() =~= pairs);
    }
}

/// Parsing inverts rendering: the flat object round-trips exactly.
pub proof fn lemma_parse_render(pairs: Seq<(Seq<u8>, Seq<u8>)>)
    requires
        pairs_ok(pairs),
    ensures
        parse_obj(render_obj(pairs)) == Some(pairs),
{
    let s = render_obj(pairs);
    if pairs.len() == 0 {
        assert(s =~= seq![LBRACE, RBRACE]);
        assert(parse_obj(s) == Some(Seq::<(Seq<u8>, Seq<u8>)>::empty()));
        assert(Seq::<(Seq<u8>, Seq<u8>)>::empty() =~= pairs);
    } else {
        lemma_scan_members_render(pairs, seq![RBRACE]);
        let rendered = pairs.map_values(|p: (Seq<u8>, Seq<u8>)| render_member(p.0, p.1));
        assert(render_members(pairs).len() >= 5) by {
            if pairs.len() == 1 {
                assert(join(rendered, COMMA) == rendered[0]);
                assert(rendered[0] == render_member(pairs[0].0, pairs[0].1));
            } else {
                assert(join(rendered, COMMA) == rendered[0] + seq![COMMA] + join(
                    rendered.drop_first(),
                    COMMA,
                ));
                assert(rendered[0] == render_member(pairs[0].0, pairs[0].1));
            }
        }
        assert(s.len() >= 7);
        assert(s[0] == LBRACE);
        assert(s.drop_first() =~= render_members(pairs) + seq![RBRACE]);
        assert(scan_members(s.drop_first()) == Some((pairs, seq![RBRACE])));
        assert(seq![RBRACE].len() == 1 && seq![RBRACE][0] == RBRACE);
        assert(parse_obj(s) == Some(pairs));
    }
}

/// The view of a vector of byte-vector pairs.
pub open spec fn pairs_of(ps: Seq<(Vec<u8>, Vec<u8>)>) -> Seq<(Seq<u8>, Seq<u8>)> {
    ps.map_values(|p: (Vec<u8>, Vec<u8>)| (p.0@, p.1@))
}

/// Runtime string scan from position `i` (just after an opening quote).
fn scan_str_exec(s: &Vec<u8>, start: usize) -> (r: Option<(Vec<u8>, usize)>)
    requires
        start <= s.len(),
    ensures
        match r {
            Some(tj) => start < tj.1 <= s.len() && scan_str(s@.skip(start as int)) == Some(
                (tj.0@, s@.skip(tj.1 as int)),
            ),
            None => scan_str(s@.skip(start as int)) is None,
        },
{
    let mut out: Vec<u8> = Vec::new();
    let mut i: usize = start;
    loop
        invariant
            start <= i <= s.len(),
            (scan_str(s@.skip(start as int)) is Some <==> scan_str(s@.skip(i as int)) is Some),
            scan_str(s@.skip(i as int)) matches Some(tr) ==> scan_str(s@.skip(start as int))
                == Some((out@ + tr.0, tr.1)),
        decreases s.len() - i,
    {
        if i == s.len() {
            proof {
                assert(s@.skip(i as int) =~= Seq::<u8>::empty());
            }
            return None;
        }
        let b = s[i];
        proof {
            assert(s@.skip(i as int)[0] == s@[i as int]);
            assert(s@.skip(i as int).drop_first() =~= s@.skip(i + 1));
        }
        if b == QUOTE {
            proof {
                assert(scan_str(s@.skip(i as int)) == Some(
                    (Seq::<u8>::empty(), s@.skip(i + 1)),
                ));
                assert(out@ + Seq::<u8>::empty() =~= out@);
            }
            return Some((out, i + 1));
        } else if b >= 0x20 && b != crate::bytes::BACKSLASH {
            proof {
                lemma_scan_str_shrink(s@.skip(i + 1));
                if scan_str(s@.skip(i + 1)) is Some {
                    let tr = scan_str(s@.skip(i + 1)).unwrap();
                    assert(scan_str(s@.skip(i as int)) == Some((seq![s@[i as int]] + tr.0, tr.1)));
                    assert(out@ + (seq![s@[i as int]] + tr.0) =~= (out@ + seq![s@[i as int]])
                        + tr.0);
                }
            }
            out.push(b);
            i += 1;
        } else {
            return None;
        }
    }
}

/// Runtime member scan from position `i`.
fn scan_member_exec(s: &Vec<u8>, start: usize) -> (r: Option<((Vec<u8>, Vec<u8>), usize)>)
    requires
        start <= s.len(),
    ensures
        match r {
            Some(pj) => start < pj.1 <= s.len() && scan_member(s@.skip(start as int)) == Some(
                ((pj.0.0@, pj.0.1@), s@.skip(pj.1 as int)),
            ),
            None => scan_member(s@.skip(start as int)) is None,
        },
{
    proof {
        if s@.skip(start as int).len() >= 1 {
            assert(s@.skip(start as int)[0] == s@[start as int]);
        }
    }
    if start == s.len() || s[start] != QUOTE {
        return None;
    }
    proof {
        assert(s@.skip(start as int).drop_first() =~= s@.skip(start + 1));
    }
    let k = match scan_str_exec(s, start + 1) {
        Some(kj) => kj,
        None => {
            return None;
        },
    };
    let j1 = k.1;
    proof {
        let r1 = s@.skip(j1 as int);
        if r1.len() >= 2 {
            assert(r1[0] == s@[j1 as int]);
            assert(r1[1] == s@[j1 + 1]);
        }
    }
    if s.len() - j1 < 2 || s[j1] != COLON || s[j1 + 1] != QUOTE {
        return None;
    }
    proof {
        assert(s@.skip(j1 as int).skip(2) =~= s@.skip(j1 + 2));
    }
    match scan_str_exec(s, j1 + 2) {
        Some(vj) => Some(((k.0, vj.0), vj.1)),
        None => None,
    }
}

/// Runtime parse of a flat object document into its ordered members.
pub fn parse_object(body: &Vec<u8>) -> (r: Option<Vec<(Vec<u8>, Vec<u8>)>>)
    ensures
        match r {
            Some(ps) => parse_obj(body@) == Some(pairs_of(ps@)),
            None => parse_obj(body@) is None,
        },
{
    if body.len() == 2 && body[0] == LBRACE && body[1] == RBRACE {
        proof {
            assert(pairs_of(Seq::<(Vec<u8>, Vec<u8>)>::empty()) =~= Seq::<(
                Seq<u8>,
                Seq<u8>,
            )>::empty());
        }
        return Some(Vec::new());
    }
    if body.len() == 0 || body[0] != LBRACE {
        return None;
    }
    proof {
        assert(body@[0] == LBRACE);
        assert(body@.skip(1) =~= body@.drop_first());
    }
    let mut acc: Vec<(Vec<u8>, Vec<u8>)> = Vec::new();
    let mut i: usize = 1;
    loop
        invariant
            1 <= i <= body@.len(),
            body@.len() >= 1,
            body@[0] == LBRACE,
            !(body@.len() == 2 && body@[1] == RBRACE),
            (scan_members(body@.drop_first()) is Some <==> scan_members(body@.skip(i as int))
                is Some),
            scan_members(body@.skip(i as int)) matches Some(pr) ==> scan_members(
                body@.drop_first(),
            ) == Some((pairs_of(acc@) + pr.0, pr.1)),
        decreases body@.len() - i,
    {
        let m = match scan_member_exec(body, i) {
            Some(m) => m,
            None => {
                proof {
                    assert(scan_members(body@.skip(i as int)) is None);
                    assert(scan_members(body@.drop_first()) is None);
                    assert(parse_obj(body@) is None);
                }
                return None;
            },
        };
        let j = m.1;
        proof {
            lemma_scan_member_shrink(body@.skip(i as int));
            let r = body@.skip(j as int);
            if r.len() >= 1 {
                assert(r[0] == body@[j as int]);
            }
            assert(r.len() < body@.skip(i as int).len());
        }
        if j < body.len() && body[j] == COMMA {
            proof {
                let r = body@.skip(j as int);
                assert(r.drop_first() =~= body@.skip(j + 1));
                let pv = ((m.0).0@, (m.0).1@);
                if scan_members(body@.skip(j + 1)) is Some {
                    let pr = scan_members(body@.skip(j + 1)).unwrap();
                    assert(scan_members(body@.skip(i as int)) == Some((seq![pv] + pr.0, pr.1)));
                    assert(pairs_of(acc@.push(m.0)) =~= pairs_of(acc@) + seq![pv]);
                    assert((pairs_of(acc@) + seq![pv]) + pr.0 =~= pairs_of(acc@) + (seq![pv]
                        + pr.0));
                } else {
                    assert(scan_members(body@.skip(i as int)) is None);
                }
            }
            acc.push(m.0);
            i = j + 1;
        } else {
            let ghost pv = ((m.0).0@, (m.0).1@);
            let ghost accv = pairs_of(acc@) + seq![pv];
            let ghost rv = body@.skip(j as int);
            proof {
                assert(!(rv.len() >= 1 && rv[0] == COMMA));
                assert(scan_members(body@.skip(i as int)) == Some((seq![pv], rv)));
                assert(scan_members(body@.drop_first()) == Some((accv, rv)));
                assert(pairs_of(acc@.push(m.0)) =~= accv);
            }
            acc.push(m.0);
            if j == body.len() - 1 && body[j] == RBRACE {
                proof {
                    assert(rv.len() == 1 && rv[0] == RBRACE);
                    assert(parse_obj(body@) == Some(accv));
                    assert(pairs_of(acc@) == accv);
                }
                return Some(acc);
            } else {
                proof {
                    assert(!(rv.len() == 1 && rv[0] == RBRACE)) by {
                        if j == body@.len() - 1 {
                            assert(body@[j as int] != RBRACE);
                        } else {
                            assert(rv.len() != 1);
                        }
                    }
                    assert(parse_obj(body@) is None);
                }
                return None;
            }
        }
    }
}

/// Runtime rendering of a flat object document.
pub fn render_object(pairs: &Vec<(Vec<u8>, Vec<u8>)>) -> (r: Vec<u8>)
    ensures
        r@ == render_obj(pairs_of(pairs@)),
{
    let mut out: Vec<u8> = Vec::new();
    out.push(LBRACE);
    let mut i: usize = 0;
    while i < pairs.len()
        invariant
            i <= pairs.len(),
            i == 0 ==> out@ == seq![LBRACE],
            i >= 1 ==> out@ == seq![LBRACE] + render_members(pairs_of(pairs@.take(i as int))),
        decreases pairs.len() - i,
    {
        proof {
            let prev = pairs_of(pairs@.take(i as int)).map_values(
                |p: (Seq<u8>, Seq<u8>)| render_member(p.0, p.1),
            );
            let now = pairs_of(pairs@.take(i + 1)).map_values(
                |p: (Seq<u8>, Seq<u8>)| render_member(p.0, p.1),
            );
            assert(now =~= prev.push(render_member(pairs@[i as int].0@, pairs@[i as int].1@)));
            crate::bytes::lemma_join_push(
                prev,
                render_member(pairs@[i as int].0@, pairs@[i as int].1@),
                COMMA,
            );
        }
        if i > 0 {
            out.push(COMMA);
        }
        out.push(QUOTE);
        crate::bytes::append_bytes(&mut out, &pairs[i].0);
        out.push(QUOTE);
        out.push(COLON);
        out.push(QUOTE);
        crate::bytes::append_bytes(&mut out, &pairs[i].1);
        out.push(QUOTE);
        proof {
            assert(out@ =~= seq![LBRACE] + render_members(pairs_of(pairs@.take(i + 1))));
        }
        i += 1;
    }
    out.push(RBRACE);
    proof {
        assert(pairs@.take(pairs@.len() as int) =~= pairs@);
        if pairs@.len() == 0 {
            assert(out@ =~= render_obj(pairs_of(pairs@)));
        } else {
            assert(out@ =~= render_obj(pairs_of(pairs@)));
        }
    }
    out
}

/// Whether a byte sequence is one well-formed JSON document.  The meaning is
/// fixed by the outside JSON parser; nothing further is assumed of it.
pub uninterp spec fn is_json(b: Seq<u8>) -> bool;

/// Relies on `serde_json::from_slice`: the bytes parse as exactly one JSON
/// document, a property of the bytes alone.
#[verifier::external_body]
pub fn json_well_formed(b: &Vec<u8>) -> (r: bool)
    ensures
        r == is_json(b@),
{
    serde_json::from_slice::<serde_json::Value>(b.as_slice()).is_ok()
}

} // verus!
