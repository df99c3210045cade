//! Byte-level vocabulary of the wire grammar: the delimiter constants, ASCII
//! classification, and splitting/joining of byte sequences on a separator,
//! with the inversion lemmas that the codec's round-trip proofs rest on.

use vstd::prelude::*;

verus! {

/// `/`, the path-segment separator.
pub const SLASH: u8 = 0x2F;

/// `?`, separates a path from its query string.
pub const QMARK: u8 = 0x3F;

/// `&`, separates query pairs.
pub const AMP: u8 = 0x26;

/// `=`, separates a query key from its value.
pub const EQUALS: u8 = 0x3D;

/// `%`, starts a percent-escape.
pub const PCT: u8 = 0x25;

/// `:`, marks a placeholder segment in a path template.
pub const COLON: u8 = 0x3A;

/// `"`, delimits a string of the structured body document.
pub const QUOTE: u8 = 0x22;

/// `\`, the escape character of structured-document strings.
pub const BACKSLASH: u8 = 0x5C;

/// `{`, opens the structured body document.
pub const LBRACE: u8 = 0x7B;

/// `}`, closes the structured body document.
pub const RBRACE: u8 = 0x7D;

/// `,`, separates members of the structured body document.
pub const COMMA: u8 = 0x2C;

/// An ASCII letter or digit: the allowlist that percent-encoding keeps bare.
pub open spec fn is_alnum(b: u8) -> bool {
    (0x30 <= b && b <= 0x39) || (0x41 <= b && b <= 0x5A) || (0x61 <= b && b <= 0x7A)
}

/// Runtime check for [`is_alnum`].
pub fn alnum(b: u8) -> (r: bool)
    ensures
        r == is_alnum(b),
{
    (0x30 <= b && b <= 0x39) || (0x41 <= b && b <= 0x5A) || (0x61 <= b && b <= 0x7A)
}

/// A byte of the unreserved set: letters, digits, `-`, `.`, `_`, `~`.
pub open spec fn is_unreserved(b: u8) -> bool {
    is_alnum(b) || b == 0x2D || b == 0x2E || b == 0x5F || b == 0x7E
}

/// Runtime check for [`is_unreserved`].
pub fn unreserved(b: u8) -> (r: bool)
    ensures
        r == is_unreserved(b),
{
    alnum(b) || b == 0x2D || b == 0x2E || b == 0x5F || b == 0x7E
}

/// ASCII lower-casing of one byte, for case-insensitive header names.
pub open spec fn lower_byte(b: u8) -> u8 {
    if 0x41 <= b && b <= 0x5A {
        (b + 0x20) as u8
    } else {
        b
    }
}

/// ASCII lower-casing of a byte sequence.
pub open spec fn lower(s: Seq<u8>) -> Seq<u8> {
    s.map_values(|b: u8| lower_byte(b))
}

/// Runtime ASCII lower-casing.
pub fn lower_bytes(s: &Vec<u8>) -> (r: Vec<u8>)
    ensures
        r@ == lower(s@),
{
    let mut out: Vec<u8> = Vec::new();
    let mut i: usize = 0;
    while i < s.len()
        invariant
            i <= s.len(),
            out@ == lower(s@.take(i as int)),
        decreases s.len() - i,
    {
        let b = s[i];
        if 0x41 <= b && b <= 0x5A {
            out.push(b + 0x20);
        } else {
            out.push(b);
        }
        proof {
            assert(lower(s@.take(i + 1)) =~= lower(s@.take(i as int)).push(lower_byte(s@[i as int])));
        }
        i += 1;
    }
    proof {
        assert(s@.take(s@.len() as int) =~= s@);
    }
    out
}

/// Structural equality of two byte vectors.
pub fn bytes_eq(a: &Vec<u8>, b: &Vec<u8>) -> (r: bool)
    ensures
        r == (a@ == b@),
{
    if a.len() != b.len() {
        return false;
    }
    let mut i: usize = 0;
    while i < a.len()
        invariant
            i <= a.len(),
            a.len() == b.len(),
            forall|j: int| 0 <= j < i ==> a@[j] == b@[j],
        decreases a.len() - i,
    {
        if a[i] != b[i] {
            return false;
        }
        i += 1;
    }
    proof {
        assert(a@ =~= b@);
    }
    true
}

/// Appends all of `src` to `out`.
pub fn append_bytes(out: &mut Vec<u8>, src: &Vec<u8>)
    ensures
        final(out)@ == old(out)@ + src@,
{
    let mut i: usize = 0;
    while i < src.len()
        invariant
            i <= src.len(),
            out@ == old(out)@ + src@.take(i as int),
        decreases src.len() - i,
    {
        out.push(src[i]);
        proof {
            assert(old(out)@ + src@.take(i + 1) =~= (old(out)@ + src@.take(i as int)).push(src@[i as int]));
        }
        i += 1;
    }
    proof {
        assert(src@.take(src@.len() as int) =~= src@);
    }
}

/// A fresh copy of a byte vector.
pub fn copy_bytes(src: &Vec<u8>) -> (r: Vec<u8>)
    ensures
        r@ == src@,
{
    let mut out: Vec<u8> = Vec::new();
    append_bytes(&mut out, src);
    out
}

/// True when `x` occurs nowhere in `s`.
pub open spec fn absent(s: Seq<u8>, x: u8) -> bool {
    forall|j: int| 0 <= j < s.len() ==> s[j] != x
}

/// Splits `s` at every occurrence of `sep`.  The result always has at least
/// one part; `n` separators yield `n + 1` parts, each free of `sep`.
pub open spec fn split(s: Seq<u8>, sep: u8) -> Seq<Seq<u8>>
    decreases s.len(),
{
    if s.len() == 0 {
        seq![Seq::<u8>::empty()]
    } else if s[0] == sep {
        seq![Seq::<u8>::empty()] + split(s.drop_first(), sep)
    } else {
        let rest = split(s.drop_first(), sep);
        seq![seq![s[0]] + rest[0]] + rest.drop_first()
    }
}

/// Joins `parts` with `sep` between consecutive parts.
pub open spec fn join(parts: Seq<Seq<u8>>, sep: u8) -> Seq<u8>
    decreases parts.len(),
{
    if parts.len() == 0 {
        Seq::<u8>::empty()
    } else if parts.len() == 1 {
        parts[0]
    } else {
        parts[0] + seq![sep] + join(parts.drop_first(), sep)
    }
}

/// `split` always produces at least one part, and every part is `sep`-free.
pub proof fn lemma_split_shape(s: Seq<u8>, sep: u8)
    ensures
        split(s, sep).len() >= 1,
        forall|k: int| 0 <= k < split(s, sep).len() ==> absent(#[trigger] split(s, sep)[k], sep),
    decreases s.len(),
{
    if s.len() == 0 {
    } else if s[0] == sep {
        lemma_split_shape(s.drop_first(), sep);
    } else {
        lemma_split_shape(s.drop_first(), sep);
        let rest = split(s.drop_first(), sep);
        assert forall|k: int| 0 <= k < split(s, sep).len() implies absent(#[trigger] split(s, sep)[k], sep) by {
            if k == 0 {
                assert(absent(rest[0], sep));
                assert(split(s, sep)[0] == seq![s[0]] + rest[0]);
            } else {
                assert(split(s, sep)[k] == rest[k]);
            }
        }
    }
}

/// Splitting a `sep`-free sequence yields that sequence alone.
pub proof fn lemma_split_nosep(s: Seq<u8>, sep: u8)
    requires
        absent(s, sep),
    ensures
        split(s, sep) == seq![s],
    decreases s.len(),
{
    if s.len() == 0 {
        assert(s =~= Seq::<u8>::empty());
        assert(split(s, sep) =~~= seq![s]);
    } else {
        assert(absent(s.drop_first(), sep));
        lemma_split_nosep(s.drop_first(), sep);
        let rest = split(s.drop_first(), sep);
        assert(rest == seq![s.drop_first()]);
        assert(rest[0] == s.drop_first());
        assert(seq![s[0]] + rest[0] =~= s);
        assert(rest.drop_first() =~= Seq::<Seq<u8>>::empty());
        assert(split(s, sep) =~~= seq![s]);
    }
}

/// Splitting `a + [sep] + t` with `a` sep-free peels off `a`.
pub proof fn lemma_split_sep(a: Seq<u8>, t: Seq<u8>, sep: u8)
    requires
        absent(a, sep),
    ensures
        split(a + seq![sep] + t, sep) == seq![a] + split(t, sep),
    decreases a.len(),
{
    let s = a + seq![sep] + t;
    if a.len() == 0 {
        assert(s =~= seq![sep] + t);
        assert(s[0] == sep);
        assert(s.drop_first() =~= t);
        assert(a =~= Seq::<u8>::empty());
        assert(split(s, sep) == seq![Seq::<u8>::empty()] + split(t, sep));
        assert(split(s, sep) =~~= seq![a] + split(t, sep));
    } else {
        assert(s[0] == a[0]);
        assert(s[0] != sep);
        assert(absent(a.drop_first(), sep));
        lemma_split_sep(a.drop_first(), t, sep);
        assert(s.drop_first() =~= a.drop_first() + seq![sep] + t);
        let rest = split(s.drop_first(), sep);
        assert(rest == seq![a.drop_first()] + split(t, sep));
        assert(rest[0] == a.drop_first());
        assert(seq![s[0]] + rest[0] =~= a);
        assert(rest.drop_first() =~= split(t, sep));
        assert(split(s, sep) == seq![seq![s[0]] + rest[0]] + rest.drop_first());
        assert(split(s, sep) =~~= seq![a] + split(t, sep));
    }
}

/// Splitting undoes joining, provided no part contains the separator.
pub proof fn lemma_split_join(parts: Seq<Seq<u8>>, sep: u8)
    requires
        parts.len() >= 1,
        forall|k: int| 0 <= k < parts.len() ==> absent(#[trigger] parts[k], sep),
    ensures
        split(join(parts, sep), sep) == parts,
    decreases parts.len(),
{
    if parts.len() == 1 {
        lemma_split_nosep(parts[0], sep);
        assert(join(parts, sep) == parts[0]);
        assert(split(join(parts, sep), sep) =~~= parts);
    } else {
        lemma_split_join(parts.drop_first(), sep);
        lemma_split_sep(parts[0], join(parts.drop_first(), sep), sep);
        assert(split(join(parts, sep), sep) == seq![parts[0]] + parts.drop_first());
        assert(split(join(parts, sep), sep) =~~= parts);
    }
}

/// `join` of one more part appends a separator and that part.
pub proof fn lemma_join_push(parts: Seq<Seq<u8>>, p: Seq<u8>, sep: u8)
    ensures
        join(parts.push(p), sep) == if parts.len() == 0 {
            p
        } else {
            join(parts, sep) + seq![sep] + p
        },
    decreases parts.len(),
{
    if parts.len() == 0 {
        assert(parts.push(p).len() == 1);
        assert(join(parts.push(p), sep) == parts.push(p)[0]);
    } else if parts.len() == 1 {
        assert(parts.push(p).drop_first() =~= seq![p]);
        assert(join(seq![p], sep) == p);
        assert(join(parts.push(p), sep) == parts.push(p)[0] + seq![sep] + join(
            parts.push(p).drop_first(),
            sep,
        ));
        assert(parts.push(p)[0] == parts[0]);
        assert(join(parts.push(p), sep) == parts[0] + seq![sep] + p);
        assert(join(parts, sep) == parts[0]);
    } else {
        lemma_join_push(parts.drop_first(), p, sep);
        assert(parts.push(p).drop_first() =~= parts.drop_first().push(p));
        assert(join(parts.push(p), sep) == parts[0] + seq![sep] + (join(parts.drop_first(), sep)
            + seq![sep] + p));
        assert(parts[0] + seq![sep] + (join(parts.drop_first(), sep) + seq![sep] + p) =~= (parts[0]
            + seq![sep] + join(parts.drop_first(), sep)) + seq![sep] + p);
    }
}

/// The view of a vector of byte vectors, as a sequence of byte sequences.
pub open spec fn seqs_of(vs: Seq<Vec<u8>>) -> Seq<Seq<u8>> {
    vs.map_values(|v: Vec<u8>| v@)
}

/// Appending one byte extends `split`'s last part, or starts a new one.
pub proof fn lemma_split_push(s: Seq<u8>, b: u8, sep: u8)
    ensures
        split(s.push(b), sep) == if b == sep {
            split(s, sep).push(Seq::<u8>::empty())
        } else {
            split(s, sep).update(split(s, sep).len() - 1, split(s, sep).last().push(b))
        },
    decreases s.len(),
{
    lemma_split_shape(s, sep);
    if s.len() == 0 {
        if b == sep {
            assert(s.push(b)[0] == sep);
            assert(s.push(b).drop_first() =~= Seq::<u8>::empty());
            assert(split(s.push(b).drop_first(), sep) == seq![Seq::<u8>::empty()]);
            assert(split(s.push(b), sep) == seq![Seq::<u8>::empty()] + split(
                s.push(b).drop_first(),
                sep,
            ));
            assert(split(s, sep) == seq![Seq::<u8>::empty()]);
            assert(split(s.push(b), sep) =~= split(s, sep).push(Seq::<u8>::empty()));
        } else {
            assert(s.push(b)[0] == b);
            assert(s.push(b).drop_first() =~= Seq::<u8>::empty());
            let rest = split(s.push(b).drop_first(), sep);
            assert(rest == seq![Seq::<u8>::empty()]);
            assert(split(s.push(b), sep) =~= split(s, sep).update(
                split(s, sep).len() - 1,
                split(s, sep).last().push(b),
            ));
        }
    } else {
        lemma_split_push(s.drop_first(), b, sep);
        lemma_split_shape(s.drop_first(), sep);
        assert(s.push(b)[0] == s[0]);
        assert(s.push(b).drop_first() =~= s.drop_first().push(b));
        let rest0 = split(s.drop_first(), sep);
        let rest1 = split(s.drop_first().push(b), sep);
        if s[0] == sep {
            if b == sep {
                assert(split(s.push(b), sep) == seq![Seq::<u8>::empty()] + rest1);
                assert(rest1 == rest0.push(Seq::<u8>::empty()));
                assert(split(s, sep) == seq![Seq::<u8>::empty()] + rest0);
                let lhs = seq![Seq::<u8>::empty()] + rest1;
                let rhs = (seq![Seq::<u8>::empty()] + rest0).push(Seq::<u8>::empty());
                assert(lhs.len() == rhs.len());
                assert forall|k: int| 0 <= k < lhs.len() implies lhs[k] == rhs[k] by {
                    if k == 0 {
                    } else if k < lhs.len() - 1 {
                        assert(lhs[k] == rest1[k - 1]);
                        assert(rest1[k - 1] == rest0[k - 1]);
                        assert(rhs[k] == rest0[k - 1]);
                    } else {
                        assert(lhs[k] == rest1[k - 1]);
                        assert(rest1[k - 1] == Seq::<u8>::empty());
                        assert(rhs[k] == Seq::<u8>::empty());
                    }
                }
                assert(lhs =~= rhs);
                assert(split(s.push(b), sep) =~= split(s, sep).push(Seq::<u8>::empty()));
            } else {
                assert(split(s.push(b), sep) =~= split(s, sep).update(
                    split(s, sep).len() - 1,
                    split(s, sep).last().push(b),
                ));
            }
        } else {
            if b == sep {
                assert(rest1 == rest0.push(Seq::<u8>::empty()));
                assert(rest1[0] == rest0[0]);
                assert(rest1.drop_first() =~= rest0.drop_first().push(Seq::<u8>::empty()));
                assert(split(s.push(b), sep) =~= split(s, sep).push(Seq::<u8>::empty()));
            } else {
                assert(rest1 == rest0.update(rest0.len() - 1, rest0.last().push(b)));
                if rest0.len() == 1 {
                    assert(rest1[0] == rest0[0].push(b));
                    assert(rest1.drop_first() =~= rest0.drop_first());
                    assert(split(s.push(b), sep) =~= split(s, sep).update(
                        split(s, sep).len() - 1,
                        split(s, sep).last().push(b),
                    ));
                } else {
                    assert(rest1[0] == rest0[0]);
                    assert(rest1.drop_first() =~= rest0.drop_first().update(
                        rest0.drop_first().len() - 1,
                        rest0.drop_first().last().push(b),
                    ));
                    assert(split(s.push(b), sep) =~= split(s, sep).update(
                        split(s, sep).len() - 1,
                        split(s, sep).last().push(b),
                    ));
                }
            }
        }
    }
}

/// Runtime splitting on a separator byte.
pub fn split_bytes(s: &Vec<u8>, sep: u8) -> (r: Vec<Vec<u8>>)
    ensures
        seqs_of(r@) == split(s@, sep),
        r@.len() >= 1,
{
    let mut parts: Vec<Vec<u8>> = Vec::new();
    let mut cur: Vec<u8> = Vec::new();
    let mut i: usize = 0;
    while i < s.len()
        invariant
            i <= s.len(),
            split(s@.take(i as int), sep) == seqs_of(parts@).push(cur@),
        decreases s.len() - i,
    {
        proof {
            assert(s@.take(i + 1) =~= s@.take(i as int).push(s@[i as int]));
            lemma_split_push(s@.take(i as int), s@[i as int], sep);
        }
        if s[i] == sep {
            parts.push(cur);
            cur = Vec::new();
            proof {
                assert(seqs_of(parts@).push(cur@) =~= split(s@.take(i + 1), sep));
            }
        } else {
            cur.push(s[i]);
            proof {
                assert(seqs_of(parts@).push(cur@) =~= split(s@.take(i + 1), sep));
            }
        }
        i += 1;
    }
    proof {
        assert(s@.take(s@.len() as int) =~= s@);
    }
    parts.push(cur);
    proof {
        assert(seqs_of(parts@) =~= split(s@, sep));
        lemma_split_shape(s@, sep);
    }
    parts
}

/// Runtime joining with a separator byte.
pub fn join_bytes(parts: &Vec<Vec<u8>>, sep: u8) -> (r: Vec<u8>)
    ensures
        r@ == join(seqs_of(parts@), sep),
{
    let mut out: Vec<u8> = Vec::new();
    let mut i: usize = 0;
    while i < parts.len()
        invariant
            i <= parts.len(),
            out@ == join(seqs_of(parts@).take(i as int), sep),
        decreases parts.len() - i,
    {
        if i > 0 {
            out.push(sep);
        }
        append_bytes(&mut out, &parts[i]);
        proof {
            assert(seqs_of(parts@).take(i + 1) =~= seqs_of(parts@).take(i as int).push(
                parts@[i as int]@,
            ));
            lemma_join_push(seqs_of(parts@).take(i as int), parts@[i as int]@, sep);
        }
        i += 1;
    }
    proof {
        assert(seqs_of(parts@).take(parts@.len() as int) =~= seqs_of(parts@));
    }
    out
}

} // verus!
