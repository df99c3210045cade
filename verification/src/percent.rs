//! Percent-encoding of dynamic path segments and query keys/values, against
//! the letter-and-digit allowlist: every other byte becomes `%` followed by
//! two uppercase hexadecimal digits.  Decoding inverts encoding exactly; a
//! `%` not followed by two hexadecimal digits is a decode failure.

use vstd::prelude::*;
use crate::bytes::{absent, is_unreserved, unreserved, PCT};

verus! {

/// The uppercase hexadecimal digit for `n < 16`.
pub open spec fn hex_digit(n: u8) -> u8 {
    if n < 10 {
        (0x30 + n) as u8
    } else {
        (0x41 + (n - 10)) as u8
    }
}

/// The value of a hexadecimal digit byte, upper or lower case.
pub open spec fn hex_val(b: u8) -> Option<u8> {
    if 0x30 <= b && b <= 0x39 {
        Some((b - 0x30) as u8)
    } else if 0x41 <= b && b <= 0x46 {
        Some((b - 0x41 + 10) as u8)
    } else if 0x61 <= b && b <= 0x66 {
        Some((b - 0x61 + 10) as u8)
    } else {
        None
    }
}

/// Percent-encoding of one byte: unreserved bytes pass unchanged, every
/// other byte is written as a three-byte escape.
pub open spec fn pe_byte(b: u8) -> Seq<u8> {
    if is_unreserved(b) {
        seq![b]
    } else {
        seq![PCT, hex_digit(b / 16), hex_digit(b % 16)]
    }
}

/// Percent-encoding of a byte sequence.
pub open spec fn pe(s: Seq<u8>) -> Seq<u8>
    decreases s.len(),
{
    if s.len() == 0 {
        Seq::<u8>::empty()
    } else {
        pe_byte(s[0]) + pe(s.drop_first())
    }
}

/// Percent-decoding; `None` when a `%` is not followed by two hexadecimal
/// digits.  Bytes outside escapes pass through unchanged.
pub open spec fn pd(s: Seq<u8>) -> Option<Seq<u8>>
    decreases s.len(),
{
    if s.len() == 0 {
        Some(Seq::<u8>::empty())
    } else if s[0] == PCT {
        if s.len() >= 3 {
            match (hex_val(s[1]), hex_val(s[2])) {
                (Some(h1), Some(h2)) => match pd(s.skip(3)) {
                    Some(r) => Some(seq![(h1 * 16 + h2) as u8] + r),
                    None => None,
                },
                _ => None,
            }
        } else {
            None
        }
    } else {
        match pd(s.drop_first()) {
            Some(r) => Some(seq![s[0]] + r),
            None => None,
        }
    }
}

/// Every byte of an encoded sequence is unreserved or `%`.
pub proof fn lemma_pe_chars(s: Seq<u8>)
    ensures
        forall|k: int|
            0 <= k < pe(s).len() ==> is_unreserved(#[trigger] pe(s)[k]) || pe(s)[k] == PCT,
    decreases s.len(),
{
    if s.len() == 0 {
    } else {
        lemma_pe_chars(s.drop_first());
        assert forall|k: int|
            0 <= k < pe(s).len() implies is_unreserved(#[trigger] pe(s)[k]) || pe(s)[k] == PCT by {
            if k < pe_byte(s[0]).len() {
                assert(pe(s)[k] == pe_byte(s[0])[k]);
            } else {
                assert(pe(s)[k] == pe(s.drop_first())[k - pe_byte(s[0]).len()]);
            }
        }
    }
}

/// An encoded sequence never contains a delimiter byte: nothing outside the
/// allowlist and distinct from `%` can occur in it.
pub proof fn lemma_pe_absent(s: Seq<u8>, x: u8)
    requires
        !is_unreserved(x),
        x != PCT,
    ensures
        absent(pe(s), x),
{
    lemma_pe_chars(s);
}

/// Decoding a hexadecimal digit recovers its value.
pub proof fn lemma_hex_roundtrip(n: u8)
    requires
        n < 16,
    ensures
        hex_val(hex_digit(n)) == Some(n),
{
}

/// Percent-decoding inverts percent-encoding.
pub proof fn lemma_pd_pe(s: Seq<u8>)
    ensures
        pd(pe(s)) == Some(s),
    decreases s.len(),
{
    if s.len() == 0 {
        assert(pe(s).len() == 0);
    } else {
        lemma_pd_pe(s.drop_first());
        let b = s[0];
        if is_unreserved(b) {
            assert(pe(s) == seq![b] + pe(s.drop_first()));
            assert(pe(s)[0] == b);
            assert(b != PCT);
            assert(pe(s).drop_first() =~= pe(s.drop_first()));
            assert(pd(pe(s)) == Some(seq![b] + s.drop_first()));
            assert(seq![b] + s.drop_first() =~= s);
        } else {
            let h1 = b / 16;
            let h2 = b % 16;
            assert(h1 < 16 && h2 < 16) by {
                assert(b / 16 < 16);
                assert(b % 16 < 16);
            }
            lemma_hex_roundtrip(h1);
            lemma_hex_roundtrip(h2);
            assert(pe(s) == seq![PCT, hex_digit(h1), hex_digit(h2)] + pe(s.drop_first()));
            assert(pe(s)[0] == PCT);
            assert(pe(s)[1] == hex_digit(h1));
            assert(pe(s)[2] == hex_digit(h2));
            assert(pe(s).len() >= 3);
            assert(pe(s).skip(3) =~= pe(s.drop_first()));
            assert(h1 * 16 + h2 == b);
            assert(pd(pe(s)) == Some(seq![b] + s.drop_first()));
            assert(seq![b] + s.drop_first() =~= s);
        }
    }
}

/// Encoding distributes over concatenation.
pub proof fn lemma_pe_concat(a: Seq<u8>, b: Seq<u8>)
    ensures
        pe(a + b) == pe(a) + pe(b),
    decreases a.len(),
{
    if a.len() == 0 {
        assert(a + b =~= b);
        assert(pe(a) =~= Seq::<u8>::empty());
        assert(pe(a) + pe(b) =~= pe(b));
    } else {
        lemma_pe_concat(a.drop_first(), b);
        assert((a + b)[0] == a[0]);
        assert((a + b).drop_first() =~= a.drop_first() + b);
        assert(pe(a + b) == pe_byte(a[0]) + (pe(a.drop_first()) + pe(b)));
        assert(pe_byte(a[0]) + (pe(a.drop_first()) + pe(b)) =~= (pe_byte(a[0]) + pe(
            a.drop_first(),
        )) + pe(b));
    }
}

/// Runtime uppercase hexadecimal digit.
fn hex_digit_exec(n: u8) -> (r: u8)
    requires
        n < 16,
    ensures
        r == hex_digit(n),
{
    if n < 10 {
        0x30 + n
    } else {
        0x41 + (n - 10)
    }
}

/// Runtime hexadecimal digit value.
fn hex_val_exec(b: u8) -> (r: Option<u8>)
    ensures
        r == hex_val(b),
{
    if 0x30 <= b && b <= 0x39 {
        Some(b - 0x30)
    } else if 0x41 <= b && b <= 0x46 {
        Some(b - 0x41 + 10)
    } else if 0x61 <= b && b <= 0x66 {
        Some(b - 0x61 + 10)
    } else {
        None
    }
}

/// Runtime percent-encoding.
pub fn percent_encode(s: &Vec<u8>) -> (r: Vec<u8>)
    ensures
        r@ == pe(s@),
{
    let mut out: Vec<u8> = Vec::new();
    let mut i: usize = 0;
    while i < s.len()
        invariant
            i <= s.len(),
            out@ == pe(s@.take(i as int)),
        decreases s.len() - i,
    {
        let b = s[i];
        if unreserved(b) {
            out.push(b);
        } else {
            out.push(PCT);
            out.push(hex_digit_exec(b / 16));
            out.push(hex_digit_exec(b % 16));
        }
        proof {
            assert(s@.take(i + 1) =~= s@.take(i as int) + seq![s@[i as int]]);
            lemma_pe_concat(s@.take(i as int), seq![s@[i as int]]);
            assert(seq![s@[i as int]].drop_first() =~= Seq::<u8>::empty());
            assert(pe(seq![s@[i as int]].drop_first()) =~= Seq::<u8>::empty());
            assert(pe(seq![s@[i as int]]) == pe_byte(s@[i as int]) + pe(
                seq![s@[i as int]].drop_first(),
            ));
            assert(pe(seq![s@[i as int]]) =~= pe_byte(s@[i as int]));
            assert(out@ =~= pe(s@.take(i + 1)));
        }
        i += 1;
    }
    proof {
        assert(s@.take(s@.len() as int) =~= s@);
    }
    out
}

/// Runtime percent-decoding of the suffix of `s` that starts at `i`.
fn percent_decode_from(s: &Vec<u8>, i: usize) -> (r: Option<Vec<u8>>)
    requires
        i <= s.len(),
    ensures
        match r {
            Some(v) => pd(s@.skip(i as int)) == Some(v@),
            None => pd(s@.skip(i as int)) is None,
        },
    decreases s.len() - i,
{
    if i == s.len() {
        proof {
            assert(s@.skip(i as int) =~= Seq::<u8>::empty());
        }
        Some(Vec::new())
    } else if s[i] == PCT {
        if s.len() - i >= 3 {
            let h1 = hex_val_exec(s[i + 1]);
            let h2 = hex_val_exec(s[i + 2]);
            proof {
                assert(s@.skip(i as int)[0] == s@[i as int]);
                assert(s@.skip(i as int)[1] == s@[i + 1]);
                assert(s@.skip(i as int)[2] == s@[i + 2]);
                assert(s@.skip(i as int).skip(3) =~= s@.skip(i + 3));
            }
            match (h1, h2) {
                (Some(a), Some(b)) => match percent_decode_from(s, i + 3) {
                    Some(mut rest) => {
                        rest.insert(0, a * 16 + b);
                        proof {
                            assert(rest@ =~= seq![(a * 16 + b) as u8] + rest@.drop_first());
                        }
                        Some(rest)
                    },
                    None => None,
                },
                _ => None,
            }
        } else {
            proof {
                assert(s@.skip(i as int)[0] == s@[i as int]);
            }
            None
        }
    } else {
        proof {
            assert(s@.skip(i as int)[0] == s@[i as int]);
            assert(s@.skip(i as int).drop_first() =~= s@.skip(i + 1));
        }
        match percent_decode_from(s, i + 1) {
            Some(mut rest) => {
                let b = s[i];
                rest.insert(0, b);
                proof {
                    assert(rest@ =~= seq![s@[i as int]] + rest@.drop_first());
                }
                Some(rest)
            },
            None => None,
        }
    }
}

/// Runtime percent-decoding.
pub fn percent_decode(s: &Vec<u8>) -> (r: Option<Vec<u8>>)
    ensures
        match r {
            Some(v) => pd(s@) == Some(v@),
            None => pd(s@) is None,
        },
{
    proof {
        assert(s@.skip(0) =~= s@);
    }
    percent_decode_from(s, 0)
}

} // verus!
