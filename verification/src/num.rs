//! Decimal numerals: rendering an unsigned integer as decimal text, and
//! reading an unsigned 64-bit value from a run of decimal digits.

use crate::bytes::views_of;
use vstd::prelude::*;

verus! {

/// The decimal digits of `n`, most significant first.
pub open spec fn dec_digits(n: nat) -> Seq<u8>
    decreases n,
{
    if n < 10 {
        seq![(48 + n) as u8]
    } else {
        dec_digits(n / 10) + seq![(48 + n % 10) as u8]
    }
}

/// Renders `n` in decimal.
pub fn u64_to_dec(n: u64) -> (r: Vec<u8>)
    ensures
        r@ == dec_digits(n as nat),
    decreases n,
{
    if n < 10 {
        let mut r: Vec<u8> = Vec::new();
        r.push(48 + n as u8);
        proof {
            assert(r@ =~= dec_digits(n as nat));
        }
        r
    } else {
        let mut r = u64_to_dec(n / 10);
        r.push(48 + (n % 10) as u8);
        proof {
            assert(r@ =~= dec_digits(n as nat));
        }
        r
    }
}

/// A nonempty run of decimal digit bytes.
pub open spec fn is_digits(s: Seq<u8>) -> bool {
    s.len() >= 1 && forall|i: int| 0 <= i < s.len() ==> 48 <= #[trigger] s[i] <= 57
}

/// The value of a digit run, most significant first.
pub open spec fn digits_val(s: Seq<u8>) -> int
    decreases s.len(),
{
    if s.len() == 0 {
        0
    } else {
        digits_val(s.drop_last()) * 10 + s.last() - 48
    }
}

/// A digit run's value is not negative.
pub proof fn lemma_digits_val_nonneg(s: Seq<u8>)
    requires
        forall|i: int| 0 <= i < s.len() ==> 48 <= #[trigger] s[i],
    ensures
        digits_val(s) >= 0,
    decreases s.len(),
{
    if s.len() > 0 {
        lemma_digits_val_nonneg(s.drop_last());
    }
}

/// Reading one digit more multiplies the value by ten and adds the digit.
pub proof fn lemma_digits_val_extend(s: Seq<u8>, k: int)
    requires
        0 <= k < s.len(),
    ensures
        digits_val(s.take(k + 1)) == digits_val(s.take(k)) * 10 + s[k] - 48,
{
    assert(s.take(k + 1).drop_last() =~= s.take(k));
    assert(s.take(k + 1).last() == s[k]);
}

/// A digit run's value only grows as further digits are read.
pub proof fn lemma_digits_val_prefix_le(s: Seq<u8>, k: int)
    requires
        0 <= k <= s.len(),
        forall|i: int| 0 <= i < s.len() ==> 48 <= #[trigger] s[i],
    ensures
        digits_val(s.take(k)) <= digits_val(s),
    decreases s.len() - k,
{
    if k < s.len() {
        lemma_digits_val_extend(s, k);
        assert(forall|i: int| 0 <= i < s.take(k).len() ==> 48 <= #[trigger] s.take(k)[i]);
        lemma_digits_val_nonneg(s.take(k));
        lemma_digits_val_prefix_le(s, k + 1);
    } else {
        assert(s.take(k) =~= s);
    }
}

/// Reads a `u64` from a nonempty run of decimal digits; refused when a
/// byte is no digit or the value does not fit.
pub fn parse_u64_digits(s: &Vec<u8>) -> (r: Option<u64>)
    ensures
        match r {
            Option::Some(v) => is_digits(s@) && digits_val(s@) == v as int,
            Option::None => !is_digits(s@) || digits_val(s@) > u64::MAX,
        },
{
    if s.len() == 0 {
        return None;
    }
    let mut acc: u64 = 0;
    let mut k: usize = 0;
    proof {
        assert(s@.take(0) =~= Seq::<u8>::empty());
    }
    while k < s.len()
        invariant
            k <= s@.len(),
            s@.len() >= 1,
            forall|i: int| 0 <= i < k ==> 48 <= #[trigger] s@[i] <= 57,
            acc as int == digits_val(s@.take(k as int)),
        decreases s@.len() - k,
    {
        let d = s[k];
        if d < 48 || d > 57 {
            return None;
        }
        proof {
            lemma_digits_val_extend(s@, k as int);
        }
        if acc > u64::MAX / 10 {
            proof {
                if is_digits(s@) {
                    lemma_digits_val_prefix_le(s@, k + 1);
                }
            }
            return None;
        }
        let acc10 = acc * 10;
        let dv = (d - 48) as u64;
        if dv > u64::MAX - acc10 {
            proof {
                if is_digits(s@) {
                    lemma_digits_val_prefix_le(s@, k + 1);
                }
            }
            return None;
        }
        acc = acc10 + dv;
        k = k + 1;
    }
    proof {
        assert(s@.take(s@.len() as int) =~= s@);
    }
    Some(acc)
}

/// A rendered numeral reads back as the number it was made from: the
/// decimal digits of `n` are digits, and their value is `n`.
pub proof fn lemma_dec_digits_round_trip(n: nat)
    ensures
        is_digits(dec_digits(n)),
        digits_val(dec_digits(n)) == n,
    decreases n,
{
    if n < 10 {
        let s = dec_digits(n);
        assert(s.drop_last() =~= Seq::<u8>::empty());
        assert(digits_val(Seq::<u8>::empty()) == 0);
        assert(s.last() == (48 + n) as u8);
        assert forall|i: int| 0 <= i < s.len() implies 48 <= #[trigger] s[i] <= 57 by {
            assert(s[i] == (48 + n) as u8);
        }
    } else {
        lemma_dec_digits_round_trip(n / 10);
        let s = dec_digits(n);
        assert(s.drop_last() =~= dec_digits(n / 10));
        assert(s.last() == (48 + n % 10) as u8);
        assert(forall|i: int|
            0 <= i < s.len() ==> 48 <= #[trigger] s[i] <= 57) by {
            assert(forall|i: int|
                0 <= i < dec_digits(n / 10).len() ==> s[i] == #[trigger] dec_digits(n / 10)[i]);
        }
    }
}

/// The variant list of a range declaration: one decimal numeral for each
/// integer from `start` up to `end` exclusive, and `end` itself once more
/// when the range is inclusive.
pub open spec fn range_variants(start: int, end: int, inclusive: bool) -> Seq<Seq<u8>> {
    let base = Seq::new(
        if end > start {
            (end - start) as nat
        } else {
            0
        },
        |i: int| dec_digits((start + i) as nat),
    );
    if inclusive {
        base + seq![dec_digits(end as nat)]
    } else {
        base
    }
}

/// Builds the variant list of a range declaration.
pub fn make_range_variants(start: u64, end: u64, inclusive: bool) -> (r: Vec<Vec<u8>>)
    ensures
        views_of(r@) == range_variants(start as int, end as int, inclusive),
{
    let mut r: Vec<Vec<u8>> = Vec::new();
    let mut v: u64 = start;
    while v < end
        invariant
            start <= v,
            v <= end || v == start,
            r@.len() == v - start,
            forall|j: int| 0 <= j < r@.len() ==> #[trigger] r@[j]@ == dec_digits((start + j) as nat),
        decreases end - v,
    {
        r.push(u64_to_dec(v));
        v = v + 1;
    }
    if inclusive {
        r.push(u64_to_dec(end));
    }
    proof {
        assert(views_of(r@) =~= range_variants(start as int, end as int, inclusive));
    }
    r
}

} // verus!
