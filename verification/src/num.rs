//! Decimal numerals: the value of a run of ASCII digits, the canonical
//! decimal rendering of a number, and the facts connecting the two. Entity
//! ids and `#id` references are read and re-rendered through these.

use vstd::prelude::*;
use crate::text::is_digit;

verus! {

/// The numeric value of a sequence of ASCII digit bytes.
pub open spec fn dec_value(s: Seq<u8>) -> nat
    decreases s.len(),
{
    if s.len() == 0 {
        0
    } else {
        dec_value(s.drop_last()) * 10 + (if is_digit(s.last()) {
            (s.last() - 48) as nat
        } else {
            0
        })
    }
}

/// The canonical decimal numeral of `n`: no leading zeros, `"0"` for zero.
pub open spec fn dec_repr(n: nat) -> Seq<u8>
    decreases n,
{
    if n < 10 {
        seq![(48 + n) as u8]
    } else {
        dec_repr(n / 10).push((48 + n % 10) as u8)
    }
}

/// A canonical numeral: all digits, nonempty, no leading zero unless it is
/// the single digit `0`.
pub open spec fn is_canonical_numeral(s: Seq<u8>) -> bool {
    s.len() > 0 && (forall|i: int| 0 <= i < s.len() ==> is_digit(s[i])) && (s.len() > 1 ==> s[0]
        != 48)
}

pub proof fn lemma_dec_repr_canonical(n: nat)
    ensures
        is_canonical_numeral(dec_repr(n)),
        dec_repr(n)[0] == 48 <==> n == 0,
    decreases n,
{
    if n >= 10 {
        lemma_dec_repr_canonical(n / 10);
    }
}

pub proof fn lemma_dec_value_repr(n: nat)
    ensures
        dec_value(dec_repr(n)) == n,
    decreases n,
{
    lemma_dec_repr_canonical(n);
    if n < 10 {
        let s = seq![(48 + n) as u8];
        assert(s.drop_last() =~= Seq::<u8>::empty());
        assert(dec_value(s.drop_last()) == 0);
        assert(dec_value(s) == n);
    } else {
        lemma_dec_value_repr(n / 10);
        let s = dec_repr(n);
        assert(s.drop_last() =~= dec_repr(n / 10));
        assert(s.last() == (48 + n % 10) as u8);
        assert(dec_value(s) == (n / 10) * 10 + n % 10);
        assert((n / 10) * 10 + n % 10 == n) by (nonlinear_arith);
    }
}

/// A maximal digit run is pinned by its first non-digit.
pub proof fn lemma_digit_prefix_is(s: Seq<u8>, d: int)
    requires
        0 <= d <= s.len(),
        forall|i: int| 0 <= i < d ==> is_digit(s[i]),
        d < s.len() ==> !is_digit(s[d]),
    ensures
        digit_prefix_len(s) == d,
{
    lemma_digit_prefix(s);
    if digit_prefix_len(s) < d {
        assert(is_digit(s[digit_prefix_len(s) as int]));
    }
    if digit_prefix_len(s) > d {
        assert(is_digit(s[d]));
    }
}

/// A digit string is at least 1 when its first digit is not `0`.
proof fn lemma_dec_value_pos(s: Seq<u8>)
    requires
        s.len() > 0,
        forall|i: int| 0 <= i < s.len() ==> is_digit(s[i]),
        s[0] != 48,
    ensures
        dec_value(s) >= 1,
    decreases s.len(),
{
    if s.len() > 1 {
        lemma_dec_value_pos(s.drop_last());
    }
}

/// Reading a canonical numeral and re-rendering its value gives it back.
pub proof fn lemma_canonical_roundtrip(s: Seq<u8>)
    requires
        is_canonical_numeral(s),
    ensures
        dec_repr(dec_value(s)) == s,
    decreases s.len(),
{
    if s.len() == 1 {
        assert(s.drop_last() =~= Seq::<u8>::empty());
        assert(dec_value(s.drop_last()) == 0);
        assert(dec_value(s) == s[0] - 48);
        assert(dec_repr(dec_value(s)) =~= s);
    } else {
        let b = s.drop_last();
        lemma_canonical_roundtrip(b);
        lemma_dec_value_pos(b);
        let v = dec_value(s);
        assert(v == dec_value(b) * 10 + (s.last() - 48));
        assert(v >= 10);
        assert(v / 10 == dec_value(b) && v % 10 == (s.last() - 48)) by (nonlinear_arith)
            requires
                v == dec_value(b) * 10 + (s.last() - 48),
                0 <= s.last() - 48 < 10,
        ;
        assert(dec_repr(v) =~= s);
    }
}

/// Every prefix of a digit string has a value no larger than the whole.
proof fn lemma_dec_value_prefix(s: Seq<u8>, k: int)
    requires
        0 <= k <= s.len(),
    ensures
        dec_value(s.take(k)) <= dec_value(s),
    decreases s.len() - k,
{
    if k < s.len() {
        lemma_dec_value_prefix(s, k + 1);
        assert(s.take(k + 1).drop_last() =~= s.take(k));
        assert(dec_value(s.take(k + 1)) == dec_value(s.take(k)) * 10 + (if is_digit(
            s.take(k + 1).last(),
        ) {
            (s[k] - 48) as nat
        } else {
            0
        }));
        assert(dec_value(s.take(k)) <= dec_value(s.take(k)) * 10) by (nonlinear_arith);
    } else {
        assert(s.take(k) =~= s);
    }
}

/// The length of the longest digit run at the head of `s`.
pub open spec fn digit_prefix_len(s: Seq<u8>) -> nat
    decreases s.len(),
{
    if s.len() > 0 && is_digit(s[0]) {
        1 + digit_prefix_len(s.skip(1))
    } else {
        0
    }
}

pub proof fn lemma_digit_prefix(s: Seq<u8>)
    ensures
        digit_prefix_len(s) <= s.len(),
        forall|i: int| 0 <= i < digit_prefix_len(s) ==> is_digit(s[i]),
        digit_prefix_len(s) < s.len() ==> !is_digit(s[digit_prefix_len(s) as int]),
    decreases s.len(),
{
    if s.len() > 0 && is_digit(s[0]) {
        lemma_digit_prefix(s.skip(1));
        assert(forall|i: int| 1 <= i < digit_prefix_len(s) ==> s[i] == s.skip(1)[i - 1]);
    }
}

/// The length of the digit run in `v` starting at `start`.
#[verifier::loop_isolation(false)]
pub fn digit_run(v: &Vec<u8>, start: usize) -> (d: usize)
    requires
        start <= v@.len(),
    ensures
        d == digit_prefix_len(v@.skip(start as int)),
        start + d <= v@.len(),
{
    let n = v.len();
    let mut j: usize = start;
    while j < n && crate::text::is_digit_byte(v[j])
        invariant
            start <= j <= n,
            forall|i: int| start <= i < j ==> is_digit(v@[i]),
        decreases n - j,
    {
        j = j + 1;
    }
    proof {
        let s = v@.skip(start as int);
        lemma_digit_prefix(s);
        assert(forall|i: int| 0 <= i < s.len() ==> s[i] == v@[start + i]);
        assert(digit_prefix_len(s) == j - start) by {
            if digit_prefix_len(s) < j - start {
                assert(is_digit(s[digit_prefix_len(s) as int]));
            }
            if digit_prefix_len(s) > j - start {
                assert(j < n && !is_digit(v@[j as int]));
                assert(is_digit(s[j - start]));
            }
        }
    }
    j - start
}

/// A leading zero does not change a numeral's value.
proof fn lemma_drop_leading_zero(s: Seq<u8>)
    requires
        s.len() > 0,
        s[0] == 48,
    ensures
        dec_value(s.skip(1)) == dec_value(s),
    decreases s.len(),
{
    if s.len() == 1 {
        assert(s.skip(1) =~= Seq::<u8>::empty());
        assert(s.drop_last() =~= Seq::<u8>::empty());
        assert(dec_value(s.drop_last()) == 0);
        assert(dec_value(s) == 0);
        assert(dec_value(s.skip(1)) == 0);
    } else {
        let b = s.drop_last();
        lemma_drop_leading_zero(b);
        assert(s.skip(1).drop_last() =~= b.skip(1));
        assert(s.skip(1).last() == s.last());
        assert(s.skip(1).len() == s.len() - 1 >= 1);
        assert(dec_value(s.skip(1)) == dec_value(b.skip(1)) * 10 + (if is_digit(s.last()) {
            (s.last() - 48) as nat
        } else {
            0
        }));
        assert(dec_value(s) == dec_value(b) * 10 + (if is_digit(s.last()) {
            (s.last() - 48) as nat
        } else {
            0
        }));
    }
}

/// Dropping any run of leading zeros keeps the value.
pub proof fn lemma_skip_zeros(s: Seq<u8>, z: int)
    requires
        0 <= z <= s.len(),
        forall|i: int| 0 <= i < z ==> s[i] == 48,
    ensures
        dec_value(s.skip(z)) == dec_value(s),
    decreases z,
{
    if z > 0 {
        lemma_drop_leading_zero(s);
        lemma_skip_zeros(s.skip(1), z - 1);
        assert(s.skip(1).skip(z - 1) =~= s.skip(z));
    } else {
        assert(s.skip(0) =~= s);
    }
}

/// A digit string that is not all zeros has a positive value.
pub proof fn lemma_nonzero_digit_value(s: Seq<u8>, i: int)
    requires
        0 <= i < s.len(),
        forall|t: int| 0 <= t < s.len() ==> is_digit(s[t]),
        s[i] != 48,
    ensures
        dec_value(s) >= 1,
    decreases s.len(),
{
    if i == s.len() - 1 {
        assert(dec_value(s) == dec_value(s.drop_last()) * 10 + (s.last() - 48));
    } else {
        lemma_nonzero_digit_value(s.drop_last(), i);
        assert(dec_value(s) == dec_value(s.drop_last()) * 10 + (if is_digit(s.last()) {
            (s.last() - 48) as nat
        } else {
            0
        }));
        assert(dec_value(s.drop_last()) * 10 >= 10) by (nonlinear_arith)
            requires
                dec_value(s.drop_last()) >= 1,
        ;
    }
}

/// Renders `n` as its canonical decimal numeral.
pub fn render_usize(n: usize) -> (r: Vec<u8>)
    ensures
        r@ == dec_repr(n as nat),
    decreases n,
{
    if n < 10 {
        let mut v: Vec<u8> = Vec::new();
        v.push(48 + (n as u8));
        proof {
            assert(v@ =~= dec_repr(n as nat));
        }
        v
    } else {
        let mut v = render_usize(n / 10);
        v.push(48 + ((n % 10) as u8));
        v
    }
}

/// Reads the digits `v[lo..hi]` as a number, or `None` when the value does
/// not fit in `usize`.
pub fn parse_dec(v: &Vec<u8>, lo: usize, hi: usize) -> (r: Option<usize>)
    requires
        lo <= hi <= v@.len(),
        forall|i: int| lo <= i < hi ==> is_digit(v@[i]),
    ensures
        match r {
            Some(n) => n as nat == dec_value(v@.subrange(lo as int, hi as int)),
            None => dec_value(v@.subrange(lo as int, hi as int)) > usize::MAX,
        },
{
    let mut acc: usize = 0;
    let mut i: usize = lo;
    proof {
        assert(v@.subrange(lo as int, lo as int) =~= Seq::<u8>::empty());
    }
    while i < hi
        invariant
            lo <= i <= hi <= v@.len(),
            forall|j: int| lo <= j < hi ==> is_digit(v@[j]),
            acc as nat == dec_value(v@.subrange(lo as int, i as int)),
        decreases hi - i,
    {
        let ghost full = v@.subrange(lo as int, hi as int);
        let ghost pre = v@.subrange(lo as int, i as int + 1);
        proof {
            assert(pre.drop_last() =~= v@.subrange(lo as int, i as int));
            assert(pre.last() == v@[i as int]);
        }
        let d: u8 = v[i] - 48;
        let step = match acc.checked_mul(10) {
            Some(m) => m.checked_add(d as usize),
            None => None,
        };
        match step {
            Some(next) => {
                acc = next;
                i = i + 1;
            },
            None => {
                proof {
                    assert(dec_value(pre) > usize::MAX);
                    lemma_dec_value_prefix(full, i as int + 1 - lo);
                    assert(full.take(i as int + 1 - lo) =~= pre);
                }
                return None;
            },
        }
    }
    proof {
        assert(v@.subrange(lo as int, i as int) =~= v@.subrange(lo as int, hi as int));
    }
    Some(acc)
}

} // verus!
