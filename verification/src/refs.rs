//! Entity references inside body text: scanning `#id` tokens, rewriting
//! them during renumbering, the reference-list attribute shape, and the
//! three-way reference-list merge.
//!
//! Rewriting is done by parsing each token, remapping its value, and
//! re-rendering it canonically — never by blind substring substitution.

use vstd::prelude::*;
use crate::num::{
    dec_value, dec_repr, digit_prefix_len, digit_run, parse_dec, render_usize,
    lemma_digit_prefix, lemma_skip_zeros, lemma_canonical_roundtrip,
};
use crate::text::{
    is_digit, is_digit_byte, lex_lt, lex_lt_bytes, lemma_lex_total, lemma_lex_trans, bytes_eq,
};
use crate::add_offset;

verus! {

/// The renumbering rule on an arbitrary token value: values above `max`
/// move up by `offset` when the result still fits in `usize`.
pub open spec fn clamp_shift(v: nat, max: usize, offset: usize) -> nat {
    if v > max && v + offset <= usize::MAX {
        (v + offset) as nat
    } else {
        v
    }
}

/// Body text with every `#id` token remapped by `clamp_shift` and
/// re-rendered canonically; all other bytes are kept as they are.
pub open spec fn shift_refs_spec(s: Seq<u8>, max: usize, offset: usize) -> Seq<u8>
    decreases s.len(),
    via shift_refs_spec_dec
{
    if s.len() == 0 {
        s
    } else if s[0] == 35 && digit_prefix_len(s.skip(1)) >= 1 {
        let d = digit_prefix_len(s.skip(1)) as int;
        seq![35u8] + dec_repr(clamp_shift(dec_value(s.subrange(1, 1 + d)), max, offset))
            + shift_refs_spec(s.skip(1 + d), max, offset)
    } else {
        seq![s[0]] + shift_refs_spec(s.skip(1), max, offset)
    }
}

/// The numeric values of all `#id` tokens in a text.
pub open spec fn ref_vals(s: Seq<u8>) -> Set<nat>
    decreases s.len(),
    via ref_vals_dec
{
    if s.len() == 0 {
        Set::empty()
    } else if s[0] == 35 && digit_prefix_len(s.skip(1)) >= 1 {
        let d = digit_prefix_len(s.skip(1)) as int;
        ref_vals(s.skip(1 + d)).insert(dec_value(s.subrange(1, 1 + d)))
    } else {
        ref_vals(s.skip(1))
    }
}

/// The `#id` token strings of a text, kept as written.
pub open spec fn ref_toks(s: Seq<u8>) -> Set<Seq<u8>>
    decreases s.len(),
    via ref_toks_dec
{
    if s.len() == 0 {
        Set::empty()
    } else if s[0] == 35 && digit_prefix_len(s.skip(1)) >= 1 {
        let d = digit_prefix_len(s.skip(1)) as int;
        ref_toks(s.skip(1 + d)).insert(s.subrange(0, 1 + d))
    } else {
        ref_toks(s.skip(1))
    }
}

#[via_fn]
proof fn shift_refs_spec_dec(s: Seq<u8>, max: usize, offset: usize) {
    lemma_digit_prefix(s.skip(1));
}

#[via_fn]
proof fn ref_vals_dec(s: Seq<u8>) {
    lemma_digit_prefix(s.skip(1));
}

#[via_fn]
proof fn ref_toks_dec(s: Seq<u8>) {
    lemma_digit_prefix(s.skip(1));
}

/// Appends `src[lo..hi]` to `out`.
#[verifier::loop_isolation(false)]
fn append_range(out: &mut Vec<u8>, src: &Vec<u8>, lo: usize, hi: usize)
    requires
        lo <= hi <= src@.len(),
    ensures
        final(out)@ == old(out)@ + src@.subrange(lo as int, hi as int),
{
    let mut j: usize = lo;
    while j < hi
        invariant
            lo <= j <= hi,
            out@ == old(out)@ + src@.subrange(lo as int, j as int),
        decreases hi - j,
    {
        out.push(src[j]);
        j = j + 1;
        proof {
            assert(out@ =~= old(out)@ + src@.subrange(lo as int, j as int));
        }
    }
    proof {
        assert(out@ =~= old(out)@ + src@.subrange(lo as int, hi as int));
    }
}

/// Rewrites every `#id` token of `text` through the renumbering rule,
/// leaving the surrounding bytes untouched.
#[verifier::loop_isolation(false)]
#[verifier::rlimit(100)]
pub fn shift_refs(text: &Vec<u8>, max: usize, offset: usize) -> (r: Vec<u8>)
    ensures
        r@ == shift_refs_spec(text@, max, offset),
{
    let n = text.len();
    let mut out: Vec<u8> = Vec::new();
    let mut i: usize = 0;
    proof {
        assert(text@.skip(0) =~= text@);
    }
    while i < n
        invariant
            0 <= i <= n,
            shift_refs_spec(text@, max, offset) == out@ + shift_refs_spec(
                text@.skip(i as int),
                max,
                offset,
            ),
        decreases n - i,
    {
        let ghost rest = text@.skip(i as int);
        let c = text[i];
        proof {
            assert(rest[0] == c);
            assert(rest.skip(1) =~= text@.skip(i as int + 1));
        }
        if c == 35 {
            let d = digit_run(text, i + 1);
            if d >= 1 {
                let ghost digits = text@.subrange(i as int + 1, i as int + 1 + d);
                proof {
                    assert(rest.subrange(1, 1 + d as int) =~= digits);
                    assert(digit_prefix_len(rest.skip(1)) == d);
                    lemma_digit_prefix(text@.skip(i as int + 1));
                    assert(forall|t: int|
                        0 <= t < d ==> (#[trigger] text@.skip(i as int + 1)[t]) == text@[i + 1
                            + t]);
                    assert forall|u: int| i + 1 <= u < i + 1 + d implies is_digit(
                        #[trigger] text@[u],
                    ) by {
                        assert(is_digit(text@.skip(i as int + 1)[u - i - 1]));
                    }
                }
                let mut z: usize = 0;
                while z < d - 1 && text[i + 1 + z] == 48
                    invariant
                        0 <= z <= d - 1,
                        forall|t: int| i + 1 <= t < i + 1 + z ==> text@[t] == 48,
                    decreases d - z,
                {
                    z = z + 1;
                }
                let ghost stripped = text@.subrange(i as int + 1 + z, i as int + 1 + d);
                proof {
                    assert(digits.skip(z as int) =~= stripped);
                    lemma_skip_zeros(digits, z as int);
                    assert(dec_value(stripped) == dec_value(digits));
                    assert(crate::num::is_canonical_numeral(stripped)) by {
                        if stripped.len() > 1 {
                            assert(z < d - 1);
                            assert(stripped[0] == text@[i as int + 1 + z]);
                        }
                    }
                }
                let step = parse_dec(text, i + 1 + z, i + 1 + d);
                out.push(35);
                match step {
                    Some(v) => {
                        let nv = add_offset(v, max, offset);
                        let rendered = render_usize(nv);
                        let ghost pre = out@;
                        append_range(&mut out, &rendered, 0, rendered.len());
                        proof {
                            assert(rendered@.subrange(0, rendered@.len() as int) =~= rendered@);
                            assert(nv as nat == clamp_shift(dec_value(digits), max, offset));
                        }
                    },
                    None => {
                        proof {
                            lemma_canonical_roundtrip(stripped);
                            assert(clamp_shift(dec_value(digits), max, offset) == dec_value(
                                digits,
                            ));
                        }
                        append_range(&mut out, text, i + 1 + z, i + 1 + d);
                    },
                }
                i = i + 1 + d;
                proof {
                    assert(shift_refs_spec(rest, max, offset) == seq![35u8] + dec_repr(
                        clamp_shift(dec_value(digits), max, offset),
                    ) + shift_refs_spec(text@.skip(i as int), max, offset)) by {
                        assert(rest.skip(1 + d as int) =~= text@.skip(i as int));
                    }
                    assert(shift_refs_spec(text@, max, offset) == out@ + shift_refs_spec(
                        text@.skip(i as int),
                        max,
                        offset,
                    ));
                }
            } else {
                out.push(35);
                i = i + 1;
                proof {
                    assert(shift_refs_spec(rest, max, offset) == seq![35u8] + shift_refs_spec(
                        text@.skip(i as int),
                        max,
                        offset,
                    ));
                    assert(shift_refs_spec(text@, max, offset) == out@ + shift_refs_spec(
                        text@.skip(i as int),
                        max,
                        offset,
                    ));
                }
            }
        } else {
            out.push(c);
            i = i + 1;
            proof {
                assert(shift_refs_spec(rest, max, offset) == seq![c] + shift_refs_spec(
                    text@.skip(i as int),
                    max,
                    offset,
                ));
                assert(shift_refs_spec(text@, max, offset) == out@ + shift_refs_spec(
                    text@.skip(i as int),
                    max,
                    offset,
                ));
            }
        }
    }
    proof {
        assert(text@.skip(n as int) =~= Seq::<u8>::empty());
        assert(shift_refs_spec(Seq::<u8>::empty(), max, offset) == Seq::<u8>::empty());
        assert(out@ =~= out@ + Seq::<u8>::empty());
    }
    out
}

/// Collects the numeric values of all `#id` tokens that fit in `usize`.
/// A value above `usize::MAX` can never name a stored entity, so it is
/// not collected.
#[verifier::loop_isolation(false)]
#[verifier::rlimit(100)]
pub fn scan_ref_values(text: &Vec<u8>) -> (r: Vec<usize>)
    ensures
        forall|v: usize| r@.contains(v) <==> ref_vals(text@).contains(v as nat),
{
    let n = text.len();
    let mut out: Vec<usize> = Vec::new();
    let mut i: usize = 0;
    proof {
        assert(text@.skip(0) =~= text@);
    }
    while i < n
        invariant
            0 <= i <= n,
            forall|v: usize|
                ref_vals(text@).contains(v as nat) <==> out@.contains(v) || ref_vals(
                    text@.skip(i as int),
                ).contains(v as nat),
        decreases n - i,
    {
        let ghost rest = text@.skip(i as int);
        let c = text[i];
        proof {
            assert(rest[0] == c);
            assert(rest.skip(1) =~= text@.skip(i as int + 1));
        }
        if c == 35 {
            let d = digit_run(text, i + 1);
            if d >= 1 {
                let ghost digits = text@.subrange(i as int + 1, i as int + 1 + d);
                proof {
                    assert(rest.subrange(1, 1 + d as int) =~= digits);
                    assert(digit_prefix_len(rest.skip(1)) == d);
                    lemma_digit_prefix(text@.skip(i as int + 1));
                    assert(forall|t: int|
                        0 <= t < d ==> (#[trigger] text@.skip(i as int + 1)[t]) == text@[i + 1
                            + t]);
                    assert forall|u: int| i + 1 <= u < i + 1 + d implies is_digit(
                        #[trigger] text@[u],
                    ) by {
                        assert(is_digit(text@.skip(i as int + 1)[u - i - 1]));
                    }
                }
                let mut z: usize = 0;
                while z < d - 1 && text[i + 1 + z] == 48
                    invariant
                        0 <= z <= d - 1,
                        forall|t: int| i + 1 <= t < i + 1 + z ==> text@[t] == 48,
                    decreases d - z,
                {
                    z = z + 1;
                }
                proof {
                    assert(digits.skip(z as int) =~= text@.subrange(
                        i as int + 1 + z,
                        i as int + 1 + d,
                    ));
                    lemma_skip_zeros(digits, z as int);
                }
                let step = parse_dec(text, i + 1 + z, i + 1 + d);
                let ghost pre = out@;
                match step {
                    Some(v) => {
                        out.push(v);
                        proof {
                            assert(out@[pre.len() as int] == v);
                            assert(forall|w: usize|
                                out@.contains(w) <==> pre.contains(w) || w == v) by {
                                assert forall|w: usize|
                                    pre.contains(w) implies out@.contains(w) by {
                                    let t = choose|t: int| 0 <= t < pre.len() && pre[t] == w;
                                    assert(out@[t] == w);
                                }
                                assert forall|w: usize|
                                    out@.contains(w) && w != v implies pre.contains(w) by {
                                    let t = choose|t: int| 0 <= t < out@.len() && out@[t] == w;
                                    assert(pre[t] == w);
                                }
                            }
                        }
                    },
                    None => {},
                }
                i = i + 1 + d;
                proof {
                    assert(ref_vals(rest) == ref_vals(text@.skip(i as int)).insert(
                        dec_value(digits),
                    )) by {
                        assert(rest.skip(1 + d as int) =~= text@.skip(i as int));
                    }
                    assert forall|w: usize|
                        ref_vals(text@).contains(w as nat) <==> out@.contains(w) || ref_vals(
                            text@.skip(i as int),
                        ).contains(w as nat) by {
                        assert(ref_vals(text@).contains(w as nat) <==> pre.contains(w)
                            || ref_vals(rest).contains(w as nat));
                        assert(ref_vals(rest).contains(w as nat) <==> w as nat == dec_value(
                            digits,
                        ) || ref_vals(text@.skip(i as int)).contains(w as nat));
                    }
                }
            } else {
                i = i + 1;
                proof {
                    assert(ref_vals(rest) == ref_vals(text@.skip(i as int)));
                }
            }
        } else {
            i = i + 1;
            proof {
                assert(ref_vals(rest) == ref_vals(text@.skip(i as int)));
            }
        }
    }
    proof {
        assert(text@.skip(n as int) =~= Seq::<u8>::empty());
    }
    out
}

/// Collects the `#id` token strings of `text`, as written.
#[verifier::loop_isolation(false)]
#[verifier::rlimit(100)]
pub fn collect_ref_toks(text: &Vec<u8>) -> (r: Vec<Vec<u8>>)
    ensures
        forall|j: int| 0 <= j < r@.len() ==> ref_toks(text@).contains((#[trigger] r@[j])@),
        forall|t: Seq<u8>|
            ref_toks(text@).contains(t) ==> exists|j: int| 0 <= j < r@.len() && (#[trigger] r@[j])@
                == t,
{
    let n = text.len();
    let mut out: Vec<Vec<u8>> = Vec::new();
    let mut i: usize = 0;
    proof {
        assert(text@.skip(0) =~= text@);
    }
    while i < n
        invariant
            0 <= i <= n,
            forall|j: int| 0 <= j < out@.len() ==> ref_toks(text@).contains((#[trigger] out@[j])@),
            forall|t: Seq<u8>|
                ref_toks(text@).contains(t) ==> (exists|j: int|
                    0 <= j < out@.len() && (#[trigger] out@[j])@ == t) || ref_toks(
                    text@.skip(i as int),
                ).contains(t),
        decreases n - i,
    {
        let ghost rest = text@.skip(i as int);
        let c = text[i];
        proof {
            assert(rest[0] == c);
            assert(rest.skip(1) =~= text@.skip(i as int + 1));
        }
        if c == 35 {
            let d = digit_run(text, i + 1);
            if d >= 1 {
                let ghost tok = text@.subrange(i as int, i as int + 1 + d);
                proof {
                    assert(digit_prefix_len(rest.skip(1)) == d);
                    assert(rest.subrange(0, 1 + d as int) =~= tok);
                }
                let piece = crate::text::subrange_vec(text, i, i + 1 + d);
                let ghost pre = out@;
                out.push(piece);
                i = i + 1 + d;
                proof {
                    assert(ref_toks(rest) == ref_toks(text@.skip(i as int)).insert(tok)) by {
                        assert(rest.skip(1 + d as int) =~= text@.skip(i as int));
                    }
                    assert(out@[pre.len() as int]@ == tok);
                    assert(ref_toks(text@).contains(tok)) by {
                        assert(ref_toks(rest).contains(tok));
                        lemma_ref_toks_skip_subset(text@, i as int - 1 - d as int);
                    }
                    assert(forall|j: int| 0 <= j < pre.len() ==> out@[j] == pre[j]);
                }
            } else {
                i = i + 1;
                proof {
                    assert(ref_toks(rest) == ref_toks(text@.skip(i as int)));
                }
            }
        } else {
            i = i + 1;
            proof {
                assert(ref_toks(rest) == ref_toks(text@.skip(i as int)));
            }
        }
    }
    proof {
        assert(text@.skip(n as int) =~= Seq::<u8>::empty());
    }
    out
}

/// Every token of a suffix is a token of the whole text.
proof fn lemma_ref_toks_skip_subset(s: Seq<u8>, i: int)
    requires
        0 <= i <= s.len(),
    ensures
        forall|t: Seq<u8>| ref_toks(s.skip(i)).contains(t) ==> ref_toks(s).contains(t),
    decreases i,
{
    if i > 0 {
        lemma_ref_toks_skip_subset(s, i - 1);
        lemma_ref_toks_skip_step(s.skip(i - 1));
        assert(s.skip(i - 1).skip(1) =~= s.skip(i));
    } else {
        assert(s.skip(0) =~= s);
    }
}

/// Tokens survive dropping one leading byte.
proof fn lemma_ref_toks_skip_step(s: Seq<u8>)
    requires
        s.len() >= 1,
    ensures
        forall|t: Seq<u8>| ref_toks(s.skip(1)).contains(t) ==> ref_toks(s).contains(t),
    decreases s.len(),
{
    if s[0] == 35 && digit_prefix_len(s.skip(1)) >= 1 {
        let d = digit_prefix_len(s.skip(1)) as int;
        lemma_digit_prefix(s.skip(1));
        lemma_ref_toks_prefix_digits(s.skip(1), d);
        assert forall|t: Seq<u8>| ref_toks(s.skip(1)).contains(t) implies ref_toks(s).contains(
            t,
        ) by {
            assert(ref_toks(s.skip(1)) == ref_toks(s.skip(1).skip(d)));
            assert(s.skip(1).skip(d) =~= s.skip(1 + d));
            assert(ref_toks(s) == ref_toks(s.skip(1 + d)).insert(s.subrange(0, 1 + d)));
        }
    } else {
    }
}

/// A run of digits at the head of a text starts no token: token values
/// inside the run are unchanged by skipping it.
proof fn lemma_ref_toks_prefix_digits(s: Seq<u8>, d: int)
    requires
        0 <= d <= digit_prefix_len(s),
    ensures
        ref_toks(s) == ref_toks(s.skip(d)),
    decreases d,
{
    if d > 0 {
        lemma_digit_prefix(s);
        assert(is_digit(s[0]));
        assert(ref_toks(s) == ref_toks(s.skip(1)));
        assert(digit_prefix_len(s.skip(1)) >= d - 1) by {
            lemma_digit_prefix(s);
        }
        lemma_ref_toks_prefix_digits(s.skip(1), d - 1);
        assert(s.skip(1).skip(d - 1) =~= s.skip(d));
    } else {
        assert(s.skip(0) =~= s);
    }
}

/// A byte allowed inside a pure reference-list attribute: digit, `#`, `,`.
pub open spec fn is_listbyte(b: u8) -> bool {
    is_digit(b) || b == 35 || b == 44
}

/// A pure reference-list attribute shape: `(` then only digits, `#` and
/// `,`, then `)`.
pub open spec fn is_ref_list_shape(s: Seq<u8>) -> bool {
    s.len() >= 2 && s[0] == 40 && s[s.len() - 1] == 41 && (forall|i: int|
        1 <= i < s.len() - 1 ==> is_listbyte(s[i]))
}

/// Decides the reference-list attribute shape.
#[verifier::loop_isolation(false)]
pub fn ref_list_shape(v: &Vec<u8>) -> (r: bool)
    ensures
        r == is_ref_list_shape(v@),
{
    let n = v.len();
    if n < 2 || v[0] != 40 || v[n - 1] != 41 {
        return false;
    }
    let mut i: usize = 1;
    while i < n - 1
        invariant
            1 <= i <= n - 1,
            forall|j: int| 1 <= j < i ==> is_listbyte(v@[j]),
        decreases n - i,
    {
        let b = v[i];
        if !(is_digit_byte(b) || b == 35 || b == 44) {
            return false;
        }
        i = i + 1;
    }
    true
}

/// The length of the longest run of list bytes at the head of `s`.
pub open spec fn list_run_len(s: Seq<u8>) -> nat
    decreases s.len(),
{
    if s.len() > 0 && is_listbyte(s[0]) {
        1 + list_run_len(s.skip(1))
    } else {
        0
    }
}

proof fn lemma_list_run(s: Seq<u8>)
    ensures
        list_run_len(s) <= s.len(),
        forall|i: int| 0 <= i < list_run_len(s) ==> is_listbyte(s[i]),
        list_run_len(s) < s.len() ==> !is_listbyte(s[list_run_len(s) as int]),
    decreases s.len(),
{
    if s.len() > 0 && is_listbyte(s[0]) {
        lemma_list_run(s.skip(1));
        assert(forall|i: int| 1 <= i < list_run_len(s) ==> s[i] == s.skip(1)[i - 1]);
    }
}

/// The length of the run of list bytes in `v` starting at `start`.
#[verifier::loop_isolation(false)]
fn listbyte_run(v: &Vec<u8>, start: usize) -> (d: usize)
    requires
        start <= v@.len(),
    ensures
        d == list_run_len(v@.skip(start as int)),
        start + d <= v@.len(),
{
    let n = v.len();
    let mut j: usize = start;
    while j < n && (is_digit_byte(v[j]) || v[j] == 35 || v[j] == 44)
        invariant
            start <= j <= n,
            forall|i: int| start <= i < j ==> is_listbyte(v@[i]),
        decreases n - j,
    {
        j = j + 1;
    }
    proof {
        let s = v@.skip(start as int);
        lemma_list_run(s);
        assert(forall|i: int| 0 <= i < s.len() ==> s[i] == v@[start + i]);
        assert(list_run_len(s) == j - start) by {
            if list_run_len(s) < j - start {
                assert(is_listbyte(s[list_run_len(s) as int]));
            }
            if list_run_len(s) > j - start {
                assert(j < n && !is_listbyte(v@[j as int]));
                assert(is_listbyte(s[j - start]));
            }
        }
    }
    j - start
}

/// A parenthesized nonempty run of digits, `#` and `,` starting at `i`,
/// closed by `)` right after the run.
pub open spec fn rel_match_at(s: Seq<u8>, i: int) -> bool {
    0 <= i < s.len() && s[i] == 40 && list_run_len(s.skip(i + 1)) >= 1 && i + 1 + list_run_len(
        s.skip(i + 1),
    ) < s.len() && s[i + 1 + list_run_len(s.skip(i + 1))] == 41
}

/// The body with its first parenthesized reference run emptied to `()`;
/// unchanged when no such run occurs.
pub open spec fn heal_spec(s: Seq<u8>) -> Seq<u8> {
    if exists|i: int| rel_match_at(s, i) {
        let i = choose|i: int|
            rel_match_at(s, i) && (forall|j: int| 0 <= j < i ==> !rel_match_at(s, j));
        s.take(i) + seq![40u8, 41u8] + s.skip(i + 2 + list_run_len(s.skip(i + 1)))
    } else {
        s
    }
}

/// Empties the first parenthesized reference run of a relationship body.
#[verifier::loop_isolation(false)]
pub fn heal_rel(v: &Vec<u8>) -> (r: Vec<u8>)
    ensures
        r@ == heal_spec(v@),
{
    let n = v.len();
    let mut i: usize = 0;
    while i < n
        invariant
            0 <= i <= n,
            forall|j: int| 0 <= j < i ==> !rel_match_at(v@, j),
        decreases n - i,
    {
        if v[i] == 40 {
            let k = listbyte_run(v, i + 1);
            if k >= 1 && i + 1 + k < n && v[i + 1 + k] == 41 {
                proof {
                    assert(rel_match_at(v@, i as int));
                    let c = choose|c: int|
                        rel_match_at(v@, c) && (forall|j: int| 0 <= j < c ==> !rel_match_at(v@, j));
                    assert(rel_match_at(v@, i as int) && (forall|j: int|
                        0 <= j < i ==> !rel_match_at(v@, j)));
                    assert(c == i as int) by {
                        if c < i as int {
                            assert(!rel_match_at(v@, c));
                        }
                        if c > i as int {
                            assert(!rel_match_at(v@, i as int));
                        }
                    }
                }
                let mut out = crate::text::subrange_vec(v, 0, i);
                out.push(40);
                out.push(41);
                append_range(&mut out, v, i + k + 2, n);
                proof {
                    assert(v@.subrange(i as int + k + 2, n as int) =~= v@.skip(
                        i as int + 2 + list_run_len(v@.skip(i as int + 1)),
                    ));
                    assert(out@ =~= heal_spec(v@));
                }
                return out;
            }
        }
        i = i + 1;
    }
    proof {
        assert(forall|j: int| !rel_match_at(v@, j));
    }
    crate::text::copy_bytes(v)
}

/// The reference-list merge policy: a token is kept when one side has it,
/// unless the ancestor had it and either side dropped it.
pub open spec fn merged_ref_set(b: Set<Seq<u8>>, l: Set<Seq<u8>>, r: Set<Seq<u8>>) -> Set<
    Seq<u8>,
> {
    Set::new(
        |t: Seq<u8>|
            (l.contains(t) || r.contains(t)) && !(b.contains(t) && (!l.contains(t)
                || !r.contains(t))),
    )
}

/// Strictly ascending in lexicographic byte order.
pub open spec fn lex_sorted(ts: Seq<Seq<u8>>) -> bool {
    forall|i: int, j: int| 0 <= i < j < ts.len() ==> lex_lt(ts[i], ts[j])
}

/// Tokens joined with commas.
pub open spec fn join_tokens(ts: Seq<Seq<u8>>) -> Seq<u8>
    decreases ts.len(),
{
    if ts.len() == 0 {
        Seq::empty()
    } else if ts.len() == 1 {
        ts[0]
    } else {
        ts[0] + seq![44u8] + join_tokens(ts.skip(1))
    }
}

/// A reference-list attribute rendered from its tokens.
pub open spec fn render_ref_list(ts: Seq<Seq<u8>>) -> Seq<u8> {
    seq![40u8] + join_tokens(ts) + seq![41u8]
}

pub proof fn lemma_join_push(ts: Seq<Seq<u8>>, t: Seq<u8>)
    ensures
        join_tokens(ts.push(t)) == if ts.len() == 0 {
            t
        } else {
            join_tokens(ts) + seq![44u8] + t
        },
    decreases ts.len(),
{
    if ts.len() == 0 {
        assert(ts.push(t)[0] == t);
        assert(join_tokens(ts.push(t)) == t);
    } else {
        lemma_join_push(ts.skip(1), t);
        assert(ts.push(t).skip(1) =~= ts.skip(1).push(t));
        if ts.len() == 1 {
            assert(join_tokens(ts.push(t)) == ts[0] + seq![44u8] + t);
            assert(join_tokens(ts) == ts[0]);
        } else {
            assert(join_tokens(ts.push(t)) == ts[0] + seq![44u8] + (join_tokens(ts.skip(1))
                + seq![44u8] + t));
            assert(ts[0] + seq![44u8] + (join_tokens(ts.skip(1)) + seq![44u8] + t) =~= (ts[0]
                + seq![44u8] + join_tokens(ts.skip(1))) + seq![44u8] + t);
        }
    }
}

/// Whether some element of `list` holds the byte string `t`.
pub open spec fn holds_tok(list: Seq<Vec<u8>>, t: Seq<u8>) -> bool {
    exists|j: int| 0 <= j < list.len() && (#[trigger] list[j])@ == t
}

/// Whether some element of `list` holds the bytes of `tok`.
#[verifier::loop_isolation(false)]
fn contains_tok(list: &Vec<Vec<u8>>, tok: &Vec<u8>) -> (r: bool)
    ensures
        r == exists|j: int| 0 <= j < list@.len() && (#[trigger] list@[j])@ == tok@,
{
    let n = list.len();
    let mut i: usize = 0;
    while i < n
        invariant
            0 <= i <= n,
            forall|j: int| 0 <= j < i ==> (#[trigger] list@[j])@ != tok@,
        decreases n - i,
    {
        if bytes_eq(&list[i], tok) {
            return true;
        }
        i = i + 1;
    }
    false
}

/// Sorts distinct byte strings into strictly ascending lexicographic order.
#[verifier::loop_isolation(false)]
fn sort_toks(input: &Vec<Vec<u8>>) -> (out: Vec<Vec<u8>>)
    requires
        forall|i: int, j: int|
            0 <= i < j < input@.len() ==> (#[trigger] input@[i])@ != (#[trigger] input@[j])@,
    ensures
        lex_sorted(out@.map_values(|v: Vec<u8>| v@)),
        forall|t: Seq<u8>| #[trigger] holds_tok(out@, t) <==> holds_tok(input@, t),
{
    let n = input.len();
    let mut out: Vec<Vec<u8>> = Vec::new();
    let mut i: usize = 0;
    while i < n
        invariant
            0 <= i <= n,
            forall|a: int, b: int|
                0 <= a < b < out@.len() ==> lex_lt((#[trigger] out@[a])@, (#[trigger] out@[b])@),
            forall|t: Seq<u8>| #[trigger] holds_tok(out@, t) <==> holds_tok(
                input@.take(i as int),
                t,
            ),
        decreases n - i,
    {
        let x = crate::text::copy_bytes(&input[i]);
        proof {
            assert forall|a: int| 0 <= a < out@.len() implies (#[trigger] out@[a])@ != x@ by {
                assert(holds_tok(out@, out@[a]@));
                let j = choose|j: int|
                    0 <= j < input@.take(i as int).len() && (#[trigger] input@.take(
                        i as int,
                    )[j])@ == out@[a]@;
                assert(input@[j]@ == out@[a]@);
            }
        }
        let m = out.len();
        let mut p: usize = 0;
        while p < m && lex_lt_bytes(&out[p], &x)
            invariant
                0 <= p <= m == out@.len(),
                forall|a: int| 0 <= a < p ==> lex_lt((#[trigger] out@[a])@, x@),
            decreases m - p,
        {
            p = p + 1;
        }
        proof {
            if p < m {
                lemma_lex_total(out@[p as int]@, x@);
                assert(lex_lt(x@, out@[p as int]@));
                assert forall|a: int| p <= a < m implies lex_lt(x@, (#[trigger] out@[a])@) by {
                    if a > p {
                        lemma_lex_trans(x@, out@[p as int]@, out@[a]@);
                    }
                }
            }
        }
        let ghost pre = out@;
        out.insert(p, x);
        i = i + 1;
        proof {
            assert(out@ == pre.insert(p as int, x));
            assert(forall|a: int| 0 <= a < p ==> out@[a] == pre[a]);
            assert(forall|a: int| p < a < out@.len() ==> out@[a] == pre[a - 1]);
            assert(out@[p as int] == x);
            assert forall|a: int, b: int|
                0 <= a < b < out@.len() implies lex_lt(
                (#[trigger] out@[a])@,
                (#[trigger] out@[b])@,
            ) by {}
            assert forall|t: Seq<u8>| #[trigger] holds_tok(out@, t) <==> holds_tok(
                input@.take(i as int),
                t,
            ) by {
                if holds_tok(out@, t) {
                    let j = choose|j: int| 0 <= j < out@.len() && (#[trigger] out@[j])@ == t;
                    if j < p {
                        assert(pre[j]@ == t);
                        assert(holds_tok(pre, t));
                        assert(holds_tok(input@.take(i as int - 1), t));
                        let u = choose|u: int|
                            0 <= u < input@.take(i as int - 1).len() && (#[trigger] input@.take(
                                i as int - 1,
                            )[u])@ == t;
                        assert(input@.take(i as int)[u]@ == t);
                    } else if j > p {
                        assert(pre[j - 1]@ == t);
                        assert(holds_tok(pre, t));
                        assert(holds_tok(input@.take(i as int - 1), t));
                        let u = choose|u: int|
                            0 <= u < input@.take(i as int - 1).len() && (#[trigger] input@.take(
                                i as int - 1,
                            )[u])@ == t;
                        assert(input@.take(i as int)[u]@ == t);
                    } else {
                        assert(input@.take(i as int)[i - 1]@ == t);
                    }
                }
                if holds_tok(input@.take(i as int), t) {
                    let j = choose|j: int|
                        0 <= j < i && (#[trigger] input@.take(i as int)[j])@ == t;
                    if j == i - 1 {
                        assert(out@[p as int]@ == t);
                    } else {
                        assert(input@.take(i as int - 1)[j]@ == t);
                        assert(holds_tok(input@.take(i as int - 1), t));
                        assert(holds_tok(pre, t));
                        let a = choose|a: int| 0 <= a < pre.len() && (#[trigger] pre[a])@ == t;
                        if a < p {
                            assert(out@[a]@ == t);
                        } else {
                            assert(out@[a + 1]@ == t);
                        }
                    }
                }
            }
        }
    }
    proof {
        assert(input@.take(n as int) =~= input@);
        let ts = out@.map_values(|v: Vec<u8>| v@);
        assert forall|a: int, b: int| 0 <= a < b < ts.len() implies lex_lt(
            #[trigger] ts[a],
            #[trigger] ts[b],
        ) by {
            assert(ts[a] == out@[a]@ && ts[b] == out@[b]@);
        }
    }
    out
}

/// Two strictly sorted sequences with the same members are one sequence.
proof fn lemma_lex_sorted_unique(a: Seq<Seq<u8>>, b: Seq<Seq<u8>>)
    requires
        lex_sorted(a),
        lex_sorted(b),
        forall|t: Seq<u8>| a.contains(t) <==> b.contains(t),
    ensures
        a == b,
    decreases a.len(),
{
    if a.len() == 0 {
        if b.len() > 0 {
            assert(b.contains(b[0]));
            assert(a.contains(b[0]));
        }
        assert(a =~= b);
    } else {
        assert(a.contains(a[0]));
        assert(b.contains(a[0]));
        let j = choose|j: int| 0 <= j < b.len() && b[j] == a[0];
        assert(b[0] == a[0]) by {
            if j > 0 {
                assert(lex_lt(b[0], b[j]));
                assert(b.contains(b[0]));
                assert(a.contains(b[0]));
                let i = choose|i: int| 0 <= i < a.len() && a[i] == b[0];
                if i > 0 {
                    assert(lex_lt(a[0], a[i]));
                    lemma_lex_trans(b[0], b[j], a[i]);
                    crate::text::lemma_lex_irrefl(b[0]);
                }
                if i == 0 {
                    crate::text::lemma_lex_irrefl(b[0]);
                }
            }
        }
        assert forall|t: Seq<u8>| a.skip(1).contains(t) <==> b.skip(1).contains(t) by {
            if a.skip(1).contains(t) {
                let i = choose|i: int| 0 <= i < a.skip(1).len() && a.skip(1)[i] == t;
                assert(a[i + 1] == t);
                assert(lex_lt(a[0], t));
                assert(b.contains(t));
                let u = choose|u: int| 0 <= u < b.len() && b[u] == t;
                assert(u != 0) by {
                    crate::text::lemma_lex_irrefl(t);
                }
                assert(b.skip(1)[u - 1] == t);
            }
            if b.skip(1).contains(t) {
                let i = choose|i: int| 0 <= i < b.skip(1).len() && b.skip(1)[i] == t;
                assert(b[i + 1] == t);
                assert(lex_lt(b[0], t));
                assert(a.contains(t));
                let u = choose|u: int| 0 <= u < a.len() && a[u] == t;
                assert(u != 0) by {
                    crate::text::lemma_lex_irrefl(t);
                }
                assert(a.skip(1)[u - 1] == t);
            }
        }
        assert(lex_sorted(a.skip(1))) by {
            assert(forall|i: int, j: int|
                0 <= i < j < a.skip(1).len() ==> a.skip(1)[i] == a[i + 1] && a.skip(1)[j] == a[j
                    + 1]);
        }
        assert(lex_sorted(b.skip(1))) by {
            assert(forall|i: int, j: int|
                0 <= i < j < b.skip(1).len() ==> b.skip(1)[i] == b[i + 1] && b.skip(1)[j] == b[j
                    + 1]);
        }
        lemma_lex_sorted_unique(a.skip(1), b.skip(1));
        assert(a =~= b) by {
            assert(forall|i: int| 1 <= i < a.len() ==> a[i] == a.skip(1)[i - 1]);
            assert(forall|i: int| 1 <= i < b.len() ==> b[i] == b.skip(1)[i - 1]);
        }
    }
}

/// The one strictly sorted enumeration of a finite set of byte strings.
pub open spec fn sorted_tok_seq(s: Set<Seq<u8>>) -> Seq<Seq<u8>> {
    choose|ts: Seq<Seq<u8>>|
        lex_sorted(ts) && (forall|t: Seq<u8>| #[trigger] ts.contains(t) <==> s.contains(t))
}

/// The merged reference-list attribute, rendered.
pub open spec fn merged_ref_attr(b: Seq<u8>, l: Seq<u8>, r: Seq<u8>) -> Seq<u8> {
    render_ref_list(sorted_tok_seq(merged_ref_set(ref_toks(b), ref_toks(l), ref_toks(r))))
}

/// Merges one reference-list attribute three ways, by token sets: tokens of
/// either descendant are kept unless the ancestor held them and a side
/// dropped them; the result lists the kept tokens once each, in ascending
/// lexicographic order, wrapped in parentheses.
#[verifier::loop_isolation(false)]
#[verifier::rlimit(100)]
pub fn merge_ref_lists(b: &Vec<u8>, l: &Vec<u8>, r: &Vec<u8>) -> (out: Vec<u8>)
    ensures
        out@ == merged_ref_attr(b@, l@, r@),
{
    let bt = collect_ref_toks(b);
    let lt = collect_ref_toks(l);
    let rt = collect_ref_toks(r);
    let ghost mset = merged_ref_set(ref_toks(b@), ref_toks(l@), ref_toks(r@));
    let mut cand: Vec<Vec<u8>> = Vec::new();
    let mut i: usize = 0;
    let ln = lt.len();
    while i < ln
        invariant
            0 <= i <= ln == lt@.len(),
            forall|a: int, c: int|
                0 <= a < c < cand@.len() ==> (#[trigger] cand@[a])@ != (#[trigger] cand@[c])@,
            forall|a: int| 0 <= a < cand@.len() ==> mset.contains((#[trigger] cand@[a])@),
            forall|u: int|
                0 <= u < i && mset.contains((#[trigger] lt@[u])@) ==> exists|a: int|
                    0 <= a < cand@.len() && (#[trigger] cand@[a])@ == lt@[u]@,
        decreases ln - i,
    {
        let tok = crate::text::copy_bytes(&lt[i]);
        let dup = contains_tok(&cand, &tok);
        let inb = contains_tok(&bt, &tok);
        let inr = contains_tok(&rt, &tok);
        proof {
            assert(ref_toks(l@).contains(tok@));
            assert(inb == ref_toks(b@).contains(tok@));
            assert(inr == ref_toks(r@).contains(tok@));
        }
        let ghost pre = cand@;
        if !dup && (!inb || inr) {
            cand.push(tok);
            proof {
                assert(cand@[pre.len() as int]@ == lt@[i as int]@);
                assert(forall|a: int| 0 <= a < pre.len() ==> cand@[a] == pre[a]);
            }
        }
        i = i + 1;
    }
    let mut j: usize = 0;
    let rn = rt.len();
    while j < rn
        invariant
            0 <= j <= rn == rt@.len(),
            forall|a: int, c: int|
                0 <= a < c < cand@.len() ==> (#[trigger] cand@[a])@ != (#[trigger] cand@[c])@,
            forall|a: int| 0 <= a < cand@.len() ==> mset.contains((#[trigger] cand@[a])@),
            forall|u: int|
                0 <= u < lt@.len() && mset.contains((#[trigger] lt@[u])@) ==> exists|a: int|
                    0 <= a < cand@.len() && (#[trigger] cand@[a])@ == lt@[u]@,
            forall|u: int|
                0 <= u < j && mset.contains((#[trigger] rt@[u])@) ==> exists|a: int|
                    0 <= a < cand@.len() && (#[trigger] cand@[a])@ == rt@[u]@,
        decreases rn - j,
    {
        let tok = crate::text::copy_bytes(&rt[j]);
        let dup = contains_tok(&cand, &tok);
        let inb = contains_tok(&bt, &tok);
        let inl = contains_tok(&lt, &tok);
        proof {
            assert(ref_toks(r@).contains(tok@));
            assert(inb == ref_toks(b@).contains(tok@));
            assert(inl == ref_toks(l@).contains(tok@));
        }
        let ghost pre = cand@;
        if !dup && (!inb || inl) {
            cand.push(tok);
            proof {
                assert(cand@[pre.len() as int]@ == rt@[j as int]@);
                assert(forall|a: int| 0 <= a < pre.len() ==> cand@[a] == pre[a]);
            }
        }
        j = j + 1;
    }
    proof {
        assert forall|t: Seq<u8>| #[trigger]
            mset.contains(t) implies exists|a: int|
            0 <= a < cand@.len() && (#[trigger] cand@[a])@ == t by {
            if ref_toks(l@).contains(t) {
                let u = choose|u: int| 0 <= u < lt@.len() && (#[trigger] lt@[u])@ == t;
            } else {
                assert(ref_toks(r@).contains(t));
                let u = choose|u: int| 0 <= u < rt@.len() && (#[trigger] rt@[u])@ == t;
            }
        }
    }
    let sorted = sort_toks(&cand);
    let ghost ts = sorted@.map_values(|v: Vec<u8>| v@);
    let mut res: Vec<u8> = Vec::new();
    res.push(40);
    let sn = sorted.len();
    let mut k: usize = 0;
    while k < sn
        invariant
            0 <= k <= sn == sorted@.len(),
            ts == sorted@.map_values(|v: Vec<u8>| v@),
            res@ == seq![40u8] + join_tokens(ts.take(k as int)),
        decreases sn - k,
    {
        if k > 0 {
            res.push(44);
        }
        let ghost mid = res@;
        append_range(&mut res, &sorted[k], 0, sorted[k].len());
        k = k + 1;
        proof {
            lemma_join_push(ts.take(k as int - 1), ts[k as int - 1]);
            assert(ts.take(k as int - 1).push(ts[k as int - 1]) =~= ts.take(k as int));
            assert(sorted@[k as int - 1]@.subrange(0, sorted@[k as int - 1]@.len() as int)
                =~= ts[k as int - 1]);
            if k == 1 {
                assert(res@ =~= seq![40u8] + join_tokens(ts.take(k as int)));
            } else {
                assert(res@ =~= seq![40u8] + join_tokens(ts.take(k as int)));
            }
        }
    }
    res.push(41);
    proof {
        assert(ts.take(sn as int) =~= ts);
        assert(res@ =~= render_ref_list(ts));
        assert forall|t: Seq<u8>| ts.contains(t) <==> mset.contains(t) by {
            if ts.contains(t) {
                let a = choose|a: int| 0 <= a < ts.len() && ts[a] == t;
                assert(sorted@[a]@ == t);
                assert(holds_tok(sorted@, t));
                assert(holds_tok(cand@, t));
                let c = choose|c: int| 0 <= c < cand@.len() && (#[trigger] cand@[c])@ == t;
            }
            if mset.contains(t) {
                let a = choose|a: int| 0 <= a < cand@.len() && (#[trigger] cand@[a])@ == t;
                assert(holds_tok(cand@, t));
                assert(holds_tok(sorted@, t));
                let s2 = choose|s2: int| 0 <= s2 < sorted@.len() && (#[trigger] sorted@[s2])@ == t;
                assert(ts[s2] == t);
            }
        }
        assert(lex_sorted(ts));
        let cts = sorted_tok_seq(mset);
        assert(lex_sorted(cts) && (forall|t: Seq<u8>| #[trigger] cts.contains(t) <==> mset.contains(
            t,
        ))) by {
            assert(lex_sorted(ts) && (forall|t: Seq<u8>| #[trigger] ts.contains(t)
                <==> mset.contains(t)));
        }
        lemma_lex_sorted_unique(ts, cts);
        assert(res@ == merged_ref_attr(b@, l@, r@));
    }
    res
}

} // verus!
