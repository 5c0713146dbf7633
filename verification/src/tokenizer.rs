//! The attribute tokenizer and the class/argument split of an entity body.
//!
//! A body reads `ClassName(attr1,attr2,...)`. The tokenizer walks the
//! argument text once, tracking parenthesis depth and a single-quote flag;
//! commas and closing parentheses split elements only at depth zero outside
//! quotes, so nested lists and quoted literals stay single opaque tokens.

use vstd::prelude::*;
use crate::text::{is_ws, is_ident, spec_trim, trim_bytes, is_ident_byte};

verus! {

/// Tokenizer state: parenthesis depth, quote flag, the element being
/// accumulated, and the elements already emitted.
pub struct TokSt {
    pub depth: int,
    pub quo: bool,
    pub cur: Seq<u8>,
    pub out: Seq<Seq<u8>>,
}

pub open spec fn tok_init() -> TokSt {
    TokSt { depth: 0, quo: false, cur: Seq::empty(), out: Seq::empty() }
}

/// One step of the tokenizer on byte `c`.
pub open spec fn tok_step(st: TokSt, c: u8) -> TokSt {
    if c == 39 {
        TokSt { depth: st.depth, quo: !st.quo, cur: st.cur.push(c), out: st.out }
    } else if c == 40 && !st.quo {
        TokSt { depth: st.depth + 1, quo: st.quo, cur: st.cur.push(c), out: st.out }
    } else if c == 41 && !st.quo {
        let cur2 = st.cur.push(c);
        if st.depth - 1 == 0 && spec_trim(cur2).len() > 0 {
            TokSt { depth: 0, quo: st.quo, cur: Seq::empty(), out: st.out.push(spec_trim(cur2)) }
        } else {
            TokSt { depth: st.depth - 1, quo: st.quo, cur: cur2, out: st.out }
        }
    } else if c == 44 {
        if st.depth == 0 && !st.quo {
            if spec_trim(st.cur).len() > 0 {
                TokSt { depth: 0, quo: false, cur: Seq::empty(), out: st.out.push(spec_trim(st.cur)) }
            } else {
                TokSt { depth: 0, quo: false, cur: Seq::empty(), out: st.out }
            }
        } else {
            TokSt { depth: st.depth, quo: st.quo, cur: st.cur.push(c), out: st.out }
        }
    } else {
        TokSt { depth: st.depth, quo: st.quo, cur: st.cur.push(c), out: st.out }
    }
}

/// The tokenizer state after reading the first `i` bytes of `s`.
pub open spec fn tok_run(s: Seq<u8>, i: int) -> TokSt
    decreases i,
{
    if i <= 0 {
        tok_init()
    } else {
        tok_step(tok_run(s, i - 1), s[i - 1])
    }
}

/// The top-level elements of an attribute-list text.
pub open spec fn spec_dissemble(s: Seq<u8>) -> Seq<Seq<u8>> {
    let st = tok_run(s, s.len() as int);
    if spec_trim(st.cur).len() > 0 {
        st.out.push(spec_trim(st.cur))
    } else {
        st.out
    }
}

proof fn lemma_tok_depth_bound(s: Seq<u8>, i: int)
    requires
        0 <= i <= s.len(),
    ensures
        -i <= tok_run(s, i).depth <= i,
    decreases i,
{
    if i > 0 {
        lemma_tok_depth_bound(s, i - 1);
    }
}

/// Splits an attribute-list text into its top-level elements; whitespace is
/// trimmed from each element and blank elements are dropped.
pub fn dissemble(text: &Vec<u8>) -> (r: Vec<Vec<u8>>)
    ensures
        r@.map_values(|v: Vec<u8>| v@) == spec_dissemble(text@),
{
    let n = text.len();
    let mut depth: i128 = 0;
    let mut quo: bool = false;
    let mut cur: Vec<u8> = Vec::new();
    let mut out: Vec<Vec<u8>> = Vec::new();
    let mut i: usize = 0;
    while i < n
        invariant
            0 <= i <= n == text@.len(),
            n <= usize::MAX,
            depth as int == tok_run(text@, i as int).depth,
            quo == tok_run(text@, i as int).quo,
            cur@ == tok_run(text@, i as int).cur,
            out@.map_values(|v: Vec<u8>| v@) == tok_run(text@, i as int).out,
        decreases n - i,
    {
        proof {
            lemma_tok_depth_bound(text@, i as int);
        }
        let c = text[i];
        let ghost st = tok_run(text@, i as int);
        if c == 39 {
            quo = !quo;
            cur.push(c);
        } else if c == 40 && !quo {
            depth = depth + 1;
            cur.push(c);
        } else if c == 41 && !quo {
            depth = depth - 1;
            cur.push(c);
            if depth == 0 {
                let trimmed = trim_bytes(&cur);
                if trimmed.len() > 0 {
                    out.push(trimmed);
                    cur = Vec::new();
                    proof {
                        assert(out@.map_values(|v: Vec<u8>| v@) =~= st.out.push(
                            spec_trim(st.cur.push(c)),
                        ));
                    }
                }
            }
        } else if c == 44 {
            if depth == 0 && !quo {
                let trimmed = trim_bytes(&cur);
                if trimmed.len() > 0 {
                    out.push(trimmed);
                    proof {
                        assert(out@.map_values(|v: Vec<u8>| v@) =~= st.out.push(spec_trim(st.cur)));
                    }
                }
                cur = Vec::new();
            } else {
                cur.push(c);
            }
        } else {
            cur.push(c);
        }
        i = i + 1;
        assert(tok_run(text@, i as int) == tok_step(st, c));
    }
    let trimmed = trim_bytes(&cur);
    if trimmed.len() > 0 {
        out.push(trimmed);
        proof {
            assert(out@.map_values(|v: Vec<u8>| v@) =~= spec_dissemble(text@));
        }
    }
    out
}

/// The length of the longest identifier run at the head of `s`.
pub open spec fn ident_prefix_len(s: Seq<u8>) -> nat
    decreases s.len(),
{
    if s.len() > 0 && is_ident(s[0]) {
        1 + ident_prefix_len(s.skip(1))
    } else {
        0
    }
}

pub proof fn lemma_ident_prefix(s: Seq<u8>)
    ensures
        ident_prefix_len(s) <= s.len(),
        forall|i: int| 0 <= i < ident_prefix_len(s) ==> is_ident(s[i]),
        ident_prefix_len(s) < s.len() ==> !is_ident(s[ident_prefix_len(s) as int]),
    decreases s.len(),
{
    if s.len() > 0 && is_ident(s[0]) {
        lemma_ident_prefix(s.skip(1));
        assert(forall|i: int| 1 <= i < ident_prefix_len(s) ==> s[i] == s.skip(1)[i - 1]);
    }
}

/// Splits a body into class name and argument text when it has the shape
/// `ClassName(arguments)`: a nonempty identifier run, an opening
/// parenthesis, argument text free of line breaks, and a closing parenthesis
/// as the last byte.
pub open spec fn body_split(b: Seq<u8>) -> Option<(Seq<u8>, Seq<u8>)> {
    let k = ident_prefix_len(b) as int;
    if 1 <= k && k + 2 <= b.len() && b[k] == 40 && b.last() == 41 && (forall|i: int|
        k + 1 <= i < b.len() - 1 ==> b[i] != 10) {
        Some((b.take(k), b.subrange(k + 1, b.len() - 1)))
    } else {
        None
    }
}

/// The class name a body declares, or the empty string when the body does
/// not have the `ClassName(arguments)` shape.
pub open spec fn spec_class_of(b: Seq<u8>) -> Seq<u8> {
    match body_split(b) {
        Some(p) => p.0,
        None => Seq::empty(),
    }
}

/// The attribute elements of a body, or the empty sequence when the body
/// does not have the `ClassName(arguments)` shape.
pub open spec fn spec_attrs_of(b: Seq<u8>) -> Seq<Seq<u8>> {
    match body_split(b) {
        Some(p) => spec_dissemble(p.1),
        None => Seq::empty(),
    }
}

/// Finds the class/argument split of a body, as `body_split` states it.
#[verifier::loop_isolation(false)]
pub fn split_body(b: &Vec<u8>) -> (r: Option<(Vec<u8>, Vec<u8>)>)
    ensures
        match r {
            Some(p) => body_split(b@) == Some((p.0@, p.1@)),
            None => body_split(b@) is None,
        },
{
    let n = b.len();
    let mut k: usize = 0;
    while k < n && is_ident_byte(b[k])
        invariant
            0 <= k <= n == b@.len(),
            forall|i: int| 0 <= i < k ==> is_ident(b@[i]),
        decreases n - k,
    {
        k = k + 1;
    }
    proof {
        lemma_ident_prefix(b@);
        assert(ident_prefix_len(b@) == k) by {
            if ident_prefix_len(b@) < k {
                assert(is_ident(b@[ident_prefix_len(b@) as int]));
            }
            if ident_prefix_len(b@) > k {
                assert(k < n && !is_ident(b@[k as int]));
            }
        }
    }
    if k < 1 || n < 2 || k > n - 2 {
        return None;
    }
    if b[k] != 40 || b[n - 1] != 41 {
        return None;
    }
    let mut j: usize = k + 1;
    while j < n - 1
        invariant
            k + 1 <= j <= n - 1,
            n == b@.len(),
            forall|i: int| k + 1 <= i < j ==> b@[i] != 10,
        decreases n - 1 - j,
    {
        if b[j] == 10 {
            return None;
        }
        j = j + 1;
    }
    let cls = crate::text::subrange_vec(b, 0, k);
    let args = crate::text::subrange_vec(b, k + 1, n - 1);
    Some((cls, args))
}

} // verus!
