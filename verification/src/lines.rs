//! The record parser and serializer: classifying the lines of a file into
//! entity records, comments and envelope lines, and rendering a store back
//! into lines, with the timestamp of a file-name header rewritten.

use vstd::prelude::*;
use crate::num::{
    dec_value, dec_repr, digit_prefix_len, digit_run, parse_dec, render_usize,
};
use crate::text::{spec_starts_with, starts_with, copy_bytes, subrange_vec};
use crate::store::Ifc;

verus! {

/// The marker of the envelope line carrying the file name and timestamp.
pub open spec fn file_name_marker() -> Seq<u8> {
    seq![70u8, 73u8, 76u8, 69u8, 95u8, 78u8, 65u8, 77u8, 69u8]
}

/// The marker of the envelope line that opens the data section.
pub open spec fn data_marker() -> Seq<u8> {
    seq![68u8, 65u8, 84u8, 65u8, 59u8]
}

fn file_name_marker_vec() -> (r: Vec<u8>)
    ensures
        r@ == file_name_marker(),
{
    let mut v: Vec<u8> = Vec::new();
    v.push(70);
    v.push(73);
    v.push(76);
    v.push(69);
    v.push(95);
    v.push(78);
    v.push(65);
    v.push(77);
    v.push(69);
    proof {
        assert(v@ =~= file_name_marker());
    }
    v
}

fn data_marker_vec() -> (r: Vec<u8>)
    ensures
        r@ == data_marker(),
{
    let mut v: Vec<u8> = Vec::new();
    v.push(68);
    v.push(65);
    v.push(84);
    v.push(65);
    v.push(59);
    proof {
        assert(v@ =~= data_marker());
    }
    v
}

/// The index of the last `;` at or after `lo`, or `lo - 1` when there is
/// none.
pub open spec fn last_semi(s: Seq<u8>, lo: int) -> int
    decreases s.len(),
{
    if s.len() == 0 || s.len() <= lo {
        lo - 1
    } else if s[s.len() - 1] == 59 {
        s.len() - 1
    } else {
        last_semi(s.drop_last(), lo)
    }
}

proof fn lemma_last_semi_at(s: Seq<u8>, lo: int, j: int)
    requires
        0 <= lo,
        lo <= j < s.len(),
        s[j] == 59,
        forall|t: int| j < t < s.len() ==> s[t] != 59,
    ensures
        last_semi(s, lo) == j,
    decreases s.len(),
{
    if j == s.len() - 1 {
    } else {
        assert(s[s.len() - 1] != 59);
        lemma_last_semi_at(s.drop_last(), lo, j);
    }
}

proof fn lemma_last_semi_none(s: Seq<u8>, lo: int)
    requires
        0 <= lo,
        forall|t: int| lo <= t < s.len() ==> s[t] != 59,
    ensures
        last_semi(s, lo) == lo - 1,
    decreases s.len(),
{
    if s.len() > lo {
        lemma_last_semi_none(s.drop_last(), lo);
    }
}

/// An entity record parsed from one line: `#` then digits, `=`, then the
/// body running to the last `;` of the line. The id is the numeral's value,
/// unbounded.
pub open spec fn parse_entity(s: Seq<u8>) -> Option<(nat, Seq<u8>)> {
    if s.len() >= 2 && s[0] == 35 && digit_prefix_len(s.skip(1)) >= 1 {
        let d = digit_prefix_len(s.skip(1)) as int;
        if 1 + d < s.len() && s[1 + d] == 61 {
            let j = last_semi(s, 2 + d);
            if j >= 2 + d {
                Some((dec_value(s.subrange(1, 1 + d)), s.subrange(2 + d, j)))
            } else {
                None
            }
        } else {
            None
        }
    } else {
        None
    }
}

/// The entity record a line denotes, if any: a record whose id does not fit
/// the machine's id range is left to the envelope, as any malformed line
/// is.
pub open spec fn entity_of(s: Seq<u8>) -> Option<(usize, Seq<u8>)> {
    match parse_entity(s) {
        Some(p) => if p.0 <= usize::MAX {
            Some((p.0 as usize, p.1))
        } else {
            None
        },
        None => None,
    }
}

/// Whether a line holds a block comment: a `/*` followed, at or after its
/// end, by `*/`.
pub open spec fn has_comment(s: Seq<u8>) -> bool {
    exists|i: int, j: int|
        0 <= i && i + 2 <= j && j + 2 <= s.len() && (#[trigger] s[i]) == 47 && s[i + 1] == 42 && (
        #[trigger] s[j]) == 42 && s[j + 1] == 47
}

/// Parses one line as an entity record, as `entity_of` states it.
#[verifier::loop_isolation(false)]
pub fn parse_entity_line(v: &Vec<u8>) -> (r: Option<(usize, Vec<u8>)>)
    ensures
        match r {
            Some(p) => entity_of(v@) == Some((p.0, p.1@)),
            None => entity_of(v@) is None,
        },
{
    let n = v.len();
    if n < 2 || v[0] != 35 {
        return None;
    }
    let d = digit_run(v, 1);
    if d < 1 || 1 + d >= n || v[1 + d] != 61 {
        return None;
    }
    proof {
        assert(v@.skip(1) =~= v@.subrange(1, n as int));
        crate::num::lemma_digit_prefix(v@.skip(1));
        assert forall|u: int| 1 <= u < 1 + d implies crate::text::is_digit(
            #[trigger] v@[u],
        ) by {
            assert(crate::text::is_digit(v@.skip(1)[u - 1]));
        }
    }
    let mut j: usize = n;
    while j > 2 + d
        invariant
            2 + d <= j <= n,
            forall|t: int| j <= t < n ==> v@[t] != 59,
        decreases j,
    {
        if v[j - 1] == 59 {
            proof {
                lemma_last_semi_at(v@, 2 + d as int, j - 1);
            }
            let id = match parse_dec(v, 1, 1 + d) {
                Some(id) => id,
                None => {
                    return None;
                },
            };
            let body = subrange_vec(v, 2 + d, j - 1);
            return Some((id, body));
        }
        j = j - 1;
    }
    proof {
        lemma_last_semi_none(v@, 2 + d as int);
    }
    None
}

/// Decides whether a line holds a block comment.
#[verifier::loop_isolation(false)]
pub fn line_has_comment(v: &Vec<u8>) -> (r: bool)
    ensures
        r == has_comment(v@),
{
    let n = v.len();
    if n < 2 {
        return false;
    }
    let mut i: usize = 0;
    while i < n - 1 && !(v[i] == 47 && v[i + 1] == 42)
        invariant
            0 <= i,
            i <= n,
            forall|t: int| 0 <= t < i ==> !((#[trigger] v@[t]) == 47 && v@[t + 1] == 42) || t + 1
                >= n,
        decreases n - i,
    {
        i = i + 1;
    }
    if i >= n - 1 {
        proof {
            assert(!has_comment(v@)) by {
                if has_comment(v@) {
                    let (a, b): (int, int) = choose|a: int, b: int|
                        0 <= a && a + 2 <= b && b + 2 <= v@.len() && (#[trigger] v@[a]) == 47
                            && v@[a + 1] == 42 && (#[trigger] v@[b]) == 42 && v@[b + 1] == 47;
                    assert(!(v@[a] == 47 && v@[a + 1] == 42) || a + 1 >= n);
                }
            }
        }
        return false;
    }
    let start = i + 2;
    let mut j: usize = start;
    while j < n - 1 && !(v[j] == 42 && v[j + 1] == 47)
        invariant
            start <= j <= n,
            forall|t: int| start <= t < j ==> !((#[trigger] v@[t]) == 42 && v@[t + 1] == 47) || t
                + 1 >= n,
        decreases n - j,
    {
        j = j + 1;
    }
    if j < n - 1 {
        proof {
            assert(v@[i as int] == 47 && v@[i as int + 1] == 42);
            assert(v@[j as int] == 42 && v@[j as int + 1] == 47);
        }
        true
    } else {
        proof {
            assert(!has_comment(v@)) by {
                if has_comment(v@) {
                    let (a, b): (int, int) = choose|a: int, b: int|
                        0 <= a && a + 2 <= b && b + 2 <= v@.len() && (#[trigger] v@[a]) == 47
                            && v@[a + 1] == 42 && (#[trigger] v@[b]) == 42 && v@[b + 1] == 47;
                    assert(a >= i);
                    assert(b >= start);
                    assert(!(v@[b] == 42 && v@[b + 1] == 47) || b + 1 >= n);
                }
            }
        }
        false
    }
}

/// The envelope after reading the first `i` lines: every line that is
/// neither an entity record nor a comment, in order.
pub open spec fn parse_envelope(lines: Seq<Seq<u8>>, i: int) -> Seq<Seq<u8>>
    decreases i,
{
    if i <= 0 {
        Seq::empty()
    } else {
        let prev = parse_envelope(lines, i - 1);
        if entity_of(lines[i - 1]) is None && !has_comment(lines[i - 1]) {
            prev.push(lines[i - 1])
        } else {
            prev
        }
    }
}

/// The id-to-body map after reading the first `i` lines; a later record
/// under an id already read replaces the earlier one.
pub open spec fn parse_map(lines: Seq<Seq<u8>>, i: int) -> Map<usize, Seq<u8>>
    decreases i,
{
    if i <= 0 {
        Map::empty()
    } else {
        let prev = parse_map(lines, i - 1);
        match entity_of(lines[i - 1]) {
            Some(p) => prev.insert(p.0, p.1),
            None => prev,
        }
    }
}

/// Builds a store from the lines of a file: entity lines fill the map,
/// comment lines are dropped, every other line joins the envelope.
#[verifier::loop_isolation(false)]
pub fn load_lines(lines: &Vec<Vec<u8>>) -> (r: Ifc)
    ensures
        r.wf(),
        r.emap() == parse_map(lines@.map_values(|v: Vec<u8>| v@), lines@.len() as int),
        r.headers_view() == parse_envelope(
            lines@.map_values(|v: Vec<u8>| v@),
            lines@.len() as int,
        ),
        r.added_set() == Set::<usize>::empty(),
        r.deleted_set() == Set::<usize>::empty(),
        r.modified_set() == Set::<usize>::empty(),
{
    let ghost ls = lines@.map_values(|v: Vec<u8>| v@);
    let mut st = Ifc::new();
    let n = lines.len();
    let mut i: usize = 0;
    while i < n
        invariant
            0 <= i <= n == ls.len(),
            ls == lines@.map_values(|v: Vec<u8>| v@),
            st.wf(),
            st.emap() == parse_map(ls, i as int),
            st.headers_view() == parse_envelope(ls, i as int),
            st.added_set() == Set::<usize>::empty(),
            st.deleted_set() == Set::<usize>::empty(),
            st.modified_set() == Set::<usize>::empty(),
        decreases n - i,
    {
        proof {
            assert(ls[i as int] == lines@[i as int]@);
        }
        match parse_entity_line(&lines[i]) {
            Some(p) => {
                let (id, body) = p;
                st.insert(id, body);
            },
            None => {
                if !line_has_comment(&lines[i]) {
                    st.push_header(copy_bytes(&lines[i]));
                }
            },
        }
        i = i + 1;
    }
    st
}

/// One entity record rendered as a line.
pub open spec fn entity_line(id: usize, b: Seq<u8>) -> Seq<u8> {
    seq![35u8] + dec_repr(id as nat) + seq![61u8] + b + seq![59u8]
}

/// A timestamp shape `....-..-..T..:..:..(+|-)..:..` at position `i`, with
/// no line break inside.
pub open spec fn ts_match_at(s: Seq<u8>, i: int) -> bool {
    0 <= i && i + 25 <= s.len() && s[i + 4] == 45 && s[i + 7] == 45 && s[i + 10] == 84 && s[i + 13]
        == 58 && s[i + 16] == 58 && (s[i + 19] == 43 || s[i + 19] == 45) && s[i + 22] == 58 && (
    forall|t: int| i <= t < i + 25 ==> s[t] != 10)
}

/// The line with its first timestamp shape replaced by `now`; unchanged
/// when none occurs.
pub open spec fn ts_replace(s: Seq<u8>, now: Seq<u8>) -> Seq<u8> {
    if exists|i: int| ts_match_at(s, i) {
        let i = choose|i: int|
            ts_match_at(s, i) && (forall|j: int| 0 <= j < i ==> !ts_match_at(s, j));
        s.take(i) + now + s.skip(i + 25)
    } else {
        s
    }
}

/// An envelope line as serialized: a file-name line gets the fresh
/// timestamp, every other line is written verbatim.
pub open spec fn render_header_line(h: Seq<u8>, now: Seq<u8>) -> Seq<u8> {
    if spec_starts_with(h, file_name_marker()) {
        ts_replace(h, now)
    } else {
        h
    }
}

/// Whether `ts_match_at` holds at `i`.
#[verifier::loop_isolation(false)]
fn check_ts_at(v: &Vec<u8>, i: usize) -> (r: bool)
    requires
        i <= v@.len(),
    ensures
        r == ts_match_at(v@, i as int),
{
    let n = v.len();
    if n < 25 || i > n - 25 {
        return false;
    }
    if v[i + 4] != 45 || v[i + 7] != 45 || v[i + 10] != 84 || v[i + 13] != 58 || v[i + 16] != 58
        || !(v[i + 19] == 43 || v[i + 19] == 45) || v[i + 22] != 58 {
        return false;
    }
    let mut t: usize = 0;
    while t < 25
        invariant
            0 <= t <= 25,
            forall|u: int| i <= u < i + t ==> v@[u] != 10,
        decreases 25 - t,
    {
        if v[i + t] == 10 {
            return false;
        }
        t = t + 1;
    }
    true
}

/// Replaces the first timestamp shape of a line with `now`.
#[verifier::loop_isolation(false)]
pub fn ts_replace_line(v: &Vec<u8>, now: &Vec<u8>) -> (r: Vec<u8>)
    ensures
        r@ == ts_replace(v@, now@),
{
    let n = v.len();
    let mut i: usize = 0;
    while i < n
        invariant
            0 <= i <= n,
            forall|j: int| 0 <= j < i ==> !ts_match_at(v@, j),
        decreases n - i,
    {
        if check_ts_at(v, i) {
            proof {
                let c = choose|c: int|
                    ts_match_at(v@, c) && (forall|j: int| 0 <= j < c ==> !ts_match_at(v@, j));
                assert(ts_match_at(v@, i as int) && (forall|j: int|
                    0 <= j < i ==> !ts_match_at(v@, j)));
                assert(c == i as int) by {
                    if c < i as int {
                        assert(!ts_match_at(v@, c));
                    }
                    if c > i as int {
                        assert(!ts_match_at(v@, i as int));
                    }
                }
            }
            let mut out = subrange_vec(v, 0, i);
            let ghost pre = out@;
            append_all(&mut out, now);
            append_tail(&mut out, v, i + 25);
            proof {
                assert(out@ =~= ts_replace(v@, now@));
            }
            return out;
        }
        i = i + 1;
    }
    proof {
        assert(forall|j: int| !ts_match_at(v@, j));
    }
    copy_bytes(v)
}

/// Appends all of `src` to `out`.
fn append_all(out: &mut Vec<u8>, src: &Vec<u8>)
    ensures
        final(out)@ == old(out)@ + src@,
{
    let hi = src.len();
    append_piece(out, src, 0, hi);
    proof {
        assert(src@.subrange(0, src@.len() as int) =~= src@);
    }
}

/// Appends `src[lo..]` to `out`.
fn append_tail(out: &mut Vec<u8>, src: &Vec<u8>, lo: usize)
    requires
        lo <= src@.len(),
    ensures
        final(out)@ == old(out)@ + src@.skip(lo as int),
{
    let hi = src.len();
    append_piece(out, src, lo, hi);
    proof {
        assert(src@.subrange(lo as int, src@.len() as int) =~= src@.skip(lo as int));
    }
}

/// Appends `src[lo..hi]` to `out`.
#[verifier::loop_isolation(false)]
fn append_piece(out: &mut Vec<u8>, src: &Vec<u8>, lo: usize, hi: usize)
    requires
        lo <= hi <= src@.len(),
    ensures
        final(out)@ == old(out)@ + src@.subrange(lo as int, hi as int),
{
    let mut j: usize = lo;
    while j < hi
        invariant
            lo <= j <= hi,
            out@ == old(out)@ + src@.subrange(lo as int, j as int),
        decreases hi - j,
    {
        out.push(src[j]);
        j = j + 1;
        proof {
            assert(out@ =~= old(out)@ + src@.subrange(lo as int, j as int));
        }
    }
    proof {
        assert(out@ =~= old(out)@ + src@.subrange(lo as int, hi as int));
    }
}

/// A strictly ascending enumeration of an id-to-body map.
pub open spec fn enumerates(es: Seq<(usize, Seq<u8>)>, m: Map<usize, Seq<u8>>) -> bool {
    (forall|i: int, j: int| 0 <= i < j < es.len() ==> (#[trigger] es[i]).0 < (#[trigger] es[j]).0)
        && (forall|k: usize|
        m.contains_key(k) <==> exists|i: int| 0 <= i < es.len() && (#[trigger] es[i]).0 == k) && (
    forall|i: int|
        0 <= i < es.len() ==> m.contains_key((#[trigger] es[i]).0) && m[es[i].0] == es[i].1)
}

/// The serialized file: every envelope line in order, the file-name line
/// re-timestamped, and after each data-section marker every entity record
/// as `#id=body;` in ascending id order.
pub open spec fn render_rec(
    hs: Seq<Seq<u8>>,
    es: Seq<(usize, Seq<u8>)>,
    now: Seq<u8>,
    i: int,
) -> Seq<Seq<u8>>
    decreases i,
{
    if i <= 0 {
        Seq::empty()
    } else {
        let prev = render_rec(hs, es, now, i - 1);
        let line = render_header_line(hs[i - 1], now);
        if spec_starts_with(hs[i - 1], data_marker()) {
            prev.push(line) + es.map_values(|p: (usize, Seq<u8>)| entity_line(p.0, p.1))
        } else {
            prev.push(line)
        }
    }
}

pub open spec fn render_spec(hs: Seq<Seq<u8>>, es: Seq<(usize, Seq<u8>)>, now: Seq<u8>) -> Seq<
    Seq<u8>,
> {
    render_rec(hs, es, now, hs.len() as int)
}

/// Renders one entity record as a line.
fn render_entity_line(id: usize, body: &Vec<u8>) -> (r: Vec<u8>)
    ensures
        r@ == entity_line(id, body@),
{
    let mut out: Vec<u8> = Vec::new();
    out.push(35);
    let digits = render_usize(id);
    append_all(&mut out, &digits);
    out.push(61);
    append_all(&mut out, body);
    out.push(59);
    proof {
        assert(out@ =~= entity_line(id, body@));
    }
    out
}

/// Renders every entity record as a line, in ascending id order, together
/// with the enumeration it came from.
#[verifier::loop_isolation(false)]
#[verifier::rlimit(100)]
fn entity_lines_of(store: &Ifc) -> (r: (Vec<Vec<u8>>, Ghost<Seq<(usize, Seq<u8>)>>))
    requires
        store.wf(),
    ensures
        enumerates(r.1@, store.emap()),
        r.0@.map_values(|v: Vec<u8>| v@) == r.1@.map_values(
            |p: (usize, Seq<u8>)| entity_line(p.0, p.1),
        ),
{
    let ids = store.file_ids();
    let mut elines: Vec<Vec<u8>> = Vec::new();
    let ghost mut es: Seq<(usize, Seq<u8>)> = Seq::empty();
    let mut i: usize = 0;
    let en = ids.len();
    while i < en
        invariant
            0 <= i <= en == ids@.len(),
            es.len() == i,
            forall|j: int| 0 <= j < i ==> (#[trigger] es[j]).0 == ids@[j],
            forall|j: int|
                0 <= j < i ==> store.emap().contains_key((#[trigger] es[j]).0) && store.emap()[
                    es[j].0] == es[j].1,
            elines@.map_values(|v: Vec<u8>| v@) == es.map_values(
                |p: (usize, Seq<u8>)| entity_line(p.0, p.1),
            ),
        decreases en - i,
    {
        let id = ids[i];
        proof {
            assert(ids@.contains(id));
        }
        let body = match store.get_body(id) {
            Some(b) => b,
            None => {
                proof {
                    assert(false);
                }
                Vec::new()
            },
        };
        let line = render_entity_line(id, &body);
        let ghost pre_lines = elines@;
        let ghost pre_es = es;
        elines.push(line);
        proof {
            es = pre_es.push((id, body@));
            assert forall|j: int| 0 <= j < es.len() implies elines@[j]@ == entity_line(
                (#[trigger] es[j]).0,
                es[j].1,
            ) by {
                if j < pre_es.len() {
                    assert(elines@[j] == pre_lines[j]);
                    assert(es[j] == pre_es[j]);
                    assert(pre_lines.map_values(|v: Vec<u8>| v@)[j] == pre_lines[j]@);
                    assert(pre_es.map_values(|p: (usize, Seq<u8>)| entity_line(p.0, p.1))[j]
                        == entity_line(pre_es[j].0, pre_es[j].1));
                }
            }
            assert(elines@.map_values(|v: Vec<u8>| v@) =~= es.map_values(
                |p: (usize, Seq<u8>)| entity_line(p.0, p.1),
            ));
        }
        i = i + 1;
    }
    proof {
        assert(enumerates(es, store.emap())) by {
            assert forall|k: usize| store.emap().contains_key(k) implies exists|j: int|
                0 <= j < es.len() && (#[trigger] es[j]).0 == k by {
                assert(ids@.contains(k));
                let j = choose|j: int| 0 <= j < ids@.len() && ids@[j] == k;
                assert(es[j].0 == k);
            }
            assert forall|k: usize|
                (exists|j: int| 0 <= j < es.len() && (#[trigger] es[j]).0 == k) implies store.emap().contains_key(
                k,
            ) by {}
        }
    }
    (elines, Ghost(es))
}

/// Serializes a store into lines, timestamping with `now`.
#[verifier::loop_isolation(false)]
#[verifier::rlimit(100)]
pub fn render_lines(store: &Ifc, now: &Vec<u8>) -> (r: Vec<Vec<u8>>)
    requires
        store.wf(),
    ensures
        exists|es: Seq<(usize, Seq<u8>)>|
            enumerates(es, store.emap()) && r@.map_values(|v: Vec<u8>| v@) == render_spec(
                store.headers_view(),
                es,
                now@,
            ),
{
    let pair = entity_lines_of(store);
    let elines = pair.0;
    let ghost es = pair.1@;
    let fnm = file_name_marker_vec();
    let dm = data_marker_vec();
    let mut out: Vec<Vec<u8>> = Vec::new();
    let hn = store.headers_len();
    let mut h: usize = 0;
    while h < hn
        invariant
            0 <= h <= hn == store.headers_view().len(),
            store.wf(),
            fnm@ == file_name_marker(),
            dm@ == data_marker(),
            enumerates(es, store.emap()),
            elines@.map_values(|v: Vec<u8>| v@) == es.map_values(
                |p: (usize, Seq<u8>)| entity_line(p.0, p.1),
            ),
            out@.map_values(|v: Vec<u8>| v@) == render_rec(
                store.headers_view(),
                es,
                now@,
                h as int,
            ),
        decreases hn - h,
    {
        let line = store.header_at(h);
        let rendered = if starts_with(&line, &fnm) {
            ts_replace_line(&line, now)
        } else {
            copy_bytes(&line)
        };
        let ghost pre = out@;
        out.push(rendered);
        proof {
            assert(out@.map_values(|v: Vec<u8>| v@) =~= pre.map_values(|v: Vec<u8>| v@).push(
                render_header_line(store.headers_view()[h as int], now@),
            ));
        }
        if starts_with(&line, &dm) {
            let mut k: usize = 0;
            let eln = elines.len();
            let ghost mid = out@;
            while k < eln
                invariant
                    0 <= k <= eln == elines@.len(),
                    out@.map_values(|v: Vec<u8>| v@) == mid.map_values(|v: Vec<u8>| v@)
                        + elines@.map_values(|v: Vec<u8>| v@).take(k as int),
                decreases eln - k,
            {
                let ghost pre_out = out@;
                out.push(copy_bytes(&elines[k]));
                k = k + 1;
                proof {
                    assert forall|j: int| 0 <= j < out@.len() implies (#[trigger] out@[j])@ == (
                    mid.map_values(|v: Vec<u8>| v@) + elines@.map_values(|v: Vec<u8>| v@).take(
                        k as int,
                    ))[j] by {
                        if j < pre_out.len() {
                            assert(out@[j] == pre_out[j]);
                            assert(pre_out.map_values(|v: Vec<u8>| v@)[j] == pre_out[j]@);
                        } else {
                            assert(out@[j]@ == elines@[k - 1]@);
                            assert(elines@.map_values(|v: Vec<u8>| v@)[k - 1] == elines@[k
                                - 1]@);
                        }
                    }
                    assert(out@.map_values(|v: Vec<u8>| v@) =~= mid.map_values(|v: Vec<u8>| v@)
                        + elines@.map_values(|v: Vec<u8>| v@).take(k as int));
                }
            }
            proof {
                assert(elines@.map_values(|v: Vec<u8>| v@).take(eln as int) =~= es.map_values(
                    |p: (usize, Seq<u8>)| entity_line(p.0, p.1),
                ));
                assert(out@.map_values(|v: Vec<u8>| v@) =~= render_rec(
                    store.headers_view(),
                    es,
                    now@,
                    h as int + 1,
                ));
            }
        } else {
            proof {
                assert(out@.map_values(|v: Vec<u8>| v@) =~= render_rec(
                    store.headers_view(),
                    es,
                    now@,
                    h as int + 1,
                ));
            }
        }
        h = h + 1;
    }
    out
}

/// Relies on chrono's `Local::now` and its formatter: the current local
/// time rendered as `YYYY-MM-DDThh:mm:ss±hh:mm`. Nothing is assumed of the
/// value, which depends on the clock.
#[verifier::external_body]
fn local_timestamp() -> (r: Vec<u8>) {
    let s = chrono::Local::now().format("%Y-%m-%dT%H:%M:%S%:z").to_string();
    s.into_bytes()
}

/// Serializes a store into lines, timestamped with the current local time.
/// Whatever the clock returned, the result is the rendering of the store
/// under some timestamp.
pub fn render_lines_now(store: &Ifc) -> (r: Vec<Vec<u8>>)
    requires
        store.wf(),
    ensures
        exists|es: Seq<(usize, Seq<u8>)>, now: Seq<u8>|
            enumerates(es, store.emap()) && r@.map_values(|v: Vec<u8>| v@) == render_spec(
                store.headers_view(),
                es,
                now,
            ),
{
    let now = local_timestamp();
    render_lines(store, &now)
}

/// Serializing one record and parsing the line back yields the same id and
/// body: the record-level round trip of the store's serialization.
pub proof fn lemma_entity_line_roundtrip(id: usize, b: Seq<u8>)
    ensures
        entity_of(entity_line(id, b)) == Some((id, b)),
{
    let digits = dec_repr(id as nat);
    crate::num::lemma_dec_repr_canonical(id as nat);
    crate::num::lemma_dec_value_repr(id as nat);
    let s = entity_line(id, b);
    let d = digits.len() as int;
    assert(s.len() == d + 3 + b.len());
    assert(s[0] == 35);
    assert(forall|i: int| 0 <= i < d ==> s[1 + i] == digits[i]);
    assert(s[1 + d] == 61);
    assert(forall|i: int| 0 <= i < b.len() ==> s[2 + d + i] == b[i]);
    assert(s[s.len() - 1] == 59);
    assert(digit_prefix_len(s.skip(1)) == d) by {
        assert(forall|i: int|
            0 <= i < d ==> (#[trigger] s.skip(1)[i]) == digits[i] && crate::text::is_digit(
                digits[i],
            ));
        assert(s.skip(1)[d] == 61);
        crate::num::lemma_digit_prefix_is(s.skip(1), d);
    }
    assert(last_semi(s, 2 + d) == s.len() - 1);
    assert(s.subrange(1, 1 + d) =~= digits);
    assert(dec_value(s.subrange(1, 1 + d)) == id as nat);
    assert(s.subrange(2 + d, s.len() - 1) =~= b);
    assert(parse_entity(s) == Some((id as nat, b)));
}

} // verus!
