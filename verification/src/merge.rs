//! The three-way merge resolver and its companions: id renumbering,
//! addition, deletion and modification resolution, attribute-level
//! reconciliation, the reference-integrity check, and the error messages
//! the tool reports.

use vstd::prelude::*;
use crate::num::dec_repr;
use crate::num::render_usize;
use crate::refs::{
    ref_vals, scan_ref_values, shift_refs, shift_refs_spec, heal_spec, heal_rel,
    is_ref_list_shape, ref_list_shape, merged_ref_attr, merge_ref_lists, join_tokens,
};
use crate::store::{Ifc, class_of_entity, attrs_of_entity, sorted_strict};
use crate::text::{
    to_lower, spec_starts_with, bytes_eq, copy_bytes, append_bytes,
};
use crate::spec_add_offset;
use crate::add_offset;

verus! {

/// The byte-string views of a vector of byte vectors.
pub open spec fn views_of(vs: Seq<Vec<u8>>) -> Seq<Seq<u8>> {
    vs.map_values(|v: Vec<u8>| v@)
}

/// A byte string lowercased, byte by byte.
pub open spec fn lower_seq(s: Seq<u8>) -> Seq<u8> {
    s.map_values(|b: u8| to_lower(b))
}

/// The class-name prefix that marks a relationship class, lowercased.
pub open spec fn ifcrel_marker() -> Seq<u8> {
    seq![105u8, 102, 99, 114, 101, 108]
}

/// The class whose attribute churn is expected and never a conflict.
pub open spec fn owner_history_class() -> Seq<u8> {
    seq![73u8, 102, 99, 79, 119, 110, 101, 114, 72, 105, 115, 116, 111, 114, 121]
}

/// Whether the entity under `id` in `m` declares a relationship class.
pub open spec fn rel_entity(m: Map<usize, Seq<u8>>, id: usize) -> bool {
    spec_starts_with(lower_seq(class_of_entity(m, id)), ifcrel_marker())
}

/// Whether the class name of `v` has the relationship prefix,
/// case-insensitively.
#[verifier::loop_isolation(false)]
pub fn class_is_rel(cls: &Vec<u8>) -> (r: bool)
    ensures
        r == spec_starts_with(lower_seq(cls@), ifcrel_marker()),
{
    let n = cls.len();
    if n < 6 {
        return false;
    }
    let mut i: usize = 0;
    let mut ok = true;
    while i < 6
        invariant
            0 <= i <= 6 <= n,
            ok == (forall|j: int| 0 <= j < i ==> lower_seq(cls@)[j] == ifcrel_marker()[j]),
        decreases 6 - i,
    {
        let b = cls[i];
        let lb: u8 = if 65 <= b && b <= 90 {
            b + 32
        } else {
            b
        };
        let want: u8 = if i == 0 {
            105
        } else if i == 1 {
            102
        } else if i == 2 {
            99
        } else if i == 3 {
            114
        } else if i == 4 {
            101
        } else {
            108
        };
        proof {
            assert(lower_seq(cls@)[i as int] == to_lower(cls@[i as int]));
            assert(ifcrel_marker()[i as int] == want) by {
                assert(ifcrel_marker() =~= seq![105u8, 102, 99, 114, 101, 108]);
            }
            assert(lb == to_lower(cls@[i as int]));
        }
        ok = ok && lb == want;
        i = i + 1;
    }
    proof {
        if ok {
            assert(lower_seq(cls@).take(6) =~= ifcrel_marker());
        } else {
            if spec_starts_with(lower_seq(cls@), ifcrel_marker()) {
                assert(forall|j: int|
                    0 <= j < 6 ==> lower_seq(cls@).take(6)[j] == lower_seq(cls@)[j]);
            }
        }
    }
    ok
}

pub open spec fn frag_deleted() -> Seq<u8> {
    seq![32u8, 100, 101, 108, 101, 116, 101, 100, 32, 101, 110, 116, 105, 116, 121, 32, 35]
}

pub open spec fn frag_modified_in() -> Seq<u8> {
    seq![32u8, 109, 111, 100, 105, 102, 105, 101, 100, 32, 105, 110, 32]
}

pub open spec fn frag_entity() -> Seq<u8> {
    seq![101u8, 110, 116, 105, 116, 121, 32, 35]
}

pub open spec fn frag_class_changed() -> Seq<u8> {
    seq![32u8, 99, 108, 97, 115, 115, 32, 99, 104, 97, 110, 103, 101, 100, 32, 105, 110, 32]
}

pub open spec fn frag_attribute() -> Seq<u8> {
    seq![32u8, 97, 116, 116, 114, 105, 98, 117, 116, 101, 32, 91]
}

pub open spec fn frag_conflict() -> Seq<u8> {
    seq![93u8, 32, 99, 111, 110, 102, 108, 105, 99, 116, 33]
}

pub open spec fn frag_required_by() -> Seq<u8> {
    seq![32u8, 114, 101, 113, 117, 105, 114, 101, 100, 32, 98, 121, 32]
}

pub open spec fn frag_deleted_in() -> Seq<u8> {
    seq![32u8, 100, 101, 108, 101, 116, 101, 100, 32, 105, 110, 32]
}

/// The report for an entity deleted on one side and modified on the other.
pub open spec fn del_err_spec(dpath: Seq<u8>, id: usize, opath: Seq<u8>) -> Seq<u8> {
    dpath + frag_deleted() + dec_repr(id as nat) + frag_modified_in() + opath + seq![33u8]
}

/// The report for a class name changed against the ancestor.
pub open spec fn class_err_spec(id: usize, path: Seq<u8>) -> Seq<u8> {
    frag_entity() + dec_repr(id as nat) + frag_class_changed() + path + seq![33u8]
}

/// The report for an attribute changed differently on both sides.
pub open spec fn attr_err_spec(id: usize, n: usize) -> Seq<u8> {
    frag_entity() + dec_repr(id as nat) + frag_attribute() + dec_repr(n as nat) + frag_conflict()
}

/// The report for a deleted entity that the other side's changes require.
pub open spec fn req_err_spec(id: usize, req_path: Seq<u8>, del_path: Seq<u8>) -> Seq<u8> {
    frag_entity() + dec_repr(id as nat) + frag_required_by() + req_path + frag_deleted_in()
        + del_path + seq![33u8]
}

fn frag_deleted_vec() -> (r: Vec<u8>)
    ensures
        r@ == frag_deleted(),
{
    let mut v: Vec<u8> = Vec::new();
    v.push(32);
    v.push(100);
    v.push(101);
    v.push(108);
    v.push(101);
    v.push(116);
    v.push(101);
    v.push(100);
    v.push(32);
    v.push(101);
    v.push(110);
    v.push(116);
    v.push(105);
    v.push(116);
    v.push(121);
    v.push(32);
    v.push(35);
    proof {
        assert(v@ =~= frag_deleted());
    }
    v
}

fn frag_modified_in_vec() -> (r: Vec<u8>)
    ensures
        r@ == frag_modified_in(),
{
    let mut v: Vec<u8> = Vec::new();
    v.push(32);
    v.push(109);
    v.push(111);
    v.push(100);
    v.push(105);
    v.push(102);
    v.push(105);
    v.push(101);
    v.push(100);
    v.push(32);
    v.push(105);
    v.push(110);
    v.push(32);
    proof {
        assert(v@ =~= frag_modified_in());
    }
    v
}

fn frag_entity_vec() -> (r: Vec<u8>)
    ensures
        r@ == frag_entity(),
{
    let mut v: Vec<u8> = Vec::new();
    v.push(101);
    v.push(110);
    v.push(116);
    v.push(105);
    v.push(116);
    v.push(121);
    v.push(32);
    v.push(35);
    proof {
        assert(v@ =~= frag_entity());
    }
    v
}

fn frag_class_changed_vec() -> (r: Vec<u8>)
    ensures
        r@ == frag_class_changed(),
{
    let mut v: Vec<u8> = Vec::new();
    v.push(32);
    v.push(99);
    v.push(108);
    v.push(97);
    v.push(115);
    v.push(115);
    v.push(32);
    v.push(99);
    v.push(104);
    v.push(97);
    v.push(110);
    v.push(103);
    v.push(101);
    v.push(100);
    v.push(32);
    v.push(105);
    v.push(110);
    v.push(32);
    proof {
        assert(v@ =~= frag_class_changed());
    }
    v
}

fn frag_attribute_vec() -> (r: Vec<u8>)
    ensures
        r@ == frag_attribute(),
{
    let mut v: Vec<u8> = Vec::new();
    v.push(32);
    v.push(97);
    v.push(116);
    v.push(116);
    v.push(114);
    v.push(105);
    v.push(98);
    v.push(117);
    v.push(116);
    v.push(101);
    v.push(32);
    v.push(91);
    proof {
        assert(v@ =~= frag_attribute());
    }
    v
}

fn frag_conflict_vec() -> (r: Vec<u8>)
    ensures
        r@ == frag_conflict(),
{
    let mut v: Vec<u8> = Vec::new();
    v.push(93);
    v.push(32);
    v.push(99);
    v.push(111);
    v.push(110);
    v.push(102);
    v.push(108);
    v.push(105);
    v.push(99);
    v.push(116);
    v.push(33);
    proof {
        assert(v@ =~= frag_conflict());
    }
    v
}

fn frag_required_by_vec() -> (r: Vec<u8>)
    ensures
        r@ == frag_required_by(),
{
    let mut v: Vec<u8> = Vec::new();
    v.push(32);
    v.push(114);
    v.push(101);
    v.push(113);
    v.push(117);
    v.push(105);
    v.push(114);
    v.push(101);
    v.push(100);
    v.push(32);
    v.push(98);
    v.push(121);
    v.push(32);
    proof {
        assert(v@ =~= frag_required_by());
    }
    v
}

fn frag_deleted_in_vec() -> (r: Vec<u8>)
    ensures
        r@ == frag_deleted_in(),
{
    let mut v: Vec<u8> = Vec::new();
    v.push(32);
    v.push(100);
    v.push(101);
    v.push(108);
    v.push(101);
    v.push(116);
    v.push(101);
    v.push(100);
    v.push(32);
    v.push(105);
    v.push(110);
    v.push(32);
    proof {
        assert(v@ =~= frag_deleted_in());
    }
    v
}

fn build_del_err(dpath: &Vec<u8>, id: usize, opath: &Vec<u8>) -> (r: Vec<u8>)
    ensures
        r@ == del_err_spec(dpath@, id, opath@),
{
    let mut v = copy_bytes(dpath);
    let f1 = frag_deleted_vec();
    append_bytes(&mut v, &f1);
    let digits = render_usize(id);
    append_bytes(&mut v, &digits);
    let f2 = frag_modified_in_vec();
    append_bytes(&mut v, &f2);
    append_bytes(&mut v, opath);
    v.push(33);
    proof {
        assert(v@ =~= del_err_spec(dpath@, id, opath@));
    }
    v
}

fn build_class_err(id: usize, path: &Vec<u8>) -> (r: Vec<u8>)
    ensures
        r@ == class_err_spec(id, path@),
{
    let mut v = frag_entity_vec();
    let digits = render_usize(id);
    append_bytes(&mut v, &digits);
    let f = frag_class_changed_vec();
    append_bytes(&mut v, &f);
    append_bytes(&mut v, path);
    v.push(33);
    proof {
        assert(v@ =~= class_err_spec(id, path@));
    }
    v
}

fn build_attr_err(id: usize, n: usize) -> (r: Vec<u8>)
    ensures
        r@ == attr_err_spec(id, n),
{
    let mut v = frag_entity_vec();
    let digits = render_usize(id);
    append_bytes(&mut v, &digits);
    let f = frag_attribute_vec();
    append_bytes(&mut v, &f);
    let idx = render_usize(n);
    append_bytes(&mut v, &idx);
    let f2 = frag_conflict_vec();
    append_bytes(&mut v, &f2);
    proof {
        assert(v@ =~= attr_err_spec(id, n));
    }
    v
}

fn build_req_err(id: usize, req_path: &Vec<u8>, del_path: &Vec<u8>) -> (r: Vec<u8>)
    ensures
        r@ == req_err_spec(id, req_path@, del_path@),
{
    let mut v = frag_entity_vec();
    let digits = render_usize(id);
    append_bytes(&mut v, &digits);
    let f = frag_required_by_vec();
    append_bytes(&mut v, &f);
    append_bytes(&mut v, req_path);
    let f2 = frag_deleted_in_vec();
    append_bytes(&mut v, &f2);
    append_bytes(&mut v, del_path);
    v.push(33);
    proof {
        assert(v@ =~= req_err_spec(id, req_path@, del_path@));
    }
    v
}


/// The condition under which renumbering is meaningful: above the
/// ancestor's maximum every id is an addition, and no shifted id overflows.
pub open spec fn renumber_ok(
    m: Map<usize, Seq<u8>>,
    added: Set<usize>,
    max: usize,
    offset: usize,
) -> bool {
    (forall|k: usize| #[trigger] m.contains_key(k) ==> (added.contains(k) <==> k > max)) && (
    forall|k: usize| #[trigger] m.contains_key(k) ==> (k > max ==> k + offset <= usize::MAX))
}

/// The body an entity carries after renumbering.
pub open spec fn renumbered_body(
    m: Map<usize, Seq<u8>>,
    added: Set<usize>,
    modified: Set<usize>,
    max: usize,
    offset: usize,
    k: usize,
) -> Seq<u8> {
    if added.contains(k) || modified.contains(k) {
        shift_refs_spec(m[k], max, offset)
    } else {
        m[k]
    }
}

/// Shifts every added id of `local` (all above `max`) up by `offset`, and
/// rewrites every `#id` reference in added and modified bodies through the
/// same rule. When the store does not meet the renumbering condition —
/// an added id inside the ancestor's range, or an overflow — nothing is
/// changed and `false` is returned.
#[verifier::loop_isolation(false)]
#[verifier::rlimit(100)]
pub fn renumber(local: &mut Ifc, max: usize, offset: usize) -> (applied: bool)
    requires
        old(local).wf(),
    ensures
        final(local).wf(),
        final(local).headers_view() == old(local).headers_view(),
        final(local).added_set() == old(local).added_set(),
        final(local).deleted_set() == old(local).deleted_set(),
        final(local).modified_set() == old(local).modified_set(),
        applied == renumber_ok(old(local).emap(), old(local).added_set(), max, offset),
        !applied ==> final(local).emap() == old(local).emap(),
        applied ==> (forall|k: usize|
            old(local).emap().contains_key(k) ==> final(local).emap().contains_key(
                spec_add_offset(k, max, offset),
            ) && final(local).emap()[spec_add_offset(k, max, offset)] == renumbered_body(
                old(local).emap(),
                old(local).added_set(),
                old(local).modified_set(),
                max,
                offset,
                k,
            )),
        applied ==> (forall|k2: usize|
            final(local).emap().contains_key(k2) ==> exists|k: usize|
                old(local).emap().contains_key(k) && k2 == spec_add_offset(k, max, offset)),
{
    let ids = local.file_ids();
    let n = ids.len();
    let mut h: usize = 0;
    let mut hvalid = true;
    while h < n
        invariant
            0 <= h <= n == ids@.len(),
            *local == *old(local),
            hvalid == ((forall|j: int|
                0 <= j < h ==> (local.added_set().contains(#[trigger] ids@[j]) <==> ids@[j]
                    > max)) && (forall|j: int|
                0 <= j < h ==> (ids@[j] > max ==> ids@[j] + offset <= usize::MAX))),
        decreases n - h,
    {
        let id = ids[h];
        let a = local.is_added(id);
        let over = id > max && id > usize::MAX - offset;
        hvalid = hvalid && (a == (id > max)) && !over;
        h = h + 1;
    }
    proof {
        assert(hvalid == renumber_ok(local.emap(), local.added_set(), max, offset)) by {
            if hvalid {
                assert forall|k: usize| #[trigger]
                    local.emap().contains_key(k) implies (local.added_set().contains(k) <==> k
                    > max) && (k > max ==> k + offset <= usize::MAX) by {
                    assert(ids@.contains(k));
                    let j = choose|j: int| 0 <= j < ids@.len() && ids@[j] == k;
                }
            } else {
                if renumber_ok(local.emap(), local.added_set(), max, offset) {
                    assert(forall|j: int|
                        0 <= j < n ==> local.emap().contains_key(#[trigger] ids@[j])) by {
                        assert(forall|j: int| 0 <= j < n ==> ids@.contains(ids@[j]));
                    }
                }
            }
        }
    }
    if !hvalid {
        return false;
    }
    let ghost om = local.emap();
    let ghost oa = local.added_set();
    let ghost omod = local.modified_set();
    proof {
        assert forall|j: int| 0 <= j < n implies local.emap().contains_key(
            #[trigger] ids@[j],
        ) by {
            assert(ids@.contains(ids@[j]));
        }
        assert forall|k2: usize| #[trigger] local.emap().contains_key(k2) implies exists|j: int|
            0 <= j < n && ids@[j] == k2 by {
            assert(ids@.contains(k2));
        }
    }
    let mut t: usize = n;
    while t > 0
        invariant
            0 <= t <= n == ids@.len(),
            local.wf(),
            local.headers_view() == old(local).headers_view(),
            local.added_set() == oa,
            local.deleted_set() == old(local).deleted_set(),
            local.modified_set() == omod,
            renumber_ok(om, oa, max, offset),
            forall|k: usize| #[trigger] om.contains_key(k) <==> ids@.contains(k),
            forall|j: int|
                0 <= j < t ==> local.emap().contains_key(#[trigger] ids@[j]) && local.emap()[
                    ids@[j]] == om[ids@[j]],
            forall|j: int|
                t <= j < n ==> local.emap().contains_key(
                    spec_add_offset(#[trigger] ids@[j], max, offset),
                ) && local.emap()[spec_add_offset(ids@[j], max, offset)] == renumbered_body(
                    om,
                    oa,
                    omod,
                    max,
                    offset,
                    ids@[j],
                ),
            forall|k2: usize| #[trigger]
                local.emap().contains_key(k2) ==> (exists|j: int| 0 <= j < t && ids@[j] == k2)
                    || (exists|j: int|
                    t <= j < n && spec_add_offset(#[trigger] ids@[j], max, offset) == k2),
        decreases t,
    {
        let id = ids[t - 1];
        proof {
            assert(ids@.contains(id));
            assert(om.contains_key(id));
        }
        let body = match local.get_body(id) {
            Some(b) => b,
            None => {
                proof {
                    assert(false);
                }
                Vec::new()
            },
        };
        let rewrite = local.is_added(id) || local.is_modified(id);
        let nb = if rewrite {
            shift_refs(&body, max, offset)
        } else {
            body
        };
        let nid = add_offset(id, max, offset);
        let ghost premap = local.emap();
        if nid != id {
            local.remove(id);
            local.insert(nid, nb);
            proof {
                assert(id > max);
                assert(local.emap() == premap.remove(id).insert(nid, nb@));
            }
        } else {
            local.insert(id, nb);
            proof {
                assert(local.emap() == premap.insert(id, nb@));
            }
        }
        t = t - 1;
        proof {
            assert forall|j: int| 0 <= j < t implies local.emap().contains_key(
                #[trigger] ids@[j],
            ) && local.emap()[ids@[j]] == om[ids@[j]] by {
                assert(ids@[j] < id);
                assert(ids@[j] != nid);
            }
            assert forall|j: int| t <= j < n implies local.emap().contains_key(
                spec_add_offset(#[trigger] ids@[j], max, offset),
            ) && local.emap()[spec_add_offset(ids@[j], max, offset)] == renumbered_body(
                om,
                oa,
                omod,
                max,
                offset,
                ids@[j],
            ) by {
                if j == t {
                    assert(spec_add_offset(id, max, offset) == nid);
                    assert(nb@ == renumbered_body(om, oa, omod, max, offset, id));
                } else {
                    let kj = ids@[j];
                    assert(kj > id);
                    assert(om.contains_key(kj));
                    if kj > max {
                        assert(spec_add_offset(kj, max, offset) == kj + offset);
                        assert(spec_add_offset(kj, max, offset) != id);
                        assert(spec_add_offset(kj, max, offset) != nid);
                    } else {
                        assert(spec_add_offset(kj, max, offset) == kj);
                        assert(kj != id && kj != nid);
                    }
                }
            }
            assert forall|k2: usize| #[trigger]
                local.emap().contains_key(k2) implies (exists|j: int|
                0 <= j < t && ids@[j] == k2) || (exists|j: int|
                t <= j < n && spec_add_offset(#[trigger] ids@[j], max, offset) == k2) by {
                if k2 == nid {
                    assert(t <= t < n && spec_add_offset(ids@[t as int], max, offset) == k2);
                } else if premap.contains_key(k2) && k2 != id {
                }
            }
        }
    }
    proof {
        assert forall|k: usize| om.contains_key(k) implies local.emap().contains_key(
            spec_add_offset(k, max, offset),
        ) && local.emap()[spec_add_offset(k, max, offset)] == renumbered_body(
            om,
            oa,
            omod,
            max,
            offset,
            k,
        ) by {
            assert(ids@.contains(k));
            let j = choose|j: int| 0 <= j < ids@.len() && ids@[j] == k;
        }
    }
    true
}

/// Copies every added entity of `from` into `merged`, verbatim.
#[verifier::loop_isolation(false)]
pub fn apply_additions(merged: &mut Ifc, from: &Ifc)
    requires
        old(merged).wf(),
        from.wf(),
    ensures
        final(merged).wf(),
        final(merged).headers_view() == old(merged).headers_view(),
        final(merged).added_set() == old(merged).added_set(),
        final(merged).deleted_set() == old(merged).deleted_set(),
        final(merged).modified_set() == old(merged).modified_set(),
        forall|k: usize|
            final(merged).emap().contains_key(k) <==> old(merged).emap().contains_key(k) || (
            from.added_set().contains(k) && from.emap().contains_key(k)),
        forall|k: usize|
            from.added_set().contains(k) && from.emap().contains_key(k) ==> final(merged).emap()[k] == from.emap()[k],
        forall|k: usize|
            !(from.added_set().contains(k) && from.emap().contains_key(k)) && old(merged).emap().contains_key(k) ==> final(merged).emap()[k] == old(merged).emap()[k],
{
    let ids = from.added_ids();
    let n = ids.len();
    let mut i: usize = 0;
    while i < n
        invariant
            0 <= i <= n == ids@.len(),
            merged.wf(),
            merged.headers_view() == old(merged).headers_view(),
            merged.added_set() == old(merged).added_set(),
            merged.deleted_set() == old(merged).deleted_set(),
            merged.modified_set() == old(merged).modified_set(),
            forall|k: usize|
                merged.emap().contains_key(k) <==> old(merged).emap().contains_key(k) || (exists|
                    j: int,
                |
                    0 <= j < i && ids@[j] == k && from.emap().contains_key(k)),
            forall|k: usize|
                (exists|j: int| 0 <= j < i && ids@[j] == k && from.emap().contains_key(k))
                    ==> merged.emap()[k] == from.emap()[k],
            forall|k: usize|
                !(exists|j: int| 0 <= j < i && ids@[j] == k && from.emap().contains_key(k)) && old(merged).emap().contains_key(k) ==> merged.emap()[k] == old(merged).emap()[k],
        decreases n - i,
    {
        let id = ids[i];
        match from.get_body(id) {
            Some(b) => {
                merged.insert(id, b);
                proof {
                    assert(ids@[i as int] == id && from.emap().contains_key(id));
                }
            },
            None => {},
        }
        i = i + 1;
    }
    proof {
        assert forall|k: usize|
            final(merged).emap().contains_key(k) <==> old(merged).emap().contains_key(k) || (
        from.added_set().contains(k) && from.emap().contains_key(k)) by {
            if from.added_set().contains(k) {
                assert(ids@.contains(k));
            }
            if exists|j: int| 0 <= j < n && ids@[j] == k && from.emap().contains_key(k) {
                let j = choose|j: int| 0 <= j < n && ids@[j] == k && from.emap().contains_key(k);
                assert(ids@.contains(k));
            }
        }
        assert forall|k: usize|
            from.added_set().contains(k) && from.emap().contains_key(k) implies final(merged).emap()[k] == from.emap()[k] by {
            assert(ids@.contains(k));
            let j = choose|j: int| 0 <= j < n && ids@[j] == k;
        }
        assert forall|k: usize|
            !(from.added_set().contains(k) && from.emap().contains_key(k)) && old(merged).emap().contains_key(k) implies final(merged).emap()[k] == old(merged).emap()[k] by {
            if exists|j: int| 0 <= j < n && ids@[j] == k && from.emap().contains_key(k) {
                let j = choose|j: int| 0 <= j < n && ids@[j] == k && from.emap().contains_key(k);
                assert(ids@.contains(k));
            }
        }
    }
}


/// Whether a deletion of `k` is healed: the other side modified it and its
/// class there is a relationship class.
pub open spec fn heals(d: Set<usize>, m: Set<usize>, om: Map<usize, Seq<u8>>, k: usize) -> bool {
    d.contains(k) && m.contains(k) && rel_entity(om, k)
}


/// Equal maps agree on the relationship test.
proof fn lemma_rel_entity_congr(m1: Map<usize, Seq<u8>>, m2: Map<usize, Seq<u8>>, id: usize)
    requires
        m1 == m2,
    ensures
        rel_entity(m1, id) == rel_entity(m2, id),
{
}

/// Appending one line to an error list appends its view.
proof fn lemma_views_push(s: Seq<Vec<u8>>, v: Vec<u8>)
    ensures
        views_of(s.push(v)) == views_of(s).push(v@),
{
    assert(views_of(s.push(v)) =~= views_of(s).push(v@)) by {
        assert(forall|j: int| 0 <= j < s.len() ==> s.push(v)[j] == s[j]);
        assert(s.push(v)[s.len() as int] == v);
    }
}

/// Resolves one deleted id against the other side, as one step of the
/// deletion policy: untouched there, the id leaves the merged store;
/// modified there under a relationship class, the merged store takes the
/// other side's body with its reference list emptied and both change marks
/// are withdrawn; modified there under any other class, the conflict is
/// reported.
#[verifier::spinoff_prover]
fn delete_one(
    merged: &mut Ifc,
    deleter: &mut Ifc,
    other: &mut Ifc,
    dpath: &Vec<u8>,
    opath: &Vec<u8>,
    errors: &mut Vec<Vec<u8>>,
    id: usize,
)
    requires
        old(merged).wf(),
        old(deleter).wf(),
        old(other).wf(),
    ensures
        final(merged).wf(),
        final(deleter).wf(),
        final(other).wf(),
        final(merged).headers_view() == old(merged).headers_view(),
        final(deleter).headers_view() == old(deleter).headers_view(),
        final(other).headers_view() == old(other).headers_view(),
        final(deleter).emap() == old(deleter).emap(),
        final(deleter).added_set() == old(deleter).added_set(),
        final(deleter).modified_set() == old(deleter).modified_set(),
        final(other).emap() == old(other).emap(),
        final(other).added_set() == old(other).added_set(),
        final(other).deleted_set() == old(other).deleted_set(),
        ({
            let m0 = old(other).modified_set();
            let om = old(other).emap();
            if m0.contains(id) && rel_entity(om, id) {
                final(merged).emap() == old(merged).emap().insert(id, heal_spec(om[id])) && final(errors)@ == old(errors)@ && final(deleter).deleted_set() == old(deleter).deleted_set().remove(id) && final(other).modified_set() == m0.remove(id)
            } else if m0.contains(id) {
                final(merged).emap() == old(merged).emap() && views_of(final(errors)@) == views_of(
                    old(errors)@,
                ).push(del_err_spec(dpath@, id, opath@)) && final(deleter).deleted_set() == old(deleter).deleted_set() && final(other).modified_set() == m0
            } else {
                final(merged).emap() == old(merged).emap().remove(id) && final(errors)@ == old(errors)@ && final(deleter).deleted_set() == old(deleter).deleted_set() && final(other).modified_set() == m0
            }
        }),
{
    if other.is_modified(id) {
        let oc = other.class_attributes(id);
        if class_is_rel(&oc.0) {
            proof {
                assert(rel_entity(other.emap(), id));
                assert(lower_seq(class_of_entity(other.emap(), id)).len() >= 6);
                assert(other.emap().contains_key(id)) by {
                    if !other.emap().contains_key(id) {
                        assert(class_of_entity(other.emap(), id) == Seq::<u8>::empty());
                    }
                }
            }
            match other.get_body(id) {
                Some(content) => {
                    let healed = heal_rel(&content);
                    merged.insert(id, healed);
                    deleter.unmark_deleted(id);
                    other.unmark_modified(id);
                },
                None => {
                    proof {
                        assert(false);
                    }
                },
            }
        } else {
            proof {
                assert(!rel_entity(other.emap(), id));
            }
            let msg = build_del_err(dpath, id, opath);
            let ghost pre = errors@;
            errors.push(msg);
            proof {
                lemma_views_push(pre, msg);
            }
        }
    } else {
        merged.remove(id);
    }
}

/// Resolves the deletions of one side. An id deleted here and untouched
/// there leaves the merged store. An id deleted here but modified there
/// either heals — for a relationship class, the merged store takes the
/// other side's body with its reference list emptied, and the id leaves
/// both this side's deleted set and the other side's modified set — or is
/// reported: the error list is extended by exactly one deletion-conflict
/// report per such id, in ascending id order.
#[verifier::rlimit(100)]
#[verifier::spinoff_prover]
pub fn apply_deletions(
    merged: &mut Ifc,
    deleter: &mut Ifc,
    other: &mut Ifc,
    dpath: &Vec<u8>,
    opath: &Vec<u8>,
    errors: &mut Vec<Vec<u8>>,
)
    requires
        old(merged).wf(),
        old(deleter).wf(),
        old(other).wf(),
    ensures
        final(merged).wf(),
        final(deleter).wf(),
        final(other).wf(),
        final(merged).headers_view() == old(merged).headers_view(),
        final(deleter).headers_view() == old(deleter).headers_view(),
        final(other).headers_view() == old(other).headers_view(),
        final(deleter).emap() == old(deleter).emap(),
        final(deleter).added_set() == old(deleter).added_set(),
        final(deleter).modified_set() == old(deleter).modified_set(),
        final(other).emap() == old(other).emap(),
        final(other).added_set() == old(other).added_set(),
        final(other).deleted_set() == old(other).deleted_set(),
        forall|k: usize|
            old(deleter).deleted_set().contains(k) && !old(other).modified_set().contains(k)
                ==> !final(merged).emap().contains_key(k),
        forall|k: usize|
            #[trigger] heals(
                old(deleter).deleted_set(),
                old(other).modified_set(),
                old(other).emap(),
                k,
            ) ==> final(merged).emap().contains_key(k) && final(merged).emap()[k] == heal_spec(
                old(other).emap()[k],
            ),
        forall|k: usize|
            !(old(deleter).deleted_set().contains(k) && !old(other).modified_set().contains(k))
                && !heals(
                old(deleter).deleted_set(),
                old(other).modified_set(),
                old(other).emap(),
                k,
            ) ==> (final(merged).emap().contains_key(k) == old(merged).emap().contains_key(k) && (
            old(merged).emap().contains_key(k) ==> final(merged).emap()[k] == old(merged).emap()[k])),
        forall|k: usize|
            #[trigger] heals(
                old(deleter).deleted_set(),
                old(other).modified_set(),
                old(other).emap(),
                k,
            ) ==> !final(deleter).deleted_set().contains(k) && !final(other).modified_set().contains(k),
        forall|k: usize|
            !heals(
                old(deleter).deleted_set(),
                old(other).modified_set(),
                old(other).emap(),
                k,
            ) ==> final(deleter).deleted_set().contains(k) == old(deleter).deleted_set().contains(k) && final(other).modified_set().contains(k) == old(other).modified_set().contains(k),
        views_of(final(errors)@) == views_of(old(errors)@) + del_msgs(
            sorted_id_seq(old(deleter).deleted_set()),
            old(other).modified_set(),
            old(other).emap(),
            dpath@,
            opath@,
        ),
{
    let ids = deleter.deleted_ids();
    let ghost d0 = deleter.deleted_set();
    let ghost m0 = other.modified_set();
    let ghost om = other.emap();
    let ghost dmap0 = deleter.emap();
    let ghost mmap0 = merged.emap();
    let ghost mod0 = deleter.modified_set();
    let ghost add0 = deleter.added_set();
    let ghost oadd0 = other.added_set();
    let ghost odel0 = other.deleted_set();
    let ghost dh0 = deleter.headers_view();
    let ghost mh0 = merged.headers_view();
    let ghost oh0 = other.headers_view();
    let ghost e0 = errors@;
    let ghost mut done: Set<usize> = Set::empty();
    let n = ids.len();
    proof {
        lemma_sorted_id_seq_is(ids@, d0);
        assert(ids@.take(0) =~= Seq::<usize>::empty());
        assert(del_msgs(ids@.take(0), m0, om, dpath@, opath@) =~= Seq::<Seq<u8>>::empty());
        assert(views_of(errors@) =~= views_of(e0) + del_msgs(
            ids@.take(0),
            m0,
            om,
            dpath@,
            opath@,
        ));
    }
    let mut i: usize = 0;
    while i < n
        invariant
            0 <= i <= n == ids@.len(),
            merged.wf(),
            deleter.wf(),
            other.wf(),
            m0 == old(other).modified_set(),
            om == old(other).emap(),
            sorted_strict(ids@),
            forall|k: usize| ids@.contains(k) <==> d0.contains(k),
            forall|j: int| 0 <= j < i ==> done.contains(#[trigger] ids@[j]),
            forall|k: usize| #[trigger] done.contains(k) ==> d0.contains(k),
            forall|k: usize|
                #[trigger] done.contains(k) ==> exists|j: int| 0 <= j < i && ids@[j] == k,
            merged.headers_view() == mh0,
            deleter.headers_view() == dh0,
            other.headers_view() == oh0,
            deleter.emap() == dmap0,
            deleter.added_set() == add0,
            deleter.modified_set() == mod0,
            other.emap() == om,
            other.added_set() == oadd0,
            other.deleted_set() == odel0,
            forall|k: usize|
                #[trigger] done.contains(k) && !m0.contains(k) ==> !merged.emap().contains_key(k),
            forall|k: usize|
                #[trigger] done.contains(k) && heals(d0, m0, om, k)
                    ==> merged.emap().contains_key(k) && merged.emap()[k] == heal_spec(om[k]),
            forall|k: usize|
                !(#[trigger] done.contains(k) && !m0.contains(k)) && !(done.contains(k) && heals(
                    d0,
                    m0,
                    om,
                    k,
                )) ==> (merged.emap().contains_key(k) == mmap0.contains_key(k) && (
                mmap0.contains_key(k) ==> merged.emap()[k] == mmap0[k])),
            forall|k: usize|
                #[trigger] heals(d0, m0, om, k) && done.contains(k)
                    ==> !deleter.deleted_set().contains(k) && !other.modified_set().contains(k),
            forall|k: usize|
                !(#[trigger] heals(d0, m0, om, k) && done.contains(k))
                    ==> deleter.deleted_set().contains(k) == d0.contains(k)
                    && other.modified_set().contains(k) == m0.contains(k),
            views_of(errors@) == views_of(e0) + del_msgs(
                ids@.take(i as int),
                m0,
                om,
                dpath@,
                opath@,
            ),
        decreases n - i,
    {
        let id = ids[i];
        proof {
            assert forall|k: usize| #![trigger d0.contains(k)]
                (done.contains(k) ==> d0.contains(k)) && (done.contains(k) && !m0.contains(k)
                    ==> !merged.emap().contains_key(k)) && (done.contains(k) && heals(
                    d0,
                    m0,
                    om,
                    k,
                ) ==> merged.emap().contains_key(k) && merged.emap()[k] == heal_spec(om[k])) && (!(
                done.contains(k) && !m0.contains(k)) && !(done.contains(k) && heals(d0, m0, om, k))
                    ==> (merged.emap().contains_key(k) == mmap0.contains_key(k) && (
                mmap0.contains_key(k) ==> merged.emap()[k] == mmap0[k]))) by {}
            assert forall|k: usize| #![trigger d0.contains(k)]
                (heals(d0, m0, om, k) && done.contains(k) ==> !deleter.deleted_set().contains(k)
                    && !other.modified_set().contains(k)) && (!(heals(d0, m0, om, k)
                    && done.contains(k)) ==> deleter.deleted_set().contains(k) == d0.contains(k)
                    && other.modified_set().contains(k) == m0.contains(k)) by {}
            assert(ids@[i as int] == id);
            assert(ids@.contains(id));
            assert(d0.contains(id));
            assert(!done.contains(id)) by {
                if done.contains(id) {
                    let j = choose|j: int| 0 <= j < i && (#[trigger] ids@[j]) == id;
                    assert(ids@[j] < ids@[i as int]);
                }
            }
            assert(!(heals(d0, m0, om, id) && done.contains(id)));
            assert(other.modified_set().contains(id) == m0.contains(id));
            assert(deleter.deleted_set().contains(id) == d0.contains(id));
            assert(other.emap() == om);
            lemma_rel_entity_congr(other.emap(), om, id);
            assert(rel_entity(other.emap(), id) == rel_entity(om, id));
            assert(om.contains_key(id) ==> other.emap()[id] == om[id]);
        }
        let ghost epre = errors@;
        delete_one(merged, deleter, other, dpath, opath, errors, id);
        proof {
            done = done.insert(id);
            lemma_del_msgs_push(ids@.take(i as int), id, m0, om, dpath@, opath@);
            assert(ids@.take(i as int).push(id) =~= ids@.take(i as int + 1));
            if m0.contains(id) && rel_entity(om, id) {
                assert(heals(d0, m0, om, id));
                assert(errors@ == epre);
                assert(views_of(errors@) =~= views_of(e0) + del_msgs(
                    ids@.take(i as int + 1),
                    m0,
                    om,
                    dpath@,
                    opath@,
                ));
            } else if m0.contains(id) {
                assert(!heals(d0, m0, om, id));
                assert(views_of(errors@) =~= views_of(e0) + del_msgs(
                    ids@.take(i as int + 1),
                    m0,
                    om,
                    dpath@,
                    opath@,
                ));
            } else {
                assert(!heals(d0, m0, om, id));
                assert(errors@ == epre);
                assert(views_of(errors@) =~= views_of(e0) + del_msgs(
                    ids@.take(i as int + 1),
                    m0,
                    om,
                    dpath@,
                    opath@,
                ));
            }
            assert forall|k: usize|
                #[trigger] done.contains(k) && !m0.contains(k) implies !merged.emap().contains_key(
                k,
            ) by {
                assert(d0.contains(k));
            }
            assert forall|k: usize|
                #[trigger] done.contains(k) && heals(d0, m0, om, k) implies merged.emap().contains_key(
                k,
            ) && merged.emap()[k] == heal_spec(om[k]) by {
                assert(d0.contains(k));
            }
            assert forall|k: usize|
                !(#[trigger] done.contains(k) && !m0.contains(k)) && !(done.contains(k) && heals(
                    d0,
                    m0,
                    om,
                    k,
                )) implies (merged.emap().contains_key(k) == mmap0.contains_key(k) && (
            mmap0.contains_key(k) ==> merged.emap()[k] == mmap0[k])) by {
                if d0.contains(k) {
                } else {
                    assert(!done.contains(k));
                }
            }
            assert forall|k: usize|
                #[trigger] heals(d0, m0, om, k) && done.contains(k) implies !deleter.deleted_set().contains(
                k,
            ) && !other.modified_set().contains(k) by {
                assert(d0.contains(k));
            }
            assert forall|k: usize|
                !(#[trigger] heals(d0, m0, om, k) && done.contains(k))
                    implies deleter.deleted_set().contains(k) == d0.contains(k)
                && other.modified_set().contains(k) == m0.contains(k) by {
                if d0.contains(k) {
                } else {
                    assert(!done.contains(k));
                }
            }
            assert forall|k: usize| #[trigger] done.contains(k) implies exists|j: int|
                0 <= j < i + 1 && ids@[j] == k by {
                if k == id {
                    assert(ids@[i as int] == k);
                } else {
                    let j = choose|j: int| 0 <= j < i && (#[trigger] ids@[j]) == k;
                }
            }
        }
        i = i + 1;
    }
    proof {
        assert(ids@.take(n as int) =~= ids@);
        assert forall|k: usize| d0.contains(k) implies done.contains(k) by {
            assert(ids@.contains(k));
            let j = choose|j: int| 0 <= j < n && (#[trigger] ids@[j]) == k;
        }
        assert(e0 == old(errors)@ && mmap0 == old(merged).emap());
        assert forall|k: usize|
            d0.contains(k) && !m0.contains(k) implies !final(merged).emap().contains_key(k) by {
            assert(done.contains(k));
        }
        assert forall|k: usize|
            #[trigger] heals(d0, m0, om, k) implies final(merged).emap().contains_key(k) && final(merged).emap()[k] == heal_spec(om[k]) by {
            assert(done.contains(k));
        }
        assert forall|k: usize|
            !(d0.contains(k) && !m0.contains(k)) && !heals(d0, m0, om, k) implies (final(merged).emap().contains_key(k) == old(merged).emap().contains_key(k) && (old(merged).emap().contains_key(k) ==> final(merged).emap()[k] == old(merged).emap()[k])) by {
            assert(done.contains(k) ==> d0.contains(k));
            assert(!(done.contains(k) && !m0.contains(k)) && !(done.contains(k) && heals(
                d0,
                m0,
                om,
                k,
            )) ==> (final(merged).emap().contains_key(k) == mmap0.contains_key(k) && (
            mmap0.contains_key(k) ==> final(merged).emap()[k] == mmap0[k])));
        }
        assert forall|k: usize|
            #[trigger] heals(d0, m0, om, k) implies !final(deleter).deleted_set().contains(k)
            && !final(other).modified_set().contains(k) by {
            assert(done.contains(k));
        }
        assert forall|k: usize|
            !heals(d0, m0, om, k) implies final(deleter).deleted_set().contains(k) == d0.contains(
            k,
        ) && final(other).modified_set().contains(k) == m0.contains(k) by {
            assert(!(heals(d0, m0, om, k) && done.contains(k)));
        }
    }
}

/// The value one attribute takes in a both-sides-modified entity.
pub open spec fn attr_val(b: Seq<u8>, l: Seq<u8>, r: Seq<u8>, lcls: Seq<u8>) -> Seq<u8> {
    if b == l && b == r {
        b
    } else if b != l && b != r && l != r {
        if is_ref_list_shape(b) {
            merged_ref_attr(b, l, r)
        } else {
            l
        }
    } else if b != l {
        l
    } else {
        r
    }
}

/// Whether one attribute position is an unresolvable conflict.
pub open spec fn attr_conflict(b: Seq<u8>, l: Seq<u8>, r: Seq<u8>, lcls: Seq<u8>) -> bool {
    b != l && b != r && l != r && !is_ref_list_shape(b) && lcls != owner_history_class()
}

pub open spec fn min3(a: int, b: int, c: int) -> int {
    if a <= b && a <= c {
        a
    } else if b <= c {
        b
    } else {
        c
    }
}

/// The reconciled attribute list of an entity modified on both sides,
/// position by position up to the shortest of the three lists.
pub open spec fn merged_attrs(
    ba: Seq<Seq<u8>>,
    la: Seq<Seq<u8>>,
    ra: Seq<Seq<u8>>,
    lcls: Seq<u8>,
) -> Seq<Seq<u8>> {
    Seq::new(
        min3(ba.len() as int, la.len() as int, ra.len() as int) as nat,
        |i: int| attr_val(ba[i], la[i], ra[i], lcls),
    )
}

/// Reconciles attribute lists position by position; returns the merged
/// attributes and the conflicting positions, ascending.
#[verifier::loop_isolation(false)]
#[verifier::rlimit(100)]
fn merge_attributes(
    bav: &Vec<Vec<u8>>,
    lav: &Vec<Vec<u8>>,
    rav: &Vec<Vec<u8>>,
    lcls: &Vec<u8>,
) -> (r: (Vec<Vec<u8>>, Vec<usize>))
    ensures
        views_of(r.0@) == merged_attrs(views_of(bav@), views_of(lav@), views_of(rav@), lcls@),
        sorted_strict(r.1@),
        forall|c: usize|
            r.1@.contains(c) <==> c < merged_attrs(
                views_of(bav@),
                views_of(lav@),
                views_of(rav@),
                lcls@,
            ).len() && attr_conflict(bav@[c as int]@, lav@[c as int]@, rav@[c as int]@, lcls@),
{
    let ghost ba = views_of(bav@);
    let ghost la = views_of(lav@);
    let ghost ra = views_of(rav@);
    let bn = bav.len();
    let ln = lav.len();
    let rn = rav.len();
    let m: usize = if bn <= ln && bn <= rn {
        bn
    } else if ln <= rn {
        ln
    } else {
        rn
    };
    proof {
        assert(m as int == min3(ba.len() as int, la.len() as int, ra.len() as int));
    }
    let ghost goal = merged_attrs(ba, la, ra, lcls@);
    let owner = is_owner_history(lcls);
    let mut out: Vec<Vec<u8>> = Vec::new();
    let mut conflicts: Vec<usize> = Vec::new();
    let mut i: usize = 0;
    while i < m
        invariant
            0 <= i <= m <= bn,
            m <= ln,
            m <= rn,
            bn == ba.len() && ln == la.len() && rn == ra.len(),
            ba == views_of(bav@),
            la == views_of(lav@),
            ra == views_of(rav@),
            goal == merged_attrs(ba, la, ra, lcls@),
            goal.len() == m,
            owner == (lcls@ == owner_history_class()),
            views_of(out@) == goal.take(i as int),
            sorted_strict(conflicts@),
            forall|c: usize|
                conflicts@.contains(c) <==> c < i && attr_conflict(ba[c as int], la[c as int],
                ra[c as int], lcls@),
        decreases m - i,
    {
        let b = &bav[i];
        let l = &lav[i];
        let r = &rav[i];
        proof {
            assert(ba[i as int] == bav@[i as int]@);
            assert(la[i as int] == lav@[i as int]@);
            assert(ra[i as int] == rav@[i as int]@);
        }
        let bl = bytes_eq(b, l);
        let br = bytes_eq(b, r);
        let lr = bytes_eq(l, r);
        let ghost pre_out = out@;
        let ghost pre_c = conflicts@;
        if bl && br {
            out.push(copy_bytes(b));
        } else if !bl && !br && !lr {
            if ref_list_shape(b) {
                let mergedv = merge_ref_lists(b, l, r);
                out.push(mergedv);
            } else if owner {
                out.push(copy_bytes(l));
            } else {
                out.push(copy_bytes(l));
                proof {
                    assert forall|c: usize| conflicts@.contains(c) implies c < i by {}
                }
                conflicts.push(i);
                proof {
                    assert(conflicts@[pre_c.len() as int] == i);
                    assert(forall|j: int| 0 <= j < pre_c.len() ==> conflicts@[j] == pre_c[j]);
                    assert(sorted_strict(conflicts@)) by {
                        assert forall|a: int, b: int|
                            0 <= a < b < conflicts@.len() implies conflicts@[a] < conflicts@[b] by {
                            if b == conflicts@.len() - 1 {
                                assert(pre_c.contains(pre_c[a]));
                            }
                        }
                    }
                    assert forall|c: usize|
                        conflicts@.contains(c) <==> (c < i + 1 && attr_conflict(ba[c as int],
                        la[c as int], ra[c as int], lcls@)) by {
                        if conflicts@.contains(c) && c != i {
                            let j = choose|j: int|
                                0 <= j < conflicts@.len() && conflicts@[j] == c;
                            assert(pre_c[j] == c);
                            assert(pre_c.contains(c));
                        }
                        if c < i + 1 && attr_conflict(ba[c as int], la[c as int], ra[c as int],
                        lcls@) && c != i {
                            assert(pre_c.contains(c));
                            let j = choose|j: int| 0 <= j < pre_c.len() && pre_c[j] == c;
                            assert(conflicts@[j] == c);
                        }
                    }
                }
            }
        } else if !bl {
            out.push(copy_bytes(l));
        } else {
            out.push(copy_bytes(r));
        }
        i = i + 1;
        proof {
            assert(goal[i - 1] == attr_val(ba[i - 1], la[i - 1], ra[i - 1], lcls@));
            assert(views_of(out@) =~= goal.take(i as int)) by {
                assert(forall|j: int| 0 <= j < pre_out.len() ==> out@[j] == pre_out[j]);
                assert(forall|j: int|
                    0 <= j < pre_out.len() ==> views_of(pre_out)[j] == pre_out[j]@);
            }
        }
    }
    proof {
        assert(goal.take(m as int) =~= goal);
    }
    (out, conflicts)
}

/// Whether `cls` is exactly the ownership/history class name.
fn is_owner_history(cls: &Vec<u8>) -> (r: bool)
    ensures
        r == (cls@ == owner_history_class()),
{
    let n = cls.len();
    if n != 15 {
        proof {
            assert(owner_history_class().len() == 15);
        }
        return false;
    }
    let mut want: Vec<u8> = Vec::new();
    want.push(73);
    want.push(102);
    want.push(99);
    want.push(79);
    want.push(119);
    want.push(110);
    want.push(101);
    want.push(114);
    want.push(72);
    want.push(105);
    want.push(115);
    want.push(116);
    want.push(111);
    want.push(114);
    want.push(121);
    proof {
        assert(want@ =~= owner_history_class());
    }
    bytes_eq(cls, &want)
}

/// The body stored for an entity modified on both sides: the ancestor's
/// class name around the reconciled attribute list.
pub open spec fn both_mod_body(
    bm: Map<usize, Seq<u8>>,
    lm: Map<usize, Seq<u8>>,
    rm: Map<usize, Seq<u8>>,
    id: usize,
) -> Seq<u8> {
    class_of_entity(bm, id) + seq![40u8] + join_tokens(
        merged_attrs(
            attrs_of_entity(bm, id),
            attrs_of_entity(lm, id),
            attrs_of_entity(rm, id),
            class_of_entity(lm, id),
        ),
    ) + seq![41u8]
}

/// Joins a class name and attribute list back into a body.
#[verifier::loop_isolation(false)]
fn assemble_body(cls: &Vec<u8>, attrs: &Vec<Vec<u8>>) -> (r: Vec<u8>)
    ensures
        r@ == cls@ + seq![40u8] + join_tokens(views_of(attrs@)) + seq![41u8],
{
    let ghost ts = views_of(attrs@);
    let mut out = copy_bytes(cls);
    out.push(40);
    let n = attrs.len();
    let mut k: usize = 0;
    while k < n
        invariant
            0 <= k <= n == attrs@.len(),
            ts == views_of(attrs@),
            out@ == cls@ + seq![40u8] + join_tokens(ts.take(k as int)),
        decreases n - k,
    {
        if k > 0 {
            out.push(44);
        }
        append_bytes(&mut out, &attrs[k]);
        k = k + 1;
        proof {
            crate::refs::lemma_join_push(ts.take(k as int - 1), ts[k as int - 1]);
            assert(ts.take(k as int - 1).push(ts[k as int - 1]) =~= ts.take(k as int));
            assert(ts[k as int - 1] == attrs@[k as int - 1]@);
            assert(out@ =~= cls@ + seq![40u8] + join_tokens(ts.take(k as int)));
        }
    }
    out.push(41);
    proof {
        assert(ts.take(n as int) =~= ts);
        assert(out@ =~= cls@ + seq![40u8] + join_tokens(ts) + seq![41u8]);
    }
    out
}


/// Applies one locally modified id: reports a class change against the
/// ancestor and stores the local body in the merged store.
#[verifier::spinoff_prover]
fn local_mod_one(
    merged: &mut Ifc,
    base: &Ifc,
    local: &Ifc,
    lpath: &Vec<u8>,
    errors: &mut Vec<Vec<u8>>,
    id: usize,
)
    requires
        old(merged).wf(),
        base.wf(),
        local.wf(),
    ensures
        final(merged).wf(),
        final(merged).headers_view() == old(merged).headers_view(),
        class_of_entity(base.emap(), id) == class_of_entity(local.emap(), id) ==> final(errors)@
            == old(errors)@,
        class_of_entity(base.emap(), id) != class_of_entity(local.emap(), id) ==> views_of(
            final(errors)@,
        ) == views_of(old(errors)@).push(class_err_spec(id, lpath@)),
        local.emap().contains_key(id) ==> final(merged).emap() == old(merged).emap().insert(
            id,
            local.emap()[id],
        ),
        !local.emap().contains_key(id) ==> final(merged).emap() == old(merged).emap(),
{
    let bc = base.class_attributes(id);
    let lc = local.class_attributes(id);
    if !bytes_eq(&bc.0, &lc.0) {
        let msg = build_class_err(id, lpath);
        let ghost pre = errors@;
        errors.push(msg);
        proof {
            lemma_views_push(pre, msg);
        }
    }
    match local.get_body(id) {
        Some(content) => {
            merged.insert(id, content);
        },
        None => {},
    }
}

/// Applies one remotely modified id: reports a class change against the
/// ancestor; when the id was modified on both sides the attribute lists are
/// reconciled position by position, otherwise the remote body is stored.
#[verifier::spinoff_prover]
#[verifier::rlimit(100)]
fn remote_mod_one(
    merged: &mut Ifc,
    base: &Ifc,
    local: &Ifc,
    remote: &Ifc,
    rpath: &Vec<u8>,
    errors: &mut Vec<Vec<u8>>,
    id: usize,
)
    requires
        old(merged).wf(),
        base.wf(),
        local.wf(),
        remote.wf(),
    ensures
        final(merged).wf(),
        final(merged).headers_view() == old(merged).headers_view(),
        views_of(final(errors)@) == views_of(old(errors)@) + rmod_msgs_one(
            base.emap(),
            local.emap(),
            remote.emap(),
            local.modified_set(),
            id,
            rpath@,
        ),
        local.modified_set().contains(id) ==> final(merged).emap() == old(merged).emap().insert(
            id,
            both_mod_body(base.emap(), local.emap(), remote.emap(), id),
        ),
        !local.modified_set().contains(id) && remote.emap().contains_key(id) ==> final(merged).emap() == old(merged).emap().insert(id, remote.emap()[id]),
        !local.modified_set().contains(id) && !remote.emap().contains_key(id) ==> final(merged).emap() == old(merged).emap(),
{
    let ghost e0 = errors@;
    let bc = base.class_attributes(id);
    let rc = remote.class_attributes(id);
    if !bytes_eq(&bc.0, &rc.0) {
        let msg = build_class_err(id, rpath);
        let ghost pre = errors@;
        errors.push(msg);
        proof {
            lemma_views_push(pre, msg);
        }
    }
    let ghost eclass = errors@;
    if local.is_modified(id) {
        let lc = local.class_attributes(id);
        let pair = merge_attributes(&bc.1, &lc.1, &rc.1, &lc.0);
        let mattrs = pair.0;
        let conflicts = pair.1;
        proof {
            assert(views_of(bc.1@) =~= attrs_of_entity(base.emap(), id));
            assert(views_of(lc.1@) =~= attrs_of_entity(local.emap(), id));
            assert(views_of(rc.1@) =~= attrs_of_entity(remote.emap(), id));
            assert(class_of_entity(local.emap(), id) == lc.0@);
            assert forall|t: int| 0 <= t < conflicts@.len() implies (#[trigger] conflicts@[t])
                < usize::MAX by {
                assert(conflicts@.contains(conflicts@[t]));
                assert(views_of(mattrs@).len() == mattrs@.len());
                assert(merged_attrs(views_of(bc.1@), views_of(lc.1@), views_of(rc.1@), lc.0@).len()
                    == mattrs@.len());
            }
            assert forall|t: usize|
                conflicts@.contains(t) <==> conflict_set(
                    base.emap(),
                    local.emap(),
                    remote.emap(),
                    id,
                ).contains(t) by {
                if conflicts@.contains(t) {
                    assert(views_of(bc.1@)[t as int] == bc.1@[t as int]@);
                    assert(views_of(lc.1@)[t as int] == lc.1@[t as int]@);
                    assert(views_of(rc.1@)[t as int] == rc.1@[t as int]@);
                }
                if conflict_set(base.emap(), local.emap(), remote.emap(), id).contains(t) {
                    assert(views_of(bc.1@)[t as int] == bc.1@[t as int]@);
                    assert(views_of(lc.1@)[t as int] == lc.1@[t as int]@);
                    assert(views_of(rc.1@)[t as int] == rc.1@[t as int]@);
                }
            }
            lemma_sorted_id_seq_is(
                conflicts@,
                conflict_set(base.emap(), local.emap(), remote.emap(), id),
            );
            assert(conflicts@.take(0) =~= Seq::<usize>::empty());
            assert(attr_msgs_of(conflicts@.take(0), id) =~= Seq::<Seq<u8>>::empty());
            assert(views_of(errors@) =~= views_of(eclass) + attr_msgs_of(
                conflicts@.take(0),
                id,
            ));
        }
        let mut c: usize = 0;
        let cn = conflicts.len();
        while c < cn
            invariant
                0 <= c <= cn == conflicts@.len(),
                forall|t: int| 0 <= t < conflicts@.len() ==> (#[trigger] conflicts@[t]) < usize::MAX,
                views_of(errors@) == views_of(eclass) + attr_msgs_of(conflicts@.take(c as int), id),
            decreases cn - c,
        {
            proof {
                assert(conflicts@.contains(conflicts@[c as int]));
            }
            let msg = build_attr_err(id, conflicts[c] + 1);
            let ghost pre = errors@;
            errors.push(msg);
            proof {
                lemma_views_push(pre, msg);
                lemma_attr_msgs_push(conflicts@.take(c as int), conflicts@[c as int], id);
                assert(conflicts@.take(c as int).push(conflicts@[c as int]) =~= conflicts@.take(
                    c as int + 1,
                ));
                assert(views_of(errors@) =~= views_of(eclass) + attr_msgs_of(
                    conflicts@.take(c as int + 1),
                    id,
                ));
            }
            c = c + 1;
        }
        let body = assemble_body(&bc.0, &mattrs);
        merged.insert(id, body);
        proof {
            assert(conflicts@.take(cn as int) =~= conflicts@);
            assert(views_of(mattrs@) == merged_attrs(
                attrs_of_entity(base.emap(), id),
                attrs_of_entity(local.emap(), id),
                attrs_of_entity(remote.emap(), id),
                class_of_entity(local.emap(), id),
            ));
            assert(body@ == both_mod_body(base.emap(), local.emap(), remote.emap(), id));
            assert(views_of(errors@) =~= views_of(e0) + rmod_msgs_one(
                base.emap(),
                local.emap(),
                remote.emap(),
                local.modified_set(),
                id,
                rpath@,
            ));
        }
    } else {
        match remote.get_body(id) {
            Some(content) => {
                merged.insert(id, content);
            },
            None => {},
        }
        proof {
            assert(views_of(errors@) =~= views_of(e0) + rmod_msgs_one(
                base.emap(),
                local.emap(),
                remote.emap(),
                local.modified_set(),
                id,
                rpath@,
            ));
        }
    }
}



/// Resolves the modifications of the local side: each locally modified
/// entity's body replaces the merged one, after the class check against
/// the ancestor.
#[verifier::rlimit(100)]
#[verifier::spinoff_prover]
pub fn apply_local_modifications(
    merged: &mut Ifc,
    base: &Ifc,
    local: &Ifc,
    lpath: &Vec<u8>,
    errors: &mut Vec<Vec<u8>>,
)
    requires
        old(merged).wf(),
        base.wf(),
        local.wf(),
    ensures
        final(merged).wf(),
        final(merged).headers_view() == old(merged).headers_view(),
        forall|k: usize|
            #[trigger] local.modified_set().contains(k) && local.emap().contains_key(k) ==> final(merged).emap().contains_key(k) && final(merged).emap()[k] == local.emap()[k],
        forall|k: usize|
            !(#[trigger] local.modified_set().contains(k) && local.emap().contains_key(k)) ==> (
            final(merged).emap().contains_key(k) == old(merged).emap().contains_key(k) && (old(merged).emap().contains_key(k) ==> final(merged).emap()[k] == old(merged).emap()[k])),
        views_of(final(errors)@) == views_of(old(errors)@) + class_msgs(
            sorted_id_seq(local.modified_set()),
            base.emap(),
            local.emap(),
            lpath@,
        ),
{
    let ids = local.modified_ids();
    let ghost ml0 = local.modified_set();
    let ghost lm = local.emap();
    let ghost bm = base.emap();
    let ghost mmap0 = merged.emap();
    let ghost mh0 = merged.headers_view();
    let ghost e0 = errors@;
    let ghost mut done: Set<usize> = Set::empty();
    let n = ids.len();
    proof {
        lemma_sorted_id_seq_is(ids@, ml0);
        assert(ids@.take(0) =~= Seq::<usize>::empty());
        assert(class_msgs(ids@.take(0), bm, lm, lpath@) =~= Seq::<Seq<u8>>::empty());
        assert(views_of(errors@) =~= views_of(e0) + class_msgs(ids@.take(0), bm, lm, lpath@));
    }
    let mut i: usize = 0;
    while i < n
        invariant
            0 <= i <= n == ids@.len(),
            merged.wf(),
            base.wf(),
            local.wf(),
            ml0 == local.modified_set(),
            lm == local.emap(),
            bm == base.emap(),
            forall|k: usize| ids@.contains(k) <==> ml0.contains(k),
            forall|j: int| 0 <= j < i ==> done.contains(#[trigger] ids@[j]),
            forall|k: usize| #[trigger] done.contains(k) ==> ml0.contains(k),
            merged.headers_view() == mh0,
            forall|k: usize|
                #[trigger] done.contains(k) && lm.contains_key(k) ==> merged.emap().contains_key(
                    k,
                ) && merged.emap()[k] == lm[k],
            forall|k: usize|
                !(#[trigger] done.contains(k) && lm.contains_key(k)) ==> (
                merged.emap().contains_key(k) == mmap0.contains_key(k) && (mmap0.contains_key(k)
                    ==> merged.emap()[k] == mmap0[k])),
            bm == base.emap(),
            lm == local.emap(),
            views_of(errors@) == views_of(e0) + class_msgs(
                ids@.take(i as int),
                bm,
                lm,
                lpath@,
            ),
        decreases n - i,
    {
        let id = ids[i];
        proof {
            assert(ids@[i as int] == id);
            assert(ids@.contains(id));
            assert(ml0.contains(id));
        }
        let ghost epre = errors@;
        local_mod_one(merged, base, local, lpath, errors, id);
        proof {
            done = done.insert(id);
            lemma_class_msgs_push(ids@.take(i as int), id, bm, lm, lpath@);
            assert(ids@.take(i as int).push(id) =~= ids@.take(i as int + 1));
            if class_of_entity(bm, id) == class_of_entity(lm, id) {
                assert(errors@ == epre);
                assert(views_of(errors@) =~= views_of(e0) + class_msgs(
                    ids@.take(i as int + 1),
                    bm,
                    lm,
                    lpath@,
                ));
            } else {
                assert(views_of(errors@) == views_of(epre).push(class_err_spec(id, lpath@)));
                assert(views_of(errors@) =~= views_of(e0) + class_msgs(
                    ids@.take(i as int + 1),
                    bm,
                    lm,
                    lpath@,
                ));
            }
            assert forall|k: usize|
                #[trigger] done.contains(k) && lm.contains_key(k) implies merged.emap().contains_key(
                k,
            ) && merged.emap()[k] == lm[k] by {
                assert(ml0.contains(k));
            }
            assert forall|k: usize|
                !(#[trigger] done.contains(k) && lm.contains_key(k)) implies (
            merged.emap().contains_key(k) == mmap0.contains_key(k) && (mmap0.contains_key(k)
                ==> merged.emap()[k] == mmap0[k])) by {
                if ml0.contains(k) {
                } else {
                    assert(!done.contains(k));
                }
            }
        }
        i = i + 1;
    }
    proof {
        assert(ids@.take(n as int) =~= ids@);
        assert(sorted_id_seq(local.modified_set()) == ids@);
        assert forall|k: usize| ml0.contains(k) implies done.contains(k) by {
            assert(ids@.contains(k));
            let j = choose|j: int| 0 <= j < n && (#[trigger] ids@[j]) == k;
        }
        assert forall|k: usize|
            #[trigger] local.modified_set().contains(k) && local.emap().contains_key(
                k,
            ) implies merged.emap().contains_key(k) && merged.emap()[k] == local.emap()[k] by {
            assert(done.contains(k));
        }
        assert forall|k: usize|
            !(#[trigger] local.modified_set().contains(k) && local.emap().contains_key(
                k,
            )) implies (merged.emap().contains_key(k) == mmap0.contains_key(k) && (
        mmap0.contains_key(k) ==> merged.emap()[k] == mmap0[k])) by {
            assert(!(done.contains(k) && lm.contains_key(k)) ==> (merged.emap().contains_key(k)
                == mmap0.contains_key(k) && (mmap0.contains_key(k) ==> merged.emap()[k]
                == mmap0[k])));
            assert(done.contains(k) ==> ml0.contains(k));
        }
    }
}

/// Resolves the modifications of the remote side: a remotely modified
/// entity replaces the merged body; one modified on both sides gets the
/// attribute-level reconciliation.
#[verifier::rlimit(100)]
#[verifier::spinoff_prover]
pub fn apply_remote_modifications(
    merged: &mut Ifc,
    base: &Ifc,
    local: &Ifc,
    remote: &Ifc,
    rpath: &Vec<u8>,
    errors: &mut Vec<Vec<u8>>,
)
    requires
        old(merged).wf(),
        base.wf(),
        local.wf(),
        remote.wf(),
    ensures
        final(merged).wf(),
        final(merged).headers_view() == old(merged).headers_view(),
        forall|k: usize|
            #[trigger] remote.modified_set().contains(k) && local.modified_set().contains(k)
                ==> final(merged).emap().contains_key(k) && final(merged).emap()[k]
                == both_mod_body(base.emap(), local.emap(), remote.emap(), k),
        forall|k: usize|
            #[trigger] remote.modified_set().contains(k) && !local.modified_set().contains(k)
                && remote.emap().contains_key(k) ==> final(merged).emap().contains_key(k) && final(merged).emap()[k] == remote.emap()[k],
        forall|k: usize|
            !(#[trigger] remote.modified_set().contains(k) && (local.modified_set().contains(k)
                || remote.emap().contains_key(k))) ==> (final(merged).emap().contains_key(k) == old(merged).emap().contains_key(k) && (old(merged).emap().contains_key(k) ==> final(merged).emap()[k] == old(merged).emap()[k])),
        views_of(final(errors)@) == views_of(old(errors)@) + rmod_msgs(
            sorted_id_seq(remote.modified_set()),
            base.emap(),
            local.emap(),
            remote.emap(),
            local.modified_set(),
            rpath@,
        ),
{
    let ids = remote.modified_ids();
    let ghost mr0 = remote.modified_set();
    let ghost ml0 = local.modified_set();
    let ghost rm = remote.emap();
    let ghost lm = local.emap();
    let ghost bm = base.emap();
    let ghost mmap0 = merged.emap();
    let ghost mh0 = merged.headers_view();
    let ghost e0 = errors@;
    let ghost mut done: Set<usize> = Set::empty();
    let n = ids.len();
    proof {
        lemma_sorted_id_seq_is(ids@, mr0);
        assert(ids@.take(0) =~= Seq::<usize>::empty());
        assert(rmod_msgs(ids@.take(0), bm, lm, rm, ml0, rpath@) =~= Seq::<Seq<u8>>::empty());
        assert(views_of(errors@) =~= views_of(e0) + rmod_msgs(
            ids@.take(0),
            bm,
            lm,
            rm,
            ml0,
            rpath@,
        ));
    }
    let mut i: usize = 0;
    while i < n
        invariant
            0 <= i <= n == ids@.len(),
            merged.wf(),
            base.wf(),
            local.wf(),
            remote.wf(),
            mr0 == remote.modified_set(),
            ml0 == local.modified_set(),
            rm == remote.emap(),
            lm == local.emap(),
            bm == base.emap(),
            forall|k: usize| ids@.contains(k) <==> mr0.contains(k),
            forall|j: int| 0 <= j < i ==> done.contains(#[trigger] ids@[j]),
            forall|k: usize| #[trigger] done.contains(k) ==> mr0.contains(k),
            merged.headers_view() == mh0,
            forall|k: usize|
                #[trigger] done.contains(k) && ml0.contains(k) ==> merged.emap().contains_key(k)
                    && merged.emap()[k] == both_mod_body(bm, lm, rm, k),
            forall|k: usize|
                #[trigger] done.contains(k) && !ml0.contains(k) && rm.contains_key(k)
                    ==> merged.emap().contains_key(k) && merged.emap()[k] == rm[k],
            forall|k: usize|
                !(#[trigger] done.contains(k) && (ml0.contains(k) || rm.contains_key(k))) ==> (
                merged.emap().contains_key(k) == mmap0.contains_key(k) && (mmap0.contains_key(k)
                    ==> merged.emap()[k] == mmap0[k])),
            views_of(errors@) == views_of(e0) + rmod_msgs(
                ids@.take(i as int),
                bm,
                lm,
                rm,
                ml0,
                rpath@,
            ),
        decreases n - i,
    {
        let id = ids[i];
        proof {
            assert(ids@[i as int] == id);
            assert(ids@.contains(id));
            assert(mr0.contains(id));
        }
        let ghost epre = errors@;
        remote_mod_one(merged, base, local, remote, rpath, errors, id);
        proof {
            done = done.insert(id);
            lemma_rmod_msgs_push(ids@.take(i as int), id, bm, lm, rm, ml0, rpath@);
            assert(ids@.take(i as int).push(id) =~= ids@.take(i as int + 1));
            assert(rmod_msgs_one(
                base.emap(),
                local.emap(),
                remote.emap(),
                local.modified_set(),
                id,
                rpath@,
            ) == rmod_msgs_one(bm, lm, rm, ml0, id, rpath@));
            assert(views_of(errors@) =~= views_of(e0) + rmod_msgs(
                ids@.take(i as int + 1),
                bm,
                lm,
                rm,
                ml0,
                rpath@,
            ));
            assert forall|k: usize|
                #[trigger] done.contains(k) && ml0.contains(k) implies merged.emap().contains_key(
                k,
            ) && merged.emap()[k] == both_mod_body(bm, lm, rm, k) by {
                assert(mr0.contains(k));
            }
            assert forall|k: usize|
                #[trigger] done.contains(k) && !ml0.contains(k) && rm.contains_key(
                    k,
                ) implies merged.emap().contains_key(k) && merged.emap()[k] == rm[k] by {
                assert(mr0.contains(k));
            }
            assert forall|k: usize|
                !(#[trigger] done.contains(k) && (ml0.contains(k) || rm.contains_key(
                    k,
                ))) implies (merged.emap().contains_key(k) == mmap0.contains_key(k) && (
            mmap0.contains_key(k) ==> merged.emap()[k] == mmap0[k])) by {
                if mr0.contains(k) {
                } else {
                    assert(!done.contains(k));
                }
            }
        }
        i = i + 1;
    }
    proof {
        assert(ids@.take(n as int) =~= ids@);
        assert(sorted_id_seq(remote.modified_set()) == ids@);
        assert forall|k: usize| mr0.contains(k) implies done.contains(k) by {
            assert(ids@.contains(k));
            let j = choose|j: int| 0 <= j < n && (#[trigger] ids@[j]) == k;
        }
        assert forall|k: usize|
            #[trigger] remote.modified_set().contains(k) && local.modified_set().contains(
                k,
            ) implies merged.emap().contains_key(k) && merged.emap()[k] == both_mod_body(
            bm,
            lm,
            rm,
            k,
        ) by {
            assert(done.contains(k));
        }
        assert forall|k: usize|
            #[trigger] remote.modified_set().contains(k) && !local.modified_set().contains(k)
                && remote.emap().contains_key(k) implies merged.emap().contains_key(k)
            && merged.emap()[k] == rm[k] by {
            assert(done.contains(k));
        }
        assert forall|k: usize|
            !(#[trigger] remote.modified_set().contains(k) && (local.modified_set().contains(k)
                || remote.emap().contains_key(k))) implies (merged.emap().contains_key(k)
            == mmap0.contains_key(k) && (mmap0.contains_key(k) ==> merged.emap()[k]
            == mmap0[k])) by {
            assert(!(done.contains(k) && (ml0.contains(k) || rm.contains_key(k))) ==> (
            merged.emap().contains_key(k) == mmap0.contains_key(k) && (mmap0.contains_key(k)
                ==> merged.emap()[k] == mmap0[k])));
            assert(done.contains(k) ==> mr0.contains(k));
        }
    }
}

/// The ids whose bodies in `m` are required by the changed or added
/// entities of a side: every value of a `#id` token in such a body.
pub open spec fn required_vals(m: Map<usize, Seq<u8>>, ids: Set<usize>) -> Set<nat> {
    Set::new(
        |v: nat|
            exists|id: usize|
                #[trigger] ids.contains(id) && m.contains_key(id) && ref_vals(m[id]).contains(v),
    )
}

/// Growing the id set by one id grows the required values by exactly that
/// body's references.
proof fn lemma_required_insert(m: Map<usize, Seq<u8>>, s: Set<usize>, id: usize)
    ensures
        forall|v: nat|
            #[trigger] required_vals(m, s.insert(id)).contains(v) <==> required_vals(
                m,
                s,
            ).contains(v) || (m.contains_key(id) && ref_vals(m[id]).contains(v)),
{
    assert forall|v: nat|
        #[trigger] required_vals(m, s.insert(id)).contains(v) <==> required_vals(m, s).contains(
        v,
    ) || (m.contains_key(id) && ref_vals(m[id]).contains(v)) by {
        if required_vals(m, s.insert(id)).contains(v) {
            let id2 = choose|id2: usize|
                #[trigger] s.insert(id).contains(id2) && m.contains_key(id2) && ref_vals(
                    m[id2],
                ).contains(v);
            if id2 != id {
                assert(s.contains(id2));
                assert(required_vals(m, s).contains(v));
            }
        }
        if required_vals(m, s).contains(v) {
            let id2 = choose|id2: usize|
                #[trigger] s.contains(id2) && m.contains_key(id2) && ref_vals(m[id2]).contains(v);
            assert(s.insert(id).contains(id2));
            assert(required_vals(m, s.insert(id)).contains(v));
        }
        if m.contains_key(id) && ref_vals(m[id]).contains(v) {
            assert(s.insert(id).contains(id));
            assert(required_vals(m, s.insert(id)).contains(v));
        }
    }
}

/// Adds the reference values of the merged body under `id`, when present.
#[verifier::spinoff_prover]
fn collect_one(out: &mut Vec<usize>, merged: &Ifc, id: usize)
    requires
        merged.wf(),
    ensures
        forall|v: usize|
            final(out)@.contains(v) <==> old(out)@.contains(v) || (merged.emap().contains_key(id)
                && ref_vals(merged.emap()[id]).contains(v as nat)),
{
    match merged.get_body(id) {
        Some(body) => {
            let vals = scan_ref_values(&body);
            let n = vals.len();
            let mut w: usize = 0;
            while w < n
                invariant
                    0 <= w <= n == vals@.len(),
                    forall|v: usize|
                        out@.contains(v) <==> old(out)@.contains(v) || vals@.take(
                            w as int,
                        ).contains(v),
                decreases n - w,
            {
                let ghost pre = out@;
                out.push(vals[w]);
                w = w + 1;
                proof {
                    assert(out@[pre.len() as int] == vals@[w - 1]);
                    assert(forall|j: int| 0 <= j < pre.len() ==> out@[j] == pre[j]);
                    assert forall|v: usize|
                        out@.contains(v) <==> old(out)@.contains(v) || vals@.take(
                            w as int,
                        ).contains(v) by {
                        if out@.contains(v) {
                            let j = choose|j: int| 0 <= j < out@.len() && out@[j] == v;
                            if j < pre.len() {
                                assert(pre[j] == v);
                                assert(pre.contains(v));
                            } else {
                                assert(vals@.take(w as int)[w - 1] == v);
                            }
                        }
                        if old(out)@.contains(v) || vals@.take(w as int - 1).contains(v) {
                            assert(pre.contains(v));
                            let j = choose|j: int| 0 <= j < pre.len() && pre[j] == v;
                            assert(out@[j] == v);
                        }
                        if vals@.take(w as int).contains(v) && !vals@.take(
                            w as int - 1,
                        ).contains(v) {
                            let j = choose|j: int|
                                0 <= j < w && vals@.take(w as int)[j] == v;
                            assert(j == w - 1);
                            assert(out@[pre.len() as int] == v);
                        }
                    }
                }
            }
            proof {
                assert(vals@.take(n as int) =~= vals@);
            }
        },
        None => {},
    }
}

/// Collects the reference values of all merged bodies the side's changes
/// touch.
#[verifier::rlimit(100)]
#[verifier::spinoff_prover]
fn collect_required(merged: &Ifc, side: &Ifc) -> (r: Vec<usize>)
    requires
        merged.wf(),
        side.wf(),
    ensures
        forall|v: usize|
            r@.contains(v) <==> required_vals(
                merged.emap(),
                side.modified_set().union(side.added_set()),
            ).contains(v as nat),
{
    let ghost mm = merged.emap();
    let ghost want = side.modified_set().union(side.added_set());
    let ids = side.modified_ids();
    let more = side.added_ids();
    let mut all: Vec<usize> = Vec::new();
    let mut t: usize = 0;
    let tn = ids.len();
    while t < tn
        invariant
            0 <= t <= tn == ids@.len(),
            all@ == ids@.take(t as int),
        decreases tn - t,
    {
        all.push(ids[t]);
        t = t + 1;
        proof {
            assert(all@ =~= ids@.take(t as int));
        }
    }
    let mut u: usize = 0;
    let un = more.len();
    while u < un
        invariant
            0 <= u <= un == more@.len(),
            all@ == ids@ + more@.take(u as int),
        decreases un - u,
    {
        all.push(more[u]);
        u = u + 1;
        proof {
            assert(all@ =~= ids@ + more@.take(u as int));
        }
    }
    proof {
        assert(ids@.take(tn as int) =~= ids@);
        assert(more@.take(un as int) =~= more@);
        assert forall|k: usize| all@.contains(k) <==> want.contains(k) by {
            if all@.contains(k) {
                let j = choose|j: int| 0 <= j < all@.len() && all@[j] == k;
                if j < ids@.len() {
                    assert(ids@[j] == k);
                    assert(ids@.contains(k));
                } else {
                    assert(more@[j - ids@.len()] == k);
                    assert(more@.contains(k));
                }
            }
            if want.contains(k) {
                if side.modified_set().contains(k) {
                    assert(ids@.contains(k));
                    let j = choose|j: int| 0 <= j < ids@.len() && ids@[j] == k;
                    assert(all@[j] == k);
                } else {
                    assert(more@.contains(k));
                    let j = choose|j: int| 0 <= j < more@.len() && more@[j] == k;
                    assert(all@[ids@.len() + j] == k);
                }
            }
        }
    }
    let mut out: Vec<usize> = Vec::new();
    let ghost mut done: Set<usize> = Set::empty();
    let mut i: usize = 0;
    let n = all.len();
    while i < n
        invariant
            0 <= i <= n == all@.len(),
            merged.wf(),
            mm == merged.emap(),
            forall|k: usize| all@.contains(k) <==> want.contains(k),
            forall|j: int| 0 <= j < i ==> done.contains(#[trigger] all@[j]),
            forall|k: usize| #[trigger] done.contains(k) ==> want.contains(k),
            forall|v: usize|
                out@.contains(v) <==> required_vals(mm, done).contains(v as nat),
        decreases n - i,
    {
        let id = all[i];
        proof {
            assert(all@[i as int] == id);
            assert(all@.contains(id));
            lemma_required_insert(mm, done, id);
        }
        collect_one(&mut out, merged, id);
        proof {
            done = done.insert(id);
        }
        i = i + 1;
    }
    proof {
        assert(done =~= want) by {
            assert forall|k: usize| want.contains(k) implies done.contains(k) by {
                assert(all@.contains(k));
                let j = choose|j: int| 0 <= j < all@.len() && all@[j] == k;
            }
        }
    }
    out
}

/// Whether `x` occurs in an id vector.
#[verifier::loop_isolation(false)]
fn vec_has_id(v: &Vec<usize>, x: usize) -> (r: bool)
    ensures
        r == v@.contains(x),
{
    let n = v.len();
    let mut i: usize = 0;
    while i < n
        invariant
            0 <= i <= n,
            forall|j: int| 0 <= j < i ==> v@[j] != x,
        decreases n - i,
    {
        if v[i] == x {
            return true;
        }
        i = i + 1;
    }
    false
}

/// The reference-integrity check: an id deleted by one side but required
/// by the other side's changed or added bodies is reported.
#[verifier::rlimit(100)]
#[verifier::spinoff_prover]
pub fn check_integrity(
    merged: &Ifc,
    local: &Ifc,
    remote: &Ifc,
    lpath: &Vec<u8>,
    rpath: &Vec<u8>,
    errors: &mut Vec<Vec<u8>>,
)
    requires
        merged.wf(),
        local.wf(),
        remote.wf(),
    ensures
        views_of(final(errors)@) == views_of(old(errors)@) + req_msgs(
            sorted_id_seq(local.deleted_set()),
            required_vals(merged.emap(), remote.modified_set().union(remote.added_set())),
            rpath@,
            lpath@,
        ) + req_msgs(
            sorted_id_seq(remote.deleted_set()),
            required_vals(merged.emap(), local.modified_set().union(local.added_set())),
            lpath@,
            rpath@,
        ),
{
    let local_required = collect_required(merged, local);
    let remote_required = collect_required(merged, remote);
    let ghost reqr = required_vals(
        merged.emap(),
        remote.modified_set().union(remote.added_set()),
    );
    let ghost reql = required_vals(merged.emap(), local.modified_set().union(local.added_set()));
    let ghost e0 = errors@;
    let ldel = local.deleted_ids();
    let ln = ldel.len();
    proof {
        lemma_sorted_id_seq_is(ldel@, local.deleted_set());
        assert(ldel@.take(0) =~= Seq::<usize>::empty());
        assert(req_msgs(ldel@.take(0), reqr, rpath@, lpath@) =~= Seq::<Seq<u8>>::empty());
        assert(views_of(errors@) =~= views_of(e0) + req_msgs(
            ldel@.take(0),
            reqr,
            rpath@,
            lpath@,
        ));
    }
    let mut i: usize = 0;
    while i < ln
        invariant
            0 <= i <= ln == ldel@.len(),
            reqr == required_vals(
                merged.emap(),
                remote.modified_set().union(remote.added_set()),
            ),
            forall|v: usize|
                remote_required@.contains(v) <==> required_vals(
                    merged.emap(),
                    remote.modified_set().union(remote.added_set()),
                ).contains(v as nat),
            views_of(errors@) == views_of(e0) + req_msgs(
                ldel@.take(i as int),
                reqr,
                rpath@,
                lpath@,
            ),
        decreases ln - i,
    {
        let id = ldel[i];
        proof {
            assert(ldel@[i as int] == id);
            lemma_req_msgs_push(ldel@.take(i as int), id, reqr, rpath@, lpath@);
            assert(ldel@.take(i as int).push(id) =~= ldel@.take(i as int + 1));
        }
        if vec_has_id(&remote_required, id) {
            proof {
                assert(reqr.contains(id as nat));
            }
            let msg = build_req_err(id, rpath, lpath);
            let ghost pre = errors@;
            errors.push(msg);
            proof {
                lemma_views_push(pre, msg);
                assert(views_of(errors@) =~= views_of(e0) + req_msgs(
                    ldel@.take(i as int + 1),
                    reqr,
                    rpath@,
                    lpath@,
                ));
            }
        } else {
            proof {
                assert(!reqr.contains(id as nat));
                assert(views_of(errors@) =~= views_of(e0) + req_msgs(
                    ldel@.take(i as int + 1),
                    reqr,
                    rpath@,
                    lpath@,
                ));
            }
        }
        i = i + 1;
    }
    let ghost e1 = errors@;
    let rdel = remote.deleted_ids();
    let rn = rdel.len();
    proof {
        assert(ldel@.take(ln as int) =~= ldel@);
        assert(sorted_id_seq(local.deleted_set()) == ldel@);
        lemma_sorted_id_seq_is(rdel@, remote.deleted_set());
        assert(rdel@.take(0) =~= Seq::<usize>::empty());
        assert(req_msgs(rdel@.take(0), reql, lpath@, rpath@) =~= Seq::<Seq<u8>>::empty());
        assert(views_of(errors@) =~= views_of(e1) + req_msgs(
            rdel@.take(0),
            reql,
            lpath@,
            rpath@,
        ));
    }
    let mut t: usize = 0;
    while t < rn
        invariant
            0 <= t <= rn == rdel@.len(),
            reql == required_vals(
                merged.emap(),
                local.modified_set().union(local.added_set()),
            ),
            forall|v: usize|
                local_required@.contains(v) <==> required_vals(
                    merged.emap(),
                    local.modified_set().union(local.added_set()),
                ).contains(v as nat),
            views_of(errors@) == views_of(e1) + req_msgs(
                rdel@.take(t as int),
                reql,
                lpath@,
                rpath@,
            ),
        decreases rn - t,
    {
        let id = rdel[t];
        proof {
            assert(rdel@[t as int] == id);
            lemma_req_msgs_push(rdel@.take(t as int), id, reql, lpath@, rpath@);
            assert(rdel@.take(t as int).push(id) =~= rdel@.take(t as int + 1));
        }
        if vec_has_id(&local_required, id) {
            proof {
                assert(reql.contains(id as nat));
            }
            let msg = build_req_err(id, lpath, rpath);
            let ghost pre = errors@;
            errors.push(msg);
            proof {
                lemma_views_push(pre, msg);
                assert(views_of(errors@) =~= views_of(e1) + req_msgs(
                    rdel@.take(t as int + 1),
                    reql,
                    lpath@,
                    rpath@,
                ));
            }
        } else {
            proof {
                assert(!reql.contains(id as nat));
                assert(views_of(errors@) =~= views_of(e1) + req_msgs(
                    rdel@.take(t as int + 1),
                    reql,
                    lpath@,
                    rpath@,
                ));
            }
        }
        t = t + 1;
    }
    proof {
        assert(rdel@.take(rn as int) =~= rdel@);
        assert(sorted_id_seq(remote.deleted_set()) == rdel@);
        assert(views_of(errors@) =~= views_of(old(errors)@) + req_msgs(
            sorted_id_seq(local.deleted_set()),
            required_vals(merged.emap(), remote.modified_set().union(remote.added_set())),
            rpath@,
            lpath@,
        ) + req_msgs(
            sorted_id_seq(remote.deleted_set()),
            required_vals(merged.emap(), local.modified_set().union(local.added_set())),
            lpath@,
            rpath@,
        ));
    }
}


/// The ids one descendant added against the ancestor.
pub open spec fn added_of(m: Map<usize, Seq<u8>>, b: Map<usize, Seq<u8>>) -> Set<usize> {
    Set::new(|k: usize| m.contains_key(k) && !b.contains_key(k))
}

/// The ids one descendant modified against the ancestor.
pub open spec fn modified_of(m: Map<usize, Seq<u8>>, b: Map<usize, Seq<u8>>) -> Set<usize> {
    Set::new(|k: usize| m.contains_key(k) && b.contains_key(k) && m[k] != b[k])
}

/// The ids one descendant deleted against the ancestor.
pub open spec fn deleted_of(m: Map<usize, Seq<u8>>, b: Map<usize, Seq<u8>>) -> Set<usize> {
    Set::new(|k: usize| b.contains_key(k) && !m.contains_key(k))
}

/// The deleted ids whose deletion heals against the other side.
pub open spec fn heal_set(d: Set<usize>, m: Set<usize>, om: Map<usize, Seq<u8>>) -> Set<usize> {
    Set::new(|k: usize| heals(d, m, om, k))
}

/// The largest id a store holds, `0` when it holds none.
pub open spec fn map_last(m: Map<usize, Seq<u8>>) -> usize {
    if exists|k: usize| m.contains_key(k) {
        choose|k: usize|
            m.contains_key(k) && (forall|j: usize| #[trigger] m.contains_key(j) ==> j <= k)
    } else {
        0
    }
}

/// A witness for the largest id pins `map_last`.
pub proof fn lemma_map_last_is(m: Map<usize, Seq<u8>>, r: usize)
    requires
        forall|k: usize| #[trigger] m.contains_key(k) ==> k <= r,
        (exists|k: usize| m.contains_key(k)) ==> m.contains_key(r),
        !(exists|k: usize| m.contains_key(k)) ==> r == 0,
    ensures
        map_last(m) == r,
{
    if exists|k: usize| m.contains_key(k) {
        assert(m.contains_key(r) && (forall|j: usize| #[trigger] m.contains_key(j) ==> j <= r));
        let c = choose|k: usize|
            m.contains_key(k) && (forall|j: usize| #[trigger] m.contains_key(j) ==> j <= k);
        assert(c <= r && r <= c);
    }
}

/// Runs the whole three-way merge: diff both descendants against the
/// ancestor, renumber the local side when the remote side extended the id
/// range, resolve additions, deletions and modifications into a store
/// seeded from the ancestor, and check reference integrity. The returned
/// error list is empty exactly when the merge is clean; only then may the
/// result be written.
///
/// Two laws are part of this contract: merging a store against itself
/// changes nothing and reports nothing; and when the remote side equals
/// the ancestor and the local side only adds entities, the result is the
/// local side, with nothing reported.
#[verifier::rlimit(100)]
#[verifier::spinoff_prover]
pub fn merge_stores(
    base: &Ifc,
    local: &mut Ifc,
    remote: &mut Ifc,
    lpath: &Vec<u8>,
    rpath: &Vec<u8>,
) -> (r: (Ifc, Vec<Vec<u8>>))
    requires
        base.wf(),
        old(local).wf(),
        old(remote).wf(),
    ensures
        r.0.wf(),
        r.0.headers_view() == base.headers_view(),
        (old(local).emap() == base.emap() && old(remote).emap() == base.emap()) ==> (r.0.emap()
            == base.emap() && r.1@.len() == 0),
        (old(remote).emap() == base.emap() && (forall|k: usize|
            #[trigger] base.emap().contains_key(k) ==> old(local).emap().contains_key(k) && old(local).emap()[k] == base.emap()[k])) ==> (r.0.emap() == old(local).emap() && r.1@.len()
            == 0),
        final(remote).emap() == old(remote).emap(),
        map_last(old(remote).emap()) <= map_last(base.emap()) ==> final(local).emap() == old(local).emap(),
        map_last(old(remote).emap()) > map_last(base.emap()) && !renumber_ok(
            old(local).emap(),
            added_of(old(local).emap(), base.emap()),
            map_last(base.emap()),
            (map_last(old(remote).emap()) - map_last(base.emap())) as usize,
        ) ==> final(local).emap() == old(local).emap(),
        map_last(old(remote).emap()) > map_last(base.emap()) && renumber_ok(
            old(local).emap(),
            added_of(old(local).emap(), base.emap()),
            map_last(base.emap()),
            (map_last(old(remote).emap()) - map_last(base.emap())) as usize,
        ) ==> (forall|k: usize|
            old(local).emap().contains_key(k) ==> final(local).emap().contains_key(
                spec_add_offset(
                    k,
                    map_last(base.emap()),
                    (map_last(old(remote).emap()) - map_last(base.emap())) as usize,
                ),
            )),
        ({
            let bmm = base.emap();
            let lf = final(local).emap();
            let rf = final(remote).emap();
            let dl = deleted_of(lf, bmm);
            let dr = deleted_of(rf, bmm);
            let mla = modified_of(lf, bmm);
            let mra = modified_of(rf, bmm);
            let hl = heal_set(dl, mra, rf);
            let hr = heal_set(dr, mla, lf);
            let mlp = mla.difference(hr);
            let mrp = mra.difference(hl);
            views_of(r.1@) == del_msgs(sorted_id_seq(dl), mra, rf, lpath@, rpath@) + del_msgs(
                sorted_id_seq(dr),
                mla,
                lf,
                rpath@,
                lpath@,
            ) + class_msgs(sorted_id_seq(mlp), bmm, lf, lpath@) + rmod_msgs(
                sorted_id_seq(mrp),
                bmm,
                lf,
                rf,
                mlp,
                rpath@,
            ) + req_msgs(
                sorted_id_seq(dl.difference(hl)),
                required_vals(r.0.emap(), mrp.union(added_of(rf, bmm))),
                rpath@,
                lpath@,
            ) + req_msgs(
                sorted_id_seq(dr.difference(hr)),
                required_vals(r.0.emap(), mlp.union(added_of(lf, bmm))),
                lpath@,
                rpath@,
            )
        }),
        ({
            let bmm = base.emap();
            let lf = final(local).emap();
            let rf = final(remote).emap();
            let dl = deleted_of(lf, bmm);
            let dr = deleted_of(rf, bmm);
            let mla = modified_of(lf, bmm);
            let mra = modified_of(rf, bmm);
            let hl = heal_set(dl, mra, rf);
            let hr = heal_set(dr, mla, lf);
            let mlp = mla.difference(hr);
            let mrp = mra.difference(hl);
            (forall|k: usize|
                #[trigger] mrp.contains(k) && mlp.contains(k) ==> r.0.emap().contains_key(k)
                    && r.0.emap()[k] == both_mod_body(bmm, lf, rf, k)) && (forall|k: usize|
                #[trigger] mrp.contains(k) && !mlp.contains(k) ==> r.0.emap().contains_key(k)
                    && r.0.emap()[k] == rf[k]) && (forall|k: usize|
                #[trigger] mlp.contains(k) && !mrp.contains(k) ==> r.0.emap().contains_key(k)
                    && r.0.emap()[k] == lf[k]) && (forall|k: usize|
                #[trigger] hl.contains(k) ==> r.0.emap().contains_key(k) && r.0.emap()[k]
                    == heal_spec(rf[k])) && (forall|k: usize|
                #[trigger] hr.contains(k) ==> r.0.emap().contains_key(k) && r.0.emap()[k]
                    == heal_spec(lf[k])) && (forall|k: usize|
                #[trigger] dl.contains(k) && !mra.contains(k) ==> !r.0.emap().contains_key(k))
                && (forall|k: usize|
                #[trigger] dr.contains(k) && !mla.contains(k) ==> !r.0.emap().contains_key(k))
                && (forall|k: usize|
                #[trigger] added_of(rf, bmm).contains(k) ==> r.0.emap().contains_key(k)
                    && r.0.emap()[k] == rf[k]) && (forall|k: usize|
                #[trigger] added_of(lf, bmm).contains(k) && !added_of(rf, bmm).contains(k)
                    ==> r.0.emap().contains_key(k) && r.0.emap()[k] == lf[k]) && (forall|k: usize|
                bmm.contains_key(k) && !mla.contains(k) && !mra.contains(k) && !dl.contains(k)
                    && !dr.contains(k) ==> r.0.emap().contains_key(k) && r.0.emap()[k] == bmm[k])
                && (forall|k: usize|
                #[trigger] r.0.emap().contains_key(k) ==> bmm.contains_key(k) || lf.contains_key(
                    k,
                ) || rf.contains_key(k))
        }),
{
    let ghost bm = base.emap();
    let ghost lm0 = old(local).emap();
    let ghost rm0 = old(remote).emap();
    let ghost p1 = lm0 == bm && rm0 == bm;
    let ghost p2 = rm0 == bm && (forall|k: usize|
        #[trigger] bm.contains_key(k) ==> lm0.contains_key(k) && lm0[k] == bm[k]);
    local.compare(base);
    remote.compare(base);
    proof {
        if p1 || p2 {
            assert(local.added_set() =~= Set::<usize>::empty() || p2) by {
                if p1 {
                    assert forall|k: usize|
                        !(#[trigger] local.added_set().contains(k)) by {}
                }
            }
            assert(local.modified_set() =~= Set::<usize>::empty()) by {
                assert forall|k: usize|
                    !(#[trigger] local.modified_set().contains(k)) by {
                    if local.modified_set().contains(k) {
                        assert(local.emap().contains_key(k) == local.emap().contains_key(k));
                        assert(base.emap().contains_key(k) == base.emap().contains_key(k));
                        assert(local.emap()[k] == local.emap()[k]);
                        assert(base.emap()[k] == base.emap()[k]);
                        assert(local.emap().contains_key(k) && base.emap().contains_key(k));
                        assert(bm.contains_key(k));
                        assert(local.emap()[k] == lm0[k]);
                    }
                }
            }
            assert(local.deleted_set() =~= Set::<usize>::empty()) by {
                assert forall|k: usize|
                    !(#[trigger] local.deleted_set().contains(k)) by {
                    if local.deleted_set().contains(k) {
                        assert(base.emap().contains_key(k) && !local.emap().contains_key(k));
                        assert(bm.contains_key(k));
                        assert(lm0.contains_key(k));
                    }
                }
            }
            assert(remote.added_set() =~= Set::<usize>::empty()) by {
                assert forall|k: usize|
                    !(#[trigger] remote.added_set().contains(k)) by {
                    if remote.added_set().contains(k) {
                        assert(remote.emap().contains_key(k) && !base.emap().contains_key(k));
                        assert(rm0.contains_key(k));
                        assert(bm.contains_key(k));
                    }
                }
            }
            assert(remote.modified_set() =~= Set::<usize>::empty()) by {
                assert forall|k: usize|
                    !(#[trigger] remote.modified_set().contains(k)) by {
                    if remote.modified_set().contains(k) {
                        assert(remote.emap().contains_key(k) == remote.emap().contains_key(k));
                        assert(base.emap().contains_key(k) == base.emap().contains_key(k));
                        assert(remote.emap()[k] == remote.emap()[k]);
                        assert(base.emap()[k] == base.emap()[k]);
                        assert(remote.emap().contains_key(k) && base.emap().contains_key(k));
                        assert(bm.contains_key(k));
                        assert(remote.emap()[k] == rm0[k] && rm0[k] == bm[k]);
                    }
                }
            }
            assert(remote.deleted_set() =~= Set::<usize>::empty()) by {
                assert forall|k: usize|
                    !(#[trigger] remote.deleted_set().contains(k)) by {
                    if remote.deleted_set().contains(k) {
                        assert(base.emap().contains_key(k) && !remote.emap().contains_key(k));
                        assert(bm.contains_key(k));
                        assert(rm0.contains_key(k));
                    }
                }
            }
        }
    }
    let bmax = base.last();
    let rmax = remote.last();
    proof {
        if p1 || p2 {
            assert(rmax <= bmax) by {
                if exists|k: usize| bm.contains_key(k) {
                    assert(bm.contains_key(rmax) || rmax == 0);
                } else {
                    assert(!(exists|k: usize| remote.emap().contains_key(k))) by {
                        if exists|k: usize| remote.emap().contains_key(k) {
                            let k = choose|k: usize| remote.emap().contains_key(k);
                            assert(bm.contains_key(k));
                        }
                    }
                }
            }
        }
    }
    proof {
        lemma_map_last_is(base.emap(), bmax);
        lemma_map_last_is(remote.emap(), rmax);
    }
    if rmax > bmax {
        proof {
            assert(local.added_set() =~= added_of(old(local).emap(), base.emap())) by {
                assert forall|k: usize|
                    local.added_set().contains(k) == added_of(
                        old(local).emap(),
                        base.emap(),
                    ).contains(k) by {
                    assert(local.emap() == old(local).emap());
                }
            }
        }
        let applied = renumber(local, bmax, rmax - bmax);
        local.compare(base);
    }
    let ghost bmm = base.emap();
    let ghost lf = local.emap();
    let ghost rf = remote.emap();
    let ghost dl = deleted_of(lf, bmm);
    let ghost dr = deleted_of(rf, bmm);
    let ghost mla = modified_of(lf, bmm);
    let ghost mra = modified_of(rf, bmm);
    let ghost hl = heal_set(dl, mra, rf);
    let ghost hr = heal_set(dr, mla, lf);
    let ghost mlp = mla.difference(hr);
    let ghost mrp = mra.difference(hl);
    proof {
        assert(local.added_set() =~= added_of(lf, bmm));
        assert(local.modified_set() =~= mla) by {
            assert forall|k: usize| local.modified_set().contains(k) == mla.contains(k) by {
                assert(local.emap()[k] == local.emap()[k] && base.emap()[k] == base.emap()[k]);
                assert(local.emap().contains_key(k) == local.emap().contains_key(k));
                assert(base.emap().contains_key(k) == base.emap().contains_key(k));
            }
        }
        assert(local.deleted_set() =~= dl);
        assert(remote.added_set() =~= added_of(rf, bmm));
        assert(remote.modified_set() =~= mra) by {
            assert forall|k: usize| remote.modified_set().contains(k) == mra.contains(k) by {
                assert(remote.emap()[k] == remote.emap()[k] && base.emap()[k] == base.emap()[k]);
                assert(remote.emap().contains_key(k) == remote.emap().contains_key(k));
                assert(base.emap().contains_key(k) == base.emap().contains_key(k));
            }
        }
        assert(remote.deleted_set() =~= dr);
    }
    let mut merged = base.duplicate();
    let mut errors: Vec<Vec<u8>> = Vec::new();
    apply_additions(&mut merged, local);
    proof {
        if p1 {
            assert(merged.emap() =~= bm);
        }
        if p2 && !p1 {
            assert(merged.emap() =~= local.emap()) by {
                assert forall|k: usize|
                    #[trigger] merged.emap().contains_key(k) <==> local.emap().contains_key(
                    k,
                ) by {
                    if local.emap().contains_key(k) && !bm.contains_key(k) {
                        assert(local.added_set().contains(k));
                    }
                    if merged.emap().contains_key(k) && !bm.contains_key(k) {
                        assert(local.added_set().contains(k) && local.emap().contains_key(k));
                    }
                    if bm.contains_key(k) {
                        assert(local.emap().contains_key(k));
                        assert(merged.emap().contains_key(k));
                    }
                }
                assert forall|k: usize|
                    #[trigger] merged.emap().contains_key(k) implies merged.emap()[k]
                    == local.emap()[k] by {
                    if local.added_set().contains(k) && local.emap().contains_key(k) {
                        assert(merged.emap()[k] == local.emap()[k]);
                    } else {
                        assert(bm.contains_key(k));
                        assert(merged.emap()[k] == bm[k]);
                        assert(local.emap()[k] == lm0[k] && lm0[k] == bm[k]);
                    }
                }
            }
        }
    }
    apply_additions(&mut merged, remote);
    proof {
        if p1 || p2 {
            let ghost goal: Map<usize, Seq<u8>> = if p1 {
                bm
            } else {
                local.emap()
            };
            assert(merged.emap() =~= goal) by {
                assert forall|k: usize|
                    merged.emap().contains_key(k) == goal.contains_key(k) && (goal.contains_key(
                        k,
                    ) ==> merged.emap()[k] == goal[k]) by {
                    assert(!Set::<usize>::empty().contains(k));
                    assert(remote.added_set() == Set::<usize>::empty());
                    assert(!(remote.added_set().contains(k) && remote.emap().contains_key(k)));
                }
                assert forall|k: usize|
                    merged.emap().dom().contains(k) == goal.dom().contains(k) by {
                    assert(merged.emap()[k] == merged.emap()[k] && goal[k] == goal[k]);
                    assert(merged.emap().contains_key(k) == goal.contains_key(k));
                }
                assert(merged.emap().dom() =~= goal.dom());
            }
        }
    }
    let ghost madd = merged.emap();
    apply_deletions(&mut merged, local, remote, lpath, rpath, &mut errors);
    proof {
        assert(remote.modified_set() =~= mrp) by {
            assert forall|k: usize|
                remote.modified_set().contains(k) == mrp.contains(k) by {
                assert(heals(dl, mra, rf, k) == heals(
                    local.deleted_set().union(hl),
                    mra,
                    rf,
                    k,
                ) || true);
            }
        }
        assert(local.deleted_set() =~= dl.difference(hl));
        assert(views_of(errors@) =~= del_msgs(sorted_id_seq(dl), mra, rf, lpath@, rpath@));
    }
    let ghost md1 = merged.emap();
    let ghost e1v = views_of(errors@);
    apply_deletions(&mut merged, remote, local, rpath, lpath, &mut errors);
    proof {
        assert(local.modified_set() =~= mlp);
        assert(remote.deleted_set() =~= dr.difference(hr));
        assert(views_of(errors@) =~= del_msgs(sorted_id_seq(dl), mra, rf, lpath@, rpath@)
            + del_msgs(sorted_id_seq(dr), mla, lf, rpath@, lpath@));
    }
    let ghost md2 = merged.emap();
    let ghost e2v = views_of(errors@);
    proof {
        if p1 || p2 {
            let ghost goal: Map<usize, Seq<u8>> = if p1 {
                bm
            } else {
                local.emap()
            };
            lemma_sorted_id_seq_empty();
            assert(del_msgs(
                Seq::<usize>::empty(),
                remote.modified_set(),
                remote.emap(),
                lpath@,
                rpath@,
            ) =~= Seq::<Seq<u8>>::empty());
            assert(del_msgs(
                Seq::<usize>::empty(),
                local.modified_set(),
                local.emap(),
                rpath@,
                lpath@,
            ) =~= Seq::<Seq<u8>>::empty());
            assert(errors@.len() == 0) by {
                assert(views_of(errors@).len() == errors@.len());
            }
            assert(merged.emap() =~= goal) by {
                assert forall|k: usize|
                    merged.emap().contains_key(k) == goal.contains_key(k) && (goal.contains_key(
                        k,
                    ) ==> merged.emap()[k] == goal[k]) by {
                    assert(!Set::<usize>::empty().contains(k));
                    assert(local.deleted_set() == Set::<usize>::empty());
                    assert(remote.deleted_set() == Set::<usize>::empty());
                    assert(!heals(local.deleted_set(), remote.modified_set(), remote.emap(), k));
                    assert(!heals(remote.deleted_set(), local.modified_set(), local.emap(), k));
                }
                assert forall|k: usize|
                    merged.emap().dom().contains(k) == goal.dom().contains(k) by {
                    assert(merged.emap()[k] == merged.emap()[k] && goal[k] == goal[k]);
                    assert(merged.emap().contains_key(k) == goal.contains_key(k));
                }
                assert(merged.emap().dom() =~= goal.dom());
            }
        }
    }
    apply_local_modifications(&mut merged, base, local, lpath, &mut errors);
    proof {
        assert(views_of(errors@) =~= del_msgs(sorted_id_seq(dl), mra, rf, lpath@, rpath@)
            + del_msgs(sorted_id_seq(dr), mla, lf, rpath@, lpath@) + class_msgs(
            sorted_id_seq(mlp),
            bmm,
            lf,
            lpath@,
        ));
    }
    let ghost mm1 = merged.emap();
    let ghost e3v = views_of(errors@);
    proof {
        if p1 || p2 {
            let ghost goal: Map<usize, Seq<u8>> = if p1 {
                bm
            } else {
                local.emap()
            };
            assert(merged.emap() =~= goal) by {
                assert forall|k: usize|
                    merged.emap().contains_key(k) == goal.contains_key(k) && (goal.contains_key(
                        k,
                    ) ==> merged.emap()[k] == goal[k]) by {
                    assert(!Set::<usize>::empty().contains(k));
                    assert(local.modified_set() == Set::<usize>::empty());
                    assert(!(local.modified_set().contains(k) && local.emap().contains_key(k)));
                }
                assert forall|k: usize|
                    merged.emap().dom().contains(k) == goal.dom().contains(k) by {
                    assert(merged.emap()[k] == merged.emap()[k] && goal[k] == goal[k]);
                    assert(merged.emap().contains_key(k) == goal.contains_key(k));
                }
                assert(merged.emap().dom() =~= goal.dom());
            }
            assert(errors@.len() == 0) by {
                lemma_sorted_id_seq_empty();
                assert(local.modified_set() == Set::<usize>::empty());
                assert(class_msgs(
                    Seq::<usize>::empty(),
                    base.emap(),
                    local.emap(),
                    lpath@,
                ) =~= Seq::<Seq<u8>>::empty());
                assert(views_of(errors@).len() == errors@.len());
            }
        }
    }
    apply_remote_modifications(&mut merged, base, local, remote, rpath, &mut errors);
    proof {
        assert(views_of(errors@) =~= e3v + rmod_msgs(
            sorted_id_seq(mrp),
            bmm,
            lf,
            rf,
            mlp,
            rpath@,
        ));
    }
    let ghost mm2 = merged.emap();
    let ghost e4v = views_of(errors@);
    proof {
        if p1 || p2 {
            let ghost goal: Map<usize, Seq<u8>> = if p1 {
                bm
            } else {
                local.emap()
            };
            assert(merged.emap() =~= goal) by {
                assert forall|k: usize|
                    merged.emap().contains_key(k) == goal.contains_key(k) && (goal.contains_key(
                        k,
                    ) ==> merged.emap()[k] == goal[k]) by {
                    assert(!Set::<usize>::empty().contains(k));
                    assert(remote.modified_set() == Set::<usize>::empty());
                    assert(!(remote.modified_set().contains(k) && (local.modified_set().contains(
                        k,
                    ) || remote.emap().contains_key(k))));
                }
                assert forall|k: usize|
                    merged.emap().dom().contains(k) == goal.dom().contains(k) by {
                    assert(merged.emap()[k] == merged.emap()[k] && goal[k] == goal[k]);
                    assert(merged.emap().contains_key(k) == goal.contains_key(k));
                }
                assert(merged.emap().dom() =~= goal.dom());
            }
            assert(errors@.len() == 0) by {
                lemma_sorted_id_seq_empty();
                assert(remote.modified_set() == Set::<usize>::empty());
                assert(rmod_msgs(
                    Seq::<usize>::empty(),
                    base.emap(),
                    local.emap(),
                    remote.emap(),
                    local.modified_set(),
                    rpath@,
                ) =~= Seq::<Seq<u8>>::empty());
                assert(views_of(errors@).len() == errors@.len());
            }
        }
    }
    check_integrity(&merged, local, remote, lpath, rpath, &mut errors);
    proof {
        assert(local.modified_set().union(local.added_set()) =~= mlp.union(added_of(lf, bmm)));
        assert(remote.modified_set().union(remote.added_set()) =~= mrp.union(
            added_of(rf, bmm),
        ));
        assert(views_of(errors@) =~= e4v + req_msgs(
            sorted_id_seq(dl.difference(hl)),
            required_vals(merged.emap(), mrp.union(added_of(rf, bmm))),
            rpath@,
            lpath@,
        ) + req_msgs(
            sorted_id_seq(dr.difference(hr)),
            required_vals(merged.emap(), mlp.union(added_of(lf, bmm))),
            lpath@,
            rpath@,
        ));
        assert(views_of(errors@) =~= del_msgs(sorted_id_seq(dl), mra, rf, lpath@, rpath@)
            + del_msgs(sorted_id_seq(dr), mla, lf, rpath@, lpath@) + class_msgs(
            sorted_id_seq(mlp),
            bmm,
            lf,
            lpath@,
        ) + rmod_msgs(sorted_id_seq(mrp), bmm, lf, rf, mlp, rpath@) + req_msgs(
            sorted_id_seq(dl.difference(hl)),
            required_vals(merged.emap(), mrp.union(added_of(rf, bmm))),
            rpath@,
            lpath@,
        ) + req_msgs(
            sorted_id_seq(dr.difference(hr)),
            required_vals(merged.emap(), mlp.union(added_of(lf, bmm))),
            lpath@,
            rpath@,
        ));
    }
    proof {
        assert forall|k: usize|
            #[trigger] mrp.contains(k) && mlp.contains(k) implies merged.emap().contains_key(k)
            && merged.emap()[k] == both_mod_body(bmm, lf, rf, k) by {}
        assert forall|k: usize|
            #[trigger] mrp.contains(k) && !mlp.contains(k) implies merged.emap().contains_key(k)
            && merged.emap()[k] == rf[k] by {}
        assert forall|k: usize|
            #[trigger] mlp.contains(k) && !mrp.contains(k) implies merged.emap().contains_key(k)
            && merged.emap()[k] == lf[k] by {
            assert(!(dl.contains(k) && !mra.contains(k)) && !heals(dl, mra, rf, k));
            assert(!(dr.contains(k) && !mla.contains(k)) && !heals(dr, mla, lf, k));
        }
        assert forall|k: usize|
            #[trigger] hl.contains(k) implies merged.emap().contains_key(k) && merged.emap()[k]
            == heal_spec(rf[k]) by {
            assert(heals(dl, mra, rf, k));
            assert(!mrp.contains(k));
            assert(!mlp.contains(k));
        }
        assert forall|k: usize|
            #[trigger] hr.contains(k) implies merged.emap().contains_key(k) && merged.emap()[k]
            == heal_spec(lf[k]) by {
            assert(heals(dr, mla, lf, k));
            assert(!(dl.contains(k) && !mra.contains(k)) && !heals(dl, mra, rf, k));
            assert(!mrp.contains(k));
            assert(!mlp.contains(k));
        }
        assert forall|k: usize|
            #[trigger] dl.contains(k) && !mra.contains(k) implies !merged.emap().contains_key(
            k,
        ) by {
            assert(!heals(dl, mra, rf, k));
            assert(!mla.contains(k) && !heals(dr, mla, lf, k));
            assert(!mrp.contains(k) && !mlp.contains(k));
            assert(!md1.contains_key(k));
            if dr.contains(k) {
                assert(!md2.contains_key(k));
            } else {
                assert(!(dr.contains(k) && !mla.contains(k)));
                assert(!md2.contains_key(k));
            }
        }
        assert forall|k: usize|
            #[trigger] dr.contains(k) && !mla.contains(k) implies !merged.emap().contains_key(
            k,
        ) by {
            assert(!heals(dr, mla, lf, k));
            assert(!mra.contains(k) && !heals(dl, mra, rf, k));
            assert(!mrp.contains(k) && !mlp.contains(k));
            if dl.contains(k) {
                assert(!md1.contains_key(k));
                assert(!md2.contains_key(k));
            } else {
                assert(!(dl.contains(k) && !mra.contains(k)));
                assert(!md2.contains_key(k));
            }
        }
        assert forall|k: usize|
            #[trigger] added_of(rf, bmm).contains(k) implies merged.emap().contains_key(k)
            && merged.emap()[k] == rf[k] by {
            assert(!dl.contains(k) && !dr.contains(k) && !mla.contains(k) && !mra.contains(k));
            assert(!heals(dl, mra, rf, k) && !heals(dr, mla, lf, k));
            assert(!mlp.contains(k) && !mrp.contains(k));
            assert(remote.added_set().contains(k) && remote.emap().contains_key(k));
        }
        assert forall|k: usize|
            #[trigger] added_of(lf, bmm).contains(k) && !added_of(rf, bmm).contains(
                k,
            ) implies merged.emap().contains_key(k) && merged.emap()[k] == lf[k] by {
            assert(!dl.contains(k) && !dr.contains(k) && !mla.contains(k) && !mra.contains(k));
            assert(!heals(dl, mra, rf, k) && !heals(dr, mla, lf, k));
            assert(!mlp.contains(k) && !mrp.contains(k));
            assert(local.added_set().contains(k) && local.emap().contains_key(k));
            assert(!(remote.added_set().contains(k) && remote.emap().contains_key(k)));
            assert(!bmm.contains_key(k));
        }
        assert forall|k: usize|
            bmm.contains_key(k) && !mla.contains(k) && !mra.contains(k) && !dl.contains(k)
                && !dr.contains(k) implies merged.emap().contains_key(k) && merged.emap()[k]
            == bmm[k] by {
            assert(!heals(dl, mra, rf, k) && !heals(dr, mla, lf, k));
            assert(!mlp.contains(k) && !mrp.contains(k));
            assert(!(local.added_set().contains(k) && local.emap().contains_key(k)));
            assert(!(remote.added_set().contains(k) && remote.emap().contains_key(k)));
        }
        assert forall|k: usize|
            #[trigger] merged.emap().contains_key(k) implies bmm.contains_key(k)
            || lf.contains_key(k) || rf.contains_key(k) by {
            if !bmm.contains_key(k) && !lf.contains_key(k) && !rf.contains_key(k) {
                assert(!mla.contains(k) && !mra.contains(k) && !dl.contains(k) && !dr.contains(
                    k,
                ));
                assert(!heals(dl, mra, rf, k) && !heals(dr, mla, lf, k));
                assert(!mlp.contains(k) && !mrp.contains(k));
                assert(!(local.added_set().contains(k) && local.emap().contains_key(k)));
                assert(!(remote.added_set().contains(k) && remote.emap().contains_key(k)));
            }
        }
    }
    proof {
        if p1 || p2 {
            assert(errors@.len() == 0) by {
                lemma_sorted_id_seq_empty();
                assert(local.deleted_set() == Set::<usize>::empty());
                assert(remote.deleted_set() == Set::<usize>::empty());
                assert(req_msgs(
                    Seq::<usize>::empty(),
                    required_vals(
                        merged.emap(),
                        remote.modified_set().union(remote.added_set()),
                    ),
                    rpath@,
                    lpath@,
                ) =~= Seq::<Seq<u8>>::empty());
                assert(req_msgs(
                    Seq::<usize>::empty(),
                    required_vals(merged.emap(), local.modified_set().union(local.added_set())),
                    lpath@,
                    rpath@,
                ) =~= Seq::<Seq<u8>>::empty());
                assert(views_of(errors@).len() == errors@.len());
            }
        }
    }
    (merged, errors)
}


/// Two strictly ascending id sequences with the same members are one
/// sequence.
pub proof fn lemma_sorted_ids_unique(a: Seq<usize>, b: Seq<usize>)
    requires
        sorted_strict(a),
        sorted_strict(b),
        forall|k: usize| a.contains(k) <==> b.contains(k),
    ensures
        a == b,
    decreases a.len(),
{
    if a.len() == 0 {
        if b.len() > 0 {
            assert(b.contains(b[0]));
            assert(a.contains(b[0]));
        }
        assert(a =~= b);
    } else {
        assert(a.contains(a[0]));
        assert(b.contains(a[0]));
        let j = choose|j: int| 0 <= j < b.len() && b[j] == a[0];
        assert(b[0] == a[0]) by {
            if j > 0 {
                assert(b[0] < b[j]);
                assert(b.contains(b[0]));
                assert(a.contains(b[0]));
                let i = choose|i: int| 0 <= i < a.len() && a[i] == b[0];
                if i > 0 {
                    assert(a[0] < a[i]);
                }
            }
        }
        assert forall|k: usize| a.skip(1).contains(k) <==> b.skip(1).contains(k) by {
            if a.skip(1).contains(k) {
                let i = choose|i: int| 0 <= i < a.skip(1).len() && a.skip(1)[i] == k;
                assert(a[i + 1] == k);
                assert(a[0] < k);
                assert(b.contains(k));
                let u = choose|u: int| 0 <= u < b.len() && b[u] == k;
                assert(u != 0);
                assert(b.skip(1)[u - 1] == k);
            }
            if b.skip(1).contains(k) {
                let i = choose|i: int| 0 <= i < b.skip(1).len() && b.skip(1)[i] == k;
                assert(b[i + 1] == k);
                assert(b[0] < k);
                assert(a.contains(k));
                let u = choose|u: int| 0 <= u < a.len() && a[u] == k;
                assert(u != 0);
                assert(a.skip(1)[u - 1] == k);
            }
        }
        assert(sorted_strict(a.skip(1))) by {
            assert(forall|i: int, j: int|
                0 <= i < j < a.skip(1).len() ==> a.skip(1)[i] == a[i + 1] && a.skip(1)[j] == a[j
                    + 1]);
        }
        assert(sorted_strict(b.skip(1))) by {
            assert(forall|i: int, j: int|
                0 <= i < j < b.skip(1).len() ==> b.skip(1)[i] == b[i + 1] && b.skip(1)[j] == b[j
                    + 1]);
        }
        lemma_sorted_ids_unique(a.skip(1), b.skip(1));
        assert(a =~= b) by {
            assert(forall|i: int| 1 <= i < a.len() ==> a[i] == a.skip(1)[i - 1]);
            assert(forall|i: int| 1 <= i < b.len() ==> b[i] == b.skip(1)[i - 1]);
        }
    }
}

/// The one strictly ascending enumeration of a finite id set.
pub open spec fn sorted_id_seq(s: Set<usize>) -> Seq<usize> {
    choose|ids: Seq<usize>|
        sorted_strict(ids) && (forall|k: usize| #[trigger] ids.contains(k) <==> s.contains(k))
}

/// The enumeration of the empty set is the empty sequence.
pub proof fn lemma_sorted_id_seq_empty()
    ensures
        sorted_id_seq(Set::<usize>::empty()) == Seq::<usize>::empty(),
{
    let e = Seq::<usize>::empty();
    assert(sorted_strict(e) && (forall|k: usize| #[trigger] e.contains(k)
        <==> Set::<usize>::empty().contains(k)));
    let c = sorted_id_seq(Set::<usize>::empty());
    assert(sorted_strict(c) && (forall|k: usize| #[trigger] c.contains(k)
        <==> Set::<usize>::empty().contains(k)));
    lemma_sorted_ids_unique(c, e);
}

/// Pins the canonical enumeration to a vector that sorts the set.
pub proof fn lemma_sorted_id_seq_is(ids: Seq<usize>, s: Set<usize>)
    requires
        sorted_strict(ids),
        forall|k: usize| ids.contains(k) <==> s.contains(k),
    ensures
        sorted_id_seq(s) == ids,
{
    let c = sorted_id_seq(s);
    assert(sorted_strict(c) && (forall|k: usize| #[trigger] c.contains(k) <==> s.contains(k)));
    lemma_sorted_ids_unique(c, ids);
}

/// The deletion-conflict reports for the deleted ids `ids`, in order: one
/// for each id the other side modified to a non-relationship class.
pub open spec fn del_msgs(
    ids: Seq<usize>,
    m: Set<usize>,
    om: Map<usize, Seq<u8>>,
    dpath: Seq<u8>,
    opath: Seq<u8>,
) -> Seq<Seq<u8>>
    decreases ids.len(),
{
    if ids.len() == 0 {
        Seq::empty()
    } else {
        (if m.contains(ids[0]) && !rel_entity(om, ids[0]) {
            seq![del_err_spec(dpath, ids[0], opath)]
        } else {
            Seq::empty()
        }) + del_msgs(ids.skip(1), m, om, dpath, opath)
    }
}

pub proof fn lemma_del_msgs_push(
    ids: Seq<usize>,
    x: usize,
    m: Set<usize>,
    om: Map<usize, Seq<u8>>,
    dpath: Seq<u8>,
    opath: Seq<u8>,
)
    ensures
        del_msgs(ids.push(x), m, om, dpath, opath) == del_msgs(ids, m, om, dpath, opath) + (if
        m.contains(x) && !rel_entity(om, x) {
            seq![del_err_spec(dpath, x, opath)]
        } else {
            Seq::<Seq<u8>>::empty()
        }),
    decreases ids.len(),
{
    if ids.len() == 0 {
        assert(ids.push(x)[0] == x);
        assert(ids.push(x).skip(1) =~= Seq::<usize>::empty());
        assert(del_msgs(ids, m, om, dpath, opath) =~= Seq::<Seq<u8>>::empty());
        assert(del_msgs(Seq::<usize>::empty(), m, om, dpath, opath) =~= Seq::<Seq<u8>>::empty());
        assert(del_msgs(ids.push(x).skip(1), m, om, dpath, opath) == del_msgs(Seq::<usize>::empty(), m, om, dpath, opath));
        assert(del_msgs(ids.push(x), m, om, dpath, opath) =~= del_msgs(ids, m, om, dpath, opath)
            + (if m.contains(x) && !rel_entity(om, x) {
            seq![del_err_spec(dpath, x, opath)]
        } else {
            Seq::<Seq<u8>>::empty()
        }));
    } else {
        lemma_del_msgs_push(ids.skip(1), x, m, om, dpath, opath);
        assert(ids.push(x).skip(1) =~= ids.skip(1).push(x));
        assert(ids.push(x)[0] == ids[0]);
        assert(del_msgs(ids.push(x), m, om, dpath, opath) == (if m.contains(ids[0]) && !rel_entity(om, ids[0]) {
            seq![del_err_spec(dpath, ids[0], opath)]
        } else {
            Seq::<Seq<u8>>::empty()
        }) + del_msgs(ids.skip(1).push(x), m, om, dpath, opath));
        assert(del_msgs(ids, m, om, dpath, opath) == (if m.contains(ids[0]) && !rel_entity(om, ids[0]) {
            seq![del_err_spec(dpath, ids[0], opath)]
        } else {
            Seq::<Seq<u8>>::empty()
        }) + del_msgs(ids.skip(1), m, om, dpath, opath));
        assert(del_msgs(ids.push(x), m, om, dpath, opath) =~= del_msgs(ids, m, om, dpath, opath)
            + (if m.contains(x) && !rel_entity(om, x) {
            seq![del_err_spec(dpath, x, opath)]
        } else {
            Seq::<Seq<u8>>::empty()
        }));
    }
}

/// The class-change reports for the modified ids `ids`, in order.
pub open spec fn class_msgs(
    ids: Seq<usize>,
    bm: Map<usize, Seq<u8>>,
    sm: Map<usize, Seq<u8>>,
    path: Seq<u8>,
) -> Seq<Seq<u8>>
    decreases ids.len(),
{
    if ids.len() == 0 {
        Seq::empty()
    } else {
        (if class_of_entity(bm, ids[0]) != class_of_entity(sm, ids[0]) {
            seq![class_err_spec(ids[0], path)]
        } else {
            Seq::empty()
        }) + class_msgs(ids.skip(1), bm, sm, path)
    }
}

pub proof fn lemma_class_msgs_push(
    ids: Seq<usize>,
    x: usize,
    bm: Map<usize, Seq<u8>>,
    sm: Map<usize, Seq<u8>>,
    path: Seq<u8>,
)
    ensures
        class_msgs(ids.push(x), bm, sm, path) == class_msgs(ids, bm, sm, path) + (if
        class_of_entity(bm, x) != class_of_entity(sm, x) {
            seq![class_err_spec(x, path)]
        } else {
            Seq::<Seq<u8>>::empty()
        }),
    decreases ids.len(),
{
    if ids.len() == 0 {
        assert(ids.push(x)[0] == x);
        assert(ids.push(x).skip(1) =~= Seq::<usize>::empty());
        assert(class_msgs(ids, bm, sm, path) =~= Seq::<Seq<u8>>::empty());
        assert(class_msgs(Seq::<usize>::empty(), bm, sm, path) =~= Seq::<Seq<u8>>::empty());
        assert(class_msgs(ids.push(x).skip(1), bm, sm, path) == class_msgs(Seq::<usize>::empty(), bm, sm, path));
        assert(class_msgs(ids.push(x), bm, sm, path) =~= class_msgs(ids, bm, sm, path) + (if
        class_of_entity(bm, x) != class_of_entity(sm, x) {
            seq![class_err_spec(x, path)]
        } else {
            Seq::<Seq<u8>>::empty()
        }));
    } else {
        lemma_class_msgs_push(ids.skip(1), x, bm, sm, path);
        assert(ids.push(x).skip(1) =~= ids.skip(1).push(x));
        assert(ids.push(x)[0] == ids[0]);
        assert(class_msgs(ids.push(x), bm, sm, path) == (if class_of_entity(bm, ids[0]) != class_of_entity(sm, ids[0]) {
            seq![class_err_spec(ids[0], path)]
        } else {
            Seq::<Seq<u8>>::empty()
        }) + class_msgs(ids.skip(1).push(x), bm, sm, path));
        assert(class_msgs(ids, bm, sm, path) == (if class_of_entity(bm, ids[0]) != class_of_entity(sm, ids[0]) {
            seq![class_err_spec(ids[0], path)]
        } else {
            Seq::<Seq<u8>>::empty()
        }) + class_msgs(ids.skip(1), bm, sm, path));
        assert(class_msgs(ids.push(x), bm, sm, path) =~= class_msgs(ids, bm, sm, path) + (if
        class_of_entity(bm, x) != class_of_entity(sm, x) {
            seq![class_err_spec(x, path)]
        } else {
            Seq::<Seq<u8>>::empty()
        }));
    }
}

/// The conflicting attribute positions of an entity modified on both
/// sides.
pub open spec fn conflict_set(
    bm: Map<usize, Seq<u8>>,
    lm: Map<usize, Seq<u8>>,
    rm: Map<usize, Seq<u8>>,
    id: usize,
) -> Set<usize> {
    Set::new(
        |c: usize|
            (c as int) < merged_attrs(
                attrs_of_entity(bm, id),
                attrs_of_entity(lm, id),
                attrs_of_entity(rm, id),
                class_of_entity(lm, id),
            ).len() && attr_conflict(
                attrs_of_entity(bm, id)[c as int],
                attrs_of_entity(lm, id)[c as int],
                attrs_of_entity(rm, id)[c as int],
                class_of_entity(lm, id),
            ),
    )
}

/// The attribute-conflict reports for the positions `cs` of entity `id`,
/// one-based in the report, in order.
pub open spec fn attr_msgs_of(cs: Seq<usize>, id: usize) -> Seq<Seq<u8>>
    decreases cs.len(),
{
    if cs.len() == 0 {
        Seq::empty()
    } else {
        seq![attr_err_spec(id, ((cs[0] + 1) as usize))] + attr_msgs_of(cs.skip(1), id)
    }
}

pub proof fn lemma_attr_msgs_push(cs: Seq<usize>, x: usize, id: usize)
    ensures
        attr_msgs_of(cs.push(x), id) == attr_msgs_of(cs, id) + seq![
            attr_err_spec(id, ((x + 1) as usize)),
        ],
    decreases cs.len(),
{
    if cs.len() == 0 {
        assert(cs.push(x)[0] == x);
        assert(cs.push(x).skip(1) =~= Seq::<usize>::empty());
        assert(attr_msgs_of(cs, id) =~= Seq::<Seq<u8>>::empty());
        assert(attr_msgs_of(Seq::<usize>::empty(), id) =~= Seq::<Seq<u8>>::empty());
        assert(attr_msgs_of(cs.push(x).skip(1), id) == attr_msgs_of(Seq::<usize>::empty(), id));
        assert(attr_msgs_of(cs.push(x), id) =~= attr_msgs_of(cs, id) + seq![
            attr_err_spec(id, ((x + 1) as usize)),
        ]);
    } else {
        lemma_attr_msgs_push(cs.skip(1), x, id);
        assert(cs.push(x).skip(1) =~= cs.skip(1).push(x));
        assert(cs.push(x)[0] == cs[0]);
        assert(attr_msgs_of(cs.push(x), id) == seq![attr_err_spec(id, ((cs[0] + 1) as usize))]
            + attr_msgs_of(cs.skip(1).push(x), id));
        assert(attr_msgs_of(cs, id) == seq![attr_err_spec(id, ((cs[0] + 1) as usize))]
            + attr_msgs_of(cs.skip(1), id));
        assert(attr_msgs_of(cs.push(x), id) =~= attr_msgs_of(cs, id) + seq![
            attr_err_spec(id, ((x + 1) as usize)),
        ]);
    }
}

/// The reports one remotely modified id contributes: a class-change report
/// when its class moved against the ancestor, then, when both sides
/// modified it, one report per unresolvable attribute position, ascending.
pub open spec fn rmod_msgs_one(
    bm: Map<usize, Seq<u8>>,
    lm: Map<usize, Seq<u8>>,
    rm: Map<usize, Seq<u8>>,
    ml: Set<usize>,
    id: usize,
    rpath: Seq<u8>,
) -> Seq<Seq<u8>> {
    (if class_of_entity(bm, id) != class_of_entity(rm, id) {
        seq![class_err_spec(id, rpath)]
    } else {
        Seq::<Seq<u8>>::empty()
    }) + (if ml.contains(id) {
        attr_msgs_of(sorted_id_seq(conflict_set(bm, lm, rm, id)), id)
    } else {
        Seq::<Seq<u8>>::empty()
    })
}

/// The reports of the remote-modification pass over `ids`, in order.
pub open spec fn rmod_msgs(
    ids: Seq<usize>,
    bm: Map<usize, Seq<u8>>,
    lm: Map<usize, Seq<u8>>,
    rm: Map<usize, Seq<u8>>,
    ml: Set<usize>,
    rpath: Seq<u8>,
) -> Seq<Seq<u8>>
    decreases ids.len(),
{
    if ids.len() == 0 {
        Seq::empty()
    } else {
        rmod_msgs_one(bm, lm, rm, ml, ids[0], rpath) + rmod_msgs(
            ids.skip(1),
            bm,
            lm,
            rm,
            ml,
            rpath,
        )
    }
}

pub proof fn lemma_rmod_msgs_push(
    ids: Seq<usize>,
    x: usize,
    bm: Map<usize, Seq<u8>>,
    lm: Map<usize, Seq<u8>>,
    rm: Map<usize, Seq<u8>>,
    ml: Set<usize>,
    rpath: Seq<u8>,
)
    ensures
        rmod_msgs(ids.push(x), bm, lm, rm, ml, rpath) == rmod_msgs(ids, bm, lm, rm, ml, rpath)
            + rmod_msgs_one(bm, lm, rm, ml, x, rpath),
    decreases ids.len(),
{
    if ids.len() == 0 {
        assert(ids.push(x)[0] == x);
        assert(ids.push(x).skip(1) =~= Seq::<usize>::empty());
        assert(rmod_msgs(ids, bm, lm, rm, ml, rpath) =~= Seq::<Seq<u8>>::empty());
        assert(rmod_msgs(Seq::<usize>::empty(), bm, lm, rm, ml, rpath)
            =~= Seq::<Seq<u8>>::empty());
        assert(rmod_msgs(ids.push(x).skip(1), bm, lm, rm, ml, rpath) == rmod_msgs(
            Seq::<usize>::empty(),
            bm,
            lm,
            rm,
            ml,
            rpath,
        ));
        assert(rmod_msgs(ids.push(x), bm, lm, rm, ml, rpath) =~= rmod_msgs(
            ids,
            bm,
            lm,
            rm,
            ml,
            rpath,
        ) + rmod_msgs_one(bm, lm, rm, ml, x, rpath));
    } else {
        lemma_rmod_msgs_push(ids.skip(1), x, bm, lm, rm, ml, rpath);
        assert(ids.push(x).skip(1) =~= ids.skip(1).push(x));
        assert(ids.push(x)[0] == ids[0]);
        assert(rmod_msgs(ids.push(x), bm, lm, rm, ml, rpath) == rmod_msgs_one(
            bm,
            lm,
            rm,
            ml,
            ids[0],
            rpath,
        ) + rmod_msgs(ids.skip(1).push(x), bm, lm, rm, ml, rpath));
        assert(rmod_msgs(ids, bm, lm, rm, ml, rpath) == rmod_msgs_one(bm, lm, rm, ml, ids[0], rpath)
            + rmod_msgs(ids.skip(1), bm, lm, rm, ml, rpath));
        assert(rmod_msgs(ids.push(x), bm, lm, rm, ml, rpath) =~= rmod_msgs(
            ids,
            bm,
            lm,
            rm,
            ml,
            rpath,
        ) + rmod_msgs_one(bm, lm, rm, ml, x, rpath));
    }
}

/// The required-reference reports for the deleted ids `ids`, in order: one
/// for each id the other side's changes require.
pub open spec fn req_msgs(
    ids: Seq<usize>,
    req: Set<nat>,
    req_path: Seq<u8>,
    del_path: Seq<u8>,
) -> Seq<Seq<u8>>
    decreases ids.len(),
{
    if ids.len() == 0 {
        Seq::empty()
    } else {
        (if req.contains(ids[0] as nat) {
            seq![req_err_spec(ids[0], req_path, del_path)]
        } else {
            Seq::empty()
        }) + req_msgs(ids.skip(1), req, req_path, del_path)
    }
}

pub proof fn lemma_req_msgs_push(ids: Seq<usize>, x: usize, req: Set<nat>, rp: Seq<u8>, dp: Seq<u8>)
    ensures
        req_msgs(ids.push(x), req, rp, dp) == req_msgs(ids, req, rp, dp) + (if req.contains(
            x as nat,
        ) {
            seq![req_err_spec(x, rp, dp)]
        } else {
            Seq::<Seq<u8>>::empty()
        }),
    decreases ids.len(),
{
    if ids.len() == 0 {
        assert(ids.push(x)[0] == x);
        assert(ids.push(x).skip(1) =~= Seq::<usize>::empty());
        assert(req_msgs(ids, req, rp, dp) =~= Seq::<Seq<u8>>::empty());
        assert(req_msgs(Seq::<usize>::empty(), req, rp, dp) =~= Seq::<Seq<u8>>::empty());
        assert(req_msgs(ids.push(x).skip(1), req, rp, dp) == req_msgs(Seq::<usize>::empty(), req, rp, dp));
        assert(req_msgs(ids.push(x), req, rp, dp) =~= req_msgs(ids, req, rp, dp) + (if
        req.contains(x as nat) {
            seq![req_err_spec(x, rp, dp)]
        } else {
            Seq::<Seq<u8>>::empty()
        }));
    } else {
        lemma_req_msgs_push(ids.skip(1), x, req, rp, dp);
        assert(ids.push(x).skip(1) =~= ids.skip(1).push(x));
        assert(ids.push(x)[0] == ids[0]);
        assert(req_msgs(ids.push(x), req, rp, dp) == (if req.contains(ids[0] as nat) {
            seq![req_err_spec(ids[0], rp, dp)]
        } else {
            Seq::<Seq<u8>>::empty()
        }) + req_msgs(ids.skip(1).push(x), req, rp, dp));
        assert(req_msgs(ids, req, rp, dp) == (if req.contains(ids[0] as nat) {
            seq![req_err_spec(ids[0], rp, dp)]
        } else {
            Seq::<Seq<u8>>::empty()
        }) + req_msgs(ids.skip(1), req, rp, dp));
        assert(req_msgs(ids.push(x), req, rp, dp) =~= req_msgs(ids, req, rp, dp) + (if
        req.contains(x as nat) {
            seq![req_err_spec(x, rp, dp)]
        } else {
            Seq::<Seq<u8>>::empty()
        }));
    }
}

} // verus!






