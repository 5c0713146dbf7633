//! The Record Store: one loaded file as an envelope (the non-entity lines,
//! in order) and a mapping from entity id to raw body text, together with
//! the three diff sets (added, deleted, modified) computed against another
//! store.
//!
//! Entities are held as an association list sorted strictly by id; its
//! mathematical model is a `Map<usize, Seq<u8>>`. The diff sets are sorted
//! id vectors modeled as `Set<usize>`.

use vstd::prelude::*;
use crate::text::{bytes_eq, copy_bytes};
use crate::tokenizer::{dissemble, split_body, spec_class_of, spec_attrs_of};

verus! {

/// Strictly ascending ids.
pub open spec fn sorted_strict(s: Seq<usize>) -> bool {
    forall|i: int, j: int| 0 <= i < j < s.len() ==> s[i] < s[j]
}

/// Entries sorted strictly by key.
pub open spec fn kv_sorted(s: Seq<(usize, Vec<u8>)>) -> bool {
    forall|i: int, j: int| 0 <= i < j < s.len() ==> (#[trigger] s[i]).0 < (#[trigger] s[j]).0
}

pub open spec fn kv_has(s: Seq<(usize, Vec<u8>)>, k: usize) -> bool {
    exists|i: int| 0 <= i < s.len() && (#[trigger] s[i]).0 == k
}

pub open spec fn kv_at(s: Seq<(usize, Vec<u8>)>, k: usize) -> int {
    choose|i: int| 0 <= i < s.len() && (#[trigger] s[i]).0 == k
}

/// The id-to-body map an association list denotes.
pub open spec fn kv_map(s: Seq<(usize, Vec<u8>)>) -> Map<usize, Seq<u8>> {
    Map::new(|k: usize| kv_has(s, k), |k: usize| s[kv_at(s, k)].1@)
}

/// Pushing a strictly larger id keeps an id vector sorted; membership grows
/// by exactly that id.
proof fn lemma_push_sorted(s: Seq<usize>, x: usize)
    requires
        sorted_strict(s),
        forall|k: usize| s.contains(k) ==> k < x,
    ensures
        sorted_strict(s.push(x)),
        forall|k: usize| s.push(x).contains(k) <==> s.contains(k) || k == x,
{
    let t = s.push(x);
    assert forall|i: int, j: int| 0 <= i < j < t.len() implies t[i] < t[j] by {
        if j == s.len() {
            assert(s.contains(s[i]));
        }
    }
    assert forall|k: usize| t.contains(k) <==> s.contains(k) || k == x by {
        if t.contains(k) {
            let j = choose|j: int| 0 <= j < t.len() && t[j] == k;
            if j < s.len() {
                assert(s[j] == k);
            }
        }
        if s.contains(k) {
            let j = choose|j: int| 0 <= j < s.len() && s[j] == k;
            assert(t[j] == k);
        }
        if k == x {
            assert(t[s.len() as int] == k);
        }
    }
}

/// In a sorted list each key appears once.
proof fn lemma_kv_unique(s: Seq<(usize, Vec<u8>)>, i: int, j: int)
    requires
        kv_sorted(s),
        0 <= i < s.len(),
        0 <= j < s.len(),
        s[i].0 == s[j].0,
    ensures
        i == j,
{
}

/// The entry at index `i` is what the map holds for its key.
proof fn lemma_kv_value(s: Seq<(usize, Vec<u8>)>, i: int)
    requires
        kv_sorted(s),
        0 <= i < s.len(),
    ensures
        kv_map(s).contains_key(s[i].0),
        kv_map(s)[s[i].0] == s[i].1@,
{
    let k = s[i].0;
    assert(kv_has(s, k));
    let j = kv_at(s, k);
    assert(0 <= j < s.len() && s[j].0 == k);
    lemma_kv_unique(s, i, j);
}

/// A sorted association list denotes `m` when they agree pointwise.
proof fn lemma_kv_map_is(s: Seq<(usize, Vec<u8>)>, m: Map<usize, Seq<u8>>)
    requires
        kv_sorted(s),
        forall|k: usize| kv_has(s, k) <==> m.contains_key(k),
        forall|i: int|
            0 <= i < s.len() ==> m.contains_key((#[trigger] s[i]).0) && m[s[i].0] == s[i].1@,
    ensures
        kv_map(s) == m,
{
    assert forall|k: usize| kv_map(s).contains_key(k) implies m.contains_key(k) by {}
    assert forall|k: usize| #[trigger] m.contains_key(k) implies kv_map(s).contains_key(k)
        && kv_map(s)[k] == m[k] by {
        assert(kv_has(s, k));
        let i = choose|i: int| 0 <= i < s.len() && (#[trigger] s[i]).0 == k;
        lemma_kv_value(s, i);
    }
    assert(kv_map(s) =~= m);
}

/// One loaded file: envelope lines plus the entity records, and the diff
/// sets relative to the store it was last compared against.
pub struct Ifc {
    headers: Vec<Vec<u8>>,
    file: Vec<(usize, Vec<u8>)>,
    added: Vec<usize>,
    deleted: Vec<usize>,
    modified: Vec<usize>,
}

impl Ifc {
    /// The store's internal ordering invariant.
    pub closed spec fn wf(&self) -> bool {
        kv_sorted(self.file@) && sorted_strict(self.added@) && sorted_strict(self.deleted@)
            && sorted_strict(self.modified@)
    }

    /// The id-to-body mapping.
    pub closed spec fn emap(&self) -> Map<usize, Seq<u8>> {
        kv_map(self.file@)
    }

    /// The envelope lines, in order.
    pub closed spec fn headers_view(&self) -> Seq<Seq<u8>> {
        self.headers@.map_values(|v: Vec<u8>| v@)
    }

    /// Ids this store has and the compared store lacks.
    pub closed spec fn added_set(&self) -> Set<usize> {
        self.added@.to_set()
    }

    /// Ids the compared store has and this store lacks.
    pub closed spec fn deleted_set(&self) -> Set<usize> {
        self.deleted@.to_set()
    }

    /// Ids present in both with differing body text.
    pub closed spec fn modified_set(&self) -> Set<usize> {
        self.modified@.to_set()
    }

    /// An empty store: no envelope, no entities, empty diff sets.
    pub fn new() -> (r: Ifc)
        ensures
            r.wf(),
            r.emap() == Map::<usize, Seq<u8>>::empty(),
            r.headers_view() == Seq::<Seq<u8>>::empty(),
            r.added_set() == Set::<usize>::empty(),
            r.deleted_set() == Set::<usize>::empty(),
            r.modified_set() == Set::<usize>::empty(),
    {
        let r = Ifc {
            headers: Vec::new(),
            file: Vec::new(),
            added: Vec::new(),
            deleted: Vec::new(),
            modified: Vec::new(),
        };
        proof {
            assert(r.emap() =~= Map::<usize, Seq<u8>>::empty());
            assert(r.headers_view() =~= Seq::<Seq<u8>>::empty());
            assert(r.added_set() =~= Set::<usize>::empty());
            assert(r.deleted_set() =~= Set::<usize>::empty());
            assert(r.modified_set() =~= Set::<usize>::empty());
        }
        r
    }

    /// Appends one envelope line.
    pub fn push_header(&mut self, line: Vec<u8>)
        requires
            old(self).wf(),
        ensures
            final(self).wf(),
            final(self).headers_view() == old(self).headers_view().push(line@),
            final(self).emap() == old(self).emap(),
            final(self).added_set() == old(self).added_set(),
            final(self).deleted_set() == old(self).deleted_set(),
            final(self).modified_set() == old(self).modified_set(),
    {
        self.headers.push(line);
        proof {
            assert(self.headers_view() =~= old(self).headers_view().push(line@));
        }
    }

    /// The number of envelope lines.
    pub fn headers_len(&self) -> (r: usize)
        ensures
            r == self.headers_view().len(),
    {
        self.headers.len()
    }

    /// A copy of envelope line `i`.
    pub fn header_at(&self, i: usize) -> (r: Vec<u8>)
        requires
            i < self.headers_view().len(),
        ensures
            r@ == self.headers_view()[i as int],
    {
        copy_bytes(&self.headers[i])
    }

    /// Whether an entity with this id is present.
    #[verifier::loop_isolation(false)]
    pub fn contains(&self, id: usize) -> (r: bool)
        ensures
            r == self.emap().contains_key(id),
    {
        let n = self.file.len();
        let mut i: usize = 0;
        while i < n
            invariant
                0 <= i <= n,
                forall|j: int| 0 <= j < i ==> (#[trigger] self.file@[j]).0 != id,
            decreases n - i,
        {
            if self.file[i].0 == id {
                return true;
            }
            i = i + 1;
        }
        false
    }

    /// A copy of the body stored under `id`, when present.
    #[verifier::loop_isolation(false)]
    pub fn get_body(&self, id: usize) -> (r: Option<Vec<u8>>)
        requires
            self.wf(),
        ensures
            match r {
                Some(b) => self.emap().contains_key(id) && b@ == self.emap()[id],
                None => !self.emap().contains_key(id),
            },
    {
        let n = self.file.len();
        let mut i: usize = 0;
        while i < n
            invariant
                0 <= i <= n,
                forall|j: int| 0 <= j < i ==> (#[trigger] self.file@[j]).0 != id,
            decreases n - i,
        {
            if self.file[i].0 == id {
                proof {
                    lemma_kv_value(self.file@, i as int);
                }
                return Some(copy_bytes(&self.file[i].1));
            }
            i = i + 1;
        }
        None
    }

    /// Inserts or replaces the body stored under `id`.
    #[verifier::loop_isolation(false)]
    pub fn insert(&mut self, id: usize, body: Vec<u8>)
        requires
            old(self).wf(),
        ensures
            final(self).wf(),
            final(self).emap() == old(self).emap().insert(id, body@),
            final(self).headers_view() == old(self).headers_view(),
            final(self).added_set() == old(self).added_set(),
            final(self).deleted_set() == old(self).deleted_set(),
            final(self).modified_set() == old(self).modified_set(),
    {
        let n = self.file.len();
        let mut i: usize = 0;
        while i < n && self.file[i].0 < id
            invariant
                0 <= i <= n,
                forall|j: int| 0 <= j < i ==> (#[trigger] self.file@[j]).0 < id,
            decreases n - i,
        {
            i = i + 1;
        }
        let ghost olds = self.file@;
        let ghost m = kv_map(olds).insert(id, body@);
        if i < n && self.file[i].0 == id {
            self.file.set(i, (id, body));
            proof {
                let news = self.file@;
                assert(news[i as int].0 == id);
                assert forall|k: usize| kv_has(news, k) <==> m.contains_key(k) by {
                    if kv_has(news, k) {
                        let j = choose|j: int| 0 <= j < news.len() && (#[trigger] news[j]).0 == k;
                        assert(olds[j].0 == k);
                    }
                    if m.contains_key(k) && k != id {
                        let j = choose|j: int| 0 <= j < olds.len() && (#[trigger] olds[j]).0 == k;
                        assert(news[j].0 == k);
                    }
                }
                assert forall|j: int| 0 <= j < news.len() implies m.contains_key(
                    (#[trigger] news[j]).0,
                ) && m[news[j].0] == news[j].1@ by {
                    if j != i {
                        lemma_kv_value(olds, j);
                    }
                }
                lemma_kv_map_is(news, m);
            }
        } else {
            self.file.insert(i, (id, body));
            proof {
                let news = self.file@;
                assert(news == olds.insert(i as int, (id, body)));
                assert(forall|j: int| 0 <= j < i ==> news[j] == olds[j]);
                assert(forall|j: int| i < j < news.len() ==> news[j] == olds[j - 1]);
                assert(kv_sorted(news));
                assert(news[i as int].0 == id);
                assert forall|k: usize| kv_has(news, k) <==> m.contains_key(k) by {
                    if kv_has(news, k) {
                        let j = choose|j: int| 0 <= j < news.len() && (#[trigger] news[j]).0 == k;
                        if j < i {
                            assert(olds[j].0 == k);
                        } else if j > i {
                            assert(olds[j - 1].0 == k);
                        }
                    }
                    if m.contains_key(k) && k != id {
                        let j = choose|j: int| 0 <= j < olds.len() && (#[trigger] olds[j]).0 == k;
                        if j < i {
                            assert(news[j].0 == k);
                        } else {
                            assert(news[j + 1].0 == k);
                        }
                    }
                }
                assert forall|j: int| 0 <= j < news.len() implies m.contains_key(
                    (#[trigger] news[j]).0,
                ) && m[news[j].0] == news[j].1@ by {
                    if j < i {
                        lemma_kv_value(olds, j);
                        assert(olds[j].0 != id);
                    } else if j > i {
                        lemma_kv_value(olds, j - 1);
                        assert(olds[j - 1].0 != id);
                    }
                }
                lemma_kv_map_is(news, m);
            }
        }
    }

    /// Removes the entity stored under `id`, when present.
    #[verifier::loop_isolation(false)]
    pub fn remove(&mut self, id: usize)
        requires
            old(self).wf(),
        ensures
            final(self).wf(),
            final(self).emap() == old(self).emap().remove(id),
            final(self).headers_view() == old(self).headers_view(),
            final(self).added_set() == old(self).added_set(),
            final(self).deleted_set() == old(self).deleted_set(),
            final(self).modified_set() == old(self).modified_set(),
    {
        let n = self.file.len();
        let mut i: usize = 0;
        while i < n
            invariant
                0 <= i <= n,
                *self == *old(self),
                forall|j: int| 0 <= j < i ==> (#[trigger] self.file@[j]).0 != id,
            decreases n - i,
        {
            if self.file[i].0 == id {
                let ghost olds = self.file@;
                let ghost m = kv_map(olds).remove(id);
                self.file.remove(i);
                proof {
                    let news = self.file@;
                    assert(news == olds.remove(i as int));
                    assert(forall|j: int| 0 <= j < i ==> news[j] == olds[j]);
                    assert(forall|j: int| i <= j < news.len() ==> news[j] == olds[j + 1]);
                    assert(kv_sorted(news));
                    assert forall|k: usize| kv_has(news, k) <==> m.contains_key(k) by {
                        if kv_has(news, k) {
                            let j = choose|j: int|
                                0 <= j < news.len() && (#[trigger] news[j]).0 == k;
                            if j < i {
                                assert(olds[j].0 == k);
                                if k == id {
                                    lemma_kv_unique(olds, j, i as int);
                                }
                            } else {
                                assert(olds[j + 1].0 == k);
                                if k == id {
                                    lemma_kv_unique(olds, j + 1, i as int);
                                }
                            }
                        }
                        if m.contains_key(k) {
                            let j = choose|j: int|
                                0 <= j < olds.len() && (#[trigger] olds[j]).0 == k;
                            assert(j != i);
                            if j < i {
                                assert(news[j].0 == k);
                            } else {
                                assert(news[j - 1].0 == k);
                            }
                        }
                    }
                    assert forall|j: int| 0 <= j < news.len() implies m.contains_key(
                        (#[trigger] news[j]).0,
                    ) && m[news[j].0] == news[j].1@ by {
                        if j < i {
                            lemma_kv_value(olds, j);
                            if news[j].0 == id {
                                lemma_kv_unique(olds, j, i as int);
                            }
                        } else {
                            lemma_kv_value(olds, j + 1);
                            if news[j].0 == id {
                                lemma_kv_unique(olds, j + 1, i as int);
                            }
                        }
                    }
                    lemma_kv_map_is(news, m);
                }
                return ;
            }
            i = i + 1;
        }
        proof {
            assert(!kv_has(self.file@, id)) by {
                if kv_has(self.file@, id) {
                    let j = choose|j: int|
                        0 <= j < self.file@.len() && (#[trigger] self.file@[j]).0 == id;
                }
            }
            assert(self.emap() =~= old(self).emap().remove(id));
        }
    }

    /// The largest entity id, or `0` for an empty store.
    #[verifier::loop_isolation(false)]
    pub fn last(&self) -> (r: usize)
        requires
            self.wf(),
        ensures
            forall|k: usize| self.emap().contains_key(k) ==> k <= r,
            (exists|k: usize| self.emap().contains_key(k)) ==> self.emap().contains_key(r),
            !(exists|k: usize| self.emap().contains_key(k)) ==> r == 0,
    {
        let n = self.file.len();
        if n == 0 {
            proof {
                assert forall|k: usize| !self.emap().contains_key(k) by {}
            }
            0
        } else {
            let r = self.file[n - 1].0;
            proof {
                lemma_kv_value(self.file@, n - 1);
                assert(self.emap().contains_key(r));
                assert(exists|k: usize| self.emap().contains_key(k));
                assert forall|k: usize| self.emap().contains_key(k) implies k <= r by {
                    assert(kv_has(self.file@, k));
                    let j = kv_at(self.file@, k);
                }
            }
            r
        }
    }

    /// All entity ids, in ascending order.
    #[verifier::loop_isolation(false)]
    pub fn file_ids(&self) -> (r: Vec<usize>)
        requires
            self.wf(),
        ensures
            sorted_strict(r@),
            forall|k: usize| r@.contains(k) <==> self.emap().contains_key(k),
    {
        let n = self.file.len();
        let mut r: Vec<usize> = Vec::new();
        let mut i: usize = 0;
        while i < n
            invariant
                0 <= i <= n,
                r@.len() == i,
                forall|j: int| 0 <= j < i ==> r@[j] == (#[trigger] self.file@[j]).0,
            decreases n - i,
        {
            r.push(self.file[i].0);
            i = i + 1;
        }
        proof {
            assert forall|a: int, b: int| 0 <= a < b < r@.len() implies r@[a] < r@[b] by {
                assert((self.file@[a]).0 < (self.file@[b]).0);
            }
            assert forall|k: usize| r@.contains(k) <==> self.emap().contains_key(k) by {
                if r@.contains(k) {
                    let j = choose|j: int| 0 <= j < r@.len() && r@[j] == k;
                    lemma_kv_value(self.file@, j);
                }
                if self.emap().contains_key(k) {
                    let j = kv_at(self.file@, k);
                    assert(r@[j] == k);
                }
            }
        }
        r
    }

    /// The added ids, in ascending order.
    pub fn added_ids(&self) -> (r: Vec<usize>)
        requires
            self.wf(),
        ensures
            sorted_strict(r@),
            forall|k: usize| r@.contains(k) <==> self.added_set().contains(k),
    {
        copy_ids(&self.added)
    }

    /// The deleted ids, in ascending order.
    pub fn deleted_ids(&self) -> (r: Vec<usize>)
        requires
            self.wf(),
        ensures
            sorted_strict(r@),
            forall|k: usize| r@.contains(k) <==> self.deleted_set().contains(k),
    {
        copy_ids(&self.deleted)
    }

    /// The modified ids, in ascending order.
    pub fn modified_ids(&self) -> (r: Vec<usize>)
        requires
            self.wf(),
        ensures
            sorted_strict(r@),
            forall|k: usize| r@.contains(k) <==> self.modified_set().contains(k),
    {
        copy_ids(&self.modified)
    }

    /// Whether `id` was marked added by the last comparison.
    pub fn is_added(&self, id: usize) -> (r: bool)
        ensures
            r == self.added_set().contains(id),
    {
        contains_id(&self.added, id)
    }

    /// Whether `id` was marked deleted by the last comparison.
    pub fn is_deleted(&self, id: usize) -> (r: bool)
        ensures
            r == self.deleted_set().contains(id),
    {
        contains_id(&self.deleted, id)
    }

    /// Whether `id` was marked modified by the last comparison.
    pub fn is_modified(&self, id: usize) -> (r: bool)
        ensures
            r == self.modified_set().contains(id),
    {
        contains_id(&self.modified, id)
    }

    /// Adds `id` to the modified set.
    pub fn mark_modified(&mut self, id: usize)
        requires
            old(self).wf(),
        ensures
            final(self).wf(),
            final(self).modified_set() == old(self).modified_set().insert(id),
            final(self).emap() == old(self).emap(),
            final(self).headers_view() == old(self).headers_view(),
            final(self).added_set() == old(self).added_set(),
            final(self).deleted_set() == old(self).deleted_set(),
    {
        sorted_insert(&mut self.modified, id);
        proof {
            assert(self.modified_set() =~= old(self).modified_set().insert(id));
        }
    }

    /// Drops `id` from the deleted set.
    pub fn unmark_deleted(&mut self, id: usize)
        requires
            old(self).wf(),
        ensures
            final(self).wf(),
            final(self).deleted_set() == old(self).deleted_set().remove(id),
            final(self).emap() == old(self).emap(),
            final(self).headers_view() == old(self).headers_view(),
            final(self).added_set() == old(self).added_set(),
            final(self).modified_set() == old(self).modified_set(),
    {
        sorted_remove(&mut self.deleted, id);
        proof {
            assert(self.deleted_set() =~= old(self).deleted_set().remove(id));
        }
    }

    /// Drops `id` from the modified set.
    pub fn unmark_modified(&mut self, id: usize)
        requires
            old(self).wf(),
        ensures
            final(self).wf(),
            final(self).modified_set() == old(self).modified_set().remove(id),
            final(self).emap() == old(self).emap(),
            final(self).headers_view() == old(self).headers_view(),
            final(self).added_set() == old(self).added_set(),
            final(self).deleted_set() == old(self).deleted_set(),
    {
        sorted_remove(&mut self.modified, id);
        proof {
            assert(self.modified_set() =~= old(self).modified_set().remove(id));
        }
    }

    /// An independent copy of this store.
    #[verifier::loop_isolation(false)]
    pub fn duplicate(&self) -> (r: Ifc)
        requires
            self.wf(),
        ensures
            r.wf(),
            r.emap() == self.emap(),
            r.headers_view() == self.headers_view(),
            r.added_set() == self.added_set(),
            r.deleted_set() == self.deleted_set(),
            r.modified_set() == self.modified_set(),
    {
        let mut headers: Vec<Vec<u8>> = Vec::new();
        let mut i: usize = 0;
        let hn = self.headers.len();
        while i < hn
            invariant
                0 <= i <= hn,
                headers@.map_values(|v: Vec<u8>| v@) == self.headers@.map_values(
                    |v: Vec<u8>| v@,
                ).take(i as int),
            decreases hn - i,
        {
            headers.push(copy_bytes(&self.headers[i]));
            i = i + 1;
            proof {
                assert(headers@.map_values(|v: Vec<u8>| v@) =~= self.headers@.map_values(
                    |v: Vec<u8>| v@,
                ).take(i as int));
            }
        }
        let mut file: Vec<(usize, Vec<u8>)> = Vec::new();
        let fn_ = self.file.len();
        let mut j: usize = 0;
        while j < fn_
            invariant
                0 <= j <= fn_,
                file@.len() == j,
                forall|t: int|
                    0 <= t < j ==> (#[trigger] file@[t]).0 == self.file@[t].0 && file@[t].1@
                        == self.file@[t].1@,
            decreases fn_ - j,
        {
            let id = self.file[j].0;
            let body = copy_bytes(&self.file[j].1);
            file.push((id, body));
            j = j + 1;
        }
        let r = Ifc {
            headers,
            file,
            added: copy_ids(&self.added),
            deleted: copy_ids(&self.deleted),
            modified: copy_ids(&self.modified),
        };
        proof {
            assert(r.headers_view() =~= self.headers_view());
            let news = r.file@;
            let olds = self.file@;
            assert(kv_sorted(news));
            assert forall|k: usize| kv_has(news, k) <==> self.emap().contains_key(k) by {
                if kv_has(news, k) {
                    let t = choose|t: int| 0 <= t < news.len() && (#[trigger] news[t]).0 == k;
                    assert(olds[t].0 == k);
                }
                if self.emap().contains_key(k) {
                    let t = kv_at(olds, k);
                    assert(news[t].0 == k);
                }
            }
            assert forall|t: int| 0 <= t < news.len() implies self.emap().contains_key(
                (#[trigger] news[t]).0,
            ) && self.emap()[news[t].0] == news[t].1@ by {
                lemma_kv_value(olds, t);
            }
            lemma_kv_map_is(news, self.emap());
            assert(r.added_set() =~= self.added_set());
            assert(r.deleted_set() =~= self.deleted_set());
            assert(r.modified_set() =~= self.modified_set());
        }
        r
    }

    /// Recomputes the three diff sets of `self` against `other`: an id only
    /// here is added, an id in both with differing body is modified, an id
    /// only there is deleted. Unchanged ids land in none of the sets; the
    /// entities themselves are untouched.
    #[verifier::loop_isolation(false)]
    pub fn compare(&mut self, other: &Ifc)
        requires
            old(self).wf(),
            other.wf(),
        ensures
            final(self).wf(),
            final(self).emap() == old(self).emap(),
            final(self).headers_view() == old(self).headers_view(),
            forall|k: usize|
                final(self).added_set().contains(k) <==> final(self).emap().contains_key(k)
                    && !other.emap().contains_key(k),
            forall|k: usize|
                final(self).modified_set().contains(k) <==> final(self).emap().contains_key(k)
                    && other.emap().contains_key(k) && final(self).emap()[k] != other.emap()[k],
            forall|k: usize|
                final(self).deleted_set().contains(k) <==> other.emap().contains_key(k)
                    && !final(self).emap().contains_key(k),
    {
        self.added = Vec::new();
        self.modified = Vec::new();
        self.deleted = Vec::new();
        let n = self.file.len();
        let mut i: usize = 0;
        while i < n
            invariant
                0 <= i <= n,
                self.file@ == old(self).file@,
                self.headers@ == old(self).headers@,
                self.deleted@.len() == 0,
                sorted_strict(self.added@),
                sorted_strict(self.modified@),
                forall|k: usize|
                    self.added@.contains(k) <==> exists|j: int|
                        0 <= j < i && (#[trigger] self.file@[j]).0 == k
                            && !other.emap().contains_key(k),
                forall|k: usize|
                    self.modified@.contains(k) <==> exists|j: int|
                        0 <= j < i && (#[trigger] self.file@[j]).0 == k
                            && other.emap().contains_key(k) && self.file@[j].1@
                            != other.emap()[k],
            decreases n - i,
        {
            let id = self.file[i].0;
            proof {
                assert forall|k: usize| self.added@.contains(k) implies k < id by {
                    let j = choose|j: int|
                        0 <= j < i && (#[trigger] self.file@[j]).0 == k
                            && !other.emap().contains_key(k);
                }
                assert forall|k: usize| self.modified@.contains(k) implies k < id by {
                    let j = choose|j: int|
                        0 <= j < i && (#[trigger] self.file@[j]).0 == k
                            && other.emap().contains_key(k) && self.file@[j].1@
                            != other.emap()[k];
                }
            }
            let ghost pa = self.added@;
            let ghost pm = self.modified@;
            match other.get_body(id) {
                None => {
                    proof {
                        lemma_push_sorted(pa, id);
                    }
                    self.added.push(id);
                    proof {
                        assert(self.added@ == pa.push(id));
                        assert forall|k: usize|
                            self.added@.contains(k) <==> (exists|j: int|
                                0 <= j < i + 1 && (#[trigger] self.file@[j]).0 == k
                                    && !other.emap().contains_key(k)) by {
                            if self.added@.contains(k) {
                                assert(pa.contains(k) || k == id);
                                if k == id {
                                    assert((self.file@[i as int]).0 == id);
                                    assert(0 <= i < i + 1 && (self.file@[i as int]).0 == k
                                        && !other.emap().contains_key(k));
                                } else {
                                    let j = choose|j: int|
                                        0 <= j < i && (#[trigger] self.file@[j]).0 == k
                                            && !other.emap().contains_key(k);
                                    assert(0 <= j < i + 1 && (self.file@[j]).0 == k
                                        && !other.emap().contains_key(k));
                                }
                            }
                            if exists|j: int|
                                0 <= j < i + 1 && (#[trigger] self.file@[j]).0 == k
                                    && !other.emap().contains_key(k) {
                                let j = choose|j: int|
                                    0 <= j < i + 1 && (#[trigger] self.file@[j]).0 == k
                                        && !other.emap().contains_key(k);
                                if j < i {
                                    assert(pa.contains(k));
                                    let t = choose|t: int| 0 <= t < pa.len() && pa[t] == k;
                                    assert(self.added@[t] == k);
                                } else {
                                    assert(k == id);
                                    assert(self.added@[pa.len() as int] == k);
                                }
                                assert(self.added@.contains(k));
                            }
                        }
                        assert forall|k: usize|
                            self.modified@.contains(k) <==> (exists|j: int|
                                0 <= j < i + 1 && (#[trigger] self.file@[j]).0 == k
                                    && other.emap().contains_key(k) && self.file@[j].1@
                                    != other.emap()[k]) by {
                            if self.modified@.contains(k) {
                                let j = choose|j: int|
                                    0 <= j < i && (#[trigger] self.file@[j]).0 == k
                                        && other.emap().contains_key(k) && self.file@[j].1@
                                        != other.emap()[k];
                                assert(0 <= j < i + 1 && (self.file@[j]).0 == k
                                    && other.emap().contains_key(k) && self.file@[j].1@
                                    != other.emap()[k]);
                            }
                            if exists|j: int|
                                0 <= j < i + 1 && (#[trigger] self.file@[j]).0 == k
                                    && other.emap().contains_key(k) && self.file@[j].1@
                                    != other.emap()[k] {
                                let j = choose|j: int|
                                    0 <= j < i + 1 && (#[trigger] self.file@[j]).0 == k
                                        && other.emap().contains_key(k) && self.file@[j].1@
                                        != other.emap()[k];
                                assert(j < i);
                            }
                        }
                    }
                },
                Some(b) => {
                    let differs = !bytes_eq(&self.file[i].1, &b);
                    if differs {
                        proof {
                            lemma_push_sorted(pm, id);
                        }
                        self.modified.push(id);
                        proof {
                            assert(self.modified@ == pm.push(id));
                            assert forall|k: usize|
                                self.modified@.contains(k) <==> (exists|j: int|
                                    0 <= j < i + 1 && (#[trigger] self.file@[j]).0 == k
                                        && other.emap().contains_key(k) && self.file@[j].1@
                                        != other.emap()[k]) by {
                                if self.modified@.contains(k) {
                                    assert(pm.contains(k) || k == id);
                                    if k == id {
                                        assert((self.file@[i as int]).0 == id);
                                        assert(self.file@[i as int].1@ != other.emap()[id]);
                                        assert(0 <= i < i + 1 && (self.file@[i as int]).0 == k
                                            && other.emap().contains_key(k)
                                            && self.file@[i as int].1@ != other.emap()[k]);
                                    } else {
                                        let j = choose|j: int|
                                            0 <= j < i && (#[trigger] self.file@[j]).0 == k
                                                && other.emap().contains_key(k)
                                                && self.file@[j].1@ != other.emap()[k];
                                        assert(0 <= j < i + 1 && (self.file@[j]).0 == k
                                            && other.emap().contains_key(k) && self.file@[j].1@
                                            != other.emap()[k]);
                                    }
                                }
                                if exists|j: int|
                                    0 <= j < i + 1 && (#[trigger] self.file@[j]).0 == k
                                        && other.emap().contains_key(k) && self.file@[j].1@
                                        != other.emap()[k] {
                                    let j = choose|j: int|
                                        0 <= j < i + 1 && (#[trigger] self.file@[j]).0 == k
                                            && other.emap().contains_key(k) && self.file@[j].1@
                                            != other.emap()[k];
                                    if j < i {
                                        assert(pm.contains(k));
                                        let t = choose|t: int| 0 <= t < pm.len() && pm[t] == k;
                                        assert(self.modified@[t] == k);
                                    } else {
                                        assert(k == id);
                                        assert(self.modified@[pm.len() as int] == k);
                                    }
                                    assert(self.modified@.contains(k));
                                }
                            }
                            assert forall|k: usize|
                                self.added@.contains(k) <==> (exists|j: int|
                                    0 <= j < i + 1 && (#[trigger] self.file@[j]).0 == k
                                        && !other.emap().contains_key(k)) by {
                                if self.added@.contains(k) {
                                    let j = choose|j: int|
                                        0 <= j < i && (#[trigger] self.file@[j]).0 == k
                                            && !other.emap().contains_key(k);
                                    assert(0 <= j < i + 1 && (self.file@[j]).0 == k
                                        && !other.emap().contains_key(k));
                                }
                                if exists|j: int|
                                    0 <= j < i + 1 && (#[trigger] self.file@[j]).0 == k
                                        && !other.emap().contains_key(k) {
                                    let j = choose|j: int|
                                        0 <= j < i + 1 && (#[trigger] self.file@[j]).0 == k
                                            && !other.emap().contains_key(k);
                                    assert(j < i);
                                }
                            }
                        }
                    } else {
                        proof {
                            assert forall|k: usize|
                                self.added@.contains(k) <==> (exists|j: int|
                                    0 <= j < i + 1 && (#[trigger] self.file@[j]).0 == k
                                        && !other.emap().contains_key(k)) by {
                                if exists|j: int|
                                    0 <= j < i + 1 && (#[trigger] self.file@[j]).0 == k
                                        && !other.emap().contains_key(k) {
                                    let j = choose|j: int|
                                        0 <= j < i + 1 && (#[trigger] self.file@[j]).0 == k
                                            && !other.emap().contains_key(k);
                                    assert(j < i);
                                }
                            }
                            assert forall|k: usize|
                                self.modified@.contains(k) <==> (exists|j: int|
                                    0 <= j < i + 1 && (#[trigger] self.file@[j]).0 == k
                                        && other.emap().contains_key(k) && self.file@[j].1@
                                        != other.emap()[k]) by {
                                if exists|j: int|
                                    0 <= j < i + 1 && (#[trigger] self.file@[j]).0 == k
                                        && other.emap().contains_key(k) && self.file@[j].1@
                                        != other.emap()[k] {
                                    let j = choose|j: int|
                                        0 <= j < i + 1 && (#[trigger] self.file@[j]).0 == k
                                            && other.emap().contains_key(k) && self.file@[j].1@
                                            != other.emap()[k];
                                    if j == i {
                                        assert(self.file@[i as int].1@ == b@);
                                    }
                                }
                            }
                        }
                    }
                },
            }
            i = i + 1;
        }
        proof {
            assert forall|k: usize|
                self.added@.contains(k) <==> self.emap().contains_key(k)
                    && !other.emap().contains_key(k) by {
                if self.added@.contains(k) {
                    let j = choose|j: int|
                        0 <= j < n && (#[trigger] self.file@[j]).0 == k
                            && !other.emap().contains_key(k);
                    lemma_kv_value(self.file@, j);
                }
                if self.emap().contains_key(k) && !other.emap().contains_key(k) {
                    let j = kv_at(self.file@, k);
                }
            }
            assert forall|k: usize|
                self.modified@.contains(k) <==> self.emap().contains_key(k)
                    && other.emap().contains_key(k) && self.emap()[k] != other.emap()[k] by {
                if self.modified@.contains(k) {
                    let j = choose|j: int|
                        0 <= j < n && (#[trigger] self.file@[j]).0 == k
                            && other.emap().contains_key(k) && self.file@[j].1@
                            != other.emap()[k];
                    lemma_kv_value(self.file@, j);
                }
                if self.emap().contains_key(k) && other.emap().contains_key(k) && self.emap()[k]
                    != other.emap()[k] {
                    let j = kv_at(self.file@, k);
                    lemma_kv_value(self.file@, j);
                }
            }
        }
        let ghost a_done = self.added@;
        let ghost m_done = self.modified@;
        let ids = other.file_ids();
        let m = ids.len();
        let mut t: usize = 0;
        while t < m
            invariant
                0 <= t <= m == ids@.len(),
                self.file@ == old(self).file@,
                self.headers@ == old(self).headers@,
                self.added@ == a_done,
                self.modified@ == m_done,
                sorted_strict(self.deleted@),
                forall|j: int|
                    0 <= j < self.deleted@.len() ==> exists|u: int|
                        0 <= u < t && ids@[u] == (#[trigger] self.deleted@[j]),
                forall|u: int|
                    0 <= u < t ==> ((!self.emap().contains_key(#[trigger] ids@[u]))
                        <==> self.deleted@.contains(ids@[u])),
                forall|k: usize|
                    self.deleted@.contains(k) ==> !self.emap().contains_key(k),
            decreases m - t,
        {
            let id = ids[t];
            proof {
                assert forall|k: usize| self.deleted@.contains(k) implies k < id by {
                    let j = choose|j: int|
                        0 <= j < self.deleted@.len() && self.deleted@[j] == k;
                    let u = choose|u: int| 0 <= u < t && ids@[u] == self.deleted@[j];
                    assert(ids@[u] < ids@[t as int]);
                }
            }
            let ghost pd = self.deleted@;
            if !self.contains(id) {
                proof {
                    lemma_push_sorted(pd, id);
                }
                self.deleted.push(id);
                proof {
                    assert(self.deleted@[pd.len() as int] == id);
                    assert forall|j: int|
                        0 <= j < self.deleted@.len() implies exists|u: int|
                            0 <= u < t + 1 && ids@[u] == (#[trigger] self.deleted@[j]) by {
                        if j < pd.len() {
                            assert(pd[j] == self.deleted@[j]);
                            assert(pd.contains(pd[j]));
                        } else {
                            assert(ids@[t as int] == self.deleted@[j]);
                        }
                    }
                }
            }
            t = t + 1;
        }
        proof {
            assert forall|k: usize|
                self.deleted@.contains(k) <==> other.emap().contains_key(k)
                    && !self.emap().contains_key(k) by {
                if self.deleted@.contains(k) {
                    let j = choose|j: int|
                        0 <= j < self.deleted@.len() && self.deleted@[j] == k;
                    let u = choose|u: int| 0 <= u < m && ids@[u] == self.deleted@[j];
                    assert(ids@.contains(k));
                }
                if other.emap().contains_key(k) && !self.emap().contains_key(k) {
                    assert(ids@.contains(k));
                    let u = choose|u: int| 0 <= u < ids@.len() && ids@[u] == k;
                }
            }
        }
    }

    /// The class name and attribute list parsed from the body under `id`;
    /// both empty when the id is absent or the body does not have the
    /// `ClassName(arguments)` shape.
    pub fn class_attributes(&self, id: usize) -> (r: (Vec<u8>, Vec<Vec<u8>>))
        requires
            self.wf(),
        ensures
            r.0@ == class_of_entity(self.emap(), id),
            r.1@.map_values(|v: Vec<u8>| v@) == attrs_of_entity(self.emap(), id),
    {
        match self.get_body(id) {
            Some(b) => {
                match split_body(&b) {
                    Some(p) => {
                        let (cls, args) = p;
                        let attrs = dissemble(&args);
                        (cls, attrs)
                    },
                    None => {
                        let empty_attrs: Vec<Vec<u8>> = Vec::new();
                        proof {
                            assert(empty_attrs@.map_values(|v: Vec<u8>| v@) =~= Seq::<
                                Seq<u8>,
                            >::empty());
                        }
                        (Vec::new(), empty_attrs)
                    },
                }
            },
            None => {
                let empty_attrs: Vec<Vec<u8>> = Vec::new();
                proof {
                    assert(empty_attrs@.map_values(|v: Vec<u8>| v@) =~= Seq::<Seq<u8>>::empty());
                }
                (Vec::new(), empty_attrs)
            },
        }
    }
}

/// The class name of the entity under `id` in `m`, or empty.
pub open spec fn class_of_entity(m: Map<usize, Seq<u8>>, id: usize) -> Seq<u8> {
    if m.contains_key(id) {
        spec_class_of(m[id])
    } else {
        Seq::empty()
    }
}

/// The attribute elements of the entity under `id` in `m`, or empty.
pub open spec fn attrs_of_entity(m: Map<usize, Seq<u8>>, id: usize) -> Seq<Seq<u8>> {
    if m.contains_key(id) {
        spec_attrs_of(m[id])
    } else {
        Seq::empty()
    }
}

/// Membership in an id vector.
#[verifier::loop_isolation(false)]
fn contains_id(v: &Vec<usize>, x: usize) -> (r: bool)
    ensures
        r == v@.to_set().contains(x),
{
    let n = v.len();
    let mut i: usize = 0;
    while i < n
        invariant
            0 <= i <= n,
            forall|j: int| 0 <= j < i ==> v@[j] != x,
        decreases n - i,
    {
        if v[i] == x {
            return true;
        }
        i = i + 1;
    }
    false
}

/// A copy of a sorted id vector, with its order and membership.
#[verifier::loop_isolation(false)]
fn copy_ids(v: &Vec<usize>) -> (r: Vec<usize>)
    requires
        sorted_strict(v@),
    ensures
        sorted_strict(r@),
        r@ == v@,
        forall|k: usize| r@.contains(k) <==> v@.to_set().contains(k),
    {
    let n = v.len();
    let mut r: Vec<usize> = Vec::new();
    let mut i: usize = 0;
    while i < n
        invariant
            0 <= i <= n,
            r@ == v@.take(i as int),
        decreases n - i,
    {
        r.push(v[i]);
        i = i + 1;
        proof {
            assert(r@ =~= v@.take(i as int));
        }
    }
    proof {
        assert(r@ =~= v@);
    }
    r
}

/// Inserts `x` into a strictly sorted id vector, keeping it sorted.
#[verifier::loop_isolation(false)]
fn sorted_insert(v: &mut Vec<usize>, x: usize)
    requires
        sorted_strict(old(v)@),
    ensures
        sorted_strict(final(v)@),
        forall|k: usize| final(v)@.contains(k) <==> old(v)@.contains(k) || k == x,
{
    let n = v.len();
    let mut i: usize = 0;
    while i < n && v[i] < x
        invariant
            0 <= i <= n,
            v@ == old(v)@,
            forall|j: int| 0 <= j < i ==> v@[j] < x,
        decreases n - i,
    {
        i = i + 1;
    }
    if i < n && v[i] == x {
        return ;
    }
    let ghost olds = v@;
    v.insert(i, x);
    proof {
        assert(v@ == olds.insert(i as int, x));
        assert(forall|j: int| 0 <= j < i ==> v@[j] == olds[j]);
        assert(forall|j: int| i < j < v@.len() ==> v@[j] == olds[j - 1]);
        assert(v@[i as int] == x);
        assert forall|k: usize| v@.contains(k) <==> olds.contains(k) || k == x by {
            if v@.contains(k) {
                let j = choose|j: int| 0 <= j < v@.len() && v@[j] == k;
                if j < i {
                    assert(olds[j] == k);
                } else if j > i {
                    assert(olds[j - 1] == k);
                }
            }
            if olds.contains(k) {
                let j = choose|j: int| 0 <= j < olds.len() && olds[j] == k;
                if j < i {
                    assert(v@[j] == k);
                } else {
                    assert(v@[j + 1] == k);
                }
            }
        }
    }
}

/// Removes `x` from a strictly sorted id vector, keeping it sorted.
#[verifier::loop_isolation(false)]
fn sorted_remove(v: &mut Vec<usize>, x: usize)
    requires
        sorted_strict(old(v)@),
    ensures
        sorted_strict(final(v)@),
        forall|k: usize| final(v)@.contains(k) <==> old(v)@.contains(k) && k != x,
{
    let n = v.len();
    let mut i: usize = 0;
    while i < n
        invariant
            0 <= i <= n,
            v@ == old(v)@,
            forall|j: int| 0 <= j < i ==> v@[j] != x,
        decreases n - i,
    {
        if v[i] == x {
            let ghost olds = v@;
            v.remove(i);
            proof {
                assert(v@ == olds.remove(i as int));
                assert(forall|j: int| 0 <= j < i ==> v@[j] == olds[j]);
                assert(forall|j: int| i <= j < v@.len() ==> v@[j] == olds[j + 1]);
                assert forall|k: usize| v@.contains(k) <==> olds.contains(k) && k != x by {
                    if v@.contains(k) {
                        let j = choose|j: int| 0 <= j < v@.len() && v@[j] == k;
                        if j < i {
                            assert(olds[j] == k);
                        } else {
                            assert(olds[j + 1] == k);
                        }
                    }
                    if olds.contains(k) && k != x {
                        let j = choose|j: int| 0 <= j < olds.len() && olds[j] == k;
                        if j < i {
                            assert(v@[j] == k);
                        } else {
                            assert(j != i);
                            assert(v@[j - 1] == k);
                        }
                    }
                }
            }
            return ;
        }
        i = i + 1;
    }
}

} // verus!
