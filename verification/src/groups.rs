use vstd::prelude::*;

verus! {

/// A file found on disk: its path and its extension, if it has one.
pub struct FileEntry {
    pub path: String,
    pub ext: Option<String>,
}

impl FileEntry {
    /// A copy of the entry.
    pub fn copy(&self) -> (r: FileEntry)
        ensures
            r == *self,
    {
        let ext = match &self.ext {
            Some(e) => Some(e.clone()),
            None => None,
        };
        FileEntry { path: self.path.clone(), ext }
    }
}

/// The files whose contents share one digest.
pub struct DupGroup {
    pub key: Vec<u8>,
    pub files: Vec<FileEntry>,
}

/// Whether two byte sequences are equal.
pub fn bytes_equal(a: &Vec<u8>, b: &Vec<u8>) -> (r: bool)
    ensures
        r == (a@ == b@),
{
    if a.len() != b.len() {
        return false;
    }
    let mut i: usize = 0;
    while i < a.len()
        invariant
            a@.len() == b@.len(),
            i <= a@.len(),
            forall|j: int| 0 <= j < i ==> a@[j] == b@[j],
        decreases a@.len() - i,
    {
        if a[i] != b[i] {
            return false;
        }
        i = i + 1;
    }
    assert(a@ =~= b@);
    true
}

/// No two groups share a digest.
pub open spec fn keys_distinct(gs: Seq<DupGroup>) -> bool {
    forall|i: int, j: int| 0 <= i < gs.len() && 0 <= j < gs.len() && i != j ==> gs[i].key@ != gs[j].key@
}

/// Every group holds at least one file.
pub open spec fn groups_nonempty(gs: Seq<DupGroup>) -> bool {
    forall|i: int| 0 <= i < gs.len() ==> (#[trigger] gs[i]).files@.len() >= 1
}

/// Some group has digest `k`.
pub open spec fn has_key(gs: Seq<DupGroup>, k: Seq<u8>) -> bool {
    exists|i: int| 0 <= i < gs.len() && gs[i].key@ == k
}

/// The index of the group with digest `k`.
pub open spec fn key_index(gs: Seq<DupGroup>, k: Seq<u8>) -> int {
    choose|i: int| 0 <= i < gs.len() && gs[i].key@ == k
}

/// The groups as a map from digest to files.
pub open spec fn groups_map(gs: Seq<DupGroup>) -> Map<Seq<u8>, Seq<FileEntry>> {
    Map::new(|k: Seq<u8>| has_key(gs, k), |k: Seq<u8>| gs[key_index(gs, k)].files@)
}

/// The number of files beyond the first in each group, summed: the files that
/// can be deleted while one copy of each content stays.
pub open spec fn dup_excess(gs: Seq<DupGroup>) -> int
    decreases gs.len(),
{
    if gs.len() == 0 {
        0
    } else {
        dup_excess(gs.drop_last()) + gs.last().files@.len() - 1
    }
}

/// The index of a group in a list whose digests are distinct.
pub proof fn lemma_key_index(gs: Seq<DupGroup>, i: int)
    requires
        keys_distinct(gs),
        0 <= i < gs.len(),
    ensures
        has_key(gs, gs[i].key@),
        key_index(gs, gs[i].key@) == i,
        groups_map(gs).contains_key(gs[i].key@),
        groups_map(gs)[gs[i].key@] == gs[i].files@,
{
    assert(has_key(gs, gs[i].key@));
}

/// Giving group `i` new files changes only what its digest maps to.
pub proof fn lemma_groups_map_update(gs: Seq<DupGroup>, i: int, g: DupGroup)
    requires
        keys_distinct(gs),
        0 <= i < gs.len(),
        g.key@ == gs[i].key@,
    ensures
        keys_distinct(gs.update(i, g)),
        groups_map(gs.update(i, g)) == groups_map(gs).insert(g.key@, g.files@),
{
    let ns = gs.update(i, g);
    assert forall|a: int, b: int| 0 <= a < ns.len() && 0 <= b < ns.len() && a != b
        implies ns[a].key@ != ns[b].key@ by {}
    lemma_key_index(ns, i);
    assert forall|k: Seq<u8>| #[trigger] groups_map(ns).contains_key(k)
        == groups_map(gs).insert(g.key@, g.files@).contains_key(k) by {
        if has_key(gs, k) {
            let j = key_index(gs, k);
            assert(ns[j].key@ == k);
        }
        if has_key(ns, k) {
            let j = key_index(ns, k);
            assert(gs[j].key@ == k);
        }
    }
    assert forall|k: Seq<u8>| #[trigger] groups_map(ns).contains_key(k)
        implies groups_map(ns)[k] == groups_map(gs).insert(g.key@, g.files@)[k] by {
        let j = key_index(ns, k);
        lemma_key_index(ns, j);
        if k != g.key@ {
            lemma_key_index(gs, j);
        }
    }
    assert(groups_map(ns) =~= groups_map(gs).insert(g.key@, g.files@));
}

/// Adding a group with a new digest adds that digest to the map.
pub proof fn lemma_groups_map_push(gs: Seq<DupGroup>, g: DupGroup)
    requires
        keys_distinct(gs),
        !has_key(gs, g.key@),
    ensures
        keys_distinct(gs.push(g)),
        groups_map(gs.push(g)) == groups_map(gs).insert(g.key@, g.files@),
{
    let ns = gs.push(g);
    let n = gs.len() as int;
    assert forall|a: int, b: int| 0 <= a < ns.len() && 0 <= b < ns.len() && a != b
        implies ns[a].key@ != ns[b].key@ by {
        if a == n && gs[b].key@ == g.key@ {
            assert(has_key(gs, g.key@));
        }
        if b == n && gs[a].key@ == g.key@ {
            assert(has_key(gs, g.key@));
        }
    }
    lemma_key_index(ns, n);
    assert forall|k: Seq<u8>| #[trigger] groups_map(ns).contains_key(k)
        == groups_map(gs).insert(g.key@, g.files@).contains_key(k) by {
        if has_key(gs, k) {
            let j = key_index(gs, k);
            assert(ns[j].key@ == k);
        }
        if has_key(ns, k) {
            let j = key_index(ns, k);
            if j < n {
                assert(gs[j].key@ == k);
            }
        }
    }
    assert forall|k: Seq<u8>| #[trigger] groups_map(ns).contains_key(k)
        implies groups_map(ns)[k] == groups_map(gs).insert(g.key@, g.files@)[k] by {
        let j = key_index(ns, k);
        lemma_key_index(ns, j);
        if k != g.key@ {
            assert(j < n);
            lemma_key_index(gs, j);
        }
    }
    assert(groups_map(ns) =~= groups_map(gs).insert(g.key@, g.files@));
}

/// Removing group `i` removes its digest from the map.
pub proof fn lemma_groups_map_remove(gs: Seq<DupGroup>, i: int)
    requires
        keys_distinct(gs),
        0 <= i < gs.len(),
    ensures
        keys_distinct(gs.remove(i)),
        groups_map(gs.remove(i)) == groups_map(gs).remove(gs[i].key@),
{
    let ns = gs.remove(i);
    let k0 = gs[i].key@;
    assert forall|a: int, b: int| 0 <= a < ns.len() && 0 <= b < ns.len() && a != b
        implies ns[a].key@ != ns[b].key@ by {
        let a0 = if a < i { a } else { a + 1 };
        let b0 = if b < i { b } else { b + 1 };
        assert(ns[a] == gs[a0]);
        assert(ns[b] == gs[b0]);
    }
    assert forall|k: Seq<u8>| #[trigger] groups_map(ns).contains_key(k)
        == groups_map(gs).remove(k0).contains_key(k) by {
        if has_key(gs, k) && k != k0 {
            let j = key_index(gs, k);
            if j < i {
                assert(ns[j].key@ == k);
            } else {
                assert(j != i);
                assert(ns[j - 1].key@ == k);
            }
        }
        if has_key(ns, k) {
            let j = key_index(ns, k);
            let j0 = if j < i { j } else { j + 1 };
            assert(ns[j] == gs[j0]);
            assert(j0 != i);
            assert(gs[j0].key@ == k);
        }
    }
    assert forall|k: Seq<u8>| #[trigger] groups_map(ns).contains_key(k)
        implies groups_map(ns)[k] == groups_map(gs).remove(k0)[k] by {
        let j = key_index(ns, k);
        lemma_key_index(ns, j);
        let j0 = if j < i { j } else { j + 1 };
        assert(ns[j] == gs[j0]);
        lemma_key_index(gs, j0);
    }
    assert(groups_map(ns) =~= groups_map(gs).remove(k0));
}

/// Changing one group's files changes the excess by the change of its length.
pub proof fn lemma_dup_excess_update(gs: Seq<DupGroup>, i: int, g: DupGroup)
    requires
        0 <= i < gs.len(),
    ensures
        dup_excess(gs.update(i, g)) == dup_excess(gs) + g.files@.len() - gs[i].files@.len(),
    decreases gs.len(),
{
    if i == gs.len() - 1 {
        assert(gs.update(i, g).drop_last() =~= gs.drop_last());
    } else {
        lemma_dup_excess_update(gs.drop_last(), i, g);
        assert(gs.update(i, g).drop_last() =~= gs.drop_last().update(i, g));
    }
}

/// Removing a group takes away its excess.
pub proof fn lemma_dup_excess_remove(gs: Seq<DupGroup>, i: int)
    requires
        0 <= i < gs.len(),
    ensures
        dup_excess(gs.remove(i)) == dup_excess(gs) - (gs[i].files@.len() - 1),
    decreases gs.len(),
{
    if i == gs.len() - 1 {
        assert(gs.remove(i) =~= gs.drop_last());
    } else {
        lemma_dup_excess_remove(gs.drop_last(), i);
        assert(gs.remove(i).drop_last() =~= gs.drop_last().remove(i));
    }
}

/// `new` holds the files of `old` in the order that `p` lists their indices.
pub open spec fn reordered(old: Seq<FileEntry>, new: Seq<FileEntry>, p: Seq<usize>) -> bool {
    &&& new.len() == p.len()
    &&& forall|k: int| 0 <= k < p.len() ==> #[trigger] p[k] < old.len() && new[k] == old[p[k] as int]
}

/// Groups of files keyed by digest, in the order they were first seen.
pub struct DupGroups {
    groups: Vec<DupGroup>,
}

impl DupGroups {
    /// Distinct digests, and every group holds at least one file.
    #[verifier::type_invariant]
    pub open spec fn inv(self) -> bool {
        &&& keys_distinct(self.seq())
        &&& groups_nonempty(self.seq())
    }

    /// The groups, in order.
    pub closed spec fn seq(&self) -> Seq<DupGroup> {
        self.groups@
    }

    /// No groups.
    pub fn new() -> (r: Self)
        ensures
            r.seq() == Seq::<DupGroup>::empty(),
    {
        DupGroups { groups: Vec::new() }
    }

    /// The groups, in order.
    pub fn as_vec(&self) -> (r: &Vec<DupGroup>)
        ensures
            r@ == self.seq(),
    {
        &self.groups
    }

    /// The number of groups.
    pub fn len(&self) -> (n: usize)
        ensures
            n == self.seq().len(),
    {
        self.groups.len()
    }

    /// The index of the group with digest `key`, if there is one.
    pub fn position(&self, key: &Vec<u8>) -> (r: Option<usize>)
        ensures
            match r {
                Some(i) => i < self.seq().len() && self.seq()[i as int].key@ == key@,
                None => !has_key(self.seq(), key@),
            },
    {
        let mut i: usize = 0;
        while i < self.groups.len()
            invariant
                i <= self.groups@.len(),
                forall|j: int| 0 <= j < i ==> self.groups@[j].key@ != key@,
            decreases self.groups@.len() - i,
        {
            if bytes_equal(&self.groups[i].key, key) {
                return Some(i);
            }
            i = i + 1;
        }
        None
    }

    /// Adds a file to the end of group `i`.
    pub fn push_file(&mut self, i: usize, de: FileEntry)
        requires
            i < old(self).seq().len(),
        ensures
            final(self).seq() == old(self).seq().update(
                i as int,
                DupGroup { key: old(self).seq()[i as int].key, files: final(self).seq()[i as int].files },
            ),
            final(self).seq()[i as int].files@ == old(self).seq()[i as int].files@.push(de),
    {
        proof {
            use_type_invariant(&*self);
        }
        let mut gs: Vec<DupGroup> = Vec::new();
        std::mem::swap(&mut gs, &mut self.groups);
        let ghost before = gs@;
        let mut files: Vec<FileEntry> = Vec::new();
        let mut key: Vec<u8> = Vec::new();
        std::mem::swap(&mut files, &mut gs[i].files);
        std::mem::swap(&mut key, &mut gs[i].key);
        files.push(de);
        gs.set(i, DupGroup { key, files });
        proof {
            assert forall|a: int, b: int| 0 <= a < gs@.len() && 0 <= b < gs@.len() && a != b
                implies gs@[a].key@ != gs@[b].key@ by {}
            assert forall|a: int| 0 <= a < gs@.len() implies (#[trigger] gs@[a]).files@.len() >= 1 by {
                if a != i {
                    assert(gs@[a] == before[a]);
                }
            }
        }
        self.groups = gs;
    }

    /// Adds a new group holding one file.
    pub fn push_group(&mut self, key: Vec<u8>, de: FileEntry)
        requires
            !has_key(old(self).seq(), key@),
        ensures
            final(self).seq().len() == old(self).seq().len() + 1,
            final(self).seq().drop_last() == old(self).seq(),
            final(self).seq().last().key@ == key@,
            final(self).seq().last().files@ == seq![de],
    {
        proof {
            use_type_invariant(&*self);
        }
        let mut gs: Vec<DupGroup> = Vec::new();
        std::mem::swap(&mut gs, &mut self.groups);
        let ghost before = gs@;
        let mut files: Vec<FileEntry> = Vec::new();
        files.push(de);
        gs.push(DupGroup { key, files });
        proof {
            assert(gs@.drop_last() =~= before);
            lemma_push_keeps_distinct(before, gs@.last());
            assert(gs@ =~= before.push(gs@.last()));
            assert forall|a: int| 0 <= a < gs@.len() implies (#[trigger] gs@[a]).files@.len() >= 1 by {
                if a < before.len() {
                    assert(gs@[a] == before[a]);
                }
            }
        }
        self.groups = gs;
    }

    /// Puts the files of group `i` in the order that `order` lists their indices.
    pub fn reorder_files(&mut self, i: usize, order: &Vec<usize>)
        requires
            i < old(self).seq().len(),
            order@.len() == old(self).seq()[i as int].files@.len(),
            forall|k: int| 0 <= k < order@.len() ==> #[trigger] order@[k] < old(self).seq()[i as int].files@.len(),
        ensures
            final(self).seq() == old(self).seq().update(
                i as int,
                DupGroup { key: old(self).seq()[i as int].key, files: final(self).seq()[i as int].files },
            ),
            reordered(old(self).seq()[i as int].files@, final(self).seq()[i as int].files@, order@),
    {
        proof {
            use_type_invariant(&*self);
        }
        let mut gs: Vec<DupGroup> = Vec::new();
        std::mem::swap(&mut gs, &mut self.groups);
        let ghost before = gs@;
        let mut files: Vec<FileEntry> = Vec::new();
        let mut key: Vec<u8> = Vec::new();
        std::mem::swap(&mut files, &mut gs[i].files);
        std::mem::swap(&mut key, &mut gs[i].key);
        let mut sorted: Vec<FileEntry> = Vec::new();
        let mut k: usize = 0;
        while k < order.len()
            invariant
                k <= order@.len(),
                forall|j: int| 0 <= j < order@.len() ==> #[trigger] order@[j] < files@.len(),
                sorted@.len() == k,
                forall|j: int| 0 <= j < k ==> sorted@[j] == files@[#[trigger] order@[j] as int],
            decreases order@.len() - k,
        {
            sorted.push(files[order[k]].copy());
            k = k + 1;
        }
        gs.set(i, DupGroup { key, files: sorted });
        proof {
            assert forall|a: int, b: int| 0 <= a < gs@.len() && 0 <= b < gs@.len() && a != b
                implies gs@[a].key@ != gs@[b].key@ by {}
            assert forall|a: int| 0 <= a < gs@.len() implies (#[trigger] gs@[a]).files@.len() >= 1 by {
                if a != i {
                    assert(gs@[a] == before[a]);
                }
            }
        }
        self.groups = gs;
    }

    /// Removes group `i`.
    pub fn remove_group(&mut self, i: usize)
        requires
            i < old(self).seq().len(),
        ensures
            final(self).seq() == old(self).seq().remove(i as int),
    {
        proof {
            use_type_invariant(&*self);
        }
        let mut gs: Vec<DupGroup> = Vec::new();
        std::mem::swap(&mut gs, &mut self.groups);
        let ghost before = gs@;
        gs.remove(i);
        proof {
            lemma_groups_map_remove(before, i as int);
            assert forall|a: int| 0 <= a < gs@.len() implies (#[trigger] gs@[a]).files@.len() >= 1 by {
                if a < i {
                    assert(gs@[a] == before[a]);
                } else {
                    assert(gs@[a] == before[a + 1]);
                }
            }
        }
        self.groups = gs;
    }
}

/// Adding a group with a new digest keeps the digests distinct.
proof fn lemma_push_keeps_distinct(gs: Seq<DupGroup>, g: DupGroup)
    requires
        keys_distinct(gs),
        !has_key(gs, g.key@),
    ensures
        keys_distinct(gs.push(g)),
{
    lemma_groups_map_push(gs, g);
}

} // verus!
