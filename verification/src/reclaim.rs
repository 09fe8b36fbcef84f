use vstd::prelude::*;
use std::collections::HashMap;
use vstd::std_specs::iter::IteratorSpec;
use crate::groups::{
    FileEntry, DupGroup, DupGroups, keys_distinct, has_key, key_index, groups_map, dup_excess,
    lemma_key_index, lemma_groups_map_update, lemma_groups_map_push, lemma_groups_map_remove,
    lemma_dup_excess_update, lemma_dup_excess_remove, bytes_equal, groups_nonempty,
};
use crate::filetype::{FileTypes, counted};
use crate::digest::{Sha256Stream, sha256_spec};

verus! {

broadcast use vstd::std_specs::hash::group_hash_axioms;

/// What a walk found at a path.
pub enum EntryKind {
    /// A file, with its size when its metadata could be read.
    File { size: Option<u64> },
    /// A directory, with whether it is empty when it could be listed.
    Dir { empty: Option<bool> },
    /// Anything else.
    Other,
}

/// One entry that a directory walk yielded.
pub struct WalkEntry {
    pub file: FileEntry,
    pub kind: EntryKind,
}

/// The results of a directory walk, in order; an error is kept as its message.
pub type WalkResults = Vec<Result<WalkEntry, String>>;

/// The entry of a walk result, or nothing for an error.
pub fn dir_entry<E>(result: Result<WalkEntry, E>) -> (r: Option<WalkEntry>)
    ensures
        match result {
            Ok(d) => r == Some(d),
            Err(_) => r is None,
        },
{
    let dent: WalkEntry = match result {
        Ok(dent1) => dent1,
        Err(_err) => {
            return None;
        },
    };
    Some(dent)
}

/// The size buckets with their files as sequences.
pub open spec fn bucket_view(m: Map<u64, Vec<FileEntry>>) -> Map<u64, Seq<FileEntry>> {
    m.map_values(|v: Vec<FileEntry>| v@)
}

/// The bucket of size `s` with file `f` added at its end.
pub open spec fn bucket_add(m: Map<u64, Seq<FileEntry>>, s: u64, f: FileEntry) -> Map<u64, Seq<FileEntry>> {
    m.insert(s, if m.contains_key(s) { m[s].push(f) } else { seq![f] })
}

/// The file a walk result brings into the size buckets: a file whose size is
/// known and above the minimum, when duplicates are searched for.
pub open spec fn candidate(r: Result<WalkEntry, String>, min: u64, dupfiles: bool) -> Option<(u64, FileEntry)> {
    match r {
        Ok(we) => match we.kind {
            EntryKind::File { size: Some(s) } => if dupfiles && min < s {
                Some((s, we.file))
            } else {
                None
            },
            _ => None,
        },
        Err(_) => None,
    }
}

/// The size buckets after the walk results `rs`.
pub open spec fn buckets_after(
    m: Map<u64, Seq<FileEntry>>,
    rs: Seq<Result<WalkEntry, String>>,
    min: u64,
    dupfiles: bool,
) -> Map<u64, Seq<FileEntry>>
    decreases rs.len(),
{
    if rs.len() == 0 {
        m
    } else {
        let before = buckets_after(m, rs.drop_last(), min, dupfiles);
        match candidate(rs.last(), min, dupfiles) {
            Some((s, f)) => bucket_add(before, s, f),
            None => before,
        }
    }
}

/// Only files above the minimum size are searched for duplicates: the first
/// pass adds buckets only for sizes above the minimum, and none at all when
/// duplicates are not searched for.
pub proof fn lemma_buckets_above_minimum(
    m: Map<u64, Seq<FileEntry>>,
    rs: Seq<Result<WalkEntry, String>>,
    min: u64,
    dupfiles: bool,
)
    requires
        forall|s: u64| m.contains_key(s) ==> s > min,
    ensures
        forall|s: u64| #[trigger] buckets_after(m, rs, min, dupfiles).contains_key(s) ==> s > min,
        !dupfiles ==> buckets_after(m, rs, min, dupfiles) == m,
    decreases rs.len(),
{
    if rs.len() > 0 {
        lemma_buckets_above_minimum(m, rs.drop_last(), min, dupfiles);
        let before = buckets_after(m, rs.drop_last(), min, dupfiles);
        match candidate(rs.last(), min, dupfiles) {
            Some((sz, f)) => {
                assert(sz > min && dupfiles);
                assert forall|s: u64| #[trigger] buckets_after(m, rs, min, dupfiles).contains_key(s) implies s > min by {
                    assert(buckets_after(m, rs, min, dupfiles) == bucket_add(before, sz, f));
                    if s != sz {
                        assert(before.contains_key(s));
                    }
                }
            },
            None => {
                assert(buckets_after(m, rs, min, dupfiles) == before);
            },
        }
    }
}

/// The number of walk results that are entries rather than errors.
pub open spec fn count_ok(rs: Seq<Result<WalkEntry, String>>) -> nat
    decreases rs.len(),
{
    if rs.len() == 0 {
        0
    } else {
        count_ok(rs.drop_last()) + if rs.last() is Ok { 1nat } else { 0nat }
    }
}

/// The path of a walk result that is an empty directory.
pub open spec fn empty_dir(r: Result<WalkEntry, String>) -> Option<String> {
    match r {
        Ok(we) => match we.kind {
            EntryKind::Dir { empty: Some(true) } => Some(we.file.path),
            _ => None,
        },
        Err(_) => None,
    }
}

/// The paths of the empty directories among the walk results, in order.
pub open spec fn empty_dirs(rs: Seq<Result<WalkEntry, String>>) -> Seq<String>
    decreases rs.len(),
{
    if rs.len() == 0 {
        Seq::empty()
    } else {
        match empty_dir(rs.last()) {
            Some(p) => empty_dirs(rs.drop_last()).push(p),
            None => empty_dirs(rs.drop_last()),
        }
    }
}

/// The extension a duplicate is counted under: its own, or `noext`.
pub open spec fn ext_name(f: FileEntry) -> Seq<char> {
    match f.ext {
        Some(e) => e@,
        None => "noext"@,
    }
}

/// The extension a duplicate is counted under.
pub fn ext_of(f: &FileEntry) -> (s: String)
    ensures
        s@ == ext_name(*f),
{
    match &f.ext {
        Some(e) => e.clone(),
        None => String::from_str("noext"),
    }
}

/// The digests, as byte sequences.
pub open spec fn digests(v: Seq<Vec<u8>>) -> Seq<Seq<u8>> {
    v.map_values(|d: Vec<u8>| d@)
}

/// What removing a digest's group adds to the count of possible duplicates:
/// nothing for a group of one file, its size otherwise.
pub open spec fn single_gain(m: Map<Seq<u8>, Seq<FileEntry>>, d: Seq<u8>) -> nat {
    if m[d].len() == 1 {
        0
    } else {
        m[d].len()
    }
}

/// The gains of the digests `ds`, summed.
pub open spec fn multi_sum(m: Map<Seq<u8>, Seq<FileEntry>>, ds: Seq<Seq<u8>>) -> nat
    decreases ds.len(),
{
    if ds.len() == 0 {
        0
    } else {
        multi_sum(m, ds.drop_last()) + single_gain(m, ds.last())
    }
}

/// The groups left after the groups of one file among the digests `ds` are
/// removed.
pub open spec fn singles_removed(m: Map<Seq<u8>, Seq<FileEntry>>, ds: Seq<Seq<u8>>) -> Map<Seq<u8>, Seq<FileEntry>>
    decreases ds.len(),
{
    if ds.len() == 0 {
        m
    } else {
        let prev = singles_removed(m, ds.drop_last());
        if m[ds.last()].len() == 1 {
            prev.remove(ds.last())
        } else {
            prev
        }
    }
}

/// The count of possible duplicates can go through the digests `ds` without
/// running below zero or above the largest `u64`.
pub open spec fn singles_count_ok(m: Map<Seq<u8>, Seq<FileEntry>>, ds: Seq<Seq<u8>>, start: u64) -> bool {
    &&& forall|i: int| 0 <= i < ds.len() && m[#[trigger] ds[i]].len() == 1 ==> start + multi_sum(m, ds.take(i)) >= 1
    &&& start + multi_sum(m, ds) <= u64::MAX
}

/// A sum over a prefix is no more than the sum over the whole.
pub proof fn lemma_multi_sum_prefix(m: Map<Seq<u8>, Seq<FileEntry>>, ds: Seq<Seq<u8>>, n: int)
    requires
        0 <= n <= ds.len(),
    ensures
        multi_sum(m, ds.take(n)) <= multi_sum(m, ds),
    decreases ds.len(),
{
    if n < ds.len() {
        lemma_multi_sum_prefix(m, ds.drop_last(), n);
        assert(ds.drop_last().take(n) =~= ds.take(n));
    } else {
        assert(ds.take(n) =~= ds);
    }
}

/// No digest whose group holds one file comes twice in `ds`: the second time,
/// its group would already be gone.
pub open spec fn singles_once(m: Map<Seq<u8>, Seq<FileEntry>>, ds: Seq<Seq<u8>>) -> bool {
    forall|a: int, b: int| 0 <= a < b < ds.len() && #[trigger] ds[a] == #[trigger] ds[b] ==> m[ds[a]].len() != 1
}

/// Removing the singles among `ds` keeps a digest of `m` whose group does not
/// hold one file, or that `ds` does not list, as it was.
pub proof fn lemma_singles_removed_keeps(m: Map<Seq<u8>, Seq<FileEntry>>, ds: Seq<Seq<u8>>, d: Seq<u8>)
    requires
        m.contains_key(d),
        m[d].len() != 1 || !ds.contains(d),
    ensures
        singles_removed(m, ds).contains_key(d),
        singles_removed(m, ds)[d] == m[d],
    decreases ds.len(),
{
    if ds.len() > 0 {
        assert(m[d].len() != 1 || !ds.drop_last().contains(d)) by {
            if m[d].len() == 1 && ds.drop_last().contains(d) {
                let j = choose|j: int| 0 <= j < ds.drop_last().len() && ds.drop_last()[j] == d;
                assert(ds[j] == d);
            }
        }
        assert(m[d].len() == 1 ==> ds.last() != d) by {
            assert(ds[ds.len() - 1] == ds.last());
        }
        lemma_singles_removed_keeps(m, ds.drop_last(), d);
    }
}

/// Removing the singles among `ds`: a digest of `ds` whose group holds one
/// file is gone, and one whose group holds more files keeps them.
pub proof fn lemma_singles_removed_member(m: Map<Seq<u8>, Seq<FileEntry>>, ds: Seq<Seq<u8>>, i: int)
    requires
        0 <= i < ds.len(),
        m.contains_key(ds[i]),
    ensures
        m[ds[i]].len() == 1 ==> !singles_removed(m, ds).contains_key(ds[i]),
        m[ds[i]].len() != 1 ==> singles_removed(m, ds).contains_key(ds[i])
            && singles_removed(m, ds)[ds[i]] == m[ds[i]],
    decreases ds.len(),
{
    if m[ds[i]].len() != 1 {
        lemma_singles_removed_keeps(m, ds, ds[i]);
    } else if i < ds.len() - 1 {
        lemma_singles_removed_member(m, ds.drop_last(), i);
        assert(ds.drop_last()[i] == ds[i]);
    }
}

/// The state of a search for empty folders or duplicate files.
pub struct ReclaimStorage {
    /// Files that may have duplicates, by size.
    pub unique_files0: HashMap<u64, Vec<FileEntry>>,
    /// Files by digest of their contents.
    pub duplicate_files: DupGroups,
    /// Empty folders found.
    pub empty_folders: Vec<String>,
    pub files_processed: u64,
    pub possible_dup_files: u64,
    pub confirmed_dups: u64,
    pub total_reclaim: u64,
}

impl ReclaimStorage {
    /// An empty search. The count of possible duplicates starts at 1.
    pub fn new() -> (r: Self)
        ensures
            r.unique_files0@ == Map::<u64, Vec<FileEntry>>::empty(),
            r.duplicate_files.seq() == Seq::<DupGroup>::empty(),
            r.empty_folders@ == Seq::<String>::empty(),
            r.files_processed == 0,
            r.possible_dup_files == 1,
            r.confirmed_dups == 0,
            r.total_reclaim == 0,
    {
        ReclaimStorage {
            unique_files0: HashMap::new(),
            duplicate_files: DupGroups::new(),
            empty_folders: Vec::new(),
            files_processed: 0,
            possible_dup_files: 1,
            confirmed_dups: 0,
            total_reclaim: 0,
        }
    }

    /// Adds `dent` at the end of the bucket of files of size `size`.
    pub fn update_duplicate_list0(&mut self, size: u64, dent: FileEntry)
        ensures
            bucket_view(final(self).unique_files0@) == bucket_add(bucket_view(old(self).unique_files0@), size, dent),
            final(self).duplicate_files == old(self).duplicate_files,
            final(self).empty_folders == old(self).empty_folders,
            final(self).files_processed == old(self).files_processed,
            final(self).possible_dup_files == old(self).possible_dup_files,
            final(self).confirmed_dups == old(self).confirmed_dups,
            final(self).total_reclaim == old(self).total_reclaim,
    {
        let ghost m0 = self.unique_files0@;
        let ghost d = dent;
        match self.unique_files0.remove(&size) {
            Some(mut lst) => {
                lst.push(dent);
                self.unique_files0.insert(size, lst);
                proof {
                    assert(m0.contains_key(size));
                    assert(bucket_view(self.unique_files0@) =~= bucket_add(bucket_view(m0), size, d));
                }
            },
            None => {
                let mut newlst: Vec<FileEntry> = Vec::new();
                newlst.push(dent);
                self.unique_files0.insert(size, newlst);
                proof {
                    assert(!m0.contains_key(size));
                    assert(bucket_view(self.unique_files0@) =~= bucket_add(bucket_view(m0), size, d));
                }
            },
        }
    }

    /// The first pass of the search for duplicates: every walk entry that is a
    /// file above the minimum size goes into the bucket of its size, when
    /// `dupfiles` is set; every entry counts as processed.
    pub fn find_duplicates(&mut self, results: &WalkResults, minfilesize: u64, dupfiles: bool)
        requires
            old(self).files_processed + count_ok(results@) <= u64::MAX,
        ensures
            bucket_view(final(self).unique_files0@) == buckets_after(
                bucket_view(old(self).unique_files0@),
                results@,
                minfilesize,
                dupfiles,
            ),
            final(self).files_processed == old(self).files_processed + count_ok(results@),
            final(self).duplicate_files == old(self).duplicate_files,
            final(self).empty_folders == old(self).empty_folders,
            final(self).possible_dup_files == old(self).possible_dup_files,
            final(self).confirmed_dups == old(self).confirmed_dups,
            final(self).total_reclaim == old(self).total_reclaim,
    {
        let ghost m0 = bucket_view(self.unique_files0@);
        let mut i: usize = 0;
        while i < results.len()
            invariant
                i <= results@.len(),
                bucket_view(self.unique_files0@) == buckets_after(m0, results@.take(i as int), minfilesize, dupfiles),
                self.files_processed == old(self).files_processed + count_ok(results@.take(i as int)),
                old(self).files_processed + count_ok(results@) <= u64::MAX,
                self.duplicate_files == old(self).duplicate_files,
                self.empty_folders == old(self).empty_folders,
                self.possible_dup_files == old(self).possible_dup_files,
                self.confirmed_dups == old(self).confirmed_dups,
                self.total_reclaim == old(self).total_reclaim,
            decreases results@.len() - i,
        {
            proof {
                assert(results@.take(i + 1).drop_last() =~= results@.take(i as int));
                assert(results@.take(i + 1).last() == results@[i as int]);
                lemma_count_ok_prefix(results@, i as int + 1);
            }
            match &results[i] {
                Ok(dent) => {
                    match dent.kind {
                        EntryKind::File { size: Some(size) } => {
                            if dupfiles && minfilesize < size {
                                self.update_duplicate_list0(size, dent.file.copy());
                            }
                        },
                        _ => {},
                    }
                    self.files_processed = self.files_processed + 1;
                },
                Err(_) => {},
            }
            i = i + 1;
        }
        proof {
            assert(results@.take(results@.len() as int) =~= results@);
        }
    }

    /// Goes through the walk results looking for empty folders, when
    /// `emptydirs` is set: each empty directory is recorded and counted; every
    /// entry counts as processed.
    pub fn find_emptyfolders(&mut self, results: &WalkResults, emptydirs: bool)
        requires
            old(self).files_processed + count_ok(results@) <= u64::MAX,
            emptydirs ==> old(self).confirmed_dups + empty_dirs(results@).len() <= u64::MAX,
        ensures
            emptydirs ==> final(self).empty_folders@ == old(self).empty_folders@ + empty_dirs(results@),
            emptydirs ==> final(self).confirmed_dups == old(self).confirmed_dups + empty_dirs(results@).len(),
            !emptydirs ==> final(self).empty_folders@ == old(self).empty_folders@,
            !emptydirs ==> final(self).confirmed_dups == old(self).confirmed_dups,
            final(self).files_processed == old(self).files_processed + count_ok(results@),
            final(self).unique_files0 == old(self).unique_files0,
            final(self).duplicate_files == old(self).duplicate_files,
            final(self).possible_dup_files == old(self).possible_dup_files,
            final(self).total_reclaim == old(self).total_reclaim,
    {
        let mut i: usize = 0;
        while i < results.len()
            invariant
                i <= results@.len(),
                emptydirs ==> self.empty_folders@ == old(self).empty_folders@ + empty_dirs(results@.take(i as int)),
                emptydirs ==> self.confirmed_dups == old(self).confirmed_dups + empty_dirs(results@.take(i as int)).len(),
                !emptydirs ==> self.empty_folders@ == old(self).empty_folders@,
                !emptydirs ==> self.confirmed_dups == old(self).confirmed_dups,
                self.files_processed == old(self).files_processed + count_ok(results@.take(i as int)),
                old(self).files_processed + count_ok(results@) <= u64::MAX,
                emptydirs ==> old(self).confirmed_dups + empty_dirs(results@).len() <= u64::MAX,
                self.unique_files0 == old(self).unique_files0,
                self.duplicate_files == old(self).duplicate_files,
                self.possible_dup_files == old(self).possible_dup_files,
                self.total_reclaim == old(self).total_reclaim,
            decreases results@.len() - i,
        {
            proof {
                assert(results@.take(i + 1).drop_last() =~= results@.take(i as int));
                assert(results@.take(i + 1).last() == results@[i as int]);
                lemma_count_ok_prefix(results@, i as int + 1);
                lemma_empty_dirs_prefix(results@, i as int + 1);
            }
            match &results[i] {
                Ok(dent) => {
                    if emptydirs {
                        match dent.kind {
                            EntryKind::Dir { empty: Some(true) } => {
                                self.empty_folders.push(dent.file.path.clone());
                                self.confirmed_dups = self.confirmed_dups + 1;
                            },
                            _ => {},
                        }
                    }
                    self.files_processed = self.files_processed + 1;
                },
                Err(_) => {},
            }
            proof {
                if emptydirs {
                    assert(self.empty_folders@ =~= old(self).empty_folders@ + empty_dirs(results@.take(i + 1)));
                }
            }
            i = i + 1;
        }
        proof {
            assert(results@.take(results@.len() as int) =~= results@);
        }
    }

    /// The sizes that have a bucket, each once, in no stated order.
    pub fn size_keys(&self) -> (keys: Vec<u64>)
        ensures
            keys@.no_duplicates(),
            keys@.to_set() == self.unique_files0@.dom(),
    {
        let mut keys: Vec<u64> = Vec::new();
        let ghost all = vstd::std_specs::hash::spec_keys_iter(&self.unique_files0).remaining();
        for k in it: self.unique_files0.keys()
            invariant
                it.seq() == all,
                keys@.len() == it.index(),
                forall|i: int| 0 <= i < it.index() ==> keys@[i] == *all[i],
        {
            keys.push(*k);
        }
        proof {
            assert(keys@ =~= all.unref());
        }
        keys
    }

    /// Takes the bucket of files of size `size` out of the buckets. Its files
    /// are handed back when there is more than one, as only then can they have
    /// duplicates; otherwise no files are.
    pub fn take_candidates(&mut self, size: u64) -> (files: Vec<FileEntry>)
        ensures
            old(self).unique_files0@.contains_key(size) && old(self).unique_files0@[size]@.len() > 1 ==> files
                == old(self).unique_files0@[size],
            !(old(self).unique_files0@.contains_key(size) && old(self).unique_files0@[size]@.len() > 1) ==> files@
                == Seq::<FileEntry>::empty(),
            final(self).unique_files0@ == old(self).unique_files0@.remove(size),
            final(self).duplicate_files == old(self).duplicate_files,
            final(self).empty_folders == old(self).empty_folders,
            final(self).files_processed == old(self).files_processed,
            final(self).possible_dup_files == old(self).possible_dup_files,
            final(self).confirmed_dups == old(self).confirmed_dups,
            final(self).total_reclaim == old(self).total_reclaim,
    {
        match self.unique_files0.remove(&size) {
            Some(v) => {
                if v.len() > 1 {
                    v
                } else {
                    Vec::new()
                }
            },
            None => {
                assert(self.unique_files0@ =~= old(self).unique_files0@.remove(size));
                Vec::new()
            },
        }
    }

    /// Takes every bucket out of the buckets, which are then empty. For each
    /// size whose bucket holds more than one file, the size and those files
    /// are handed back; each size comes once, in no stated order.
    pub fn take_all_candidates(&mut self) -> (buckets: Vec<(u64, Vec<FileEntry>)>)
        ensures
            final(self).unique_files0@ == Map::<u64, Vec<FileEntry>>::empty(),
            forall|i: int| 0 <= i < buckets@.len() ==> old(self).unique_files0@.contains_key(
                (#[trigger] buckets@[i]).0,
            ) && buckets@[i].1 == old(self).unique_files0@[buckets@[i].0] && buckets@[i].1@.len() > 1,
            forall|s: u64| #[trigger] old(self).unique_files0@.contains_key(s) && old(self).unique_files0@[s]@.len()
                > 1 ==> exists|i: int| 0 <= i < buckets@.len() && buckets@[i].0 == s,
            forall|i: int, j: int| 0 <= i < j < buckets@.len() ==> (#[trigger] buckets@[i]).0 != (
            #[trigger] buckets@[j]).0,
            final(self).duplicate_files == old(self).duplicate_files,
            final(self).empty_folders == old(self).empty_folders,
            final(self).files_processed == old(self).files_processed,
            final(self).possible_dup_files == old(self).possible_dup_files,
            final(self).confirmed_dups == old(self).confirmed_dups,
            final(self).total_reclaim == old(self).total_reclaim,
    {
        let keys = self.size_keys();
        let ghost m0 = self.unique_files0@;
        let mut out: Vec<(u64, Vec<FileEntry>)> = Vec::new();
        let mut i: usize = 0;
        while i < keys.len()
            invariant
                i <= keys@.len(),
                keys@.no_duplicates(),
                keys@.to_set() == m0.dom(),
                m0 == old(self).unique_files0@,
                forall|s: u64| #[trigger] self.unique_files0@.contains_key(s) == (m0.contains_key(s)
                    && !keys@.take(i as int).contains(s)),
                forall|s: u64| #[trigger] self.unique_files0@.contains_key(s) ==> self.unique_files0@[s] == m0[s],
                forall|j: int| 0 <= j < out@.len() ==> m0.contains_key((#[trigger] out@[j]).0) && out@[j].1
                    == m0[out@[j].0] && out@[j].1@.len() > 1 && keys@.take(i as int).contains(out@[j].0),
                forall|a: int| 0 <= a < i && m0[#[trigger] keys@[a]]@.len() > 1 ==> exists|j: int|
                    0 <= j < out@.len() && out@[j].0 == keys@[a],
                forall|j: int, l: int| 0 <= j < l < out@.len() ==> (#[trigger] out@[j]).0 != (#[trigger] out@[l]).0,
                self.duplicate_files == old(self).duplicate_files,
                self.empty_folders == old(self).empty_folders,
                self.files_processed == old(self).files_processed,
                self.possible_dup_files == old(self).possible_dup_files,
                self.confirmed_dups == old(self).confirmed_dups,
                self.total_reclaim == old(self).total_reclaim,
            decreases keys@.len() - i,
        {
            let k = keys[i];
            let ghost before = self.unique_files0@;
            let ghost out0 = out@;
            proof {
                assert(keys@[i as int] == k);
                assert(keys@.contains(k));
                assert(keys@.to_set().contains(k));
                assert(m0.contains_key(k));
                assert(!keys@.take(i as int).contains(k)) by {
                    if keys@.take(i as int).contains(k) {
                        let a = choose|a: int| 0 <= a < i && keys@.take(i as int)[a] == k;
                        assert(keys@[a] == keys@[i as int]);
                    }
                }
                assert(keys@.take(i + 1) =~= keys@.take(i as int).push(k));
            }
            proof {
                assert(self.unique_files0@.contains_key(k));
                assert(self.unique_files0@[k] == m0[k]);
                assert forall|s: u64| #[trigger] before.contains_key(s) == (m0.contains_key(s) && !keys@.take(
                    i as int,
                ).contains(s)) by {}
            }
            let files = self.take_candidates(k);
            if files.len() > 0 {
                out.push((k, files));
                proof {
                    assert(out@[out@.len() - 1].0 == k);
                    assert forall|j: int, l: int| 0 <= j < l < out@.len() implies (#[trigger] out@[j]).0 != (
                    #[trigger] out@[l]).0 by {
                        if l == out@.len() - 1 {
                            assert(out@[j] == out0[j]);
                            assert(keys@.take(i as int).contains(out0[j].0));
                        }
                    }
                }
            }
            proof {
                assert forall|j: int| 0 <= j < out@.len() implies keys@.take(i + 1).contains((#[trigger] out@[j]).0) by {
                    if j < out0.len() {
                        assert(out@[j] == out0[j]);
                        let a = choose|a: int| 0 <= a < i && keys@.take(i as int)[a] == out0[j].0;
                        assert(keys@.take(i + 1)[a] == out0[j].0);
                    } else {
                        assert(keys@.take(i + 1)[i as int] == k);
                    }
                }
                assert forall|a: int| 0 <= a < i + 1 && m0[#[trigger] keys@[a]]@.len() > 1 implies exists|j: int|
                    0 <= j < out@.len() && out@[j].0 == keys@[a] by {
                    if a < i {
                        let j = choose|j: int| 0 <= j < out0.len() && out0[j].0 == keys@[a];
                        assert(out@[j] == out0[j]);
                    } else {
                        assert(files@.len() > 0);
                        assert(out@[out@.len() - 1].0 == k);
                    }
                }
                assert forall|s: u64| #[trigger] self.unique_files0@.contains_key(s) == (m0.contains_key(s)
                    && !keys@.take(i + 1).contains(s)) by {
                    assert(self.unique_files0@ == before.remove(k));
                    assert(before.contains_key(s) == (m0.contains_key(s) && !keys@.take(i as int).contains(s)));
                    let t1 = keys@.take(i + 1);
                    assert(t1[i as int] == k);
                    assert(t1.contains(k));
                    if s != k && t1.contains(s) {
                        let a = choose|a: int| 0 <= a < t1.len() && t1[a] == s;
                        assert(keys@.take(i as int)[a] == s);
                    }
                    if keys@.take(i as int).contains(s) {
                        let a = choose|a: int| 0 <= a < i && keys@.take(i as int)[a] == s;
                        assert(keys@.take(i + 1)[a] == s);
                    }
                }
            }
            i = i + 1;
        }
        proof {
            assert(keys@.take(keys@.len() as int) =~= keys@);
            assert forall|s: u64| #[trigger] old(self).unique_files0@.contains_key(s) && old(
                self,
            ).unique_files0@[s]@.len() > 1 implies exists|j: int| 0 <= j < out@.len() && out@[j].0 == s by {
                assert(keys@.to_set().contains(s));
                let a = choose|a: int| 0 <= a < keys@.len() && keys@[a] == s;
                assert(m0[keys@[a]]@.len() > 1);
            }
            assert forall|s: u64| !self.unique_files0@.contains_key(s) by {
                if self.unique_files0@.contains_key(s) {
                    assert(keys@.to_set().contains(s));
                }
            }
            assert(self.unique_files0@ =~= Map::<u64, Vec<FileEntry>>::empty());
        }
        out
    }

    /// Whether `remove_single_entries` can take `vsingles`: each digest has a
    /// group, none whose group holds one file comes twice, and the count of
    /// possible duplicates stays in range.
    #[verifier::spinoff_prover]
    pub fn can_remove_single_entries(&self, vsingles: &Vec<Vec<u8>>) -> (r: bool)
        ensures
            r == {
                &&& forall|i: int| 0 <= i < vsingles@.len() ==> groups_map(self.duplicate_files.seq()).contains_key(
                    #[trigger] digests(vsingles@)[i],
                )
                &&& singles_once(groups_map(self.duplicate_files.seq()), digests(vsingles@))
                &&& singles_count_ok(groups_map(self.duplicate_files.seq()), digests(vsingles@), self.possible_dup_files)
            },
    {
        proof {
            use_type_invariant(&self.duplicate_files);
        }
        let ghost m = groups_map(self.duplicate_files.seq());
        let ghost gs = self.duplicate_files.seq();
        let ghost ds = digests(vsingles@);
        let mut lens: Vec<u64> = Vec::new();
        let mut i: usize = 0;
        while i < vsingles.len()
            invariant
                i <= vsingles@.len(),
                ds == digests(vsingles@),
                gs == self.duplicate_files.seq(),
                m == groups_map(gs),
                keys_distinct(gs),
                lens@.len() == i,
                forall|j: int| 0 <= j < i ==> m.contains_key(#[trigger] ds[j]) && lens@[j] == m[ds[j]].len(),
                forall|a: int, b: int| 0 <= a < b < i && #[trigger] ds[a] == #[trigger] ds[b] ==> m[ds[a]].len() != 1,
            decreases vsingles@.len() - i,
        {
            proof {
                assert(vsingles@[i as int]@ == ds[i as int]);
            }
            match self.duplicate_files.position(&vsingles[i]) {
                Some(p) => {
                    proof {
                        lemma_key_index(gs, p as int);
                    }
                    lens.push(self.duplicate_files.as_vec()[p].files.len() as u64);
                },
                None => {
                    proof {
                        assert(!m.contains_key(ds[i as int]));
                    }
                    return false;
                },
            }
            if lens[i] == 1 {
                proof {
                    assert(m.contains_key(ds[i as int]) && lens@[i as int] == m[ds[i as int]].len());
                }
                let mut j: usize = 0;
                while j < i
                    invariant
                        j <= i < vsingles@.len(),
                        ds == digests(vsingles@),
                        m == groups_map(self.duplicate_files.seq()),
                        m.contains_key(ds[i as int]),
                        m[ds[i as int]].len() == 1,
                        forall|b: int| 0 <= b < j ==> ds[b] != ds[i as int],
                    decreases i - j,
                {
                    proof {
                        assert(vsingles@[j as int]@ == ds[j as int]);
                    }
                    if bytes_equal(&vsingles[j], &vsingles[i]) {
                        proof {
                            assert(ds[j as int] == ds[i as int]);
                            assert(m[ds[j as int]].len() == 1);
                            assert(!singles_once(m, ds));
                        }
                        return false;
                    }
                    j = j + 1;
                }
            }
            i = i + 1;
        }
        let mut running: u64 = self.possible_dup_files;
        let mut k: usize = 0;
        while k < lens.len()
            invariant
                k <= lens@.len() == ds.len(),
                ds == digests(vsingles@),
                m == groups_map(self.duplicate_files.seq()),
                forall|j: int| 0 <= j < lens@.len() ==> m.contains_key(#[trigger] ds[j]) && lens@[j] == m[ds[j]].len(),
                running == self.possible_dup_files + multi_sum(m, ds.take(k as int)),
                forall|j: int| 0 <= j < k && m[#[trigger] ds[j]].len() == 1 ==> self.possible_dup_files + multi_sum(
                    m,
                    ds.take(j),
                ) >= 1,
            decreases lens@.len() - k,
        {
            proof {
                assert(ds.take(k + 1).drop_last() =~= ds.take(k as int));
                assert(ds.take(k + 1).last() == ds[k as int]);
                lemma_multi_sum_prefix(m, ds, k as int + 1);
            }
            let len = lens[k];
            proof {
                assert(multi_sum(m, ds.take(k + 1)) == multi_sum(m, ds.take(k as int)) + single_gain(m, ds[k as int]));
            }
            if len == 1 {
                if running < 1 {
                    proof {
                        assert(m[ds[k as int]].len() == 1);
                        assert(self.possible_dup_files + multi_sum(m, ds.take(k as int)) < 1);
                        assert(!singles_count_ok(m, ds, self.possible_dup_files));
                    }
                    return false;
                }
            } else {
                if len > u64::MAX - running {
                    proof {
                        assert(self.possible_dup_files + multi_sum(m, ds) > u64::MAX);
                    }
                    return false;
                }
                running = running + len;
            }
            k = k + 1;
        }
        proof {
            assert(ds.take(ds.len() as int) =~= ds);
        }
        true
    }

    /// The second pass, for one file of a size bucket whose digest is known:
    /// a file whose digest is already grouped joins the end of its group, and
    /// counts as a duplicate (its size is reclaimable, and its extension is
    /// counted in `stats`); otherwise the file starts a new group, and its
    /// digest is noted in `vsingles`.
    pub fn process_candidate_digest(
        &mut self,
        size: u64,
        de: FileEntry,
        digest: Vec<u8>,
        stats: &mut FileTypes,
        vsingles: &mut Vec<Vec<u8>>,
    )
        requires
            has_key(old(self).duplicate_files.seq(), digest@) ==> {
                &&& old(self).total_reclaim + size <= u64::MAX
                &&& old(self).confirmed_dups < u64::MAX
                &&& old(stats).inc_ok(ext_name(de))
            },
        ensures
            has_key(old(self).duplicate_files.seq(), digest@) ==> {
                let gs = old(self).duplicate_files.seq();
                let i = key_index(gs, digest@);
                &&& final(self).duplicate_files.seq() == gs.update(
                    i,
                    DupGroup { key: gs[i].key, files: final(self).duplicate_files.seq()[i].files },
                )
                &&& final(self).duplicate_files.seq()[i].files@ == gs[i].files@.push(de)
                &&& groups_map(final(self).duplicate_files.seq()) == groups_map(gs).insert(
                    digest@,
                    groups_map(gs)[digest@].push(de),
                )
                &&& final(self).total_reclaim == old(self).total_reclaim + size
                &&& final(self).confirmed_dups == old(self).confirmed_dups + 1
                &&& counted(&*old(stats), &*final(stats), ext_name(de))
                &&& final(vsingles)@ == old(vsingles)@
            },
            !has_key(old(self).duplicate_files.seq(), digest@) ==> {
                let gs = old(self).duplicate_files.seq();
                &&& final(self).duplicate_files.seq().len() == gs.len() + 1
                &&& final(self).duplicate_files.seq().drop_last() == gs
                &&& final(self).duplicate_files.seq().last().key@ == digest@
                &&& final(self).duplicate_files.seq().last().files@ == seq![de]
                &&& groups_map(final(self).duplicate_files.seq()) == groups_map(gs).insert(digest@, seq![de])
                &&& final(self).total_reclaim == old(self).total_reclaim
                &&& final(self).confirmed_dups == old(self).confirmed_dups
                &&& *final(stats) == *old(stats)
                &&& final(vsingles)@ == old(vsingles)@.push(digest)
            },
            dup_excess(final(self).duplicate_files.seq()) - final(self).confirmed_dups == dup_excess(
                old(self).duplicate_files.seq(),
            ) - old(self).confirmed_dups,
            final(self).unique_files0 == old(self).unique_files0,
            final(self).empty_folders == old(self).empty_folders,
            final(self).files_processed == old(self).files_processed,
            final(self).possible_dup_files == old(self).possible_dup_files,
    {
        proof {
            use_type_invariant(&self.duplicate_files);
        }
        let ghost gs = self.duplicate_files.seq();
        match self.duplicate_files.position(&digest) {
            Some(i) => {
                let ext = ext_of(&de);
                self.duplicate_files.push_file(i, de);
                self.total_reclaim = self.total_reclaim + size;
                self.confirmed_dups = self.confirmed_dups + 1;
                proof {
                    lemma_key_index(gs, i as int);
                    let ns = self.duplicate_files.seq();
                    lemma_groups_map_update(gs, i as int, ns[i as int]);
                    lemma_dup_excess_update(gs, i as int, ns[i as int]);
                }
                stats.inc(ext);
            },
            None => {
                let key = digest.clone();
                assert(key@ =~= digest@);
                self.duplicate_files.push_group(key, de);
                proof {
                    let ns = self.duplicate_files.seq();
                    assert(ns =~= gs.push(ns.last()));
                    lemma_groups_map_push(gs, ns.last());
                    assert(ns.drop_last() == gs);
                    assert(dup_excess(ns) == dup_excess(gs) + 1 - 1);
                }
                vsingles.push(digest);
            },
        }
    }

    /// The second pass, for one file of a size bucket: its digest is the
    /// SHA-256 of its contents, which `contents` has been fed, and it goes on
    /// as `process_candidate_digest` says. When that would overflow a count,
    /// nothing changes and the result is `false`.
    pub fn process_candidate(
        &mut self,
        size: u64,
        de: FileEntry,
        contents: Sha256Stream,
        stats: &mut FileTypes,
        vsingles: &mut Vec<Vec<u8>>,
    ) -> (done: bool)
        ensures
            done == (has_key(old(self).duplicate_files.seq(), sha256_spec(contents.data())) ==> {
                &&& old(self).total_reclaim + size <= u64::MAX
                &&& old(self).confirmed_dups < u64::MAX
                &&& old(stats).inc_ok(ext_name(de))
            }),
            !done ==> *final(self) == *old(self) && *final(stats) == *old(stats) && final(vsingles)@ == old(vsingles)@,
            done && has_key(old(self).duplicate_files.seq(), sha256_spec(contents.data())) ==> {
                let gs = old(self).duplicate_files.seq();
                let i = key_index(gs, sha256_spec(contents.data()));
                &&& final(self).duplicate_files.seq() == gs.update(
                    i,
                    DupGroup { key: gs[i].key, files: final(self).duplicate_files.seq()[i].files },
                )
                &&& final(self).duplicate_files.seq()[i].files@ == gs[i].files@.push(de)
                &&& groups_map(final(self).duplicate_files.seq()) == groups_map(gs).insert(
                    sha256_spec(contents.data()),
                    groups_map(gs)[sha256_spec(contents.data())].push(de),
                )
                &&& final(self).total_reclaim == old(self).total_reclaim + size
                &&& final(self).confirmed_dups == old(self).confirmed_dups + 1
                &&& counted(&*old(stats), &*final(stats), ext_name(de))
                &&& final(vsingles)@ == old(vsingles)@
            },
            done && !has_key(old(self).duplicate_files.seq(), sha256_spec(contents.data())) ==> {
                let gs = old(self).duplicate_files.seq();
                &&& groups_map(final(self).duplicate_files.seq()) == groups_map(gs).insert(
                    sha256_spec(contents.data()),
                    seq![de],
                )
                &&& final(self).duplicate_files.seq().drop_last() == gs
                &&& final(self).duplicate_files.seq().len() == gs.len() + 1
                &&& final(self).duplicate_files.seq().last().key@ == sha256_spec(contents.data())
                &&& final(self).duplicate_files.seq().last().files@ == seq![de]
                &&& final(self).total_reclaim == old(self).total_reclaim
                &&& final(self).confirmed_dups == old(self).confirmed_dups
                &&& *final(stats) == *old(stats)
                &&& final(vsingles)@.len() == old(vsingles)@.len() + 1
                &&& final(vsingles)@.drop_last() == old(vsingles)@
                &&& final(vsingles)@.last()@ == sha256_spec(contents.data())
            },
            dup_excess(final(self).duplicate_files.seq()) - final(self).confirmed_dups == dup_excess(
                old(self).duplicate_files.seq(),
            ) - old(self).confirmed_dups,
            final(self).unique_files0 == old(self).unique_files0,
            final(self).empty_folders == old(self).empty_folders,
            final(self).files_processed == old(self).files_processed,
            final(self).possible_dup_files == old(self).possible_dup_files,
    {
        proof {
            use_type_invariant(&self.duplicate_files);
        }
        let digest = contents.finish();
        match self.duplicate_files.position(&digest) {
            Some(_) => {
                let ext = ext_of(&de);
                if !(size <= u64::MAX - self.total_reclaim && self.confirmed_dups < u64::MAX && stats.can_inc(&ext)) {
                    return false;
                }
            },
            None => {},
        }
        self.process_candidate_digest(size, de, digest, stats, vsingles);
        proof {
            if !has_key(old(self).duplicate_files.seq(), sha256_spec(contents.data())) {
                assert(vsingles@.drop_last() =~= old(vsingles)@);
            }
        }
        true
    }

    /// Removes the groups of a single file among the digests `vsingles` (each
    /// of which has a group; one whose group holds one file comes once). For
    /// each digest in turn, the count of possible duplicates first loses one
    /// if its group holds one file, then gains the size of its group.
    pub fn remove_single_entries(&mut self, vsingles: Vec<Vec<u8>>)
        requires
            forall|i: int| 0 <= i < vsingles@.len() ==> groups_map(old(self).duplicate_files.seq()).contains_key(
                #[trigger] digests(vsingles@)[i],
            ),
            singles_once(groups_map(old(self).duplicate_files.seq()), digests(vsingles@)),
            singles_count_ok(groups_map(old(self).duplicate_files.seq()), digests(vsingles@), old(self).possible_dup_files),
        ensures
            groups_map(final(self).duplicate_files.seq()) == singles_removed(
                groups_map(old(self).duplicate_files.seq()),
                digests(vsingles@),
            ),
            forall|i: int| 0 <= i < vsingles@.len() ==> {
                let m = groups_map(old(self).duplicate_files.seq());
                let fm = groups_map(final(self).duplicate_files.seq());
                let d = #[trigger] digests(vsingles@)[i];
                &&& m[d].len() == 1 ==> !fm.contains_key(d)
                &&& m[d].len() != 1 ==> fm.contains_key(d) && fm[d] == m[d]
            },
            final(self).possible_dup_files == old(self).possible_dup_files + multi_sum(
                groups_map(old(self).duplicate_files.seq()),
                digests(vsingles@),
            ),
            dup_excess(final(self).duplicate_files.seq()) == dup_excess(old(self).duplicate_files.seq()),
            final(self).unique_files0 == old(self).unique_files0,
            final(self).empty_folders == old(self).empty_folders,
            final(self).files_processed == old(self).files_processed,
            final(self).confirmed_dups == old(self).confirmed_dups,
            final(self).total_reclaim == old(self).total_reclaim,
    {
        proof {
            use_type_invariant(&self.duplicate_files);
        }
        let ghost m = groups_map(self.duplicate_files.seq());
        let ghost ds = digests(vsingles@);
        let ghost ex = dup_excess(self.duplicate_files.seq());
        let mut k: usize = 0;
        while k < vsingles.len()
            invariant
                k <= vsingles@.len(),
                ds == digests(vsingles@),
                keys_distinct(self.duplicate_files.seq()),
                groups_nonempty(self.duplicate_files.seq()),
                groups_map(self.duplicate_files.seq()) == singles_removed(m, ds.take(k as int)),
                self.possible_dup_files == old(self).possible_dup_files + multi_sum(m, ds.take(k as int)),
                dup_excess(self.duplicate_files.seq()) == ex,
                forall|i: int| 0 <= i < ds.len() ==> m.contains_key(#[trigger] ds[i]),
                singles_once(m, ds),
                singles_count_ok(m, ds, old(self).possible_dup_files),
                self.unique_files0 == old(self).unique_files0,
                self.empty_folders == old(self).empty_folders,
                self.files_processed == old(self).files_processed,
                self.confirmed_dups == old(self).confirmed_dups,
                self.total_reclaim == old(self).total_reclaim,
            decreases vsingles@.len() - k,
        {
            let ghost gs = self.duplicate_files.seq();
            let ghost d = ds[k as int];
            proof {
                assert(m[d].len() != 1 || !ds.take(k as int).contains(d)) by {
                    if m[d].len() == 1 && ds.take(k as int).contains(d) {
                        let j = choose|j: int| 0 <= j < ds.take(k as int).len() && ds.take(k as int)[j] == d;
                        assert(ds[j] == ds[k as int]);
                    }
                }
                lemma_singles_removed_keeps(m, ds.take(k as int), d);
                assert(ds.take(k + 1).drop_last() =~= ds.take(k as int));
                assert(ds.take(k + 1).last() == d);
                lemma_multi_sum_prefix(m, ds, k as int + 1);
                assert(vsingles@[k as int]@ == d);
            }
            match self.duplicate_files.position(&vsingles[k]) {
                Some(i) => {
                    proof {
                        lemma_key_index(gs, i as int);
                    }
                    let lstlen = self.duplicate_files.as_vec()[i].files.len() as u64;
                    if lstlen == 1 {
                        self.possible_dup_files = self.possible_dup_files - 1;
                        self.duplicate_files.remove_group(i);
                        proof {
                            lemma_groups_map_remove(gs, i as int);
                            lemma_dup_excess_remove(gs, i as int);
                        }
                    }
                    self.possible_dup_files = self.possible_dup_files + lstlen;
                },
                None => {
                    proof {
                        assert(has_key(gs, d));
                    }
                },
            }
            k = k + 1;
        }
        proof {
            assert(ds.take(vsingles@.len() as int) =~= ds);
            assert forall|i: int| 0 <= i < vsingles@.len() implies {
                let fm = groups_map(self.duplicate_files.seq());
                let d = #[trigger] ds[i];
                &&& m[d].len() == 1 ==> !fm.contains_key(d)
                &&& m[d].len() != 1 ==> fm.contains_key(d) && fm[d] == m[d]
            } by {
                lemma_singles_removed_member(m, ds, i);
            }
        }
    }
}

/// Counting entries over a prefix never exceeds counting over the whole.
pub proof fn lemma_count_ok_prefix(rs: Seq<Result<WalkEntry, String>>, n: int)
    requires
        0 <= n <= rs.len(),
    ensures
        count_ok(rs.take(n)) <= count_ok(rs),
    decreases rs.len(),
{
    if n < rs.len() {
        lemma_count_ok_prefix(rs.drop_last(), n);
        assert(rs.drop_last().take(n) =~= rs.take(n));
    } else {
        assert(rs.take(n) =~= rs);
    }
}

/// The empty directories of a prefix are no more than those of the whole.
pub proof fn lemma_empty_dirs_prefix(rs: Seq<Result<WalkEntry, String>>, n: int)
    requires
        0 <= n <= rs.len(),
    ensures
        empty_dirs(rs.take(n)).len() <= empty_dirs(rs).len(),
    decreases rs.len(),
{
    if n < rs.len() {
        lemma_empty_dirs_prefix(rs.drop_last(), n);
        assert(rs.drop_last().take(n) =~= rs.take(n));
    } else {
        assert(rs.take(n) =~= rs);
    }
}

/// The number of files in the bucket of size `s` (none when there is no such
/// bucket).
pub open spec fn bucket_len(m: Map<u64, Seq<FileEntry>>, s: u64) -> nat {
    if m.contains_key(s) {
        m[s].len()
    } else {
        0
    }
}

/// Walk result `r` is a file of size `s` above the minimum, and duplicates
/// are searched for.
pub open spec fn walked_file_of_size(r: Result<WalkEntry, String>, min: u64, dupfiles: bool, s: u64) -> bool {
    &&& dupfiles
    &&& min < s
    &&& r matches Ok(we)
    &&& we.kind matches EntryKind::File { size: Some(z) }
    &&& z == s
}

/// The number of walk results that are files of size `s` above the minimum.
pub open spec fn count_walked_of_size(rs: Seq<Result<WalkEntry, String>>, min: u64, dupfiles: bool, s: u64) -> nat
    decreases rs.len(),
{
    if rs.len() == 0 {
        0
    } else {
        count_walked_of_size(rs.drop_last(), min, dupfiles, s) + if walked_file_of_size(rs.last(), min, dupfiles, s) {
            1nat
        } else {
            0nat
        }
    }
}

/// Adding a file to a bucket lengthens that bucket by one and puts the file
/// last, keeping the files it had before it; every other bucket stays as it
/// was.
pub proof fn lemma_bucket_add_appends(m: Map<u64, Seq<FileEntry>>, s: u64, f: FileEntry)
    ensures
        bucket_add(m, s, f).contains_key(s),
        bucket_add(m, s, f)[s].len() == bucket_len(m, s) + 1,
        bucket_add(m, s, f)[s].last() == f,
        forall|k: int| 0 <= k < bucket_len(m, s) ==> bucket_add(m, s, f)[s][k] == m[s][k],
        forall|t: u64| t != s ==> (#[trigger] bucket_add(m, s, f).contains_key(t)) == m.contains_key(t),
        forall|t: u64| t != s && m.contains_key(t) ==> #[trigger] bucket_add(m, s, f)[t] == m[t],
{
}

/// The first pass puts every walked file above the minimum into the bucket of
/// its size: the bucket of each size grows by exactly the number of such
/// files of that size, and every one of them is in it.
pub proof fn lemma_first_pass_keeps_every_file(
    m: Map<u64, Seq<FileEntry>>,
    rs: Seq<Result<WalkEntry, String>>,
    min: u64,
    dupfiles: bool,
    s: u64,
)
    ensures
        bucket_len(buckets_after(m, rs, min, dupfiles), s) == bucket_len(m, s) + count_walked_of_size(
            rs,
            min,
            dupfiles,
            s,
        ),
        forall|i: int|
            0 <= i < rs.len() && walked_file_of_size(#[trigger] rs[i], min, dupfiles, s) ==> buckets_after(
                m,
                rs,
                min,
                dupfiles,
            ).contains_key(s) && buckets_after(m, rs, min, dupfiles)[s].contains(rs[i]->Ok_0.file),
        forall|k: int| 0 <= k < bucket_len(m, s) ==> buckets_after(m, rs, min, dupfiles)[s][k] == m[s][k],
    decreases rs.len(),
{
    if rs.len() > 0 {
        let prev = rs.drop_last();
        lemma_first_pass_keeps_every_file(m, prev, min, dupfiles, s);
        let before = buckets_after(m, prev, min, dupfiles);
        let after = buckets_after(m, rs, min, dupfiles);
        let r = rs.last();
        match candidate(r, min, dupfiles) {
            Some((sz, f)) => {
                lemma_bucket_add_appends(before, sz, f);
                assert(after == bucket_add(before, sz, f));
            },
            None => {
                assert(after == before);
            },
        }
        assert forall|i: int|
            0 <= i < rs.len() && walked_file_of_size(#[trigger] rs[i], min, dupfiles, s) implies after.contains_key(s)
            && after[s].contains(rs[i]->Ok_0.file) by {
            if i < rs.len() - 1 {
                assert(prev[i] == rs[i]);
                let j = choose|j: int| 0 <= j < before[s].len() && before[s][j] == rs[i]->Ok_0.file;
                assert(after[s][j] == rs[i]->Ok_0.file);
            } else {
                assert(rs[i] == r);
                assert(after[s][after[s].len() - 1] == rs[i]->Ok_0.file);
            }
        }
    }
}

/// Walk result `r` is a directory known to be empty.
pub open spec fn walked_empty_dir(r: Result<WalkEntry, String>) -> bool {
    &&& r matches Ok(we)
    &&& we.kind matches EntryKind::Dir { empty: Some(true) }
}

/// Some walk result is a directory known to be empty with path `p`.
pub open spec fn walked_empty_dir_path(rs: Seq<Result<WalkEntry, String>>, p: String) -> bool {
    exists|i: int| 0 <= i < rs.len() && walked_empty_dir(#[trigger] rs[i]) && rs[i]->Ok_0.file.path == p
}

/// The number of walk results that are directories known to be empty.
pub open spec fn count_walked_empty_dirs(rs: Seq<Result<WalkEntry, String>>) -> nat
    decreases rs.len(),
{
    if rs.len() == 0 {
        0
    } else {
        count_walked_empty_dirs(rs.drop_last()) + if walked_empty_dir(rs.last()) {
            1nat
        } else {
            0nat
        }
    }
}

/// Every directory the walk found empty is recorded, whatever its path, and
/// nothing else is: there are as many recorded folders as such directories,
/// each of their paths is recorded, and each recorded path is one of theirs.
pub proof fn lemma_every_empty_dir_recorded(rs: Seq<Result<WalkEntry, String>>)
    ensures
        empty_dirs(rs).len() == count_walked_empty_dirs(rs),
        forall|i: int| 0 <= i < rs.len() && walked_empty_dir(#[trigger] rs[i]) ==> empty_dirs(rs).contains(
            rs[i]->Ok_0.file.path,
        ),
        forall|k: int| 0 <= k < empty_dirs(rs).len() ==> walked_empty_dir_path(rs, #[trigger] empty_dirs(rs)[k]),
    decreases rs.len(),
{
    if rs.len() > 0 {
        let prev = rs.drop_last();
        lemma_every_empty_dir_recorded(prev);
        let before = empty_dirs(prev);
        let after = empty_dirs(rs);
        let r = rs.last();
        assert(walked_empty_dir(r) == (empty_dir(r) is Some));
        if walked_empty_dir(r) {
            assert(after == before.push(r->Ok_0.file.path));
        } else {
            assert(after == before);
        }
        assert forall|i: int| 0 <= i < rs.len() && walked_empty_dir(#[trigger] rs[i]) implies after.contains(
            rs[i]->Ok_0.file.path,
        ) by {
            if i < rs.len() - 1 {
                assert(prev[i] == rs[i]);
                let j = choose|j: int| 0 <= j < before.len() && before[j] == rs[i]->Ok_0.file.path;
                assert(after[j] == before[j]);
            } else {
                assert(after[after.len() - 1] == rs[i]->Ok_0.file.path);
            }
        }
        assert forall|k: int| 0 <= k < empty_dirs(rs).len() implies walked_empty_dir_path(
            rs,
            #[trigger] empty_dirs(rs)[k],
        ) by {
            if k < before.len() {
                assert(after[k] == before[k]);
                assert(walked_empty_dir_path(prev, before[k]));
                let i = choose|i: int|
                    0 <= i < prev.len() && walked_empty_dir(#[trigger] prev[i]) && prev[i]->Ok_0.file.path == before[k];
                assert(rs[i] == prev[i]);
                assert(walked_empty_dir(rs[i]) && rs[i]->Ok_0.file.path == after[k]);
            } else {
                let i = rs.len() - 1;
                assert(rs[i] == r);
                assert(walked_empty_dir(rs[i]) && rs[i]->Ok_0.file.path == after[k]);
            }
        }
    } else {
        assert(empty_dirs(rs).len() == 0);
    }
}

} // verus!
