use vstd::prelude::*;
use crate::groups::{FileEntry, DupGroup, groups_map, dup_excess, keys_distinct, lemma_key_index};
use crate::reclaim::{
    ReclaimStorage, ext_name, digests, singles_removed, multi_sum, singles_count_ok, lemma_singles_removed_keeps,
    lemma_singles_removed_member,
};
use crate::filetype::{
    FileTypes, TypeCounts, type_counts, count_ext, count_exts, counts_inc_ok, lemma_counted_counts, lemma_inc_ok_counts,
};
use crate::digest::{Sha256Stream, sha256_spec};

verus! {

/// The files of a bucket with the digests of their contents, as (file, digest).
pub open spec fn hashed_view(v: Seq<(FileEntry, Sha256Stream)>) -> Seq<(FileEntry, Seq<u8>)> {
    v.map_values(|e: (FileEntry, Sha256Stream)| (e.0, sha256_spec(e.1.data())))
}

/// The files among `fds` whose digest is `d`, in order.
pub open spec fn files_with(fds: Seq<(FileEntry, Seq<u8>)>, d: Seq<u8>) -> Seq<FileEntry>
    decreases fds.len(),
{
    if fds.len() == 0 {
        Seq::empty()
    } else if fds.last().1 == d {
        files_with(fds.drop_last(), d).push(fds.last().0)
    } else {
        files_with(fds.drop_last(), d)
    }
}

/// Digest `d` has a group once the files `fds` went through: a group of `m`,
/// or one that a file of `fds` started.
pub open spec fn seen(m: Map<Seq<u8>, Seq<FileEntry>>, fds: Seq<(FileEntry, Seq<u8>)>, d: Seq<u8>) -> bool {
    m.contains_key(d) || files_with(fds, d).len() > 0
}

/// The groups once the files `fds` went through, each in turn: a digest's
/// group holds its files of `m`, then its files of `fds` in order.
pub open spec fn groups_after(m: Map<Seq<u8>, Seq<FileEntry>>, fds: Seq<(FileEntry, Seq<u8>)>) -> Map<
    Seq<u8>,
    Seq<FileEntry>,
> {
    Map::new(
        |d: Seq<u8>| seen(m, fds, d),
        |d: Seq<u8>| if m.contains_key(d) { m[d] + files_with(fds, d) } else { files_with(fds, d) },
    )
}

/// The groups after a whole bucket: every digest of `m` keeps its files and
/// gains the files of `fds` that have it; any other digest has a group only
/// when two files or more of `fds` have it, and then it holds them, in order.
pub open spec fn bucket_groups(m: Map<Seq<u8>, Seq<FileEntry>>, fds: Seq<(FileEntry, Seq<u8>)>) -> Map<
    Seq<u8>,
    Seq<FileEntry>,
> {
    Map::new(
        |d: Seq<u8>| m.contains_key(d) || files_with(fds, d).len() >= 2,
        |d: Seq<u8>| if m.contains_key(d) { m[d] + files_with(fds, d) } else { files_with(fds, d) },
    )
}

/// The files of `fds` that join a group, in order: those whose digest has a
/// group when their turn comes. Each is a duplicate.
pub open spec fn joined(m: Map<Seq<u8>, Seq<FileEntry>>, fds: Seq<(FileEntry, Seq<u8>)>) -> Seq<FileEntry>
    decreases fds.len(),
{
    if fds.len() == 0 {
        Seq::empty()
    } else if seen(m, fds.drop_last(), fds.last().1) {
        joined(m, fds.drop_last()).push(fds.last().0)
    } else {
        joined(m, fds.drop_last())
    }
}

/// The extensions of the files that join a group, in order.
pub open spec fn joined_exts(m: Map<Seq<u8>, Seq<FileEntry>>, fds: Seq<(FileEntry, Seq<u8>)>) -> Seq<Seq<char>> {
    joined(m, fds).map_values(|f: FileEntry| ext_name(f))
}

/// The digests that the files `fds` start groups for, in the order they
/// first come.
pub open spec fn new_keys(m: Map<Seq<u8>, Seq<FileEntry>>, fds: Seq<(FileEntry, Seq<u8>)>) -> Seq<Seq<u8>>
    decreases fds.len(),
{
    if fds.len() == 0 {
        Seq::empty()
    } else if seen(m, fds.drop_last(), fds.last().1) {
        new_keys(m, fds.drop_last())
    } else {
        new_keys(m, fds.drop_last()).push(fds.last().1)
    }
}

/// The files `fds` go through without a count overflowing: for each file that
/// joins a group, the space to reclaim, the count of duplicates and the count
/// of its extension stay in range.
pub open spec fn bucket_fits(
    m: Map<Seq<u8>, Seq<FileEntry>>,
    total_reclaim: u64,
    confirmed_dups: u64,
    counts: TypeCounts,
    size: u64,
    fds: Seq<(FileEntry, Seq<u8>)>,
) -> bool
    decreases fds.len(),
{
    if fds.len() == 0 {
        true
    } else {
        let prev = fds.drop_last();
        &&& bucket_fits(m, total_reclaim, confirmed_dups, counts, size, prev)
        &&& seen(m, prev, fds.last().1) ==> {
            &&& total_reclaim + size * (joined(m, prev).len() + 1) <= u64::MAX
            &&& confirmed_dups + joined(m, prev).len() < u64::MAX
            &&& counts_inc_ok(count_exts(counts, joined_exts(m, prev)), ext_name(fds.last().0))
        }
    }
}

/// One more file: how each of the above changes.
pub proof fn lemma_bucket_step(
    m: Map<Seq<u8>, Seq<FileEntry>>,
    fds: Seq<(FileEntry, Seq<u8>)>,
    f: FileEntry,
    d: Seq<u8>,
    total_reclaim: u64,
    confirmed_dups: u64,
    counts: TypeCounts,
    size: u64,
)
    ensures
        groups_after(m, fds).contains_key(d) == seen(m, fds, d),
        groups_after(m, fds.push((f, d))) == groups_after(m, fds).insert(
            d,
            if seen(m, fds, d) { groups_after(m, fds)[d].push(f) } else { seq![f] },
        ),
        seen(m, fds, d) ==> joined(m, fds.push((f, d))) == joined(m, fds).push(f)
            && joined_exts(m, fds.push((f, d))) == joined_exts(m, fds).push(ext_name(f))
            && new_keys(m, fds.push((f, d))) == new_keys(m, fds),
        !seen(m, fds, d) ==> joined(m, fds.push((f, d))) == joined(m, fds)
            && joined_exts(m, fds.push((f, d))) == joined_exts(m, fds)
            && new_keys(m, fds.push((f, d))) == new_keys(m, fds).push(d),
        bucket_fits(m, total_reclaim, confirmed_dups, counts, size, fds.push((f, d))) == (bucket_fits(
            m,
            total_reclaim,
            confirmed_dups,
            counts,
            size,
            fds,
        ) && (seen(m, fds, d) ==> {
            &&& total_reclaim + size * (joined(m, fds).len() + 1) <= u64::MAX
            &&& confirmed_dups + joined(m, fds).len() < u64::MAX
            &&& counts_inc_ok(count_exts(counts, joined_exts(m, fds)), ext_name(f))
        })),
{
    let nf = fds.push((f, d));
    assert(nf.drop_last() =~= fds);
    assert(nf.last() == (f, d));
    assert forall|k: Seq<u8>| #[trigger] files_with(nf, k) == if k == d {
        files_with(fds, k).push(f)
    } else {
        files_with(fds, k)
    } by {}
    let g = groups_after(m, fds);
    let ng = g.insert(d, if seen(m, fds, d) { g[d].push(f) } else { seq![f] });
    assert forall|k: Seq<u8>| #[trigger] groups_after(m, nf).contains_key(k) == ng.contains_key(k) by {}
    assert forall|k: Seq<u8>| #[trigger] groups_after(m, nf).contains_key(k) implies groups_after(m, nf)[k]
        == ng[k] by {
        if k == d {
            if m.contains_key(d) {
                assert(m[d] + files_with(fds, d).push(f) =~= (m[d] + files_with(fds, d)).push(f));
            } else if !seen(m, fds, d) {
                assert(files_with(fds, d).push(f) =~= seq![f]);
            }
        }
    }
    assert(groups_after(m, nf) =~= ng);
    if seen(m, fds, d) {
        assert(joined(m, fds).push(f).map_values(|x: FileEntry| ext_name(x)) =~= joined(m, fds).map_values(
            |x: FileEntry| ext_name(x),
        ).push(ext_name(f)));
    }
}

/// A digest is among the new ones exactly when `m` has no group for it and a
/// file of `fds` has it; the new digests come once each.
pub proof fn lemma_new_keys(m: Map<Seq<u8>, Seq<FileEntry>>, fds: Seq<(FileEntry, Seq<u8>)>)
    ensures
        forall|d: Seq<u8>| #[trigger] new_keys(m, fds).contains(d) == (!m.contains_key(d) && files_with(fds, d).len()
            > 0),
        forall|a: int, b: int| 0 <= a < b < new_keys(m, fds).len() ==> new_keys(m, fds)[a] != new_keys(m, fds)[b],
    decreases fds.len(),
{
    if fds.len() > 0 {
        let prev = fds.drop_last();
        let (f, d) = fds.last();
        lemma_new_keys(m, prev);
        lemma_bucket_step(m, prev, f, d, 0, 0, TypeCounts { ft: Map::empty(), uft: Map::empty(), cats: Seq::empty(), totals: Map::empty(), others: 0 }, 0);
        assert(prev.push((f, d)) =~= fds);
        let nk = new_keys(m, fds);
        let pk = new_keys(m, prev);
        assert forall|k: Seq<u8>| #[trigger] nk.contains(k) == (!m.contains_key(k) && files_with(fds, k).len() > 0) by {
            if !seen(m, prev, d) {
                if nk.contains(k) && k != d {
                    let j = choose|j: int| 0 <= j < nk.len() && nk[j] == k;
                    assert(pk[j] == k);
                }
                if pk.contains(k) {
                    let j = choose|j: int| 0 <= j < pk.len() && pk[j] == k;
                    assert(nk[j] == k);
                }
                if k == d {
                    assert(nk[nk.len() - 1] == d);
                }
            }
        }
        if !seen(m, prev, d) {
            assert forall|a: int, b: int| 0 <= a < b < nk.len() implies nk[a] != nk[b] by {
                if b == nk.len() - 1 {
                    assert(pk[a] == nk[a]);
                    assert(pk.contains(nk[a]));
                }
            }
        }
    }
}

/// Removing single files keeps no digest that was not there.
pub proof fn lemma_singles_removed_within(m: Map<Seq<u8>, Seq<FileEntry>>, ds: Seq<Seq<u8>>, d: Seq<u8>)
    requires
        !m.contains_key(d),
    ensures
        !singles_removed(m, ds).contains_key(d),
    decreases ds.len(),
{
    if ds.len() > 0 {
        lemma_singles_removed_within(m, ds.drop_last(), d);
    }
}

/// After a whole bucket and the removal of the new groups of one file, the
/// groups are those `bucket_groups` describes.
pub proof fn lemma_bucket_groups(m: Map<Seq<u8>, Seq<FileEntry>>, fds: Seq<(FileEntry, Seq<u8>)>)
    ensures
        singles_removed(groups_after(m, fds), new_keys(m, fds)) == bucket_groups(m, fds),
{
    let g = groups_after(m, fds);
    let ds = new_keys(m, fds);
    let r = singles_removed(g, ds);
    let b = bucket_groups(m, fds);
    lemma_new_keys(m, fds);
    assert forall|d: Seq<u8>| #[trigger] r.contains_key(d) == b.contains_key(d) && (r.contains_key(d) ==> r[d]
        == b[d]) by {
        if ds.contains(d) {
            let i = choose|i: int| 0 <= i < ds.len() && ds[i] == d;
            lemma_singles_removed_member(g, ds, i);
        } else if g.contains_key(d) {
            lemma_singles_removed_keeps(g, ds, d);
        } else {
            lemma_singles_removed_within(g, ds, d);
        }
    }
    assert(r =~= b);
}

/// What fits for all the files fits for the first ones.
pub proof fn lemma_bucket_fits_prefix(
    m: Map<Seq<u8>, Seq<FileEntry>>,
    total_reclaim: u64,
    confirmed_dups: u64,
    counts: TypeCounts,
    size: u64,
    fds: Seq<(FileEntry, Seq<u8>)>,
    k: int,
)
    requires
        0 <= k <= fds.len(),
        bucket_fits(m, total_reclaim, confirmed_dups, counts, size, fds),
    ensures
        bucket_fits(m, total_reclaim, confirmed_dups, counts, size, fds.take(k)),
    decreases fds.len(),
{
    if k < fds.len() {
        lemma_bucket_fits_prefix(m, total_reclaim, confirmed_dups, counts, size, fds.drop_last(), k);
        assert(fds.drop_last().take(k) =~= fds.take(k));
    } else {
        assert(fds.take(k) =~= fds);
    }
}

/// Every group holds two files or more.
pub open spec fn all_groups_multi(gs: Seq<DupGroup>) -> bool {
    forall|i: int| 0 <= i < gs.len() ==> (#[trigger] gs[i]).files@.len() >= 2
}

/// What the second pass changes, as plain values: the groups, the space to
/// reclaim, the counts of duplicates and of possible duplicates, and the
/// counts of extensions.
pub struct PassState {
    pub groups: Map<Seq<u8>, Seq<FileEntry>>,
    pub total_reclaim: u64,
    pub confirmed_dups: u64,
    pub possible_dup_files: u64,
    pub counts: TypeCounts,
}

/// The state of a search and its extension counts, as plain values.
pub open spec fn pass_state(r: ReclaimStorage, stats: FileTypes) -> PassState {
    PassState {
        groups: groups_map(r.duplicate_files.seq()),
        total_reclaim: r.total_reclaim,
        confirmed_dups: r.confirmed_dups,
        possible_dup_files: r.possible_dup_files,
        counts: type_counts(&stats),
    }
}

/// A bucket of files of size `size` goes through from state `st` without a
/// count overflowing (as `process_bucket` checks).
pub open spec fn bucket_ok(st: PassState, size: u64, fds: Seq<(FileEntry, Seq<u8>)>) -> bool {
    &&& bucket_fits(st.groups, st.total_reclaim, st.confirmed_dups, st.counts, size, fds)
    &&& singles_count_ok(groups_after(st.groups, fds), new_keys(st.groups, fds), st.possible_dup_files)
}

/// The state after a bucket of files of size `size` went through from `st`
/// (as `process_bucket` states it).
pub open spec fn bucket_state(st: PassState, size: u64, fds: Seq<(FileEntry, Seq<u8>)>) -> PassState {
    PassState {
        groups: bucket_groups(st.groups, fds),
        total_reclaim: (st.total_reclaim + size * joined(st.groups, fds).len()) as u64,
        confirmed_dups: (st.confirmed_dups + joined(st.groups, fds).len()) as u64,
        possible_dup_files: (st.possible_dup_files + multi_sum(groups_after(st.groups, fds), new_keys(st.groups, fds)))
            as u64,
        counts: count_exts(st.counts, joined_exts(st.groups, fds)),
    }
}

/// The buckets with the digests of their files, as (size, (file, digest)).
pub open spec fn buckets_view(v: Seq<(u64, Vec<(FileEntry, Sha256Stream)>)>) -> Seq<
    (u64, Seq<(FileEntry, Seq<u8>)>),
> {
    v.map_values(|b: (u64, Vec<(FileEntry, Sha256Stream)>)| (b.0, hashed_view(b.1@)))
}

/// The state after the buckets `bs` went through from `st`, one after another.
pub open spec fn pass_after(st: PassState, bs: Seq<(u64, Seq<(FileEntry, Seq<u8>)>)>) -> PassState
    decreases bs.len(),
{
    if bs.len() == 0 {
        st
    } else {
        bucket_state(pass_after(st, bs.drop_last()), bs.last().0, bs.last().1)
    }
}

/// The buckets `bs` go through from `st` without a count overflowing.
pub open spec fn pass_fits(st: PassState, bs: Seq<(u64, Seq<(FileEntry, Seq<u8>)>)>) -> bool
    decreases bs.len(),
{
    if bs.len() == 0 {
        true
    } else {
        pass_fits(st, bs.drop_last()) && bucket_ok(pass_after(st, bs.drop_last()), bs.last().0, bs.last().1)
    }
}

/// What fits for all the buckets fits for the first ones.
pub proof fn lemma_pass_fits_prefix(st: PassState, bs: Seq<(u64, Seq<(FileEntry, Seq<u8>)>)>, k: int)
    requires
        0 <= k <= bs.len(),
        pass_fits(st, bs),
    ensures
        pass_fits(st, bs.take(k)),
    decreases bs.len(),
{
    if k < bs.len() {
        lemma_pass_fits_prefix(st, bs.drop_last(), k);
        assert(bs.drop_last().take(k) =~= bs.take(k));
    } else {
        assert(bs.take(k) =~= bs);
    }
}

impl ReclaimStorage {
    /// The second pass over one bucket of candidates whose contents have been
    /// read: `files` holds each file of the bucket that could be read, with
    /// the SHA-256 computation fed its contents. Each file in turn joins the
    /// group of its digest, and counts as a duplicate, or starts a group (as
    /// `process_candidate` does); then the groups of one file that the bucket
    /// started are dropped (as `remove_single_entries` does).
    ///
    /// It succeeds exactly when no count overflows on the way. Then the groups
    /// are those `bucket_groups` describes; the space to reclaim grows by
    /// `size` and the count of duplicates by one for each file that joined a
    /// group, whose extension is counted in `stats`; and when every group held
    /// two files or more, every group still does. When it fails, the files
    /// before the one whose counts would overflow have gone through.
    pub fn process_bucket(
        &mut self,
        size: u64,
        files: Vec<(FileEntry, Sha256Stream)>,
        stats: &mut FileTypes,
    ) -> (done: bool)
        ensures
            done == (bucket_fits(
                groups_map(old(self).duplicate_files.seq()),
                old(self).total_reclaim,
                old(self).confirmed_dups,
                type_counts(&*old(stats)),
                size,
                hashed_view(files@),
            ) && singles_count_ok(
                groups_after(groups_map(old(self).duplicate_files.seq()), hashed_view(files@)),
                new_keys(groups_map(old(self).duplicate_files.seq()), hashed_view(files@)),
                old(self).possible_dup_files,
            )),
            done ==> groups_map(final(self).duplicate_files.seq()) == bucket_groups(
                groups_map(old(self).duplicate_files.seq()),
                hashed_view(files@),
            ),
            done ==> final(self).total_reclaim == old(self).total_reclaim + size * joined(
                groups_map(old(self).duplicate_files.seq()),
                hashed_view(files@),
            ).len(),
            done ==> final(self).confirmed_dups == old(self).confirmed_dups + joined(
                groups_map(old(self).duplicate_files.seq()),
                hashed_view(files@),
            ).len(),
            done ==> type_counts(&*final(stats)) == count_exts(
                type_counts(&*old(stats)),
                joined_exts(groups_map(old(self).duplicate_files.seq()), hashed_view(files@)),
            ),
            done ==> final(self).possible_dup_files == old(self).possible_dup_files + multi_sum(
                groups_after(groups_map(old(self).duplicate_files.seq()), hashed_view(files@)),
                new_keys(groups_map(old(self).duplicate_files.seq()), hashed_view(files@)),
            ),
            done ==> dup_excess(final(self).duplicate_files.seq()) - final(self).confirmed_dups == dup_excess(
                old(self).duplicate_files.seq(),
            ) - old(self).confirmed_dups,
            done && all_groups_multi(old(self).duplicate_files.seq()) ==> all_groups_multi(
                final(self).duplicate_files.seq(),
            ),
            final(self).unique_files0 == old(self).unique_files0,
            final(self).empty_folders == old(self).empty_folders,
            final(self).files_processed == old(self).files_processed,
    {
        proof {
            use_type_invariant(&self.duplicate_files);
        }
        let ghost m0 = groups_map(self.duplicate_files.seq());
        let ghost all = files@;
        let ghost fds = hashed_view(files@);
        let ghost c0 = type_counts(&*stats);
        let ghost t0 = self.total_reclaim;
        let ghost k0 = self.confirmed_dups;
        let ghost ex0 = dup_excess(self.duplicate_files.seq()) - self.confirmed_dups;
        let mut rest = files;
        let mut vsingles: Vec<Vec<u8>> = Vec::new();
        let n = rest.len();
        let mut k: usize = 0;
        proof {
            assert(all.skip(0) =~= all);
            assert(fds.take(0) =~= Seq::<(FileEntry, Seq<u8>)>::empty());
            assert(groups_after(m0, Seq::empty()) =~= m0);
            assert(joined(m0, fds.take(0)) == Seq::<FileEntry>::empty());
            assert(size * 0 == 0) by (nonlinear_arith);
            assert(digests(vsingles@) =~= Seq::<Seq<u8>>::empty());
        }
        while k < n
            invariant
                n == all.len() == fds.len(),
                k <= n,
                fds == hashed_view(all),
                all == files@,
                rest@ == all.skip(k as int),
                m0 == groups_map(old(self).duplicate_files.seq()),
                t0 == old(self).total_reclaim,
                k0 == old(self).confirmed_dups,
                c0 == type_counts(&*old(stats)),
                ex0 == dup_excess(old(self).duplicate_files.seq()) - old(self).confirmed_dups,
                groups_map(self.duplicate_files.seq()) == groups_after(m0, fds.take(k as int)),
                self.total_reclaim == t0 + size * joined(m0, fds.take(k as int)).len(),
                self.confirmed_dups == k0 + joined(m0, fds.take(k as int)).len(),
                type_counts(&*stats) == count_exts(c0, joined_exts(m0, fds.take(k as int))),
                digests(vsingles@) == new_keys(m0, fds.take(k as int)),
                bucket_fits(m0, t0, k0, c0, size, fds.take(k as int)),
                dup_excess(self.duplicate_files.seq()) - self.confirmed_dups == ex0,
                self.possible_dup_files == old(self).possible_dup_files,
                self.unique_files0 == old(self).unique_files0,
                self.empty_folders == old(self).empty_folders,
                self.files_processed == old(self).files_processed,
            decreases n - k,
        {
            let ghost pre = fds.take(k as int);
            let ghost gs = self.duplicate_files.seq();
            let ghost v0 = vsingles@;
            let ghost st0 = *stats;
            let ghost j = joined(m0, pre).len();
            let (f, s) = rest.remove(0);
            let ghost d = sha256_spec(s.data());
            proof {
                assert(all.skip(k as int).remove(0) =~= all.skip(k + 1));
                assert(all[k as int] == (f, s));
                assert(fds[k as int] == (f, d));
                assert(fds.take(k + 1) =~= pre.push((f, d)));
                lemma_bucket_step(m0, pre, f, d, t0, k0, c0, size);
                assert(groups_map(gs).contains_key(d) == seen(m0, pre, d));
                assert(t0 + size * (j + 1) == t0 + size * j + size) by (nonlinear_arith);
                lemma_inc_ok_counts(&st0, ext_name(f));
            }
            if !self.process_candidate(size, f, s, stats, &mut vsingles) {
                proof {
                    assert(!bucket_fits(m0, t0, k0, c0, size, fds.take(k + 1)));
                    if bucket_fits(m0, t0, k0, c0, size, fds) {
                        lemma_bucket_fits_prefix(m0, t0, k0, c0, size, fds, k + 1);
                    }
                }
                return false;
            }
            proof {
                if seen(m0, pre, d) {
                    lemma_counted_counts(&st0, &*stats, ext_name(f));
                    assert(count_exts(c0, joined_exts(m0, pre).push(ext_name(f))) == count_ext(
                        count_exts(c0, joined_exts(m0, pre)),
                        ext_name(f),
                    )) by {
                        assert(joined_exts(m0, pre).push(ext_name(f)).drop_last() =~= joined_exts(m0, pre));
                    }
                } else {
                    assert(digests(vsingles@) =~= digests(v0).push(d));
                }
            }
            k = k + 1;
        }
        proof {
            assert(fds.take(n as int) =~= fds);
            lemma_new_keys(m0, fds);
            let nk = new_keys(m0, fds);
            assert forall|i: int| 0 <= i < nk.len() implies groups_after(m0, fds).contains_key(#[trigger] nk[i]) by {
                assert(nk.contains(nk[i]));
            }
            assert(crate::reclaim::singles_once(groups_after(m0, fds), nk));
        }
        if !self.can_remove_single_entries(&vsingles) {
            return false;
        }
        let ghost before = self.duplicate_files.seq();
        self.remove_single_entries(vsingles);
        proof {
            lemma_bucket_groups(m0, fds);
            use_type_invariant(&self.duplicate_files);
            let fin = self.duplicate_files.seq();
            let og = old(self).duplicate_files.seq();
            if all_groups_multi(og) {
                assert forall|i: int| 0 <= i < fin.len() implies (#[trigger] fin[i]).files@.len() >= 2 by {
                    lemma_key_index(fin, i);
                    let key = fin[i].key@;
                    if m0.contains_key(key) {
                        let oi = crate::groups::key_index(og, key);
                        lemma_key_index(og, oi);
                    }
                }
            }
        }
        true
    }

    /// The second pass over all the buckets of candidates, one after another
    /// as `process_bucket` takes them: `buckets` holds for each bucket its
    /// size and its files that could be read, with the SHA-256 computations
    /// fed their contents.
    ///
    /// It succeeds exactly when no count overflows on the way, and then the
    /// state is the one `pass_after` gives; when every group held two files or
    /// more, every group still does, and the files beyond the first in each
    /// group keep their difference to the count of duplicates. When it fails,
    /// the buckets before the one whose counts would overflow have gone
    /// through.
    pub fn process_buckets(
        &mut self,
        buckets: Vec<(u64, Vec<(FileEntry, Sha256Stream)>)>,
        stats: &mut FileTypes,
    ) -> (done: bool)
        ensures
            done == pass_fits(pass_state(*old(self), *old(stats)), buckets_view(buckets@)),
            done ==> pass_state(*final(self), *final(stats)) == pass_after(
                pass_state(*old(self), *old(stats)),
                buckets_view(buckets@),
            ),
            done ==> dup_excess(final(self).duplicate_files.seq()) - final(self).confirmed_dups == dup_excess(
                old(self).duplicate_files.seq(),
            ) - old(self).confirmed_dups,
            done && all_groups_multi(old(self).duplicate_files.seq()) ==> all_groups_multi(
                final(self).duplicate_files.seq(),
            ),
            final(self).unique_files0 == old(self).unique_files0,
            final(self).empty_folders == old(self).empty_folders,
            final(self).files_processed == old(self).files_processed,
    {
        let ghost st0 = pass_state(*self, *stats);
        let ghost all = buckets@;
        let ghost bv = buckets_view(buckets@);
        let ghost ex0 = dup_excess(self.duplicate_files.seq()) - self.confirmed_dups;
        let ghost multi0 = all_groups_multi(self.duplicate_files.seq());
        let mut rest = buckets;
        let n = rest.len();
        let mut k: usize = 0;
        proof {
            assert(all.skip(0) =~= all);
            assert(bv.take(0) =~= Seq::<(u64, Seq<(FileEntry, Seq<u8>)>)>::empty());
        }
        while k < n
            invariant
                n == all.len() == bv.len(),
                k <= n,
                all == buckets@,
                bv == buckets_view(all),
                rest@ == all.skip(k as int),
                st0 == pass_state(*old(self), *old(stats)),
                ex0 == dup_excess(old(self).duplicate_files.seq()) - old(self).confirmed_dups,
                multi0 == all_groups_multi(old(self).duplicate_files.seq()),
                pass_state(*self, *stats) == pass_after(st0, bv.take(k as int)),
                pass_fits(st0, bv.take(k as int)),
                dup_excess(self.duplicate_files.seq()) - self.confirmed_dups == ex0,
                multi0 ==> all_groups_multi(self.duplicate_files.seq()),
                self.unique_files0 == old(self).unique_files0,
                self.empty_folders == old(self).empty_folders,
                self.files_processed == old(self).files_processed,
            decreases n - k,
        {
            let ghost pre = bv.take(k as int);
            let ghost cur = pass_state(*self, *stats);
            let (size, files) = rest.remove(0);
            let ghost fds = hashed_view(files@);
            proof {
                assert(all.skip(k as int).remove(0) =~= all.skip(k + 1));
                assert(all[k as int] == (size, files));
                assert(bv[k as int] == (size, fds));
                assert(bv.take(k + 1) =~= pre.push((size, fds)));
                assert(pre.push((size, fds)).drop_last() =~= pre);
            }
            if !self.process_bucket(size, files, stats) {
                proof {
                    assert(!bucket_ok(cur, size, fds));
                    assert(!pass_fits(st0, bv.take(k + 1)));
                    if pass_fits(st0, bv) {
                        lemma_pass_fits_prefix(st0, bv, k + 1);
                    }
                }
                return false;
            }
            proof {
                assert(pass_state(*self, *stats) == bucket_state(cur, size, fds));
            }
            k = k + 1;
        }
        proof {
            assert(bv.take(n as int) =~= bv);
        }
        true
    }
}

} // verus!
