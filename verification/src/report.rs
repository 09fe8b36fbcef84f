use vstd::prelude::*;
use crate::groups::{FileEntry, DupGroup, keys_distinct, dup_excess, reordered};
use crate::digest::{
    le_value, be_value, first32, uint256_text_with, is_system_le, lemma_le_value_injective, lemma_be_value_injective,
};
use crate::text::{decimal, append_decimal, lemma_decimal_injective};
use crate::order::{is_stable_order, sort_order, lemma_first_has_least_key};
use crate::reclaim::ReclaimStorage;
use crate::script::{
    ScriptStyle, delete_statement, rmdir_statement, gen_delete_statement, gen_delete_empty_dir_statement, ext_spec,
    default_ext,
};

verus! {

/// The views of a list of strings.
pub open spec fn strings_view(v: Seq<String>) -> Seq<Seq<char>> {
    v.map_values(|s: String| s@)
}

/// The delete statements of one group, as (path, commented out): every file
/// of the group in order, the first one commented out so that it stays.
pub open spec fn group_plan(files: Seq<FileEntry>) -> Seq<(Seq<char>, bool)> {
    Seq::new(files.len(), |k: int| (files[k].path@, k == 0))
}

/// The delete statements for the groups, as (path, commented out): the
/// statements of each group of more than one file, group after group.
pub open spec fn deldup_plan(gs: Seq<DupGroup>) -> Seq<(Seq<char>, bool)>
    decreases gs.len(),
{
    if gs.len() == 0 {
        Seq::empty()
    } else {
        deldup_plan(gs.drop_last()) + if gs.last().files@.len() > 1 {
            group_plan(gs.last().files@)
        } else {
            Seq::empty()
        }
    }
}

/// The text of the statements of a plan.
pub open spec fn plan_text(plan: Seq<(Seq<char>, bool)>, style: ScriptStyle) -> Seq<Seq<char>> {
    plan.map_values(|e: (Seq<char>, bool)| delete_statement(style, e.0, e.1))
}

/// Group `new` is group `old` with its files in the order of a stable sort by
/// their ages, when it has more than one file, and unchanged otherwise.
pub open spec fn group_sorted_by_age(old: DupGroup, new: DupGroup, ages: Vec<u64>) -> bool {
    &&& new.key == old.key
    &&& old.files@.len() > 1 ==> ages@.len() == old.files@.len() && exists|p: Seq<usize>| is_stable_order(ages@, p)
        && reordered(old.files@, new.files@, p)
    &&& old.files@.len() <= 1 ==> new.files == old.files
}

/// The groups `new` are the groups `old`, each sorted by the ages of its files.
pub open spec fn sorted_by_age(old: Seq<DupGroup>, new: Seq<DupGroup>, ages: Seq<Vec<u64>>) -> bool {
    &&& new.len() == old.len()
    &&& forall|i: int| 0 <= i < old.len() ==> group_sorted_by_age(old[i], #[trigger] new[i], ages[i])
}

/// The number of statements of a plan that delete a file.
pub open spec fn count_deleted(plan: Seq<(Seq<char>, bool)>) -> nat
    decreases plan.len(),
{
    if plan.len() == 0 {
        0
    } else {
        count_deleted(plan.drop_last()) + if plan.last().1 { 0nat } else { 1nat }
    }
}

/// The number of statements of a plan that are commented out.
pub open spec fn count_kept(plan: Seq<(Seq<char>, bool)>) -> nat
    decreases plan.len(),
{
    if plan.len() == 0 {
        0
    } else {
        count_kept(plan.drop_last()) + if plan.last().1 { 1nat } else { 0nat }
    }
}

/// The number of groups of more than one file.
pub open spec fn multi_groups(gs: Seq<DupGroup>) -> nat
    decreases gs.len(),
{
    if gs.len() == 0 {
        0
    } else {
        multi_groups(gs.drop_last()) + if gs.last().files@.len() > 1 { 1nat } else { 0nat }
    }
}

proof fn lemma_counts_append(a: Seq<(Seq<char>, bool)>, b: Seq<(Seq<char>, bool)>)
    ensures
        count_deleted(a + b) == count_deleted(a) + count_deleted(b),
        count_kept(a + b) == count_kept(a) + count_kept(b),
    decreases b.len(),
{
    if b.len() == 0 {
        assert(a + b =~= a);
    } else {
        lemma_counts_append(a, b.drop_last());
        assert((a + b).drop_last() =~= a + b.drop_last());
        assert((a + b).last() == b.last());
    }
}

proof fn lemma_group_plan_counts(files: Seq<FileEntry>)
    requires
        files.len() >= 1,
    ensures
        count_deleted(group_plan(files)) == files.len() - 1,
        count_kept(group_plan(files)) == 1,
    decreases files.len(),
{
    let gp = group_plan(files);
    assert(gp.last() == gp[files.len() - 1]);
    assert(gp.last().1 == (files.len() == 1));
    assert(count_deleted(gp) == count_deleted(gp.drop_last()) + if gp.last().1 { 0nat } else { 1nat });
    assert(count_kept(gp) == count_kept(gp.drop_last()) + if gp.last().1 { 1nat } else { 0nat });
    if files.len() == 1 {
        assert(gp.drop_last() =~= Seq::<(Seq<char>, bool)>::empty());
    } else {
        lemma_group_plan_counts(files.drop_last());
        assert(gp.drop_last() =~= group_plan(files.drop_last()));
    }
}

/// The duplicate-deletion script keeps exactly one file of every group of
/// more than one file, commented out, and deletes all the others: the number
/// of files it deletes is the number of files beyond the first in each group.
pub proof fn lemma_script_keeps_one_per_group(gs: Seq<DupGroup>)
    requires
        forall|i: int| 0 <= i < gs.len() ==> (#[trigger] gs[i]).files@.len() >= 1,
    ensures
        count_deleted(deldup_plan(gs)) == dup_excess(gs),
        count_kept(deldup_plan(gs)) == multi_groups(gs),
    decreases gs.len(),
{
    if gs.len() > 0 {
        assert forall|i: int| 0 <= i < gs.drop_last().len() implies (#[trigger] gs.drop_last()[i]).files@.len() >= 1 by {
            assert(gs.drop_last()[i] == gs[i]);
        }
        lemma_script_keeps_one_per_group(gs.drop_last());
        let last = gs.last();
        assert(gs[gs.len() - 1] == last);
        let tail = if last.files@.len() > 1 { group_plan(last.files@) } else { Seq::empty() };
        lemma_counts_append(deldup_plan(gs.drop_last()), tail);
        if last.files@.len() > 1 {
            lemma_group_plan_counts(last.files@);
        } else {
            assert(count_deleted(Seq::<(Seq<char>, bool)>::empty()) == 0);
            assert(count_kept(Seq::<(Seq<char>, bool)>::empty()) == 0);
        }
    }
}

proof fn lemma_sorted_keeps_excess(old: Seq<DupGroup>, new: Seq<DupGroup>, ages: Seq<Vec<u64>>)
    requires
        sorted_by_age(old, new, ages),
    ensures
        dup_excess(new) == dup_excess(old),
        forall|i: int| 0 <= i < old.len() ==> (#[trigger] new[i]).files@.len() == old[i].files@.len(),
    decreases old.len(),
{
    assert forall|i: int| 0 <= i < old.len() implies (#[trigger] new[i]).files@.len() == old[i].files@.len() by {
        assert(group_sorted_by_age(old[i], new[i], ages[i]));
    }
    if old.len() > 0 {
        let n = old.len() - 1;
        assert(sorted_by_age(old.drop_last(), new.drop_last(), ages)) by {
            assert forall|i: int| 0 <= i < old.drop_last().len() implies group_sorted_by_age(
                old.drop_last()[i],
                #[trigger] new.drop_last()[i],
                ages[i],
            ) by {
                assert(old.drop_last()[i] == old[i]);
                assert(new.drop_last()[i] == new[i]);
            }
        }
        lemma_sorted_keeps_excess(old.drop_last(), new.drop_last(), ages);
        assert(new.last() == new[n]);
        assert(old.last() == old[n]);
    }
}

/// The script deletes exactly the files counted as duplicates: when the count
/// of confirmed duplicates is the number of files beyond the first in each
/// group (as it is from the start of a search, through every file processed
/// and every removal of single files), the groups sorted by age give a script
/// with that many delete statements.
pub proof fn lemma_script_deletes_confirmed_dups(
    gs: Seq<DupGroup>,
    sorted: Seq<DupGroup>,
    ages: Seq<Vec<u64>>,
    confirmed_dups: u64,
)
    requires
        forall|i: int| 0 <= i < gs.len() ==> (#[trigger] gs[i]).files@.len() >= 1,
        dup_excess(gs) == confirmed_dups,
        sorted_by_age(gs, sorted, ages),
    ensures
        count_deleted(deldup_plan(sorted)) == confirmed_dups,
{
    lemma_sorted_keeps_excess(gs, sorted, ages);
    assert forall|i: int| 0 <= i < sorted.len() implies (#[trigger] sorted[i]).files@.len() >= 1 by {
        assert(sorted[i].files@.len() == gs[i].files@.len());
    }
    lemma_script_keeps_one_per_group(sorted);
}


/// The statements of a group sorted by age: one per file, in the sorted
/// order, each for its file's path, and exactly one of them kept (commented
/// out), the statement of a file read most recently, which no file of the
/// group has an age below. Here `old` is the group before sorting, `ages` the
/// ages of its files, and `p` the stable order by age that put `old` in the
/// order `new`.
pub proof fn lemma_group_keeps_most_recent(old: Seq<FileEntry>, new: Seq<FileEntry>, ages: Seq<u64>, p: Seq<usize>)
    requires
        is_stable_order(ages, p),
        reordered(old, new, p),
        ages.len() == old.len(),
        old.len() >= 1,
    ensures
        group_plan(new).len() == new.len() == old.len(),
        forall|k: int| 0 <= k < new.len() ==> (#[trigger] group_plan(new)[k]).0 == new[k].path@,
        count_kept(group_plan(new)) == 1,
        count_deleted(group_plan(new)) == old.len() - 1,
        forall|k: int| 0 <= k < new.len() && (#[trigger] group_plan(new)[k]).1 ==> {
            &&& new[k] == old[p[k] as int]
            &&& forall|x: int| 0 <= x < ages.len() ==> ages[p[k] as int] <= #[trigger] ages[x]
        },
{
    lemma_first_has_least_key(ages, p);
    lemma_group_plan_counts(new);
}

/// The summed lengths of the reports of the groups of more than one file.
pub open spec fn multi_reports_len(gs: Seq<DupGroup>, little_endian: bool) -> nat
    decreases gs.len(),
{
    if gs.len() == 0 {
        0
    } else {
        multi_reports_len(gs.drop_last(), little_endian) + if gs.last().files@.len() > 1 {
            group_report(gs.last(), little_endian).len()
        } else {
            0nat
        }
    }
}

proof fn lemma_multi_reports_len_prefix(gs: Seq<DupGroup>, little_endian: bool, j: int)
    requires
        0 <= j <= gs.len(),
    ensures
        multi_reports_len(gs.take(j), little_endian) <= multi_reports_len(gs, little_endian),
    decreases gs.len(),
{
    if j < gs.len() {
        lemma_multi_reports_len_prefix(gs.drop_last(), little_endian, j);
        assert(gs.drop_last().take(j) =~= gs.take(j));
    } else {
        assert(gs.take(j) =~= gs);
    }
}

/// The duplicates report is made of the reports of all the groups of more
/// than one file, one after another in the order of the groups, and of
/// nothing else: its length is the sum of their lengths, and the report of
/// each such group stands in it where the reports of the groups before it
/// end.
pub proof fn lemma_report_shows_every_group(gs: Seq<DupGroup>, little_endian: bool)
    ensures
        groups_report(gs, little_endian).len() == multi_reports_len(gs, little_endian),
        forall|i: int|
            0 <= i < gs.len() && (#[trigger] gs[i]).files@.len() > 1 ==> groups_report(gs, little_endian).subrange(
                multi_reports_len(gs.take(i), little_endian) as int,
                (multi_reports_len(gs.take(i), little_endian) + group_report(gs[i], little_endian).len()) as int,
            ) == group_report(gs[i], little_endian),
    decreases gs.len(),
{
    if gs.len() > 0 {
        let prev = gs.drop_last();
        let n = gs.len() - 1;
        lemma_report_shows_every_group(prev, little_endian);
        let head = groups_report(prev, little_endian);
        let whole = groups_report(gs, little_endian);
        let tail = if gs.last().files@.len() > 1 {
            group_report(gs.last(), little_endian)
        } else {
            Seq::empty()
        };
        assert(whole == head + tail);
        assert forall|i: int|
            0 <= i < gs.len() && (#[trigger] gs[i]).files@.len() > 1 implies whole.subrange(
                multi_reports_len(gs.take(i), little_endian) as int,
                (multi_reports_len(gs.take(i), little_endian) + group_report(gs[i], little_endian).len()) as int,
            ) == group_report(gs[i], little_endian) by {
            if i < n {
                assert(prev[i] == gs[i]);
                assert(prev.take(i) =~= gs.take(i));
                let off = multi_reports_len(gs.take(i), little_endian) as int;
                let len = group_report(gs[i], little_endian).len() as int;
                lemma_multi_reports_len_prefix(prev, little_endian, i + 1);
                assert(prev.take(i + 1).drop_last() =~= prev.take(i));
                assert(prev.take(i + 1).last() == gs[i]);
                assert(off + len <= head.len());
                assert(head.subrange(off, off + len) == group_report(gs[i], little_endian));
                assert(whole.subrange(off, off + len) =~= head.subrange(off, off + len));
            } else {
                assert(gs.take(i) =~= prev);
                assert(gs[i] == gs.last());
                assert(whole.subrange(head.len() as int, (head.len() + tail.len()) as int) =~= tail);
            }
        }
    }
}

/// The decimal text of the number a digest reads as, in the given byte order.
pub open spec fn key_text(k: Seq<u8>, little_endian: bool) -> Seq<char> {
    if little_endian {
        decimal(le_value(k))
    } else {
        decimal(be_value(first32(k)))
    }
}

/// The key shown for a group tells its digest: two digests of 32 bytes have
/// the same key text, read in either byte order, exactly when they are equal.
pub proof fn lemma_key_text_identifies_digest(d1: Seq<u8>, d2: Seq<u8>, little_endian: bool)
    requires
        d1.len() == 32,
        d2.len() == 32,
    ensures
        key_text(d1, little_endian) == key_text(d2, little_endian) <==> d1 == d2,
{
    if key_text(d1, little_endian) == key_text(d2, little_endian) {
        if little_endian {
            lemma_decimal_injective(le_value(d1), le_value(d2));
            lemma_le_value_injective(d1, d2);
        } else {
            assert(first32(d1) == d1 && first32(d2) == d2);
            lemma_decimal_injective(be_value(d1), be_value(d2));
            lemma_be_value_injective(d1, d2);
        }
    }
}

/// The paths of the files, one per line.
pub open spec fn path_lines(files: Seq<FileEntry>) -> Seq<char>
    decreases files.len(),
{
    if files.len() == 0 {
        Seq::empty()
    } else {
        path_lines(files.drop_last()) + files.last().path@ + "\n"@
    }
}

/// The report of one group: its key, then the names of its files.
pub open spec fn group_report(g: DupGroup, little_endian: bool) -> Seq<char> {
    "KEY: "@ + key_text(g.key@, little_endian) + "\n"@ + " "@ + "File names:\n"@ + path_lines(g.files@) + "\n"@
}

/// The reports of the groups of more than one file, in order.
pub open spec fn groups_report(gs: Seq<DupGroup>, little_endian: bool) -> Seq<char>
    decreases gs.len(),
{
    if gs.len() == 0 {
        Seq::empty()
    } else {
        groups_report(gs.drop_last(), little_endian) + if gs.last().files@.len() > 1 {
            group_report(gs.last(), little_endian)
        } else {
            Seq::empty()
        }
    }
}

/// The report on the duplicates: the reports of the groups, or a line saying
/// that none was found when there are no groups.
pub open spec fn duplicates_report(gs: Seq<DupGroup>, little_endian: bool) -> Seq<char> {
    if gs.len() == 0 {
        "No duplicate found.\n"@
    } else {
        groups_report(gs, little_endian)
    }
}

/// The summary of a search for duplicates.
pub open spec fn dup_stats(files_processed: u64, confirmed_dups: u64, total_reclaim: u64, style: ScriptStyle) -> Seq<
    char,
> {
    "Total no. of files processes: "@ + decimal(files_processed as nat) + "\n"@ + "Total no. of duplicate files: "@
        + decimal(confirmed_dups as nat) + "\n"@ + "Total amount of disk space can be reclaimed: "@ + decimal(
        (total_reclaim as nat) / 1048576,
    ) + "MB\n"@ + "To reclaimed the disk space run this generated script file \"deleteduplicates."@ + ext_spec(style)
        + "\"\n. You may review the script before before running it\n"@
}

/// The summary of a search for empty folders.
pub open spec fn empty_stats(files_processed: u64, confirmed_dups: u64, style: ScriptStyle) -> Seq<char> {
    "Total no. of folders processes: "@ + decimal(files_processed as nat) + "\n"@ + "Total no. of empty folders found: "@
        + decimal(confirmed_dups as nat) + "\n"@ + "To remove the empty folders run this generated script file \"delemptyfolders."@
        + ext_spec(style) + "\"\n. You may review the script before before running it\n"@
}

impl ReclaimStorage {
    /// The statements of the duplicate-deletion script. The files of each
    /// group of more than one file are first put in the order of a stable sort
    /// by their ages (`ages[i]` holds the ages of the files of group `i`), so
    /// that the file read most recently comes first; that file's statement is
    /// commented out and every other file of the group is deleted.
    pub fn gen_deldup_batch(&mut self, style: ScriptStyle, ages: &Vec<Vec<u64>>) -> (statements: Vec<String>)
        requires
            ages@.len() == old(self).duplicate_files.seq().len(),
            forall|i: int| 0 <= i < ages@.len() && old(self).duplicate_files.seq()[i].files@.len() > 1 ==> (
            #[trigger] ages@[i])@.len() == old(self).duplicate_files.seq()[i].files@.len(),
        ensures
            sorted_by_age(old(self).duplicate_files.seq(), final(self).duplicate_files.seq(), ages@),
            strings_view(statements@) == plan_text(deldup_plan(final(self).duplicate_files.seq()), style),
            final(self).unique_files0 == old(self).unique_files0,
            final(self).empty_folders == old(self).empty_folders,
            final(self).files_processed == old(self).files_processed,
            final(self).possible_dup_files == old(self).possible_dup_files,
            final(self).confirmed_dups == old(self).confirmed_dups,
            final(self).total_reclaim == old(self).total_reclaim,
    {
        proof {
            use_type_invariant(&self.duplicate_files);
        }
        let ghost gs0 = self.duplicate_files.seq();
        let mut out: Vec<String> = Vec::new();
        let n = self.duplicate_files.len();
        let mut i: usize = 0;
        while i < n
            invariant
                n == gs0.len(),
                i <= n,
                ages@.len() == n,
                forall|j: int| 0 <= j < n && gs0[j].files@.len() > 1 ==> (#[trigger] ages@[j])@.len()
                    == gs0[j].files@.len(),
                keys_distinct(self.duplicate_files.seq()),
                self.duplicate_files.seq().len() == n,
                forall|j: int| i <= j < n ==> #[trigger] self.duplicate_files.seq()[j] == gs0[j],
                sorted_by_age(gs0.take(i as int), self.duplicate_files.seq().take(i as int), ages@),
                strings_view(out@) == plan_text(deldup_plan(self.duplicate_files.seq().take(i as int)), style),
                self.unique_files0 == old(self).unique_files0,
                self.empty_folders == old(self).empty_folders,
                self.files_processed == old(self).files_processed,
                self.possible_dup_files == old(self).possible_dup_files,
                self.confirmed_dups == old(self).confirmed_dups,
                self.total_reclaim == old(self).total_reclaim,
            decreases n - i,
        {
            let ghost before = self.duplicate_files.seq();
            proof {
                assert(before[i as int] == gs0[i as int]);
            }
            let len = self.duplicate_files.as_vec()[i].files.len();
            if len > 1 {
                let order = sort_order(&ages[i]);
                self.duplicate_files.reorder_files(i, &order);
                let ghost after = self.duplicate_files.seq();
                let ghost plan0 = deldup_plan(after.take(i as int));
                proof {
                    assert(after.take(i as int) =~= before.take(i as int));
                }
                let mut k: usize = 0;
                while k < len
                    invariant
                        k <= len,
                        after == self.duplicate_files.seq(),
                        i < after.len(),
                        len == after[i as int].files@.len(),
                        strings_view(out@) == plan_text(plan0, style) + plan_text(
                            group_plan(after[i as int].files@).take(k as int),
                            style,
                        ),
                    decreases len - k,
                {
                    let st = gen_delete_statement(
                        style,
                        self.duplicate_files.as_vec()[i].files[k].path.as_str(),
                        k == 0,
                    );
                    let ghost out0 = out@;
                    let ghost st_view = st@;
                    out.push(st);
                    proof {
                        let gp = group_plan(after[i as int].files@);
                        assert(strings_view(out@) =~= strings_view(out0).push(st_view));
                        assert(gp[k as int] == (after[i as int].files@[k as int].path@, k == 0));
                        assert(plan_text(gp.take(k + 1), style) =~= plan_text(gp.take(k as int), style).push(
                            delete_statement(style, gp[k as int].0, gp[k as int].1),
                        ));
                        assert(gp.take(k + 1) =~= gp.take(k as int).push(gp[k as int]));
                        assert(strings_view(out@) =~= plan_text(plan0, style) + plan_text(gp.take(k + 1), style));
                    }
                    k = k + 1;
                }
                proof {
                    let gp = group_plan(after[i as int].files@);
                    assert(gp.take(len as int) =~= gp);
                    assert(after.take(i + 1).drop_last() =~= after.take(i as int));
                    assert(after.take(i + 1).last() == after[i as int]);
                    assert(plan_text(plan0, style) + plan_text(gp, style) =~= plan_text(plan0 + gp, style));
                    assert(is_stable_order(ages@[i as int]@, order@));
                    assert(reordered(gs0[i as int].files@, after[i as int].files@, order@));
                    assert(group_sorted_by_age(gs0[i as int], after[i as int], ages@[i as int]));
                }
            } else {
                proof {
                    assert(before.take(i + 1).drop_last() =~= before.take(i as int));
                    assert(before.take(i + 1).last() == before[i as int]);
                    assert(plan_text(deldup_plan(before.take(i as int)), style) + plan_text(Seq::empty(), style)
                        =~= plan_text(deldup_plan(before.take(i as int)), style));
                    assert(deldup_plan(before.take(i as int)) + Seq::<(Seq<char>, bool)>::empty()
                        =~= deldup_plan(before.take(i as int)));
                }
            }
            proof {
                let cur = self.duplicate_files.seq();
                assert(group_sorted_by_age(gs0[i as int], cur[i as int], ages@[i as int]));
                assert forall|j: int| 0 <= j < i + 1 implies group_sorted_by_age(
                    gs0.take(i + 1)[j],
                    #[trigger] cur.take(i + 1)[j],
                    ages@[j],
                ) by {
                    if j < i {
                        assert(before.take(i as int)[j] == cur.take(i + 1)[j]);
                        assert(gs0.take(i as int)[j] == gs0.take(i + 1)[j]);
                    }
                }
            }
            i = i + 1;
        }
        proof {
            assert(self.duplicate_files.seq().take(n as int) =~= self.duplicate_files.seq());
            assert(gs0.take(n as int) =~= gs0);
        }
        out
    }

    /// The statements of the script that removes the empty folders found, in
    /// the order they were found.
    pub fn gen_delempty_batch(&self) -> (statements: Vec<String>)
        ensures
            strings_view(statements@) == self.empty_folders@.map_values(|p: String| rmdir_statement(p@)),
    {
        let mut out: Vec<String> = Vec::new();
        let mut i: usize = 0;
        while i < self.empty_folders.len()
            invariant
                i <= self.empty_folders@.len(),
                strings_view(out@) == self.empty_folders@.take(i as int).map_values(|p: String| rmdir_statement(p@)),
            decreases self.empty_folders@.len() - i,
        {
            let st = gen_delete_empty_dir_statement(self.empty_folders[i].as_str());
            let ghost out0 = out@;
            out.push(st);
            proof {
                assert(self.empty_folders@.take(i + 1) =~= self.empty_folders@.take(i as int).push(self.empty_folders@[i as int]));
                assert(strings_view(out@) =~= strings_view(out0).push(rmdir_statement(self.empty_folders@[i as int]@)));
                assert(strings_view(out@) =~= self.empty_folders@.take(i + 1).map_values(|p: String| rmdir_statement(p@)));
            }
            i = i + 1;
        }
        proof {
            assert(self.empty_folders@.take(self.empty_folders@.len() as int) =~= self.empty_folders@);
        }
        out
    }

    /// The report on the duplicates, with digests read in the given byte order.
    pub fn show_duplicates_with(&self, little_endian: bool) -> (text: String)
        ensures
            text@ == duplicates_report(self.duplicate_files.seq(), little_endian),
    {
        let groups = self.duplicate_files.as_vec();
        if groups.len() == 0 {
            return String::from_str("No duplicate found.\n");
        }
        let mut text = String::new();
        let mut i: usize = 0;
        while i < groups.len()
            invariant
                groups@ == self.duplicate_files.seq(),
                i <= groups@.len(),
                text@ == groups_report(groups@.take(i as int), little_endian),
            decreases groups@.len() - i,
        {
            let g = &groups[i];
            let ghost text0 = text@;
            if g.files.len() > 1 {
                text.append("KEY: ");
                let key = uint256_text_with(g.key.as_slice(), little_endian);
                text.append(key.as_str());
                text.append("\n");
                text.append(" ");
                text.append("File names:\n");
                let ghost head = text@;
                let mut k: usize = 0;
                while k < g.files.len()
                    invariant
                        k <= g.files@.len(),
                        text@ == head + path_lines(g.files@.take(k as int)),
                    decreases g.files@.len() - k,
                {
                    text.append(g.files[k].path.as_str());
                    text.append("\n");
                    proof {
                        assert(g.files@.take(k + 1).drop_last() =~= g.files@.take(k as int));
                        assert(g.files@.take(k + 1).last() == g.files@[k as int]);
                        assert(text@ =~= head + path_lines(g.files@.take(k + 1)));
                    }
                    k = k + 1;
                }
                text.append("\n");
                proof {
                    assert(g.files@.take(g.files@.len() as int) =~= g.files@);
                    assert(text@ =~= text0 + group_report(*g, little_endian));
                }
            }
            proof {
                assert(groups@.take(i + 1).drop_last() =~= groups@.take(i as int));
                assert(groups@.take(i + 1).last() == groups@[i as int]);
                assert(text@ =~= groups_report(groups@.take(i + 1), little_endian));
            }
            i = i + 1;
        }
        proof {
            assert(groups@.take(groups@.len() as int) =~= groups@);
        }
        text
    }

    /// The report on the duplicates, with digests read in the machine's byte
    /// order, which is little-endian or big-endian.
    pub fn show_duplicates(&self) -> (text: String)
        ensures
            text@ == duplicates_report(self.duplicate_files.seq(), true) || text@ == duplicates_report(
                self.duplicate_files.seq(),
                false,
            ),
    {
        self.show_duplicates_with(is_system_le())
    }

    /// The summary of a search for duplicates.
    pub fn dup_stats_text(&self, style: ScriptStyle) -> (text: String)
        ensures
            text@ == dup_stats(self.files_processed, self.confirmed_dups, self.total_reclaim, style),
    {
        let mut text = String::from_str("Total no. of files processes: ");
        append_decimal(&mut text, self.files_processed);
        text.append("\n");
        text.append("Total no. of duplicate files: ");
        append_decimal(&mut text, self.confirmed_dups);
        text.append("\n");
        text.append("Total amount of disk space can be reclaimed: ");
        append_decimal(&mut text, self.total_reclaim / (1024 * 1024));
        text.append("MB\n");
        text.append("To reclaimed the disk space run this generated script file \"deleteduplicates.");
        text.append(default_ext(style));
        text.append("\"\n. You may review the script before before running it\n");
        proof {
            assert(text@ =~= dup_stats(self.files_processed, self.confirmed_dups, self.total_reclaim, style));
        }
        text
    }

    /// The summary of a search for empty folders.
    pub fn empty_stats_text(&self, style: ScriptStyle) -> (text: String)
        ensures
            text@ == empty_stats(self.files_processed, self.confirmed_dups, style),
    {
        let mut text = String::from_str("Total no. of folders processes: ");
        append_decimal(&mut text, self.files_processed);
        text.append("\n");
        text.append("Total no. of empty folders found: ");
        append_decimal(&mut text, self.confirmed_dups);
        text.append("\n");
        text.append("To remove the empty folders run this generated script file \"delemptyfolders.");
        text.append(default_ext(style));
        text.append("\"\n. You may review the script before before running it\n");
        proof {
            assert(text@ =~= empty_stats(self.files_processed, self.confirmed_dups, style));
        }
        text
    }
}

} // verus!
