use vstd::prelude::*;
use crate::counts::{CountTable, table_total};
use crate::jsontypes::Jsontypes;

verus! {

/// A category of file types: its name, the extensions that belong to it, and
/// how many duplicates of it were found.
pub struct Category {
    pub name: String,
    pub exts: Vec<String>,
    pub count: u64,
}

/// Some extension in `exts` is `e`.
pub open spec fn exts_contain(exts: Seq<String>, e: Seq<char>) -> bool {
    exists|j: int| 0 <= j < exts.len() && exts[j]@ == e
}

/// Category `i` is the first that lists extension `e`.
pub open spec fn is_first_category(cats: Seq<Category>, e: Seq<char>, i: int) -> bool {
    &&& 0 <= i < cats.len()
    &&& exts_contain(cats[i].exts@, e)
    &&& forall|j: int| 0 <= j < i ==> !exts_contain(#[trigger] cats[j].exts@, e)
}

/// Some category lists extension `e`.
pub open spec fn category_listed(cats: Seq<Category>, e: Seq<char>) -> bool {
    exists|i: int| #[trigger] is_first_category(cats, e, i)
}

/// No category lists extension `e`.
pub open spec fn no_category(cats: Seq<Category>, e: Seq<char>) -> bool {
    forall|j: int| 0 <= j < cats.len() ==> !exts_contain(#[trigger] cats[j].exts@, e)
}

/// The category counts can be raised for extension `e` without overflow, and
/// the category that lists it is in the category totals.
pub open spec fn category_inc_ok(cats: Seq<Category>, totals: Map<Seq<char>, u64>, e: Seq<char>) -> bool {
    forall|i: int| #[trigger] is_first_category(cats, e, i) ==> {
        &&& cats[i].count < u64::MAX
        &&& totals.contains_key(cats[i].name@)
        &&& totals[cats[i].name@] < u64::MAX
    }
}

/// The per-category counts agree with the category totals, and no two
/// categories share a name.
pub open spec fn categories_agree(cats: Seq<Category>, totals: Map<Seq<char>, u64>) -> bool {
    &&& forall|i: int, j: int| 0 <= i < cats.len() && 0 <= j < cats.len() && i != j ==> cats[i].name@ != cats[j].name@
    &&& forall|i: int| 0 <= i < cats.len() ==> totals.contains_key((#[trigger] cats[i]).name@)
        && totals[cats[i].name@] == cats[i].count
}

/// The entries of a count table as (name, count).
pub open spec fn pairs_view(v: Seq<(String, u64)>) -> Seq<(Seq<char>, u64)> {
    v.map_values(|e: (String, u64)| (e.0@, e.1))
}

/// The entries whose count is not zero, in order, as (name, count).
pub open spec fn nonzero_counts(s: Seq<(String, u64)>) -> Seq<(Seq<char>, u64)>
    decreases s.len(),
{
    if s.len() == 0 {
        Seq::empty()
    } else if s.last().1 != 0 {
        nonzero_counts(s.drop_last()).push((s.last().0@, s.last().1))
    } else {
        nonzero_counts(s.drop_last())
    }
}

/// The indices of the entries whose count is not zero, in order.
spec fn nonzero_indices(s: Seq<(String, u64)>) -> Seq<int>
    decreases s.len(),
{
    if s.len() == 0 {
        Seq::empty()
    } else if s.last().1 != 0 {
        nonzero_indices(s.drop_last()).push(s.len() - 1)
    } else {
        nonzero_indices(s.drop_last())
    }
}

proof fn lemma_nonzero_indices(s: Seq<(String, u64)>)
    ensures
        nonzero_indices(s).len() == nonzero_counts(s).len(),
        forall|a: int, b: int| 0 <= a < b < nonzero_indices(s).len() ==> nonzero_indices(s)[a] < nonzero_indices(s)[b],
        forall|k: int| 0 <= k < nonzero_indices(s).len() ==> {
            let j = #[trigger] nonzero_indices(s)[k];
            &&& 0 <= j < s.len()
            &&& s[j].1 != 0
            &&& nonzero_counts(s)[k] == (s[j].0@, s[j].1)
        },
        forall|j: int| 0 <= j < s.len() && (#[trigger] s[j]).1 != 0 ==> nonzero_indices(s).contains(j),
    decreases s.len(),
{
    if s.len() > 0 {
        let p = s.drop_last();
        lemma_nonzero_indices(p);
        let n = s.len() - 1;
        assert forall|k: int| 0 <= k < nonzero_indices(p).len() implies nonzero_indices(p)[k] < n by {
            let j = nonzero_indices(p)[k];
            assert(0 <= j < p.len());
        }
        assert forall|j: int| 0 <= j < s.len() && (#[trigger] s[j]).1 != 0 implies nonzero_indices(s).contains(j) by {
            if j < n {
                assert(p[j] == s[j]);
                let k = choose|k: int| 0 <= k < nonzero_indices(p).len() && nonzero_indices(p)[k] == j;
                assert(nonzero_indices(s)[k] == j);
            } else {
                assert(nonzero_indices(s)[nonzero_indices(s).len() - 1] == j);
            }
        }
        assert forall|k: int| 0 <= k < nonzero_indices(s).len() implies {
            let j = #[trigger] nonzero_indices(s)[k];
            &&& 0 <= j < s.len()
            &&& s[j].1 != 0
            &&& nonzero_counts(s)[k] == (s[j].0@, s[j].1)
        } by {
            if k < nonzero_indices(p).len() {
                let j = nonzero_indices(p)[k];
                assert(p[j] == s[j]);
            }
        }
    }
}

/// `r` lists the entries of `s` at the indices `idx`, as (name, count): the
/// indices increase, each entry listed has a count that is not zero, and
/// every entry whose count is not zero is listed.
pub open spec fn lists_nonzero_entries(s: Seq<(String, u64)>, idx: Seq<int>, r: Seq<(Seq<char>, u64)>) -> bool {
    &&& idx.len() == r.len()
    &&& forall|a: int, b: int| 0 <= a < b < idx.len() ==> idx[a] < idx[b]
    &&& forall|k: int|
        0 <= k < idx.len() ==> 0 <= #[trigger] idx[k] < s.len() && s[idx[k]].1 != 0 && r[k] == (s[idx[k]].0@, s[idx[k]].1)
    &&& forall|j: int| 0 <= j < s.len() && (#[trigger] s[j]).1 != 0 ==> idx.contains(j)
}

/// The distribution of duplicates lists the category totals that are not
/// zero, all of them and only them, in the order of the table: there is an
/// increasing choice of table entries, covering every entry whose count is
/// not zero, whose (name, count) pairs are what is listed.
pub proof fn lemma_nonzero_counts_lists_every_nonzero(s: Seq<(String, u64)>)
    ensures
        exists|idx: Seq<int>| #[trigger] lists_nonzero_entries(s, idx, nonzero_counts(s)),
        forall|j: int| 0 <= j < s.len() && (#[trigger] s[j]).1 != 0 ==> nonzero_counts(s).contains((s[j].0@, s[j].1)),
{
    lemma_nonzero_indices(s);
    let idx = nonzero_indices(s);
    assert(lists_nonzero_entries(s, idx, nonzero_counts(s)));
    assert forall|j: int| 0 <= j < s.len() && (#[trigger] s[j]).1 != 0 implies nonzero_counts(s).contains(
        (s[j].0@, s[j].1),
    ) by {
        assert(idx.contains(j));
        let k = choose|k: int| 0 <= k < idx.len() && idx[k] == j;
        assert(nonzero_counts(s)[k] == (s[j].0@, s[j].1));
    }
}

/// Counts of the file types seen among duplicates: known extensions, unknown
/// extensions, and categories.
pub struct FileTypes {
    pub ft: CountTable,
    pub uft: CountTable,
    pub known_types: Vec<Category>,
    pub known_cat: CountTable,
    pub others: u64,
}

impl FileTypes {
    /// A counter whose extension table and categories come from `jt`, with no
    /// unknown extensions counted yet.
    pub fn new(jt: Jsontypes) -> (r: Self)
        ensures
            r.ft == jt.ft,
            r.known_types@ == jt.known_types@,
            r.known_cat == jt.known_cat,
            r.uft@ == Map::<Seq<char>, u64>::empty(),
            r.others == 0,
            r.wf() == jt.wf(),
    {
        FileTypes {
            ft: jt.ft,
            uft: CountTable::new(),
            known_types: jt.known_types,
            known_cat: jt.known_cat,
            others: 0,
        }
    }

    /// The categories are well formed: no two share a name, and the category
    /// totals hold each category's name with its count.
    pub open spec fn wf(&self) -> bool {
        categories_agree(self.known_types@, self.known_cat@)
    }

    /// What the distribution of duplicates shows: the category totals that are
    /// not zero, in the order of the table, and the count of other files when
    /// it is not zero.
    pub fn distribution(&self) -> (r: (Vec<(String, u64)>, Option<u64>))
        ensures
            pairs_view(r.0@) == nonzero_counts(self.known_cat.seq()),
            r.1 == (if self.others != 0 { Some(self.others) } else { None::<u64> }),
    {
        let entries = self.known_cat.entries();
        let mut shown: Vec<(String, u64)> = Vec::new();
        let mut i: usize = 0;
        while i < entries.len()
            invariant
                entries@ == self.known_cat.seq(),
                i <= entries@.len(),
                pairs_view(shown@) == nonzero_counts(entries@.take(i as int)),
            decreases entries@.len() - i,
        {
            let ghost before = shown@;
            proof {
                assert(entries@.take(i + 1).drop_last() =~= entries@.take(i as int));
                assert(entries@.take(i + 1).last() == entries@[i as int]);
            }
            if entries[i].1 != 0 {
                shown.push((entries[i].0.clone(), entries[i].1));
                proof {
                    assert(pairs_view(shown@) =~= pairs_view(before).push((entries@[i as int].0@, entries@[i as int].1)));
                }
            }
            i = i + 1;
        }
        proof {
            assert(entries@.take(entries@.len() as int) =~= entries@);
        }
        let others = if self.others != 0 {
            Some(self.others)
        } else {
            None
        };
        (shown, others)
    }

    /// Counting extension `e` cannot overflow.
    pub open spec fn inc_ok(&self, e: Seq<char>) -> bool {
        if self.ft@.contains_key(e) {
            &&& self.ft@[e] < u64::MAX
            &&& category_inc_ok(self.known_types@, self.known_cat@, e)
        } else {
            self.others < u64::MAX
        }
    }

    /// Whether counting extension `ext` cannot overflow.
    pub fn can_inc(&self, ext: &String) -> (r: bool)
        ensures
            r == self.inc_ok(ext@),
    {
        match self.ft.get(ext) {
            Some(c) => c < u64::MAX && self.category_can_inc(ext),
            None => self.others < u64::MAX,
        }
    }

    fn category_can_inc(&self, ext: &String) -> (r: bool)
        ensures
            r == category_inc_ok(self.known_types@, self.known_cat@, ext@),
    {
        match first_category(&self.known_types, ext) {
            Some(i) => {
                let cat = &self.known_types[i];
                let ok = cat.count < u64::MAX && match self.known_cat.get(&cat.name) {
                    Some(t) => t < u64::MAX,
                    None => false,
                };
                proof {
                    assert forall|j: int| #[trigger] is_first_category(self.known_types@, ext@, j)
                        implies j == i by {
                        if j < i {
                            assert(!exts_contain(self.known_types@[j].exts@, ext@));
                        } else if j > i {
                            assert(!exts_contain(self.known_types@[i as int].exts@, ext@));
                        }
                    }
                }
                ok
            },
            None => {
                true
            },
        }
    }

    /// Counts a duplicate with extension `ext`. A known extension has its count
    /// raised by one, and so has the first category that lists it, in both
    /// category tables. An unknown extension is recorded with count 1 among the
    /// unknown ones, and the count of other files is raised by one.
    pub fn inc(&mut self, ext: String)
        requires
            old(self).inc_ok(ext@),
        ensures
            counted(&*old(self), &*final(self), ext@),
            old(self).wf() ==> final(self).wf(),
            table_total(final(self).ft.seq()) + final(self).others == table_total(old(self).ft.seq()) + old(
                self,
            ).others + 1,
            table_total(final(self).known_cat.seq()) == table_total(old(self).known_cat.seq()) + if old(
                self,
            ).ft@.contains_key(ext@) && category_listed(old(self).known_types@, ext@) {
                1int
            } else {
                0int
            },
            final(self).ft@.dom() == old(self).ft@.dom(),
            final(self).known_cat@.dom() == old(self).known_cat@.dom(),
            final(self).known_types@.len() == old(self).known_types@.len(),
            forall|i: int| 0 <= i < old(self).known_types@.len() ==> (#[trigger] final(self).known_types@[i]).name
                == old(self).known_types@[i].name && final(self).known_types@[i].exts == old(
                self,
            ).known_types@[i].exts,
    {
        if self.ft.get(&ext).is_some() {
            self.ft.increment(&ext);
            self.inc_category(ext);
            assert(self.ft@.dom() =~= old(self).ft@.dom());
        } else {
            self.uft.set(ext, 1);
            self.others = self.others + 1;
        }
    }

    /// Raises by one the count of the first category that lists `ext`, both
    /// in that category and in the category totals; nothing changes when no
    /// category lists it.
    pub fn inc_category(&mut self, ext: String)
        requires
            category_inc_ok(old(self).known_types@, old(self).known_cat@, ext@),
        ensures
            category_step(old(self).known_types@, old(self).known_cat@, final(self).known_types@,
                final(self).known_cat@, ext@),
            final(self).ft == old(self).ft,
            final(self).uft == old(self).uft,
            final(self).others == old(self).others,
            old(self).wf() ==> final(self).wf(),
            table_total(final(self).known_cat.seq()) == table_total(old(self).known_cat.seq()) + if category_listed(
                old(self).known_types@,
                ext@,
            ) {
                1int
            } else {
                0int
            },
            final(self).known_cat@.dom() == old(self).known_cat@.dom(),
            final(self).known_types@.len() == old(self).known_types@.len(),
            forall|i: int| 0 <= i < old(self).known_types@.len() ==> (#[trigger] final(self).known_types@[i]).name
                == old(self).known_types@[i].name && final(self).known_types@[i].exts == old(
                self,
            ).known_types@[i].exts,
    {
        match first_category(&self.known_types, &ext) {
            Some(i) => {
                let ghost cats = self.known_types@;
                let ghost totals = self.known_cat@;
                let name = self.known_types[i].name.clone();
                let count = self.known_types[i].count;
                assert(is_first_category(cats, ext@, i as int));
                self.known_types[i].count = count + 1;
                self.known_cat.increment(&name);
                proof {
                    assert(self.known_cat@.dom() =~= totals.dom());
                    assert(self.known_types@ =~= cats.update(
                        i as int,
                        Category { name: cats[i as int].name, exts: cats[i as int].exts, count: (count + 1) as u64 },
                    ));
                    if categories_agree(cats, totals) {
                        let new_cats = self.known_types@;
                        let new_totals = self.known_cat@;
                        assert forall|j: int| 0 <= j < new_cats.len() implies new_totals.contains_key(
                            (#[trigger] new_cats[j]).name@,
                        ) && new_totals[new_cats[j].name@] == new_cats[j].count by {
                            if j != i {
                                assert(cats[j].name@ != cats[i as int].name@);
                            }
                        }
                    }
                }
            },
            None => {},
        }
    }
}

/// What counting extension `e` does: a known extension has its count raised
/// by one, and the categories take their step; an unknown extension is
/// recorded with count 1 among the unknown ones and the count of other files
/// is raised by one.
pub open spec fn counted(before: &FileTypes, after: &FileTypes, e: Seq<char>) -> bool {
    &&& before.ft@.contains_key(e) ==> {
        &&& after.ft@ == before.ft@.insert(e, (before.ft@[e] + 1) as u64)
        &&& category_step(before.known_types@, before.known_cat@, after.known_types@, after.known_cat@, e)
        &&& after.uft@ == before.uft@
        &&& after.others == before.others
    }
    &&& !before.ft@.contains_key(e) ==> {
        &&& after.ft@ == before.ft@
        &&& after.uft@ == before.uft@.insert(e, 1)
        &&& after.others == before.others + 1
        &&& after.known_types@ == before.known_types@
        &&& after.known_cat@ == before.known_cat@
    }
}

/// What counting extension `e` does to the categories: the first category that
/// lists `e` has its count raised by one, in the category and in the totals;
/// with no such category, nothing changes.
pub open spec fn category_step(
    cats: Seq<Category>,
    totals: Map<Seq<char>, u64>,
    new_cats: Seq<Category>,
    new_totals: Map<Seq<char>, u64>,
    e: Seq<char>,
) -> bool {
    if exists|i: int| #[trigger] is_first_category(cats, e, i) {
        let i = choose|i: int| #[trigger] is_first_category(cats, e, i);
        &&& new_cats == cats.update(
            i,
            Category { name: cats[i].name, exts: cats[i].exts, count: (cats[i].count + 1) as u64 },
        )
        &&& new_totals == totals.insert(cats[i].name@, (totals[cats[i].name@] + 1) as u64)
    } else {
        &&& new_cats == cats
        &&& new_totals == totals
    }
}

/// The counts that a `FileTypes` holds, as plain values: by known extension,
/// by unknown extension, the categories, the category totals and the count of
/// other files.
pub struct TypeCounts {
    pub ft: Map<Seq<char>, u64>,
    pub uft: Map<Seq<char>, u64>,
    pub cats: Seq<Category>,
    pub totals: Map<Seq<char>, u64>,
    pub others: u64,
}

/// The counts of `t`.
pub open spec fn type_counts(t: &FileTypes) -> TypeCounts {
    TypeCounts { ft: t.ft@, uft: t.uft@, cats: t.known_types@, totals: t.known_cat@, others: t.others }
}

/// Counting extension `e` on the counts `c` cannot overflow (as `inc_ok`).
pub open spec fn counts_inc_ok(c: TypeCounts, e: Seq<char>) -> bool {
    if c.ft.contains_key(e) {
        &&& c.ft[e] < u64::MAX
        &&& category_inc_ok(c.cats, c.totals, e)
    } else {
        c.others < u64::MAX
    }
}

/// The categories and totals after counting `e`: the first category that
/// lists `e` is raised by one in both; with none, nothing changes.
pub open spec fn categories_after(cats: Seq<Category>, totals: Map<Seq<char>, u64>, e: Seq<char>) -> (
    Seq<Category>,
    Map<Seq<char>, u64>,
) {
    if exists|i: int| #[trigger] is_first_category(cats, e, i) {
        let i = choose|i: int| #[trigger] is_first_category(cats, e, i);
        (
            cats.update(i, Category { name: cats[i].name, exts: cats[i].exts, count: (cats[i].count + 1) as u64 }),
            totals.insert(cats[i].name@, (totals[cats[i].name@] + 1) as u64),
        )
    } else {
        (cats, totals)
    }
}

/// The counts after counting extension `e`, as `inc` does.
pub open spec fn count_ext(c: TypeCounts, e: Seq<char>) -> TypeCounts {
    if c.ft.contains_key(e) {
        TypeCounts {
            ft: c.ft.insert(e, (c.ft[e] + 1) as u64),
            uft: c.uft,
            cats: categories_after(c.cats, c.totals, e).0,
            totals: categories_after(c.cats, c.totals, e).1,
            others: c.others,
        }
    } else {
        TypeCounts { ft: c.ft, uft: c.uft.insert(e, 1), cats: c.cats, totals: c.totals, others: (c.others + 1) as u64 }
    }
}

/// The counts after counting the extensions `es` in order.
pub open spec fn count_exts(c: TypeCounts, es: Seq<Seq<char>>) -> TypeCounts
    decreases es.len(),
{
    if es.len() == 0 {
        c
    } else {
        count_ext(count_exts(c, es.drop_last()), es.last())
    }
}

/// What `counted` says of two `FileTypes` is that the counts of the second are
/// those of the first after counting `e`.
pub proof fn lemma_counted_counts(before: &FileTypes, after: &FileTypes, e: Seq<char>)
    requires
        counted(before, after, e),
    ensures
        type_counts(after) == count_ext(type_counts(before), e),
{
}

/// `inc_ok` is `counts_inc_ok` of the counts.
pub proof fn lemma_inc_ok_counts(t: &FileTypes, e: Seq<char>)
    ensures
        t.inc_ok(e) == counts_inc_ok(type_counts(t), e),
{
}

/// Whether `exts` lists `e`.
fn exts_contains(exts: &Vec<String>, e: &String) -> (r: bool)
    ensures
        r == exts_contain(exts@, e@),
{
    let mut j: usize = 0;
    while j < exts.len()
        invariant
            j <= exts@.len(),
            forall|k: int| 0 <= k < j ==> exts@[k]@ != e@,
        decreases exts@.len() - j,
    {
        if exts[j] == *e {
            return true;
        }
        j = j + 1;
    }
    false
}

/// The index of the first category that lists `e`, if any does.
fn first_category(cats: &Vec<Category>, e: &String) -> (r: Option<usize>)
    ensures
        match r {
            Some(i) => is_first_category(cats@, e@, i as int),
            None => no_category(cats@, e@),
        },
{
    let mut i: usize = 0;
    while i < cats.len()
        invariant
            i <= cats@.len(),
            forall|j: int| 0 <= j < i ==> !exts_contain(#[trigger] cats@[j].exts@, e@),
        decreases cats@.len() - i,
    {
        if exts_contains(&cats[i].exts, e) {
            return Some(i);
        }
        i = i + 1;
    }
    None
}

} // verus!
