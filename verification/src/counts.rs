use vstd::prelude::*;

verus! {

/// No two entries share a name.
pub open spec fn names_distinct(s: Seq<(String, u64)>) -> bool {
    forall|i: int, j: int| 0 <= i < s.len() && 0 <= j < s.len() && i != j ==> s[i].0@ != s[j].0@
}

/// Some entry has name `k`.
pub open spec fn has_name(s: Seq<(String, u64)>, k: Seq<char>) -> bool {
    exists|i: int| 0 <= i < s.len() && s[i].0@ == k
}

/// The index of the entry named `k`.
pub open spec fn name_index(s: Seq<(String, u64)>, k: Seq<char>) -> int {
    choose|i: int| 0 <= i < s.len() && s[i].0@ == k
}

/// The entries as a map from name to count.
pub open spec fn counts_map(s: Seq<(String, u64)>) -> Map<Seq<char>, u64> {
    Map::new(|k: Seq<char>| has_name(s, k), |k: Seq<char>| s[name_index(s, k)].1)
}

/// The entry at index `i` is the one its name maps to.
pub proof fn lemma_name_index(s: Seq<(String, u64)>, i: int)
    requires
        names_distinct(s),
        0 <= i < s.len(),
    ensures
        has_name(s, s[i].0@),
        name_index(s, s[i].0@) == i,
        counts_map(s).contains_key(s[i].0@),
        counts_map(s)[s[i].0@] == s[i].1,
{
    assert(has_name(s, s[i].0@));
}

/// The counts of the entries, summed.
pub open spec fn table_total(s: Seq<(String, u64)>) -> int
    decreases s.len(),
{
    if s.len() == 0 {
        0
    } else {
        table_total(s.drop_last()) + s.last().1
    }
}

/// Changing the count of one entry changes the sum by the difference.
pub proof fn lemma_table_total_update(s: Seq<(String, u64)>, i: int, e: (String, u64))
    requires
        0 <= i < s.len(),
    ensures
        table_total(s.update(i, e)) == table_total(s) - s[i].1 + e.1,
    decreases s.len(),
{
    if i == s.len() - 1 {
        assert(s.update(i, e).drop_last() =~= s.drop_last());
    } else {
        lemma_table_total_update(s.drop_last(), i, e);
        assert(s.update(i, e).drop_last() =~= s.drop_last().update(i, e));
    }
}

/// A table of counts keyed by name, each name at most once, in the order the
/// names were added.
pub struct CountTable {
    entries: Vec<(String, u64)>,
}

impl View for CountTable {
    type V = Map<Seq<char>, u64>;

    open spec fn view(&self) -> Map<Seq<char>, u64> {
        counts_map(self.seq())
    }
}

impl CountTable {
    #[verifier::type_invariant]
    spec fn wf(self) -> bool {
        names_distinct(self.entries@)
    }

    /// The entries, in order.
    pub closed spec fn seq(&self) -> Seq<(String, u64)> {
        self.entries@
    }

    /// An empty table.
    pub fn new() -> (t: Self)
        ensures
            t.seq() == Seq::<(String, u64)>::empty(),
            t@ == Map::<Seq<char>, u64>::empty(),
    {
        let t = CountTable { entries: Vec::new() };
        assert(t@ =~= Map::<Seq<char>, u64>::empty());
        t
    }

    /// A table holding the given entries, whose names are distinct.
    pub fn from_pairs(pairs: Vec<(String, u64)>) -> (t: Self)
        requires
            names_distinct(pairs@),
        ensures
            t.seq() == pairs@,
    {
        CountTable { entries: pairs }
    }

    /// The entries, in order.
    pub fn entries(&self) -> (r: &Vec<(String, u64)>)
        ensures
            r@ == self.seq(),
    {
        &self.entries
    }

    /// The number of entries.
    pub fn len(&self) -> (n: usize)
        ensures
            n == self.seq().len(),
    {
        self.entries.len()
    }

    /// The index of the entry named `key`, if there is one.
    pub fn position(&self, key: &String) -> (r: Option<usize>)
        ensures
            match r {
                Some(i) => i < self.seq().len() && self.seq()[i as int].0@ == key@
                    && self@.contains_key(key@) && self@[key@] == self.seq()[i as int].1,
                None => !self@.contains_key(key@),
            },
    {
        proof {
            use_type_invariant(self);
        }
        let mut i: usize = 0;
        while i < self.entries.len()
            invariant
                i <= self.entries@.len(),
                names_distinct(self.entries@),
                forall|j: int| 0 <= j < i ==> self.entries@[j].0@ != key@,
            decreases self.entries@.len() - i,
        {
            if self.entries[i].0 == *key {
                proof {
                    lemma_name_index(self.entries@, i as int);
                }
                return Some(i);
            }
            i = i + 1;
        }
        None
    }

    /// The count of `key`, if the table has it.
    pub fn get(&self, key: &String) -> (r: Option<u64>)
        ensures
            r == (if self@.contains_key(key@) { Some(self@[key@]) } else { None::<u64> }),
    {
        match self.position(key) {
            Some(i) => Some(self.entries[i].1),
            None => None,
        }
    }

    /// Sets the count of `key` to `v`, adding the name at the end if it is new.
    pub fn set(&mut self, key: String, v: u64)
        ensures
            final(self)@ == old(self)@.insert(key@, v),
            old(self)@.contains_key(key@) ==> final(self).seq() == old(self).seq().update(
                name_index(old(self).seq(), key@),
                (key, v),
            ),
            !old(self)@.contains_key(key@) ==> final(self).seq() == old(self).seq().push((key, v)),
    {
        proof {
            use_type_invariant(&*self);
        }
        let ghost k = key@;
        match self.position(&key) {
            Some(i) => {
                let ghost before = self.entries@;
                let mut es: Vec<(String, u64)> = Vec::new();
                std::mem::swap(&mut es, &mut self.entries);
                es.set(i, (key, v));
                let ghost after = es@;
                proof {
                    assert forall|a: int, b: int| 0 <= a < after.len() && 0 <= b < after.len() && a != b
                        implies after[a].0@ != after[b].0@ by {}
                }
                self.entries = es;
                proof {
                    lemma_name_index(after, i as int);
                    assert forall|q: Seq<char>| #[trigger] counts_map(after).contains_key(q)
                        == old(self)@.insert(k, v).contains_key(q) by {
                        if has_name(before, q) {
                            let j = name_index(before, q);
                            assert(after[j].0@ == q);
                        }
                        if has_name(after, q) {
                            let j = name_index(after, q);
                            if j != i {
                                assert(before[j].0@ == q);
                            }
                        }
                    }
                    assert forall|q: Seq<char>| #[trigger] counts_map(after).contains_key(q)
                        implies counts_map(after)[q] == old(self)@.insert(k, v)[q] by {
                        let j = name_index(after, q);
                        lemma_name_index(after, j);
                        if q != k {
                            assert(before[j].0@ == q);
                            lemma_name_index(before, j);
                        }
                    }
                    assert(counts_map(after) =~= old(self)@.insert(k, v));
                }
            },
            None => {
                let ghost before = self.entries@;
                let mut es: Vec<(String, u64)> = Vec::new();
                std::mem::swap(&mut es, &mut self.entries);
                es.push((key, v));
                let ghost after = es@;
                let ghost n = before.len() as int;
                proof {
                    assert forall|a: int, b: int| 0 <= a < after.len() && 0 <= b < after.len() && a != b
                        implies after[a].0@ != after[b].0@ by {
                        if a == n {
                            assert(!has_name(before, k));
                            if before[b].0@ == k {
                                assert(has_name(before, k));
                            }
                        } else if b == n {
                            if before[a].0@ == k {
                                assert(has_name(before, k));
                            }
                        }
                    }
                }
                self.entries = es;
                proof {
                    lemma_name_index(after, n);
                    assert forall|q: Seq<char>| #[trigger] counts_map(after).contains_key(q)
                        == old(self)@.insert(k, v).contains_key(q) by {
                        if has_name(before, q) {
                            let j = name_index(before, q);
                            assert(after[j].0@ == q);
                        }
                        if has_name(after, q) {
                            let j = name_index(after, q);
                            if j != n {
                                assert(before[j].0@ == q);
                            }
                        }
                    }
                    assert forall|q: Seq<char>| #[trigger] counts_map(after).contains_key(q)
                        implies counts_map(after)[q] == old(self)@.insert(k, v)[q] by {
                        let j = name_index(after, q);
                        lemma_name_index(after, j);
                        if q != k {
                            assert(before[j].0@ == q);
                            lemma_name_index(before, j);
                        }
                    }
                    assert(counts_map(after) =~= old(self)@.insert(k, v));
                }
            },
        }
    }

    /// Adds one to the count of `key`, which the table has.
    pub fn increment(&mut self, key: &String)
        requires
            old(self)@.contains_key(key@),
            old(self)@[key@] < u64::MAX,
        ensures
            final(self)@ == old(self)@.insert(key@, (old(self)@[key@] + 1) as u64),
            table_total(final(self).seq()) == table_total(old(self).seq()) + 1,
    {
        proof {
            use_type_invariant(&*self);
        }
        let c = self.get(key);
        let k = key.clone();
        match c {
            Some(c) => {
                let ghost s0 = self.seq();
                self.set(k, c + 1);
                proof {
                    let i = name_index(s0, key@);
                    lemma_name_index(s0, i);
                    lemma_table_total_update(s0, i, self.seq()[i]);
                }
            },
            None => {},
        }
    }
}

} // verus!
