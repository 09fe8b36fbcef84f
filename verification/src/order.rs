use vstd::prelude::*;

verus! {

/// Index `a` comes before index `b` when sorting by `keys` stably: a smaller
/// key first, and among equal keys the earlier index first.
pub open spec fn lex_less(keys: Seq<u64>, a: int, b: int) -> bool {
    keys[a] < keys[b] || (keys[a] == keys[b] && a < b)
}

/// `p` lists the indices of `keys` in the order a stable sort by key puts
/// them: every index in range, each before the next in that order.
pub open spec fn is_stable_order(keys: Seq<u64>, p: Seq<usize>) -> bool {
    &&& p.len() == keys.len()
    &&& forall|i: int| 0 <= i < p.len() ==> #[trigger] p[i] < keys.len()
    &&& forall|i: int, j: int| 0 <= i < j < p.len() ==> lex_less(keys, #[trigger] p[i] as int, #[trigger] p[j] as int)
}

/// `p` lists index `x`.
pub open spec fn lists_index(p: Seq<usize>, x: int) -> bool {
    exists|i: int| 0 <= i < p.len() && p[i] == x
}

/// A stable order lists every index exactly once: sorting keeps every file of
/// a group and repeats none.
pub proof fn lemma_stable_order_is_permutation(keys: Seq<u64>, p: Seq<usize>)
    requires
        is_stable_order(keys, p),
    ensures
        p.no_duplicates(),
        forall|x: int| 0 <= x < keys.len() ==> #[trigger] lists_index(p, x),
{
    let n = keys.len() as int;
    let q = p.map_values(|x: usize| x as int);
    assert forall|i: int, j: int| 0 <= i < p.len() && 0 <= j < p.len() && i != j implies p[i] != p[j] by {
        if i < j {
            assert(lex_less(keys, p[i] as int, p[j] as int));
        } else {
            assert(lex_less(keys, p[j] as int, p[i] as int));
        }
    }
    assert(q.no_duplicates()) by {
        assert forall|i: int, j: int| 0 <= i < q.len() && 0 <= j < q.len() && i != j implies q[i] != q[j] by {
            assert(p[i] != p[j]);
        }
    }
    q.unique_seq_to_set();
    vstd::set_lib::lemma_int_range(0, n);
    let range = vstd::set_lib::set_int_range(0, n);
    assert(q.to_set().subset_of(range)) by {
        assert forall|x: int| q.to_set().contains(x) implies range.contains(x) by {
            let i = choose|i: int| 0 <= i < q.len() && q[i] == x;
            assert(p[i] < keys.len());
        }
    }
    vstd::set_lib::lemma_len_subset(q.to_set(), range);
    vstd::set_lib::lemma_subset_equality(q.to_set(), range);
    assert forall|x: int| 0 <= x < keys.len() implies #[trigger] lists_index(p, x) by {
        assert(range.contains(x));
        assert(q.to_set().contains(x));
        let i = choose|i: int| 0 <= i < q.len() && q[i] == x;
        assert(p[i] == x);
    }
}

/// The index a stable order puts first has the smallest key: in a sorted
/// group, the file that stays (the first) is the one read most recently.
pub proof fn lemma_first_has_least_key(keys: Seq<u64>, p: Seq<usize>)
    requires
        is_stable_order(keys, p),
        keys.len() > 0,
    ensures
        forall|x: int| 0 <= x < keys.len() ==> keys[p[0] as int] <= #[trigger] keys[x],
{
    lemma_stable_order_is_permutation(keys, p);
    assert forall|x: int| 0 <= x < keys.len() implies keys[p[0] as int] <= #[trigger] keys[x] by {
        assert(lists_index(p, x));
        let i = choose|i: int| 0 <= i < p.len() && p[i] == x;
        if i > 0 {
            assert(lex_less(keys, p[0] as int, p[i] as int));
        }
    }
}

/// The order in which a stable sort by `keys` puts the indices of `keys`.
pub fn sort_order(keys: &Vec<u64>) -> (p: Vec<usize>)
    ensures
        is_stable_order(keys@, p@),
{
    let n = keys.len();
    let mut out: Vec<usize> = Vec::new();
    let mut i: usize = 0;
    while i < n
        invariant
            n == keys@.len(),
            i <= n,
            out@.len() == i,
            forall|a: int| 0 <= a < out@.len() ==> #[trigger] out@[a] < i,
            forall|a: int, b: int| 0 <= a < b < out@.len() ==> lex_less(keys@, #[trigger] out@[a] as int, #[trigger] out@[b] as int),
        decreases n - i,
    {
        let ki = keys[i];
        let mut pos: usize = 0;
        while pos < out.len() && keys[out[pos]] <= ki
            invariant
                n == keys@.len(),
                i < n,
                out@.len() == i,
                pos <= out@.len(),
                forall|a: int| 0 <= a < out@.len() ==> #[trigger] out@[a] < i,
                forall|a: int| 0 <= a < pos ==> keys@[#[trigger] out@[a] as int] <= ki,
            decreases out@.len() - pos,
        {
            pos = pos + 1;
        }
        let ghost before = out@;
        proof {
            assert forall|a: int| pos <= a < before.len() implies ki < keys@[#[trigger] before[a] as int] by {
                if a > pos {
                    assert(lex_less(keys@, before[pos as int] as int, before[a] as int));
                }
            }
        }
        out.insert(pos, i);
        proof {
            let after = out@;
            assert forall|a: int| 0 <= a < after.len() implies #[trigger] after[a] < i + 1 by {
                if a < pos {
                    assert(after[a] == before[a]);
                } else if a > pos {
                    assert(after[a] == before[a - 1]);
                }
            }
            assert forall|a: int, b: int| 0 <= a < b < after.len() implies lex_less(
                keys@,
                #[trigger] after[a] as int,
                #[trigger] after[b] as int,
            ) by {
                if b < pos {
                    assert(after[a] == before[a] && after[b] == before[b]);
                } else if b == pos {
                    assert(after[a] == before[a]);
                } else if a < pos {
                    assert(after[a] == before[a] && after[b] == before[b - 1]);
                } else if a == pos {
                    assert(after[b] == before[b - 1]);
                } else {
                    assert(after[a] == before[a - 1] && after[b] == before[b - 1]);
                }
            }
        }
        i = i + 1;
    }
    out
}

} // verus!
