//! Ascending order on pairs of integers, by the standard library's
//! sort, and rankings by decreasing count built on it.

use vstd::prelude::*;

verus! {

/// `std::slice::sort_unstable` on pairs: the same pairs, in ascending
/// lexicographic order.
#[verifier::external_body]
pub(crate) fn sort_pairs(v: &mut Vec<(u64, u64)>)
    ensures
        final(v)@.to_multiset() == old(v)@.to_multiset(),
        forall|i: int, j: int|
            0 <= i < j < final(v)@.len() ==> (#[trigger] final(v)@[i]).0 < (#[trigger] final(v)@[j]).0
                || (final(v)@[i].0 == final(v)@[j].0 && final(v)@[i].1 <= final(v)@[j].1),
{
    v.sort_unstable();
}

/// `order` lists every position of `counts` once, by decreasing count,
/// positions with equal counts in increasing order (the order of a
/// stable sort by decreasing count).
pub open spec fn is_desc_order(counts: Seq<u64>, order: Seq<usize>) -> bool {
    &&& order.len() == counts.len()
    &&& forall|i: int| 0 <= i < order.len() ==> (#[trigger] order[i]) < counts.len()
    &&& order.no_duplicates()
    &&& forall|g: int| 0 <= g < counts.len() ==> #[trigger] order.contains(g as usize)
    &&& forall|i: int, j: int|
        0 <= i < j < order.len() ==> counts[(#[trigger] order[i]) as int] > counts[(
        #[trigger] order[j]) as int] || (counts[order[i] as int] == counts[order[j] as int]
            && order[i] < order[j])
}

/// The positions of `counts` by decreasing count, ties by position.
pub(crate) fn rank_desc(counts: &Vec<u64>) -> (r: Vec<usize>)
    ensures
        is_desc_order(counts@, r@),
{
    broadcast use vstd::seq_lib::group_to_multiset_ensures;

    let n = counts.len();
    let mut keys: Vec<(u64, u64)> = Vec::new();
    let mut i: usize = 0;
    while i < n
        invariant
            n == counts@.len(),
            i <= n,
            keys@.len() == i,
            forall|t: int|
                0 <= t < i ==> #[trigger] keys@[t] == ((u64::MAX - counts@[t]) as u64, t as u64),
        decreases n - i,
    {
        keys.push((u64::MAX - counts[i], i as u64));
        i = i + 1;
    }
    let ghost k0 = keys@;
    proof {
        assert forall|x: int, y: int| 0 <= x < n && 0 <= y < n && x != y implies k0[x] != k0[y] by {
            assert(k0[x].1 == x as u64 && k0[y].1 == y as u64);
        }
        k0.lemma_multiset_has_no_duplicates();
    }
    sort_pairs(&mut keys);
    proof {
        assert(keys@.len() == n) by {
            assert(keys@.to_multiset().len() == k0.to_multiset().len());
        }
        keys@.lemma_multiset_has_no_duplicates_conv();
        assert forall|t: int| 0 <= t < n implies (#[trigger] keys@[t]).1 < n && keys@[t].0 == (
        u64::MAX - counts@[keys@[t].1 as int]) as u64 by {
            assert(keys@.contains(keys@[t]));
            assert(keys@.to_multiset().count(keys@[t]) > 0);
            assert(k0.to_multiset().count(keys@[t]) > 0);
            assert(k0.contains(keys@[t]));
            let u = choose|u: int| 0 <= u < n && k0[u] == keys@[t];
            assert(k0[u].1 == u as u64);
        }
    }
    let mut r: Vec<usize> = Vec::new();
    let mut k: usize = 0;
    while k < n
        invariant
            n == keys@.len(),
            n == counts@.len(),
            k <= n,
            r@.len() == k,
            forall|t: int| 0 <= t < n ==> (#[trigger] keys@[t]).1 < n,
            forall|t: int| 0 <= t < k ==> #[trigger] r@[t] == keys@[t].1 as usize,
        decreases n - k,
    {
        r.push(keys[k].1 as usize);
        k = k + 1;
    }
    proof {
        assert forall|g: int| 0 <= g < n implies #[trigger] r@.contains(g as usize) by {
            assert(k0[g] == ((u64::MAX - counts@[g]) as u64, g as u64));
            assert(k0.contains(k0[g]));
            assert(k0.to_multiset().count(k0[g]) > 0);
            assert(keys@.to_multiset().count(k0[g]) > 0);
            assert(keys@.contains(k0[g]));
            let a = choose|a: int| 0 <= a < n && keys@[a] == k0[g];
            assert(r@[a] == g as usize);
        }
        assert forall|x: int, y: int| 0 <= x < n && 0 <= y < n && x != y implies r@[x] != r@[y] by {
            assert(keys@[x] != keys@[y]);
        }
        assert forall|x: int, y: int| 0 <= x < y < n implies counts@[(#[trigger] r@[x]) as int]
            > counts@[(#[trigger] r@[y]) as int] || (counts@[r@[x] as int] == counts@[r@[y] as int]
            && r@[x] < r@[y]) by {
            assert(keys@[x] != keys@[y]);
            assert(keys@[x].0 == (u64::MAX - counts@[r@[x] as int]) as u64);
            assert(keys@[y].0 == (u64::MAX - counts@[r@[y] as int]) as u64);
        }
    }
    r
}

/// `a` comes before `b` in a ranking by decreasing count.
pub open spec fn ranks_before(counts: Seq<u64>, a: usize, b: usize) -> bool {
    counts[a as int] > counts[b as int] || (counts[a as int] == counts[b as int] && a < b)
}

proof fn lemma_desc_order_agree(counts: Seq<u64>, o1: Seq<usize>, o2: Seq<usize>, i: int)
    requires
        is_desc_order(counts, o1),
        is_desc_order(counts, o2),
        0 <= i <= o1.len(),
    ensures
        forall|k: int| 0 <= k < i ==> o1[k] == o2[k],
    decreases i,
{
    if i > 0 {
        lemma_desc_order_agree(counts, o1, o2, i - 1);
        let p = i - 1;
        if o1[p] != o2[p] {
            let a = o1[p];
            let b = o2[p];
            assert(o1.contains(b as int as usize));
            let j = choose|j: int| 0 <= j < o1.len() && o1[j] == b;
            assert(o2.contains(a as int as usize));
            let jj = choose|jj: int| 0 <= jj < o2.len() && o2[jj] == a;
            if j < p {
                assert(o2[j] == b);
            }
            if jj < p {
                assert(o1[jj] == a);
            }
            assert(ranks_before(counts, a, b));
            assert(ranks_before(counts, b, a));
        }
    }
}

/// A ranking by decreasing count, ties by position, is unique: two
/// orders that both rank `counts` so are the same.
pub proof fn law_desc_order_unique(counts: Seq<u64>, o1: Seq<usize>, o2: Seq<usize>)
    requires
        is_desc_order(counts, o1),
        is_desc_order(counts, o2),
    ensures
        o1 == o2,
{
    lemma_desc_order_agree(counts, o1, o2, o1.len() as int);
    assert(o1 =~= o2);
}

} // verus!
