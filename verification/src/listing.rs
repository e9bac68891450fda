//! Sums over the listings of counter maps do not depend on the order
//! in which a map hands out its entries: any two listings of the same
//! maps are permutations of each other, and so are their merges.

use vstd::prelude::*;
use crate::counters::lists_targets;
use crate::edge_storage::{EdgeTriple, lists_entries};
use crate::exit::{as_edges, edges_into, entries_into, extra_into, fall_through_into, fall_throughs_spec};
use crate::native::{edge_total, has_edge, is_merge_of};
use crate::plugin::{flatten, listed_from};
use crate::state::TbMeta;

verus! {

broadcast use vstd::seq_lib::group_to_multiset_ensures;

/// One step of summing the counts of triples whose second address is `a`.
pub open spec fn into_step(a: u64) -> spec_fn(int, EdgeTriple) -> int {
    |acc: int, e: EdgeTriple| acc + if e.1 == a {
        e.2 as int
    } else {
        0
    }
}

/// One step of summing the counts of `(target, count)` pairs into `a`.
pub open spec fn extra_step(a: u64) -> spec_fn(int, (u64, u64)) -> int {
    |acc: int, e: (u64, u64)| acc + if e.0 == a {
        e.1 as int
    } else {
        0
    }
}

/// One step of summing the counts of triples of the pair `(f, t)`.
pub open spec fn total_step(f: u64, t: u64) -> spec_fn(int, EdgeTriple) -> int {
    |acc: int, e: EdgeTriple| acc + if e.0 == f && e.1 == t {
        e.2 as int
    } else {
        0
    }
}

proof fn lemma_edges_into_fold(s: Seq<EdgeTriple>, a: u64)
    ensures
        edges_into(s, a) == s.fold_left(0int, into_step(a)),
    decreases s.len(),
{
    if s.len() > 0 {
        lemma_edges_into_fold(s.drop_last(), a);
    }
}

proof fn lemma_extra_into_fold(s: Seq<(u64, u64)>, a: u64)
    ensures
        extra_into(s, a) == s.fold_left(0int, extra_step(a)),
    decreases s.len(),
{
    if s.len() > 0 {
        lemma_extra_into_fold(s.drop_last(), a);
    }
}

proof fn lemma_edge_total_fold(s: Seq<EdgeTriple>, f: u64, t: u64)
    ensures
        edge_total(as_edges(s), f, t) == s.fold_left(0int, total_step(f, t)),
    decreases s.len(),
{
    if s.len() > 0 {
        assert(as_edges(s).drop_last() =~= as_edges(s.drop_last()));
        lemma_edge_total_fold(s.drop_last(), f, t);
    }
}

/// Entries into `a` are the same over two permutations.
pub proof fn lemma_edges_into_permutation(s1: Seq<EdgeTriple>, s2: Seq<EdgeTriple>, a: u64)
    requires
        s1.to_multiset() == s2.to_multiset(),
    ensures
        edges_into(s1, a) == edges_into(s2, a),
{
    lemma_edges_into_fold(s1, a);
    lemma_edges_into_fold(s2, a);
    vstd::seq_lib::lemma_fold_left_permutation(s1, s2, into_step(a), 0int);
}

/// Counted entries into `a` are the same over two permutations.
pub proof fn lemma_extra_into_permutation(s1: Seq<(u64, u64)>, s2: Seq<(u64, u64)>, a: u64)
    requires
        s1.to_multiset() == s2.to_multiset(),
    ensures
        extra_into(s1, a) == extra_into(s2, a),
{
    lemma_extra_into_fold(s1, a);
    lemma_extra_into_fold(s2, a);
    vstd::seq_lib::lemma_fold_left_permutation(s1, s2, extra_step(a), 0int);
}

/// The total of a pair is the same over two permutations.
pub proof fn lemma_edge_total_permutation(s1: Seq<EdgeTriple>, s2: Seq<EdgeTriple>, f: u64, t: u64)
    requires
        s1.to_multiset() == s2.to_multiset(),
    ensures
        edge_total(as_edges(s1), f, t) == edge_total(as_edges(s2), f, t),
{
    lemma_edge_total_fold(s1, f, t);
    lemma_edge_total_fold(s2, f, t);
    vstd::seq_lib::lemma_fold_left_permutation(s1, s2, total_step(f, t), 0int);
}

/// Two sequences without duplicates that hold the same elements are
/// permutations of each other.
pub(crate) proof fn lemma_same_elements<A>(s1: Seq<A>, s2: Seq<A>)
    requires
        s1.no_duplicates(),
        s2.no_duplicates(),
        forall|x: A| s1.contains(x) <==> s2.contains(x),
    ensures
        s1.to_multiset() == s2.to_multiset(),
{
    s1.lemma_multiset_has_no_duplicates();
    s2.lemma_multiset_has_no_duplicates();
    assert forall|x: A| s1.to_multiset().count(x) == s2.to_multiset().count(x) by {
        if s1.contains(x) {
            assert(s1.to_multiset().contains(x));
            assert(s2.to_multiset().contains(x));
        } else {
            assert(!s2.contains(x));
        }
    }
    assert(s1.to_multiset() =~= s2.to_multiset());
}

/// Two listings of the entries of a map are permutations of each other.
pub proof fn lemma_entry_listings_permute(l1: Seq<EdgeTriple>, l2: Seq<EdgeTriple>, m: Map<(u64, u64), u64>)
    requires
        lists_entries(l1, m),
        lists_entries(l2, m),
    ensures
        l1.to_multiset() == l2.to_multiset(),
{
    assert forall|x: EdgeTriple| l1.contains(x) implies l2.contains(x) by {
        let i = choose|i: int| 0 <= i < l1.len() && l1[i] == x;
        assert(m.contains_key((l1[i].0, l1[i].1)));
        let j = choose|j: int| 0 <= j < l2.len() && (#[trigger] l2[j]).0 == x.0 && l2[j].1 == x.1;
        assert(l2[j] == x);
    }
    assert forall|x: EdgeTriple| l2.contains(x) implies l1.contains(x) by {
        let i = choose|i: int| 0 <= i < l2.len() && l2[i] == x;
        assert(m.contains_key((l2[i].0, l2[i].1)));
        let j = choose|j: int| 0 <= j < l1.len() && (#[trigger] l1[j]).0 == x.0 && l1[j].1 == x.1;
        assert(l1[j] == x);
    }
    lemma_same_elements(l1, l2);
}

/// Two listings of the counts of a map are permutations of each other.
pub proof fn lemma_target_listings_permute(l1: Seq<(u64, u64)>, l2: Seq<(u64, u64)>, m: Map<u64, u64>)
    requires
        lists_targets(l1, m),
        lists_targets(l2, m),
    ensures
        l1.to_multiset() == l2.to_multiset(),
{
    assert forall|x: (u64, u64)| l1.contains(x) implies l2.contains(x) by {
        let i = choose|i: int| 0 <= i < l1.len() && l1[i] == x;
        assert(m.contains_key(l1[i].0));
        let j = choose|j: int| 0 <= j < l2.len() && (#[trigger] l2[j]).0 == x.0;
        assert(l2[j] == x);
    }
    assert forall|x: (u64, u64)| l2.contains(x) implies l1.contains(x) by {
        let i = choose|i: int| 0 <= i < l2.len() && l2[i] == x;
        assert(m.contains_key(l2[i].0));
        let j = choose|j: int| 0 <= j < l1.len() && (#[trigger] l1[j]).0 == x.0;
        assert(l1[j] == x);
    }
    lemma_same_elements(l1, l2);
}

proof fn lemma_flatten_permute(lists1: Seq<Seq<EdgeTriple>>, lists2: Seq<Seq<EdgeTriple>>)
    requires
        lists1.len() == lists2.len(),
        forall|v: int| 0 <= v < lists1.len() ==> (#[trigger] lists1[v]).to_multiset() == lists2[v].to_multiset(),
    ensures
        flatten(lists1).to_multiset() == flatten(lists2).to_multiset(),
    decreases lists1.len(),
{
    if lists1.len() > 0 {
        let n = lists1.len() - 1;
        assert forall|v: int| 0 <= v < n implies (#[trigger] lists1.drop_last()[v]).to_multiset()
            == lists2.drop_last()[v].to_multiset() by {
            assert(lists1.drop_last()[v] == lists1[v]);
        }
        lemma_flatten_permute(lists1.drop_last(), lists2.drop_last());
        vstd::seq_lib::lemma_multiset_commutative(flatten(lists1.drop_last()), lists1.last());
        vstd::seq_lib::lemma_multiset_commutative(flatten(lists2.drop_last()), lists2.last());
        assert(lists1.last() == lists1[n]);
    }
}

/// Two listings of the same maps are permutations of each other.
pub proof fn lemma_listed_permute(d1: Seq<EdgeTriple>, d2: Seq<EdgeTriple>, counts: Seq<Map<(u64, u64), u64>>)
    requires
        listed_from(d1, counts),
        listed_from(d2, counts),
    ensures
        d1.to_multiset() == d2.to_multiset(),
{
    let lists1 = choose|lists: Seq<Seq<EdgeTriple>>|
        lists.len() == counts.len() && (forall|v: int|
            0 <= v < lists.len() ==> lists_entries(#[trigger] lists[v], counts[v])) && d1 == flatten(lists);
    let lists2 = choose|lists: Seq<Seq<EdgeTriple>>|
        lists.len() == counts.len() && (forall|v: int|
            0 <= v < lists.len() ==> lists_entries(#[trigger] lists[v], counts[v])) && d2 == flatten(lists);
    assert forall|v: int| 0 <= v < lists1.len() implies (#[trigger] lists1[v]).to_multiset()
        == lists2[v].to_multiset() by {
        lemma_entry_listings_permute(lists1[v], lists2[v], counts[v]);
    }
    lemma_flatten_permute(lists1, lists2);
}

/// Merges of two permutations are permutations of each other.
pub proof fn lemma_merges_permute(m1: Seq<EdgeTriple>, d1: Seq<EdgeTriple>, m2: Seq<EdgeTriple>, d2: Seq<EdgeTriple>)
    requires
        is_merge_of(as_edges(m1), as_edges(d1)),
        is_merge_of(as_edges(m2), as_edges(d2)),
        d1.to_multiset() == d2.to_multiset(),
    ensures
        m1.to_multiset() == m2.to_multiset(),
{
    let e1 = as_edges(m1);
    let e2 = as_edges(m2);
    assert forall|x: int, y: int| 0 <= x < m1.len() && 0 <= y < m1.len() && x != y implies m1[x] != m1[y] by {
        assert(e1[x].from == m1[x].0 && e1[x].to == m1[x].1);
        assert(e1[y].from == m1[y].0 && e1[y].to == m1[y].1);
    }
    assert forall|x: int, y: int| 0 <= x < m2.len() && 0 <= y < m2.len() && x != y implies m2[x] != m2[y] by {
        assert(e2[x].from == m2[x].0 && e2[x].to == m2[x].1);
        assert(e2[y].from == m2[y].0 && e2[y].to == m2[y].1);
    }
    assert forall|f: u64, t: u64| has_edge(as_edges(d1), f, t) implies has_edge(as_edges(d2), f, t) by {
        let i = choose|i: int| 0 <= i < d1.len() && (#[trigger] as_edges(d1)[i]).from == f && as_edges(d1)[i].to == t;
        assert(d1.contains(d1[i]));
        assert(d1.to_multiset().count(d1[i]) > 0);
        assert(d2.contains(d1[i]));
        let j = choose|j: int| 0 <= j < d2.len() && d2[j] == d1[i];
        assert(as_edges(d2)[j].from == f && as_edges(d2)[j].to == t);
    }
    assert forall|f: u64, t: u64| has_edge(as_edges(d2), f, t) implies has_edge(as_edges(d1), f, t) by {
        let i = choose|i: int| 0 <= i < d2.len() && (#[trigger] as_edges(d2)[i]).from == f && as_edges(d2)[i].to == t;
        assert(d2.contains(d2[i]));
        assert(d2.to_multiset().count(d2[i]) > 0);
        assert(d1.contains(d2[i]));
        let j = choose|j: int| 0 <= j < d1.len() && d1[j] == d2[i];
        assert(as_edges(d1)[j].from == f && as_edges(d1)[j].to == t);
    }
    assert forall|x: EdgeTriple| m1.contains(x) implies m2.contains(x) by {
        let i = choose|i: int| 0 <= i < m1.len() && m1[i] == x;
        assert(e1[i].from == x.0 && e1[i].to == x.1 && e1[i].count == x.2);
        assert(has_edge(as_edges(d1), x.0, x.1));
        let k = choose|k: int| 0 <= k < d2.len() && (#[trigger] as_edges(d2)[k]).from == x.0 && as_edges(d2)[k].to == x.1;
        assert(has_edge(e2, as_edges(d2)[k].from, as_edges(d2)[k].to));
        let j = choose|j: int| 0 <= j < m2.len() && (#[trigger] e2[j]).from == x.0 && e2[j].to == x.1;
        lemma_edge_total_permutation(d1, d2, x.0, x.1);
        assert(m2[j] == x);
    }
    assert forall|x: EdgeTriple| m2.contains(x) implies m1.contains(x) by {
        let i = choose|i: int| 0 <= i < m2.len() && m2[i] == x;
        assert(e2[i].from == x.0 && e2[i].to == x.1 && e2[i].count == x.2);
        assert(has_edge(as_edges(d2), x.0, x.1));
        let k = choose|k: int| 0 <= k < d1.len() && (#[trigger] as_edges(d1)[k]).from == x.0 && as_edges(d1)[k].to == x.1;
        assert(has_edge(e1, as_edges(d1)[k].from, as_edges(d1)[k].to));
        let j = choose|j: int| 0 <= j < m1.len() && (#[trigger] e1[j]).from == x.0 && e1[j].to == x.1;
        lemma_edge_total_permutation(d1, d2, x.0, x.1);
        assert(m1[j] == x);
    }
    lemma_same_elements(m1, m2);
}

/// The fall-through edges depend on the branch entries only through
/// the number of entries into each address.
pub proof fn lemma_fall_throughs_same(
    tbs: Seq<TbMeta>,
    execs: Seq<u64>,
    x1: Seq<(u64, u64)>,
    m1: Seq<EdgeTriple>,
    x2: Seq<(u64, u64)>,
    m2: Seq<EdgeTriple>,
    k: int,
)
    requires
        forall|a: u64| #[trigger] entries_into(x1, m1, a) == entries_into(x2, m2, a),
    ensures
        fall_throughs_spec(tbs, execs, x1, m1, k) == fall_throughs_spec(tbs, execs, x2, m2, k),
    decreases k,
{
    if k > 0 {
        lemma_fall_throughs_same(tbs, execs, x1, m1, x2, m2, k - 1);
        assert(entries_into(x1, m1, tbs[k - 1].start_addr) == entries_into(x2, m2, tbs[k - 1].start_addr));
        assert(fall_through_into(tbs[k - 1], execs[k - 1], tbs, x1, m1) == fall_through_into(
            tbs[k - 1],
            execs[k - 1],
            tbs,
            x2,
            m2,
        ));
    }
}

} // verus!
