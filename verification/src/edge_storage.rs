//! Per-vCPU edge storage: a top-N table that keeps the hottest edges,
//! or a streaming map that is flushed periodically.

use vstd::prelude::*;
use crate::listing::lemma_same_elements;
use crate::sorting::{is_desc_order, rank_desc};
use rustc_hash::FxHashMap;

verus! {

/// A branch edge between two addresses.
#[derive(Hash, Eq, PartialEq, Clone, Copy, Debug, Structural)]
pub struct Edge {
    pub from: u64,
    pub to: u64,
}

/// The address pair of an edge.
pub open spec fn edge_key(e: Edge) -> (u64, u64) {
    (e.from, e.to)
}

/// The hasher builder of `FxHashMap`.
#[verifier::external_type_specification]
#[verifier::external_body]
pub struct ExFxBuildHasher(rustc_hash::FxBuildHasher);

/// Edge counts of one storage mode.
pub type EdgeCountMap = FxHashMap<Edge, u64>;

/// An edge as `(from, to, count)`.
pub type EdgeTriple = (u64, u64, u64);

/// The count recorded for each address pair in an edge map.
pub uninterp spec fn edge_counts(m: FxHashMap<Edge, u64>) -> Map<(u64, u64), u64>;

/// The map with no edges.
pub open spec fn no_edges() -> Map<(u64, u64), u64> {
    Map::empty()
}

/// `v` lists the entries of `m`, each address pair once.
pub open spec fn lists_entries(v: Seq<(u64, u64, u64)>, m: Map<(u64, u64), u64>) -> bool {
    &&& m.dom().finite()
    &&& v.len() == m.len()
    &&& forall|k: (u64, u64)| #[trigger]
        m.contains_key(k) ==> exists|i: int| 0 <= i < v.len() && (#[trigger] v[i]).0 == k.0 && v[i].1 == k.1
    &&& forall|i: int|
        0 <= i < v.len() ==> m.contains_key(((#[trigger] v[i]).0, v[i].1)) && m[(v[i].0, v[i].1)]
            == v[i].2
    &&& forall|i: int, j: int|
        0 <= i < v.len() && 0 <= j < v.len() && i != j ==> ((#[trigger] v[i]).0, v[i].1) != (
        (#[trigger] v[j]).0,
        v[j].1,
    )
}

/// `FxHashMap::with_capacity_and_hasher`: an empty map.
#[verifier::external_body]
fn edge_map_with_capacity(capacity: usize) -> (m: EdgeCountMap)
    ensures
        edge_counts(m) == no_edges(),
{
    FxHashMap::with_capacity_and_hasher(capacity, Default::default())
}

/// `FxHashMap::default`: an empty map.
#[verifier::external_body]
fn edge_map_new() -> (m: EdgeCountMap)
    ensures
        edge_counts(m) == no_edges(),
{
    FxHashMap::default()
}

/// `HashMap::get` on an edge map: the count of the edge, if present.
#[verifier::external_body]
fn edge_map_get(m: &FxHashMap<Edge, u64>, e: Edge) -> (r: Option<u64>)
    ensures
        r == (if edge_counts(*m).contains_key(edge_key(e)) {
            Some(edge_counts(*m)[edge_key(e)])
        } else {
            None
        }),
{
    m.get(&e).copied()
}

/// `HashMap::insert` on an edge map: sets the count of the edge.
#[verifier::external_body]
fn edge_map_insert(m: &mut FxHashMap<Edge, u64>, e: Edge, count: u64)
    ensures
        edge_counts(*final(m)) == edge_counts(*old(m)).insert(edge_key(e), count),
{
    m.insert(e, count);
}

/// `HashMap::len` on an edge map: the number of address pairs.
#[verifier::external_body]
fn edge_map_len(m: &FxHashMap<Edge, u64>) -> (n: usize)
    ensures
        n == edge_counts(*m).len(),
{
    m.len()
}

/// `HashMap::drain` on an edge map, each entry taken as
/// `(from, to, count)`, in the map's iteration order (left unsaid).
#[verifier::external_body]
fn edge_map_drain(m: &mut FxHashMap<Edge, u64>) -> (v: Vec<EdgeTriple>)
    ensures
        edge_counts(*final(m)) == no_edges(),
        lists_entries(v@, edge_counts(*old(m))),
{
    m.drain().map(|(e, c)| (e.from, e.to, c)).collect()
}

/// Orders distinct entries by decreasing count: the same entries,
/// hottest first.
fn sort_by_count_desc(v: &mut Vec<(u64, u64, u64)>)
    requires
        old(v)@.no_duplicates(),
    ensures
        final(v)@.to_multiset() == old(v)@.to_multiset(),
        forall|i: int, j: int|
            0 <= i < j < final(v)@.len() ==> (#[trigger] final(v)@[i]).2 >= (
            #[trigger] final(v)@[j]).2,
{
    let ghost v0 = v@;
    let n = v.len();
    let mut counts: Vec<u64> = Vec::new();
    let mut i: usize = 0;
    while i < n
        invariant
            n == v0.len(),
            v@ == v0,
            i <= n,
            counts@.len() == i,
            forall|t: int| 0 <= t < i ==> #[trigger] counts@[t] == v0[t].2,
        decreases n - i,
    {
        counts.push(v[i].2);
        i = i + 1;
    }
    let order = rank_desc(&counts);
    let mut out: Vec<(u64, u64, u64)> = Vec::new();
    let mut k: usize = 0;
    while k < n
        invariant
            n == v0.len(),
            v@ == v0,
            n == counts@.len(),
            is_desc_order(counts@, order@),
            k <= n,
            out@.len() == k,
            forall|t: int| 0 <= t < k ==> #[trigger] out@[t] == v0[order@[t] as int],
        decreases n - k,
    {
        out.push(v[order[k]]);
        k = k + 1;
    }
    proof {
        assert forall|x: int, y: int| 0 <= x < n && 0 <= y < n && x != y implies out@[x] != out@[y] by {
            assert(order@[x] != order@[y]);
        }
        assert forall|e: (u64, u64, u64)| out@.contains(e) <==> v0.contains(e) by {
            if out@.contains(e) {
                let t = choose|t: int| 0 <= t < n && out@[t] == e;
                assert(v0[order@[t] as int] == e);
            }
            if v0.contains(e) {
                let g = choose|g: int| 0 <= g < n && v0[g] == e;
                assert(order@.contains(g as usize));
                let t = choose|t: int| 0 <= t < n && order@[t] == g as usize;
                assert(out@[t] == e);
            }
        }
        lemma_same_elements(out@, v0);
        assert forall|x: int, y: int| 0 <= x < y < n implies (#[trigger] out@[x]).2 >= (
        #[trigger] out@[y]).2 by {
            assert(counts@[order@[x] as int] >= counts@[order@[y] as int]);
        }
    }
    *v = out;
}

/// `sel` keeps `keep` of the hottest entries of `all`, with their
/// counts: no dropped entry is hotter than a kept one.
pub open spec fn is_top_selection(
    sel: Map<(u64, u64), u64>,
    all: Map<(u64, u64), u64>,
    keep: nat,
) -> bool {
    &&& sel.dom().finite()
    &&& sel.len() == keep
    &&& forall|k: (u64, u64)| #[trigger] sel.contains_key(k) ==> all.contains_key(k) && sel[k] == all[k]
    &&& forall|k: (u64, u64), d: (u64, u64)|
        #[trigger] sel.contains_key(k) && #[trigger] all.contains_key(d) && !sel.contains_key(d)
            ==> all[d] <= all[k]
}

/// `m` with one more occurrence of the edge `k`.
pub open spec fn bump(m: Map<(u64, u64), u64>, k: (u64, u64)) -> Map<(u64, u64), u64> {
    m.insert(
        k,
        if m.contains_key(k) {
            (m[k] + 1) as u64
        } else {
            1
        },
    )
}

/// Top-N table: a map pruned to the `capacity` hottest edges whenever
/// it grows beyond twice that.
struct TopNTable {
    edges: FxHashMap<Edge, u64>,
    capacity: usize,
}

/// Streaming map: unbounded, flushed periodically.
struct StreamingMap {
    edges: FxHashMap<Edge, u64>,
}

enum EdgeStorage {
    TopN(TopNTable),
    Streaming(StreamingMap),
}

/// Per-vCPU edge accumulator in one of two modes: top-N (bounded,
/// keeps the hottest edges) or streaming (unbounded, flushed
/// periodically).
pub struct EdgeAccumulator {
    storage: EdgeStorage,
    pub total_tb_execs: u64,
}

/// Records one occurrence of an edge in a map.
fn bump_edge(m: &mut FxHashMap<Edge, u64>, from: u64, to: u64)
    requires
        edge_counts(*old(m)).contains_key((from, to)) ==> edge_counts(*old(m))[(from, to)] < u64::MAX,
    ensures
        edge_counts(*final(m)) == bump(edge_counts(*old(m)), (from, to)),
{
    let edge = Edge { from, to };
    let c = match edge_map_get(m, edge) {
        Some(c) => c + 1,
        None => 1,
    };
    edge_map_insert(m, edge, c);
}

impl TopNTable {
    fn new(capacity: usize) -> (t: Self)
        ensures
            edge_counts(t.edges) == no_edges(),
            t.capacity == capacity,
    {
        TopNTable { edges: edge_map_with_capacity(capacity), capacity }
    }

    /// Keeps only the `capacity` hottest edges.
    fn prune(&mut self)
        requires
            edge_counts(old(self).edges).dom().finite(),
        ensures
            final(self).capacity == old(self).capacity,
            edge_counts(old(self).edges).len() <= old(self).capacity ==> edge_counts(final(self).edges)
                == edge_counts(old(self).edges),
            edge_counts(old(self).edges).len() > old(self).capacity ==> is_top_selection(
                edge_counts(final(self).edges),
                edge_counts(old(self).edges),
                old(self).capacity as nat,
            ),
    {
        if edge_map_len(&self.edges) <= self.capacity {
            return;
        }
        let ghost all = edge_counts(self.edges);
        let mut entries = edge_map_drain(&mut self.edges);
        let ghost drained = entries@;
        assert(drained.no_duplicates()) by {
            assert forall|a: int, b: int| 0 <= a < drained.len() && 0 <= b < drained.len() && a != b
                implies drained[a] != drained[b] by {
                assert((drained[a].0, drained[a].1) != (drained[b].0, drained[b].1));
            }
        }
        sort_by_count_desc(&mut entries);
        let ghost sorted = entries@;
        proof {
            lemma_sorted_entries_distinct(drained, sorted, all);
        }
        entries.truncate(self.capacity);
        let mut kept = edge_map_new();
        let n = entries.len();
        let mut i: usize = 0;
        while i < n
            invariant
                n == entries@.len(),
                n == self.capacity,
                entries@ == sorted.take(n as int),
                i <= n,
                edge_counts(kept).dom().finite(),
                edge_counts(kept).len() == i,
                forall|j: int|
                    0 <= j < i ==> edge_counts(kept).contains_key(((#[trigger] sorted[j]).0, sorted[j].1))
                        && edge_counts(kept)[(sorted[j].0, sorted[j].1)] == sorted[j].2,
                forall|k: (u64, u64)| #[trigger]
                    edge_counts(kept).contains_key(k) ==> exists|j: int|
                        0 <= j < i && (#[trigger] sorted[j]).0 == k.0 && sorted[j].1 == k.1,
                forall|a: int, b: int|
                    0 <= a < sorted.len() && 0 <= b < sorted.len() && a != b ==> ((
                    #[trigger] sorted[a]).0, sorted[a].1) != ((#[trigger] sorted[b]).0, sorted[b].1),
                n < sorted.len(),
            decreases n - i,
        {
            let (from, to, count) = entries[i];
            let ghost before = edge_counts(kept);
            assert(!before.contains_key((from, to))) by {
                if before.contains_key((from, to)) {
                    let j = choose|j: int| 0 <= j < i && (#[trigger] sorted[j]).0 == from && sorted[j].1 == to;
                    assert(sorted[i as int] == entries@[i as int]);
                }
            }
            edge_map_insert(&mut kept, Edge { from, to }, count);
            assert(sorted[i as int] == (from, to, count));
            i = i + 1;
        }
        proof {
            lemma_top_selection(drained, sorted, all, edge_counts(kept), n as int);
        }
        self.edges = kept;
    }
}

impl TopNTable {
    /// Records one occurrence of an edge, pruning to the `capacity`
    /// hottest edges once the table holds more than twice that.
    fn record(&mut self, from: u64, to: u64)
        requires
            edge_counts(old(self).edges).dom().finite(),
            edge_counts(old(self).edges).contains_key((from, to)) ==> edge_counts(
                old(self).edges,
            )[(from, to)] < u64::MAX,
        ensures
            final(self).capacity == old(self).capacity,
            edge_counts(final(self).edges).dom().finite(),
            bump(edge_counts(old(self).edges), (from, to)).len() <= 2 * old(self).capacity
                ==> edge_counts(final(self).edges) == bump(edge_counts(old(self).edges), (from, to)),
            bump(edge_counts(old(self).edges), (from, to)).len() > 2 * old(self).capacity
                ==> is_top_selection(
                edge_counts(final(self).edges),
                bump(edge_counts(old(self).edges), (from, to)),
                old(self).capacity as nat,
            ),
    {
        bump_edge(&mut self.edges, from, to);
        let len = edge_map_len(&self.edges);
        if len > self.capacity && len - self.capacity > self.capacity {
            self.prune();
        }
    }

    fn drain(&mut self) -> (v: Vec<EdgeTriple>)
        ensures
            final(self).capacity == old(self).capacity,
            edge_counts(final(self).edges) == no_edges(),
            lists_entries(v@, edge_counts(old(self).edges)),
    {
        edge_map_drain(&mut self.edges)
    }
}

impl StreamingMap {
    fn new() -> (s: Self)
        ensures
            edge_counts(s.edges) == no_edges(),
    {
        StreamingMap { edges: edge_map_new() }
    }

    fn record(&mut self, from: u64, to: u64)
        requires
            edge_counts(old(self).edges).contains_key((from, to)) ==> edge_counts(
                old(self).edges,
            )[(from, to)] < u64::MAX,
        ensures
            edge_counts(final(self).edges) == bump(edge_counts(old(self).edges), (from, to)),
    {
        bump_edge(&mut self.edges, from, to);
    }

    fn drain(&mut self) -> (v: Vec<EdgeTriple>)
        ensures
            edge_counts(final(self).edges) == no_edges(),
            lists_entries(v@, edge_counts(old(self).edges)),
    {
        edge_map_drain(&mut self.edges)
    }
}

impl EdgeAccumulator {
    /// The count recorded for each address pair.
    pub closed spec fn counts(&self) -> Map<(u64, u64), u64> {
        match self.storage {
            EdgeStorage::TopN(t) => edge_counts(t.edges),
            EdgeStorage::Streaming(m) => edge_counts(m.edges),
        }
    }

    /// The value of `total_tb_execs`.
    pub closed spec fn tb_execs(&self) -> u64 {
        self.total_tb_execs
    }

    /// Whether the accumulator is in streaming mode.
    pub closed spec fn is_streaming(&self) -> bool {
        self.storage is Streaming
    }

    /// The number of hottest edges that a top-N accumulator keeps.
    pub closed spec fn capacity(&self) -> nat {
        match self.storage {
            EdgeStorage::TopN(t) => t.capacity as nat,
            EdgeStorage::Streaming(_) => 0,
        }
    }

    /// The counts are a finite map, and a top-N accumulator never holds
    /// more than twice its capacity.
    pub open spec fn wf(&self) -> bool {
        &&& self.counts().dom().finite()
        &&& !self.is_streaming() ==> self.counts().len() <= 2 * self.capacity()
    }

    /// An empty accumulator: streaming, or keeping the `capacity`
    /// hottest edges.
    pub fn new(capacity: usize, streaming: bool) -> (acc: Self)
        ensures
            acc.wf(),
            acc.counts() == no_edges(),
            acc.is_streaming() == streaming,
            !streaming ==> acc.capacity() == capacity,
            acc.tb_execs() == 0,
    {
        let storage = if streaming {
            EdgeStorage::Streaming(StreamingMap::new())
        } else {
            EdgeStorage::TopN(TopNTable::new(capacity))
        };
        EdgeAccumulator { storage, total_tb_execs: 0 }
    }

    /// Records one occurrence of the edge `from -> to`. In streaming mode
    /// its count goes up by one; in top-N mode too, and when that makes
    /// more than twice `capacity` edges, only the `capacity` hottest stay.
    pub fn record(&mut self, from: u64, to: u64)
        requires
            old(self).wf(),
            old(self).counts().contains_key((from, to)) ==> old(self).counts()[(from, to)]
                < u64::MAX,
        ensures
            final(self).wf(),
            final(self).is_streaming() == old(self).is_streaming(),
            final(self).capacity() == old(self).capacity(),
            final(self).tb_execs() == old(self).tb_execs(),
            old(self).is_streaming() || bump(old(self).counts(), (from, to)).len() <= 2
                * old(self).capacity() ==> final(self).counts() == bump(
                old(self).counts(),
                (from, to),
            ),
            !old(self).is_streaming() && bump(old(self).counts(), (from, to)).len() > 2
                * old(self).capacity() ==> is_top_selection(
                final(self).counts(),
                bump(old(self).counts(), (from, to)),
                old(self).capacity(),
            ),
    {
        match &mut self.storage {
            EdgeStorage::TopN(table) => table.record(from, to),
            EdgeStorage::Streaming(map) => map.record(from, to),
        }
    }

    /// The count recorded for the edge `from -> to`, if any.
    pub fn count(&self, from: u64, to: u64) -> (r: Option<u64>)
        ensures
            r == (if self.counts().contains_key((from, to)) {
                Some(self.counts()[(from, to)])
            } else {
                None
            }),
    {
        let e = Edge { from, to };
        match &self.storage {
            EdgeStorage::TopN(table) => edge_map_get(&table.edges, e),
            EdgeStorage::Streaming(map) => edge_map_get(&map.edges, e),
        }
    }

    /// Records the edge as `record` does, unless its count has reached
    /// `u64::MAX`: then nothing changes and `false` is returned.
    pub fn try_record(&mut self, from: u64, to: u64) -> (ok: bool)
        requires
            old(self).wf(),
        ensures
            ok == !(old(self).counts().contains_key((from, to)) && old(self).counts()[(from, to)]
                == u64::MAX),
            !ok ==> *final(self) == *old(self),
            ok ==> final(self).wf() && final(self).is_streaming() == old(self).is_streaming()
                && final(self).capacity() == old(self).capacity() && final(self).tb_execs()
                == old(self).tb_execs(),
            ok && (old(self).is_streaming() || bump(old(self).counts(), (from, to)).len() <= 2
                * old(self).capacity()) ==> final(self).counts() == bump(old(self).counts(), (from, to)),
            ok && !old(self).is_streaming() && bump(old(self).counts(), (from, to)).len() > 2
                * old(self).capacity() ==> is_top_selection(
                final(self).counts(),
                bump(old(self).counts(), (from, to)),
                old(self).capacity(),
            ),
    {
        if let Some(c) = self.count(from, to) {
            if c == u64::MAX {
                return false;
            }
        }
        self.record(from, to);
        true
    }

    /// Takes every edge out as `(from, to, count)`, each address pair
    /// once, in no promised order; the accumulator is left empty.
    pub fn drain(&mut self) -> (v: Vec<EdgeTriple>)
        requires
            old(self).wf(),
        ensures
            final(self).wf(),
            final(self).counts() == no_edges(),
            final(self).is_streaming() == old(self).is_streaming(),
            final(self).capacity() == old(self).capacity(),
            final(self).tb_execs() == old(self).tb_execs(),
            lists_entries(v@, old(self).counts()),
    {
        match &mut self.storage {
            EdgeStorage::TopN(table) => table.drain(),
            EdgeStorage::Streaming(map) => map.drain(),
        }
    }

    /// Number of distinct edges currently stored.
    pub fn len(&self) -> (n: usize)
        ensures
            n == self.counts().len(),
    {
        match &self.storage {
            EdgeStorage::TopN(table) => edge_map_len(&table.edges),
            EdgeStorage::Streaming(map) => edge_map_len(&map.edges),
        }
    }

    /// Whether a streaming accumulator holds `threshold` edges or more;
    /// a top-N accumulator never asks for a flush.
    pub fn should_flush(&self, threshold: usize) -> (b: bool)
        ensures
            b == (self.is_streaming() && self.counts().len() >= threshold),
    {
        match &self.storage {
            EdgeStorage::TopN(_) => false,
            EdgeStorage::Streaming(map) => edge_map_len(&map.edges) >= threshold,
        }
    }
}

proof fn lemma_sorted_entries_distinct(
    drained: Seq<(u64, u64, u64)>,
    sorted: Seq<(u64, u64, u64)>,
    all: Map<(u64, u64), u64>,
)
    requires
        lists_entries(drained, all),
        sorted.to_multiset() == drained.to_multiset(),
    ensures
        sorted.len() == drained.len(),
        forall|i: int|
            0 <= i < sorted.len() ==> all.contains_key(((#[trigger] sorted[i]).0, sorted[i].1))
                && all[(sorted[i].0, sorted[i].1)] == sorted[i].2,
        forall|a: int, b: int|
            0 <= a < sorted.len() && 0 <= b < sorted.len() && a != b ==> ((#[trigger] sorted[a]).0,
            sorted[a].1) != ((#[trigger] sorted[b]).0, sorted[b].1),
{
    broadcast use vstd::seq_lib::group_to_multiset_ensures;

    assert(drained.no_duplicates()) by {
        assert forall|i: int, j: int|
            0 <= i < drained.len() && 0 <= j < drained.len() && i != j implies drained[i]
            != drained[j] by {
            assert(((drained[i]).0, drained[i].1) != ((drained[j]).0, drained[j].1));
        }
    }
    drained.lemma_multiset_has_no_duplicates();
    assert(sorted.len() == sorted.to_multiset().len());
    assert(drained.len() == drained.to_multiset().len());
    assert forall|i: int| 0 <= i < sorted.len() implies all.contains_key(
        ((#[trigger] sorted[i]).0, sorted[i].1),
    ) && all[(sorted[i].0, sorted[i].1)] == sorted[i].2 by {
        assert(sorted.contains(sorted[i]));
        assert(sorted.to_multiset().count(sorted[i]) > 0);
        assert(drained.to_multiset().count(sorted[i]) > 0);
        assert(drained.contains(sorted[i]));
    }
    sorted.lemma_multiset_has_no_duplicates_conv();
    assert forall|a: int, b: int|
        0 <= a < sorted.len() && 0 <= b < sorted.len() && a != b implies ((#[trigger] sorted[a]).0,
        sorted[a].1) != ((#[trigger] sorted[b]).0, sorted[b].1) by {
        if (sorted[a].0, sorted[a].1) == (sorted[b].0, sorted[b].1) {
            assert(sorted.contains(sorted[a]));
            assert(sorted.contains(sorted[b]));
            assert(sorted[a] == sorted[b]);
        }
    }
}

proof fn lemma_top_selection(
    drained: Seq<(u64, u64, u64)>,
    sorted: Seq<(u64, u64, u64)>,
    all: Map<(u64, u64), u64>,
    kept: Map<(u64, u64), u64>,
    n: int,
)
    requires
        lists_entries(drained, all),
        sorted.to_multiset() == drained.to_multiset(),
        sorted.len() == drained.len(),
        0 <= n < sorted.len(),
        forall|i: int, j: int|
            0 <= i < j < sorted.len() ==> (#[trigger] sorted[i]).2 >= (#[trigger] sorted[j]).2,
        forall|i: int|
            0 <= i < sorted.len() ==> all.contains_key(((#[trigger] sorted[i]).0, sorted[i].1))
                && all[(sorted[i].0, sorted[i].1)] == sorted[i].2,
        kept.dom().finite(),
        kept.len() == n,
        forall|j: int|
            0 <= j < n ==> kept.contains_key(((#[trigger] sorted[j]).0, sorted[j].1))
                && kept[(sorted[j].0, sorted[j].1)] == sorted[j].2,
        forall|k: (u64, u64)| #[trigger]
            kept.contains_key(k) ==> exists|j: int|
                0 <= j < n && (#[trigger] sorted[j]).0 == k.0 && sorted[j].1 == k.1,
    ensures
        is_top_selection(kept, all, n as nat),
{
    broadcast use vstd::seq_lib::group_to_multiset_ensures;

    assert forall|k: (u64, u64)| #[trigger] kept.contains_key(k) implies all.contains_key(k)
        && kept[k] == all[k] by {
        let j = choose|j: int| 0 <= j < n && (#[trigger] sorted[j]).0 == k.0 && sorted[j].1 == k.1;
    }
    assert forall|k: (u64, u64), d: (u64, u64)|
        #[trigger] kept.contains_key(k) && #[trigger] all.contains_key(d) && !kept.contains_key(
            d,
        ) implies all[d] <= all[k] by {
        let j = choose|j: int| 0 <= j < n && (#[trigger] sorted[j]).0 == k.0 && sorted[j].1 == k.1;
        // d is drained at some index, hence sorted at some index t
        let w = choose|w: int| 0 <= w < drained.len() && (#[trigger] drained[w]).0 == d.0 && drained[w].1 == d.1;
        assert(drained.contains(drained[w]));
        assert(drained.to_multiset().count(drained[w]) > 0);
        assert(sorted.to_multiset().count(drained[w]) > 0);
        assert(sorted.contains(drained[w]));
        let t = choose|t: int| 0 <= t < sorted.len() && sorted[t] == drained[w];
        if t < n {
            assert(kept.contains_key((sorted[t].0, sorted[t].1)));
        }
        assert(t >= n);
        assert(sorted[j].2 >= sorted[t].2);
    }
}

} // verus!
