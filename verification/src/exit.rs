//! What the plugin derives from its records when the guest exits:
//! merged edge counts, fall-through edges, execution-weighted direct
//! call counts and resource annotations.

use vstd::prelude::*;
use crate::sorting::sort_pairs;
use std::collections::HashMap;
use crate::native::{EdgeRecord, edge_totals_fit, is_merge_of, try_merge_edges};
use crate::state::TbMeta;

verus! {

// --- Merging counts of equal pairs ---

/// `(a, b, count)` triples as edge records.
pub open spec fn as_edges(s: Seq<(u64, u64, u64)>) -> Seq<EdgeRecord> {
    s.map_values(|t: (u64, u64, u64)| EdgeRecord { from: t.0, to: t.1, count: t.2 })
}

/// Sums the counts of equal `(a, b)` pairs, each pair kept once in the
/// order of its first occurrence; `None` where a sum overflows a `u64`.
pub fn merge_triples(v: &Vec<(u64, u64, u64)>) -> (r: Option<Vec<(u64, u64, u64)>>)
    ensures
        r is Some <==> edge_totals_fit(as_edges(v@)),
        r matches Some(m) ==> is_merge_of(as_edges(m@), as_edges(v@)),
{
    let mut edges: Vec<EdgeRecord> = Vec::new();
    let mut i: usize = 0;
    while i < v.len()
        invariant
            i <= v@.len(),
            edges@ == as_edges(v@.take(i as int)),
        decreases v@.len() - i,
    {
        let t = v[i];
        edges.push(EdgeRecord { from: t.0, to: t.1, count: t.2 });
        i = i + 1;
        assert(edges@ =~= as_edges(v@.take(i as int)));
    }
    assert(v@.take(v@.len() as int) =~= v@);
    if !try_merge_edges(&mut edges) {
        return None;
    }
    let mut out: Vec<(u64, u64, u64)> = Vec::new();
    let mut j: usize = 0;
    while j < edges.len()
        invariant
            j <= edges@.len(),
            out@.len() == j,
            forall|x: int|
                0 <= x < j ==> #[trigger] out@[x] == (edges@[x].from, edges@[x].to, edges@[x].count),
        decreases edges@.len() - j,
    {
        let e = edges[j];
        out.push((e.from, e.to, e.count));
        j = j + 1;
    }
    assert(as_edges(out@) =~= edges@);
    Some(out)
}

// --- Fall-through edges ---

/// Entries into `a` counted by streaming flushes.
pub open spec fn extra_into(extra: Seq<(u64, u64)>, a: u64) -> int
    decreases extra.len(),
{
    if extra.len() == 0 {
        0
    } else {
        extra_into(extra.drop_last(), a) + if extra.last().0 == a {
            extra.last().1 as int
        } else {
            0
        }
    }
}

/// Entries into `a` by branch edges.
pub open spec fn edges_into(edges: Seq<(u64, u64, u64)>, a: u64) -> int
    decreases edges.len(),
{
    if edges.len() == 0 {
        0
    } else {
        edges_into(edges.drop_last(), a) + if edges.last().1 == a {
            edges.last().2 as int
        } else {
            0
        }
    }
}

/// All branch entries into `a`.
pub open spec fn entries_into(extra: Seq<(u64, u64)>, edges: Seq<(u64, u64, u64)>, a: u64) -> int {
    extra_into(extra, a) + edges_into(edges, a)
}

/// The branch entries into every address fit in a `u64`.
pub open spec fn entries_fit(extra: Seq<(u64, u64)>, edges: Seq<(u64, u64, u64)>) -> bool {
    forall|a: u64| #[trigger] entries_into(extra, edges, a) <= u64::MAX
}

/// The end address of the last TB of `tbs` that falls through to `a`.
pub open spec fn last_pred(tbs: Seq<TbMeta>, a: u64) -> Option<u64>
    decreases tbs.len(),
{
    if tbs.len() == 0 {
        None
    } else if tbs.last().fall_through_addr == a {
        Some(tbs.last().end_addr)
    } else {
        last_pred(tbs.drop_last(), a)
    }
}

/// The fall-through edge into the TB `t` run `exec` times: its runs not
/// entered by a branch, from the end of a TB that falls through to it,
/// where there are such runs and such a TB.
pub open spec fn fall_through_into(
    t: TbMeta,
    exec: u64,
    tbs: Seq<TbMeta>,
    extra: Seq<(u64, u64)>,
    edges: Seq<(u64, u64, u64)>,
) -> Option<(u64, u64, u64)> {
    let entered = entries_into(extra, edges, t.start_addr);
    if exec != 0 && exec > entered {
        match last_pred(tbs, t.start_addr) {
            Some(p) => Some((p, t.start_addr, (exec - entered) as u64)),
            None => None,
        }
    } else {
        None
    }
}

/// The fall-through edges into the first `k` TBs, in TB order.
pub open spec fn fall_throughs_spec(
    tbs: Seq<TbMeta>,
    execs: Seq<u64>,
    extra: Seq<(u64, u64)>,
    edges: Seq<(u64, u64, u64)>,
    k: int,
) -> Seq<(u64, u64, u64)>
    decreases k,
{
    if k <= 0 {
        Seq::empty()
    } else {
        let prev = fall_throughs_spec(tbs, execs, extra, edges, k - 1);
        match fall_through_into(tbs[k - 1], execs[k - 1], tbs, extra, edges) {
            Some(x) => prev.push(x),
            None => prev,
        }
    }
}

/// The edges of `fall_throughs_spec` over the first `k` blocks come
/// from those blocks.
proof fn lemma_fall_through_source(
    tbs: Seq<TbMeta>,
    execs: Seq<u64>,
    extra: Seq<(u64, u64)>,
    edges: Seq<(u64, u64, u64)>,
    k: int,
    j: int,
)
    requires
        0 <= k <= tbs.len(),
        execs.len() == tbs.len(),
        0 <= j < fall_throughs_spec(tbs, execs, extra, edges, k).len(),
    ensures
        exists|i: int|
            0 <= i < k && fall_through_into(tbs[i], execs[i], tbs, extra, edges) == Some(
                fall_throughs_spec(tbs, execs, extra, edges, k)[j],
            ),
    decreases k,
{
    let prev = fall_throughs_spec(tbs, execs, extra, edges, k - 1);
    if j < prev.len() {
        lemma_fall_through_source(tbs, execs, extra, edges, k - 1, j);
        let i = choose|i: int|
            0 <= i < k - 1 && fall_through_into(tbs[i], execs[i], tbs, extra, edges) == Some(
                prev[j],
            );
        assert(fall_throughs_spec(tbs, execs, extra, edges, k)[j] == prev[j]);
    } else {
        assert(fall_through_into(tbs[k - 1], execs[k - 1], tbs, extra, edges) == Some(
            fall_throughs_spec(tbs, execs, extra, edges, k)[j],
        ));
    }
}

/// Branch entries and fall-throughs add up to the runs of a block: each
/// fall-through edge into a block carries the runs of that block (some
/// block starting there) not entered by a branch, a positive number,
/// from the end of the last block that falls through to it.
pub proof fn law_fall_through_conservation(
    tbs: Seq<TbMeta>,
    execs: Seq<u64>,
    extra: Seq<(u64, u64)>,
    edges: Seq<(u64, u64, u64)>,
    j: int,
)
    requires
        execs.len() == tbs.len(),
        0 <= j < fall_throughs_spec(tbs, execs, extra, edges, tbs.len() as int).len(),
    ensures
        ({
            let e = fall_throughs_spec(tbs, execs, extra, edges, tbs.len() as int)[j];
            &&& e.2 > 0
            &&& last_pred(tbs, e.1) == Some(e.0)
            &&& exists|i: int|
                0 <= i < tbs.len() && (#[trigger] tbs[i]).start_addr == e.1 && e.2 + entries_into(
                    extra,
                    edges,
                    e.1,
                ) == execs[i]
        }),
{
    lemma_fall_through_source(tbs, execs, extra, edges, tbs.len() as int, j);
    let e = fall_throughs_spec(tbs, execs, extra, edges, tbs.len() as int)[j];
    let i = choose|i: int|
        0 <= i < tbs.len() && fall_through_into(tbs[i], execs[i], tbs, extra, edges) == Some(e);
    lemma_extra_into_nonneg(extra, e.1);
    lemma_edges_into_nonneg(edges, e.1);
    let entered = entries_into(extra, edges, tbs[i].start_addr);
    assert(execs[i] > entered && last_pred(tbs, tbs[i].start_addr) is Some);
    assert(e == (last_pred(tbs, tbs[i].start_addr)->0, tbs[i].start_addr, (execs[i] - entered) as u64));
    assert(tbs[i].start_addr == e.1);
}

/// The last block of `tbs` that falls through to `a` gives the edge's
/// source.
proof fn lemma_last_pred_is_last(tbs: Seq<TbMeta>, a: u64, j: int)
    requires
        0 <= j < tbs.len(),
        tbs[j].fall_through_addr == a,
        forall|k: int| j < k < tbs.len() ==> (#[trigger] tbs[k]).fall_through_addr != a,
    ensures
        last_pred(tbs, a) == Some(tbs[j].end_addr),
    decreases tbs.len(),
{
    if j < tbs.len() - 1 {
        assert(tbs.last() == tbs[tbs.len() - 1]);
        assert forall|k: int| j < k < tbs.drop_last().len() implies (
        #[trigger] tbs.drop_last()[k]).fall_through_addr != a by {
            assert(tbs.drop_last()[k] == tbs[k]);
        }
        lemma_last_pred_is_last(tbs.drop_last(), a, j);
        assert(tbs.drop_last()[j] == tbs[j]);
    }
}

/// The edge into block `i` is among the fall-through edges of the
/// first `k` blocks where `i < k`.
proof fn lemma_fall_through_listed(
    tbs: Seq<TbMeta>,
    execs: Seq<u64>,
    extra: Seq<(u64, u64)>,
    edges: Seq<(u64, u64, u64)>,
    i: int,
    k: int,
)
    requires
        0 <= i < k <= tbs.len(),
        execs.len() == tbs.len(),
        fall_through_into(tbs[i], execs[i], tbs, extra, edges) is Some,
    ensures
        fall_throughs_spec(tbs, execs, extra, edges, k).contains(
            fall_through_into(tbs[i], execs[i], tbs, extra, edges)->0,
        ),
    decreases k,
{
    let prev = fall_throughs_spec(tbs, execs, extra, edges, k - 1);
    if i < k - 1 {
        lemma_fall_through_listed(tbs, execs, extra, edges, i, k - 1);
        let x = fall_through_into(tbs[i], execs[i], tbs, extra, edges)->0;
        let p = choose|p: int| 0 <= p < prev.len() && prev[p] == x;
        assert(fall_throughs_spec(tbs, execs, extra, edges, k)[p] == x);
    } else {
        let x = fall_through_into(tbs[i], execs[i], tbs, extra, edges)->0;
        assert(fall_throughs_spec(tbs, execs, extra, edges, k) == prev.push(x));
        assert(prev.push(x)[prev.len() as int] == x);
    }
}

/// Every block that ran more often than branches entered it, and that
/// some block falls through to, gets a fall-through edge: from the end
/// of the last block that falls through to it, with the runs not
/// entered by a branch. In particular a block that no branch entered
/// gets an edge with all its runs.
pub proof fn law_fall_through_completeness(
    tbs: Seq<TbMeta>,
    execs: Seq<u64>,
    extra: Seq<(u64, u64)>,
    edges: Seq<(u64, u64, u64)>,
    i: int,
    j: int,
)
    requires
        execs.len() == tbs.len(),
        0 <= i < tbs.len(),
        0 <= j < tbs.len(),
        tbs[j].fall_through_addr == tbs[i].start_addr,
        forall|k: int| j < k < tbs.len() ==> (#[trigger] tbs[k]).fall_through_addr != tbs[i].start_addr,
        execs[i] > entries_into(extra, edges, tbs[i].start_addr),
    ensures
        fall_throughs_spec(tbs, execs, extra, edges, tbs.len() as int).contains(
            (
                tbs[j].end_addr,
                tbs[i].start_addr,
                (execs[i] - entries_into(extra, edges, tbs[i].start_addr)) as u64,
            ),
        ),
{
    lemma_last_pred_is_last(tbs, tbs[i].start_addr, j);
    lemma_extra_into_nonneg(extra, tbs[i].start_addr);
    lemma_edges_into_nonneg(edges, tbs[i].start_addr);
    lemma_fall_through_listed(tbs, execs, extra, edges, i, tbs.len() as int);
}

proof fn lemma_extra_into_nonneg(extra: Seq<(u64, u64)>, a: u64)
    ensures
        extra_into(extra, a) >= 0,
    decreases extra.len(),
{
    if extra.len() > 0 {
        lemma_extra_into_nonneg(extra.drop_last(), a);
    }
}

proof fn lemma_edges_into_nonneg(edges: Seq<(u64, u64, u64)>, a: u64)
    ensures
        edges_into(edges, a) >= 0,
    decreases edges.len(),
{
    if edges.len() > 0 {
        lemma_edges_into_nonneg(edges.drop_last(), a);
    }
}

proof fn lemma_extra_into_prefix(extra: Seq<(u64, u64)>, i: int, a: u64)
    requires
        0 <= i <= extra.len(),
    ensures
        extra_into(extra.take(i), a) <= extra_into(extra, a),
    decreases extra.len() - i,
{
    if i < extra.len() {
        lemma_extra_into_prefix(extra, i + 1, a);
        assert(extra.take(i + 1).drop_last() =~= extra.take(i));
    } else {
        assert(extra.take(i) =~= extra);
    }
}

pub proof fn lemma_edges_into_prefix(edges: Seq<(u64, u64, u64)>, i: int, a: u64)
    requires
        0 <= i <= edges.len(),
    ensures
        edges_into(edges.take(i), a) <= edges_into(edges, a),
    decreases edges.len() - i,
{
    if i < edges.len() {
        lemma_edges_into_prefix(edges, i + 1, a);
        assert(edges.take(i + 1).drop_last() =~= edges.take(i));
    } else {
        assert(edges.take(i) =~= edges);
    }
}

/// Totals of branch entries by target, with the sums over the flush
/// counts and then the edges: `None` where a sum overflows.
fn entry_totals(extra: &Vec<(u64, u64)>, edges: &Vec<(u64, u64, u64)>) -> (r: Option<
    HashMap<u64, u64>,
>)
    ensures
        r is Some <==> entries_fit(extra@, edges@),
        r matches Some(m) ==> forall|a: u64|
            #[trigger] entries_into(extra@, edges@, a) == if m@.contains_key(a) {
                m@[a] as int
            } else {
                0
            },
{
    broadcast use vstd::std_specs::hash::group_hash_axioms;

    let mut m: HashMap<u64, u64> = HashMap::new();
    let mut i: usize = 0;
    while i < extra.len()
        invariant
            i <= extra@.len(),
            forall|a: u64|
                #[trigger] extra_into(extra@.take(i as int), a) == if m@.contains_key(a) {
                    m@[a] as int
                } else {
                    0
                },
        decreases extra@.len() - i,
    {
        let (a, c) = extra[i];
        proof {
            assert(extra@.take(i + 1).drop_last() =~= extra@.take(i as int));
            assert forall|b: u64| #[trigger]
                extra_into(extra@.take(i + 1), b) == extra_into(extra@.take(i as int), b) + if b == a {
                    c as int
                } else {
                    0
                } by {}
        }
        let cur = match m.get(&a) {
            Some(v) => *v,
            None => 0,
        };
        if cur > u64::MAX - c {
            proof {
                assert(extra_into(extra@.take(i + 1), a) > u64::MAX);
                lemma_extra_into_prefix(extra@, i + 1, a);
                lemma_edges_into_nonneg(edges@, a);
                assert(entries_into(extra@, edges@, a) > u64::MAX);
            }
            return None;
        }
        m.insert(a, cur + c);
        i = i + 1;
    }
    assert(extra@.take(extra@.len() as int) =~= extra@);
    let mut j: usize = 0;
    while j < edges.len()
        invariant
            j <= edges@.len(),
            forall|a: u64|
                #[trigger] entries_into(extra@, edges@.take(j as int), a) == if m@.contains_key(a) {
                    m@[a] as int
                } else {
                    0
                },
        decreases edges@.len() - j,
    {
        let (_, a, c) = edges[j];
        proof {
            assert(edges@.take(j + 1).drop_last() =~= edges@.take(j as int));
            assert forall|b: u64| #[trigger]
                entries_into(extra@, edges@.take(j + 1), b) == entries_into(
                    extra@,
                    edges@.take(j as int),
                    b,
                ) + if b == a {
                    c as int
                } else {
                    0
                } by {}
        }
        let cur = match m.get(&a) {
            Some(v) => *v,
            None => 0,
        };
        if cur > u64::MAX - c {
            proof {
                assert(entries_into(extra@, edges@.take(j + 1), a) > u64::MAX);
                lemma_edges_into_prefix(edges@, j + 1, a);
                assert(entries_into(extra@, edges@, a) > u64::MAX);
            }
            return None;
        }
        m.insert(a, cur + c);
        j = j + 1;
    }
    assert(edges@.take(edges@.len() as int) =~= edges@);
    Some(m)
}

/// Computes the fall-through edges: for each TB that ran (with `execs[i]`
/// the runs of `tbs[i]`), the runs not entered by a branch (counted in
/// `edges` and the streaming flush counts `extra`), from the end of the
/// last TB that falls through to it. `None` where the entries into some
/// address overflow a `u64`.
pub fn compute_fall_throughs(
    tbs: &Vec<TbMeta>,
    execs: &Vec<u64>,
    edges: &Vec<(u64, u64, u64)>,
    extra: &Vec<(u64, u64)>,
) -> (r: Option<Vec<(u64, u64, u64)>>)
    requires
        execs@.len() == tbs@.len(),
    ensures
        r is Some <==> entries_fit(extra@, edges@),
        r matches Some(v) ==> v@ == fall_throughs_spec(
            tbs@,
            execs@,
            extra@,
            edges@,
            tbs@.len() as int,
        ),
{
    broadcast use vstd::std_specs::hash::group_hash_axioms;

    let totals = match entry_totals(extra, edges) {
        Some(m) => m,
        None => return None,
    };
    let n = tbs.len();
    // Fall-through address -> end of the last TB that falls through there.
    let mut preds: HashMap<u64, u64> = HashMap::new();
    let mut i: usize = 0;
    while i < n
        invariant
            n == tbs@.len(),
            i <= n,
            forall|a: u64|
                #[trigger] last_pred(tbs@.take(i as int), a) == if preds@.contains_key(a) {
                    Some(preds@[a])
                } else {
                    None
                },
        decreases n - i,
    {
        let t = tbs[i];
        proof {
            assert(tbs@.take(i + 1).drop_last() =~= tbs@.take(i as int));
            assert(tbs@.take(i + 1).last() == t);
            assert forall|b: u64| #[trigger]
                last_pred(tbs@.take(i + 1), b) == if t.fall_through_addr == b {
                    Some(t.end_addr)
                } else {
                    last_pred(tbs@.take(i as int), b)
                } by {}
        }
        preds.insert(t.fall_through_addr, t.end_addr);
        i = i + 1;
    }
    assert(tbs@.take(n as int) =~= tbs@);
    let mut out: Vec<(u64, u64, u64)> = Vec::new();
    let mut k: usize = 0;
    while k < n
        invariant
            n == tbs@.len(),
            n == execs@.len(),
            k <= n,
            forall|a: u64|
                #[trigger] last_pred(tbs@, a) == if preds@.contains_key(a) {
                    Some(preds@[a])
                } else {
                    None
                },
            forall|a: u64|
                #[trigger] entries_into(extra@, edges@, a) == if totals@.contains_key(a) {
                    totals@[a] as int
                } else {
                    0
                },
            out@ == fall_throughs_spec(tbs@, execs@, extra@, edges@, k as int),
        decreases n - k,
    {
        let t = tbs[k];
        let exec = execs[k];
        let entered = match totals.get(&t.start_addr) {
            Some(v) => *v,
            None => 0,
        };
        assert(entered == entries_into(extra@, edges@, t.start_addr));
        let ft = exec.saturating_sub(entered);
        if exec != 0 && ft > 0 {
            match preds.get(&t.start_addr) {
                Some(p) => {
                    out.push((*p, t.start_addr, ft));
                },
                None => {},
            }
        }
        k = k + 1;
    }
    Some(out)
}

// --- Direct call counts ---

/// `c` is the weight of a direct call from `cs`: the runs of a TB
/// with the greatest start address at or below `cs` (any one of them
/// where several share it), if `cs` lies at or before that TB's last
/// instruction; 0 otherwise, and where no TB starts at or below `cs`.
pub open spec fn is_call_weight(tbs: Seq<TbMeta>, execs: Seq<u64>, cs: u64, c: u64) -> bool {
    ||| (forall|j: int| 0 <= j < tbs.len() ==> (#[trigger] tbs[j]).start_addr > cs) && c == 0
    ||| exists|j: int|
        0 <= j < tbs.len() && (#[trigger] tbs[j]).start_addr <= cs && (forall|k: int|
            0 <= k < tbs.len() && (#[trigger] tbs[k]).start_addr <= cs ==> tbs[k].start_addr
                <= tbs[j].start_addr) && c == if cs <= tbs[j].end_addr {
            execs[j]
        } else {
            0
        }
}

/// Weights each direct call `(call site, target)` by the runs of the TB
/// that holds its call site, found by binary search over the TBs sorted
/// by start address.
pub fn direct_call_counts(tbs: &Vec<TbMeta>, execs: &Vec<u64>, calls: &Vec<(u64, u64)>) -> (r: Vec<
    (u64, u64, u64),
>)
    requires
        execs@.len() == tbs@.len(),
    ensures
        r@.len() == calls@.len(),
        forall|i: int|
            0 <= i < r@.len() ==> (#[trigger] r@[i]).0 == calls@[i].0 && r@[i].1 == calls@[i].1
                && is_call_weight(tbs@, execs@, calls@[i].0, r@[i].2),
{
    broadcast use vstd::seq_lib::group_to_multiset_ensures;

    let n = tbs.len();
    let mut keys: Vec<(u64, u64)> = Vec::new();
    let mut f: usize = 0;
    while f < n
        invariant
            n == tbs@.len(),
            f <= n,
            keys@.len() == f,
            forall|a: int| 0 <= a < f ==> #[trigger] keys@[a] == (tbs@[a].start_addr, a as u64),
        decreases n - f,
    {
        keys.push((tbs[f].start_addr, f as u64));
        f = f + 1;
    }
    let ghost k0 = keys@;
    sort_pairs(&mut keys);
    proof {
        assert(keys@.len() == n) by {
            assert(keys@.to_multiset().len() == k0.to_multiset().len());
        }
        assert forall|a: int| 0 <= a < keys@.len() implies (#[trigger] keys@[a]).1 < n && keys@[a].0
            == tbs@[keys@[a].1 as int].start_addr by {
            assert(keys@.contains(keys@[a]));
            assert(keys@.to_multiset().count(keys@[a]) > 0);
            assert(k0.contains(keys@[a]));
        }
        assert forall|g: int| 0 <= g < n implies keys@.contains(#[trigger] k0[g]) by {
            assert(k0.contains(k0[g]));
            assert(k0.to_multiset().count(k0[g]) > 0);
            assert(keys@.contains(k0[g]));
        }
    }
    assert forall|g: int| 0 <= g < n implies #[trigger] k0[g] == (tbs@[g].start_addr, g as u64) by {}
    let mut out: Vec<(u64, u64, u64)> = Vec::new();
    let mut i: usize = 0;
    while i < calls.len()
        invariant
            n == tbs@.len(),
            k0.len() == n,
            n == execs@.len(),
            n == keys@.len(),
            forall|a: int| 0 <= a < n ==> (#[trigger] keys@[a]).1 < n && keys@[a].0 == tbs@[keys@[a].1 as int].start_addr,
            forall|g: int| 0 <= g < n ==> keys@.contains(#[trigger] k0[g]),
            forall|g: int| 0 <= g < n ==> #[trigger] k0[g] == (tbs@[g].start_addr, g as u64),
            forall|x: int, y: int|
                0 <= x < y < keys@.len() ==> (#[trigger] keys@[x]).0 < (#[trigger] keys@[y]).0 || (
                keys@[x].0 == keys@[y].0 && keys@[x].1 <= keys@[y].1),
            i <= calls@.len(),
            out@.len() == i,
            forall|j: int|
                0 <= j < i ==> (#[trigger] out@[j]).0 == calls@[j].0 && out@[j].1 == calls@[j].1
                    && is_call_weight(tbs@, execs@, calls@[j].0, out@[j].2),
        decreases calls@.len() - i,
    {
        let (cs, tgt) = calls[i];
        // First sorted position whose start lies above the call site.
        let mut lo: usize = 0;
        let mut hi: usize = n;
        while lo < hi
            invariant
                n == keys@.len(),
                lo <= hi <= n,
                forall|x: int, y: int|
                    0 <= x < y < keys@.len() ==> (#[trigger] keys@[x]).0 < (#[trigger] keys@[y]).0 || (
                    keys@[x].0 == keys@[y].0 && keys@[x].1 <= keys@[y].1),
                forall|x: int| 0 <= x < lo ==> (#[trigger] keys@[x]).0 <= cs,
                forall|x: int| hi <= x < n ==> (#[trigger] keys@[x]).0 > cs,
            decreases hi - lo,
        {
            let mid = lo + (hi - lo) / 2;
            if keys[mid].0 <= cs {
                lo = mid + 1;
            } else {
                hi = mid;
            }
        }
        let count = if lo > 0 {
            let j = keys[lo - 1].1 as usize;
            let t = tbs[j];
            proof {
                assert forall|k: int| 0 <= k < tbs@.len() && (#[trigger] tbs@[k]).start_addr <= cs implies tbs@[k].start_addr
                    <= tbs@[j as int].start_addr by {
                    assert(keys@.contains(k0[k]));
                    let a = choose|a: int| 0 <= a < keys@.len() && keys@[a] == k0[k];
                    assert(keys@[a].0 == tbs@[k].start_addr);
                    if a >= lo {
                        assert(keys@[a].0 > cs);
                    } else if a < lo - 1 {
                        assert(keys@[a].0 <= keys@[lo - 1].0);
                    }
                }
            }
            if cs <= t.end_addr {
                execs[j]
            } else {
                0
            }
        } else {
            proof {
                assert forall|k: int| 0 <= k < tbs@.len() implies (#[trigger] tbs@[k]).start_addr > cs by {
                    assert(keys@.contains(k0[k]));
                    let a = choose|a: int| 0 <= a < keys@.len() && keys@[a] == k0[k];
                    assert(keys@[a].0 == tbs@[k].start_addr);
                }
            }
            0
        };
        out.push((cs, tgt, count));
        i = i + 1;
    }
    out
}

// --- Resources and TB batches ---

/// The TBs with coprocessor flags, as `(start address, flags)`.
pub open spec fn resources_spec(tbs: Seq<TbMeta>) -> Seq<(u64, u32)>
    decreases tbs.len(),
{
    if tbs.len() == 0 {
        Seq::empty()
    } else if tbs.last().coproc_flags != 0 {
        resources_spec(tbs.drop_last()).push((tbs.last().start_addr, tbs.last().coproc_flags))
    } else {
        resources_spec(tbs.drop_last())
    }
}

/// The TBs with coprocessor flags, in TB order.
pub fn tb_resources(tbs: &Vec<TbMeta>) -> (r: Vec<(u64, u32)>)
    ensures
        r@ == resources_spec(tbs@),
{
    let mut out: Vec<(u64, u32)> = Vec::new();
    let mut i: usize = 0;
    while i < tbs.len()
        invariant
            i <= tbs@.len(),
            out@ == resources_spec(tbs@.take(i as int)),
        decreases tbs@.len() - i,
    {
        let t = tbs[i];
        proof {
            assert(tbs@.take(i + 1).drop_last() =~= tbs@.take(i as int));
        }
        if t.coproc_flags != 0 {
            out.push((t.start_addr, t.coproc_flags));
        }
        i = i + 1;
    }
    assert(tbs@.take(tbs@.len() as int) =~= tbs@);
    out
}

/// The TB execution entries: `(start, end, n_insns, runs, first seen)`
/// for each TB, in TB order.
pub fn tb_exec_entries(tbs: &Vec<TbMeta>, execs: &Vec<u64>) -> (r: Vec<(u64, u64, u16, u64, u64)>)
    requires
        execs@.len() == tbs@.len(),
    ensures
        r@.len() == tbs@.len(),
        forall|i: int|
            0 <= i < r@.len() ==> #[trigger] r@[i] == (
                tbs@[i].start_addr,
                tbs@[i].end_addr,
                tbs@[i].n_insns,
                execs@[i],
                tbs@[i].first_seen_seq,
            ),
{
    let mut out: Vec<(u64, u64, u16, u64, u64)> = Vec::new();
    let mut i: usize = 0;
    while i < tbs.len()
        invariant
            i <= tbs@.len(),
            execs@.len() == tbs@.len(),
            out@.len() == i,
            forall|j: int|
                0 <= j < i ==> #[trigger] out@[j] == (
                    tbs@[j].start_addr,
                    tbs@[j].end_addr,
                    tbs@[j].n_insns,
                    execs@[j],
                    tbs@[j].first_seen_seq,
                ),
        decreases tbs@.len() - i,
    {
        let t = tbs[i];
        out.push((t.start_addr, t.end_addr, t.n_insns, execs[i], t.first_seen_seq));
        i = i + 1;
    }
    out
}

} // verus!
