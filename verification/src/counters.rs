//! Per-vCPU call counters and the run-wide maps of the plugin, kept in
//! `FxHashMap`s: indirect call targets by call site, branch-entry counts
//! by target, and the set of direct calls.

use vstd::prelude::*;
use rustc_hash::FxHashMap;
use crate::edge_storage::lists_entries;

verus! {

// --- Indirect calls: call site -> target -> count ---

/// The count of each `(call site, target)` pair in a nested map.
pub uninterp spec fn nested_counts(m: FxHashMap<u64, FxHashMap<u64, u64>>) -> Map<(u64, u64), u64>;

/// The map with no pairs.
pub open spec fn no_pairs() -> Map<(u64, u64), u64> {
    Map::empty()
}

/// `FxHashMap::default`: an empty map.
#[verifier::external_body]
fn nested_new() -> (m: FxHashMap<u64, FxHashMap<u64, u64>>)
    ensures
        nested_counts(m) == no_pairs(),
{
    FxHashMap::default()
}

/// `HashMap::get` on both levels: the count of `(cs, t)`, if present.
#[verifier::external_body]
fn nested_get(m: &FxHashMap<u64, FxHashMap<u64, u64>>, cs: u64, t: u64) -> (r: Option<u64>)
    ensures
        r == (if nested_counts(*m).contains_key((cs, t)) {
            Some(nested_counts(*m)[(cs, t)])
        } else {
            None
        }),
{
    m.get(&cs).and_then(|inner| inner.get(&t)).copied()
}

/// `HashMap::entry(cs).or_default()` then `HashMap::insert(t, c)`: sets
/// the count of `(cs, t)`.
#[verifier::external_body]
fn nested_set(m: &mut FxHashMap<u64, FxHashMap<u64, u64>>, cs: u64, t: u64, c: u64)
    ensures
        nested_counts(*final(m)) == nested_counts(*old(m)).insert((cs, t), c),
{
    m.entry(cs).or_default().insert(t, c);
}

/// `HashMap::iter` on both levels, each entry as `(cs, t, count)`, in
/// the maps' iteration order (left unsaid).
#[verifier::external_body]
fn nested_entries(m: &FxHashMap<u64, FxHashMap<u64, u64>>) -> (v: Vec<(u64, u64, u64)>)
    ensures
        lists_entries(v@, nested_counts(*m)),
{
    m.iter().flat_map(|(&cs, ts)| ts.iter().map(move |(&t, &c)| (cs, t, c))).collect()
}

/// `(cs, t)` counted once more.
pub open spec fn bump_pair(m: Map<(u64, u64), u64>, k: (u64, u64)) -> Map<(u64, u64), u64> {
    m.insert(
        k,
        if m.contains_key(k) {
            (m[k] + 1) as u64
        } else {
            1
        },
    )
}

/// Indirect call targets of one vCPU, counted by call site and target.
pub struct IndirectCalls {
    map: FxHashMap<u64, FxHashMap<u64, u64>>,
}

impl IndirectCalls {
    /// The count of each `(call site, target)` pair.
    pub closed spec fn counts(&self) -> Map<(u64, u64), u64> {
        nested_counts(self.map)
    }

    /// No calls yet.
    pub fn new() -> (c: Self)
        ensures
            c.counts() == no_pairs(),
    {
        IndirectCalls { map: nested_new() }
    }

    /// Counts one call from `callsite` to `target`, unless its count
    /// has reached `u64::MAX`: then nothing changes and `false` is
    /// returned.
    pub fn record(&mut self, callsite: u64, target: u64) -> (ok: bool)
        ensures
            ok == !(old(self).counts().contains_key((callsite, target)) && old(self).counts()[(
                callsite,
                target,
            )] == u64::MAX),
            ok ==> final(self).counts() == bump_pair(old(self).counts(), (callsite, target)),
            !ok ==> final(self).counts() == old(self).counts(),
    {
        let c = match nested_get(&self.map, callsite, target) {
            Some(c) => {
                if c == u64::MAX {
                    return false;
                }
                c + 1
            },
            None => 1,
        };
        nested_set(&mut self.map, callsite, target, c);
        true
    }

    /// The counts as `(call site, target, count)`, each pair once, in no
    /// promised order.
    pub fn entries(&self) -> (v: Vec<(u64, u64, u64)>)
        ensures
            lists_entries(v@, self.counts()),
    {
        nested_entries(&self.map)
    }
}

// --- Branch entries: target -> count ---

/// The count of each target in a map.
pub uninterp spec fn target_counts(m: FxHashMap<u64, u64>) -> Map<u64, u64>;

/// The map with no targets.
pub open spec fn no_targets() -> Map<u64, u64> {
    Map::empty()
}

/// `FxHashMap::default`: an empty map.
#[verifier::external_body]
fn targets_new() -> (m: FxHashMap<u64, u64>)
    ensures
        target_counts(m) == no_targets(),
{
    FxHashMap::default()
}

/// `HashMap::get`: the count of `t`, if present.
#[verifier::external_body]
fn targets_get(m: &FxHashMap<u64, u64>, t: u64) -> (r: Option<u64>)
    ensures
        r == (if target_counts(*m).contains_key(t) {
            Some(target_counts(*m)[t])
        } else {
            None
        }),
{
    m.get(&t).copied()
}

/// `HashMap::insert`: sets the count of `t`.
#[verifier::external_body]
fn targets_set(m: &mut FxHashMap<u64, u64>, t: u64, c: u64)
    ensures
        target_counts(*final(m)) == target_counts(*old(m)).insert(t, c),
{
    m.insert(t, c);
}

/// `HashMap::iter`, each entry as `(target, count)`, in the map's
/// iteration order (left unsaid).
#[verifier::external_body]
fn targets_entries(m: &FxHashMap<u64, u64>) -> (v: Vec<(u64, u64)>)
    ensures
        lists_targets(v@, target_counts(*m)),
{
    m.iter().map(|(&t, &c)| (t, c)).collect()
}

/// `v` lists the entries of `m`, each target once.
pub open spec fn lists_targets(v: Seq<(u64, u64)>, m: Map<u64, u64>) -> bool {
    &&& m.dom().finite()
    &&& v.len() == m.len()
    &&& forall|i: int| 0 <= i < v.len() ==> m.contains_key((#[trigger] v[i]).0) && m[v[i].0] == v[i].1
    &&& forall|i: int, j: int|
        0 <= i < v.len() && 0 <= j < v.len() && i != j ==> (#[trigger] v[i]).0 != (#[trigger] v[j]).0
    &&& forall|t: u64| #[trigger] m.contains_key(t) ==> exists|i: int| 0 <= i < v.len() && (#[trigger] v[i]).0 == t
}

/// The count of `t` in `m`, 0 where it has none.
pub open spec fn entry_count(m: Map<u64, u64>, t: u64) -> int {
    if m.contains_key(t) {
        m[t] as int
    } else {
        0
    }
}

/// Branch-entry counts by target, accumulated over streaming flushes.
pub struct BranchEntries {
    map: FxHashMap<u64, u64>,
}

impl BranchEntries {
    /// The count of each target.
    pub closed spec fn counts(&self) -> Map<u64, u64> {
        target_counts(self.map)
    }

    /// No entries yet.
    pub fn new() -> (b: Self)
        ensures
            b.counts() == no_targets(),
    {
        BranchEntries { map: targets_new() }
    }

    /// Adds `count` entries into `target`; `false`, with nothing
    /// changed, where the sum would overflow.
    pub fn add(&mut self, target: u64, count: u64) -> (ok: bool)
        ensures
            ok == !(old(self).counts().contains_key(target) && old(self).counts()[target] + count
                > u64::MAX),
            ok ==> final(self).counts() == old(self).counts().insert(
                target,
                (if old(self).counts().contains_key(target) {
                    old(self).counts()[target] + count
                } else {
                    count as int
                }) as u64,
            ),
            !ok ==> final(self).counts() == old(self).counts(),
    {
        let c = match targets_get(&self.map, target) {
            Some(c) => {
                if c > u64::MAX - count {
                    return false;
                }
                c + count
            },
            None => count,
        };
        targets_set(&mut self.map, target, c);
        true
    }

    /// The counts as `(target, count)`, each target once, in no promised
    /// order.
    pub fn entries(&self) -> (v: Vec<(u64, u64)>)
        ensures
            lists_targets(v@, self.counts()),
    {
        targets_entries(&self.map)
    }
}

// --- Direct calls: a set of (call site, target) ---

/// The pairs held by a set-like map.
pub uninterp spec fn pair_set(m: FxHashMap<(u64, u64), ()>) -> Set<(u64, u64)>;

/// The set with no pairs.
pub open spec fn no_call_pairs() -> Set<(u64, u64)> {
    Set::empty()
}

/// `FxHashMap::default`: an empty set.
#[verifier::external_body]
fn pairs_new() -> (m: FxHashMap<(u64, u64), ()>)
    ensures
        pair_set(m) == no_call_pairs(),
{
    FxHashMap::default()
}

/// `HashMap::insert` with the unit value: adds a pair.
#[verifier::external_body]
fn pairs_insert(m: &mut FxHashMap<(u64, u64), ()>, k: (u64, u64))
    ensures
        pair_set(*final(m)) == pair_set(*old(m)).insert(k),
{
    m.insert(k, ());
}

/// `HashMap::keys`, in the map's iteration order (left unsaid).
#[verifier::external_body]
fn pairs_keys(m: &FxHashMap<(u64, u64), ()>) -> (v: Vec<(u64, u64)>)
    ensures
        v@.no_duplicates(),
        v@.to_set() == pair_set(*m),
{
    m.keys().copied().collect()
}

/// Direct calls found at translation time, as `(call site, target)`.
pub struct DirectCalls {
    map: FxHashMap<(u64, u64), ()>,
}

impl DirectCalls {
    /// The calls.
    pub closed spec fn pairs(&self) -> Set<(u64, u64)> {
        pair_set(self.map)
    }

    /// No calls yet.
    pub fn new() -> (d: Self)
        ensures
            d.pairs() == no_call_pairs(),
    {
        DirectCalls { map: pairs_new() }
    }

    /// Adds the call from `callsite` to `target`.
    pub fn insert(&mut self, callsite: u64, target: u64)
        ensures
            final(self).pairs() == old(self).pairs().insert((callsite, target)),
    {
        pairs_insert(&mut self.map, (callsite, target));
    }

    /// The calls, each once, in no promised order.
    pub fn list(&self) -> (v: Vec<(u64, u64)>)
        ensures
            v@.no_duplicates(),
            v@.to_set() == self.pairs(),
    {
        pairs_keys(&self.map)
    }
}

} // verus!
