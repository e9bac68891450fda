//! Tier-3 resource tracking: counts of control-flow discontinuities
//! (interrupts, exceptions, host calls) and the devices that each
//! block touched through MMIO.

use vstd::prelude::*;
use std::collections::HashMap;
use crate::bytes::str_eq;
use crate::native::DisconRecord;
use vstd::string::StringExecFns;

verus! {

// --- Discontinuity counts ---

/// `e` is the event `(kind, from, to)`.
pub open spec fn is_event(e: DisconRecord, kind: u32, from: u64, to: u64) -> bool {
    e.discon_type == kind && e.from_pc == from && e.to_pc == to
}

/// No event occurs twice in `s`.
pub open spec fn events_distinct(s: Seq<DisconRecord>) -> bool {
    forall|i: int, j: int|
        0 <= i < s.len() && 0 <= j < s.len() && i != j ==> !is_event(
            #[trigger] s[i],
            (#[trigger] s[j]).discon_type,
            s[j].from_pc,
            s[j].to_pc,
        )
}

/// How often each discontinuity `(kind, from, to)` happened, in order
/// of first occurrence; the events are filed by source address.
pub struct DisconCounts {
    events: Vec<DisconRecord>,
    by_from: HashMap<u64, Vec<usize>>,
}

impl DisconCounts {
    /// The events with their counts, in order of first occurrence.
    pub closed spec fn events(&self) -> Seq<DisconRecord> {
        self.events@
    }

    /// Each event occurs once and is filed under its source address.
    pub closed spec fn wf(&self) -> bool {
        &&& events_distinct(self.events@)
        &&& forall|p: int|
            0 <= p < self.events@.len() ==> self.by_from@.contains_key(
                (#[trigger] self.events@[p]).from_pc,
            ) && self.by_from@[self.events@[p].from_pc]@.contains(p as usize)
        &&& forall|k: u64, i: int|
            #[trigger] self.by_from@.contains_key(k) && 0 <= i < self.by_from@[k]@.len() ==> (
            #[trigger] self.by_from@[k]@[i]) < self.events@.len() && self.events@[self.by_from@[k]@[i] as int].from_pc
                == k
    }

    /// No events yet.
    pub fn new() -> (d: Self)
        ensures
            d.wf(),
            d.events() == Seq::<DisconRecord>::empty(),
    {
        broadcast use vstd::std_specs::hash::group_hash_axioms;

        DisconCounts { events: Vec::new(), by_from: HashMap::new() }
    }

    /// The position of the event `(kind, from, to)`, if it was seen.
    fn find(&self, kind: u32, from: u64, to: u64) -> (r: Option<usize>)
        requires
            self.wf(),
        ensures
            match r {
                Some(p) => p < self.events().len() && is_event(self.events()[p as int], kind, from, to),
                None => forall|p: int|
                    0 <= p < self.events().len() ==> !is_event(
                        #[trigger] self.events()[p],
                        kind,
                        from,
                        to,
                    ),
            },
    {
        broadcast use vstd::std_specs::hash::group_hash_axioms;

        match self.by_from.get(&from) {
            None => {
                assert forall|p: int| 0 <= p < self.events().len() implies !is_event(
                    #[trigger] self.events()[p],
                    kind,
                    from,
                    to,
                ) by {
                    assert(self.by_from@.contains_key(self.events@[p].from_pc));
                }
                None
            },
            Some(ps) => {
                assert(self.by_from@.contains_key(from));
                let mut i: usize = 0;
                while i < ps.len()
                    invariant
                        self.wf(),
                        self.by_from@.contains_key(from),
                        ps@ == self.by_from@[from]@,
                        i <= ps@.len(),
                        forall|x: int| 0 <= x < i ==> !is_event(
                            self.events@[(#[trigger] ps@[x]) as int],
                            kind,
                            from,
                            to,
                        ),
                    decreases ps@.len() - i,
                {
                    let p = ps[i];
                    assert(self.by_from@[from]@[i as int] == p);
                    let e = &self.events[p];
                    if e.discon_type == kind && e.to_pc == to {
                        return Some(p);
                    }
                    i = i + 1;
                }
                let n = self.events.len();
                assert forall|p: int| 0 <= p < self.events().len() implies !is_event(
                    #[trigger] self.events()[p],
                    kind,
                    from,
                    to,
                ) by {
                    if self.events@[p].from_pc == from {
                        assert(self.by_from@.contains_key(self.events@[p].from_pc));
                        assert(self.by_from@[from]@.contains(p as usize));
                        let x = choose|x: int| 0 <= x < ps@.len() && ps@[x] == p as usize;
                        assert(p < n);
                        assert(ps@[x] as int == p);
                        assert(!is_event(self.events@[ps@[x] as int], kind, from, to));
                    }
                }
                None
            },
        }
    }

    /// Counts one occurrence of the event `(kind, from, to)`: a new
    /// event is added with count 1, a known one counted once more. A
    /// count already at `u64::MAX` stays, and `false` is returned.
    pub fn record(&mut self, kind: u32, from: u64, to: u64) -> (ok: bool)
        requires
            old(self).wf(),
        ensures
            final(self).wf(),
            forall|p: int|
                0 <= p < old(self).events().len() && is_event(
                    #[trigger] old(self).events()[p],
                    kind,
                    from,
                    to,
                ) ==> (ok <==> old(self).events()[p].count < u64::MAX) && final(self).events() == if ok {
                    old(self).events().update(
                        p,
                        DisconRecord {
                            discon_type: kind,
                            from_pc: from,
                            to_pc: to,
                            count: (old(self).events()[p].count + 1) as u64,
                        },
                    )
                } else {
                    old(self).events()
                },
            (forall|p: int|
                0 <= p < old(self).events().len() ==> !is_event(
                    #[trigger] old(self).events()[p],
                    kind,
                    from,
                    to,
                )) ==> ok && final(self).events() == old(self).events().push(
                DisconRecord { discon_type: kind, from_pc: from, to_pc: to, count: 1 },
            ),
    {
        broadcast use vstd::std_specs::hash::group_hash_axioms;

        let ghost e0 = self.events@;
        match self.find(kind, from, to) {
            Some(p) => {
                let c = self.events[p].count;
                if c == u64::MAX {
                    return false;
                }
                let rec = DisconRecord { discon_type: kind, from_pc: from, to_pc: to, count: c + 1 };
                self.events.set(p, rec);
                proof {
                    assert forall|q: int| 0 <= q < e0.len() && is_event(#[trigger] e0[q], kind, from, to)
                        implies q == p by {}
                    assert forall|x: int, y: int|
                        0 <= x < self.events@.len() && 0 <= y < self.events@.len() && x != y implies !is_event(
                        #[trigger] self.events@[x],
                        (#[trigger] self.events@[y]).discon_type,
                        self.events@[y].from_pc,
                        self.events@[y].to_pc,
                    ) by {
                        assert(!is_event(e0[x], e0[y].discon_type, e0[y].from_pc, e0[y].to_pc));
                    }
                    assert forall|q: int| 0 <= q < self.events@.len() implies self.by_from@.contains_key(
                        (#[trigger] self.events@[q]).from_pc,
                    ) && self.by_from@[self.events@[q].from_pc]@.contains(q as usize) by {
                        assert(e0[q].from_pc == self.events@[q].from_pc);
                    }
                }
                true
            },
            None => {
                let pos = self.events.len();
                self.events.push(DisconRecord { discon_type: kind, from_pc: from, to_pc: to, count: 1 });
                let mut l = match self.by_from.remove(&from) {
                    Some(l) => l,
                    None => Vec::new(),
                };
                let ghost l0 = l@;
                l.push(pos);
                let ghost m0 = old(self).by_from@;
                self.by_from.insert(from, l);
                proof {
                    assert(l0 == if m0.contains_key(from) { m0[from]@ } else { Seq::<usize>::empty() });
                    assert forall|x: int, y: int|
                        0 <= x < self.events@.len() && 0 <= y < self.events@.len() && x != y implies !is_event(
                        #[trigger] self.events@[x],
                        (#[trigger] self.events@[y]).discon_type,
                        self.events@[y].from_pc,
                        self.events@[y].to_pc,
                    ) by {
                        if x < pos && y < pos {
                            assert(self.events@[x] == e0[x] && self.events@[y] == e0[y]);
                        } else if x < pos {
                            assert(self.events@[x] == e0[x]);
                        } else if y < pos {
                            assert(self.events@[y] == e0[y]);
                        }
                    }
                    assert forall|q: int| 0 <= q < self.events@.len() implies self.by_from@.contains_key(
                        (#[trigger] self.events@[q]).from_pc,
                    ) && self.by_from@[self.events@[q].from_pc]@.contains(q as usize) by {
                        if q < pos {
                            assert(self.events@[q] == e0[q]);
                            let k = e0[q].from_pc;
                            assert(m0.contains_key(k) && m0[k]@.contains(q as usize));
                            if k == from {
                                let x = choose|x: int| 0 <= x < l0.len() && l0[x] == q as usize;
                                assert(self.by_from@[from]@[x] == q as usize);
                            }
                        } else {
                            assert(self.by_from@[from]@[l0.len() as int] == pos);
                        }
                    }
                    assert forall|k: u64, i: int|
                        #[trigger] self.by_from@.contains_key(k) && 0 <= i < self.by_from@[k]@.len() implies (
                        #[trigger] self.by_from@[k]@[i]) < self.events@.len()
                            && self.events@[self.by_from@[k]@[i] as int].from_pc == k by {
                        if k == from {
                            if i < l0.len() {
                                assert(self.by_from@[k]@[i] == m0[k]@[i]);
                            }
                        } else {
                            assert(self.by_from@[k] == m0[k]);
                        }
                    }
                }
                true
            },
        }
    }

    /// The events with their counts, in order of first occurrence.
    pub fn list(&self) -> (v: Vec<DisconRecord>)
        ensures
            v@ == self.events(),
    {
        self.events.clone()
    }
}

// --- Device accesses ---

/// An entry by its values: the block's address and the device names.
pub open spec fn access_view(e: (u64, Vec<String>)) -> (u64, Seq<Seq<char>>) {
    (e.0, e.1@.map_values(|s: String| s@))
}

/// Whether `name` is one of `names`.
fn names_contain(names: &Vec<String>, name: &str) -> (b: bool)
    ensures
        b == names@.map_values(|s: String| s@).contains(name@),
{
    let ghost nv = names@.map_values(|s: String| s@);
    let mut i: usize = 0;
    while i < names.len()
        invariant
            i <= names@.len(),
            nv == names@.map_values(|s: String| s@),
            forall|x: int| 0 <= x < i ==> nv[x] != name@,
        decreases names@.len() - i,
    {
        if str_eq(names[i].as_str(), name) {
            assert(nv[i as int] == name@);
            return true;
        }
        i = i + 1;
    }
    false
}

/// The devices each block touched through MMIO: one entry per block in
/// order of its first access, each device named once, in order of its
/// first access from that block.
pub struct DeviceAccesses {
    entries: Vec<(u64, Vec<String>)>,
    index: HashMap<u64, usize>,
}

impl DeviceAccesses {
    /// The entries: a block's address and the names of its devices.
    pub closed spec fn entries(&self) -> Seq<(u64, Seq<Seq<char>>)> {
        self.entries@.map_values(|e: (u64, Vec<String>)| access_view(e))
    }

    /// Each block has one entry, found by its address, and names each
    /// device once.
    pub closed spec fn wf(&self) -> bool {
        &&& forall|p: int|
            0 <= p < self.entries@.len() ==> self.index@.contains_key((#[trigger] self.entries@[p]).0)
                && self.index@[self.entries@[p].0] == p
        &&& forall|k: u64|
            #[trigger] self.index@.contains_key(k) ==> self.index@[k] < self.entries@.len()
                && self.entries@[self.index@[k] as int].0 == k
        &&& forall|p: int| 0 <= p < self.entries@.len() ==> (#[trigger] self.entries()[p]).1.no_duplicates()
    }

    /// No accesses yet.
    pub fn new() -> (d: Self)
        ensures
            d.wf(),
            d.entries() == Seq::<(u64, Seq<Seq<char>>)>::empty(),
    {
        broadcast use vstd::std_specs::hash::group_hash_axioms;

        let d = DeviceAccesses { entries: Vec::new(), index: HashMap::new() };
        assert(d.entries() =~= Seq::<(u64, Seq<Seq<char>>)>::empty());
        d
    }

    /// Notes that the block at `tb_addr` touched the device `name`: a
    /// new block gets an entry with that name, a known block the name
    /// where it does not have it yet.
    pub fn record(&mut self, tb_addr: u64, name: &str)
        requires
            old(self).wf(),
        ensures
            final(self).wf(),
            forall|p: int|
                0 <= p < old(self).entries().len() && (#[trigger] old(self).entries()[p]).0 == tb_addr
                    ==> final(self).entries() == if old(self).entries()[p].1.contains(name@) {
                    old(self).entries()
                } else {
                    old(self).entries().update(p, (tb_addr, old(self).entries()[p].1.push(name@)))
                },
            (forall|p: int|
                0 <= p < old(self).entries().len() ==> (#[trigger] old(self).entries()[p]).0 != tb_addr)
                ==> final(self).entries() == old(self).entries().push((tb_addr, seq![name@])),
    {
        broadcast use vstd::std_specs::hash::group_hash_axioms;

        let ghost v0 = self.entries();
        let ghost r0 = self.entries@;
        let n = self.entries.len();
        match self.index.get(&tb_addr) {
            Some(p) => {
                let p = *p;
                assert(self.index@.contains_key(tb_addr));
                assert forall|q: int| 0 <= q < v0.len() && (#[trigger] v0[q]).0 == tb_addr implies q
                    == p by {
                    assert(self.entries@[q].0 == tb_addr);
                }
                let names = &self.entries[p].1;
                let ghost nv = v0[p as int].1;
                assert(nv == names@.map_values(|s: String| s@));
                if names_contain(names, name) {
                    return;
                }
                assert(!nv.contains(name@));
                let mut l = names.clone();
                assert(l@ =~= names@);
                l.push(<String as StringExecFns>::from_str(name));
                let ghost lv = l@.map_values(|s: String| s@);
                assert(lv =~= nv.push(name@));
                self.entries.set(p, (tb_addr, l));
                proof {
                    assert(self.entries() =~= v0.update(p as int, (tb_addr, nv.push(name@))));
                    assert forall|q: int| 0 <= q < self.entries@.len() implies (
                    #[trigger] self.entries()[q]).1.no_duplicates() by {
                        if q == p {
                            assert forall|x: int, y: int|
                                0 <= x < lv.len() && 0 <= y < lv.len() && x != y implies lv[x]
                                != lv[y] by {
                                if x < nv.len() && y < nv.len() {
                                    assert(v0[p as int].1.no_duplicates());
                                } else if x < nv.len() {
                                    assert(nv.contains(lv[x]));
                                } else if y < nv.len() {
                                    assert(nv.contains(lv[y]));
                                }
                            }
                        } else {
                            assert(self.entries()[q] == v0[q]);
                        }
                    }
                    assert forall|q: int| 0 <= q < self.entries@.len() implies self.index@.contains_key(
                        (#[trigger] self.entries@[q]).0,
                    ) && self.index@[self.entries@[q].0] == q by {
                        assert(self.entries@[q].0 == r0[q].0);
                    }
                }
            },
            None => {
                assert forall|q: int| 0 <= q < v0.len() implies (#[trigger] v0[q]).0 != tb_addr by {
                    assert(self.index@.contains_key(self.entries@[q].0));
                }
                let mut l: Vec<String> = Vec::new();
                l.push(<String as StringExecFns>::from_str(name));
                let ghost lv = l@.map_values(|s: String| s@);
                assert(lv =~= seq![name@]);
                self.entries.push((tb_addr, l));
                self.index.insert(tb_addr, n);
                proof {
                    assert(self.entries() =~= v0.push((tb_addr, seq![name@])));
                    assert forall|q: int| 0 <= q < self.entries@.len() implies (
                    #[trigger] self.entries()[q]).1.no_duplicates() by {
                        if q < n {
                            assert(self.entries()[q] == v0[q]);
                        }
                    }
                    assert forall|q: int| 0 <= q < self.entries@.len() implies self.index@.contains_key(
                        (#[trigger] self.entries@[q]).0,
                    ) && self.index@[self.entries@[q].0] == q by {
                        if q < n {
                            assert(self.entries@[q] == r0[q]);
                            assert(r0[q].0 != tb_addr) by {
                                assert(v0[q].0 == r0[q].0);
                            }
                        }
                    }
                    assert forall|k: u64| #[trigger] self.index@.contains_key(k) implies self.index@[k]
                        < self.entries@.len() && self.entries@[self.index@[k] as int].0 == k by {
                        if k != tb_addr {
                            assert(old(self).index@.contains_key(k));
                            assert(self.entries@[self.index@[k] as int] == r0[self.index@[k] as int]);
                        }
                    }
                }
            },
        }
    }

    /// Each `(block, device)` pair, the devices of a block together,
    /// blocks in order of their entries.
    pub fn list(&self) -> (v: Vec<(u64, String)>)
        ensures
            v@.map_values(|x: (u64, String)| (x.0, x.1@)) == pairs_of(self.entries()),
    {
        let mut v: Vec<(u64, String)> = Vec::new();
        let mut p: usize = 0;
        while p < self.entries.len()
            invariant
                p <= self.entries@.len(),
                v@.map_values(|x: (u64, String)| (x.0, x.1@)) == pairs_of(self.entries().take(p as int)),
            decreases self.entries@.len() - p,
        {
            let tb = self.entries[p].0;
            let names = &self.entries[p].1;
            let ghost e = self.entries()[p as int];
            let ghost v1 = v@.map_values(|x: (u64, String)| (x.0, x.1@));
            let mut i: usize = 0;
            while i < names.len()
                invariant
                    i <= names@.len(),
                    e == access_view(self.entries@[p as int]),
                    names == &self.entries@[p as int].1,
                    tb == e.0,
                    v@.map_values(|x: (u64, String)| (x.0, x.1@)) == v1 + e.1.take(i as int).map_values(
                        |s: Seq<char>| (tb, s),
                    ),
                decreases names@.len() - i,
            {
                let ghost before = v@;
                v.push((tb, names[i].clone()));
                proof {
                    assert(e.1.take(i + 1) =~= e.1.take(i as int).push(names@[i as int]@));
                    assert(v@ =~= before.push((tb, names@[i as int])));
                    assert(v@.map_values(|x: (u64, String)| (x.0, x.1@)) =~= before.map_values(
                        |x: (u64, String)| (x.0, x.1@),
                    ).push((tb, names@[i as int]@)));
                    assert(e.1.take(i + 1).map_values(|s: Seq<char>| (tb, s)) =~= e.1.take(
                        i as int,
                    ).map_values(|s: Seq<char>| (tb, s)).push((tb, names@[i as int]@)));
                }
                i = i + 1;
            }
            proof {
                assert(e.1.take(names@.len() as int) =~= e.1);
                let t = self.entries().take(p + 1);
                assert(t.drop_last() =~= self.entries().take(p as int));
                assert(t.last() == e);
            }
            p = p + 1;
        }
        assert(self.entries().take(self.entries@.len() as int) =~= self.entries());
        v
    }
}

/// Every `(block, device)` pair of `entries`, the devices of a block
/// together, in order.
pub open spec fn pairs_of(entries: Seq<(u64, Seq<Seq<char>>)>) -> Seq<(u64, Seq<char>)>
    decreases entries.len(),
{
    if entries.len() == 0 {
        Seq::empty()
    } else {
        pairs_of(entries.drop_last()) + entries.last().1.map_values(
            |s: Seq<char>| (entries.last().0, s),
        )
    }
}

} // verus!
