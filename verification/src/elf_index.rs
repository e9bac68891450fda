//! ELF symbol index for address-to-function lookups, built from what
//! goblin reads out of an ELF image.

use vstd::prelude::*;
use crate::sorting::sort_pairs;
use std::collections::HashMap;
use crate::decoder::wrap_u64;
use crate::text::utf8;
use vstd::string::StringExecFns;
use goblin::elf::Elf;
use goblin::elf::header::EI_DATA;

verus! {

/// A function symbol of the index.
#[derive(Debug, Clone)]
pub struct Symbol {
    pub name: String,
    pub addr: u64,
    pub size: u64,
}

/// Symbols ordered by strictly increasing address.
pub open spec fn addrs_ascending(s: Seq<Symbol>) -> bool {
    forall|i: int, j: int| 0 <= i < j < s.len() ==> (#[trigger] s[i]).addr < (#[trigger] s[j]).addr
}

/// `s[i]` is the last symbol that starts at or below `a`.
pub open spec fn is_last_at_or_below(s: Seq<Symbol>, i: int, a: u64) -> bool {
    &&& 0 <= i < s.len()
    &&& s[i].addr <= a
    &&& (i + 1 == s.len() || s[i + 1].addr > a)
}

/// `a` lies in the address range of `sym`.
pub open spec fn covers(sym: Symbol, a: u64) -> bool {
    sym.addr <= a && a < sym.addr + sym.size
}

/// Some symbol of `s` holds `a`: the last one starting at or below it.
pub open spec fn has_symbol_at(s: Seq<Symbol>, a: u64) -> bool {
    exists|i: int| is_last_at_or_below(s, i, a) && covers(s[i], a)
}

/// The name of the symbol that holds `a`, or `unknown`.
pub open spec fn name_at_spec(s: Seq<Symbol>, a: u64) -> Seq<char> {
    if has_symbol_at(s, a) {
        s[choose|i: int| is_last_at_or_below(s, i, a) && covers(s[i], a)].name@
    } else {
        "unknown"@
    }
}

/// In ascending symbols, at most one is the last at or below `a`.
pub proof fn lemma_last_at_or_below_unique(s: Seq<Symbol>, i: int, j: int, a: u64)
    requires
        addrs_ascending(s),
        is_last_at_or_below(s, i, a),
        is_last_at_or_below(s, j, a),
    ensures
        i == j,
{
    if i < j {
        assert(s[i + 1].addr <= s[j].addr);
    } else if j < i {
        assert(s[j + 1].addr <= s[i].addr);
    }
}

/// Index of ELF function symbols for address-to-symbol lookups.
pub struct ElfIndex {
    symbols: Vec<Symbol>,
    load_addr: u64,
    build_id: Option<Vec<u8>>,
}

impl ElfIndex {
    #[verifier::type_invariant]
    spec fn symbols_sorted(self) -> bool {
        addrs_ascending(self.symbols@)
    }

    /// The symbols, by increasing address.
    pub closed spec fn syms(&self) -> Seq<Symbol> {
        self.symbols@
    }

    /// The load address of the text segment.
    pub closed spec fn load(&self) -> u64 {
        self.load_addr
    }

    /// The GNU build ID, if the image has one.
    pub closed spec fn build_id_bytes(&self) -> Option<Seq<u8>> {
        match self.build_id {
            Some(b) => Some(b@),
            None => None,
        }
    }

    /// An index with no symbols.
    pub fn empty(load_addr: u64) -> (e: Self)
        ensures
            e.syms() == Seq::<Symbol>::empty(),
            e.load() == load_addr,
            e.build_id_bytes() is None,
    {
        ElfIndex { symbols: Vec::new(), load_addr, build_id: None }
    }

    /// The load address of the text segment.
    pub fn load_addr(&self) -> (a: u64)
        ensures
            a == self.load(),
    {
        self.load_addr
    }

    /// The GNU build ID, if the image has one.
    pub fn build_id(&self) -> (b: Option<&Vec<u8>>)
        ensures
            match b {
                Some(v) => self.build_id_bytes() == Some(v@),
                None => self.build_id_bytes() is None,
            },
    {
        match &self.build_id {
            Some(v) => Some(v),
            None => None,
        }
    }

    /// The number of symbols; they come by strictly increasing address.
    pub fn len(&self) -> (n: usize)
        ensures
            n == self.syms().len(),
            addrs_ascending(self.syms()),
    {
        proof {
            use_type_invariant(self);
        }
        self.symbols.len()
    }

    /// The symbol whose range holds `addr`: the last symbol starting at
    /// or below `addr`, where `addr` lies before its end.
    pub fn symbol_at(&self, addr: u64) -> (r: Option<&Symbol>)
        ensures
            match r {
                Some(sym) => exists|i: int|
                    is_last_at_or_below(self.syms(), i, addr) && *sym == self.syms()[i] && covers(
                        *sym,
                        addr,
                    ),
                None => forall|i: int|
                    is_last_at_or_below(self.syms(), i, addr) ==> !covers(self.syms()[i], addr),
            },
    {
        proof {
            use_type_invariant(self);
        }
        let n = self.symbols.len();
        // First index whose symbol starts above `addr`.
        let mut lo: usize = 0;
        let mut hi: usize = n;
        while lo < hi
            invariant
                n == self.symbols@.len(),
                addrs_ascending(self.symbols@),
                lo <= hi <= n,
                forall|j: int| 0 <= j < lo ==> (#[trigger] self.symbols@[j]).addr <= addr,
                forall|j: int| hi <= j < n ==> (#[trigger] self.symbols@[j]).addr > addr,
            decreases hi - lo,
        {
            let mid = lo + (hi - lo) / 2;
            if self.symbols[mid].addr <= addr {
                lo = mid + 1;
            } else {
                hi = mid;
            }
        }
        if lo == 0 {
            return None;
        }
        let sym = &self.symbols[lo - 1];
        assert(is_last_at_or_below(self.symbols@, lo - 1, addr));
        assert forall|i: int| is_last_at_or_below(self.symbols@, i, addr) implies i == lo - 1 by {
            if i < lo - 1 {
                assert(self.symbols@[i + 1].addr <= addr);
            } else if i > lo - 1 {
                assert(self.symbols@[i].addr > addr);
            }
        }
        if addr - sym.addr < sym.size {
            assert(is_last_at_or_below(self.syms(), lo - 1, addr) && *sym == self.syms()[lo - 1]
                && covers(*sym, addr));
            Some(sym)
        } else {
            None
        }
    }

    /// The name of the symbol whose range holds `addr`, or
    /// `"unknown"` where there is none.
    pub fn name_at(&self, addr: u64) -> (r: &str)
        ensures
            r@ == name_at_spec(self.syms(), addr),
    {
        proof {
            use_type_invariant(self);
        }
        match self.symbol_at(addr) {
            Some(sym) => {
                proof {
                    let i = choose|i: int|
                        is_last_at_or_below(self.syms(), i, addr) && covers(self.syms()[i], addr);
                    let j = choose|j: int|
                        is_last_at_or_below(self.syms(), j, addr) && *sym == self.syms()[j] && covers(
                            *sym,
                            addr,
                        );
                    lemma_last_at_or_below_unique(self.syms(), i, j, addr);
                }
                sym.name.as_str()
            },
            None => "unknown",
        }
    }

    /// `addr` as an offset from the load address, modulo 2^64.
    pub fn addr_to_offset(&self, addr: u64) -> (off: u64)
        ensures
            off == wrap_u64(addr - self.load()),
    {
        proof {
            crate::decoder::lemma_wrap_u64(addr - self.load_addr);
        }
        if addr >= self.load_addr {
            addr - self.load_addr
        } else {
            addr + (u64::MAX - self.load_addr) + 1
        }
    }
}


// --- What an ELF image holds, as goblin reads it ---

/// One entry of `.symtab` or `.dynsym`, with its name looked up in the
/// string table (`None` where the offset is outside it).
pub struct RawSymbol {
    pub sym_type: u8,
    pub value: u64,
    pub size: u64,
    pub name: Option<String>,
}

/// One program header.
#[derive(Clone, Copy)]
pub struct RawProgramHeader {
    pub p_type: u32,
    pub p_flags: u32,
    pub p_vaddr: u64,
}

/// One section header, with its name looked up in the section-name
/// string table.
pub struct RawSection {
    pub name: Option<String>,
    pub offset: u64,
    pub size: u64,
}

/// The parts of an ELF image that the index is built from: the
/// entries of `.symtab` followed by those of `.dynsym`, the program
/// headers, the section headers, and the data-encoding byte of the
/// identification header.
pub struct ElfFacts {
    pub symbols: Vec<RawSymbol>,
    pub program_headers: Vec<RawProgramHeader>,
    pub sections: Vec<RawSection>,
    pub data_encoding: u8,
}

/// A name as an owned string.
fn own_name(name: Option<&str>) -> (r: Option<String>)
    ensures
        opt_string_view(r) == match name {
            Some(n) => Some(n@),
            None => None::<Seq<char>>,
        },
{
    match name {
        Some(n) => Some(<String as StringExecFns>::from_str(n)),
        None => None,
    }
}

impl RawSymbol {
    /// An entry with these fields.
    pub fn new(sym_type: u8, value: u64, size: u64, name: Option<&str>) -> (r: Self)
        ensures
            r.sym_type == sym_type && r.value == value && r.size == size,
            opt_string_view(r.name) == match name {
                Some(n) => Some(n@),
                None => None::<Seq<char>>,
            },
    {
        RawSymbol { sym_type, value, size, name: own_name(name) }
    }
}

impl RawProgramHeader {
    /// A program header with these fields.
    pub fn new(p_type: u32, p_flags: u32, p_vaddr: u64) -> (r: Self)
        ensures
            r == (RawProgramHeader { p_type, p_flags, p_vaddr }),
    {
        RawProgramHeader { p_type, p_flags, p_vaddr }
    }
}

impl RawSection {
    /// A section header with these fields.
    pub fn new(name: Option<&str>, offset: u64, size: u64) -> (r: Self)
        ensures
            r.offset == offset && r.size == size,
            opt_string_view(r.name) == match name {
                Some(n) => Some(n@),
                None => None::<Seq<char>>,
            },
    {
        RawSection { name: own_name(name), offset, size }
    }
}

impl ElfFacts {
    /// Facts with these parts.
    pub fn new(
        symbols: Vec<RawSymbol>,
        program_headers: Vec<RawProgramHeader>,
        sections: Vec<RawSection>,
        data_encoding: u8,
    ) -> (r: Self)
        ensures
            r == (ElfFacts { symbols, program_headers, sections, data_encoding }),
    {
        ElfFacts { symbols, program_headers, sections, data_encoding }
    }
}

/// A symbol-table entry as a value.
pub struct SymbolFact {
    pub sym_type: u8,
    pub value: u64,
    pub size: u64,
    pub name: Option<Seq<char>>,
}

/// A section header as a value.
pub struct SectionFact {
    pub name: Option<Seq<char>>,
    pub offset: u64,
    pub size: u64,
}

/// An `ElfFacts` as a value.
pub struct ElfFactsView {
    pub symbols: Seq<SymbolFact>,
    pub program_headers: Seq<RawProgramHeader>,
    pub sections: Seq<SectionFact>,
    pub data_encoding: u8,
}

pub open spec fn opt_string_view(o: Option<String>) -> Option<Seq<char>> {
    match o {
        Some(s) => Some(s@),
        None => None,
    }
}

impl View for RawSymbol {
    type V = SymbolFact;

    open spec fn view(&self) -> SymbolFact {
        SymbolFact {
            sym_type: self.sym_type,
            value: self.value,
            size: self.size,
            name: opt_string_view(self.name),
        }
    }
}

impl View for RawSection {
    type V = SectionFact;

    open spec fn view(&self) -> SectionFact {
        SectionFact { name: opt_string_view(self.name), offset: self.offset, size: self.size }
    }
}

impl View for ElfFacts {
    type V = ElfFactsView;

    open spec fn view(&self) -> ElfFactsView {
        ElfFactsView {
            symbols: self.symbols@.map_values(|e: RawSymbol| e@),
            program_headers: self.program_headers@,
            sections: self.sections@.map_values(|h: RawSection| h@),
            data_encoding: self.data_encoding,
        }
    }
}

/// `STT_FUNC`, the symbol type of functions.
pub const STT_FUNC: u8 = 2;

/// `PT_LOAD`, the program header type of loadable segments.
pub const PT_LOAD: u32 = 1;

/// `PF_X`, the flag of executable segments.
pub const PF_X: u32 = 1;

/// `ELFDATA2MSB`, the data encoding of big-endian images.
pub const ELFDATA2MSB: u8 = 2;

// --- Symbol selection ---

/// The name of an entry; a missing one counts as empty.
pub open spec fn fact_name(e: SymbolFact) -> Seq<char> {
    match e.name {
        Some(n) => n,
        None => Seq::empty(),
    }
}

/// The entry names a function, at a non-zero address, with a non-empty
/// name.
pub open spec fn eligible(e: SymbolFact) -> bool {
    e.sym_type == STT_FUNC && e.value != 0 && utf8(fact_name(e)).len() > 0
}

/// Of two entries at one address, the later one `e` takes the place of
/// `cur`: a sized entry is kept over an unsized one, and otherwise the
/// longer name (in bytes) wins, the earlier entry on a tie.
pub open spec fn replaces(cur: SymbolFact, e: SymbolFact) -> bool {
    if cur.size > 0 && e.size == 0 {
        false
    } else if cur.size == 0 && e.size > 0 {
        true
    } else {
        utf8(fact_name(e)).len() > utf8(fact_name(cur)).len()
    }
}

/// The entry that stands for address `a` once the eligible entries of
/// `s` at `a` have been taken in order.
pub open spec fn pick(s: Seq<SymbolFact>, a: u64) -> Option<SymbolFact>
    decreases s.len(),
{
    if s.len() == 0 {
        None
    } else {
        let prev = pick(s.drop_last(), a);
        let e = s.last();
        if eligible(e) && e.value == a {
            match prev {
                None => Some(e),
                Some(p) => if replaces(p, e) {
                    Some(e)
                } else {
                    Some(p)
                },
            }
        } else {
            prev
        }
    }
}

/// The size recorded for the `i`-th of the ascending addresses `addrs`
/// whose entry has size `raw`: `raw` where it is non-zero, else the gap
/// to the next address capped at 64 KiB, or 4 KiB for the last one.
pub open spec fn inferred_size(addrs: Seq<u64>, i: int, raw: u64) -> u64 {
    if raw != 0 {
        raw
    } else if i + 1 < addrs.len() {
        if addrs[i + 1] - addrs[i] < 0x10000 {
            (addrs[i + 1] - addrs[i]) as u64
        } else {
            0x10000
        }
    } else {
        0x1000
    }
}

/// The addresses of a list of symbols.
pub open spec fn sym_addrs(l: Seq<Symbol>) -> Seq<u64> {
    l.map_values(|s: Symbol| s.addr)
}

/// `l` is the index of the entries `facts`: one symbol per address of
/// an eligible entry, by increasing address, named after the entry
/// that stands for the address, with its size or an inferred one.
pub open spec fn indexes_symbols(l: Seq<Symbol>, facts: Seq<SymbolFact>) -> bool {
    &&& addrs_ascending(l)
    &&& forall|i: int|
        0 <= i < l.len() ==> match pick(facts, (#[trigger] l[i]).addr) {
            Some(e) => l[i].name@ == fact_name(e) && l[i].size == inferred_size(
                sym_addrs(l),
                i,
                e.size,
            ),
            None => false,
        }
    &&& forall|k: int|
        0 <= k < facts.len() && eligible(#[trigger] facts[k]) ==> exists|i: int|
            0 <= i < l.len() && (#[trigger] l[i]).addr == facts[k].value
}

proof fn lemma_pick_some(s: Seq<SymbolFact>, a: u64)
    ensures
        pick(s, a) matches Some(e) ==> eligible(e) && e.value == a,
        pick(s, a) is Some <==> exists|k: int|
            0 <= k < s.len() && eligible(#[trigger] s[k]) && s[k].value == a,
    decreases s.len(),
{
    if s.len() > 0 {
        lemma_pick_some(s.drop_last(), a);
        if pick(s.drop_last(), a) is Some {
            let k = choose|k: int|
                0 <= k < s.drop_last().len() && eligible(#[trigger] s.drop_last()[k])
                    && s.drop_last()[k].value == a;
            assert(s[k] == s.drop_last()[k]);
        }
        if exists|k: int| 0 <= k < s.len() && eligible(#[trigger] s[k]) && s[k].value == a {
            let k = choose|k: int| 0 <= k < s.len() && eligible(#[trigger] s[k]) && s[k].value == a;
            if k < s.len() - 1 {
                assert(s.drop_last()[k] == s[k]);
            }
        }
    }
}

/// Sorts distinct addresses into ascending order: the same addresses,
/// each once.
fn sort_addrs(v: &mut Vec<u64>)
    requires
        old(v)@.no_duplicates(),
    ensures
        final(v)@.len() == old(v)@.len(),
        final(v)@.no_duplicates(),
        forall|a: u64| #[trigger] final(v)@.contains(a) <==> old(v)@.contains(a),
        forall|i: int, j: int|
            0 <= i < j < final(v)@.len() ==> (#[trigger] final(v)@[i]) <= (#[trigger] final(v)@[j]),
{
    broadcast use vstd::seq_lib::group_to_multiset_ensures;

    let ghost v0 = v@;
    let n = v.len();
    let mut pairs: Vec<(u64, u64)> = Vec::new();
    let mut i: usize = 0;
    while i < n
        invariant
            n == v0.len(),
            v@ == v0,
            i <= n,
            pairs@.len() == i,
            forall|t: int| 0 <= t < i ==> #[trigger] pairs@[t] == (v0[t], 0u64),
        decreases n - i,
    {
        pairs.push((v[i], 0));
        i = i + 1;
    }
    let ghost p0 = pairs@;
    proof {
        assert forall|x: int, y: int| 0 <= x < p0.len() && 0 <= y < p0.len() && x != y implies p0[x]
            != p0[y] by {
            assert(v0[x] != v0[y]);
        }
        p0.lemma_multiset_has_no_duplicates();
    }
    sort_pairs(&mut pairs);
    proof {
        assert(pairs@.len() == n) by {
            assert(pairs@.to_multiset().len() == p0.to_multiset().len());
        }
        pairs@.lemma_multiset_has_no_duplicates_conv();
        assert forall|t: int| 0 <= t < n implies (#[trigger] pairs@[t]).1 == 0 by {
            assert(pairs@.contains(pairs@[t]));
            assert(pairs@.to_multiset().count(pairs@[t]) > 0);
            assert(p0.to_multiset().count(pairs@[t]) > 0);
            assert(p0.contains(pairs@[t]));
        }
    }
    let mut out: Vec<u64> = Vec::new();
    let mut k: usize = 0;
    while k < n
        invariant
            n == pairs@.len(),
            k <= n,
            out@.len() == k,
            forall|t: int| 0 <= t < k ==> #[trigger] out@[t] == pairs@[t].0,
        decreases n - k,
    {
        out.push(pairs[k].0);
        k = k + 1;
    }
    proof {
        assert forall|x: int, y: int| 0 <= x < n && 0 <= y < n && x != y implies out@[x] != out@[y] by {
            assert(pairs@[x].1 == 0 && pairs@[y].1 == 0);
            assert(pairs@[x] != pairs@[y]);
        }
        assert forall|a: u64| #[trigger] out@.contains(a) <==> v0.contains(a) by {
            if out@.contains(a) {
                let t = choose|t: int| 0 <= t < n && out@[t] == a;
                assert(pairs@[t].1 == 0);
                assert(pairs@.contains(pairs@[t]));
                assert(pairs@.to_multiset().count(pairs@[t]) > 0);
                assert(p0.to_multiset().count(pairs@[t]) > 0);
                assert(p0.contains(pairs@[t]));
                let u = choose|u: int| 0 <= u < n && p0[u] == pairs@[t];
                assert(v0[u] == a);
            }
            if v0.contains(a) {
                let u = choose|u: int| 0 <= u < n && v0[u] == a;
                assert(p0[u] == (a, 0u64));
                assert(p0.contains(p0[u]));
                assert(p0.to_multiset().count(p0[u]) > 0);
                assert(pairs@.to_multiset().count(p0[u]) > 0);
                assert(pairs@.contains(p0[u]));
                let t = choose|t: int| 0 <= t < n && pairs@[t] == p0[u];
                assert(out@[t] == a);
            }
        }
        assert forall|x: int, y: int| 0 <= x < y < n implies (#[trigger] out@[x]) <= (
        #[trigger] out@[y]) by {
            assert(pairs@[x].0 <= pairs@[y].0);
        }
    }
    *v = out;
}

/// Whether the entry `e` takes the place of `cur`.
fn replaces_exec(cur: &RawSymbol, e: &RawSymbol) -> (b: bool)
    ensures
        b == replaces(cur@, e@),
{
    if cur.size > 0 && e.size == 0 {
        false
    } else if cur.size == 0 && e.size > 0 {
        true
    } else {
        name_len(&e.name) > name_len(&cur.name)
    }
}

/// The length in bytes of an entry's name.
fn name_len(n: &Option<String>) -> (l: usize)
    ensures
        l == utf8(fact_name(SymbolFact { sym_type: 0, value: 0, size: 0, name: opt_string_view(*n) })).len(),
{
    match n {
        Some(s) => s.as_str().as_bytes().len(),
        None => {
            assert(utf8(Seq::<char>::empty()) =~= Seq::<u8>::empty()) by {
                vstd::utf8::encode_utf8_decode_utf8(Seq::<char>::empty());
            }
            0
        },
    }
}

/// The facts of a list of entries.
pub open spec fn facts_of(syms: Seq<RawSymbol>) -> Seq<SymbolFact> {
    syms.map_values(|e: RawSymbol| e@)
}

/// Builds the symbol list: the entry standing for each address, by
/// increasing address, with inferred sizes where the entry has none.
fn index_symbols(syms: &Vec<RawSymbol>) -> (l: Vec<Symbol>)
    ensures
        indexes_symbols(l@, facts_of(syms@)),
{
    broadcast use vstd::std_specs::hash::group_hash_axioms;

    let ghost fs = facts_of(syms@);
    let n = syms.len();
    let mut chosen: HashMap<u64, usize> = HashMap::new();
    let mut addrs: Vec<u64> = Vec::new();
    let mut k: usize = 0;
    while k < n
        invariant
            n == syms@.len(),
            fs == facts_of(syms@),
            k <= n,
            forall|a: u64| #[trigger] chosen@.contains_key(a) <==> pick(fs.take(k as int), a) is Some,
            forall|a: u64|
                #[trigger] chosen@.contains_key(a) ==> chosen@[a] < k && pick(fs.take(k as int), a)
                    == Some(fs[chosen@[a] as int]),
            addrs@.no_duplicates(),
            forall|a: u64| #[trigger] addrs@.contains(a) <==> chosen@.contains_key(a),
        decreases n - k,
    {
        let e = &syms[k];
        let ghost pre = fs.take(k as int);
        let ghost post = fs.take(k + 1);
        assert(post.drop_last() =~= pre);
        assert(post.last() == fs[k as int]);
        assert(fs[k as int] == e@);
        let ghost a0 = addrs@;
        let ok = e.sym_type == STT_FUNC && e.value != 0 && name_len(&e.name) > 0;
        if ok {
            match chosen.get(&e.value) {
                None => {
                    assert(!a0.contains(e.value));
                    chosen.insert(e.value, k);
                    addrs.push(e.value);
                    proof {
                        assert forall|x: int, y: int|
                            0 <= x < addrs@.len() && 0 <= y < addrs@.len() && x != y implies addrs@[x]
                            != addrs@[y] by {
                            if x == a0.len() {
                                assert(a0.contains(addrs@[y]));
                            } else if y == a0.len() {
                                assert(a0.contains(addrs@[x]));
                            } else {
                                assert(a0[x] == addrs@[x] && a0[y] == addrs@[y]);
                            }
                        }
                        assert forall|a: u64| #[trigger]
                            addrs@.contains(a) <==> (a0.contains(a) || a == e.value) by {
                            if addrs@.contains(a) {
                                let t = choose|t: int| 0 <= t < addrs@.len() && addrs@[t] == a;
                                if t < a0.len() {
                                    assert(a0[t] == a);
                                }
                            }
                            if a0.contains(a) {
                                let t = choose|t: int| 0 <= t < a0.len() && a0[t] == a;
                                assert(addrs@[t] == a);
                            }
                            if a == e.value {
                                assert(addrs@[a0.len() as int] == a);
                            }
                        }
                    }
                },
                Some(j) => {
                    let j = *j;
                    if replaces_exec(&syms[j], e) {
                        chosen.insert(e.value, k);
                    }
                },
            }
        }
        assert forall|a: u64| #[trigger] chosen@.contains_key(a) <==> pick(post, a) is Some by {}
        assert forall|a: u64| #[trigger] chosen@.contains_key(a) implies chosen@[a] < k + 1 && pick(
            post,
            a,
        ) == Some(fs[chosen@[a] as int]) by {}
        assert forall|a: u64| #[trigger] addrs@.contains(a) <==> chosen@.contains_key(a) by {
            if a != e.value {
                assert(addrs@.contains(a) <==> a0.contains(a));
            }
        }
        k = k + 1;
    }
    assert(fs.take(n as int) =~= fs);
    sort_addrs(&mut addrs);
    let m = addrs.len();
    let mut l: Vec<Symbol> = Vec::new();
    let mut i: usize = 0;
    while i < m
        invariant
            m == addrs@.len(),
            n == syms@.len(),
            fs == facts_of(syms@),
            addrs@.no_duplicates(),
            forall|x: int, y: int|
                0 <= x < y < m ==> (#[trigger] addrs@[x]) <= (#[trigger] addrs@[y]),
            forall|a: u64| #[trigger] addrs@.contains(a) <==> chosen@.contains_key(a),
            forall|a: u64| #[trigger] chosen@.contains_key(a) <==> pick(fs, a) is Some,
            forall|a: u64|
                #[trigger] chosen@.contains_key(a) ==> chosen@[a] < n && pick(fs, a) == Some(
                    fs[chosen@[a] as int],
                ),
            i <= m,
            l@.len() == i,
            forall|t: int| 0 <= t < i ==> (#[trigger] l@[t]).addr == addrs@[t],
            forall|t: int|
                0 <= t < i ==> match pick(fs, (#[trigger] l@[t]).addr) {
                    Some(e) => l@[t].name@ == fact_name(e) && l@[t].size == inferred_size(
                        addrs@,
                        t,
                        e.size,
                    ),
                    None => false,
                },
        decreases m - i,
    {
        let a = addrs[i];
        assert(addrs@.contains(a));
        let j = *chosen.get(&a).unwrap();
        let e = &syms[j];
        proof {
            lemma_pick_some(fs, a);
            assert(fs[j as int] == e@);
        }
        let size = if e.size != 0 {
            e.size
        } else if i + 1 < m {
            let next = addrs[i + 1];
            assert(addrs@[i as int] != addrs@[i + 1]);
            if next - a < 0x10000 {
                next - a
            } else {
                0x10000
            }
        } else {
            0x1000
        };
        let name = match &e.name {
            Some(s) => s.clone(),
            None => String::new(),
        };
        l.push(Symbol { name, addr: a, size });
        i = i + 1;
    }
    assert(sym_addrs(l@) =~= addrs@);
    assert forall|k2: int| 0 <= k2 < fs.len() && eligible(#[trigger] fs[k2]) implies exists|t: int|
        0 <= t < l@.len() && (#[trigger] l@[t]).addr == fs[k2].value by {
        lemma_pick_some(fs, fs[k2].value);
        assert(addrs@.contains(fs[k2].value));
        let t = choose|t: int| 0 <= t < addrs@.len() && addrs@[t] == fs[k2].value;
        assert(l@[t].addr == fs[k2].value);
    }
    l
}

// --- Load address and build ID ---

/// The virtual address of the first loadable, executable segment, or 0
/// where there is none.
pub open spec fn first_exec_load(ph: Seq<RawProgramHeader>) -> u64
    decreases ph.len(),
{
    if ph.len() == 0 {
        0
    } else if ph[0].p_type == PT_LOAD && ph[0].p_flags & PF_X != 0 {
        ph[0].p_vaddr
    } else {
        first_exec_load(ph.drop_first())
    }
}

fn exec_load_addr(ph: &Vec<RawProgramHeader>) -> (a: u64)
    ensures
        a == first_exec_load(ph@),
{
    let mut i: usize = 0;
    assert(ph@.skip(0) =~= ph@);
    while i < ph.len()
        invariant
            i <= ph@.len(),
            first_exec_load(ph@) == first_exec_load(ph@.skip(i as int)),
        decreases ph@.len() - i,
    {
        let h = ph[i];
        assert(ph@.skip(i as int)[0] == h);
        assert(ph@.skip(i as int).drop_first() =~= ph@.skip(i + 1));
        if h.p_type == PT_LOAD && h.p_flags & PF_X != 0 {
            return h.p_vaddr;
        }
        i = i + 1;
    }
    0
}

/// The name of the section that holds the GNU build ID note.
pub open spec fn build_id_section_name() -> Seq<char> {
    ".note.gnu.build-id"@
}

/// The first section named `name`.
pub open spec fn first_named(secs: Seq<SectionFact>, name: Seq<char>) -> Option<SectionFact>
    decreases secs.len(),
{
    if secs.len() == 0 {
        None
    } else if secs[0].name == Some(name) {
        Some(secs[0])
    } else {
        first_named(secs.drop_first(), name)
    }
}

/// The big-endian `u32` stored at `b[off..off + 4]`.
pub open spec fn u32_be_at(b: Seq<u8>, off: int) -> int {
    0x1000000 * b[off] + 0x10000 * b[off + 1] + 0x100 * b[off + 2] + b[off + 3]
}

/// The `u32` stored at `b[off..off + 4]` in the image's byte order.
pub open spec fn note_u32_at(b: Seq<u8>, off: int, little: bool) -> int {
    if little {
        crate::bytes::u32_at(b, off) as int
    } else {
        u32_be_at(b, off)
    }
}

/// The descriptor of the note at `data[off..off + size]` (a name size,
/// a descriptor size and a type, then the name padded to 4 bytes, then
/// the descriptor), where the section lies in the data, is longer than
/// 16 bytes, and the descriptor lies in the data.
pub open spec fn note_desc(data: Seq<u8>, off: int, size: int, little: bool) -> Option<Seq<u8>> {
    if off + size <= data.len() && size > 16 {
        let namesz = note_u32_at(data, off, little);
        let descsz = note_u32_at(data, off + 4, little);
        let desc_off = off + 12 + (namesz + 3) - (namesz + 3) % 4;
        if desc_off + descsz <= data.len() {
            Some(data.subrange(desc_off, desc_off + descsz))
        } else {
            None
        }
    } else {
        None
    }
}

/// The build ID of an image: the descriptor of the note in its first
/// section named `.note.gnu.build-id`.
pub open spec fn build_id_of(f: ElfFactsView, data: Seq<u8>) -> Option<Seq<u8>> {
    match first_named(f.sections, build_id_section_name()) {
        Some(h) => note_desc(data, h.offset as int, h.size as int, f.data_encoding != ELFDATA2MSB),
        None => None,
    }
}

fn read_note_u32(b: &[u8], off: usize, little: bool) -> (v: u64)
    requires
        off + 4 <= b@.len(),
    ensures
        v == note_u32_at(b@, off as int, little),
        v <= u32::MAX,
{
    if little {
        crate::bytes::read_u32_le(b, off) as u64
    } else {
        0x1000000 * (b[off] as u64) + 0x10000 * (b[off + 1] as u64) + 0x100 * (b[off + 2] as u64) + (
        b[off + 3] as u64)
    }
}

fn note_descriptor(data: &[u8], off: u64, size: u64, little: bool) -> (r: Option<Vec<u8>>)
    ensures
        match r {
            Some(v) => note_desc(data@, off as int, size as int, little) == Some(v@),
            None => note_desc(data@, off as int, size as int, little) is None,
        },
{
    let len = data.len() as u64;
    if off > len || size > len - off || size <= 16 {
        return None;
    }
    let o = off as usize;
    let namesz = read_note_u32(data, o, little);
    let descsz = read_note_u32(data, o + 4, little);
    let padded = namesz + 3 - (namesz + 3) % 4;
    let desc_off = match off.checked_add(12 + padded) {
        Some(d) => d,
        None => return None,
    };
    if desc_off > len || descsz > len - desc_off {
        return None;
    }
    let start = desc_off as usize;
    let end = start + descsz as usize;
    let mut v: Vec<u8> = Vec::new();
    let mut i: usize = start;
    while i < end
        invariant
            start <= i <= end,
            end <= data@.len(),
            v@ == data@.subrange(start as int, i as int),
        decreases end - i,
    {
        v.push(data[i]);
        i = i + 1;
        proof {
            assert(data@.subrange(start as int, i as int) =~= data@.subrange(start as int, i - 1).push(
                data@[i - 1],
            ));
        }
    }
    Some(v)
}

fn is_build_id_section(name: &Option<String>) -> (b: bool)
    ensures
        b == (opt_string_view(*name) == Some(build_id_section_name())),
{
    match name {
        Some(s) => crate::bytes::str_eq(s.as_str(), ".note.gnu.build-id"),
        None => false,
    }
}

fn find_build_id(facts: &ElfFacts, data: &[u8]) -> (r: Option<Vec<u8>>)
    ensures
        match r {
            Some(v) => build_id_of(facts@, data@) == Some(v@),
            None => build_id_of(facts@, data@) is None,
        },
{
    let secs = &facts.sections;
    let ghost sv = facts@.sections;
    let mut i: usize = 0;
    assert(sv.skip(0) =~= sv);
    while i < secs.len()
        invariant
            sv == facts@.sections,
            sv == secs@.map_values(|h: RawSection| h@),
            i <= secs@.len(),
            first_named(sv, build_id_section_name()) == first_named(
                sv.skip(i as int),
                build_id_section_name(),
            ),
        decreases secs@.len() - i,
    {
        assert(sv.skip(i as int)[0] == secs@[i as int]@);
        assert(sv.skip(i as int).drop_first() =~= sv.skip(i + 1));
        if is_build_id_section(&secs[i].name) {
            let h = &secs[i];
            return note_descriptor(data, h.offset, h.size, facts.data_encoding != ELFDATA2MSB);
        }
        i = i + 1;
    }
    None
}

// --- Reading an image with goblin ---

/// What goblin reads out of an ELF image: its facts, or the text of the
/// parse error.
pub uninterp spec fn goblin_elf_facts(data: Seq<u8>) -> Result<ElfFactsView, Seq<char>>;

/// A parse outcome as a value.
pub open spec fn facts_result_view(r: Result<ElfFacts, String>) -> Result<ElfFactsView, Seq<char>> {
    match r {
        Ok(f) => Ok(f@),
        Err(m) => Err(m@),
    }
}

/// Calls `goblin::elf::Elf::parse` on the image and reads out, in
/// table order, the entries of `.symtab` then `.dynsym` (type, value,
/// size, and the name at the entry's offset in `.strtab`, as goblin's
/// `Strtab::get_at` gives it), the program headers, the section
/// headers with their names from the section-name table, and the
/// data-encoding byte; on failure, the text of goblin's error. What
/// goblin makes of a given image is not stated: the outcome is named
/// `goblin_elf_facts` of the bytes.
#[verifier::external_body]
fn parse_elf_facts(data: &[u8]) -> (r: Result<ElfFacts, String>)
    ensures
        facts_result_view(r) == goblin_elf_facts(data@),
{
    let elf = Elf::parse(data).map_err(|e| e.to_string())?;
    Ok(ElfFacts::new(
        elf.syms.iter().chain(elf.dynsyms.iter()).map(|s| RawSymbol::new(s.st_type(), s.st_value, s.st_size, elf.strtab.get_at(s.st_name))).collect(),
        elf.program_headers.iter().map(|p| RawProgramHeader::new(p.p_type, p.p_flags, p.p_vaddr)).collect(),
        elf.section_headers.iter().map(|h| RawSection::new(elf.shdr_strtab.get_at(h.sh_name), h.sh_offset, h.sh_size)).collect(),
        elf.header.e_ident[EI_DATA],
    ))
}

/// `e` is the index of an image with facts `f` and bytes `data`.
pub open spec fn indexes_image(e: ElfIndex, f: ElfFactsView, data: Seq<u8>) -> bool {
    &&& indexes_symbols(e.syms(), f.symbols)
    &&& e.load() == first_exec_load(f.program_headers)
    &&& e.build_id_bytes() == build_id_of(f, data)
}

impl ElfIndex {
    /// Builds the index of an image from its facts and its bytes.
    pub fn from_facts(facts: &ElfFacts, data: &[u8]) -> (e: Self)
        ensures
            indexes_image(e, facts@, data@),
    {
        let symbols = index_symbols(&facts.symbols);
        assert(facts_of(facts.symbols@) =~= facts@.symbols);
        let load_addr = exec_load_addr(&facts.program_headers);
        let build_id = find_build_id(facts, data);
        ElfIndex { symbols, load_addr, build_id }
    }

    /// Parses an ELF image and builds its index; where goblin cannot
    /// parse it, the error is `parse ELF: ` and goblin's message.
    pub fn from_elf_bytes(data: &[u8]) -> (r: Result<Self, String>)
        ensures
            match goblin_elf_facts(data@) {
                Ok(f) => r matches Ok(e) && indexes_image(e, f, data@),
                Err(m) => r matches Err(msg) && msg@ == "parse ELF: "@ + m,
            },
    {
        match parse_elf_facts(data) {
            Ok(facts) => Ok(Self::from_facts(&facts, data)),
            Err(m) => {
                let mut msg = <String as StringExecFns>::from_str("parse ELF: ");
                msg.append(m.as_str());
                Err(msg)
            },
        }
    }
}

} // verus!
