//! The model of the libraries a binary depends on, and the text stub
//! document written for each of them.

use vstd::prelude::*;
use crate::macho::{CPU_TYPE_ARM, CPU_TYPE_ARM64, CPU_TYPE_ARM64_32, CPU_TYPE_X86, CPU_TYPE_X86_64};
use crate::strings::{copy_string, decimal, seq_lt, string_eq, string_lt, to_decimal};

verus! {

/// A CPU architecture as named in a stub's target list.
#[derive(Clone, Copy, PartialEq, Eq, Structural, Debug, Hash)]
pub enum CpuArch {
    I386,
    X86_64,
    X86_64H,
    ArmV4t,
    ArmV6,
    ArmV5,
    ArmV7,
    ArmV7s,
    ArmV7k,
    ArmV6m,
    ArmV7m,
    ArmV7em,
    Arm64,
    Arm64E,
    Arm64_32,
}

impl CpuArch {
    pub open spec fn spec_name(self) -> Seq<char> {
        match self {
            CpuArch::I386 => "i386"@,
            CpuArch::X86_64 => "x86_64"@,
            CpuArch::X86_64H => "x86_64h"@,
            CpuArch::ArmV4t => "armv4t"@,
            CpuArch::ArmV6 => "armv6"@,
            CpuArch::ArmV5 => "armv5"@,
            CpuArch::ArmV7 => "armv7"@,
            CpuArch::ArmV7s => "armv7s"@,
            CpuArch::ArmV7k => "armv7k"@,
            CpuArch::ArmV6m => "armv6m"@,
            CpuArch::ArmV7m => "armv7m"@,
            CpuArch::ArmV7em => "armv7em"@,
            CpuArch::Arm64 => "arm64"@,
            CpuArch::Arm64E => "arm64e"@,
            CpuArch::Arm64_32 => "arm64_32"@,
        }
    }

    /// The architecture's name in a stub document.
    pub fn name(&self) -> (r: &'static str)
        ensures
            r@ == self.spec_name(),
    {
        match self {
            CpuArch::I386 => "i386",
            CpuArch::X86_64 => "x86_64",
            CpuArch::X86_64H => "x86_64h",
            CpuArch::ArmV4t => "armv4t",
            CpuArch::ArmV6 => "armv6",
            CpuArch::ArmV5 => "armv5",
            CpuArch::ArmV7 => "armv7",
            CpuArch::ArmV7s => "armv7s",
            CpuArch::ArmV7k => "armv7k",
            CpuArch::ArmV6m => "armv6m",
            CpuArch::ArmV7m => "armv7m",
            CpuArch::ArmV7em => "armv7em",
            CpuArch::Arm64 => "arm64",
            CpuArch::Arm64E => "arm64e",
            CpuArch::Arm64_32 => "arm64_32",
        }
    }
}

/// An operating-system platform as named in a stub's target list.
#[derive(Clone, Copy, PartialEq, Eq, Structural, Debug, Hash)]
pub enum Platform {
    MacOS,
    IOS,
    TvOS,
    WatchOS,
    BridgeOS,
    MacCatalyst,
    IOSSimulator,
    TvOSSimulator,
    WatchOSSimulator,
    DriverKit,
}

impl Platform {
    pub open spec fn spec_name(self) -> Seq<char> {
        match self {
            Platform::MacOS => "macos"@,
            Platform::IOS => "ios"@,
            Platform::TvOS => "tvos"@,
            Platform::WatchOS => "watchos"@,
            Platform::BridgeOS => "bridgeos"@,
            Platform::MacCatalyst => "maccatalyst"@,
            Platform::IOSSimulator => "ios-simulator"@,
            Platform::TvOSSimulator => "tvos-simulator"@,
            Platform::WatchOSSimulator => "watchos-simulator"@,
            Platform::DriverKit => "driverkit"@,
        }
    }

    /// The platform's name in a stub document.
    pub fn name(&self) -> (r: &'static str)
        ensures
            r@ == self.spec_name(),
    {
        match self {
            Platform::MacOS => "macos",
            Platform::IOS => "ios",
            Platform::TvOS => "tvos",
            Platform::WatchOS => "watchos",
            Platform::BridgeOS => "bridgeos",
            Platform::MacCatalyst => "maccatalyst",
            Platform::IOSSimulator => "ios-simulator",
            Platform::TvOSSimulator => "tvos-simulator",
            Platform::WatchOSSimulator => "watchos-simulator",
            Platform::DriverKit => "driverkit",
        }
    }
}

/// An (architecture, platform) pair: one ABI context of a stub.
#[derive(Clone, Copy, PartialEq, Eq, Structural, Debug, Hash)]
pub struct Target {
    pub arch: CpuArch,
    pub platform: Platform,
}

impl Target {
    pub open spec fn spec_text(self) -> Seq<char> {
        self.arch.spec_name() + "-"@ + self.platform.spec_name()
    }

    /// The textual form `<arch>-<platform>`.
    pub fn text(&self) -> (r: String)
        ensures
            r@ == self.spec_text(),
    {
        let s = self.arch.name().to_owned();
        let s = s.concat("-");
        s.concat(self.platform.name())
    }
}

/// One symbol that an image takes from a library.
#[derive(Debug)]
pub struct SymbolInfo {
    pub name: String,
    pub arch: CpuArch,
    pub platform: Option<Platform>,
}

/// What a symbol is, as a plain value.
pub struct SymbolView {
    pub name: Seq<char>,
    pub arch: CpuArch,
    pub platform: Option<Platform>,
}

impl View for SymbolInfo {
    type V = SymbolView;

    open spec fn view(&self) -> SymbolView {
        SymbolView { name: self.name@, arch: self.arch, platform: self.platform }
    }
}

/// A library that one or more images depend on, with the symbols taken
/// from it and the (architecture, platform) pairs that referenced it.
#[derive(Debug)]
pub struct DylibInfo {
    pub name: String,
    pub targets: Vec<(CpuArch, Option<Platform>)>,
    pub symbols: Vec<SymbolInfo>,
    pub timestamp: u32,
    pub current_version: u32,
    pub compatibility_version: u32,
}

/// What a library record is, as a plain value.
pub struct DylibView {
    pub name: Seq<char>,
    pub targets: Seq<(CpuArch, Option<Platform>)>,
    pub symbols: Seq<SymbolView>,
    pub timestamp: u32,
    pub current_version: u32,
    pub compatibility_version: u32,
}

impl View for DylibInfo {
    type V = DylibView;

    open spec fn view(&self) -> DylibView {
        DylibView {
            name: self.name@,
            targets: self.targets@,
            symbols: self.symbols@.map_values(|s: SymbolInfo| s@),
            timestamp: self.timestamp,
            current_version: self.current_version,
            compatibility_version: self.compatibility_version,
        }
    }
}

/// Strictly ascending names.
pub open spec fn names_ascending(ns: Seq<Seq<char>>) -> bool {
    forall|i: int, j: int| 0 <= i < j < ns.len() ==> seq_lt(#[trigger] ns[i], #[trigger] ns[j])
}

/// The install names of `l`, in order.
pub open spec fn names_of(l: Seq<DylibView>) -> Seq<Seq<char>> {
    l.map_values(|d: DylibView| d.name)
}

pub open spec fn dylib_views(l: Seq<DylibInfo>) -> Seq<DylibView> {
    l.map_values(|d: DylibInfo| d@)
}

/// The symbols of every record named `n`, in the order of the records.
pub open spec fn merged_symbols(l: Seq<DylibView>, n: Seq<char>) -> Seq<SymbolView>
    decreases l.len(),
{
    if l.len() == 0 {
        Seq::empty()
    } else {
        let rest = merged_symbols(l.drop_last(), n);
        if l.last().name == n { rest + l.last().symbols } else { rest }
    }
}

/// The targets of every record named `n`, in the order of the records.
pub open spec fn merged_targets(l: Seq<DylibView>, n: Seq<char>) -> Seq<(CpuArch, Option<Platform>)>
    decreases l.len(),
{
    if l.len() == 0 {
        Seq::empty()
    } else {
        let rest = merged_targets(l.drop_last(), n);
        if l.last().name == n { rest + l.last().targets } else { rest }
    }
}

/// The last record named `n`.
pub open spec fn last_named(l: Seq<DylibView>, n: Seq<char>) -> DylibView
    decreases l.len(),
{
    if l.len() == 0 {
        arbitrary()
    } else if l.last().name == n {
        l.last()
    } else {
        last_named(l.drop_last(), n)
    }
}

pub open spec fn has_name(l: Seq<DylibView>, n: Seq<char>) -> bool {
    exists|k: int| 0 <= k < l.len() && #[trigger] l[k].name == n
}

/// `out` holds one record per distinct name of `input`, merging all the
/// records of that name.
pub open spec fn is_merge_of(out: Seq<DylibView>, input: Seq<DylibView>) -> bool {
    &&& forall|i: int, j: int| 0 <= i < j < out.len() ==> out[i].name != out[j].name
    &&& forall|k: int| 0 <= k < input.len() ==> has_name(out, #[trigger] input[k].name)
    &&& forall|i: int| 0 <= i < out.len() ==> has_name(input, #[trigger] out[i].name)
    &&& forall|i: int| 0 <= i < out.len() ==> {
        let r = #[trigger] out[i];
        &&& r.symbols == merged_symbols(input, r.name)
        &&& r.targets == merged_targets(input, r.name)
        &&& r.current_version == last_named(input, r.name).current_version
        &&& r.compatibility_version == last_named(input, r.name).compatibility_version
        &&& r.timestamp == last_named(input, r.name).timestamp
    }
}

proof fn lemma_merged_push(l: Seq<DylibView>, d: DylibView, n: Seq<char>)
    ensures
        l.push(d).drop_last() == l,
        merged_symbols(l.push(d), n) == if d.name == n { merged_symbols(l, n) + d.symbols } else { merged_symbols(l, n) },
        merged_targets(l.push(d), n) == if d.name == n { merged_targets(l, n) + d.targets } else { merged_targets(l, n) },
        last_named(l.push(d), n) == if d.name == n { d } else { last_named(l, n) },
{
    assert(l.push(d).drop_last() == l);
}

impl DylibInfo {
    /// Merges the records that share an install name into one record per
    /// name, sorted by install name. A merged record
    /// holds the symbols and the targets of every record of its name, in
    /// input order; its versions are those of the last record of its name.
    pub fn unique_dylib(dylib_list: Vec<DylibInfo>) -> (r: Vec<DylibInfo>)
        ensures
            is_merge_of(dylib_views(r@), dylib_views(dylib_list@)),
            names_ascending(names_of(dylib_views(r@))),
    {
        let ghost input = dylib_views(dylib_list@);
        let mut rest = dylib_list;
        let mut out: Vec<DylibInfo> = Vec::new();
        let ghost mut done: Seq<DylibView> = Seq::empty();
        while rest.len() > 0
            invariant
                done + dylib_views(rest@) == input,
                is_merge_of(dylib_views(out@), done),
                names_ascending(names_of(dylib_views(out@))),
            decreases rest.len(),
        {
            let ghost rest_before = rest@;
            let mut d = rest.remove(0);
            let ghost dv = d@;
            proof {
                assert(dylib_views(rest_before) == seq![dv] + dylib_views(rest@)) by {
                    assert(dylib_views(rest_before) =~= seq![dv] + dylib_views(rest@));
                }
                lemma_push_concat(done, dv, dylib_views(rest@));
            }
            let mut j: usize = 0;
            while j < out.len() && string_lt(&out[j].name, &d.name)
                invariant
                    j <= out.len(),
                    forall|k: int| 0 <= k < j ==> seq_lt(#[trigger] out@[k].name@, d.name@),
                decreases out.len() - j,
            {
                j = j + 1;
            }
            let found = j < out.len() && string_eq(&out[j].name, &d.name);
            let ghost before = dylib_views(out@);
            if found {
                let found = j;
                let mut e = out.remove(found);
                e.symbols.append(&mut d.symbols);
                e.targets.append(&mut d.targets);
                e.current_version = d.current_version;
                e.compatibility_version = d.compatibility_version;
                e.timestamp = d.timestamp;
                out.insert(found, e);
                proof {
                    let after = dylib_views(out@);
                    assert(after =~= before.update(found as int, after[found as int]));
                    assert(after[found as int].symbols =~= before[found as int].symbols + dv.symbols);
                    assert forall|n: Seq<char>| true implies #[trigger] merged_symbols(done.push(dv), n) == (if dv.name == n { merged_symbols(done, n) + dv.symbols } else { merged_symbols(done, n) }) by {
                        lemma_merged_push(done, dv, n);
                    }
                    assert forall|n: Seq<char>| true implies #[trigger] merged_targets(done.push(dv), n) == (if dv.name == n { merged_targets(done, n) + dv.targets } else { merged_targets(done, n) }) by {
                        lemma_merged_push(done, dv, n);
                    }
                    assert forall|n: Seq<char>| true implies #[trigger] last_named(done.push(dv), n) == (if dv.name == n { dv } else { last_named(done, n) }) by {
                        lemma_merged_push(done, dv, n);
                    }
                    lemma_has_name_push(done, dv);
                    let nd = done.push(dv);
                    assert forall|n: Seq<char>| #[trigger] has_name(after, n) <==> has_name(before, n) by {
                        if has_name(after, n) {
                            let k = choose|k: int| 0 <= k < after.len() && #[trigger] after[k].name == n;
                            assert(before[k].name == n);
                        }
                        if has_name(before, n) {
                            let k = choose|k: int| 0 <= k < before.len() && #[trigger] before[k].name == n;
                            assert(after[k].name == n);
                        }
                    }
                    assert forall|k: int| 0 <= k < nd.len() implies has_name(after, #[trigger] nd[k].name) by {
                        if k < done.len() {
                            assert(nd[k] == done[k]);
                        } else {
                            assert(after[found as int].name == dv.name);
                        }
                    }
                    assert forall|i: int| 0 <= i < after.len() implies has_name(nd, #[trigger] after[i].name) by {
                        assert(after[i].name == before[i].name);
                        assert(has_name(done, before[i].name));
                    }
                    assert forall|i: int| 0 <= i < after.len() implies {
                        let r = #[trigger] after[i];
                        &&& r.symbols == merged_symbols(nd, r.name)
                        &&& r.targets == merged_targets(nd, r.name)
                        &&& r.current_version == last_named(nd, r.name).current_version
                        &&& r.compatibility_version == last_named(nd, r.name).compatibility_version
                        &&& r.timestamp == last_named(nd, r.name).timestamp
                    } by {
                        let r = after[i];
                        assert(merged_symbols(nd, r.name) == (if dv.name == r.name { merged_symbols(done, r.name) + dv.symbols } else { merged_symbols(done, r.name) }));
                        assert(merged_targets(nd, r.name) == (if dv.name == r.name { merged_targets(done, r.name) + dv.targets } else { merged_targets(done, r.name) }));
                        assert(last_named(nd, r.name) == (if dv.name == r.name { dv } else { last_named(done, r.name) }));
                        if i == found as int {
                            assert(after[i].targets =~= before[i].targets + dv.targets);
                        } else {
                            assert(after[i] == before[i]);
                            assert(before[i].name != before[found as int].name);
                        }
                    }
                    assert(is_merge_of(after, nd));
                    assert(names_of(nd).drop_last() =~= names_of(done));
                    assert(names_of(after) =~= names_of(before));
                    assert(names_ascending(names_of(after)));
                }
            } else {
                proof {
                    assert forall|k: int| 0 <= k < before.len() implies #[trigger] before[k].name != dv.name by {
                        assert(before[k].name == out@[k].name@);
                        if k < j {
                            crate::strings::lemma_seq_lt_irreflexive(dv.name);
                        } else {
                            crate::strings::lemma_seq_lt_total(before[j as int].name, dv.name);
                            if k > j {
                                assert(names_of(before)[j as int] == before[j as int].name);
                                assert(names_of(before)[k] == before[k].name);
                                crate::strings::lemma_seq_lt_transitive(dv.name, before[j as int].name, before[k].name);
                                crate::strings::lemma_seq_lt_irreflexive(dv.name);
                            }
                        }
                    }
                    if j < before.len() {
                        crate::strings::lemma_seq_lt_total(before[j as int].name, dv.name);
                        assert(before[j as int].name == out@[j as int].name@);
                    }
                    lemma_merge_insert(before, done, dv, j as int);
                    lemma_names_insert(names_of(before), dv.name, j as int);
                    assert(names_of(before.insert(j as int, dv)) =~= names_of(before).insert(j as int, dv.name));
                    assert forall|k: int| 0 <= k < j implies seq_lt(#[trigger] names_of(before)[k], dv.name) by {
                        assert(names_of(before)[k] == out@[k].name@);
                    }
                }
                out.insert(j, d);
                assert(dylib_views(out@) =~= before.insert(j as int, dv));
            }
            proof {
                done = done.push(dv);
            }
        }
        proof {
            assert(dylib_views(rest@) =~= Seq::<DylibView>::empty());
            assert(done =~= input);
        }
        out
    }
}


pub open spec fn named_has_symbol(l: Seq<DylibView>, n: Seq<char>, x: SymbolView) -> bool {
    exists|k: int| 0 <= k < l.len() && l[k].name == n && #[trigger] l[k].symbols.contains(x)
}

proof fn lemma_merged_symbols_members(l: Seq<DylibView>, n: Seq<char>)
    ensures
        forall|x: SymbolView| #[trigger] merged_symbols(l, n).contains(x) <==> named_has_symbol(l, n, x),
    decreases l.len(),
{
    if l.len() > 0 {
        let p = l.drop_last();
        lemma_merged_symbols_members(p, n);
        assert forall|x: SymbolView| #[trigger] merged_symbols(l, n).contains(x) <==> named_has_symbol(l, n, x) by {
            let m = merged_symbols(p, n);
            if l.last().name == n {
                assert(merged_symbols(l, n) == m + l.last().symbols);
                if (m + l.last().symbols).contains(x) {
                    let i = choose|i: int| 0 <= i < (m + l.last().symbols).len() && (m + l.last().symbols)[i] == x;
                    if i < m.len() {
                        assert(m.contains(x));
                        let k = choose|k: int| 0 <= k < p.len() && p[k].name == n && #[trigger] p[k].symbols.contains(x);
                        assert(l[k] == p[k]);
                    } else {
                        assert(l.last().symbols[i - m.len()] == x);
                        assert(l[l.len() - 1].symbols.contains(x));
                    }
                }
                if named_has_symbol(l, n, x) {
                    let k = choose|k: int| 0 <= k < l.len() && l[k].name == n && #[trigger] l[k].symbols.contains(x);
                    if k < l.len() - 1 {
                        assert(p[k] == l[k]);
                        assert(named_has_symbol(p, n, x));
                        assert(merged_symbols(p, n).contains(x));
                        let i = choose|i: int| 0 <= i < m.len() && m[i] == x;
                        assert((m + l.last().symbols)[i] == x);
                    } else {
                        let i = choose|i: int| 0 <= i < l.last().symbols.len() && l.last().symbols[i] == x;
                        assert((m + l.last().symbols)[m.len() + i] == x);
                    }
                }
            } else {
                if named_has_symbol(l, n, x) {
                    let k = choose|k: int| 0 <= k < l.len() && l[k].name == n && #[trigger] l[k].symbols.contains(x);
                    assert(p[k] == l[k]);
                    assert(named_has_symbol(p, n, x));
                    assert(merged_symbols(p, n).contains(x));
                }
                if merged_symbols(l, n).contains(x) {
                    assert(merged_symbols(p, n).contains(x));
                    assert(named_has_symbol(p, n, x));
                }
                if named_has_symbol(p, n, x) {
                    let k = choose|k: int| 0 <= k < p.len() && p[k].name == n && #[trigger] p[k].symbols.contains(x);
                    assert(p[k] == l[k]);
                }
            }
        }
    }
}

/// Merging keeps every symbol: the record of a name holds each symbol that
/// any input record of that name holds, and no other symbol.
pub proof fn merged_record_is_union_of_symbols(out: Seq<DylibView>, input: Seq<DylibView>)
    requires
        is_merge_of(out, input),
    ensures
        forall|i: int, x: SymbolView| 0 <= i < out.len() ==>
            (#[trigger] out[i].symbols.contains(x) <==> named_has_symbol(input, out[i].name, x)),
        forall|k: int| 0 <= k < input.len() ==> has_name(out, #[trigger] input[k].name),
{
    assert forall|i: int, x: SymbolView| 0 <= i < out.len() implies
        (#[trigger] out[i].symbols.contains(x) <==> named_has_symbol(input, out[i].name, x)) by {
        lemma_merged_symbols_members(input, out[i].name);
    }
}

proof fn lemma_names_insert(ns: Seq<Seq<char>>, x: Seq<char>, j: int)
    requires
        0 <= j <= ns.len(),
        names_ascending(ns),
        forall|k: int| 0 <= k < j ==> seq_lt(#[trigger] ns[k], x),
        j < ns.len() ==> seq_lt(x, ns[j]),
    ensures
        names_ascending(ns.insert(j, x)),
{
    let r = ns.insert(j, x);
    assert forall|a: int, b: int| 0 <= a < b < r.len() implies seq_lt(#[trigger] r[a], #[trigger] r[b]) by {
        if b < j {
            assert(r[a] == ns[a] && r[b] == ns[b]);
        } else if b == j {
            assert(r[a] == ns[a] && r[b] == x);
        } else if a == j {
            assert(r[b] == ns[b - 1]);
            if b - 1 > j {
                crate::strings::lemma_seq_lt_transitive(x, ns[j], ns[b - 1]);
            }
        } else if a < j {
            assert(r[a] == ns[a] && r[b] == ns[b - 1]);
            if b - 1 >= j {
                assert(seq_lt(ns[a], x));
                if j < ns.len() {
                    assert(seq_lt(ns[a], ns[b - 1]));
                }
            }
        } else {
            assert(r[a] == ns[a - 1] && r[b] == ns[b - 1]);
        }
    }
}

proof fn lemma_merge_insert(before: Seq<DylibView>, done: Seq<DylibView>, dv: DylibView, j: int)
    requires
        0 <= j <= before.len(),
        is_merge_of(before, done),
        forall|k: int| 0 <= k < before.len() ==> #[trigger] before[k].name != dv.name,
    ensures
        is_merge_of(before.insert(j, dv), done.push(dv)),
{
    let after = before.insert(j, dv);
    let nd = done.push(dv);
    assert forall|n: Seq<char>| true implies #[trigger] merged_symbols(nd, n) == (if dv.name == n { merged_symbols(done, n) + dv.symbols } else { merged_symbols(done, n) }) by {
        lemma_merged_push(done, dv, n);
    }
    assert forall|n: Seq<char>| true implies #[trigger] merged_targets(nd, n) == (if dv.name == n { merged_targets(done, n) + dv.targets } else { merged_targets(done, n) }) by {
        lemma_merged_push(done, dv, n);
    }
    assert forall|n: Seq<char>| true implies #[trigger] last_named(nd, n) == (if dv.name == n { dv } else { last_named(done, n) }) by {
        lemma_merged_push(done, dv, n);
    }
    lemma_has_name_push(done, dv);
    assert(!has_name(done, dv.name)) by {
        if has_name(done, dv.name) {
            let k = choose|k: int| 0 <= k < done.len() && #[trigger] done[k].name == dv.name;
            assert(has_name(before, done[k].name));
            let i = choose|i: int| 0 <= i < before.len() && #[trigger] before[i].name == dv.name;
        }
    }
    lemma_not_named_empty(done, dv.name);
    assert forall|n: Seq<char>| #[trigger] has_name(after, n) <==> (has_name(before, n) || dv.name == n) by {
        if has_name(after, n) {
            let k = choose|k: int| 0 <= k < after.len() && #[trigger] after[k].name == n;
            if k < j {
                assert(before[k].name == n);
            } else if k > j {
                assert(before[k - 1].name == n);
            }
        }
        if has_name(before, n) {
            let k = choose|k: int| 0 <= k < before.len() && #[trigger] before[k].name == n;
            if k < j {
                assert(after[k].name == n);
            } else {
                assert(after[k + 1].name == n);
            }
        }
        if dv.name == n {
            assert(after[j].name == n);
        }
    }
    assert forall|k: int| 0 <= k < nd.len() implies has_name(after, #[trigger] nd[k].name) by {
        if k < done.len() {
            assert(nd[k] == done[k]);
        }
    }
    assert forall|i: int| 0 <= i < after.len() implies has_name(nd, #[trigger] after[i].name) by {
        if i < j {
            assert(after[i].name == before[i].name);
            assert(has_name(done, before[i].name));
        } else if i > j {
            assert(after[i].name == before[i - 1].name);
            assert(has_name(done, before[i - 1].name));
        }
    }
    assert forall|a: int, b: int| 0 <= a < b < after.len() implies after[a].name != after[b].name by {
        if a < j && b < j {
            assert(after[a] == before[a] && after[b] == before[b]);
        } else if a < j && b == j {
            assert(after[a] == before[a]);
        } else if a < j {
            assert(after[a] == before[a] && after[b] == before[b - 1]);
        } else if a == j {
            assert(after[b] == before[b - 1]);
        } else {
            assert(after[a] == before[a - 1] && after[b] == before[b - 1]);
        }
    }
    assert forall|i: int| 0 <= i < after.len() implies {
        let r = #[trigger] after[i];
        &&& r.symbols == merged_symbols(nd, r.name)
        &&& r.targets == merged_targets(nd, r.name)
        &&& r.current_version == last_named(nd, r.name).current_version
        &&& r.compatibility_version == last_named(nd, r.name).compatibility_version
        &&& r.timestamp == last_named(nd, r.name).timestamp
    } by {
        let r = after[i];
        assert(merged_symbols(nd, r.name) == (if dv.name == r.name { merged_symbols(done, r.name) + dv.symbols } else { merged_symbols(done, r.name) }));
        assert(merged_targets(nd, r.name) == (if dv.name == r.name { merged_targets(done, r.name) + dv.targets } else { merged_targets(done, r.name) }));
        assert(last_named(nd, r.name) == (if dv.name == r.name { dv } else { last_named(done, r.name) }));
        if i == j {
            assert(Seq::<SymbolView>::empty() + dv.symbols =~= dv.symbols);
            assert(Seq::<(CpuArch, Option<Platform>)>::empty() + dv.targets =~= dv.targets);
        } else if i < j {
            assert(r == before[i]);
        } else {
            assert(r == before[i - 1]);
        }
    }
}

proof fn lemma_push_concat(a: Seq<DylibView>, x: DylibView, b: Seq<DylibView>)
    ensures
        a + (seq![x] + b) == a.push(x) + b,
{
    assert(a + (seq![x] + b) =~= a.push(x) + b);
}

proof fn lemma_has_name_push(l: Seq<DylibView>, d: DylibView)
    ensures
        forall|n: Seq<char>| #[trigger] has_name(l.push(d), n) <==> (has_name(l, n) || d.name == n),
{
    assert forall|n: Seq<char>| #[trigger] has_name(l.push(d), n) <==> (has_name(l, n) || d.name == n) by {
        if has_name(l, n) {
            let k = choose|k: int| 0 <= k < l.len() && #[trigger] l[k].name == n;
            assert(l.push(d)[k].name == n);
        }
        if d.name == n {
            assert(l.push(d)[l.len() as int].name == n);
        }
        if has_name(l.push(d), n) {
            let k = choose|k: int| 0 <= k < l.push(d).len() && #[trigger] l.push(d)[k].name == n;
            if k < l.len() {
                assert(l[k].name == n);
            }
        }
    }
}

proof fn lemma_not_named_empty(l: Seq<DylibView>, n: Seq<char>)
    requires
        !has_name(l, n),
    ensures
        merged_symbols(l, n) == Seq::<SymbolView>::empty(),
        merged_targets(l, n) == Seq::<(CpuArch, Option<Platform>)>::empty(),
    decreases l.len(),
{
    if l.len() > 0 {
        assert(l.drop_last().len() < l.len());
        assert(!has_name(l.drop_last(), n)) by {
            if has_name(l.drop_last(), n) {
                let k = choose|k: int| 0 <= k < l.drop_last().len() && #[trigger] l.drop_last()[k].name == n;
                assert(l[k].name == n);
            }
        }
        assert(l[l.len() - 1].name != n);
        lemma_not_named_empty(l.drop_last(), n);
    }
}

} // verus!

verus! {

/// The target a symbol or a reference stands for: its own platform, or
/// else the default one.
pub open spec fn resolve(arch: CpuArch, platform: Option<Platform>, default_platform: Option<Platform>) -> Option<Target> {
    match platform {
        Some(p) => Some(Target { arch, platform: p }),
        None => match default_platform {
            Some(p) => Some(Target { arch, platform: p }),
            None => None,
        },
    }
}

/// Some symbol or reference of `d` has no platform of its own, and no
/// default is given.
pub open spec fn lacks_platform(d: DylibView, default_platform: Option<Platform>) -> bool {
    default_platform is None && (
        (exists|i: int| 0 <= i < d.symbols.len() && (#[trigger] d.symbols[i]).platform is None)
        || (exists|i: int| 0 <= i < d.targets.len() && (#[trigger] d.targets[i]).1 is None))
}

pub open spec fn resolved(arch: CpuArch, platform: Option<Platform>, default_platform: Option<Platform>) -> Target {
    resolve(arch, platform, default_platform).unwrap()
}

/// The target of each symbol, in symbol order.
pub open spec fn symbol_targets(d: DylibView, dp: Option<Platform>) -> Seq<Target> {
    d.symbols.map_values(|s: SymbolView| resolved(s.arch, s.platform, dp))
}

/// The target of each reference, in reference order.
pub open spec fn reference_targets(d: DylibView, dp: Option<Platform>) -> Seq<Target> {
    d.targets.map_values(|t: (CpuArch, Option<Platform>)| resolved(t.0, t.1, dp))
}

/// The elements of `s` without repetition, in order of first appearance.
pub open spec fn dedup<T>(s: Seq<T>) -> Seq<T>
    decreases s.len(),
{
    if s.len() == 0 {
        Seq::empty()
    } else {
        let d = dedup(s.drop_last());
        if d.contains(s.last()) { d } else { d.push(s.last()) }
    }
}

/// Every target of the stub: the references' targets, then the symbols'.
pub open spec fn all_targets(d: DylibView, dp: Option<Platform>) -> Seq<Target> {
    dedup(reference_targets(d, dp) + symbol_targets(d, dp))
}

pub open spec fn symbol_name_seq(d: DylibView) -> Seq<Seq<char>> {
    d.symbols.map_values(|s: SymbolView| s.name)
}

/// The distinct symbol names of `d`.
pub open spec fn symbol_names(d: DylibView) -> Seq<Seq<char>> {
    dedup(symbol_name_seq(d))
}

pub open spec fn exports_on(d: DylibView, dp: Option<Platform>, n: Seq<char>, t: Target) -> bool {
    exists|i: int| 0 <= i < d.symbols.len() && (#[trigger] d.symbols[i]).name == n
        && resolved(d.symbols[i].arch, d.symbols[i].platform, dp) == t
}

pub open spec fn exports_pred(d: DylibView, dp: Option<Platform>, n: Seq<char>) -> spec_fn(Target) -> bool {
    |t: Target| exports_on(d, dp, n, t)
}

/// The targets on which the symbol named `n` is exported.
pub open spec fn target_set(d: DylibView, dp: Option<Platform>, n: Seq<char>) -> Seq<Target> {
    all_targets(d, dp).filter(exports_pred(d, dp, n))
}

pub open spec fn target_set_of(d: DylibView, dp: Option<Platform>) -> spec_fn(Seq<char>) -> Seq<Target> {
    |n: Seq<char>| target_set(d, dp, n)
}

pub open spec fn member_pred(d: DylibView, dp: Option<Platform>, g: Seq<Target>) -> spec_fn(Seq<char>) -> bool {
    |n: Seq<char>| target_set(d, dp, n) == g
}

/// The distinct target sets, one export block each.
pub open spec fn export_groups(d: DylibView, dp: Option<Platform>) -> Seq<Seq<Target>> {
    dedup(symbol_names(d).map_values(target_set_of(d, dp)))
}

/// The symbols of the export block for the target set `g`.
pub open spec fn group_members(d: DylibView, dp: Option<Platform>, g: Seq<Target>) -> Seq<Seq<char>> {
    symbol_names(d).filter(member_pred(d, dp, g))
}

pub open spec fn target_lines(ts: Seq<Target>, indent: Seq<char>) -> Seq<char>
    decreases ts.len(),
{
    if ts.len() == 0 {
        Seq::empty()
    } else {
        target_lines(ts.drop_last(), indent) + indent + ts.last().spec_text() + ",\n"@
    }
}

pub open spec fn symbol_lines(ns: Seq<Seq<char>>) -> Seq<char>
    decreases ns.len(),
{
    if ns.len() == 0 {
        Seq::empty()
    } else {
        symbol_lines(ns.drop_last()) + "        "@ + ns.last() + ",\n"@
    }
}

pub open spec fn export_block(d: DylibView, dp: Option<Platform>, g: Seq<Target>) -> Seq<char> {
    "  - targets: [\n"@ + target_lines(g, "        "@) + "    ]\n    symbols: [\n"@
        + symbol_lines(group_members(d, dp, g)) + "    ]\n"@
}

pub open spec fn export_blocks(d: DylibView, dp: Option<Platform>, gs: Seq<Seq<Target>>) -> Seq<char>
    decreases gs.len(),
{
    if gs.len() == 0 {
        Seq::empty()
    } else {
        export_blocks(d, dp, gs.drop_last()) + export_block(d, dp, gs.last())
    }
}

/// The stub document of `d`.
pub open spec fn stub_document(d: DylibView, dp: Option<Platform>) -> Seq<char> {
    "--- !tapi-tbd\ntbd-version:     4\ntargets: [\n"@
        + target_lines(all_targets(d, dp), "    "@)
        + "]\ninstall-name:    '"@ + d.name + "'\ncurrent-version: "@
        + decimal((d.current_version / 0x10000) as nat) + "\nexports:\n"@
        + export_blocks(d, dp, export_groups(d, dp))
        + "...\n"@
}

/// Why a stub could not be written.
#[derive(Debug, PartialEq, Eq, Structural)]
pub enum TextApiGenErr {
    /// A symbol or a reference has no platform, and no default was given.
    NoPlatform,
}

} // verus!

verus! {

pub(crate) proof fn lemma_filter_step<A>(s: Seq<A>, p: spec_fn(A) -> bool, i: int)
    requires
        0 <= i < s.len(),
    ensures
        s.subrange(0, i + 1).filter(p) == (if p(s[i]) { s.subrange(0, i).filter(p).push(s[i]) } else { s.subrange(0, i).filter(p) }),
{
    reveal(Seq::filter);
    assert(s.subrange(0, i + 1).drop_last() == s.subrange(0, i));
}

proof fn lemma_dedup_step<A>(s: Seq<A>, i: int)
    requires
        0 <= i < s.len(),
    ensures
        dedup(s.subrange(0, i + 1)) == (if dedup(s.subrange(0, i)).contains(s[i]) { dedup(s.subrange(0, i)) } else { dedup(s.subrange(0, i)).push(s[i]) }),
{
    assert(s.subrange(0, i + 1).drop_last() == s.subrange(0, i));
}

proof fn lemma_dedup_members<A>(s: Seq<A>)
    ensures
        forall|x: A| #[trigger] dedup(s).contains(x) <==> s.contains(x),
        dedup(s).no_duplicates(),
    decreases s.len(),
{
    if s.len() > 0 {
        let p = s.drop_last();
        lemma_dedup_members(p);
        assert forall|x: A| #[trigger] dedup(s).contains(x) <==> s.contains(x) by {
            if p.contains(x) {
                let k = choose|k: int| 0 <= k < p.len() && p[k] == x;
                assert(s[k] == x);
            }
            if s.contains(x) {
                let k = choose|k: int| 0 <= k < s.len() && s[k] == x;
                if k < s.len() - 1 {
                    assert(p[k] == x);
                    assert(dedup(p).contains(x));
                }
            }
            if dedup(s).contains(x) && !dedup(p).contains(s.last()) {
                let k = choose|k: int| 0 <= k < dedup(s).len() && dedup(s)[k] == x;
                if k < dedup(p).len() {
                    assert(dedup(p)[k] == x);
                    assert(dedup(p).contains(x));
                }
            }
            if dedup(p).contains(x) && !dedup(p).contains(s.last()) {
                let k = choose|k: int| 0 <= k < dedup(p).len() && dedup(p)[k] == x;
                assert(dedup(s)[k] == x);
            }
            if !dedup(p).contains(s.last()) {
                assert(dedup(s)[dedup(p).len() as int] == s.last());
            }
        }
    }
}

fn contains_target(v: &Vec<Target>, t: Target) -> (r: bool)
    ensures
        r == v@.contains(t),
{
    let mut i: usize = 0;
    while i < v.len()
        invariant
            i <= v.len(),
            forall|k: int| 0 <= k < i ==> v@[k] != t,
        decreases v.len() - i,
    {
        if v[i] == t {
            assert(v@[i as int] == t);
            return true;
        }
        i = i + 1;
    }
    false
}

fn dedup_targets(v: &Vec<Target>) -> (r: Vec<Target>)
    ensures
        r@ == dedup(v@),
{
    let mut r: Vec<Target> = Vec::new();
    let mut i: usize = 0;
    while i < v.len()
        invariant
            i <= v.len(),
            r@ == dedup(v@.subrange(0, i as int)),
        decreases v.len() - i,
    {
        proof { lemma_dedup_step(v@, i as int); }
        if !contains_target(&r, v[i]) {
            r.push(v[i]);
        }
        i = i + 1;
    }
    assert(v@.subrange(0, v.len() as int) == v@);
    r
}

fn targets_eq(a: &Vec<Target>, b: &Vec<Target>) -> (r: bool)
    ensures
        r == (a@ == b@),
{
    if a.len() != b.len() {
        return false;
    }
    let mut i: usize = 0;
    while i < a.len()
        invariant
            i <= a.len(),
            a.len() == b.len(),
            forall|k: int| 0 <= k < i ==> a@[k] == b@[k],
        decreases a.len() - i,
    {
        if a[i] != b[i] {
            return false;
        }
        i = i + 1;
    }
    assert(a@ =~= b@);
    true
}

pub open spec fn views_of_targets(v: Seq<Vec<Target>>) -> Seq<Seq<Target>> {
    v.map_values(|x: Vec<Target>| x@)
}

pub open spec fn views_of_strings(v: Seq<String>) -> Seq<Seq<char>> {
    v.map_values(|x: String| x@)
}

fn contains_target_set(v: &Vec<Vec<Target>>, t: &Vec<Target>) -> (r: bool)
    ensures
        r == views_of_targets(v@).contains(t@),
{
    let mut i: usize = 0;
    while i < v.len()
        invariant
            i <= v.len(),
            forall|k: int| 0 <= k < i ==> v@[k]@ != t@,
        decreases v.len() - i,
    {
        if targets_eq(&v[i], t) {
            assert(views_of_targets(v@)[i as int] == t@);
            return true;
        }
        i = i + 1;
    }
    proof {
        if views_of_targets(v@).contains(t@) {
            let k = choose|k: int| 0 <= k < views_of_targets(v@).len() && views_of_targets(v@)[k] == t@;
            assert(v@[k]@ == t@);
        }
    }
    false
}

fn contains_string(v: &Vec<String>, s: &String) -> (r: bool)
    ensures
        r == views_of_strings(v@).contains(s@),
{
    let mut i: usize = 0;
    while i < v.len()
        invariant
            i <= v.len(),
            forall|k: int| 0 <= k < i ==> v@[k]@ != s@,
        decreases v.len() - i,
    {
        if string_eq(&v[i], s) {
            assert(views_of_strings(v@)[i as int] == s@);
            return true;
        }
        i = i + 1;
    }
    proof {
        if views_of_strings(v@).contains(s@) {
            let k = choose|k: int| 0 <= k < views_of_strings(v@).len() && views_of_strings(v@)[k] == s@;
            assert(v@[k]@ == s@);
        }
    }
    false
}

} // verus!

verus! {

fn resolve_target(arch: CpuArch, platform: Option<Platform>, default_platform: Option<Platform>) -> (r: Option<Target>)
    ensures
        r == resolve(arch, platform, default_platform),
{
    match platform {
        Some(p) => Some(Target { arch, platform: p }),
        None => match default_platform {
            Some(p) => Some(Target { arch, platform: p }),
            None => None,
        },
    }
}

fn exports(dylib: &DylibInfo, syms: &Vec<Target>, n: &String, t: Target, Ghost(dp): Ghost<Option<Platform>>) -> (r: bool)
    requires
        syms@ == symbol_targets(dylib@, dp),
    ensures
        r == exports_on(dylib@, dp, n@, t),
{
    let ghost d = dylib@;
    let mut c: usize = 0;
    while c < dylib.symbols.len()
        invariant
            c <= dylib.symbols.len(),
            syms@ == symbol_targets(d, dp),
            d == dylib@,
            forall|k: int| 0 <= k < c ==> !(d.symbols[k].name == n@ && resolved(d.symbols[k].arch, d.symbols[k].platform, dp) == t),
        decreases dylib.symbols.len() - c,
    {
        assert(d.symbols[c as int] == dylib.symbols@[c as int]@);
        if syms[c] == t && string_eq(&dylib.symbols[c].name, n) {
            assert(d.symbols[c as int].name == n@);
            return true;
        }
        c = c + 1;
    }
    false
}

fn append_target_lines(doc: String, ts: &Vec<Target>, indent: &str) -> (r: String)
    ensures
        r@ == doc@ + target_lines(ts@, indent@),
{
    let mut doc = doc;
    let ghost start = doc@;
    let mut i: usize = 0;
    while i < ts.len()
        invariant
            i <= ts.len(),
            doc@ == start + target_lines(ts@.subrange(0, i as int), indent@),
        decreases ts.len() - i,
    {
        let ghost prev = doc@;
        doc = doc.concat(indent);
        let text = ts[i].text();
        doc = doc.concat(text.as_str());
        doc = doc.concat(",\n");
        proof {
            let sub = ts@.subrange(0, i as int + 1);
            assert(sub.drop_last() == ts@.subrange(0, i as int));
            assert(sub.last() == ts@[i as int]);
            assert(doc@ =~= start + target_lines(sub, indent@));
        }
        i = i + 1;
    }
    assert(ts@.subrange(0, ts.len() as int) == ts@);
    doc
}

fn append_symbol_lines(doc: String, ns: &Vec<String>) -> (r: String)
    ensures
        r@ == doc@ + symbol_lines(views_of_strings(ns@)),
{
    let mut doc = doc;
    let ghost start = doc@;
    let ghost all = views_of_strings(ns@);
    let mut i: usize = 0;
    while i < ns.len()
        invariant
            i <= ns.len(),
            all == views_of_strings(ns@),
            doc@ == start + symbol_lines(all.subrange(0, i as int)),
        decreases ns.len() - i,
    {
        doc = doc.concat("        ");
        doc = doc.concat(ns[i].as_str());
        doc = doc.concat(",\n");
        proof {
            let sub = all.subrange(0, i as int + 1);
            assert(sub.drop_last() == all.subrange(0, i as int));
            assert(sub.last() == ns@[i as int]@);
            assert(doc@ =~= start + symbol_lines(sub));
        }
        i = i + 1;
    }
    assert(all.subrange(0, ns.len() as int) == all);
    doc
}

/// Writes the stub document of one library. Each symbol's target is its
/// own platform or else `default_platform`; where neither exists the
/// document cannot be written. Symbols are grouped by the exact set of
/// targets that export them, one export block per set.
pub fn generate_text_api(default_platform: Option<Platform>, dylib: &DylibInfo) -> (r: Result<String, TextApiGenErr>)
    ensures
        r is Err <==> lacks_platform(dylib@, default_platform),
        r is Ok ==> r->Ok_0@ == stub_document(dylib@, default_platform),
{
    let ghost d = dylib@;
    let ghost dp = default_platform;
    let mut raw: Vec<Target> = Vec::new();
    let mut i: usize = 0;
    while i < dylib.targets.len()
        invariant
            i <= dylib.targets.len(),
            d == dylib@,
            raw@ == reference_targets(d, dp).subrange(0, i as int),
            dp == default_platform,
            forall|k: int| 0 <= k < i ==> resolve(d.targets[k].0, d.targets[k].1, dp) is Some,
        decreases dylib.targets.len() - i,
    {
        let (arch, p) = dylib.targets[i];
        let t = match resolve_target(arch, p, default_platform) {
            Some(t) => t,
            None => {
                assert(d.targets[i as int].1 is None);
                return Err(TextApiGenErr::NoPlatform);
            },
        };
        assert(d.targets[i as int] == (arch, p));
        assert(resolve(arch, p, dp) == Some(t));
        assert(reference_targets(d, dp)[i as int] == t);
        raw.push(t);
        assert(raw@ =~= reference_targets(d, dp).subrange(0, i as int + 1));
        i = i + 1;
    }
    assert(raw@ == reference_targets(d, dp));
    let mut syms: Vec<Target> = Vec::new();
    let mut i: usize = 0;
    while i < dylib.symbols.len()
        invariant
            i <= dylib.symbols.len(),
            d == dylib@,
            syms@ == symbol_targets(d, dp).subrange(0, i as int),
            dp == default_platform,
            raw@ == reference_targets(d, dp) + syms@,
            forall|k: int| 0 <= k < i ==> resolve(d.symbols[k].arch, d.symbols[k].platform, dp) is Some,
            forall|k: int| 0 <= k < d.targets.len() ==> resolve(d.targets[k].0, d.targets[k].1, dp) is Some,
        decreases dylib.symbols.len() - i,
    {
        let arch = dylib.symbols[i].arch;
        let p = dylib.symbols[i].platform;
        assert(d.symbols[i as int] == dylib.symbols@[i as int]@);
        let t = match resolve_target(arch, p, default_platform) {
            Some(t) => t,
            None => {
                assert(d.symbols[i as int].platform is None);
                return Err(TextApiGenErr::NoPlatform);
            },
        };
        assert(resolve(arch, p, dp) == Some(t));
        assert(symbol_targets(d, dp)[i as int] == t);
        syms.push(t);
        raw.push(t);
        assert(syms@ =~= symbol_targets(d, dp).subrange(0, i as int + 1));
        i = i + 1;
    }
    assert(syms@ == symbol_targets(d, dp));
    assert(!lacks_platform(d, dp)) by {
        if lacks_platform(d, dp) {
            if exists|i: int| 0 <= i < d.symbols.len() && (#[trigger] d.symbols[i]).platform is None {
                let k = choose|i: int| 0 <= i < d.symbols.len() && (#[trigger] d.symbols[i]).platform is None;
                assert(resolve(d.symbols[k].arch, d.symbols[k].platform, dp) is Some);
            } else {
                let k = choose|i: int| 0 <= i < d.targets.len() && (#[trigger] d.targets[i]).1 is None;
                assert(resolve(d.targets[k].0, d.targets[k].1, dp) is Some);
            }
        }
    }
    let all = dedup_targets(&raw);
    assert(all@ == all_targets(d, dp));

    // the distinct symbol names
    let mut names: Vec<String> = Vec::new();
    let mut i: usize = 0;
    while i < dylib.symbols.len()
        invariant
            i <= dylib.symbols.len(),
            d == dylib@,
            views_of_strings(names@) == dedup(symbol_name_seq(d).subrange(0, i as int)),
        decreases dylib.symbols.len() - i,
    {
        proof { lemma_dedup_step(symbol_name_seq(d), i as int); }
        assert(symbol_name_seq(d)[i as int] == dylib.symbols@[i as int].name@);
        if !contains_string(&names, &dylib.symbols[i].name) {
            let ghost before = names@;
            names.push(copy_string(&dylib.symbols[i].name));
            assert(views_of_strings(names@) =~= views_of_strings(before).push(dylib.symbols@[i as int].name@));
        }
        i = i + 1;
    }
    assert(symbol_name_seq(d).subrange(0, dylib.symbols.len() as int) == symbol_name_seq(d));
    assert(views_of_strings(names@) == symbol_names(d));

    // the target set of each name
    let mut sets: Vec<Vec<Target>> = Vec::new();
    let mut a: usize = 0;
    while a < names.len()
        invariant
            a <= names.len(),
            d == dylib@,
            all@ == all_targets(d, dp),
            syms@ == symbol_targets(d, dp),
            views_of_strings(names@) == symbol_names(d),
            sets@.len() == a,
            forall|k: int| 0 <= k < a ==> (#[trigger] sets@[k])@ == target_set(d, dp, names@[k]@),
        decreases names.len() - a,
    {
        let mut set: Vec<Target> = Vec::new();
        let mut b: usize = 0;
        while b < all.len()
            invariant
                b <= all.len(),
                a < names.len(),
                d == dylib@,
                syms@ == symbol_targets(d, dp),
                set@ == all@.subrange(0, b as int).filter(exports_pred(d, dp, names@[a as int]@)),
            decreases all.len() - b,
        {
            proof { lemma_filter_step(all@, exports_pred(d, dp, names@[a as int]@), b as int); }
            if exports(dylib, &syms, &names[a], all[b], Ghost(dp)) {
                set.push(all[b]);
            }
            b = b + 1;
        }
        assert(all@.subrange(0, all.len() as int) == all@);
        sets.push(set);
        a = a + 1;
    }
    assert(views_of_targets(sets@) =~= symbol_names(d).map_values(target_set_of(d, dp)));

    // the distinct target sets
    let mut groups: Vec<Vec<Target>> = Vec::new();
    let mut a: usize = 0;
    while a < sets.len()
        invariant
            a <= sets.len(),
            views_of_targets(groups@) == dedup(views_of_targets(sets@).subrange(0, a as int)),
        decreases sets.len() - a,
    {
        proof { lemma_dedup_step(views_of_targets(sets@), a as int); }
        if !contains_target_set(&groups, &sets[a]) {
            let ghost before = groups@;
            let mut copy: Vec<Target> = Vec::new();
            let mut b: usize = 0;
            while b < sets[a].len()
                invariant
                    a < sets.len(),
                    b <= sets@[a as int].len(),
                    copy@ == sets@[a as int]@.subrange(0, b as int),
                decreases sets@[a as int].len() - b,
            {
                copy.push(sets[a][b]);
                assert(copy@ =~= sets@[a as int]@.subrange(0, b as int + 1));
                b = b + 1;
            }
            assert(copy@ =~= sets@[a as int]@);
            groups.push(copy);
            assert(views_of_targets(groups@) =~= views_of_targets(before).push(sets@[a as int]@));
        }
        a = a + 1;
    }
    assert(views_of_targets(sets@).subrange(0, sets.len() as int) == views_of_targets(sets@));
    assert(views_of_targets(groups@) == export_groups(d, dp));

    // the document
    let mut doc = "--- !tapi-tbd\ntbd-version:     4\ntargets: [\n".to_owned();
    doc = append_target_lines(doc, &all, "    ");
    doc = doc.concat("]\ninstall-name:    '");
    doc = doc.concat(dylib.name.as_str());
    doc = doc.concat("'\ncurrent-version: ");
    let major = to_decimal(dylib.current_version / 0x10000);
    doc = doc.concat(major.as_str());
    doc = doc.concat("\nexports:\n");
    let ghost head = doc@;
    let ghost gs = views_of_targets(groups@);
    let mut gi: usize = 0;
    while gi < groups.len()
        invariant
            gi <= groups.len(),
            d == dylib@,
            gs == views_of_targets(groups@),
            views_of_strings(names@) == symbol_names(d),
            sets@.len() == names@.len(),
            forall|k: int| 0 <= k < sets@.len() ==> (#[trigger] sets@[k])@ == target_set(d, dp, names@[k]@),
            doc@ == head + export_blocks(d, dp, gs.subrange(0, gi as int)),
        decreases groups.len() - gi,
    {
        let ghost g = groups@[gi as int]@;
        let mut members: Vec<String> = Vec::new();
        let mut a: usize = 0;
        while a < names.len()
            invariant
                a <= names.len(),
                gi < groups.len(),
                g == groups@[gi as int]@,
                views_of_strings(names@) == symbol_names(d),
                sets@.len() == names@.len(),
                forall|k: int| 0 <= k < sets@.len() ==> (#[trigger] sets@[k])@ == target_set(d, dp, names@[k]@),
                views_of_strings(members@) == symbol_names(d).subrange(0, a as int).filter(member_pred(d, dp, g)),
            decreases names.len() - a,
        {
            proof { lemma_filter_step(symbol_names(d), member_pred(d, dp, g), a as int); }
            assert(symbol_names(d)[a as int] == names@[a as int]@);
            assert(sets@[a as int]@ == target_set(d, dp, names@[a as int]@));
            if targets_eq(&sets[a], &groups[gi]) {
                let ghost before = members@;
                members.push(copy_string(&names[a]));
                assert(views_of_strings(members@) =~= views_of_strings(before).push(names@[a as int]@));
            }
            a = a + 1;
        }
        assert(symbol_names(d).subrange(0, names.len() as int) == symbol_names(d));
        let ghost before = doc@;
        doc = doc.concat("  - targets: [\n");
        doc = append_target_lines(doc, &groups[gi], "        ");
        doc = doc.concat("    ]\n    symbols: [\n");
        doc = append_symbol_lines(doc, &members);
        doc = doc.concat("    ]\n");
        proof {
            let sub = gs.subrange(0, gi as int + 1);
            assert(sub.drop_last() == gs.subrange(0, gi as int));
            assert(sub.last() == g);
            assert(doc@ =~= before + export_block(d, dp, g));
            assert(doc@ =~= head + export_blocks(d, dp, sub));
        }
        gi = gi + 1;
    }
    assert(gs.subrange(0, groups.len() as int) == gs);
    doc = doc.concat("...\n");
    assert(doc@ =~= stub_document(d, dp));
    Ok(doc)
}

} // verus!

verus! {

proof fn lemma_filter_no_duplicates<A>(s: Seq<A>, p: spec_fn(A) -> bool)
    requires
        s.no_duplicates(),
    ensures
        s.filter(p).no_duplicates(),
    decreases s.len(),
{
    reveal(Seq::filter);
    if s.len() > 0 {
        let q = s.drop_last();
        assert(q.no_duplicates()) by {
            assert forall|i: int, j: int| 0 <= i < q.len() && 0 <= j < q.len() && i != j implies q[i] != q[j] by {
                assert(q[i] == s[i] && q[j] == s[j]);
            }
        }
        lemma_filter_no_duplicates(q, p);
        if p(s.last()) {
            let f = q.filter(p);
            if f.contains(s.last()) {
                q.lemma_filter_contains_rev(p, s.last());
                let k = choose|k: int| 0 <= k < q.len() && q[k] == s.last();
                assert(s[k] == s[s.len() - 1]);
            }
            assert forall|i: int, j: int| 0 <= i < f.push(s.last()).len() && 0 <= j < f.push(s.last()).len() && i != j
                implies f.push(s.last())[i] != f.push(s.last())[j] by {
                if i == f.len() {
                    assert(f[j] != s.last()) by {
                        if f[j] == s.last() { assert(f.contains(s.last())); }
                    }
                } else if j == f.len() {
                    assert(f[i] != s.last()) by {
                        if f[i] == s.last() { assert(f.contains(s.last())); }
                    }
                }
            }
        }
    }
}

pub open spec fn in_some_block(d: DylibView, dp: Option<Platform>, n: Seq<char>) -> bool {
    exists|g: int| 0 <= g < export_groups(d, dp).len()
        && #[trigger] group_members(d, dp, export_groups(d, dp)[g]).contains(n)
}

/// Export blocks partition the symbols of a library: each of its symbols
/// stands in exactly one block, once, and a block holds only its symbols.
pub proof fn export_blocks_partition_symbols(d: DylibView, dp: Option<Platform>)
    ensures
        forall|i: int| 0 <= i < d.symbols.len() ==> in_some_block(d, dp, #[trigger] d.symbols[i].name),
        forall|g1: int, g2: int, n: Seq<char>|
            0 <= g1 < export_groups(d, dp).len() && 0 <= g2 < export_groups(d, dp).len()
            && #[trigger] group_members(d, dp, export_groups(d, dp)[g1]).contains(n)
            && #[trigger] group_members(d, dp, export_groups(d, dp)[g2]).contains(n) ==> g1 == g2,
        forall|g: int, n: Seq<char>| 0 <= g < export_groups(d, dp).len()
            && #[trigger] group_members(d, dp, export_groups(d, dp)[g]).contains(n) ==>
            exists|i: int| 0 <= i < d.symbols.len() && #[trigger] d.symbols[i].name == n,
        forall|g: int| 0 <= g < export_groups(d, dp).len() ==>
            (#[trigger] group_members(d, dp, export_groups(d, dp)[g])).no_duplicates(),
{
    let names = symbol_names(d);
    let sets = names.map_values(target_set_of(d, dp));
    let groups = export_groups(d, dp);
    lemma_dedup_members(symbol_name_seq(d));
    lemma_dedup_members(sets);
    assert forall|i: int| 0 <= i < d.symbols.len() implies in_some_block(d, dp, #[trigger] d.symbols[i].name) by {
        let n = d.symbols[i].name;
        assert(symbol_name_seq(d)[i] == n);
        assert(symbol_name_seq(d).contains(n));
        assert(names.contains(n));
        let a = choose|a: int| 0 <= a < names.len() && names[a] == n;
        let ts = target_set(d, dp, n);
        assert(sets[a] == ts);
        assert(sets.contains(ts));
        assert(groups.contains(ts));
        let g = choose|g: int| 0 <= g < groups.len() && groups[g] == ts;
        assert(member_pred(d, dp, ts)(names[a]));
        names.lemma_filter_contains(member_pred(d, dp, ts), a);
        assert(group_members(d, dp, groups[g]).contains(n));
    }
    assert forall|g1: int, g2: int, n: Seq<char>|
        0 <= g1 < groups.len() && 0 <= g2 < groups.len()
        && #[trigger] group_members(d, dp, groups[g1]).contains(n)
        && #[trigger] group_members(d, dp, groups[g2]).contains(n) implies g1 == g2 by {
        let m1 = group_members(d, dp, groups[g1]);
        let m2 = group_members(d, dp, groups[g2]);
        let k1 = choose|k: int| 0 <= k < m1.len() && m1[k] == n;
        let k2 = choose|k: int| 0 <= k < m2.len() && m2[k] == n;
        names.lemma_filter_pred(member_pred(d, dp, groups[g1]), k1);
        names.lemma_filter_pred(member_pred(d, dp, groups[g2]), k2);
        assert(groups[g1] == groups[g2]);
    }
    assert forall|g: int, n: Seq<char>| 0 <= g < groups.len()
        && #[trigger] group_members(d, dp, groups[g]).contains(n) implies
        exists|i: int| 0 <= i < d.symbols.len() && #[trigger] d.symbols[i].name == n by {
        names.lemma_filter_contains_rev(member_pred(d, dp, groups[g]), n);
        assert(symbol_name_seq(d).contains(n));
        let i = choose|i: int| 0 <= i < symbol_name_seq(d).len() && symbol_name_seq(d)[i] == n;
        assert(d.symbols[i].name == n);
    }
    assert forall|g: int| 0 <= g < groups.len() implies
        (#[trigger] group_members(d, dp, groups[g])).no_duplicates() by {
        lemma_filter_no_duplicates(names, member_pred(d, dp, groups[g]));
    }
}

} // verus!

verus! {

/// The architecture that a Mach-O (cputype, cpusubtype) pair names.
pub open spec fn cpu_arch_spec(cputype: u32, cpusubtype: u32) -> Option<CpuArch> {
    if cputype == CPU_TYPE_X86 {
        Some(CpuArch::I386)
    } else if cputype == CPU_TYPE_X86_64 {
        if cpusubtype == 8 { Some(CpuArch::X86_64H) } else { Some(CpuArch::X86_64) }
    } else if cputype == CPU_TYPE_ARM {
        if cpusubtype == 5 { Some(CpuArch::ArmV4t) }
        else if cpusubtype == 6 { Some(CpuArch::ArmV6) }
        else if cpusubtype == 7 { Some(CpuArch::ArmV5) }
        else if cpusubtype == 9 { Some(CpuArch::ArmV7) }
        else if cpusubtype == 11 { Some(CpuArch::ArmV7s) }
        else if cpusubtype == 12 { Some(CpuArch::ArmV7k) }
        else if cpusubtype == 14 { Some(CpuArch::ArmV6m) }
        else if cpusubtype == 15 { Some(CpuArch::ArmV7m) }
        else if cpusubtype == 16 { Some(CpuArch::ArmV7em) }
        else { None }
    } else if cputype == CPU_TYPE_ARM64 {
        if cpusubtype == 2 { Some(CpuArch::Arm64E) } else { Some(CpuArch::Arm64) }
    } else if cputype == CPU_TYPE_ARM64_32 {
        if cpusubtype == 1 { Some(CpuArch::Arm64_32) } else { None }
    } else {
        None
    }
}

/// The platform that a Mach-O build-version platform code names.
pub open spec fn platform_spec(code: u32) -> Option<Platform> {
    if code == 1 { Some(Platform::MacOS) }
    else if code == 2 { Some(Platform::IOS) }
    else if code == 3 { Some(Platform::TvOS) }
    else if code == 4 { Some(Platform::WatchOS) }
    else if code == 5 { Some(Platform::BridgeOS) }
    else if code == 6 { Some(Platform::MacCatalyst) }
    else if code == 7 { Some(Platform::IOSSimulator) }
    else if code == 8 { Some(Platform::TvOSSimulator) }
    else if code == 9 { Some(Platform::WatchOSSimulator) }
    else if code == 10 { Some(Platform::DriverKit) }
    else { None }
}

impl CpuArch {
    /// The architecture of a Mach-O (cputype, cpusubtype) pair.
    pub fn from_mach_o(cputype: u32, cpusubtype: u32) -> (r: Option<CpuArch>)
        ensures
            r == cpu_arch_spec(cputype, cpusubtype),
    {
        if cputype == CPU_TYPE_X86 {
            Some(CpuArch::I386)
        } else if cputype == CPU_TYPE_X86_64 {
            if cpusubtype == 8 { Some(CpuArch::X86_64H) } else { Some(CpuArch::X86_64) }
        } else if cputype == CPU_TYPE_ARM {
            if cpusubtype == 5 { Some(CpuArch::ArmV4t) }
            else if cpusubtype == 6 { Some(CpuArch::ArmV6) }
            else if cpusubtype == 7 { Some(CpuArch::ArmV5) }
            else if cpusubtype == 9 { Some(CpuArch::ArmV7) }
            else if cpusubtype == 11 { Some(CpuArch::ArmV7s) }
            else if cpusubtype == 12 { Some(CpuArch::ArmV7k) }
            else if cpusubtype == 14 { Some(CpuArch::ArmV6m) }
            else if cpusubtype == 15 { Some(CpuArch::ArmV7m) }
            else if cpusubtype == 16 { Some(CpuArch::ArmV7em) }
            else { None }
        } else if cputype == CPU_TYPE_ARM64 {
            if cpusubtype == 2 { Some(CpuArch::Arm64E) } else { Some(CpuArch::Arm64) }
        } else if cputype == CPU_TYPE_ARM64_32 {
            if cpusubtype == 1 { Some(CpuArch::Arm64_32) } else { None }
        } else {
            None
        }
    }
}

impl Platform {
    /// The platform of a Mach-O build-version platform code.
    pub fn from_mach_o(code: u32) -> (r: Option<Platform>)
        ensures
            r == platform_spec(code),
    {
        if code == 1 { Some(Platform::MacOS) }
        else if code == 2 { Some(Platform::IOS) }
        else if code == 3 { Some(Platform::TvOS) }
        else if code == 4 { Some(Platform::WatchOS) }
        else if code == 5 { Some(Platform::BridgeOS) }
        else if code == 6 { Some(Platform::MacCatalyst) }
        else if code == 7 { Some(Platform::IOSSimulator) }
        else if code == 8 { Some(Platform::TvOSSimulator) }
        else if code == 9 { Some(Platform::WatchOSSimulator) }
        else if code == 10 { Some(Platform::DriverKit) }
        else { None }
    }
}

} // verus!

verus! {

impl Platform {
    /// The platform whose name is `s`.
    pub fn from_name(s: &str) -> (r: Option<Platform>)
        ensures
            r is Some ==> r->0.spec_name() == s@,
            r is None ==> forall|p: Platform| p.spec_name() != s@,
    {
        if crate::strings::str_eq(s, "macos") { return Some(Platform::MacOS); }
        if crate::strings::str_eq(s, "ios") { return Some(Platform::IOS); }
        if crate::strings::str_eq(s, "tvos") { return Some(Platform::TvOS); }
        if crate::strings::str_eq(s, "watchos") { return Some(Platform::WatchOS); }
        if crate::strings::str_eq(s, "bridgeos") { return Some(Platform::BridgeOS); }
        if crate::strings::str_eq(s, "maccatalyst") { return Some(Platform::MacCatalyst); }
        if crate::strings::str_eq(s, "ios-simulator") { return Some(Platform::IOSSimulator); }
        if crate::strings::str_eq(s, "tvos-simulator") { return Some(Platform::TvOSSimulator); }
        if crate::strings::str_eq(s, "watchos-simulator") { return Some(Platform::WatchOSSimulator); }
        if crate::strings::str_eq(s, "driverkit") { return Some(Platform::DriverKit); }
        assert forall|p: Platform| p.spec_name() != s@ by {
            match p {
                Platform::MacOS => {},
                Platform::IOS => {},
                Platform::TvOS => {},
                Platform::WatchOS => {},
                Platform::BridgeOS => {},
                Platform::MacCatalyst => {},
                Platform::IOSSimulator => {},
                Platform::TvOSSimulator => {},
                Platform::WatchOSSimulator => {},
                Platform::DriverKit => {},
            }
        }
        None
    }
}

} // verus!

verus! {

proof fn lemma_first_is_least(a: Seq<Seq<char>>, k: int)
    requires
        names_ascending(a),
        0 < k < a.len(),
    ensures
        seq_lt(a[0], a[k]),
        a[0] != a[k],
{
    crate::strings::lemma_seq_lt_irreflexive(a[0]);
}

proof fn lemma_ascending_unique(a: Seq<Seq<char>>, b: Seq<Seq<char>>)
    requires
        names_ascending(a),
        names_ascending(b),
        forall|x: Seq<char>| a.contains(x) <==> b.contains(x),
    ensures
        a == b,
    decreases a.len() + b.len(),
{
    if a.len() == 0 || b.len() == 0 {
        if a.len() > 0 {
            assert(a.contains(a[0]));
        }
        if b.len() > 0 {
            assert(b.contains(b[0]));
        }
        assert(a =~= b);
    } else {
        assert(a.contains(a[0]));
        assert(b.contains(b[0]));
        let k = choose|k: int| 0 <= k < b.len() && b[k] == a[0];
        let m = choose|m: int| 0 <= m < a.len() && a[m] == b[0];
        if k > 0 {
            lemma_first_is_least(b, k);
            if m > 0 {
                lemma_first_is_least(a, m);
                crate::strings::lemma_seq_lt_transitive(a[0], b[0], a[0]);
                crate::strings::lemma_seq_lt_irreflexive(a[0]);
            }
        }
        assert(a[0] == b[0]);
        let a2 = a.drop_first();
        let b2 = b.drop_first();
        assert forall|x: Seq<char>| a2.contains(x) <==> b2.contains(x) by {
            if a2.contains(x) {
                let i = choose|i: int| 0 <= i < a2.len() && a2[i] == x;
                lemma_first_is_least(a, i + 1);
                assert(a.contains(x));
                let j = choose|j: int| 0 <= j < b.len() && b[j] == x;
                assert(j > 0);
                assert(b2[j - 1] == x);
            }
            if b2.contains(x) {
                let i = choose|i: int| 0 <= i < b2.len() && b2[i] == x;
                lemma_first_is_least(b, i + 1);
                assert(b.contains(x));
                let j = choose|j: int| 0 <= j < a.len() && a[j] == x;
                assert(j > 0);
                assert(a2[j - 1] == x);
            }
        }
        assert(names_ascending(a2)) by {
            assert forall|i: int, j: int| 0 <= i < j < a2.len() implies seq_lt(#[trigger] a2[i], #[trigger] a2[j]) by {
                assert(a2[i] == a[i + 1] && a2[j] == a[j + 1]);
            }
        }
        assert(names_ascending(b2)) by {
            assert forall|i: int, j: int| 0 <= i < j < b2.len() implies seq_lt(#[trigger] b2[i], #[trigger] b2[j]) by {
                assert(b2[i] == b[i + 1] && b2[j] == b[j + 1]);
            }
        }
        lemma_ascending_unique(a2, b2);
        assert(a =~= seq![a[0]] + a2);
        assert(b =~= seq![b[0]] + b2);
    }
}

proof fn lemma_merge_names(out: Seq<DylibView>, input: Seq<DylibView>, n: Seq<char>)
    requires
        is_merge_of(out, input),
    ensures
        names_of(out).contains(n) <==> has_name(input, n),
{
    if names_of(out).contains(n) {
        let i = choose|i: int| 0 <= i < names_of(out).len() && names_of(out)[i] == n;
        assert(out[i].name == n);
    }
    if has_name(input, n) {
        let k = choose|k: int| 0 <= k < input.len() && #[trigger] input[k].name == n;
        assert(has_name(out, input[k].name));
        let i = choose|i: int| 0 <= i < out.len() && #[trigger] out[i].name == n;
        assert(names_of(out)[i] == n);
    }
}

/// Merging does not depend on the order of its input: inputs that hold
/// the same records, in any order, merge into records with the same names
/// in the same order, each holding the same symbols.
pub proof fn merge_is_order_independent(o1: Seq<DylibView>, l1: Seq<DylibView>, o2: Seq<DylibView>, l2: Seq<DylibView>)
    requires
        is_merge_of(o1, l1),
        is_merge_of(o2, l2),
        names_ascending(names_of(o1)),
        names_ascending(names_of(o2)),
        forall|d: DylibView| l1.contains(d) <==> l2.contains(d),
    ensures
        names_of(o1) == names_of(o2),
        forall|i: int, x: SymbolView| 0 <= i < o1.len() ==>
            (#[trigger] o1[i].symbols.contains(x) <==> o2[i].symbols.contains(x)),
{
    assert forall|n: Seq<char>| has_name(l1, n) <==> has_name(l2, n) by {
        if has_name(l1, n) {
            let k = choose|k: int| 0 <= k < l1.len() && #[trigger] l1[k].name == n;
            assert(l1.contains(l1[k]));
            let j = choose|j: int| 0 <= j < l2.len() && l2[j] == l1[k];
            assert(l2[j].name == n);
        }
        if has_name(l2, n) {
            let k = choose|k: int| 0 <= k < l2.len() && #[trigger] l2[k].name == n;
            assert(l2.contains(l2[k]));
            let j = choose|j: int| 0 <= j < l1.len() && l1[j] == l2[k];
            assert(l1[j].name == n);
        }
    }
    assert forall|n: Seq<char>| names_of(o1).contains(n) <==> names_of(o2).contains(n) by {
        lemma_merge_names(o1, l1, n);
        lemma_merge_names(o2, l2, n);
    }
    lemma_ascending_unique(names_of(o1), names_of(o2));
    merged_record_is_union_of_symbols(o1, l1);
    merged_record_is_union_of_symbols(o2, l2);
    assert forall|i: int, x: SymbolView| 0 <= i < o1.len() implies
        (#[trigger] o1[i].symbols.contains(x) <==> o2[i].symbols.contains(x)) by {
        let n = o1[i].name;
        assert(names_of(o1)[i] == n);
        assert(names_of(o2)[i] == o2[i].name);
        if named_has_symbol(l1, n, x) {
            let k = choose|k: int| 0 <= k < l1.len() && l1[k].name == n && #[trigger] l1[k].symbols.contains(x);
            assert(l1.contains(l1[k]));
            let j = choose|j: int| 0 <= j < l2.len() && l2[j] == l1[k];
            assert(l2[j].symbols.contains(x));
            assert(named_has_symbol(l2, n, x));
        }
        if named_has_symbol(l2, n, x) {
            let k = choose|k: int| 0 <= k < l2.len() && l2[k].name == n && #[trigger] l2[k].symbols.contains(x);
            assert(l2.contains(l2[k]));
            let j = choose|j: int| 0 <= j < l1.len() && l1[j] == l2[k];
            assert(l1[j].symbols.contains(x));
            assert(named_has_symbol(l1, n, x));
        }
    }
}

} // verus!

verus! {

/// Each export block lists exactly the targets that export each of its
/// symbols: a symbol stands in the block of the set `g` only if `g` is its
/// target set, and a target is in a symbol's target set exactly when some
/// record of that symbol resolves to it. So two symbols share a block
/// exactly when the same targets export them.
pub proof fn export_block_targets(d: DylibView, dp: Option<Platform>)
    ensures
        forall|g: Seq<Target>, n: Seq<char>| #[trigger] group_members(d, dp, g).contains(n) ==> target_set(d, dp, n) == g,
        forall|n: Seq<char>, t: Target| #[trigger] target_set(d, dp, n).contains(t) <==> exports_on(d, dp, n, t),
{
    assert forall|g: Seq<Target>, n: Seq<char>| #[trigger] group_members(d, dp, g).contains(n) implies target_set(d, dp, n) == g by {
        let m = group_members(d, dp, g);
        let k = choose|k: int| 0 <= k < m.len() && m[k] == n;
        symbol_names(d).lemma_filter_pred(member_pred(d, dp, g), k);
    }
    let raw = reference_targets(d, dp) + symbol_targets(d, dp);
    lemma_dedup_members(raw);
    assert forall|n: Seq<char>, t: Target| #[trigger] target_set(d, dp, n).contains(t) <==> exports_on(d, dp, n, t) by {
        let all = all_targets(d, dp);
        let ts = target_set(d, dp, n);
        if ts.contains(t) {
            let k = choose|k: int| 0 <= k < ts.len() && ts[k] == t;
            all.lemma_filter_pred(exports_pred(d, dp, n), k);
        }
        if exports_on(d, dp, n, t) {
            let i = choose|i: int| 0 <= i < d.symbols.len() && (#[trigger] d.symbols[i]).name == n
                && resolved(d.symbols[i].arch, d.symbols[i].platform, dp) == t;
            assert(symbol_targets(d, dp)[i] == t);
            assert(raw[reference_targets(d, dp).len() + i] == t);
            assert(raw.contains(t));
            assert(all.contains(t));
            let j = choose|j: int| 0 <= j < all.len() && all[j] == t;
            assert(exports_pred(d, dp, n)(all[j]));
            all.lemma_filter_contains(exports_pred(d, dp, n), j);
        }
    }
}

} // verus!
