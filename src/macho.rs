//! Reading Mach-O images: fat and thin headers, load commands and symbol
//! tables, and the libraries an image depends on.

use vstd::prelude::*;
use vstd::slice::slice_subrange;
use vstd::string::StringSliceAdditionalSpecFns;
use vstd::utf8::valid_utf8;
use crate::text_api::{cpu_arch_spec, platform_spec, CpuArch, DylibInfo, DylibView, Platform, SymbolInfo, SymbolView};

verus! {

pub const MH_MAGIC: u32 = 0xfeed_face;
pub const MH_CIGAM: u32 = 0xcefa_edfe;
pub const MH_MAGIC_64: u32 = 0xfeed_facf;
pub const MH_CIGAM_64: u32 = 0xcffa_edfe;
pub const FAT_MAGIC: u32 = 0xcafe_babe;
pub const FAT_MAGIC_64: u32 = 0xcafe_babf;
pub const MH_TWOLEVEL: u32 = 0x80;

pub const LC_REQ_DYLD: u32 = 0x8000_0000;
pub const LC_SYMTAB: u32 = 0x2;
pub const LC_LOAD_DYLIB: u32 = 0xc;
pub const LC_LOAD_WEAK_DYLIB: u32 = 0x18 | LC_REQ_DYLD;
pub const LC_REEXPORT_DYLIB: u32 = 0x1f | LC_REQ_DYLD;
pub const LC_LAZY_LOAD_DYLIB: u32 = 0x20;
pub const LC_LOAD_UPWARD_DYLIB: u32 = 0x23 | LC_REQ_DYLD;
pub const LC_RPATH: u32 = 0x1c | LC_REQ_DYLD;
pub const LC_DYLD_INFO_ONLY: u32 = 0x22 | LC_REQ_DYLD;
pub const LC_MAIN: u32 = 0x28 | LC_REQ_DYLD;
pub const LC_BUILD_VERSION: u32 = 0x32;
pub const LC_DYLD_EXPORTS_TRIE: u32 = 0x33 | LC_REQ_DYLD;
pub const LC_DYLD_CHAINED_FIXUPS: u32 = 0x34 | LC_REQ_DYLD;
pub const LC_FILESET_ENTRY: u32 = 0x35 | LC_REQ_DYLD;

pub const N_STAB: u8 = 0xe0;
pub const N_TYPE: u8 = 0x0e;
pub const N_EXT: u8 = 0x01;
pub const N_UNDF: u8 = 0x0;
pub const N_PBUD: u8 = 0xc;

pub const CPU_ARCH_ABI64: u32 = 0x0100_0000;
pub const CPU_ARCH_ABI64_32: u32 = 0x0200_0000;
pub const CPU_TYPE_X86: u32 = 7;
pub const CPU_TYPE_X86_64: u32 = CPU_TYPE_X86 | CPU_ARCH_ABI64;
pub const CPU_TYPE_ARM: u32 = 12;
pub const CPU_TYPE_ARM64: u32 = CPU_TYPE_ARM | CPU_ARCH_ABI64;
pub const CPU_TYPE_ARM64_32: u32 = CPU_TYPE_ARM | CPU_ARCH_ABI64_32;

/// Why a Mach-O image could not be read.
#[derive(Debug, Clone, Copy, PartialEq, Eq, Structural)]
pub enum MachError {
    /// The magic number is none of the Mach-O ones.
    UnsupportedHeader,
    /// A structure lies beyond the end of the data, or is too short.
    Truncated,
    /// The image does not use the two-level namespace.
    NotTwoLevel,
    /// The (cputype, cpusubtype) pair names no known architecture.
    UnknownCpuArch(u32, u32),
    /// A build-version command names no known platform.
    UnknownPlatform(u32),
    /// A load command the dynamic linker requires is not understood.
    UnsupportedRequiredCommand(u32),
    /// A library or symbol name is not UTF-8.
    InvalidUtf8,
    /// A symbol names a library ordinal beyond the image's libraries.
    BadOrdinal(u8),
}

/// The unsigned integer in `d[off..off + n]`, in the given byte order.
pub open spec fn uint_at(d: Seq<u8>, off: int, n: nat, big: bool) -> nat
    decreases n,
{
    if n == 0 {
        0
    } else if big {
        uint_at(d, off, (n - 1) as nat, big) * 256 + d[off + n - 1] as nat
    } else {
        uint_at(d, off + 1, (n - 1) as nat, big) * 256 + d[off] as nat
    }
}

proof fn lemma_uint_bound(d: Seq<u8>, off: int, n: nat, big: bool)
    ensures
        uint_at(d, off, n, big) < pow256(n),
    decreases n,
{
    if n > 0 {
        if big {
            lemma_uint_bound(d, off, (n - 1) as nat, big);
        } else {
            lemma_uint_bound(d, off + 1, (n - 1) as nat, big);
        }
        let p = pow256((n - 1) as nat);
        assert(pow256(n) == p * 256);
        let v = if big { uint_at(d, off, (n - 1) as nat, big) } else { uint_at(d, off + 1, (n - 1) as nat, big) };
        assert(v * 256 + 255 < p * 256) by (nonlinear_arith)
            requires v < p;
    }
}

pub open spec fn pow256(n: nat) -> nat
    decreases n,
{
    if n == 0 { 1 } else { pow256((n - 1) as nat) * 256 }
}

pub open spec fn u32_at(d: Seq<u8>, off: int, big: bool) -> u32 {
    uint_at(d, off, 4, big) as u32
}

pub open spec fn u64_at(d: Seq<u8>, off: int, big: bool) -> u64 {
    uint_at(d, off, 8, big) as u64
}

pub open spec fn u16_at(d: Seq<u8>, off: int, big: bool) -> u16 {
    uint_at(d, off, 2, big) as u16
}

/// Reads `n` bytes at `off` as an unsigned integer.
fn read_uint(d: &[u8], off: usize, n: usize, big: bool) -> (r: u64)
    requires
        n <= 8,
        off + n <= d@.len(),
    ensures
        r as nat == uint_at(d@, off as int, n as nat, big),
    decreases n,
{
    let len = d.len();
    if n == 0 {
        0
    } else {
        assert(off + n <= len);
        proof {
            lemma_uint_bound(d@, off as int, n as nat, big);
            lemma_pow256_le8((n - 1) as nat);
        }
        if big {
            let h = read_uint(d, off, n - 1, big);
            proof { lemma_uint_bound(d@, off as int, (n - 1) as nat, big); }
            assert(h * 256 + 255 <= 0xffff_ffff_ffff_ffff) by (nonlinear_arith)
                requires h < pow256((n - 1) as nat), pow256((n - 1) as nat) <= 0x0100_0000_0000_0000;
            h * 256 + d[off + n - 1] as u64
        } else {
            let h = read_uint(d, off + 1, n - 1, big);
            proof { lemma_uint_bound(d@, off + 1, (n - 1) as nat, big); }
            assert(h * 256 + 255 <= 0xffff_ffff_ffff_ffff) by (nonlinear_arith)
                requires h < pow256((n - 1) as nat), pow256((n - 1) as nat) <= 0x0100_0000_0000_0000;
            h * 256 + d[off] as u64
        }
    }
}

proof fn lemma_pow256_le8(n: nat)
    requires
        n <= 7,
    ensures
        pow256(n) <= 0x0100_0000_0000_0000,
{
    reveal_with_fuel(pow256, 8);
}

/// The 32-bit integer at `off`, where the data holds it.
pub fn read_u32(d: &[u8], off: usize, big: bool) -> (r: Option<u32>)
    ensures
        r is Some <==> off + 4 <= d@.len(),
        r is Some ==> r->0 == u32_at(d@, off as int, big),
{
    if off > d.len() || d.len() - off < 4 {
        return None;
    }
    proof {
        lemma_uint_bound(d@, off as int, 4, big);
        reveal_with_fuel(pow256, 5);
    }
    Some(read_uint(d, off, 4, big) as u32)
}

/// The 64-bit integer at `off`, where the data holds it.
pub fn read_u64(d: &[u8], off: usize, big: bool) -> (r: Option<u64>)
    ensures
        r is Some <==> off + 8 <= d@.len(),
        r is Some ==> r->0 == u64_at(d@, off as int, big),
{
    if off > d.len() || d.len() - off < 8 {
        return None;
    }
    proof {
        lemma_uint_bound(d@, off as int, 8, big);
        reveal_with_fuel(pow256, 9);
    }
    Some(read_uint(d, off, 8, big))
}

/// The 16-bit integer at `off`, where the data holds it.
pub fn read_u16(d: &[u8], off: usize, big: bool) -> (r: Option<u16>)
    ensures
        r is Some <==> off + 2 <= d@.len(),
        r is Some ==> r->0 == u16_at(d@, off as int, big),
{
    if off > d.len() || d.len() - off < 2 {
        return None;
    }
    proof {
        lemma_uint_bound(d@, off as int, 2, big);
        reveal_with_fuel(pow256, 3);
    }
    Some(read_uint(d, off, 2, big) as u16)
}

} // verus!

verus! {

/// The fixed header of a thin Mach-O image.
#[derive(Debug, Clone, Copy, PartialEq, Eq, Structural)]
pub struct CommonMachHeader {
    pub is_64: bool,
    pub big_endian: bool,
    pub cputype: u32,
    pub cpusubtype: u32,
    pub filetype: u32,
    pub ncmds: u32,
    pub sizeofcmds: u32,
    pub flags: u32,
}

pub open spec fn header_size(is_64: bool) -> int {
    if is_64 { 32 } else { 28 }
}

/// The header of the thin image `d`: the magic number, read in little-endian
/// order, chooses the address width and the byte order of the rest.
pub open spec fn header_spec(d: Seq<u8>) -> Result<CommonMachHeader, MachError> {
    if d.len() < 4 {
        Err(MachError::Truncated)
    } else {
        let m = u32_at(d, 0, false);
        if m != MH_MAGIC && m != MH_CIGAM && m != MH_MAGIC_64 && m != MH_CIGAM_64 {
            Err(MachError::UnsupportedHeader)
        } else {
            let is_64 = m == MH_MAGIC_64 || m == MH_CIGAM_64;
            let big = m == MH_CIGAM || m == MH_CIGAM_64;
            if d.len() < header_size(is_64) {
                Err(MachError::Truncated)
            } else {
                Ok(CommonMachHeader {
                    is_64,
                    big_endian: big,
                    cputype: u32_at(d, 4, big),
                    cpusubtype: u32_at(d, 8, big),
                    filetype: u32_at(d, 12, big),
                    ncmds: u32_at(d, 16, big),
                    sizeofcmds: u32_at(d, 20, big),
                    flags: u32_at(d, 24, big),
                })
            }
        }
    }
}

impl CommonMachHeader {
    /// Reads the header of a thin image.
    pub fn parse(d: &[u8]) -> (r: Result<CommonMachHeader, MachError>)
        ensures
            r == header_spec(d@),
    {
        let m = match read_u32(d, 0, false) {
            Some(m) => m,
            None => return Err(MachError::Truncated),
        };
        if m != MH_MAGIC && m != MH_CIGAM && m != MH_MAGIC_64 && m != MH_CIGAM_64 {
            return Err(MachError::UnsupportedHeader);
        }
        let is_64 = m == MH_MAGIC_64 || m == MH_CIGAM_64;
        let big = m == MH_CIGAM || m == MH_CIGAM_64;
        let size: usize = if is_64 { 32 } else { 28 };
        if d.len() < size {
            return Err(MachError::Truncated);
        }
        let cputype = read_u32(d, 4, big).unwrap();
        let cpusubtype = read_u32(d, 8, big).unwrap();
        let filetype = read_u32(d, 12, big).unwrap();
        let ncmds = read_u32(d, 16, big).unwrap();
        let sizeofcmds = read_u32(d, 20, big).unwrap();
        let flags = read_u32(d, 24, big).unwrap();
        Ok(CommonMachHeader { is_64, big_endian: big, cputype, cpusubtype, filetype, ncmds, sizeofcmds, flags })
    }
}

/// One architecture slice listed in a fat header.
#[derive(Debug, Clone, Copy, PartialEq, Eq, Structural)]
pub struct FatArch {
    pub cputype: u32,
    pub cpusubtype: u32,
    pub offset: u64,
    pub size: u64,
}

pub open spec fn fat_entry_offset(is_64: bool, i: int) -> int {
    if is_64 { 8 + 32 * i } else { 8 + 20 * i }
}

pub open spec fn fat_entry(d: Seq<u8>, is_64: bool, i: int) -> FatArch {
    let off = fat_entry_offset(is_64, i);
    FatArch {
        cputype: u32_at(d, off, true),
        cpusubtype: u32_at(d, off + 4, true),
        offset: if is_64 { u64_at(d, off + 8, true) } else { u32_at(d, off + 8, true) as u64 },
        size: if is_64 { u64_at(d, off + 16, true) } else { u32_at(d, off + 12, true) as u64 },
    }
}

/// The slices of the fat container `d`, or none where `d` is no fat
/// container or its table does not fit.
pub open spec fn fat_spec(d: Seq<u8>) -> Option<Seq<FatArch>> {
    if d.len() < 8 {
        None
    } else {
        let m = u32_at(d, 0, true);
        if m != FAT_MAGIC && m != FAT_MAGIC_64 {
            None
        } else {
            let is_64 = m == FAT_MAGIC_64;
            let n = u32_at(d, 4, true) as int;
            if fat_entry_offset(is_64, n) > d.len() {
                None
            } else {
                Some(Seq::new(n as nat, |i: int| fat_entry(d, is_64, i)))
            }
        }
    }
}

/// Reads the architecture table of a fat container.
pub fn parse_fat(d: &[u8]) -> (r: Option<Vec<FatArch>>)
    ensures
        r is None <==> fat_spec(d@) is None,
        r is Some ==> r->0@ == fat_spec(d@)->0,
{
    if d.len() < 8 {
        return None;
    }
    let m = read_u32(d, 0, true).unwrap();
    if m != FAT_MAGIC && m != FAT_MAGIC_64 {
        return None;
    }
    let is_64 = m == FAT_MAGIC_64;
    let n = read_u32(d, 4, true).unwrap();
    let width: u64 = if is_64 { 32 } else { 20 };
    let table_end: u64 = 8 + (n as u64) * width;
    if table_end > d.len() as u64 {
        return None;
    }
    let mut out: Vec<FatArch> = Vec::new();
    let mut i: u32 = 0;
    while i < n
        invariant
            i <= n,
            n == u32_at(d@, 4, true),
            is_64 == (u32_at(d@, 0, true) == FAT_MAGIC_64),
            width == (if is_64 { 32u64 } else { 20u64 }),
            fat_entry_offset(is_64, n as int) <= d@.len(),
            out@ == Seq::new(i as nat, |k: int| fat_entry(d@, is_64, k)),
        decreases n - i,
    {
        let off_wide: u64 = if is_64 { 8 + (i as u64) * 32 } else { 8 + (i as u64) * 20 };
        assert(off_wide == fat_entry_offset(is_64, i as int));
        assert(fat_entry_offset(is_64, i as int + 1) <= fat_entry_offset(is_64, n as int));
        assert(off_wide + width <= d.len());
        let off: usize = off_wide as usize;
        let cputype = read_u32(d, off, true).unwrap();
        let cpusubtype = read_u32(d, off + 4, true).unwrap();
        let (offset, size) = if is_64 {
            (read_u64(d, off + 8, true).unwrap(), read_u64(d, off + 16, true).unwrap())
        } else {
            (read_u32(d, off + 8, true).unwrap() as u64, read_u32(d, off + 12, true).unwrap() as u64)
        };
        out.push(FatArch { cputype, cpusubtype, offset, size });
        assert(out@ =~= Seq::new(i as nat + 1, |k: int| fat_entry(d@, is_64, k)));
        i = i + 1;
    }
    Some(out)
}

} // verus!

verus! {

/// Relies on `std::str::from_utf8`: it accepts exactly the valid UTF-8
/// byte strings, and the `str` it returns holds those same bytes.
#[verifier::external_body]
fn utf8_str(b: &[u8]) -> (r: Option<&str>)
    ensures
        r is Some <==> valid_utf8(b@),
        r is Some ==> r->0.spec_bytes() == b@,
{
    std::str::from_utf8(b).ok()
}

/// The first position in `[i, end)` that holds a zero byte, or -1.
pub open spec fn nul_from(d: Seq<u8>, i: int, end: int) -> int
    decreases end - i,
{
    if i >= end {
        -1
    } else if d[i] == 0 {
        i
    } else {
        nul_from(d, i + 1, end)
    }
}

/// The zero-terminated UTF-8 string at `start`, which must end before `end`.
pub open spec fn cstring_spec(d: Seq<u8>, start: int, end: int) -> Result<Seq<char>, MachError> {
    let nul = nul_from(d, start, end);
    if nul < 0 {
        Err(MachError::Truncated)
    } else if !valid_utf8(d.subrange(start, nul)) {
        Err(MachError::InvalidUtf8)
    } else {
        Ok(vstd::utf8::decode_utf8(d.subrange(start, nul)))
    }
}

fn read_cstring(d: &[u8], start: usize, end: usize) -> (r: Result<String, MachError>)
    requires
        start <= end <= d@.len(),
    ensures
        match r {
            Ok(s) => cstring_spec(d@, start as int, end as int) == Ok::<Seq<char>, MachError>(s@),
            Err(e) => cstring_spec(d@, start as int, end as int) == Err::<Seq<char>, MachError>(e),
        },
{
    let mut i: usize = start;
    while i < end && d[i] != 0
        invariant
            start <= i <= end,
            end <= d@.len(),
            nul_from(d@, i as int, end as int) == nul_from(d@, start as int, end as int),
        decreases end - i,
    {
        i = i + 1;
    }
    if i == end {
        return Err(MachError::Truncated);
    }
    let bytes = slice_subrange(d, start, i);
    match utf8_str(bytes) {
        Some(s) => {
            proof { vstd::utf8::encode_utf8_decode_utf8(s@); }
            Ok(s.to_owned())
        },
        None => Err(MachError::InvalidUtf8),
    }
}

/// A library that an image loads, as its load command states it.
pub struct DepRecord {
    pub name: Seq<char>,
    pub timestamp: u32,
    pub current_version: u32,
    pub compatibility_version: u32,
}

/// What the load commands seen so far have stated.
pub struct ScanState {
    pub deps: Seq<DepRecord>,
    pub syms: Seq<(Seq<char>, u8)>,
    pub platform: Option<Platform>,
}

pub open spec fn is_dylib_command(cmd: u32) -> bool {
    cmd == LC_LOAD_DYLIB || cmd == LC_LOAD_WEAK_DYLIB || cmd == LC_REEXPORT_DYLIB
        || cmd == LC_LAZY_LOAD_DYLIB || cmd == LC_LOAD_UPWARD_DYLIB
}

/// Commands that the dynamic linker requires and that carry nothing a stub
/// needs.
pub open spec fn is_ignored_command(cmd: u32) -> bool {
    cmd == LC_RPATH || cmd == LC_DYLD_INFO_ONLY || cmd == LC_MAIN || cmd == LC_DYLD_EXPORTS_TRIE
        || cmd == LC_DYLD_CHAINED_FIXUPS || cmd == LC_FILESET_ENTRY
}

/// The library named by the dylib command at `off`.
pub open spec fn dylib_spec(d: Seq<u8>, big: bool, off: int, size: int) -> Result<DepRecord, MachError> {
    if size < 24 {
        Err(MachError::Truncated)
    } else {
        let name_off = u32_at(d, off + 8, big) as int;
        if name_off >= size {
            Err(MachError::Truncated)
        } else {
            match cstring_spec(d, off + name_off, off + size) {
                Err(e) => Err(e),
                Ok(name) => Ok(DepRecord {
                    name,
                    timestamp: u32_at(d, off + 12, big),
                    current_version: u32_at(d, off + 16, big),
                    compatibility_version: u32_at(d, off + 20, big),
                }),
            }
        }
    }
}

pub open spec fn symbol_entry_offset(is_64: bool, symoff: int, j: int) -> int {
    if is_64 { symoff + 16 * j } else { symoff + 12 * j }
}

/// The library ordinal of a symbol: the high byte of its description.
pub open spec fn ordinal_of(n_desc: u16) -> u8 {
    (n_desc >> 8u16) as u8
}

/// Whether the symbol table entry is an external undefined symbol, not a
/// debugging entry.
pub open spec fn is_imported(n_type: u8) -> bool {
    n_type & N_STAB == 0 && n_type & N_EXT != 0 && (n_type & N_TYPE == N_UNDF || n_type & N_TYPE == N_PBUD)
}

/// The symbol that entry `eoff` of a symbol table imports from a library,
/// with the library's ordinal; none where the entry imports nothing from a
/// numbered library.
pub open spec fn symbol_entry_spec(d: Seq<u8>, big: bool, stroff: int, strsize: int, eoff: int) -> Result<Option<(Seq<char>, u8)>, MachError> {
    let n_strx = u32_at(d, eoff, big) as int;
    let n_type = d[eoff + 4];
    let ord = ordinal_of(u16_at(d, eoff + 6, big));
    if !is_imported(n_type) || ord == 0 {
        Ok(None)
    } else if n_strx >= strsize {
        Err(MachError::Truncated)
    } else {
        match cstring_spec(d, stroff + n_strx, stroff + strsize) {
            Err(e) => Err(e),
            Ok(name) => Ok(Some((name, ord))),
        }
    }
}

/// The imported symbols of the first `j` entries of a symbol table.
pub open spec fn symbols_spec(d: Seq<u8>, h: CommonMachHeader, symoff: int, stroff: int, strsize: int, j: int) -> Result<Seq<(Seq<char>, u8)>, MachError>
    decreases j,
{
    if j <= 0 {
        Ok(Seq::empty())
    } else {
        match symbols_spec(d, h, symoff, stroff, strsize, j - 1) {
            Err(e) => Err(e),
            Ok(v) => match symbol_entry_spec(d, h.big_endian, stroff, strsize, symbol_entry_offset(h.is_64, symoff, j - 1)) {
                Err(e) => Err(e),
                Ok(None) => Ok(v),
                Ok(Some(x)) => Ok(v.push(x)),
            },
        }
    }
}

/// The imported symbols of the symbol table that the command at `off` locates.
pub open spec fn symtab_spec(d: Seq<u8>, h: CommonMachHeader, off: int, size: int) -> Result<Seq<(Seq<char>, u8)>, MachError> {
    if size < 24 {
        Err(MachError::Truncated)
    } else {
        let big = h.big_endian;
        let symoff = u32_at(d, off + 8, big) as int;
        let nsyms = u32_at(d, off + 12, big) as int;
        let stroff = u32_at(d, off + 16, big) as int;
        let strsize = u32_at(d, off + 20, big) as int;
        if symbol_entry_offset(h.is_64, symoff, nsyms) > d.len() || stroff + strsize > d.len() {
            Err(MachError::Truncated)
        } else {
            symbols_spec(d, h, symoff, stroff, strsize, nsyms)
        }
    }
}

/// What the command `cmd` at `off` adds to the state.
pub open spec fn apply_command(d: Seq<u8>, h: CommonMachHeader, st: ScanState, cmd: u32, off: int, size: int) -> Result<ScanState, MachError> {
    if is_dylib_command(cmd) {
        match dylib_spec(d, h.big_endian, off, size) {
            Err(e) => Err(e),
            Ok(rec) => Ok(ScanState { deps: st.deps.push(rec), ..st }),
        }
    } else if cmd == LC_SYMTAB {
        match symtab_spec(d, h, off, size) {
            Err(e) => Err(e),
            Ok(v) => Ok(ScanState { syms: st.syms + v, ..st }),
        }
    } else if cmd == LC_BUILD_VERSION {
        if size < 24 {
            Err(MachError::Truncated)
        } else {
            let code = u32_at(d, off + 8, h.big_endian);
            match platform_spec(code) {
                None => Err(MachError::UnknownPlatform(code)),
                Some(p) => Ok(ScanState { platform: Some(p), ..st }),
            }
        }
    } else if is_ignored_command(cmd) {
        Ok(st)
    } else if cmd & LC_REQ_DYLD != 0 {
        Err(MachError::UnsupportedRequiredCommand(cmd))
    } else {
        Ok(st)
    }
}

/// The state after the first `n` load commands, which lie before `end`,
/// with the offset of the next one.
pub open spec fn scan_spec(d: Seq<u8>, h: CommonMachHeader, end: int, n: int) -> Result<(ScanState, int), MachError>
    decreases n,
{
    if n <= 0 {
        Ok((ScanState { deps: Seq::empty(), syms: Seq::empty(), platform: None }, header_size(h.is_64)))
    } else {
        match scan_spec(d, h, end, n - 1) {
            Err(e) => Err(e),
            Ok((st, off)) => if off + 8 > end {
                Err(MachError::Truncated)
            } else {
                let cmd = u32_at(d, off, h.big_endian);
                let size = u32_at(d, off + 4, h.big_endian) as int;
                if size < 8 || off + size > end {
                    Err(MachError::Truncated)
                } else {
                    match apply_command(d, h, st, cmd, off, size) {
                        Err(e) => Err(e),
                        Ok(st2) => Ok((st2, off + size)),
                    }
                }
            },
        }
    }
}

/// The first ordinal among `syms` beyond the `n` libraries.
pub open spec fn bad_ordinal(syms: Seq<(Seq<char>, u8)>, n: int) -> Option<u8>
    decreases syms.len(),
{
    if syms.len() == 0 {
        None
    } else {
        match bad_ordinal(syms.drop_last(), n) {
            Some(o) => Some(o),
            None => if syms.last().1 as int > n { Some(syms.last().1) } else { None },
        }
    }
}

/// The symbols among `syms` that come from the library with ordinal `o`.
pub open spec fn attributed(syms: Seq<(Seq<char>, u8)>, o: int, arch: CpuArch, p: Option<Platform>) -> Seq<SymbolView>
    decreases syms.len(),
{
    if syms.len() == 0 {
        Seq::empty()
    } else {
        let rest = attributed(syms.drop_last(), o, arch, p);
        if syms.last().1 as int == o {
            rest.push(SymbolView { name: syms.last().0, arch, platform: p })
        } else {
            rest
        }
    }
}

pub open spec fn record_of(st: ScanState, arch: CpuArch, i: int) -> DylibView {
    DylibView {
        name: st.deps[i].name,
        targets: seq![(arch, st.platform)],
        symbols: attributed(st.syms, i + 1, arch, st.platform),
        timestamp: st.deps[i].timestamp,
        current_version: st.deps[i].current_version,
        compatibility_version: st.deps[i].compatibility_version,
    }
}

/// The libraries that the thin image `d` depends on, one record per dylib
/// command in command order, each with the symbols the image imports from
/// it and the image's (architecture, platform) as its one target.
pub open spec fn image_spec(d: Seq<u8>) -> Result<Seq<DylibView>, MachError> {
    match header_spec(d) {
        Err(e) => Err(e),
        Ok(h) => if h.flags & MH_TWOLEVEL == 0 {
            Err(MachError::NotTwoLevel)
        } else {
            match cpu_arch_spec(h.cputype, h.cpusubtype) {
                None => Err(MachError::UnknownCpuArch(h.cputype, h.cpusubtype)),
                Some(arch) => {
                    let end = header_size(h.is_64) + h.sizeofcmds;
                    if end > d.len() {
                        Err(MachError::Truncated)
                    } else {
                        match scan_spec(d, h, end, h.ncmds as int) {
                            Err(e) => Err(e),
                            Ok((st, _)) => match bad_ordinal(st.syms, st.deps.len() as int) {
                                Some(o) => Err(MachError::BadOrdinal(o)),
                                None => Ok(Seq::new(st.deps.len(), |i: int| record_of(st, arch, i))),
                            },
                        }
                    }
                },
            }
        },
    }
}

} // verus!

verus! {

/// A library that an image loads.
struct DepEntry {
    name: String,
    timestamp: u32,
    current_version: u32,
    compatibility_version: u32,
}

impl View for DepEntry {
    type V = DepRecord;

    closed spec fn view(&self) -> DepRecord {
        DepRecord {
            name: self.name@,
            timestamp: self.timestamp,
            current_version: self.current_version,
            compatibility_version: self.compatibility_version,
        }
    }
}

struct ExecState {
    deps: Vec<DepEntry>,
    syms: Vec<(String, u8)>,
    platform: Option<Platform>,
}

spec fn sym_views(v: Seq<(String, u8)>) -> Seq<(Seq<char>, u8)> {
    v.map_values(|x: (String, u8)| (x.0@, x.1))
}

impl View for ExecState {
    type V = ScanState;

    closed spec fn view(&self) -> ScanState {
        ScanState {
            deps: self.deps@.map_values(|e: DepEntry| e@),
            syms: sym_views(self.syms@),
            platform: self.platform,
        }
    }
}

fn read_dylib_command(d: &[u8], big: bool, off: usize, size: usize) -> (r: Result<DepEntry, MachError>)
    requires
        off + size <= d@.len(),
    ensures
        match r {
            Ok(e) => dylib_spec(d@, big, off as int, size as int) == Ok::<DepRecord, MachError>(e@),
            Err(x) => dylib_spec(d@, big, off as int, size as int) == Err::<DepRecord, MachError>(x),
        },
{
    let len = d.len();
    assert(off + size <= len);
    if size < 24 {
        return Err(MachError::Truncated);
    }
    let name_off = read_u32(d, off + 8, big).unwrap();
    if name_off as usize >= size {
        return Err(MachError::Truncated);
    }
    let name = match read_cstring(d, off + name_off as usize, off + size) {
        Ok(n) => n,
        Err(e) => return Err(e),
    };
    Ok(DepEntry {
        name,
        timestamp: read_u32(d, off + 12, big).unwrap(),
        current_version: read_u32(d, off + 16, big).unwrap(),
        compatibility_version: read_u32(d, off + 20, big).unwrap(),
    })
}

fn read_symbol_entry(d: &[u8], big: bool, stroff: usize, strsize: usize, eoff: usize) -> (r: Result<Option<(String, u8)>, MachError>)
    requires
        eoff + 8 <= d@.len(),
        stroff + strsize <= d@.len(),
    ensures
        match r {
            Ok(None) => symbol_entry_spec(d@, big, stroff as int, strsize as int, eoff as int) == Ok::<Option<(Seq<char>, u8)>, MachError>(None),
            Ok(Some(x)) => symbol_entry_spec(d@, big, stroff as int, strsize as int, eoff as int) == Ok::<Option<(Seq<char>, u8)>, MachError>(Some((x.0@, x.1))),
            Err(e) => symbol_entry_spec(d@, big, stroff as int, strsize as int, eoff as int) == Err::<Option<(Seq<char>, u8)>, MachError>(e),
        },
{
    let len = d.len();
    assert(eoff + 8 <= len && stroff + strsize <= len);
    let n_strx = read_u32(d, eoff, big).unwrap();
    let n_type = d[eoff + 4];
    let n_desc = read_u16(d, eoff + 6, big).unwrap();
    assert(n_desc >> 8u16 <= 255u16) by (bit_vector);
    let ord = (n_desc >> 8u16) as u8;
    let imported = n_type & N_STAB == 0 && n_type & N_EXT != 0 && (n_type & N_TYPE == N_UNDF || n_type & N_TYPE == N_PBUD);
    if !imported || ord == 0 {
        return Ok(None);
    }
    if n_strx as usize >= strsize {
        return Err(MachError::Truncated);
    }
    match read_cstring(d, stroff + n_strx as usize, stroff + strsize) {
        Ok(name) => Ok(Some((name, ord))),
        Err(e) => Err(e),
    }
}

fn read_symtab(d: &[u8], h: &CommonMachHeader, off: usize, size: usize) -> (r: Result<Vec<(String, u8)>, MachError>)
    requires
        off + size <= d@.len(),
    ensures
        match r {
            Ok(v) => symtab_spec(d@, *h, off as int, size as int) == Ok::<Seq<(Seq<char>, u8)>, MachError>(sym_views(v@)),
            Err(e) => symtab_spec(d@, *h, off as int, size as int) == Err::<Seq<(Seq<char>, u8)>, MachError>(e),
        },
{
    let len = d.len();
    assert(off + size <= len);
    if size < 24 {
        return Err(MachError::Truncated);
    }
    let big = h.big_endian;
    let symoff = read_u32(d, off + 8, big).unwrap();
    let nsyms = read_u32(d, off + 12, big).unwrap();
    let stroff = read_u32(d, off + 16, big).unwrap();
    let strsize = read_u32(d, off + 20, big).unwrap();
    let table_end: u64 = if h.is_64 { symoff as u64 + nsyms as u64 * 16 } else { symoff as u64 + nsyms as u64 * 12 };
    if table_end > d.len() as u64 || stroff as u64 + strsize as u64 > d.len() as u64 {
        return Err(MachError::Truncated);
    }
    let ghost gh = *h;
    let mut out: Vec<(String, u8)> = Vec::new();
    assert(sym_views(out@) =~= Seq::<(Seq<char>, u8)>::empty());
    let mut j: u32 = 0;
    while j < nsyms
        invariant
            j <= nsyms,
            gh == *h,
            big == h.big_endian,
            size >= 24,
            off + size <= d@.len(),
            symoff == u32_at(d@, off + 8, big),
            nsyms == u32_at(d@, off + 12, big),
            stroff == u32_at(d@, off + 16, big),
            strsize == u32_at(d@, off + 20, big),
            symbol_entry_offset(h.is_64, symoff as int, nsyms as int) <= d@.len(),
            stroff + strsize <= d@.len(),
            symbols_spec(d@, gh, symoff as int, stroff as int, strsize as int, j as int) == Ok::<Seq<(Seq<char>, u8)>, MachError>(sym_views(out@)),
        decreases nsyms - j,
    {
        let eoff_wide: u64 = if h.is_64 { symoff as u64 + j as u64 * 16 } else { symoff as u64 + j as u64 * 12 };
        assert(eoff_wide == symbol_entry_offset(h.is_64, symoff as int, j as int));
        assert(symbol_entry_offset(h.is_64, symoff as int, j as int + 1) <= symbol_entry_offset(h.is_64, symoff as int, nsyms as int));
        assert(eoff_wide + 8 <= d.len());
        let eoff = eoff_wide as usize;
        match read_symbol_entry(d, big, stroff as usize, strsize as usize, eoff) {
            Ok(None) => {},
            Ok(Some(x)) => {
                let ghost before = out@;
                out.push(x);
                assert(sym_views(out@) =~= sym_views(before).push((x.0@, x.1)));
            },
            Err(e) => {
                assert(symbols_spec(d@, gh, symoff as int, stroff as int, strsize as int, j as int + 1) == Err::<Seq<(Seq<char>, u8)>, MachError>(e));
                proof { lemma_symbols_err_extends(d@, gh, symoff as int, stroff as int, strsize as int, j as int + 1, nsyms as int); }
                assert(symbols_spec(d@, gh, symoff as int, stroff as int, strsize as int, nsyms as int) == Err::<Seq<(Seq<char>, u8)>, MachError>(e));
                assert(symtab_spec(d@, gh, off as int, size as int) == Err::<Seq<(Seq<char>, u8)>, MachError>(e));
                return Err(e);
            },
        }
        j = j + 1;
    }
    Ok(out)
}

proof fn lemma_symbols_err_extends(d: Seq<u8>, h: CommonMachHeader, symoff: int, stroff: int, strsize: int, j: int, n: int)
    requires
        0 <= j <= n,
        symbols_spec(d, h, symoff, stroff, strsize, j) is Err,
    ensures
        symbols_spec(d, h, symoff, stroff, strsize, n) == symbols_spec(d, h, symoff, stroff, strsize, j),
    decreases n - j,
{
    if j < n {
        lemma_symbols_err_extends(d, h, symoff, stroff, strsize, j, n - 1);
    }
}

} // verus!

verus! {

fn apply_command_exec(d: &[u8], h: &CommonMachHeader, st: ExecState, cmd: u32, off: usize, size: usize) -> (r: Result<ExecState, MachError>)
    requires
        off + size <= d@.len(),
    ensures
        match r {
            Ok(s2) => apply_command(d@, *h, st@, cmd, off as int, size as int) == Ok::<ScanState, MachError>(s2@),
            Err(e) => apply_command(d@, *h, st@, cmd, off as int, size as int) == Err::<ScanState, MachError>(e),
        },
{
    let len = d.len();
    assert(off + size <= len);
    let mut st = st;
    let ghost st0 = st@;
    if cmd == LC_LOAD_DYLIB || cmd == LC_LOAD_WEAK_DYLIB || cmd == LC_REEXPORT_DYLIB
        || cmd == LC_LAZY_LOAD_DYLIB || cmd == LC_LOAD_UPWARD_DYLIB {
        match read_dylib_command(d, h.big_endian, off, size) {
            Ok(e) => {
                let ghost ev = e@;
                st.deps.push(e);
                assert(st@.deps =~= st0.deps.push(ev));
                assert(st@.syms == st0.syms);
                Ok(st)
            },
            Err(e) => Err(e),
        }
    } else if cmd == LC_SYMTAB {
        match read_symtab(d, h, off, size) {
            Ok(mut v) => {
                let ghost vv = sym_views(v@);
                let ghost before = st.syms@;
                st.syms.append(&mut v);
                assert(sym_views(st.syms@) =~= sym_views(before) + vv);
                assert(st@.deps == st0.deps);
                Ok(st)
            },
            Err(e) => Err(e),
        }
    } else if cmd == LC_BUILD_VERSION {
        if size < 24 {
            return Err(MachError::Truncated);
        }
        let code = read_u32(d, off + 8, h.big_endian).unwrap();
        match Platform::from_mach_o(code) {
            Some(p) => {
                st.platform = Some(p);
                Ok(st)
            },
            None => Err(MachError::UnknownPlatform(code)),
        }
    } else if cmd == LC_RPATH || cmd == LC_DYLD_INFO_ONLY || cmd == LC_MAIN || cmd == LC_DYLD_EXPORTS_TRIE
        || cmd == LC_DYLD_CHAINED_FIXUPS || cmd == LC_FILESET_ENTRY {
        Ok(st)
    } else if cmd & LC_REQ_DYLD != 0 {
        Err(MachError::UnsupportedRequiredCommand(cmd))
    } else {
        Ok(st)
    }
}

proof fn lemma_scan_err_extends(d: Seq<u8>, h: CommonMachHeader, end: int, j: int, n: int)
    requires
        0 <= j <= n,
        scan_spec(d, h, end, j) is Err,
    ensures
        scan_spec(d, h, end, n) == scan_spec(d, h, end, j),
    decreases n - j,
{
    if j < n {
        lemma_scan_err_extends(d, h, end, j, n - 1);
    }
}

fn attribute(st: &ExecState, o: usize, arch: CpuArch) -> (r: Vec<SymbolInfo>)
    ensures
        r@.map_values(|s: SymbolInfo| s@) == attributed(st@.syms, o as int, arch, st@.platform),
{
    let ghost all = st@.syms;
    let mut out: Vec<SymbolInfo> = Vec::new();
    let mut k: usize = 0;
    while k < st.syms.len()
        invariant
            k <= st.syms.len(),
            all == st@.syms,
            out@.map_values(|s: SymbolInfo| s@) == attributed(all.subrange(0, k as int), o as int, arch, st@.platform),
        decreases st.syms.len() - k,
    {
        let ghost sub = all.subrange(0, k as int + 1);
        assert(sub.drop_last() == all.subrange(0, k as int));
        assert(sub.last() == (st.syms@[k as int].0@, st.syms@[k as int].1));
        if st.syms[k].1 as usize == o {
            let ghost before = out@;
            out.push(SymbolInfo { name: st.syms[k].0.clone(), arch, platform: st.platform });
            assert(out@.map_values(|s: SymbolInfo| s@) =~= before.map_values(|s: SymbolInfo| s@).push(out@.last()@));
        }
        k = k + 1;
    }
    assert(all.subrange(0, st.syms.len() as int) == all);
    out
}

fn find_bad_ordinal(st: &ExecState) -> (r: Option<u8>)
    ensures
        r == bad_ordinal(st@.syms, st@.deps.len() as int),
{
    let ghost all = st@.syms;
    let n = st.deps.len();
    let mut k: usize = 0;
    while k < st.syms.len()
        invariant
            k <= st.syms.len(),
            all == st@.syms,
            n == st@.deps.len(),
            bad_ordinal(all.subrange(0, k as int), n as int) is None,
        decreases st.syms.len() - k,
    {
        let ghost sub = all.subrange(0, k as int + 1);
        assert(sub.drop_last() == all.subrange(0, k as int));
        assert(sub.last() == (st.syms@[k as int].0@, st.syms@[k as int].1));
        if st.syms[k].1 as usize > n {
            assert(bad_ordinal(sub, n as int) == Some(st.syms@[k as int].1));
            proof { lemma_bad_ordinal_extends(all, k as int + 1); }
            return Some(st.syms[k].1);
        }
        k = k + 1;
    }
    assert(all.subrange(0, st.syms.len() as int) == all);
    None
}

proof fn lemma_bad_ordinal_extends(s: Seq<(Seq<char>, u8)>, k: int)
    requires
        0 <= k <= s.len(),
    ensures
        forall|n: int| #[trigger] bad_ordinal(s.subrange(0, k), n) is Some ==> bad_ordinal(s, n) == bad_ordinal(s.subrange(0, k), n),
    decreases s.len() - k,
{
    if k < s.len() {
        lemma_bad_ordinal_extends(s, k + 1);
        assert forall|n: int| #[trigger] bad_ordinal(s.subrange(0, k), n) is Some implies bad_ordinal(s, n) == bad_ordinal(s.subrange(0, k), n) by {
            let sub = s.subrange(0, k + 1);
            assert(sub.drop_last() == s.subrange(0, k));
            assert(bad_ordinal(sub, n) == bad_ordinal(s.subrange(0, k), n));
        }
    } else {
        assert(s.subrange(0, k) == s);
    }
}

/// Reads the libraries that the thin image `data` depends on.
pub fn parse_dylib_macho(data: &[u8]) -> (r: Result<Vec<DylibInfo>, MachError>)
    ensures
        match r {
            Ok(v) => image_spec(data@) == Ok::<Seq<DylibView>, MachError>(crate::text_api::dylib_views(v@)),
            Err(e) => image_spec(data@) == Err::<Seq<DylibView>, MachError>(e),
        },
{
    let h = match CommonMachHeader::parse(data) {
        Ok(h) => h,
        Err(e) => return Err(e),
    };
    if h.flags & MH_TWOLEVEL == 0 {
        return Err(MachError::NotTwoLevel);
    }
    let arch = match CpuArch::from_mach_o(h.cputype, h.cpusubtype) {
        Some(a) => a,
        None => return Err(MachError::UnknownCpuArch(h.cputype, h.cpusubtype)),
    };
    let hs: u64 = if h.is_64 { 32 } else { 28 };
    let end_wide: u64 = hs + h.sizeofcmds as u64;
    if end_wide > data.len() as u64 {
        return Err(MachError::Truncated);
    }
    let end = end_wide as usize;
    let mut st = ExecState { deps: Vec::new(), syms: Vec::new(), platform: None };
    assert(st@.deps =~= Seq::<DepRecord>::empty());
    assert(st@.syms =~= Seq::<(Seq<char>, u8)>::empty());
    let mut off: usize = hs as usize;
    let mut i: u32 = 0;
    while i < h.ncmds
        invariant
            i <= h.ncmds,
            header_spec(data@) == Ok::<CommonMachHeader, MachError>(h),
            h.flags & MH_TWOLEVEL != 0,
            cpu_arch_spec(h.cputype, h.cpusubtype) == Some(arch),
            end <= data@.len(),
            end == header_size(h.is_64) + h.sizeofcmds,
            off <= end,
            scan_spec(data@, h, end as int, i as int) == Ok::<(ScanState, int), MachError>((st@, off as int)),
        decreases h.ncmds - i,
    {
        if end - off < 8 {
            proof { lemma_scan_err_extends(data@, h, end as int, i as int + 1, h.ncmds as int); }
            return Err(MachError::Truncated);
        }
        let cmd = read_u32(data, off, h.big_endian).unwrap();
        let size = read_u32(data, off + 4, h.big_endian).unwrap() as usize;
        if size < 8 || size > end - off {
            proof { lemma_scan_err_extends(data@, h, end as int, i as int + 1, h.ncmds as int); }
            return Err(MachError::Truncated);
        }
        st = match apply_command_exec(data, &h, st, cmd, off, size) {
            Ok(s2) => s2,
            Err(e) => {
                proof { lemma_scan_err_extends(data@, h, end as int, i as int + 1, h.ncmds as int); }
                return Err(e);
            },
        };
        off = off + size;
        i = i + 1;
    }
    if let Some(o) = find_bad_ordinal(&st) {
        return Err(MachError::BadOrdinal(o));
    }
    let mut out: Vec<DylibInfo> = Vec::new();
    let mut k: usize = 0;
    while k < st.deps.len()
        invariant
            k <= st.deps.len(),
            crate::text_api::dylib_views(out@) == Seq::new(k as nat, |j: int| record_of(st@, arch, j)),
        decreases st.deps.len() - k,
    {
        let symbols = attribute(&st, k + 1, arch);
        let mut targets: Vec<(CpuArch, Option<Platform>)> = Vec::new();
        targets.push((arch, st.platform));
        let dep = &st.deps[k];
        let info = DylibInfo {
            name: dep.name.clone(),
            targets,
            symbols,
            timestamp: dep.timestamp,
            current_version: dep.current_version,
            compatibility_version: dep.compatibility_version,
        };
        let ghost before = out@;
        assert(st@.deps[k as int] == st.deps@[k as int]@);
        assert(targets@ =~= seq![(arch, st@.platform)]);
        assert(info@ == record_of(st@, arch, k as int));
        out.push(info);
        assert(crate::text_api::dylib_views(out@) =~= crate::text_api::dylib_views(before).push(out@[k as int]@));
        assert(crate::text_api::dylib_views(out@) =~= Seq::new(k as nat + 1, |j: int| record_of(st@, arch, j)));
        k = k + 1;
    }
    Ok(out)
}

} // verus!

verus! {

/// The libraries of the first `n` slices of a fat container, slice after slice.
pub open spec fn slices_spec(d: Seq<u8>, archs: Seq<FatArch>, n: int) -> Result<Seq<DylibView>, MachError>
    decreases n,
{
    if n <= 0 {
        Ok(Seq::empty())
    } else {
        match slices_spec(d, archs, n - 1) {
            Err(e) => Err(e),
            Ok(v) => {
                let a = archs[n - 1];
                if a.offset + a.size > d.len() {
                    Err(MachError::Truncated)
                } else {
                    match image_spec(d.subrange(a.offset as int, a.offset + a.size)) {
                        Err(e) => Err(e),
                        Ok(w) => Ok(v + w),
                    }
                }
            },
        }
    }
}

/// The libraries that a binary depends on: those of each slice of a fat
/// container, or those of a thin image.
pub open spec fn binary_spec(d: Seq<u8>) -> Result<Seq<DylibView>, MachError> {
    match fat_spec(d) {
        Some(archs) => slices_spec(d, archs, archs.len() as int),
        None => image_spec(d),
    }
}

proof fn lemma_slices_err_extends(d: Seq<u8>, archs: Seq<FatArch>, j: int, n: int)
    requires
        0 <= j <= n,
        slices_spec(d, archs, j) is Err,
    ensures
        slices_spec(d, archs, n) == slices_spec(d, archs, j),
    decreases n - j,
{
    if j < n {
        lemma_slices_err_extends(d, archs, j, n - 1);
    }
}

/// The architecture table of a fat container.
#[derive(Debug)]
pub struct CommonFatHeader {
    pub arches: Vec<FatArch>,
}

impl CommonFatHeader {
    /// Reads the table of a fat container; none where `d` is no fat
    /// container or its table does not fit.
    pub fn parse(d: &[u8]) -> (r: Option<CommonFatHeader>)
        ensures
            r is None <==> fat_spec(d@) is None,
            r is Some ==> r->0.arches@ == fat_spec(d@)->0,
    {
        match parse_fat(d) {
            Some(arches) => Some(CommonFatHeader { arches }),
            None => None,
        }
    }

    /// The slice at `index`.
    pub fn at(&self, index: usize) -> (r: FatArch)
        requires
            index < self.arches@.len(),
        ensures
            r == self.arches@[index as int],
    {
        self.arches[index]
    }
}

/// Reads the libraries that a fat or thin binary depends on.
pub fn collect_dylib_of_macho(data: &[u8]) -> (r: Result<Vec<DylibInfo>, MachError>)
    ensures
        match r {
            Ok(v) => binary_spec(data@) == Ok::<Seq<DylibView>, MachError>(crate::text_api::dylib_views(v@)),
            Err(e) => binary_spec(data@) == Err::<Seq<DylibView>, MachError>(e),
        },
{
    let archs = match CommonFatHeader::parse(data) {
        Some(fat) => fat.arches,
        None => return parse_dylib_macho(data),
    };
    let ghost aseq = archs@;
    let mut out: Vec<DylibInfo> = Vec::new();
    let mut i: usize = 0;
    assert(crate::text_api::dylib_views(out@) =~= Seq::<DylibView>::empty());
    while i < archs.len()
        invariant
            i <= archs.len(),
            aseq == archs@,
            fat_spec(data@) == Some(aseq),
            slices_spec(data@, aseq, i as int) == Ok::<Seq<DylibView>, MachError>(crate::text_api::dylib_views(out@)),
        decreases archs.len() - i,
    {
        let a = archs[i];
        if a.offset > data.len() as u64 || a.size > data.len() as u64 - a.offset {
            proof { lemma_slices_err_extends(data@, aseq, i as int + 1, aseq.len() as int); }
            return Err(MachError::Truncated);
        }
        let start = a.offset as usize;
        let stop = (a.offset + a.size) as usize;
        let slice = slice_subrange(data, start, stop);
        match parse_dylib_macho(slice) {
            Ok(mut v) => {
                let ghost before = crate::text_api::dylib_views(out@);
                let ghost added = crate::text_api::dylib_views(v@);
                out.append(&mut v);
                assert(crate::text_api::dylib_views(out@) =~= before + added);
            },
            Err(e) => {
                proof { lemma_slices_err_extends(data@, aseq, i as int + 1, aseq.len() as int); }
                return Err(e);
            },
        }
        i = i + 1;
    }
    Ok(out)
}

} // verus!
