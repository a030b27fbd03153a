use sdk_generator::macho::{collect_dylib_of_macho, parse_dylib_macho, CommonFatHeader, CommonMachHeader, MachError};
use sdk_generator::text_api::{
    generate_text_api, CpuArch, DylibInfo, Platform, SymbolInfo, Target, TextApiGenErr,
};

const CPU_X86_64: u32 = 0x0100_0007;
const CPU_ARM64: u32 = 0x0100_000c;

fn put32(v: &mut Vec<u8>, x: u32) {
    v.extend_from_slice(&x.to_le_bytes());
}

/// A thin little-endian 64-bit image that loads `lib` and imports
/// `symbols` from it (ordinal 1).
fn image(cputype: u32, flags: u32, platform: Option<u32>, lib: &str, version: u32, symbols: &[&str]) -> Vec<u8> {
    let mut cmds: Vec<u8> = Vec::new();
    let mut ncmds = 0u32;
    if let Some(p) = platform {
        put32(&mut cmds, 0x32);
        put32(&mut cmds, 24);
        put32(&mut cmds, p);
        put32(&mut cmds, 0x000b_0000);
        put32(&mut cmds, 0x000b_0000);
        put32(&mut cmds, 0);
        ncmds += 1;
    }
    let mut name = lib.as_bytes().to_vec();
    name.push(0);
    while name.len() % 8 != 0 {
        name.push(0);
    }
    put32(&mut cmds, 0xc);
    put32(&mut cmds, 24 + name.len() as u32);
    put32(&mut cmds, 24);
    put32(&mut cmds, 2);
    put32(&mut cmds, version);
    put32(&mut cmds, 0x0001_0000);
    cmds.extend_from_slice(&name);
    ncmds += 1;

    let mut strings: Vec<u8> = vec![0];
    let mut offsets = Vec::new();
    for s in symbols {
        offsets.push(strings.len() as u32);
        strings.extend_from_slice(s.as_bytes());
        strings.push(0);
    }
    let symtab_cmd_size = 24u32;
    let header_size = 32u32;
    let symoff = header_size + cmds.len() as u32 + symtab_cmd_size;
    let stroff = symoff + 16 * symbols.len() as u32;
    put32(&mut cmds, 0x2);
    put32(&mut cmds, symtab_cmd_size);
    put32(&mut cmds, symoff);
    put32(&mut cmds, symbols.len() as u32);
    put32(&mut cmds, stroff);
    put32(&mut cmds, strings.len() as u32);
    ncmds += 1;

    let mut out = Vec::new();
    put32(&mut out, 0xfeed_facf);
    put32(&mut out, cputype);
    put32(&mut out, 3);
    put32(&mut out, 2);
    put32(&mut out, ncmds);
    put32(&mut out, cmds.len() as u32);
    put32(&mut out, flags);
    put32(&mut out, 0);
    out.extend_from_slice(&cmds);
    for off in offsets {
        put32(&mut out, off);
        out.push(0x01);
        out.push(0);
        out.extend_from_slice(&0x0100u16.to_le_bytes());
        out.extend_from_slice(&0u64.to_le_bytes());
    }
    out.extend_from_slice(&strings);
    out
}

fn fat(slices: &[(u32, Vec<u8>)]) -> Vec<u8> {
    let mut out = Vec::new();
    out.extend_from_slice(&0xcafe_babeu32.to_be_bytes());
    out.extend_from_slice(&(slices.len() as u32).to_be_bytes());
    let mut offset = 8 + 20 * slices.len() as u32;
    for (cpu, data) in slices {
        out.extend_from_slice(&cpu.to_be_bytes());
        out.extend_from_slice(&0u32.to_be_bytes());
        out.extend_from_slice(&offset.to_be_bytes());
        out.extend_from_slice(&(data.len() as u32).to_be_bytes());
        out.extend_from_slice(&0u32.to_be_bytes());
        offset += data.len() as u32;
    }
    for (_, data) in slices {
        out.extend_from_slice(data);
    }
    out
}

fn symbol_names(d: &DylibInfo) -> Vec<String> {
    d.symbols.iter().map(|s| s.name.clone()).collect()
}

#[test]
fn scenario_single_thin_binary() {
    let bin = image(CPU_X86_64, 0x85, Some(1), "/usr/lib/libFoo.dylib", 0x0001_0203, &["_foo", "_bar"]);
    let deps = collect_dylib_of_macho(&bin).unwrap();
    let unique = DylibInfo::unique_dylib(deps);
    assert_eq!(unique.len(), 1);
    assert_eq!(unique[0].name, "/usr/lib/libFoo.dylib");
    let doc = generate_text_api(None, &unique[0]).unwrap();
    let expected = [
        "--- !tapi-tbd\n",
        "tbd-version:     4\n",
        "targets: [\n    x86_64-macos,\n]\n",
        "install-name:    '/usr/lib/libFoo.dylib'\n",
        "current-version: 1\n",
        "exports:\n",
        "  - targets: [\n        x86_64-macos,\n    ]\n",
        "    symbols: [\n        _foo,\n        _bar,\n    ]\n",
        "...\n",
    ]
    .concat();
    assert_eq!(doc, expected);
    assert_eq!(doc.matches("  - targets: [").count(), 1);
}

#[test]
fn scenario_two_architectures() {
    let arm = image(CPU_ARM64, 0x85, Some(1), "libFoo.dylib", 0x0002_0000, &["_a"]);
    let x86 = image(CPU_X86_64, 0x85, Some(1), "libFoo.dylib", 0x0002_0000, &["_b"]);
    let mut deps = collect_dylib_of_macho(&arm).unwrap();
    deps.append(&mut collect_dylib_of_macho(&x86).unwrap());
    let unique = DylibInfo::unique_dylib(deps);
    assert_eq!(unique.len(), 1);
    let doc = generate_text_api(None, &unique[0]).unwrap();
    assert!(doc.contains("targets: [\n    arm64-macos,\n    x86_64-macos,\n]\n"));
    assert!(doc.contains("  - targets: [\n        arm64-macos,\n    ]\n    symbols: [\n        _a,\n    ]\n"));
    assert!(doc.contains("  - targets: [\n        x86_64-macos,\n    ]\n    symbols: [\n        _b,\n    ]\n"));
    assert_eq!(doc.matches("  - targets: [").count(), 2);
    assert!(doc.contains("current-version: 2\n"));
}

#[test]
fn fat_binary_yields_each_slice() {
    let arm = image(CPU_ARM64, 0x85, Some(2), "libFoo.dylib", 0x0001_0000, &["_a"]);
    let x86 = image(CPU_X86_64, 0x85, Some(2), "libFoo.dylib", 0x0001_0000, &["_a"]);
    let arm_len = arm.len() as u64;
    let bin = fat(&[(CPU_ARM64, arm), (CPU_X86_64, x86)]);
    let table = CommonFatHeader::parse(&bin).unwrap();
    assert_eq!(table.arches.len(), 2);
    assert_eq!(table.at(1).cputype, CPU_X86_64);
    assert_eq!(table.at(0).offset, 48);
    assert_eq!(table.at(0).size, arm_len);
    assert_eq!(table.at(1).offset, 48 + arm_len);
    assert!(CommonFatHeader::parse(&bin[..30]).is_none());
    let deps = collect_dylib_of_macho(&bin).unwrap();
    assert_eq!(deps.len(), 2);
    let unique = DylibInfo::unique_dylib(deps);
    assert_eq!(unique.len(), 1);
    assert_eq!(unique[0].targets, vec![(CpuArch::Arm64, Some(Platform::IOS)), (CpuArch::X86_64, Some(Platform::IOS))]);
    let doc = generate_text_api(None, &unique[0]).unwrap();
    assert!(doc.contains("  - targets: [\n        arm64-ios,\n        x86_64-ios,\n    ]\n    symbols: [\n        _a,\n    ]\n"));
    assert_eq!(doc.matches("  - targets: [").count(), 1);
}

#[test]
fn merged_record_holds_all_symbols() {
    let a = image(CPU_X86_64, 0x85, Some(1), "libA.dylib", 0x0001_0000, &["_x", "_y"]);
    let b = image(CPU_X86_64, 0x85, Some(1), "libA.dylib", 0x0003_0000, &["_z"]);
    let mut deps = collect_dylib_of_macho(&a).unwrap();
    deps.append(&mut collect_dylib_of_macho(&b).unwrap());
    let unique = DylibInfo::unique_dylib(deps);
    assert_eq!(unique.len(), 1);
    assert_eq!(symbol_names(&unique[0]), vec!["_x", "_y", "_z"]);
    assert_eq!(unique[0].targets.len(), 2);
    assert_eq!(unique[0].current_version, 0x0003_0000);
}

#[test]
fn every_symbol_in_exactly_one_block() {
    let d = DylibInfo {
        name: "libG.dylib".to_string(),
        targets: vec![(CpuArch::X86_64, None), (CpuArch::Arm64, None)],
        symbols: vec![
            SymbolInfo { name: "_both".to_string(), arch: CpuArch::X86_64, platform: None },
            SymbolInfo { name: "_only_x".to_string(), arch: CpuArch::X86_64, platform: None },
            SymbolInfo { name: "_both".to_string(), arch: CpuArch::Arm64, platform: None },
            SymbolInfo { name: "_ios".to_string(), arch: CpuArch::Arm64, platform: Some(Platform::IOS) },
        ],
        timestamp: 0,
        current_version: 0x000a_0000,
        compatibility_version: 0,
    };
    let doc = generate_text_api(Some(Platform::MacOS), &d).unwrap();
    for name in ["_both", "_only_x", "_ios"] {
        assert_eq!(doc.matches(&format!("        {},\n", name)).count(), 1, "{}", doc);
    }
    assert_eq!(doc.matches("  - targets: [").count(), 3);
    assert!(doc.contains("current-version: 10\n"));
    assert!(doc.contains("targets: [\n    x86_64-macos,\n    arm64-macos,\n    arm64-ios,\n]\n"));
}

#[test]
fn missing_platform_is_an_error() {
    let d = DylibInfo {
        name: "libN.dylib".to_string(),
        targets: vec![(CpuArch::X86_64, None)],
        symbols: vec![],
        timestamp: 0,
        current_version: 0,
        compatibility_version: 0,
    };
    assert_eq!(generate_text_api(None, &d).unwrap_err(), TextApiGenErr::NoPlatform);
    assert!(generate_text_api(Some(Platform::TvOS), &d).unwrap().contains("x86_64-tvos"));
}

#[test]
fn target_text() {
    let t = Target { arch: CpuArch::X86_64, platform: Platform::MacOS };
    assert_eq!(t.text(), "x86_64-macos");
    assert_eq!(Platform::from_name("ios-simulator"), Some(Platform::IOSSimulator));
    assert_eq!(Platform::from_name("windows"), None);
    assert_eq!(CpuArch::from_mach_o(CPU_ARM64, 2), Some(CpuArch::Arm64E));
    assert_eq!(CpuArch::from_mach_o(12, 1), None);
    assert_eq!(Platform::from_mach_o(10), Some(Platform::DriverKit));
}

#[test]
fn image_errors() {
    assert_eq!(parse_dylib_macho(&[1, 2, 3, 4, 5, 6]).unwrap_err(), MachError::UnsupportedHeader);
    assert_eq!(parse_dylib_macho(&[0xcf, 0xfa]).unwrap_err(), MachError::Truncated);
    let flat = image(CPU_X86_64, 0x1, Some(1), "libFoo.dylib", 0, &["_a"]);
    assert_eq!(parse_dylib_macho(&flat).unwrap_err(), MachError::NotTwoLevel);
    let unknown_cpu = image(99, 0x85, Some(1), "libFoo.dylib", 0, &["_a"]);
    assert_eq!(parse_dylib_macho(&unknown_cpu).unwrap_err(), MachError::UnknownCpuArch(99, 3));
    let bad_platform = image(CPU_X86_64, 0x85, Some(77), "libFoo.dylib", 0, &["_a"]);
    assert_eq!(parse_dylib_macho(&bad_platform).unwrap_err(), MachError::UnknownPlatform(77));
    let ok = image(CPU_X86_64, 0x85, None, "libFoo.dylib", 0, &["_a"]);
    let cut = &ok[..ok.len() - 4];
    assert_eq!(parse_dylib_macho(cut).unwrap_err(), MachError::Truncated);
    let deps = parse_dylib_macho(&ok).unwrap();
    assert_eq!(deps[0].targets, vec![(CpuArch::X86_64, None)]);
    assert_eq!(deps[0].symbols[0].platform, None);
}

#[test]
fn required_unknown_command_is_an_error() {
    let mut bin = image(CPU_X86_64, 0x85, Some(1), "libFoo.dylib", 0, &["_a"]);
    // turn the build-version command into an unknown required one
    bin[32..36].copy_from_slice(&0x8000_0077u32.to_le_bytes());
    assert_eq!(parse_dylib_macho(&bin).unwrap_err(), MachError::UnsupportedRequiredCommand(0x8000_0077));
    // without the required bit it is skipped
    bin[32..36].copy_from_slice(&0x77u32.to_le_bytes());
    assert!(parse_dylib_macho(&bin).is_ok());
}

#[test]
fn header_fields_follow_byte_order() {
    let bin = image(CPU_X86_64, 0x85, Some(1), "libFoo.dylib", 0, &[]);
    let h = CommonMachHeader::parse(&bin).unwrap();
    assert!(h.is_64);
    assert!(!h.big_endian);
    assert_eq!(h.cputype, CPU_X86_64);
    assert_eq!(h.ncmds, 3);
    let mut be = vec![0xfe, 0xed, 0xfa, 0xce];
    be.extend_from_slice(&7u32.to_be_bytes());
    be.extend_from_slice(&3u32.to_be_bytes());
    be.extend_from_slice(&[0u8; 16]);
    let h = CommonMachHeader::parse(&be).unwrap();
    assert!(!h.is_64);
    assert!(h.big_endian);
    assert_eq!(h.cputype, 7);
    assert_eq!(h.cpusubtype, 3);
}

#[test]
fn invalid_names_and_ordinals_are_errors() {
    let mut bin = image(CPU_X86_64, 0x85, None, "libFoo.dylib", 0, &["_a"]);
    // the library name starts right after the 24-byte dylib command header
    let name_at = 32 + 24;
    assert_eq!(&bin[name_at..name_at + 3], b"lib");
    bin[name_at] = 0xff;
    assert_eq!(parse_dylib_macho(&bin).unwrap_err(), MachError::InvalidUtf8);

    let mut bin = image(CPU_X86_64, 0x85, None, "libFoo.dylib", 0, &["_a"]);
    // the symbol's description sits 6 bytes into its table entry
    let n = bin.len();
    let strings = 1 + 3;
    let entry = n - strings - 16;
    assert_eq!(bin[entry + 7], 1);
    bin[entry + 7] = 2;
    assert_eq!(parse_dylib_macho(&bin).unwrap_err(), MachError::BadOrdinal(2));
    bin[entry + 7] = 0;
    let deps = parse_dylib_macho(&bin).unwrap();
    assert!(deps[0].symbols.is_empty());
}

#[test]
fn scenario_single_thin_binary_records() {
    let bin = image(CPU_X86_64, 0x85, Some(1), "/usr/lib/libFoo.dylib", 0x0001_0203, &["_a", "_b"]);
    let v = parse_dylib_macho(&bin).unwrap();
    assert_eq!(v.len(), 1);
    assert_eq!(v[0].name, "/usr/lib/libFoo.dylib");
    assert_eq!(v[0].current_version, 0x0001_0203);
    assert_eq!(v[0].targets, vec![(CpuArch::X86_64, Some(Platform::MacOS))]);
    let syms: Vec<(String, CpuArch, Option<Platform>)> =
        v[0].symbols.iter().map(|s| (s.name.clone(), s.arch, s.platform)).collect();
    assert_eq!(
        syms,
        vec![
            ("_a".to_string(), CpuArch::X86_64, Some(Platform::MacOS)),
            ("_b".to_string(), CpuArch::X86_64, Some(Platform::MacOS)),
        ]
    );
}

fn record(name: &str, symbol: &str) -> DylibInfo {
    DylibInfo {
        name: name.to_string(),
        targets: vec![(CpuArch::X86_64, Some(Platform::MacOS))],
        symbols: vec![SymbolInfo { name: symbol.to_string(), arch: CpuArch::X86_64, platform: Some(Platform::MacOS) }],
        timestamp: 0,
        current_version: 0,
        compatibility_version: 0,
    }
}

#[test]
fn merged_records_are_sorted_by_name() {
    let one = DylibInfo::unique_dylib(vec![record("libB.dylib", "_1"), record("libA.dylib", "_2"), record("libB.dylib", "_3")]);
    let two = DylibInfo::unique_dylib(vec![record("libB.dylib", "_3"), record("libB.dylib", "_1"), record("libA.dylib", "_2")]);
    let names = |v: &Vec<DylibInfo>| v.iter().map(|d| d.name.clone()).collect::<Vec<_>>();
    assert_eq!(names(&one), vec!["libA.dylib", "libB.dylib"]);
    assert_eq!(names(&two), names(&one));
    let mut s1 = symbol_names(&one[1]);
    let mut s2 = symbol_names(&two[1]);
    s1.sort();
    s2.sort();
    assert_eq!(s1, s2);
    assert_eq!(s1, vec!["_1", "_3"]);
}
