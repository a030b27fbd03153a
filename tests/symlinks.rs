use sdk_generator::symlinks::{
    collect_symlinks, lib_name_without_version, parse_symlinks_lines, stub_path, Separator,
    SymlinkDescriptor, SymlinkDescriptorParseErr,
};

#[test]
fn test_from_str() {
    assert_eq!(SymlinkDescriptor::new("", ""), SymlinkDescriptor::from_str("->").unwrap());
    assert_eq!(SymlinkDescriptor::new("/abc/def", "ghi"), SymlinkDescriptor::from_str("/abc/def->ghi").unwrap());
    assert_eq!(SymlinkDescriptor::new("", ""), SymlinkDescriptor::from_str(":").unwrap());
    assert_eq!(SymlinkDescriptor::new("/abc/def", "ghi"), SymlinkDescriptor::from_str("/abc/def:ghi").unwrap());
    assert_eq!(SymlinkDescriptor::new("", ""), SymlinkDescriptor::from_str("=>").unwrap());
    assert_eq!(SymlinkDescriptor::new("/abc/def", "ghi"), SymlinkDescriptor::from_str("/abc/def=>ghi").unwrap());
}

#[test]
fn descriptor_without_separator_is_refused() {
    assert_eq!(SymlinkDescriptor::from_str("abc").unwrap_err(), SymlinkDescriptorParseErr);
}

#[test]
fn descriptor_trims_around_separator() {
    let d = SymlinkDescriptor::from_str("  a/b  ->  c/d  ").unwrap();
    assert_eq!(d.link(), "a/b");
    assert_eq!(d.original(), "c/d");
}

#[test]
fn rightmost_separator_wins() {
    let d = SymlinkDescriptor::from_str("a:b->c").unwrap();
    assert_eq!(d, SymlinkDescriptor::new("a:b", "c"));
    let d = SymlinkDescriptor::from_str("a->b:c").unwrap();
    assert_eq!(d, SymlinkDescriptor::new("a->b", "c"));
}

#[test]
fn format_and_parse_round_trip() {
    let d = SymlinkDescriptor::new("lib/libFoo.tbd", "libFoo.2.tbd");
    for sep in [Separator::Arrow, Separator::FatArrow, Separator::Colon] {
        let text = d.format_with(sep);
        assert_eq!(SymlinkDescriptor::from_str(&text).unwrap(), d);
    }
    assert_eq!(d.format_with(Separator::Arrow), "lib/libFoo.tbd->libFoo.2.tbd");
}

#[test]
fn descriptor_file_skips_comments() {
    let lines = vec![
        "# a comment".to_string(),
        "   # another".to_string(),
        "a -> b".to_string(),
        "c:d".to_string(),
    ];
    let parsed = parse_symlinks_lines(&lines).unwrap();
    assert_eq!(parsed, vec![SymlinkDescriptor::new("a", "b"), SymlinkDescriptor::new("c", "d")]);
    let bad = vec!["a -> b".to_string(), "nothing here".to_string()];
    assert_eq!(parse_symlinks_lines(&bad).unwrap_err(), SymlinkDescriptorParseErr);
}

#[test]
fn version_suffix_is_removed() {
    assert_eq!(lib_name_without_version("usr/lib/libFoo.2.tbd").unwrap(), "usr/lib/libFoo.tbd");
    assert_eq!(lib_name_without_version("libFoo.2.tbd").unwrap(), "libFoo.tbd");
    assert!(lib_name_without_version("usr/lib/libFoo.tbd").is_none());
    assert!(lib_name_without_version("a.b/libFoo.tbd").is_none());
}

#[test]
fn stub_path_strips_dylib() {
    assert_eq!(stub_path("/usr/lib/libFoo.dylib"), "/usr/lib/libFoo.tbd");
    assert_eq!(stub_path("/System/Foo.framework/Foo"), "/System/Foo.framework/Foo.tbd");
    assert_eq!(stub_path("a.dylib.dylib"), "a.tbd");
}

#[test]
fn automatic_link_for_versioned_stub() {
    let explicit = vec![
        SymlinkDescriptor::new("libFoo.tbd", "libFoo.2.tbd"),
        SymlinkDescriptor::new("x", "y"),
    ];
    let stubs = vec!["libFoo.2.tbd".to_string(), "libBar.tbd".to_string()];
    let links = collect_symlinks(explicit, &stubs);
    assert_eq!(
        links,
        vec![SymlinkDescriptor::new("libFoo.tbd", "libFoo.2.tbd"), SymlinkDescriptor::new("x", "y")]
    );
    let links = collect_symlinks(vec![], &stubs);
    assert_eq!(links, vec![SymlinkDescriptor::new("libFoo.tbd", "libFoo.2.tbd")]);
}
