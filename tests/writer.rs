use sdk_generator::paths::{parent_path, safe_normalize};
use sdk_generator::ustar::ustar_header;
use sdk_generator::writer::{EntryKind, FileTree, SdkFormat, TreeError};
use std::io::Read;

#[test]
fn normalize_resolves_dots() {
    assert_eq!(safe_normalize("a/../b"), "b");
    assert_eq!(safe_normalize("a/./b"), "a/b");
    assert_eq!(safe_normalize("../../x//y/"), "x/y");
    assert_eq!(safe_normalize("/usr/lib/libFoo.tbd"), "usr/lib/libFoo.tbd");
    let once = safe_normalize("./a/b/../c/./d/..");
    assert_eq!(safe_normalize(&once), once);
    assert_eq!(parent_path("usr/lib/libFoo.tbd"), "usr/lib");
    assert_eq!(parent_path("libFoo.tbd"), "");
}

#[test]
fn mkdirp_creates_missing_parents_once() {
    let mut t = FileTree::new(SdkFormat::Tar);
    assert_eq!(t.mkdirp("a/b/c").unwrap(), vec!["a", "a/b", "a/b/c"]);
    assert_eq!(t.mkdirp("a/b/d").unwrap(), vec!["a/b/d"]);
    assert_eq!(t.mkdirp("a/./b/../b").unwrap(), Vec::<String>::new());
    assert_eq!(t.mkdirp("").unwrap(), Vec::<String>::new());
}

#[test]
fn mkdirp_over_file_in_directory() {
    let mut t = FileTree::new(SdkFormat::Dir);
    assert_eq!(t.new_file("f").unwrap(), "f");
    assert_eq!(t.mkdirp("f").unwrap_err(), TreeError::NotADirectory);
    // the file is still there
    assert_eq!(t.new_file("f").unwrap_err(), TreeError::AlreadyExists);
    let mut z = FileTree::new(SdkFormat::Zip);
    z.new_file("f").unwrap();
    assert_eq!(z.mkdirp("f/g").unwrap_err(), TreeError::AlreadyExists);
}

#[test]
fn new_file_needs_its_directory() {
    let mut t = FileTree::new(SdkFormat::Tgz);
    assert_eq!(t.new_file("a/b").unwrap_err(), TreeError::NoSuchFile);
    t.new_file("a").unwrap();
    assert_eq!(t.new_file("a/b").unwrap_err(), TreeError::NotADirectory);
    assert_eq!(t.new_file("").unwrap_err(), TreeError::AlreadyExists);
    t.mkdirp("d").unwrap();
    assert_eq!(t.new_file("d/../d/x").unwrap(), "d/x");
}

#[test]
fn symlink_targets_are_relative_to_the_link() {
    let mut t = FileTree::new(SdkFormat::Dir);
    t.mkdirp("usr/lib").unwrap();
    t.mkdirp("usr/local/lib").unwrap();
    let a = t.new_file_symlink("/usr/lib/libFoo.2.tbd", "usr/local/lib/libFoo.tbd").unwrap();
    assert_eq!(a.link, "usr/local/lib/libFoo.tbd");
    assert_eq!(a.original, "../../lib/libFoo.2.tbd");
    let b = t.new_file_symlink("libFoo.2.tbd", "usr/lib/libFoo.tbd").unwrap();
    assert_eq!(b.original, "libFoo.2.tbd");
    let c = t.new_file_symlink("../../../../etc/x", "usr/lib/escape").unwrap();
    assert_eq!(c.original, "../../etc/x");
    assert_eq!(t.new_file_symlink("x", "usr/lib/libFoo.tbd").unwrap_err(), TreeError::AlreadyExists);
    assert_eq!(t.new_file_symlink("x", "nowhere/l").unwrap_err(), TreeError::NoSuchFile);
}

#[test]
fn format_names() {
    assert_eq!(SdkFormat::from_str("DIR"), Some(SdkFormat::Dir));
    assert_eq!(SdkFormat::from_str("d"), Some(SdkFormat::Dir));
    assert_eq!(SdkFormat::from_str("Tar.Gz"), Some(SdkFormat::Tgz));
    assert_eq!(SdkFormat::from_str("z"), Some(SdkFormat::Zip));
    assert_eq!(SdkFormat::from_str("t"), Some(SdkFormat::Tar));
    assert_eq!(SdkFormat::from_str("rar"), None);
    assert_eq!(SdkFormat::default(), SdkFormat::Dir);
    assert_eq!(SdkFormat::Tgz.name(), "tgz");
}

fn read_back(header: &[u8]) -> (String, tar::EntryType, Vec<u8>) {
    let mut stream = header.to_vec();
    stream.extend_from_slice(&[0u8; 1024]);
    let mut archive = tar::Archive::new(std::io::Cursor::new(stream));
    let mut entries = archive.entries().unwrap();
    let mut entry = entries.next().unwrap().unwrap();
    let path = entry.path().unwrap().to_string_lossy().into_owned();
    let kind = entry.header().entry_type();
    let link = entry.link_name_bytes().map(|l| l.into_owned()).unwrap_or_default();
    let mut data = Vec::new();
    entry.read_to_end(&mut data).unwrap();
    (path, kind, link)
}

#[test]
fn ustar_path_of_100_bytes_without_slash_is_too_long() {
    let name = vec![b'a'; 100];
    assert_eq!(ustar_header(&name, b"", EntryKind::File, 0, 0).unwrap_err(), TreeError::PathTooLong);
    let name = vec![b'a'; 99];
    let h = ustar_header(&name, b"", EntryKind::File, 0, 1_600_000_000).unwrap();
    assert_eq!(h.len(), 512);
    let (path, kind, _) = read_back(&h);
    assert_eq!(path, "a".repeat(99));
    assert_eq!(kind, tar::EntryType::Regular);
}

#[test]
fn ustar_long_path_is_split() {
    let mut path = "d".repeat(120).into_bytes();
    path.push(b'/');
    path.extend_from_slice(b"file.tbd");
    let h = ustar_header(&path, b"", EntryKind::File, 0, 0).unwrap();
    let (read, _, _) = read_back(&h);
    assert_eq!(read.as_bytes(), &path[..]);
    let mut longest = "d".repeat(10).into_bytes();
    longest.push(b'/');
    longest.extend_from_slice(&vec![b'f'; 100]);
    let h = ustar_header(&longest, b"", EntryKind::File, 0, 0).unwrap();
    let (read, _, _) = read_back(&h);
    assert_eq!(read.as_bytes(), &longest[..]);
    let mut too_long = "d".repeat(10).into_bytes();
    too_long.push(b'/');
    too_long.extend_from_slice(&vec![b'f'; 101]);
    assert_eq!(ustar_header(&too_long, b"", EntryKind::File, 0, 0).unwrap_err(), TreeError::PathTooLong);
}

#[test]
fn ustar_long_directory_splits_at_its_trailing_slash() {
    let dir = vec![b'd'; 120];
    let h = ustar_header(&dir, b"", EntryKind::Dir, 0, 0).unwrap();
    assert_eq!(&h[345..465], &dir[..]);
    assert_eq!(h[465], 0);
    assert!(h[0..100].iter().all(|b| *b == 0));
    let (read, kind, _) = read_back(&h);
    assert_eq!(kind, tar::EntryType::Directory);
    assert_eq!(read.trim_end_matches('/'), "d".repeat(120));
    let too_long = vec![b'd'; 200];
    assert_eq!(ustar_header(&too_long, b"", EntryKind::Dir, 0, 0).unwrap_err(), TreeError::PathTooLong);
}

#[test]
fn ustar_directory_and_symlink() {
    let h = ustar_header(b"usr/lib", b"", EntryKind::Dir, 0, 0).unwrap();
    let (path, kind, _) = read_back(&h);
    assert_eq!(path, "usr/lib/");
    assert_eq!(kind, tar::EntryType::Directory);
    assert_eq!(&h[0..8], b"usr/lib/");
    assert_eq!(&h[100..108], b"000755 \0");
    let h = ustar_header(b"lib/libFoo.tbd", b"libFoo.2.tbd", EntryKind::Symlink, 0, 0).unwrap();
    let (_, kind, link) = read_back(&h);
    assert_eq!(kind, tar::EntryType::Symlink);
    assert_eq!(link, b"libFoo.2.tbd");
    let long_link = vec![b'x'; 101];
    assert_eq!(ustar_header(b"l", &long_link, EntryKind::Symlink, 0, 0).unwrap_err(), TreeError::PathTooLong);
}

#[test]
fn ustar_numeric_fields() {
    let h = ustar_header(b"f", b"", EntryKind::File, 8, 0).unwrap();
    assert_eq!(&h[124..136], b"00000000010 ");
    assert_eq!(&h[265..269], b"root");
    let big = 0x2_0000_0000u64;
    let h = ustar_header(b"f", b"", EntryKind::File, big, 0).unwrap();
    assert_eq!(h[124], 0x80);
    assert_eq!(&h[128..136], &big.to_be_bytes());
    let header = tar::Header::from_byte_slice(&h);
    assert_eq!(header.size().unwrap(), big);
}

#[test]
fn scenario_stub_file_lands_under_its_directory() {
    let path = sdk_generator::symlinks::stub_path("/usr/lib/libFoo.dylib");
    assert_eq!(path, "/usr/lib/libFoo.tbd");
    let mut t = FileTree::new(SdkFormat::Zip);
    assert_eq!(t.mkdirp(&parent_path(&path)).unwrap(), vec!["usr", "usr/lib"]);
    assert_eq!(t.new_file(&path).unwrap(), "usr/lib/libFoo.tbd");
}
