use sdk_generator::jvm::{InitArgsBuilder, JniVersion, JvmError};
use sdk_generator::lazy::MayUninitOrNone;

#[test]
fn builder_collects_options() {
    let b = InitArgsBuilder::new()
        .option("-Xmx1G")
        .option("exit")
        .option("-Dx=y")
        .version(JniVersion::V6)
        .ignore_unrecognized(true);
    assert_eq!(b.options(), vec!["-Xmx1G".to_string(), "-Dx=y".to_string()]);
    assert_eq!(b.jni_version(), JniVersion::V6);
    assert!(b.ignores_unrecognized());
    assert_eq!(JniVersion::V8.code(), 0x0001_0008);
    assert!(b.check_options().is_ok());
    let bad = InitArgsBuilder::new().option("a\0b");
    match bad.check_options() {
        Err(JvmError::NullOptString(s)) => assert_eq!(s, "a\0b"),
        Ok(()) => panic!("accepted an option with a zero character"),
    }
}

#[test]
fn lazy_value_is_computed_once() {
    let mut v: MayUninitOrNone<u32> = MayUninitOrNone::uninitialized();
    assert_eq!(v.ref_or_init(|| Some(5)), Some(&5));
    assert_eq!(v.ref_or_init(|| Some(6)), Some(&5));
    let mut n: MayUninitOrNone<u32> = MayUninitOrNone::none();
    assert_eq!(n.ref_or_init(|| Some(6)), None);
    let mut a: MayUninitOrNone<u32> = MayUninitOrNone::uninitialized();
    assert_eq!(a.ref_or_init(|| None), None);
    assert_eq!(a.ref_or_init(|| Some(1)), None);
    let i = MayUninitOrNone::initialized(3u32);
    assert_eq!(i.get(), Some(&3));
}

use sdk_generator::launcher::{make_full_path, path_to_dir_path_string};

#[test]
fn shorthand_directories_expand() {
    assert_eq!(make_full_path("~/jdk", Some("/home/u/"), None, None).unwrap(), "/home/u/jdk");
    assert_eq!(make_full_path("./jre", None, Some("/work/"), None).unwrap(), "/work/jre");
    assert_eq!(make_full_path("^/jre", None, None, Some("/opt/app/")).unwrap(), "/opt/app/jre");
    assert_eq!(make_full_path("~/jdk", None, Some("/work/"), None), None);
    assert_eq!(make_full_path("/usr/lib/jvm", None, None, None).unwrap(), "/usr/lib/jvm");
    assert_eq!(path_to_dir_path_string("/home/u"), "/home/u/");
    assert_eq!(path_to_dir_path_string("/home/u/"), "/home/u/");
}

use sdk_generator::launcher::{check, JvmFilter};

struct Collect(Vec<String>);

impl JvmFilter for Collect {
    fn try_add(&mut self, path: String) -> Option<()> {
        self.0.push(path);
        Some(())
    }
}

#[test]
fn check_offers_the_expanded_path() {
    let mut c = Collect(Vec::new());
    assert_eq!(check(&mut c, "~/jdk", Some("/home/u/"), None, None), Some(()));
    assert_eq!(check(&mut c, "./jre", None, None, None), None);
    assert_eq!(c.0, vec!["/home/u/jdk".to_string()]);
}
