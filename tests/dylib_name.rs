use sdk_generator::dylib_name::{guess_library_short_name, strip_version_number};

#[test]
fn test_strip_version_number() {
    assert_eq!(strip_version_number("hello.B"), "hello");
    assert_eq!(strip_version_number("hello.1"), "hello");
    assert_eq!(strip_version_number("libavformat.58"), "libavformat.58");
}

#[test]
fn test_guess_library_short_name() {
    assert_eq!(
        guess_library_short_name("/usr/lib/libSystem.B.dylib"),
        "libSystem"
    );
    assert_eq!(
        guess_library_short_name(
            "/System/Library/Frameworks/CoreFoundation.framework/Versions/A/CoreFoundation"
        ),
        "CoreFoundation"
    );
    assert_eq!(
        guess_library_short_name(
            "/opt/homebrew/Cellar/ffmpeg/4.4.1_5/lib/libavformat.58.dylib"
        ),
        "libavformat.58"
    );
}

#[test]
fn short_name_of_plain_framework() {
    assert_eq!(
        guess_library_short_name("/System/Library/Frameworks/Foo.framework/Foo"),
        "Foo"
    );
}

#[test]
fn short_name_drops_debug_suffix() {
    assert_eq!(guess_library_short_name("/usr/lib/libATS.A_profile.dylib"), "libATS");
    assert_eq!(guess_library_short_name("/usr/lib/QuickTime.qtx"), "QuickTime");
    assert_eq!(guess_library_short_name("/usr/lib/unknown.so"), "");
}
