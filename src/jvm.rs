//! The options with which a Java virtual machine is created.

use vstd::prelude::*;
use crate::strings::str_eq;

verus! {

/// A JNI interface version.
#[derive(Debug, Clone, Copy, PartialEq, Eq, Structural)]
pub enum JniVersion {
    V1,
    V2,
    V4,
    V6,
    V8,
}

impl JniVersion {
    pub open spec fn spec_code(self) -> i32 {
        match self {
            JniVersion::V1 => 0x0001_0001,
            JniVersion::V2 => 0x0001_0002,
            JniVersion::V4 => 0x0001_0004,
            JniVersion::V6 => 0x0001_0006,
            JniVersion::V8 => 0x0001_0008,
        }
    }

    /// The version number that JNI's init arguments carry.
    pub fn code(&self) -> (r: i32)
        ensures
            r == self.spec_code(),
    {
        match self {
            JniVersion::V1 => 0x0001_0001,
            JniVersion::V2 => 0x0001_0002,
            JniVersion::V4 => 0x0001_0004,
            JniVersion::V6 => 0x0001_0006,
            JniVersion::V8 => 0x0001_0008,
        }
    }
}

/// Errors that can occur when the init arguments are built.
#[derive(Debug)]
pub enum JvmError {
    /// An internal `0` byte was found in an option string.
    NullOptString(String),
}

/// Builder for the init arguments of a Java virtual machine.
#[derive(Debug)]
pub struct InitArgsBuilder {
    opts: Vec<String>,
    ignore_unrecognized: bool,
    version: JniVersion,
}

/// What a builder holds: its options in order, the flag, and the version.
pub struct InitArgsView {
    pub opts: Seq<Seq<char>>,
    pub ignore_unrecognized: bool,
    pub version: JniVersion,
}

impl View for InitArgsBuilder {
    type V = InitArgsView;

    closed spec fn view(&self) -> InitArgsView {
        InitArgsView {
            opts: self.opts@.map_values(|s: String| s@),
            ignore_unrecognized: self.ignore_unrecognized,
            version: self.version,
        }
    }
}

/// The option strings that the builder does not take: the JNI hooks
/// `vfprintf`, `abort` and `exit`.
pub open spec fn is_hook_option(s: Seq<char>) -> bool {
    s == "vfprintf"@ || s == "abort"@ || s == "exit"@
}

impl InitArgsBuilder {
    /// A builder with no options, unrecognized options refused, and
    /// version 8.
    pub fn new() -> (r: InitArgsBuilder)
        ensures
            r@.opts == Seq::<Seq<char>>::empty(),
            !r@.ignore_unrecognized,
            r@.version == JniVersion::V8,
    {
        let r = InitArgsBuilder { opts: Vec::new(), ignore_unrecognized: false, version: JniVersion::V8 };
        assert(r@.opts =~= Seq::<Seq<char>>::empty());
        r
    }

    /// Adds an option; the hooks `vfprintf`, `abort` and `exit` are not
    /// supported and are left out.
    pub fn option(self, opt_string: &str) -> (r: InitArgsBuilder)
        ensures
            r@.opts == (if is_hook_option(opt_string@) { self@.opts } else { self@.opts.push(opt_string@) }),
            r@.ignore_unrecognized == self@.ignore_unrecognized,
            r@.version == self@.version,
    {
        let mut s = self;
        if str_eq(opt_string, "vfprintf") || str_eq(opt_string, "abort") || str_eq(opt_string, "exit") {
            return s;
        }
        let ghost before = s.opts@;
        s.opts.push(opt_string.to_owned());
        assert(s.opts@.map_values(|x: String| x@) =~= before.map_values(|x: String| x@).push(opt_string@));
        s
    }

    /// Sets the JNI version.
    pub fn version(self, version: JniVersion) -> (r: InitArgsBuilder)
        ensures
            r@.opts == self@.opts,
            r@.ignore_unrecognized == self@.ignore_unrecognized,
            r@.version == version,
    {
        let mut s = self;
        s.version = version;
        s
    }

    /// Sets whether unrecognized options starting with `-X` or `_` are
    /// ignored rather than refused.
    pub fn ignore_unrecognized(self, ignore: bool) -> (r: InitArgsBuilder)
        ensures
            r@.opts == self@.opts,
            r@.ignore_unrecognized == ignore,
            r@.version == self@.version,
    {
        let mut s = self;
        s.ignore_unrecognized = ignore;
        s
    }

    /// The options collected so far.
    pub fn options(&self) -> (r: Vec<String>)
        ensures
            r@.map_values(|s: String| s@) == self@.opts,
    {
        let mut out: Vec<String> = Vec::new();
        let mut i: usize = 0;
        while i < self.opts.len()
            invariant
                i <= self.opts.len(),
                out@.map_values(|s: String| s@) == self.opts@.map_values(|s: String| s@).subrange(0, i as int),
            decreases self.opts.len() - i,
        {
            let ghost before = out@;
            out.push(self.opts[i].clone());
            assert(out@.map_values(|s: String| s@) =~= before.map_values(|s: String| s@).push(self.opts@[i as int]@));
            assert(out@.map_values(|s: String| s@) =~= self.opts@.map_values(|s: String| s@).subrange(0, i as int + 1));
            i = i + 1;
        }
        assert(self.opts@.map_values(|s: String| s@).subrange(0, self.opts.len() as int) =~= self.opts@.map_values(|s: String| s@));
        out
    }

    /// The version the arguments are built for.
    pub fn jni_version(&self) -> (r: JniVersion)
        ensures
            r == self@.version,
    {
        self.version
    }

    /// Whether unrecognized options are ignored.
    pub fn ignores_unrecognized(&self) -> (r: bool)
        ensures
            r == self@.ignore_unrecognized,
    {
        self.ignore_unrecognized
    }

    /// The first option that holds a zero character, which cannot be
    /// handed to the virtual machine.
    pub fn check_options(&self) -> (r: Result<(), JvmError>)
        ensures
            r is Ok <==> forall|i: int| 0 <= i < self@.opts.len() ==> !(#[trigger] self@.opts[i]).contains('\0'),
    {
        let ghost all = self@.opts;
        let mut i: usize = 0;
        while i < self.opts.len()
            invariant
                i <= self.opts.len(),
                all == self@.opts,
                forall|k: int| 0 <= k < i ==> !(#[trigger] all[k]).contains('\0'),
            decreases self.opts.len() - i,
        {
            let s = self.opts[i].as_str();
            assert(all[i as int] == s@);
            let n = s.unicode_len();
            let mut j: usize = 0;
            while j < n
                invariant
                    i < self.opts.len(),
                    all == self@.opts,
                    all[i as int] == s@,
                    j <= n,
                    n == s@.len(),
                    forall|k: int| 0 <= k < j ==> s@[k] != '\0',
                decreases n - j,
            {
                if s.get_char(j) == '\0' {
                    assert(all[i as int][j as int] == '\0');
                    return Err(JvmError::NullOptString(self.opts[i].clone()));
                }
                j = j + 1;
            }
            assert(all[i as int] == s@);
            i = i + 1;
        }
        Ok(())
    }
}

} // verus!
