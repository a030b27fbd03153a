//! Guessing the short name of a library from its install name:
//! `/usr/lib/libFoo.B.dylib` is `libFoo`, and a framework binary
//! `.../Foo.framework/Versions/A/Foo` is `Foo`.

use vstd::prelude::*;
use crate::symlinks::last_before;

verus! {

pub open spec fn suffix_is(s: Seq<char>, t: Seq<char>) -> bool {
    t.len() <= s.len() && s.subrange(s.len() - t.len(), s.len() as int) == t
}

fn ends_with(s: &str, t: &str) -> (r: bool)
    ensures
        r == suffix_is(s@, t@),
{
    let n = s.unicode_len();
    let m = t.unicode_len();
    if m > n {
        return false;
    }
    let tail = s.substring_char(n - m, n);
    crate::strings::str_eq(tail, t)
}

fn find_last_char(s: &str, c: char) -> (r: Option<usize>)
    ensures
        r is None <==> last_before(s@, c, s@.len() as int) == -1,
        r is Some ==> r->0 == last_before(s@, c, s@.len() as int) && r->0 < s@.len(),
{
    let n = s.unicode_len();
    let mut j: usize = n;
    while j > 0 && s.get_char(j - 1) != c
        invariant
            j <= n,
            n == s@.len(),
            last_before(s@, c, j as int) == last_before(s@, c, n as int),
        decreases j,
    {
        j = j - 1;
    }
    if j == 0 { None } else { Some(j - 1) }
}

pub open spec fn after_last(s: Seq<char>, c: char) -> Seq<char> {
    s.subrange(last_before(s, c, s.len() as int) + 1, s.len() as int)
}

proof fn lemma_last_before_bound(s: Seq<char>, c: char, i: int)
    requires
        i <= s.len(),
    ensures
        -1 <= last_before(s, c, i) < i || (i <= 0 && last_before(s, c, i) == -1),
    decreases i,
{
    if i > 0 {
        lemma_last_before_bound(s, c, i - 1);
    }
}

/// `name` without a `_debug` or `_profile` ending.
pub open spec fn strip_suffix_spec(name: Seq<char>) -> Seq<char> {
    let k = last_before(name, '_', name.len() as int);
    if k >= 0 && (name.subrange(k + 1, name.len() as int) == "debug"@
        || name.subrange(k + 1, name.len() as int) == "profile"@) {
        name.subrange(0, k)
    } else {
        name
    }
}

/// `name` without a one-character version after a final `.`.
pub open spec fn strip_version_spec(name: Seq<char>) -> Seq<char> {
    let n = name.len();
    if n >= 3 && name[n - 2] == '.' && (name[n - 1] as u32) < 128 {
        name.subrange(0, n - 2)
    } else {
        name
    }
}

pub fn strip_suffix(name: &str) -> (r: &str)
    ensures
        r@ == strip_suffix_spec(name@),
{
    proof { lemma_last_before_bound(name@, '_', name@.len() as int); }
    match find_last_char(name, '_') {
        None => name,
        Some(k) => {
            let n = name.unicode_len();
            let tail = name.substring_char(k + 1, n);
            if crate::strings::str_eq(tail, "debug") || crate::strings::str_eq(tail, "profile") {
                name.substring_char(0, k)
            } else {
                name
            }
        },
    }
}

pub fn strip_version_number(name: &str) -> (r: &str)
    ensures
        r@ == strip_version_spec(name@),
{
    let n = name.unicode_len();
    if n >= 3 && name.get_char(n - 2) == '.' && (name.get_char(n - 1) as u32) < 128 {
        name.substring_char(0, n - 2)
    } else {
        name
    }
}

/// The last `/`-separated part of `s`.
fn last_part(s: &str) -> (r: &str)
    ensures
        r@ == after_last(s@, '/'),
{
    proof { lemma_last_before_bound(s@, '/', s@.len() as int); }
    let n = s.unicode_len();
    match find_last_char(s, '/') {
        None => s.substring_char(0, n),
        Some(k) => s.substring_char(k + 1, n),
    }
}

pub open spec fn dylib_ext() -> Seq<char> {
    ".dylib"@
}

pub open spec fn qtx_ext() -> Seq<char> {
    ".qtx"@
}

pub open spec fn guess_qtx_spec(name: Seq<char>) -> Seq<char> {
    if suffix_is(name, qtx_ext()) {
        strip_version_spec(after_last(name.subrange(0, name.len() - 4), '/'))
    } else {
        Seq::empty()
    }
}

pub open spec fn guess_library_spec(name: Seq<char>) -> Seq<char> {
    if suffix_is(name, dylib_ext()) {
        let n = strip_version_spec(name.subrange(0, name.len() - 6));
        strip_version_spec(strip_suffix_spec(after_last(n, '/')))
    } else {
        guess_qtx_spec(name)
    }
}

pub fn guess_qtx(name: &str) -> (r: &str)
    ensures
        r@ == guess_qtx_spec(name@),
{
    proof { reveal_strlit(".qtx"); reveal_strlit(""); }
    if ends_with(name, ".qtx") {
        let n = name.unicode_len();
        let stem = name.substring_char(0, n - 4);
        strip_version_number(last_part(stem))
    } else {
        ""
    }
}

pub fn guess_library(name: &str) -> (r: &str)
    ensures
        r@ == guess_library_spec(name@),
{
    proof { reveal_strlit(".dylib"); }
    if ends_with(name, ".dylib") {
        let n = name.unicode_len();
        let stem = strip_version_number(name.substring_char(0, n - 6));
        strip_version_number(strip_suffix(last_part(stem)))
    } else {
        guess_qtx(name)
    }
}

pub open spec fn framework_tail(d: Seq<char>) -> Seq<char> {
    d + ".framework/"@ + d
}

pub open spec fn versions_tail(d: Seq<char>) -> Seq<char> {
    d + ".framework/Versions"@
}

/// The short name of a library: `Foo` for `.../Foo.framework/Foo` and
/// `.../Foo.framework/Versions/<v>/Foo`, else what the file name gives.
pub open spec fn short_name_spec(name: Seq<char>) -> Seq<char> {
    let k = last_before(name, '/', name.len() as int);
    if k <= 0 {
        guess_library_spec(name)
    } else {
        let pre = name.subrange(0, k);
        let d = strip_suffix_spec(name.subrange(k + 1, name.len() as int));
        if suffix_is(name, framework_tail(d)) {
            d
        } else {
            let j = last_before(pre, '/', pre.len() as int);
            if j < 0 {
                guess_library_spec(name)
            } else if suffix_is(pre.subrange(0, j), versions_tail(d)) {
                d
            } else {
                guess_library_spec(name)
            }
        }
    }
}

pub fn guess_library_short_name(name: &str) -> (r: &str)
    ensures
        r@ == short_name_spec(name@),
{
    proof { lemma_last_before_bound(name@, '/', name@.len() as int); }
    let n = name.unicode_len();
    let k = match find_last_char(name, '/') {
        None => return guess_library(name),
        Some(k) => k,
    };
    if k == 0 {
        return guess_library(name);
    }
    let pre = name.substring_char(0, k);
    let d = strip_suffix(name.substring_char(k + 1, n));
    let fw = d.to_owned().concat(".framework/").concat(d);
    if ends_with(name, fw.as_str()) {
        return d;
    }
    proof { lemma_last_before_bound(pre@, '/', pre@.len() as int); }
    let j = match find_last_char(pre, '/') {
        None => return guess_library(name),
        Some(j) => j,
    };
    let head = pre.substring_char(0, j);
    let vs = d.to_owned().concat(".framework/Versions");
    if ends_with(head, vs.as_str()) {
        return d;
    }
    guess_library(name)
}

} // verus!
