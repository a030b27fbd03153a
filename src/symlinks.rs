//! Symbolic links to place in the generated tree, and their textual form
//! `<link><separator><original>`.

use vstd::prelude::*;
use crate::strings::{copy_string, string_eq};
use crate::text_api::dedup;

verus! {

/// The characters that `char::is_whitespace` accepts: those with the
/// Unicode `White_Space` property.
pub open spec fn is_ws(c: char) -> bool {
    ('\u{9}' <= c && c <= '\u{d}') || c == ' ' || c == '\u{85}' || c == '\u{a0}' || c == '\u{1680}'
        || ('\u{2000}' <= c && c <= '\u{200a}') || c == '\u{2028}' || c == '\u{2029}'
        || c == '\u{202f}' || c == '\u{205f}' || c == '\u{3000}'
}

fn is_ws_char(c: char) -> (r: bool)
    ensures
        r == is_ws(c),
{
    ('\u{9}' <= c && c <= '\u{d}') || c == ' ' || c == '\u{85}' || c == '\u{a0}' || c == '\u{1680}'
        || ('\u{2000}' <= c && c <= '\u{200a}') || c == '\u{2028}' || c == '\u{2029}'
        || c == '\u{202f}' || c == '\u{205f}' || c == '\u{3000}'
}

/// `s` without its trailing whitespace.
pub open spec fn trim_end(s: Seq<char>) -> Seq<char>
    decreases s.len(),
{
    if s.len() > 0 && is_ws(s.last()) { trim_end(s.drop_last()) } else { s }
}

/// `s` without its leading whitespace.
pub open spec fn trim_start(s: Seq<char>) -> Seq<char>
    decreases s.len(),
{
    if s.len() > 0 && is_ws(s[0]) { trim_start(s.drop_first()) } else { s }
}

fn trimmed_end(s: &str) -> (r: &str)
    ensures
        r@ == trim_end(s@),
{
    let mut j: usize = s.unicode_len();
    assert(s@.subrange(0, j as int) == s@);
    while j > 0 && is_ws_char(s.get_char(j - 1))
        invariant
            j <= s@.len(),
            trim_end(s@.subrange(0, j as int)) == trim_end(s@),
        decreases j,
    {
        assert(s@.subrange(0, j as int).drop_last() == s@.subrange(0, j - 1));
        j = j - 1;
    }
    let r = s.substring_char(0, j);
    assert(r@ == s@.subrange(0, j as int));
    r
}

fn trimmed_start(s: &str) -> (r: &str)
    ensures
        r@ == trim_start(s@),
{
    let n = s.unicode_len();
    let mut j: usize = 0;
    assert(s@.subrange(0, n as int) == s@);
    while j < n && is_ws_char(s.get_char(j))
        invariant
            j <= n,
            n == s@.len(),
            trim_start(s@.subrange(j as int, n as int)) == trim_start(s@),
        decreases n - j,
    {
        assert(s@.subrange(j as int, n as int).drop_first() == s@.subrange(j + 1, n as int));
        j = j + 1;
    }
    s.substring_char(j, n)
}

/// `s` without leading and trailing whitespace.
pub open spec fn trim(s: Seq<char>) -> Seq<char> {
    trim_start(trim_end(s))
}

fn trimmed(s: &str) -> (r: &str)
    ensures
        r@ == trim(s@),
{
    trimmed_start(trimmed_end(s))
}

/// The length of the separator that starts at `k` in `s`: 2 for `->` and
/// `=>`, 1 for `:`, 0 where none starts there.
pub open spec fn sep_len_at(s: Seq<char>, k: int) -> int {
    if 0 <= k && k + 1 < s.len() && (s[k] == '-' || s[k] == '=') && s[k + 1] == '>' {
        2
    } else if 0 <= k < s.len() && s[k] == ':' {
        1
    } else {
        0
    }
}

/// The start of the last separator that starts before `i`, or -1.
pub open spec fn last_sep_before(s: Seq<char>, i: int) -> int
    decreases i,
{
    if i <= 0 {
        -1
    } else if sep_len_at(s, i - 1) > 0 {
        i - 1
    } else {
        last_sep_before(s, i - 1)
    }
}

/// Where `s` splits into link and original: the separator that starts
/// rightmost, or -1 where `s` holds none.
pub open spec fn split_point(s: Seq<char>) -> int {
    last_sep_before(s, s.len() as int)
}

fn sep_len(s: &str, n: usize, k: usize) -> (r: usize)
    requires
        n == s@.len(),
        k < n,
    ensures
        r == sep_len_at(s@, k as int),
{
    let c = s.get_char(k);
    if k + 1 < n && (c == '-' || c == '=') && s.get_char(k + 1) == '>' {
        2
    } else if c == ':' {
        1
    } else {
        0
    }
}

/// A symbolic link of the generated tree: `link` is created and points at
/// `original`, both relative to the tree's root.
#[derive(Debug, Clone)]
pub struct SymlinkDescriptor {
    pub link: String,
    pub original: String,
}

impl View for SymlinkDescriptor {
    type V = (Seq<char>, Seq<char>);

    open spec fn view(&self) -> (Seq<char>, Seq<char>) {
        (self.link@, self.original@)
    }
}

impl PartialEq for SymlinkDescriptor {
    fn eq(&self, o: &SymlinkDescriptor) -> (r: bool) {
        string_eq(&self.link, &o.link) && string_eq(&self.original, &o.original)
    }
}

impl vstd::std_specs::cmp::PartialEqSpecImpl for SymlinkDescriptor {
    open spec fn obeys_eq_spec() -> bool {
        true
    }

    open spec fn eq_spec(&self, o: &SymlinkDescriptor) -> bool {
        self@ == o@
    }
}

impl Eq for SymlinkDescriptor {}

/// A descriptor that names no separator.
#[derive(Debug, PartialEq, Eq, Structural)]
pub struct SymlinkDescriptorParseErr;

/// The separators of the textual form.
#[derive(Debug, Clone, Copy, PartialEq, Eq, Structural)]
pub enum Separator {
    Arrow,
    FatArrow,
    Colon,
}

impl Separator {
    pub open spec fn spec_text(self) -> Seq<char> {
        match self {
            Separator::Arrow => seq!['-', '>'],
            Separator::FatArrow => seq!['=', '>'],
            Separator::Colon => seq![':'],
        }
    }

    pub fn text(&self) -> (r: &'static str)
        ensures
            r@ == self.spec_text(),
    {
        proof {
            reveal_strlit("->");
            reveal_strlit("=>");
            reveal_strlit(":");
        }
        match self {
            Separator::Arrow => "->",
            Separator::FatArrow => "=>",
            Separator::Colon => ":",
        }
    }
}

/// The descriptor that the text `s` states, where it names a separator.
pub open spec fn parse_spec(s: Seq<char>) -> Option<(Seq<char>, Seq<char>)> {
    let k = split_point(s);
    if k < 0 {
        None
    } else {
        Some((trim(s.subrange(0, k)), trim(s.subrange(k + sep_len_at(s, k), s.len() as int))))
    }
}

impl SymlinkDescriptor {
    pub fn new(link: &str, original: &str) -> (r: SymlinkDescriptor)
        ensures
            r@ == (link@, original@),
    {
        SymlinkDescriptor { link: link.to_owned(), original: original.to_owned() }
    }

    pub fn link(&self) -> (r: &str)
        ensures
            r@ == self.link@,
    {
        self.link.as_str()
    }

    pub fn original(&self) -> (r: &str)
        ensures
            r@ == self.original@,
    {
        self.original.as_str()
    }

    /// Parses `<link><separator><original>`. The separator is whichever of
    /// `->`, `=>` and `:` starts rightmost; link and original lose their
    /// leading and trailing whitespace.
    pub fn from_str(s: &str) -> (r: Result<SymlinkDescriptor, SymlinkDescriptorParseErr>)
        ensures
            r is Err <==> parse_spec(s@) is None,
            r is Ok ==> Some(r->Ok_0@) == parse_spec(s@),
    {
        let n = s.unicode_len();
        let mut i: usize = n;
        while i > 0 && sep_len(s, n, i - 1) == 0
            invariant
                i <= n,
                n == s@.len(),
                last_sep_before(s@, i as int) == split_point(s@),
            decreases i,
        {
            i = i - 1;
        }
        if i == 0 {
            return Err(SymlinkDescriptorParseErr);
        }
        let k = i - 1;
        let len = sep_len(s, n, k);
        let link = trimmed(s.substring_char(0, k));
        let original = trimmed(s.substring_char(k + len, n));
        Ok(SymlinkDescriptor::new(link, original))
    }

    /// The textual form with the separator `sep`.
    pub fn format_with(&self, sep: Separator) -> (r: String)
        ensures
            r@ == self.link@ + sep.spec_text() + self.original@,
    {
        let s = copy_string(&self.link);
        let s = s.concat(sep.text());
        s.concat(self.original.as_str())
    }

    /// A copy of this descriptor.
    pub fn duplicate(&self) -> (r: SymlinkDescriptor)
        ensures
            r@ == self@,
    {
        SymlinkDescriptor { link: copy_string(&self.link), original: copy_string(&self.original) }
    }
}

/// No separator starts anywhere in `s`.
pub open spec fn has_no_separator(s: Seq<char>) -> bool {
    forall|k: int| 0 <= k < s.len() ==> sep_len_at(s, k) == 0
}

proof fn lemma_last_sep_skips(s: Seq<char>, lo: int, i: int)
    requires
        0 <= lo < i <= s.len(),
        sep_len_at(s, lo) > 0,
        forall|k: int| lo < k < i ==> sep_len_at(s, k) == 0,
    ensures
        last_sep_before(s, i) == lo,
    decreases i - lo,
{
    if i - 1 > lo {
        lemma_last_sep_skips(s, lo, i - 1);
    }
}

/// Formatting a descriptor and parsing the text gives the descriptor back,
/// with any of the three separators, where neither part has whitespace at
/// either end and the original has no separator of its own.
pub proof fn format_then_parse_round_trips(link: Seq<char>, original: Seq<char>, sep: Separator)
    requires
        trim(link) == link,
        trim(original) == original,
        has_no_separator(original),
    ensures
        parse_spec(link + sep.spec_text() + original) == Some((link, original)),
{
    let s = link + sep.spec_text() + original;
    let l = link.len() as int;
    let w = sep.spec_text().len() as int;
    assert(sep_len_at(s, l) == w);
    assert forall|k: int| l < k < s.len() implies sep_len_at(s, k) == 0 by {
        if k >= l + w {
            assert(sep_len_at(original, k - l - w) == 0);
            assert(s[k] == original[k - l - w]);
            if k + 1 < s.len() {
                assert(s[k + 1] == original[k + 1 - l - w]);
            }
        } else {
            assert(s[k] == '>');
        }
    }
    lemma_last_sep_skips(s, l, s.len() as int);
    assert(s.subrange(0, l) =~= link);
    assert(s.subrange(l + w, s.len() as int) =~= original);
}

} // verus!

verus! {

/// The last position before `i` that holds `c`, or -1.
pub open spec fn last_before(s: Seq<char>, c: char, i: int) -> int
    decreases i,
{
    if i <= 0 {
        -1
    } else if s[i - 1] == c {
        i - 1
    } else {
        last_before(s, c, i - 1)
    }
}

fn find_last(s: &str, c: char, i: usize) -> (r: Option<usize>)
    requires
        i <= s@.len(),
    ensures
        r is None <==> last_before(s@, c, i as int) == -1,
        r is Some ==> r->0 == last_before(s@, c, i as int),
{
    let mut j: usize = i;
    while j > 0 && s.get_char(j - 1) != c
        invariant
            j <= i,
            i <= s@.len(),
            last_before(s@, c, j as int) == last_before(s@, c, i as int),
        decreases j,
    {
        j = j - 1;
    }
    if j == 0 { None } else { Some(j - 1) }
}

proof fn lemma_last_before_range(s: Seq<char>, c: char, i: int)
    ensures
        -1 <= last_before(s, c, i) < i || (i <= 0 && last_before(s, c, i) == -1),
    decreases i,
{
    if i > 0 {
        lemma_last_before_range(s, c, i - 1);
    }
}

/// The name of the stub path `p` without its version: `<dir>/<name>.<ext>`
/// for `<dir>/<name>.<version>.<ext>`.
pub open spec fn unversioned(p: Seq<char>) -> Option<Seq<char>> {
    let slash = last_before(p, '/', p.len() as int);
    let d1 = last_before(p, '.', p.len() as int);
    let d2 = last_before(p, '.', d1);
    if d1 <= slash || d2 <= slash {
        None
    } else {
        Some(p.subrange(0, d2) + p.subrange(d1, p.len() as int))
    }
}

/// The path of the same library without its version, for a stub path
/// whose file stem ends in a version suffix.
pub fn lib_name_without_version(path: &str) -> (r: Option<String>)
    ensures
        r is None <==> unversioned(path@) is None,
        r is Some ==> Some(r->0@) == unversioned(path@),
{
    let n = path.unicode_len();
    proof {
        lemma_last_before_range(path@, '/', n as int);
        lemma_last_before_range(path@, '.', n as int);
    }
    let slash = find_last(path, '/', n);
    let d1 = match find_last(path, '.', n) {
        Some(k) => k,
        None => return None,
    };
    if let Some(sl) = slash {
        if d1 <= sl {
            return None;
        }
    }
    proof { lemma_last_before_range(path@, '.', d1 as int); }
    let d2 = match find_last(path, '.', d1) {
        Some(k) => k,
        None => return None,
    };
    if let Some(sl) = slash {
        if d2 <= sl {
            return None;
        }
    }
    let head = path.substring_char(0, d2).to_owned();
    Some(head.concat(path.substring_char(d1, n)))
}

pub open spec fn dylib_suffix() -> Seq<char> {
    seq!['.', 'd', 'y', 'l', 'i', 'b']
}

/// `s` without every trailing `.dylib`.
pub open spec fn strip_dylib(s: Seq<char>) -> Seq<char>
    decreases s.len(),
{
    if s.len() >= 6 && s.subrange(s.len() - 6, s.len() as int) == dylib_suffix() {
        strip_dylib(s.subrange(0, s.len() - 6))
    } else {
        s
    }
}

/// The path of the stub for a library: its install name without trailing
/// `.dylib`, followed by `.tbd`.
pub open spec fn stub_path_spec(install_name: Seq<char>) -> Seq<char> {
    strip_dylib(install_name) + seq!['.', 't', 'b', 'd']
}

fn ends_with_dylib(s: &str, j: usize) -> (r: bool)
    requires
        j <= s@.len(),
    ensures
        r == (j >= 6 && s@.subrange(j - 6, j as int) == dylib_suffix()),
{
    if j < 6 {
        return false;
    }
    let r = s.get_char(j - 6) == '.' && s.get_char(j - 5) == 'd' && s.get_char(j - 4) == 'y'
        && s.get_char(j - 3) == 'l' && s.get_char(j - 2) == 'i' && s.get_char(j - 1) == 'b';
    proof {
        if r {
            assert(s@.subrange(j - 6, j as int) =~= dylib_suffix());
        } else {
            if s@.subrange(j - 6, j as int) == dylib_suffix() {
                assert(s@.subrange(j - 6, j as int)[0] == '.');
                assert(s@.subrange(j - 6, j as int)[1] == 'd');
                assert(s@.subrange(j - 6, j as int)[2] == 'y');
                assert(s@.subrange(j - 6, j as int)[3] == 'l');
                assert(s@.subrange(j - 6, j as int)[4] == 'i');
                assert(s@.subrange(j - 6, j as int)[5] == 'b');
            }
        }
    }
    r
}

/// The path of the stub document for the library `install_name`.
pub fn stub_path(install_name: &str) -> (r: String)
    ensures
        r@ == stub_path_spec(install_name@),
{
    let mut j: usize = install_name.unicode_len();
    assert(install_name@.subrange(0, j as int) == install_name@);
    while ends_with_dylib(install_name, j)
        invariant
            j <= install_name@.len(),
            strip_dylib(install_name@.subrange(0, j as int)) == strip_dylib(install_name@),
        decreases j,
    {
        let ghost t = install_name@.subrange(0, j as int);
        assert(t.subrange(t.len() - 6, t.len() as int) == install_name@.subrange(j - 6, j as int));
        assert(t.subrange(0, t.len() - 6) == install_name@.subrange(0, j - 6));
        j = j - 6;
    }
    proof {
        let t = install_name@.subrange(0, j as int);
        if t.len() >= 6 {
            assert(t.subrange(t.len() - 6, t.len() as int) == install_name@.subrange(j - 6, j as int));
        }
        reveal_strlit(".tbd");
    }
    let head = install_name.substring_char(0, j).to_owned();
    head.concat(".tbd")
}

pub open spec fn descriptor_views(v: Seq<SymlinkDescriptor>) -> Seq<(Seq<char>, Seq<char>)> {
    v.map_values(|d: SymlinkDescriptor| d@)
}

/// The links that the versioned stubs among `paths` call for: from the
/// unversioned name to the stub.
pub open spec fn automatic_links(paths: Seq<Seq<char>>) -> Seq<(Seq<char>, Seq<char>)>
    decreases paths.len(),
{
    if paths.len() == 0 {
        Seq::empty()
    } else {
        let rest = automatic_links(paths.drop_last());
        match unversioned(paths.last()) {
            Some(u) => rest.push((u, paths.last())),
            None => rest,
        }
    }
}

fn contains_descriptor(v: &Vec<SymlinkDescriptor>, d: &SymlinkDescriptor) -> (r: bool)
    ensures
        r == descriptor_views(v@).contains(d@),
{
    let mut i: usize = 0;
    while i < v.len()
        invariant
            i <= v.len(),
            forall|k: int| 0 <= k < i ==> v@[k]@ != d@,
        decreases v.len() - i,
    {
        if string_eq(&v[i].link, &d.link) && string_eq(&v[i].original, &d.original) {
            assert(descriptor_views(v@)[i as int] == d@);
            return true;
        }
        i = i + 1;
    }
    proof {
        if descriptor_views(v@).contains(d@) {
            let k = choose|k: int| 0 <= k < descriptor_views(v@).len() && descriptor_views(v@)[k] == d@;
            assert(v@[k]@ == d@);
        }
    }
    false
}

/// The links of one run: the explicit ones, then one for each versioned
/// stub, each distinct (link, original) pair once.
pub fn collect_symlinks(explicit: Vec<SymlinkDescriptor>, stub_paths: &Vec<String>) -> (r: Vec<SymlinkDescriptor>)
    ensures
        descriptor_views(r@) == dedup(descriptor_views(explicit@) + automatic_links(stub_paths@.map_values(|p: String| p@))),
{
    let ghost paths = stub_paths@.map_values(|p: String| p@);
    let mut all: Vec<SymlinkDescriptor> = explicit;
    let ghost base = descriptor_views(all@);
    let mut i: usize = 0;
    while i < stub_paths.len()
        invariant
            i <= stub_paths.len(),
            paths == stub_paths@.map_values(|p: String| p@),
            descriptor_views(all@) == base + automatic_links(paths.subrange(0, i as int)),
        decreases stub_paths.len() - i,
    {
        let ghost sub = paths.subrange(0, i as int + 1);
        assert(sub.drop_last() == paths.subrange(0, i as int));
        assert(sub.last() == stub_paths@[i as int]@);
        match lib_name_without_version(stub_paths[i].as_str()) {
            Some(u) => {
                let ghost before = all@;
                all.push(SymlinkDescriptor { link: u, original: copy_string(&stub_paths[i]) });
                assert(descriptor_views(all@) =~= descriptor_views(before).push(all@.last()@));
                assert(descriptor_views(all@) =~= base + automatic_links(sub));
            },
            None => {},
        }
        i = i + 1;
    }
    assert(paths.subrange(0, stub_paths.len() as int) == paths);
    let ghost full = descriptor_views(all@);
    let mut out: Vec<SymlinkDescriptor> = Vec::new();
    let mut k: usize = 0;
    while k < all.len()
        invariant
            k <= all.len(),
            full == descriptor_views(all@),
            descriptor_views(out@) == dedup(full.subrange(0, k as int)),
        decreases all.len() - k,
    {
        let ghost sub = full.subrange(0, k as int + 1);
        assert(sub.drop_last() == full.subrange(0, k as int));
        assert(sub.last() == all@[k as int]@);
        if !contains_descriptor(&out, &all[k]) {
            let ghost before = out@;
            out.push(all[k].duplicate());
            assert(descriptor_views(out@) =~= descriptor_views(before).push(all@[k as int]@));
        }
        k = k + 1;
    }
    assert(full.subrange(0, all.len() as int) == full);
    out
}

/// A line of a descriptor file is a comment where its first
/// non-whitespace character is `#`.
pub open spec fn is_comment(line: Seq<char>) -> bool {
    trim_start(line).len() > 0 && trim_start(line)[0] == '#'
}

/// What the lines of a descriptor file state: the descriptor of each line
/// that is no comment, or nothing where one of them names no separator.
pub open spec fn parse_lines_spec(lines: Seq<Seq<char>>) -> Option<Seq<(Seq<char>, Seq<char>)>>
    decreases lines.len(),
{
    if lines.len() == 0 {
        Some(Seq::empty())
    } else {
        match parse_lines_spec(lines.drop_last()) {
            None => None,
            Some(rest) => if is_comment(lines.last()) {
                Some(rest)
            } else {
                match parse_spec(lines.last()) {
                    None => None,
                    Some(d) => Some(rest.push(d)),
                }
            },
        }
    }
}

/// Parses the lines of a descriptor file; comment lines are skipped.
pub fn parse_symlinks_lines(lines: &Vec<String>) -> (r: Result<Vec<SymlinkDescriptor>, SymlinkDescriptorParseErr>)
    ensures
        r is Err <==> parse_lines_spec(lines@.map_values(|l: String| l@)) is None,
        r is Ok ==> Some(descriptor_views(r->Ok_0@)) == parse_lines_spec(lines@.map_values(|l: String| l@)),
{
    let ghost ls = lines@.map_values(|l: String| l@);
    let mut out: Vec<SymlinkDescriptor> = Vec::new();
    let mut i: usize = 0;
    while i < lines.len()
        invariant
            i <= lines.len(),
            ls == lines@.map_values(|l: String| l@),
            parse_lines_spec(ls.subrange(0, i as int)) == Some(descriptor_views(out@)),
        decreases lines.len() - i,
    {
        let ghost sub = ls.subrange(0, i as int + 1);
        assert(sub.drop_last() == ls.subrange(0, i as int));
        assert(sub.last() == lines@[i as int]@);
        let line = lines[i].as_str();
        let t = trimmed_start(line);
        let comment = t.unicode_len() > 0 && t.get_char(0) == '#';
        if !comment {
            match SymlinkDescriptor::from_str(line) {
                Ok(d) => {
                    let ghost before = out@;
                    out.push(d);
                    assert(descriptor_views(out@) =~= descriptor_views(before).push(d@));
                },
                Err(e) => {
                    proof { lemma_parse_lines_none_extends(ls, i as int + 1); }
                    return Err(e);
                },
            }
        }
        i = i + 1;
    }
    assert(ls.subrange(0, lines.len() as int) == ls);
    Ok(out)
}

proof fn lemma_parse_lines_none_extends(ls: Seq<Seq<char>>, i: int)
    requires
        0 <= i <= ls.len(),
        parse_lines_spec(ls.subrange(0, i)) is None,
    ensures
        parse_lines_spec(ls) is None,
    decreases ls.len() - i,
{
    if i < ls.len() {
        let sub = ls.subrange(0, i + 1);
        assert(sub.drop_last() == ls.subrange(0, i));
        lemma_parse_lines_none_extends(ls, i + 1);
    } else {
        assert(ls.subrange(0, i) == ls);
    }
}

} // verus!
