//! The tree that a run builds in its output container: which paths exist
//! and as what, and what each operation asks the container to create.
//! The container itself (a directory, a tar or gzip-tar stream, a zip
//! stream) only carries out the actions returned here.

use vstd::prelude::*;
use crate::paths::{components, join, join_components, normalized_components, resolve_dots, string_views};
use crate::strings::{copy_string, eq_ignore_ascii_case as eq, eq_ignoring_case, string_eq};

verus! {

/// The kinds of output container.
#[derive(Debug, Clone, Copy, PartialEq, Eq, Structural)]
pub enum SdkFormat {
    Dir,
    Tar,
    Tgz,
    Zip,
}

/// What a path of the tree is.
#[derive(Debug, Clone, Copy, PartialEq, Eq, Structural)]
pub enum EntryKind {
    Dir,
    File,
    Symlink,
}

/// Why an operation on the tree failed.
#[derive(Debug, Clone, Copy, PartialEq, Eq, Structural)]
pub enum TreeError {
    AlreadyExists,
    NotADirectory,
    NoSuchFile,
    PathTooLong,
}

/// The entries of a tree in creation order.
pub open spec fn entry_views(v: Seq<(String, EntryKind)>) -> Seq<(Seq<char>, EntryKind)> {
    v.map_values(|e: (String, EntryKind)| (e.0@, e.1))
}

/// What the path `p` is in the tree `t`.
pub open spec fn lookup(t: Seq<(Seq<char>, EntryKind)>, p: Seq<char>) -> Option<EntryKind>
    decreases t.len(),
{
    if t.len() == 0 {
        None
    } else if t.last().0 == p {
        Some(t.last().1)
    } else {
        lookup(t.drop_last(), p)
    }
}

/// The directories that `cs` passes through, outermost first, ending with
/// `cs` itself.
pub open spec fn dir_prefixes(cs: Seq<Seq<char>>) -> Seq<Seq<char>> {
    Seq::new(cs.len(), |k: int| join(cs.subrange(0, k + 1)))
}

pub open spec fn absent_in(t: Seq<(Seq<char>, EntryKind)>) -> spec_fn(Seq<char>) -> bool {
    |q: Seq<char>| lookup(t, q) is None
}

/// Some directory on the way to `cs` exists as something else.
pub open spec fn blocked(t: Seq<(Seq<char>, EntryKind)>, cs: Seq<Seq<char>>) -> bool {
    exists|k: int| 0 <= k < cs.len() && #[trigger] lookup(t, dir_prefixes(cs)[k]) is Some
        && lookup(t, dir_prefixes(cs)[k]) != Some(EntryKind::Dir)
}

/// The error for a directory that exists as something else: a plain
/// directory reports it as not being a directory, the archive containers
/// as an existing entry.
pub open spec fn conflict_error(format: SdkFormat) -> TreeError {
    if format == SdkFormat::Dir { TreeError::NotADirectory } else { TreeError::AlreadyExists }
}

pub open spec fn dir_entries(ps: Seq<Seq<char>>) -> Seq<(Seq<char>, EntryKind)> {
    ps.map_values(|q: Seq<char>| (q, EntryKind::Dir))
}

/// The link target `target` as seen from the directory `base`: one `..`
/// for each component of `base` past their common prefix, then the rest of
/// `target`.
pub open spec fn common_prefix_len(base: Seq<Seq<char>>, target: Seq<Seq<char>>, k: int) -> int
    decreases base.len() - k,
{
    if k < 0 || k >= base.len() || k >= target.len() || base[k] != target[k] {
        k
    } else {
        common_prefix_len(base, target, k + 1)
    }
}

pub open spec fn relative_to(base: Seq<Seq<char>>, target: Seq<Seq<char>>) -> Seq<Seq<char>> {
    let k = common_prefix_len(base, target, 0);
    Seq::new((base.len() - k) as nat, |i: int| seq!['.', '.']) + target.subrange(k, target.len() as int)
}

/// The components of a link's target: an original starting with `/` is
/// taken from the tree's root, any other from the link's directory.
pub open spec fn link_target(parent: Seq<Seq<char>>, original: Seq<char>) -> Seq<Seq<char>> {
    if original.len() > 0 && original[0] == '/' {
        resolve_dots(components(original))
    } else {
        resolve_dots(parent + components(original))
    }
}

/// The check made before an entry is created at `cs`: its directory must
/// exist as a directory and the path itself must be free.
pub open spec fn entry_check(t: Seq<(Seq<char>, EntryKind)>, cs: Seq<Seq<char>>) -> Option<TreeError> {
    if cs.len() == 0 {
        Some(TreeError::AlreadyExists)
    } else if cs.len() > 1 && lookup(t, join(cs.drop_last())) != Some(EntryKind::Dir) {
        if lookup(t, join(cs.drop_last())) is None { Some(TreeError::NoSuchFile) } else { Some(TreeError::NotADirectory) }
    } else if lookup(t, join(cs)) is Some {
        Some(TreeError::AlreadyExists)
    } else {
        None
    }
}

/// A symbolic link for the container to create.
#[derive(Debug)]
pub struct LinkAction {
    pub original: String,
    pub link: String,
}

/// The tree that one run builds.
#[derive(Debug)]
pub struct FileTree {
    format: SdkFormat,
    entries: Vec<(String, EntryKind)>,
}

impl FileTree {
    pub closed spec fn kind(&self) -> SdkFormat {
        self.format
    }

    /// The kind of container this tree is built in.
    pub fn format(&self) -> (r: SdkFormat)
        ensures
            r == self.kind(),
    {
        self.format
    }

    /// The tree is well formed: whatever it holds stands in directories it
    /// holds.
    #[verifier::type_invariant]
    spec fn well_formed(&self) -> bool {
        tree_wf(entry_views(self.entries@))
    }

    pub closed spec fn table(&self) -> Seq<(Seq<char>, EntryKind)> {
        entry_views(self.entries@)
    }

    /// An empty tree for a container of the given kind.
    pub fn new(format: SdkFormat) -> (r: FileTree)
        ensures
            r.kind() == format,
            r.table() == Seq::<(Seq<char>, EntryKind)>::empty(),
    {
        proof {
            lemma_wf_empty();
            assert(entry_views(Seq::<(String, EntryKind)>::empty()) =~= Seq::<(Seq<char>, EntryKind)>::empty());
        }
        let r = FileTree { format, entries: Vec::new() };
        assert(r.table() =~= Seq::<(Seq<char>, EntryKind)>::empty());
        r
    }

    fn find(&self, p: &String) -> (r: Option<EntryKind>)
        ensures
            r == lookup(self.table(), p@),
    {
        find_in(&self.entries, p)
    }

    /// Sets the entries aside, leaving the tree empty.
    fn take_entries(&mut self) -> (r: Vec<(String, EntryKind)>)
        ensures
            entry_views(r@) == old(self).table(),
            final(self).kind() == old(self).kind(),
            final(self).table() == Seq::<(Seq<char>, EntryKind)>::empty(),
    {
        let mut entries: Vec<(String, EntryKind)> = Vec::new();
        proof {
            lemma_wf_empty();
            assert(entry_views(entries@) =~= Seq::<(Seq<char>, EntryKind)>::empty());
        }
        std::mem::swap(&mut entries, &mut self.entries);
        entries
    }

    /// Puts entries that form a well-formed tree back in place.
    fn put_entries(&mut self, entries: Vec<(String, EntryKind)>)
        requires
            tree_wf(entry_views(entries@)),
        ensures
            final(self).table() == entry_views(entries@),
            final(self).kind() == old(self).kind(),
    {
        let mut entries = entries;
        std::mem::swap(&mut entries, &mut self.entries);
    }
}

fn find_in(entries: &Vec<(String, EntryKind)>, p: &String) -> (r: Option<EntryKind>)
    ensures
        r == lookup(entry_views(entries@), p@),
{
    let mut i: usize = entries.len();
    let ghost t = entry_views(entries@);
    assert(t.subrange(0, i as int) == t);
    while i > 0
        invariant
            i <= entries.len(),
            t == entry_views(entries@),
            lookup(t.subrange(0, i as int), p@) == lookup(t, p@),
        decreases i,
    {
        let ghost sub = t.subrange(0, i as int);
        assert(sub.drop_last() == t.subrange(0, i - 1));
        assert(sub.last() == (entries@[i - 1].0@, entries@[i - 1].1));
        if string_eq(&entries[i - 1].0, p) {
            return Some(entries[i - 1].1);
        }
        i = i - 1;
    }
    None
}

impl FileTree {
    /// Creates the directory `path` and every directory above it that is
    /// missing; directories that exist already are kept. Returns the
    /// directories to create, outermost first.
    pub fn mkdirp(&mut self, path: &str) -> (r: Result<Vec<String>, TreeError>)
        ensures
            final(self).kind() == old(self).kind(),
            lookup(old(self).table(), join(resolve_dots(components(path@)))) == Some(EntryKind::Dir)
                ==> r is Ok && r->Ok_0@.len() == 0,
            r is Err <==> blocked(old(self).table(), resolve_dots(components(path@))),
            r is Err ==> r == Err::<Vec<String>, TreeError>(conflict_error(old(self).kind()))
                && final(self).table() == old(self).table(),
            r is Ok ==> string_views(r->Ok_0@) == dir_prefixes(resolve_dots(components(path@))).filter(absent_in(old(self).table()))
                && final(self).table() == old(self).table() + dir_entries(string_views(r->Ok_0@)),
    {
        proof { use_type_invariant(&*self); }
        let cs = normalized_components(path);
        let ghost csv = string_views(cs@);
        let ghost t0 = self.table();
        let ghost ps = dir_prefixes(csv);
        proof {
            crate::paths::lemma_components_shape(path@);
            crate::paths::lemma_resolve_is_clean(components(path@));
            assert forall|i: int| 0 <= i < csv.len() implies (#[trigger] csv[i]).len() > 0 by {
                assert(crate::paths::is_clean(csv[i]));
            }
            lemma_prefixes_distinct(csv);
            if lookup(t0, join(csv)) == Some(EntryKind::Dir) {
                if csv.len() > 0 {
                    lemma_mkdirp_existing(t0, csv);
                } else {
                    reveal(Seq::filter);
                    assert(dir_prefixes(csv) =~= Seq::<Seq<char>>::empty());
                    assert(!blocked(t0, csv));
                }
            }
        }
        // first pass: every directory on the way must be free or a directory
        let mut prefixes: Vec<String> = Vec::new();
        let mut k: usize = 0;
        while k < cs.len()
            invariant
                k <= cs.len(),
                csv == string_views(cs@),
                ps == dir_prefixes(csv),
                csv == resolve_dots(components(path@)),
                t0 == self.table(),
                t0 == old(self).table(),
                self.kind() == old(self).kind(),
                tree_wf(t0),
                lookup(t0, join(csv)) == Some(EntryKind::Dir) ==> !blocked(t0, csv),
                string_views(prefixes@) == ps.subrange(0, k as int),
                prefixes@.len() == k,
                forall|j: int| 0 <= j < k ==> (#[trigger] lookup(t0, ps[j])) is None || lookup(t0, ps[j]) == Some(EntryKind::Dir),
            decreases cs.len() - k,
        {
            let q = if k == 0 {
                copy_string(&cs[0])
            } else {
                let q = copy_string(&prefixes[k - 1]);
                let q = q.concat("/");
                q.concat(cs[k].as_str())
            };
            proof {
                reveal_strlit("/");
                let sub = csv.subrange(0, k as int + 1);
                if k > 0 {
                    assert(sub.drop_last() == csv.subrange(0, k as int));
                    assert(sub.last() == cs@[k as int]@);
                    assert(string_views(prefixes@)[k - 1] == prefixes@[k - 1]@);
                    assert(prefixes@[k - 1]@ == ps[k - 1]);
                } else {
                    assert(sub.len() == 1);
                    assert(sub[0] == cs@[0]@);
                }
                assert(q@ == ps[k as int]);
            }
            match self.find(&q) {
                Some(EntryKind::Dir) => {},
                None => {},
                Some(_) => {
                    assert(lookup(t0, ps[k as int]) is Some && lookup(t0, ps[k as int]) != Some(EntryKind::Dir));
                    assert(blocked(t0, csv));
                    let e = if self.format == SdkFormat::Dir { TreeError::NotADirectory } else { TreeError::AlreadyExists };
                    return Err(e);
                },
            }
            let ghost before = prefixes@;
            prefixes.push(q);
            assert(string_views(prefixes@) =~= ps.subrange(0, k as int + 1));
            k = k + 1;
        }
        assert(ps.subrange(0, cs.len() as int) == ps);
        assert(!blocked(t0, csv));
        // second pass: create what is missing
        let mut created: Vec<String> = Vec::new();
        let mut entries = self.take_entries();
        let mut k: usize = 0;
        while k < prefixes.len()
            invariant
                k <= prefixes.len(),
                string_views(prefixes@) == ps,
                self.kind() == old(self).kind(),
                t0 == old(self).table(),
                string_views(created@) == ps.subrange(0, k as int).filter(absent_in(t0)),
                entry_views(entries@) == t0 + dir_entries(string_views(created@)),
                forall|j: int| 0 <= j < ps.len() ==> (#[trigger] lookup(t0, ps[j])) is None || lookup(t0, ps[j]) == Some(EntryKind::Dir),
                forall|i: int, j: int| 0 <= i < j < ps.len() ==> ps[i] != ps[j],
            decreases prefixes.len() - k,
        {
            proof { crate::text_api::lemma_filter_step(ps, absent_in(t0), k as int); }
            let q = &prefixes[k];
            assert(q@ == ps[k as int]);
            let known = find_in(&entries, q);
            proof { lemma_lookup_after_dirs(t0, string_views(created@), ps, k as int); }
            if known.is_none() {
                let ghost before_c = created@;
                let ghost before_e = entries@;
                entries.push((copy_string(q), EntryKind::Dir));
                created.push(copy_string(q));
                assert(string_views(created@) =~= string_views(before_c).push(q@));
                assert(entry_views(entries@) =~= entry_views(before_e).push((q@, EntryKind::Dir)));
                assert(dir_entries(string_views(created@)) =~= dir_entries(string_views(before_c)).push((q@, EntryKind::Dir)));
                assert(entry_views(entries@) =~= t0 + dir_entries(string_views(created@)));
            }
            k = k + 1;
        }
        assert(ps.subrange(0, ps.len() as int) == ps);
        proof { lemma_wf_dirs(t0, csv, string_views(created@)); }
        self.put_entries(entries);
        Ok(created)
    }
}

} // verus!

verus! {

proof fn lemma_lookup_dirs(t: Seq<(Seq<char>, EntryKind)>, c: Seq<Seq<char>>, p: Seq<char>)
    ensures
        lookup(t + dir_entries(c), p) == (if c.contains(p) { Some(EntryKind::Dir) } else { lookup(t, p) }),
    decreases c.len(),
{
    if c.len() > 0 {
        let q = c.drop_last();
        lemma_lookup_dirs(t, q, p);
        assert((t + dir_entries(c)).drop_last() =~= t + dir_entries(q));
        assert((t + dir_entries(c)).last() == (c.last(), EntryKind::Dir));
        if q.contains(p) {
            let k = choose|k: int| 0 <= k < q.len() && q[k] == p;
            assert(c[k] == p);
        }
        if c.contains(p) && c.last() != p {
            let k = choose|k: int| 0 <= k < c.len() && c[k] == p;
            assert(q[k] == p);
        }
        if c.last() == p {
            assert(c[c.len() - 1] == p);
        }
    } else {
        assert(t + dir_entries(c) =~= t);
    }
}

proof fn lemma_lookup_after_dirs(t: Seq<(Seq<char>, EntryKind)>, c: Seq<Seq<char>>, ps: Seq<Seq<char>>, k: int)
    requires
        0 <= k < ps.len(),
        c == ps.subrange(0, k).filter(absent_in(t)),
        forall|i: int, j: int| 0 <= i < j < ps.len() ==> ps[i] != ps[j],
    ensures
        lookup(t + dir_entries(c), ps[k]) == lookup(t, ps[k]),
{
    lemma_lookup_dirs(t, c, ps[k]);
    if c.contains(ps[k]) {
        ps.subrange(0, k).lemma_filter_contains_rev(absent_in(t), ps[k]);
        let i = choose|i: int| 0 <= i < k && ps.subrange(0, k)[i] == ps[k];
        assert(ps[i] == ps[k]);
    }
}

proof fn lemma_join_longer(x: Seq<Seq<char>>, c: Seq<char>)
    requires
        c.len() > 0,
    ensures
        join(x.push(c)).len() > join(x).len(),
{
    assert(x.push(c).drop_last() == x);
    if x.len() == 0 {
        assert(x.push(c)[0] == c);
    }
}

/// The directories on the way to a normalized path are distinct.
proof fn lemma_prefixes_distinct(cs: Seq<Seq<char>>)
    requires
        forall|i: int| 0 <= i < cs.len() ==> (#[trigger] cs[i]).len() > 0,
    ensures
        forall|i: int, j: int| 0 <= i < j < cs.len() ==> dir_prefixes(cs)[i] != dir_prefixes(cs)[j],
{
    assert forall|i: int, j: int| 0 <= i < j < cs.len() implies dir_prefixes(cs)[i] != dir_prefixes(cs)[j] by {
        lemma_prefix_len_grows(cs, i, j);
    }
}

proof fn lemma_prefix_len_grows(cs: Seq<Seq<char>>, i: int, j: int)
    requires
        forall|k: int| 0 <= k < cs.len() ==> (#[trigger] cs[k]).len() > 0,
        0 <= i < j < cs.len(),
    ensures
        join(cs.subrange(0, i + 1)).len() < join(cs.subrange(0, j + 1)).len(),
    decreases j - i,
{
    assert(cs.subrange(0, j + 1) == cs.subrange(0, j).push(cs[j]));
    lemma_join_longer(cs.subrange(0, j), cs[j]);
    if i < j - 1 {
        lemma_prefix_len_grows(cs, i, j - 1);
    }
}

} // verus!

verus! {

/// In a plain directory, asking for a directory where a file already
/// stands fails with `NotADirectory`, and the tree, file included, stays
/// as it was.
pub proof fn mkdirp_over_file_is_refused(t: Seq<(Seq<char>, EntryKind)>, path: Seq<char>)
    requires
        crate::paths::normal_form(path).len() > 0,
        lookup(t, crate::paths::normal_form(path)) == Some(EntryKind::File),
    ensures
        blocked(t, resolve_dots(components(path))),
        conflict_error(SdkFormat::Dir) == TreeError::NotADirectory,
{
    let cs = resolve_dots(components(path));
    assert(cs.len() > 0);
    assert(cs.subrange(0, cs.len() as int) == cs);
    assert(dir_prefixes(cs)[cs.len() - 1] == join(cs));
}

impl FileTree {
    fn check_entry(&self, cs: &Vec<String>) -> (r: Option<TreeError>)
        ensures
            r == entry_check(self.table(), string_views(cs@)),
    {
        let ghost csv = string_views(cs@);
        if cs.len() == 0 {
            return Some(TreeError::AlreadyExists);
        }
        if cs.len() > 1 {
            let mut parent: Vec<String> = Vec::new();
            let mut i: usize = 0;
            while i + 1 < cs.len()
                invariant
                    i + 1 <= cs.len(),
                    string_views(parent@) == csv.subrange(0, i as int),
                    csv == string_views(cs@),
                decreases cs.len() - i,
            {
                let ghost before = parent@;
                parent.push(copy_string(&cs[i]));
                assert(string_views(parent@) =~= string_views(before).push(cs@[i as int]@));
                assert(string_views(parent@) =~= csv.subrange(0, i as int + 1));
                i = i + 1;
            }
            assert(csv.subrange(0, cs.len() - 1) == csv.drop_last());
            let p = join_components(&parent);
            match self.find(&p) {
                Some(EntryKind::Dir) => {},
                None => return Some(TreeError::NoSuchFile),
                Some(_) => return Some(TreeError::NotADirectory),
            }
        }
        let full = join_components(cs);
        if self.find(&full).is_some() {
            return Some(TreeError::AlreadyExists);
        }
        None
    }

    /// Creates the file `path`; its directory must exist. Returns the path
    /// under which the container writes the file.
    pub fn new_file(&mut self, path: &str) -> (r: Result<String, TreeError>)
        ensures
            final(self).kind() == old(self).kind(),
            ({
                let cs = resolve_dots(components(path@));
                match entry_check(old(self).table(), cs) {
                    Some(e) => r == Err::<String, TreeError>(e) && final(self).table() == old(self).table(),
                    None => r is Ok && r->Ok_0@ == join(cs)
                        && final(self).table() == old(self).table().push((join(cs), EntryKind::File)),
                }
            }),
    {
        proof { use_type_invariant(&*self); }
        let cs = normalized_components(path);
        if let Some(e) = self.check_entry(&cs) {
            return Err(e);
        }
        let p = join_components(&cs);
        proof {
            crate::paths::lemma_components_shape(path@);
            crate::paths::lemma_resolve_is_clean(components(path@));
            lemma_wf_entry(self.table(), string_views(cs@), EntryKind::File);
        }
        let mut entries = self.take_entries();
        let ghost before = entries@;
        entries.push((copy_string(&p), EntryKind::File));
        assert(entry_views(entries@) =~= entry_views(before).push((p@, EntryKind::File)));
        self.put_entries(entries);
        Ok(p)
    }

    /// Creates the symbolic link `link` to `original`. An `original` that
    /// starts with `/` is taken from the root of the tree, any other from
    /// the link's directory; either way the link stores it relative to the
    /// link's directory.
    pub fn new_file_symlink(&mut self, original: &str, link: &str) -> (r: Result<LinkAction, TreeError>)
        ensures
            final(self).kind() == old(self).kind(),
            ({
                let cs = resolve_dots(components(link@));
                match entry_check(old(self).table(), cs) {
                    Some(e) => r == Err::<LinkAction, TreeError>(e) && final(self).table() == old(self).table(),
                    None => r is Ok && r->Ok_0.link@ == join(cs)
                        && r->Ok_0.original@ == join(relative_to(cs.drop_last(), link_target(cs.drop_last(), original@)))
                        && final(self).table() == old(self).table().push((join(cs), EntryKind::Symlink)),
                }
            }),
    {
        proof { use_type_invariant(&*self); }
        let cs = normalized_components(link);
        if let Some(e) = self.check_entry(&cs) {
            return Err(e);
        }
        let ghost csv = string_views(cs@);
        let mut parent: Vec<String> = Vec::new();
        let mut i: usize = 0;
        while i + 1 < cs.len()
            invariant
                i + 1 <= cs.len(),
                string_views(parent@) == csv.subrange(0, i as int),
                csv == string_views(cs@),
            decreases cs.len() - i,
        {
            let ghost before = parent@;
            parent.push(copy_string(&cs[i]));
            assert(string_views(parent@) =~= string_views(before).push(cs@[i as int]@));
            assert(string_views(parent@) =~= csv.subrange(0, i as int + 1));
            i = i + 1;
        }
        assert(csv.subrange(0, cs.len() - 1) == csv.drop_last());
        let target = target_components(&parent, original);
        let rel = relative_components(&parent, &target);
        let link_path = join_components(&cs);
        let original_path = join_components(&rel);
        proof {
            crate::paths::lemma_components_shape(link@);
            crate::paths::lemma_resolve_is_clean(components(link@));
            lemma_wf_entry(self.table(), string_views(cs@), EntryKind::Symlink);
        }
        let mut entries = self.take_entries();
        let ghost before = entries@;
        entries.push((copy_string(&link_path), EntryKind::Symlink));
        assert(entry_views(entries@) =~= entry_views(before).push((link_path@, EntryKind::Symlink)));
        self.put_entries(entries);
        Ok(LinkAction { original: original_path, link: link_path })
    }
}

fn target_components(parent: &Vec<String>, original: &str) -> (r: Vec<String>)
    ensures
        string_views(r@) == link_target(string_views(parent@), original@),
{
    if original.unicode_len() > 0 && original.get_char(0) == '/' {
        return normalized_components(original);
    }
    // the link's directory, then the original, resolved together
    let own = crate::paths::split_components(original);
    let mut all: Vec<String> = Vec::new();
    let mut i: usize = 0;
    while i < parent.len()
        invariant
            i <= parent.len(),
            string_views(all@) == string_views(parent@).subrange(0, i as int),
        decreases parent.len() - i,
    {
        let ghost before = all@;
        all.push(copy_string(&parent[i]));
        assert(string_views(all@) =~= string_views(before).push(parent@[i as int]@));
        assert(string_views(all@) =~= string_views(parent@).subrange(0, i as int + 1));
        i = i + 1;
    }
    let mut j: usize = 0;
    while j < own.len()
        invariant
            j <= own.len(),
            string_views(all@) == string_views(parent@) + string_views(own@).subrange(0, j as int),
        decreases own.len() - j,
    {
        let ghost before = all@;
        all.push(copy_string(&own[j]));
        assert(string_views(all@) =~= string_views(before).push(own@[j as int]@));
        assert(string_views(all@) =~= string_views(parent@) + string_views(own@).subrange(0, j as int + 1));
        j = j + 1;
    }
    assert(string_views(own@).subrange(0, own.len() as int) == string_views(own@));
    crate::paths::resolve_components(&all)
}

fn relative_components(base: &Vec<String>, target: &Vec<String>) -> (r: Vec<String>)
    ensures
        string_views(r@) == relative_to(string_views(base@), string_views(target@)),
{
    let ghost b = string_views(base@);
    let ghost t = string_views(target@);
    let mut k: usize = 0;
    while k < base.len() && k < target.len() && string_eq(&base[k], &target[k])
        invariant
            k <= base.len(),
            k <= target.len(),
            b == string_views(base@),
            t == string_views(target@),
            common_prefix_len(b, t, k as int) == common_prefix_len(b, t, 0),
        decreases base.len() - k,
    {
        k = k + 1;
    }
    assert(common_prefix_len(b, t, k as int) == k);
    let mut out: Vec<String> = Vec::new();
    let mut i: usize = k;
    while i < base.len()
        invariant
            k <= i <= base.len(),
            k <= target.len(),
            string_views(out@) == Seq::new((i - k) as nat, |x: int| seq!['.', '.']),
        decreases base.len() - i,
    {
        proof { reveal_strlit(".."); }
        let ghost before = out@;
        let up = "..".to_owned();
        assert(up@ =~= seq!['.', '.']);
        out.push(up);
        assert(string_views(out@) =~= string_views(before).push(seq!['.', '.']));
        assert(string_views(out@) =~= Seq::new((i + 1 - k) as nat, |x: int| seq!['.', '.']));
        i = i + 1;
    }
    let ghost ups = string_views(out@);
    assert(t.subrange(k as int, k as int) =~= Seq::<Seq<char>>::empty());
    assert(ups + t.subrange(k as int, k as int) =~= ups);
    let mut j: usize = k;
    while j < target.len()
        invariant
            k <= j <= target.len(),
            t == string_views(target@),
            string_views(out@) == ups + t.subrange(k as int, j as int),
        decreases target.len() - j,
    {
        let ghost before = out@;
        out.push(copy_string(&target[j]));
        assert(string_views(out@) =~= string_views(before).push(target@[j as int]@));
        assert(string_views(out@) =~= ups + t.subrange(k as int, j as int + 1));
        j = j + 1;
    }
    out
}

} // verus!

verus! {

pub open spec fn dir_names(s: Seq<char>) -> bool {
    eq_ignoring_case(s, "d"@) || eq_ignoring_case(s, "dir"@) || eq_ignoring_case(s, "directory"@)
}

pub open spec fn tar_names(s: Seq<char>) -> bool {
    eq_ignoring_case(s, "t"@) || eq_ignoring_case(s, "tar"@)
}

pub open spec fn tgz_names(s: Seq<char>) -> bool {
    eq_ignoring_case(s, "tg"@) || eq_ignoring_case(s, "tgz"@) || eq_ignoring_case(s, "tar.gz"@)
}

pub open spec fn zip_names(s: Seq<char>) -> bool {
    eq_ignoring_case(s, "z"@) || eq_ignoring_case(s, "zip"@)
}

impl SdkFormat {
    pub open spec fn spec_name(self) -> Seq<char> {
        match self {
            SdkFormat::Dir => "dir"@,
            SdkFormat::Tar => "tar"@,
            SdkFormat::Tgz => "tgz"@,
            SdkFormat::Zip => "zip"@,
        }
    }

    /// The format's name.
    pub fn name(&self) -> (r: &'static str)
        ensures
            r@ == self.spec_name(),
    {
        match self {
            SdkFormat::Dir => "dir",
            SdkFormat::Tar => "tar",
            SdkFormat::Tgz => "tgz",
            SdkFormat::Zip => "zip",
        }
    }

    /// The format named `s`, in any case: `d`, `dir`, `directory`; `t`,
    /// `tar`; `tg`, `tgz`, `tar.gz`; `z`, `zip`.
    pub fn from_str(s: &str) -> (r: Option<SdkFormat>)
        ensures
            r == Some(SdkFormat::Dir) ==> dir_names(s@),
            r == Some(SdkFormat::Tar) ==> tar_names(s@),
            r == Some(SdkFormat::Tgz) ==> tgz_names(s@),
            r == Some(SdkFormat::Zip) ==> zip_names(s@),
            r is None <==> !(dir_names(s@) || tar_names(s@) || tgz_names(s@) || zip_names(s@)),
    {
        let is_dir = eq(s, "d") || eq(s, "dir") || eq(s, "directory");
        let is_tar = eq(s, "t") || eq(s, "tar");
        let is_tgz = eq(s, "tg") || eq(s, "tgz") || eq(s, "tar.gz");
        let is_zip = eq(s, "z") || eq(s, "zip");
        if is_dir {
            Some(SdkFormat::Dir)
        } else if is_tar {
            Some(SdkFormat::Tar)
        } else if is_tgz {
            Some(SdkFormat::Tgz)
        } else if is_zip {
            Some(SdkFormat::Zip)
        } else {
            None
        }
    }
}

impl Default for SdkFormat {
    fn default() -> (r: SdkFormat)
        ensures
            r == SdkFormat::Dir,
    {
        SdkFormat::Dir
    }
}

} // verus!

verus! {

/// Every directory on the way to `cs`, `cs` itself left out, is a
/// directory of the tree.
pub open spec fn ancestors_are_dirs(t: Seq<(Seq<char>, EntryKind)>, cs: Seq<Seq<char>>) -> bool {
    forall|k: int| 0 <= k < cs.len() - 1 ==> lookup(t, #[trigger] dir_prefixes(cs)[k]) == Some(EntryKind::Dir)
}

/// A well-formed tree: whatever it holds stands in directories it holds.
#[verifier::opaque]
pub open spec fn tree_wf(t: Seq<(Seq<char>, EntryKind)>) -> bool {
    forall|cs: Seq<Seq<char>>| crate::paths::all_clean(cs) && #[trigger] lookup(t, join(cs)) is Some ==> ancestors_are_dirs(t, cs)
}

proof fn lemma_join_nonempty(cs: Seq<Seq<char>>)
    requires
        crate::paths::all_clean(cs),
        cs.len() > 0,
    ensures
        join(cs).len() > 0,
{
    assert(crate::paths::is_clean(cs[cs.len() - 1]));
    assert(cs.drop_last().push(cs.last()) =~= cs);
    lemma_join_longer(cs.drop_last(), cs.last());
}

proof fn lemma_join_injective(a: Seq<Seq<char>>, b: Seq<Seq<char>>)
    requires
        crate::paths::all_clean(a),
        crate::paths::all_clean(b),
        join(a) == join(b),
    ensures
        a == b,
{
    if a.len() == 0 && b.len() == 0 {
        assert(a =~= b);
    } else if a.len() == 0 {
        lemma_join_nonempty(b);
    } else if b.len() == 0 {
        lemma_join_nonempty(a);
    } else {
        assert forall|i: int| 0 <= i < a.len() implies !(#[trigger] a[i]).contains('/') by {
            assert(crate::paths::is_clean(a[i]));
        }
        assert forall|i: int| 0 <= i < b.len() implies !(#[trigger] b[i]).contains('/') by {
            assert(crate::paths::is_clean(b[i]));
        }
        crate::paths::lemma_segments_join(a);
        crate::paths::lemma_segments_join(b);
    }
}

proof fn lemma_prefix_clean(cs: Seq<Seq<char>>, k: int)
    requires
        crate::paths::all_clean(cs),
        0 <= k <= cs.len(),
    ensures
        crate::paths::all_clean(cs.subrange(0, k)),
{
    assert forall|i: int| 0 <= i < k implies crate::paths::is_clean(#[trigger] cs.subrange(0, k)[i]) by {
        assert(cs.subrange(0, k)[i] == cs[i]);
    }
}

proof fn lemma_prefixes_of_prefix(cs: Seq<Seq<char>>, k: int, j: int)
    requires
        0 <= j <= k < cs.len(),
    ensures
        dir_prefixes(cs.subrange(0, k + 1))[j] == dir_prefixes(cs)[j],
{
    assert(cs.subrange(0, k + 1).subrange(0, j + 1) =~= cs.subrange(0, j + 1));
}

proof fn lemma_wf_empty()
    ensures
        tree_wf(Seq::<(Seq<char>, EntryKind)>::empty()),
{
    reveal(tree_wf);
}

/// Adding directories that are on the way to `cs` keeps a tree well formed.
proof fn lemma_wf_dirs(t: Seq<(Seq<char>, EntryKind)>, cs: Seq<Seq<char>>, c: Seq<Seq<char>>)
    requires
        tree_wf(t),
        crate::paths::all_clean(cs),
        !blocked(t, cs),
        c == dir_prefixes(cs).filter(absent_in(t)),
    ensures
        tree_wf(t + dir_entries(c)),
{
    reveal(tree_wf);
    let t2 = t + dir_entries(c);
    let ps = dir_prefixes(cs);
    assert forall|q: Seq<char>| lookup(t, q) == Some(EntryKind::Dir) implies lookup(t2, q) == Some(EntryKind::Dir) by {
        lemma_lookup_dirs(t, c, q);
    }
    // every directory on the way to `cs` is one in the new tree
    assert forall|j: int| 0 <= j < cs.len() implies lookup(t2, #[trigger] ps[j]) == Some(EntryKind::Dir) by {
        lemma_lookup_dirs(t, c, ps[j]);
        if lookup(t, ps[j]) is None {
            assert(absent_in(t)(ps[j]));
            ps.lemma_filter_contains(absent_in(t), j);
        } else {
            assert(lookup(t, ps[j]) == Some(EntryKind::Dir));
        }
    }
    assert forall|cs2: Seq<Seq<char>>| crate::paths::all_clean(cs2) && #[trigger] lookup(t2, join(cs2)) is Some
        implies ancestors_are_dirs(t2, cs2) by {
        lemma_lookup_dirs(t, c, join(cs2));
        if c.contains(join(cs2)) {
            ps.lemma_filter_contains_rev(absent_in(t), join(cs2));
            let k = choose|k: int| 0 <= k < ps.len() && ps[k] == join(cs2);
            lemma_prefix_clean(cs, k + 1);
            lemma_join_injective(cs2, cs.subrange(0, k + 1));
            assert forall|j: int| 0 <= j < cs2.len() - 1 implies lookup(t2, #[trigger] dir_prefixes(cs2)[j]) == Some(EntryKind::Dir) by {
                lemma_prefixes_of_prefix(cs, k, j);
                assert(lookup(t2, ps[j]) == Some(EntryKind::Dir));
            }
        } else {
            assert(lookup(t, join(cs2)) is Some);
            assert(ancestors_are_dirs(t, cs2));
            assert forall|j: int| 0 <= j < cs2.len() - 1 implies lookup(t2, #[trigger] dir_prefixes(cs2)[j]) == Some(EntryKind::Dir) by {
                assert(lookup(t, dir_prefixes(cs2)[j]) == Some(EntryKind::Dir));
            }
        }
    }
}

proof fn lemma_lookup_push(t: Seq<(Seq<char>, EntryKind)>, p: Seq<char>, kind: EntryKind, q: Seq<char>)
    ensures
        lookup(t.push((p, kind)), q) == if q == p { Some(kind) } else { lookup(t, q) },
{
    assert(t.push((p, kind)).drop_last() == t);
}

/// Adding an entry that passed `entry_check` keeps a tree well formed.
proof fn lemma_wf_entry(t: Seq<(Seq<char>, EntryKind)>, cs: Seq<Seq<char>>, kind: EntryKind)
    requires
        tree_wf(t),
        crate::paths::all_clean(cs),
        entry_check(t, cs) is None,
    ensures
        tree_wf(t.push((join(cs), kind))),
{
    reveal(tree_wf);
    let p = join(cs);
    let t2 = t.push((p, kind));
    assert forall|q: Seq<char>| lookup(t, q) is Some implies lookup(t2, q) == lookup(t, q) by {
        lemma_lookup_push(t, p, kind, q);
    }
    assert forall|cs2: Seq<Seq<char>>| crate::paths::all_clean(cs2) && #[trigger] lookup(t2, join(cs2)) is Some
        implies ancestors_are_dirs(t2, cs2) by {
        lemma_lookup_push(t, p, kind, join(cs2));
        if join(cs2) == p {
            lemma_join_injective(cs2, cs);
            if cs.len() > 1 {
                let par = cs.drop_last();
                lemma_prefix_clean(cs, cs.len() - 1);
                assert(par == cs.subrange(0, cs.len() - 1));
                assert(lookup(t, join(par)) == Some(EntryKind::Dir));
                assert(ancestors_are_dirs(t, par));
                assert forall|j: int| 0 <= j < cs.len() - 1 implies lookup(t2, #[trigger] dir_prefixes(cs)[j]) == Some(EntryKind::Dir) by {
                    if j == cs.len() - 2 {
                        assert(cs.subrange(0, j + 1) =~= par);
                    } else {
                        lemma_prefixes_of_prefix(cs, cs.len() - 2, j);
                        assert(dir_prefixes(par)[j] == dir_prefixes(cs)[j]);
                    }
                }
            }
        } else {
            assert(ancestors_are_dirs(t, cs2));
            assert forall|j: int| 0 <= j < cs2.len() - 1 implies lookup(t2, #[trigger] dir_prefixes(cs2)[j]) == Some(EntryKind::Dir) by {
                assert(lookup(t, dir_prefixes(cs2)[j]) == Some(EntryKind::Dir));
            }
        }
    }
}

/// In a well-formed tree, asking again for a directory that exists asks
/// for nothing.
proof fn lemma_mkdirp_existing(t: Seq<(Seq<char>, EntryKind)>, cs: Seq<Seq<char>>)
    requires
        tree_wf(t),
        crate::paths::all_clean(cs),
        cs.len() > 0,
        lookup(t, join(cs)) == Some(EntryKind::Dir),
    ensures
        !blocked(t, cs),
        dir_prefixes(cs).filter(absent_in(t)) == Seq::<Seq<char>>::empty(),
{
    reveal(tree_wf);
    let ps = dir_prefixes(cs);
    assert(ancestors_are_dirs(t, cs));
    assert forall|j: int| 0 <= j < cs.len() implies lookup(t, #[trigger] ps[j]) == Some(EntryKind::Dir) by {
        if j == cs.len() - 1 {
            assert(cs.subrange(0, j + 1) =~= cs);
        }
    }
    let f = ps.filter(absent_in(t));
    if f.len() > 0 {
        ps.lemma_filter_pred(absent_in(t), 0);
        ps.lemma_filter_contains_rev(absent_in(t), f[0]);
        let j = choose|j: int| 0 <= j < ps.len() && ps[j] == f[0];
        assert(lookup(t, ps[j]) == Some(EntryKind::Dir));
    }
    assert(f =~= Seq::<Seq<char>>::empty());
}

} // verus!
