//! Paths that the Java launcher searches: `~/`, `./` and `^/` stand for
//! the home, working and executable directories.

use vstd::prelude::*;

verus! {

/// `absolute` as a directory path: with a trailing `/`.
pub open spec fn dir_path_spec(absolute: Seq<char>) -> Seq<char> {
    if absolute.len() > 0 && absolute.last() == '/' { absolute } else { absolute.push('/') }
}

/// An absolute path as a directory path, ending in `/`.
pub fn path_to_dir_path_string(absolute: &str) -> (r: String)
    requires
        absolute@.len() > 0 && absolute@[0] == '/',
    ensures
        r@ == dir_path_spec(absolute@),
{
    let n = absolute.unicode_len();
    let owned = absolute.to_owned();
    if absolute.get_char(n - 1) == '/' {
        owned
    } else {
        proof { reveal_strlit("/"); }
        let r = owned.concat("/");
        assert(r@ =~= absolute@.push('/'));
        r
    }
}

/// Where the searched path `path` points: `~/`, `./` and `^/` followed by
/// the rest of the path within the home, working or executable directory
/// (each given with its trailing `/`), any other path as it is; none where
/// the directory it names is unknown.
pub open spec fn full_path_spec(path: Seq<char>, home: Option<Seq<char>>, working: Option<Seq<char>>, exe: Option<Seq<char>>) -> Option<Seq<char>> {
    if path[1] == '/' {
        let dir = if path[0] == '~' { home } else if path[0] == '.' { working } else { exe };
        match dir {
            Some(d) => Some(d + path.subrange(2, path.len() as int)),
            None => None,
        }
    } else {
        Some(path)
    }
}

pub open spec fn opt_view(o: Option<&str>) -> Option<Seq<char>> {
    match o {
        Some(s) => Some(s@),
        None => None,
    }
}

/// Expands the directory shorthand at the start of a searched path.
pub fn make_full_path(path: &str, home: Option<&str>, working: Option<&str>, exe: Option<&str>) -> (r: Option<String>)
    requires
        path@.len() >= 2,
        path@[1] == '/' ==> (path@[0] == '~' || path@[0] == '.' || path@[0] == '^'),
        path@[1] != '/' ==> path@[0] == '/',
    ensures
        r is None <==> full_path_spec(path@, opt_view(home), opt_view(working), opt_view(exe)) is None,
        r is Some ==> Some(r->0@) == full_path_spec(path@, opt_view(home), opt_view(working), opt_view(exe)),
{
    let n = path.unicode_len();
    if path.get_char(1) == '/' {
        let c = path.get_char(0);
        let dir = if c == '~' { home } else if c == '.' { working } else { exe };
        match dir {
            Some(d) => Some(d.to_owned().concat(path.substring_char(2, n))),
            None => None,
        }
    } else {
        Some(path.to_owned())
    }
}

} // verus!

verus! {

/// What the search hands each candidate Java home to; it answers `None`
/// once it has found what it needs and the search can stop.
pub trait JvmFilter {
    fn try_add(&mut self, path: String) -> Option<()>;
}

/// Offers the searched path `path`, with its directory shorthand expanded,
/// to `finder`, and answers what `finder` answered; where the shorthand's
/// directory is unknown nothing is offered and the answer is `None`, which
/// ends the search.
pub fn check<F: JvmFilter>(finder: &mut F, path: &str, home: Option<&str>, working: Option<&str>, exe: Option<&str>) -> (r: Option<()>)
    requires
        path@.len() >= 2,
        path@[1] == '/' ==> (path@[0] == '~' || path@[0] == '.' || path@[0] == '^'),
        path@[1] != '/' ==> path@[0] == '/',
    ensures
        full_path_spec(path@, opt_view(home), opt_view(working), opt_view(exe)) is None ==> r is None,
{
    match make_full_path(path, home, working, exe) {
        Some(full) => finder.try_add(full),
        None => None,
    }
}

} // verus!
