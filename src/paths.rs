//! Container-relative paths: splitting into components and normalizing
//! without touching any file system.

use vstd::prelude::*;

verus! {

/// The `/`-separated segments of `s`, empty ones included.
pub open spec fn segments(s: Seq<char>) -> Seq<Seq<char>>
    decreases s.len(),
{
    if s.len() == 0 {
        seq![Seq::empty()]
    } else {
        let p = segments(s.drop_last());
        if s.last() == '/' {
            p.push(Seq::empty())
        } else {
            p.update(p.len() - 1, p.last().push(s.last()))
        }
    }
}

pub open spec fn nonempty() -> spec_fn(Seq<char>) -> bool {
    |c: Seq<char>| c.len() > 0
}

/// The components of a path: its non-empty segments.
pub open spec fn components(s: Seq<char>) -> Seq<Seq<char>> {
    segments(s).filter(nonempty())
}

pub open spec fn cur_dir() -> Seq<char> {
    seq!['.']
}

pub open spec fn parent_dir() -> Seq<char> {
    seq!['.', '.']
}

/// Resolves `.` and `..` in a component list; a `..` with nothing left to
/// remove is dropped.
pub open spec fn resolve_dots(cs: Seq<Seq<char>>) -> Seq<Seq<char>>
    decreases cs.len(),
{
    if cs.len() == 0 {
        Seq::empty()
    } else {
        let n = resolve_dots(cs.drop_last());
        let c = cs.last();
        if c == cur_dir() {
            n
        } else if c == parent_dir() {
            if n.len() > 0 { n.drop_last() } else { n }
        } else {
            n.push(c)
        }
    }
}

/// Components joined by `/`.
pub open spec fn join(cs: Seq<Seq<char>>) -> Seq<char>
    decreases cs.len(),
{
    if cs.len() == 0 {
        Seq::empty()
    } else if cs.len() == 1 {
        cs[0]
    } else {
        join(cs.drop_last()) + seq!['/'] + cs.last()
    }
}

/// The normal form of a path: its components with `.` and `..` resolved,
/// joined by `/`, with no leading or trailing `/`.
pub open spec fn normal_form(s: Seq<char>) -> Seq<char> {
    join(resolve_dots(components(s)))
}

/// A component of a normalized path.
pub open spec fn is_clean(c: Seq<char>) -> bool {
    c.len() > 0 && !c.contains('/') && c != cur_dir() && c != parent_dir()
}

pub open spec fn all_clean(cs: Seq<Seq<char>>) -> bool {
    forall|i: int| 0 <= i < cs.len() ==> is_clean(#[trigger] cs[i])
}

fn is_cur_dir(seg: &str) -> (r: bool)
    ensures
        r == (seg@ == cur_dir()),
{
    let n = seg.unicode_len();
    if n != 1 {
        return false;
    }
    let r = seg.get_char(0) == '.';
    proof {
        if r {
            assert(seg@ =~= cur_dir());
        }
    }
    r
}

fn is_parent_dir(seg: &str) -> (r: bool)
    ensures
        r == (seg@ == parent_dir()),
{
    let n = seg.unicode_len();
    if n != 2 {
        return false;
    }
    let r = seg.get_char(0) == '.' && seg.get_char(1) == '.';
    proof {
        if r {
            assert(seg@ =~= parent_dir());
        }
    }
    r
}

pub open spec fn string_views(v: Seq<String>) -> Seq<Seq<char>> {
    v.map_values(|x: String| x@)
}

proof fn lemma_filter_push<A>(s: Seq<A>, x: A, p: spec_fn(A) -> bool)
    ensures
        s.push(x).filter(p) == (if p(x) { s.filter(p).push(x) } else { s.filter(p) }),
{
    reveal(Seq::filter);
    assert(s.push(x).drop_last() == s);
}

proof fn lemma_resolve_push(cs: Seq<Seq<char>>, c: Seq<char>)
    ensures
        resolve_dots(cs.push(c)) == (if c == cur_dir() {
            resolve_dots(cs)
        } else if c == parent_dir() {
            if resolve_dots(cs).len() > 0 { resolve_dots(cs).drop_last() } else { resolve_dots(cs) }
        } else {
            resolve_dots(cs).push(c)
        }),
{
    assert(cs.push(c).drop_last() == cs);
}

/// Adds one path segment to a resolved component stack.
fn push_segment(stack: &mut Vec<String>, seg: &str)
    ensures
        string_views(final(stack)@) == (if seg@.len() == 0 || seg@ == cur_dir() {
            string_views(old(stack)@)
        } else if seg@ == parent_dir() {
            if old(stack)@.len() > 0 { string_views(old(stack)@).drop_last() } else { string_views(old(stack)@) }
        } else {
            string_views(old(stack)@).push(seg@)
        }),
{
    if seg.unicode_len() == 0 || is_cur_dir(seg) {
    } else if is_parent_dir(seg) {
        if stack.len() > 0 {
            stack.pop();
            assert(string_views(stack@) =~= string_views(old(stack)@).drop_last());
        }
    } else {
        stack.push(seg.to_owned());
        assert(string_views(stack@) =~= string_views(old(stack)@).push(seg@));
    }
}

/// The resolved components of `path`.
pub fn normalized_components(path: &str) -> (r: Vec<String>)
    ensures
        string_views(r@) == resolve_dots(components(path@)),
{
    let n = path.unicode_len();
    let mut stack: Vec<String> = Vec::new();
    let mut start: usize = 0;
    let mut i: usize = 0;
    let ghost mut done: Seq<Seq<char>> = Seq::empty();
    assert(path@.subrange(0, 0) =~= Seq::<char>::empty());
    assert(path@.subrange(0, 0) == path@.subrange(0, 0));
    while i < n
        invariant
            n == path@.len(),
            start <= i <= n,
            segments(path@.subrange(0, i as int)) == done.push(path@.subrange(start as int, i as int)),
            string_views(stack@) == resolve_dots(done.filter(nonempty())),
        decreases n - i,
    {
        let c = path.get_char(i);
        let ghost pre = path@.subrange(0, i as int + 1);
        assert(pre.drop_last() == path@.subrange(0, i as int));
        assert(pre.last() == c);
        if c == '/' {
            let seg = path.substring_char(start, i);
            proof {
                lemma_filter_push(done, seg@, nonempty());
                if seg@.len() > 0 {
                    lemma_resolve_push(done.filter(nonempty()), seg@);
                }
            }
            push_segment(&mut stack, seg);
            proof {
                done = done.push(seg@);
                assert(path@.subrange(i as int + 1, i as int + 1) =~= Seq::<char>::empty());
            }
            start = i + 1;
        } else {
            proof {
                let p = segments(path@.subrange(0, i as int));
                assert(p.last() == path@.subrange(start as int, i as int));
                assert(path@.subrange(start as int, i as int + 1) =~= path@.subrange(start as int, i as int).push(c));
                assert(p.update(p.len() - 1, p.last().push(c)) =~= done.push(path@.subrange(start as int, i as int + 1)));
            }
        }
        i = i + 1;
    }
    let seg = path.substring_char(start, n);
    proof {
        lemma_filter_push(done, seg@, nonempty());
        if seg@.len() > 0 {
            lemma_resolve_push(done.filter(nonempty()), seg@);
        }
        assert(path@.subrange(0, n as int) == path@);
    }
    push_segment(&mut stack, seg);
    stack
}

/// Joins components with `/`.
pub fn join_components(cs: &Vec<String>) -> (r: String)
    ensures
        r@ == join(string_views(cs@)),
{
    let ghost all = string_views(cs@);
    if cs.len() == 0 {
        return String::new();
    }
    let mut r = cs[0].clone();
    assert(all.subrange(0, 1).drop_last().len() == 0);
    let mut i: usize = 1;
    while i < cs.len()
        invariant
            1 <= i <= cs.len(),
            all == string_views(cs@),
            r@ == join(all.subrange(0, i as int)),
        decreases cs.len() - i,
    {
        r = r.concat("/");
        r = r.concat(cs[i].as_str());
        proof {
            reveal_strlit("/");
            let sub = all.subrange(0, i as int + 1);
            assert(sub.drop_last() == all.subrange(0, i as int));
            assert(sub.last() == cs@[i as int]@);
            assert(r@ =~= join(sub));
        }
        i = i + 1;
    }
    assert(all.subrange(0, cs.len() as int) == all);
    r
}

/// Normalizes a container path: `.` components are dropped, `..` removes
/// the component before it and is dropped where there is none, and empty
/// components vanish. The result never leaves the container's root.
pub fn safe_normalize(path: &str) -> (r: String)
    ensures
        r@ == normal_form(path@),
{
    let cs = normalized_components(path);
    join_components(&cs)
}

} // verus!

verus! {

proof fn lemma_segments_nonempty(s: Seq<char>)
    ensures
        segments(s).len() >= 1,
    decreases s.len(),
{
    if s.len() > 0 {
        lemma_segments_nonempty(s.drop_last());
    }
}

proof fn lemma_segments_no_slash(s: Seq<char>)
    ensures
        forall|i: int| 0 <= i < segments(s).len() ==> !(#[trigger] segments(s)[i]).contains('/'),
        !s.contains('/') ==> segments(s) == seq![s],
    decreases s.len(),
{
    if s.len() > 0 {
        let q = s.drop_last();
        lemma_segments_no_slash(q);
        lemma_segments_nonempty(q);
        let p = segments(q);
        if s.last() != '/' {
            assert forall|i: int| 0 <= i < segments(s).len() implies !(#[trigger] segments(s)[i]).contains('/') by {
                if i == p.len() - 1 {
                    if p.last().push(s.last()).contains('/') {
                        let k = choose|k: int| 0 <= k < p.last().push(s.last()).len() && p.last().push(s.last())[k] == '/';
                        assert(p.last()[k] == '/');
                        assert(p[p.len() - 1].contains('/'));
                    }
                } else {
                    assert(segments(s)[i] == p[i]);
                }
            }
            if !s.contains('/') {
                assert(!q.contains('/')) by {
                    if q.contains('/') {
                        let k = choose|k: int| 0 <= k < q.len() && q[k] == '/';
                        assert(s[k] == '/');
                    }
                }
                assert(q.push(s.last()) =~= s);
                assert(segments(s) =~= seq![s]);
            }
        } else {
            assert(s[s.len() - 1] == '/');
            assert forall|i: int| 0 <= i < segments(s).len() implies !(#[trigger] segments(s)[i]).contains('/') by {
                if i < p.len() {
                    assert(segments(s)[i] == p[i]);
                }
            }
        }
    } else {
        assert(s =~= Seq::<char>::empty());
    }
}

proof fn lemma_segments_concat(x: Seq<char>, y: Seq<char>)
    ensures
        segments(x.push('/') + y) == segments(x) + segments(y),
    decreases y.len(),
{
    if y.len() == 0 {
        assert(x.push('/') + y =~= x.push('/'));
        assert(x.push('/').drop_last() =~= x);
        assert(segments(x).push(Seq::empty()) =~= segments(x) + seq![Seq::<char>::empty()]);
    } else {
        let z = x.push('/') + y;
        let yq = y.drop_last();
        assert(z.drop_last() =~= x.push('/') + yq);
        assert(z.last() == y.last());
        lemma_segments_concat(x, yq);
        lemma_segments_nonempty(yq);
        let p = segments(x) + segments(yq);
        if y.last() == '/' {
            assert(p.push(Seq::empty()) =~= segments(x) + segments(yq).push(Seq::empty()));
        } else {
            let q = segments(yq);
            assert(p.update(p.len() - 1, p.last().push(y.last())) =~= segments(x) + q.update(q.len() - 1, q.last().push(y.last())));
        }
    }
}

pub(crate) proof fn lemma_segments_join(cs: Seq<Seq<char>>)
    requires
        cs.len() > 0,
        forall|i: int| 0 <= i < cs.len() ==> !(#[trigger] cs[i]).contains('/'),
    ensures
        segments(join(cs)) == cs,
    decreases cs.len(),
{
    if cs.len() == 1 {
        lemma_segments_no_slash(cs[0]);
        assert(cs =~= seq![cs[0]]);
    } else {
        let q = cs.drop_last();
        lemma_segments_join(q);
        lemma_segments_concat(join(q), cs.last());
        lemma_segments_no_slash(cs.last());
        assert(join(q).push('/') + cs.last() =~= join(q) + seq!['/'] + cs.last());
        assert(q + seq![cs.last()] =~= cs);
    }
}

proof fn lemma_filter_keeps_all<A>(s: Seq<A>, p: spec_fn(A) -> bool)
    requires
        forall|i: int| 0 <= i < s.len() ==> p(#[trigger] s[i]),
    ensures
        s.filter(p) == s,
    decreases s.len(),
{
    reveal(Seq::filter);
    if s.len() > 0 {
        lemma_filter_keeps_all(s.drop_last(), p);
        assert(s.drop_last().push(s.last()) =~= s);
    }
}

proof fn lemma_resolve_keeps_clean(cs: Seq<Seq<char>>)
    requires
        all_clean(cs),
    ensures
        resolve_dots(cs) == cs,
    decreases cs.len(),
{
    if cs.len() > 0 {
        assert(is_clean(cs[cs.len() - 1]));
        lemma_resolve_keeps_clean(cs.drop_last());
        assert(cs.drop_last().push(cs.last()) =~= cs);
    }
}

pub(crate) proof fn lemma_resolve_is_clean(cs: Seq<Seq<char>>)
    requires
        forall|i: int| 0 <= i < cs.len() ==> (#[trigger] cs[i]).len() > 0 && !cs[i].contains('/'),
    ensures
        all_clean(resolve_dots(cs)),
    decreases cs.len(),
{
    if cs.len() > 0 {
        let q = cs.drop_last();
        assert(cs[cs.len() - 1] == cs.last());
        lemma_resolve_is_clean(q);
    }
}

pub(crate) proof fn lemma_components_shape(s: Seq<char>)
    ensures
        forall|i: int| 0 <= i < components(s).len() ==> (#[trigger] components(s)[i]).len() > 0 && !components(s)[i].contains('/'),
{
    lemma_segments_no_slash(s);
    assert forall|i: int| 0 <= i < components(s).len() implies (#[trigger] components(s)[i]).len() > 0 && !components(s)[i].contains('/') by {
        segments(s).lemma_filter_pred(nonempty(), i);
        segments(s).lemma_filter_contains_rev(nonempty(), components(s)[i]);
        let k = choose|k: int| 0 <= k < segments(s).len() && segments(s)[k] == components(s)[i];
        assert(!segments(s)[k].contains('/'));
    }
}

/// Normalizing is idempotent: a normalized path is its own normal form.
pub proof fn normalize_is_idempotent(s: Seq<char>)
    ensures
        normal_form(normal_form(s)) == normal_form(s),
{
    let cs = resolve_dots(components(s));
    lemma_components_shape(s);
    lemma_resolve_is_clean(components(s));
    if cs.len() == 0 {
        reveal(Seq::filter);
        let e = Seq::<char>::empty();
        assert(segments(e) == seq![e]);
        assert(seq![e].drop_last() =~= Seq::<Seq<char>>::empty());
        assert(!nonempty()(e));
        assert(seq![e].drop_last().filter(nonempty()) =~= Seq::<Seq<char>>::empty());
        assert(seq![e].last() == e);
        assert(components(e) =~= Seq::<Seq<char>>::empty());
    } else {
        assert forall|i: int| 0 <= i < cs.len() implies !(#[trigger] cs[i]).contains('/') by {
            assert(is_clean(cs[i]));
        }
        lemma_segments_join(cs);
        assert forall|i: int| 0 <= i < cs.len() implies nonempty()(#[trigger] cs[i]) by {
            assert(is_clean(cs[i]));
        }
        lemma_filter_keeps_all(cs, nonempty());
        lemma_resolve_keeps_clean(cs);
    }
}

} // verus!

verus! {

/// The components of `path`, with `.` and `..` left as they are.
pub fn split_components(path: &str) -> (r: Vec<String>)
    ensures
        string_views(r@) == components(path@),
{
    let n = path.unicode_len();
    let mut out: Vec<String> = Vec::new();
    let mut start: usize = 0;
    let mut i: usize = 0;
    let ghost mut done: Seq<Seq<char>> = Seq::empty();
    assert(path@.subrange(0, 0) =~= Seq::<char>::empty());
    while i < n
        invariant
            n == path@.len(),
            start <= i <= n,
            segments(path@.subrange(0, i as int)) == done.push(path@.subrange(start as int, i as int)),
            string_views(out@) == done.filter(nonempty()),
        decreases n - i,
    {
        let c = path.get_char(i);
        let ghost pre = path@.subrange(0, i as int + 1);
        assert(pre.drop_last() == path@.subrange(0, i as int));
        assert(pre.last() == c);
        if c == '/' {
            let seg = path.substring_char(start, i);
            proof { lemma_filter_push(done, seg@, nonempty()); }
            if seg.unicode_len() > 0 {
                let ghost before = out@;
                out.push(seg.to_owned());
                assert(string_views(out@) =~= string_views(before).push(seg@));
            }
            proof {
                done = done.push(seg@);
                assert(path@.subrange(i as int + 1, i as int + 1) =~= Seq::<char>::empty());
            }
            start = i + 1;
        } else {
            proof {
                let p = segments(path@.subrange(0, i as int));
                assert(p.last() == path@.subrange(start as int, i as int));
                assert(path@.subrange(start as int, i as int + 1) =~= path@.subrange(start as int, i as int).push(c));
                assert(p.update(p.len() - 1, p.last().push(c)) =~= done.push(path@.subrange(start as int, i as int + 1)));
            }
        }
        i = i + 1;
    }
    let seg = path.substring_char(start, n);
    proof {
        lemma_filter_push(done, seg@, nonempty());
        assert(path@.subrange(0, n as int) == path@);
    }
    if seg.unicode_len() > 0 {
        let ghost before = out@;
        out.push(seg.to_owned());
        assert(string_views(out@) =~= string_views(before).push(seg@));
    }
    out
}

/// Resolves `.` and `..` in a list of components.
pub fn resolve_components(cs: &Vec<String>) -> (r: Vec<String>)
    ensures
        string_views(r@) == resolve_dots(string_views(cs@)),
{
    let ghost all = string_views(cs@);
    let mut stack: Vec<String> = Vec::new();
    let mut i: usize = 0;
    assert(all.subrange(0, 0) =~= Seq::<Seq<char>>::empty());
    assert(string_views(stack@) =~= Seq::<Seq<char>>::empty());
    while i < cs.len()
        invariant
            i <= cs.len(),
            all == string_views(cs@),
            string_views(stack@) == resolve_dots(all.subrange(0, i as int)),
        decreases cs.len() - i,
    {
        let ghost sub = all.subrange(0, i as int + 1);
        assert(sub == all.subrange(0, i as int).push(cs@[i as int]@));
        proof { lemma_resolve_push(all.subrange(0, i as int), cs@[i as int]@); }
        let seg = cs[i].as_str();
        if seg.unicode_len() == 0 {
            // components are never empty; an empty one is kept as it is
            let ghost before = stack@;
            stack.push(seg.to_owned());
            assert(seg@ != cur_dir() && seg@ != parent_dir());
            assert(string_views(stack@) =~= string_views(before).push(seg@));
        } else {
            push_segment(&mut stack, seg);
        }
        i = i + 1;
    }
    assert(all.subrange(0, cs.len() as int) == all);
    stack
}

} // verus!

verus! {

/// All components but the last.
pub open spec fn parent_components(cs: Seq<Seq<char>>) -> Seq<Seq<char>> {
    if cs.len() == 0 { cs } else { cs.drop_last() }
}

/// The normalized directory that holds `path`: its normal form without
/// the last component.
pub fn parent_path(path: &str) -> (r: String)
    ensures
        r@ == join(parent_components(resolve_dots(components(path@)))),
{
    let cs = normalized_components(path);
    let mut parent: Vec<String> = Vec::new();
    let ghost csv = string_views(cs@);
    let mut i: usize = 0;
    while i + 1 < cs.len()
        invariant
            i + 1 <= cs.len() || cs.len() == 0,
            i <= cs.len(),
            csv == string_views(cs@),
            string_views(parent@) == csv.subrange(0, i as int),
        decreases cs.len() - i,
    {
        let ghost before = parent@;
        parent.push(cs[i].clone());
        assert(string_views(parent@) =~= string_views(before).push(cs@[i as int]@));
        assert(string_views(parent@) =~= csv.subrange(0, i as int + 1));
        i = i + 1;
    }
    if cs.len() == 0 {
        assert(string_views(parent@) =~= Seq::<Seq<char>>::empty());
    } else {
        assert(csv.subrange(0, cs.len() - 1) == csv.drop_last());
    }
    join_components(&parent)
}

} // verus!
