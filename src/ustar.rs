//! Hand-built ustar headers for the tar containers.

use vstd::prelude::*;
use crate::writer::{EntryKind, TreeError};

verus! {

pub open spec fn zeros(n: nat) -> Seq<u8> {
    Seq::new(n, |i: int| 0u8)
}

/// `s` filled up with zero bytes to `n` bytes.
pub open spec fn padded(s: Seq<u8>, n: nat) -> Seq<u8> {
    s + zeros((n - s.len()) as nat)
}

/// The `w` low octal digits of `n`, as ASCII.
pub open spec fn octal(n: nat, w: nat) -> Seq<u8>
    decreases w,
{
    if w == 0 {
        Seq::empty()
    } else {
        octal(n / 8, (w - 1) as nat).push((48 + n % 8) as u8)
    }
}

/// The `w` low bytes of `n`, most significant first.
pub open spec fn big_endian(n: nat, w: nat) -> Seq<u8>
    decreases w,
{
    if w == 0 {
        Seq::empty()
    } else {
        big_endian(n / 256, (w - 1) as nat).push((n % 256) as u8)
    }
}

/// A 12-byte numeric field: eleven octal digits and a space, or, for a
/// value too large for them, the base-256 form marked by the high bit.
pub open spec fn numeric_12(n: u64) -> Seq<u8> {
    if n < 0x2_0000_0000 {
        octal(n as nat, 11).push(32u8)
    } else {
        seq![0x80u8, 0u8, 0u8, 0u8] + big_endian(n as nat, 8)
    }
}

pub open spec fn byte_sum(s: Seq<u8>) -> nat
    decreases s.len(),
{
    if s.len() == 0 { 0 } else { byte_sum(s.drop_last()) + s.last() as nat }
}

/// Where a path goes in a header: its `name` field alone where it is
/// shorter than 100 bytes, else split at the last `/` among its first 155
/// bytes into `prefix` and `name`, the name part at most 100 bytes. A
/// directory's trailing `/` may be that split point, leaving `name` empty.
pub open spec fn split_at_slash(full: Seq<u8>, i: int) -> int
    decreases i,
{
    if i <= 0 {
        -1
    } else if full[i - 1] == 47u8 && i - 1 < 155 {
        i - 1
    } else {
        split_at_slash(full, i - 1)
    }
}

pub open spec fn stored_path(path: Seq<u8>, kind: EntryKind) -> Seq<u8> {
    if kind == EntryKind::Dir { path.push(47u8) } else { path }
}

/// The (prefix, name) pair of a path, or none where it does not fit.
pub open spec fn path_fields(path: Seq<u8>, kind: EntryKind) -> Option<(Seq<u8>, Seq<u8>)> {
    let full = stored_path(path, kind);
    if full.len() < 100 {
        Some((Seq::empty(), full))
    } else {
        let i = split_at_slash(full, full.len() as int);
        if i < 0 || full.len() - i - 1 > 100 {
            None
        } else {
            Some((full.subrange(0, i), full.subrange(i + 1, full.len() as int)))
        }
    }
}

pub open spec fn type_flag(kind: EntryKind) -> u8 {
    match kind {
        EntryKind::Dir => 53u8,
        EntryKind::File => 48u8,
        EntryKind::Symlink => 50u8,
    }
}

pub open spec fn mode_field(kind: EntryKind) -> Seq<u8> {
    if kind == EntryKind::Dir {
        seq![48u8, 48u8, 48u8, 55u8, 53u8, 53u8, 32u8, 0u8]
    } else {
        seq![48u8, 48u8, 48u8, 54u8, 52u8, 52u8, 32u8, 0u8]
    }
}

pub open spec fn zero_field() -> Seq<u8> {
    seq![48u8, 48u8, 48u8, 48u8, 48u8, 48u8, 32u8, 0u8]
}

pub open spec fn root_name() -> Seq<u8> {
    seq![114u8, 111u8, 111u8, 116u8]
}

/// The header fields before the checksum.
pub open spec fn head_fields(name: Seq<u8>, kind: EntryKind, size: u64, mtime: u64) -> Seq<u8> {
    padded(name, 100) + mode_field(kind) + zero_field() + zero_field() + numeric_12(size) + numeric_12(mtime)
}

/// The header fields after the checksum.
pub open spec fn tail_fields(prefix: Seq<u8>, link: Seq<u8>, kind: EntryKind) -> Seq<u8> {
    seq![type_flag(kind)]
        + padded(if kind == EntryKind::Symlink { link } else { Seq::empty() }, 100)
        + seq![117u8, 115u8, 116u8, 97u8, 114u8, 0u8, 48u8, 48u8]
        + padded(root_name(), 32) + padded(root_name(), 32)
        + zero_field() + zero_field()
        + padded(prefix, 155) + zeros(12)
}

/// The ustar header of an entry: `path` (a directory's with a trailing
/// `/`), mode 0755 for directories and 0644 otherwise, owner and group
/// `root` with id zero, the link target for a symlink, and the checksum of
/// the header taken with its own field as spaces.
pub open spec fn ustar_header_spec(path: Seq<u8>, link: Seq<u8>, kind: EntryKind, size: u64, mtime: u64) -> Result<Seq<u8>, TreeError> {
    match path_fields(path, kind) {
        None => Err(TreeError::PathTooLong),
        Some((prefix, name)) => if kind == EntryKind::Symlink && link.len() > 100 {
            Err(TreeError::PathTooLong)
        } else {
            let head = head_fields(name, kind, size, mtime);
            let tail = tail_fields(prefix, link, kind);
            let sum = byte_sum(head) + 8 * 32 + byte_sum(tail);
            Ok(head + octal(sum, 6) + seq![32u8, 0u8] + tail)
        },
    }
}

} // verus!

verus! {

fn push_bytes(v: &mut Vec<u8>, s: &[u8])
    ensures
        final(v)@ == old(v)@ + s@,
{
    let mut i: usize = 0;
    while i < s.len()
        invariant
            i <= s.len(),
            v@ == old(v)@ + s@.subrange(0, i as int),
        decreases s.len() - i,
    {
        v.push(s[i]);
        assert(v@ =~= old(v)@ + s@.subrange(0, i as int + 1));
        i = i + 1;
    }
    assert(s@.subrange(0, s.len() as int) == s@);
}

fn push_zeros(v: &mut Vec<u8>, n: usize)
    ensures
        final(v)@ == old(v)@ + zeros(n as nat),
{
    let mut i: usize = 0;
    while i < n
        invariant
            i <= n,
            v@ == old(v)@ + zeros(i as nat),
        decreases n - i,
    {
        v.push(0u8);
        assert(v@ =~= old(v)@ + zeros(i as nat + 1));
        i = i + 1;
    }
}

fn push_padded(v: &mut Vec<u8>, s: &[u8], n: usize)
    requires
        s@.len() <= n,
    ensures
        final(v)@ == old(v)@ + padded(s@, n as nat),
{
    push_bytes(v, s);
    push_zeros(v, n - s.len());
    assert(v@ =~= old(v)@ + padded(s@, n as nat));
}

fn push_octal(v: &mut Vec<u8>, n: u64, w: usize)
    ensures
        final(v)@ == old(v)@ + octal(n as nat, w as nat),
    decreases w,
{
    if w > 0 {
        push_octal(v, n / 8, w - 1);
        let ghost mid = v@;
        v.push((48 + n % 8) as u8);
        assert(v@ =~= old(v)@ + octal(n as nat, w as nat));
    } else {
        assert(v@ =~= old(v)@ + octal(n as nat, w as nat));
    }
}

fn push_big_endian(v: &mut Vec<u8>, n: u64, w: usize)
    ensures
        final(v)@ == old(v)@ + big_endian(n as nat, w as nat),
    decreases w,
{
    if w > 0 {
        push_big_endian(v, n / 256, w - 1);
        v.push((n % 256) as u8);
        assert(v@ =~= old(v)@ + big_endian(n as nat, w as nat));
    } else {
        assert(v@ =~= old(v)@ + big_endian(n as nat, w as nat));
    }
}

fn push_numeric_12(v: &mut Vec<u8>, n: u64)
    ensures
        final(v)@ == old(v)@ + numeric_12(n),
{
    if n < 0x2_0000_0000 {
        push_octal(v, n, 11);
        v.push(32u8);
        assert(v@ =~= old(v)@ + numeric_12(n));
    } else {
        v.push(0x80u8);
        v.push(0u8);
        v.push(0u8);
        v.push(0u8);
        push_big_endian(v, n, 8);
        assert(v@ =~= old(v)@ + numeric_12(n));
    }
}

fn push_zero_field(v: &mut Vec<u8>)
    ensures
        final(v)@ == old(v)@ + zero_field(),
{
    let mut i: usize = 0;
    while i < 6
        invariant
            i <= 6,
            v@ == old(v)@ + Seq::new(i as nat, |k: int| 48u8),
        decreases 6 - i,
    {
        v.push(48u8);
        assert(v@ =~= old(v)@ + Seq::new(i as nat + 1, |k: int| 48u8));
        i = i + 1;
    }
    v.push(32u8);
    v.push(0u8);
    assert(v@ =~= old(v)@ + zero_field());
}

fn push_root(v: &mut Vec<u8>)
    ensures
        final(v)@ == old(v)@ + padded(root_name(), 32),
{
    v.push(114u8);
    v.push(111u8);
    v.push(111u8);
    v.push(116u8);
    push_zeros(v, 28);
    assert(v@ =~= old(v)@ + padded(root_name(), 32));
}

fn sum_bytes(s: &Vec<u8>) -> (r: u32)
    requires
        s@.len() <= 512,
    ensures
        r as nat == byte_sum(s@),
        r <= 255 * 512,
{
    let mut total: u32 = 0;
    let mut i: usize = 0;
    while i < s.len()
        invariant
            i <= s.len(),
            s@.len() <= 512,
            total as nat == byte_sum(s@.subrange(0, i as int)),
            total <= 255 * i,
        decreases s.len() - i,
    {
        let ghost sub = s@.subrange(0, i as int + 1);
        assert(sub.drop_last() == s@.subrange(0, i as int));
        total = total + s[i] as u32;
        i = i + 1;
    }
    assert(s@.subrange(0, s.len() as int) == s@);
    total
}

fn find_split(full: &Vec<u8>) -> (r: Option<usize>)
    ensures
        r is None <==> split_at_slash(full@, full@.len() as int) < 0,
        r is Some ==> r->0 == split_at_slash(full@, full@.len() as int),
{
    let n = full.len();
    let mut i: usize = n;
    while i > 0 && !(full[i - 1] == 47u8 && i - 1 < 155)
        invariant
            i <= n,
            n == full@.len(),
            split_at_slash(full@, i as int) == split_at_slash(full@, n as int),
        decreases i,
    {
        i = i - 1;
    }
    if i == 0 { None } else { Some(i - 1) }
}

proof fn lemma_split_range(full: Seq<u8>, i: int)
    ensures
        split_at_slash(full, i) == -1 || (0 <= split_at_slash(full, i) < i && split_at_slash(full, i) < 155),
    decreases i,
{
    if i > 0 {
        lemma_split_range(full, i - 1);
    }
}

proof fn lemma_octal_len(n: nat, w: nat)
    ensures
        octal(n, w).len() == w,
    decreases w,
{
    if w > 0 {
        lemma_octal_len(n / 8, (w - 1) as nat);
    }
}

proof fn lemma_big_endian_len(n: nat, w: nat)
    ensures
        big_endian(n, w).len() == w,
    decreases w,
{
    if w > 0 {
        lemma_big_endian_len(n / 256, (w - 1) as nat);
    }
}

fn split_path(path: &[u8], kind: EntryKind) -> (r: Option<(Vec<u8>, Vec<u8>)>)
    ensures
        match r {
            Some((p, n)) => path_fields(path@, kind) == Some((p@, n@)) && p@.len() <= 155 && n@.len() <= 100,
            None => path_fields(path@, kind) is None,
        },
{
    let mut full: Vec<u8> = Vec::new();
    push_bytes(&mut full, path);
    if kind == EntryKind::Dir {
        full.push(47u8);
    }
    assert(full@ =~= stored_path(path@, kind));
    if full.len() < 100 {
        return Some((Vec::new(), full));
    }
    proof { lemma_split_range(full@, full@.len() as int); }
    let i = match find_split(&full) {
        Some(i) => i,
        None => return None,
    };
    if full.len() - i - 1 > 100 {
        return None;
    }
    let mut prefix: Vec<u8> = Vec::new();
    let mut name: Vec<u8> = Vec::new();
    let mut k: usize = 0;
    while k < full.len()
        invariant
            k <= full.len(),
            i < full.len(),
            prefix@ == full@.subrange(0, if k < i { k as int } else { i as int }),
            name@ == (if k <= i + 1 { Seq::<u8>::empty() } else { full@.subrange(i + 1, k as int) }),
        decreases full.len() - k,
    {
        if k < i {
            prefix.push(full[k]);
            assert(prefix@ =~= full@.subrange(0, k as int + 1));
        } else if k > i {
            name.push(full[k]);
            assert(name@ =~= full@.subrange(i + 1, k as int + 1));
        }
        k = k + 1;
    }
    assert(name@ =~= full@.subrange(i + 1, full.len() as int));
    Some((prefix, name))
}

fn build_head(name: &Vec<u8>, kind: EntryKind, size: u64, mtime: u64) -> (r: Vec<u8>)
    requires
        name@.len() <= 100,
    ensures
        r@ == head_fields(name@, kind, size, mtime),
        r@.len() == 148,
{
    let mut head: Vec<u8> = Vec::new();
    push_padded(&mut head, name.as_slice(), 100);
    if kind == EntryKind::Dir {
        push_octal(&mut head, 0o755, 6);
    } else {
        push_octal(&mut head, 0o644, 6);
    }
    head.push(32u8);
    head.push(0u8);
    proof {
        reveal_with_fuel(octal, 7);
        assert(octal(0o755nat, 6).push(32u8).push(0u8) =~= mode_field(EntryKind::Dir));
        assert(octal(0o644nat, 6).push(32u8).push(0u8) =~= mode_field(EntryKind::File));
    }
    push_zero_field(&mut head);
    push_zero_field(&mut head);
    push_numeric_12(&mut head, size);
    push_numeric_12(&mut head, mtime);
    proof {
        lemma_octal_len(size as nat, 11);
        lemma_octal_len(mtime as nat, 11);
        lemma_big_endian_len(size as nat, 8);
        lemma_big_endian_len(mtime as nat, 8);
    }
    assert(head@ =~= head_fields(name@, kind, size, mtime));
    head
}

fn build_tail(prefix: &Vec<u8>, link: &[u8], kind: EntryKind) -> (r: Vec<u8>)
    requires
        prefix@.len() <= 155,
        kind == EntryKind::Symlink ==> link@.len() <= 100,
    ensures
        r@ == tail_fields(prefix@, link@, kind),
        r@.len() == 356,
{
    let mut tail: Vec<u8> = Vec::new();
    tail.push(match kind {
        EntryKind::Dir => 53u8,
        EntryKind::File => 48u8,
        EntryKind::Symlink => 50u8,
    });
    if kind == EntryKind::Symlink {
        push_padded(&mut tail, link, 100);
    } else {
        push_zeros(&mut tail, 100);
        assert(padded(Seq::<u8>::empty(), 100) =~= zeros(100));
    }
    tail.push(117u8);
    tail.push(115u8);
    tail.push(116u8);
    tail.push(97u8);
    tail.push(114u8);
    tail.push(0u8);
    tail.push(48u8);
    tail.push(48u8);
    push_root(&mut tail);
    push_root(&mut tail);
    push_zero_field(&mut tail);
    push_zero_field(&mut tail);
    push_padded(&mut tail, prefix.as_slice(), 155);
    push_zeros(&mut tail, 12);
    assert(tail@ =~= tail_fields(prefix@, link@, kind));
    tail
}

/// Builds the 512-byte ustar header of an entry; `mtime` is the
/// modification time in seconds since the Unix epoch.
pub fn ustar_header(path: &[u8], link: &[u8], kind: EntryKind, size: u64, mtime: u64) -> (r: Result<Vec<u8>, TreeError>)
    ensures
        match r {
            Ok(h) => ustar_header_spec(path@, link@, kind, size, mtime) == Ok::<Seq<u8>, TreeError>(h@) && h@.len() == 512,
            Err(e) => ustar_header_spec(path@, link@, kind, size, mtime) == Err::<Seq<u8>, TreeError>(e),
        },
{
    let (prefix, name) = match split_path(path, kind) {
        Some(pn) => pn,
        None => return Err(TreeError::PathTooLong),
    };
    if kind == EntryKind::Symlink && link.len() > 100 {
        return Err(TreeError::PathTooLong);
    }
    let head = build_head(&name, kind, size, mtime);
    let mut tail = build_tail(&prefix, link, kind);
    let sum = sum_bytes(&head) + 256 + sum_bytes(&tail);
    let ghost hv = head@;
    let ghost tv = tail@;
    let mut out = head;
    push_octal(&mut out, sum as u64, 6);
    out.push(32u8);
    out.push(0u8);
    out.append(&mut tail);
    proof { lemma_octal_len(sum as nat, 6); }
    assert(sum as nat == byte_sum(hv) + 8 * 32 + byte_sum(tv));
    assert(out@ =~= hv + octal(sum as nat, 6) + seq![32u8, 0u8] + tv);
    Ok(out)
}

} // verus!

verus! {

proof fn lemma_no_slash_no_split(full: Seq<u8>, i: int)
    requires
        i <= full.len(),
        !full.contains(47u8),
    ensures
        split_at_slash(full, i) == -1,
    decreases i,
{
    if i > 0 {
        assert(full[i - 1] != 47u8) by {
            if full[i - 1] == 47u8 { assert(full.contains(47u8)); }
        }
        lemma_no_slash_no_split(full, i - 1);
    }
}

/// The `name` field holds under 100 bytes: a file path of exactly 100
/// bytes without a `/` has no header, and one shorter than 100 bytes
/// always has one.
pub proof fn ustar_name_field_limit(path: Seq<u8>, link: Seq<u8>, size: u64, mtime: u64)
    ensures
        path.len() == 100 && !path.contains(47u8) ==>
            ustar_header_spec(path, link, EntryKind::File, size, mtime) == Err::<Seq<u8>, TreeError>(TreeError::PathTooLong),
        path.len() < 100 ==> ustar_header_spec(path, link, EntryKind::File, size, mtime) is Ok,
{
    if path.len() == 100 && !path.contains(47u8) {
        lemma_no_slash_no_split(path, 100);
    }
}

} // verus!
