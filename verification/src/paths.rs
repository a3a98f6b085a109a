//! Unix paths held as strings. Splitting a path into components and taking its
//! parent are std's (`Path::components`, `Path::parent`) and are named here; the
//! operations std documents in a few lines (joining, prefix tests, equality) are
//! written out over the components.
use crate::glob::strings_view;
use crate::strs::{last_index_of, starts_with, vec_eq};
use crate::chars::to_chars;
use crate::context::opt_string_view;
use vstd::prelude::*;

verus! {

/// The pieces of `p` between `/` separators, in order, empty ones included.
pub open spec fn split_slashes(p: Seq<char>) -> Seq<Seq<char>>
    decreases p.len(),
{
    match last_index_of(p, '/') {
        Some(i) => if 0 <= i < p.len() {
            split_slashes(p.take(i)).push(p.skip(i + 1))
        } else {
            seq![p]
        },
        None => seq![p],
    }
}

/// The components of a path as `Path::components` yields them on Unix, each as its
/// string: `/` for a leading root, then the pieces between separators with empty
/// pieces (repeated or trailing separators) and `.` dropped, except that a relative
/// path starting with `.` keeps that `.` first.
#[verifier::opaque]
pub open spec fn path_components(p: Seq<char>) -> Seq<Seq<char>> {
    let pieces = split_slashes(p);
    let head: Seq<Seq<char>> = if p.len() > 0 && p[0] == '/' {
        seq![seq!['/']]
    } else if pieces.len() > 0 && pieces[0] == seq!['.'] {
        seq![seq!['.']]
    } else {
        Seq::empty()
    };
    head + pieces.filter(|piece: Seq<char>| piece.len() > 0 && piece != seq!['.'])
}

/// `Path::parent`: the path without its final component.
pub uninterp spec fn path_parent(p: Seq<char>) -> Option<Seq<char>>;

/// `Path::components`, each component converted to a string (std documents the
/// Unix rules [`path_components`] states). The paths here are valid UTF-8, so the
/// conversion loses nothing.
#[verifier::external_body]
pub(crate) fn components_of(p: &str) -> (r: Vec<String>)
    ensures
        strings_view(r@) == path_components(p@),
{
    std::path::Path::new(p).components().map(|c| c.as_os_str().to_string_lossy().into_owned()).collect()
}

/// `Path::parent`, converted to a string: `None` for the empty path and a path that
/// ends in the root, else the path without its final component (a slice of `p`, so
/// only its components are stated).
#[verifier::external_body]
pub(crate) fn parent_of(p: &str) -> (r: Option<String>)
    ensures
        opt_string_view(r) == path_parent(p@),
        r is None <==> (path_components(p@).len() == 0 || path_components(p@).last() == seq!['/']),
        r is Some ==> path_components(r.unwrap()@) == path_components(p@).drop_last(),
{
    std::path::Path::new(p).parent().map(|q| q.to_string_lossy().into_owned())
}

/// A path that starts with `/` (on Unix, `is_absolute` and `has_root` agree).
pub open spec fn is_absolute(p: Seq<char>) -> bool {
    p.len() > 0 && p[0] == '/'
}

/// `PathBuf::push` on Unix: an absolute `b` replaces `a`; otherwise `b` is appended,
/// with a `/` in between unless `a` is empty or already ends with one.
pub open spec fn path_join(a: Seq<char>, b: Seq<char>) -> Seq<char> {
    if is_absolute(b) {
        b
    } else if a.len() > 0 && a.last() != '/' {
        a + seq!['/'] + b
    } else {
        a + b
    }
}

/// `Path::starts_with`: the components of `base` begin the components of `p`.
pub open spec fn path_starts_with(p: Seq<char>, base: Seq<char>) -> bool {
    let pc = path_components(p);
    let bc = path_components(base);
    bc.len() <= pc.len() && pc.take(bc.len() as int) == bc
}

/// Paths compare equal when their components do.
pub open spec fn path_eq(a: Seq<char>, b: Seq<char>) -> bool {
    path_components(a) == path_components(b)
}

/// The strings of `parts` with `sep` between them.
pub open spec fn join_with(parts: Seq<Seq<char>>, sep: char) -> Seq<char>
    decreases parts.len(),
{
    if parts.len() == 0 {
        Seq::empty()
    } else if parts.len() == 1 {
        parts[0]
    } else {
        join_with(parts.drop_last(), sep) + seq![sep] + parts.last()
    }
}

/// The components of `p` joined by `/` (an absolute path keeps its root component,
/// so it starts with `//`).
pub open spec fn forward_slashes(p: Seq<char>) -> Seq<char> {
    join_with(path_components(p), '/')
}

/// The components of `p` after those of `base`, joined by `/`: what
/// `p.strip_prefix(base)` gives, written with forward slashes, when `p` starts with `base`.
pub open spec fn relative_forward_slashes(p: Seq<char>, base: Seq<char>) -> Option<Seq<char>> {
    if path_starts_with(p, base) {
        Some(join_with(path_components(p).skip(path_components(base).len() as int), '/'))
    } else {
        None
    }
}

/// Executable form of [`path_join`].
pub fn join_path(a: &str, b: &str) -> (r: String)
    ensures
        r@ == path_join(a@, b@),
{
    let bc = to_chars(b);
    if bc.len() > 0 && bc[0] == '/' {
        return b.to_string();
    }
    let ac = to_chars(a);
    let mut out = ac.clone();
    if ac.len() > 0 && ac[ac.len() - 1] != '/' {
        out.push('/');
    }
    let mut i: usize = 0;
    let ghost base = out@;
    while i < bc.len()
        invariant
            i <= bc@.len(),
            out@ == base + bc@.take(i as int),
        decreases bc@.len() - i,
    {
        out.push(bc[i]);
        i = i + 1;
        assert(out@ =~= base + bc@.take(i as int));
    }
    assert(bc@.take(bc@.len() as int) =~= bc@);
    proof {
        if ac@.len() > 0 && ac@.last() != '/' {
            assert(base =~= ac@ + seq!['/']);
        } else {
            assert(base =~= ac@);
        }
    }
    crate::chars::string_from_chars(out.as_slice())
}

fn strings_eq(a: &Vec<String>, b: &Vec<String>, n: usize) -> (r: bool)
    requires
        n <= a@.len(),
        n <= b@.len(),
    ensures
        r == (strings_view(a@).take(n as int) == strings_view(b@).take(n as int)),
{
    let mut i: usize = 0;
    while i < n
        invariant
            n <= a@.len(),
            n <= b@.len(),
            i <= n,
            forall|j: int| 0 <= j < i ==> a@[j]@ == b@[j]@,
        decreases n - i,
    {
        if !vec_eq(&to_chars(a[i].as_str()), &to_chars(b[i].as_str())) {
            assert(strings_view(a@).take(n as int)[i as int] != strings_view(b@).take(n as int)[i as int]);
            return false;
        }
        i = i + 1;
    }
    assert(strings_view(a@).take(n as int) =~= strings_view(b@).take(n as int));
    true
}

/// Executable form of [`path_starts_with`].
pub fn path_has_prefix(p: &str, base: &str) -> (r: bool)
    ensures
        r == path_starts_with(p@, base@),
{
    let pc = components_of(p);
    let bc = components_of(base);
    if bc.len() > pc.len() {
        return false;
    }
    let r = strings_eq(&pc, &bc, bc.len());
    assert(strings_view(bc@).take(bc@.len() as int) =~= strings_view(bc@));
    r
}

/// Executable form of [`path_eq`].
pub fn paths_equal(a: &str, b: &str) -> (r: bool)
    ensures
        r == path_eq(a@, b@),
{
    let ac = components_of(a);
    let bc = components_of(b);
    if ac.len() != bc.len() {
        return false;
    }
    let r = strings_eq(&ac, &bc, ac.len());
    assert(strings_view(ac@).take(ac@.len() as int) =~= strings_view(ac@));
    assert(strings_view(bc@).take(bc@.len() as int) =~= strings_view(bc@));
    r
}

/// The strings of `parts[start..]` joined by `/`.
fn join_parts(parts: &Vec<String>, start: usize) -> (r: String)
    requires
        start <= parts@.len(),
    ensures
        r@ == join_with(strings_view(parts@).skip(start as int), '/'),
{
    let ghost all = strings_view(parts@);
    let mut out: Vec<char> = Vec::new();
    let mut i: usize = start;
    assert(all.subrange(start as int, start as int) =~= Seq::<Seq<char>>::empty());
    while i < parts.len()
        invariant
            all == strings_view(parts@),
            start <= i <= parts@.len(),
            out@ == join_with(all.subrange(start as int, i as int), '/'),
        decreases parts@.len() - i,
    {
        let part = to_chars(parts[i].as_str());
        let ghost before = out@;
        if i > start {
            out.push('/');
        }
        let mut j: usize = 0;
        let ghost mid = out@;
        while j < part.len()
            invariant
                j <= part@.len(),
                out@ == mid + part@.take(j as int),
            decreases part@.len() - j,
        {
            out.push(part[j]);
            j = j + 1;
            assert(out@ =~= mid + part@.take(j as int));
        }
        proof {
            assert(part@.take(part@.len() as int) =~= part@);
            let s = all.subrange(start as int, i as int + 1);
            assert(s.drop_last() =~= all.subrange(start as int, i as int));
            assert(s.last() == parts@[i as int]@);
            if i > start {
                assert(out@ =~= before + seq!['/'] + part@);
            } else {
                assert(s.len() == 1);
                assert(out@ =~= part@);
            }
        }
        i = i + 1;
    }
    assert(all.subrange(start as int, parts@.len() as int) =~= all.skip(start as int));
    crate::chars::string_from_chars(out.as_slice())
}

/// Executable form of [`forward_slashes`].
pub fn path_to_forward_slashes(p: &str) -> (r: String)
    ensures
        r@ == forward_slashes(p@),
{
    let parts = components_of(p);
    let r = join_parts(&parts, 0);
    assert(strings_view(parts@).skip(0) =~= strings_view(parts@));
    r
}

/// Executable form of [`relative_forward_slashes`].
pub fn relative_to(p: &str, base: &str) -> (r: Option<String>)
    ensures
        opt_string_view(r) == relative_forward_slashes(p@, base@),
{
    if !path_has_prefix(p, base) {
        return None;
    }
    let pc = components_of(p);
    let bc = components_of(base);
    let r = join_parts(&pc, bc.len());
    Some(r)
}

} // verus!
