//! File paths as text: a path is its components, with `/` between them.

use vstd::prelude::*;
use vstd::string::*;

use crate::text;

verus! {

/// `a/b`, or `b` alone where it starts at the root.
pub open spec fn under(a: Seq<char>, b: Seq<char>) -> Seq<char> {
    if b.len() > 0 && b[0] == '/' {
        b
    } else if a.len() == 0 || a.last() == '/' {
        a + b
    } else {
        a + "/"@ + b
    }
}

/// Joins two paths.
pub fn join(a: &str, b: &str) -> (r: String)
    ensures
        r@ == under(a@, b@),
{
    if b.unicode_len() > 0 && b.get_char(0) == '/' {
        return b.to_owned();
    }
    let n: usize = a.unicode_len();
    if n == 0 || a.get_char(n - 1) == '/' {
        text::cat2(a, b)
    } else {
        text::cat3(a, "/", b)
    }
}

/// A component that names something: not empty, and not `.`.
pub open spec fn names_something(p: Seq<char>) -> bool {
    p.len() > 0 && p != "."@
}

/// The last component that names something.
pub open spec fn last_name(ps: Seq<Seq<char>>) -> Option<Seq<char>>
    decreases ps.len(),
{
    if ps.len() == 0 {
        None
    } else if names_something(ps.last()) {
        Some(ps.last())
    } else {
        last_name(ps.drop_last())
    }
}

/// The name at the end of a path; there is none at the end of `/`, `.` or
/// `..`.
pub open spec fn base(path: Seq<char>) -> Option<Seq<char>> {
    match last_name(text::pieces(path, '/')) {
        Some(n) => if n == ".."@ {
            None
        } else {
            Some(n)
        },
        None => None,
    }
}

/// The name at the end of a path.
pub fn file_name(path: &str) -> (r: Option<String>)
    ensures
        r.deep_view() == base(path@),
{
    let ps = text::split(path, '/');
    let ghost all = ps.deep_view();
    let mut i: usize = ps.len();
    assert(all.take(i as int) =~= all);
    while i > 0
        invariant
            i <= ps@.len(),
            all == ps.deep_view(),
            all == text::pieces(path@, '/'),
            last_name(all) == last_name(all.take(i as int)),
        decreases i,
    {
        proof {
            assert(all.take(i as int).last() == ps@[i - 1]@);
            assert(all.take(i as int).drop_last() =~= all.take(i - 1));
        }
        let p: &str = ps[i - 1];
        if !p.is_empty() && !text::eq(p, ".") {
            return if text::eq(p, "..") {
                None
            } else {
                Some(p.to_owned())
            };
        }
        i = i - 1;
    }
    None
}

/// A path without what adds nothing to its end: `/` and `/.`.
pub open spec fn bare(s: Seq<char>) -> Seq<char>
    decreases s.len(),
{
    if s.len() > 1 && (s.last() == '/' || (s.last() == '.' && s[s.len() - 2] == '/')) {
        bare(s.drop_last())
    } else {
        s
    }
}

/// The path of the directory that holds what a path leads to; there is none
/// for the root and for the empty path.
pub open spec fn parent_of(path: Seq<char>) -> Option<Seq<char>> {
    let t = bare(path);
    if t.len() == 0 || t == "/"@ {
        None
    } else {
        Some(bare(t.take(text::last_position(t, '/') + 1)))
    }
}

fn strip_end<'a>(s: &'a str) -> (r: &'a str)
    ensures
        r@ == bare(s@),
{
    let mut n: usize = s.unicode_len();
    assert(s@.take(n as int) =~= s@);
    while n > 1 && (s.get_char(n - 1) == '/' || (s.get_char(n - 1) == '.' && s.get_char(n - 2)
        == '/'))
        invariant
            n <= s@.len(),
            bare(s@) == bare(s@.take(n as int)),
        decreases n,
    {
        proof {
            let t = s@.take(n as int);
            assert(t.last() == s@[n - 1] && t[n - 2] == s@[n - 2]);
            assert(t.drop_last() =~= s@.take(n - 1));
        }
        n = n - 1;
    }
    proof {
        let t = s@.take(n as int);
        assert(n > 1 ==> t.last() == s@[n - 1] && t[n - 2] == s@[n - 2]);
    }
    let r: &str = s.substring_char(0, n);
    assert(r@ =~= s@.take(n as int));
    r
}

/// The path of the directory that holds what a path leads to.
pub fn parent(path: &str) -> (r: Option<String>)
    ensures
        r.deep_view() == parent_of(path@),
{
    let t: &str = strip_end(path);
    if t.is_empty() || text::eq(t, "/") {
        return None;
    }
    let cs = text::chars_of(t);
    let n: usize = text::find_last_end(&cs, '/');
    let head: &str = t.substring_char(0, n);
    assert(head@ =~= t@.take(n as int));
    Some(strip_end(head).to_owned())
}

/// What follows the last `.` of the name at the end of a path; a `.` at the
/// name's beginning does not count.
pub open spec fn extension_of(path: Seq<char>) -> Option<Seq<char>> {
    match base(path) {
        Some(n) => match text::cut_last(n, '.') {
            Some((stem, ext)) => if stem.len() > 0 {
                Some(ext)
            } else {
                None
            },
            None => None,
        },
        None => None,
    }
}

/// The extension of the name at the end of a path.
pub fn extension(path: &str) -> (r: Option<String>)
    ensures
        r.deep_view() == extension_of(path@),
{
    match file_name(path) {
        Some(n) => match text::rsplit_once(n.as_str(), '.') {
            Some((stem, ext)) => if !stem.is_empty() {
                Some(ext.to_owned())
            } else {
                None
            },
            None => None,
        },
        None => None,
    }
}

/// The same letters, whatever their case in ASCII.
pub open spec fn same_letter(a: char, b: char) -> bool {
    a == b || ('A' <= a && a <= 'Z' && a as int + 32 == b as int)
}

/// `s` in lower case (ASCII letters alone) is `t`, which holds no upper case
/// letter.
pub open spec fn lowers_to(s: Seq<char>, t: Seq<char>) -> bool {
    s.len() == t.len() && forall|i: int| 0 <= i < s.len() ==> same_letter(#[trigger] s[i], t[i])
}

/// Whether `s` in lower case is `t`; `t` is written without upper case.
fn lowercase_is(s: &str, t: &str) -> (r: bool)
    requires
        forall|i: int| 0 <= i < t@.len() ==> !('A' <= #[trigger] t@[i] && t@[i] <= 'Z'),
    ensures
        r == lowers_to(s@, t@),
{
    let a = text::chars_of(s);
    let b = text::chars_of(t);
    if a.len() != b.len() {
        return false;
    }
    let mut i: usize = 0;
    while i < a.len()
        invariant
            i <= a@.len(),
            a@ == s@,
            b@ == t@,
            a@.len() == b@.len(),
            forall|j: int| 0 <= j < i ==> same_letter(#[trigger] s@[j], t@[j]),
        decreases a@.len() - i,
    {
        let x: char = a[i];
        let y: char = b[i];
        let m: u32 = x as u32;
        let n: u32 = y as u32;
        let same: bool = x == y || ('A' <= x && x <= 'Z' && 'a' <= y && y <= 'z' && m + 32 == n);
        if !same {
            assert(!same_letter(s@[i as int], t@[i as int]));
            return false;
        }
        assert(same_letter(s@[i as int], t@[i as int]));
        i = i + 1;
    }
    true
}

/// A tar file that is compressed with zstd, by its name.
pub open spec fn zstd_name(path: Seq<char>) -> bool {
    match extension_of(path) {
        Some(e) => lowers_to(e, "zst"@) || lowers_to(e, "tzst"@),
        None => false,
    }
}

/// Whether a file's name says that it is compressed with zstd.
pub fn is_zstd(path: &str) -> (r: bool)
    ensures
        r == zstd_name(path@),
{
    proof {
        reveal_strlit("zst");
        reveal_strlit("tzst");
    }
    match extension(path) {
        Some(e) => lowercase_is(e.as_str(), "zst") || lowercase_is(e.as_str(), "tzst"),
        None => false,
    }
}

/// A path without the slashes at its beginning.
pub open spec fn rootless(s: Seq<char>) -> Seq<char>
    decreases s.len(),
{
    if s.len() > 0 && s[0] == '/' {
        rootless(s.drop_first())
    } else {
        s
    }
}

/// A path without the slashes at its beginning.
pub fn strip_root<'a>(s: &'a str) -> (r: &'a str)
    ensures
        r@ == rootless(s@),
{
    let n: usize = s.unicode_len();
    let mut i: usize = 0;
    assert(s@.skip(0) =~= s@);
    while i < n
        invariant
            i <= n,
            n == s@.len(),
            rootless(s@) == rootless(s@.skip(i as int)),
        decreases n - i,
    {
        assert(s@.skip(i as int)[0] == s@[i as int]);
        if s.get_char(i) != '/' {
            assert(s@.skip(i as int) =~= s@.subrange(i as int, n as int));
            return s.substring_char(i, n);
        }
        assert(s@.skip(i as int).drop_first() =~= s@.skip(i + 1));
        i = i + 1;
    }
    assert(s@.skip(n as int) =~= s@.subrange(n as int, n as int));
    s.substring_char(n, n)
}

} // verus!
