//! Text: the string operations the rest of the library is built on, each
//! stated over the sequence of characters a string holds.

use vstd::prelude::*;
use vstd::string::*;

verus! {

// ---------------------------------------------------------------------------
// Characters
// ---------------------------------------------------------------------------

/// Unicode `White_Space`, the set that `char::is_whitespace` documents.
pub open spec fn space(c: char) -> bool {
    let n = c as int;
    ||| 9 <= n <= 13
    ||| n == 0x20
    ||| n == 0x85
    ||| n == 0xA0
    ||| n == 0x1680
    ||| 0x2000 <= n <= 0x200A
    ||| n == 0x2028
    ||| n == 0x2029
    ||| n == 0x202F
    ||| n == 0x205F
    ||| n == 0x3000
}

/// True iff `c` is white space.
pub fn is_space(c: char) -> (r: bool)
    ensures
        r == space(c),
{
    let n: u32 = c as u32;
    (9 <= n && n <= 13) || n == 0x20 || n == 0x85 || n == 0xA0 || n == 0x1680 || (0x2000 <= n && n
        <= 0x200A) || n == 0x2028 || n == 0x2029 || n == 0x202F || n == 0x205F || n == 0x3000
}

/// ASCII decimal digit.
pub open spec fn digit(c: char) -> bool {
    '0' <= c && c <= '9'
}

/// ASCII hexadecimal digit, either case.
pub open spec fn hex_digit(c: char) -> bool {
    digit(c) || ('a' <= c && c <= 'f') || ('A' <= c && c <= 'F')
}

/// True iff `c` is an ASCII decimal digit.
pub fn is_digit(c: char) -> (r: bool)
    ensures
        r == digit(c),
{
    '0' <= c && c <= '9'
}

/// True iff `c` is an ASCII hexadecimal digit.
pub fn is_hex_digit(c: char) -> (r: bool)
    ensures
        r == hex_digit(c),
{
    is_digit(c) || ('a' <= c && c <= 'f') || ('A' <= c && c <= 'F')
}

/// The characters of `s`, in order.
pub fn chars_of(s: &str) -> (r: Vec<char>)
    ensures
        r@ == s@,
{
    let mut v: Vec<char> = Vec::new();
    for c in it: s.chars()
        invariant
            v@ == s@.take(it.index()),
            it.seq() == s@,
    {
        v.push(c);
    }
    v
}

// ---------------------------------------------------------------------------
// Positions
// ---------------------------------------------------------------------------

/// Where `c` first stands in `s`; the length of `s` where it does not occur.
pub open spec fn position(s: Seq<char>, c: char) -> int
    decreases s.len(),
{
    if s.len() == 0 {
        0
    } else if s[0] == c {
        0
    } else {
        1 + position(s.drop_first(), c)
    }
}

/// Where `c` last stands in `s`; -1 where it does not occur.
pub open spec fn last_position(s: Seq<char>, c: char) -> int
    decreases s.len(),
{
    if s.len() == 0 {
        -1
    } else if s.last() == c {
        s.len() - 1
    } else {
        last_position(s.drop_last(), c)
    }
}

/// What [`position`] is, without recursion.
pub proof fn lemma_position(s: Seq<char>, c: char)
    ensures
        0 <= position(s, c) <= s.len(),
        forall|j: int| 0 <= j < position(s, c) ==> s[j] != c,
        position(s, c) < s.len() ==> s[position(s, c)] == c,
        position(s, c) < s.len() <==> s.contains(c),
    decreases s.len(),
{
    if s.len() > 0 && s[0] != c {
        let t = s.drop_first();
        lemma_position(t, c);
        assert forall|j: int| 0 <= j < position(s, c) implies s[j] != c by {
            if j > 0 {
                assert(t[j - 1] == s[j]);
            }
        }
        if s.contains(c) {
            let k = choose|k: int| 0 <= k < s.len() && s[k] == c;
            assert(t[k - 1] == c);
        }
    }
    if position(s, c) < s.len() {
        assert(s[position(s, c)] == c);
    }
}

/// The first occurrence is the only index with `c` at it and none before.
pub proof fn lemma_position_is(s: Seq<char>, c: char, i: int)
    requires
        0 <= i <= s.len(),
        i < s.len() ==> s[i] == c,
        forall|j: int| 0 <= j < i ==> s[j] != c,
    ensures
        position(s, c) == i,
{
    lemma_position(s, c);
    if position(s, c) < i {
        assert(s[position(s, c)] != c);
    }
}

/// What [`last_position`] is, without recursion.
pub proof fn lemma_last_position(s: Seq<char>, c: char)
    ensures
        -1 <= last_position(s, c) < s.len(),
        forall|j: int| last_position(s, c) < j < s.len() ==> s[j] != c,
        last_position(s, c) >= 0 ==> s[last_position(s, c)] == c,
        last_position(s, c) >= 0 <==> s.contains(c),
    decreases s.len(),
{
    if s.len() > 0 && s.last() != c {
        let t = s.drop_last();
        lemma_last_position(t, c);
        assert forall|j: int| last_position(s, c) < j < s.len() implies s[j] != c by {
            if j < s.len() - 1 {
                assert(t[j] == s[j]);
            }
        }
        if s.contains(c) {
            let k = choose|k: int| 0 <= k < s.len() && s[k] == c;
            assert(t[k] == c);
        }
    }
    if last_position(s, c) >= 0 {
        assert(s[last_position(s, c)] == c);
    }
}

/// The last occurrence is the only index with `c` at it and none behind.
pub proof fn lemma_last_position_is(s: Seq<char>, c: char, i: int)
    requires
        -1 <= i < s.len(),
        i >= 0 ==> s[i] == c,
        forall|j: int| i < j < s.len() ==> s[j] != c,
    ensures
        last_position(s, c) == i,
{
    lemma_last_position(s, c);
    if last_position(s, c) > i {
        assert(s[last_position(s, c)] != c);
    }
}

/// Index of the first `c` in `s`, or the length of `s`.
pub fn find(s: &Vec<char>, c: char) -> (r: usize)
    ensures
        r == position(s@, c),
        r <= s@.len(),
{
    let mut i: usize = 0;
    while i < s.len()
        invariant
            i <= s@.len(),
            forall|j: int| 0 <= j < i ==> s@[j] != c,
        decreases s@.len() - i,
    {
        if s[i] == c {
            proof {
                lemma_position_is(s@, c, i as int);
            }
            return i;
        }
        i = i + 1;
    }
    proof {
        lemma_position_is(s@, c, i as int);
    }
    i
}

/// Index behind the last `c` in `s`, or 0.
pub fn find_last_end(s: &Vec<char>, c: char) -> (r: usize)
    ensures
        r == last_position(s@, c) + 1,
        r <= s@.len(),
{
    let mut i: usize = s.len();
    while i > 0
        invariant
            i <= s@.len(),
            forall|j: int| i <= j < s@.len() ==> s@[j] != c,
        decreases i,
    {
        if s[i - 1] == c {
            proof {
                lemma_last_position_is(s@, c, i - 1);
            }
            return i;
        }
        i = i - 1;
    }
    proof {
        lemma_last_position_is(s@, c, -1);
    }
    0
}

/// True iff `c` occurs in `s`.
pub fn has(s: &str, c: char) -> (r: bool)
    ensures
        r == s@.contains(c),
{
    let v = chars_of(s);
    proof {
        lemma_position(s@, c);
    }
    find(&v, c) < v.len()
}

// ---------------------------------------------------------------------------
// Equality and prefixes
// ---------------------------------------------------------------------------

/// True iff the two strings hold the same characters.
pub fn eq(a: &str, b: &str) -> (r: bool)
    ensures
        r == (a@ == b@),
{
    a.to_owned() == b.to_owned()
}

/// `s` begins with `p`.
pub open spec fn begins(s: Seq<char>, p: Seq<char>) -> bool {
    p.len() <= s.len() && s.take(p.len() as int) == p
}

/// True iff `s` begins with `p`.
pub fn starts_with(s: &str, p: &str) -> (r: bool)
    ensures
        r == begins(s@, p@),
{
    let n: usize = p.unicode_len();
    if s.unicode_len() < n {
        return false;
    }
    eq(s.substring_char(0, n), p)
}

/// `s` ends with `p`.
pub open spec fn ends(s: Seq<char>, p: Seq<char>) -> bool {
    p.len() <= s.len() && s.skip(s.len() - p.len()) == p
}

/// True iff `s` ends with `p`.
pub fn ends_with(s: &str, p: &str) -> (r: bool)
    ensures
        r == ends(s@, p@),
{
    let n: usize = s.unicode_len();
    let m: usize = p.unicode_len();
    if n < m {
        return false;
    }
    let tail: &str = s.substring_char(n - m, n);
    assert(tail@ =~= s@.skip(n - m));
    eq(tail, p)
}

/// `s` holds `p` from position `i` on.
pub open spec fn holds_at(s: Seq<char>, p: Seq<char>, i: int) -> bool {
    0 <= i <= s.len() - p.len() && s.subrange(i, i + p.len()) == p
}

/// `s` holds `p` somewhere.
pub open spec fn holds(s: Seq<char>, p: Seq<char>) -> bool {
    exists|i: int| #[trigger] holds_at(s, p, i)
}

/// True iff `s` holds `p` somewhere.
pub fn contains(s: &str, p: &str) -> (r: bool)
    ensures
        r == holds(s@, p@),
{
    let n: usize = s.unicode_len();
    let m: usize = p.unicode_len();
    if m > n {
        return false;
    }
    let mut i: usize = 0;
    while i <= n - m
        invariant
            n == s@.len(),
            m == p@.len(),
            m <= n,
            i <= n - m + 1,
            forall|j: int| 0 <= j < i ==> !(#[trigger] holds_at(s@, p@, j)),
        decreases n - i,
    {
        if eq(s.substring_char(i, i + m), p) {
            assert(holds_at(s@, p@, i as int));
            return true;
        }
        if i == n - m {
            assert(forall|j: int| !(#[trigger] holds_at(s@, p@, j)));
            return false;
        }
        i = i + 1;
    }
    false
}

/// Where `p` first stands in `s`.
pub open spec fn place(s: Seq<char>, p: Seq<char>) -> Option<nat>
    decreases s.len(),
{
    if begins(s, p) {
        Some(0)
    } else if s.len() == 0 {
        None
    } else {
        match place(s.drop_first(), p) {
            Some(i) => Some(i + 1),
            None => None,
        }
    }
}

/// The two sides of the first `p` in `s`.
pub open spec fn cut_at(s: Seq<char>, p: Seq<char>) -> Option<(Seq<char>, Seq<char>)> {
    match place(s, p) {
        Some(i) => Some((s.take(i as int), s.skip((i + p.len()) as int))),
        None => None,
    }
}

proof fn lemma_place(s: Seq<char>, p: Seq<char>, i: int)
    requires
        0 <= i <= s.len(),
        forall|j: int| 0 <= j < i ==> !begins(#[trigger] s.skip(j), p),
    ensures
        begins(s.skip(i), p) ==> place(s, p) == Some(i as nat),
        i == s.len() && !begins(s.skip(i), p) ==> place(s, p) is None,
    decreases s.len(),
{
    assert(s.skip(0) =~= s);
    if i > 0 {
        let t = s.drop_first();
        assert forall|j: int| 0 <= j < i - 1 implies !begins(#[trigger] t.skip(j), p) by {
            assert(t.skip(j) =~= s.skip(j + 1));
        }
        lemma_place(t, p, i - 1);
        assert(t.skip(i - 1) =~= s.skip(i));
    }
}

/// The two sides of the first `p` in `s`.
pub fn split_at<'a>(s: &'a str, p: &str) -> (r: Option<(&'a str, &'a str)>)
    ensures
        r.deep_view() == cut_at(s@, p@),
{
    let n: usize = s.unicode_len();
    let m: usize = p.unicode_len();
    if m == 0 {
        let left: &str = s.substring_char(0, 0);
        assert(s@.take(0) =~= p@);
        assert(left@ =~= s@.take(0));
        assert(s@.skip(0) =~= s@);
        return Some((left, s));
    }
    let mut i: usize = 0;
    while i < n
        invariant
            n == s@.len(),
            m == p@.len(),
            i <= n,
            forall|j: int| 0 <= j < i ==> !begins(#[trigger] s@.skip(j), p@),
        decreases n - i,
    {
        let rest: &str = s.substring_char(i, n);
        assert(rest@ =~= s@.skip(i as int));
        if starts_with(rest, p) {
            proof {
                lemma_place(s@, p@, i as int);
            }
            let left: &str = s.substring_char(0, i);
            let right: &str = rest.substring_char(m, n - i);
            assert(left@ =~= s@.take(i as int));
            assert(right@ =~= s@.skip(i + m));
            return Some((left, right));
        }
        i = i + 1;
    }
    proof {
        lemma_place(s@, p@, n as int);
        assert(s@.skip(n as int) =~= Seq::<char>::empty());
    }
    None
}

/// What stands behind the prefix `p` of `s`, if `s` begins with it.
pub fn strip_prefix<'a>(s: &'a str, p: &str) -> (r: Option<&'a str>)
    ensures
        match r {
            Some(t) => begins(s@, p@) && t@ == s@.skip(p@.len() as int),
            None => !begins(s@, p@),
        },
{
    if starts_with(s, p) {
        Some(s.substring_char(p.unicode_len(), s.unicode_len()))
    } else {
        None
    }
}

/// `a` stands before `b` in the order of code points, shorter first.
pub open spec fn less(a: Seq<char>, b: Seq<char>) -> bool
    decreases a.len(),
{
    if b.len() == 0 {
        false
    } else if a.len() == 0 {
        true
    } else if a[0] == b[0] {
        less(a.drop_first(), b.drop_first())
    } else {
        a[0] < b[0]
    }
}

/// True iff `a` sorts before `b`.
pub fn is_less(a: &str, b: &str) -> (r: bool)
    ensures
        r == less(a@, b@),
{
    let x = chars_of(a);
    let y = chars_of(b);
    let mut i: usize = 0;
    assert(x@.skip(0) =~= x@);
    assert(y@.skip(0) =~= y@);
    while i < x.len() && i < y.len()
        invariant
            i <= x@.len(),
            i <= y@.len(),
            x@ == a@,
            y@ == b@,
            less(a@, b@) == less(x@.skip(i as int), y@.skip(i as int)),
        decreases x@.len() - i,
    {
        assert(x@.skip(i as int).drop_first() =~= x@.skip(i + 1));
        assert(y@.skip(i as int).drop_first() =~= y@.skip(i + 1));
        if x[i] != y[i] {
            let p: char = x[i];
            let q: char = y[i];
            return p < q;
        }
        i = i + 1;
    }
    i < y.len()
}

/// Nothing sorts before itself.
pub proof fn lemma_less_irreflexive(a: Seq<char>)
    ensures
        !less(a, a),
    decreases a.len(),
{
    if a.len() > 0 {
        lemma_less_irreflexive(a.drop_first());
    }
}

/// The order is transitive.
pub proof fn lemma_less_transitive(a: Seq<char>, b: Seq<char>, c: Seq<char>)
    requires
        less(a, b),
        less(b, c),
    ensures
        less(a, c),
    decreases a.len(),
{
    if a.len() > 0 && b.len() > 0 && c.len() > 0 && a[0] == b[0] && b[0] == c[0] {
        lemma_less_transitive(a.drop_first(), b.drop_first(), c.drop_first());
    }
}

/// Of two different texts one sorts before the other.
pub proof fn lemma_less_total(a: Seq<char>, b: Seq<char>)
    ensures
        a == b || less(a, b) || less(b, a),
    decreases a.len(),
{
    if a.len() > 0 && b.len() > 0 {
        if a[0] == b[0] {
            lemma_less_total(a.drop_first(), b.drop_first());
            if a.drop_first() == b.drop_first() {
                assert(a =~= seq![a[0]] + a.drop_first());
                assert(b =~= seq![b[0]] + b.drop_first());
            }
        }
    } else if a.len() == 0 && b.len() == 0 {
        assert(a =~= b);
    }
}

/// What stands in front decides, where it is of one length.
pub proof fn lemma_less_in_front(a: Seq<char>, b: Seq<char>, c: Seq<char>, d: Seq<char>)
    requires
        a.len() == b.len(),
        less(a, b),
    ensures
        less(a + c, b + d),
    decreases a.len(),
{
    if a.len() > 0 {
        assert((a + c).drop_first() =~= a.drop_first() + c);
        assert((b + d).drop_first() =~= b.drop_first() + d);
        if a[0] == b[0] {
            lemma_less_in_front(a.drop_first(), b.drop_first(), c, d);
        }
    }
}

/// Behind the same front the rest decides.
pub proof fn lemma_less_behind(p: Seq<char>, a: Seq<char>, b: Seq<char>)
    requires
        less(a, b),
    ensures
        less(p + a, p + b),
    decreases p.len(),
{
    if p.len() > 0 {
        assert((p + a).drop_first() =~= p.drop_first() + a);
        assert((p + b).drop_first() =~= p.drop_first() + b);
        lemma_less_behind(p.drop_first(), a, b);
    } else {
        assert(p + a =~= a);
        assert(p + b =~= b);
    }
}

// ---------------------------------------------------------------------------
// Splitting
// ---------------------------------------------------------------------------

/// The part of `s` before the first `c`; all of it where `c` does not occur.
pub open spec fn before(s: Seq<char>, c: char) -> Seq<char> {
    s.take(position(s, c))
}

/// The part of `s` behind the last `c`; all of it where `c` does not occur.
pub open spec fn after_last(s: Seq<char>, c: char) -> Seq<char> {
    s.skip(last_position(s, c) + 1)
}

/// The parts of `s` before and behind the first `c`.
pub open spec fn cut(s: Seq<char>, c: char) -> Option<(Seq<char>, Seq<char>)> {
    if s.contains(c) {
        Some((s.take(position(s, c)), s.skip(position(s, c) + 1)))
    } else {
        None
    }
}

/// The parts of `s` before and behind the last `c`.
pub open spec fn cut_last(s: Seq<char>, c: char) -> Option<(Seq<char>, Seq<char>)> {
    if s.contains(c) {
        Some((s.take(last_position(s, c)), s.skip(last_position(s, c) + 1)))
    } else {
        None
    }
}

/// The pieces of `s` between the occurrences of `c`; at least one.
pub open spec fn pieces(s: Seq<char>, c: char) -> Seq<Seq<char>>
    decreases s.len(),
{
    if position(s, c) >= s.len() {
        seq![s]
    } else {
        proof {
            lemma_position(s, c);
        }
        seq![s.take(position(s, c))] + pieces(s.skip(position(s, c) + 1), c)
    }
}

/// Everything before the first `c` (all of `s` where there is none).
pub fn head<'a>(s: &'a str, c: char) -> (r: &'a str)
    ensures
        r@ == before(s@, c),
{
    let v = chars_of(s);
    let i: usize = find(&v, c);
    s.substring_char(0, i)
}

/// Everything behind the last `c` (all of `s` where there is none).
pub fn tail<'a>(s: &'a str, c: char) -> (r: &'a str)
    ensures
        r@ == after_last(s@, c),
{
    let v = chars_of(s);
    let i: usize = find_last_end(&v, c);
    s.substring_char(i, v.len())
}

/// Splits `s` at the first `c`.
pub fn split_once<'a>(s: &'a str, c: char) -> (r: Option<(&'a str, &'a str)>)
    ensures
        r.deep_view() == cut(s@, c),
{
    let v = chars_of(s);
    let i: usize = find(&v, c);
    proof {
        lemma_position(s@, c);
    }
    if i < v.len() {
        Some((s.substring_char(0, i), s.substring_char(i + 1, v.len())))
    } else {
        None
    }
}

/// Splits `s` at the last `c`.
pub fn rsplit_once<'a>(s: &'a str, c: char) -> (r: Option<(&'a str, &'a str)>)
    ensures
        r.deep_view() == cut_last(s@, c),
{
    let v = chars_of(s);
    let i: usize = find_last_end(&v, c);
    proof {
        lemma_last_position(s@, c);
    }
    if i > 0 {
        Some((s.substring_char(0, i - 1), s.substring_char(i, v.len())))
    } else {
        None
    }
}

/// All pieces of `s` between the occurrences of `c`.
pub fn split<'a>(s: &'a str, c: char) -> (r: Vec<&'a str>)
    ensures
        r.deep_view() == pieces(s@, c),
        r@.len() >= 1,
{
    let mut out: Vec<&'a str> = Vec::new();
    let mut rest: &'a str = s;
    assert(out.deep_view() + pieces(rest@, c) =~= pieces(s@, c));
    loop
        invariant
            out.deep_view() + pieces(rest@, c) == pieces(s@, c),
        decreases rest@.len(),
    {
        proof {
            lemma_position(rest@, c);
        }
        match split_once(rest, c) {
            Some((a, b)) => {
                let ghost before_push = out.deep_view();
                let ghost old_rest = rest@;
                out.push(a);
                rest = b;
                assert(out.deep_view() =~= before_push.push(a@));
                assert(out.deep_view() + pieces(rest@, c) =~= before_push + pieces(old_rest, c));
            },
            None => {
                let ghost before_push = out.deep_view();
                out.push(rest);
                assert(out.deep_view() =~= before_push + pieces(rest@, c));
                return out;
            },
        }
    }
}

/// A piece without `c` behind a separator is the last piece.
pub proof fn lemma_pieces_extend(x: Seq<char>, c: char, b: Seq<char>)
    requires
        !b.contains(c),
    ensures
        pieces(x + seq![c] + b, c) == pieces(x, c).push(b),
    decreases x.len(),
{
    let t = x + seq![c] + b;
    lemma_position(x, c);
    lemma_position(t, c);
    lemma_position(b, c);
    let i = position(x, c);
    assert forall|j: int| 0 <= j < i implies t[j] != c by {
        assert(t[j] == x[j]);
    }
    if i >= x.len() {
        assert(t[x.len() as int] == c);
        lemma_position_is(t, c, x.len() as int);
        assert(t.take(x.len() as int) =~= x);
        assert(t.skip(x.len() as int + 1) =~= b);
        assert(pieces(b, c) =~= seq![b]);
        assert(pieces(t, c) =~= seq![x].push(b));
    } else {
        assert(t[i] == x[i]);
        lemma_position_is(t, c, i);
        assert(t.take(i) =~= x.take(i));
        let y = x.skip(i + 1);
        assert(t.skip(i + 1) =~= y + seq![c] + b);
        lemma_pieces_extend(y, c, b);
        assert(pieces(t, c) =~= pieces(x, c).push(b));
    }
}

/// No piece holds what they are split at.
pub proof fn lemma_pieces_hold_no(s: Seq<char>, c: char)
    ensures
        pieces(s, c).len() > 0,
        forall|i: int| 0 <= i < pieces(s, c).len() ==> !(#[trigger] pieces(s, c)[i]).contains(c),
    decreases s.len(),
{
    lemma_position(s, c);
    let p = position(s, c);
    if p < s.len() {
        let rest = s.skip(p + 1);
        lemma_pieces_hold_no(rest, c);
        assert(!s.take(p).contains(c));
        assert forall|i: int| 0 <= i < pieces(s, c).len() implies !(#[trigger] pieces(
            s,
            c,
        )[i]).contains(c) by {
            if i > 0 {
                assert(pieces(s, c)[i] == pieces(rest, c)[i - 1]);
            }
        }
    }
}

/// Splitting undoes joining, for pieces that do not hold the separator.
pub proof fn lemma_pieces_of_joined(ps: Seq<Seq<char>>, c: char)
    requires
        ps.len() > 0,
        forall|i: int| 0 <= i < ps.len() ==> !(#[trigger] ps[i]).contains(c),
    ensures
        pieces(joined(ps, seq![c]), c) == ps,
    decreases ps.len(),
{
    if ps.len() == 1 {
        lemma_position(ps[0], c);
        assert(!ps[0].contains(c));
        assert(pieces(ps[0], c) =~= ps);
    } else {
        let front = ps.drop_last();
        assert forall|i: int| 0 <= i < front.len() implies !(#[trigger] front[i]).contains(c) by {
            assert(front[i] == ps[i]);
        }
        lemma_pieces_of_joined(front, c);
        assert(!ps[ps.len() - 1].contains(c));
        lemma_pieces_extend(joined(front, seq![c]), c, ps.last());
        assert(front.push(ps.last()) =~= ps);
    }
}

// ---------------------------------------------------------------------------
// Lines and words
// ---------------------------------------------------------------------------

/// `s` without one carriage return at its end.
pub open spec fn without_cr(s: Seq<char>) -> Seq<char> {
    if s.len() > 0 && s.last() == '\r' {
        s.drop_last()
    } else {
        s
    }
}

/// The lines of `s`: what ends in a line feed, or in a carriage return and a
/// line feed, without that ending; then what is left, if anything is.
pub open spec fn lines_of(s: Seq<char>) -> Seq<Seq<char>>
    decreases s.len(),
{
    if s.len() == 0 {
        seq![]
    } else if position(s, '\n') >= s.len() {
        seq![s]
    } else {
        proof {
            lemma_position(s, '\n');
        }
        seq![without_cr(s.take(position(s, '\n')))] + lines_of(s.skip(position(s, '\n') + 1))
    }
}

/// The lines of `s`.
pub fn lines<'a>(s: &'a str) -> (r: Vec<&'a str>)
    ensures
        r.deep_view() == lines_of(s@),
{
    let mut out: Vec<&'a str> = Vec::new();
    let mut rest: &'a str = s;
    assert(out.deep_view() + lines_of(rest@) =~= lines_of(s@));
    while !rest.is_empty()
        invariant
            out.deep_view() + lines_of(rest@) == lines_of(s@),
        decreases rest@.len(),
    {
        proof {
            lemma_position(rest@, '\n');
        }
        let ghost before_push = out.deep_view();
        let ghost old_rest = rest@;
        match split_once(rest, '\n') {
            Some((a, b)) => {
                let n: usize = a.unicode_len();
                let line: &'a str = if n > 0 && a.get_char(n - 1) == '\r' {
                    a.substring_char(0, n - 1)
                } else {
                    a
                };
                assert(line@ =~= without_cr(a@));
                out.push(line);
                rest = b;
                assert(out.deep_view() =~= before_push.push(line@));
                assert(out.deep_view() + lines_of(rest@) =~= before_push + lines_of(old_rest));
            },
            None => {
                out.push(rest);
                assert(out.deep_view() =~= before_push.push(rest@));
                rest = rest.substring_char(0, 0);
                assert(lines_of(rest@) =~= seq![]);
                assert(out.deep_view() + lines_of(rest@) =~= before_push + lines_of(old_rest));
            },
        }
    }
    assert(out.deep_view() + lines_of(rest@) =~= out.deep_view());
    out
}

/// `s` without the white space at its start.
pub open spec fn trim_front(s: Seq<char>) -> Seq<char>
    decreases s.len(),
{
    if s.len() > 0 && space(s[0]) {
        trim_front(s.drop_first())
    } else {
        s
    }
}

/// `s` without the white space at its end.
pub open spec fn trim_back(s: Seq<char>) -> Seq<char>
    decreases s.len(),
{
    if s.len() > 0 && space(s.last()) {
        trim_back(s.drop_last())
    } else {
        s
    }
}

/// `s` without the white space around it.
pub open spec fn trimmed(s: Seq<char>) -> Seq<char> {
    trim_back(trim_front(s))
}

/// `s` without the white space at its start.
pub fn trim_start<'a>(s: &'a str) -> (r: &'a str)
    ensures
        r@ == trim_front(s@),
{
    let v = chars_of(s);
    let mut i: usize = 0;
    assert(s@.skip(0) =~= s@);
    while i < v.len() && is_space(v[i])
        invariant
            i <= v@.len(),
            v@ == s@,
            trim_front(s@) == trim_front(s@.skip(i as int)),
        decreases v@.len() - i,
    {
        assert(s@.skip(i as int).drop_first() =~= s@.skip(i + 1));
        i = i + 1;
    }
    assert(s@.subrange(i as int, s@.len() as int) =~= s@.skip(i as int));
    s.substring_char(i, v.len())
}

/// `s` without the white space at its end.
pub fn trim_end<'a>(s: &'a str) -> (r: &'a str)
    ensures
        r@ == trim_back(s@),
{
    let v = chars_of(s);
    let mut i: usize = v.len();
    assert(s@.take(i as int) =~= s@);
    while i > 0 && is_space(v[i - 1])
        invariant
            i <= v@.len(),
            v@ == s@,
            trim_back(s@) == trim_back(s@.take(i as int)),
        decreases i,
    {
        assert(s@.take(i as int).drop_last() =~= s@.take(i - 1));
        i = i - 1;
    }
    s.substring_char(0, i)
}

/// `s` without the white space around it.
pub fn trim<'a>(s: &'a str) -> (r: &'a str)
    ensures
        r@ == trimmed(s@),
{
    trim_end(trim_start(s))
}

/// Length of the longest start of `s` that holds no white space.
pub open spec fn word_len(s: Seq<char>) -> int
    decreases s.len(),
{
    if s.len() == 0 || space(s[0]) {
        0
    } else {
        1 + word_len(s.drop_first())
    }
}

/// Bounds of [`word_len`].
pub proof fn lemma_word_len(s: Seq<char>)
    ensures
        0 <= word_len(s) <= s.len(),
        s.len() > 0 && !space(s[0]) ==> word_len(s) > 0,
    decreases s.len(),
{
    if s.len() > 0 && !space(s[0]) {
        lemma_word_len(s.drop_first());
    }
}

/// What [`trim_front`] leaves.
pub proof fn lemma_trim_front(s: Seq<char>)
    ensures
        trim_front(s).len() <= s.len(),
        trim_front(s).len() > 0 ==> !space(trim_front(s)[0]),
    decreases s.len(),
{
    if s.len() > 0 && space(s[0]) {
        lemma_trim_front(s.drop_first());
    }
}

/// The words of `s`: its longest runs without white space.
pub open spec fn words_of(s: Seq<char>) -> Seq<Seq<char>>
    decreases s.len(),
{
    let t = trim_front(s);
    if t.len() == 0 {
        seq![]
    } else {
        let n = word_len(t);
        proof {
            lemma_trim_front(s);
            lemma_word_len(t);
        }
        seq![t.take(n)] + words_of(t.skip(n))
    }
}

/// The words of `s`.
pub fn words<'a>(s: &'a str) -> (r: Vec<&'a str>)
    ensures
        r.deep_view() == words_of(s@),
{
    let mut out: Vec<&'a str> = Vec::new();
    let mut rest: &'a str = s;
    assert(out.deep_view() + words_of(rest@) =~= words_of(s@));
    loop
        invariant
            out.deep_view() + words_of(rest@) == words_of(s@),
        decreases rest@.len(),
    {
        let t: &'a str = trim_start(rest);
        proof {
            lemma_trim_front(rest@);
            lemma_word_len(t@);
        }
        if t.is_empty() {
            assert(out.deep_view() + words_of(rest@) =~= out.deep_view());
            return out;
        }
        let v = chars_of(t);
        let mut n: usize = 0;
        assert(t@.skip(0) =~= t@);
        while n < v.len() && !is_space(v[n])
            invariant
                n <= v@.len(),
                v@ == t@,
                word_len(t@) == n + word_len(t@.skip(n as int)),
            decreases v@.len() - n,
        {
            assert(t@.skip(n as int).drop_first() =~= t@.skip(n + 1));
            n = n + 1;
        }
        assert(word_len(t@) == n);
        let ghost before_push = out.deep_view();
        let ghost old_rest = rest@;
        let w: &'a str = t.substring_char(0, n);
        out.push(w);
        rest = t.substring_char(n, v.len());
        assert(w@ =~= t@.take(n as int));
        assert(rest@ =~= t@.skip(n as int));
        assert(out.deep_view() =~= before_push.push(w@));
        assert(out.deep_view() + words_of(rest@) =~= before_push + words_of(old_rest));
    }
}

// ---------------------------------------------------------------------------
// Putting text together
// ---------------------------------------------------------------------------

/// The 2 texts, one behind the other.
pub fn cat2(a: &str, b: &str) -> (r: String)
    ensures
        r@ == a@ + b@,
{
    let mut s: String = String::from_str(a);
    s.append(b);
    s
}

/// The 3 texts, one behind the other.
pub fn cat3(a: &str, b: &str, c: &str) -> (r: String)
    ensures
        r@ == a@ + b@ + c@,
{
    let mut s: String = String::from_str(a);
    s.append(b);
    s.append(c);
    s
}

/// The 4 texts, one behind the other.
pub fn cat4(a: &str, b: &str, c: &str, d: &str) -> (r: String)
    ensures
        r@ == a@ + b@ + c@ + d@,
{
    let mut s: String = String::from_str(a);
    s.append(b);
    s.append(c);
    s.append(d);
    s
}

/// The 5 texts, one behind the other.
pub fn cat5(a: &str, b: &str, c: &str, d: &str, e: &str) -> (r: String)
    ensures
        r@ == a@ + b@ + c@ + d@ + e@,
{
    let mut s: String = String::from_str(a);
    s.append(b);
    s.append(c);
    s.append(d);
    s.append(e);
    s
}

/// The 6 texts, one behind the other.
pub fn cat6(a: &str, b: &str, c: &str, d: &str, e: &str, f: &str) -> (r: String)
    ensures
        r@ == a@ + b@ + c@ + d@ + e@ + f@,
{
    let mut s: String = String::from_str(a);
    s.append(b);
    s.append(c);
    s.append(d);
    s.append(e);
    s.append(f);
    s
}

/// The 7 texts, one behind the other.
pub fn cat7(a: &str, b: &str, c: &str, d: &str, e: &str, f: &str, g: &str) -> (r: String)
    ensures
        r@ == a@ + b@ + c@ + d@ + e@ + f@ + g@,
{
    let mut s: String = String::from_str(a);
    s.append(b);
    s.append(c);
    s.append(d);
    s.append(e);
    s.append(f);
    s.append(g);
    s
}

/// The 8 texts, one behind the other.
pub fn cat8(a: &str, b: &str, c: &str, d: &str, e: &str, f: &str, g: &str, h: &str) -> (r: String)
    ensures
        r@ == a@ + b@ + c@ + d@ + e@ + f@ + g@ + h@,
{
    let mut s: String = String::from_str(a);
    s.append(b);
    s.append(c);
    s.append(d);
    s.append(e);
    s.append(f);
    s.append(g);
    s.append(h);
    s
}

/// The 9 texts, one behind the other.
pub fn cat9(a: &str, b: &str, c: &str, d: &str, e: &str, f: &str, g: &str, h: &str, i: &str) -> (r: String)
    ensures
        r@ == a@ + b@ + c@ + d@ + e@ + f@ + g@ + h@ + i@,
{
    let mut s: String = String::from_str(a);
    s.append(b);
    s.append(c);
    s.append(d);
    s.append(e);
    s.append(f);
    s.append(g);
    s.append(h);
    s.append(i);
    s
}

/// An argument vector of 1.
pub fn argv1<'a>(a: &'a str) -> (r: Vec<&'a str>)
    ensures
        r.deep_view() == seq![a@],
{
    let mut v: Vec<&'a str> = Vec::new();
    v.push(a);
    assert(v.deep_view() =~= seq![a@]);
    v
}

/// An argument vector of 2.
pub fn argv2<'a>(a: &'a str, b: &'a str) -> (r: Vec<&'a str>)
    ensures
        r.deep_view() == seq![a@, b@],
{
    let mut v: Vec<&'a str> = Vec::new();
    v.push(a);
    v.push(b);
    assert(v.deep_view() =~= seq![a@, b@]);
    v
}

/// An argument vector of 3.
pub fn argv3<'a>(a: &'a str, b: &'a str, c: &'a str) -> (r: Vec<&'a str>)
    ensures
        r.deep_view() == seq![a@, b@, c@],
{
    let mut v: Vec<&'a str> = Vec::new();
    v.push(a);
    v.push(b);
    v.push(c);
    assert(v.deep_view() =~= seq![a@, b@, c@]);
    v
}

/// An argument vector of 4.
pub fn argv4<'a>(a: &'a str, b: &'a str, c: &'a str, d: &'a str) -> (r: Vec<&'a str>)
    ensures
        r.deep_view() == seq![a@, b@, c@, d@],
{
    let mut v: Vec<&'a str> = Vec::new();
    v.push(a);
    v.push(b);
    v.push(c);
    v.push(d);
    assert(v.deep_view() =~= seq![a@, b@, c@, d@]);
    v
}

/// An argument vector of 5.
pub fn argv5<'a>(a: &'a str, b: &'a str, c: &'a str, d: &'a str, e: &'a str) -> (r: Vec<&'a str>)
    ensures
        r.deep_view() == seq![a@, b@, c@, d@, e@],
{
    let mut v: Vec<&'a str> = Vec::new();
    v.push(a);
    v.push(b);
    v.push(c);
    v.push(d);
    v.push(e);
    assert(v.deep_view() =~= seq![a@, b@, c@, d@, e@]);
    v
}

/// An argument vector of 6.
pub fn argv6<'a>(a: &'a str, b: &'a str, c: &'a str, d: &'a str, e: &'a str, f: &'a str) -> (r: Vec<&'a str>)
    ensures
        r.deep_view() == seq![a@, b@, c@, d@, e@, f@],
{
    let mut v: Vec<&'a str> = Vec::new();
    v.push(a);
    v.push(b);
    v.push(c);
    v.push(d);
    v.push(e);
    v.push(f);
    assert(v.deep_view() =~= seq![a@, b@, c@, d@, e@, f@]);
    v
}

/// An argument vector of 7.
pub fn argv7<'a>(a: &'a str, b: &'a str, c: &'a str, d: &'a str, e: &'a str, f: &'a str, g: &'a str) -> (r: Vec<&'a str>)
    ensures
        r.deep_view() == seq![a@, b@, c@, d@, e@, f@, g@],
{
    let mut v: Vec<&'a str> = Vec::new();
    v.push(a);
    v.push(b);
    v.push(c);
    v.push(d);
    v.push(e);
    v.push(f);
    v.push(g);
    assert(v.deep_view() =~= seq![a@, b@, c@, d@, e@, f@, g@]);
    v
}

/// An argument vector of 8.
pub fn argv8<'a>(a: &'a str, b: &'a str, c: &'a str, d: &'a str, e: &'a str, f: &'a str, g: &'a str, h: &'a str) -> (r: Vec<&'a str>)
    ensures
        r.deep_view() == seq![a@, b@, c@, d@, e@, f@, g@, h@],
{
    let mut v: Vec<&'a str> = Vec::new();
    v.push(a);
    v.push(b);
    v.push(c);
    v.push(d);
    v.push(e);
    v.push(f);
    v.push(g);
    v.push(h);
    assert(v.deep_view() =~= seq![a@, b@, c@, d@, e@, f@, g@, h@]);
    v
}

/// An argument vector of 9.
pub fn argv9<'a>(a: &'a str, b: &'a str, c: &'a str, d: &'a str, e: &'a str, f: &'a str, g: &'a str, h: &'a str, i: &'a str) -> (r: Vec<&'a str>)
    ensures
        r.deep_view() == seq![a@, b@, c@, d@, e@, f@, g@, h@, i@],
{
    let mut v: Vec<&'a str> = Vec::new();
    v.push(a);
    v.push(b);
    v.push(c);
    v.push(d);
    v.push(e);
    v.push(f);
    v.push(g);
    v.push(h);
    v.push(i);
    assert(v.deep_view() =~= seq![a@, b@, c@, d@, e@, f@, g@, h@, i@]);
    v
}

/// The texts with `sep` between each two.
pub open spec fn joined(parts: Seq<Seq<char>>, sep: Seq<char>) -> Seq<char>
    decreases parts.len(),
{
    if parts.len() == 0 {
        seq![]
    } else if parts.len() == 1 {
        parts[0]
    } else {
        joined(parts.drop_last(), sep) + sep + parts.last()
    }
}

/// The strings with `sep` between each two.
pub fn join(parts: &Vec<String>, sep: &str) -> (r: String)
    ensures
        r@ == joined(parts.deep_view(), sep@),
{
    let mut out: String = String::new();
    let mut i: usize = 0;
    assert(joined(parts.deep_view().take(0), sep@) =~= seq![]);
    while i < parts.len()
        invariant
            i <= parts@.len(),
            out@ == joined(parts.deep_view().take(i as int), sep@),
        decreases parts@.len() - i,
    {
        proof {
            assert(parts.deep_view().take(i + 1).drop_last() =~= parts.deep_view().take(i as int));
            assert(parts.deep_view().take(i + 1).last() == parts@[i as int]@);
            assert(seq![] + parts@[0]@ =~= parts@[0]@);
        }
        if i > 0 {
            out.append(sep);
        }
        out.append(parts[i].as_str());
        i = i + 1;
    }
    assert(parts.deep_view().take(i as int) =~= parts.deep_view());
    out
}

/// The string slices with `sep` between each two.
pub fn join_strs(parts: &[&str], sep: &str) -> (r: String)
    ensures
        r@ == joined(parts.deep_view(), sep@),
{
    let mut out: String = String::new();
    let mut i: usize = 0;
    assert(joined(parts.deep_view().take(0), sep@) =~= seq![]);
    while i < parts.len()
        invariant
            i <= parts@.len(),
            out@ == joined(parts.deep_view().take(i as int), sep@),
        decreases parts@.len() - i,
    {
        proof {
            assert(parts.deep_view().take(i + 1).drop_last() =~= parts.deep_view().take(i as int));
            assert(parts.deep_view().take(i + 1).last() == parts@[i as int]@);
            assert(seq![] + parts@[0]@ =~= parts@[0]@);
        }
        if i > 0 {
            out.append(sep);
        }
        out.append(parts[i]);
        i = i + 1;
    }
    assert(parts.deep_view().take(i as int) =~= parts.deep_view());
    out
}

/// Lines of text, each with its end.
pub open spec fn paragraph(lines: Seq<Seq<char>>) -> Seq<char>
    decreases lines.len(),
{
    if lines.len() == 0 {
        seq![]
    } else {
        paragraph(lines.drop_last()) + lines.last() + "\n"@
    }
}

/// Lines of text, each with its end.
pub fn end_lines(lines: &Vec<String>) -> (r: String)
    ensures
        r@ == paragraph(lines.deep_view()),
{
    let ghost all = lines.deep_view();
    let mut out: String = "".to_owned();
    let mut i: usize = 0;
    proof {
        reveal_strlit("");
        assert(out@ =~= paragraph(all.take(0)));
    }
    while i < lines.len()
        invariant
            i <= lines@.len(),
            all == lines.deep_view(),
            out@ == paragraph(all.take(i as int)),
        decreases lines@.len() - i,
    {
        proof {
            assert(all.take(i + 1).drop_last() =~= all.take(i as int));
            assert(all.take(i + 1).last() == lines@[i as int]@);
        }
        out.append(lines[i].as_str());
        out.append("\n");
        i = i + 1;
    }
    assert(all.take(i as int) =~= all);
    out
}

/// Appends a copy of `t`.
pub fn push_text(v: &mut Vec<String>, t: &str)
    ensures
        final(v).deep_view() == old(v).deep_view().push(t@),
        final(v)@.len() == old(v)@.len() + 1,
{
    let s: String = t.to_owned();
    v.push(s);
    assert(v.deep_view() =~= old(v).deep_view().push(t@));
}

/// Borrows every string, behind what `head` holds already.
pub fn extend_strs<'a>(head: Vec<&'a str>, more: &'a Vec<String>) -> (r: Vec<&'a str>)
    ensures
        r.deep_view() == head.deep_view() + more.deep_view(),
{
    let mut out: Vec<&'a str> = head;
    let mut i: usize = 0;
    assert(more.deep_view().take(0) =~= seq![]);
    assert(out.deep_view() =~= head.deep_view() + more.deep_view().take(0));
    while i < more.len()
        invariant
            i <= more@.len(),
            out.deep_view() == head.deep_view() + more.deep_view().take(i as int),
        decreases more@.len() - i,
    {
        let ghost so_far = out.deep_view();
        let t: &'a str = more[i].as_str();
        out.push(t);
        assert(out.deep_view() =~= so_far.push(t@));
        assert(more.deep_view().take(i + 1) =~= more.deep_view().take(i as int).push(t@));
        assert(out.deep_view() =~= head.deep_view() + more.deep_view().take(i + 1));
        i = i + 1;
    }
    assert(more.deep_view().take(i as int) =~= more.deep_view());
    out
}

/// True iff one of the strings is `t`.
pub fn any_eq(v: &Vec<String>, t: &str) -> (r: bool)
    ensures
        r == v.deep_view().contains(t@),
{
    let mut i: usize = 0;
    while i < v.len()
        invariant
            i <= v@.len(),
            forall|j: int| 0 <= j < i ==> v.deep_view()[j] != t@,
        decreases v@.len() - i,
    {
        if eq(v[i].as_str(), t) {
            assert(v.deep_view()[i as int] == t@);
            return true;
        }
        i = i + 1;
    }
    false
}

/// A copy of every string.
pub fn clone_texts(v: &Vec<String>) -> (r: Vec<String>)
    ensures
        r.deep_view() == v.deep_view(),
{
    let mut out: Vec<String> = Vec::new();
    let mut i: usize = 0;
    assert(out.deep_view() =~= v.deep_view().take(0));
    while i < v.len()
        invariant
            i <= v@.len(),
            out.deep_view() == v.deep_view().take(i as int),
        decreases v@.len() - i,
    {
        push_text(&mut out, v[i].as_str());
        assert(v.deep_view().take(i + 1) =~= v.deep_view().take(i as int).push(v@[i as int]@));
        i = i + 1;
    }
    assert(v.deep_view().take(i as int) =~= v.deep_view());
    out
}

/// A copy of an optional string.
pub fn clone_opt(o: &Option<String>) -> (r: Option<String>)
    ensures
        r.deep_view() == o.deep_view(),
{
    match o {
        Some(s) => Some(s.clone()),
        None => None,
    }
}

/// True iff the optional string is there and reads `t`.
pub fn opt_is(o: &Option<String>, t: &str) -> (r: bool)
    ensures
        r == (o.deep_view() == Some(t@)),
{
    match o {
        Some(s) => eq(s.as_str(), t),
        None => false,
    }
}

// ---------------------------------------------------------------------------
// Numbers
// ---------------------------------------------------------------------------

/// The character for a digit below 16, in lower case.
pub open spec fn digit_char(d: nat) -> char {
    if d < 10 {
        (48 + d) as char
    } else {
        (87 + d) as char
    }
}

/// `n` in base `base`, most significant digit first, without leading zeros.
pub open spec fn numeral(n: nat, base: nat) -> Seq<char>
    decreases n,
{
    if base < 2 || n < base {
        seq![digit_char(n)]
    } else {
        proof {
            assert(n / base < n) by (nonlinear_arith)
                requires
                    base >= 2,
                    n >= base,
            ;
        }
        numeral(n / base, base).push(digit_char(n % base))
    }
}

/// `n` in decimal.
pub open spec fn decimal(n: nat) -> Seq<char> {
    numeral(n, 10)
}

/// `n` in decimal, with a minus sign where it is negative.
pub open spec fn signed_decimal(n: int) -> Seq<char> {
    if n < 0 {
        "-"@ + decimal((-n) as nat)
    } else {
        decimal(n as nat)
    }
}

/// `n` in base `base` in at least `width` digits, with leading zeros.
pub open spec fn padded(n: nat, base: nat, width: nat) -> Seq<char>
    decreases width,
{
    if width <= 1 {
        numeral(n, base)
    } else {
        padded(n / base, base, (width - 1) as nat).push(digit_char(n % base))
    }
}

/// The least number with more than `width` decimal digits.
pub open spec fn tens(width: nat) -> nat
    decreases width,
{
    if width == 0 {
        1
    } else {
        10 * tens((width - 1) as nat)
    }
}

/// A decimal number that fits its width fills it, with digits.
pub proof fn lemma_padded(n: nat, width: nat)
    requires
        width >= 1,
        n < tens(width),
    ensures
        padded(n, 10, width).len() == width,
        all_digits(padded(n, 10, width)),
    decreases width,
{
    if width > 1 {
        lemma_padded(n / 10, (width - 1) as nat);
    } else {
        assert(tens(0) == 1);
        assert(tens(1) == 10);
        assert(n < 10);
        assert(numeral(n, 10) =~= seq![digit_char(n)]);
    }
}

/// Decimal numbers of one width sort as they count.
pub proof fn lemma_padded_less(n: nat, m: nat, width: nat)
    requires
        width >= 1,
        n < m < tens(width),
    ensures
        less(padded(n, 10, width), padded(m, 10, width)),
    decreases width,
{
    let a = padded(n, 10, width);
    let b = padded(m, 10, width);
    if width > 1 {
        let w = (width - 1) as nat;
        lemma_padded(n / 10, w);
        lemma_padded(m / 10, w);
        let (c, d) = (seq![digit_char(n % 10)], seq![digit_char(m % 10)]);
        assert(a =~= padded(n / 10, 10, w) + c);
        assert(b =~= padded(m / 10, 10, w) + d);
        if n / 10 < m / 10 {
            lemma_padded_less(n / 10, m / 10, w);
            lemma_less_in_front(padded(n / 10, 10, w), padded(m / 10, 10, w), c, d);
        } else {
            assert(n % 10 < m % 10);
            assert(less(c, d));
            lemma_less_behind(padded(n / 10, 10, w), c, d);
        }
    } else {
        assert(tens(0) == 1);
        assert(tens(1) == 10);
        assert(a =~= seq![digit_char(n)]);
        assert(b =~= seq![digit_char(m)]);
    }
}

/// The one-character text of a digit below 16.
fn digit_text(d: u128) -> (r: &'static str)
    requires
        d < 16,
    ensures
        r@ =~= seq![digit_char(d as nat)],
{
    if d == 0 {
        proof {
            reveal_strlit("0");
        }
        "0"
    } else if d == 1 {
        proof {
            reveal_strlit("1");
        }
        "1"
    } else if d == 2 {
        proof {
            reveal_strlit("2");
        }
        "2"
    } else if d == 3 {
        proof {
            reveal_strlit("3");
        }
        "3"
    } else if d == 4 {
        proof {
            reveal_strlit("4");
        }
        "4"
    } else if d == 5 {
        proof {
            reveal_strlit("5");
        }
        "5"
    } else if d == 6 {
        proof {
            reveal_strlit("6");
        }
        "6"
    } else if d == 7 {
        proof {
            reveal_strlit("7");
        }
        "7"
    } else if d == 8 {
        proof {
            reveal_strlit("8");
        }
        "8"
    } else if d == 9 {
        proof {
            reveal_strlit("9");
        }
        "9"
    } else if d == 10 {
        proof {
            reveal_strlit("a");
        }
        "a"
    } else if d == 11 {
        proof {
            reveal_strlit("b");
        }
        "b"
    } else if d == 12 {
        proof {
            reveal_strlit("c");
        }
        "c"
    } else if d == 13 {
        proof {
            reveal_strlit("d");
        }
        "d"
    } else if d == 14 {
        proof {
            reveal_strlit("e");
        }
        "e"
    } else {
        proof {
            reveal_strlit("f");
        }
        "f"
    }
}

/// `n` in base `base`.
fn numeral_text(n: u128, base: u128) -> (r: String)
    requires
        2 <= base <= 16,
    ensures
        r@ == numeral(n as nat, base as nat),
    decreases n,
{
    if n < base {
        String::from_str(digit_text(n))
    } else {
        let q: u128 = n / base;
        let d: u128 = n % base;
        assert(q < n) by (nonlinear_arith)
            requires
                base >= 2,
                n >= base,
                q == n / base,
        ;
        let mut s: String = numeral_text(q, base);
        let ghost lead = s@;
        s.append(digit_text(d));
        assert(s@ =~= lead.push(digit_char(d as nat)));
        s
    }
}

/// `n` in decimal.
pub fn dec(n: u128) -> (r: String)
    ensures
        r@ == decimal(n as nat),
{
    numeral_text(n, 10)
}

/// `n` in decimal, for a length.
pub fn dec_len(n: usize) -> (r: String)
    ensures
        r@ == decimal(n as nat),
{
    numeral_text(n as u128, 10)
}

/// `n` in decimal, with its sign.
pub fn dec_signed(n: i64) -> (r: String)
    ensures
        r@ == signed_decimal(n as int),
{
    if n < 0 {
        let m: i128 = n as i128;
        let t: String = dec((-m) as u128);
        cat2("-", t.as_str())
    } else {
        dec(n as u128)
    }
}

/// `n` in base `base`, in at least `width` digits.
pub fn pad(n: u128, base: u128, width: u32) -> (r: String)
    requires
        2 <= base <= 16,
    ensures
        r@ == padded(n as nat, base as nat, width as nat),
    decreases width,
{
    if width <= 1 {
        numeral_text(n, base)
    } else {
        let mut s: String = pad(n / base, base, width - 1);
        let ghost lead = s@;
        s.append(digit_text(n % base));
        assert(s@ =~= lead.push(digit_char((n % base) as nat)));
        s
    }
}

/// The number that a decimal numeral stands for.
pub open spec fn numeral_value(s: Seq<char>) -> nat
    decreases s.len(),
{
    if s.len() == 0 {
        0
    } else {
        10 * numeral_value(s.drop_last()) + (s.last() as nat - 48) as nat
    }
}

/// Every character is a decimal digit.
pub open spec fn all_digits(s: Seq<char>) -> bool {
    forall|i: int| 0 <= i < s.len() ==> digit(#[trigger] s[i])
}

/// A decimal numeral is made of digits, and is worth its number.
pub proof fn lemma_decimal(n: nat)
    ensures
        all_digits(decimal(n)),
        decimal(n).len() > 0,
        numeral_value(decimal(n)) == n,
    decreases n,
{
    let d = decimal(n);
    if n < 10 {
        assert(d =~= seq![digit_char(n)]);
        assert(d.drop_last() =~= seq![]);
        assert(numeral_value(d.drop_last()) == 0);
    } else {
        lemma_decimal(n / 10);
        assert(d.drop_last() =~= decimal(n / 10));
        assert(d.last() == digit_char(n % 10));
    }
}

/// The value of the numeral `s`, if it is one and does not exceed `max`. As
/// with the integer parsers of std, a leading `+` is allowed.
pub open spec fn parsed_upto(s: Seq<char>, max: nat) -> Option<nat> {
    let t = if s.len() > 0 && s[0] == '+' {
        s.drop_first()
    } else {
        s
    };
    if t.len() > 0 && all_digits(t) && numeral_value(t) <= max {
        Some(numeral_value(t))
    } else {
        None
    }
}

/// A numeral is worth at least what its start is worth.
proof fn lemma_value_grows(s: Seq<char>, i: int)
    requires
        0 <= i <= s.len(),
        all_digits(s),
    ensures
        numeral_value(s.take(i)) <= numeral_value(s),
    decreases s.len() - i,
{
    if i < s.len() {
        lemma_value_grows(s, i + 1);
        assert(s.take(i + 1).drop_last() =~= s.take(i));
        assert(digit(s[i]));
    } else {
        assert(s.take(i) =~= s);
    }
}

/// Reads a decimal numeral that does not exceed `max`.
pub fn parse_upto(s: &str, max: u64) -> (r: Option<u64>)
    ensures
        match r {
            Some(n) => parsed_upto(s@, max as nat) == Some(n as nat),
            None => parsed_upto(s@, max as nat) is None,
        },
{
    let v = chars_of(s);
    let start: usize = if v.len() > 0 && v[0] == '+' {
        1
    } else {
        0
    };
    let ghost t = s@.skip(start as int);
    proof {
        if start == 1 {
            assert(t =~= s@.drop_first());
        } else {
            assert(t =~= s@);
        }
    }
    if start == v.len() {
        return None;
    }
    let mut i: usize = start;
    let mut n: u64 = 0;
    assert(t.take(0) =~= seq![]);
    while i < v.len()
        invariant
            start <= i <= v@.len(),
            v@ == s@,
            t == s@.skip(start as int),
            t == (if s@.len() > 0 && s@[0] == '+' {
                s@.drop_first()
            } else {
                s@
            }),
            forall|j: int| 0 <= j < i - start ==> digit(#[trigger] t[j]),
            n == numeral_value(t.take(i - start)),
            n <= max,
        decreases v@.len() - i,
    {
        let c: char = v[i];
        assert(t[i - start] == c);
        if !is_digit(c) {
            assert(!all_digits(t));
            return None;
        }
        let d: u64 = (c as u32 - '0' as u32) as u64;
        let wide: u128 = n as u128 * 10 + d as u128;
        proof {
            assert(t.take(i - start + 1).drop_last() =~= t.take(i - start));
            assert(numeral_value(t.take(i - start + 1)) == wide);
        }
        if wide > max as u128 {
            proof {
                if all_digits(t) {
                    lemma_value_grows(t, i - start + 1);
                }
            }
            return None;
        }
        n = wide as u64;
        i = i + 1;
    }
    assert(t.take(i - start) =~= t);
    Some(n)
}

// ---------------------------------------------------------------------------
// Quoting
// ---------------------------------------------------------------------------

/// The text that `{:?}` prints for a string: quotation marks around it, and
/// the escapes that std chooses inside.
pub uninterp spec fn quoted_text(s: Seq<char>) -> Seq<char>;

/// `format!("{:?}")` on a string slice, that is the `Debug` impl of `str`.
/// Claimed: the result depends on the characters of `s` alone.
#[verifier::external_body]
pub(crate) fn quoted(s: &str) -> (r: String)
    ensures
        r@ == quoted_text(s@),
{
    format!("{:?}", s)
}

/// Names as a list of quoted texts.
pub open spec fn quoted_all(names: Seq<Seq<char>>) -> Seq<Seq<char>> {
    names.map_values(|n: Seq<char>| quoted_text(n))
}

/// Names as a list of quoted texts in brackets.
pub open spec fn quoted_list(names: Seq<Seq<char>>) -> Seq<char> {
    "["@ + joined(quoted_all(names), ", "@) + "]"@
}

/// Names as a list of quoted texts in brackets.
pub fn quote_list(names: &Vec<String>) -> (r: String)
    ensures
        r@ == quoted_list(names.deep_view()),
{
    let ghost all = names.deep_view();
    let mut out: Vec<String> = Vec::new();
    let mut i: usize = 0;
    while i < names.len()
        invariant
            i <= names@.len(),
            all == names.deep_view(),
            out.deep_view() =~= quoted_all(all.take(i as int)),
        decreases names@.len() - i,
    {
        let q: String = quoted(names[i].as_str());
        push_text(&mut out, q.as_str());
        i = i + 1;
    }
    assert(all.take(i as int) =~= all);
    let inner: String = join(&out, ", ");
    cat3("[", inner.as_str(), "]")
}

/// A text with blanks behind it, up to a width.
pub open spec fn widened(s: Seq<char>, width: nat) -> Seq<char> {
    s + Seq::new((if s.len() < width { width - s.len() } else { 0 }) as nat, |i: int| ' ')
}

/// A text with blanks behind it, up to a width.
pub fn widen(s: &str, width: usize) -> (r: String)
    ensures
        r@ == widened(s@, width as nat),
{
    let mut out: String = s.to_owned();
    let n: usize = s.unicode_len();
    if n >= width {
        assert(out@ =~= widened(s@, width as nat));
        return out;
    }
    let mut i: usize = n;
    assert(out@ =~= s@ + Seq::new(0, |j: int| ' '));
    while i < width
        invariant
            n == s@.len(),
            n <= i <= width,
            out@ == s@ + Seq::new((i - n) as nat, |j: int| ' '),
        decreases width - i,
    {
        proof {
            reveal_strlit(" ");
        }
        out.append(" ");
        assert(out@ =~= s@ + Seq::new((i + 1 - n) as nat, |j: int| ' '));
        i = i + 1;
    }
    out
}

} // verus!
