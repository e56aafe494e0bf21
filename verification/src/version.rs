//! Versions: texts in which runs of digits count as numbers.

use vstd::prelude::*;

use crate::text;

verus! {

/// How many digits `s` begins with.
pub open spec fn digits_len(s: Seq<char>) -> int
    decreases s.len(),
{
    if s.len() > 0 && text::digit(s[0]) {
        1 + digits_len(s.drop_first())
    } else {
        0
    }
}

/// The number that `s` begins with.
pub open spec fn leading(s: Seq<char>) -> nat {
    text::numeral_value(s.take(digits_len(s)))
}

/// `a` is an older version than `b`: at the first difference, runs of digits
/// taken as numbers and everything else character by character, it has the
/// smaller number or character, or it ends there.
pub open spec fn older(a: Seq<char>, b: Seq<char>) -> bool
    decreases a.len(),
{
    if b.len() == 0 {
        false
    } else if a.len() == 0 {
        true
    } else if text::digit(a[0]) && text::digit(b[0]) {
        proof {
            lemma_digits_len(a);
        }
        if leading(a) == leading(b) {
            older(a.skip(digits_len(a)), b.skip(digits_len(b)))
        } else {
            leading(a) < leading(b)
        }
    } else if a[0] == b[0] {
        older(a.drop_first(), b.drop_first())
    } else {
        a[0] < b[0]
    }
}

/// `a` is a newer version than `b`. Of texts that read as the same version,
/// such as `6.1` and `6.01`, the one that sorts behind is taken as the newer.
pub open spec fn newer(a: Seq<char>, b: Seq<char>) -> bool {
    older(b, a) || (!older(a, b) && text::less(b, a))
}

/// The digits at the front are those before the first other character.
pub proof fn lemma_digits_len(s: Seq<char>)
    ensures
        0 <= digits_len(s) <= s.len(),
        s.len() > 0 && text::digit(s[0]) ==> digits_len(s) > 0,
        text::all_digits(s.take(digits_len(s))),
        digits_len(s) < s.len() ==> !text::digit(s[digits_len(s)]),
    decreases s.len(),
{
    if s.len() > 0 && text::digit(s[0]) {
        let t = s.drop_first();
        lemma_digits_len(t);
        assert forall|i: int| 0 <= i < digits_len(s) implies text::digit(
            #[trigger] s.take(digits_len(s))[i],
        ) by {
            if i > 0 {
                assert(t.take(digits_len(t))[i - 1] == s[i]);
            }
        }
        if digits_len(s) < s.len() {
            assert(s[digits_len(s)] == t[digits_len(t)]);
        }
    }
}

/// The run of digits ends where the first other character stands.
proof fn lemma_digits_len_is(s: Seq<char>, n: int)
    requires
        0 <= n <= s.len(),
        forall|i: int| 0 <= i < n ==> text::digit(#[trigger] s[i]),
        n < s.len() ==> !text::digit(s[n]),
    ensures
        digits_len(s) == n,
    decreases s.len(),
{
    if n > 0 {
        assert(text::digit(s[0]));
        let t = s.drop_first();
        assert forall|i: int| 0 <= i < n - 1 implies text::digit(#[trigger] t[i]) by {
            assert(t[i] == s[i + 1]);
        }
        if n < s.len() {
            assert(t[n - 1] == s[n]);
        }
        lemma_digits_len_is(t, n - 1);
    }
}

/// No version is older than itself.
pub proof fn lemma_older_irreflexive(a: Seq<char>)
    ensures
        !older(a, a),
    decreases a.len(),
{
    if a.len() > 0 {
        lemma_digits_len(a);
        if text::digit(a[0]) {
            lemma_older_irreflexive(a.skip(digits_len(a)));
        } else {
            lemma_older_irreflexive(a.drop_first());
        }
    }
}

/// What is older than an older one is older.
pub proof fn lemma_older_transitive(a: Seq<char>, b: Seq<char>, c: Seq<char>)
    requires
        older(a, b),
        older(b, c),
    ensures
        older(a, c),
    decreases a.len(),
{
    if a.len() > 0 && b.len() > 0 && c.len() > 0 {
        lemma_digits_len(a);
        if text::digit(a[0]) && text::digit(b[0]) && text::digit(c[0]) {
            if leading(a) == leading(b) && leading(b) == leading(c) {
                lemma_older_transitive(
                    a.skip(digits_len(a)),
                    b.skip(digits_len(b)),
                    c.skip(digits_len(c)),
                );
            }
        } else if a[0] == b[0] && b[0] == c[0] {
            lemma_older_transitive(a.drop_first(), b.drop_first(), c.drop_first());
        }
    }
}

/// Where one version is older than another, a third is newer than the first or
/// older than the second.
pub proof fn lemma_older_parts(a: Seq<char>, b: Seq<char>, c: Seq<char>)
    requires
        older(a, c),
    ensures
        older(a, b) || older(b, c),
    decreases a.len(),
{
    if a.len() > 0 && b.len() > 0 && c.len() > 0 {
        lemma_digits_len(a);
        if text::digit(a[0]) && text::digit(b[0]) && text::digit(c[0]) {
            if leading(a) == leading(b) && leading(b) == leading(c) {
                lemma_older_parts(
                    a.skip(digits_len(a)),
                    b.skip(digits_len(b)),
                    c.skip(digits_len(c)),
                );
            }
        } else if a[0] == b[0] && b[0] == c[0] {
            lemma_older_parts(a.drop_first(), b.drop_first(), c.drop_first());
        }
    }
}

/// Of two different versions exactly one is the newer, and what is newer than
/// a newer one is newer.
pub proof fn law_newer_is_an_order(a: Seq<char>, b: Seq<char>, c: Seq<char>)
    ensures
        !newer(a, a),
        a != b ==> newer(a, b) != newer(b, a),
        newer(a, b) && newer(b, c) ==> newer(a, c),
{
    lemma_older_irreflexive(a);
    text::lemma_less_irreflexive(a);
    lemma_asymmetric(a, b);
    text::lemma_less_total(a, b);
    if newer(a, b) && newer(b, c) {
        lemma_newer_transitive(a, b, c);
    }
}

proof fn lemma_asymmetric(a: Seq<char>, b: Seq<char>)
    ensures
        !(older(a, b) && older(b, a)),
        !(text::less(a, b) && text::less(b, a)),
{
    lemma_older_irreflexive(a);
    text::lemma_less_irreflexive(a);
    if older(a, b) && older(b, a) {
        lemma_older_transitive(a, b, a);
    }
    if text::less(a, b) && text::less(b, a) {
        text::lemma_less_transitive(a, b, a);
    }
}

proof fn lemma_newer_transitive(a: Seq<char>, b: Seq<char>, c: Seq<char>)
    requires
        newer(a, b),
        newer(b, c),
    ensures
        newer(a, c),
{
    lemma_asymmetric(a, b);
    lemma_asymmetric(b, c);
    if older(c, b) {
        lemma_older_parts(c, a, b);
        if !older(c, a) {
            assert(false);
        }
    } else if older(b, a) {
        lemma_older_parts(b, c, a);
        assert(older(c, a));
    } else {
        text::lemma_less_transitive(c, b, a);
        if older(a, c) {
            lemma_older_parts(a, b, c);
        }
    }
}

// ---------------------------------------------------------------------------
// Comparing
// ---------------------------------------------------------------------------

/// How many digits stand in `v` from `i` on.
fn count_digits(v: &Vec<char>, i: usize) -> (n: usize)
    requires
        i <= v@.len(),
    ensures
        n == digits_len(v@.skip(i as int)),
        n <= v@.len() - i,
{
    let ghost s = v@.skip(i as int);
    let mut n: usize = 0;
    while n < v.len() - i && text::is_digit(v[i + n])
        invariant
            i <= v@.len(),
            n <= v@.len() - i,
            s == v@.skip(i as int),
            forall|k: int| 0 <= k < n ==> text::digit(#[trigger] s[k]),
        decreases v@.len() - i - n,
    {
        assert(s[n as int] == v@[i + n]);
        n = n + 1;
    }
    proof {
        if n < s.len() {
            assert(s[n as int] == v@[i + n]);
        }
        lemma_digits_len_is(s, n as int);
    }
    n
}

/// The digits of `s` that `left` digits are still behind of.
spec fn so_far(s: Seq<char>, left: int) -> Seq<char> {
    if s.len() <= left {
        seq![]
    } else {
        s.take(s.len() - left)
    }
}

/// The digit of `s` that `left` digits stand behind; 0 before its first.
fn digit_at(v: &Vec<char>, i: usize, m: usize, left: usize) -> (d: u32)
    requires
        i + m <= v@.len(),
        text::all_digits(v@.subrange(i as int, i + m)),
    ensures
        d <= 9,
        text::numeral_value(so_far(v@.subrange(i as int, i + m), left as int)) == 10
            * text::numeral_value(so_far(v@.subrange(i as int, i + m), left + 1)) + d,
{
    let ghost s = v@.subrange(i as int, i + m);
    let end: usize = v.len();
    if left < m {
        assert(i + m <= end);
        let c: char = v[i + (m - 1 - left)];
        proof {
            assert(s[m - 1 - left] == c);
            assert(text::digit(c));
            let t = so_far(s, left as int);
            assert(t.last() == c);
            assert(t.drop_last() =~= so_far(s, left + 1));
        }
        c as u32 - '0' as u32
    } else {
        0
    }
}

/// Weighs the number of `m` digits in `x` against that of `n` digits in `y`:
/// negative where it is smaller, positive where it is greater.
fn weigh(x: &Vec<char>, i: usize, m: usize, y: &Vec<char>, j: usize, n: usize) -> (r: i32)
    requires
        i + m <= x@.len(),
        j + n <= y@.len(),
        text::all_digits(x@.subrange(i as int, i + m)),
        text::all_digits(y@.subrange(j as int, j + n)),
    ensures
        r < 0 <==> text::numeral_value(x@.subrange(i as int, i + m)) < text::numeral_value(
            y@.subrange(j as int, j + n),
        ),
        r == 0 <==> text::numeral_value(x@.subrange(i as int, i + m)) == text::numeral_value(
            y@.subrange(j as int, j + n),
        ),
{
    let ghost a = x@.subrange(i as int, i + m);
    let ghost b = y@.subrange(j as int, j + n);
    let mut left: usize = if m < n {
        n
    } else {
        m
    };
    let mut r: i32 = 0;
    while left > 0
        invariant
            i + m <= x@.len(),
            j + n <= y@.len(),
            a == x@.subrange(i as int, i + m),
            b == y@.subrange(j as int, j + n),
            text::all_digits(a),
            text::all_digits(b),
            r < 0 <==> text::numeral_value(so_far(a, left as int)) < text::numeral_value(
                so_far(b, left as int),
            ),
            r == 0 <==> text::numeral_value(so_far(a, left as int)) == text::numeral_value(
                so_far(b, left as int),
            ),
        decreases left,
    {
        left = left - 1;
        let d: u32 = digit_at(x, i, m, left);
        let e: u32 = digit_at(y, j, n, left);
        if r == 0 {
            r = if d < e {
                -1
            } else if d == e {
                0
            } else {
                1
            };
        }
    }
    assert(so_far(a, 0) =~= a);
    assert(so_far(b, 0) =~= b);
    r
}

/// True iff `a` is an older version than `b`.
pub fn is_older(a: &str, b: &str) -> (r: bool)
    ensures
        r == older(a@, b@),
{
    let x = text::chars_of(a);
    let y = text::chars_of(b);
    let mut i: usize = 0;
    let mut j: usize = 0;
    assert(x@.skip(0) =~= x@);
    assert(y@.skip(0) =~= y@);
    while i < x.len() && j < y.len()
        invariant
            i <= x@.len(),
            j <= y@.len(),
            x@ == a@,
            y@ == b@,
            older(a@, b@) == older(x@.skip(i as int), y@.skip(j as int)),
        decreases x@.len() - i,
    {
        let ghost s = x@.skip(i as int);
        let ghost t = y@.skip(j as int);
        let p: char = x[i];
        let q: char = y[j];
        assert(s[0] == p && t[0] == q);
        if text::is_digit(p) && text::is_digit(q) {
            let m: usize = count_digits(&x, i);
            let n: usize = count_digits(&y, j);
            proof {
                lemma_digits_len(s);
                lemma_digits_len(t);
                assert(s.take(m as int) =~= x@.subrange(i as int, i + m));
                assert(t.take(n as int) =~= y@.subrange(j as int, j + n));
                assert(s.skip(m as int) =~= x@.skip(i + m));
                assert(t.skip(n as int) =~= y@.skip(j + n));
            }
            let r: i32 = weigh(&x, i, m, &y, j, n);
            if r != 0 {
                return r < 0;
            }
            i = i + m;
            j = j + n;
        } else {
            assert(s.drop_first() =~= x@.skip(i + 1));
            assert(t.drop_first() =~= y@.skip(j + 1));
            if p != q {
                return p < q;
            }
            i = i + 1;
            j = j + 1;
        }
    }
    j < y.len()
}

/// True iff `a` is a newer version than `b`.
pub fn is_newer(a: &str, b: &str) -> (r: bool)
    ensures
        r == newer(a@, b@),
{
    is_older(b, a) || (!is_older(a, b) && text::is_less(b, a))
}

// ---------------------------------------------------------------------------
// Sorting
// ---------------------------------------------------------------------------

/// `s`, the newest first, with `x` before everything older at its end.
pub open spec fn placed(s: Seq<Seq<char>>, x: Seq<char>) -> Seq<Seq<char>>
    decreases s.len(),
{
    if s.len() > 0 && newer(x, s.last()) {
        placed(s.drop_last(), x).push(s.last())
    } else {
        s.push(x)
    }
}

/// The same texts, the newest version first.
pub open spec fn newest_first(s: Seq<Seq<char>>) -> Seq<Seq<char>>
    decreases s.len(),
{
    if s.len() == 0 {
        seq![]
    } else {
        placed(newest_first(s.drop_last()), s.last())
    }
}

/// None stands behind an older one.
pub open spec fn descending(s: Seq<Seq<char>>) -> bool {
    forall|i: int, j: int| 0 <= i < j < s.len() ==> !newer(#[trigger] s[j], #[trigger] s[i])
}

proof fn lemma_placed_at(s: Seq<Seq<char>>, x: Seq<char>, i: int)
    requires
        0 <= i <= s.len(),
        forall|j: int| i <= j < s.len() ==> newer(x, #[trigger] s[j]),
        i > 0 ==> !newer(x, s[i - 1]),
    ensures
        placed(s, x) == s.insert(i, x),
    decreases s.len(),
{
    if s.len() > 0 && newer(x, s.last()) {
        if i == s.len() {
            assert(s[i - 1] == s.last());
        }
        let t = s.drop_last();
        assert forall|j: int| i <= j < t.len() implies newer(x, #[trigger] t[j]) by {
            assert(t[j] == s[j]);
        }
        lemma_placed_at(t, x, i);
        assert(t.insert(i, x).push(s.last()) =~= s.insert(i, x));
    } else {
        if i < s.len() {
            assert(newer(x, s[s.len() - 1]));
        }
        assert(s.push(x) =~= s.insert(i, x));
    }
}

proof fn lemma_placed(s: Seq<Seq<char>>, x: Seq<char>)
    requires
        descending(s),
    ensures
        descending(placed(s, x)),
        placed(s, x).len() == s.len() + 1,
        placed(s, x).to_multiset() == s.to_multiset().insert(x),
        forall|i: int|
            0 <= i < placed(s, x).len() ==> #[trigger] placed(s, x)[i] == x || s.contains(
                placed(s, x)[i],
            ),
    decreases s.len(),
{
    broadcast use vstd::seq_lib::group_to_multiset_ensures;

    let p = placed(s, x);
    if s.len() > 0 && newer(x, s.last()) {
        let t = s.drop_last();
        assert(descending(t)) by {
            assert forall|i: int, j: int| 0 <= i < j < t.len() implies !newer(
                #[trigger] t[j],
                #[trigger] t[i],
            ) by {
                assert(t[i] == s[i] && t[j] == s[j]);
            }
        }
        lemma_placed(t, x);
        let q = placed(t, x);
        assert(p == q.push(s.last()));
        assert forall|i: int, j: int| 0 <= i < j < p.len() implies !newer(
            #[trigger] p[j],
            #[trigger] p[i],
        ) by {
            assert(p[i] == q[i]);
            if j < q.len() {
                assert(p[j] == q[j]);
            } else if q[i] == x {
                law_newer_is_an_order(x, s.last(), x);
            } else {
                let k = choose|k: int| 0 <= k < t.len() && t[k] == q[i];
                assert(s[k] == q[i]);
                assert(!newer(s[s.len() - 1], s[k]));
            }
        }
        assert forall|i: int| 0 <= i < p.len() implies #[trigger] p[i] == x || s.contains(p[i]) by {
            if i < q.len() {
                assert(p[i] == q[i]);
                if q[i] != x {
                    let k = choose|k: int| 0 <= k < t.len() && t[k] == q[i];
                    assert(s[k] == q[i]);
                }
            } else {
                assert(s[s.len() - 1] == p[i]);
            }
        }
        assert(s =~= t.push(s.last()));
        assert(p.to_multiset() =~= s.to_multiset().insert(x));
    } else {
        assert(p == s.push(x));
        assert forall|i: int, j: int| 0 <= i < j < p.len() implies !newer(
            #[trigger] p[j],
            #[trigger] p[i],
        ) by {
            if j < s.len() {
                assert(p[i] == s[i] && p[j] == s[j]);
            } else {
                assert(p[i] == s[i]);
                let last = s[s.len() - 1];
                if newer(x, s[i]) && i < s.len() - 1 {
                    assert(!newer(last, s[i]));
                    law_newer_is_an_order(s[i], last, x);
                    law_newer_is_an_order(x, s[i], last);
                }
            }
        }
        assert forall|i: int| 0 <= i < p.len() implies #[trigger] p[i] == x || s.contains(p[i]) by {
            if i < s.len() {
                assert(p[i] == s[i]);
            }
        }
    }
}

/// Sorting gives the same texts, and none behind an older one.
pub proof fn law_newest_first(s: Seq<Seq<char>>)
    ensures
        descending(newest_first(s)),
        newest_first(s).to_multiset() == s.to_multiset(),
        newest_first(s).len() == s.len(),
    decreases s.len(),
{
    broadcast use vstd::seq_lib::group_to_multiset_ensures;

    if s.len() > 0 {
        law_newest_first(s.drop_last());
        lemma_placed(newest_first(s.drop_last()), s.last());
        assert(s =~= s.drop_last().push(s.last()));
    } else {
        assert(s =~= seq![]);
        assert(newest_first(s) =~= s);
    }
}

/// The same texts, the newest version first.
pub fn sort_newest_first(v: &Vec<String>) -> (r: Vec<String>)
    ensures
        r.deep_view() == newest_first(v.deep_view()),
{
    let ghost all = v.deep_view();
    let mut out: Vec<String> = Vec::new();
    let mut done: usize = 0;
    assert(out.deep_view() =~= newest_first(all.take(0)));
    while done < v.len()
        invariant
            done <= v@.len(),
            all == v.deep_view(),
            out@.len() == done,
            out.deep_view() == newest_first(all.take(done as int)),
        decreases v@.len() - done,
    {
        let ghost sorted = out.deep_view();
        let x: String = v[done].clone();
        proof {
            assert(all.take(done + 1).drop_last() =~= all.take(done as int));
            assert(all.take(done + 1).last() == x@);
        }
        let mut i: usize = out.len();
        while i > 0 && is_newer(x.as_str(), out[i - 1].as_str())
            invariant
                i <= out@.len(),
                out.deep_view() == sorted,
                forall|j: int| i <= j < sorted.len() ==> newer(x@, #[trigger] sorted[j]),
            decreases i,
        {
            assert(sorted[i - 1] == out@[i - 1]@);
            i = i - 1;
        }
        proof {
            if i > 0 {
                assert(sorted[i - 1] == out@[i - 1]@);
            }
            lemma_placed_at(sorted, x@, i as int);
        }
        out.insert(i, x);
        assert(out.deep_view() =~= sorted.insert(i as int, x@));
        done = done + 1;
    }
    assert(all.take(done as int) =~= all);
    out
}

} // verus!
