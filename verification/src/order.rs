//! Sorting by a text key: stable, and without duplicates where a set is meant.

use vstd::prelude::*;

use crate::text;

verus! {

/// A value with a text to sort by.
pub trait Keyed: DeepView {
    /// The key of a value.
    spec fn key_of(v: Self::V) -> Seq<char>;

    /// The key of this value.
    fn key(&self) -> (r: &str)
        ensures
            r@ == Self::key_of(self.deep_view()),
    ;
}

impl Keyed for String {
    open spec fn key_of(v: Seq<char>) -> Seq<char> {
        v
    }

    fn key(&self) -> (r: &str) {
        self.as_str()
    }
}

impl<T: Keyed> Keyed for &T {
    open spec fn key_of(v: T::V) -> Seq<char> {
        T::key_of(v)
    }

    fn key(&self) -> (r: &str) {
        (**self).key()
    }
}

/// `s`, which is sorted, with `x` behind everything that does not sort after
/// it.
pub open spec fn placed<A>(s: Seq<A>, x: A, key: spec_fn(A) -> Seq<char>) -> Seq<A>
    decreases s.len(),
{
    if s.len() > 0 && text::less(key(x), key(s.last())) {
        placed(s.drop_last(), x, key).push(s.last())
    } else {
        s.push(x)
    }
}

/// `s` in the order of its keys; equal keys keep the order they had.
pub open spec fn sorted<A>(s: Seq<A>, key: spec_fn(A) -> Seq<char>) -> Seq<A>
    decreases s.len(),
{
    if s.len() == 0 {
        seq![]
    } else {
        placed(sorted(s.drop_last(), key), s.last(), key)
    }
}

/// No key sorts before one in front of it.
pub open spec fn ascending<A>(s: Seq<A>, key: spec_fn(A) -> Seq<char>) -> bool {
    forall|i: int, j: int|
        0 <= i < j < s.len() ==> !text::less(#[trigger] key(s[j]), #[trigger] key(s[i]))
}

/// Placing into a sorted sequence is inserting at the one right index.
proof fn lemma_placed_at<A>(s: Seq<A>, x: A, key: spec_fn(A) -> Seq<char>, i: int)
    requires
        0 <= i <= s.len(),
        forall|j: int| i <= j < s.len() ==> text::less(key(x), #[trigger] key(s[j])),
        i > 0 ==> !text::less(key(x), key(s[i - 1])),
    ensures
        placed(s, x, key) == s.insert(i, x),
    decreases s.len(),
{
    if s.len() > 0 && text::less(key(x), key(s.last())) {
        if i == s.len() {
            assert(s[i - 1] == s.last());
        }
        let t = s.drop_last();
        assert forall|j: int| i <= j < t.len() implies text::less(key(x), #[trigger] key(t[j])) by {
            assert(t[j] == s[j]);
        }
        lemma_placed_at(t, x, key, i);
        assert(t.insert(i, x).push(s.last()) =~= s.insert(i, x));
    } else {
        if i < s.len() {
            assert(text::less(key(x), key(s[s.len() - 1])));
        }
        assert(s.push(x) =~= s.insert(i, x));
    }
}

/// What stands in a placed-into sequence.
proof fn lemma_placed_ascending<A>(s: Seq<A>, x: A, key: spec_fn(A) -> Seq<char>)
    requires
        ascending(s, key),
    ensures
        ascending(placed(s, x, key), key),
        placed(s, x, key).len() == s.len() + 1,
        placed(s, x, key).to_multiset() == s.to_multiset().insert(x),
        forall|i: int|
            0 <= i < placed(s, x, key).len() ==> #[trigger] placed(s, x, key)[i] == x || s.contains(
                placed(s, x, key)[i],
            ),
    decreases s.len(),
{
    broadcast use vstd::seq_lib::group_to_multiset_ensures;

    let p = placed(s, x, key);
    if s.len() > 0 && text::less(key(x), key(s.last())) {
        let t = s.drop_last();
        assert forall|i: int, j: int| 0 <= i < j < t.len() implies !text::less(
            #[trigger] key(t[j]),
            #[trigger] key(t[i]),
        ) by {
            assert(t[i] == s[i] && t[j] == s[j]);
        }
        lemma_placed_ascending(t, x, key);
        let q = placed(t, x, key);
        assert(p == q.push(s.last()));
        assert forall|i: int, j: int| 0 <= i < j < p.len() implies !text::less(
            #[trigger] key(p[j]),
            #[trigger] key(p[i]),
        ) by {
            if j < q.len() {
                assert(p[i] == q[i] && p[j] == q[j]);
            } else {
                assert(p[i] == q[i]);
                assert(p[j] == s.last());
                if q[i] == x {
                    if text::less(key(s.last()), key(x)) {
                        text::lemma_less_transitive(key(x), key(s.last()), key(x));
                        text::lemma_less_irreflexive(key(x));
                    }
                } else {
                    let k = choose|k: int| 0 <= k < t.len() && t[k] == q[i];
                    assert(s[k] == q[i]);
                    assert(s[s.len() - 1] == s.last());
                    assert(!text::less(key(s[s.len() - 1]), key(s[k])));
                }
            }
        }
        assert forall|i: int| 0 <= i < p.len() implies #[trigger] p[i] == x || s.contains(p[i]) by {
            if i < q.len() {
                assert(p[i] == q[i]);
                if q[i] != x {
                    let k = choose|k: int| 0 <= k < t.len() && t[k] == q[i];
                    assert(s[k] == q[i]);
                }
            } else {
                assert(s[s.len() - 1] == p[i]);
            }
        }
        assert(s =~= t.push(s.last()));
        assert(p.to_multiset() =~= s.to_multiset().insert(x));
    } else {
        assert(p == s.push(x));
        assert forall|i: int, j: int| 0 <= i < j < p.len() implies !text::less(
            #[trigger] key(p[j]),
            #[trigger] key(p[i]),
        ) by {
            if j < s.len() {
                assert(p[i] == s[i] && p[j] == s[j]);
            } else {
                assert(p[i] == s[i]);
                let last = s.last();
                assert(s[s.len() - 1] == last);
                if text::less(key(x), key(s[i])) {
                    if i < s.len() - 1 {
                        text::lemma_less_total(key(s[i]), key(last));
                        assert(!text::less(key(s[s.len() - 1]), key(s[i])));
                        if key(s[i]) != key(last) {
                            text::lemma_less_transitive(key(x), key(s[i]), key(last));
                        }
                    }
                }
            }
        }
        assert forall|i: int| 0 <= i < p.len() implies #[trigger] p[i] == x || s.contains(p[i]) by {
            if i < s.len() {
                assert(p[i] == s[i]);
            }
        }
    }
}

/// Sorting gives the same items in ascending order of their keys.
pub proof fn law_sorted<A>(s: Seq<A>, key: spec_fn(A) -> Seq<char>)
    ensures
        ascending(sorted(s, key), key),
        sorted(s, key).to_multiset() == s.to_multiset(),
        sorted(s, key).len() == s.len(),
    decreases s.len(),
{
    broadcast use vstd::seq_lib::group_to_multiset_ensures;

    if s.len() > 0 {
        law_sorted(s.drop_last(), key);
        lemma_placed_ascending(sorted(s.drop_last(), key), s.last(), key);
        assert(s =~= s.drop_last().push(s.last()));
    } else {
        assert(s =~= seq![]);
        assert(sorted(s, key) =~= s);
    }
}

/// Sorts by key; equal keys keep their order.
pub fn sort<T: Keyed>(v: Vec<T>) -> (r: Vec<T>)
    ensures
        r.deep_view() == sorted(v.deep_view(), |x: T::V| T::key_of(x)),
        r@.len() == v@.len(),
{
    let ghost key = |x: T::V| T::key_of(x);
    let ghost all = v.deep_view();
    let mut rest: Vec<T> = v;
    let mut out: Vec<T> = Vec::new();
    let n: usize = rest.len();
    let mut done: usize = 0;
    assert(out.deep_view() =~= sorted(all.take(0), key));
    assert(rest.deep_view() =~= all.skip(0));
    while done < n
        invariant
            done <= n,
            n == all.len(),
            rest@.len() == n - done,
            out@.len() == done,
            rest.deep_view() == all.skip(done as int),
            out.deep_view() == sorted(all.take(done as int), key),
            key == (|x: T::V| T::key_of(x)),
        decreases n - done,
    {
        let ghost tail = rest.deep_view();
        let ghost held = rest@;
        let ghost so_far = out.deep_view();
        let x: T = rest.remove(0);
        proof {
            assert(tail[0] == x.deep_view());
            assert forall|k: int| 0 <= k < rest@.len() implies #[trigger] rest.deep_view()[k]
                == all.skip(done + 1)[k] by {
                assert(rest@[k] == held[k + 1]);
                assert(tail[k + 1] == held[k + 1].deep_view());
            }
            assert(rest.deep_view() =~= all.skip(done + 1));
            assert(all.take(done + 1).drop_last() =~= all.take(done as int));
            assert(all.take(done + 1).last() == x.deep_view());
            law_sorted(all.take(done as int), key);
        }
        let mut i: usize = out.len();
        while i > 0 && text::is_less(x.key(), out[i - 1].key())
            invariant
                i <= out@.len(),
                out.deep_view() == so_far,
                key == (|x: T::V| T::key_of(x)),
                forall|j: int|
                    i <= j < so_far.len() ==> text::less(
                        key(x.deep_view()),
                        #[trigger] key(so_far[j]),
                    ),
            decreases i,
        {
            assert(so_far[i - 1] == out@[i - 1].deep_view());
            i = i - 1;
        }
        proof {
            if i > 0 {
                assert(so_far[i - 1] == out@[i - 1].deep_view());
            }
            lemma_placed_at(so_far, x.deep_view(), key, i as int);
        }
        out.insert(i, x);
        assert(out.deep_view() =~= so_far.insert(i as int, x.deep_view()));
        done = done + 1;
    }
    assert(all.take(done as int) =~= all);
    out
}

/// Texts in ascending order.
pub open spec fn sorted_texts(s: Seq<Seq<char>>) -> Seq<Seq<char>> {
    sorted(s, |x: Seq<char>| x)
}

/// Texts in ascending order.
pub fn sort_texts(v: Vec<String>) -> (r: Vec<String>)
    ensures
        r.deep_view() == sorted_texts(v.deep_view()),
        r@.len() == v@.len(),
{
    assert((|x: Seq<char>| String::key_of(x)) =~= (|x: Seq<char>| x));
    sort(v)
}

/// The texts of `s` in ascending order, each once.
pub open spec fn sorted_set(s: Seq<Seq<char>>) -> Seq<Seq<char>>
    decreases s.len(),
{
    if s.len() == 0 {
        seq![]
    } else {
        let t = sorted_set(s.drop_last());
        if t.contains(s.last()) {
            t
        } else {
            placed(t, s.last(), |x: Seq<char>| x)
        }
    }
}

/// Each text sorts before every one behind it.
pub open spec fn strictly_ascending(s: Seq<Seq<char>>) -> bool {
    forall|i: int, j: int| 0 <= i < j < s.len() ==> text::less(#[trigger] s[i], #[trigger] s[j])
}

/// `sorted_set` holds what `s` holds, each text once, in ascending order.
pub proof fn law_sorted_set(s: Seq<Seq<char>>)
    ensures
        strictly_ascending(sorted_set(s)),
        forall|x: Seq<char>| sorted_set(s).contains(x) <==> s.contains(x),
    decreases s.len(),
{
    broadcast use vstd::seq_lib::group_to_multiset_ensures;

    let id = |x: Seq<char>| x;
    if s.len() > 0 {
        law_sorted_set(s.drop_last());
        let t = sorted_set(s.drop_last());
        let last = s.last();
        let p = sorted_set(s);
        assert forall|x: Seq<char>| s.contains(x) <==> s.drop_last().contains(x) || x == last by {
            if s.contains(x) {
                let i = choose|i: int| 0 <= i < s.len() && s[i] == x;
                if i < s.len() - 1 {
                    assert(s.drop_last()[i] == x);
                }
            }
            if s.drop_last().contains(x) {
                let i = choose|i: int| 0 <= i < s.drop_last().len() && s.drop_last()[i] == x;
                assert(s[i] == x);
            }
            assert(s[s.len() - 1] == last);
        }
        if !t.contains(last) {
            assert forall|i: int, j: int| 0 <= i < j < t.len() implies !text::less(
                #[trigger] id(t[j]),
                #[trigger] id(t[i]),
            ) by {
                assert(text::less(t[i], t[j]));
                if text::less(t[j], t[i]) {
                    text::lemma_less_transitive(t[i], t[j], t[i]);
                    text::lemma_less_irreflexive(t[i]);
                }
            }
            lemma_placed_ascending(t, last, id);
            lemma_placed_strict(t, last, id);
            assert forall|x: Seq<char>| p.contains(x) <==> t.contains(x) || x == last by {
                assert(p.to_multiset().count(x) == t.to_multiset().insert(last).count(x));
                assert(p.contains(x) <==> p.to_multiset().count(x) > 0);
                assert(t.contains(x) <==> t.to_multiset().count(x) > 0);
            }
        }
    } else {
        assert(s =~= seq![]);
        assert(sorted_set(s) =~= s);
    }
}

proof fn lemma_placed_strict(s: Seq<Seq<char>>, x: Seq<char>, id: spec_fn(Seq<char>) -> Seq<char>)
    requires
        strictly_ascending(s),
        !s.contains(x),
        id == (|y: Seq<char>| y),
    ensures
        strictly_ascending(placed(s, x, id)),
        forall|i: int|
            0 <= i < placed(s, x, id).len() ==> #[trigger] placed(s, x, id)[i] == x || s.contains(
                placed(s, x, id)[i],
            ),
    decreases s.len(),
{
    let p = placed(s, x, id);
    if s.len() > 0 && text::less(id(x), id(s.last())) {
        let t = s.drop_last();
        assert forall|i: int, j: int| 0 <= i < j < t.len() implies text::less(
            #[trigger] t[i],
            #[trigger] t[j],
        ) by {
            assert(t[i] == s[i] && t[j] == s[j]);
        }
        assert(!t.contains(x)) by {
            if t.contains(x) {
                let k = choose|k: int| 0 <= k < t.len() && t[k] == x;
                assert(s[k] == x);
            }
        }
        lemma_placed_strict(t, x, id);
        let q = placed(t, x, id);
        assert(p == q.push(s.last()));
        assert forall|i: int, j: int| 0 <= i < j < p.len() implies text::less(
            #[trigger] p[i],
            #[trigger] p[j],
        ) by {
            if j < q.len() {
                assert(p[i] == q[i] && p[j] == q[j]);
            } else {
                assert(p[i] == q[i]);
                if q[i] != x {
                    let k = choose|k: int| 0 <= k < t.len() && t[k] == q[i];
                    assert(s[k] == q[i]);
                    assert(s[s.len() - 1] == s.last());
                }
            }
        }
        assert forall|i: int| 0 <= i < p.len() implies #[trigger] p[i] == x || s.contains(p[i]) by {
            if i < q.len() {
                assert(p[i] == q[i]);
                if q[i] != x {
                    let k = choose|k: int| 0 <= k < t.len() && t[k] == q[i];
                    assert(s[k] == q[i]);
                }
            } else {
                assert(s[s.len() - 1] == p[i]);
            }
        }
    } else {
        assert(p == s.push(x));
        assert forall|i: int, j: int| 0 <= i < j < p.len() implies text::less(
            #[trigger] p[i],
            #[trigger] p[j],
        ) by {
            if j < s.len() {
                assert(p[i] == s[i] && p[j] == s[j]);
            } else {
                assert(p[i] == s[i]);
                assert(s[s.len() - 1] == s.last());
                assert(s.contains(s.last()));
                text::lemma_less_total(x, s.last());
                if i < s.len() - 1 {
                    assert(text::less(s[i], s[s.len() - 1]));
                    text::lemma_less_transitive(s[i], s.last(), x);
                }
            }
        }
        assert forall|i: int| 0 <= i < p.len() implies #[trigger] p[i] == x || s.contains(p[i]) by {
            if i < s.len() {
                assert(p[i] == s[i]);
            }
        }
    }
}

/// The strings in ascending order, each once.
pub fn sort_set(v: &Vec<String>) -> (r: Vec<String>)
    ensures
        r.deep_view() == sorted_set(v.deep_view()),
{
    let mut out: Vec<String> = Vec::new();
    let ghost all = v.deep_view();
    let ghost id = |x: Seq<char>| x;
    let mut n: usize = 0;
    assert(out.deep_view() =~= sorted_set(all.take(0)));
    while n < v.len()
        invariant
            n <= v@.len(),
            all == v.deep_view(),
            id == (|x: Seq<char>| x),
            out.deep_view() == sorted_set(all.take(n as int)),
        decreases v@.len() - n,
    {
        let ghost so_far = out.deep_view();
        proof {
            assert(all.take(n + 1).drop_last() =~= all.take(n as int));
            assert(all.take(n + 1).last() == v@[n as int]@);
            law_sorted_set(all.take(n as int));
        }
        if !text::any_eq(&out, v[n].as_str()) {
            let mut i: usize = out.len();
            while i > 0 && text::is_less(v[n].as_str(), out[i - 1].as_str())
                invariant
                    n < v@.len(),
                    i <= out@.len(),
                    out.deep_view() == so_far,
                    id == (|x: Seq<char>| x),
                    forall|j: int|
                        i <= j < so_far.len() ==> text::less(
                            id(v@[n as int]@),
                            #[trigger] id(so_far[j]),
                        ),
                decreases i,
            {
                assert(so_far[i - 1] == out@[i - 1]@);
                i = i - 1;
            }
            proof {
                if i > 0 {
                    assert(so_far[i - 1] == out@[i - 1]@);
                }
                lemma_placed_at(so_far, v@[n as int]@, id, i as int);
            }
            let x: String = v[n].clone();
            out.insert(i, x);
            assert(out.deep_view() =~= so_far.insert(i as int, x@));
        }
        n = n + 1;
    }
    assert(all.take(n as int) =~= all);
    out
}

} // verus!
