//! The forest of boot environments as lines of text: each stands under the one
//! it was cloned from, with connectors that lead to it.

use vstd::prelude::*;

use crate::model;
use crate::model::{Be, BootEnvironment, Forest};
use crate::order;
use crate::order::Keyed;
use crate::text;

verus! {

/// One boot environment in its place.
#[derive(Debug)]
pub struct TreeRow<'a> {
    pub be: &'a BootEnvironment,
    /// What stands before the connector.
    pub prefix: String,
    /// It is the last of its siblings.
    pub last: bool,
}

/// One boot environment in its place, by what is known of it.
pub struct Twig {
    pub be: Be,
    pub prefix: Seq<char>,
    pub last: bool,
}

impl<'a> DeepView for TreeRow<'a> {
    type V = Twig;

    open spec fn deep_view(&self) -> Twig {
        Twig { be: self.be.deep_view(), prefix: self.prefix@, last: self.last }
    }
}

/// What leads to the last of some siblings, and to another.
pub open spec fn connector(last: bool) -> Seq<char> {
    if last {
        "└── "@
    } else {
        "├── "@
    }
}

/// What leads to the last of some siblings, and to another.
pub fn connector_text(last: bool) -> (r: &'static str)
    ensures
        r@ == connector(last),
{
    if last {
        "└── "
    } else {
        "├── "
    }
}

/// What stands before the descendants of a boot environment.
pub open spec fn deeper(prefix: Seq<char>, last: bool) -> Seq<char> {
    prefix + (if last {
        "    "@
    } else {
        "│   "@
    })
}

/// What stands before the descendants of a boot environment.
pub fn deepen(prefix: &str, last: bool) -> (r: String)
    ensures
        r@ == deeper(prefix@, last),
{
    if last {
        text::cat2(prefix, "    ")
    } else {
        text::cat2(prefix, "│   ")
    }
}

/// `c` stands directly under `b`; where `local`, only on the same pool.
pub open spec fn under(c: Be, b: Be, local: bool) -> bool {
    model::child_of(c, b.dataset) && (local ==> c.pool == b.pool)
}

/// In the order of their names.
pub open spec fn by_name(bes: Seq<Be>) -> Seq<Be> {
    order::sorted(bes, |b: Be| b.name)
}

/// The boot environments directly under `b`, by name.
pub open spec fn kids(bes: Seq<Be>, b: Be, local: bool) -> Seq<Be> {
    by_name(bes.filter(|c: Be| under(c, b, local)))
}

/// A boot environment and all that stands under it, down to a depth of `fuel`.
pub open spec fn twigs(
    bes: Seq<Be>,
    b: Be,
    prefix: Seq<char>,
    last: bool,
    local: bool,
    fuel: nat,
) -> Seq<Twig>
    decreases fuel, 0nat,
{
    if fuel == 0 {
        seq![]
    } else {
        seq![Twig { be: b, prefix, last }] + thicket(
            bes,
            kids(bes, b, local),
            deeper(prefix, last),
            local,
            (fuel - 1) as nat,
        )
    }
}

/// Siblings, each with all that stands under it.
pub open spec fn thicket(
    bes: Seq<Be>,
    ks: Seq<Be>,
    prefix: Seq<char>,
    local: bool,
    fuel: nat,
) -> Seq<Twig>
    decreases fuel, ks.len(),
{
    if ks.len() == 0 {
        seq![]
    } else {
        twigs(bes, ks[0], prefix, ks.len() == 1, local, fuel) + thicket(
            bes,
            ks.drop_first(),
            prefix,
            local,
            fuel,
        )
    }
}

/// Sorts boot environments by their names.
pub fn sort_by_name<'a>(v: Vec<&'a BootEnvironment>) -> (r: Vec<&'a BootEnvironment>)
    ensures
        r.deep_view() == by_name(v.deep_view()),
        r@.len() == v@.len(),
{
    proof {
        let f = |x: Be| <&BootEnvironment as Keyed>::key_of(x);
        let g = |b: Be| b.name;
        assert(f =~= g);
    }
    order::sort(v)
}

/// The boot environments directly under `b`, by name.
pub fn kids_of<'a>(forest: &'a Forest, b: &BootEnvironment, local: bool) -> (r: Vec<
    &'a BootEnvironment,
>)
    ensures
        r.deep_view() == kids(forest.deep_view(), b.deep_view(), local),
{
    let ghost all = forest.deep_view();
    let ghost parent = b.deep_view();
    let ghost keep = |c: Be| under(c, parent, local);
    let mut out: Vec<&BootEnvironment> = Vec::new();
    let mut i: usize = 0;
    proof {
        reveal(Seq::filter);
    }
    assert(out.deep_view() =~= all.take(0).filter(keep));
    while i < forest.bes.len()
        invariant
            i <= forest.bes@.len(),
            all == forest.deep_view(),
            parent == b.deep_view(),
            keep == (|c: Be| under(c, parent, local)),
            out.deep_view() == all.take(i as int).filter(keep),
        decreases forest.bes@.len() - i,
    {
        let ghost so_far = out.deep_view();
        proof {
            reveal(Seq::filter);
            assert(all.take(i + 1).drop_last() =~= all.take(i as int));
            assert(all.take(i + 1).last() == forest.bes@[i as int].deep_view());
        }
        let c = &forest.bes[i];
        let is_child: bool = match &c.origin {
            Some(s) => text::eq(s.dataset.as_str(), b.dataset.as_str()),
            None => false,
        };
        if is_child && (!local || text::eq(c.pool.as_str(), b.pool.as_str())) {
            out.push(c);
            assert(out.deep_view() =~= so_far.push(c.deep_view()));
        }
        i = i + 1;
    }
    assert(all.take(i as int) =~= all);
    sort_by_name(out)
}

/// Lays out a boot environment and all that stands under it.
pub fn grow<'a>(
    forest: &'a Forest,
    b: &'a BootEnvironment,
    prefix: &str,
    last: bool,
    local: bool,
    fuel: usize,
    out: &mut Vec<TreeRow<'a>>,
)
    ensures
        final(out).deep_view() == old(out).deep_view() + twigs(
            forest.deep_view(),
            b.deep_view(),
            prefix@,
            last,
            local,
            fuel as nat,
        ),
    decreases fuel, 0nat,
{
    let ghost before = out.deep_view();
    if fuel == 0 {
        assert(before =~= before + seq![]);
        return;
    }
    let row = TreeRow { be: b, prefix: prefix.to_owned(), last };
    let ghost first = row.deep_view();
    out.push(row);
    assert(out.deep_view() =~= before.push(first));
    let ks = kids_of(forest, b, local);
    let next: String = deepen(prefix, last);
    grow_all(forest, &ks, 0, next.as_str(), local, fuel - 1, out);
    proof {
        let rest = thicket(
            forest.deep_view(),
            ks.deep_view(),
            next@,
            local,
            (fuel - 1) as nat,
        );
        assert(ks.deep_view().skip(0) =~= ks.deep_view());
        assert(before.push(first) + rest =~= before + (seq![first] + rest));
    }
}

/// Lays out siblings, from the one at `i` on, each with all that stands under
/// it.
pub fn grow_all<'a>(
    forest: &'a Forest,
    ks: &Vec<&'a BootEnvironment>,
    i: usize,
    prefix: &str,
    local: bool,
    fuel: usize,
    out: &mut Vec<TreeRow<'a>>,
)
    requires
        i <= ks@.len(),
    ensures
        final(out).deep_view() == old(out).deep_view() + thicket(
            forest.deep_view(),
            ks.deep_view().skip(i as int),
            prefix@,
            local,
            fuel as nat,
        ),
    decreases fuel, ks@.len() - i,
{
    let ghost before = out.deep_view();
    let ghost rest = ks.deep_view().skip(i as int);
    if i == ks.len() {
        assert(before =~= before + seq![]);
        return;
    }
    assert(rest[0] == ks@[i as int].deep_view());
    grow(forest, ks[i], prefix, i == ks.len() - 1, local, fuel, out);
    let ghost mid = out.deep_view();
    grow_all(forest, ks, i + 1, prefix, local, fuel, out);
    proof {
        assert(rest.drop_first() =~= ks.deep_view().skip(i + 1));
        let a = twigs(
            forest.deep_view(),
            rest[0],
            prefix@,
            rest.len() == 1,
            local,
            fuel as nat,
        );
        let b = thicket(forest.deep_view(), rest.drop_first(), prefix@, local, fuel as nat);
        assert(before + a + b =~= before + (a + b));
    }
}

// ---------------------------------------------------------------------------
// Depth
// ---------------------------------------------------------------------------

/// Every boot environment ranks above the dataset it was cloned from, and none
/// ranks above `top`: there is no circle among them.
pub open spec fn ranked(bes: Seq<Be>, rank: spec_fn(Seq<char>) -> nat, top: nat) -> bool {
    forall|i: int|
        0 <= i < bes.len() ==> rank((#[trigger] bes[i]).dataset) < top && (bes[i].origin matches Some(
            s,
        ) ==> rank(s.dataset) < rank(bes[i].dataset))
}

proof fn lemma_sorted_from<A>(s: Seq<A>, key: spec_fn(A) -> Seq<char>, i: int)
    requires
        0 <= i < order::sorted(s, key).len(),
    ensures
        s.contains(order::sorted(s, key)[i]),
{
    order::law_sorted(s, key);
    let x = order::sorted(s, key)[i];
    broadcast use vstd::seq_lib::group_to_multiset_ensures;

    assert(order::sorted(s, key).contains(x));
    assert(order::sorted(s, key).to_multiset().count(x) > 0);
    assert(s.to_multiset().count(x) > 0);
}

/// Those directly under `b` are among the boot environments, and were cloned
/// from it.
pub proof fn law_kids(bes: Seq<Be>, b: Be, local: bool, i: int)
    requires
        0 <= i < kids(bes, b, local).len(),
    ensures
        bes.contains(kids(bes, b, local)[i]),
        under(kids(bes, b, local)[i], b, local),
{
    let f = |c: Be| under(c, b, local);
    let k = kids(bes, b, local)[i];
    lemma_sorted_from(bes.filter(f), |b: Be| b.name, i);
    bes.lemma_filter_contains_rev(f, k);
    let j = choose|j: int| 0 <= j < bes.filter(f).len() && bes.filter(f)[j] == k;
    bes.lemma_filter_pred(f, j);
}

/// Where nothing descends from itself, a depth of as many as there are ranks
/// reaches every boot environment: more fuel changes nothing.
pub proof fn law_depth_suffices(
    bes: Seq<Be>,
    rank: spec_fn(Seq<char>) -> nat,
    top: nat,
    b: Be,
    prefix: Seq<char>,
    last: bool,
    local: bool,
    f1: nat,
    f2: nat,
)
    requires
        ranked(bes, rank, top),
        bes.contains(b),
        f1 + rank(b.dataset) >= top,
        f2 + rank(b.dataset) >= top,
    ensures
        twigs(bes, b, prefix, last, local, f1) == twigs(bes, b, prefix, last, local, f2),
    decreases f1, 0nat,
{
    let i = choose|i: int| 0 <= i < bes.len() && bes[i] == b;
    assert(rank(bes[i].dataset) < top);
    assert forall|k: int| 0 <= k < kids(bes, b, local).len() implies bes.contains(
        #[trigger] kids(bes, b, local)[k],
    ) && rank(b.dataset) < rank(kids(bes, b, local)[k].dataset) by {
        law_kids(bes, b, local, k);
        let c = kids(bes, b, local)[k];
        let j = choose|j: int| 0 <= j < bes.len() && bes[j] == c;
        assert(bes[j].origin is Some);
    }
    lemma_thicket_suffices(
        bes,
        rank,
        top,
        kids(bes, b, local),
        deeper(prefix, last),
        local,
        (f1 - 1) as nat,
        (f2 - 1) as nat,
    );
}

proof fn lemma_thicket_suffices(
    bes: Seq<Be>,
    rank: spec_fn(Seq<char>) -> nat,
    top: nat,
    ks: Seq<Be>,
    prefix: Seq<char>,
    local: bool,
    f1: nat,
    f2: nat,
)
    requires
        ranked(bes, rank, top),
        forall|k: int|
            0 <= k < ks.len() ==> bes.contains(#[trigger] ks[k]) && f1 + rank(ks[k].dataset) >= top
                && f2 + rank(ks[k].dataset) >= top,
    ensures
        thicket(bes, ks, prefix, local, f1) == thicket(bes, ks, prefix, local, f2),
    decreases f1, ks.len(),
{
    if ks.len() > 0 {
        assert(bes.contains(ks[0]));
        law_depth_suffices(bes, rank, top, ks[0], prefix, ks.len() == 1, local, f1, f2);
        let rest = ks.drop_first();
        assert forall|k: int| 0 <= k < rest.len() implies bes.contains(#[trigger] rest[k]) && f1
            + rank(rest[k].dataset) >= top && f2 + rank(rest[k].dataset) >= top by {
            assert(rest[k] == ks[k + 1]);
        }
        lemma_thicket_suffices(bes, rank, top, rest, prefix, local, f1, f2);
    }
}

} // verus!
