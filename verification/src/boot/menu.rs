//! The boot menu: the boot environments with their numbers and kernels, and a
//! countdown after which the default one is started.

use vstd::prelude::*;
use vstd::string::*;

use crate::boot::discover;
use crate::boot::discover::{
    BeJson, DiscoverV1, Found, FoundBe, FoundPool, Kernel, KernelEntry, PoolJson,
};
use crate::boot::shell;
use crate::boot::shell::{BootTarget, Choice, KernelChoice, Target};
use crate::error;
use crate::error::Error;
use crate::model::{Be, BootEnvironment, Forest};
use crate::order;
use crate::sub;
use crate::sub::{Call, Runner, World};
use crate::text;
use crate::tree;
use crate::tree::{TreeRow, Twig};

verus! {

// ---------------------------------------------------------------------------
// Targets
// ---------------------------------------------------------------------------

/// The boot image that is shown with a kernel where none was found.
pub open spec fn shown_image(vmlinuz: Seq<char>) -> Seq<char> {
    match discover::image_of(vmlinuz) {
        Some(i) => i,
        None => "initrd.img"@,
    }
}

/// The boot image that is shown with a kernel where none was found.
pub fn pair_initrd_for_display(vmlinuz: &str) -> (r: String)
    ensures
        r@ == shown_image(vmlinuz@),
{
    match discover::image_name(vmlinuz) {
        Some(i) => i,
        None => "initrd.img".to_owned(),
    }
}

/// A kernel as it can be chosen.
pub open spec fn choice_of(k: Kernel) -> Choice {
    Choice {
        vmlinuz: k.vmlinuz,
        initrd: match k.initrd {
            Some(i) => i,
            None => shown_image(k.vmlinuz),
        },
        is_default: k.default,
    }
}

/// The kernels of a boot environment as they can be chosen. Where none was
/// found, the usual one stands in.
pub open spec fn choices_of(ks: Seq<Kernel>) -> Seq<Choice> {
    if ks.len() == 0 {
        seq![Choice { vmlinuz: "vmlinuz"@, initrd: "initrd.img"@, is_default: true }]
    } else {
        ks.map_values(|k: Kernel| choice_of(k))
    }
}

fn choices(ks: &Vec<KernelEntry>) -> (r: Vec<KernelChoice>)
    ensures
        r.deep_view() == choices_of(ks.deep_view()),
{
    let ghost all = ks.deep_view();
    let mut out: Vec<KernelChoice> = Vec::new();
    if ks.len() == 0 {
        let usual = KernelChoice {
            vmlinuz: "vmlinuz".to_owned(),
            initrd: "initrd.img".to_owned(),
            is_default: true,
        };
        out.push(usual);
        assert(out.deep_view() =~= choices_of(all));
        return out;
    }
    let ghost goal = all.map_values(|k: Kernel| choice_of(k));
    let mut i: usize = 0;
    assert(out.deep_view() =~= goal.take(0));
    while i < ks.len()
        invariant
            i <= ks@.len(),
            all == ks.deep_view(),
            goal == all.map_values(|k: Kernel| choice_of(k)),
            out.deep_view() == goal.take(i as int),
        decreases ks@.len() - i,
    {
        let ghost so_far = out.deep_view();
        let k = &ks[i];
        assert(all[i as int] == k.deep_view());
        let initrd: String = match &k.initrd {
            Some(f) => f.clone(),
            None => pair_initrd_for_display(k.vmlinuz.as_str()),
        };
        let c = KernelChoice { vmlinuz: k.vmlinuz.clone(), initrd, is_default: k.default };
        assert(c.deep_view() =~= goal[i as int]);
        out.push(c);
        assert(out.deep_view() =~= so_far.push(c.deep_view()));
        assert(goal.take(i + 1) =~= goal.take(i as int).push(goal[i as int]));
        i = i + 1;
    }
    assert(goal.take(i as int) =~= goal);
    out
}

/// What a boot environment was cloned from, without what goes without saying.
pub open spec fn short_origin(pool: Seq<char>, origin: Option<Seq<char>>) -> Option<Seq<char>> {
    match origin {
        None => None,
        Some(o) => {
            let prefix = pool + "/ROOT/"@;
            if text::begins(o, prefix) {
                Some(o.skip(prefix.len() as int))
            } else {
                Some(o)
            }
        },
    }
}

fn shorten_origin(pool: &str, origin: &Option<String>) -> (r: Option<String>)
    ensures
        r.deep_view() == short_origin(pool@, origin.deep_view()),
{
    match origin {
        None => None,
        Some(o) => {
            let prefix: String = text::cat2(pool, "/ROOT/");
            match text::strip_prefix(o.as_str(), prefix.as_str()) {
                Some(rest) => Some(rest.to_owned()),
                None => Some(o.clone()),
            }
        },
    }
}

/// A boot environment as it can be chosen, under a number.
pub open spec fn target_of(idx: nat, b: FoundBe) -> Target {
    Target {
        idx,
        pool: b.pool,
        dataset: b.dataset,
        name: b.name,
        mount_root: match b.mount_root {
            Some(m) => m,
            None => "/"@,
        },
        kernels: choices_of(b.kernels),
        is_active: b.active,
        readonly: b.readonly,
        origin_short: short_origin(b.pool, b.origin),
    }
}

fn target_from(idx: usize, b: &BeJson) -> (t: BootTarget)
    ensures
        t.deep_view() == target_of(idx as nat, b.deep_view()),
{
    let mount_root: String = match &b.mount_root {
        Some(m) => m.clone(),
        None => "/".to_owned(),
    };
    BootTarget {
        idx,
        pool: b.pool.clone(),
        dataset: b.dataset.clone(),
        name: b.name.clone(),
        mount_root,
        kernels: choices(&b.kernels),
        is_active: b.active,
        readonly: b.readonly,
        origin_short: shorten_origin(b.pool.as_str(), &b.origin),
    }
}

/// The boot environments of one pool, in their order.
pub open spec fn pool_bes(bes: Seq<FoundBe>, pool: Seq<char>) -> Seq<FoundBe>
    decreases bes.len(),
{
    if bes.len() == 0 {
        seq![]
    } else {
        let front = pool_bes(bes.drop_last(), pool);
        if bes.last().pool == pool {
            front.push(bes.last())
        } else {
            front
        }
    }
}

/// The boot environments, pool by pool.
pub open spec fn grouped(ps: Seq<Seq<char>>, bes: Seq<FoundBe>) -> Seq<FoundBe>
    decreases ps.len(),
{
    if ps.len() == 0 {
        seq![]
    } else {
        grouped(ps.drop_last(), bes) + pool_bes(bes, ps.last())
    }
}

/// The pools of the boot environments.
pub open spec fn pools_of(bes: Seq<FoundBe>) -> Seq<Seq<char>> {
    bes.map_values(|b: FoundBe| b.pool)
}

/// Boot environments under numbers, from 1 on.
pub open spec fn numbered(bes: Seq<FoundBe>) -> Seq<Target> {
    Seq::new(bes.len(), |i: int| target_of((i + 1) as nat, bes[i]))
}

/// What can be chosen: the boot environments of all pools, by the names of the
/// pools, under numbers that go on from pool to pool.
pub open spec fn targets_of(bes: Seq<FoundBe>) -> Seq<Target> {
    numbered(grouped(order::sorted_set(pools_of(bes)), bes))
}

fn pool_names(bes: &Vec<BeJson>) -> (r: Vec<String>)
    ensures
        r.deep_view() == pools_of(bes.deep_view()),
{
    let ghost goal = pools_of(bes.deep_view());
    let mut out: Vec<String> = Vec::new();
    let mut i: usize = 0;
    assert(out.deep_view() =~= goal.take(0));
    while i < bes.len()
        invariant
            i <= bes@.len(),
            goal == pools_of(bes.deep_view()),
            out.deep_view() == goal.take(i as int),
        decreases bes@.len() - i,
    {
        text::push_text(&mut out, bes[i].pool.as_str());
        assert(goal.take(i + 1) =~= goal.take(i as int).push(goal[i as int]));
        i = i + 1;
    }
    assert(goal.take(i as int) =~= goal);
    out
}

proof fn lemma_pool_bes_push(bes: Seq<FoundBe>, b: FoundBe, pool: Seq<char>)
    ensures
        pool_bes(bes.push(b), pool) == (if b.pool == pool {
            pool_bes(bes, pool).push(b)
        } else {
            pool_bes(bes, pool)
        }),
{
    assert(bes.push(b).drop_last() =~= bes);
}

proof fn lemma_grouped_push(ps: Seq<Seq<char>>, bes: Seq<FoundBe>, b: FoundBe)
    requires
        order::strictly_ascending(ps),
    ensures
        grouped(ps, bes.push(b)).len() == grouped(ps, bes).len() + (if ps.contains(b.pool) {
            1int
        } else {
            0int
        }),
    decreases ps.len(),
{
    if ps.len() > 0 {
        let front = ps.drop_last();
        assert forall|i: int, j: int| 0 <= i < j < front.len() implies text::less(
            #[trigger] front[i],
            #[trigger] front[j],
        ) by {
            assert(front[i] == ps[i] && front[j] == ps[j]);
        }
        lemma_grouped_push(front, bes, b);
        lemma_pool_bes_push(bes, b, ps.last());
        assert(ps.contains(b.pool) <==> front.contains(b.pool) || ps.last() == b.pool) by {
            if front.contains(b.pool) {
                let i = choose|i: int| 0 <= i < front.len() && front[i] == b.pool;
                assert(ps[i] == b.pool);
            }
            if ps.last() == b.pool {
                assert(ps[ps.len() - 1] == b.pool);
            }
            if ps.contains(b.pool) && ps.last() != b.pool {
                let i = choose|i: int| 0 <= i < ps.len() && ps[i] == b.pool;
                assert(front[i] == b.pool);
            }
        }
        if front.contains(b.pool) && ps.last() == b.pool {
            let i = choose|i: int| 0 <= i < front.len() && front[i] == b.pool;
            assert(text::less(ps[i], ps[ps.len() - 1]));
            text::lemma_less_irreflexive(b.pool);
        }
    }
}

proof fn lemma_grouped_len(ps: Seq<Seq<char>>, bes: Seq<FoundBe>)
    requires
        order::strictly_ascending(ps),
    ensures
        grouped(ps, bes).len() <= bes.len(),
        (forall|i: int| 0 <= i < bes.len() ==> ps.contains((#[trigger] bes[i]).pool)) ==> grouped(
            ps,
            bes,
        ).len() == bes.len(),
    decreases bes.len(),
{
    if bes.len() == 0 {
        lemma_grouped_none(ps, bes);
    } else {
        let front = bes.drop_last();
        let b = bes.last();
        lemma_grouped_len(ps, front);
        assert(bes =~= front.push(b));
        lemma_grouped_push(ps, front, b);
        if forall|i: int| 0 <= i < bes.len() ==> ps.contains((#[trigger] bes[i]).pool) {
            assert forall|i: int| 0 <= i < front.len() implies ps.contains(
                (#[trigger] front[i]).pool,
            ) by {
                assert(front[i] == bes[i]);
            }
            assert(bes[bes.len() - 1] == b);
        }
    }
}

proof fn lemma_grouped_none(ps: Seq<Seq<char>>, bes: Seq<FoundBe>)
    requires
        bes.len() == 0,
    ensures
        grouped(ps, bes).len() == 0,
    decreases ps.len(),
{
    if ps.len() > 0 {
        lemma_grouped_none(ps.drop_last(), bes);
    }
}

proof fn lemma_pool_bes_grows(bes: Seq<FoundBe>, pool: Seq<char>, j: int)
    requires
        0 <= j <= bes.len(),
    ensures
        pool_bes(bes.take(j), pool).len() <= pool_bes(bes, pool).len(),
    decreases bes.len() - j,
{
    if j == bes.len() {
        assert(bes.take(j) =~= bes);
    } else {
        lemma_pool_bes_grows(bes, pool, j + 1);
        assert(bes.take(j + 1) =~= bes.take(j).push(bes[j]));
        lemma_pool_bes_push(bes.take(j), bes[j], pool);
    }
}

/// What can be chosen. Every target has a kernel.
pub fn build_targets(payload: &DiscoverV1) -> (r: Vec<BootTarget>)
    ensures
        r.deep_view() == targets_of(payload.deep_view().bes),
        shell::bootable(r.deep_view()),
{
    let bes = &payload.bes;
    let ghost all = bes.deep_view();
    let names = pool_names(bes);
    let ps = order::sort_set(&names);
    let ghost pools = ps.deep_view();
    proof {
        order::law_sorted_set(names.deep_view());
    }
    let mut out: Vec<BootTarget> = Vec::new();
    let mut i: usize = 0;
    assert(out.deep_view() =~= numbered(grouped(pools.take(0), all)));
    while i < ps.len()
        invariant
            i <= ps@.len(),
            bes == &payload.bes,
            all == bes.deep_view(),
            pools == ps.deep_view(),
            order::strictly_ascending(pools),
            out.deep_view() == numbered(grouped(pools.take(i as int), all)),
        decreases ps@.len() - i,
    {
        let pool: &str = ps[i].as_str();
        let ghost done = grouped(pools.take(i as int), all);
        let mut j: usize = 0;
        proof {
            assert(pools.take(i + 1).drop_last() =~= pools.take(i as int));
            assert(pools.take(i + 1).last() == pool@);
            assert forall|a: int, b: int| 0 <= a < b < i + 1 implies text::less(
                #[trigger] pools.take(i + 1)[a],
                #[trigger] pools.take(i + 1)[b],
            ) by {
                assert(pools[a] == pools.take(i + 1)[a] && pools[b] == pools.take(i + 1)[b]);
            }
            lemma_grouped_len(pools.take(i + 1), all);
            assert(done + pool_bes(all.take(0), pool@) =~= done);
        }
        while j < bes.len()
            invariant
                j <= bes@.len(),
                bes == &payload.bes,
                all == bes.deep_view(),
                (done + pool_bes(all, pool@)).len() <= all.len(),
                out.deep_view() == numbered(done + pool_bes(all.take(j as int), pool@)),
            decreases bes@.len() - j,
        {
            let ghost so_far = done + pool_bes(all.take(j as int), pool@);
            proof {
                assert(all.take(j + 1) =~= all.take(j as int).push(all[j as int]));
                assert(all[j as int] == bes@[j as int].deep_view());
                lemma_pool_bes_push(all.take(j as int), all[j as int], pool@);
                lemma_pool_bes_grows(all, pool@, j + 1);
            }
            if text::eq(bes[j].pool.as_str(), pool) {
                proof {
                    assert(done + pool_bes(all.take(j + 1), pool@) =~= so_far.push(
                        all[j as int],
                    ));
                    assert(out.deep_view().len() == so_far.len());
                }
                let ghost was = out.deep_view();
                let t = target_from(out.len() + 1, &bes[j]);
                out.push(t);
                proof {
                    assert(out.deep_view() =~= was.push(t.deep_view()));
                    assert(numbered(so_far.push(all[j as int])) =~= was.push(t.deep_view()));
                }
            }
            j = j + 1;
        }
        assert(all.take(j as int) =~= all);
        i = i + 1;
    }
    assert(pools.take(i as int) =~= pools);
    out
}

// ---------------------------------------------------------------------------
// The menu
// ---------------------------------------------------------------------------

/// The version that a kernel's file name tells.
pub open spec fn version_of(n: Seq<char>) -> Seq<char> {
    if n == "vmlinuz"@ {
        ""@
    } else if n == "vmlinuz.old"@ {
        "(prev)"@
    } else if text::begins(n, "vmlinuz-"@) {
        n.skip("vmlinuz-"@.len() as int)
    } else {
        n
    }
}

/// The version that a kernel's file name tells.
pub fn kernel_version_label<'a>(filename: &'a str) -> (r: &'a str)
    ensures
        r@ == version_of(filename@),
{
    if text::eq(filename, "vmlinuz") {
        return "";
    }
    if text::eq(filename, "vmlinuz.old") {
        return "(prev)";
    }
    match text::strip_prefix(filename, "vmlinuz-") {
        Some(s) => s,
        None => filename,
    }
}

/// The length of the longest kernel name, in bytes.
pub open spec fn widest(ks: Seq<Choice>) -> nat
    decreases ks.len(),
{
    if ks.len() == 0 {
        0
    } else {
        let front = widest(ks.drop_last());
        let n = vstd::utf8::encode_utf8(ks.last().vmlinuz).len();
        if n > front {
            n
        } else {
            front
        }
    }
}

fn measure(ks: &Vec<KernelChoice>) -> (r: usize)
    ensures
        r == widest(ks.deep_view()),
{
    let ghost all = ks.deep_view();
    let mut w: usize = 0;
    let mut i: usize = 0;
    while i < ks.len()
        invariant
            i <= ks@.len(),
            all == ks.deep_view(),
            w == widest(all.take(i as int)),
        decreases ks@.len() - i,
    {
        proof {
            assert(all.take(i + 1).drop_last() =~= all.take(i as int));
            assert(all.take(i + 1).last() == ks@[i as int].deep_view());
        }
        let n: usize = ks[i].vmlinuz.as_str().as_bytes().len();
        if n > w {
            w = n;
        }
        i = i + 1;
    }
    assert(all.take(i as int) =~= all);
    w
}

/// One kernel in the menu.
pub open spec fn menu_kernel(ks: Seq<Choice>, i: int) -> Seq<char> {
    "       "@ + shell::kernel_connector(i == ks.len() - 1) + " "@ + text::widened(
        ks[i].vmlinuz,
        widest(ks),
    ) + "  -> "@ + version_of(ks[i].vmlinuz) + shell::default_tag(ks[i].is_default)
}

/// What marks a replica.
pub open spec fn mirror_tag(readonly: bool) -> Seq<char> {
    if readonly {
        "  [mirror]"@
    } else {
        ""@
    }
}

/// What a target was cloned from.
pub open spec fn origin_tag(origin: Option<Seq<char>>) -> Seq<char> {
    match origin {
        Some(o) => "   ← "@ + o,
        None => ""@,
    }
}

/// One target in the menu.
pub open spec fn menu_target(t: Target) -> Seq<(Seq<char>, Seq<char>)> {
    seq![
        (
            "  "@ + text::decimal(t.idx) + ") "@ + shell::active_tag(t.is_active) + " "@
                + t.dataset + mirror_tag(t.readonly) + origin_tag(t.origin_short),
            "write be header"@,
        ),
    ] + Seq::new(t.kernels.len(), |i: int| (menu_kernel(t.kernels, i), "write kernel row"@))
}

/// The targets in the menu, with a line between two pools.
pub open spec fn menu_targets(ts: Seq<Target>) -> Seq<(Seq<char>, Seq<char>)>
    decreases ts.len(),
{
    if ts.len() == 0 {
        seq![]
    } else {
        menu_targets(ts.drop_last()) + shell::rule_before(ts) + menu_target(ts.last())
    }
}

/// What stands over the menu.
pub open spec fn menu_head() -> Seq<(Seq<char>, Seq<char>)> {
    seq![
        (
            "================================================================"@,
            "write header"@,
        ),
        ("  zboot-boot"@, "write header"@),
        (
            "================================================================"@,
            "write header"@,
        ),
    ]
}

/// The menu, line by line, each with what showing it is called.
pub open spec fn menu_lines(ts: Seq<Target>) -> Seq<(Seq<char>, Seq<char>)> {
    menu_head() + menu_targets(ts) + seq![(""@, "write blank"@)]
}

fn put_menu_target(out: &mut Vec<(String, &'static str)>, t: &BootTarget)
    ensures
        final(out).deep_view() == old(out).deep_view() + menu_target(t.deep_view()),
{
    let ghost was = out.deep_view();
    let ghost ks = t.kernels.deep_view();
    let ghost rows = Seq::new(ks.len(), |i: int| (menu_kernel(ks, i), "write kernel row"@));
    let ghost head = (
        "  "@ + text::decimal(t.idx as nat) + ") "@ + shell::active_tag(t.is_active) + " "@
            + t.dataset@ + mirror_tag(t.readonly) + origin_tag(t.origin_short.deep_view()),
        "write be header"@,
    );
    let n: String = text::dec_len(t.idx);
    let mirror: &str = if t.readonly {
        "  [mirror]"
    } else {
        ""
    };
    let origin: String = match &t.origin_short {
        Some(o) => text::cat2("   ← ", o.as_str()),
        None => "".to_owned(),
    };
    let line: String = text::cat8(
        "  ",
        n.as_str(),
        ") ",
        shell::active_mark(t.is_active),
        " ",
        t.dataset.as_str(),
        mirror,
        origin.as_str(),
    );
    sub::push_line(out, line.as_str(), "write be header");
    let width: usize = measure(&t.kernels);
    let count: usize = t.kernels.len();
    let mut i: usize = 0;
    assert(out.deep_view() =~= was + seq![head] + rows.take(0));
    while i < count
        invariant
            i <= count,
            count == t.kernels@.len(),
            ks == t.kernels.deep_view(),
            width == widest(ks),
            rows == Seq::new(ks.len(), |j: int| (menu_kernel(ks, j), "write kernel row"@)),
            out.deep_view() == was + seq![head] + rows.take(i as int),
        decreases count - i,
    {
        let k = &t.kernels[i];
        assert(ks[i as int] == k.deep_view());
        let wide: String = text::widen(k.vmlinuz.as_str(), width);
        let row: String = text::cat7(
            "       ",
            shell::kernel_lead(i == count - 1),
            " ",
            wide.as_str(),
            "  -> ",
            kernel_version_label(k.vmlinuz.as_str()),
            shell::default_mark(k.is_default),
        );
        sub::push_line(out, row.as_str(), "write kernel row");
        assert(rows[i as int] == (row@, "write kernel row"@));
        assert(was + seq![head] + rows.take(i + 1) =~= (was + seq![head] + rows.take(i as int)).push(
            rows[i as int],
        ));
        i = i + 1;
    }
    assert(rows.take(i as int) =~= rows);
    assert(out.deep_view() =~= was + menu_target(t.deep_view()));
}

/// Shows the menu.
pub fn print_target_menu<R: Runner>(r: &mut R, targets: &Vec<BootTarget>) -> (res: Result<
    (),
    Error,
>)
    ensures
        sub::did(final(r).world(), res) == sub::tell_each_does(
            old(r).world(),
            menu_lines(targets.deep_view()),
        ),
{
    let ghost all = targets.deep_view();
    let ghost head = menu_head();
    let mut out: Vec<(String, &'static str)> = Vec::new();
    sub::push_line(
        &mut out,
        "================================================================",
        "write header",
    );
    sub::push_line(&mut out, "  zboot-boot", "write header");
    sub::push_line(
        &mut out,
        "================================================================",
        "write header",
    );
    let mut i: usize = 0;
    assert(out.deep_view() =~= head + menu_targets(all.take(0)));
    while i < targets.len()
        invariant
            i <= targets@.len(),
            all == targets.deep_view(),
            out.deep_view() == head + menu_targets(all.take(i as int)),
        decreases targets@.len() - i,
    {
        proof {
            assert(all.take(i + 1).drop_last() =~= all.take(i as int));
            assert(all.take(i + 1).last() == targets@[i as int].deep_view());
        }
        shell::put_rule(&mut out, targets, i);
        put_menu_target(&mut out, &targets[i]);
        assert(out.deep_view() =~= head + menu_targets(all.take(i + 1)));
        i = i + 1;
    }
    assert(all.take(i as int) =~= all);
    sub::push_line(&mut out, "", "write blank");
    assert(out.deep_view() =~= menu_lines(all));
    sub::tell_each(r, &out)
}

/// The place of the target that is started by default: the first that boots
/// next, else the first.
pub open spec fn default_place(ts: Seq<Target>) -> int {
    if first_active(ts) < ts.len() {
        first_active(ts)
    } else {
        0
    }
}

/// The place of the first target that boots next; the length where there is
/// none.
pub open spec fn first_active(ts: Seq<Target>) -> int
    decreases ts.len(),
{
    if ts.len() == 0 || ts[0].is_active {
        0
    } else {
        1 + first_active(ts.drop_first())
    }
}

/// The place of the target that is started by default.
pub fn default_target_idx(targets: &Vec<BootTarget>) -> (r: usize)
    ensures
        r == default_place(targets.deep_view()),
        targets@.len() > 0 ==> r < targets@.len(),
{
    let ghost all = targets.deep_view();
    let mut i: usize = 0;
    assert(all.skip(0) =~= all);
    while i < targets.len()
        invariant
            i <= targets@.len(),
            all == targets.deep_view(),
            first_active(all) == i + first_active(all.skip(i as int)),
        decreases targets@.len() - i,
    {
        proof {
            assert(all.skip(i as int)[0] == targets@[i as int].deep_view());
            assert(all.skip(i as int).drop_first() =~= all.skip(i + 1));
        }
        if targets[i].is_active {
            return i;
        }
        i = i + 1;
    }
    0
}

// ---------------------------------------------------------------------------
// The countdown
// ---------------------------------------------------------------------------

/// A number, at least two characters wide.
pub open spec fn two_wide(n: nat) -> Seq<char> {
    if n < 10 {
        " "@ + text::decimal(n)
    } else {
        text::decimal(n)
    }
}

/// What the countdown shows.
pub open spec fn countdown_text(n: nat, secs: nat) -> Seq<char> {
    "\r\x1b[KHit any key to stop autoboot — booting ("@ + text::decimal(n) + ") in "@ + two_wide(
        secs,
    ) + "s"@
}

fn print_countdown<R: Runner>(r: &mut R, default_n: usize, secs: u64) -> (res: Result<(), Error>)
    ensures
        sub::did(final(r).world(), res) == sub::put_does(
            old(r).world(),
            countdown_text(default_n as nat, secs as nat),
            "write prompt"@,
        ),
{
    let n: String = text::dec_len(default_n);
    let d: String = text::dec(secs as u128);
    let shown: String = if secs < 10 {
        text::cat2(" ", d.as_str())
    } else {
        d
    };
    let line: String = text::cat5(
        "\r\x1b[KHit any key to stop autoboot — booting (",
        n.as_str(),
        ") in ",
        shown.as_str(),
        "s",
    );
    sub::put(r, line.as_str(), "write prompt")
}

/// The seconds go by, each until a key is hit.
pub open spec fn ticks_does(w: World, n: nat, secs: nat) -> (World, Result<bool, Seq<char>>)
    decreases secs,
{
    if secs == 0 {
        (w, Ok(false))
    } else {
        let w1 = w.after(Call::KeyWithin { millis: 1000 });
        match w.answered() {
            Err(m) => (w1, Err(m)),
            Ok(hit) => if hit {
                (w1, Ok(true))
            } else {
                let left = (secs - 1) as nat;
                let (w2, told) = sub::put_does(w1, countdown_text(n, left), "write prompt"@);
                match told {
                    Err(m) => (w2, Err(m)),
                    Ok(()) => ticks_does(w2, n, left),
                }
            },
        }
    }
}

/// Counts down; the outcome tells whether a key was hit. One that was hit
/// before counts.
pub open spec fn countdown_does(w: World, n: nat, secs: nat) -> (World, Result<bool, Seq<char>>) {
    let (w1, told) = sub::put_does(w, countdown_text(n, secs), "write prompt"@);
    match told {
        Err(m) => (w1, Err(m)),
        Ok(()) => {
            let w2 = w1.after(Call::KeyWithin { millis: 0 });
            match w1.answered() {
                Err(m) => (w2, Err(m)),
                Ok(hit) => if hit {
                    (w2, Ok(true))
                } else {
                    ticks_does(w2, n, secs)
                },
            }
        },
    }
}

/// Counts down; the outcome tells whether a key was hit.
pub fn countdown_then_halt<R: Runner>(r: &mut R, default_n: usize, secs: u64) -> (res: Result<
    bool,
    Error,
>)
    ensures
        sub::did(final(r).world(), res) == countdown_does(
            old(r).world(),
            default_n as nat,
            secs as nat,
        ),
{
    if let Err(e) = print_countdown(r, default_n, secs) {
        return Err(e);
    }
    match r.key_within(0) {
        Err(e) => return Err(e),
        Ok(hit) => {
            if hit {
                return Ok(true);
            }
        },
    }
    let mut left: u64 = secs;
    let ghost start = r.world();
    while left > 0
        invariant
            ticks_does(start, default_n as nat, secs as nat) == ticks_does(
                r.world(),
                default_n as nat,
                left as nat,
            ),
            countdown_does(old(r).world(), default_n as nat, secs as nat) == ticks_does(
                start,
                default_n as nat,
                secs as nat,
            ),
        decreases left,
    {
        match r.key_within(1000) {
            Err(e) => return Err(e),
            Ok(hit) => {
                if hit {
                    return Ok(true);
                }
            },
        }
        left = left - 1;
        if let Err(e) = print_countdown(r, default_n, left) {
            return Err(e);
        }
    }
    Ok(false)
}

/// Counts down while keys come one by one; nothing is shown where they cannot.
/// However the countdown ends, keys come as before afterwards.
pub open spec fn guarded_countdown_does(w: World, n: nat, secs: nat) -> (World, Result<
    bool,
    Seq<char>,
>) {
    let w1 = w.after(Call::TakeKeys);
    match w.unit() {
        Err(m) => (w1, Err(error::within("setup raw stdin"@, m))),
        Ok(()) => {
            let (w2, halted) = countdown_does(w1, n, secs);
            (w2.after(Call::LeaveKeys), halted)
        },
    }
}

fn guarded_countdown<R: Runner>(r: &mut R, default_n: usize, secs: u64) -> (res: Result<
    bool,
    Error,
>)
    ensures
        sub::did(final(r).world(), res) == guarded_countdown_does(
            old(r).world(),
            default_n as nat,
            secs as nat,
        ),
{
    if let Err(e) = r.take_keys() {
        return Err(e.context("setup raw stdin"));
    }
    let halted = countdown_then_halt(r, default_n, secs);
    r.leave_keys();
    halted
}

// ---------------------------------------------------------------------------
// Starting
// ---------------------------------------------------------------------------

/// Finds where a target is mounted. Only the first process of the machine
/// mounts one; for any other, the running root stands in.
#[verifier::opaque]
pub open spec fn mount_root_does(w: World, t: Target) -> (World, Result<Seq<char>, Seq<char>>) {
    let w1 = w.after(Call::Pid);
    if w.reply().pid != 1 {
        (w1, Ok("/"@))
    } else if t.mount_root != "/"@ {
        (w1, Ok(t.mount_root))
    } else {
        discover::mount_does(w1, t.dataset, t.name)
    }
}

fn resolve_mount_root_for<R: Runner>(r: &mut R, t: &BootTarget) -> (res: Result<String, Error>)
    ensures
        sub::did(final(r).world(), res) == mount_root_does(old(r).world(), t.deep_view()),
{
    proof {
        reveal(mount_root_does);
    }
    if r.pid() != 1 {
        return Ok("/".to_owned());
    }
    if !text::eq(t.mount_root.as_str(), "/") {
        return Ok(t.mount_root.clone());
    }
    discover::ensure_be_mounted_ro(r, t.dataset.as_str(), t.name.as_str())
}

/// Starts one kernel of a target.
pub open spec fn handoff_target_does(w: World, t: Target, k: Choice) -> (World, Result<
    (),
    Seq<char>,
>) {
    let (w1, root) = mount_root_does(w, t);
    match root {
        Err(m) => (w1, Err(m)),
        Ok(p) => shell::launch_does(w1, t, p, k, None),
    }
}

fn handoff_target<R: Runner>(r: &mut R, t: &BootTarget, k: &KernelChoice) -> (res: Result<
    (),
    Error,
>)
    ensures
        sub::did(final(r).world(), res) == handoff_target_does(
            old(r).world(),
            t.deep_view(),
            k.deep_view(),
        ),
{
    match resolve_mount_root_for(r, t) {
        Err(e) => Err(e),
        Ok(p) => shell::launch(r, t, p.as_str(), k, None),
    }
}

/// What comes after the menu.
#[derive(Debug)]
pub enum Next {
    /// Nothing.
    Done,
    /// The shell, with these targets.
    Shell(Vec<BootTarget>),
}

/// What comes after the menu, by what is known of it.
pub enum Following {
    Done,
    Shell(Seq<Target>),
}

impl DeepView for Next {
    type V = Following;

    open spec fn deep_view(&self) -> Following {
        match self {
            Next::Done => Following::Done,
            Next::Shell(ts) => Following::Shell(ts.deep_view()),
        }
    }
}

/// The outcome of a start, after which nothing comes.
pub open spec fn then_done(done: (World, Result<(), Seq<char>>)) -> (World, Result<
    Following,
    Seq<char>,
>) {
    match done.1 {
        Err(m) => (done.0, Err(m)),
        Ok(()) => (done.0, Ok(Following::Done)),
    }
}

/// The seconds to count, by what the environment says.
pub open spec fn timeout_of(v: Option<Seq<char>>) -> nat {
    match v {
        None => 10,
        Some(t) => match text::parsed_upto(t, u64::MAX as nat) {
            Some(n) => n,
            None => 10,
        },
    }
}

fn read_timeout(v: &Option<String>) -> (r: u64)
    ensures
        r == timeout_of(v.deep_view()),
{
    match v {
        None => 10,
        Some(t) => match text::parse_upto(t.as_str(), u64::MAX) {
            Some(n) => n,
            None => 10,
        },
    }
}

/// Shows the menu and counts down. A key leads to the shell; else the default
/// target is started.
#[verifier::opaque]
pub open spec fn text_menu_does(w: World, ts: Seq<Target>) -> (World, Result<
    Following,
    Seq<char>,
>) {
    if ts.len() == 0 {
        then_done(sub::tell_does(w, "no boot targets found"@, "write empty"@))
    } else {
        sub::chain(sub::tell_each_does(w, menu_lines(ts)), |w1: World| count_and_start_does(w1, ts))
    }
}

/// Counts down under the menu.
pub open spec fn count_and_start_does(w1: World, ts: Seq<Target>) -> (World, Result<
    Following,
    Seq<char>,
>) {
    let w2 = w1.after(Call::Env { name: "ZBOOT_BOOT_TIMEOUT"@ });
    let secs = timeout_of(w1.maybe());
    let place = default_place(ts);
    let n = (place + 1) as nat;
    if secs == 0 {
        (w2, Ok(Following::Shell(ts)))
    } else {
        let (w3, halted) = guarded_countdown_does(w2, n, secs);
        match halted {
            Err(m) => (w3, Err(m)),
            Ok(true) => {
                let (w4, told) = sub::tell_does(w3, ""@, "nl after halt"@);
                match told {
                    Err(m) => (w4, Err(m)),
                    Ok(()) => (w4, Ok(Following::Shell(ts))),
                }
            },
            Ok(false) => {
                let (w4, told) = sub::tell_does(
                    w3,
                    "\n[timeout — auto-booting target "@ + text::decimal(n) + " ("@
                        + ts[place].dataset + ")]"@,
                    "write timeout"@,
                );
                match told {
                    Err(m) => (w4, Err(m)),
                    Ok(()) => then_done(
                        handoff_target_does(
                            w4,
                            ts[place],
                            shell::default_choice(ts[place].kernels),
                        ),
                    ),
                }
            },
        }
    }
}

fn run_text_menu<R: Runner>(r: &mut R, targets: Vec<BootTarget>) -> (res: Result<Next, Error>)
    requires
        shell::bootable(targets.deep_view()),
    ensures
        sub::did(final(r).world(), res) == text_menu_does(
            old(r).world(),
            targets.deep_view(),
        ),
{
    proof {
        reveal(text_menu_does);
    }
    if targets.len() == 0 {
        return match sub::tell(r, "no boot targets found", "write empty") {
            Err(e) => Err(e),
            Ok(()) => Ok(Next::Done),
        };
    }
    if let Err(e) = print_target_menu(r, &targets) {
        return Err(e);
    }
    let place: usize = default_target_idx(&targets);
    let v = r.env("ZBOOT_BOOT_TIMEOUT");
    let secs: u64 = read_timeout(&v);
    if secs == 0 {
        return Ok(Next::Shell(targets));
    }
    let halted: bool = match guarded_countdown(r, place + 1, secs) {
        Err(e) => return Err(e),
        Ok(h) => h,
    };
    if halted {
        if let Err(e) = sub::tell(r, "", "nl after halt") {
            return Err(e);
        }
        return Ok(Next::Shell(targets));
    }
    let t = &targets[place];
    assert(targets.deep_view()[place as int] == t.deep_view());
    let n: String = text::dec_len(place + 1);
    let line: String = text::cat5(
        "\n[timeout — auto-booting target ",
        n.as_str(),
        " (",
        t.dataset.as_str(),
        ")]",
    );
    if let Err(e) = sub::tell(r, line.as_str(), "write timeout") {
        return Err(e);
    }
    match handoff_target(r, t, t.default_kernel()) {
        Err(e) => Err(e),
        Ok(()) => Ok(Next::Done),
    }
}

// ---------------------------------------------------------------------------
// A choice made beforehand
// ---------------------------------------------------------------------------

/// The lines that say what could have been chosen.
pub open spec fn choice_lines(ts: Seq<Target>) -> Seq<(Seq<char>, Seq<char>)> {
    ts.map_values(
        |t: Target|
            (
                "  - "@ + text::decimal(t.idx) + " ("@ + t.dataset + ")"@,
                "write selection-miss row"@,
            ),
    )
}

/// What is told of a choice that means nothing.
pub open spec fn miss_does(w: World, ts: Seq<Target>, selector: Seq<char>) -> (World, Result<
    (),
    Seq<char>,
>) {
    sub::chain(
        sub::tell_does(
            w,
            "ZBOOT_BOOT_SELECT="@ + text::quoted_text(selector)
                + " not found; available targets:"@,
            "write selection-miss header"@,
        ),
        |w1: World| sub::tell_each_does(w1, choice_lines(ts)),
    )
}

/// What a choice means: a dataset with its default kernel, or a dataset and a
/// kernel. Where nothing is meant, there is no outcome.
pub open spec fn scripted(ts: Seq<Target>, selector: Seq<char>) -> Result<
    Option<(Target, Choice)>,
    Seq<char>,
> {
    match text::cut(selector, ':') {
        Some((ds, kn)) => match shell::target_at(ts, ds) {
            None => Err(
                "ZBOOT_BOOT_SELECT="@ + text::quoted_text(selector)
                    + ": no BE matching dataset "@ + text::quoted_text(ds),
            ),
            Some(t) => match shell::choice_named(t.kernels, kn) {
                None => Err(
                    "ZBOOT_BOOT_SELECT="@ + text::quoted_text(selector) + ": BE "@ + ds
                        + " has no kernel "@ + text::quoted_text(kn),
                ),
                Some(k) => Ok(Some((t, k))),
            },
        },
        None => match shell::target_at(ts, selector) {
            None => Ok(None),
            Some(t) => Ok(Some((t, shell::default_choice(t.kernels)))),
        },
    }
}

fn resolve_script<'a>(targets: &'a Vec<BootTarget>, selector: &str) -> (res: Result<
    Option<(&'a BootTarget, &'a KernelChoice)>,
    Error,
>)
    requires
        shell::bootable(targets.deep_view()),
    ensures
        error::outcome(res) == scripted(targets.deep_view(), selector@),
{
    match text::split_once(selector, ':') {
        Some((ds, kn)) => {
            let q: String = text::quoted(selector);
            match shell::find_target(targets, ds) {
                None => {
                    let qd: String = text::quoted(ds);
                    Err(
                        Error::from_text(
                            text::cat4(
                                "ZBOOT_BOOT_SELECT=",
                                q.as_str(),
                                ": no BE matching dataset ",
                                qd.as_str(),
                            ),
                        ),
                    )
                },
                Some(t) => match t.find_kernel(kn) {
                    None => {
                        let qk: String = text::quoted(kn);
                        Err(
                            Error::from_text(
                                text::cat6(
                                    "ZBOOT_BOOT_SELECT=",
                                    q.as_str(),
                                    ": BE ",
                                    ds,
                                    " has no kernel ",
                                    qk.as_str(),
                                ),
                            ),
                        )
                    },
                    Some(k) => Ok(Some((t, k))),
                },
            }
        },
        None => match shell::find_target(targets, selector) {
            None => Ok(None),
            Some(t) => Ok(Some((t, t.default_kernel()))),
        },
    }
}

/// Starts what was chosen beforehand.
#[verifier::opaque]
pub open spec fn scripted_does(w: World, ts: Seq<Target>, selector: Seq<char>) -> (World, Result<
    (),
    Seq<char>,
>) {
    match scripted(ts, selector) {
        Err(m) => (w, Err(m)),
        Ok(Some((t, k))) => handoff_target_does(w, t, k),
        Ok(None) => {
            let (w1, told) = miss_does(w, ts, selector);
            match told {
                Err(m) => (w1, Err(m)),
                Ok(()) => (
                    w1,
                    Err(
                        "scripted selection "@ + text::quoted_text(selector)
                            + " did not match any boot target"@,
                    ),
                ),
            }
        },
    }
}

/// Starts what was chosen beforehand.
pub fn run_scripted_selection<R: Runner>(r: &mut R, targets: &Vec<BootTarget>, selector: &str) -> (
res: Result<(), Error>)
    requires
        shell::bootable(targets.deep_view()),
    ensures
        sub::did(final(r).world(), res) == scripted_does(
            old(r).world(),
            targets.deep_view(),
            selector@,
        ),
{
    proof {
        reveal(scripted_does);
    }
    match resolve_script(targets, selector) {
        Err(e) => return Err(e),
        Ok(Some((t, k))) => return handoff_target(r, t, k),
        Ok(None) => {},
    }
    let q: String = text::quoted(selector);
    let line: String = text::cat3(
        "ZBOOT_BOOT_SELECT=",
        q.as_str(),
        " not found; available targets:",
    );
    if let Err(e) = sub::tell(r, line.as_str(), "write selection-miss header") {
        return Err(e);
    }
    let ghost goal = choice_lines(targets.deep_view());
    let mut out: Vec<(String, &'static str)> = Vec::new();
    let mut i: usize = 0;
    assert(out.deep_view() =~= goal.take(0));
    while i < targets.len()
        invariant
            i <= targets@.len(),
            goal == choice_lines(targets.deep_view()),
            out.deep_view() == goal.take(i as int),
        decreases targets@.len() - i,
    {
        let t = &targets[i];
        assert(targets.deep_view()[i as int] == t.deep_view());
        let n: String = text::dec_len(t.idx);
        let row: String = text::cat5("  - ", n.as_str(), " (", t.dataset.as_str(), ")");
        sub::push_line(&mut out, row.as_str(), "write selection-miss row");
        assert(goal[i as int] == (row@, "write selection-miss row"@));
        assert(goal.take(i + 1) =~= goal.take(i as int).push(goal[i as int]));
        i = i + 1;
    }
    assert(goal.take(i as int) =~= goal);
    if let Err(e) = sub::tell_each(r, &out) {
        return Err(e);
    }
    Err(
        Error::from_text(
            text::cat3(
                "scripted selection ",
                q.as_str(),
                " did not match any boot target",
            ),
        ),
    )
}

// ---------------------------------------------------------------------------
// Without a terminal
// ---------------------------------------------------------------------------

/// The hint that a terminal is needed.
pub open spec fn tty_hint() -> Seq<char> {
    "(interactive selection requires a tty; pipe stdout to a terminal)"@
}

/// What stands over a list without a terminal.
pub open spec fn plain_head() -> Seq<(Seq<char>, Seq<char>)> {
    seq![("zboot-boot menu (no tty — plain text)"@, "write banner"@), (""@, "write blank"@)]
}

fn put_plain_head(out: &mut Vec<(String, &'static str)>)
    ensures
        final(out).deep_view() == old(out).deep_view() + plain_head(),
{
    let ghost was = out.deep_view();
    sub::push_line(out, "zboot-boot menu (no tty — plain text)", "write banner");
    sub::push_line(out, "", "write blank");
    assert(out.deep_view() =~= was + plain_head());
}

/// Shows the targets where there is no terminal.
pub open spec fn targets_plain_does(w: World, ts: Seq<Target>) -> (World, Result<(), Seq<char>>) {
    let (w1, told) = sub::tell_each_does(w, plain_head());
    if told is Err {
        (w1, told)
    } else if ts.len() == 0 {
        sub::tell_does(w1, "(no boot targets found)"@, "write empty notice"@)
    } else {
        sub::chain(
            sub::tell_each_does(w1, menu_lines(ts)),
            |w2: World| sub::tell_does(w2, tty_hint(), "write tty notice"@),
        )
    }
}

/// Shows the targets where there is no terminal.
pub fn render_targets_plain<R: Runner>(r: &mut R, targets: &Vec<BootTarget>) -> (res: Result<
    (),
    Error,
>)
    ensures
        sub::did(final(r).world(), res) == targets_plain_does(
            old(r).world(),
            targets.deep_view(),
        ),
{
    let mut head: Vec<(String, &'static str)> = Vec::new();
    put_plain_head(&mut head);
    assert(head.deep_view() =~= plain_head());
    if let Err(e) = sub::tell_each(r, &head) {
        return Err(e);
    }
    if targets.len() == 0 {
        return sub::tell(r, "(no boot targets found)", "write empty notice");
    }
    if let Err(e) = print_target_menu(r, targets) {
        return Err(e);
    }
    sub::tell(
        r,
        "(interactive selection requires a tty; pipe stdout to a terminal)",
        "write tty notice",
    )
}

// ---------------------------------------------------------------------------
// The whole
// ---------------------------------------------------------------------------

/// Goes through the menu with what was found: a choice made beforehand is
/// started, an operator at a terminal gets the countdown, anyone else a list.
#[verifier::opaque]
pub open spec fn payload_does(w: World, found: Found) -> (World, Result<Following, Seq<char>>) {
    let ts = targets_of(found.bes);
    let w1 = w.after(Call::Env { name: "ZBOOT_BOOT_SELECT"@ });
    match w.mended() {
        Some(selector) => then_done(scripted_does(w1, ts, selector)),
        None => {
            let w2 = w1.after(Call::Interactive);
            if w1.reply().yes {
                text_menu_does(w2, ts)
            } else {
                then_done(targets_plain_does(w2, ts))
            }
        },
    }
}

/// Goes through the menu with what was found.
pub fn run_with_payload<R: Runner>(r: &mut R, payload: &DiscoverV1) -> (res: Result<Next, Error>)
    ensures
        sub::did(final(r).world(), res) == payload_does(
            old(r).world(),
            payload.deep_view(),
        ),
        res matches Ok(Next::Shell(ts)) ==> shell::bootable(ts.deep_view()),
{
    proof {
        reveal(payload_does);
        reveal(text_menu_does);
        law_targets_are_bootable(payload.deep_view().bes);
    }
    let targets = build_targets(payload);
    match r.env_mended("ZBOOT_BOOT_SELECT") {
        Some(selector) => {
            return match run_scripted_selection(r, &targets, selector.as_str()) {
                Err(e) => Err(e),
                Ok(()) => Ok(Next::Done),
            };
        },
        None => {},
    }
    if r.interactive() {
        return run_text_menu(r, targets);
    }
    match render_targets_plain(r, &targets) {
        Err(e) => Err(e),
        Ok(()) => Ok(Next::Done),
    }
}

/// Finds what there is to boot and goes through the menu. Where nothing is
/// found, the shell is left for repairs.
pub open spec fn run_does(w: World) -> (World, Result<Following, Seq<char>>) {
    let (w1, found) = discover::collect_does(w);
    match found {
        Ok(f) => if f.bes.len() > 0 {
            payload_does(w1, f)
        } else {
            (
                w1.trace(
                    "zboot-boot: no `zboot:role=root` pools discovered — recovery shell"@,
                ),
                Ok(Following::Shell(seq![])),
            )
        },
        Err(m) => (
            w1.trace("zboot-boot: discovery failed ("@ + m + ") — recovery shell"@),
            Ok(Following::Shell(seq![])),
        ),
    }
}

/// Finds what there is to boot and goes through the menu.
pub fn run<R: Runner>(r: &mut R) -> (res: Result<Next, Error>)
    ensures
        sub::did(final(r).world(), res) == run_does(old(r).world()),
        res matches Ok(Next::Shell(ts)) ==> shell::bootable(ts.deep_view()),
{
    let none: Vec<BootTarget> = Vec::new();
    assert(none.deep_view() =~= seq![]);
    match discover::collect_for_menu(r) {
        Ok(payload) => {
            if payload.bes.len() > 0 {
                return run_with_payload(r, &payload);
            }
            r.trace("zboot-boot: no `zboot:role=root` pools discovered — recovery shell");
            Ok(Next::Shell(none))
        },
        Err(e) => {
            let line: String = text::cat3(
                "zboot-boot: discovery failed (",
                e.message.as_str(),
                ") — recovery shell",
            );
            r.trace(line.as_str());
            Ok(Next::Shell(none))
        },
    }
}

// ---------------------------------------------------------------------------
// The lineage
// ---------------------------------------------------------------------------

/// One row of the lineage.
#[derive(Debug, Clone, PartialEq, Eq)]
pub struct MenuRow {
    /// What leads to the row.
    pub prefix: String,
    /// The name of the boot environment.
    pub label: String,
    pub dataset: String,
    pub active: bool,
    pub pool: String,
    pub kind: RowKind,
}

/// A pool's name, or a boot environment.
#[derive(Debug, Clone, Copy, PartialEq, Eq, Structural)]
pub enum RowKind {
    Header,
    Be,
}

/// One row of the lineage, by what is known of it.
#[verifier::ext_equal]
pub struct Row {
    pub prefix: Seq<char>,
    pub label: Seq<char>,
    pub dataset: Seq<char>,
    pub active: bool,
    pub pool: Seq<char>,
    pub kind: RowKind,
}

impl DeepView for MenuRow {
    type V = Row;

    open spec fn deep_view(&self) -> Row {
        Row {
            prefix: self.prefix@,
            label: self.label@,
            dataset: self.dataset@,
            active: self.active,
            pool: self.pool@,
            kind: self.kind,
        }
    }
}

/// A row as it is shown.
pub open spec fn row_text(row: Row) -> Seq<char> {
    match row.kind {
        RowKind::Header => "pool "@ + row.pool + ":"@,
        RowKind::Be => row.prefix + (if row.active {
            "* "@
        } else {
            "  "@
        }) + row.label,
    }
}

impl MenuRow {
    /// The row as it is shown.
    pub fn render(&self) -> (r: String)
        ensures
            r@ == row_text(self.deep_view()),
    {
        match self.kind {
            RowKind::Header => text::cat3("pool ", self.pool.as_str(), ":"),
            RowKind::Be => {
                let marker: &str = if self.active {
                    "* "
                } else {
                    "  "
                };
                text::cat3(self.prefix.as_str(), marker, self.label.as_str())
            },
        }
    }
}

/// The boot environment stands under another of the same pool.
pub open spec fn local_parent(bes: Seq<Be>, b: Be) -> bool {
    b.origin matches Some(o) && exists|i: int|
        0 <= i < bes.len() && (#[trigger] bes[i]).pool == b.pool && bes[i].dataset == o.dataset
}

fn has_local_parent(forest: &Forest, b: &BootEnvironment) -> (r: bool)
    ensures
        r == local_parent(forest.deep_view(), b.deep_view()),
{
    let origin = match &b.origin {
        None => return false,
        Some(o) => o,
    };
    let ghost bes = forest.deep_view();
    let mut i: usize = 0;
    while i < forest.bes.len()
        invariant
            i <= forest.bes@.len(),
            bes == forest.deep_view(),
            b.deep_view().origin == Some(origin.deep_view()),
            forall|j: int|
                0 <= j < i ==> !((#[trigger] bes[j]).pool == b.pool@ && bes[j].dataset
                    == origin.dataset@),
        decreases forest.bes@.len() - i,
    {
        let other = &forest.bes[i];
        assert(bes[i as int] == other.deep_view());
        if text::eq(other.pool.as_str(), b.pool.as_str()) && text::eq(
            other.dataset.as_str(),
            origin.dataset.as_str(),
        ) {
            proof {
                assert(bes[i as int].pool == b.pool@);
            }
            return true;
        }
        i = i + 1;
    }
    false
}

/// The boot environments of a pool that stand under none of the same pool, by
/// name.
pub open spec fn local_roots(bes: Seq<Be>, pool: Seq<char>) -> Seq<Be> {
    tree::by_name(bes.filter(|b: Be| b.pool == pool && !local_parent(bes, b)))
}

fn find_local_roots<'a>(forest: &'a Forest, pool: &str) -> (r: Vec<&'a BootEnvironment>)
    ensures
        r.deep_view() == local_roots(forest.deep_view(), pool@),
{
    let ghost all = forest.deep_view();
    let ghost keep = |b: Be| b.pool == pool@ && !local_parent(all, b);
    let mut out: Vec<&'a BootEnvironment> = Vec::new();
    let mut i: usize = 0;
    proof {
        reveal(Seq::filter);
        assert(out.deep_view() =~= all.take(0).filter(keep));
    }
    while i < forest.bes.len()
        invariant
            i <= forest.bes@.len(),
            all == forest.deep_view(),
            keep == (|b: Be| b.pool == pool@ && !local_parent(all, b)),
            out.deep_view() == all.take(i as int).filter(keep),
        decreases forest.bes@.len() - i,
    {
        let ghost so_far = out.deep_view();
        let b = &forest.bes[i];
        proof {
            reveal(Seq::filter);
            assert(all.take(i + 1).drop_last() =~= all.take(i as int));
            assert(all.take(i + 1).last() == b.deep_view());
        }
        if text::eq(b.pool.as_str(), pool) && !has_local_parent(forest, b) {
            out.push(b);
            assert(out.deep_view() =~= so_far.push(b.deep_view()));
        }
        i = i + 1;
    }
    assert(all.take(i as int) =~= all);
    tree::sort_by_name(out)
}

/// The row of a pool.
pub open spec fn header_row(pool: Seq<char>) -> Row {
    Row {
        prefix: ""@,
        label: ""@,
        dataset: ""@,
        active: false,
        pool,
        kind: RowKind::Header,
    }
}

/// The row of a boot environment.
pub open spec fn be_row(t: Twig, active: Seq<Seq<char>>) -> Row {
    Row {
        prefix: t.prefix + tree::connector(t.last),
        label: t.be.name,
        dataset: t.be.dataset,
        active: active.contains(t.be.dataset),
        pool: t.be.pool,
        kind: RowKind::Be,
    }
}

/// The boot environments of a pool in their places.
pub open spec fn pool_twigs(bes: Seq<Be>, pool: Seq<char>) -> Seq<Twig> {
    tree::thicket(bes, local_roots(bes, pool), "  "@, true, bes.len())
}

/// The rows of a pool.
pub open spec fn pool_rows(bes: Seq<Be>, pool: Seq<char>, active: Seq<Seq<char>>) -> Seq<Row> {
    seq![header_row(pool)] + pool_twigs(bes, pool).map_values(|t: Twig| be_row(t, active))
}

/// The rows of some pools.
pub open spec fn all_rows(bes: Seq<Be>, ps: Seq<Seq<char>>, active: Seq<Seq<char>>) -> Seq<Row>
    decreases ps.len(),
{
    if ps.len() == 0 {
        seq![]
    } else {
        all_rows(bes, ps.drop_last(), active) + pool_rows(bes, ps.last(), active)
    }
}

/// The pools of a forest, by name.
pub open spec fn forest_pools(bes: Seq<Be>) -> Seq<Seq<char>> {
    order::sorted_set(bes.map_values(|b: Be| b.pool))
}

/// The lineage: each boot environment under the one it was cloned from, pool
/// by pool.
pub open spec fn lineage(bes: Seq<Be>, active: Seq<Seq<char>>) -> Seq<Row> {
    all_rows(bes, forest_pools(bes), active)
}

fn is_among(active: &[&str], ds: &str) -> (r: bool)
    ensures
        r == active.deep_view().contains(ds@),
{
    let mut i: usize = 0;
    while i < active.len()
        invariant
            i <= active@.len(),
            forall|j: int| 0 <= j < i ==> #[trigger] active.deep_view()[j] != ds@,
        decreases active@.len() - i,
    {
        assert(active.deep_view()[i as int] == active@[i as int]@);
        if text::eq(active[i], ds) {
            return true;
        }
        i = i + 1;
    }
    false
}

fn list_forest_pools(forest: &Forest) -> (r: Vec<String>)
    ensures
        r.deep_view() == forest_pools(forest.deep_view()),
{
    let ghost goal = forest.deep_view().map_values(|b: Be| b.pool);
    let mut out: Vec<String> = Vec::new();
    let mut i: usize = 0;
    assert(out.deep_view() =~= goal.take(0));
    while i < forest.bes.len()
        invariant
            i <= forest.bes@.len(),
            goal == forest.deep_view().map_values(|b: Be| b.pool),
            out.deep_view() == goal.take(i as int),
        decreases forest.bes@.len() - i,
    {
        let b = &forest.bes[i];
        assert(forest.deep_view()[i as int] == b.deep_view());
        text::push_text(&mut out, b.pool.as_str());
        assert(goal.take(i + 1) =~= goal.take(i as int).push(goal[i as int]));
        i = i + 1;
    }
    assert(goal.take(i as int) =~= goal);
    order::sort_set(&out)
}

fn push_row(out: &mut Vec<MenuRow>, row: MenuRow)
    ensures
        final(out).deep_view() == old(out).deep_view().push(row.deep_view()),
{
    let ghost so_far = out.deep_view();
    out.push(row);
    assert(out.deep_view() =~= so_far.push(row.deep_view()));
}

fn push_twigs<'a>(out: &mut Vec<MenuRow>, twigs: &Vec<TreeRow<'a>>, active: &[&str])
    ensures
        final(out).deep_view() == old(out).deep_view() + twigs.deep_view().map_values(
            |t: Twig| be_row(t, active.deep_view()),
        ),
{
    let ghost was = out.deep_view();
    let ghost goal = twigs.deep_view().map_values(|t: Twig| be_row(t, active.deep_view()));
    let mut i: usize = 0;
    assert(out.deep_view() =~= was + goal.take(0));
    while i < twigs.len()
        invariant
            i <= twigs@.len(),
            goal == twigs.deep_view().map_values(|t: Twig| be_row(t, active.deep_view())),
            out.deep_view() == was + goal.take(i as int),
        decreases twigs@.len() - i,
    {
        let t = &twigs[i];
        assert(twigs.deep_view()[i as int] == t.deep_view());
        let row = MenuRow {
            prefix: text::cat2(t.prefix.as_str(), tree::connector_text(t.last)),
            label: t.be.name.clone(),
            dataset: t.be.dataset.clone(),
            active: is_among(active, t.be.dataset.as_str()),
            pool: t.be.pool.clone(),
            kind: RowKind::Be,
        };
        assert(row.deep_view() =~= goal[i as int]);
        push_row(out, row);
        assert(was + goal.take(i + 1) =~= (was + goal.take(i as int)).push(goal[i as int]));
        i = i + 1;
    }
    assert(goal.take(i as int) =~= goal);
}

/// The lineage. The datasets in `active` are marked.
pub fn build_rows_with_active(forest: &Forest, active: &[&str]) -> (r: Vec<MenuRow>)
    ensures
        r.deep_view() == lineage(forest.deep_view(), active.deep_view()),
{
    let ghost bes = forest.deep_view();
    let ghost act = active.deep_view();
    let ps = list_forest_pools(forest);
    let ghost pools = ps.deep_view();
    let mut out: Vec<MenuRow> = Vec::new();
    let mut i: usize = 0;
    assert(out.deep_view() =~= all_rows(bes, pools.take(0), act));
    while i < ps.len()
        invariant
            i <= ps@.len(),
            bes == forest.deep_view(),
            act == active.deep_view(),
            pools == ps.deep_view(),
            out.deep_view() == all_rows(bes, pools.take(i as int), act),
        decreases ps@.len() - i,
    {
        let ghost so_far = out.deep_view();
        let pool: &str = ps[i].as_str();
        proof {
            assert(pools.take(i + 1).drop_last() =~= pools.take(i as int));
            assert(pools.take(i + 1).last() == pool@);
        }
        let header = MenuRow {
            prefix: "".to_owned(),
            label: "".to_owned(),
            dataset: "".to_owned(),
            active: false,
            pool: pool.to_owned(),
            kind: RowKind::Header,
        };
        assert(header.deep_view() =~= header_row(pool@));
        push_row(&mut out, header);
        let roots = find_local_roots(forest, pool);
        let mut twigs: Vec<TreeRow<'_>> = Vec::new();
        assert(twigs.deep_view() =~= seq![]);
        assert(roots.deep_view().skip(0) =~= roots.deep_view());
        tree::grow_all(forest, &roots, 0, "  ", true, forest.bes.len(), &mut twigs);
        assert(twigs.deep_view() =~= pool_twigs(bes, pool@));
        push_twigs(&mut out, &twigs, active);
        assert(out.deep_view() =~= so_far + pool_rows(bes, pool@, act));
        i = i + 1;
    }
    assert(pools.take(i as int) =~= pools);
    out
}

/// The lineage. The dataset that boots next is marked.
pub fn build_rows(forest: &Forest, bootfs: Option<&str>) -> (r: Vec<MenuRow>)
    ensures
        r.deep_view() == lineage(
            forest.deep_view(),
            match bootfs.deep_view() {
                Some(b) => seq![b],
                None => seq![],
            },
        ),
{
    let mut active: Vec<&str> = Vec::new();
    match bootfs {
        Some(b) => active.push(b),
        None => {},
    }
    assert(active.deep_view() =~= (match bootfs.deep_view() {
        Some(b) => seq![b],
        None => seq![],
    }));
    build_rows_with_active(forest, active.as_slice())
}

/// The lineage as it is shown without a terminal.
pub open spec fn plain_lines(rows: Seq<Row>) -> Seq<(Seq<char>, Seq<char>)> {
    plain_head() + (if rows.len() == 0 {
        seq![("(no boot environments found)"@, "write empty notice"@)]
    } else {
        rows.map_values(|row: Row| (row_text(row), "write row"@)) + seq![
            (""@, "write blank"@),
            (tty_hint(), "write tty notice"@),
        ]
    })
}

/// Shows the lineage without a terminal.
pub fn render_plain<R: Runner>(r: &mut R, rows: &Vec<MenuRow>) -> (res: Result<(), Error>)
    ensures
        sub::did(final(r).world(), res) == sub::tell_each_does(
            old(r).world(),
            plain_lines(rows.deep_view()),
        ),
{
    let ghost all = rows.deep_view();
    let ghost head = plain_head();
    let ghost goal = all.map_values(|row: Row| (row_text(row), "write row"@));
    let mut out: Vec<(String, &'static str)> = Vec::new();
    put_plain_head(&mut out);
    if rows.len() == 0 {
        sub::push_line(&mut out, "(no boot environments found)", "write empty notice");
        assert(out.deep_view() =~= plain_lines(all));
        return sub::tell_each(r, &out);
    }
    let mut i: usize = 0;
    assert(out.deep_view() =~= head + goal.take(0));
    while i < rows.len()
        invariant
            i <= rows@.len(),
            all == rows.deep_view(),
            goal == all.map_values(|row: Row| (row_text(row), "write row"@)),
            out.deep_view() == head + goal.take(i as int),
        decreases rows@.len() - i,
    {
        let line: String = rows[i].render();
        assert(all[i as int] == rows@[i as int].deep_view());
        sub::push_line(&mut out, line.as_str(), "write row");
        assert(goal[i as int] == (line@, "write row"@));
        assert(head + goal.take(i + 1) =~= (head + goal.take(i as int)).push(goal[i as int]));
        i = i + 1;
    }
    assert(goal.take(i as int) =~= goal);
    sub::push_line(&mut out, "", "write blank");
    sub::push_line(
        &mut out,
        "(interactive selection requires a tty; pipe stdout to a terminal)",
        "write tty notice",
    );
    assert(out.deep_view() =~= plain_lines(all));
    sub::tell_each(r, &out)
}

// ---------------------------------------------------------------------------
// Made-up data
// ---------------------------------------------------------------------------

/// A kernel with its boot image.
pub open spec fn fake_kernel(vmlinuz: Seq<char>, initrd: Seq<char>, default: bool) -> Kernel {
    Kernel { vmlinuz, initrd: Some(initrd), default }
}

/// A boot environment that is bound to nothing and not mounted.
pub open spec fn fake_be(
    pool: Seq<char>,
    name: Seq<char>,
    origin: Option<Seq<char>>,
    active: bool,
    kernels: Seq<Kernel>,
) -> FoundBe {
    FoundBe {
        pool,
        dataset: pool + "/ROOT/"@ + name,
        name,
        origin,
        active,
        readonly: false,
        bound_to: seq![],
        kernels,
        mount_root: None,
    }
}

/// Two pools, with all that the menu lays out: a boot environment with several
/// kernels, one with a single kernel and an origin, and one on another pool.
pub open spec fn fake_found() -> Found {
    let one = seq![fake_kernel("vmlinuz"@, "initrd.img"@, true)];
    Found {
        pools: seq![
            FoundPool {
                name: "rpool"@,
                role: "root"@,
                bootfs: Some("rpool/ROOT/be1"@),
                guid: Some(1),
            },
            FoundPool {
                name: "rpool2"@,
                role: "root"@,
                bootfs: Some("rpool2/ROOT/be3"@),
                guid: Some(2),
            },
        ],
        bes: seq![
            fake_be(
                "rpool"@,
                "be1"@,
                None,
                true,
                seq![
                    fake_kernel("vmlinuz"@, "initrd.img"@, false),
                    fake_kernel("vmlinuz-6.13.0"@, "initrd.img-6.13.0"@, true),
                    fake_kernel("vmlinuz.old"@, "initrd.img.old"@, false),
                ],
            ),
            fake_be("rpool"@, "be2"@, Some("rpool/ROOT/be1@snap1"@), false, one),
            fake_be("rpool2"@, "be3"@, None, true, one),
        ],
    }
}

fn make_kernel(vmlinuz: &str, initrd: &str, default: bool) -> (r: KernelEntry)
    ensures
        r.deep_view() == fake_kernel(vmlinuz@, initrd@, default),
{
    KernelEntry { vmlinuz: vmlinuz.to_owned(), initrd: Some(initrd.to_owned()), default }
}

fn make_be(
    pool: &str,
    name: &str,
    origin: Option<String>,
    active: bool,
    kernels: Vec<KernelEntry>,
) -> (r: BeJson)
    ensures
        r.deep_view() == fake_be(
            pool@,
            name@,
            origin.deep_view(),
            active,
            kernels.deep_view(),
        ),
{
    let none: Vec<String> = Vec::new();
    assert(none.deep_view() =~= seq![]);
    BeJson {
        pool: pool.to_owned(),
        dataset: text::cat3(pool, "/ROOT/", name),
        name: name.to_owned(),
        origin,
        active,
        readonly: false,
        bound_to: none,
        kernels,
        mount_root: None,
    }
}

fn one_kernel() -> (r: Vec<KernelEntry>)
    ensures
        r.deep_view() == seq![fake_kernel("vmlinuz"@, "initrd.img"@, true)],
{
    let mut out: Vec<KernelEntry> = Vec::new();
    out.push(make_kernel("vmlinuz", "initrd.img", true));
    assert(out.deep_view() =~= seq![fake_kernel("vmlinuz"@, "initrd.img"@, true)]);
    out
}

/// What there could be to boot, made up to look at the menu without a pool.
pub fn fake_payload() -> (r: DiscoverV1)
    ensures
        r.deep_view() == fake_found(),
{
    let mut pools: Vec<PoolJson> = Vec::new();
    pools.push(
        PoolJson {
            name: "rpool".to_owned(),
            role: "root".to_owned(),
            bootfs: Some("rpool/ROOT/be1".to_owned()),
            guid: Some(1),
        },
    );
    pools.push(
        PoolJson {
            name: "rpool2".to_owned(),
            role: "root".to_owned(),
            bootfs: Some("rpool2/ROOT/be3".to_owned()),
            guid: Some(2),
        },
    );
    let mut kernels: Vec<KernelEntry> = Vec::new();
    kernels.push(make_kernel("vmlinuz", "initrd.img", false));
    kernels.push(make_kernel("vmlinuz-6.13.0", "initrd.img-6.13.0", true));
    kernels.push(make_kernel("vmlinuz.old", "initrd.img.old", false));
    assert(kernels.deep_view() =~= fake_found().bes[0].kernels);
    let mut bes: Vec<BeJson> = Vec::new();
    bes.push(make_be("rpool", "be1", None, true, kernels));
    bes.push(
        make_be("rpool", "be2", Some("rpool/ROOT/be1@snap1".to_owned()), false, one_kernel()),
    );
    bes.push(make_be("rpool2", "be3", None, true, one_kernel()));
    let r = DiscoverV1 { pools, bes };
    assert(r.deep_view().pools =~= fake_found().pools);
    assert(r.deep_view().bes =~= fake_found().bes);
    r
}

// ---------------------------------------------------------------------------
// Laws
// ---------------------------------------------------------------------------

/// Every boot environment that was found can be chosen, once.
pub proof fn law_every_be_can_be_chosen(bes: Seq<FoundBe>)
    ensures
        targets_of(bes).len() == bes.len(),
{
    let names = pools_of(bes);
    let ps = order::sorted_set(names);
    order::law_sorted_set(names);
    assert forall|i: int| 0 <= i < bes.len() implies ps.contains((#[trigger] bes[i]).pool) by {
        assert(names[i] == bes[i].pool);
        assert(names.contains(bes[i].pool));
    }
    lemma_grouped_len(ps, bes);
}

/// The targets are numbered from 1 on, and found by their numbers.
pub proof fn law_targets_are_numbered(bes: Seq<FoundBe>, i: int)
    requires
        0 <= i < targets_of(bes).len(),
    ensures
        targets_of(bes)[i].idx == i + 1,
        shell::target_numbered(targets_of(bes), (i + 1) as nat) == Some(targets_of(bes)[i]),
{
    let ts = targets_of(bes);
    assert forall|j: int| 0 <= j < ts.len() implies (#[trigger] ts[j]).idx == 1 + j by {}
    shell::law_numbers(ts, 1, i);
}

/// Every target has a kernel.
pub proof fn law_targets_are_bootable(bes: Seq<FoundBe>)
    ensures
        shell::bootable(targets_of(bes)),
{
    let ts = targets_of(bes);
    assert forall|i: int| 0 <= i < ts.len() implies (#[trigger] ts[i]).kernels.len() > 0 by {}
}

/// The default target is one that boots next, wherever there is one.
pub proof fn law_default_is_active(ts: Seq<Target>)
    requires
        exists|i: int| 0 <= i < ts.len() && (#[trigger] ts[i]).is_active,
    ensures
        0 <= default_place(ts) < ts.len(),
        ts[default_place(ts)].is_active,
        forall|j: int| 0 <= j < default_place(ts) ==> !(#[trigger] ts[j]).is_active,
{
    let i = choose|i: int| 0 <= i < ts.len() && (#[trigger] ts[i]).is_active;
    lemma_first_active(ts, i);
}

proof fn lemma_first_active(ts: Seq<Target>, i: int)
    requires
        0 <= i < ts.len(),
        ts[i].is_active,
    ensures
        0 <= first_active(ts) <= i,
        ts[first_active(ts)].is_active,
        forall|j: int| 0 <= j < first_active(ts) ==> !(#[trigger] ts[j]).is_active,
    decreases ts.len(),
{
    if !ts[0].is_active {
        let rest = ts.drop_first();
        assert(rest[i - 1] == ts[i]);
        lemma_first_active(rest, i - 1);
        assert(rest[first_active(rest)] == ts[first_active(ts)]);
        assert forall|j: int| 0 <= j < first_active(ts) implies !(#[trigger] ts[j]).is_active by {
            if j > 0 {
                assert(rest[j - 1] == ts[j]);
            }
        }
    }
}

/// A countdown that nobody stops shows every second, and lasts as long as was
/// asked.
pub proof fn law_countdown_runs_out(w: World, n: nat, secs: nat)
    requires
        forall|k: nat| ({
            let a = #[trigger] (w.replies)(k);
            a.failure is None && !a.yes
        }),
    ensures
        ticks_does(w, n, secs).1 == Ok::<bool, Seq<char>>(false),
        ticks_does(w, n, secs).0.calls.len() == w.calls.len() + 2 * secs,
    decreases secs,
{
    if secs > 0 {
        let w1 = w.after(Call::KeyWithin { millis: 1000 });
        let left = (secs - 1) as nat;
        assert((w.replies)(w.calls.len() as nat).failure is None);
        law_countdown_runs_out(w1.show(countdown_text(n, left)), n, left);
    }
}

/// Without a terminal and without a choice made beforehand, nothing is started
/// and nothing is changed.
pub proof fn law_no_terminal_no_start(w: World, found: Found)
    requires
        w.mended() is None,
        !w.after(Call::Env { name: "ZBOOT_BOOT_SELECT"@ }).reply().yes,
    ensures
        sub::only_looked(w, payload_does(w, found).0),
        payload_does(w, found).1 matches Ok(next) ==> next is Done,
{
    reveal(payload_does);
    let ts = targets_of(found.bes);
    let w1 = w.after(Call::Env { name: "ZBOOT_BOOT_SELECT"@ }).after(Call::Interactive);
    sub::lemma_tell_each_looks(w1, plain_head());
    let w2 = sub::tell_each_does(w1, plain_head()).0;
    sub::lemma_tell_each_looks(w2, menu_lines(ts));
}

/// A row of the lineage is marked iff its dataset boots next.
pub proof fn law_marked_rows(bes: Seq<Be>, pool: Seq<char>, active: Seq<Seq<char>>, i: int)
    requires
        0 < i < pool_rows(bes, pool, active).len(),
    ensures
        pool_rows(bes, pool, active)[i].active <==> active.contains(
            pool_rows(bes, pool, active)[i].dataset,
        ),
{
    assert(pool_rows(bes, pool, active)[i] == be_row(pool_twigs(bes, pool)[i - 1], active));
}

/// The boot environments of a pool are all those that are on it.
pub proof fn law_pool_bes(bes: Seq<FoundBe>, pool: Seq<char>)
    ensures
        forall|x: FoundBe| #[trigger] pool_bes(bes, pool).contains(x) <==> exists|i: int| 0 <= i < bes.len() && (#[trigger] bes[i]) == x && x.pool == pool,
    decreases bes.len(),
{
    if bes.len() > 0 {
        let front = bes.drop_last();
        law_pool_bes(front, pool);
        let before = pool_bes(front, pool);
        let all = pool_bes(bes, pool);
        assert forall|x: FoundBe| #[trigger] all.contains(x) <==> exists|i: int| 0 <= i < bes.len() && (#[trigger] bes[i]) == x && x.pool == pool by {
            if all.contains(x) {
                let k = choose|k: int| 0 <= k < all.len() && all[k] == x;
                if k < before.len() {
                    assert(before[k] == x);
                    assert(before.contains(x));
                    let i = choose|i: int| 0 <= i < front.len() && (#[trigger] front[i]) == x && x.pool == pool;
                    assert(bes[i] == front[i]);
                } else {
                    assert(bes[bes.len() - 1] == x && x.pool == pool);
                }
            }
            if exists|i: int| 0 <= i < bes.len() && (#[trigger] bes[i]) == x && x.pool == pool {
                let i = choose|i: int| 0 <= i < bes.len() && (#[trigger] bes[i]) == x && x.pool == pool;
                if i < front.len() {
                    assert(front[i] == bes[i]);
                    assert(before.contains(x));
                    let k = choose|k: int| 0 <= k < before.len() && before[k] == x;
                    assert(all[k] == x);
                } else {
                    assert(bes[i] == bes.last());
                    assert(all[all.len() - 1] == x);
                }
            }
        }
    }
}

proof fn lemma_grouped_holds(ps: Seq<Seq<char>>, bes: Seq<FoundBe>)
    ensures
        forall|x: FoundBe| #[trigger]
            grouped(ps, bes).contains(x) <==> bes.contains(x) && ps.contains(x.pool),
    decreases ps.len(),
{
    if ps.len() > 0 {
        let front = ps.drop_last();
        let last = ps.last();
        lemma_grouped_holds(front, bes);
        law_pool_bes(bes, last);
        let a = grouped(front, bes);
        let b = pool_bes(bes, last);
        assert forall|x: FoundBe| #[trigger]
            grouped(ps, bes).contains(x) <==> bes.contains(x) && ps.contains(x.pool) by {
            assert(grouped(ps, bes) == a + b);
            assert((a + b).contains(x) <==> a.contains(x) || b.contains(x)) by {
                if (a + b).contains(x) {
                    let i = choose|i: int| 0 <= i < (a + b).len() && (a + b)[i] == x;
                    if i < a.len() {
                        assert(a[i] == x);
                    } else {
                        assert(b[i - a.len()] == x);
                    }
                }
                if a.contains(x) {
                    let i = choose|i: int| 0 <= i < a.len() && a[i] == x;
                    assert((a + b)[i] == x);
                }
                if b.contains(x) {
                    let i = choose|i: int| 0 <= i < b.len() && b[i] == x;
                    assert((a + b)[a.len() + i] == x);
                }
            }
            assert(ps.contains(x.pool) <==> front.contains(x.pool) || x.pool == last) by {
                if ps.contains(x.pool) {
                    let i = choose|i: int| 0 <= i < ps.len() && ps[i] == x.pool;
                    if i < front.len() {
                        assert(front[i] == x.pool);
                    }
                }
                if front.contains(x.pool) {
                    let i = choose|i: int| 0 <= i < front.len() && front[i] == x.pool;
                    assert(ps[i] == x.pool);
                }
                assert(ps[ps.len() - 1] == last);
            }
            if bes.contains(x) && x.pool == last {
                let i = choose|i: int| 0 <= i < bes.len() && bes[i] == x;
                assert(bes[i] == x && x.pool == last);
            }
        }
    }
}

/// Every boot environment that was found is a target, under the number of its
/// place, with its own dataset, kernels and marks; and every target is one.
pub proof fn law_targets_are_the_found(bes: Seq<FoundBe>)
    ensures
        forall|b: FoundBe|
            bes.contains(b) ==> exists|i: int|
                0 <= i < targets_of(bes).len() && #[trigger] targets_of(bes)[i] == #[trigger] target_of(
                    (i + 1) as nat,
                    b,
                ),
        forall|i: int|
            0 <= i < targets_of(bes).len() ==> exists|k: int|
                0 <= k < bes.len() && #[trigger] targets_of(bes)[i] == target_of(
                    (i + 1) as nat,
                    #[trigger] bes[k],
                ),
{
    let names = pools_of(bes);
    let ps = order::sorted_set(names);
    order::law_sorted_set(names);
    lemma_grouped_holds(ps, bes);
    let g = grouped(ps, bes);
    let ts = targets_of(bes);
    assert forall|b: FoundBe| bes.contains(b) implies exists|i: int|
        0 <= i < ts.len() && #[trigger] ts[i] == #[trigger] target_of((i + 1) as nat, b) by {
        let k = choose|k: int| 0 <= k < bes.len() && bes[k] == b;
        assert(names[k] == b.pool);
        assert(names.contains(b.pool));
        assert(g.contains(b));
        let i = choose|i: int| 0 <= i < g.len() && g[i] == b;
        assert(ts[i] == target_of((i + 1) as nat, b));
    }
    assert forall|i: int| 0 <= i < ts.len() implies exists|k: int|
        0 <= k < bes.len() && #[trigger] ts[i] == target_of((i + 1) as nat, #[trigger] bes[k]) by {
        assert(g.contains(g[i]));
        assert(bes.contains(g[i]));
        let k = choose|k: int| 0 <= k < bes.len() && bes[k] == g[i];
        assert(ts[i] == target_of((i + 1) as nat, bes[k]));
    }
}

/// A scripted choice is a target with the dataset that was named, and with it a
/// kernel of that target: the one named behind the colon, or else its default.
pub proof fn law_scripted_choice(ts: Seq<Target>, selector: Seq<char>)
    ensures
        scripted(ts, selector) matches Ok(Some((t, k))) ==> {
            &&& ts.contains(t)
            &&& match text::cut(selector, ':') {
                Some((ds, kn)) => t.dataset == ds && t.kernels.contains(k) && k.vmlinuz == kn,
                None => t.dataset == selector && k == shell::default_choice(t.kernels),
            }
        },
        text::cut(selector, ':') is None ==> (scripted(ts, selector) == Ok::<_, Seq<char>>(
            None::<(Target, Choice)>,
        ) <==> forall|i: int| 0 <= i < ts.len() ==> (#[trigger] ts[i]).dataset != selector),
{
    match text::cut(selector, ':') {
        Some((ds, kn)) => {
            shell::law_target_at(ts, ds);
            if let Some(t) = shell::target_at(ts, ds) {
                shell::law_choice_named(t.kernels, kn);
            }
        },
        None => {
            shell::law_target_at(ts, selector);
        },
    }
}

} // verus!
