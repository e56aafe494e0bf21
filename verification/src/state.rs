//! What the machine holds: its pools with their roles, its datasets, and the
//! boot environments among them.

use vstd::prelude::*;

use crate::error;
use crate::error::Error;
use crate::facts;
use crate::facts::Rows;
use crate::model;
use crate::model::{Be, BootEnvironment, Pool, PoolFacts, Property};
use crate::pools;
use crate::sub;
use crate::sub::{Runner, World};
use crate::text;

verus! {

// ---------------------------------------------------------------------------
// Pools
// ---------------------------------------------------------------------------

/// No pool before the one at `i` has its name.
pub open spec fn first_of_name(ps: Seq<PoolFacts>, i: int) -> bool {
    forall|j: int| 0 <= j < i ==> (#[trigger] ps[j]).name != ps[i].name
}

/// A pool with the role that the table gives it.
pub open spec fn told_role(ps: Seq<PoolFacts>, rows: Rows, i: int) -> PoolFacts {
    match facts::last_role(rows, ps[i].name) {
        Some(role) => if first_of_name(ps, i) {
            PoolFacts { role: Some(role), ..ps[i] }
        } else {
            ps[i]
        },
        None => ps[i],
    }
}

/// The pools with the roles that the table gives them.
pub open spec fn told_roles(ps: Seq<PoolFacts>, rows: Rows) -> Seq<PoolFacts> {
    Seq::new(ps.len(), |i: int| told_role(ps, rows, i))
}

fn is_first_of_name(ps: &Vec<Pool>, i: usize) -> (r: bool)
    requires
        i < ps@.len(),
    ensures
        r == first_of_name(ps.deep_view(), i as int),
{
    let mut j: usize = 0;
    while j < i
        invariant
            j <= i < ps@.len(),
            forall|k: int|
                0 <= k < j ==> (#[trigger] ps.deep_view()[k]).name != ps.deep_view()[i as int].name,
        decreases i - j,
    {
        assert(ps.deep_view()[j as int].name == ps@[j as int].name@);
        assert(ps.deep_view()[i as int].name == ps@[i as int].name@);
        if text::eq(ps[j].name.as_str(), ps[i].name.as_str()) {
            return false;
        }
        j = j + 1;
    }
    true
}

/// Writes the roles of a `zpool get zboot:role` table into the pools.
pub fn annotate_pool_roles(ps: &mut Vec<Pool>, props: &Vec<(String, Property)>)
    ensures
        final(ps).deep_view() == told_roles(old(ps).deep_view(), props.deep_view()),
{
    let ghost was = ps.deep_view();
    let ghost goal = told_roles(was, props.deep_view());
    let mut out: Vec<Pool> = Vec::new();
    let mut i: usize = 0;
    assert(out.deep_view() =~= goal.take(0));
    while i < ps.len()
        invariant
            i <= ps@.len(),
            ps.deep_view() == was,
            goal == told_roles(was, props.deep_view()),
            out.deep_view() == goal.take(i as int),
        decreases ps@.len() - i,
    {
        let ghost so_far = out.deep_view();
        let mut p = ps[i].copy();
        assert(p.deep_view() == was[i as int]);
        let told = facts::find_role(props, ps[i].name.as_str());
        if let Some(role) = told {
            if is_first_of_name(ps, i) {
                p.role = Some(role);
            }
        }
        assert(p.deep_view() == goal[i as int]);
        out.push(p);
        assert(out.deep_view() =~= so_far.push(p.deep_view()));
        assert(goal.take(i + 1) =~= goal.take(i as int).push(goal[i as int]));
        i = i + 1;
    }
    assert(goal.take(i as int) =~= goal);
    *ps = out;
}

/// Lists the pools with their roles.
#[verifier::opaque]
pub open spec fn pools_does(w: World) -> (World, Result<Seq<PoolFacts>, Seq<char>>) {
    let (w1, listed) = sub::capture_does(
        w,
        "zpool"@,
        seq!["list"@, "-Hp"@, "-o"@, "name,bootfs,guid"@],
    );
    match listed {
        Err(m) => (w1, Err(m)),
        Ok(t) => match model::pools_of(t) {
            Err(m) => (w1, Err(error::within("parsing `zpool list`"@, m))),
            Ok(ps) => if ps.len() == 0 {
                (w1, Ok(ps))
            } else {
                let (w2, got) = sub::capture_does(
                    w1,
                    "zpool"@,
                    seq!["get"@, "-Hp"@, "-o"@, "name,property,value"@, "zboot:role"@]
                        + model::pool_names(ps),
                );
                match got {
                    Err(m) => (w2, Err(m)),
                    Ok(u) => match model::props_of(u) {
                        Err(m) => (w2, Err(error::within("parsing `zpool get zboot:role`"@, m))),
                        Ok(rows) => (w2, Ok(told_roles(ps, rows))),
                    },
                }
            },
        },
    }
}

/// The pools with their roles.
pub fn collect_pools<R: Runner>(r: &mut R) -> (res: Result<Vec<Pool>, Error>)
    ensures
        sub::did(final(r).world(), res) == pools_does(old(r).world()),
{
    proof {
        reveal(pools_does);
    }
    let args = text::argv4("list", "-Hp", "-o", "name,bootfs,guid");
    let listed: String = match sub::cmd_capture(r, "zpool", args.as_slice()) {
        Err(e) => return Err(e),
        Ok(t) => t,
    };
    let mut ps: Vec<Pool> = match model::parse_zpool_list(listed.as_str()) {
        Err(e) => return Err(e.context("parsing `zpool list`")),
        Ok(ps) => ps,
    };
    if ps.len() == 0 {
        return Ok(ps);
    }
    let names = model::names_of_pools(&ps);
    let head = text::argv5("get", "-Hp", "-o", "name,property,value", "zboot:role");
    let args = text::extend_strs(head, &names);
    let got: String = match sub::cmd_capture(r, "zpool", args.as_slice()) {
        Err(e) => return Err(e),
        Ok(t) => t,
    };
    match model::parse_zfs_get(got.as_str()) {
        Err(e) => Err(e.context("parsing `zpool get zboot:role`")),
        Ok(rows) => {
            annotate_pool_roles(&mut ps, &rows);
            Ok(ps)
        },
    }
}

// ---------------------------------------------------------------------------
// Datasets
// ---------------------------------------------------------------------------

/// Lists all file systems, and what `props` are of each.
#[verifier::opaque]
pub open spec fn datasets_does(w: World, props: Seq<char>) -> (World, Result<
    (Seq<Seq<char>>, Rows),
    Seq<char>,
>) {
    let (w1, listed) = sub::capture_does(
        w,
        "zfs"@,
        seq!["list"@, "-Hp"@, "-o"@, "name"@, "-t"@, "filesystem"@],
    );
    match listed {
        Err(m) => (w1, Err(m)),
        Ok(t) => {
            let names = pools::full_lines(text::lines_of(t));
            if names.len() == 0 {
                (w1, Ok((names, seq![])))
            } else {
                let (w2, got) = sub::capture_does(
                    w1,
                    "zfs"@,
                    seq!["get"@, "-Hp"@, "-o"@, "name,property,value"@, props] + names,
                );
                match got {
                    Err(m) => (w2, Err(m)),
                    Ok(u) => match model::props_of(u) {
                        Err(m) => (w2, Err(error::within("parsing `zfs get` for datasets"@, m))),
                        Ok(rows) => (w2, Ok((names, rows))),
                    },
                }
            }
        },
    }
}

/// All file systems, and the table of their properties.
pub fn collect_datasets<R: Runner>(r: &mut R, props: &str) -> (res: Result<
    (Vec<String>, Vec<(String, Property)>),
    Error,
>)
    ensures
        sub::did(final(r).world(), res) == datasets_does(old(r).world(), props@),
{
    proof {
        reveal(datasets_does);
    }
    let args = text::argv6("list", "-Hp", "-o", "name", "-t", "filesystem");
    let listed: String = match sub::cmd_capture(r, "zfs", args.as_slice()) {
        Err(e) => return Err(e),
        Ok(t) => t,
    };
    let names = pools::nonblank_lines(listed.as_str());
    if names.len() == 0 {
        let none: Vec<(String, Property)> = Vec::new();
        assert(none.deep_view() =~= seq![]);
        return Ok((names, none));
    }
    let head = text::argv5("get", "-Hp", "-o", "name,property,value", props);
    let args = text::extend_strs(head, &names);
    let got: String = match sub::cmd_capture(r, "zfs", args.as_slice()) {
        Err(e) => return Err(e),
        Ok(t) => t,
    };
    match model::parse_zfs_get(got.as_str()) {
        Err(e) => Err(e.context("parsing `zfs get` for datasets")),
        Ok(rows) => Ok((names, rows)),
    }
}

// ---------------------------------------------------------------------------
// Boot environments
// ---------------------------------------------------------------------------

/// The boot environment that the table describes at a dataset.
pub open spec fn be_at(rows: Rows, ds: Seq<char>) -> Be {
    Be {
        pool: text::before(ds, '/'),
        name: text::after_last(ds, '/'),
        dataset: ds,
        origin: facts::last_origin(rows, ds),
        created_by: facts::last_creator(rows, ds),
        mountpoint: facts::last_mount(rows, ds),
        canmount: facts::last_canmount(rows, ds),
    }
}

/// The boot environments among the datasets, in their order.
pub open spec fn bes_among(names: Seq<Seq<char>>, rows: Rows) -> Seq<Be>
    decreases names.len(),
{
    if names.len() == 0 {
        seq![]
    } else {
        let front = bes_among(names.drop_last(), rows);
        if facts::last_be(rows, names.last()) {
            front.push(be_at(rows, names.last()))
        } else {
            front
        }
    }
}

/// Reads the boot environments out of a property table.
pub fn bes_from_props(names: &Vec<String>, props: &Vec<(String, Property)>) -> (r: Vec<
    BootEnvironment,
>)
    ensures
        r.deep_view() == bes_among(names.deep_view(), props.deep_view()),
{
    let ghost all = names.deep_view();
    let mut out: Vec<BootEnvironment> = Vec::new();
    let mut i: usize = 0;
    assert(out.deep_view() =~= bes_among(all.take(0), props.deep_view()));
    while i < names.len()
        invariant
            i <= names@.len(),
            all == names.deep_view(),
            out.deep_view() == bes_among(all.take(i as int), props.deep_view()),
        decreases names@.len() - i,
    {
        let ghost so_far = out.deep_view();
        proof {
            assert(all.take(i + 1).drop_last() =~= all.take(i as int));
            assert(all.take(i + 1).last() == names@[i as int]@);
        }
        let ds: &str = names[i].as_str();
        if facts::find_be(props, ds) {
            let be = BootEnvironment {
                pool: text::head(ds, '/').to_owned(),
                name: text::tail(ds, '/').to_owned(),
                dataset: ds.to_owned(),
                origin: facts::find_origin(props, ds),
                created_by: facts::find_creator(props, ds),
                mountpoint: facts::find_mount(props, ds),
                canmount: facts::find_canmount(props, ds),
            };
            out.push(be);
            assert(out.deep_view() =~= so_far.push(be.deep_view()));
        }
        i = i + 1;
    }
    assert(all.take(i as int) =~= all);
    out
}

/// Every boot environment that is read lies at one of the datasets, and the
/// table marks it as one.
pub proof fn law_bes_are_marked(names: Seq<Seq<char>>, rows: Rows, i: int)
    requires
        0 <= i < bes_among(names, rows).len(),
    ensures
        ({
            let b = bes_among(names, rows)[i];
            names.contains(b.dataset) && facts::last_be(rows, b.dataset)
        }),
    decreases names.len(),
{
    let front = names.drop_last();
    if i < bes_among(front, rows).len() {
        law_bes_are_marked(front, rows, i);
        let ds = bes_among(front, rows)[i].dataset;
        let k = choose|k: int| 0 <= k < front.len() && front[k] == ds;
        assert(names[k] == ds);
    } else {
        assert(names[names.len() - 1] == names.last());
    }
}

/// Every dataset that the table marks is read as a boot environment.
pub proof fn law_marked_are_bes(names: Seq<Seq<char>>, rows: Rows, ds: Seq<char>)
    requires
        names.contains(ds),
        facts::last_be(rows, ds),
    ensures
        bes_among(names, rows).contains(be_at(rows, ds)),
    decreases names.len(),
{
    let front = names.drop_last();
    let b = be_at(rows, ds);
    let all = bes_among(names, rows);
    if names.last() == ds {
        assert(all[all.len() - 1] == b);
    } else {
        let k = choose|k: int| 0 <= k < names.len() && names[k] == ds;
        assert(front[k] == ds);
        law_marked_are_bes(front, rows, ds);
        let before = bes_among(front, rows);
        let m = choose|m: int| 0 <= m < before.len() && before[m] == b;
        assert(all[m] == b);
    }
}

/// Listing the pools changes nothing.
pub proof fn lemma_pools_look(w: World)
    ensures
        sub::only_looked(w, pools_does(w).0),
{
    reveal(pools_does);
}

/// Listing the datasets changes nothing.
pub proof fn lemma_datasets_look(w: World, props: Seq<char>)
    ensures
        sub::only_looked(w, datasets_does(w, props).0),
{
    reveal(datasets_does);
}

} // verus!
