//! `default`: choose what boots next.
//!
//! 1. `bootfs` of the chosen boot environment's pool is set to it, after
//!    `bootfs` of every other root pool has been cleared. An interruption
//!    leaves no pool with a `bootfs` rather than two.
//! 2. `canmount` of every dataset that carries `zboot:attached-to` becomes `on`
//!    where the chosen boot environment is in its list, and `off` where not.
//!
//! What already reads as wanted is not written again.

use vstd::prelude::*;

use crate::effects;
use crate::error;
use crate::error::Error;
use crate::facts;
use crate::facts::Rows;
use crate::model;
use crate::model::{BoundKey, BoundList, Canmount, Key, Pool, PoolFacts, Prop, Property};
use crate::order;
use crate::pools;
use crate::sub;
use crate::sub::{Call, Runner, World};
use crate::text;
use crate::zfs_ops;

verus! {

/// Arguments of `default`.
#[derive(Debug)]
pub struct DefaultArgs {
    /// A bare name, or a full dataset path where the name is on several pools.
    pub name: String,
}

// ---------------------------------------------------------------------------
// What is known of the machine
// ---------------------------------------------------------------------------

/// A pool that holds boot environments.
#[derive(Debug, Clone)]
pub struct PoolInfo {
    pub name: String,
    pub bootfs: Option<String>,
}

/// A root pool, by what is known of it.
pub struct RootPool {
    pub name: Seq<char>,
    pub bootfs: Option<Seq<char>>,
}

impl DeepView for PoolInfo {
    type V = RootPool;

    open spec fn deep_view(&self) -> RootPool {
        RootPool { name: self.name@, bootfs: self.bootfs.deep_view() }
    }
}

/// A boot environment on a root pool.
#[derive(Debug, Clone)]
pub struct BeInfo {
    pub pool: String,
    pub dataset: String,
    pub name: String,
}

/// A boot environment, by what it is called.
pub struct BeNames {
    pub pool: Seq<char>,
    pub dataset: Seq<char>,
    pub name: Seq<char>,
}

impl DeepView for BeInfo {
    type V = BeNames;

    open spec fn deep_view(&self) -> BeNames {
        BeNames { pool: self.pool@, dataset: self.dataset@, name: self.name@ }
    }
}

/// A dataset that is attached to boot environments.
#[derive(Debug, Clone)]
pub struct BoundDsInfo {
    pub dataset: String,
    pub bound_to: BoundList,
    pub canmount: Option<Canmount>,
}

/// An attached dataset, by what is known of it.
pub struct Attached {
    pub dataset: Seq<char>,
    pub bound_to: Seq<Key>,
    pub canmount: Option<Canmount>,
}

impl DeepView for BoundDsInfo {
    type V = Attached;

    open spec fn deep_view(&self) -> Attached {
        Attached {
            dataset: self.dataset@,
            bound_to: self.bound_to.deep_view(),
            canmount: self.canmount,
        }
    }
}

/// The table says that the pool is a root pool.
pub open spec fn says_root(rows: Rows, pool: Seq<char>) -> bool {
    exists|i: int| 0 <= i < rows.len() && (#[trigger] rows[i]).0 == pool && rows[i].1 is Role
}

fn is_said_root(rows: &Vec<(String, Property)>, pool: &str) -> (r: bool)
    ensures
        r == says_root(rows.deep_view(), pool@),
{
    let ghost all = rows.deep_view();
    let mut i: usize = 0;
    while i < rows.len()
        invariant
            i <= rows@.len(),
            all == rows.deep_view(),
            forall|j: int|
                0 <= j < i ==> (#[trigger] all[j]).0 != pool@ || !(all[j].1 is Role),
        decreases rows@.len() - i,
    {
        assert(all[i as int] == rows@[i as int].deep_view());
        if let Property::ZbootRole(_) = &rows[i].1 {
            if text::eq(rows[i].0.as_str(), pool) {
                return true;
            }
        }
        i = i + 1;
    }
    false
}

/// The pools that the role table calls root pools, in order.
pub open spec fn root_pools(ps: Seq<PoolFacts>, rows: Rows) -> Seq<RootPool>
    decreases ps.len(),
{
    if ps.len() == 0 {
        seq![]
    } else {
        let front = root_pools(ps.drop_last(), rows);
        if says_root(rows, ps.last().name) {
            front.push(RootPool { name: ps.last().name, bootfs: ps.last().bootfs })
        } else {
            front
        }
    }
}

fn pick_root_pools(ps: &Vec<Pool>, rows: &Vec<(String, Property)>) -> (r: Vec<PoolInfo>)
    ensures
        r.deep_view() == root_pools(ps.deep_view(), rows.deep_view()),
{
    let ghost all = ps.deep_view();
    let mut out: Vec<PoolInfo> = Vec::new();
    let mut i: usize = 0;
    assert(out.deep_view() =~= root_pools(all.take(0), rows.deep_view()));
    while i < ps.len()
        invariant
            i <= ps@.len(),
            all == ps.deep_view(),
            out.deep_view() == root_pools(all.take(i as int), rows.deep_view()),
        decreases ps@.len() - i,
    {
        let ghost so_far = out.deep_view();
        proof {
            assert(all.take(i + 1).drop_last() =~= all.take(i as int));
            assert(all.take(i + 1).last() == ps@[i as int].deep_view());
        }
        if is_said_root(rows, ps[i].name.as_str()) {
            let p = PoolInfo {
                name: ps[i].name.clone(),
                bootfs: text::clone_opt(&ps[i].bootfs),
            };
            out.push(p);
            assert(out.deep_view() =~= so_far.push(p.deep_view()));
        }
        i = i + 1;
    }
    assert(all.take(i as int) =~= all);
    out
}

/// Lists the root pools with their `bootfs`.
#[verifier::opaque]
pub open spec fn list_root_pools_does(w: World) -> (World, Result<Seq<RootPool>, Seq<char>>) {
    let (w1, listed) = sub::capture_does(
        w,
        "zpool"@,
        seq!["list"@, "-Hp"@, "-o"@, "name,bootfs,guid"@],
    );
    match listed {
        Err(m) => (w1, Err(m)),
        Ok(t) => match model::pools_of(t) {
            Err(m) => (w1, Err(error::within("parsing `zpool list`"@, m))),
            Ok(ps) => if ps.len() == 0 {
                (w1, Ok(seq![]))
            } else {
                let (w2, got) = sub::capture_does(
                    w1,
                    "zpool"@,
                    seq!["get"@, "-Hp"@, "-o"@, "name,property,value"@, "zboot:role"@]
                        + model::pool_names(ps),
                );
                match got {
                    Err(m) => (w2, Err(m)),
                    Ok(u) => match model::props_of(u) {
                        Err(m) => (w2, Err(error::within("parsing `zpool get zboot:role`"@, m))),
                        Ok(rows) => (w2, Ok(root_pools(ps, rows))),
                    },
                }
            },
        },
    }
}

fn list_root_pools<R: Runner>(r: &mut R) -> (res: Result<Vec<PoolInfo>, Error>)
    ensures
        sub::did(final(r).world(), res) == list_root_pools_does(old(r).world()),
{
    proof {
        reveal(list_root_pools_does);
    }
    let args = text::argv4("list", "-Hp", "-o", "name,bootfs,guid");
    let listed: String = match sub::capture(r, "zpool", args.as_slice()) {
        Err(e) => return Err(e),
        Ok(t) => t,
    };
    let ps: Vec<Pool> = match model::parse_zpool_list(listed.as_str()) {
        Err(e) => return Err(e.context("parsing `zpool list`")),
        Ok(p) => p,
    };
    if ps.len() == 0 {
        let none: Vec<PoolInfo> = Vec::new();
        assert(none.deep_view() =~= seq![]);
        return Ok(none);
    }
    let names = model::names_of_pools(&ps);
    let head = text::argv5("get", "-Hp", "-o", "name,property,value", "zboot:role");
    let args = text::extend_strs(head, &names);
    let got: String = match sub::capture(r, "zpool", args.as_slice()) {
        Err(e) => return Err(e),
        Ok(t) => t,
    };
    match model::parse_zfs_get(got.as_str()) {
        Err(e) => Err(e.context("parsing `zpool get zboot:role`")),
        Ok(rows) => Ok(pick_root_pools(&ps, &rows)),
    }
}

/// The names of the root pools.
pub open spec fn root_names(ps: Seq<RootPool>) -> Seq<Seq<char>> {
    Seq::new(ps.len(), |i: int| ps[i].name)
}

fn names_of(ps: &Vec<PoolInfo>) -> (r: Vec<String>)
    ensures
        r.deep_view() == root_names(ps.deep_view()),
{
    let mut out: Vec<String> = Vec::new();
    let mut i: usize = 0;
    assert(out.deep_view() =~= root_names(ps.deep_view()).take(0));
    while i < ps.len()
        invariant
            i <= ps@.len(),
            out.deep_view() == root_names(ps.deep_view()).take(i as int),
        decreases ps@.len() - i,
    {
        text::push_text(&mut out, ps[i].name.as_str());
        assert(root_names(ps.deep_view()).take(i + 1) =~= root_names(ps.deep_view()).take(
            i as int,
        ).push(ps@[i as int].name@));
        i = i + 1;
    }
    assert(root_names(ps.deep_view()).take(i as int) =~= root_names(ps.deep_view()));
    out
}

/// The boot environment that lies at a dataset.
pub open spec fn names_at(ds: Seq<char>) -> BeNames {
    BeNames { pool: text::before(ds, '/'), dataset: ds, name: text::after_last(ds, '/') }
}

/// The boot environments of a table that lie on one of the pools, in order.
pub open spec fn bes_on(rows: Rows, names: Seq<Seq<char>>) -> Seq<BeNames>
    decreases rows.len(),
{
    if rows.len() == 0 {
        seq![]
    } else {
        let front = bes_on(rows.drop_last(), names);
        let (ds, p) = rows.last();
        if p == Prop::Be(true) && names.contains(text::before(ds, '/')) {
            front.push(names_at(ds))
        } else {
            front
        }
    }
}

fn pick_bes(rows: &Vec<(String, Property)>, names: &Vec<String>) -> (r: Vec<BeInfo>)
    ensures
        r.deep_view() == bes_on(rows.deep_view(), names.deep_view()),
{
    let ghost all = rows.deep_view();
    let mut out: Vec<BeInfo> = Vec::new();
    let mut i: usize = 0;
    assert(out.deep_view() =~= bes_on(all.take(0), names.deep_view()));
    while i < rows.len()
        invariant
            i <= rows@.len(),
            all == rows.deep_view(),
            out.deep_view() == bes_on(all.take(i as int), names.deep_view()),
        decreases rows@.len() - i,
    {
        let ghost so_far = out.deep_view();
        proof {
            assert(all.take(i + 1).drop_last() =~= all.take(i as int));
            assert(all.take(i + 1).last() == rows@[i as int].deep_view());
        }
        if let Property::ZbootBe(true) = &rows[i].1 {
            let ds: &str = rows[i].0.as_str();
            let (pool, name) = split_dataset_pool_and_name(ds);
            if text::any_eq(names, pool) {
                let b = BeInfo {
                    pool: pool.to_owned(),
                    dataset: ds.to_owned(),
                    name: name.to_owned(),
                };
                out.push(b);
                assert(out.deep_view() =~= so_far.push(b.deep_view()));
            }
        }
        i = i + 1;
    }
    assert(all.take(i as int) =~= all);
    out
}

/// Splits `pool/some/path/leaf` into the pool and the leaf.
pub fn split_dataset_pool_and_name<'a>(dataset: &'a str) -> (r: (&'a str, &'a str))
    ensures
        r.0@ == text::before(dataset@, '/'),
        r.1@ == text::after_last(dataset@, '/'),
{
    (text::head(dataset, '/'), text::tail(dataset, '/'))
}

/// Lists the boot environments on the root pools.
#[verifier::opaque]
pub open spec fn list_bes_does(w: World, ps: Seq<RootPool>) -> (World, Result<
    Seq<BeNames>,
    Seq<char>,
>) {
    if ps.len() == 0 {
        (w, Ok(seq![]))
    } else {
        let (w1, got) = sub::capture_does(
            w,
            "zfs"@,
            seq!["get"@, "-Hpr"@, "-o"@, "name,property,value"@, "zboot:be"@] + root_names(ps),
        );
        match got {
            Err(m) => (w1, Err(m)),
            Ok(t) => match model::props_of(t) {
                Err(m) => (w1, Err(error::within("parsing `zfs get zboot:be`"@, m))),
                Ok(rows) => (w1, Ok(bes_on(rows, root_names(ps)))),
            },
        }
    }
}

fn list_bes<R: Runner>(r: &mut R, ps: &Vec<PoolInfo>) -> (res: Result<Vec<BeInfo>, Error>)
    ensures
        sub::did(final(r).world(), res) == list_bes_does(old(r).world(), ps.deep_view()),
{
    proof {
        reveal(list_bes_does);
    }
    if ps.len() == 0 {
        let none: Vec<BeInfo> = Vec::new();
        assert(none.deep_view() =~= seq![]);
        return Ok(none);
    }
    let names = names_of(ps);
    let head = text::argv5("get", "-Hpr", "-o", "name,property,value", "zboot:be");
    let args = text::extend_strs(head, &names);
    let got: String = match sub::capture(r, "zfs", args.as_slice()) {
        Err(e) => return Err(e),
        Ok(t) => t,
    };
    match model::parse_zfs_get(got.as_str()) {
        Err(e) => Err(e.context("parsing `zfs get zboot:be`")),
        Ok(rows) => Ok(pick_bes(&rows, &names)),
    }
}

/// The datasets of a table, in its order.
pub open spec fn row_names(rows: Rows) -> Seq<Seq<char>> {
    Seq::new(rows.len(), |i: int| rows[i].0)
}

fn names_in(rows: &Vec<(String, Property)>) -> (r: Vec<String>)
    ensures
        r.deep_view() == row_names(rows.deep_view()),
{
    let mut out: Vec<String> = Vec::new();
    let mut i: usize = 0;
    assert(out.deep_view() =~= row_names(rows.deep_view()).take(0));
    while i < rows.len()
        invariant
            i <= rows@.len(),
            out.deep_view() == row_names(rows.deep_view()).take(i as int),
        decreases rows@.len() - i,
    {
        text::push_text(&mut out, rows[i].0.as_str());
        proof {
            assert(rows.deep_view()[i as int] == rows@[i as int].deep_view());
            assert(row_names(rows.deep_view()).take(i + 1) =~= row_names(rows.deep_view()).take(
                i as int,
            ).push(rows@[i as int].0@));
        }
        i = i + 1;
    }
    assert(row_names(rows.deep_view()).take(i as int) =~= row_names(rows.deep_view()));
    out
}

/// Those of the datasets that carry `zboot:attached-to`, in the order given.
pub open spec fn attached_among(names: Seq<Seq<char>>, rows: Rows) -> Seq<Attached>
    decreases names.len(),
{
    if names.len() == 0 {
        seq![]
    } else {
        let front = attached_among(names.drop_last(), rows);
        match facts::last_attached(rows, names.last()) {
            Some(l) => front.push(
                Attached {
                    dataset: names.last(),
                    bound_to: l,
                    canmount: facts::last_canmount(rows, names.last()),
                },
            ),
            None => front,
        }
    }
}

/// The datasets of a table that carry `zboot:attached-to`, by name.
pub open spec fn attached_in(rows: Rows) -> Seq<Attached> {
    attached_among(order::sorted_set(row_names(rows)), rows)
}

fn pick_attached(rows: &Vec<(String, Property)>) -> (r: Vec<BoundDsInfo>)
    ensures
        r.deep_view() == attached_in(rows.deep_view()),
{
    let listed = names_in(rows);
    let names = order::sort_set(&listed);
    let ghost all = names.deep_view();
    let mut out: Vec<BoundDsInfo> = Vec::new();
    let mut i: usize = 0;
    assert(out.deep_view() =~= attached_among(all.take(0), rows.deep_view()));
    while i < names.len()
        invariant
            i <= names@.len(),
            all == names.deep_view(),
            out.deep_view() == attached_among(all.take(i as int), rows.deep_view()),
        decreases names@.len() - i,
    {
        let ghost so_far = out.deep_view();
        proof {
            assert(all.take(i + 1).drop_last() =~= all.take(i as int));
            assert(all.take(i + 1).last() == names@[i as int]@);
        }
        if let Some(l) = facts::find_attached(rows, names[i].as_str()) {
            let b = BoundDsInfo {
                dataset: names[i].clone(),
                bound_to: l,
                canmount: facts::find_canmount(rows, names[i].as_str()),
            };
            out.push(b);
            assert(out.deep_view() =~= so_far.push(b.deep_view()));
        }
        i = i + 1;
    }
    assert(all.take(i as int) =~= all);
    out
}

/// Lists the attached datasets on the root pools.
#[verifier::opaque]
pub open spec fn list_bound_does(w: World, ps: Seq<RootPool>) -> (World, Result<
    Seq<Attached>,
    Seq<char>,
>) {
    if ps.len() == 0 {
        (w, Ok(seq![]))
    } else {
        let (w1, got) = sub::capture_does(
            w,
            "zfs"@,
            seq!["get"@, "-Hpr"@, "-o"@, "name,property,value"@, "zboot:attached-to,canmount"@]
                + root_names(ps),
        );
        match got {
            Err(m) => (w1, Err(m)),
            Ok(t) => match model::props_of(t) {
                Err(m) => (w1, Err(error::within("parsing `zfs get` for bound datasets"@, m))),
                Ok(rows) => (w1, Ok(attached_in(rows))),
            },
        }
    }
}

fn list_bound_datasets<R: Runner>(r: &mut R, ps: &Vec<PoolInfo>) -> (res: Result<
    Vec<BoundDsInfo>,
    Error,
>)
    ensures
        sub::did(final(r).world(), res) == list_bound_does(old(r).world(), ps.deep_view()),
{
    proof {
        reveal(list_bound_does);
    }
    if ps.len() == 0 {
        let none: Vec<BoundDsInfo> = Vec::new();
        assert(none.deep_view() =~= seq![]);
        return Ok(none);
    }
    let names = names_of(ps);
    let head = text::argv5(
        "get",
        "-Hpr",
        "-o",
        "name,property,value",
        "zboot:attached-to,canmount",
    );
    let args = text::extend_strs(head, &names);
    let got: String = match sub::capture(r, "zfs", args.as_slice()) {
        Err(e) => return Err(e),
        Ok(t) => t,
    };
    match model::parse_zfs_get(got.as_str()) {
        Err(e) => Err(e.context("parsing `zfs get` for bound datasets")),
        Ok(rows) => Ok(pick_attached(&rows)),
    }
}

// ---------------------------------------------------------------------------
// The target
// ---------------------------------------------------------------------------

/// The datasets of the boot environments.
pub open spec fn be_datasets(bes: Seq<BeNames>) -> Seq<Seq<char>> {
    Seq::new(bes.len(), |i: int| bes[i].dataset)
}

/// The first boot environment at a dataset.
pub open spec fn first_at(bes: Seq<BeNames>, ds: Seq<char>) -> Option<BeNames>
    decreases bes.len(),
{
    if bes.len() == 0 {
        None
    } else if bes[0].dataset == ds {
        Some(bes[0])
    } else {
        first_at(bes.drop_first(), ds)
    }
}

/// The boot environments of a name.
pub open spec fn called(bes: Seq<BeNames>, name: Seq<char>) -> Seq<BeNames> {
    bes.filter(|b: BeNames| b.name == name)
}

/// The boot environment that an argument names: by its dataset where it is a
/// path; else by its name, which then must be that of exactly one.
pub open spec fn target_of(bes: Seq<BeNames>, arg: Seq<char>) -> Result<BeNames, Seq<char>> {
    if arg.contains('/') {
        match first_at(bes, arg) {
            Some(b) => Ok(b),
            None => Err("no boot environment matching dataset "@ + text::quoted_text(arg)),
        }
    } else {
        let found = called(bes, arg);
        if found.len() == 0 {
            Err(
                "no boot environment named "@ + text::quoted_text(arg) + " (known: "@ + (if bes.len()
                    == 0 {
                    "<none>"@
                } else {
                    text::joined(be_datasets(bes), ", "@)
                }) + ")"@,
            )
        } else if found.len() == 1 {
            Ok(found[0])
        } else {
            Err(
                "ambiguous: BE "@ + text::quoted_text(arg) + " exists in multiple pools: "@
                    + text::joined(be_datasets(found), ", "@)
                    + ". Disambiguate by passing the full dataset path."@,
            )
        }
    }
}

fn copy_be(b: &BeInfo) -> (r: BeInfo)
    ensures
        r.deep_view() == b.deep_view(),
{
    BeInfo { pool: b.pool.clone(), dataset: b.dataset.clone(), name: b.name.clone() }
}

fn find_at(bes: &Vec<BeInfo>, ds: &str) -> (r: Option<BeInfo>)
    ensures
        r.deep_view() == first_at(bes.deep_view(), ds@),
{
    let ghost all = bes.deep_view();
    let mut i: usize = 0;
    assert(all.skip(0) =~= all);
    while i < bes.len()
        invariant
            i <= bes@.len(),
            all == bes.deep_view(),
            first_at(all, ds@) == first_at(all.skip(i as int), ds@),
        decreases bes@.len() - i,
    {
        proof {
            assert(all.skip(i as int)[0] == bes@[i as int].deep_view());
            assert(all.skip(i as int).drop_first() =~= all.skip(i + 1));
        }
        if text::eq(bes[i].dataset.as_str(), ds) {
            return Some(copy_be(&bes[i]));
        }
        i = i + 1;
    }
    None
}

fn find_called(bes: &Vec<BeInfo>, name: &str) -> (r: Vec<BeInfo>)
    ensures
        r.deep_view() == called(bes.deep_view(), name@),
{
    let ghost all = bes.deep_view();
    let ghost keep = |b: BeNames| b.name == name@;
    let mut out: Vec<BeInfo> = Vec::new();
    let mut i: usize = 0;
    proof {
        reveal(Seq::filter);
    }
    assert(out.deep_view() =~= all.take(0).filter(keep));
    while i < bes.len()
        invariant
            i <= bes@.len(),
            all == bes.deep_view(),
            keep == (|b: BeNames| b.name == name@),
            out.deep_view() == all.take(i as int).filter(keep),
        decreases bes@.len() - i,
    {
        let ghost so_far = out.deep_view();
        proof {
            reveal(Seq::filter);
            assert(all.take(i + 1).drop_last() =~= all.take(i as int));
            assert(all.take(i + 1).last() == bes@[i as int].deep_view());
        }
        if text::eq(bes[i].name.as_str(), name) {
            let b = copy_be(&bes[i]);
            out.push(b);
            assert(out.deep_view() =~= so_far.push(b.deep_view()));
        }
        i = i + 1;
    }
    assert(all.take(i as int) =~= all);
    out
}

fn datasets_of(bes: &Vec<BeInfo>) -> (r: Vec<String>)
    ensures
        r.deep_view() == be_datasets(bes.deep_view()),
{
    let mut out: Vec<String> = Vec::new();
    let mut i: usize = 0;
    assert(out.deep_view() =~= be_datasets(bes.deep_view()).take(0));
    while i < bes.len()
        invariant
            i <= bes@.len(),
            out.deep_view() == be_datasets(bes.deep_view()).take(i as int),
        decreases bes@.len() - i,
    {
        text::push_text(&mut out, bes[i].dataset.as_str());
        assert(be_datasets(bes.deep_view()).take(i + 1) =~= be_datasets(bes.deep_view()).take(
            i as int,
        ).push(bes@[i as int].dataset@));
        i = i + 1;
    }
    assert(be_datasets(bes.deep_view()).take(i as int) =~= be_datasets(bes.deep_view()));
    out
}

/// Finds the boot environment that the argument names.
pub fn resolve_target_be(bes: &Vec<BeInfo>, name_or_path: &str) -> (res: Result<BeInfo, Error>)
    ensures
        error::outcome(res) == target_of(bes.deep_view(), name_or_path@),
{
    if text::has(name_or_path, '/') {
        return match find_at(bes, name_or_path) {
            Some(b) => Ok(b),
            None => {
                let q: String = text::quoted(name_or_path);
                Err(
                    Error::from_text(
                        text::cat2("no boot environment matching dataset ", q.as_str()),
                    ),
                )
            },
        };
    }
    let found = find_called(bes, name_or_path);
    if found.len() == 0 {
        let known = datasets_of(bes);
        let shown: String = if bes.len() == 0 {
            "<none>".to_owned()
        } else {
            text::join(&known, ", ")
        };
        let q: String = text::quoted(name_or_path);
        Err(
            Error::from_text(
                text::cat5(
                    "no boot environment named ",
                    q.as_str(),
                    " (known: ",
                    shown.as_str(),
                    ")",
                ),
            ),
        )
    } else if found.len() == 1 {
        assert(found.deep_view()[0] == found@[0].deep_view());
        Ok(copy_be(&found[0]))
    } else {
        let dsets = datasets_of(&found);
        let shown: String = text::join(&dsets, ", ");
        let q: String = text::quoted(name_or_path);
        Err(
            Error::from_text(
                text::cat5(
                    "ambiguous: BE ",
                    q.as_str(),
                    " exists in multiple pools: ",
                    shown.as_str(),
                    ". Disambiguate by passing the full dataset path.",
                ),
            ),
        )
    }
}

// ---------------------------------------------------------------------------
// Writes
// ---------------------------------------------------------------------------

/// `<prog> set <prop>=<value> <target>`.
#[verifier::opaque]
pub open spec fn set_does(
    w: World,
    prog: Seq<char>,
    target: Seq<char>,
    prop: Seq<char>,
    value: Seq<char>,
) -> (World, Result<(), Seq<char>>) {
    let assignment = prop + "="@ + value;
    let shown = "`"@ + prog + " set "@ + assignment + " "@ + target + "`"@;
    (
        w.run(prog, seq!["set"@, assignment, target]),
        match w.ran() {
            Err(m) => Err(
                error::within(
                    "running "@ + shown,
                    error::within(
                        sub::spawning_text(prog, seq!["set"@, assignment, target]),
                        m,
                    ),
                ),
            ),
            Ok(out) => if out.rc != 0 {
                Err(
                    shown + " failed rc="@ + text::signed_decimal(out.rc) + ": "@ + text::trimmed(
                        out.stderr,
                    ),
                )
            } else {
                Ok(())
            },
        },
    )
}

fn set_on<R: Runner>(r: &mut R, prog: &str, target: &str, prop: &str, value: &str) -> (res: Result<
    (),
    Error,
>)
    ensures
        sub::did(final(r).world(), res) == set_does(
            old(r).world(),
            prog@,
            target@,
            prop@,
            value@,
        ),
{
    proof {
        reveal(set_does);
    }
    let assignment: String = text::cat3(prop, "=", value);
    let shown: String = text::cat7("`", prog, " set ", assignment.as_str(), " ", target, "`");
    let args = text::argv3("set", assignment.as_str(), target);
    match r.run(prog, args.as_slice()) {
        Err(e) => {
            let doing: String = text::cat2("running ", shown.as_str());
            Err(sub::not_spawned(e, prog, args.as_slice()).context(doing.as_str()))
        },
        Ok(out) => if out.rc != 0 {
            let rc: String = text::dec_signed(out.rc as i64);
            Err(
                Error::from_text(
                    text::cat5(
                        shown.as_str(),
                        " failed rc=",
                        rc.as_str(),
                        ": ",
                        text::trim(out.stderr.as_str()),
                    ),
                ),
            )
        } else {
            Ok(())
        },
    }
}

fn zpool_set<R: Runner>(r: &mut R, pool: &str, prop: &str, value: &str) -> (res: Result<(), Error>)
    ensures
        sub::did(final(r).world(), res) == set_does(
            old(r).world(),
            "zpool"@,
            pool@,
            prop@,
            value@,
        ),
{
    set_on(r, "zpool", pool, prop, value)
}

fn zfs_set<R: Runner>(r: &mut R, dataset: &str, prop: &str, value: &str) -> (res: Result<(), Error>)
    ensures
        sub::did(final(r).world(), res) == set_does(
            old(r).world(),
            "zfs"@,
            dataset@,
            prop@,
            value@,
        ),
{
    set_on(r, "zfs", dataset, prop, value)
}

/// Warns where the target is the mirror side of a pair.
#[verifier::opaque]
pub open spec fn warn_mirror_side_does(w: World, ds: Seq<char>) -> World {
    let (w1, primary) = zfs_ops::dataset_property_does(w, ds, "zboot:primary"@);
    if primary == Ok::<Seq<char>, Seq<char>>("off"@) {
        let (w2, pointer) = zfs_ops::read_pair_pointer_does(w1, ds);
        if pointer matches Ok(Some(_)) {
            w2.say(
                "  warning: "@ + ds
                    + " is the mirror side of a pair (zboot:primary=off).\n  `default` only sets bootfs; it does not flip primary or readonly. Did you mean `primary "@
                    + ds + "`?"@,
            )
        } else {
            w2
        }
    } else {
        w1
    }
}

fn warn_mirror_side<R: Runner>(r: &mut R, ds: &str)
    ensures
        final(r).world() == warn_mirror_side_does(old(r).world(), ds@),
{
    proof {
        reveal(warn_mirror_side_does);
    }
    if let Ok(primary) = zfs_ops::dataset_property(r, ds, "zboot:primary") {
        if text::eq(primary.as_str(), "off") {
            let pointer = zfs_ops::read_pair_pointer(r, ds);
            if let Ok(Some(_)) = pointer {
                let line: String = text::cat5(
                    "  warning: ",
                    ds,
                    " is the mirror side of a pair (zboot:primary=off).\n  `default` only sets bootfs; it does not flip primary or readonly. Did you mean `primary ",
                    ds,
                    "`?",
                );
                r.say(line.as_str());
            }
        }
    }
}

/// Asks whether a dataset is read-only.
pub open spec fn readonly_does(w: World, ds: Seq<char>) -> (World, Result<bool, Seq<char>>) {
    let (w1, got) = sub::capture_does(
        w,
        "zfs"@,
        seq!["get"@, "-Hp"@, "-o"@, "value"@, "readonly"@, ds],
    );
    (
        w1,
        match got {
            Err(m) => Err(error::within("read readonly on "@ + ds, m)),
            Ok(v) => Ok(text::trimmed(v) == "on"@),
        },
    )
}

/// Asks whether a dataset is read-only.
pub fn target_be_readonly_on<R: Runner>(r: &mut R, dataset: &str) -> (res: Result<bool, Error>)
    ensures
        sub::did(final(r).world(), res) == readonly_does(old(r).world(), dataset@),
{
    let args = text::argv6("get", "-Hp", "-o", "value", "readonly", dataset);
    match sub::capture(r, "zfs", args.as_slice()) {
        Err(e) => {
            let doing: String = text::cat2("read readonly on ", dataset);
            Err(e.context(doing.as_str()))
        },
        Ok(v) => Ok(text::eq(text::trim(v.as_str()), "on")),
    }
}

/// Makes the target's pool and the target itself writable, where the pool is
/// imported.
#[verifier::opaque]
pub open spec fn make_writable_does(w: World, target: BeNames) -> (World, Result<(), Seq<char>>) {
    let (w1, imported) = pools::is_pool_imported_does(w, target.pool);
    if !zfs_ops::exists_or_not(imported) {
        (w1, Ok(()))
    } else {
        let (w2, rw) = pools::ensure_rw_does(w1, target.pool);
        if rw is Err {
            (
                w2,
                error::in_context(
                    rw,
                    "default: target pool must be imported R/W to set bootfs"@,
                ),
            )
        } else {
            let (w3, ro) = readonly_does(w2, target.dataset);
            match ro {
                Err(m) => (w3, Err(m)),
                Ok(on) => if on {
                    set_does(
                        w3.say(
                            "default: clearing readonly on "@ + target.dataset
                                + " (was a mirror dest)"@,
                        ),
                        "zfs"@,
                        target.dataset,
                        "readonly"@,
                        "off"@,
                    )
                } else {
                    (w3, Ok(()))
                },
            }
        }
    }
}

fn make_writable<R: Runner>(r: &mut R, target: &BeInfo) -> (res: Result<(), Error>)
    ensures
        sub::did(final(r).world(), res) == make_writable_does(
            old(r).world(),
            target.deep_view(),
        ),
{
    proof {
        reveal(make_writable_does);
    }
    let ds: &str = target.dataset.as_str();
    if !pools::seems_imported(r, target.pool.as_str()) {
        return Ok(());
    }
    if let Err(e) = pools::ensure_pool_imported_rw(r, target.pool.as_str()) {
        return Err(e.context("default: target pool must be imported R/W to set bootfs"));
    }
    match target_be_readonly_on(r, ds) {
        Err(e) => Err(e),
        Ok(on) => if on {
            let line: String = text::cat3(
                "default: clearing readonly on ",
                ds,
                " (was a mirror dest)",
            );
            r.say(line.as_str());
            zfs_set(r, ds, "readonly", "off")
        } else {
            Ok(())
        },
    }
}

/// What the pools boot next, other than the target.
pub open spec fn ex_active(ps: Seq<RootPool>, target: Seq<char>) -> Seq<Seq<char>>
    decreases ps.len(),
{
    if ps.len() == 0 {
        seq![]
    } else {
        let front = ex_active(ps.drop_last(), target);
        match ps.last().bootfs {
            Some(b) => if b == target {
                front
            } else {
                front.push(b)
            },
            None => front,
        }
    }
}

fn find_ex_active(ps: &Vec<PoolInfo>, target: &str) -> (r: Vec<String>)
    ensures
        r.deep_view() == ex_active(ps.deep_view(), target@),
{
    let ghost all = ps.deep_view();
    let mut out: Vec<String> = Vec::new();
    let mut i: usize = 0;
    assert(out.deep_view() =~= ex_active(all.take(0), target@));
    while i < ps.len()
        invariant
            i <= ps@.len(),
            all == ps.deep_view(),
            out.deep_view() == ex_active(all.take(i as int), target@),
        decreases ps@.len() - i,
    {
        proof {
            assert(all.take(i + 1).drop_last() =~= all.take(i as int));
            assert(all.take(i + 1).last() == ps@[i as int].deep_view());
        }
        if let Some(b) = &ps[i].bootfs {
            if !text::eq(b.as_str(), target) {
                text::push_text(&mut out, b.as_str());
            }
        }
        i = i + 1;
    }
    assert(all.take(i as int) =~= all);
    out
}

/// Clears one pool's `bootfs`: with an empty value, or with `-` where that is
/// not taken.
#[verifier::opaque]
pub open spec fn clear_one_does(w: World, pool: Seq<char>, was: Seq<char>) -> (World, Result<
    (),
    Seq<char>,
>) {
    let w1 = w.say("default: clearing bootfs on pool "@ + pool + " (was "@ + was + ")"@);
    let (w2, a) = set_does(w1, "zpool"@, pool, "bootfs"@, ""@);
    if a is Ok {
        (w2, a)
    } else {
        set_does(w2, "zpool"@, pool, "bootfs"@, "-"@)
    }
}

fn clear_one<R: Runner>(r: &mut R, pool: &str, was: &str) -> (res: Result<(), Error>)
    ensures
        sub::did(final(r).world(), res) == clear_one_does(old(r).world(), pool@, was@),
{
    proof {
        reveal(clear_one_does);
    }
    let line: String = text::cat5("default: clearing bootfs on pool ", pool, " (was ", was, ")");
    r.say(line.as_str());
    match zpool_set(r, pool, "bootfs", "") {
        Ok(_) => Ok(()),
        Err(_) => zpool_set(r, pool, "bootfs", "-"),
    }
}

/// Clears `bootfs` on every pool but the target's, up to the first failure.
pub open spec fn clear_losers_does(w: World, ps: Seq<RootPool>, target_pool: Seq<char>) -> (
    World,
    Result<(), Seq<char>>,
)
    decreases ps.len(),
{
    if ps.len() == 0 {
        (w, Ok(()))
    } else {
        let (w1, so_far) = clear_losers_does(w, ps.drop_last(), target_pool);
        let p = ps.last();
        if so_far is Err || p.name == target_pool {
            (w1, so_far)
        } else {
            match p.bootfs {
                None => (w1, Ok(())),
                Some(b) => clear_one_does(w1, p.name, b),
            }
        }
    }
}

proof fn lemma_losers_stop(w: World, ps: Seq<RootPool>, target_pool: Seq<char>, i: int)
    requires
        0 <= i <= ps.len(),
        clear_losers_does(w, ps.take(i), target_pool).1 is Err,
    ensures
        clear_losers_does(w, ps, target_pool) == clear_losers_does(w, ps.take(i), target_pool),
    decreases ps.len() - i,
{
    if i < ps.len() {
        assert(ps.take(i + 1).drop_last() =~= ps.take(i));
        lemma_losers_stop(w, ps, target_pool, i + 1);
    } else {
        assert(ps.take(i) =~= ps);
    }
}

fn clear_losers<R: Runner>(r: &mut R, ps: &Vec<PoolInfo>, target_pool: &str) -> (res: Result<
    (),
    Error,
>)
    ensures
        sub::did(final(r).world(), res) == clear_losers_does(
            old(r).world(),
            ps.deep_view(),
            target_pool@,
        ),
{
    let ghost w = r.world();
    let ghost all = ps.deep_view();
    let mut i: usize = 0;
    assert(all.take(0) =~= seq![]);
    while i < ps.len()
        invariant
            i <= ps@.len(),
            all == ps.deep_view(),
            w == old(r).world(),
            (r.world(), Ok::<(), Seq<char>>(())) == clear_losers_does(
                w,
                all.take(i as int),
                target_pool@,
            ),
        decreases ps@.len() - i,
    {
        proof {
            assert(all.take(i + 1).drop_last() =~= all.take(i as int));
            assert(all.take(i + 1).last() == ps@[i as int].deep_view());
        }
        if !text::eq(ps[i].name.as_str(), target_pool) {
            if let Some(b) = &ps[i].bootfs {
                if let Err(e) = clear_one(r, ps[i].name.as_str(), b.as_str()) {
                    proof {
                        lemma_losers_stop(w, all, target_pool@, i + 1);
                    }
                    return Err(e);
                }
            }
        }
        i = i + 1;
    }
    assert(all.take(i as int) =~= all);
    Ok(())
}

/// A mount table shows the dataset mounted somewhere.
pub open spec fn mounted_in(ls: Seq<Seq<char>>, ds: Seq<char>) -> bool {
    exists|i: int|
        0 <= i < ls.len() && text::words_of(#[trigger] ls[i]).len() > 0 && text::words_of(ls[i])[0]
            == ds
}

/// True iff a mount table shows the dataset mounted somewhere.
pub fn is_mounted_in(mounts: &str, ds: &str) -> (r: bool)
    ensures
        r == mounted_in(text::lines_of(mounts@), ds@),
{
    let ls = text::lines(mounts);
    let mut i: usize = 0;
    while i < ls.len()
        invariant
            i <= ls@.len(),
            ls.deep_view() == text::lines_of(mounts@),
            forall|j: int|
                0 <= j < i ==> text::words_of(#[trigger] ls.deep_view()[j]).len() == 0
                    || text::words_of(ls.deep_view()[j])[0] != ds@,
        decreases ls@.len() - i,
    {
        let ws = text::words(ls[i]);
        assert(ls.deep_view()[i as int] == ls@[i as int]@);
        if ws.len() > 0 {
            assert(ws.deep_view()[0] == ws@[0]@);
            if text::eq(ws[0], ds) {
                return true;
            }
        }
        i = i + 1;
    }
    false
}

/// Looks in the mount table for the dataset.
pub open spec fn is_dataset_mounted_does(w: World, ds: Seq<char>) -> (World, bool) {
    (
        w.after(Call::ReadFile { path: "/proc/self/mounts"@ }),
        match w.line() {
            Err(_) => false,
            Ok(t) => mounted_in(text::lines_of(t), ds),
        },
    )
}

fn is_dataset_mounted<R: Runner>(r: &mut R, ds: &str) -> (res: bool)
    ensures
        (final(r).world(), res) == is_dataset_mounted_does(old(r).world(), ds@),
{
    match r.read_file("/proc/self/mounts") {
        Err(_) => false,
        Ok(t) => is_mounted_in(t.as_str(), ds),
    }
}

/// Makes one boot environment that no longer boots read-only, unless its pool
/// is not imported or it is mounted.
#[verifier::opaque]
pub open spec fn retire_one_does(w: World, ds: Seq<char>) -> World {
    let (w1, imported) = pools::is_pool_imported_does(w, text::before(ds, '/'));
    if !zfs_ops::exists_or_not(imported) {
        w1
    } else {
        let (w2, mounted) = is_dataset_mounted_does(w1, ds);
        if mounted {
            w2.say(
                "default: ex-active "@ + ds
                    + " is currently mounted — skipping readonly=on to avoid breaking the live mount. Reboot to leave it unmounted, then manually `zfs set readonly=on "@
                    + ds
                    + "` if you want the proactive rail. Divergence is still caught reactively by `mirror`'s refuse-on-divergence."@,
            )
        } else {
            set_does(
                w2.say("default: marking ex-active "@ + ds + " readonly=on"@),
                "zfs"@,
                ds,
                "readonly"@,
                "on"@,
            ).0
        }
    }
}

fn retire_one<R: Runner>(r: &mut R, ds: &str)
    ensures
        final(r).world() == retire_one_does(old(r).world(), ds@),
{
    proof {
        reveal(retire_one_does);
    }
    if !pools::seems_imported(r, text::head(ds, '/')) {
        return ;
    }
    if is_dataset_mounted(r, ds) {
        let line: String = text::cat5(
            "default: ex-active ",
            ds,
            " is currently mounted — skipping readonly=on to avoid breaking the live mount. Reboot to leave it unmounted, then manually `zfs set readonly=on ",
            ds,
            "` if you want the proactive rail. Divergence is still caught reactively by `mirror`'s refuse-on-divergence.",
        );
        r.say(line.as_str());
        return ;
    }
    let line: String = text::cat3("default: marking ex-active ", ds, " readonly=on");
    r.say(line.as_str());
    let _ = zfs_set(r, ds, "readonly", "on");
}

/// Makes every boot environment that no longer boots read-only.
pub open spec fn retire_does(w: World, dss: Seq<Seq<char>>) -> World
    decreases dss.len(),
{
    if dss.len() == 0 {
        w
    } else {
        retire_one_does(retire_does(w, dss.drop_last()), dss.last())
    }
}

fn retire<R: Runner>(r: &mut R, dss: &Vec<String>)
    ensures
        final(r).world() == retire_does(old(r).world(), dss.deep_view()),
{
    let ghost w = r.world();
    let mut i: usize = 0;
    while i < dss.len()
        invariant
            i <= dss@.len(),
            r.world() == retire_does(w, dss.deep_view().take(i as int)),
        decreases dss@.len() - i,
    {
        proof {
            let next = dss.deep_view().take(i + 1);
            assert(next.drop_last() =~= dss.deep_view().take(i as int));
            assert(next.last() == dss@[i as int]@);
        }
        retire_one(r, dss[i].as_str());
        i = i + 1;
    }
    assert(dss.deep_view().take(i as int) =~= dss.deep_view());
}

/// Sets `bootfs`, unless it reads so already.
#[verifier::opaque]
pub open spec fn set_bootfs_does(w: World, target: BeNames, current: Option<Seq<char>>) -> (
    World,
    Result<(), Seq<char>>,
) {
    if current == Some(target.dataset) {
        sub::tell_does(
            w,
            "default: "@ + text::quoted_text(target.name) + " is already active on pool "@
                + target.pool + " — nothing to do"@,
            "writing status line"@,
        )
    } else {
        sub::chain(
            sub::tell_does(
                w,
                "default: setting bootfs="@ + target.dataset + " on pool "@ + target.pool,
                "writing status line"@,
            ),
            |w1: World| set_does(w1, "zpool"@, target.pool, "bootfs"@, target.dataset),
        )
    }
}

fn set_bootfs<R: Runner>(r: &mut R, target: &BeInfo, current: &Option<String>) -> (res: Result<
    (),
    Error,
>)
    ensures
        sub::did(final(r).world(), res) == set_bootfs_does(
            old(r).world(),
            target.deep_view(),
            current.deep_view(),
        ),
{
    proof {
        reveal(set_bootfs_does);
    }
    if text::opt_is(current, target.dataset.as_str()) {
        let q: String = text::quoted(target.name.as_str());
        let line: String = text::cat5(
            "default: ",
            q.as_str(),
            " is already active on pool ",
            target.pool.as_str(),
            " — nothing to do",
        );
        return sub::tell(r, line.as_str(), "writing status line");
    }
    let line: String = text::cat4(
        "default: setting bootfs=",
        target.dataset.as_str(),
        " on pool ",
        target.pool.as_str(),
    );
    if let Err(e) = sub::tell(r, line.as_str(), "writing status line") {
        return Err(e);
    }
    zpool_set(r, target.pool.as_str(), "bootfs", target.dataset.as_str())
}

/// What `canmount` of a dataset attached to `bound_to` should be.
pub open spec fn wanted(bound_to: Seq<Key>, key: Key) -> Canmount {
    if bound_to.contains(key) {
        Canmount::On
    } else {
        Canmount::Off
    }
}

/// Sets `canmount` of one attached dataset, unless it reads so already.
#[verifier::opaque]
pub open spec fn toggle_one_does(w: World, b: Attached, key: Key) -> (World, Result<
    (),
    Seq<char>,
>) {
    let want = wanted(b.bound_to, key);
    if b.canmount == Some(want) {
        (w, Ok(()))
    } else {
        set_does(
            w.say(
                "default: "@ + b.dataset + " canmount -> "@ + model::canmount_text(want) + " ("@ + (
                if b.bound_to.contains(key) {
                    "in target"@
                } else {
                    "not in target"@
                }) + ")"@,
            ),
            "zfs"@,
            b.dataset,
            "canmount"@,
            model::canmount_text(want),
        )
    }
}

fn toggle_one<R: Runner>(r: &mut R, b: &BoundDsInfo, key: &BoundKey) -> (res: Result<(), Error>)
    ensures
        sub::did(final(r).world(), res) == toggle_one_does(
            old(r).world(),
            b.deep_view(),
            key.deep_view(),
        ),
{
    proof {
        reveal(toggle_one_does);
    }
    let in_target: bool = b.bound_to.contains(key);
    let want: Canmount = if in_target {
        Canmount::On
    } else {
        Canmount::Off
    };
    if let Some(c) = b.canmount {
        if c == want {
            return Ok(());
        }
    }
    let label: &str = if in_target {
        "in target"
    } else {
        "not in target"
    };
    let line: String = text::cat7(
        "default: ",
        b.dataset.as_str(),
        " canmount -> ",
        want.render(),
        " (",
        label,
        ")",
    );
    r.say(line.as_str());
    zfs_set(r, b.dataset.as_str(), "canmount", want.render())
}

/// Sets `canmount` of every attached dataset, up to the first failure.
pub open spec fn toggle_does(w: World, bs: Seq<Attached>, key: Key) -> (World, Result<
    (),
    Seq<char>,
>)
    decreases bs.len(),
{
    if bs.len() == 0 {
        (w, Ok(()))
    } else {
        let (w1, so_far) = toggle_does(w, bs.drop_last(), key);
        if so_far is Err {
            (w1, so_far)
        } else {
            toggle_one_does(w1, bs.last(), key)
        }
    }
}

proof fn lemma_toggle_stops(w: World, bs: Seq<Attached>, key: Key, i: int)
    requires
        0 <= i <= bs.len(),
        toggle_does(w, bs.take(i), key).1 is Err,
    ensures
        toggle_does(w, bs, key) == toggle_does(w, bs.take(i), key),
    decreases bs.len() - i,
{
    if i < bs.len() {
        assert(bs.take(i + 1).drop_last() =~= bs.take(i));
        lemma_toggle_stops(w, bs, key, i + 1);
    } else {
        assert(bs.take(i) =~= bs);
    }
}

fn toggle<R: Runner>(r: &mut R, bs: &Vec<BoundDsInfo>, key: &BoundKey) -> (res: Result<(), Error>)
    ensures
        sub::did(final(r).world(), res) == toggle_does(
            old(r).world(),
            bs.deep_view(),
            key.deep_view(),
        ),
{
    let ghost w = r.world();
    let ghost all = bs.deep_view();
    let mut i: usize = 0;
    assert(all.take(0) =~= seq![]);
    while i < bs.len()
        invariant
            i <= bs@.len(),
            all == bs.deep_view(),
            w == old(r).world(),
            (r.world(), Ok::<(), Seq<char>>(())) == toggle_does(
                w,
                all.take(i as int),
                key.deep_view(),
            ),
        decreases bs@.len() - i,
    {
        proof {
            assert(all.take(i + 1).drop_last() =~= all.take(i as int));
            assert(all.take(i + 1).last() == bs@[i as int].deep_view());
        }
        if let Err(e) = toggle_one(r, &bs[i], key) {
            proof {
                lemma_toggle_stops(w, all, key.deep_view(), i + 1);
            }
            return Err(e);
        }
        i = i + 1;
    }
    assert(all.take(i as int) =~= all);
    Ok(())
}

// ---------------------------------------------------------------------------
// The verb
// ---------------------------------------------------------------------------

/// The first root pool of a name.
pub open spec fn pool_named(ps: Seq<RootPool>, name: Seq<char>) -> Option<RootPool>
    decreases ps.len(),
{
    if ps.len() == 0 {
        None
    } else if ps[0].name == name {
        Some(ps[0])
    } else {
        pool_named(ps.drop_first(), name)
    }
}

fn find_pool(ps: &Vec<PoolInfo>, name: &str) -> (r: Option<PoolInfo>)
    ensures
        r.deep_view() == pool_named(ps.deep_view(), name@),
{
    let ghost all = ps.deep_view();
    let mut i: usize = 0;
    assert(all.skip(0) =~= all);
    while i < ps.len()
        invariant
            i <= ps@.len(),
            all == ps.deep_view(),
            pool_named(all, name@) == pool_named(all.skip(i as int), name@),
        decreases ps@.len() - i,
    {
        proof {
            assert(all.skip(i as int)[0] == ps@[i as int].deep_view());
            assert(all.skip(i as int).drop_first() =~= all.skip(i + 1));
        }
        if text::eq(ps[i].name.as_str(), name) {
            return Some(
                PoolInfo { name: ps[i].name.clone(), bootfs: text::clone_opt(&ps[i].bootfs) },
            );
        }
        i = i + 1;
    }
    None
}

/// Looks for the root pools and the target.
#[verifier::opaque]
pub open spec fn find_target_does(w: World, name: Seq<char>) -> (World, Result<
    (Seq<RootPool>, BeNames),
    Seq<char>,
>) {
    let (w1, roots) = list_root_pools_does(w);
    match roots {
        Err(m) => (w1, Err(m)),
        Ok(ps) => if ps.len() == 0 {
            (
                w1,
                Err(
                    "no root-role pool found (no pool tagged `zboot:role=root`); nothing to set"@,
                ),
            )
        } else {
            let (w2, listed) = list_bes_does(w1, ps);
            match listed {
                Err(m) => (w2, Err(m)),
                Ok(bes) => match target_of(bes, name) {
                    Err(m) => (w2, Err(m)),
                    Ok(target) => (w2, Ok((ps, target))),
                },
            }
        },
    }
}

fn find_target<R: Runner>(r: &mut R, name: &str) -> (res: Result<(Vec<PoolInfo>, BeInfo), Error>)
    ensures
        sub::did(final(r).world(), res) == find_target_does(old(r).world(), name@),
{
    proof {
        reveal(find_target_does);
    }
    let ps: Vec<PoolInfo> = match list_root_pools(r) {
        Err(e) => return Err(e),
        Ok(p) => p,
    };
    if ps.len() == 0 {
        return Err(
            Error::new(
                "no root-role pool found (no pool tagged `zboot:role=root`); nothing to set",
            ),
        );
    }
    let bes: Vec<BeInfo> = match list_bes(r, &ps) {
        Err(e) => return Err(e),
        Ok(b) => b,
    };
    match resolve_target_be(&bes, name) {
        Err(e) => Err(e),
        Ok(target) => Ok((ps, target)),
    }
}

/// Moves `bootfs` to the target: the other pools first, the target last.
#[verifier::opaque]
pub open spec fn move_bootfs_does(w: World, ps: Seq<RootPool>, target: BeNames) -> (World, Result<
    (),
    Seq<char>,
>) {
    match pool_named(ps, target.pool) {
        None => (
            w,
            Err(
                "internal: target BE "@ + text::quoted_text(target.name)
                    + " references unknown pool "@ + text::quoted_text(target.pool),
            ),
        ),
        Some(mine) => {
            let (w1, cleared) = clear_losers_does(w, ps, target.pool);
            if cleared is Err {
                (w1, cleared)
            } else {
                set_bootfs_does(
                    retire_does(w1, ex_active(ps, target.dataset)),
                    target,
                    mine.bootfs,
                )
            }
        },
    }
}

fn move_bootfs<R: Runner>(r: &mut R, ps: &Vec<PoolInfo>, target: &BeInfo) -> (res: Result<
    (),
    Error,
>)
    ensures
        sub::did(final(r).world(), res) == move_bootfs_does(
            old(r).world(),
            ps.deep_view(),
            target.deep_view(),
        ),
{
    proof {
        reveal(move_bootfs_does);
    }
    let mine: PoolInfo = match find_pool(ps, target.pool.as_str()) {
        Some(p) => p,
        None => {
            let q: String = text::quoted(target.name.as_str());
            let p: String = text::quoted(target.pool.as_str());
            return Err(
                Error::from_text(
                    text::cat4(
                        "internal: target BE ",
                        q.as_str(),
                        " references unknown pool ",
                        p.as_str(),
                    ),
                ),
            );
        },
    };
    let ex = find_ex_active(ps, target.dataset.as_str());
    if let Err(e) = clear_losers(r, ps, target.pool.as_str()) {
        return Err(e);
    }
    retire(r, &ex);
    set_bootfs(r, target, &mine.bootfs)
}

/// `default`, by its argument.
#[verifier::opaque]
pub open spec fn run_does(w: World, name: Seq<char>) -> (World, Result<(), Seq<char>>) {
    let (w1, found) = find_target_does(w, name);
    match found {
        Err(m) => (w1, Err(m)),
        Ok((ps, target)) => {
            let w2 = warn_mirror_side_does(w1, target.dataset);
            let (w3, writable) = make_writable_does(w2, target);
            if writable is Err {
                (w3, writable)
            } else {
                let (w4, moved) = move_bootfs_does(w3, ps, target);
                if moved is Err {
                    (w4, moved)
                } else {
                    let (w5, listed) = list_bound_does(w4, ps);
                    match listed {
                        Err(m) => (w5, Err(m)),
                        Ok(bs) => toggle_does(
                            w5,
                            bs,
                            Key { pool: target.pool, be: target.name },
                        ),
                    }
                }
            }
        },
    }
}

/// Runs `default` through a runner.
pub fn run_with_runner<R: Runner>(args: &DefaultArgs, r: &mut R) -> (res: Result<(), Error>)
    ensures
        sub::did(final(r).world(), res) == run_does(old(r).world(), args.name@),
{
    proof {
        reveal(run_does);
    }
    let (ps, target) = match find_target(r, args.name.as_str()) {
        Err(e) => return Err(e),
        Ok(x) => x,
    };
    warn_mirror_side(r, target.dataset.as_str());
    if let Err(e) = make_writable(r, &target) {
        return Err(e);
    }
    if let Err(e) = move_bootfs(r, &ps, &target) {
        return Err(e);
    }
    let bound: Vec<BoundDsInfo> = match list_bound_datasets(r, &ps) {
        Err(e) => return Err(e),
        Ok(b) => b,
    };
    let key: BoundKey = BoundKey::new(target.pool.as_str(), target.name.as_str());
    toggle(r, &bound, &key)
}

/// Runs `default`.
pub fn run<R: Runner>(r: &mut R, args: &DefaultArgs) -> (res: Result<(), Error>)
    ensures
        sub::did(final(r).world(), res) == run_does(old(r).world(), args.name@),
{
    run_with_runner(args, r)
}

// ---------------------------------------------------------------------------
// Laws
// ---------------------------------------------------------------------------

/// One of the calls between two worlds unset `bootfs` of the pool, and the
/// program reported success.
pub open spec fn cleared_between(a: World, b: World, pool: Seq<char>) -> bool {
    exists|i: int|
        a.calls.len() <= i < b.calls.len() && (#[trigger] b.calls[i] == (Call::Run {
            prog: "zpool"@,
            args: seq!["set"@, "bootfs="@, pool],
        }) || b.calls[i] == (Call::Run {
            prog: "zpool"@,
            args: seq!["set"@, "bootfs=-"@, pool],
        })) && (b.replies)(i as nat).failure is None && (b.replies)(i as nat).rc == 0
}

proof fn lemma_clear_one(w: World, pool: Seq<char>, was: Seq<char>)
    ensures
        ({
            let (w1, res) = clear_one_does(w, pool, was);
            sub::continues(w, w1) && (res is Ok ==> cleared_between(w, w1, pool))
        }),
{
    reveal(clear_one_does);
    reveal(set_does);
    reveal_strlit("bootfs");
    reveal_strlit("=");
    reveal_strlit("");
    reveal_strlit("-");
    reveal_strlit("bootfs=");
    reveal_strlit("bootfs=-");
    assert("bootfs"@ + "="@ + ""@ =~= "bootfs="@);
    assert("bootfs"@ + "="@ + "-"@ =~= "bootfs=-"@);
    let (w1, res) = clear_one_does(w, pool, was);
    let n = w1.calls.len();
    if res is Ok {
        assert(w1.calls[n - 1] == (Call::Run {
            prog: "zpool"@,
            args: seq!["set"@, "bootfs="@, pool],
        }) || w1.calls[n - 1] == (Call::Run {
            prog: "zpool"@,
            args: seq!["set"@, "bootfs=-"@, pool],
        }));
    }
}

proof fn lemma_cleared_stays(a: World, b: World, c: World, pool: Seq<char>)
    requires
        cleared_between(a, b, pool),
        sub::continues(b, c),
    ensures
        cleared_between(a, c, pool),
{
    let i = choose|i: int|
        a.calls.len() <= i < b.calls.len() && (#[trigger] b.calls[i] == (Call::Run {
            prog: "zpool"@,
            args: seq!["set"@, "bootfs="@, pool],
        }) || b.calls[i] == (Call::Run {
            prog: "zpool"@,
            args: seq!["set"@, "bootfs=-"@, pool],
        })) && (b.replies)(i as nat).failure is None && (b.replies)(i as nat).rc == 0;
    assert(c.calls[i] == b.calls[i]);
}

/// A clearing that succeeds has unset `bootfs` of every other root pool that
/// had one. [`law_one_bootfs`] says when that happens in a run.
pub proof fn law_losers_are_cleared_first(
    w: World,
    ps: Seq<RootPool>,
    target_pool: Seq<char>,
    i: int,
)
    requires
        0 <= i < ps.len(),
        ps[i].name != target_pool,
        ps[i].bootfs is Some,
        clear_losers_does(w, ps, target_pool).1 is Ok,
    ensures
        cleared_between(w, clear_losers_does(w, ps, target_pool).0, ps[i].name),
    decreases ps.len(),
{
    let front = ps.drop_last();
    let (w1, so_far) = clear_losers_does(w, front, target_pool);
    lemma_losers_continue(w, front, target_pool);
    let p = ps.last();
    let (w2, _) = clear_losers_does(w, ps, target_pool);
    if p.name != target_pool && p.bootfs is Some {
        lemma_clear_one(w1, p.name, p.bootfs->0);
    }
    if i < ps.len() - 1 {
        assert(front[i] == ps[i]);
        law_losers_are_cleared_first(w, front, target_pool, i);
        lemma_cleared_stays(w, w1, w2, ps[i].name);
    } else {
        let k = choose|k: int|
            w1.calls.len() <= k < w2.calls.len() && (#[trigger] w2.calls[k] == (Call::Run {
                prog: "zpool"@,
                args: seq!["set"@, "bootfs="@, p.name],
            }) || w2.calls[k] == (Call::Run {
                prog: "zpool"@,
                args: seq!["set"@, "bootfs=-"@, p.name],
            })) && (w2.replies)(k as nat).failure is None && (w2.replies)(k as nat).rc == 0;
        assert(w.calls.len() <= k);
    }
}

proof fn lemma_losers_continue(w: World, ps: Seq<RootPool>, target_pool: Seq<char>)
    ensures
        sub::continues(w, clear_losers_does(w, ps, target_pool).0),
    decreases ps.len(),
{
    if ps.len() > 0 {
        lemma_losers_continue(w, ps.drop_last(), target_pool);
        let (w1, _) = clear_losers_does(w, ps.drop_last(), target_pool);
        if let Some(b) = ps.last().bootfs {
            lemma_clear_one(w1, ps.last().name, b);
        }
    }
}

/// Nothing is written for a target that boots next already, where no other
/// pool has a `bootfs`: the operator is told, and no command is run. All that
/// can fail is the telling.
pub proof fn law_active_target_is_left_alone(w: World, ps: Seq<RootPool>, target: BeNames)
    requires
        pool_named(ps, target.pool) matches Some(p) && p.bootfs == Some(target.dataset),
        forall|i: int|
            0 <= i < ps.len() ==> (#[trigger] ps[i]).name == target.pool && ps[i].bootfs == Some(
                target.dataset,
            ) || ps[i].bootfs is None,
    ensures
        w.unit() is Ok ==> move_bootfs_does(w, ps, target).1 is Ok,
        sub::only_looked(w, move_bootfs_does(w, ps, target).0),
{
    reveal(move_bootfs_does);
    reveal(set_bootfs_does);
    lemma_nothing_to_clear(w, ps, target);
    assert(ex_active(ps, target.dataset) =~= seq![]);
}

proof fn lemma_nothing_to_clear(w: World, ps: Seq<RootPool>, target: BeNames)
    requires
        forall|i: int|
            0 <= i < ps.len() ==> (#[trigger] ps[i]).name == target.pool && ps[i].bootfs == Some(
                target.dataset,
            ) || ps[i].bootfs is None,
    ensures
        clear_losers_does(w, ps, target.pool) == (w, Ok::<(), Seq<char>>(())),
        ex_active(ps, target.dataset).len() == 0,
    decreases ps.len(),
{
    if ps.len() > 0 {
        let front = ps.drop_last();
        assert forall|i: int| 0 <= i < front.len() implies (#[trigger] front[i]).name
            == target.pool && front[i].bootfs == Some(target.dataset) || front[i].bootfs is None by {
            assert(front[i] == ps[i]);
        }
        lemma_nothing_to_clear(w, front, target);
        assert(ps[ps.len() - 1] == ps.last());
    }
}

/// Nothing is written for attached datasets whose `canmount` reads as wanted.
pub proof fn law_settled_datasets_are_left_alone(w: World, bs: Seq<Attached>, key: Key)
    requires
        forall|i: int|
            0 <= i < bs.len() ==> (#[trigger] bs[i]).canmount == Some(wanted(bs[i].bound_to, key)),
    ensures
        toggle_does(w, bs, key) == (w, Ok::<(), Seq<char>>(())),
    decreases bs.len(),
{
    if bs.len() > 0 {
        let front = bs.drop_last();
        assert forall|i: int| 0 <= i < front.len() implies (#[trigger] front[i]).canmount == Some(
            wanted(front[i].bound_to, key),
        ) by {
            assert(front[i] == bs[i]);
        }
        law_settled_datasets_are_left_alone(w, front, key);
        reveal(toggle_one_does);
        assert(bs[bs.len() - 1] == bs.last());
    }
}

/// The boot environment that `default` picks is one of those on the root
/// pools, and bears the name, or lies at the dataset, that was asked for.
pub proof fn law_target_is_what_was_asked(bes: Seq<BeNames>, arg: Seq<char>)
    ensures
        target_of(bes, arg) matches Ok(b) ==> bes.contains(b) && (b.dataset == arg || b.name
            == arg),
{
    if arg.contains('/') {
        lemma_first_at(bes, arg);
    } else if called(bes, arg).len() == 1 {
        let keep = |b: BeNames| b.name == arg;
        bes.lemma_filter_pred(keep, 0);
        bes.lemma_filter_contains_rev(keep, bes.filter(keep)[0]);
    }
}

proof fn lemma_first_at(bes: Seq<BeNames>, ds: Seq<char>)
    ensures
        first_at(bes, ds) matches Some(b) ==> bes.contains(b) && b.dataset == ds,
    decreases bes.len(),
{
    if bes.len() > 0 && bes[0].dataset != ds {
        lemma_first_at(bes.drop_first(), ds);
        if let Some(b) = first_at(bes, ds) {
            let i = choose|i: int| 0 <= i < bes.drop_first().len() && bes.drop_first()[i] == b;
            assert(bes[i + 1] == b);
        }
    } else if bes.len() > 0 {
        assert(bes[0] == first_at(bes, ds)->0);
    }
}

/// What `default` may do: work on pools, and set `readonly` and `canmount`.
pub open spec fn switching() -> spec_fn(Call) -> bool {
    |c: Call|
        {
            match c {
                Call::Run { prog, args } => prog == "zpool"@ || (prog == "zfs"@ && args.len() == 3
                    && args[0] == "set"@ && (text::begins(args[1], "readonly="@) || text::begins(
                    args[1],
                    "canmount="@,
                ))),
                Call::Attend { prog, args } => prog == "zpool"@,
                _ => false,
            }
        }
}

/// No property of a dataset but `readonly` and `canmount` is ever set: where a
/// dataset is mounted stays the operator's own affair.
pub proof fn law_mountpoints_are_left_alone(w: World, name: Seq<char>)
    ensures
        sub::did_only(w, run_does(w, name).0, switching()),
{
    reveal(run_does);
    let p = switching();
    let (w1, found) = find_target_does(w, name);
    lemma_find_looks(w, name);
    effects::lemma_looked(w, w1, p);
    if let Ok((ps, target)) = found {
        let w2 = warn_mirror_side_does(w1, target.dataset);
        lemma_warn_looks(w1, target.dataset);
        effects::lemma_looked(w1, w2, p);
        effects::lemma_then(w, w1, w2, p);
        let (w3, writable) = make_writable_does(w2, target);
        lemma_make_writable(w2, target);
        effects::lemma_then(w, w2, w3, p);
        let (w4, moved) = move_bootfs_does(w3, ps, target);
        lemma_move_bootfs(w3, ps, target);
        effects::lemma_then(w, w3, w4, p);
        let (w5, listed) = list_bound_does(w4, ps);
        reveal(list_bound_does);
        assert(sub::only_looked(w4, w5));
        effects::lemma_looked(w4, w5, p);
        effects::lemma_then(w, w4, w5, p);
        if let Ok(bs) = listed {
            let key = Key { pool: target.pool, be: target.name };
            lemma_toggle(w5, bs, key);
            effects::lemma_then(w, w5, toggle_does(w5, bs, key).0, p);
        }
    }
}

proof fn lemma_find_looks(w: World, name: Seq<char>)
    ensures
        sub::only_looked(w, find_target_does(w, name).0),
{
    reveal(find_target_does);
    reveal(list_root_pools_does);
    reveal(list_bes_does);
}

proof fn lemma_warn_looks(w: World, ds: Seq<char>)
    ensures
        sub::only_looked(w, warn_mirror_side_does(w, ds)),
{
    reveal(warn_mirror_side_does);
    zfs_ops::lemma_property_looks(w, ds, "zboot:primary"@);
    let w1 = zfs_ops::dataset_property_does(w, ds, "zboot:primary"@).0;
    zfs_ops::lemma_property_looks(w1, ds, "zboot:mirror"@);
}

proof fn lemma_set_allowed(
    w: World,
    prog: Seq<char>,
    target: Seq<char>,
    prop: Seq<char>,
    value: Seq<char>,
)
    requires
        prog == "zpool"@ || (prog == "zfs"@ && (prop == "readonly"@ || prop == "canmount"@)),
    ensures
        sub::did_only(w, set_does(w, prog, target, prop, value).0, switching()),
{
    reveal(set_does);
    reveal_strlit("readonly");
    reveal_strlit("canmount");
    reveal_strlit("=");
    reveal_strlit("zfs");
    reveal_strlit("zpool");
    reveal_strlit("readonly=");
    reveal_strlit("canmount=");
    let assignment = prop + "="@ + value;
    let args = seq!["set"@, assignment, target];
    assert(args[0] == "set"@ && args[1] == assignment);
    if prog == "zfs"@ {
        assert("zfs"@.len() != "zpool"@.len());
        if prop == "readonly"@ {
            assert(assignment.take("readonly="@.len() as int) =~= "readonly="@);
        } else {
            assert(assignment.take("canmount="@.len() as int) =~= "canmount="@);
        }
    }
    assert(switching()(Call::Run { prog, args }));
}

proof fn lemma_imported_looks(w: World, pool: Seq<char>)
    ensures
        sub::only_looked(w, pools::is_pool_imported_does(w, pool).0),
{
    reveal(pools::currently_imported_does);
}

proof fn lemma_ensure_rw(w: World, pool: Seq<char>)
    ensures
        sub::did_only(w, pools::ensure_rw_does(w, pool).0, switching()),
{
    reveal(pools::ensure_rw_does);
    reveal(pools::pool_readonly_does);
    reveal(pools::must_does);
    reveal(pools::currently_imported_does);
}

proof fn lemma_make_writable(w: World, target: BeNames)
    ensures
        sub::did_only(w, make_writable_does(w, target).0, switching()),
{
    reveal(make_writable_does);
    let p = switching();
    lemma_imported_looks(w, target.pool);
    let w1 = pools::is_pool_imported_does(w, target.pool).0;
    effects::lemma_looked(w, w1, p);
    let w2 = pools::ensure_rw_does(w1, target.pool).0;
    lemma_ensure_rw(w1, target.pool);
    effects::lemma_then(w, w1, w2, p);
    let w3 = readonly_does(w2, target.dataset).0;
    assert(sub::only_looked(w2, w3));
    effects::lemma_looked(w2, w3, p);
    effects::lemma_then(w, w2, w3, p);
    let w4 = w3.say(
        "default: clearing readonly on "@ + target.dataset + " (was a mirror dest)"@,
    );
    effects::lemma_looked(w3, w4, p);
    effects::lemma_then(w, w3, w4, p);
    lemma_set_allowed(w4, "zfs"@, target.dataset, "readonly"@, "off"@);
    effects::lemma_then(
        w,
        w4,
        set_does(w4, "zfs"@, target.dataset, "readonly"@, "off"@).0,
        p,
    );
}

proof fn lemma_move_bootfs(w: World, ps: Seq<RootPool>, target: BeNames)
    ensures
        sub::did_only(w, move_bootfs_does(w, ps, target).0, switching()),
{
    reveal(move_bootfs_does);
    reveal(set_bootfs_does);
    let p = switching();
    if let Some(mine) = pool_named(ps, target.pool) {
        let w1 = clear_losers_does(w, ps, target.pool).0;
        lemma_losers_allowed(w, ps, target.pool);
        let dss = ex_active(ps, target.dataset);
        let w2 = retire_does(w1, dss);
        lemma_retire(w1, dss);
        effects::lemma_then(w, w1, w2, p);
        let w3 = w2.say("default: setting bootfs="@ + target.dataset + " on pool "@ + target.pool);
        effects::lemma_looked(w2, w3, p);
        effects::lemma_then(w, w2, w3, p);
        lemma_set_allowed(w3, "zpool"@, target.pool, "bootfs"@, target.dataset);
        effects::lemma_then(
            w,
            w3,
            set_does(w3, "zpool"@, target.pool, "bootfs"@, target.dataset).0,
            p,
        );
        let w4 = w2.say(
            "default: "@ + text::quoted_text(target.name) + " is already active on pool "@
                + target.pool + " — nothing to do"@,
        );
        effects::lemma_looked(w2, w4, p);
        effects::lemma_then(w, w2, w4, p);
    }
}

proof fn lemma_losers_allowed(w: World, ps: Seq<RootPool>, target_pool: Seq<char>)
    ensures
        sub::did_only(w, clear_losers_does(w, ps, target_pool).0, switching()),
    decreases ps.len(),
{
    let p = switching();
    if ps.len() > 0 {
        reveal(clear_one_does);
        lemma_losers_allowed(w, ps.drop_last(), target_pool);
        let (w1, so_far) = clear_losers_does(w, ps.drop_last(), target_pool);
        let pool = ps.last().name;
        if let Some(b) = ps.last().bootfs {
            let w2 = w1.say("default: clearing bootfs on pool "@ + pool + " (was "@ + b + ")"@);
            effects::lemma_looked(w1, w2, p);
            effects::lemma_then(w, w1, w2, p);
            let w3 = set_does(w2, "zpool"@, pool, "bootfs"@, ""@).0;
            lemma_set_allowed(w2, "zpool"@, pool, "bootfs"@, ""@);
            effects::lemma_then(w, w2, w3, p);
            lemma_set_allowed(w3, "zpool"@, pool, "bootfs"@, "-"@);
            effects::lemma_then(w, w3, set_does(w3, "zpool"@, pool, "bootfs"@, "-"@).0, p);
        }
    }
}

proof fn lemma_retire(w: World, dss: Seq<Seq<char>>)
    ensures
        sub::did_only(w, retire_does(w, dss), switching()),
    decreases dss.len(),
{
    let p = switching();
    if dss.len() > 0 {
        reveal(retire_one_does);
        let ds = dss.last();
        lemma_retire(w, dss.drop_last());
        let w0 = retire_does(w, dss.drop_last());
        let pool = text::before(ds, '/');
        lemma_imported_looks(w0, pool);
        let w1 = pools::is_pool_imported_does(w0, pool).0;
        let w2 = is_dataset_mounted_does(w1, ds).0;
        effects::lemma_looked(w0, w1, p);
        effects::lemma_looked(w1, w2, p);
        effects::lemma_then(w0, w1, w2, p);
        let told = w2.say("default: marking ex-active "@ + ds + " readonly=on"@);
        effects::lemma_looked(w2, told, p);
        effects::lemma_then(w0, w2, told, p);
        lemma_set_allowed(told, "zfs"@, ds, "readonly"@, "on"@);
        effects::lemma_then(w0, told, set_does(told, "zfs"@, ds, "readonly"@, "on"@).0, p);
        let end = retire_one_does(w0, ds);
        assert(sub::did_only(w0, end, p));
        effects::lemma_then(w, w0, end, p);
    }
}

proof fn lemma_toggle(w: World, bs: Seq<Attached>, key: Key)
    ensures
        sub::did_only(w, toggle_does(w, bs, key).0, switching()),
    decreases bs.len(),
{
    let p = switching();
    if bs.len() > 0 {
        reveal(toggle_one_does);
        lemma_toggle(w, bs.drop_last(), key);
        let (w1, so_far) = toggle_does(w, bs.drop_last(), key);
        let b = bs.last();
        let want = wanted(b.bound_to, key);
        let w2 = w1.say(
            "default: "@ + b.dataset + " canmount -> "@ + model::canmount_text(want) + " ("@ + (
            if b.bound_to.contains(key) {
                "in target"@
            } else {
                "not in target"@
            }) + ")"@,
        );
        effects::lemma_looked(w1, w2, p);
        lemma_set_allowed(w2, "zfs"@, b.dataset, "canmount"@, model::canmount_text(want));
        let w3 = set_does(w2, "zfs"@, b.dataset, "canmount"@, model::canmount_text(want)).0;
        effects::lemma_then(w1, w2, w3, p);
        let end = toggle_one_does(w1, b, key).0;
        assert(sub::did_only(w1, end, p));
        effects::lemma_then(w, w1, end, p);
    }
}

// ---------------------------------------------------------------------------
// What a run sets
// ---------------------------------------------------------------------------

/// The pools, other than the target's, that have a `bootfs`.
pub open spec fn losers(ps: Seq<RootPool>, target_pool: Seq<char>) -> Seq<Seq<char>>
    decreases ps.len(),
{
    if ps.len() == 0 {
        seq![]
    } else {
        let front = losers(ps.drop_last(), target_pool);
        if ps.last().name != target_pool && ps.last().bootfs is Some {
            front.push(ps.last().name)
        } else {
            front
        }
    }
}

/// A value that leaves `bootfs` unset.
pub open spec fn unsets(value: Seq<char>) -> bool {
    value == ""@ || value == "-"@
}

/// What a pool boots next after some settings, if it booted `was` before.
pub open spec fn boots_after(
    done: Seq<(Seq<char>, Seq<char>)>,
    pool: Seq<char>,
    was: Option<Seq<char>>,
) -> Option<Seq<char>>
    decreases done.len(),
{
    if done.len() == 0 {
        was
    } else if done.last().0 == pool {
        if unsets(done.last().1) {
            None
        } else {
            Some(done.last().1)
        }
    } else {
        boots_after(done.drop_last(), pool, was)
    }
}

/// The settings of `canmount` that are called for: one for each attached
/// dataset where it reads otherwise than wanted.
pub open spec fn toggles(bs: Seq<Attached>, key: Key) -> Seq<(Seq<char>, Seq<char>)>
    decreases bs.len(),
{
    if bs.len() == 0 {
        seq![]
    } else {
        let front = toggles(bs.drop_last(), key);
        let want = wanted(bs.last().bound_to, key);
        if bs.last().canmount == Some(want) {
            front
        } else {
            front.push((bs.last().dataset, model::canmount_text(want)))
        }
    }
}

/// The attached datasets that a run finds, where it comes so far.
pub open spec fn attached_found(w: World, name: Seq<char>) -> Result<Seq<Attached>, Seq<char>> {
    let (w1, found) = find_target_does(w, name);
    match found {
        Err(m) => Err(m),
        Ok((ps, target)) => {
            let w2 = warn_mirror_side_does(w1, target.dataset);
            let w3 = make_writable_does(w2, target).0;
            let w4 = move_bootfs_does(w3, ps, target).0;
            list_bound_does(w4, ps).1
        },
    }
}

/// The two properties that the laws count.
spec fn counted(prog: Seq<char>, prop: Seq<char>) -> bool {
    ||| prog == "zpool"@ && prop == "bootfs"@
    ||| prog == "zfs"@ && prop == "canmount"@
}

/// What one command that sets a property adds to the settings.
proof fn lemma_set_adds(
    w: World,
    prog: Seq<char>,
    target: Seq<char>,
    prop: Seq<char>,
    value: Seq<char>,
    from: int,
    p: Seq<char>,
    q: Seq<char>,
    tried: bool,
)
    requires
        from <= w.calls.len(),
        counted(p, q),
        (prog == "zfs"@ && prop == "readonly"@) || counted(prog, prop),
    ensures
        ({
            let (w1, res) = set_does(w, prog, target, prop, value);
            &&& sub::continues(w, w1)
            &&& effects::settings(w1, from, p, q, tried) == if prog == p && (tried || res is Ok) && prop == q {
                effects::settings(w, from, p, q, tried).push((target, value))
            } else {
                effects::settings(w, from, p, q, tried)
            }
        }),
{
    reveal(set_does);
    reveal_strlit("zfs");
    reveal_strlit("zpool");
    reveal_strlit("readonly");
    reveal_strlit("canmount");
    reveal_strlit("bootfs");
    reveal_strlit("=");
    assert("zfs"@.len() != "zpool"@.len());
    assert("readonly"@[0] == 'r' && "canmount"@[0] == 'c' && "bootfs"@[0] == 'b');
    let w1 = set_does(w, prog, target, prop, value).0;
    let assignment = prop + "="@ + value;
    let args = seq!["set"@, assignment, target];
    let n = w.calls.len() as int;
    assert(w1.calls.drop_last() =~= w.calls);
    assert(w1.calls[n] == (Call::Run { prog, args }));
    assert(args[0] == "set"@ && args[1] == assignment && args[2] == target);
    if prop == q {
        assert(assignment.take((q + "="@).len() as int) =~= q + "="@);
        assert(assignment.skip(q.len() as int + 1) =~= value);
        assert(text::begins(assignment, q + "="@));
    } else {
        assert(assignment[0] == prop[0]);
        if text::begins(assignment, q + "="@) {
            assert(assignment.take((q + "="@).len() as int)[0] == q[0]);
        }
    }
}

/// Making the target writable sets neither.
proof fn lemma_writable_sets(
    w: World,
    target: BeNames,
    from: int,
    p: Seq<char>,
    q: Seq<char>,
    tried: bool,
)
    requires
        from <= w.calls.len(),
        counted(p, q),
    ensures
        effects::settings(make_writable_does(w, target).0, from, p, q, tried)
            == effects::settings(w, from, p, q, tried),
{
    reveal(make_writable_does);
    lemma_imported_looks(w, target.pool);
    let w1 = pools::is_pool_imported_does(w, target.pool).0;
    effects::lemma_looked_sets_nothing(w, w1, from, p, q, tried);
    let w2 = pools::ensure_rw_does(w1, target.pool).0;
    lemma_rw_sets(w1, target.pool, p, q);
    effects::lemma_no_settings(w1, w2, from, p, q, tried);
    let w3 = readonly_does(w2, target.dataset).0;
    assert(sub::only_looked(w2, w3));
    effects::lemma_looked_sets_nothing(w2, w3, from, p, q, tried);
    let w4 = w3.say(
        "default: clearing readonly on "@ + target.dataset + " (was a mirror dest)"@,
    );
    effects::lemma_looked_sets_nothing(w3, w4, from, p, q, tried);
    lemma_set_adds(w4, "zfs"@, target.dataset, "readonly"@, "off"@, from, p, q, tried);
    lemma_names_differ();
}

proof fn lemma_names_differ()
    ensures
        "readonly"@ != "canmount"@,
        "readonly"@ != "bootfs"@,
        "canmount"@ != "bootfs"@,
        "zfs"@ != "zpool"@,
{
    reveal_strlit("readonly");
    reveal_strlit("canmount");
    reveal_strlit("bootfs");
    reveal_strlit("zfs");
    reveal_strlit("zpool");
    assert("readonly"@[0] == 'r' && "canmount"@[0] == 'c' && "bootfs"@[0] == 'b');
    assert("zfs"@.len() != "zpool"@.len());
}

proof fn lemma_rw_sets(w: World, pool: Seq<char>, p: Seq<char>, q: Seq<char>)
    ensures
        sub::did_only(w, pools::ensure_rw_does(w, pool).0, effects::not_setting(p, q)),
{
    reveal(pools::ensure_rw_does);
    reveal(pools::pool_readonly_does);
    reveal(pools::must_does);
    reveal(pools::currently_imported_does);
}

/// Making what no longer boots read-only sets neither.
proof fn lemma_retire_sets(
    w: World,
    dss: Seq<Seq<char>>,
    from: int,
    p: Seq<char>,
    q: Seq<char>,
    tried: bool,
)
    requires
        from <= w.calls.len(),
        counted(p, q),
    ensures
        from <= retire_does(w, dss).calls.len(),
        effects::settings(retire_does(w, dss), from, p, q, tried) == effects::settings(
            w,
            from,
            p,
            q,
            tried,
        ),
    decreases dss.len(),
{
    if dss.len() > 0 {
        reveal(retire_one_does);
        lemma_names_differ();
        let ds = dss.last();
        lemma_retire_sets(w, dss.drop_last(), from, p, q, tried);
        let w0 = retire_does(w, dss.drop_last());
        let pool = text::before(ds, '/');
        lemma_imported_looks(w0, pool);
        let w1 = pools::is_pool_imported_does(w0, pool).0;
        effects::lemma_looked_sets_nothing(w0, w1, from, p, q, tried);
        let end = retire_one_does(w0, ds);
        let w2 = is_dataset_mounted_does(w1, ds).0;
        let told = w2.say("default: marking ex-active "@ + ds + " readonly=on"@);
        assert(sub::only_looked(w1, w2));
        assert(sub::only_looked(w1, told));
        effects::lemma_looked_sets_nothing(w1, told, from, p, q, tried);
        lemma_set_adds(told, "zfs"@, ds, "readonly"@, "on"@, from, p, q, tried);
        let skipped = w2.say(
            "default: ex-active "@ + ds
                + " is currently mounted — skipping readonly=on to avoid breaking the live mount. Reboot to leave it unmounted, then manually `zfs set readonly=on "@
                + ds
                + "` if you want the proactive rail. Divergence is still caught reactively by `mirror`'s refuse-on-divergence."@,
        );
        assert(sub::only_looked(w1, skipped));
        effects::lemma_looked_sets_nothing(w1, skipped, from, p, q, tried);
    }
}

/// Clearing does not set `canmount`.
proof fn lemma_losers_keep(w: World, ps: Seq<RootPool>, target_pool: Seq<char>, from: int, tried: bool)
    requires
        from <= w.calls.len(),
    ensures
        from <= clear_losers_does(w, ps, target_pool).0.calls.len(),
        effects::settings(
            clear_losers_does(w, ps, target_pool).0,
            from,
            "zfs"@,
            "canmount"@,
            tried,
        ) == effects::settings(w, from, "zfs"@, "canmount"@, tried),
    decreases ps.len(),
{
    if ps.len() > 0 {
        reveal(clear_one_does);
        lemma_names_differ();
        lemma_losers_keep(w, ps.drop_last(), target_pool, from, tried);
        let w1 = clear_losers_does(w, ps.drop_last(), target_pool).0;
        let pool = ps.last().name;
        if let Some(b) = ps.last().bootfs {
            let (p, q) = ("zfs"@, "canmount"@);
            let w2 = w1.say("default: clearing bootfs on pool "@ + pool + " (was "@ + b + ")"@);
            effects::lemma_looked_sets_nothing(w1, w2, from, p, q, tried);
            let w3 = set_does(w2, "zpool"@, pool, "bootfs"@, ""@).0;
            lemma_set_adds(w2, "zpool"@, pool, "bootfs"@, ""@, from, p, q, tried);
            lemma_set_adds(w3, "zpool"@, pool, "bootfs"@, "-"@, from, p, q, tried);
        }
    }
}

/// `done` clears the pools of `names`, one after the other.
spec fn clears(done: Seq<(Seq<char>, Seq<char>)>, names: Seq<Seq<char>>) -> bool {
    &&& done.len() == names.len()
    &&& forall|i: int|
        0 <= i < done.len() ==> (#[trigger] done[i]).0 == names[i] && unsets(done[i].1)
}

/// What clearing adds to the settings of `bootfs`.
proof fn lemma_losers_cleared(w: World, ps: Seq<RootPool>, target_pool: Seq<char>)
    requires
        clear_losers_does(w, ps, target_pool).1 is Ok,
    ensures
        ({
            let end = clear_losers_does(w, ps, target_pool).0;
            let from = w.calls.len() as int;
            &&& from <= end.calls.len()
            &&& clears(
                effects::settings(end, from, "zpool"@, "bootfs"@, false),
                losers(ps, target_pool),
            )
            &&& forall|i: int|
                0 <= i < effects::settings(end, from, "zpool"@, "bootfs"@, true).len() ==> losers(
                    ps,
                    target_pool,
                ).contains(
                    (#[trigger] effects::settings(end, from, "zpool"@, "bootfs"@, true)[i]).0,
                )
        }),
    decreases ps.len(),
{
    let from = w.calls.len() as int;
    let (p, q) = ("zpool"@, "bootfs"@);
    if ps.len() > 0 {
        reveal(clear_one_does);
        let front = ps.drop_last();
        lemma_losers_cleared(w, front, target_pool);
        let w1 = clear_losers_does(w, front, target_pool).0;
        let end = clear_losers_does(w, ps, target_pool).0;
        let pool = ps.last().name;
        let before = losers(front, target_pool);
        let all = losers(ps, target_pool);
        if pool != target_pool && ps.last().bootfs is Some {
            let b = ps.last().bootfs->0;
            let w2 = w1.say("default: clearing bootfs on pool "@ + pool + " (was "@ + b + ")"@);
            let w3 = set_does(w2, "zpool"@, pool, "bootfs"@, ""@).0;
            effects::lemma_looked_sets_nothing(w1, w2, from, p, q, false);
            lemma_set_adds(w2, "zpool"@, pool, "bootfs"@, ""@, from, p, q, false);
            lemma_set_adds(w3, "zpool"@, pool, "bootfs"@, "-"@, from, p, q, false);
            effects::lemma_looked_sets_nothing(w1, w2, from, p, q, true);
            lemma_set_adds(w2, "zpool"@, pool, "bootfs"@, ""@, from, p, q, true);
            lemma_set_adds(w3, "zpool"@, pool, "bootfs"@, "-"@, from, p, q, true);
            assert(all == before.push(pool));
            assert(all[before.len() as int] == pool);
            let tried = effects::settings(end, from, p, q, true);
            let sooner = effects::settings(w1, from, p, q, true);
            assert forall|i: int| 0 <= i < tried.len() implies all.contains(
                (#[trigger] tried[i]).0,
            ) by {
                if i < sooner.len() {
                    assert(tried[i] == sooner[i]);
                    let k = choose|k: int| 0 <= k < before.len() && before[k] == sooner[i].0;
                    assert(all[k] == sooner[i].0);
                } else {
                    assert(tried[i].0 == pool);
                }
            }
        }
    } else {
        assert(effects::settings(w, from, p, q, false) =~= seq![]);
        assert(effects::settings(w, from, p, q, true) =~= seq![]);
    }
}

/// What moving `bootfs` adds to the settings of it.
proof fn lemma_move_sets(w: World, ps: Seq<RootPool>, target: BeNames)
    requires
        move_bootfs_does(w, ps, target).1 is Ok,
    ensures
        one_bootfs_set(
            effects::settings(
                move_bootfs_does(w, ps, target).0,
                w.calls.len() as int,
                "zpool"@,
                "bootfs"@,
                false,
            ),
            effects::settings(
                move_bootfs_does(w, ps, target).0,
                w.calls.len() as int,
                "zpool"@,
                "bootfs"@,
                true,
            ),
            ps,
            target,
        ),
{
    reveal(move_bootfs_does);
    reveal(set_bootfs_does);
    lemma_names_differ();
    let from = w.calls.len() as int;
    let (p, q) = ("zpool"@, "bootfs"@);
    let w1 = clear_losers_does(w, ps, target.pool).0;
    lemma_losers_cleared(w, ps, target.pool);
    let dss = ex_active(ps, target.dataset);
    let w2 = retire_does(w1, dss);
    lemma_retire_sets(w1, dss, from, p, q, false);
    lemma_retire_sets(w1, dss, from, p, q, true);
    let w3 = w2.say("default: setting bootfs="@ + target.dataset + " on pool "@ + target.pool);
    effects::lemma_looked_sets_nothing(w2, w3, from, p, q, false);
    effects::lemma_looked_sets_nothing(w2, w3, from, p, q, true);
    lemma_set_adds(w3, "zpool"@, target.pool, "bootfs"@, target.dataset, from, p, q, false);
    lemma_set_adds(w3, "zpool"@, target.pool, "bootfs"@, target.dataset, from, p, q, true);
    let w4 = w2.say(
        "default: "@ + text::quoted_text(target.name) + " is already active on pool "@
            + target.pool + " — nothing to do"@,
    );
    effects::lemma_looked_sets_nothing(w2, w4, from, p, q, false);
    effects::lemma_looked_sets_nothing(w2, w4, from, p, q, true);
    let (cleared, cleared_tries) = (
        effects::settings(w1, from, p, q, false),
        effects::settings(w1, from, p, q, true),
    );
    let end = move_bootfs_does(w, ps, target).0;
    let (done, tried) = (
        effects::settings(end, from, p, q, false),
        effects::settings(end, from, p, q, true),
    );
    let ls = losers(ps, target.pool);
    if (pool_named(ps, target.pool)->0).bootfs == Some(target.dataset) {
        assert(done == cleared && tried == cleared_tries);
    } else {
        assert(done == cleared.push((target.pool, target.dataset)));
        assert(tried == cleared_tries.push((target.pool, target.dataset)));
        assert forall|i: int| 0 <= i < ls.len() implies (#[trigger] done[i]).0 == ls[i] && unsets(
            done[i].1,
        ) by {
            assert(done[i] == cleared[i]);
        }
        assert forall|i: int| 0 <= i < tried.len() - 1 implies ls.contains(
            (#[trigger] tried[i]).0,
        ) by {
            assert(tried[i] == cleared_tries[i]);
        }
    }
}

/// The settings of `bootfs` that succeeded, and those that were tried, are what
/// makes the target the only one: each other pool that has a `bootfs` is
/// cleared, once and in order; then the target's pool is set, once, unless it
/// boots the target already; and no other is tried.
pub open spec fn one_bootfs_set(
    done: Seq<(Seq<char>, Seq<char>)>,
    tried: Seq<(Seq<char>, Seq<char>)>,
    ps: Seq<RootPool>,
    target: BeNames,
) -> bool {
    let ls = losers(ps, target.pool);
    let set: int = if pool_named(ps, target.pool) matches Some(p) && p.bootfs == Some(
        target.dataset,
    ) {
        0
    } else {
        1
    };
    &&& pool_named(ps, target.pool) is Some
    &&& done.len() == ls.len() + set
    &&& forall|i: int|
        0 <= i < ls.len() ==> (#[trigger] done[i]).0 == ls[i] && unsets(done[i].1)
    &&& set == 1 ==> done.last() == (target.pool, target.dataset)
    &&& tried.len() >= set
    &&& set == 1 ==> tried.last() == (target.pool, target.dataset)
    &&& forall|i: int| 0 <= i < tried.len() - set ==> ls.contains((#[trigger] tried[i]).0)
}

/// A run that succeeds sets `bootfs` on the root pools as [`one_bootfs_set`]
/// says: the others are cleared first, then the target is set, and nothing
/// else sets it before or after.
pub proof fn law_one_bootfs(w: World, name: Seq<char>)
    requires
        run_does(w, name).1 is Ok,
    ensures
        find_target_does(w, name).1 matches Ok((ps, target)) && one_bootfs_set(
            effects::settings(
                run_does(w, name).0,
                w.calls.len() as int,
                "zpool"@,
                "bootfs"@,
                false,
            ),
            effects::settings(
                run_does(w, name).0,
                w.calls.len() as int,
                "zpool"@,
                "bootfs"@,
                true,
            ),
            ps,
            target,
        ),
{
    reveal(run_does);
    let (p, q) = ("zpool"@, "bootfs"@);
    let (w1, found) = find_target_does(w, name);
    if let Ok((ps, target)) = found {
        let from = w.calls.len() as int;
        let w2 = warn_mirror_side_does(w1, target.dataset);
        let w3 = make_writable_does(w2, target).0;
        let w4 = move_bootfs_does(w3, ps, target).0;
        let (w5, listed) = list_bound_does(w4, ps);
        let key = Key { pool: target.pool, be: target.name };
        let end = toggle_does(w5, listed->Ok_0, key).0;
        lemma_run_steps(w, name);
        lemma_move_sets(w3, ps, target);
        lemma_front_steps(w, name, p, q, false);
        lemma_front_steps(w, name, p, q, true);
        lemma_settings_from(w3, w4, from, p, q, false);
        lemma_settings_from(w3, w4, from, p, q, true);
        effects::lemma_looked_sets_nothing(w4, w5, from, p, q, false);
        effects::lemma_looked_sets_nothing(w4, w5, from, p, q, true);
        lemma_toggle_keeps(w5, listed->Ok_0, key, from, false);
        lemma_toggle_keeps(w5, listed->Ok_0, key, from, true);
    }
}

/// The steps of a run follow each other.
proof fn lemma_run_steps(w: World, name: Seq<char>)
    requires
        find_target_does(w, name).1 is Ok,
    ensures
        ({
            let (w1, found) = find_target_does(w, name);
            let (ps, target) = found->Ok_0;
            let w2 = warn_mirror_side_does(w1, target.dataset);
            let w3 = make_writable_does(w2, target).0;
            let w4 = move_bootfs_does(w3, ps, target).0;
            let w5 = list_bound_does(w4, ps).0;
            &&& sub::only_looked(w, w1)
            &&& sub::only_looked(w1, w2)
            &&& sub::continues(w2, w3)
            &&& sub::continues(w3, w4)
            &&& sub::only_looked(w4, w5)
        }),
{
    let (w1, found) = find_target_does(w, name);
    let (ps, target) = found->Ok_0;
    lemma_find_looks(w, name);
    lemma_warn_looks(w1, target.dataset);
    let w2 = warn_mirror_side_does(w1, target.dataset);
    lemma_make_writable(w2, target);
    let w3 = make_writable_does(w2, target).0;
    lemma_move_bootfs(w3, ps, target);
    reveal(list_bound_does);
}

/// What comes before the first setting.
proof fn lemma_front_steps(w: World, name: Seq<char>, p: Seq<char>, q: Seq<char>, tried: bool)
    requires
        find_target_does(w, name).1 is Ok,
        counted(p, q),
    ensures
        ({
            let (w1, found) = find_target_does(w, name);
            let (ps, target) = found->Ok_0;
            let w2 = warn_mirror_side_does(w1, target.dataset);
            let w3 = make_writable_does(w2, target).0;
            effects::settings(w3, w.calls.len() as int, p, q, tried) == Seq::<
                (Seq<char>, Seq<char>),
            >::empty()
        }),
{
    let from = w.calls.len() as int;
    let (w1, found) = find_target_does(w, name);
    let (ps, target) = found->Ok_0;
    lemma_run_steps(w, name);
    let w2 = warn_mirror_side_does(w1, target.dataset);
    effects::lemma_looked_sets_nothing(w, w1, from, p, q, tried);
    effects::lemma_looked_sets_nothing(w1, w2, from, p, q, tried);
    lemma_writable_sets(w2, target, from, p, q, tried);
    assert(effects::settings(w, from, p, q, tried) =~= seq![]);
}

/// Settings may be counted from a later call where there were none before it.
proof fn lemma_settings_from(
    a: World,
    b: World,
    from: int,
    p: Seq<char>,
    q: Seq<char>,
    tried: bool,
)
    requires
        sub::continues(a, b),
        0 <= from <= a.calls.len(),
        effects::settings(a, from, p, q, tried) == Seq::<(Seq<char>, Seq<char>)>::empty(),
    ensures
        effects::settings(b, from, p, q, tried) == effects::settings(
            b,
            a.calls.len() as int,
            p,
            q,
            tried,
        ),
    decreases b.calls.len(),
{
    if b.calls.len() > a.calls.len() {
        let c = World { calls: b.calls.drop_last(), replies: b.replies };
        assert(sub::continues(a, c)) by {
            assert forall|i: int| 0 <= i < a.calls.len() implies #[trigger] c.calls[i]
                == a.calls[i] by {
                assert(b.calls[i] == a.calls[i]);
            }
        }
        lemma_settings_from(a, c, from, p, q, tried);
    } else {
        assert(b.calls =~= a.calls);
        assert(effects::settings(b, a.calls.len() as int, p, q, tried) =~= seq![]);
    }
}

/// Setting `canmount` does not set `bootfs`.
proof fn lemma_toggle_keeps(w: World, bs: Seq<Attached>, key: Key, from: int, tried: bool)
    requires
        from <= w.calls.len(),
    ensures
        from <= toggle_does(w, bs, key).0.calls.len(),
        effects::settings(toggle_does(w, bs, key).0, from, "zpool"@, "bootfs"@, tried)
            == effects::settings(w, from, "zpool"@, "bootfs"@, tried),
    decreases bs.len(),
{
    if bs.len() > 0 {
        reveal(toggle_one_does);
        lemma_names_differ();
        lemma_toggle_keeps(w, bs.drop_last(), key, from, tried);
        let w1 = toggle_does(w, bs.drop_last(), key).0;
        let b = bs.last();
        let want = wanted(b.bound_to, key);
        let (p, q) = ("zpool"@, "bootfs"@);
        let w2 = w1.say(
            "default: "@ + b.dataset + " canmount -> "@ + model::canmount_text(want) + " ("@ + (
            if b.bound_to.contains(key) {
                "in target"@
            } else {
                "not in target"@
            }) + ")"@,
        );
        effects::lemma_looked_sets_nothing(w1, w2, from, p, q, tried);
        lemma_set_adds(
            w2,
            "zfs"@,
            b.dataset,
            "canmount"@,
            model::canmount_text(want),
            from,
            p,
            q,
            tried,
        );
    }
}

/// After a run that succeeds the target is the only `bootfs` among the root
/// pools: its pool boots it next, and no other pool boots anything. (No
/// dataset has one of the two names that unset the property.)
pub proof fn law_one_bootfs_is_left(w: World, name: Seq<char>)
    requires
        run_does(w, name).1 is Ok,
    ensures
        find_target_does(w, name).1 matches Ok((ps, target)) && (!unsets(target.dataset)
            ==> forall|k: int|
            0 <= k < ps.len() ==> boots_after(
                effects::settings(
                    run_does(w, name).0,
                    w.calls.len() as int,
                    "zpool"@,
                    "bootfs"@,
                    false,
                ),
                (#[trigger] ps[k]).name,
                (pool_named(ps, ps[k].name)->0).bootfs,
            ) == (if ps[k].name == target.pool {
                Some(target.dataset)
            } else {
                None
            })),
{
    law_one_bootfs(w, name);
    let (ps, target) = find_target_does(w, name).1->Ok_0;
    let done = effects::settings(
        run_does(w, name).0,
        w.calls.len() as int,
        "zpool"@,
        "bootfs"@,
        false,
    );
    let ls = losers(ps, target.pool);
    if !unsets(target.dataset) {
        let cleared = done.take(ls.len() as int);
        let mine = pool_named(ps, target.pool)->0;
        assert forall|k: int| 0 <= k < ps.len() implies boots_after(
            done,
            (#[trigger] ps[k]).name,
            (pool_named(ps, ps[k].name)->0).bootfs,
        ) == (if ps[k].name == target.pool {
            Some(target.dataset)
        } else {
            None
        }) by {
            let pool = ps[k].name;
            let was = (pool_named(ps, pool)->0).bootfs;
            if mine.bootfs == Some(target.dataset) {
                assert(done =~= cleared);
            } else {
                assert(done.drop_last() =~= cleared);
            }
            if pool == target.pool {
                lemma_losers_are_others(ps, target.pool);
                lemma_untouched(cleared, pool, was);
            } else {
                lemma_named(ps, k);
                if ls.contains(pool) {
                    let i = choose|i: int| 0 <= i < ls.len() && ls[i] == pool;
                    assert(cleared[i] == done[i]);
                    lemma_cleared_boots_nothing(cleared, pool, was);
                } else {
                    if was is Some {
                        let j = lemma_named(ps, k);
                        lemma_is_loser(ps, target.pool, j);
                    }
                    lemma_untouched(cleared, pool, was);
                }
            }
        }
    }
}

proof fn lemma_losers_are_others(ps: Seq<RootPool>, target_pool: Seq<char>)
    ensures
        !losers(ps, target_pool).contains(target_pool),
    decreases ps.len(),
{
    if ps.len() > 0 {
        lemma_losers_are_others(ps.drop_last(), target_pool);
    }
}

proof fn lemma_is_loser(ps: Seq<RootPool>, target_pool: Seq<char>, k: int)
    requires
        0 <= k < ps.len(),
        ps[k].name != target_pool,
        ps[k].bootfs is Some,
    ensures
        losers(ps, target_pool).contains(ps[k].name),
    decreases ps.len(),
{
    let front = losers(ps.drop_last(), target_pool);
    let all = losers(ps, target_pool);
    if k < ps.len() - 1 {
        assert(ps.drop_last()[k] == ps[k]);
        lemma_is_loser(ps.drop_last(), target_pool, k);
        let i = choose|i: int| 0 <= i < front.len() && front[i] == ps[k].name;
        assert(all[i] == ps[k].name);
    } else {
        assert(all[front.len() as int] == ps[k].name);
    }
}

/// The first pool of a name that there is.
proof fn lemma_named(ps: Seq<RootPool>, k: int) -> (j: int)
    requires
        0 <= k < ps.len(),
    ensures
        0 <= j < ps.len(),
        pool_named(ps, ps[k].name) == Some(ps[j]),
        ps[j].name == ps[k].name,
    decreases ps.len(),
{
    if ps[0].name == ps[k].name {
        0
    } else {
        let rest = ps.drop_first();
        assert(rest[k - 1] == ps[k]);
        let j = lemma_named(rest, k - 1);
        assert(ps[j + 1] == rest[j]);
        j + 1
    }
}

proof fn lemma_untouched(
    done: Seq<(Seq<char>, Seq<char>)>,
    pool: Seq<char>,
    was: Option<Seq<char>>,
)
    requires
        forall|i: int| 0 <= i < done.len() ==> (#[trigger] done[i]).0 != pool,
    ensures
        boots_after(done, pool, was) == was,
    decreases done.len(),
{
    if done.len() > 0 {
        assert(done[done.len() - 1] == done.last());
        let front = done.drop_last();
        assert forall|i: int| 0 <= i < front.len() implies (#[trigger] front[i]).0 != pool by {
            assert(front[i] == done[i]);
        }
        lemma_untouched(front, pool, was);
    }
}

proof fn lemma_cleared_boots_nothing(
    done: Seq<(Seq<char>, Seq<char>)>,
    pool: Seq<char>,
    was: Option<Seq<char>>,
)
    requires
        exists|i: int| 0 <= i < done.len() && (#[trigger] done[i]).0 == pool,
        forall|i: int| 0 <= i < done.len() ==> unsets((#[trigger] done[i]).1),
    ensures
        boots_after(done, pool, was) is None,
    decreases done.len(),
{
    assert(done[done.len() - 1] == done.last());
    if done.last().0 != pool {
        let front = done.drop_last();
        let i = choose|i: int| 0 <= i < done.len() && (#[trigger] done[i]).0 == pool;
        assert(front[i] == done[i]);
        assert forall|i: int| 0 <= i < front.len() implies unsets((#[trigger] front[i]).1) by {
            assert(front[i] == done[i]);
        }
        lemma_cleared_boots_nothing(front, pool, was);
    }
}

/// What setting `canmount` adds to its settings.
proof fn lemma_toggle_sets(w: World, bs: Seq<Attached>, key: Key, from: int, tried: bool)
    requires
        from <= w.calls.len(),
        toggle_does(w, bs, key).1 is Ok,
    ensures
        from <= toggle_does(w, bs, key).0.calls.len(),
        effects::settings(toggle_does(w, bs, key).0, from, "zfs"@, "canmount"@, tried)
            == effects::settings(w, from, "zfs"@, "canmount"@, tried) + toggles(bs, key),
    decreases bs.len(),
{
    let (p, q) = ("zfs"@, "canmount"@);
    let had = effects::settings(w, from, p, q, tried);
    if bs.len() > 0 {
        reveal(toggle_one_does);
        lemma_toggle_sets(w, bs.drop_last(), key, from, tried);
        let w1 = toggle_does(w, bs.drop_last(), key).0;
        let b = bs.last();
        let want = wanted(b.bound_to, key);
        let w2 = w1.say(
            "default: "@ + b.dataset + " canmount -> "@ + model::canmount_text(want) + " ("@ + (
            if b.bound_to.contains(key) {
                "in target"@
            } else {
                "not in target"@
            }) + ")"@,
        );
        effects::lemma_looked_sets_nothing(w1, w2, from, p, q, tried);
        lemma_set_adds(
            w2,
            "zfs"@,
            b.dataset,
            "canmount"@,
            model::canmount_text(want),
            from,
            p,
            q,
            tried,
        );
        let front = toggles(bs.drop_last(), key);
        assert((had + front).push((b.dataset, model::canmount_text(want))) =~= had + front.push(
            (b.dataset, model::canmount_text(want)),
        ));
    } else {
        assert(had + toggles(bs, key) =~= had);
    }
}

/// A run that succeeds sets `canmount` exactly once on every attached dataset
/// where it reads otherwise than wanted, in the order they are listed, and
/// never on any other: `on` where the list holds the target, `off` elsewhere.
pub proof fn law_attached_are_set_once(w: World, name: Seq<char>, tried: bool)
    requires
        run_does(w, name).1 is Ok,
    ensures
        find_target_does(w, name).1 matches Ok((ps, target)) && attached_found(w, name) matches Ok(
            bs,
        ) && effects::settings(
            run_does(w, name).0,
            w.calls.len() as int,
            "zfs"@,
            "canmount"@,
            tried,
        ) == toggles(bs, Key { pool: target.pool, be: target.name }),
{
    reveal(run_does);
    let (p, q) = ("zfs"@, "canmount"@);
    let (w1, found) = find_target_does(w, name);
    if let Ok((ps, target)) = found {
        let from = w.calls.len() as int;
        let w2 = warn_mirror_side_does(w1, target.dataset);
        let w3 = make_writable_does(w2, target).0;
        let w4 = move_bootfs_does(w3, ps, target).0;
        let (w5, listed) = list_bound_does(w4, ps);
        let key = Key { pool: target.pool, be: target.name };
        lemma_run_steps(w, name);
        lemma_front_steps(w, name, p, q, tried);
        lemma_move_keeps(w3, ps, target, from, tried);
        effects::lemma_looked_sets_nothing(w4, w5, from, p, q, tried);
        lemma_toggle_sets(w5, listed->Ok_0, key, from, tried);
        assert(Seq::<(Seq<char>, Seq<char>)>::empty() + toggles(listed->Ok_0, key) =~= toggles(
            listed->Ok_0,
            key,
        ));
    }
}

/// Moving `bootfs` does not set `canmount`.
proof fn lemma_move_keeps(w: World, ps: Seq<RootPool>, target: BeNames, from: int, tried: bool)
    requires
        from <= w.calls.len(),
    ensures
        effects::settings(move_bootfs_does(w, ps, target).0, from, "zfs"@, "canmount"@, tried)
            == effects::settings(w, from, "zfs"@, "canmount"@, tried),
{
    reveal(move_bootfs_does);
    reveal(set_bootfs_does);
    lemma_names_differ();
    let (p, q) = ("zfs"@, "canmount"@);
    let w1 = clear_losers_does(w, ps, target.pool).0;
    lemma_losers_keep(w, ps, target.pool, from, tried);
    let dss = ex_active(ps, target.dataset);
    let w2 = retire_does(w1, dss);
    lemma_retire_sets(w1, dss, from, p, q, tried);
    let w3 = w2.say("default: setting bootfs="@ + target.dataset + " on pool "@ + target.pool);
    effects::lemma_looked_sets_nothing(w2, w3, from, p, q, tried);
    lemma_set_adds(w3, "zpool"@, target.pool, "bootfs"@, target.dataset, from, p, q, tried);
    let w4 = w2.say(
        "default: "@ + text::quoted_text(target.name) + " is already active on pool "@
            + target.pool + " — nothing to do"@,
    );
    effects::lemma_looked_sets_nothing(w2, w4, from, p, q, tried);
}

/// Of the datasets given, those are picked that carry `zboot:attached-to`, each with
/// what the table says of it.
pub proof fn law_attached_are_picked(names: Seq<Seq<char>>, rows: Rows)
    ensures
        forall|x: Attached| #[trigger] attached_among(names, rows).contains(x) <==> exists|i: int| 0 <= i < names.len() && x.dataset == (#[trigger] names[i]) && facts::last_attached(rows, (#[trigger] names[i])) == Some(x.bound_to) && x.canmount == facts::last_canmount(rows, (#[trigger] names[i])),
    decreases names.len(),
{
    if names.len() > 0 {
        let front = names.drop_last();
        law_attached_are_picked(front, rows);
        let before = attached_among(front, rows);
        let all = attached_among(names, rows);
        assert forall|x: Attached| #[trigger] all.contains(x) <==> exists|i: int| 0 <= i < names.len() && x.dataset == (#[trigger] names[i]) && facts::last_attached(rows, (#[trigger] names[i])) == Some(x.bound_to) && x.canmount == facts::last_canmount(rows, (#[trigger] names[i])) by {
            if all.contains(x) {
                let k = choose|k: int| 0 <= k < all.len() && all[k] == x;
                if k < before.len() {
                    assert(before[k] == x);
                    assert(before.contains(x));
                    let i = choose|i: int| 0 <= i < front.len() && x.dataset == (#[trigger] front[i]) && facts::last_attached(rows, (#[trigger] front[i])) == Some(x.bound_to) && x.canmount == facts::last_canmount(rows, (#[trigger] front[i]));
                    assert(names[i] == front[i]);
                } else {
                    assert(x.dataset == names[names.len() - 1] && facts::last_attached(rows, names[names.len() - 1]) == Some(x.bound_to) && x.canmount == facts::last_canmount(rows, names[names.len() - 1]));
                }
            }
            if exists|i: int| 0 <= i < names.len() && x.dataset == (#[trigger] names[i]) && facts::last_attached(rows, (#[trigger] names[i])) == Some(x.bound_to) && x.canmount == facts::last_canmount(rows, (#[trigger] names[i])) {
                let i = choose|i: int| 0 <= i < names.len() && x.dataset == (#[trigger] names[i]) && facts::last_attached(rows, (#[trigger] names[i])) == Some(x.bound_to) && x.canmount == facts::last_canmount(rows, (#[trigger] names[i]));
                if i < front.len() {
                    assert(front[i] == names[i]);
                    assert(before.contains(x));
                    let k = choose|k: int| 0 <= k < before.len() && before[k] == x;
                    assert(all[k] == x);
                } else {
                    assert(names[i] == names.last());
                    assert(all[all.len() - 1] == x);
                }
            }
        }
    }
}

/// Those of the pools are root pools that the role table says so of.
pub proof fn law_root_pools_are_picked(ps: Seq<PoolFacts>, rows: Rows)
    ensures
        forall|x: RootPool| #[trigger] root_pools(ps, rows).contains(x) <==> exists|i: int| 0 <= i < ps.len() && (#[trigger] ps[i]).name == x.name && (#[trigger] ps[i]).bootfs == x.bootfs && says_root(rows, x.name),
    decreases ps.len(),
{
    if ps.len() > 0 {
        let front = ps.drop_last();
        law_root_pools_are_picked(front, rows);
        let before = root_pools(front, rows);
        let all = root_pools(ps, rows);
        assert forall|x: RootPool| #[trigger] all.contains(x) <==> exists|i: int| 0 <= i < ps.len() && (#[trigger] ps[i]).name == x.name && (#[trigger] ps[i]).bootfs == x.bootfs && says_root(rows, x.name) by {
            if all.contains(x) {
                let k = choose|k: int| 0 <= k < all.len() && all[k] == x;
                if k < before.len() {
                    assert(before[k] == x);
                    assert(before.contains(x));
                    let i = choose|i: int| 0 <= i < front.len() && (#[trigger] front[i]).name == x.name && (#[trigger] front[i]).bootfs == x.bootfs && says_root(rows, x.name);
                    assert(ps[i] == front[i]);
                } else {
                    assert(ps[ps.len() - 1].name == x.name && ps[ps.len() - 1].bootfs == x.bootfs && says_root(rows, x.name));
                }
            }
            if exists|i: int| 0 <= i < ps.len() && (#[trigger] ps[i]).name == x.name && (#[trigger] ps[i]).bootfs == x.bootfs && says_root(rows, x.name) {
                let i = choose|i: int| 0 <= i < ps.len() && (#[trigger] ps[i]).name == x.name && (#[trigger] ps[i]).bootfs == x.bootfs && says_root(rows, x.name);
                if i < front.len() {
                    assert(front[i] == ps[i]);
                    assert(before.contains(x));
                    let k = choose|k: int| 0 <= k < before.len() && before[k] == x;
                    assert(all[k] == x);
                } else {
                    assert(ps[i] == ps.last());
                    assert(all[all.len() - 1] == x);
                }
            }
        }
    }
}

/// The listing holds every dataset that the table attaches to anything, each
/// with the list and the `canmount` that the table gives it, and no other; and
/// it holds each once.
pub proof fn law_every_attached_is_listed(rows: Rows)
    ensures
        forall|x: Attached| #[trigger]
            attached_in(rows).contains(x) <==> facts::last_attached(rows, x.dataset) == Some(
                x.bound_to,
            ) && x.canmount == facts::last_canmount(rows, x.dataset),
        forall|i: int, j: int|
            0 <= i < j < attached_in(rows).len() ==> (#[trigger] attached_in(rows)[i]).dataset != (
            #[trigger] attached_in(rows)[j]).dataset,
{
    let names = order::sorted_set(row_names(rows));
    order::law_sorted_set(row_names(rows));
    law_attached_are_picked(names, rows);
    assert forall|x: Attached| #[trigger]
        attached_in(rows).contains(x) <==> facts::last_attached(rows, x.dataset) == Some(x.bound_to)
            && x.canmount == facts::last_canmount(rows, x.dataset) by {
        if facts::last_attached(rows, x.dataset) is Some {
            facts::law_latest_row_counts(rows, x.dataset);
            facts::law_some_row_is_latest(rows, x.dataset, facts::Topic::Attached);
            let k = choose|k: int| #[trigger]
                facts::latest(rows, k, x.dataset, facts::Topic::Attached);
            assert(row_names(rows)[k] == x.dataset);
            assert(row_names(rows).contains(x.dataset));
            assert(names.contains(x.dataset));
            let i = choose|i: int| 0 <= i < names.len() && names[i] == x.dataset;
            assert(names[i] == x.dataset);
        }
    }
    lemma_attached_once(names, rows);
}

proof fn lemma_attached_once(names: Seq<Seq<char>>, rows: Rows)
    requires
        order::strictly_ascending(names),
    ensures
        forall|i: int, j: int|
            0 <= i < j < attached_among(names, rows).len() ==> (#[trigger] attached_among(
                names,
                rows,
            )[i]).dataset != (#[trigger] attached_among(names, rows)[j]).dataset,
    decreases names.len(),
{
    if names.len() > 0 {
        let front = names.drop_last();
        assert(order::strictly_ascending(front)) by {
            assert forall|i: int, j: int| 0 <= i < j < front.len() implies text::less(
                #[trigger] front[i],
                #[trigger] front[j],
            ) by {
                assert(front[i] == names[i] && front[j] == names[j]);
            }
        }
        lemma_attached_once(front, rows);
        law_attached_are_picked(front, rows);
        let before = attached_among(front, rows);
        let all = attached_among(names, rows);
        assert forall|i: int, j: int| 0 <= i < j < all.len() implies (#[trigger] all[i]).dataset
            != (#[trigger] all[j]).dataset by {
            assert(before[i] == all[i]);
            if j < before.len() {
                assert(before[j] == all[j]);
            } else {
                assert(before.contains(before[i]));
                let m = choose|m: int|
                    0 <= m < front.len() && before[i].dataset == (#[trigger] front[m])
                        && facts::last_attached(rows, front[m]) == Some(before[i].bound_to)
                        && before[i].canmount == facts::last_canmount(rows, front[m]);
                assert(text::less(names[m], names[names.len() - 1]));
                text::lemma_less_irreflexive(names[m]);
            }
        }
    }
}

/// The call that lists the attached datasets of pools.
pub open spec fn attached_call(ps: Seq<RootPool>) -> Call {
    Call::Run {
        prog: "zfs"@,
        args: seq!["get"@, "-Hpr"@, "-o"@, "name,property,value"@, "zboot:attached-to,canmount"@]
            + Seq::new(ps.len(), |i: int| ps[i].name),
    }
}

/// What `canmount` is to read of a dataset that is attached to these.
pub open spec fn due(bound_to: Seq<Key>, key: Key) -> Canmount {
    if bound_to.contains(key) {
        Canmount::On
    } else {
        Canmount::Off
    }
}

/// The settings bring `canmount` of every dataset that the table attaches to
/// anything to what is due, and set it nowhere else and never twice.
pub open spec fn brought_to_what_is_due(
    done: Seq<(Seq<char>, Seq<char>)>,
    rows: Rows,
    key: Key,
) -> bool {
    &&& forall|ds: Seq<char>|
        (#[trigger] facts::last_attached(rows, ds)) matches Some(l) ==> {
            if facts::last_canmount(rows, ds) == Some(due(l, key)) {
                forall|i: int| 0 <= i < done.len() ==> (#[trigger] done[i]).0 != ds
            } else {
                done.contains((ds, model::canmount_text(due(l, key))))
            }
        }
    &&& forall|i: int|
        0 <= i < done.len() ==> facts::last_attached(rows, (#[trigger] done[i]).0) is Some
    &&& forall|i: int, j: int|
        0 <= i < j < done.len() ==> (#[trigger] done[i]).0 != (#[trigger] done[j]).0
}

/// A run that succeeds has listed the attached datasets of all the root pools
/// at once; and each that the table tells of has `canmount` as is due: `on`
/// where its list holds the target, `off` where it does not.
pub proof fn law_attached_follow_the_target(w: World, name: Seq<char>)
    requires
        run_does(w, name).1 is Ok,
    ensures
        ({
            let end = run_does(w, name).0;
            find_target_does(w, name).1 matches Ok((ps, target)) && exists|n: int, rows: Rows|
                w.calls.len() <= n < end.calls.len() && #[trigger] table_at(
                    end,
                    n,
                    attached_call(ps),
                    rows,
                ) && brought_to_what_is_due(
                    effects::settings(end, w.calls.len() as int, "zfs"@, "canmount"@, true),
                    rows,
                    Key { pool: target.pool, be: target.name },
                )
        }),
{
    reveal(run_does);
    reveal(list_bound_does);
    reveal(find_target_does);
    law_attached_are_set_once(w, name, true);
    let (w1, found) = find_target_does(w, name);
    let (ps, target) = found->Ok_0;
    let w2 = warn_mirror_side_does(w1, target.dataset);
    let w3 = make_writable_does(w2, target).0;
    let w4 = move_bootfs_does(w3, ps, target).0;
    let (w5, listed) = list_bound_does(w4, ps);
    let key = Key { pool: target.pool, be: target.name };
    let end = toggle_does(w5, listed->Ok_0, key).0;
    lemma_run_steps(w, name);
    let n = w4.calls.len() as int;
    assert(root_names(ps) =~= Seq::new(ps.len(), |i: int| ps[i].name));
    let rows = model::props_of((w.replies)(n as nat).stdout)->Ok_0;
    lemma_toggle(w5, listed->Ok_0, key);
    effects::lemma_continues(w, w1, w2);
    effects::lemma_continues(w, w2, w3);
    effects::lemma_continues(w, w3, w4);
    assert(end.calls[n] == w5.calls[n]);
    assert(table_at(end, n, attached_call(ps), rows));
    law_every_attached_is_listed(rows);
    lemma_toggles(attached_in(rows), key);
    let done = toggles(attached_in(rows), key);
    let bs = attached_in(rows);
    assert forall|ds: Seq<char>| (#[trigger] facts::last_attached(rows, ds)) is Some implies {
        let l = facts::last_attached(rows, ds)->0;
        if facts::last_canmount(rows, ds) == Some(due(l, key)) {
            forall|i: int| 0 <= i < done.len() ==> (#[trigger] done[i]).0 != ds
        } else {
            done.contains((ds, model::canmount_text(due(l, key))))
        }
    } by {
        let l = facts::last_attached(rows, ds)->0;
        let x = Attached { dataset: ds, bound_to: l, canmount: facts::last_canmount(rows, ds) };
        assert(bs.contains(x));
        let k = choose|k: int| 0 <= k < bs.len() && bs[k] == x;
        if x.canmount == Some(due(l, key)) {
            assert forall|i: int| 0 <= i < done.len() implies (#[trigger] done[i]).0 != ds by {
                assert(done.contains(done[i]));
                let m = choose|m: int| 0 <= m < bs.len() && toggled(#[trigger] bs[m], done[i], key);
                assert(bs.contains(bs[m]));
            }
        } else {
            assert(toggled(bs[k], (ds, model::canmount_text(due(l, key))), key));
        }
    }
    assert forall|i: int| 0 <= i < done.len() implies facts::last_attached(
        rows,
        (#[trigger] done[i]).0,
    ) is Some by {
        assert(done.contains(done[i]));
        let m = choose|m: int| 0 <= m < bs.len() && toggled(#[trigger] bs[m], done[i], key);
        assert(bs.contains(bs[m]));
    }
    lemma_toggled_once(bs, key);
}

/// The call of a number printed a table of properties.
pub open spec fn table_at(w: World, n: int, c: Call, rows: Rows) -> bool {
    &&& w.calls[n] == c
    &&& effects::succeeded(w, n)
    &&& model::props_of((w.replies)(n as nat).stdout) == Ok::<Rows, Seq<char>>(rows)
}

/// A setting is the one that an attached dataset calls for.
spec fn toggled(b: Attached, s: (Seq<char>, Seq<char>), key: Key) -> bool {
    &&& b.canmount != Some(due(b.bound_to, key))
    &&& s == (b.dataset, model::canmount_text(due(b.bound_to, key)))
}

proof fn lemma_toggled_once(bs: Seq<Attached>, key: Key)
    requires
        forall|i: int, j: int|
            0 <= i < j < bs.len() ==> (#[trigger] bs[i]).dataset != (#[trigger] bs[j]).dataset,
    ensures
        forall|i: int, j: int|
            0 <= i < j < toggles(bs, key).len() ==> (#[trigger] toggles(bs, key)[i]).0 != (
            #[trigger] toggles(bs, key)[j]).0,
    decreases bs.len(),
{
    if bs.len() > 0 {
        let front = bs.drop_last();
        lemma_toggled_once(front, key);
        lemma_toggles(front, key);
        let before = toggles(front, key);
        let all = toggles(bs, key);
        assert forall|i: int, j: int| 0 <= i < j < all.len() implies (#[trigger] all[i]).0 != (
        #[trigger] all[j]).0 by {
            assert(before[i] == all[i]);
            if j < before.len() {
                assert(before[j] == all[j]);
            } else {
                assert(before.contains(before[i]));
                let m = choose|m: int|
                    0 <= m < front.len() && toggled(#[trigger] front[m], before[i], key);
                assert(bs[m] == front[m]);
                assert(bs[m].dataset != bs[bs.len() - 1].dataset);
            }
        }
    }
}

/// Each dataset that reads otherwise than is due is set, and none else.
proof fn lemma_toggles(bs: Seq<Attached>, key: Key)
    ensures
        forall|x: (Seq<char>, Seq<char>)| #[trigger] toggles(bs, key).contains(x) <==> exists|i: int| 0 <= i < bs.len() && toggled((#[trigger] bs[i]), x, key),
    decreases bs.len(),
{
    if bs.len() > 0 {
        let front = bs.drop_last();
        lemma_toggles(front, key);
        let before = toggles(front, key);
        let all = toggles(bs, key);
        assert forall|x: (Seq<char>, Seq<char>)| #[trigger] all.contains(x) <==> exists|i: int| 0 <= i < bs.len() && toggled((#[trigger] bs[i]), x, key) by {
            if all.contains(x) {
                let k = choose|k: int| 0 <= k < all.len() && all[k] == x;
                if k < before.len() {
                    assert(before[k] == x);
                    assert(before.contains(x));
                    let i = choose|i: int| 0 <= i < front.len() && toggled((#[trigger] front[i]), x, key);
                    assert(bs[i] == front[i]);
                } else {
                    assert(toggled(bs[bs.len() - 1], x, key));
                }
            }
            if exists|i: int| 0 <= i < bs.len() && toggled((#[trigger] bs[i]), x, key) {
                let i = choose|i: int| 0 <= i < bs.len() && toggled((#[trigger] bs[i]), x, key);
                if i < front.len() {
                    assert(front[i] == bs[i]);
                    assert(before.contains(x));
                    let k = choose|k: int| 0 <= k < before.len() && before[k] == x;
                    assert(all[k] == x);
                } else {
                    assert(bs[i] == bs.last());
                    assert(all[all.len() - 1] == x);
                }
            }
        }
    }
}

/// The environments chosen among are all marked ones on the pools.
pub proof fn law_bes_on(rows: Rows, names: Seq<Seq<char>>)
    ensures
        forall|x: BeNames| #[trigger] bes_on(rows, names).contains(x) <==> exists|i: int| 0 <= i < rows.len() && x == names_at((#[trigger] rows[i]).0) && (#[trigger] rows[i]).1 == Prop::Be(true) && names.contains(text::before((#[trigger] rows[i]).0, '/')),
    decreases rows.len(),
{
    if rows.len() > 0 {
        let front = rows.drop_last();
        law_bes_on(front, names);
        let before = bes_on(front, names);
        let all = bes_on(rows, names);
        assert forall|x: BeNames| #[trigger] all.contains(x) <==> exists|i: int| 0 <= i < rows.len() && x == names_at((#[trigger] rows[i]).0) && (#[trigger] rows[i]).1 == Prop::Be(true) && names.contains(text::before((#[trigger] rows[i]).0, '/')) by {
            if all.contains(x) {
                let k = choose|k: int| 0 <= k < all.len() && all[k] == x;
                if k < before.len() {
                    assert(before[k] == x);
                    assert(before.contains(x));
                    let i = choose|i: int| 0 <= i < front.len() && x == names_at((#[trigger] front[i]).0) && (#[trigger] front[i]).1 == Prop::Be(true) && names.contains(text::before((#[trigger] front[i]).0, '/'));
                    assert(rows[i] == front[i]);
                } else {
                    assert(x == names_at(rows[rows.len() - 1].0) && rows[rows.len() - 1].1 == Prop::Be(true) && names.contains(text::before(rows[rows.len() - 1].0, '/')));
                }
            }
            if exists|i: int| 0 <= i < rows.len() && x == names_at((#[trigger] rows[i]).0) && (#[trigger] rows[i]).1 == Prop::Be(true) && names.contains(text::before((#[trigger] rows[i]).0, '/')) {
                let i = choose|i: int| 0 <= i < rows.len() && x == names_at((#[trigger] rows[i]).0) && (#[trigger] rows[i]).1 == Prop::Be(true) && names.contains(text::before((#[trigger] rows[i]).0, '/'));
                if i < front.len() {
                    assert(front[i] == rows[i]);
                    assert(before.contains(x));
                    let k = choose|k: int| 0 <= k < before.len() && before[k] == x;
                    assert(all[k] == x);
                } else {
                    assert(rows[i] == rows.last());
                    assert(all[all.len() - 1] == x);
                }
            }
        }
    }
}

/// Every other `bootfs` of a root pool is one that stops being active.
pub proof fn law_ex_active(ps: Seq<RootPool>, target: Seq<char>)
    ensures
        forall|x: Seq<char>| #[trigger] ex_active(ps, target).contains(x) <==> exists|i: int| 0 <= i < ps.len() && (#[trigger] ps[i]).bootfs == Some(x) && x != target,
    decreases ps.len(),
{
    if ps.len() > 0 {
        let front = ps.drop_last();
        law_ex_active(front, target);
        let before = ex_active(front, target);
        let all = ex_active(ps, target);
        assert forall|x: Seq<char>| #[trigger] all.contains(x) <==> exists|i: int| 0 <= i < ps.len() && (#[trigger] ps[i]).bootfs == Some(x) && x != target by {
            if all.contains(x) {
                let k = choose|k: int| 0 <= k < all.len() && all[k] == x;
                if k < before.len() {
                    assert(before[k] == x);
                    assert(before.contains(x));
                    let i = choose|i: int| 0 <= i < front.len() && (#[trigger] front[i]).bootfs == Some(x) && x != target;
                    assert(ps[i] == front[i]);
                } else {
                    assert(ps[ps.len() - 1].bootfs == Some(x) && x != target);
                }
            }
            if exists|i: int| 0 <= i < ps.len() && (#[trigger] ps[i]).bootfs == Some(x) && x != target {
                let i = choose|i: int| 0 <= i < ps.len() && (#[trigger] ps[i]).bootfs == Some(x) && x != target;
                if i < front.len() {
                    assert(front[i] == ps[i]);
                    assert(before.contains(x));
                    let k = choose|k: int| 0 <= k < before.len() && before[k] == x;
                    assert(all[k] == x);
                } else {
                    assert(ps[i] == ps.last());
                    assert(all[all.len() - 1] == x);
                }
            }
        }
    }
}

/// Every other root pool that has a `bootfs` loses it.
pub proof fn law_losers(ps: Seq<RootPool>, target_pool: Seq<char>)
    ensures
        forall|x: Seq<char>| #[trigger] losers(ps, target_pool).contains(x) <==> exists|i: int| 0 <= i < ps.len() && x == (#[trigger] ps[i]).name && (#[trigger] ps[i]).bootfs is Some && x != target_pool,
    decreases ps.len(),
{
    if ps.len() > 0 {
        let front = ps.drop_last();
        law_losers(front, target_pool);
        let before = losers(front, target_pool);
        let all = losers(ps, target_pool);
        assert forall|x: Seq<char>| #[trigger] all.contains(x) <==> exists|i: int| 0 <= i < ps.len() && x == (#[trigger] ps[i]).name && (#[trigger] ps[i]).bootfs is Some && x != target_pool by {
            if all.contains(x) {
                let k = choose|k: int| 0 <= k < all.len() && all[k] == x;
                if k < before.len() {
                    assert(before[k] == x);
                    assert(before.contains(x));
                    let i = choose|i: int| 0 <= i < front.len() && x == (#[trigger] front[i]).name && (#[trigger] front[i]).bootfs is Some && x != target_pool;
                    assert(ps[i] == front[i]);
                } else {
                    assert(x == ps[ps.len() - 1].name && ps[ps.len() - 1].bootfs is Some && x != target_pool);
                }
            }
            if exists|i: int| 0 <= i < ps.len() && x == (#[trigger] ps[i]).name && (#[trigger] ps[i]).bootfs is Some && x != target_pool {
                let i = choose|i: int| 0 <= i < ps.len() && x == (#[trigger] ps[i]).name && (#[trigger] ps[i]).bootfs is Some && x != target_pool;
                if i < front.len() {
                    assert(front[i] == ps[i]);
                    assert(before.contains(x));
                    let k = choose|k: int| 0 <= k < before.len() && before[k] == x;
                    assert(all[k] == x);
                } else {
                    assert(ps[i] == ps.last());
                    assert(all[all.len() - 1] == x);
                }
            }
        }
    }
}

/// A target on an imported pool was asked whether it is read-only, and where it
/// was it is no longer.
pub open spec fn made_writable(a: World, b: World, ds: Seq<char>) -> bool {
    exists|n: int|
        a.calls.len() <= n < b.calls.len() && #[trigger] b.calls[n] == effects::get_call(
            ds,
            "readonly"@,
        ) && (effects::read_as(b, n, "on"@) ==> effects::ran(
            a,
            b,
            "zfs"@,
            seq!["set"@, "readonly=off"@, ds],
        ))
}

/// What is going to boot can be written to.
pub proof fn law_target_is_made_writable(w: World, target: BeNames)
    requires
        make_writable_does(w, target).1 is Ok,
        effects::succeeded(w, w.calls.len() as int),
        pools::full_lines(text::lines_of(w.reply().stdout)).contains(target.pool),
    ensures
        made_writable(w, make_writable_does(w, target).0, target.dataset),
{
    reveal(make_writable_does);
    reveal(pools::currently_imported_does);
    reveal(set_does);
    let end = make_writable_does(w, target).0;
    let w1 = pools::is_pool_imported_does(w, target.pool).0;
    pools::law_pool_is_made_writable(w1, target.pool);
    let w2 = pools::ensure_rw_does(w1, target.pool).0;
    let n = w2.calls.len() as int;
    let w3 = readonly_does(w2, target.dataset).0;
    assert(w3.calls[n] == effects::get_call(target.dataset, "readonly"@));
    assert(sub::continues(w, w1));
    effects::lemma_continues(w, w1, w2);
    assert(sub::continues(w3, end));
    assert(end.calls[n] == w3.calls[n]);
    if effects::read_as(end, n, "on"@) {
        let m = end.calls.len() - 1;
        assert("readonly"@ + "="@ + "off"@ =~= "readonly=off"@) by {
            reveal_strlit("readonly");
            reveal_strlit("=");
            reveal_strlit("off");
            reveal_strlit("readonly=off");
        }
        assert(end.calls[m] == Call::Run {
            prog: "zfs"@,
            args: seq!["set"@, "readonly=off"@, target.dataset],
        });
    }
}

/// The call that closes an environment for writing.
pub open spec fn closing(ds: Seq<char>) -> Call {
    Call::Run { prog: "zfs"@, args: seq!["set"@, "readonly=on"@, ds] }
}

/// An environment was closed for writing, unless its pool was found not to be
/// imported or it was found to be mounted.
pub open spec fn retired(a: World, b: World, ds: Seq<char>) -> bool {
    exists|n: int|
        a.calls.len() <= n < b.calls.len() && #[trigger] retired_at(a, b, n, ds)
}

/// The n-th call asked for the pools that are imported, and so on.
pub open spec fn retired_at(a: World, b: World, n: int, ds: Seq<char>) -> bool {
    let there = pools::full_lines(text::lines_of((b.replies)(n as nat).stdout));
    let y = (b.replies)((n + 1) as nat);
    &&& b.calls[n] == (Call::Run {
        prog: "zpool"@,
        args: seq!["list"@, "-H"@, "-o"@, "name"@],
    })
    &&& (b.replies)(n as nat).failure is None && there.contains(text::before(ds, '/')) ==> {
        &&& n + 1 < b.calls.len()
        &&& b.calls[n + 1] == (Call::ReadFile { path: "/proc/self/mounts"@ })
        &&& y.failure is None && mounted_in(text::lines_of(y.stdout), ds) || sub::called(
            a,
            b,
            closing(ds),
        )
    }
}

proof fn lemma_retired_within(a: World, b: World, c: World, d: World, ds: Seq<char>)
    requires
        sub::continues(a, b),
        retired(b, c, ds),
        sub::continues(c, d),
    ensures
        retired(a, d, ds),
{
    let n = choose|n: int|
        b.calls.len() <= n < c.calls.len() && #[trigger] retired_at(b, c, n, ds);
    assert(d.calls[n] == c.calls[n]);
    if n + 1 < c.calls.len() {
        assert(d.calls[n + 1] == c.calls[n + 1]);
    }
    if sub::called(b, c, closing(ds)) {
        effects::lemma_called_within(a, b, c, d, closing(ds));
    }
    assert(retired_at(a, d, n, ds));
}

proof fn lemma_retired(w: World, ds: Seq<char>)
    ensures
        sub::continues(w, retire_one_does(w, ds)),
        retired(w, retire_one_does(w, ds), ds),
{
    reveal(retire_one_does);
    reveal(pools::currently_imported_does);
    reveal(set_does);
    let end = retire_one_does(w, ds);
    let n = w.calls.len() as int;
    assert("readonly"@ + "="@ + "on"@ =~= "readonly=on"@) by {
        reveal_strlit("readonly");
        reveal_strlit("=");
        reveal_strlit("on");
        reveal_strlit("readonly=on");
    }
    let m = end.calls.len() - 1;
    let there = pools::full_lines(text::lines_of(w.reply().stdout));
    if w.reply().failure is None && there.contains(text::before(ds, '/')) {
        let y = (w.replies)((n + 1) as nat);
        if !(y.failure is None && mounted_in(text::lines_of(y.stdout), ds)) {
            assert(end.calls[m] == closing(ds));
        }
    }
    assert(retired_at(w, end, n, ds));
}

/// Every environment that stops being active is retired.
pub proof fn law_every_ex_active_is_retired(w: World, dss: Seq<Seq<char>>)
    ensures
        sub::continues(w, retire_does(w, dss)),
        forall|i: int|
            0 <= i < dss.len() ==> retired(w, retire_does(w, dss), #[trigger] dss[i]),
    decreases dss.len(),
{
    assert(sub::continues(w, w));
    if dss.len() > 0 {
        let front = dss.drop_last();
        law_every_ex_active_is_retired(w, front);
        let w1 = retire_does(w, front);
        let end = retire_does(w, dss);
        lemma_retired(w1, dss.last());
        effects::lemma_continues(w, w1, end);
        assert(sub::continues(end, end));
        assert forall|i: int| 0 <= i < dss.len() implies retired(w, end, #[trigger] dss[i]) by {
            if i < front.len() {
                assert(front[i] == dss[i]);
                lemma_retired_within(w, w, w1, end, dss[i]);
            } else {
                lemma_retired_within(w, w1, end, end, dss[i]);
            }
        }
    }
}

} // verus!
