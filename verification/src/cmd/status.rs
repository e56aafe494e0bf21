//! `status`: what there is — pools, the forest of boot environments, the
//! datasets bound to them, and those whose boot environments are gone.
//!
//! The forest is drawn with connectors; the depth follows what was cloned from
//! what, siblings stand by name.

use vstd::prelude::*;

use crate::effects;
use crate::error::Error;
use crate::facts;
use crate::facts::Rows;
use crate::model;
use crate::model::{
    Be, BootEnvironment, BoundKey, BoundList, Forest, Key, Mount, Mountpoint, PairStatus,
    Pool, PoolFacts, PoolRole, Property,
};
use crate::order;
use crate::pools;
use crate::state;
use crate::sub;
use crate::sub::{Call, Runner, World};
use crate::text;
use crate::tree;
use crate::tree::{TreeRow, Twig};
use crate::zfs_ops;

verus! {

/// Arguments of `status`.
#[derive(Debug)]
pub struct StatusArgs {
    /// Leave root pools that lie on local disks as they are; else they are
    /// imported read-only, so that the view is complete.
    pub no_import: bool,
}

// ---------------------------------------------------------------------------
// What there is
// ---------------------------------------------------------------------------

/// A dataset that carries `zboot:attached-to`.
#[derive(Debug, Clone)]
pub struct BoundDataset {
    pub dataset: String,
    pub bound_to: BoundList,
}

/// A dataset that carries `zboot:attached-to`, by what is known of it.
pub struct Bound {
    pub dataset: Seq<char>,
    pub keys: Seq<Key>,
}

impl DeepView for BoundDataset {
    type V = Bound;

    open spec fn deep_view(&self) -> Bound {
        Bound { dataset: self.dataset@, keys: self.bound_to.deep_view() }
    }
}

/// All that `status` shows.
#[derive(Debug, Clone)]
pub struct StateSnapshot {
    pub pools: Vec<Pool>,
    pub forest: Forest,
    /// The datasets that carry `zboot:attached-to`, orphans among them.
    pub bound_datasets: Vec<BoundDataset>,
}

/// All that `status` shows, by what is known of it.
pub struct State {
    pub pools: Seq<PoolFacts>,
    pub bes: Seq<Be>,
    pub bound: Seq<Bound>,
}

impl DeepView for StateSnapshot {
    type V = State;

    open spec fn deep_view(&self) -> State {
        State {
            pools: self.pools.deep_view(),
            bes: self.forest.deep_view(),
            bound: self.bound_datasets.deep_view(),
        }
    }
}

/// Those of the datasets that are bound to something, in their order.
pub open spec fn bound_among(names: Seq<Seq<char>>, rows: Rows) -> Seq<Bound>
    decreases names.len(),
{
    if names.len() == 0 {
        seq![]
    } else {
        let front = bound_among(names.drop_last(), rows);
        match facts::last_attached(rows, names.last()) {
            Some(keys) => if keys.len() > 0 {
                front.push(Bound { dataset: names.last(), keys })
            } else {
                front
            },
            None => front,
        }
    }
}

fn bound_from_props(names: &Vec<String>, props: &Vec<(String, Property)>) -> (r: Vec<BoundDataset>)
    ensures
        r.deep_view() == bound_among(names.deep_view(), props.deep_view()),
{
    let ghost all = names.deep_view();
    let mut out: Vec<BoundDataset> = Vec::new();
    let mut i: usize = 0;
    assert(out.deep_view() =~= bound_among(all.take(0), props.deep_view()));
    while i < names.len()
        invariant
            i <= names@.len(),
            all == names.deep_view(),
            out.deep_view() == bound_among(all.take(i as int), props.deep_view()),
        decreases names@.len() - i,
    {
        let ghost so_far = out.deep_view();
        proof {
            assert(all.take(i + 1).drop_last() =~= all.take(i as int));
            assert(all.take(i + 1).last() == names@[i as int]@);
        }
        if let Some(l) = facts::find_attached(props, names[i].as_str()) {
            if !l.is_empty() {
                let b = BoundDataset { dataset: names[i].clone(), bound_to: l };
                out.push(b);
                assert(out.deep_view() =~= so_far.push(b.deep_view()));
            }
        }
        i = i + 1;
    }
    assert(all.take(i as int) =~= all);
    out
}

/// Reads the boot environments and the bound datasets out of a property table.
pub fn bes_and_bound_from_props(names: &Vec<String>, props: &Vec<(String, Property)>) -> (r: (
    Vec<BootEnvironment>,
    Vec<BoundDataset>,
))
    ensures
        r.0.deep_view() == state::bes_among(names.deep_view(), props.deep_view()),
        r.1.deep_view() == bound_among(names.deep_view(), props.deep_view()),
{
    (state::bes_from_props(names, props), bound_from_props(names, props))
}

/// Splits `pool/some/path/leaf` into the pool and the leaf.
pub fn split_dataset_pool_and_name<'a>(dataset: &'a str) -> (r: (&'a str, &'a str))
    ensures
        r.0@ == text::before(dataset@, '/'),
        r.1@ == text::after_last(dataset@, '/'),
{
    (text::head(dataset, '/'), text::tail(dataset, '/'))
}

/// The properties that are asked of each dataset.
pub open spec fn wanted_props() -> Seq<char> {
    "origin,mountpoint,canmount,zboot:be,zboot:attached-to,zboot:created-by"@
}

/// Looks at all there is.
#[verifier::opaque]
pub open spec fn collect_does(w: World) -> (World, Result<State, Seq<char>>) {
    let (w1, ps) = state::pools_does(w);
    match ps {
        Err(m) => (w1, Err(m)),
        Ok(ps) => {
            let (w2, ds) = state::datasets_does(w1, wanted_props());
            match ds {
                Err(m) => (w2, Err(m)),
                Ok(d) => (
                    w2,
                    Ok(
                        State {
                            pools: ps,
                            bes: state::bes_among(d.0, d.1),
                            bound: bound_among(d.0, d.1),
                        },
                    ),
                ),
            }
        },
    }
}

fn collect_state<R: Runner>(r: &mut R) -> (res: Result<StateSnapshot, Error>)
    ensures
        sub::did(final(r).world(), res) == collect_does(old(r).world()),
{
    proof {
        reveal(collect_does);
    }
    let ps = match state::collect_pools(r) {
        Err(e) => return Err(e),
        Ok(ps) => ps,
    };
    match state::collect_datasets(
        r,
        "origin,mountpoint,canmount,zboot:be,zboot:attached-to,zboot:created-by",
    ) {
        Err(e) => Err(e),
        Ok((names, rows)) => {
            let (bes, bound) = bes_and_bound_from_props(&names, &rows);
            Ok(
                StateSnapshot {
                    pools: ps,
                    forest: Forest::from_origins(bes),
                    bound_datasets: bound,
                },
            )
        },
    }
}

// ---------------------------------------------------------------------------
// Pools
// ---------------------------------------------------------------------------

/// `-` for what is not set.
pub open spec fn or_hyphen(o: Option<Seq<char>>) -> Seq<char> {
    match o {
        Some(s) => s,
        None => "-"@,
    }
}

/// The line of a pool.
pub open spec fn pool_line(p: PoolFacts) -> Seq<char> {
    "  "@ + p.name + "  role="@ + (match p.role {
        Some(PoolRole::Root) => "root"@,
        None => "-"@,
    }) + "  bootfs="@ + or_hyphen(p.bootfs)
}

/// The section on pools.
pub open spec fn pools_section(ps: Seq<PoolFacts>) -> Seq<Seq<char>> {
    if ps.len() == 0 {
        seq!["Pools:"@, "  (none)"@]
    } else {
        seq!["Pools:"@] + Seq::new(ps.len(), |i: int| pool_line(ps[i]))
    }
}

fn render_pools(ps: &Vec<Pool>) -> (r: Vec<String>)
    ensures
        r.deep_view() == pools_section(ps.deep_view()),
{
    let mut out: Vec<String> = Vec::new();
    text::push_text(&mut out, "Pools:");
    if ps.len() == 0 {
        text::push_text(&mut out, "  (none)");
        assert(out.deep_view() =~= pools_section(ps.deep_view()));
        return out;
    }
    let ghost goal = pools_section(ps.deep_view());
    let mut i: usize = 0;
    assert(out.deep_view() =~= goal.take(1));
    while i < ps.len()
        invariant
            i <= ps@.len(),
            ps@.len() > 0,
            goal == pools_section(ps.deep_view()),
            out.deep_view() == goal.take(i + 1),
        decreases ps@.len() - i,
    {
        let role: &str = match ps[i].role {
            Some(PoolRole::Root) => "root",
            None => "-",
        };
        let bootfs: &str = match &ps[i].bootfs {
            Some(b) => b.as_str(),
            None => "-",
        };
        let line: String = text::cat6(
            "  ",
            ps[i].name.as_str(),
            "  role=",
            role,
            "  bootfs=",
            bootfs,
        );
        proof {
            assert(ps.deep_view()[i as int] == ps@[i as int].deep_view());
            assert(line@ == pool_line(ps.deep_view()[i as int]));
            assert(goal.take(i + 2) =~= goal.take(i + 1).push(goal[i + 1]));
        }
        text::push_text(&mut out, line.as_str());
        i = i + 1;
    }
    assert(goal.take(i + 1) =~= goal);
    out
}

// ---------------------------------------------------------------------------
// One boot environment
// ---------------------------------------------------------------------------

/// The first pool of a name.
pub open spec fn pool_named(ps: Seq<PoolFacts>, name: Seq<char>) -> Option<PoolFacts>
    decreases ps.len(),
{
    if ps.len() == 0 {
        None
    } else if ps[0].name == name {
        Some(ps[0])
    } else {
        pool_named(ps.drop_first(), name)
    }
}

/// `b` is what its pool boots next.
pub open spec fn boots_next(ps: Seq<PoolFacts>, b: Be) -> bool {
    match pool_named(ps, b.pool) {
        Some(p) => p.bootfs == Some(b.dataset),
        None => false,
    }
}

/// Whether the pool of a boot environment boots it next.
pub fn is_active(ps: &Vec<Pool>, pool: &str, dataset: &str) -> (r: bool)
    ensures
        r == (pool_named(ps.deep_view(), pool@) matches Some(p) && p.bootfs == Some(dataset@)),
{
    let ghost all = ps.deep_view();
    let mut i: usize = 0;
    assert(all.skip(0) =~= all);
    while i < ps.len()
        invariant
            i <= ps@.len(),
            all == ps.deep_view(),
            pool_named(all, pool@) == pool_named(all.skip(i as int), pool@),
        decreases ps@.len() - i,
    {
        proof {
            assert(all.skip(i as int)[0] == ps@[i as int].deep_view());
            assert(all.skip(i as int).drop_first() =~= all.skip(i + 1));
        }
        if text::eq(ps[i].name.as_str(), pool) {
            return text::opt_is(&ps[i].bootfs, dataset);
        }
        i = i + 1;
    }
    false
}

/// The marker of what boots next, and of the rest.
pub open spec fn active_marker(ps: Seq<PoolFacts>, b: Be) -> Seq<char> {
    if boots_next(ps, b) {
        "* "@
    } else {
        "  "@
    }
}

/// `[rw]` or `[ro]`, by the dataset's `readonly`; nothing where it cannot be
/// read.
pub open spec fn rw_marker(v: Result<Seq<char>, Seq<char>>) -> Seq<char> {
    match v {
        Ok(t) => if t == "on"@ {
            " [ro]"@
        } else if t == "off"@ {
            " [rw]"@
        } else {
            ""@
        },
        Err(_) => ""@,
    }
}

fn rw_marker_for<R: Runner>(r: &mut R, ds: &str) -> (res: &'static str)
    ensures
        final(r).world() == zfs_ops::dataset_property_does(old(r).world(), ds@, "readonly"@).0,
        res@ == rw_marker(zfs_ops::dataset_property_does(old(r).world(), ds@, "readonly"@).1),
{
    match zfs_ops::dataset_property(r, ds, "readonly") {
        Ok(t) => if text::eq(t.as_str(), "on") {
            " [ro]"
        } else if text::eq(t.as_str(), "off") {
            " [rw]"
        } else {
            ""
        },
        Err(_) => "",
    }
}

/// `[primary]` or `[mirror]`, for a boot environment with a peer.
pub open spec fn primary_marker_does(w: World, ds: Seq<char>) -> (World, Seq<char>) {
    let (w1, peer) = zfs_ops::read_pair_pointer_does(w, ds);
    match peer {
        Ok(Some(_)) => {
            let (w2, v) = zfs_ops::dataset_property_does(w1, ds, "zboot:primary"@);
            (
                w2,
                match v {
                    Ok(t) => if t == "on"@ {
                        " [primary]"@
                    } else if t == "off"@ {
                        " [mirror]"@
                    } else {
                        ""@
                    },
                    Err(_) => ""@,
                },
            )
        },
        _ => (w1, ""@),
    }
}

fn primary_marker_for<R: Runner>(r: &mut R, ds: &str) -> (res: &'static str)
    ensures
        (final(r).world(), res@) == primary_marker_does(old(r).world(), ds@),
{
    match zfs_ops::read_pair_pointer(r, ds) {
        Ok(Some(_)) => {
            match zfs_ops::dataset_property(r, ds, "zboot:primary") {
                Ok(t) => if text::eq(t.as_str(), "on") {
                    " [primary]"
                } else if text::eq(t.as_str(), "off") {
                    " [mirror]"
                } else {
                    ""
                },
                Err(_) => "",
            }
        },
        _ => "",
    }
}

/// Compares a boot environment with its peer.
pub open spec fn compare_does(w: World, ds: Seq<char>, peer: Key) -> (World, PairStatus) {
    let peer_ds = model::pair_text(peer);
    let (w1, here) = zfs_ops::guid_set_does(w, ds);
    let local = zfs_ops::or_no_guids(here);
    let (w2, there) = zfs_ops::dataset_exists_does(w1, peer_ds);
    if zfs_ops::exists_or_not(there) {
        let (w3, g) = zfs_ops::guid_set_does(w2, peer_ds);
        (w3, model::status_of(local, Some(zfs_ops::or_no_guids(g)), true))
    } else {
        let (w3, name) = zfs_ops::pool_property_does(w2, peer.pool, "name"@);
        (
            w3,
            model::status_of(
                local,
                if name is Ok {
                    Some(seq![])
                } else {
                    None
                },
                false,
            ),
        )
    }
}

fn compare<R: Runner>(r: &mut R, ds: &str, peer: &model::PairPointer) -> (res: PairStatus)
    ensures
        (final(r).world(), res) == compare_does(old(r).world(), ds@, peer.deep_view()),
{
    let peer_ds: String = peer.render();
    let local = zfs_ops::guids_or_none(r, ds);
    if zfs_ops::is_there(r, peer_ds.as_str()) {
        let there = zfs_ops::guids_or_none(r, peer_ds.as_str());
        PairStatus::from_guids(&local, Some(&there), true)
    } else {
        match zfs_ops::pool_property(r, peer.pool.as_str(), "name") {
            Ok(_) => {
                let none: Vec<String> = Vec::new();
                assert(none.deep_view() =~= seq![]);
                PairStatus::from_guids(&local, Some(&none), false)
            },
            Err(_) => PairStatus::from_guids(&local, None, false),
        }
    }
}

/// The peer of a boot environment and how the two stand; nothing where it has
/// no peer.
pub open spec fn mirror_line_does(w: World, ds: Seq<char>) -> (World, Option<Seq<char>>) {
    let (w1, peer) = zfs_ops::read_pair_pointer_does(w, ds);
    match peer {
        Ok(Some(k)) => {
            let (w2, status) = compare_does(w1, ds, k);
            let (w3, dirty) = zfs_ops::dirty_bytes_does(w2, ds);
            (w3, Some(model::pair_text(k) + " "@ + model::status_line(status, dirty)))
        },
        _ => (w1, None),
    }
}

fn render_mirror_line<R: Runner>(r: &mut R, ds: &str) -> (res: Option<String>)
    ensures
        (final(r).world(), res.deep_view()) == mirror_line_does(old(r).world(), ds@),
{
    match zfs_ops::read_pair_pointer(r, ds) {
        Ok(Some(peer)) => {
            let status = compare(r, ds, &peer);
            let dirty = zfs_ops::dirty_bytes_since_latest(r, ds);
            let shown: String = peer.render();
            let marker: String = status.render(dirty);
            Some(text::cat3(shown.as_str(), " ", marker.as_str()))
        },
        _ => None,
    }
}

/// A mount point as it is shown.
pub open spec fn mount_text(m: Mount) -> Seq<char> {
    match m {
        Mount::Nowhere => "none"@,
        Mount::Legacy => "legacy"@,
        Mount::Path(p) => p,
    }
}

/// A mount point as it is shown.
pub fn render_mountpoint(m: &Mountpoint) -> (r: String)
    ensures
        r@ == mount_text(m.deep_view()),
{
    match m {
        Mountpoint::Nowhere => "none".to_owned(),
        Mountpoint::Legacy => "legacy".to_owned(),
        Mountpoint::Path(p) => p.clone(),
    }
}

/// The lines on where a boot environment lies.
pub open spec fn place_lines(b: Be, cp: Seq<char>) -> Seq<Seq<char>> {
    let first = seq![cp + "    dataset: "@ + b.dataset];
    match b.origin {
        Some(s) => first.push(cp + "    origin:  "@ + model::snap_text(s)),
        None => first,
    }
}

/// The lines on how a boot environment mounts.
pub open spec fn mount_lines(b: Be, cp: Seq<char>) -> Seq<Seq<char>> {
    let first = match b.mountpoint {
        Some(m) => seq![cp + "    mountpoint: "@ + mount_text(m)],
        None => seq![],
    };
    match b.canmount {
        Some(c) => first.push(cp + "    canmount: "@ + model::canmount_text(c)),
        None => first,
    }
}

fn render_place(b: &BootEnvironment, cp: &str) -> (r: Vec<String>)
    ensures
        r.deep_view() == place_lines(b.deep_view(), cp@),
{
    let mut out: Vec<String> = Vec::new();
    let line: String = text::cat3(cp, "    dataset: ", b.dataset.as_str());
    text::push_text(&mut out, line.as_str());
    assert(out.deep_view() =~= seq![line@]);
    if let Some(s) = &b.origin {
        let shown: String = s.render();
        let line: String = text::cat3(cp, "    origin:  ", shown.as_str());
        text::push_text(&mut out, line.as_str());
    }
    out
}

fn render_mount(b: &BootEnvironment, cp: &str) -> (r: Vec<String>)
    ensures
        r.deep_view() == mount_lines(b.deep_view(), cp@),
{
    let mut out: Vec<String> = Vec::new();
    assert(out.deep_view() =~= seq![]);
    if let Some(m) = &b.mountpoint {
        let shown: String = render_mountpoint(m);
        let line: String = text::cat3(cp, "    mountpoint: ", shown.as_str());
        text::push_text(&mut out, line.as_str());
        assert(out.deep_view() =~= seq![line@]);
    }
    if let Some(c) = &b.canmount {
        let line: String = text::cat3(cp, "    canmount: ", c.render());
        text::push_text(&mut out, line.as_str());
    }
    out
}

/// The line of a dataset that is bound to the boot environment `key`.
pub open spec fn bound_line(d: Bound, key: Key, cp: Seq<char>) -> Seq<char> {
    let others = model::key_texts(model::without_key(d.keys, key));
    cp + "      - "@ + d.dataset + (if others.len() == 0 {
        ""@
    } else {
        " (shared with "@ + text::joined(others, ", "@) + ")"@
    })
}

/// The lines of those of the datasets that are bound to `key`.
pub open spec fn bound_rows(ds: Seq<Bound>, key: Key, cp: Seq<char>) -> Seq<Seq<char>>
    decreases ds.len(),
{
    if ds.len() == 0 {
        seq![]
    } else {
        let front = bound_rows(ds.drop_last(), key, cp);
        if ds.last().keys.contains(key) {
            front.push(bound_line(ds.last(), key, cp))
        } else {
            front
        }
    }
}

/// The lines on the datasets that are bound to `key`.
pub open spec fn bound_lines(ds: Seq<Bound>, key: Key, cp: Seq<char>) -> Seq<Seq<char>> {
    let rows = bound_rows(ds, key, cp);
    if rows.len() == 0 {
        rows
    } else {
        seq![cp + "    bound:"@] + rows
    }
}

fn render_bound_line(d: &BoundDataset, key: &BoundKey, cp: &str) -> (r: String)
    ensures
        r@ == bound_line(d.deep_view(), key.deep_view(), cp@),
{
    let mut rest = d.bound_to.copy();
    rest.remove(key);
    let others = rest.renders();
    let suffix: String = if others.len() == 0 {
        "".to_owned()
    } else {
        let shown: String = text::join(&others, ", ");
        text::cat3(" (shared with ", shown.as_str(), ")")
    };
    text::cat4(cp, "      - ", d.dataset.as_str(), suffix.as_str())
}

fn render_bound(ds: &Vec<BoundDataset>, key: &BoundKey, cp: &str) -> (r: Vec<String>)
    ensures
        r.deep_view() == bound_lines(ds.deep_view(), key.deep_view(), cp@),
{
    let ghost all = ds.deep_view();
    let ghost k = key.deep_view();
    let ghost head = seq![cp@ + "    bound:"@];
    let mut out: Vec<String> = Vec::new();
    let first: String = text::cat2(cp, "    bound:");
    text::push_text(&mut out, first.as_str());
    let mut i: usize = 0;
    assert(out.deep_view() =~= head + bound_rows(all.take(0), k, cp@));
    while i < ds.len()
        invariant
            i <= ds@.len(),
            all == ds.deep_view(),
            k == key.deep_view(),
            head.len() == 1,
            out.deep_view() == head + bound_rows(all.take(i as int), k, cp@),
            out@.len() == 1 + bound_rows(all.take(i as int), k, cp@).len(),
        decreases ds@.len() - i,
    {
        proof {
            assert(all.take(i + 1).drop_last() =~= all.take(i as int));
            assert(all.take(i + 1).last() == ds@[i as int].deep_view());
        }
        if ds[i].bound_to.contains(key) {
            let line: String = render_bound_line(&ds[i], key, cp);
            text::push_text(&mut out, line.as_str());
            proof {
                let rows = bound_rows(all.take(i as int), k, cp@);
                assert((head + rows).push(line@) =~= head + rows.push(line@));
            }
        }
        i = i + 1;
    }
    assert(all.take(i as int) =~= all);
    if out.len() == 1 {
        let none: Vec<String> = Vec::new();
        assert(none.deep_view() =~= bound_lines(all, k, cp@));
        return none;
    }
    out
}

/// Shows one boot environment, and looks at its dataset for that.
#[verifier::opaque]
pub open spec fn node_does(w: World, ps: Seq<PoolFacts>, bound: Seq<Bound>, t: Twig) -> (
    World,
    Result<(), Seq<char>>,
) {
    let b = t.be;
    let cp = tree::deeper(t.prefix, t.last);
    let (w1, readonly) = zfs_ops::dataset_property_does(w, b.dataset, "readonly"@);
    let (w2, primary) = primary_marker_does(w1, b.dataset);
    let w3 = w2.say(
        t.prefix + tree::connector(t.last) + active_marker(ps, b) + b.name + rw_marker(readonly)
            + primary,
    );
    if w2.unit() is Err {
        (w3, w2.unit())
    } else {
        let (w4, placed) = sub::tell_all_does(w3, place_lines(b, cp));
        if placed is Err {
            (w4, placed)
        } else {
            let (w5, line) = mirror_line_does(w4, b.dataset);
            let (w6, mirrored) = match line {
                Some(l) => (w5.say(cp + "    mirror:  "@ + l), w5.unit()),
                None => (w5, Ok(())),
            };
            if mirrored is Err {
                (w6, mirrored)
            } else {
                let (w7, mounts) = sub::tell_all_does(w6, mount_lines(b, cp));
                if mounts is Err {
                    (w7, mounts)
                } else {
                    sub::tell_all_does(
                        w7,
                        bound_lines(bound, Key { pool: b.pool, be: b.name }, cp),
                    )
                }
            }
        }
    }
}

fn render_be_node<'a, R: Runner>(r: &mut R, snapshot: &StateSnapshot, t: &TreeRow<'a>) -> (res:
    Result<(), Error>)
    ensures
        sub::did(final(r).world(), res) == node_does(
            old(r).world(),
            snapshot.deep_view().pools,
            snapshot.deep_view().bound,
            t.deep_view(),
        ),
{
    proof {
        reveal(node_does);
    }
    let b = t.be;
    let cp: String = tree::deepen(t.prefix.as_str(), t.last);
    let rw: &str = rw_marker_for(r, b.dataset.as_str());
    let primary: &str = primary_marker_for(r, b.dataset.as_str());
    let active: &str = if is_active(&snapshot.pools, b.pool.as_str(), b.dataset.as_str()) {
        "* "
    } else {
        "  "
    };
    let line: String = text::cat6(
        t.prefix.as_str(),
        tree::connector_text(t.last),
        active,
        b.name.as_str(),
        rw,
        primary,
    );
    if let Err(e) = r.tell(line.as_str()) {
        return Err(e);
    }
    let place = render_place(b, cp.as_str());
    if let Err(e) = sub::tell_all(r, &place) {
        return Err(e);
    }
    if let Some(l) = render_mirror_line(r, b.dataset.as_str()) {
        let line: String = text::cat3(cp.as_str(), "    mirror:  ", l.as_str());
        if let Err(e) = r.tell(line.as_str()) {
            return Err(e);
        }
    }
    let mount = render_mount(b, cp.as_str());
    if let Err(e) = sub::tell_all(r, &mount) {
        return Err(e);
    }
    let key = BoundKey::new(b.pool.as_str(), b.name.as_str());
    let bound = render_bound(&snapshot.bound_datasets, &key, cp.as_str());
    sub::tell_all(r, &bound)
}

// ---------------------------------------------------------------------------
// The forest
// ---------------------------------------------------------------------------

/// Shows boot environments in their places.
pub open spec fn nodes_does(
    w: World,
    ps: Seq<PoolFacts>,
    bound: Seq<Bound>,
    ts: Seq<Twig>,
) -> (World, Result<(), Seq<char>>)
    decreases ts.len(),
{
    if ts.len() == 0 {
        (w, Ok(()))
    } else {
        let (w1, so_far) = nodes_does(w, ps, bound, ts.drop_last());
        if so_far is Err {
            (w1, so_far)
        } else {
            node_does(w1, ps, bound, ts.last())
        }
    }
}

proof fn lemma_nodes_stop(w: World, ps: Seq<PoolFacts>, bound: Seq<Bound>, ts: Seq<Twig>, i: int)
    requires
        0 <= i <= ts.len(),
        nodes_does(w, ps, bound, ts.take(i)).1 is Err,
    ensures
        nodes_does(w, ps, bound, ts) == nodes_does(w, ps, bound, ts.take(i)),
    decreases ts.len() - i,
{
    if i < ts.len() {
        assert(ts.take(i + 1).drop_last() =~= ts.take(i));
        lemma_nodes_stop(w, ps, bound, ts, i + 1);
    } else {
        assert(ts.take(i) =~= ts);
    }
}

fn render_nodes<'a, R: Runner>(r: &mut R, snapshot: &StateSnapshot, ts: &Vec<TreeRow<'a>>) -> (res:
    Result<(), Error>)
    ensures
        sub::did(final(r).world(), res) == nodes_does(
            old(r).world(),
            snapshot.deep_view().pools,
            snapshot.deep_view().bound,
            ts.deep_view(),
        ),
{
    let ghost all = ts.deep_view();
    let ghost s = snapshot.deep_view();
    let mut i: usize = 0;
    assert(all.take(0) =~= seq![]);
    while i < ts.len()
        invariant
            i <= ts@.len(),
            all == ts.deep_view(),
            s == snapshot.deep_view(),
            (r.world(), Ok::<(), Seq<char>>(())) == nodes_does(
                old(r).world(),
                s.pools,
                s.bound,
                all.take(i as int),
            ),
        decreases ts@.len() - i,
    {
        proof {
            assert(all.take(i + 1).drop_last() =~= all.take(i as int));
            assert(all.take(i + 1).last() == ts@[i as int].deep_view());
        }
        if let Err(e) = render_be_node(r, snapshot, &ts[i]) {
            proof {
                lemma_nodes_stop(old(r).world(), s.pools, s.bound, all, i + 1);
            }
            return Err(e);
        }
        i = i + 1;
    }
    assert(all.take(i as int) =~= all);
    Ok(())
}

/// The roots of the forest on a pool, by name.
pub open spec fn roots_on(bes: Seq<Be>, pool: Seq<char>) -> Seq<Be> {
    tree::by_name(model::roots_of(bes).filter(|b: Be| b.pool == pool))
}

fn find_roots_on<'a>(forest: &'a Forest, pool: &str) -> (r: Vec<&'a BootEnvironment>)
    ensures
        r.deep_view() == roots_on(forest.deep_view(), pool@),
{
    let roots = forest.roots();
    let ghost all = roots.deep_view();
    let ghost keep = |b: Be| b.pool == pool@;
    let mut out: Vec<&BootEnvironment> = Vec::new();
    let mut i: usize = 0;
    proof {
        reveal(Seq::filter);
    }
    assert(out.deep_view() =~= all.take(0).filter(keep));
    while i < roots.len()
        invariant
            i <= roots@.len(),
            all == roots.deep_view(),
            keep == (|b: Be| b.pool == pool@),
            out.deep_view() == all.take(i as int).filter(keep),
        decreases roots@.len() - i,
    {
        let ghost so_far = out.deep_view();
        proof {
            reveal(Seq::filter);
            assert(all.take(i + 1).drop_last() =~= all.take(i as int));
            assert(all.take(i + 1).last() == roots@[i as int].deep_view());
        }
        let b: &BootEnvironment = roots[i];
        if text::eq(b.pool.as_str(), pool) {
            out.push(b);
            assert(out.deep_view() =~= so_far.push(b.deep_view()));
        }
        i = i + 1;
    }
    assert(all.take(i as int) =~= all);
    tree::sort_by_name(out)
}

/// The boot environments of a pool in their places.
pub open spec fn pool_twigs(bes: Seq<Be>, pool: Seq<char>) -> Seq<Twig> {
    tree::thicket(bes, roots_on(bes, pool), "    "@, false, bes.len())
}

/// Shows the boot environments of pools, one pool after the other.
pub open spec fn pools_of_bes_does(w: World, s: State, names: Seq<Seq<char>>) -> (World, Result<
    (),
    Seq<char>,
>)
    decreases names.len(),
{
    if names.len() == 0 {
        (w, Ok(()))
    } else {
        let (w1, so_far) = pools_of_bes_does(w, s, names.drop_last());
        if so_far is Err {
            (w1, so_far)
        } else {
            let w2 = w1.say("  pool "@ + names.last() + ":"@);
            if w1.unit() is Err {
                (w2, w1.unit())
            } else {
                nodes_does(w2, s.pools, s.bound, pool_twigs(s.bes, names.last()))
            }
        }
    }
}

proof fn lemma_pools_stop(w: World, s: State, names: Seq<Seq<char>>, i: int)
    requires
        0 <= i <= names.len(),
        pools_of_bes_does(w, s, names.take(i)).1 is Err,
    ensures
        pools_of_bes_does(w, s, names) == pools_of_bes_does(w, s, names.take(i)),
    decreases names.len() - i,
{
    if i < names.len() {
        assert(names.take(i + 1).drop_last() =~= names.take(i));
        lemma_pools_stop(w, s, names, i + 1);
    } else {
        assert(names.take(i) =~= names);
    }
}

fn render_pools_of_bes<R: Runner>(r: &mut R, snapshot: &StateSnapshot, names: &Vec<String>) -> (res:
    Result<(), Error>)
    ensures
        sub::did(final(r).world(), res) == pools_of_bes_does(
            old(r).world(),
            snapshot.deep_view(),
            names.deep_view(),
        ),
{
    let ghost all = names.deep_view();
    let ghost s = snapshot.deep_view();
    let mut i: usize = 0;
    assert(all.take(0) =~= seq![]);
    while i < names.len()
        invariant
            i <= names@.len(),
            all == names.deep_view(),
            s == snapshot.deep_view(),
            (r.world(), Ok::<(), Seq<char>>(())) == pools_of_bes_does(
                old(r).world(),
                s,
                all.take(i as int),
            ),
        decreases names@.len() - i,
    {
        proof {
            assert(all.take(i + 1).drop_last() =~= all.take(i as int));
            assert(all.take(i + 1).last() == names@[i as int]@);
        }
        let line: String = text::cat3("  pool ", names[i].as_str(), ":");
        if let Err(e) = r.tell(line.as_str()) {
            proof {
                lemma_pools_stop(old(r).world(), s, all, i + 1);
            }
            return Err(e);
        }
        let roots = find_roots_on(&snapshot.forest, names[i].as_str());
        let mut rows: Vec<TreeRow> = Vec::new();
        assert(rows.deep_view() =~= seq![]);
        tree::grow_all(
            &snapshot.forest,
            &roots,
            0,
            "    ",
            false,
            snapshot.forest.bes.len(),
            &mut rows,
        );
        proof {
            assert(roots.deep_view().skip(0) =~= roots.deep_view());
            assert(rows.deep_view() =~= pool_twigs(s.bes, names@[i as int]@));
        }
        if let Err(e) = render_nodes(r, snapshot, &rows) {
            proof {
                lemma_pools_stop(old(r).world(), s, all, i + 1);
            }
            return Err(e);
        }
        i = i + 1;
    }
    assert(all.take(i as int) =~= all);
    Ok(())
}

/// The pools that hold a boot environment.
pub open spec fn be_pools(bes: Seq<Be>) -> Seq<Seq<char>> {
    Seq::new(bes.len(), |i: int| bes[i].pool)
}

/// The pools that hold a boot environment, as often as they hold one.
pub fn pools_of_bes(bes: &Vec<BootEnvironment>) -> (r: Vec<String>)
    ensures
        r.deep_view() == be_pools(bes.deep_view()),
{
    let mut out: Vec<String> = Vec::new();
    let mut i: usize = 0;
    assert(out.deep_view() =~= be_pools(bes.deep_view()).take(0));
    while i < bes.len()
        invariant
            i <= bes@.len(),
            out.deep_view() == be_pools(bes.deep_view()).take(i as int),
        decreases bes@.len() - i,
    {
        text::push_text(&mut out, bes[i].pool.as_str());
        assert(be_pools(bes.deep_view()).take(i + 1) =~= be_pools(bes.deep_view()).take(
            i as int,
        ).push(bes@[i as int].pool@));
        i = i + 1;
    }
    assert(be_pools(bes.deep_view()).take(i as int) =~= be_pools(bes.deep_view()));
    out
}

/// Shows the section on boot environments.
pub open spec fn forest_does(w: World, s: State) -> (World, Result<(), Seq<char>>) {
    let (w1, told) = sub::tell_all_does(w, forest_head(s));
    if told is Err || s.bes.len() == 0 {
        (w1, told)
    } else {
        pools_of_bes_does(w1, s, order::sorted_set(be_pools(s.bes)))
    }
}

/// What stands over the boot environments, or in their place.
pub open spec fn forest_head(s: State) -> Seq<Seq<char>> {
    if s.bes.len() == 0 {
        seq![""@, "Boot environments:"@, "  (none)"@]
    } else {
        seq![""@, "Boot environments:"@]
    }
}

fn render_forest<R: Runner>(r: &mut R, snapshot: &StateSnapshot) -> (res: Result<(), Error>)
    ensures
        sub::did(final(r).world(), res) == forest_does(old(r).world(), snapshot.deep_view()),
{
    let none: bool = snapshot.forest.is_empty();
    let mut head: Vec<String> = Vec::new();
    text::push_text(&mut head, "");
    text::push_text(&mut head, "Boot environments:");
    if none {
        text::push_text(&mut head, "  (none)");
    }
    assert(head.deep_view() =~= forest_head(snapshot.deep_view()));
    if let Err(e) = sub::tell_all(r, &head) {
        return Err(e);
    }
    if none {
        return Ok(());
    }
    let listed = pools_of_bes(&snapshot.forest.bes);
    let names = order::sort_set(&listed);
    render_pools_of_bes(r, snapshot, &names)
}

// ---------------------------------------------------------------------------
// Orphans
// ---------------------------------------------------------------------------

/// The boot environment `k` is there.
pub open spec fn extant(bes: Seq<Be>, k: Key) -> bool {
    exists|i: int| 0 <= i < bes.len() && (#[trigger] bes[i]).pool == k.pool && bes[i].name == k.be
}

/// No boot environment that the dataset is bound to is there.
pub open spec fn orphaned(bes: Seq<Be>, d: Bound) -> bool {
    forall|j: int| 0 <= j < d.keys.len() ==> !extant(bes, #[trigger] d.keys[j])
}

fn is_extant(bes: &Vec<BootEnvironment>, k: &BoundKey) -> (r: bool)
    ensures
        r == extant(bes.deep_view(), k.deep_view()),
{
    let ghost all = bes.deep_view();
    let mut i: usize = 0;
    while i < bes.len()
        invariant
            i <= bes@.len(),
            all == bes.deep_view(),
            forall|j: int|
                0 <= j < i ==> !((#[trigger] all[j]).pool == k.deep_view().pool && all[j].name
                    == k.deep_view().be),
        decreases bes@.len() - i,
    {
        assert(all[i as int] == bes@[i as int].deep_view());
        if text::eq(bes[i].pool.as_str(), k.pool.as_str()) && text::eq(
            bes[i].name.as_str(),
            k.be.as_str(),
        ) {
            return true;
        }
        i = i + 1;
    }
    false
}

fn is_orphaned(bes: &Vec<BootEnvironment>, d: &BoundDataset) -> (r: bool)
    ensures
        r == orphaned(bes.deep_view(), d.deep_view()),
{
    let ghost keys = d.bound_to.deep_view();
    let mut j: usize = 0;
    while j < d.bound_to.0.len()
        invariant
            j <= d.bound_to.0@.len(),
            keys == d.bound_to.deep_view(),
            keys.len() == d.bound_to.0@.len(),
            forall|k: int| 0 <= k < j ==> !extant(bes.deep_view(), #[trigger] keys[k]),
        decreases d.bound_to.0@.len() - j,
    {
        assert(keys[j as int] == d.bound_to.0@[j as int].deep_view());
        if is_extant(bes, &d.bound_to.0[j]) {
            assert(extant(bes.deep_view(), d.deep_view().keys[j as int]));
            return false;
        }
        j = j + 1;
    }
    true
}

/// The line of an orphan.
pub open spec fn orphan_line(d: Bound) -> Seq<char> {
    "  [!] "@ + d.dataset + " (stale: "@ + text::joined(model::key_texts(d.keys), ","@) + ")"@
}

/// The lines of the orphans.
pub open spec fn orphan_rows(bes: Seq<Be>, ds: Seq<Bound>) -> Seq<Seq<char>>
    decreases ds.len(),
{
    if ds.len() == 0 {
        seq![]
    } else {
        let front = orphan_rows(bes, ds.drop_last());
        if orphaned(bes, ds.last()) {
            front.push(orphan_line(ds.last()))
        } else {
            front
        }
    }
}

/// The section on orphans; there is none where there are no orphans.
pub open spec fn orphans_section(bes: Seq<Be>, ds: Seq<Bound>) -> Seq<Seq<char>> {
    let rows = orphan_rows(bes, ds);
    if rows.len() == 0 {
        rows
    } else {
        seq![
            ""@,
            "Orphans:"@,
            "  (datasets whose `zboot:attached-to` references no extant BE — remove with `zfs destroy` if no longer needed)"@,
        ] + rows
    }
}

fn render_orphans(bes: &Vec<BootEnvironment>, ds: &Vec<BoundDataset>) -> (r: Vec<String>)
    ensures
        r.deep_view() == orphans_section(bes.deep_view(), ds.deep_view()),
{
    let ghost all = ds.deep_view();
    let ghost b = bes.deep_view();
    let ghost head = seq![
        ""@,
        "Orphans:"@,
        "  (datasets whose `zboot:attached-to` references no extant BE — remove with `zfs destroy` if no longer needed)"@,
    ];
    let mut out: Vec<String> = Vec::new();
    text::push_text(&mut out, "");
    text::push_text(&mut out, "Orphans:");
    text::push_text(
        &mut out,
        "  (datasets whose `zboot:attached-to` references no extant BE — remove with `zfs destroy` if no longer needed)",
    );
    let mut i: usize = 0;
    assert(out.deep_view() =~= head + orphan_rows(b, all.take(0)));
    while i < ds.len()
        invariant
            i <= ds@.len(),
            all == ds.deep_view(),
            b == bes.deep_view(),
            head.len() == 3,
            out.deep_view() == head + orphan_rows(b, all.take(i as int)),
            out@.len() == 3 + orphan_rows(b, all.take(i as int)).len(),
        decreases ds@.len() - i,
    {
        proof {
            assert(all.take(i + 1).drop_last() =~= all.take(i as int));
            assert(all.take(i + 1).last() == ds@[i as int].deep_view());
        }
        if is_orphaned(bes, &ds[i]) {
            let stale = ds[i].bound_to.renders();
            let shown: String = text::join(&stale, ",");
            let line: String = text::cat5(
                "  [!] ",
                ds[i].dataset.as_str(),
                " (stale: ",
                shown.as_str(),
                ")",
            );
            text::push_text(&mut out, line.as_str());
            proof {
                let rows = orphan_rows(b, all.take(i as int));
                assert((head + rows).push(line@) =~= head + rows.push(line@));
            }
        }
        i = i + 1;
    }
    assert(all.take(i as int) =~= all);
    if out.len() == 3 {
        let none: Vec<String> = Vec::new();
        assert(none.deep_view() =~= orphans_section(b, all));
        return none;
    }
    out
}

// ---------------------------------------------------------------------------
// The verb
// ---------------------------------------------------------------------------

/// Shows which dataset is running, where that can be told.
pub open spec fn booted_does(w: World) -> World {
    let (w1, ds) = zfs_ops::discover_booted_dataset_does(w);
    match ds {
        Ok(d) => w1.say("Booted: "@ + d),
        Err(_) => w1,
    }
}

fn render_booted<R: Runner>(r: &mut R)
    ensures
        final(r).world() == booted_does(old(r).world()),
{
    if let Ok(ds) = zfs_ops::discover_booted_dataset(r) {
        let line: String = text::cat2("Booted: ", ds.as_str());
        r.say(line.as_str());
    }
}

/// Shows all there is, up to the first line that cannot be shown.
pub open spec fn render_does(w: World, s: State) -> (World, Result<(), Seq<char>>) {
    let (w1, pools) = sub::tell_all_does(booted_does(w), pools_section(s.pools));
    if pools is Err {
        (w1, pools)
    } else {
        let (w2, forest) = forest_does(w1, s);
        if forest is Err {
            (w2, forest)
        } else {
            sub::tell_all_does(w2, orphans_section(s.bes, s.bound))
        }
    }
}

/// Shows all there is, up to the first line that cannot be shown.
pub fn render_human<R: Runner>(r: &mut R, snapshot: &StateSnapshot) -> (res: Result<(), Error>)
    ensures
        sub::did(final(r).world(), res) == render_does(old(r).world(), snapshot.deep_view()),
{
    render_booted(r);
    let ps = render_pools(&snapshot.pools);
    if let Err(e) = sub::tell_all(r, &ps) {
        return Err(e);
    }
    if let Err(e) = render_forest(r, snapshot) {
        return Err(e);
    }
    let orphans = render_orphans(&snapshot.forest.bes, &snapshot.bound_datasets);
    sub::tell_all(r, &orphans)
}

/// What `status` does.
pub open spec fn run_does(w: World, no_import: bool) -> (World, Result<(), Seq<char>>) {
    let w1 = if no_import {
        w
    } else {
        pools::ensure_root_pools_does(w).0
    };
    let (w2, got) = collect_does(w1);
    match got {
        Err(m) => (w2, Err(m)),
        Ok(s) => render_does(w2, s),
    }
}

/// `status`: shows all there is.
pub fn run<R: Runner>(r: &mut R, args: &StatusArgs) -> (res: Result<(), Error>)
    ensures
        sub::did(final(r).world(), res) == run_does(old(r).world(), args.no_import),
{
    if !args.no_import {
        let _ = pools::ensure_zboot_root_pools_imported(r);
    }
    match collect_state(r) {
        Err(e) => Err(e),
        Ok(s) => render_human(r, &s),
    }
}

proof fn lemma_node_looks(w: World, ps: Seq<PoolFacts>, bound: Seq<Bound>, t: Twig)
    ensures
        sub::only_looked(w, node_does(w, ps, bound, t).0),
{
    reveal(node_does);
    let b = t.be;
    let cp = tree::deeper(t.prefix, t.last);
    zfs_ops::lemma_property_looks(w, b.dataset, "readonly"@);
    let (w1, readonly) = zfs_ops::dataset_property_does(w, b.dataset, "readonly"@);
    zfs_ops::lemma_property_looks(w1, b.dataset, "zboot:mirror"@);
    let wa = zfs_ops::read_pair_pointer_does(w1, b.dataset).0;
    zfs_ops::lemma_property_looks(wa, b.dataset, "zboot:primary"@);
    let (w2, primary) = primary_marker_does(w1, b.dataset);
    let w3 = w2.say(
        t.prefix + tree::connector(t.last) + active_marker(ps, b) + b.name + rw_marker(readonly)
            + primary,
    );
    sub::lemma_tell_all_looks(w3, place_lines(b, cp));
    let w4 = sub::tell_all_does(w3, place_lines(b, cp)).0;
    lemma_mirror_looks(w4, b.dataset);
    let (w5, line) = mirror_line_does(w4, b.dataset);
    let w6 = match line {
        Some(l) => w5.say(cp + "    mirror:  "@ + l),
        None => w5,
    };
    sub::lemma_tell_all_looks(w6, mount_lines(b, cp));
    let w7 = sub::tell_all_does(w6, mount_lines(b, cp)).0;
    sub::lemma_tell_all_looks(
        w7,
        bound_lines(bound, Key { pool: b.pool, be: b.name }, cp),
    );
}

proof fn lemma_mirror_looks(w: World, ds: Seq<char>)
    ensures
        sub::only_looked(w, mirror_line_does(w, ds).0),
{
    zfs_ops::lemma_property_looks(w, ds, "zboot:mirror"@);
    let (w1, peer) = zfs_ops::read_pair_pointer_does(w, ds);
    if let Ok(Some(k)) = peer {
        let peer_ds = model::pair_text(k);
        zfs_ops::lemma_list_looks(w1, ds);
        let wb = zfs_ops::guid_set_does(w1, ds).0;
        zfs_ops::lemma_exists_looks(wb, peer_ds);
        let wc = zfs_ops::dataset_exists_does(wb, peer_ds).0;
        zfs_ops::lemma_list_looks(wc, peer_ds);
        zfs_ops::lemma_pool_property_looks(wc, k.pool, "name"@);
        let w2 = compare_does(w1, ds, k).0;
        assert(sub::only_looked(w1, w2));
        zfs_ops::lemma_dirty_looks(w2, ds);
    }
}

proof fn lemma_nodes_look(w: World, ps: Seq<PoolFacts>, bound: Seq<Bound>, ts: Seq<Twig>)
    ensures
        sub::only_looked(w, nodes_does(w, ps, bound, ts).0),
    decreases ts.len(),
{
    if ts.len() > 0 {
        lemma_nodes_look(w, ps, bound, ts.drop_last());
        lemma_node_looks(nodes_does(w, ps, bound, ts.drop_last()).0, ps, bound, ts.last());
    }
}

proof fn lemma_pools_of_bes_look(w: World, s: State, names: Seq<Seq<char>>)
    ensures
        sub::only_looked(w, pools_of_bes_does(w, s, names).0),
    decreases names.len(),
{
    if names.len() > 0 {
        lemma_pools_of_bes_look(w, s, names.drop_last());
        let w1 = pools_of_bes_does(w, s, names.drop_last()).0;
        lemma_nodes_look(
            w1.say("  pool "@ + names.last() + ":"@),
            s.pools,
            s.bound,
            pool_twigs(s.bes, names.last()),
        );
    }
}

/// Showing what there is changes nothing on the machine.
pub proof fn law_render_changes_nothing(w: World, s: State)
    ensures
        sub::only_looked(w, render_does(w, s).0),
{
    reveal(zfs_ops::discover_booted_dataset_does);
    let w0 = booted_does(w);
    sub::lemma_tell_all_looks(w0, pools_section(s.pools));
    let w1 = sub::tell_all_does(w0, pools_section(s.pools)).0;
    sub::lemma_tell_all_looks(w1, forest_head(s));
    let w2 = sub::tell_all_does(w1, forest_head(s)).0;
    lemma_pools_of_bes_look(w2, s, order::sorted_set(be_pools(s.bes)));
    let w3 = forest_does(w1, s).0;
    assert(sub::only_looked(w1, w3));
    sub::lemma_tell_all_looks(w3, orphans_section(s.bes, s.bound));
}

/// Without the import of pools, `status` changes nothing on the machine.
pub proof fn law_status_changes_nothing(w: World)
    ensures
        sub::only_looked(w, run_does(w, true).0),
{
    reveal(collect_does);
    state::lemma_pools_look(w);
    let w1 = state::pools_does(w).0;
    state::lemma_datasets_look(w1, wanted_props());
    let (w2, got) = collect_does(w);
    if let Ok(s) = got {
        law_render_changes_nothing(w2, s);
    }
}

/// A dataset is listed as an orphan just where none of the boot environments
/// that it is bound to is there.
pub proof fn law_orphans(bes: Seq<Be>, ds: Seq<Bound>, i: int)
    requires
        0 <= i < ds.len(),
    ensures
        orphaned(bes, ds[i]) ==> orphan_rows(bes, ds).contains(orphan_line(ds[i])),
        orphan_rows(bes, ds).len() == 0 ==> !orphaned(bes, ds[i]),
    decreases ds.len(),
{
    let front = ds.drop_last();
    let rows = orphan_rows(bes, ds);
    if i == ds.len() - 1 {
        if orphaned(bes, ds[i]) {
            assert(rows[rows.len() - 1] == orphan_line(ds[i]));
        }
    } else {
        law_orphans(bes, front, i);
        assert(front[i] == ds[i]);
        let before = orphan_rows(bes, front);
        if orphaned(bes, ds[i]) {
            let k = choose|k: int| 0 <= k < before.len() && before[k] == orphan_line(ds[i]);
            assert(rows[k] == orphan_line(ds[i]));
        }
    }
}

/// Every dataset whose list names an environment is shown as bound, with that list.
pub proof fn law_every_bound_dataset(names: Seq<Seq<char>>, rows: Rows)
    ensures
        forall|x: Bound| #[trigger] bound_among(names, rows).contains(x) <==> exists|i: int| 0 <= i < names.len() && x.dataset == (#[trigger] names[i]) && x.keys.len() > 0 && facts::last_attached(rows, (#[trigger] names[i])) == Some(x.keys),
    decreases names.len(),
{
    if names.len() > 0 {
        let front = names.drop_last();
        law_every_bound_dataset(front, rows);
        let before = bound_among(front, rows);
        let all = bound_among(names, rows);
        assert forall|x: Bound| #[trigger] all.contains(x) <==> exists|i: int| 0 <= i < names.len() && x.dataset == (#[trigger] names[i]) && x.keys.len() > 0 && facts::last_attached(rows, (#[trigger] names[i])) == Some(x.keys) by {
            if all.contains(x) {
                let k = choose|k: int| 0 <= k < all.len() && all[k] == x;
                if k < before.len() {
                    assert(before[k] == x);
                    assert(before.contains(x));
                    let i = choose|i: int| 0 <= i < front.len() && x.dataset == (#[trigger] front[i]) && x.keys.len() > 0 && facts::last_attached(rows, (#[trigger] front[i])) == Some(x.keys);
                    assert(names[i] == front[i]);
                } else {
                    assert(x.dataset == names[names.len() - 1] && x.keys.len() > 0 && facts::last_attached(rows, names[names.len() - 1]) == Some(x.keys));
                }
            }
            if exists|i: int| 0 <= i < names.len() && x.dataset == (#[trigger] names[i]) && x.keys.len() > 0 && facts::last_attached(rows, (#[trigger] names[i])) == Some(x.keys) {
                let i = choose|i: int| 0 <= i < names.len() && x.dataset == (#[trigger] names[i]) && x.keys.len() > 0 && facts::last_attached(rows, (#[trigger] names[i])) == Some(x.keys);
                if i < front.len() {
                    assert(front[i] == names[i]);
                    assert(before.contains(x));
                    let k = choose|k: int| 0 <= k < before.len() && before[k] == x;
                    assert(all[k] == x);
                } else {
                    assert(names[i] == names.last());
                    assert(all[all.len() - 1] == x);
                }
            }
        }
    }
}

/// Every dataset bound to an environment has its line below that environment.
pub proof fn law_every_binding_is_shown(ds: Seq<Bound>, key: Key, cp: Seq<char>)
    ensures
        forall|x: Seq<char>| #[trigger] bound_rows(ds, key, cp).contains(x) <==> exists|i: int| 0 <= i < ds.len() && x == bound_line((#[trigger] ds[i]), key, cp) && (#[trigger] ds[i]).keys.contains(key),
    decreases ds.len(),
{
    if ds.len() > 0 {
        let front = ds.drop_last();
        law_every_binding_is_shown(front, key, cp);
        let before = bound_rows(front, key, cp);
        let all = bound_rows(ds, key, cp);
        assert forall|x: Seq<char>| #[trigger] all.contains(x) <==> exists|i: int| 0 <= i < ds.len() && x == bound_line((#[trigger] ds[i]), key, cp) && (#[trigger] ds[i]).keys.contains(key) by {
            if all.contains(x) {
                let k = choose|k: int| 0 <= k < all.len() && all[k] == x;
                if k < before.len() {
                    assert(before[k] == x);
                    assert(before.contains(x));
                    let i = choose|i: int| 0 <= i < front.len() && x == bound_line((#[trigger] front[i]), key, cp) && (#[trigger] front[i]).keys.contains(key);
                    assert(ds[i] == front[i]);
                } else {
                    assert(x == bound_line(ds[ds.len() - 1], key, cp) && ds[ds.len() - 1].keys.contains(key));
                }
            }
            if exists|i: int| 0 <= i < ds.len() && x == bound_line((#[trigger] ds[i]), key, cp) && (#[trigger] ds[i]).keys.contains(key) {
                let i = choose|i: int| 0 <= i < ds.len() && x == bound_line((#[trigger] ds[i]), key, cp) && (#[trigger] ds[i]).keys.contains(key);
                if i < front.len() {
                    assert(front[i] == ds[i]);
                    assert(before.contains(x));
                    let k = choose|k: int| 0 <= k < before.len() && before[k] == x;
                    assert(all[k] == x);
                } else {
                    assert(ds[i] == ds.last());
                    assert(all[all.len() - 1] == x);
                }
            }
        }
    }
}

/// The line of a node, with its two marks behind the name.
pub open spec fn node_line(ps: Seq<PoolFacts>, t: Twig, marks: Seq<char>) -> Call {
    Call::Say {
        text: t.prefix + tree::connector(t.last) + active_marker(ps, t.be) + t.be.name + marks,
    }
}

/// A node was shown.
pub open spec fn node_shown(a: World, b: World, ps: Seq<PoolFacts>, t: Twig) -> bool {
    exists|marks: Seq<char>| sub::called(a, b, #[trigger] node_line(ps, t, marks))
}

proof fn lemma_shown_within(a: World, b: World, c: World, d: World, ps: Seq<PoolFacts>, t: Twig)
    requires
        sub::continues(a, b),
        node_shown(b, c, ps, t),
        sub::continues(c, d),
    ensures
        node_shown(a, d, ps, t),
{
    let marks = choose|marks: Seq<char>| sub::called(b, c, #[trigger] node_line(ps, t, marks));
    effects::lemma_called_within(a, b, c, d, node_line(ps, t, marks));
}

proof fn lemma_node_shown(w: World, ps: Seq<PoolFacts>, bound: Seq<Bound>, t: Twig)
    ensures
        node_shown(w, node_does(w, ps, bound, t).0, ps, t),
{
    lemma_node_looks(w, ps, bound, t);
    let b = t.be;
    let cp = tree::deeper(t.prefix, t.last);
    let (w1, readonly) = zfs_ops::dataset_property_does(w, b.dataset, "readonly"@);
    let (w2, primary) = primary_marker_does(w1, b.dataset);
    let marks = rw_marker(readonly) + primary;
    let line = t.prefix + tree::connector(t.last) + active_marker(ps, b) + b.name + rw_marker(
        readonly,
    ) + primary;
    let w3 = w2.say(line);
    let end = node_does(w, ps, bound, t).0;
    assert(node_line(ps, t, marks)->Say_text =~= line);
    zfs_ops::lemma_property_looks(w, b.dataset, "readonly"@);
    assert(sub::continues(w1, w2)) by {
        zfs_ops::lemma_property_looks(w1, b.dataset, "zboot:mirror"@);
        let wa = zfs_ops::read_pair_pointer_does(w1, b.dataset).0;
        zfs_ops::lemma_property_looks(wa, b.dataset, "zboot:primary"@);
    }
    effects::lemma_continues(w, w1, w2);
    assert(sub::continues(w3, end)) by {
        reveal(node_does);
        sub::lemma_tell_all_looks(w3, place_lines(b, cp));
        let w4 = sub::tell_all_does(w3, place_lines(b, cp)).0;
        lemma_mirror_looks(w4, b.dataset);
        let (w5, l) = mirror_line_does(w4, b.dataset);
        let w6 = match l {
            Some(l) => w5.say(cp + "    mirror:  "@ + l),
            None => w5,
        };
        assert(sub::continues(w5, w6));
        sub::lemma_tell_all_looks(w6, mount_lines(b, cp));
        let w7 = sub::tell_all_does(w6, mount_lines(b, cp)).0;
        let more = bound_lines(bound, Key { pool: b.pool, be: b.name }, cp);
        sub::lemma_tell_all_looks(w7, more);
        let w8 = sub::tell_all_does(w7, more).0;
        effects::lemma_continues(w3, w4, w5);
        effects::lemma_continues(w3, w5, w6);
        effects::lemma_continues(w3, w6, w7);
        effects::lemma_continues(w3, w7, w8);
        assert(sub::continues(w3, w3));
    }
    let n = w2.calls.len() as int;
    assert(w3.calls[n] == node_line(ps, t, marks));
    assert(end.calls[n] == w3.calls[n]) by {
        reveal(node_does);
    }
    assert(sub::called(w, end, node_line(ps, t, marks)));
}

/// Every node of a tree that is shown whole has its line.
pub proof fn law_every_node_is_shown(
    w: World,
    ps: Seq<PoolFacts>,
    bound: Seq<Bound>,
    ts: Seq<Twig>,
)
    requires
        nodes_does(w, ps, bound, ts).1 is Ok,
    ensures
        sub::continues(w, nodes_does(w, ps, bound, ts).0),
        forall|i: int|
            0 <= i < ts.len() ==> node_shown(
                w,
                nodes_does(w, ps, bound, ts).0,
                ps,
                #[trigger] ts[i],
            ),
    decreases ts.len(),
{
    assert(sub::continues(w, w));
    if ts.len() > 0 {
        let front = ts.drop_last();
        law_every_node_is_shown(w, ps, bound, front);
        let w1 = nodes_does(w, ps, bound, front).0;
        let end = nodes_does(w, ps, bound, ts).0;
        lemma_node_looks(w1, ps, bound, ts.last());
        lemma_node_shown(w1, ps, bound, ts.last());
        effects::lemma_continues(w, w1, end);
        assert(sub::continues(end, end));
        assert forall|i: int| 0 <= i < ts.len() implies node_shown(
            w,
            end,
            ps,
            #[trigger] ts[i],
        ) by {
            if i < front.len() {
                assert(front[i] == ts[i]);
                lemma_shown_within(w, w, w1, end, ps, ts[i]);
            } else {
                lemma_shown_within(w, w1, end, end, ps, ts[i]);
            }
        }
    }
}

/// Every pool with environments has its heading, and its tree below.
pub proof fn law_every_pool_is_shown(w: World, s: State, names: Seq<Seq<char>>)
    requires
        pools_of_bes_does(w, s, names).1 is Ok,
    ensures
        ({
            let end = pools_of_bes_does(w, s, names).0;
            &&& sub::continues(w, end)
            &&& forall|i: int|
                0 <= i < names.len() ==> pool_shown(w, end, s, #[trigger] names[i])
        }),
    decreases names.len(),
{
    assert(sub::continues(w, w));
    if names.len() > 0 {
        let front = names.drop_last();
        law_every_pool_is_shown(w, s, front);
        let w1 = pools_of_bes_does(w, s, front).0;
        let end = pools_of_bes_does(w, s, names).0;
        let pool = names.last();
        let w2 = w1.say("  pool "@ + pool + ":"@);
        let ts = pool_twigs(s.bes, pool);
        law_every_node_is_shown(w2, s.pools, s.bound, ts);
        assert(sub::continues(w1, w2));
        effects::lemma_continues(w1, w2, end);
        effects::lemma_continues(w, w1, end);
        assert(sub::continues(end, end));
        assert forall|i: int| 0 <= i < names.len() implies pool_shown(
            w,
            end,
            s,
            #[trigger] names[i],
        ) by {
            if i < front.len() {
                assert(front[i] == names[i]);
                assert(pool_shown(w, w1, s, front[i]));
                let c = heading(names[i]);
                effects::lemma_called_within(w, w, w1, end, c);
                let us = pool_twigs(s.bes, names[i]);
                assert forall|k: int| 0 <= k < us.len() implies node_shown(
                    w,
                    end,
                    s.pools,
                    #[trigger] us[k],
                ) by {
                    lemma_shown_within(w, w, w1, end, s.pools, us[k]);
                }
            } else {
                let n = w1.calls.len() as int;
                assert(w2.calls[n] == heading(pool));
                assert(end.calls[n] == w2.calls[n]);
                assert(sub::called(w, end, heading(pool)));
                effects::lemma_continues(w, w1, w2);
                assert forall|k: int| 0 <= k < ts.len() implies node_shown(
                    w,
                    end,
                    s.pools,
                    #[trigger] ts[k],
                ) by {
                    lemma_shown_within(w, w2, end, end, s.pools, ts[k]);
                }
            }
        }
    }
}

/// The heading of a pool.
pub open spec fn heading(pool: Seq<char>) -> Call {
    Call::Say { text: "  pool "@ + pool + ":"@ }
}

/// A pool's heading was shown, and every node of its tree.
pub open spec fn pool_shown(a: World, b: World, s: State, pool: Seq<char>) -> bool {
    &&& sub::called(a, b, heading(pool))
    &&& forall|k: int|
        0 <= k < pool_twigs(s.bes, pool).len() ==> node_shown(
            a,
            b,
            s.pools,
            #[trigger] pool_twigs(s.bes, pool)[k],
        )
}

} // verus!
