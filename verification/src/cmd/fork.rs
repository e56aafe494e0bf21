//! `fork`: clone a snapshot into a new boot environment.
//!
//! The new boot environment lies on the snapshot's pool. It is refused where
//! its name is taken, and where an ancestor of the snapshot's dataset is gone.
//! Every dataset that is bound to the source is bound to the new one too.

use vstd::prelude::*;
use vstd::string::*;

use crate::effects;
use crate::error;
use crate::error::Error;
use crate::facts::Rows;
use crate::model;
use crate::model::{BoundKey, BoundList, Key, Prop, Property, Snap, SnapshotRef};
use crate::order;
use crate::order::Keyed;
use crate::pools;
use crate::sub;
use crate::sub::{Call, Runner, World};
use crate::text;
use crate::zfs_ops;

verus! {

/// Arguments of `fork`.
#[derive(Debug)]
pub struct ForkArgs {
    /// Name of the new boot environment.
    pub name: String,
    /// `<dataset>@<snap>`, or the bare name of a snapshot of what boots next.
    pub from: String,
}

// ---------------------------------------------------------------------------
// The lineage of a dataset
// ---------------------------------------------------------------------------

/// The dataset that the table first gives as origin of `ds`.
pub open spec fn parent_of(rows: Rows, ds: Seq<char>) -> Option<Seq<char>>
    decreases rows.len(),
{
    if rows.len() == 0 {
        None
    } else if rows[0].0 == ds && rows[0].1 is Origin {
        match rows[0].1->Origin_0 {
            Some(s) => Some(s.dataset),
            None => None,
        }
    } else {
        parent_of(rows.drop_first(), ds)
    }
}

fn find_parent(rows: &Vec<(String, Property)>, ds: &str) -> (r: Option<String>)
    ensures
        r.deep_view() == parent_of(rows.deep_view(), ds@),
{
    let ghost all = rows.deep_view();
    let mut i: usize = 0;
    assert(all.skip(0) =~= all);
    while i < rows.len()
        invariant
            i <= rows@.len(),
            all == rows.deep_view(),
            parent_of(all, ds@) == parent_of(all.skip(i as int), ds@),
        decreases rows@.len() - i,
    {
        proof {
            assert(all.skip(i as int)[0] == rows@[i as int].deep_view());
            assert(all.skip(i as int).drop_first() =~= all.skip(i + 1));
        }
        if let Property::Origin(o) = &rows[i].1 {
            if text::eq(rows[i].0.as_str(), ds) {
                return match o {
                    Some(s) => Some(s.dataset.clone()),
                    None => None,
                };
            }
        }
        i = i + 1;
    }
    None
}

/// The `n`-th ancestor of `start`; its 0th is itself.
pub open spec fn ancestor(rows: Rows, start: Seq<char>, n: nat) -> Option<Seq<char>>
    decreases n,
{
    if n == 0 {
        Some(start)
    } else {
        match ancestor(rows, start, (n - 1) as nat) {
            Some(d) => parent_of(rows, d),
            None => None,
        }
    }
}

/// The `n`-th ancestor is there.
pub open spec fn present(rows: Rows, live: Seq<Seq<char>>, start: Seq<char>, n: nat) -> bool {
    ancestor(rows, start, n) matches Some(d) && live.contains(d)
}

/// The `n`-th ancestor is gone, and every one before it is there.
pub open spec fn gone_at(rows: Rows, live: Seq<Seq<char>>, start: Seq<char>, n: nat) -> bool {
    &&& ancestor(rows, start, n) matches Some(d) && !live.contains(d)
    &&& forall|k: nat| k < n ==> #[trigger] present(rows, live, start, k)
}

/// The first ancestor that is gone, if one is.
pub open spec fn first_gone(rows: Rows, live: Seq<Seq<char>>, start: Seq<char>) -> Option<
    Seq<char>,
> {
    if exists|n: nat| gone_at(rows, live, start, n) {
        ancestor(rows, start, choose|n: nat| gone_at(rows, live, start, n))
    } else {
        None
    }
}

proof fn lemma_gone_unique(rows: Rows, live: Seq<Seq<char>>, start: Seq<char>, n: nat)
    requires
        gone_at(rows, live, start, n),
    ensures
        first_gone(rows, live, start) == ancestor(rows, start, n),
{
    let m = choose|m: nat| gone_at(rows, live, start, m);
    assert(gone_at(rows, live, start, m));
    if m < n {
        assert(present(rows, live, start, m));
    }
    if n < m {
        assert(present(rows, live, start, n));
    }
}

proof fn lemma_no_ancestor_past_end(rows: Rows, start: Seq<char>, m: nat, n: nat)
    requires
        m <= n,
        ancestor(rows, start, m) is None,
    ensures
        ancestor(rows, start, n) is None,
    decreases n,
{
    if m < n {
        lemma_no_ancestor_past_end(rows, start, m, (n - 1) as nat);
    }
}

proof fn lemma_cycle(rows: Rows, start: Seq<char>, i: nat, j: nat, n: nat) -> (k: nat)
    requires
        i < j,
        ancestor(rows, start, i) == ancestor(rows, start, j),
    ensures
        k < j,
        ancestor(rows, start, k) == ancestor(rows, start, n),
    decreases n,
{
    if n < j {
        n
    } else {
        let k = lemma_cycle(rows, start, i, j, (n - 1) as nat);
        if k + 1 < j {
            k + 1
        } else {
            assert(ancestor(rows, start, n) == ancestor(rows, start, j));
            i
        }
    }
}

/// The complaint about a broken lineage.
pub open spec fn orphaned_text(start: Seq<char>, missing: Seq<char>) -> Seq<char> {
    "fork: source snapshot's origin lineage is broken — dataset "@ + text::quoted_text(missing)
        + " (an ancestor of "@ + text::quoted_text(start)
        + ") is no longer present.\nhint: the parent BE was dropped without promoting its dependent clone first. Run `zfs promote <surviving-clone>` on the chain that still exists, then retry the fork."@
}

fn orphaned_origin_error(start: &str, missing: &str) -> (e: Error)
    ensures
        e@ == orphaned_text(start@, missing@),
{
    let q: String = text::quoted(missing);
    let p: String = text::quoted(start);
    Error::from_text(
        text::cat5(
            "fork: source snapshot's origin lineage is broken — dataset ",
            q.as_str(),
            " (an ancestor of ",
            p.as_str(),
            ") is no longer present.\nhint: the parent BE was dropped without promoting its dependent clone first. Run `zfs promote <surviving-clone>` on the chain that still exists, then retry the fork.",
        ),
    )
}

/// A lineage is in order if no ancestor is gone.
pub open spec fn lineage_of(rows: Rows, live: Seq<Seq<char>>, start: Seq<char>) -> Result<
    (),
    Seq<char>,
> {
    match first_gone(rows, live, start) {
        Some(d) => Err(orphaned_text(start, d)),
        None => Ok(()),
    }
}

/// Walks from the dataset to what it was cloned from, and on, and fails where
/// one of them, or the dataset itself, is not among `datasets`. A table that
/// leads back to where it was before ends the walk.
pub fn check_origin_lineage(
    start_dataset: &str,
    datasets: &Vec<String>,
    props: &Vec<(String, Property)>,
) -> (res: Result<(), Error>)
    ensures
        error::outcome(res) == lineage_of(
            props.deep_view(),
            datasets.deep_view(),
            start_dataset@,
        ),
{
    let ghost rows = props.deep_view();
    let ghost live = datasets.deep_view();
    let ghost start = start_dataset@;
    if !text::any_eq(datasets, start_dataset) {
        proof {
            assert(gone_at(rows, live, start, 0));
            lemma_gone_unique(rows, live, start, 0);
        }
        return Err(orphaned_origin_error(start_dataset, start_dataset));
    }
    let mut current: String = start_dataset.to_owned();
    let mut visited: Vec<String> = Vec::new();
    loop
        invariant
            rows == props.deep_view(),
            live == datasets.deep_view(),
            start == start_dataset@,
            ancestor(rows, start, visited@.len()) == Some(current@),
            live.contains(current@),
            forall|i: int|
                0 <= i < visited@.len() ==> ancestor(rows, start, i as nat) == Some(
                    #[trigger] visited.deep_view()[i],
                ),
            forall|i: int| 0 <= i < visited@.len() ==> live.contains(#[trigger] visited.deep_view()[i]),
            visited.deep_view().no_duplicates(),
            visited@.len() <= live.len(),
        decreases live.len() + 1 - visited@.len(),
    {
        if text::any_eq(&visited, current.as_str()) {
            proof {
                let seen = visited.deep_view();
                let i = choose|i: int| 0 <= i < seen.len() && seen[i] == current@;
                assert(ancestor(rows, start, i as nat) == Some(seen[i]));
                if exists|n: nat| gone_at(rows, live, start, n) {
                    let n = choose|n: nat| gone_at(rows, live, start, n);
                    let k = lemma_cycle(rows, start, i as nat, seen.len(), n);
                    assert(ancestor(rows, start, k) == Some(seen[k as int]));
                    assert(live.contains(seen[k as int]));
                    assert(false);
                }
            }
            return Ok(());
        }
        let ghost seen = visited.deep_view();
        text::push_text(&mut visited, current.as_str());
        proof {
            let now = visited.deep_view();
            assert(now =~= seen.push(current@));
            assert forall|i: int| 0 <= i < now.len() implies ancestor(rows, start, i as nat)
                == Some(#[trigger] now[i]) by {
                if i < seen.len() {
                    assert(now[i] == seen[i]);
                }
            }
            assert forall|i: int| 0 <= i < now.len() implies live.contains(#[trigger] now[i]) by {
                if i < seen.len() {
                    assert(now[i] == seen[i]);
                }
            }
            assert(now.no_duplicates()) by {
                assert forall|i: int, j: int| 0 <= i < j < now.len() implies now[i] != now[j] by {
                    if j == seen.len() {
                        assert(seen.contains(seen[i]));
                    }
                }
            }
            lemma_distinct_fit(now, live);
        }
        match find_parent(props, current.as_str()) {
            None => {
                proof {
                    let len = visited@.len();
                    assert(ancestor(rows, start, len) is None);
                    if exists|n: nat| gone_at(rows, live, start, n) {
                        let n = choose|n: nat| gone_at(rows, live, start, n);
                        if n < len {
                            assert(live.contains(visited.deep_view()[n as int]));
                        } else {
                            lemma_no_ancestor_past_end(rows, start, len, n);
                        }
                        assert(false);
                    }
                }
                return Ok(());
            },
            Some(parent) => {
                if !text::any_eq(datasets, parent.as_str()) {
                    proof {
                        let len = visited@.len();
                        assert(ancestor(rows, start, len) == Some(parent@));
                        assert forall|k: nat| k < len implies #[trigger] present(
                            rows,
                            live,
                            start,
                            k,
                        ) by {
                            assert(ancestor(rows, start, k) == Some(visited.deep_view()[k as int]));
                        }
                        assert(gone_at(rows, live, start, len));
                        lemma_gone_unique(rows, live, start, len);
                    }
                    return Err(orphaned_origin_error(start_dataset, parent.as_str()));
                }
                current = parent;
            },
        }
    }
}

proof fn lemma_distinct_fit(a: Seq<Seq<char>>, b: Seq<Seq<char>>)
    requires
        a.no_duplicates(),
        forall|i: int| 0 <= i < a.len() ==> b.contains(#[trigger] a[i]),
    ensures
        a.len() <= b.len(),
{
    a.unique_seq_to_set();
    b.lemma_cardinality_of_set();
    assert(a.to_set().subset_of(b.to_set())) by {
        assert forall|x: Seq<char>| a.to_set().contains(x) implies b.to_set().contains(x) by {
            let i = choose|i: int| 0 <= i < a.len() && a[i] == x;
            assert(b.contains(a[i]));
        }
    }
    vstd::set_lib::lemma_len_subset(a.to_set(), b.to_set());
}

/// A lineage is found in order exactly if every ancestor is there.
pub proof fn law_lineage(rows: Rows, live: Seq<Seq<char>>, start: Seq<char>)
    ensures
        lineage_of(rows, live, start) is Ok <==> forall|n: nat|
            #[trigger] ancestor(rows, start, n) matches Some(d) ==> live.contains(d),
{
    if lineage_of(rows, live, start) is Ok {
        assert forall|n: nat| (#[trigger] ancestor(rows, start, n)) is Some implies live.contains(
            ancestor(rows, start, n)->0,
        ) by {
            lemma_all_present(rows, live, start, n);
            assert(present(rows, live, start, n));
        }
    } else {
        let n = choose|n: nat| gone_at(rows, live, start, n);
        if exists|n: nat| gone_at(rows, live, start, n) {
            assert(ancestor(rows, start, n) is Some);
        }
    }
}

proof fn lemma_all_present(rows: Rows, live: Seq<Seq<char>>, start: Seq<char>, n: nat)
    requires
        lineage_of(rows, live, start) is Ok,
        ancestor(rows, start, n) is Some,
    ensures
        forall|k: nat| k <= n ==> #[trigger] present(rows, live, start, k),
    decreases n,
{
    if n > 0 {
        assert(ancestor(rows, start, (n - 1) as nat) is Some);
        lemma_all_present(rows, live, start, (n - 1) as nat);
    }
    if !present(rows, live, start, n) {
        assert(gone_at(rows, live, start, n));
        lemma_gone_unique(rows, live, start, n);
    }
}

// ---------------------------------------------------------------------------
// The source
// ---------------------------------------------------------------------------

/// Looks through a `name,bootfs` table for the first root pool whose `bootfs`
/// is set.
pub open spec fn root_bootfs_does(w: World, ls: Seq<Seq<char>>) -> (World, Option<Seq<char>>)
    decreases ls.len(),
{
    if ls.len() == 0 {
        (w, None)
    } else {
        let b = text::trimmed(zfs_ops::tab_column(ls[0], 1, "-"@));
        if model::unset(b) {
            root_bootfs_does(w, ls.drop_first())
        } else {
            let (w1, role) = zfs_ops::pool_property_does(
                w,
                zfs_ops::tab_column(ls[0], 0, ""@),
                "zboot:role"@,
            );
            if role == Ok::<Seq<char>, Seq<char>>("root"@) {
                (w1, Some(b))
            } else {
                root_bootfs_does(w1, ls.drop_first())
            }
        }
    }
}

fn has_root_role<R: Runner>(r: &mut R, pool: &str) -> (res: bool)
    ensures
        final(r).world() == zfs_ops::pool_property_does(old(r).world(), pool@, "zboot:role"@).0,
        res == (zfs_ops::pool_property_does(old(r).world(), pool@, "zboot:role"@).1 == Ok::<
            Seq<char>,
            Seq<char>,
        >("root"@)),
{
    match zfs_ops::pool_property(r, pool, "zboot:role") {
        Err(_) => false,
        Ok(role) => text::eq(role.as_str(), "root"),
    }
}

/// Finds the `bootfs` of the first root pool of a `name,bootfs` table that has
/// one.
pub fn find_root_bootfs<R: Runner>(r: &mut R, table: &str) -> (res: Option<String>)
    ensures
        (final(r).world(), res.deep_view()) == root_bootfs_does(
            old(r).world(),
            text::lines_of(table@),
        ),
{
    let ls = text::lines(table);
    let mut i: usize = 0;
    assert(ls.deep_view().skip(0) =~= ls.deep_view());
    while i < ls.len()
        invariant
            i <= ls@.len(),
            ls.deep_view() == text::lines_of(table@),
            root_bootfs_does(old(r).world(), ls.deep_view()) == root_bootfs_does(
                r.world(),
                ls.deep_view().skip(i as int),
            ),
        decreases ls@.len() - i,
    {
        proof {
            let rest = ls.deep_view().skip(i as int);
            assert(rest[0] == ls@[i as int]@);
            assert(rest.drop_first() =~= ls.deep_view().skip(i + 1));
        }
        let b: &str = text::trim(zfs_ops::get_tab_column(ls[i], 1, "-"));
        if !model::is_unset(b) {
            if has_root_role(r, zfs_ops::get_tab_column(ls[i], 0, "")) {
                return Some(b.to_owned());
            }
        }
        i = i + 1;
    }
    None
}

/// Looks for what boots next on the first root pool that has it set.
#[verifier::opaque]
pub open spec fn active_be_dataset_does(w: World) -> (World, Result<Seq<char>, Seq<char>>) {
    let w1 = w.run("zpool"@, seq!["list"@, "-Hp"@, "-o"@, "name,bootfs"@]);
    match w.printed() {
        Err(m) => (w1, Err(error::within("spawn `zpool list`"@, m))),
        Ok(out) => if out.rc != 0 {
            (
                w1,
                Err(
                    "`zpool list` rc="@ + zfs_ops::rc_text(out.rc) + ": "@ + text::trimmed(
                        out.stderr,
                    ),
                ),
            )
        } else if sub::legible(out, "non-utf8 zpool output"@) is Err {
            (w1, Err(sub::legible(out, "non-utf8 zpool output"@)->Err_0))
        } else {
            let (w2, found) = root_bootfs_does(w1, text::lines_of(out.stdout));
            match found {
                Some(b) => (w2, Ok(b)),
                None => (
                    w2,
                    Err(
                        "can't resolve bare snapshot name: no pool has `bootfs` set. Pass the fully-qualified `--from <dataset>@<snap>` instead."@,
                    ),
                ),
            }
        },
    }
}

fn active_be_dataset<R: Runner>(r: &mut R) -> (res: Result<String, Error>)
    ensures
        sub::did(final(r).world(), res) == active_be_dataset_does(old(r).world()),
{
    proof {
        reveal(active_be_dataset_does);
    }
    let args = text::argv4("list", "-Hp", "-o", "name,bootfs");
    match r.read("zpool", args.as_slice()) {
        Err(e) => Err(e.context("spawn `zpool list`")),
        Ok(out) => if out.rc != 0 {
            let rc: String = zfs_ops::rc_shown(out.rc);
            Err(
                Error::from_text(
                    text::cat4(
                        "`zpool list` rc=",
                        rc.as_str(),
                        ": ",
                        text::trim(out.stderr.as_str()),
                    ),
                ),
            )
        } else {
            if let Err(e) = sub::check_legible(&out, "non-utf8 zpool output") {
                return Err(e);
            }
            match find_root_bootfs(r, out.stdout.as_str()) {
                Some(b) => Ok(b),
                None => Err(
                    Error::new(
                        "can't resolve bare snapshot name: no pool has `bootfs` set. Pass the fully-qualified `--from <dataset>@<snap>` instead.",
                    ),
                ),
            }
        },
    }
}

/// The snapshot that `--from` names.
pub open spec fn resolve_from_does(w: World, from: Seq<char>) -> (World, Result<Snap, Seq<char>>) {
    if from.contains('@') {
        (
            w,
            match model::snap_of(from) {
                Some(s) => Ok(s),
                None => Err(
                    "--from "@ + text::quoted_text(from)
                        + " is not a valid `<dataset>@<snap>` ref"@,
                ),
            },
        )
    } else if from.len() == 0 {
        (w, Err("--from must not be empty"@))
    } else {
        let (w1, active) = active_be_dataset_does(w);
        (
            w1,
            match active {
                Err(m) => Err(m),
                Ok(ds) => Ok(Snap { dataset: ds, name: from }),
            },
        )
    }
}

/// Reads the `--from` argument: with an `@` it is a full reference; a bare
/// name is a snapshot of what boots next.
pub fn resolve_from<R: Runner>(r: &mut R, from: &str) -> (res: Result<SnapshotRef, Error>)
    ensures
        sub::did(final(r).world(), res) == resolve_from_does(old(r).world(), from@),
{
    if text::has(from, '@') {
        return match SnapshotRef::parse(from) {
            Some(s) => Ok(s),
            None => {
                let q: String = text::quoted(from);
                Err(
                    Error::from_text(
                        text::cat3(
                            "--from ",
                            q.as_str(),
                            " is not a valid `<dataset>@<snap>` ref",
                        ),
                    ),
                )
            },
        };
    }
    if from.is_empty() {
        return Err(Error::new("--from must not be empty"));
    }
    match active_be_dataset(r) {
        Err(e) => Err(e),
        Ok(ds) => Ok(SnapshotRef { dataset: ds, name: from.to_owned() }),
    }
}

/// `rpool/ROOT/be1` -> `rpool`.
pub fn pool_of<'a>(dataset: &'a str) -> (r: &'a str)
    ensures
        r@ == text::before(dataset@, '/'),
{
    text::head(dataset, '/')
}

/// `rpool/ROOT/be1` -> `be1`.
pub fn last_component<'a>(dataset: &'a str) -> (r: &'a str)
    ensures
        r@ == text::after_last(dataset@, '/'),
{
    text::tail(dataset, '/')
}

// ---------------------------------------------------------------------------
// The plan
// ---------------------------------------------------------------------------

/// A dataset whose binding list the new boot environment joins.
#[derive(Debug, Clone)]
pub struct Shared {
    pub dataset: String,
    pub list: BoundList,
}

/// A dataset and its binding list.
pub struct SharedFacts {
    pub dataset: Seq<char>,
    pub list: Seq<Key>,
}

impl DeepView for Shared {
    type V = SharedFacts;

    open spec fn deep_view(&self) -> SharedFacts {
        SharedFacts { dataset: self.dataset@, list: self.list.deep_view() }
    }
}

impl Keyed for Shared {
    open spec fn key_of(v: SharedFacts) -> Seq<char> {
        v.dataset
    }

    fn key(&self) -> (r: &str) {
        self.dataset.as_str()
    }
}

/// What a fork is going to do.
#[derive(Debug)]
pub struct ForkPlan {
    pub source_snap: SnapshotRef,
    pub target_dataset: String,
    pub source_key: BoundKey,
    pub target_key: BoundKey,
    /// By dataset.
    pub bound_datasets_to_extend: Vec<Shared>,
}

/// What a fork is going to do.
pub struct Plan {
    pub source: Snap,
    pub target: Seq<char>,
    pub source_key: Key,
    pub target_key: Key,
    pub shared: Seq<SharedFacts>,
}

impl DeepView for ForkPlan {
    type V = Plan;

    open spec fn deep_view(&self) -> Plan {
        Plan {
            source: self.source_snap.deep_view(),
            target: self.target_dataset@,
            source_key: self.source_key.deep_view(),
            target_key: self.target_key.deep_view(),
            shared: self.bound_datasets_to_extend.deep_view(),
        }
    }
}

/// The rows of a table that bind a dataset to `key`, in order.
pub open spec fn bound_rows(rows: Rows, key: Key) -> Seq<SharedFacts>
    decreases rows.len(),
{
    if rows.len() == 0 {
        seq![]
    } else {
        let front = bound_rows(rows.drop_last(), key);
        match rows.last().1 {
            Prop::AttachedTo(ks) => if ks.contains(key) {
                front.push(SharedFacts { dataset: rows.last().0, list: ks })
            } else {
                front
            },
            _ => front,
        }
    }
}

fn find_bound(rows: &Vec<(String, Property)>, key: &BoundKey) -> (r: Vec<Shared>)
    ensures
        r.deep_view() == bound_rows(rows.deep_view(), key.deep_view()),
{
    let ghost all = rows.deep_view();
    let mut out: Vec<Shared> = Vec::new();
    let mut i: usize = 0;
    assert(out.deep_view() =~= bound_rows(all.take(0), key.deep_view()));
    while i < rows.len()
        invariant
            i <= rows@.len(),
            all == rows.deep_view(),
            out.deep_view() == bound_rows(all.take(i as int), key.deep_view()),
        decreases rows@.len() - i,
    {
        let ghost so_far = out.deep_view();
        proof {
            assert(all.take(i + 1).drop_last() =~= all.take(i as int));
            assert(all.take(i + 1).last() == rows@[i as int].deep_view());
        }
        if let Property::ZbootAttachedTo(l) = &rows[i].1 {
            if l.contains(key) {
                let x = Shared { dataset: rows[i].0.clone(), list: l.copy() };
                out.push(x);
                assert(out.deep_view() =~= so_far.push(x.deep_view()));
            }
        }
        i = i + 1;
    }
    assert(all.take(i as int) =~= all);
    out
}

/// What a fork of `snap` to `name` is going to do, on what a table says.
pub open spec fn plan_of(snap: Snap, name: Seq<char>, rows: Rows) -> Plan {
    let pool = text::before(snap.dataset, '/');
    let source_key = Key { pool, be: text::after_last(snap.dataset, '/') };
    Plan {
        source: snap,
        target: model::be_dataset(pool, name),
        source_key,
        target_key: Key { pool, be: name },
        shared: order::sorted(bound_rows(rows, source_key), |x: SharedFacts| x.dataset),
    }
}

/// Looks at the machine and makes the plan.
#[verifier::opaque]
pub open spec fn resolve_does(w: World, snap: Snap, name: Seq<char>) -> (World, Result<
    Plan,
    Seq<char>,
>) {
    let target = model::be_dataset(text::before(snap.dataset, '/'), name);
    let w1 = w.run("zfs"@, seq!["list"@, "-Hp"@, "-o"@, "name"@, target]);
    match w.ran() {
        Err(m) => (w1, Err(error::within("spawning `zfs list "@ + target + "`"@, m))),
        Ok(out) => if out.rc == 0 {
            (
                w1,
                Err(
                    "fork: target dataset already exists: "@ + target
                        + "\nhint: pick a different NAME, or `zboot drop "@ + name + "` first"@,
                ),
            )
        } else {
            let (w2, listed) = sub::capture_does(
                w1,
                "zfs"@,
                seq!["list"@, "-Hp"@, "-o"@, "name"@, "-t"@, "filesystem"@],
            );
            match listed {
                Err(m) => (w2, Err(m)),
                Ok(t) => {
                    let live = pools::full_lines(text::lines_of(t));
                    let (w3, got) = if live.len() == 0 {
                        (w2, Ok(""@))
                    } else {
                        sub::capture_does(
                            w2,
                            "zfs"@,
                            seq![
                                "get"@,
                                "-Hp"@,
                                "-o"@,
                                "name,property,value"@,
                                "origin,zboot:be,zboot:attached-to"@,
                            ] + live,
                        )
                    };
                    match got {
                        Err(m) => (w3, Err(m)),
                        Ok(u) => match model::props_of(u) {
                            Err(m) => (w3, Err(error::within("parsing `zfs get` output"@, m))),
                            Ok(rows) => match lineage_of(rows, live, snap.dataset) {
                                Err(m) => (w3, Err(m)),
                                Ok(_) => (w3, Ok(plan_of(snap, name, rows))),
                            },
                        },
                    }
                },
            }
        },
    }
}

impl ForkPlan {
    /// Looks at the machine and makes the plan, or says why there is none.
    pub fn resolve<R: Runner>(r: &mut R, snap: &SnapshotRef, target_name: &str) -> (res: Result<
        ForkPlan,
        Error,
    >)
        ensures
            sub::did(final(r).world(), res) == resolve_does(
                old(r).world(),
                snap.deep_view(),
                target_name@,
            ),
    {
        proof {
            reveal(resolve_does);
        }
        let pool: &str = pool_of(snap.dataset.as_str());
        let target: String = model::be_path(pool, target_name);
        let args = text::argv5("list", "-Hp", "-o", "name", target.as_str());
        match r.run("zfs", args.as_slice()) {
            Err(e) => {
                let doing: String = text::cat3("spawning `zfs list ", target.as_str(), "`");
                return Err(e.context(doing.as_str()));
            },
            Ok(out) => if out.rc == 0 {
                return Err(
                    Error::from_text(
                        text::cat5(
                            "fork: target dataset already exists: ",
                            target.as_str(),
                            "\nhint: pick a different NAME, or `zboot drop ",
                            target_name,
                            "` first",
                        ),
                    ),
                );
            },
        }
        let args = text::argv6("list", "-Hp", "-o", "name", "-t", "filesystem");
        let listed: String = match sub::zfs_capture(r, args.as_slice()) {
            Err(e) => return Err(e),
            Ok(t) => t,
        };
        let live = pools::nonblank_lines(listed.as_str());
        let got: String = if live.len() == 0 {
            "".to_owned()
        } else {
            let head = text::argv5(
                "get",
                "-Hp",
                "-o",
                "name,property,value",
                "origin,zboot:be,zboot:attached-to",
            );
            let args = text::extend_strs(head, &live);
            match sub::zfs_capture(r, args.as_slice()) {
                Err(e) => return Err(e),
                Ok(t) => t,
            }
        };
        let rows: Vec<(String, Property)> = match model::parse_zfs_get(got.as_str()) {
            Err(e) => return Err(e.context("parsing `zfs get` output")),
            Ok(x) => x,
        };
        if let Err(e) = check_origin_lineage(snap.dataset.as_str(), &live, &rows) {
            return Err(e);
        }
        let source_key: BoundKey = BoundKey::new(pool, last_component(snap.dataset.as_str()));
        let target_key: BoundKey = BoundKey::new(pool, target_name);
        let found = find_bound(&rows, &source_key);
        let shared = order::sort(found);
        proof {
            assert((|x: SharedFacts| <Shared as Keyed>::key_of(x)) =~= (|x: SharedFacts| x.dataset));
        }
        Ok(
            ForkPlan {
                source_snap: snap.copy(),
                target_dataset: target,
                source_key,
                target_key,
                bound_datasets_to_extend: shared,
            },
        )
    }
}

/// Adds the new boot environment to one binding list.
#[verifier::opaque]
pub open spec fn share_one_does(w: World, x: SharedFacts, key: Key) -> (World, Result<
    (),
    Seq<char>,
>) {
    let list = model::list_text(model::with_key(x.list, key));
    let (w1, done) = sub::run_does(
        w,
        "zfs"@,
        seq!["set"@, "zboot:attached-to="@ + list, x.dataset],
    );
    match done {
        Err(m) => (w1, Err(error::within("updating zboot:attached-to on "@ + x.dataset, m))),
        Ok(_) => sub::tell_does(w1, "  "@ + x.dataset + " -> "@ + list, "write"@),
    }
}

fn share_one<R: Runner>(r: &mut R, x: &Shared, key: &BoundKey) -> (res: Result<(), Error>)
    ensures
        sub::did(final(r).world(), res) == share_one_does(
            old(r).world(),
            x.deep_view(),
            key.deep_view(),
        ),
{
    proof {
        reveal(share_one_does);
    }
    let mut list: BoundList = x.list.copy();
    list.append(key.copy());
    let rendered: String = list.render();
    let assignment: String = text::cat2("zboot:attached-to=", rendered.as_str());
    let args = text::argv3("set", assignment.as_str(), x.dataset.as_str());
    match sub::zfs(r, args.as_slice()) {
        Err(e) => {
            let doing: String = text::cat2("updating zboot:attached-to on ", x.dataset.as_str());
            Err(e.context(doing.as_str()))
        },
        Ok(_) => {
            let line: String = text::cat4("  ", x.dataset.as_str(), " -> ", rendered.as_str());
            sub::tell(r, line.as_str(), "write")
        },
    }
}

/// Adds the new boot environment to each binding list, up to the first
/// failure.
pub open spec fn share_does(w: World, xs: Seq<SharedFacts>, key: Key) -> (World, Result<
    (),
    Seq<char>,
>)
    decreases xs.len(),
{
    if xs.len() == 0 {
        (w, Ok(()))
    } else {
        let (w1, so_far) = share_does(w, xs.drop_last(), key);
        if so_far is Err {
            (w1, so_far)
        } else {
            share_one_does(w1, xs.last(), key)
        }
    }
}

proof fn lemma_share_stops(w: World, xs: Seq<SharedFacts>, key: Key, i: int)
    requires
        0 <= i <= xs.len(),
        share_does(w, xs.take(i), key).1 is Err,
    ensures
        share_does(w, xs, key) == share_does(w, xs.take(i), key),
    decreases xs.len() - i,
{
    if i < xs.len() {
        assert(xs.take(i + 1).drop_last() =~= xs.take(i));
        lemma_share_stops(w, xs, key, i + 1);
    } else {
        assert(xs.take(i) =~= xs);
    }
}

fn share<R: Runner>(r: &mut R, xs: &Vec<Shared>, key: &BoundKey) -> (res: Result<(), Error>)
    ensures
        sub::did(final(r).world(), res) == share_does(
            old(r).world(),
            xs.deep_view(),
            key.deep_view(),
        ),
{
    let ghost w = r.world();
    let ghost all = xs.deep_view();
    let mut i: usize = 0;
    assert(all.take(0) =~= seq![]);
    while i < xs.len()
        invariant
            i <= xs@.len(),
            all == xs.deep_view(),
            w == old(r).world(),
            (r.world(), Ok::<(), Seq<char>>(())) == share_does(
                w,
                all.take(i as int),
                key.deep_view(),
            ),
        decreases xs@.len() - i,
    {
        proof {
            assert(all.take(i + 1).drop_last() =~= all.take(i as int));
            assert(all.take(i + 1).last() == xs@[i as int].deep_view());
        }
        if let Err(e) = share_one(r, &xs[i], key) {
            proof {
                lemma_share_stops(w, all, key.deep_view(), i + 1);
            }
            return Err(e);
        }
        i = i + 1;
    }
    assert(all.take(i as int) =~= all);
    Ok(())
}

/// What is told of the datasets that the new boot environment shares.
pub open spec fn sharing_line(p: Plan) -> Seq<char> {
    if p.shared.len() == 0 {
        "No bound datasets reference "@ + model::key_text(p.source_key)
            + " — new BE has no shared state."@
    } else {
        "Sharing "@ + text::decimal(p.shared.len()) + " bound dataset(s) with "@
            + model::key_text(p.source_key) + ":"@
    }
}

/// Carries the plan out: the clone, its mark, no peer, the shared bindings.
#[verifier::opaque]
pub open spec fn execute_does(w: World, p: Plan) -> (World, Result<(), Seq<char>>) {
    let from = model::snap_text(p.source);
    let (w1, cloned) = sub::run_does(
        w,
        "zfs"@,
        seq!["clone"@, "-o"@, "canmount=noauto"@, "-o"@, "mountpoint=/"@, from, p.target],
    );
    if cloned is Err {
        (w1, Err(error::within("`zfs clone` to "@ + p.target + " failed"@, cloned->Err_0)))
    } else {
        let (w2, marked) = sub::run_does(
            w1,
            "zfs"@,
            seq!["set"@, "zboot:be=true"@, p.target],
        );
        if marked is Err {
            (
                w2,
                Err(
                    error::within(
                        "`zfs set zboot:be=true "@ + p.target + "` failed"@,
                        marked->Err_0,
                    ),
                ),
            )
        } else {
            let (w3, created) = sub::tell_does(
                zfs_ops::inherit_property_does(w2, p.target, "zboot:mirror"@),
                "Created "@ + p.target + " (cloned from "@ + from + "); zboot:be=true"@,
                "write"@,
            );
            if created is Err {
                (w3, created)
            } else {
                let (w4, told) = sub::tell_does(w3, sharing_line(p), "write"@);
                if told is Err {
                    (w4, told)
                } else {
                    share_does(w4, p.shared, p.target_key)
                }
            }
        }
    }
}

impl ForkPlan {
    /// Carries the plan out.
    pub fn execute<R: Runner>(&self, r: &mut R) -> (res: Result<(), Error>)
        ensures
            sub::did(final(r).world(), res) == execute_does(old(r).world(), self.deep_view()),
    {
        proof {
            reveal(execute_does);
        }
        let target: &str = self.target_dataset.as_str();
        let from: String = self.source_snap.render();
        let args = text::argv7(
            "clone",
            "-o",
            "canmount=noauto",
            "-o",
            "mountpoint=/",
            from.as_str(),
            target,
        );
        if let Err(e) = sub::zfs(r, args.as_slice()) {
            let doing: String = text::cat3("`zfs clone` to ", target, " failed");
            return Err(e.context(doing.as_str()));
        }
        let args = text::argv3("set", "zboot:be=true", target);
        if let Err(e) = sub::zfs(r, args.as_slice()) {
            let doing: String = text::cat3("`zfs set zboot:be=true ", target, "` failed");
            return Err(e.context(doing.as_str()));
        }
        let _ = zfs_ops::clear_pair_pointer(r, target);
        let line: String = text::cat5(
            "Created ",
            target,
            " (cloned from ",
            from.as_str(),
            "); zboot:be=true",
        );
        if let Err(e) = sub::tell(r, line.as_str(), "write") {
            return Err(e);
        }
        let key: String = self.source_key.render();
        let line: String = if self.bound_datasets_to_extend.len() == 0 {
            text::cat3(
                "No bound datasets reference ",
                key.as_str(),
                " — new BE has no shared state.",
            )
        } else {
            let n: String = text::dec_len(self.bound_datasets_to_extend.len());
            text::cat5("Sharing ", n.as_str(), " bound dataset(s) with ", key.as_str(), ":")
        };
        if let Err(e) = sub::tell(r, line.as_str(), "write") {
            return Err(e);
        }
        share(r, &self.bound_datasets_to_extend, &self.target_key)
    }
}

/// Why a name cannot be that of a boot environment, if it cannot.
pub open spec fn bad_name(name: Seq<char>) -> Option<Seq<char>> {
    if name.len() == 0 {
        Some("fork: NAME must be non-empty"@)
    } else if name.contains('/') || name.contains('@') {
        Some(
            "fork: NAME must be a bare BE name (no `/` or `@`); got "@ + text::quoted_text(name),
        )
    } else {
        None
    }
}

/// `fork`, by its arguments.
pub open spec fn run_does(w: World, name: Seq<char>, from: Seq<char>) -> (World, Result<
    (),
    Seq<char>,
>) {
    let (w1, resolved) = resolve_from_does(w, from);
    match resolved {
        Err(m) => (w1, Err(m)),
        Ok(snap) => match bad_name(name) {
            Some(m) => (w1, Err(m)),
            None => {
                let (w2, planned) = resolve_does(w1, snap, name);
                match planned {
                    Err(m) => (w2, Err(m)),
                    Ok(plan) => execute_does(w2, plan),
                }
            },
        },
    }
}

/// Runs `fork`.
pub fn run<R: Runner>(r: &mut R, args: &ForkArgs) -> (res: Result<(), Error>)
    ensures
        sub::did(final(r).world(), res) == run_does(old(r).world(), args.name@, args.from@),
{
    let snap: SnapshotRef = match resolve_from(r, args.from.as_str()) {
        Err(e) => return Err(e),
        Ok(s) => s,
    };
    let name: &str = args.name.as_str();
    if name.is_empty() {
        return Err(Error::new("fork: NAME must be non-empty"));
    }
    if text::has(name, '/') || text::has(name, '@') {
        let q: String = text::quoted(name);
        return Err(
            Error::from_text(
                text::cat2(
                    "fork: NAME must be a bare BE name (no `/` or `@`); got ",
                    q.as_str(),
                ),
            ),
        );
    }
    let plan: ForkPlan = match ForkPlan::resolve(r, &snap, name) {
        Err(e) => return Err(e),
        Ok(p) => p,
    };
    plan.execute(r)
}

// ---------------------------------------------------------------------------
// Laws
// ---------------------------------------------------------------------------

/// A fork that is refused, for its name, for a target that exists or for a
/// broken lineage, has changed nothing.
pub proof fn law_refused_fork_changes_nothing(w: World, snap: Snap, name: Seq<char>)
    ensures
        sub::only_looked(w, resolve_does(w, snap, name).0),
{
    reveal(resolve_does);
}

/// The datasets that the new boot environment shares are those bound to the
/// source, by name; after the fork each lists the new one as well.
pub proof fn law_shared_are_the_bound(snap: Snap, name: Seq<char>, rows: Rows, i: int)
    requires
        0 <= i < plan_of(snap, name, rows).shared.len(),
    ensures
        ({
            let p = plan_of(snap, name, rows);
            p.shared[i].list.contains(p.source_key) && model::with_key(
                p.shared[i].list,
                p.target_key,
            ).contains(p.target_key) && order::ascending(p.shared, |x: SharedFacts| x.dataset)
        }),
{
    let p = plan_of(snap, name, rows);
    let key = |x: SharedFacts| x.dataset;
    let b = bound_rows(rows, p.source_key);
    order::law_sorted(b, key);
    broadcast use vstd::seq_lib::group_to_multiset_ensures;

    assert(p.shared.contains(p.shared[i]));
    assert(p.shared.to_multiset().count(p.shared[i]) > 0);
    assert(b.contains(p.shared[i]));
    lemma_bound_rows(rows, p.source_key);
    model::law_append_idempotent(p.shared[i].list, p.target_key);
}

proof fn lemma_bound_rows(rows: Rows, key: Key)
    ensures
        forall|i: int|
            0 <= i < bound_rows(rows, key).len() ==> (#[trigger] bound_rows(
                rows,
                key,
            )[i]).list.contains(key),
    decreases rows.len(),
{
    if rows.len() > 0 {
        lemma_bound_rows(rows.drop_last(), key);
        let front = bound_rows(rows.drop_last(), key);
        assert forall|i: int| 0 <= i < bound_rows(rows, key).len() implies (#[trigger] bound_rows(
            rows,
            key,
        )[i]).list.contains(key) by {
            if i < front.len() {
                assert(bound_rows(rows, key)[i] == front[i]);
            }
        }
    }
}

/// A fork that succeeds has cloned the snapshot under the new name, mounted at
/// `/` and by hand only, and marked the clone; and every dataset bound to the
/// source is bound to the new boot environment too.
pub proof fn law_forked_is_a_be(w: World, p: Plan)
    requires
        execute_does(w, p).1 is Ok,
    ensures
        ({
            let end = execute_does(w, p).0;
            &&& sub::called(
                w,
                end,
                Call::Run {
                    prog: "zfs"@,
                    args: seq![
                        "clone"@,
                        "-o"@,
                        "canmount=noauto"@,
                        "-o"@,
                        "mountpoint=/"@,
                        model::snap_text(p.source),
                        p.target,
                    ],
                },
            )
            &&& sub::called(
                w,
                end,
                Call::Run { prog: "zfs"@, args: seq!["set"@, "zboot:be=true"@, p.target] },
            )
            &&& forall|i: int|
                0 <= i < p.shared.len() ==> sub::called(
                    w,
                    end,
                    rebinding(#[trigger] p.shared[i], p.target_key),
                )
        }),
{
    reveal(execute_does);
    reveal(zfs_ops::inherit_property_does);
    let from = model::snap_text(p.source);
    let clone = seq!["clone"@, "-o"@, "canmount=noauto"@, "-o"@, "mountpoint=/"@, from, p.target];
    let mark = seq!["set"@, "zboot:be=true"@, p.target];
    let w1 = sub::run_does(w, "zfs"@, clone).0;
    let w2 = sub::run_does(w1, "zfs"@, mark).0;
    let w3 = zfs_ops::inherit_property_does(w2, p.target, "zboot:mirror"@).say(
        "Created "@ + p.target + " (cloned from "@ + from + "); zboot:be=true"@,
    );
    let w4 = w3.say(sharing_line(p));
    let end = share_does(w4, p.shared, p.target_key).0;
    lemma_share(w4, p.shared, p.target_key);
    let n = w.calls.len() as int;
    assert(w4.calls[n + 1] == Call::Run { prog: "zfs"@, args: clone });
    assert(w4.calls[n + 3] == Call::Run { prog: "zfs"@, args: mark });
    assert(end.calls[n + 1] == w4.calls[n + 1]);
    assert(end.calls[n + 3] == w4.calls[n + 3]);
    assert forall|i: int| 0 <= i < p.shared.len() implies sub::called(
        w,
        end,
        rebinding(#[trigger] p.shared[i], p.target_key),
    ) by {
        let c = rebinding(p.shared[i], p.target_key);
        assert(sub::called(w4, end, c));
        let k = choose|k: int| w4.calls.len() <= k < end.calls.len() && #[trigger] end.calls[k] == c;
        assert(w.calls.len() <= k);
    }
}

/// The command that adds a boot environment to the list of a dataset.
pub open spec fn rebinding(x: SharedFacts, key: Key) -> Call {
    Call::Run {
        prog: "zfs"@,
        args: seq![
            "set"@,
            "zboot:attached-to="@ + model::list_text(model::with_key(x.list, key)),
            x.dataset,
        ],
    }
}

proof fn lemma_share(w: World, xs: Seq<SharedFacts>, key: Key)
    requires
        share_does(w, xs, key).1 is Ok,
    ensures
        sub::continues(w, share_does(w, xs, key).0),
        forall|i: int|
            0 <= i < xs.len() ==> sub::called(
                w,
                share_does(w, xs, key).0,
                rebinding(#[trigger] xs[i], key),
            ),
    decreases xs.len(),
{
    reveal(share_one_does);
    if xs.len() > 0 {
        let front = xs.drop_last();
        lemma_share(w, front, key);
        let w1 = share_does(w, front, key).0;
        let end = share_does(w, xs, key).0;
        let n = w1.calls.len() as int;
        assert(end.calls[n + 1] == rebinding(xs.last(), key));
        assert forall|i: int| 0 <= i < xs.len() implies sub::called(
            w,
            end,
            rebinding(#[trigger] xs[i], key),
        ) by {
            if i < front.len() {
                assert(front[i] == xs[i]);
                let c = rebinding(front[i], key);
                assert(sub::called(w, w1, c));
                let k = choose|k: int|
                    w.calls.len() <= k < w1.calls.len() && #[trigger] w1.calls[k] == c;
                assert(end.calls[k] == w1.calls[k]);
            }
        }
    }
}

/// Every row that binds a dataset to the key is found, with its list, and no other.
pub proof fn law_bound_rows_are_found(rows: Rows, key: Key)
    ensures
        forall|x: SharedFacts| #[trigger] bound_rows(rows, key).contains(x) <==> exists|i: int| 0 <= i < rows.len() && (#[trigger] rows[i]).0 == x.dataset && (#[trigger] rows[i]).1 == Prop::AttachedTo(x.list) && x.list.contains(key),
    decreases rows.len(),
{
    if rows.len() > 0 {
        let front = rows.drop_last();
        law_bound_rows_are_found(front, key);
        let before = bound_rows(front, key);
        let all = bound_rows(rows, key);
        assert forall|x: SharedFacts| #[trigger] all.contains(x) <==> exists|i: int| 0 <= i < rows.len() && (#[trigger] rows[i]).0 == x.dataset && (#[trigger] rows[i]).1 == Prop::AttachedTo(x.list) && x.list.contains(key) by {
            if all.contains(x) {
                let k = choose|k: int| 0 <= k < all.len() && all[k] == x;
                if k < before.len() {
                    assert(before[k] == x);
                    assert(before.contains(x));
                    let i = choose|i: int| 0 <= i < front.len() && (#[trigger] front[i]).0 == x.dataset && (#[trigger] front[i]).1 == Prop::AttachedTo(x.list) && x.list.contains(key);
                    assert(rows[i] == front[i]);
                } else {
                    assert(rows[rows.len() - 1].0 == x.dataset && rows[rows.len() - 1].1 == Prop::AttachedTo(x.list) && x.list.contains(key));
                }
            }
            if exists|i: int| 0 <= i < rows.len() && (#[trigger] rows[i]).0 == x.dataset && (#[trigger] rows[i]).1 == Prop::AttachedTo(x.list) && x.list.contains(key) {
                let i = choose|i: int| 0 <= i < rows.len() && (#[trigger] rows[i]).0 == x.dataset && (#[trigger] rows[i]).1 == Prop::AttachedTo(x.list) && x.list.contains(key);
                if i < front.len() {
                    assert(front[i] == rows[i]);
                    assert(before.contains(x));
                    let k = choose|k: int| 0 <= k < before.len() && before[k] == x;
                    assert(all[k] == x);
                } else {
                    assert(rows[i] == rows.last());
                    assert(all[all.len() - 1] == x);
                }
            }
        }
    }
}

/// The plan shares every dataset that a row binds to the source, with its list,
/// and no other.
pub proof fn law_every_bound_is_shared(snap: Snap, name: Seq<char>, rows: Rows)
    ensures
        ({
            let p = plan_of(snap, name, rows);
            let source = Key {
                pool: text::before(snap.dataset, '/'),
                be: text::after_last(snap.dataset, '/'),
            };
            forall|x: SharedFacts| #[trigger]
                p.shared.contains(x) <==> exists|i: int|
                    0 <= i < rows.len() && (#[trigger] rows[i]) == (
                        x.dataset,
                        Prop::AttachedTo(x.list),
                    ) && x.list.contains(source)
        }),
{
    broadcast use vstd::seq_lib::group_to_multiset_ensures;

    let p = plan_of(snap, name, rows);
    let b = bound_rows(rows, p.source_key);
    law_bound_rows_are_found(rows, p.source_key);
    order::law_sorted(b, |x: SharedFacts| x.dataset);
    assert forall|x: SharedFacts| #[trigger]
        p.shared.contains(x) <==> exists|i: int|
            0 <= i < rows.len() && (#[trigger] rows[i]) == (x.dataset, Prop::AttachedTo(x.list))
                && x.list.contains(p.source_key) by {
        assert(p.shared.contains(x) <==> b.contains(x)) by {
            assert(p.shared.to_multiset().count(x) > 0 <==> p.shared.contains(x));
            assert(b.to_multiset().count(x) > 0 <==> b.contains(x));
        }
        if b.contains(x) {
            let i = choose|i: int|
                0 <= i < rows.len() && (#[trigger] rows[i]).0 == x.dataset && rows[i].1
                    == Prop::AttachedTo(x.list) && x.list.contains(p.source_key);
            assert(rows[i] == (x.dataset, Prop::AttachedTo(x.list)));
        }
    }
}

/// The call that asks for what a fork has to know of file systems.
pub open spec fn facts_call(live: Seq<Seq<char>>) -> Call {
    Call::Run {
        prog: "zfs"@,
        args: seq![
            "get"@,
            "-Hp"@,
            "-o"@,
            "name,property,value"@,
            "origin,zboot:be,zboot:attached-to"@,
        ] + live,
    }
}

/// The call of a number lists all file systems, the next tells what is known of
/// each of them, and these are the rows. (Of no file systems nothing is asked.)
pub open spec fn surveyed(w: World, n: int, rows: Rows) -> bool {
    let live = pools::full_lines(text::lines_of((w.replies)(n as nat).stdout));
    &&& w.calls[n] == Call::Run {
        prog: "zfs"@,
        args: seq!["list"@, "-Hp"@, "-o"@, "name"@, "-t"@, "filesystem"@],
    }
    &&& effects::succeeded(w, n)
    &&& if live.len() == 0 {
        rows.len() == 0
    } else {
        &&& w.calls[n + 1] == facts_call(live)
        &&& effects::succeeded(w, n + 1)
        &&& model::props_of((w.replies)((n + 1) as nat).stdout) == Ok::<Rows, Seq<char>>(rows)
    }
}

/// A fork that succeeds has cloned the snapshot under the new name, mounted at
/// `/` and by hand only, and marked the clone; and every dataset that is bound
/// to the source, by any row of the survey, has had the new one added to the end
/// of its list. All these commands succeeded.
pub proof fn law_fork_shares_everything(w: World, name: Seq<char>, from: Seq<char>)
    requires
        run_does(w, name, from).1 is Ok,
    ensures
        ({
            let end = run_does(w, name, from).0;
            resolve_from_does(w, from).1 matches Ok(snap) && {
                let pool = text::before(snap.dataset, '/');
                let source = Key { pool, be: text::after_last(snap.dataset, '/') };
                let target = pool + "/ROOT/"@ + name;
                let new = Key { pool, be: name };
                &&& effects::ran(
                    w,
                    end,
                    "zfs"@,
                    seq![
                        "clone"@,
                        "-o"@,
                        "canmount=noauto"@,
                        "-o"@,
                        "mountpoint=/"@,
                        snap.dataset + "@"@ + snap.name,
                        target,
                    ],
                )
                &&& effects::ran(w, end, "zfs"@, seq!["set"@, "zboot:be=true"@, target])
                &&& exists|n: int, rows: Rows|
                    w.calls.len() <= n < end.calls.len() && #[trigger] surveyed(end, n, rows)
                        && every_binding_extended(w, end, rows, source, new)
            }
        }),
{
    reveal(resolve_does);
    let (w1, resolved) = resolve_from_does(w, from);
    let snap = resolved->Ok_0;
    let (w2, planned) = resolve_does(w1, snap, name);
    let p = planned->Ok_0;
    let end = execute_does(w2, p).0;
    lemma_from_looks(w, from);
    law_refused_fork_changes_nothing(w1, snap, name);
    effects::lemma_continues(w, w1, w2);
    lemma_executed(w2, p);
    effects::lemma_continues(w, w2, end);
    effects::lemma_continues(w1, w2, end);
    assert(sub::continues(end, end));
    let clone = seq![
        "clone"@,
        "-o"@,
        "canmount=noauto"@,
        "-o"@,
        "mountpoint=/"@,
        model::snap_text(p.source),
        p.target,
    ];
    effects::lemma_ran_within(w, w2, end, end, "zfs"@, clone);
    effects::lemma_ran_within(w, w2, end, end, "zfs"@, seq!["set"@, "zboot:be=true"@, p.target]);
    let n = w1.calls.len() as int + 1;
    assert(end.calls[n] == w2.calls[n]);
    let live = pools::full_lines(text::lines_of((w.replies)(n as nat).stdout));
    let rows = if live.len() == 0 {
        seq![]
    } else {
        model::props_of((w.replies)((n + 1) as nat).stdout)->Ok_0
    };
    if live.len() == 0 {
        reveal_strlit("");
        assert(text::lines_of(""@) =~= seq![]);
        assert(model::props_of(""@) == Ok::<Rows, Seq<char>>(rows));
    } else {
        assert(end.calls[n + 1] == w2.calls[n + 1]);
    }
    assert(surveyed(end, n, rows));
    assert(p == plan_of(snap, name, rows));
    law_every_bound_is_shared(snap, name, rows);
    assert forall|i: int|
        0 <= i < rows.len() && ((#[trigger] rows[i]).1 matches Prop::AttachedTo(ks) && ks.contains(
            p.source_key,
        )) implies effects::ran(
        w,
        end,
        "zfs"@,
        extension(rows[i].0, rows[i].1->AttachedTo_0, p.target_key),
    ) by {
        let x = SharedFacts { dataset: rows[i].0, list: rows[i].1->AttachedTo_0 };
        assert(rows[i] == (x.dataset, Prop::AttachedTo(x.list)));
        assert(p.shared.contains(x));
        let k = choose|k: int| 0 <= k < p.shared.len() && p.shared[k] == x;
        assert(p.shared[k] == x);
        effects::lemma_ran_within(
            w,
            w2,
            end,
            end,
            "zfs"@,
            extension(x.dataset, x.list, p.target_key),
        );
    }
}

/// The arguments that put a key behind the list of a dataset, unless it is
/// there.
pub open spec fn extension(ds: Seq<char>, ks: Seq<Key>, new: Key) -> Seq<Seq<char>> {
    seq![
        "set"@,
        "zboot:attached-to="@ + model::list_text(
            if ks.contains(new) {
                ks
            } else {
                ks.push(new)
            },
        ),
        ds,
    ]
}

/// Every dataset that a row binds to the one key was bound to the other too.
pub open spec fn every_binding_extended(
    a: World,
    b: World,
    rows: Rows,
    source: Key,
    new: Key,
) -> bool {
    forall|i: int|
        0 <= i < rows.len() && ((#[trigger] rows[i]).1 matches Prop::AttachedTo(ks) && ks.contains(
            source,
        )) ==> effects::ran(
            a,
            b,
            "zfs"@,
            extension(rows[i].0, rows[i].1->AttachedTo_0, new),
        )
}

proof fn lemma_from_looks(w: World, from: Seq<char>)
    ensures
        sub::only_looked(w, resolve_from_does(w, from).0),
{
    reveal(active_be_dataset_does);
    let w1 = w.run("zpool"@, seq!["list"@, "-Hp"@, "-o"@, "name,bootfs"@]);
    if let Ok(out) = w.ran() {
        lemma_root_bootfs_looks(w1, text::lines_of(out.stdout));
    }
}

proof fn lemma_root_bootfs_looks(w: World, ls: Seq<Seq<char>>)
    ensures
        sub::only_looked(w, root_bootfs_does(w, ls).0),
    decreases ls.len(),
{
    if ls.len() > 0 {
        let pool = zfs_ops::tab_column(ls[0], 0, ""@);
        zfs_ops::lemma_pool_property_looks(w, pool, "zboot:role"@);
        let w1 = zfs_ops::pool_property_does(w, pool, "zboot:role"@).0;
        lemma_root_bootfs_looks(w, ls.drop_first());
        lemma_root_bootfs_looks(w1, ls.drop_first());
        effects::lemma_looked_on(w, w1, root_bootfs_does(w1, ls.drop_first()).0);
    }
}

/// What carrying a plan out ran.
proof fn lemma_executed(w: World, p: Plan)
    requires
        execute_does(w, p).1 is Ok,
    ensures
        ({
            let end = execute_does(w, p).0;
            &&& sub::continues(w, end)
            &&& effects::ran(
                w,
                end,
                "zfs"@,
                seq![
                    "clone"@,
                    "-o"@,
                    "canmount=noauto"@,
                    "-o"@,
                    "mountpoint=/"@,
                    model::snap_text(p.source),
                    p.target,
                ],
            )
            &&& effects::ran(w, end, "zfs"@, seq!["set"@, "zboot:be=true"@, p.target])
            &&& forall|i: int|
                0 <= i < p.shared.len() ==> effects::ran(
                    w,
                    end,
                    "zfs"@,
                    extension((#[trigger] p.shared[i]).dataset, p.shared[i].list, p.target_key),
                )
        }),
{
    reveal(execute_does);
    reveal(zfs_ops::inherit_property_does);
    let from = model::snap_text(p.source);
    let clone = seq!["clone"@, "-o"@, "canmount=noauto"@, "-o"@, "mountpoint=/"@, from, p.target];
    let mark = seq!["set"@, "zboot:be=true"@, p.target];
    let w1 = sub::run_does(w, "zfs"@, clone).0;
    let w2 = sub::run_does(w1, "zfs"@, mark).0;
    let w3 = zfs_ops::inherit_property_does(w2, p.target, "zboot:mirror"@).say(
        "Created "@ + p.target + " (cloned from "@ + from + "); zboot:be=true"@,
    );
    let w4 = w3.say(sharing_line(p));
    let end = share_does(w4, p.shared, p.target_key).0;
    effects::lemma_run_ran(w, "zfs"@, clone);
    effects::lemma_run_ran(w1, "zfs"@, mark);
    lemma_share(w4, p.shared, p.target_key);
    lemma_shared_ran(w4, p.shared, p.target_key);
    assert(sub::continues(w2, w4));
    effects::lemma_continues(w2, w4, end);
    effects::lemma_continues(w1, w2, end);
    effects::lemma_continues(w, w1, w2);
    effects::lemma_continues(w, w2, w4);
    effects::lemma_continues(w, w4, end);
    assert(sub::continues(w, w) && sub::continues(end, end));
    effects::lemma_ran_within(w, w, w1, end, "zfs"@, clone);
    effects::lemma_ran_within(w, w1, w2, end, "zfs"@, mark);
    assert forall|i: int| 0 <= i < p.shared.len() implies effects::ran(
        w,
        end,
        "zfs"@,
        extension((#[trigger] p.shared[i]).dataset, p.shared[i].list, p.target_key),
    ) by {
        effects::lemma_ran_within(
            w,
            w4,
            end,
            end,
            "zfs"@,
            extension(p.shared[i].dataset, p.shared[i].list, p.target_key),
        );
    }
}

proof fn lemma_shared_ran(w: World, xs: Seq<SharedFacts>, key: Key)
    requires
        share_does(w, xs, key).1 is Ok,
    ensures
        forall|i: int|
            0 <= i < xs.len() ==> effects::ran(
                w,
                share_does(w, xs, key).0,
                "zfs"@,
                extension((#[trigger] xs[i]).dataset, xs[i].list, key),
            ),
    decreases xs.len(),
{
    reveal(share_one_does);
    if xs.len() > 0 {
        let front = xs.drop_last();
        lemma_shared_ran(w, front, key);
        lemma_share(w, front, key);
        let w1 = share_does(w, front, key).0;
        let end = share_does(w, xs, key).0;
        let args = extension(xs.last().dataset, xs.last().list, key);
        effects::lemma_run_ran(w1, "zfs"@, args);
        let w2 = sub::run_does(w1, "zfs"@, args).0;
        assert(sub::continues(w2, end));
        assert(sub::continues(w, w));
        effects::lemma_ran_within(w, w1, w2, end, "zfs"@, args);
        effects::lemma_continues(w1, w2, end);
        assert forall|i: int| 0 <= i < xs.len() implies effects::ran(
            w,
            end,
            "zfs"@,
            extension((#[trigger] xs[i]).dataset, xs[i].list, key),
        ) by {
            if i < front.len() {
                assert(front[i] == xs[i]);
                effects::lemma_ran_within(
                    w,
                    w,
                    w1,
                    end,
                    "zfs"@,
                    extension(xs[i].dataset, xs[i].list, key),
                );
            }
        }
    }
}

/// A fork is planned only under a name that is free.
pub proof fn law_taken_name_is_refused(w: World, snap: Snap, name: Seq<char>)
    requires
        resolve_does(w, snap, name).1 is Ok,
    ensures
        ({
            let end = resolve_does(w, snap, name).0;
            let n = w.calls.len() as int;
            &&& end.calls[n] == (Call::Run {
                prog: "zfs"@,
                args: seq![
                    "list"@,
                    "-Hp"@,
                    "-o"@,
                    "name"@,
                    text::before(snap.dataset, '/') + "/ROOT/"@ + name,
                ],
            })
            &&& w.reply().failure is None && w.reply().rc != 0
        }),
{
    reveal(resolve_does);
    let target = model::be_dataset(text::before(snap.dataset, '/'), name);
    assert(target =~= text::before(snap.dataset, '/') + "/ROOT/"@ + name);
}

/// A snapshot that is named in full is the one that is forked.
pub proof fn law_full_name_is_taken(w: World, from: Seq<char>, snap: Snap)
    requires
        from == snap.dataset + seq!['@'] + snap.name,
        snap.dataset.len() > 0,
        snap.name.len() > 0,
        model::snap_of(from) is Some,
        !snap.dataset.contains('@'),
        !snap.name.contains('@'),
    ensures
        resolve_from_does(w, from) == (w, Ok::<Snap, Seq<char>>(snap)),
{
    assert(from[snap.dataset.len() as int] == '@');
    assert(from.contains('@'));
    assert(model::snap_text(snap) =~= from) by {
        reveal_strlit("@");
    }
    model::law_snapshot_round_trip(snap);
}

} // verus!
