//! Questions to `zfs` and `zpool`, and the standard changes made through
//! them, shared by the verbs.

use vstd::prelude::*;

use crate::error;
use crate::error::Error;
use crate::model;
use crate::model::PairPointer;
use crate::order;
use crate::sub;
use crate::sub::{Call, Fault, Runner, Step, World};
use crate::text;

verus! {

// ---------------------------------------------------------------------------
// Existence and introspection
// ---------------------------------------------------------------------------

/// An exit code as an error message shows it; a program that a signal ended
/// has none.
pub open spec fn rc_text(rc: int) -> Seq<char> {
    if rc == -1 {
        "None"@
    } else {
        "Some("@ + text::signed_decimal(rc) + ")"@
    }
}

/// An exit code as an error message shows it.
pub fn rc_shown(rc: i32) -> (r: String)
    ensures
        r@ == rc_text(rc as int),
{
    if rc == -1 {
        "None".to_owned()
    } else {
        let n: String = text::dec_signed(rc as i64);
        text::cat3("Some(", n.as_str(), ")")
    }
}

/// `zfs list` of the dataset succeeds.
#[verifier::opaque]
pub open spec fn dataset_exists_does(w: World, ds: Seq<char>) -> (World, Result<bool, Seq<char>>) {
    (
        w.run("zfs"@, seq!["list"@, "-H"@, "-o"@, "name"@, ds]),
        match w.ran() {
            Err(m) => Err(error::within("spawning zfs list"@, m)),
            Ok(out) => Ok(out.rc == 0),
        },
    )
}

/// True iff `ds` is a dataset on an imported pool.
pub fn dataset_exists<R: Runner>(r: &mut R, ds: &str) -> (res: Result<bool, Error>)
    ensures
        sub::did(final(r).world(), res) == dataset_exists_does(old(r).world(), ds@),
{
    proof {
        reveal(dataset_exists_does);
    }
    let args = text::argv5("list", "-H", "-o", "name", ds);
    match r.run("zfs", args.as_slice()) {
        Err(e) => Err(e.context("spawning zfs list")),
        Ok(out) => Ok(out.rc == 0),
    }
}

/// [`dataset_exists`], with a failure read as absence.
pub open spec fn exists_or_not(r: Result<bool, Seq<char>>) -> bool {
    r == Ok::<bool, Seq<char>>(true)
}

/// What a `get` of one property on one target says.
pub open spec fn property_reply(
    w: World,
    prog: Seq<char>,
    prop: Seq<char>,
    target: Seq<char>,
) -> Result<Seq<char>, Seq<char>> {
    let what = prog + " get "@ + prop + " "@ + target;
    match w.printed() {
        Err(m) => Err(error::within("spawning "@ + what, m)),
        Ok(out) => if out.rc != 0 {
            Err(what + " rc="@ + rc_text(out.rc) + ": "@ + text::trimmed(out.stderr))
        } else {
            match sub::legible(out, "non-utf8 from "@ + prog + " get"@) {
                Err(m) => Err(m),
                Ok(_) => Ok(text::trimmed(out.stdout)),
            }
        },
    }
}

fn read_property_reply(
    got: Result<sub::PrintOutput, Error>,
    prog: &str,
    prop: &str,
    target: &str,
    Ghost(w): Ghost<World>,
) -> (res: Result<String, Error>)
    requires
        error::outcome(got) == w.printed(),
    ensures
        error::outcome(res) == property_reply(w, prog@, prop@, target@),
        res matches Err(e) ==> match w.printed() {
            Err(_) => e.outermost@ == "spawning "@ + (prog@ + " get "@ + prop@ + " "@ + target@),
            Ok(out) => if out.rc == 0 {
                e.outermost@ == "non-utf8 from "@ + prog@ + " get"@
            } else {
                e.outermost@ == e@
            },
        },
{
    let what: String = text::cat5(prog, " get ", prop, " ", target);
    match got {
        Err(e) => {
            let doing: String = text::cat2("spawning ", what.as_str());
            Err(e.context(doing.as_str()))
        },
        Ok(out) => if out.rc != 0 {
            let rc: String = rc_shown(out.rc);
            Err(
                Error::from_text(
                    text::cat5(
                        what.as_str(),
                        " rc=",
                        rc.as_str(),
                        ": ",
                        text::trim(out.stderr.as_str()),
                    ),
                ),
            )
        } else {
            let doing: String = text::cat3("non-utf8 from ", prog, " get");
            match sub::check_legible(&out, doing.as_str()) {
                Err(e) => Err(e),
                Ok(()) => Ok(text::trim(out.stdout.as_str()).to_owned()),
            }
        },
    }
}

/// `zfs get` of one property of one dataset.
#[verifier::opaque]
pub open spec fn dataset_property_does(w: World, ds: Seq<char>, prop: Seq<char>) -> (World, Result<
    Seq<char>,
    Seq<char>,
>) {
    (
        w.run("zfs"@, seq!["get"@, "-Hp"@, "-o"@, "value"@, prop, ds]),
        property_reply(w, "zfs"@, prop, ds),
    )
}

/// Reads a property of a dataset, without the white space around it. Fails
/// where the dataset is missing or the property is not known.
pub fn dataset_property<R: Runner>(r: &mut R, ds: &str, prop: &str) -> (res: Result<String, Error>)
    ensures
        sub::did(final(r).world(), res) == dataset_property_does(old(r).world(), ds@, prop@),
        res matches Err(e) ==> e.outermost@ == sub::outermost(final(r).world(), e@),
{
    proof {
        reveal(dataset_property_does);
    }
    let ghost w = r.world();
    let args = text::argv6("get", "-Hp", "-o", "value", prop, ds);
    let got = r.read("zfs", args.as_slice());
    let res = read_property_reply(got, "zfs", prop, ds, Ghost(w));
    proof {
        let c = Call::Run { prog: "zfs"@, args: args.deep_view() };
        sub::lemma_outermost(w, c, "spawning "@ + ("zfs"@ + " get "@ + prop@ + " "@ + ds@));
        sub::lemma_outermost(w, c, "non-utf8 from "@ + "zfs"@ + " get"@);
        if res is Err {
            sub::lemma_outermost(w, c, res->Err_0@);
        }
    }
    res
}

/// `zpool get` of one property of one pool.
#[verifier::opaque]
pub open spec fn pool_property_does(w: World, pool: Seq<char>, prop: Seq<char>) -> (World, Result<
    Seq<char>,
    Seq<char>,
>) {
    (
        w.run("zpool"@, seq!["get"@, "-H"@, "-o"@, "value"@, prop, pool]),
        property_reply(w, "zpool"@, prop, pool),
    )
}

/// Reads a property of a pool, without the white space around it.
pub fn pool_property<R: Runner>(r: &mut R, pool: &str, prop: &str) -> (res: Result<String, Error>)
    ensures
        sub::did(final(r).world(), res) == pool_property_does(old(r).world(), pool@, prop@),
{
    proof {
        reveal(pool_property_does);
    }
    let ghost w = r.world();
    let args = text::argv6("get", "-H", "-o", "value", prop, pool);
    let got = r.read("zpool", args.as_slice());
    read_property_reply(got, "zpool", prop, pool, Ghost(w))
}

/// `zfs list -t snapshot` of the snapshot succeeds.
#[verifier::opaque]
pub open spec fn snapshot_exists_does(w: World, full: Seq<char>) -> (World, Result<
    bool,
    Seq<char>,
>) {
    (
        w.run("zfs"@, seq!["list"@, "-H"@, "-t"@, "snapshot"@, "-o"@, "name"@, full]),
        match w.ran() {
            Err(m) => Err(error::within("spawning zfs list snapshot "@ + full, m)),
            Ok(out) => Ok(out.rc == 0),
        },
    )
}

/// True iff `<dataset>@<name>` is a snapshot.
pub fn snapshot_exists<R: Runner>(r: &mut R, full_path: &str) -> (res: Result<bool, Error>)
    ensures
        sub::did(final(r).world(), res) == snapshot_exists_does(old(r).world(), full_path@),
{
    proof {
        reveal(snapshot_exists_does);
    }
    let args = text::argv7("list", "-H", "-t", "snapshot", "-o", "name", full_path);
    match r.run("zfs", args.as_slice()) {
        Err(e) => {
            let doing: String = text::cat2("spawning zfs list snapshot ", full_path);
            Err(e.context(doing.as_str()))
        },
        Ok(out) => Ok(out.rc == 0),
    }
}

/// A property's value, or nothing where nobody set it.
pub open spec fn if_set(v: Result<Seq<char>, Seq<char>>) -> Result<Option<Seq<char>>, Seq<char>> {
    match v {
        Err(m) => Err(m),
        Ok(t) => Ok(
            if model::unset(t) {
                None
            } else {
                Some(t)
            },
        ),
    }
}

/// The pool's `bootfs`.
pub open spec fn pool_bootfs_does(w: World, pool: Seq<char>) -> (World, Result<
    Option<Seq<char>>,
    Seq<char>,
>) {
    let (w1, v) = pool_property_does(w, pool, "bootfs"@);
    (w1, if_set(v))
}

/// `bootfs` of a pool, or `None` where nobody set it.
pub fn pool_bootfs<R: Runner>(r: &mut R, pool: &str) -> (res: Result<Option<String>, Error>)
    ensures
        sub::did(final(r).world(), res) == pool_bootfs_does(old(r).world(), pool@),
{
    match pool_property(r, pool, "bootfs") {
        Err(e) => Err(e),
        Ok(val) => if model::is_unset(val.as_str()) {
            Ok(None)
        } else {
            Ok(Some(val))
        },
    }
}

/// The `i`-th tab-separated column of a line, or `other` where there is none.
pub open spec fn tab_column(line: Seq<char>, i: int, other: Seq<char>) -> Seq<char> {
    let ps = text::pieces(line, '\t');
    if i < ps.len() {
        ps[i]
    } else {
        other
    }
}

/// The `i`-th tab-separated column of a line, or `other` where there is none.
pub fn get_tab_column<'a>(line: &'a str, i: usize, other: &'a str) -> (r: &'a str)
    ensures
        r@ == tab_column(line@, i as int, other@),
{
    let ps = text::split(line, '\t');
    if i < ps.len() {
        assert(ps.deep_view()[i as int] == ps@[i as int]@);
        ps[i]
    } else {
        other
    }
}

/// The pools of a `name,bootfs` table whose `bootfs` is set.
pub open spec fn active_pools(ls: Seq<Seq<char>>) -> Seq<Seq<char>>
    decreases ls.len(),
{
    if ls.len() == 0 {
        seq![]
    } else if !model::unset(tab_column(ls.last(), 1, "-"@)) {
        active_pools(ls.drop_last()).push(tab_column(ls.last(), 0, ""@))
    } else {
        active_pools(ls.drop_last())
    }
}

/// The only pool with a `bootfs`, or the complaint that there is none or more
/// than one.
pub open spec fn only_active(pools: Seq<Seq<char>>) -> Result<Seq<char>, Seq<char>> {
    if pools.len() == 0 {
        Err("no pool has a bootfs set; can't determine active pool"@)
    } else if pools.len() == 1 {
        Ok(pools[0])
    } else {
        Err(
            "more than one pool has a bootfs set ("@ + text::joined(pools, ", "@)
                + "); can't determine active pool"@,
        )
    }
}

/// Looks for the pool with a `bootfs`.
pub open spec fn discover_active_pool_does(w: World) -> (World, Result<Seq<char>, Seq<char>>) {
    let (w1, t) = sub::capture_does(w, "zpool"@, seq!["list"@, "-Hp"@, "-o"@, "name,bootfs"@]);
    (
        w1,
        match t {
            Err(m) => Err(m),
            Ok(s) => only_active(active_pools(text::lines_of(s))),
        },
    )
}

/// Finds the pools of a `name,bootfs` table whose `bootfs` is set.
pub fn active_pools_in(table: &str) -> (res: Vec<String>)
    ensures
        res.deep_view() == active_pools(text::lines_of(table@)),
{
    let ls = text::lines(table);
    let mut out: Vec<String> = Vec::new();
    let mut i: usize = 0;
    assert(out.deep_view() =~= seq![]);
    while i < ls.len()
        invariant
            i <= ls@.len(),
            out.deep_view() == active_pools(ls.deep_view().take(i as int)),
        decreases ls@.len() - i,
    {
        proof {
            let next = ls.deep_view().take(i + 1);
            assert(next.drop_last() =~= ls.deep_view().take(i as int));
            assert(next.last() == ls@[i as int]@);
        }
        if !model::is_unset(get_tab_column(ls[i], 1, "-")) {
            text::push_text(&mut out, get_tab_column(ls[i], 0, ""));
        }
        i = i + 1;
    }
    assert(ls.deep_view().take(i as int) =~= ls.deep_view());
    out
}

/// The pool that boots next: the one whose `bootfs` is set. None, or more than
/// one, is an error.
pub fn discover_active_pool<R: Runner>(r: &mut R) -> (res: Result<String, Error>)
    ensures
        sub::did(final(r).world(), res) == discover_active_pool_does(old(r).world()),
{
    let args = text::argv4("list", "-Hp", "-o", "name,bootfs");
    let table: String = match sub::zpool_capture(r, args.as_slice()) {
        Err(e) => return Err(e),
        Ok(t) => t,
    };
    let pools = active_pools_in(table.as_str());
    if pools.len() == 0 {
        return Err(Error::new("no pool has a bootfs set; can't determine active pool"));
    }
    if pools.len() == 1 {
        assert(pools.deep_view()[0] == pools@[0]@);
        return Ok(pools[0].clone());
    }
    let names: String = text::join(&pools, ", ");
    Err(
        Error::from_text(
            text::cat3(
                "more than one pool has a bootfs set (",
                names.as_str(),
                "); can't determine active pool",
            ),
        ),
    )
}

/// The `i`-th word of a line, or nothing.
pub open spec fn word(line: Seq<char>, i: int) -> Seq<char> {
    let ws = text::words_of(line);
    if i < ws.len() {
        ws[i]
    } else {
        ""@
    }
}

/// The `i`-th word of a line, or nothing.
pub fn get_word<'a>(line: &'a str, i: usize) -> (r: &'a str)
    ensures
        r@ == word(line@, i as int),
{
    let ws = text::words(line);
    if i < ws.len() {
        assert(ws.deep_view()[i as int] == ws@[i as int]@);
        ws[i]
    } else {
        ""
    }
}

/// The source of the first mount at `/` in a mount table.
pub open spec fn root_source(ls: Seq<Seq<char>>) -> Option<Seq<char>>
    decreases ls.len(),
{
    if ls.len() == 0 {
        None
    } else if word(ls[0], 1) == "/"@ {
        Some(word(ls[0], 0))
    } else {
        root_source(ls.drop_first())
    }
}

/// The dataset that a mount table shows at `/`.
pub open spec fn booted_of(mounts: Seq<char>) -> Result<Seq<char>, Seq<char>> {
    match root_source(text::lines_of(mounts)) {
        Some(source) => if source.contains('/') {
            Ok(source)
        } else {
            Err(
                "root mount source "@ + text::quoted_text(source)
                    + " doesn't look like a ZFS dataset (expected `<pool>/...`); not a zboot-managed system?"@,
            )
        },
        None => Err("no `/` mount found in /proc/self/mounts; can't determine booted BE"@),
    }
}

/// Finds the dataset mounted at `/` in a mount table.
pub fn booted_dataset_in(mounts: &str) -> (res: Result<String, Error>)
    ensures
        error::outcome(res) == booted_of(mounts@),
{
    let ls = text::lines(mounts);
    let mut i: usize = 0;
    assert(ls.deep_view().skip(0) =~= ls.deep_view());
    while i < ls.len()
        invariant
            i <= ls@.len(),
            ls.deep_view() == text::lines_of(mounts@),
            root_source(ls.deep_view()) == root_source(ls.deep_view().skip(i as int)),
        decreases ls@.len() - i,
    {
        proof {
            let rest = ls.deep_view().skip(i as int);
            assert(rest[0] == ls@[i as int]@);
            assert(rest.drop_first() =~= ls.deep_view().skip(i + 1));
        }
        if text::eq(get_word(ls[i], 1), "/") {
            let source: &str = get_word(ls[i], 0);
            if text::has(source, '/') {
                return Ok(source.to_owned());
            }
            let q: String = text::quoted(source);
            return Err(
                Error::from_text(
                    text::cat3(
                        "root mount source ",
                        q.as_str(),
                        " doesn't look like a ZFS dataset (expected `<pool>/...`); not a zboot-managed system?",
                    ),
                ),
            );
        }
        i = i + 1;
    }
    Err(Error::new("no `/` mount found in /proc/self/mounts; can't determine booted BE"))
}

/// Reads the mount table and finds the dataset at `/`.
#[verifier::opaque]
pub open spec fn discover_booted_dataset_does(w: World) -> (World, Result<Seq<char>, Seq<char>>) {
    (
        w.after(Call::ReadFile { path: "/proc/self/mounts"@ }),
        match w.line() {
            Err(m) => Err(
                error::within("reading /proc/self/mounts to find the booted BE"@, m),
            ),
            Ok(t) => booted_of(t),
        },
    )
}

/// The dataset mounted at `/`: the boot environment that is running.
pub fn discover_booted_dataset<R: Runner>(r: &mut R) -> (res: Result<String, Error>)
    ensures
        sub::did(final(r).world(), res) == discover_booted_dataset_does(old(r).world()),
{
    proof {
        reveal(discover_booted_dataset_does);
    }
    match r.read_file("/proc/self/mounts") {
        Err(e) => Err(e.context("reading /proc/self/mounts to find the booted BE")),
        Ok(t) => booted_dataset_in(t.as_str()),
    }
}

/// The pool of the running boot environment.
pub open spec fn discover_booted_pool_does(w: World) -> (World, Result<Seq<char>, Seq<char>>) {
    let (w1, ds) = discover_booted_dataset_does(w);
    (
        w1,
        match ds {
            Err(m) => Err(m),
            Ok(d) => Ok(text::before(d, '/')),
        },
    )
}

/// The pool of the boot environment that is running.
pub fn discover_booted_pool<R: Runner>(r: &mut R) -> (res: Result<String, Error>)
    ensures
        sub::did(final(r).world(), res) == discover_booted_pool_does(old(r).world()),
{
    match discover_booted_dataset(r) {
        Err(e) => Err(e),
        Ok(ds) => Ok(text::head(ds.as_str(), '/').to_owned()),
    }
}

/// Checks that a pool is there for boot environments.
#[verifier::opaque]
pub open spec fn require_role_root_does(w: World, pool: Seq<char>) -> (World, Result<
    (),
    Seq<char>,
>) {
    let (w1, role) = pool_property_does(w, pool, "zboot:role"@);
    (
        w1,
        match role {
            Err(m) => Err(m),
            Ok(t) => if t == "root"@ {
                Ok(())
            } else {
                Err(
                    "pool "@ + text::quoted_text(pool) + " is not tagged zboot:role=root (got "@
                        + text::quoted_text(t) + "). Run `zpool set zboot:role=root "@ + pool
                        + "` first."@,
                )
            },
        },
    )
}

/// Fails unless `pool` is tagged `zboot:role=root`.
pub fn require_role_root<R: Runner>(r: &mut R, pool: &str) -> (res: Result<(), Error>)
    ensures
        sub::did(final(r).world(), res) == require_role_root_does(old(r).world(), pool@),
{
    proof {
        reveal(require_role_root_does);
    }
    match pool_property(r, pool, "zboot:role") {
        Err(e) => Err(e),
        Ok(role) => if text::eq(role.as_str(), "root") {
            Ok(())
        } else {
            let p: String = text::quoted(pool);
            let q: String = text::quoted(role.as_str());
            Err(
                Error::from_text(
                    text::cat7(
                        "pool ",
                        p.as_str(),
                        " is not tagged zboot:role=root (got ",
                        q.as_str(),
                        "). Run `zpool set zboot:role=root ",
                        pool,
                        "` first.",
                    ),
                ),
            )
        },
    }
}

// ---------------------------------------------------------------------------
// Snapshots and their GUIDs
// ---------------------------------------------------------------------------

/// The snapshots of a `name,guid` table, in its order.
pub open spec fn snap_rows(ls: Seq<Seq<char>>) -> Seq<(Seq<char>, Seq<char>)> {
    Seq::new(ls.len(), |i: int| (tab_column(ls[i], 0, ""@), tab_column(ls[i], 1, ""@)))
}

/// Reads a `name,guid` table.
pub fn parse_snapshots(table: &str) -> (res: Vec<(String, String)>)
    ensures
        res.deep_view() == snap_rows(text::lines_of(table@)),
{
    let ls = text::lines(table);
    let mut out: Vec<(String, String)> = Vec::new();
    let mut i: usize = 0;
    assert(out.deep_view() =~= snap_rows(ls.deep_view()).take(0));
    while i < ls.len()
        invariant
            i <= ls@.len(),
            ls.deep_view() == text::lines_of(table@),
            out.deep_view() == snap_rows(ls.deep_view()).take(i as int),
        decreases ls@.len() - i,
    {
        let ghost so_far = out.deep_view();
        let name: String = get_tab_column(ls[i], 0, "").to_owned();
        let guid: String = get_tab_column(ls[i], 1, "").to_owned();
        let row = (name, guid);
        out.push(row);
        proof {
            assert(out.deep_view() =~= so_far.push(row.deep_view()));
            assert(ls.deep_view()[i as int] == ls@[i as int]@);
            assert(snap_rows(ls.deep_view()).take(i + 1) =~= so_far.push(row.deep_view()));
        }
        i = i + 1;
    }
    assert(snap_rows(ls.deep_view()).take(i as int) =~= snap_rows(ls.deep_view()));
    out
}

/// Lists the snapshots of a dataset with their GUIDs, oldest first.
#[verifier::opaque]
pub open spec fn list_snapshots_does(w: World, ds: Seq<char>) -> (World, Result<
    Seq<(Seq<char>, Seq<char>)>,
    Seq<char>,
>) {
    (
        w.run(
            "zfs"@,
            seq![
                "list"@,
                "-Hp"@,
                "-t"@,
                "snapshot"@,
                "-o"@,
                "name,guid"@,
                "-d"@,
                "1"@,
                "-s"@,
            ] + seq!["creation"@, ds],
        ),
        match w.printed() {
            Err(m) => Err(error::within("spawning zfs list -t snapshot"@, m)),
            Ok(out) => if out.rc != 0 {
                Ok(seq![])
            } else {
                match sub::legible(out, "non-utf8"@) {
                    Err(m) => Err(m),
                    Ok(_) => Ok(snap_rows(text::lines_of(out.stdout))),
                }
            },
        },
    )
}

/// The snapshots of a dataset with their GUIDs, in the order they were taken;
/// none where the dataset is missing.
pub fn list_snapshots_with_guids<R: Runner>(r: &mut R, dataset: &str) -> (res: Result<
    Vec<(String, String)>,
    Error,
>)
    ensures
        sub::did(final(r).world(), res) == list_snapshots_does(old(r).world(), dataset@),
        res matches Err(e) ==> e.outermost@ == sub::outermost(final(r).world(), e@),
{
    proof {
        reveal(list_snapshots_does);
    }
    let mut args = text::argv9(
        "list",
        "-Hp",
        "-t",
        "snapshot",
        "-o",
        "name,guid",
        "-d",
        "1",
        "-s",
    );
    let ghost nine = args.deep_view();
    args.push("creation");
    args.push(dataset);
    assert(args.deep_view() =~= nine + seq!["creation"@, dataset@]);
    proof {
        sub::lemma_outermost(
            r.world(),
            Call::Run { prog: "zfs"@, args: args.deep_view() },
            "spawning zfs list -t snapshot"@,
        );
        sub::lemma_outermost(
            r.world(),
            Call::Run { prog: "zfs"@, args: args.deep_view() },
            "non-utf8"@,
        );
    }
    match r.read("zfs", args.as_slice()) {
        Err(e) => Err(e.context("spawning zfs list -t snapshot")),
        Ok(out) => if out.rc != 0 {
            let none: Vec<(String, String)> = Vec::new();
            assert(none.deep_view() =~= seq![]);
            Ok(none)
        } else {
            match sub::check_legible(&out, "non-utf8") {
                Err(e) => Err(e),
                Ok(()) => Ok(parse_snapshots(out.stdout.as_str())),
            }
        },
    }
}

/// Snapshots and their GUIDs.
pub type Snaps = Seq<(Seq<char>, Seq<char>)>;

/// A snapshot that somebody took, other than a replication anchor, has `guid`.
pub open spec fn has_guid(snaps: Snaps, guid: Seq<char>) -> bool {
    exists|i: int|
        0 <= i < snaps.len() && !model::anchor((#[trigger] snaps[i]).0) && snaps[i].1 == guid
}

/// Any snapshot has `guid`.
pub open spec fn any_guid(snaps: Snaps, guid: Seq<char>) -> bool {
    exists|i: int| 0 <= i < snaps.len() && (#[trigger] snaps[i]).1 == guid
}

/// The names of the snapshots.
pub open spec fn snap_names(snaps: Snaps) -> Seq<Seq<char>> {
    Seq::new(snaps.len(), |i: int| snaps[i].0)
}

/// The GUIDs of those of the snapshots that are no replication anchors.
pub open spec fn plain_guids(snaps: Snaps) -> Seq<Seq<char>>
    decreases snaps.len(),
{
    if snaps.len() == 0 {
        seq![]
    } else {
        let front = plain_guids(snaps.drop_last());
        if model::anchor(snaps.last().0) {
            front
        } else {
            front.push(snaps.last().1)
        }
    }
}

/// The GUIDs of those of the snapshots that are no replication anchors.
pub fn guids_in(snaps: &Vec<(String, String)>) -> (r: Vec<String>)
    ensures
        r.deep_view() == plain_guids(snaps.deep_view()),
{
    let ghost all = snaps.deep_view();
    let mut out: Vec<String> = Vec::new();
    let mut i: usize = 0;
    assert(out.deep_view() =~= plain_guids(all.take(0)));
    while i < snaps.len()
        invariant
            i <= snaps@.len(),
            all == snaps.deep_view(),
            out.deep_view() == plain_guids(all.take(i as int)),
        decreases snaps@.len() - i,
    {
        proof {
            assert(all.take(i + 1).drop_last() =~= all.take(i as int));
            assert(all.take(i + 1).last() == snaps@[i as int].deep_view());
        }
        if !model::is_replication_anchor(snaps[i].0.as_str()) {
            text::push_text(&mut out, snaps[i].1.as_str());
        }
        i = i + 1;
    }
    assert(all.take(i as int) =~= all);
    out
}

/// The set of the GUIDs of a dataset's snapshots, without the replication
/// anchors.
pub open spec fn guid_set_does(w: World, ds: Seq<char>) -> (World, Result<
    Seq<Seq<char>>,
    Seq<char>,
>) {
    let (w1, got) = list_snapshots_does(w, ds);
    (
        w1,
        match got {
            Err(m) => Err(m),
            Ok(snaps) => Ok(order::sorted_set(plain_guids(snaps))),
        },
    )
}

/// The set of the GUIDs of a dataset's snapshots, without the replication
/// anchors, in ascending order.
pub fn snapshot_guid_set<R: Runner>(r: &mut R, dataset: &str) -> (res: Result<Vec<String>, Error>)
    ensures
        sub::did(final(r).world(), res) == guid_set_does(old(r).world(), dataset@),
{
    match list_snapshots_with_guids(r, dataset) {
        Err(e) => Err(e),
        Ok(snaps) => Ok(order::sort_set(&guids_in(&snaps))),
    }
}

/// The GUIDs that could be read.
pub open spec fn or_no_guids(r: Result<Seq<Seq<char>>, Seq<char>>) -> Seq<Seq<char>> {
    match r {
        Ok(v) => v,
        Err(_) => seq![],
    }
}

/// The GUIDs of a dataset's snapshots, or none where they cannot be read.
pub fn guids_or_none<R: Runner>(r: &mut R, ds: &str) -> (res: Vec<String>)
    ensures
        final(r).world() == guid_set_does(old(r).world(), ds@).0,
        res.deep_view() == or_no_guids(guid_set_does(old(r).world(), ds@).1),
{
    match snapshot_guid_set(r, ds) {
        Ok(v) => v,
        Err(_) => {
            let none: Vec<String> = Vec::new();
            assert(none.deep_view() =~= seq![]);
            none
        },
    }
}

/// Names of the snapshots of `right` whose GUID none of `left` has;
/// replication anchors on either side do not count.
pub open spec fn only_on_right(left: Snaps, right: Snaps) -> Seq<Seq<char>> {
    snap_names(
        right.filter(
            |p: (Seq<char>, Seq<char>)| !model::anchor(p.0) && !has_guid(left, p.1),
        ),
    )
}

/// True iff a snapshot other than a replication anchor has `guid`.
pub fn holds_guid(snaps: &Vec<(String, String)>, from: usize, guid: &str) -> (r: bool)
    requires
        from <= snaps@.len(),
    ensures
        r == has_guid(snaps.deep_view().skip(from as int), guid@),
{
    let ghost all = snaps.deep_view().skip(from as int);
    let mut i: usize = from;
    while i < snaps.len()
        invariant
            from <= i <= snaps@.len(),
            all == snaps.deep_view().skip(from as int),
            forall|j: int|
                0 <= j < i - from ==> model::anchor((#[trigger] all[j]).0) || all[j].1 != guid@,
        decreases snaps@.len() - i,
    {
        assert(all[i - from] == snaps@[i as int].deep_view());
        if !model::is_replication_anchor(snaps[i].0.as_str()) && text::eq(
            snaps[i].1.as_str(),
            guid,
        ) {
            return true;
        }
        i = i + 1;
    }
    false
}

/// The names with one snapshot more.
pub proof fn lemma_names_push(s: Snaps, p: (Seq<char>, Seq<char>))
    ensures
        snap_names(s.push(p)) == snap_names(s).push(p.0),
{
    assert(snap_names(s.push(p)) =~= snap_names(s).push(p.0));
}

/// Names of the snapshots of `right` whose GUID none of `left` has.
pub fn right_only(left: &Vec<(String, String)>, right: &Vec<(String, String)>) -> (res: Vec<String>)
    ensures
        res.deep_view() == only_on_right(left.deep_view(), right.deep_view()),
{
    let ghost l = left.deep_view();
    let ghost all = right.deep_view();
    let ghost keep = |p: (Seq<char>, Seq<char>)| !model::anchor(p.0) && !has_guid(l, p.1);
    let mut out: Vec<String> = Vec::new();
    let mut i: usize = 0;
    proof {
        reveal(Seq::filter);
        assert(out.deep_view() =~= snap_names(all.take(0).filter(keep)));
        assert(l.skip(0) =~= l);
    }
    while i < right.len()
        invariant
            i <= right@.len(),
            all == right.deep_view(),
            l == left.deep_view(),
            l.skip(0) == l,
            keep == (|p: (Seq<char>, Seq<char>)| !model::anchor(p.0) && !has_guid(l, p.1)),
            out.deep_view() == snap_names(all.take(i as int).filter(keep)),
        decreases right@.len() - i,
    {
        proof {
            reveal(Seq::filter);
            assert(all.take(i + 1).drop_last() =~= all.take(i as int));
            assert(all.take(i + 1).last() == right@[i as int].deep_view());
            lemma_names_push(all.take(i as int).filter(keep), right@[i as int].deep_view());
        }
        if !model::is_replication_anchor(right[i].0.as_str()) && !holds_guid(
            left,
            0,
            right[i].1.as_str(),
        ) {
            text::push_text(&mut out, right[i].0.as_str());
        }
        i = i + 1;
    }
    assert(all.take(i as int) =~= all);
    out
}

/// Compares the snapshots of two datasets.
#[verifier::opaque]
pub open spec fn snapshots_only_on_right_does(w: World, left: Seq<char>, right: Seq<char>) -> (
    World,
    Result<Seq<Seq<char>>, Seq<char>>,
) {
    let (w1, l) = list_snapshots_does(w, left);
    match l {
        Err(m) => (w1, Err(m)),
        Ok(ls) => {
            let (w2, r) = list_snapshots_does(w1, right);
            match r {
                Err(m) => (w2, Err(m)),
                Ok(rs) => (w2, Ok(only_on_right(ls, rs))),
            }
        },
    }
}

/// Snapshots that `right` has and `left` does not, by GUID. Replication
/// anchors (`@mirror-*`) do not count on either side: they lag, which is no
/// divergence.
pub fn snapshots_only_on_right<R: Runner>(r: &mut R, left: &str, right: &str) -> (res: Result<
    Vec<String>,
    Error,
>)
    ensures
        sub::did(final(r).world(), res) == snapshots_only_on_right_does(
            old(r).world(),
            left@,
            right@,
        ),
        res matches Err(e) ==> e.outermost@ == sub::outermost(final(r).world(), e@),
{
    proof {
        reveal(snapshots_only_on_right_does);
    }
    let l = match list_snapshots_with_guids(r, left) {
        Err(e) => return Err(e),
        Ok(l) => l,
    };
    let rs = match list_snapshots_with_guids(r, right) {
        Err(e) => return Err(e),
        Ok(rs) => rs,
    };
    Ok(right_only(&l, &rs))
}

/// Index of the first snapshot called `name`; the length where there is none.
pub open spec fn snap_position(snaps: Snaps, name: Seq<char>) -> int
    decreases snaps.len(),
{
    if snaps.len() == 0 || snaps[0].0 == name {
        0
    } else {
        1 + snap_position(snaps.drop_first(), name)
    }
}

/// Names of the snapshots of `dest` that carry the GUID of a snapshot which
/// `src` took after the one called `bound`. Replication anchors do not count;
/// where `src` has no such snapshot, there are none.
pub open spec fn after_bound(src: Snaps, dest: Snaps, bound: Seq<char>) -> Seq<Seq<char>> {
    let k = snap_position(src, bound);
    if k >= src.len() {
        seq![]
    } else {
        snap_names(
            dest.filter(
                |p: (Seq<char>, Seq<char>)|
                    !model::anchor(p.0) && has_guid(src.skip(k + 1), p.1),
            ),
        )
    }
}

fn find_snapshot(snaps: &Vec<(String, String)>, name: &str) -> (r: usize)
    ensures
        r == snap_position(snaps.deep_view(), name@),
        r <= snaps@.len(),
{
    let ghost all = snaps.deep_view();
    let mut i: usize = 0;
    assert(all.skip(0) =~= all);
    while i < snaps.len()
        invariant
            i <= snaps@.len(),
            all == snaps.deep_view(),
            snap_position(all, name@) == i + snap_position(all.skip(i as int), name@),
        decreases snaps@.len() - i,
    {
        proof {
            assert(all.skip(i as int)[0] == snaps@[i as int].deep_view());
            assert(all.skip(i as int).drop_first() =~= all.skip(i + 1));
        }
        if text::eq(snaps[i].0.as_str(), name) {
            return i;
        }
        i = i + 1;
    }
    i
}

/// What a rewind of the destination to `bound_full` (`<src>@<snap>`) would
/// destroy: the destination's snapshots that match one the source took after
/// the bound. Replication anchors are left out.
pub fn snapshots_after_bound_pure(
    src_pairs: &Vec<(String, String)>,
    dest_pairs: &Vec<(String, String)>,
    bound_full: &str,
) -> (res: Vec<String>)
    ensures
        res.deep_view() == after_bound(
            src_pairs.deep_view(),
            dest_pairs.deep_view(),
            bound_full@,
        ),
{
    let mut out: Vec<String> = Vec::new();
    let k: usize = find_snapshot(src_pairs, bound_full);
    if k >= src_pairs.len() {
        assert(out.deep_view() =~= seq![]);
        return out;
    }
    let ghost src = src_pairs.deep_view();
    let ghost all = dest_pairs.deep_view();
    let ghost later = src.skip(k + 1);
    let ghost keep = |p: (Seq<char>, Seq<char>)| !model::anchor(p.0) && has_guid(later, p.1);
    let mut i: usize = 0;
    proof {
        reveal(Seq::filter);
        assert(out.deep_view() =~= snap_names(all.take(0).filter(keep)));
    }
    while i < dest_pairs.len()
        invariant
            i <= dest_pairs@.len(),
            k < src_pairs.len(),
            all == dest_pairs.deep_view(),
            later == src_pairs.deep_view().skip(k + 1),
            keep == (|p: (Seq<char>, Seq<char>)| !model::anchor(p.0) && has_guid(later, p.1)),
            out.deep_view() == snap_names(all.take(i as int).filter(keep)),
        decreases dest_pairs@.len() - i,
    {
        proof {
            reveal(Seq::filter);
            assert(all.take(i + 1).drop_last() =~= all.take(i as int));
            assert(all.take(i + 1).last() == dest_pairs@[i as int].deep_view());
            lemma_names_push(all.take(i as int).filter(keep), dest_pairs@[i as int].deep_view());
        }
        if !model::is_replication_anchor(dest_pairs[i].0.as_str()) && holds_guid(
            src_pairs,
            k + 1,
            dest_pairs[i].1.as_str(),
        ) {
            text::push_text(&mut out, dest_pairs[i].0.as_str());
        }
        i = i + 1;
    }
    assert(all.take(i as int) =~= all);
    out
}

/// No snapshot in the list of what a rewind would destroy is a replication
/// anchor, and each of them stands on the destination.
pub proof fn law_after_bound_spares_anchors(src: Snaps, dest: Snaps, bound: Seq<char>, i: int)
    requires
        0 <= i < after_bound(src, dest, bound).len(),
    ensures
        !model::anchor(after_bound(src, dest, bound)[i]),
        snap_names(dest).contains(after_bound(src, dest, bound)[i]),
{
    let k = snap_position(src, bound);
    let keep = |p: (Seq<char>, Seq<char>)| !model::anchor(p.0) && has_guid(src.skip(k + 1), p.1);
    dest.lemma_filter_pred(keep, i);
    dest.lemma_filter_contains_rev(keep, dest.filter(keep)[i]);
    let j = choose|j: int| 0 <= j < dest.len() && dest[j] == dest.filter(keep)[i];
    assert(snap_names(dest)[j] == after_bound(src, dest, bound)[i]);
}

/// Compares the destination with what the source took after the bound.
#[verifier::opaque]
pub open spec fn dest_snapshots_after_bound_does(
    w: World,
    src: Seq<char>,
    dest: Seq<char>,
    bound: Seq<char>,
) -> (World, Result<Seq<Seq<char>>, Seq<char>>) {
    let (w1, s) = list_snapshots_does(w, src);
    match s {
        Err(m) => (w1, Err(m)),
        Ok(ss) => {
            let (w2, d) = list_snapshots_does(w1, dest);
            match d {
                Err(m) => (w2, Err(m)),
                Ok(ds) => (w2, Ok(after_bound(ss, ds, src + "@"@ + bound))),
            }
        },
    }
}

/// Loads both snapshot lists and applies [`snapshots_after_bound_pure`].
pub fn dest_snapshots_after_bound<R: Runner>(
    r: &mut R,
    src_dataset: &str,
    dest_dataset: &str,
    bound_name: &str,
) -> (res: Result<Vec<String>, Error>)
    ensures
        sub::did(final(r).world(), res) == dest_snapshots_after_bound_does(
            old(r).world(),
            src_dataset@,
            dest_dataset@,
            bound_name@,
        ),
{
    proof {
        reveal(dest_snapshots_after_bound_does);
    }
    let src = match list_snapshots_with_guids(r, src_dataset) {
        Err(e) => return Err(e),
        Ok(s) => s,
    };
    let dest = match list_snapshots_with_guids(r, dest_dataset) {
        Err(e) => return Err(e),
        Ok(d) => d,
    };
    let full: String = text::cat3(src_dataset, "@", bound_name);
    Ok(snapshots_after_bound_pure(&src, &dest, full.as_str()))
}

/// The last snapshot of `src` whose GUID `dest` has too.
pub open spec fn last_common(src: Snaps, dest: Snaps) -> Option<Seq<char>>
    decreases src.len(),
{
    if src.len() == 0 {
        None
    } else if any_guid(dest, src.last().1) {
        Some(src.last().0)
    } else {
        last_common(src.drop_last(), dest)
    }
}

fn guid_on(snaps: &Vec<(String, String)>, guid: &str) -> (r: bool)
    ensures
        r == any_guid(snaps.deep_view(), guid@),
{
    let ghost all = snaps.deep_view();
    let mut i: usize = 0;
    while i < snaps.len()
        invariant
            i <= snaps@.len(),
            all == snaps.deep_view(),
            forall|j: int| 0 <= j < i ==> (#[trigger] all[j]).1 != guid@,
        decreases snaps@.len() - i,
    {
        assert(all[i as int] == snaps@[i as int].deep_view());
        if text::eq(snaps[i].1.as_str(), guid) {
            return true;
        }
        i = i + 1;
    }
    false
}

fn latest_common(src: &Vec<(String, String)>, dest: &Vec<(String, String)>) -> (r: Option<String>)
    ensures
        r.deep_view() == last_common(src.deep_view(), dest.deep_view()),
{
    let ghost all = src.deep_view();
    let mut i: usize = src.len();
    assert(all.take(i as int) =~= all);
    while i > 0
        invariant
            i <= src@.len(),
            all == src.deep_view(),
            last_common(all, dest.deep_view()) == last_common(
                all.take(i as int),
                dest.deep_view(),
            ),
        decreases i,
    {
        proof {
            assert(all.take(i as int).drop_last() =~= all.take(i - 1));
            assert(all.take(i as int).last() == src@[i - 1].deep_view());
        }
        if guid_on(dest, src[i - 1].1.as_str()) {
            return Some(src[i - 1].0.clone());
        }
        i = i - 1;
    }
    None
}

/// Finds the base of the next incremental send.
#[verifier::opaque]
pub open spec fn previous_anchor_on_dest_does(w: World, src: Seq<char>, dest: Seq<char>) -> (
    World,
    Result<Option<Seq<char>>, Seq<char>>,
) {
    let (w1, s) = list_snapshots_does(w, src);
    match s {
        Err(m) => (w1, Err(m)),
        Ok(ss) => {
            let (w2, d) = list_snapshots_does(w1, dest);
            match d {
                Err(m) => (w2, Err(m)),
                Ok(ds) => (w2, Ok(last_common(ss, ds))),
            }
        },
    }
}

/// The most recent snapshot of the source whose GUID the destination has too:
/// the base of the next incremental send.
pub fn previous_anchor_on_dest<R: Runner>(
    r: &mut R,
    source_dataset: &str,
    dest_dataset: &str,
) -> (res: Result<Option<String>, Error>)
    ensures
        sub::did(final(r).world(), res) == previous_anchor_on_dest_does(
            old(r).world(),
            source_dataset@,
            dest_dataset@,
        ),
        res matches Err(e) ==> e.outermost@ == sub::outermost(final(r).world(), e@),
{
    proof {
        reveal(previous_anchor_on_dest_does);
    }
    let src = match list_snapshots_with_guids(r, source_dataset) {
        Err(e) => return Err(e),
        Ok(s) => s,
    };
    let dest = match list_snapshots_with_guids(r, dest_dataset) {
        Err(e) => return Err(e),
        Ok(d) => d,
    };
    Ok(latest_common(&src, &dest))
}

/// Bytes written since the latest snapshot.
#[verifier::opaque]
pub open spec fn dirty_bytes_does(w: World, ds: Seq<char>) -> (World, Option<u64>) {
    let (w1, l) = list_snapshots_does(w, ds);
    match l {
        Err(_) => (w1, None),
        Ok(snaps) => if snaps.len() == 0 {
            (w1, None)
        } else {
            (
                w1.run(
                    "zfs"@,
                    seq!["get"@, "-Hp"@, "-o"@, "value"@, "written"@, snaps.last().0],
                ),
                match w1.printed() {
                    Err(_) => None,
                    Ok(out) => if out.rc != 0 || out.garbled is Some {
                        None
                    } else {
                        match text::parsed_upto(
                            text::trimmed(out.stdout),
                            model::GUID_MAX as nat,
                        ) {
                            Some(n) => Some(n as u64),
                            None => None,
                        }
                    },
                },
            )
        },
    }
}

/// Bytes written to `dataset` since its latest snapshot; `None` where there is
/// no snapshot, no such dataset, or no number to read.
pub fn dirty_bytes_since_latest<R: Runner>(r: &mut R, dataset: &str) -> (res: Option<u64>)
    ensures
        (final(r).world(), res) == dirty_bytes_does(old(r).world(), dataset@),
{
    proof {
        reveal(dirty_bytes_does);
    }
    let pairs = match list_snapshots_with_guids(r, dataset) {
        Err(_) => return None,
        Ok(p) => p,
    };
    if pairs.len() == 0 {
        return None;
    }
    let latest: &str = pairs[pairs.len() - 1].0.as_str();
    assert(pairs.deep_view().last().0 == latest@);
    let args = text::argv6("get", "-Hp", "-o", "value", "written", latest);
    match r.read("zfs", args.as_slice()) {
        Err(_) => None,
        Ok(out) => if out.rc != 0 || out.garbled.is_some() {
            None
        } else {
            text::parse_upto(text::trim(out.stdout.as_str()), model::GUID_MAX)
        },
    }
}

/// The `mounted` property reads `yes`.
#[verifier::opaque]
pub open spec fn is_mounted_does(w: World, ds: Seq<char>) -> (World, bool) {
    let (w1, v) = dataset_property_does(w, ds, "mounted"@);
    (w1, v == Ok::<Seq<char>, Seq<char>>("yes"@))
}

/// True iff `dataset` is mounted.
pub fn is_mounted<R: Runner>(r: &mut R, dataset: &str) -> (res: bool)
    ensures
        (final(r).world(), res) == is_mounted_does(old(r).world(), dataset@),
{
    proof {
        reveal(is_mounted_does);
    }
    match dataset_property(r, dataset, "mounted") {
        Err(_) => false,
        Ok(v) => text::eq(v.as_str(), "yes"),
    }
}

// ---------------------------------------------------------------------------
// Tolerant property setters
//
// ZFS may print a warning about overlapping mountpoints (a boot environment's
// is `/`) and exit with an error although the property was written. So the
// exit code counts for nothing: the property is read back.
// ---------------------------------------------------------------------------

/// Sets a property and reads it back.
#[verifier::opaque]
pub open spec fn set_property_does(w: World, ds: Seq<char>, prop: Seq<char>, value: Seq<char>) -> (
    World,
    Result<(), Seq<char>>,
) {
    let assignment = prop + "="@ + value;
    let w1 = w.trace("+ zfs set -u "@ + assignment + " "@ + ds);
    let w2 = w1.run("zfs"@, seq!["set"@, "-u"@, assignment, ds]);
    let (w3, back) = dataset_property_does(w2, ds, prop);
    (
        w3,
        match back {
            Err(m) => Err(m),
            Ok(actual) => if actual == value {
                Ok(())
            } else {
                Err(
                    "zfs set "@ + assignment + " on "@ + ds + " did not take effect (actual="@
                        + actual + ")"@,
                )
            },
        },
    )
}

/// Sets a property without remounting, and fails unless it then reads `value`.
pub fn set_property_tolerant<R: Runner>(r: &mut R, ds: &str, prop: &str, value: &str) -> (res:
    Result<(), Error>)
    ensures
        sub::did(final(r).world(), res) == set_property_does(old(r).world(), ds@, prop@, value@),
        res matches Err(e) ==> e.outermost@ == sub::outermost(final(r).world(), e@),
{
    proof {
        reveal(set_property_does);
    }
    let assignment: String = text::cat3(prop, "=", value);
    let line: String = text::cat4("+ zfs set -u ", assignment.as_str(), " ", ds);
    r.trace(line.as_str());
    let args = text::argv4("set", "-u", assignment.as_str(), ds);
    let _ = r.run("zfs", args.as_slice());
    proof {
        reveal(dataset_property_does);
    }
    match dataset_property(r, ds, prop) {
        Err(e) => Err(e),
        Ok(actual) => if text::eq(actual.as_str(), value) {
            Ok(())
        } else {
            Err(
                Error::from_text(
                    text::cat7(
                        "zfs set ",
                        assignment.as_str(),
                        " on ",
                        ds,
                        " did not take effect (actual=",
                        actual.as_str(),
                        ")",
                    ),
                ),
            )
        },
    }
}

/// Sets `readonly` to `on` or `off`, with the tolerance above.
pub fn set_readonly_tolerant<R: Runner>(r: &mut R, ds: &str, value: &str) -> (res: Result<
    (),
    Error,
>)
    ensures
        sub::did(final(r).world(), res) == set_property_does(
            old(r).world(),
            ds@,
            "readonly"@,
            value@,
        ),
        res matches Err(e) ==> e.outermost@ == sub::outermost(final(r).world(), e@),
{
    set_property_tolerant(r, ds, "readonly", value)
}

/// Clears a property.
#[verifier::opaque]
pub open spec fn inherit_property_does(w: World, ds: Seq<char>, prop: Seq<char>) -> World {
    w.trace("+ zfs inherit "@ + prop + " "@ + ds).run("zfs"@, seq!["inherit"@, prop, ds])
}

/// Clears a property, which is no error where nobody set it.
pub fn inherit_property_tolerant<R: Runner>(r: &mut R, ds: &str, prop: &str) -> (res: Result<
    (),
    Error,
>)
    ensures
        final(r).world() == inherit_property_does(old(r).world(), ds@, prop@),
        res is Ok,
{
    proof {
        reveal(inherit_property_does);
    }
    let line: String = text::cat4("+ zfs inherit ", prop, " ", ds);
    r.trace(line.as_str());
    let args = text::argv3("inherit", prop, ds);
    let _ = r.run("zfs", args.as_slice());
    Ok(())
}

// ---------------------------------------------------------------------------
// Send and receive
// ---------------------------------------------------------------------------

/// The name of the replication anchor of an instant.
pub open spec fn anchor_name(nanos: nat) -> Seq<char> {
    "mirror-"@ + text::decimal(nanos)
}

/// A new name for a replication anchor, from the clock.
pub fn fresh_anchor_name<R: Runner>(r: &mut R) -> (res: String)
    ensures
        final(r).world() == old(r).world().after(Call::Clock),
        res@ == anchor_name(old(r).world().reply().nanos as nat),
{
    let ns: u128 = r.clock();
    let t: String = text::dec(ns);
    text::cat2("mirror-", t.as_str())
}

/// A name minted for an anchor is recognised as one, alone and behind a
/// dataset.
pub proof fn law_fresh_anchor_is_anchor(nanos: nat, ds: Seq<char>)
    ensures
        model::anchor(anchor_name(nanos)),
        model::anchor(ds + "@"@ + anchor_name(nanos)),
{
    reveal_strlit("mirror-");
    reveal_strlit("@");
    let a = anchor_name(nanos);
    lemma_decimal_digits(nanos);
    assert forall|j: int| 0 <= j < a.len() implies a[j] != '@' by {
        if j >= 7 {
            assert(text::digit(text::decimal(nanos)[j - 7]));
        }
    }
    text::lemma_last_position_is(a, '@', -1);
    assert(text::after_last(a, '@') =~= a);
    assert(a.take(7) =~= "mirror-"@);
    let f = ds + "@"@ + a;
    assert(f[ds.len() as int] == '@');
    assert forall|j: int| ds.len() < j < f.len() implies f[j] != '@' by {
        assert(f[j] == a[j - ds.len() - 1]);
    }
    text::lemma_last_position_is(f, '@', ds.len() as int);
    assert(text::after_last(f, '@') =~= a);
}

proof fn lemma_decimal_digits(n: nat)
    ensures
        text::decimal(n).len() > 0,
        forall|i: int| 0 <= i < text::decimal(n).len() ==> text::digit(#[trigger] text::decimal(n)[i]),
    decreases n,
{
    if n >= 10 {
        lemma_decimal_digits(n / 10);
        let front = text::decimal(n / 10);
        assert(text::decimal(n) == front.push(text::digit_char(n % 10)));
        assert forall|i: int| 0 <= i < text::decimal(n).len() implies text::digit(
            #[trigger] text::decimal(n)[i],
        ) by {
            if i < front.len() {
                assert(text::decimal(n)[i] == front[i]);
            }
        }
    }
}

/// The dataset is a clone: its `origin` is set.
#[verifier::opaque]
pub open spec fn dataset_is_clone_does(w: World, ds: Seq<char>) -> (World, Result<
    bool,
    Seq<char>,
>) {
    let (w1, v) = dataset_property_does(w, ds, "origin"@);
    (
        w1,
        match v {
            Err(m) => Err(m),
            Ok(t) => Ok(!model::unset(t)),
        },
    )
}

/// True iff `ds` is a clone of a snapshot.
pub fn dataset_is_clone<R: Runner>(r: &mut R, ds: &str) -> (res: Result<bool, Error>)
    ensures
        sub::did(final(r).world(), res) == dataset_is_clone_does(old(r).world(), ds@),
{
    proof {
        reveal(dataset_is_clone_does);
    }
    match dataset_property(r, ds, "origin") {
        Err(e) => Err(e),
        Ok(v) => Ok(!model::is_unset(v.as_str())),
    }
}

/// The error for a step of a send into a receive that failed. Where `waits` is
/// false, a failed wait does not say for what.
pub open spec fn transfer_fault(label: Seq<char>, waits: bool, step: Step, m: Seq<char>) -> Seq<
    char,
> {
    match step {
        Step::Start => error::within("spawning "@ + label, m),
        Step::Connect => "zfs send produced no stdout"@,
        Step::StartNext => error::within("spawning zfs receive"@, m),
        Step::Wait => if waits {
            error::within("waiting for "@ + label, m)
        } else {
            m
        },
        Step::WaitNext => if waits {
            error::within("waiting for zfs receive"@, m)
        } else {
            m
        },
        Step::Write => m,
    }
}

fn not_transferred(
    label: &str,
    waits: bool,
    f: Fault,
    Ghost(w): Ghost<World>,
    Ghost(c): Ghost<Call>,
) -> (e: Error)
    requires
        c is Pipe,
        w.piped() == Err::<(int, int), (Step, Seq<char>)>((f.step, f.message@)),
    ensures
        e@ == transfer_fault(label@, waits, f.step, f.message@),
        e.outermost@ == sub::outermost(w.after(c), e@),
{
    proof {
        sub::lemma_outermost(w, c, "spawning "@ + label@);
        sub::lemma_outermost(w, c, "zfs send produced no stdout"@);
        sub::lemma_outermost(w, c, "spawning zfs receive"@);
        sub::lemma_outermost(w, c, "waiting for "@ + label@);
        sub::lemma_outermost(w, c, "waiting for zfs receive"@);
    }
    match f.step {
        Step::Start => {
            let what: String = text::cat2("spawning ", label);
            f.with(what.as_str())
        },
        Step::Connect => Error::new("zfs send produced no stdout"),
        Step::StartNext => f.with("spawning zfs receive"),
        Step::Wait => if waits {
            let what: String = text::cat2("waiting for ", label);
            f.with(what.as_str())
        } else {
            f.plain()
        },
        Step::WaitNext => if waits {
            f.with("waiting for zfs receive")
        } else {
            f.plain()
        },
        Step::Write => f.plain(),
    }
}

/// A send into a receive, both announced; either exit code other than 0 is an
/// error.
#[verifier::opaque]
pub open spec fn transfer_does(
    w: World,
    label: Seq<char>,
    waits: bool,
    send: Seq<Seq<char>>,
    dest: Seq<char>,
) -> (World, Result<(), Seq<char>>) {
    let w1 = w.trace(
        "+ zfs "@ + text::joined(send, " "@) + " | zfs receive -F -u "@ + dest,
    );
    (
        w1.after(
            Call::Pipe {
                prog: "zfs"@,
                args: send,
                to_prog: "zfs"@,
                to_args: seq!["receive"@, "-F"@, "-u"@, dest],
            },
        ),
        match w1.piped() {
            Err((step, m)) => Err(transfer_fault(label, waits, step, m)),
            Ok((rc, to_rc)) => if rc != 0 {
                Err(label + " rc="@ + rc_text(rc))
            } else if to_rc != 0 {
                Err("zfs receive rc="@ + rc_text(to_rc))
            } else {
                Ok(())
            },
        },
    )
}

fn transfer<R: Runner>(r: &mut R, label: &str, waits: bool, send: &[&str], dest: &str) -> (res:
    Result<(), Error>)
    ensures
        sub::did(final(r).world(), res) == transfer_does(
            old(r).world(),
            label@,
            waits,
            send.deep_view(),
            dest@,
        ),
        res matches Err(e) ==> e.outermost@ == sub::outermost(final(r).world(), e@),
{
    proof {
        reveal(transfer_does);
    }
    let joined: String = text::join_strs(send, " ");
    let line: String = text::cat4("+ zfs ", joined.as_str(), " | zfs receive -F -u ", dest);
    r.trace(line.as_str());
    let recv = text::argv4("receive", "-F", "-u", dest);
    let ghost w = r.world();
    let ghost c = Call::Pipe {
        prog: "zfs"@,
        args: send.deep_view(),
        to_prog: "zfs"@,
        to_args: recv.deep_view(),
    };
    match r.pipe("zfs", send, "zfs", recv.as_slice()) {
        Err(f) => Err(not_transferred(label, waits, f, Ghost(w), Ghost(c))),
        Ok(codes) => if codes.rc != 0 {
            let rc: String = rc_shown(codes.rc);
            Err(Error::from_text(text::cat3(label, " rc=", rc.as_str())))
        } else if codes.to_rc != 0 {
            let rc: String = rc_shown(codes.to_rc);
            Err(Error::from_text(text::cat2("zfs receive rc=", rc.as_str())))
        } else {
            Ok(())
        },
    }
}

/// `zfs send -p <anchor> | zfs receive -F -u <dest>`.
pub open spec fn send_standalone_does(w: World, anchor: Seq<char>, dest: Seq<char>) -> (
    World,
    Result<(), Seq<char>>,
) {
    transfer_does(w, "zfs send -p"@, true, seq!["send"@, "-p"@, anchor], dest)
}

/// `zfs send -R <anchor> | zfs receive -F -u <dest>`.
pub open spec fn send_full_does(w: World, anchor: Seq<char>, dest: Seq<char>) -> (World, Result<
    (),
    Seq<char>,
>) {
    transfer_does(w, "zfs send"@, true, seq!["send"@, "-R"@, anchor], dest)
}

/// `zfs send -I <prev> <anchor> | zfs receive -F -u <dest>`.
pub open spec fn send_incremental_does(
    w: World,
    prev: Seq<char>,
    anchor: Seq<char>,
    dest: Seq<char>,
) -> (World, Result<(), Seq<char>>) {
    transfer_does(w, "zfs send -I"@, false, seq!["send"@, "-I"@, prev, anchor], dest)
}

/// Full send of the anchor alone, with the dataset's properties, but without
/// its clone origin and without earlier snapshots. For a clone whose origin
/// the destination's pool does not have.
pub fn send_recv_full_standalone<R: Runner>(r: &mut R, anchor: &str, dest: &str) -> (res: Result<
    (),
    Error,
>)
    ensures
        sub::did(final(r).world(), res) == send_standalone_does(old(r).world(), anchor@, dest@),
{
    let args = text::argv3("send", "-p", anchor);
    transfer(r, "zfs send -p", true, args.as_slice(), dest)
}

/// Full send with everything that belongs to the dataset.
pub fn send_recv_full<R: Runner>(r: &mut R, anchor: &str, dest: &str) -> (res: Result<(), Error>)
    ensures
        sub::did(final(r).world(), res) == send_full_does(old(r).world(), anchor@, dest@),
        res matches Err(e) ==> e.outermost@ == sub::outermost(final(r).world(), e@),
{
    let args = text::argv3("send", "-R", anchor);
    transfer(r, "zfs send", true, args.as_slice(), dest)
}

/// Incremental send from `prev` to `new_anchor`, with the snapshots between.
/// Without `-R`: on a clone `zfs receive` exits with an error for `-R -I`
/// although everything arrived.
pub fn send_recv_incremental<R: Runner>(r: &mut R, prev: &str, new_anchor: &str, dest: &str) -> (res:
    Result<(), Error>)
    ensures
        sub::did(final(r).world(), res) == send_incremental_does(
            old(r).world(),
            prev@,
            new_anchor@,
            dest@,
        ),
        res matches Err(e) ==> e.outermost@ == sub::outermost(final(r).world(), e@),
{
    let args = text::argv4("send", "-I", prev, new_anchor);
    transfer(r, "zfs send -I", false, args.as_slice(), dest)
}

/// `zfs rollback -r <dest>@<snap>`.
#[verifier::opaque]
pub open spec fn rollback_recursive_does(w: World, snap: Seq<char>) -> (World, Result<
    (),
    Seq<char>,
>) {
    let w1 = w.trace("+ zfs rollback -r "@ + snap);
    (
        w1.run("zfs"@, seq!["rollback"@, "-r"@, snap]),
        match w1.ran() {
            Err(m) => Err(error::within("spawning zfs rollback"@, m)),
            Ok(out) => if out.rc != 0 {
                Err(
                    "zfs rollback -r "@ + snap + " rc="@ + rc_text(out.rc) + ": "@ + text::trimmed(
                        out.stderr,
                    ),
                )
            } else {
                Ok(())
            },
        },
    )
}

/// Rolls a dataset back to a snapshot; what was taken after it is destroyed,
/// unless a clone depends on it, which makes ZFS refuse.
pub fn zfs_rollback_recursive<R: Runner>(r: &mut R, dest_snap: &str) -> (res: Result<(), Error>)
    ensures
        sub::did(final(r).world(), res) == rollback_recursive_does(old(r).world(), dest_snap@),
{
    proof {
        reveal(rollback_recursive_does);
    }
    let line: String = text::cat2("+ zfs rollback -r ", dest_snap);
    r.trace(line.as_str());
    let args = text::argv3("rollback", "-r", dest_snap);
    match r.run("zfs", args.as_slice()) {
        Err(e) => Err(e.context("spawning zfs rollback")),
        Ok(out) => if out.rc != 0 {
            let rc: String = rc_shown(out.rc);
            Err(
                Error::from_text(
                    text::cat6(
                        "zfs rollback -r ",
                        dest_snap,
                        " rc=",
                        rc.as_str(),
                        ": ",
                        text::trim(out.stderr.as_str()),
                    ),
                ),
            )
        } else {
            Ok(())
        },
    }
}

/// The anchor that pruning `ds` destroys on account of a line of `zfs list`.
pub open spec fn stale_anchor(line: Seq<char>, ds: Seq<char>, keep: Seq<char>) -> bool {
    let snap = text::trimmed(line);
    text::begins(snap, ds + "@mirror-"@) && snap != keep
}

/// A failure is noted on the error stream, and no more comes of it.
pub open spec fn noted(done: (World, Result<(), Seq<char>>)) -> World {
    match done.1 {
        Err(m) => done.0.trace(m),
        Ok(()) => done.0,
    }
}

fn note<R: Runner>(r: &mut R, res: Result<(), Error>)
    ensures
        final(r).world() == noted(sub::did(old(r).world(), res)),
{
    match res {
        Err(e) => r.trace(e.message.as_str()),
        Ok(()) => {},
    }
}

/// Destroys the stale anchors among the lines, in order.
pub open spec fn prune_lines_does(
    w: World,
    ls: Seq<Seq<char>>,
    ds: Seq<char>,
    keep: Seq<char>,
) -> World
    decreases ls.len(),
{
    if ls.len() == 0 {
        w
    } else {
        let before = prune_lines_does(w, ls.drop_last(), ds, keep);
        if stale_anchor(ls.last(), ds, keep) {
            noted(sub::run_does(before, "zfs"@, seq!["destroy"@, text::trimmed(ls.last())]))
        } else {
            before
        }
    }
}

/// Destroys the anchors of `ds` other than `keep`.
#[verifier::opaque]
pub open spec fn prune_old_anchors_does(w: World, ds: Seq<char>, keep: Seq<char>) -> World {
    let (w1, listed) = sub::capture_does(
        w,
        "zfs"@,
        seq!["list"@, "-Hp"@, "-t"@, "snapshot"@, "-o"@, "name"@, "-r"@, ds],
    );
    match listed {
        Err(m) => w1.trace(m),
        Ok(t) => prune_lines_does(w1, text::lines_of(t), ds, keep),
    }
}

/// Destroys every `<dataset>@mirror-*` except `keep`. What cannot be destroyed
/// stays, and is told on the error stream.
pub fn prune_old_anchors<R: Runner>(r: &mut R, dataset: &str, keep: &str)
    ensures
        final(r).world() == prune_old_anchors_does(old(r).world(), dataset@, keep@),
{
    proof {
        reveal(prune_old_anchors_does);
    }
    let prefix: String = text::cat2(dataset, "@mirror-");
    let args = text::argv8("list", "-Hp", "-t", "snapshot", "-o", "name", "-r", dataset);
    let listed: String = match sub::zfs_capture(r, args.as_slice()) {
        Err(e) => {
            r.trace(e.message.as_str());
            return ;
        },
        Ok(t) => t,
    };
    let ghost w1 = r.world();
    let ls = text::lines(listed.as_str());
    let mut i: usize = 0;
    while i < ls.len()
        invariant
            i <= ls@.len(),
            prefix@ == dataset@ + "@mirror-"@,
            r.world() == prune_lines_does(
                w1,
                ls.deep_view().take(i as int),
                dataset@,
                keep@,
            ),
        decreases ls@.len() - i,
    {
        proof {
            let next = ls.deep_view().take(i + 1);
            assert(next.drop_last() =~= ls.deep_view().take(i as int));
            assert(next.last() == ls@[i as int]@);
        }
        let snap: &str = text::trim(ls[i]);
        if text::starts_with(snap, prefix.as_str()) && !text::eq(snap, keep) {
            let args = text::argv2("destroy", snap);
            let res = sub::zfs(r, args.as_slice());
            note(r, res);
        }
        i = i + 1;
    }
    assert(ls.deep_view().take(i as int) =~= ls.deep_view());
}

/// `zfs snapshot <dataset>@<name>`.
#[verifier::opaque]
pub open spec fn take_snapshot_does(w: World, ds: Seq<char>, name: Seq<char>) -> (World, Result<
    Seq<char>,
    Seq<char>,
>) {
    let full = ds + "@"@ + name;
    let (w1, done) = sub::run_does(w, "zfs"@, seq!["snapshot"@, full]);
    (
        w1,
        match done {
            Err(m) => Err(error::within("zfs snapshot "@ + full, m)),
            Ok(_) => Ok(full),
        },
    )
}

/// Takes a snapshot and returns what it is called in full.
pub fn take_snapshot<R: Runner>(r: &mut R, dataset: &str, name: &str) -> (res: Result<
    String,
    Error,
>)
    ensures
        sub::did(final(r).world(), res) == take_snapshot_does(old(r).world(), dataset@, name@),
{
    proof {
        reveal(take_snapshot_does);
    }
    let full: String = text::cat3(dataset, "@", name);
    let args = text::argv2("snapshot", full.as_str());
    match sub::zfs(r, args.as_slice()) {
        Err(e) => {
            let doing: String = text::cat2("zfs snapshot ", full.as_str());
            Err(e.context(doing.as_str()))
        },
        Ok(_) => Ok(full),
    }
}

// ---------------------------------------------------------------------------
// Pair pointer
// ---------------------------------------------------------------------------

/// Reads `zboot:mirror`.
pub open spec fn read_pair_pointer_does(w: World, ds: Seq<char>) -> (World, Result<
    Option<model::Key>,
    Seq<char>,
>) {
    let (w1, v) = dataset_property_does(w, ds, "zboot:mirror"@);
    (
        w1,
        match v {
            Err(m) => Err(m),
            Ok(t) => Ok(model::pair_of(t)),
        },
    )
}

/// The replication peer of `ds`, or `None` where it has none.
pub fn read_pair_pointer<R: Runner>(r: &mut R, ds: &str) -> (res: Result<
    Option<PairPointer>,
    Error,
>)
    ensures
        sub::did(final(r).world(), res) == read_pair_pointer_does(old(r).world(), ds@),
{
    match dataset_property(r, ds, "zboot:mirror") {
        Err(e) => Err(e),
        Ok(v) => Ok(PairPointer::parse_dataset(v.as_str())),
    }
}

/// Makes `peer` the replication peer of `ds`.
pub fn write_pair_pointer<R: Runner>(r: &mut R, ds: &str, peer: &PairPointer) -> (res: Result<
    (),
    Error,
>)
    ensures
        sub::did(final(r).world(), res) == set_property_does(
            old(r).world(),
            ds@,
            "zboot:mirror"@,
            model::pair_text(peer.deep_view()),
        ),
{
    let t: String = peer.render();
    set_property_tolerant(r, ds, "zboot:mirror", t.as_str())
}

/// Leaves `ds` without a replication peer.
pub fn clear_pair_pointer<R: Runner>(r: &mut R, ds: &str) -> (res: Result<(), Error>)
    ensures
        final(r).world() == inherit_property_does(old(r).world(), ds@, "zboot:mirror"@),
        res is Ok,
{
    inherit_property_tolerant(r, ds, "zboot:mirror")
}

/// Sets what every boot environment has: `canmount=noauto`, `mountpoint=/`,
/// `zboot:be=true`; up to the first that does not take.
#[verifier::opaque]
pub open spec fn set_be_contract_does(w: World, ds: Seq<char>) -> (World, Result<(), Seq<char>>) {
    let (w1, a) = set_property_does(w, ds, "canmount"@, "noauto"@);
    if a is Err {
        (w1, a)
    } else {
        let (w2, b) = set_property_does(w1, ds, "mountpoint"@, "/"@);
        if b is Err {
            (w2, b)
        } else {
            set_property_does(w2, ds, "zboot:be"@, "true"@)
        }
    }
}

/// Sets the properties of a boot environment on a dataset that was received.
pub fn set_be_contract<R: Runner>(r: &mut R, ds: &str) -> (res: Result<(), Error>)
    ensures
        sub::did(final(r).world(), res) == set_be_contract_does(old(r).world(), ds@),
        res matches Err(e) ==> e.outermost@ == sub::outermost(final(r).world(), e@),
{
    proof {
        reveal(set_be_contract_does);
    }
    if let Err(e) = set_property_tolerant(r, ds, "canmount", "noauto") {
        return Err(e);
    }
    if let Err(e) = set_property_tolerant(r, ds, "mountpoint", "/") {
        return Err(e);
    }
    set_property_tolerant(r, ds, "zboot:be", "true")
}

// ---------------------------------------------------------------------------
// Previews and typed confirmation
// ---------------------------------------------------------------------------

/// How many snapshots a preview names.
pub const PREVIEW: usize = 5;

/// The first of `s`, as many as a preview names.
pub open spec fn previewed(s: Seq<Seq<char>>) -> Seq<Seq<char>> {
    if s.len() <= PREVIEW {
        s
    } else {
        s.take(PREVIEW as int)
    }
}

/// The preview of a list of snapshots: at most five names, one a line, and a
/// line that counts the others.
pub open spec fn preview_text(s: Seq<Seq<char>>) -> Seq<char> {
    let body = text::joined(previewed(s), "\n      "@);
    if s.len() > PREVIEW {
        body + "\n      ... ("@ + text::decimal((s.len() - PREVIEW) as nat) + " more)"@
    } else {
        body
    }
}

/// The first of the strings, as many as a preview names.
pub fn first_of(v: &Vec<String>) -> (r: Vec<String>)
    ensures
        r.deep_view() == previewed(v.deep_view()),
{
    let mut out: Vec<String> = Vec::new();
    let mut i: usize = 0;
    assert(out.deep_view() =~= v.deep_view().take(0));
    while i < v.len() && i < PREVIEW
        invariant
            i <= v@.len(),
            i <= PREVIEW,
            out.deep_view() == v.deep_view().take(i as int),
        decreases v@.len() - i,
    {
        text::push_text(&mut out, v[i].as_str());
        assert(v.deep_view().take(i + 1) =~= v.deep_view().take(i as int).push(v@[i as int]@));
        i = i + 1;
    }
    assert(out.deep_view() =~= previewed(v.deep_view()));
    out
}

/// At most five snapshot names, one a line with six spaces of indent, and a
/// line `... (N more)` where there are more.
pub fn format_snapshot_preview(snapshots: &Vec<String>) -> (r: String)
    ensures
        r@ == preview_text(snapshots.deep_view()),
{
    let shown = first_of(snapshots);
    let body: String = text::join(&shown, "\n      ");
    if snapshots.len() > PREVIEW {
        let n: String = text::dec_len(snapshots.len() - PREVIEW);
        text::cat4(body.as_str(), "\n      ... (", n.as_str(), " more)")
    } else {
        body
    }
}

/// One line for each of the names.
pub open spec fn trace_names_does(w: World, names: Seq<Seq<char>>) -> World
    decreases names.len(),
{
    if names.len() == 0 {
        w
    } else {
        trace_names_does(w, names.drop_last()).trace("    "@ + names.last())
    }
}

fn trace_names<R: Runner>(r: &mut R, names: &Vec<String>)
    ensures
        final(r).world() == trace_names_does(old(r).world(), names.deep_view()),
{
    let ghost w = r.world();
    let mut i: usize = 0;
    while i < names.len()
        invariant
            i <= names@.len(),
            r.world() == trace_names_does(w, names.deep_view().take(i as int)),
        decreases names@.len() - i,
    {
        proof {
            let next = names.deep_view().take(i + 1);
            assert(next.drop_last() =~= names.deep_view().take(i as int));
            assert(next.last() == names@[i as int]@);
        }
        let line: String = text::cat2("    ", names[i].as_str());
        r.trace(line.as_str());
        i = i + 1;
    }
    assert(names.deep_view().take(i as int) =~= names.deep_view());
}

/// Shows what would be destroyed and asks for the dataset's name.
#[verifier::opaque]
pub open spec fn confirm_truncate_does(
    w: World,
    label: Seq<char>,
    target: Seq<char>,
    doomed: Seq<Seq<char>>,
) -> (World, Result<(), Seq<char>>) {
    let w1 = trace_names_does(w.trace(label + ":"@), previewed(doomed));
    let w2 = if doomed.len() > PREVIEW {
        w1.trace("    ... ("@ + text::decimal((doomed.len() - PREVIEW) as nat) + " more)"@)
    } else {
        w1
    };
    let w3 = w2.trace(
        "Type '"@ + target + "' to confirm overwrite (or anything else to abort):"@,
    );
    (
        w3.after(Call::Ask),
        match w3.line() {
            Err(m) => Err(error::within("reading confirmation from stdin"@, m)),
            Ok(line) => if text::trimmed(line) == target {
                Ok(())
            } else {
                Err(
                    "confirmation mismatch (got "@ + text::quoted_text(text::trimmed(line))
                        + ", expected "@ + text::quoted_text(target) + "); aborting"@,
                )
            },
        },
    )
}

/// Shows the snapshots that are about to be destroyed, and succeeds only if
/// the operator types `target_dataset`.
pub fn confirm_destructive_truncate<R: Runner>(
    r: &mut R,
    label: &str,
    target_dataset: &str,
    snapshots_to_destroy: &Vec<String>,
) -> (res: Result<(), Error>)
    ensures
        sub::did(final(r).world(), res) == confirm_truncate_does(
            old(r).world(),
            label@,
            target_dataset@,
            snapshots_to_destroy.deep_view(),
        ),
        res matches Err(e) ==> e.outermost@ == sub::outermost(final(r).world(), e@),
{
    proof {
        reveal(confirm_truncate_does);
    }
    let first: String = text::cat2(label, ":");
    r.trace(first.as_str());
    let shown = first_of(snapshots_to_destroy);
    trace_names(r, &shown);
    if snapshots_to_destroy.len() > PREVIEW {
        let n: String = text::dec_len(snapshots_to_destroy.len() - PREVIEW);
        let line: String = text::cat3("    ... (", n.as_str(), " more)");
        r.trace(line.as_str());
    }
    let prompt: String = text::cat3(
        "Type '",
        target_dataset,
        "' to confirm overwrite (or anything else to abort):",
    );
    r.trace(prompt.as_str());
    proof {
        sub::lemma_outermost(r.world(), Call::Ask, "reading confirmation from stdin"@);
    }
    match r.ask() {
        Err(e) => Err(e.context("reading confirmation from stdin")),
        Ok(line) => {
            let got: &str = text::trim(line.as_str());
            if text::eq(got, target_dataset) {
                Ok(())
            } else {
                let q: String = text::quoted(got);
                let p: String = text::quoted(target_dataset);
                Err(
                    Error::from_text(
                        text::cat5(
                            "confirmation mismatch (got ",
                            q.as_str(),
                            ", expected ",
                            p.as_str(),
                            "); aborting",
                        ),
                    ),
                )
            }
        },
    }
}

/// Creates `<pool>/ROOT` where it is not there.
#[verifier::opaque]
pub open spec fn ensure_root_container_does(w: World, pool: Seq<char>) -> (World, Result<
    (),
    Seq<char>,
>) {
    let root = pool + "/ROOT"@;
    let (w1, there) = dataset_exists_does(w, root);
    if exists_or_not(there) {
        (w1, Ok(()))
    } else {
        let (w2, done) = sub::run_does(
            w1,
            "zfs"@,
            seq!["create"@, "-o"@, "canmount=off"@, "-o"@, "mountpoint=none"@, root],
        );
        (w2, error::in_context(done, "creating ROOT container "@ + root))
    }
}

/// Sees to it that `<pool>/ROOT` is there, with `canmount=off` and
/// `mountpoint=none`.
pub fn ensure_root_container<R: Runner>(r: &mut R, pool: &str) -> (res: Result<(), Error>)
    ensures
        sub::did(final(r).world(), res) == ensure_root_container_does(old(r).world(), pool@),
{
    proof {
        reveal(ensure_root_container_does);
    }
    let root: String = text::cat2(pool, "/ROOT");
    if is_there(r, root.as_str()) {
        return Ok(());
    }
    let args = text::argv6("create", "-o", "canmount=off", "-o", "mountpoint=none", root.as_str());
    let done = sub::zfs(r, args.as_slice());
    let doing: String = text::cat2("creating ROOT container ", root.as_str());
    error::with_context(done, doing.as_str())
}

/// [`dataset_exists`], with a failure read as absence.
pub fn is_there<R: Runner>(r: &mut R, ds: &str) -> (res: bool)
    ensures
        final(r).world() == dataset_exists_does(old(r).world(), ds@).0,
        res == exists_or_not(dataset_exists_does(old(r).world(), ds@).1),
{
    match dataset_exists(r, ds) {
        Ok(b) => b,
        Err(_) => false,
    }
}

// ---------------------------------------------------------------------------
// The queries change nothing
// ---------------------------------------------------------------------------

/// [`dataset_exists`] only looks.
pub proof fn lemma_exists_looks(w: World, ds: Seq<char>)
    ensures
        sub::only_looked(w, dataset_exists_does(w, ds).0),
{
    reveal(dataset_exists_does);
}

/// [`dataset_property`] only looks.
pub proof fn lemma_property_looks(w: World, ds: Seq<char>, prop: Seq<char>)
    ensures
        sub::only_looked(w, dataset_property_does(w, ds, prop).0),
{
    reveal(dataset_property_does);
}

/// [`is_mounted`] only looks.
pub proof fn lemma_mounted_looks(w: World, ds: Seq<char>)
    ensures
        sub::only_looked(w, is_mounted_does(w, ds).0),
{
    reveal(is_mounted_does);
    lemma_property_looks(w, ds, "mounted"@);
}

/// [`list_snapshots_with_guids`] only looks.
pub proof fn lemma_list_looks(w: World, ds: Seq<char>)
    ensures
        sub::only_looked(w, list_snapshots_does(w, ds).0),
{
    reveal(list_snapshots_does);
}

/// [`snapshots_only_on_right`] only looks.
pub proof fn lemma_only_on_right_looks(w: World, left: Seq<char>, right: Seq<char>)
    ensures
        sub::only_looked(w, snapshots_only_on_right_does(w, left, right).0),
{
    reveal(snapshots_only_on_right_does);
    lemma_list_looks(w, left);
    lemma_list_looks(list_snapshots_does(w, left).0, right);
}

/// [`dest_snapshots_after_bound`] only looks.
pub proof fn lemma_after_bound_looks(w: World, src: Seq<char>, dest: Seq<char>, bound: Seq<char>)
    ensures
        sub::only_looked(w, dest_snapshots_after_bound_does(w, src, dest, bound).0),
{
    reveal(dest_snapshots_after_bound_does);
    lemma_list_looks(w, src);
    lemma_list_looks(list_snapshots_does(w, src).0, dest);
}

proof fn lemma_trace_names_continues(w: World, names: Seq<Seq<char>>)
    ensures
        sub::continues(w, trace_names_does(w, names)),
    decreases names.len(),
{
    if names.len() > 0 {
        lemma_trace_names_continues(w, names.drop_last());
    }
}

/// A confirmation asks last, and is given only for the dataset's name.
pub proof fn lemma_confirm_asks(
    w: World,
    label: Seq<char>,
    target: Seq<char>,
    doomed: Seq<Seq<char>>,
)
    ensures
        ({
            let (w1, res) = confirm_truncate_does(w, label, target, doomed);
            let n = w1.calls.len();
            &&& sub::continues(w, w1)
            &&& n > 0
            &&& w1.calls[n - 1] == Call::Ask
            &&& res is Ok ==> text::trimmed((w.replies)((n - 1) as nat).stdout) == target
        }),
{
    reveal(confirm_truncate_does);
    lemma_trace_names_continues(w.trace(label + ":"@), previewed(doomed));
}

/// Reading a property of a pool changes nothing.
pub proof fn lemma_pool_property_looks(w: World, pool: Seq<char>, prop: Seq<char>)
    ensures
        sub::only_looked(w, pool_property_does(w, pool, prop).0),
{
    reveal(pool_property_does);
}

/// Asking what was written since the last snapshot changes nothing.
pub proof fn lemma_dirty_looks(w: World, ds: Seq<char>)
    ensures
        sub::only_looked(w, dirty_bytes_does(w, ds).0),
{
    reveal(dirty_bytes_does);
    lemma_list_looks(w, ds);
}

/// Pruning destroys nothing but anchors of the dataset, and not the one that is
/// kept.
pub proof fn law_pruning_spares_the_rest(w: World, ds: Seq<char>, keep: Seq<char>)
    ensures
        sub::did_only(
            w,
            prune_old_anchors_does(w, ds, keep),
            |c: Call|
                exists|snap: Seq<char>| #[trigger]
                    text::begins(snap, ds + "@mirror-"@) && snap != keep && c == (Call::Run {
                        prog: "zfs"@,
                        args: seq!["destroy"@, snap],
                    }),
        ),
{
    reveal(prune_old_anchors_does);
    let args = seq!["list"@, "-Hp"@, "-t"@, "snapshot"@, "-o"@, "name"@, "-r"@, ds];
    let (w1, listed) = sub::capture_does(w, "zfs"@, args);
    assert(args[0] == "list"@);
    assert(sub::query("zfs"@, args));
    if let Ok(t) = listed {
        lemma_prune_lines(w1, text::lines_of(t), ds, keep);
    }
}

proof fn lemma_prune_lines(w: World, ls: Seq<Seq<char>>, ds: Seq<char>, keep: Seq<char>)
    ensures
        sub::did_only(
            w,
            prune_lines_does(w, ls, ds, keep),
            |c: Call|
                exists|snap: Seq<char>| #[trigger]
                    text::begins(snap, ds + "@mirror-"@) && snap != keep && c == (Call::Run {
                        prog: "zfs"@,
                        args: seq!["destroy"@, snap],
                    }),
        ),
    decreases ls.len(),
{
    if ls.len() > 0 {
        lemma_prune_lines(w, ls.drop_last(), ds, keep);
    }
}

/// Two sides have not diverged exactly where every snapshot of the right one,
/// replication anchors aside, is on the left one too.
pub proof fn law_no_divergence(left: Snaps, right: Snaps)
    ensures
        only_on_right(left, right).len() == 0 <==> (forall|i: int|
            0 <= i < right.len() && !model::anchor((#[trigger] right[i]).0) ==> has_guid(
                left,
                right[i].1,
            )),
{
    let keep = |p: (Seq<char>, Seq<char>)| !model::anchor(p.0) && !has_guid(left, p.1);
    if only_on_right(left, right).len() == 0 {
        assert forall|i: int|
            0 <= i < right.len() && !model::anchor((#[trigger] right[i]).0) implies has_guid(
            left,
            right[i].1,
        ) by {
            if keep(right[i]) {
                right.lemma_filter_contains(keep, i);
            }
        }
    } else {
        right.lemma_filter_pred(keep, 0);
        let x = right.filter(keep)[0];
        right.lemma_filter_contains_rev(keep, x);
    }
}

/// The pools taken for active are those of all lines whose second column is set.
pub proof fn law_active_pools(ls: Seq<Seq<char>>)
    ensures
        forall|x: Seq<char>| #[trigger] active_pools(ls).contains(x) <==> exists|i: int| 0 <= i < ls.len() && x == tab_column((#[trigger] ls[i]), 0, ""@) && !model::unset(tab_column((#[trigger] ls[i]), 1, "-"@)),
    decreases ls.len(),
{
    if ls.len() > 0 {
        let front = ls.drop_last();
        law_active_pools(front);
        let before = active_pools(front);
        let all = active_pools(ls);
        assert forall|x: Seq<char>| #[trigger] all.contains(x) <==> exists|i: int| 0 <= i < ls.len() && x == tab_column((#[trigger] ls[i]), 0, ""@) && !model::unset(tab_column((#[trigger] ls[i]), 1, "-"@)) by {
            if all.contains(x) {
                let k = choose|k: int| 0 <= k < all.len() && all[k] == x;
                if k < before.len() {
                    assert(before[k] == x);
                    assert(before.contains(x));
                    let i = choose|i: int| 0 <= i < front.len() && x == tab_column((#[trigger] front[i]), 0, ""@) && !model::unset(tab_column((#[trigger] front[i]), 1, "-"@));
                    assert(ls[i] == front[i]);
                } else {
                    assert(x == tab_column(ls[ls.len() - 1], 0, ""@) && !model::unset(tab_column(ls[ls.len() - 1], 1, "-"@)));
                }
            }
            if exists|i: int| 0 <= i < ls.len() && x == tab_column((#[trigger] ls[i]), 0, ""@) && !model::unset(tab_column((#[trigger] ls[i]), 1, "-"@)) {
                let i = choose|i: int| 0 <= i < ls.len() && x == tab_column((#[trigger] ls[i]), 0, ""@) && !model::unset(tab_column((#[trigger] ls[i]), 1, "-"@));
                if i < front.len() {
                    assert(front[i] == ls[i]);
                    assert(before.contains(x));
                    let k = choose|k: int| 0 <= k < before.len() && before[k] == x;
                    assert(all[k] == x);
                } else {
                    assert(ls[i] == ls.last());
                    assert(all[all.len() - 1] == x);
                }
            }
        }
    }
}

/// The source of `/` is that of the first line that mounts it.
pub proof fn law_root_source(ls: Seq<Seq<char>>)
    ensures
        match root_source(ls) {
            Some(x) => exists|i: int|
                0 <= i < ls.len() && x == word((#[trigger] ls[i]), 0) && word(ls[i], 1) == "/"@ && forall|j: int|
                    0 <= j < i ==> !(word((#[trigger] ls[j]), 1) == "/"@),
            None => forall|j: int| 0 <= j < ls.len() ==> !(word((#[trigger] ls[j]), 1) == "/"@),
        },
    decreases ls.len(),
{
    if ls.len() > 0 {
        if word(ls[0], 1) == "/"@ {
            assert(word(ls[0], 0) == word(ls[0], 0));
        } else {
            let rest = ls.drop_first();
            law_root_source(rest);
            assert forall|j: int| 0 <= j < ls.len() implies j == 0 || #[trigger] ls[j] == rest[j - 1] by {}
            if let Some(x) = root_source(rest) {
                let i = choose|i: int|
                    0 <= i < rest.len() && x == word((#[trigger] rest[i]), 0) && word(rest[i], 1) == "/"@ && forall|j: int|
                        0 <= j < i ==> !(word((#[trigger] rest[j]), 1) == "/"@);
                assert(ls[i + 1] == rest[i]);
                assert(x == word(ls[i + 1], 0));
            }
        }
    }
}

/// The guids compared are those of all snapshots that are no anchors.
pub proof fn law_plain_guids(snaps: Snaps)
    ensures
        forall|x: Seq<char>| #[trigger] plain_guids(snaps).contains(x) <==> exists|i: int| 0 <= i < snaps.len() && x == (#[trigger] snaps[i]).1 && !model::anchor((#[trigger] snaps[i]).0),
    decreases snaps.len(),
{
    if snaps.len() > 0 {
        let front = snaps.drop_last();
        law_plain_guids(front);
        let before = plain_guids(front);
        let all = plain_guids(snaps);
        assert forall|x: Seq<char>| #[trigger] all.contains(x) <==> exists|i: int| 0 <= i < snaps.len() && x == (#[trigger] snaps[i]).1 && !model::anchor((#[trigger] snaps[i]).0) by {
            if all.contains(x) {
                let k = choose|k: int| 0 <= k < all.len() && all[k] == x;
                if k < before.len() {
                    assert(before[k] == x);
                    assert(before.contains(x));
                    let i = choose|i: int| 0 <= i < front.len() && x == (#[trigger] front[i]).1 && !model::anchor((#[trigger] front[i]).0);
                    assert(snaps[i] == front[i]);
                } else {
                    assert(x == snaps[snaps.len() - 1].1 && !model::anchor(snaps[snaps.len() - 1].0));
                }
            }
            if exists|i: int| 0 <= i < snaps.len() && x == (#[trigger] snaps[i]).1 && !model::anchor((#[trigger] snaps[i]).0) {
                let i = choose|i: int| 0 <= i < snaps.len() && x == (#[trigger] snaps[i]).1 && !model::anchor((#[trigger] snaps[i]).0);
                if i < front.len() {
                    assert(front[i] == snaps[i]);
                    assert(before.contains(x));
                    let k = choose|k: int| 0 <= k < before.len() && before[k] == x;
                    assert(all[k] == x);
                } else {
                    assert(snaps[i] == snaps.last());
                    assert(all[all.len() - 1] == x);
                }
            }
        }
    }
}

/// Of the snapshots listed below a dataset, every older anchor of it is
/// destroyed.
pub proof fn law_every_old_anchor_is_destroyed(w: World, ds: Seq<char>, keep: Seq<char>)
    requires
        w.ran() matches Ok(out) && out.rc == 0,
    ensures
        ({
            let end = prune_old_anchors_does(w, ds, keep);
            let ls = text::lines_of(w.reply().stdout);
            &&& end.calls[w.calls.len() as int] == (Call::Run {
                prog: "zfs"@,
                args: seq!["list"@, "-Hp"@, "-t"@, "snapshot"@, "-o"@, "name"@, "-r"@, ds],
            })
            &&& forall|i: int|
                0 <= i < ls.len() && text::begins(text::trimmed(ls[i]), ds + "@mirror-"@)
                    && text::trimmed(ls[i]) != keep ==> sub::called(
                    w,
                    end,
                    destroying(text::trimmed(#[trigger] ls[i])),
                )
        }),
{
    reveal(prune_old_anchors_does);
    let args = seq!["list"@, "-Hp"@, "-t"@, "snapshot"@, "-o"@, "name"@, "-r"@, ds];
    let ls = text::lines_of(w.reply().stdout);
    let w1 = w.run("zfs"@, args);
    let end = prune_old_anchors_does(w, ds, keep);
    lemma_prune_lines_all(w1, ls, ds, keep);
    let n = w.calls.len() as int;
    assert(w1.calls[n] == Call::Run { prog: "zfs"@, args });
    assert(end.calls[n] == w1.calls[n]);
    assert forall|i: int|
        0 <= i < ls.len() && text::begins(text::trimmed(ls[i]), ds + "@mirror-"@) && text::trimmed(
            ls[i],
        ) != keep implies sub::called(w, end, destroying(text::trimmed(#[trigger] ls[i]))) by {
        let c = destroying(text::trimmed(ls[i]));
        let k = choose|k: int|
            w1.calls.len() <= k < end.calls.len() && #[trigger] end.calls[k] == c;
        assert(end.calls[k] == c);
    }
}

/// The call that destroys a snapshot.
pub open spec fn destroying(snap: Seq<char>) -> Call {
    Call::Run { prog: "zfs"@, args: seq!["destroy"@, snap] }
}

/// Pruning goes on from where it begins.
pub proof fn lemma_prune_goes_on(w: World, ls: Seq<Seq<char>>, ds: Seq<char>, keep: Seq<char>)
    ensures
        sub::continues(w, prune_lines_does(w, ls, ds, keep)),
{
    lemma_prune_lines_all(w, ls, ds, keep);
}

proof fn lemma_prune_lines_all(w: World, ls: Seq<Seq<char>>, ds: Seq<char>, keep: Seq<char>)
    ensures
        sub::continues(w, prune_lines_does(w, ls, ds, keep)),
        forall|i: int|
            0 <= i < ls.len() && text::begins(text::trimmed(ls[i]), ds + "@mirror-"@)
                && text::trimmed(ls[i]) != keep ==> sub::called(
                w,
                prune_lines_does(w, ls, ds, keep),
                destroying(text::trimmed(#[trigger] ls[i])),
            ),
    decreases ls.len(),
{
    assert(sub::continues(w, w));
    if ls.len() > 0 {
        let front = ls.drop_last();
        lemma_prune_lines_all(w, front, ds, keep);
        let before = prune_lines_does(w, front, ds, keep);
        let end = prune_lines_does(w, ls, ds, keep);
        assert(sub::continues(before, end));
        assert forall|i: int| 0 <= i < w.calls.len() implies #[trigger] end.calls[i] == w.calls[i] by {
            assert(before.calls[i] == w.calls[i]);
        }
        assert forall|i: int|
            0 <= i < ls.len() && text::begins(text::trimmed(ls[i]), ds + "@mirror-"@)
                && text::trimmed(ls[i]) != keep implies sub::called(
            w,
            end,
            destroying(text::trimmed(#[trigger] ls[i])),
        ) by {
            let c = destroying(text::trimmed(ls[i]));
            if i < front.len() {
                assert(front[i] == ls[i]);
                assert(sub::called(w, before, c));
                let k = choose|k: int|
                    w.calls.len() <= k < before.calls.len() && #[trigger] before.calls[k] == c;
                assert(end.calls[k] == before.calls[k]);
            } else {
                let k = before.calls.len() as int + 1;
                assert(end.calls[k] == c);
            }
        }
    }
}

} // verus!
