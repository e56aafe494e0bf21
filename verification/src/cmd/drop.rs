//! `drop`: destroy a boot environment.
//!
//! What boots next, and what is running, is refused. The operator has to type
//! the full dataset path. Clones that depend on the boot environment are
//! promoted first; it is taken out of every binding list; a dataset that is
//! then bound to nothing is reported, not destroyed.

use vstd::prelude::*;
use vstd::string::*;

use crate::effects;
use crate::error;
use crate::error::Error;
use crate::facts;
use crate::facts::Rows;
use crate::model;
use crate::model::{BoundKey, BoundList, Key, PairPointer, Snap, SnapshotRef};
use crate::pools;
use crate::sub;
use crate::sub::{Call, Runner, World};
use crate::text;
use crate::walk;
use crate::zfs_ops;

verus! {

/// Arguments of `drop`.
#[derive(Debug)]
pub struct DropArgs {
    /// A bare name, or a full dataset path where the name is on several pools.
    pub name: String,
}

// ---------------------------------------------------------------------------
// What is known of the machine
// ---------------------------------------------------------------------------

/// A file system and what matters of it here.
#[derive(Debug, Clone)]
pub struct DatasetRow {
    pub name: String,
    pub is_be: bool,
    pub origin: Option<SnapshotRef>,
    pub bound_to: Option<BoundList>,
}

/// A file system, by what is known of it.
pub struct Row {
    pub name: Seq<char>,
    pub is_be: bool,
    pub origin: Option<Snap>,
    pub bound_to: Option<Seq<Key>>,
}

impl DeepView for DatasetRow {
    type V = Row;

    open spec fn deep_view(&self) -> Row {
        Row {
            name: self.name@,
            is_be: self.is_be,
            origin: self.origin.deep_view(),
            bound_to: self.bound_to.deep_view(),
        }
    }
}

/// What a property table says of each file system.
pub open spec fn rows_of(names: Seq<Seq<char>>, props: Rows) -> Seq<Row> {
    Seq::new(
        names.len(),
        |i: int|
            Row {
                name: names[i],
                is_be: facts::last_be(props, names[i]),
                origin: facts::last_origin(props, names[i]),
                bound_to: facts::last_attached(props, names[i]),
            },
    )
}

fn gather_rows(names: &Vec<String>, props: &Vec<(String, model::Property)>) -> (r: Vec<DatasetRow>)
    ensures
        r.deep_view() == rows_of(names.deep_view(), props.deep_view()),
{
    let ghost want = rows_of(names.deep_view(), props.deep_view());
    let mut out: Vec<DatasetRow> = Vec::new();
    let mut i: usize = 0;
    assert(out.deep_view() =~= want.take(0));
    while i < names.len()
        invariant
            i <= names@.len(),
            want == rows_of(names.deep_view(), props.deep_view()),
            out.deep_view() == want.take(i as int),
        decreases names@.len() - i,
    {
        let ghost so_far = out.deep_view();
        let name: &str = names[i].as_str();
        let row = DatasetRow {
            name: names[i].clone(),
            is_be: facts::find_be(props, name),
            origin: facts::find_origin(props, name),
            bound_to: facts::find_attached(props, name),
        };
        out.push(row);
        proof {
            assert(out.deep_view() =~= so_far.push(row.deep_view()));
            assert(names.deep_view()[i as int] == names@[i as int]@);
            assert(want.take(i + 1) =~= so_far.push(row.deep_view()));
        }
        i = i + 1;
    }
    assert(want.take(i as int) =~= want);
    out
}

/// Lists all file systems.
#[verifier::opaque]
pub open spec fn list_datasets_does(w: World) -> (World, Result<Seq<Row>, Seq<char>>) {
    let (w1, listed) = sub::capture_does(
        w,
        "zfs"@,
        seq!["list"@, "-Hp"@, "-o"@, "name"@, "-t"@, "filesystem"@],
    );
    match listed {
        Err(m) => (w1, Err(error::within("zfs list"@, m))),
        Ok(t) => {
            let names = pools::full_lines(text::lines_of(t));
            if names.len() == 0 {
                (w1, Ok(seq![]))
            } else {
                let (w2, got) = sub::capture_does(
                    w1,
                    "zfs"@,
                    seq![
                        "get"@,
                        "-Hp"@,
                        "-o"@,
                        "name,property,value"@,
                        "zboot:be,origin,zboot:attached-to"@,
                    ] + names,
                );
                match got {
                    Err(m) => (w2, Err(error::within("zfs get for drop"@, m))),
                    Ok(u) => match model::props_of(u) {
                        Err(m) => (w2, Err(error::within("parsing zfs get"@, m))),
                        Ok(props) => (w2, Ok(rows_of(names, props))),
                    },
                }
            }
        },
    }
}

/// All file systems, with what matters of each here.
pub fn list_datasets<R: Runner>(r: &mut R) -> (res: Result<Vec<DatasetRow>, Error>)
    ensures
        sub::did(final(r).world(), res) == list_datasets_does(old(r).world()),
{
    proof {
        reveal(list_datasets_does);
    }
    let args = text::argv6("list", "-Hp", "-o", "name", "-t", "filesystem");
    let listed: String = match sub::zfs_capture(r, args.as_slice()) {
        Err(e) => return Err(e.context("zfs list")),
        Ok(t) => t,
    };
    let names = pools::nonblank_lines(listed.as_str());
    if names.len() == 0 {
        let none: Vec<DatasetRow> = Vec::new();
        assert(none.deep_view() =~= seq![]);
        return Ok(none);
    }
    let head = text::argv5(
        "get",
        "-Hp",
        "-o",
        "name,property,value",
        "zboot:be,origin,zboot:attached-to",
    );
    let args = text::extend_strs(head, &names);
    let got: String = match sub::zfs_capture(r, args.as_slice()) {
        Err(e) => return Err(e.context("zfs get for drop")),
        Ok(t) => t,
    };
    match model::parse_zfs_get(got.as_str()) {
        Err(e) => Err(e.context("parsing zfs get")),
        Ok(props) => Ok(gather_rows(&names, &props)),
    }
}

// ---------------------------------------------------------------------------
// The target
// ---------------------------------------------------------------------------

/// The boot environment to drop.
#[derive(Debug, Clone)]
pub struct TargetBe {
    pub pool: String,
    pub dataset: String,
}

/// The boot environment to drop: its pool and its dataset.
pub struct Doomed {
    pub pool: Seq<char>,
    pub dataset: Seq<char>,
}

impl DeepView for TargetBe {
    type V = Doomed;

    open spec fn deep_view(&self) -> Doomed {
        Doomed { pool: self.pool@, dataset: self.dataset@ }
    }
}

/// `rpool/ROOT/be1` -> `rpool`.
pub fn dataset_pool<'a>(d: &'a str) -> (r: &'a str)
    ensures
        r@ == text::before(d@, '/'),
{
    text::head(d, '/')
}

/// `rpool/ROOT/be1` -> `be1`.
pub fn dataset_leaf<'a>(d: &'a str) -> (r: &'a str)
    ensures
        r@ == text::after_last(d@, '/'),
{
    text::tail(d, '/')
}

/// The datasets of the boot environments that the argument may mean.
pub open spec fn meant(rows: Seq<Row>, name: Seq<char>) -> Seq<Seq<char>>
    decreases rows.len(),
{
    if rows.len() == 0 {
        seq![]
    } else {
        let front = meant(rows.drop_last(), name);
        let row = rows.last();
        let hit = if name.contains('/') {
            row.name == name
        } else {
            text::after_last(row.name, '/') == name
        };
        if row.is_be && hit {
            front.push(row.name)
        } else {
            front
        }
    }
}

/// The boot environment that the argument names: by its dataset where it is a
/// path; else by its leaf, which then must be that of exactly one.
pub open spec fn doomed_of(rows: Seq<Row>, name: Seq<char>) -> Result<Doomed, Seq<char>> {
    let found = meant(rows, name);
    if name.contains('/') {
        if found.len() == 0 {
            Err("drop: no BE matching dataset "@ + text::quoted_text(name))
        } else {
            Ok(Doomed { pool: text::before(found[0], '/'), dataset: found[0] })
        }
    } else if found.len() == 0 {
        Err(
            "drop: no BE named "@ + text::quoted_text(name) + " found (looked for `*/ROOT/"@ + name
                + "`)"@,
        )
    } else if found.len() == 1 {
        Ok(Doomed { pool: text::before(found[0], '/'), dataset: found[0] })
    } else {
        Err(
            "drop: multiple BEs named "@ + text::quoted_text(name) + " across pools: "@
                + text::joined(found, ", "@)
                + ". Disambiguate by passing the full dataset path."@,
        )
    }
}

fn find_meant(rows: &Vec<DatasetRow>, name: &str) -> (r: Vec<String>)
    ensures
        r.deep_view() == meant(rows.deep_view(), name@),
{
    let ghost all = rows.deep_view();
    let path: bool = text::has(name, '/');
    let mut out: Vec<String> = Vec::new();
    let mut i: usize = 0;
    assert(out.deep_view() =~= meant(all.take(0), name@));
    while i < rows.len()
        invariant
            i <= rows@.len(),
            all == rows.deep_view(),
            path == name@.contains('/'),
            out.deep_view() == meant(all.take(i as int), name@),
        decreases rows@.len() - i,
    {
        proof {
            assert(all.take(i + 1).drop_last() =~= all.take(i as int));
            assert(all.take(i + 1).last() == rows@[i as int].deep_view());
        }
        if rows[i].is_be {
            let hit: bool = if path {
                text::eq(rows[i].name.as_str(), name)
            } else {
                text::eq(dataset_leaf(rows[i].name.as_str()), name)
            };
            if hit {
                text::push_text(&mut out, rows[i].name.as_str());
            }
        }
        i = i + 1;
    }
    assert(all.take(i as int) =~= all);
    out
}

/// Finds the boot environment that the argument names.
pub fn find_target_be(rows: &Vec<DatasetRow>, name: &str) -> (res: Result<TargetBe, Error>)
    ensures
        error::outcome(res) == doomed_of(rows.deep_view(), name@),
{
    let found = find_meant(rows, name);
    let q: String = text::quoted(name);
    if found.len() > 0 {
        assert(found.deep_view()[0] == found@[0]@);
    }
    if text::has(name, '/') {
        if found.len() == 0 {
            return Err(
                Error::from_text(text::cat2("drop: no BE matching dataset ", q.as_str())),
            );
        }
        return Ok(
            TargetBe {
                pool: dataset_pool(found[0].as_str()).to_owned(),
                dataset: found[0].clone(),
            },
        );
    }
    if found.len() == 0 {
        Err(
            Error::from_text(
                text::cat5(
                    "drop: no BE named ",
                    q.as_str(),
                    " found (looked for `*/ROOT/",
                    name,
                    "`)",
                ),
            ),
        )
    } else if found.len() == 1 {
        Ok(
            TargetBe {
                pool: dataset_pool(found[0].as_str()).to_owned(),
                dataset: found[0].clone(),
            },
        )
    } else {
        let shown: String = text::join(&found, ", ");
        Err(
            Error::from_text(
                text::cat5(
                    "drop: multiple BEs named ",
                    q.as_str(),
                    " across pools: ",
                    shown.as_str(),
                    ". Disambiguate by passing the full dataset path.",
                ),
            ),
        )
    }
}

/// Looks for the boot environment that the argument names.
pub open spec fn locate_does(w: World, name: Seq<char>) -> (World, Result<Doomed, Seq<char>>) {
    let (w1, listed) = list_datasets_does(w);
    (
        w1,
        match listed {
            Err(m) => Err(m),
            Ok(rows) => doomed_of(rows, name),
        },
    )
}

/// Looks for the boot environment that the argument names.
pub fn locate_target_be<R: Runner>(r: &mut R, name: &str) -> (res: Result<TargetBe, Error>)
    ensures
        sub::did(final(r).world(), res) == locate_does(old(r).world(), name@),
{
    match list_datasets(r) {
        Err(e) => Err(e),
        Ok(rows) => find_target_be(&rows, name),
    }
}

// ---------------------------------------------------------------------------
// The refusals
// ---------------------------------------------------------------------------

/// One of the lines of a `name,bootfs` table gives `ds` as `bootfs`.
pub open spec fn boots_next(ls: Seq<Seq<char>>, ds: Seq<char>) -> bool {
    exists|i: int|
        0 <= i < ls.len() && ({
            let b = zfs_ops::tab_column(#[trigger] ls[i], 1, "-"@);
            !model::unset(b) && b == ds
        })
}

fn is_boots_next(lines: &Vec<String>, ds: &str) -> (r: bool)
    ensures
        r == boots_next(lines.deep_view(), ds@),
{
    let mut i: usize = 0;
    while i < lines.len()
        invariant
            i <= lines@.len(),
            forall|j: int|
                0 <= j < i ==> {
                    let b = zfs_ops::tab_column(#[trigger] lines.deep_view()[j], 1, "-"@);
                    model::unset(b) || b != ds@
                },
        decreases lines@.len() - i,
    {
        let b: &str = zfs_ops::get_tab_column(lines[i].as_str(), 1, "-");
        assert(lines.deep_view()[i as int] == lines@[i as int]@);
        if !model::is_unset(b) && text::eq(b, ds) {
            return true;
        }
        i = i + 1;
    }
    false
}

/// Looks whether some pool boots `ds` next.
#[verifier::opaque]
pub open spec fn is_active_does(w: World, ds: Seq<char>) -> (World, Result<bool, Seq<char>>) {
    let (w1, listed) = sub::capture_does(
        w,
        "zpool"@,
        seq!["list"@, "-Hp"@, "-o"@, "name,bootfs"@],
    );
    (
        w1,
        match listed {
            Err(m) => Err(m),
            Ok(t) => Ok(boots_next(pools::full_lines(text::lines_of(t)), ds)),
        },
    )
}

/// True iff `bootfs` of some pool is `dataset`.
pub fn is_active<R: Runner>(r: &mut R, dataset: &str) -> (res: Result<bool, Error>)
    ensures
        sub::did(final(r).world(), res) == is_active_does(old(r).world(), dataset@),
{
    proof {
        reveal(is_active_does);
    }
    let args = text::argv4("list", "-Hp", "-o", "name,bootfs");
    match sub::zpool_capture(r, args.as_slice()) {
        Err(e) => Err(e),
        Ok(t) => {
            let ls = pools::nonblank_lines(t.as_str());
            Ok(is_boots_next(&ls, dataset))
        },
    }
}

/// A mount table shows `ds` at `/`.
pub open spec fn at_root(ls: Seq<Seq<char>>, ds: Seq<char>) -> bool {
    exists|i: int|
        0 <= i < ls.len() && zfs_ops::word(#[trigger] ls[i], 1) == "/"@ && zfs_ops::word(ls[i], 0)
            == ds
}

/// True iff a mount table shows `dataset` at `/`.
pub fn is_at_root(mounts: &str, dataset: &str) -> (r: bool)
    ensures
        r == at_root(text::lines_of(mounts@), dataset@),
{
    let ls = text::lines(mounts);
    let mut i: usize = 0;
    while i < ls.len()
        invariant
            i <= ls@.len(),
            ls.deep_view() == text::lines_of(mounts@),
            forall|j: int|
                0 <= j < i ==> zfs_ops::word(#[trigger] ls.deep_view()[j], 1) != "/"@
                    || zfs_ops::word(ls.deep_view()[j], 0) != dataset@,
        decreases ls@.len() - i,
    {
        assert(ls.deep_view()[i as int] == ls@[i as int]@);
        if text::eq(zfs_ops::get_word(ls[i], 1), "/") && text::eq(
            zfs_ops::get_word(ls[i], 0),
            dataset,
        ) {
            return true;
        }
        i = i + 1;
    }
    false
}

/// Looks whether `ds` is mounted at `/`; a mount table that cannot be read
/// counts as no.
#[verifier::opaque]
pub open spec fn is_live_root_does(w: World, ds: Seq<char>) -> (World, bool) {
    (
        w.after(Call::ReadFile { path: "/proc/self/mounts"@ }),
        match w.line() {
            Err(_) => false,
            Ok(t) => at_root(text::lines_of(t), ds),
        },
    )
}

/// Whether `ds` is mounted at `/`.
pub fn is_live_root<R: Runner>(r: &mut R, ds: &str) -> (res: bool)
    ensures
        (final(r).world(), res) == is_live_root_does(old(r).world(), ds@),
{
    proof {
        reveal(is_live_root_does);
    }
    match r.read_file("/proc/self/mounts") {
        Err(_) => false,
        Ok(t) => is_at_root(t.as_str(), ds),
    }
}

/// Whether the line that was typed is the confirmation.
pub open spec fn confirmed(line: Seq<char>, expected: Seq<char>) -> Result<(), Seq<char>> {
    if line.len() == 0 {
        Err("no confirmation input"@)
    } else if text::trimmed(line) == expected {
        Ok(())
    } else {
        Err(
            "confirmation mismatch (got "@ + text::quoted_text(text::trimmed(line)) + ", expected "@
                + text::quoted_text(expected) + ")"@,
        )
    }
}

/// Holds the line that was typed, which is empty at the end of input, against
/// what is expected; white space around it counts for nothing.
pub fn confirm_line(line: &str, expected: &str) -> (res: Result<(), Error>)
    ensures
        error::outcome(res) == confirmed(line@, expected@),
{
    if line.is_empty() {
        return Err(Error::new("no confirmation input"));
    }
    let got: &str = text::trim(line);
    if text::eq(got, expected) {
        Ok(())
    } else {
        let q: String = text::quoted(got);
        let p: String = text::quoted(expected);
        Err(
            Error::from_text(
                text::cat5(
                    "confirmation mismatch (got ",
                    q.as_str(),
                    ", expected ",
                    p.as_str(),
                    ")",
                ),
            ),
        )
    }
}

/// Asks for the confirmation.
pub open spec fn confirm_does(w: World, expected: Seq<char>) -> (World, Result<(), Seq<char>>) {
    (
        w.after(Call::Ask),
        match w.line() {
            Err(m) => Err(error::within("failed to read confirmation from stdin"@, m)),
            Ok(line) => confirmed(line, expected),
        },
    )
}

/// Reads one line and succeeds only if it is `expected`.
pub fn confirm_with<R: Runner>(r: &mut R, expected: &str) -> (res: Result<(), Error>)
    ensures
        sub::did(final(r).world(), res) == confirm_does(old(r).world(), expected@),
{
    match r.ask() {
        Err(e) => Err(e.context("failed to read confirmation from stdin")),
        Ok(line) => confirm_line(line.as_str(), expected),
    }
}

/// What has to hold before anything is changed: the target neither boots next
/// nor is running, and the operator typed its dataset.
#[verifier::opaque]
pub open spec fn clear_to_drop_does(w: World, name: Seq<char>, ds: Seq<char>) -> (World, Result<
    (),
    Seq<char>,
>) {
    let (w1, active) = is_active_does(w, ds);
    match active {
        Err(m) => (w1, Err(m)),
        Ok(true) => (
            w1,
            Err(
                "drop: refusing — `"@ + name
                    + "` is the active BE (bootfs points here). Switch to a different BE first, then drop this one.\nActive dataset: "@
                    + ds,
            ),
        ),
        Ok(false) => {
            let (w2, live) = is_live_root_does(w1, ds);
            if live {
                (
                    w2,
                    Err(
                        "drop: refusing — `"@ + name
                            + "` is mounted as the live `/` (currently running root). Reboot into a different BE first, then drop this one.\nLive-root dataset: "@
                            + ds,
                    ),
                )
            } else {
                let (w3, yes) = confirm_does(w2, ds);
                (
                    w3,
                    error::in_context(
                        yes,
                        "drop: confirmation required. To proceed, the exact dataset path must be supplied on stdin.\nRequired confirmation string: "@
                            + ds + "\nExample (scripted): echo "@ + ds + " | zboot drop "@ + name,
                    ),
                )
            }
        },
    }
}

fn clear_to_drop<R: Runner>(r: &mut R, name: &str, ds: &str) -> (res: Result<(), Error>)
    ensures
        sub::did(final(r).world(), res) == clear_to_drop_does(old(r).world(), name@, ds@),
{
    proof {
        reveal(clear_to_drop_does);
    }
    match is_active(r, ds) {
        Err(e) => return Err(e),
        Ok(active) => if active {
            return Err(
                Error::from_text(
                    text::cat4(
                        "drop: refusing — `",
                        name,
                        "` is the active BE (bootfs points here). Switch to a different BE first, then drop this one.\nActive dataset: ",
                        ds,
                    ),
                ),
            );
        },
    }
    if is_live_root(r, ds) {
        return Err(
            Error::from_text(
                text::cat4(
                    "drop: refusing — `",
                    name,
                    "` is mounted as the live `/` (currently running root). Reboot into a different BE first, then drop this one.\nLive-root dataset: ",
                    ds,
                ),
            ),
        );
    }
    let yes = confirm_with(r, ds);
    let doing: String = text::cat6(
        "drop: confirmation required. To proceed, the exact dataset path must be supplied on stdin.\nRequired confirmation string: ",
        ds,
        "\nExample (scripted): echo ",
        ds,
        " | zboot drop ",
        name,
    );
    error::with_context(yes, doing.as_str())
}

// ---------------------------------------------------------------------------
// The changes
// ---------------------------------------------------------------------------

/// `zfs <args>` as a mutating command, with what was being done in the error.
pub open spec fn zfs_in_context_does(w: World, args: Seq<Seq<char>>, doing: Seq<char>) -> (
    World,
    Result<(), Seq<char>>,
) {
    let (w1, done) = sub::run_does(w, "zfs"@, args);
    (w1, error::in_context(done, doing))
}

fn zfs_in_context<R: Runner>(r: &mut R, args: &[&str], doing: &str) -> (res: Result<(), Error>)
    ensures
        sub::did(final(r).world(), res) == zfs_in_context_does(
            old(r).world(),
            args.deep_view(),
            doing@,
        ),
{
    let done = sub::zfs(r, args);
    error::with_context(done, doing)
}

/// The row is a clone of a snapshot of `target`.
pub open spec fn depends_on(row: Row, target: Seq<char>) -> bool {
    row.origin matches Some(o) && o.dataset == target
}

/// The first row that is a clone of a snapshot of `target`.
pub open spec fn first_dependent(rows: Seq<Row>, target: Seq<char>) -> Option<Seq<char>>
    decreases rows.len(),
{
    if rows.len() == 0 {
        None
    } else if depends_on(rows[0], target) {
        Some(rows[0].name)
    } else {
        first_dependent(rows.drop_first(), target)
    }
}

fn find_dependent(rows: &Vec<DatasetRow>, target: &str) -> (r: Option<String>)
    ensures
        r.deep_view() == first_dependent(rows.deep_view(), target@),
{
    let ghost all = rows.deep_view();
    let mut i: usize = 0;
    assert(all.skip(0) =~= all);
    while i < rows.len()
        invariant
            i <= rows@.len(),
            all == rows.deep_view(),
            first_dependent(all, target@) == first_dependent(all.skip(i as int), target@),
        decreases rows@.len() - i,
    {
        proof {
            assert(all.skip(i as int)[0] == rows@[i as int].deep_view());
            assert(all.skip(i as int).drop_first() =~= all.skip(i + 1));
        }
        if let Some(o) = &rows[i].origin {
            if text::eq(o.dataset.as_str(), target) {
                return Some(rows[i].name.clone());
            }
        }
        i = i + 1;
    }
    None
}

/// How many promotions are tried.
pub const PROMOTIONS: u32 = 256;

/// Promotes one clone of `target` after the other, looking anew each time,
/// until there is none; gives up after `fuel` promotions.
pub open spec fn promote_does(w: World, target: Seq<char>, fuel: nat) -> (World, Result<
    Seq<Seq<char>>,
    Seq<char>,
>)
    decreases fuel,
{
    if fuel == 0 {
        (w, Err("promote loop did not converge for "@ + target + "; aborting"@))
    } else {
        let (w1, listed) = list_datasets_does(w);
        match listed {
            Err(m) => (w1, Err(m)),
            Ok(rows) => match first_dependent(rows, target) {
                None => (w1, Ok(seq![])),
                Some(ds) => {
                    let (w2, done) = zfs_in_context_does(
                        w1,
                        seq!["promote"@, ds],
                        "zfs promote "@ + ds,
                    );
                    match done {
                        Err(m) => (w2, Err(m)),
                        Ok(_) => {
                            let (w3, rest) = promote_does(w2, target, (fuel - 1) as nat);
                            match rest {
                                Err(m) => (w3, Err(m)),
                                Ok(more) => (w3, Ok(seq![ds] + more)),
                            }
                        },
                    }
                },
            },
        }
    }
}

fn promote_up_to<R: Runner>(r: &mut R, target: &str, fuel: u32) -> (res: Result<Vec<String>, Error>)
    ensures
        sub::did(final(r).world(), res) == promote_does(old(r).world(), target@, fuel as nat),
    decreases fuel,
{
    if fuel == 0 {
        return Err(
            Error::from_text(
                text::cat3("promote loop did not converge for ", target, "; aborting"),
            ),
        );
    }
    let rows: Vec<DatasetRow> = match list_datasets(r) {
        Err(e) => return Err(e),
        Ok(x) => x,
    };
    match find_dependent(&rows, target) {
        None => {
            let none: Vec<String> = Vec::new();
            assert(none.deep_view() =~= seq![]);
            Ok(none)
        },
        Some(ds) => {
            let args = text::argv2("promote", ds.as_str());
            let doing: String = text::cat2("zfs promote ", ds.as_str());
            if let Err(e) = zfs_in_context(r, args.as_slice(), doing.as_str()) {
                return Err(e);
            }
            match promote_up_to(r, target, fuel - 1) {
                Err(e) => Err(e),
                Ok(more) => {
                    let mut out: Vec<String> = more;
                    let ghost rest = out.deep_view();
                    let ghost held = out@;
                    out.insert(0, ds);
                    proof {
                        assert forall|i: int| 0 <= i < out@.len() implies #[trigger] out.deep_view()[i]
                            == (seq![ds@] + rest)[i] by {
                            if i > 0 {
                                assert(out@[i] == held[i - 1]);
                            }
                        }
                        assert(out.deep_view() =~= seq![ds@] + rest);
                    }
                    Ok(out)
                },
            }
        },
    }
}

/// Promotes every clone of a snapshot of `target_dataset`, and says which.
pub fn promote_dependent_clones<R: Runner>(r: &mut R, target_dataset: &str) -> (res: Result<
    Vec<String>,
    Error,
>)
    ensures
        sub::did(final(r).world(), res) == promote_does(
            old(r).world(),
            target_dataset@,
            PROMOTIONS as nat,
        ),
{
    promote_up_to(r, target_dataset, PROMOTIONS)
}

/// Takes the key out of one row's binding list. The first part of the result
/// says whether the dataset is then bound to nothing.
#[verifier::opaque]
pub open spec fn purge_one_does(w: World, row: Row, key: Key) -> (World, Result<bool, Seq<char>>) {
    match row.bound_to {
        None => (w, Ok(false)),
        Some(ks) => if !ks.contains(key) {
            (w, Ok(false))
        } else {
            let left = model::without_key(ks, key);
            if left.len() == 0 {
                let (w1, done) = zfs_in_context_does(
                    w,
                    seq!["inherit"@, "zboot:attached-to"@, row.name],
                    "zfs inherit zboot:attached-to on "@ + row.name,
                );
                match done {
                    Err(m) => (w1, Err(m)),
                    Ok(_) => (w1, Ok(true)),
                }
            } else {
                let (w1, done) = zfs_in_context_does(
                    w,
                    seq!["set"@, "zboot:attached-to="@ + model::list_text(left), row.name],
                    "zfs set zboot:attached-to on "@ + row.name,
                );
                match done {
                    Err(m) => (w1, Err(m)),
                    Ok(_) => (w1, Ok(false)),
                }
            }
        },
    }
}

fn purge_one<R: Runner>(r: &mut R, row: &DatasetRow, key: &BoundKey) -> (res: Result<bool, Error>)
    ensures
        sub::did(final(r).world(), res) == purge_one_does(
            old(r).world(),
            row.deep_view(),
            key.deep_view(),
        ),
{
    proof {
        reveal(purge_one_does);
    }
    let ds: &str = row.name.as_str();
    match &row.bound_to {
        None => Ok(false),
        Some(l) => {
            if !l.contains(key) {
                return Ok(false);
            }
            let mut left: BoundList = l.copy();
            left.remove(key);
            if left.is_empty() {
                let args = text::argv3("inherit", "zboot:attached-to", ds);
                let doing: String = text::cat2("zfs inherit zboot:attached-to on ", ds);
                match zfs_in_context(r, args.as_slice(), doing.as_str()) {
                    Err(e) => Err(e),
                    Ok(_) => Ok(true),
                }
            } else {
                let value: String = left.render();
                let assignment: String = text::cat2("zboot:attached-to=", value.as_str());
                let args = text::argv3("set", assignment.as_str(), ds);
                let doing: String = text::cat2("zfs set zboot:attached-to on ", ds);
                match zfs_in_context(r, args.as_slice(), doing.as_str()) {
                    Err(e) => Err(e),
                    Ok(_) => Ok(false),
                }
            }
        },
    }
}

/// Takes the key out of every binding list, up to the first failure; gives the
/// datasets that are then bound to nothing.
pub open spec fn purge_rows_does(w: World, rows: Seq<Row>, key: Key) -> (World, Result<
    Seq<Seq<char>>,
    Seq<char>,
>)
    decreases rows.len(),
{
    if rows.len() == 0 {
        (w, Ok(seq![]))
    } else {
        let (w1, so_far) = purge_rows_does(w, rows.drop_last(), key);
        match so_far {
            Err(m) => (w1, Err(m)),
            Ok(orphans) => {
                let (w2, done) = purge_one_does(w1, rows.last(), key);
                match done {
                    Err(m) => (w2, Err(m)),
                    Ok(orphan) => (
                        w2,
                        Ok(
                            if orphan {
                                orphans.push(rows.last().name)
                            } else {
                                orphans
                            },
                        ),
                    ),
                }
            },
        }
    }
}

proof fn lemma_purge_stops(w: World, rows: Seq<Row>, key: Key, i: int)
    requires
        0 <= i <= rows.len(),
        purge_rows_does(w, rows.take(i), key).1 is Err,
    ensures
        purge_rows_does(w, rows, key) == purge_rows_does(w, rows.take(i), key),
    decreases rows.len() - i,
{
    if i < rows.len() {
        assert(rows.take(i + 1).drop_last() =~= rows.take(i));
        lemma_purge_stops(w, rows, key, i + 1);
    } else {
        assert(rows.take(i) =~= rows);
    }
}

fn purge_rows<R: Runner>(r: &mut R, rows: &Vec<DatasetRow>, key: &BoundKey) -> (res: Result<
    Vec<String>,
    Error,
>)
    ensures
        sub::did(final(r).world(), res) == purge_rows_does(
            old(r).world(),
            rows.deep_view(),
            key.deep_view(),
        ),
{
    let ghost w = r.world();
    let ghost all = rows.deep_view();
    let mut orphans: Vec<String> = Vec::new();
    let mut i: usize = 0;
    assert(all.take(0) =~= seq![]);
    assert(orphans.deep_view() =~= seq![]);
    while i < rows.len()
        invariant
            i <= rows@.len(),
            all == rows.deep_view(),
            w == old(r).world(),
            (r.world(), Ok::<Seq<Seq<char>>, Seq<char>>(orphans.deep_view())) == purge_rows_does(
                w,
                all.take(i as int),
                key.deep_view(),
            ),
        decreases rows@.len() - i,
    {
        proof {
            assert(all.take(i + 1).drop_last() =~= all.take(i as int));
            assert(all.take(i + 1).last() == rows@[i as int].deep_view());
        }
        match purge_one(r, &rows[i], key) {
            Err(e) => {
                proof {
                    lemma_purge_stops(w, all, key.deep_view(), i + 1);
                }
                return Err(e);
            },
            Ok(orphan) => if orphan {
                text::push_text(&mut orphans, rows[i].name.as_str());
            },
        }
        i = i + 1;
    }
    assert(all.take(i as int) =~= all);
    Ok(orphans)
}

/// Takes the key out of every binding list.
pub open spec fn purge_does(w: World, key: Key) -> (World, Result<Seq<Seq<char>>, Seq<char>>) {
    let (w1, listed) = list_datasets_does(w);
    match listed {
        Err(m) => (w1, Err(m)),
        Ok(rows) => purge_rows_does(w1, rows, key),
    }
}

/// Takes `key` out of every binding list; returns the datasets that are then
/// bound to nothing.
pub fn purge_be_from_bound_lists<R: Runner>(r: &mut R, key: &BoundKey) -> (res: Result<
    Vec<String>,
    Error,
>)
    ensures
        sub::did(final(r).world(), res) == purge_does(old(r).world(), key.deep_view()),
{
    match list_datasets(r) {
        Err(e) => Err(e),
        Ok(rows) => purge_rows(r, &rows, key),
    }
}

/// Clears the pointer of one dataset. A command that fails is told, and no more
/// comes of it.
pub open spec fn clear_pointer_does(w: World, name: Seq<char>, dropped: Seq<char>) -> World {
    let (w1, done) = sub::run_does(w, "zfs"@, seq!["inherit"@, "zboot:mirror"@, name]);
    match done {
        Err(m) => w1.say("note: "@ + m),
        Ok(()) => w1.say(
            "cleared zboot:mirror on "@ + name + " (was pointing at dropped "@ + dropped + ")"@,
        ),
    }
}

fn clear_pointer<R: Runner>(r: &mut R, name: &str, dropped: &str)
    ensures
        final(r).world() == clear_pointer_does(old(r).world(), name@, dropped@),
{
    let args = text::argv3("inherit", "zboot:mirror", name);
    match sub::zfs(r, args.as_slice()) {
        Err(e) => tell_failure(r, &e),
        Ok(()) => {
            let line: String = text::cat5(
                "cleared zboot:mirror on ",
                name,
                " (was pointing at dropped ",
                dropped,
                ")",
            );
            r.say(line.as_str());
        },
    }
}

/// Clears the pointer of every line of a `name,value` table that reads
/// `pointer`.
pub open spec fn clear_lines_does(
    w: World,
    ls: Seq<Seq<char>>,
    pointer: Seq<char>,
    dropped: Seq<char>,
) -> World
    decreases ls.len(),
{
    if ls.len() == 0 {
        w
    } else {
        let w1 = clear_lines_does(w, ls.drop_last(), pointer, dropped);
        let name = zfs_ops::tab_column(ls.last(), 0, ""@);
        if zfs_ops::tab_column(ls.last(), 1, ""@) == pointer {
            clear_pointer_does(w1, name, dropped)
        } else {
            w1
        }
    }
}

fn clear_lines<R: Runner>(r: &mut R, table: &str, pointer: &str, dropped: &str)
    ensures
        final(r).world() == clear_lines_does(
            old(r).world(),
            text::lines_of(table@),
            pointer@,
            dropped@,
        ),
{
    let ghost w = r.world();
    let ls = text::lines(table);
    let mut i: usize = 0;
    while i < ls.len()
        invariant
            i <= ls@.len(),
            ls.deep_view() == text::lines_of(table@),
            r.world() == clear_lines_does(
                w,
                ls.deep_view().take(i as int),
                pointer@,
                dropped@,
            ),
        decreases ls@.len() - i,
    {
        proof {
            let next = ls.deep_view().take(i + 1);
            assert(next.drop_last() =~= ls.deep_view().take(i as int));
            assert(next.last() == ls@[i as int]@);
        }
        let name: &str = zfs_ops::get_tab_column(ls[i], 0, "");
        if text::eq(zfs_ops::get_tab_column(ls[i], 1, ""), pointer) {
            clear_pointer(r, name, dropped);
        }
        i = i + 1;
    }
    assert(ls.deep_view().take(i as int) =~= ls.deep_view());
}

fn tell_failure<R: Runner>(r: &mut R, e: &Error)
    ensures
        final(r).world() == old(r).world().say("note: "@ + e@),
{
    let line: String = text::cat2("note: ", e.message.as_str());
    r.say(line.as_str());
}

/// Clears the pointers at the dropped dataset on one pool, if it is a root
/// pool. A command that fails is told, and no more comes of it.
#[verifier::opaque]
pub open spec fn clear_on_pool_does(
    w: World,
    pool: Seq<char>,
    pointer: Seq<char>,
    dropped: Seq<char>,
) -> World {
    let (w1, role) = zfs_ops::pool_property_does(w, pool, "zboot:role"@);
    if let Err(m) = role {
        w1.say("note: "@ + m)
    } else if role != Ok::<Seq<char>, Seq<char>>("root"@) {
        w1
    } else {
        let (w2, got) = sub::capture_does(
            w1,
            "zfs"@,
            seq![
                "get"@,
                "-Hp"@,
                "-r"@,
                "-t"@,
                "filesystem"@,
                "-o"@,
                "name,value"@,
                "zboot:mirror"@,
                pool,
            ],
        );
        match got {
            Err(m) => w2.say("note: "@ + m),
            Ok(t) => clear_lines_does(w2, text::lines_of(t), pointer, dropped),
        }
    }
}

fn clear_on_pool<R: Runner>(r: &mut R, pool: &str, pointer: &str, dropped: &str)
    ensures
        final(r).world() == clear_on_pool_does(old(r).world(), pool@, pointer@, dropped@),
{
    proof {
        reveal(clear_on_pool_does);
    }
    match zfs_ops::pool_property(r, pool, "zboot:role") {
        Err(e) => {
            tell_failure(r, &e);
            return ;
        },
        Ok(role) => if !text::eq(role.as_str(), "root") {
            return ;
        },
    }
    let args = text::argv9(
        "get",
        "-Hp",
        "-r",
        "-t",
        "filesystem",
        "-o",
        "name,value",
        "zboot:mirror",
        pool,
    );
    match sub::zfs_capture(r, args.as_slice()) {
        Err(e) => tell_failure(r, &e),
        Ok(t) => clear_lines(r, t.as_str(), pointer, dropped),
    }
}

/// Clears the pointers at the dropped dataset on each pool.
pub open spec fn clear_on_pools_does(
    w: World,
    names: Seq<Seq<char>>,
    pointer: Seq<char>,
    dropped: Seq<char>,
) -> World
    decreases names.len(),
{
    if names.len() == 0 {
        w
    } else {
        clear_on_pool_does(
            clear_on_pools_does(w, names.drop_last(), pointer, dropped),
            names.last(),
            pointer,
            dropped,
        )
    }
}

/// Leaves every boot environment that had the dropped one as its peer without
/// a peer.
#[verifier::opaque]
pub open spec fn clear_incoming_does(w: World, dropped: Seq<char>) -> World {
    match model::pair_of(dropped) {
        None => w,
        Some(k) => {
            let (w1, listed) = sub::capture_does(
                w,
                "zpool"@,
                seq!["list"@, "-Hp"@, "-o"@, "name"@],
            );
            match listed {
                Err(m) => w1.say("note: "@ + m),
                Ok(t) => clear_on_pools_does(
                    w1,
                    text::lines_of(t),
                    model::pair_text(k),
                    dropped,
                ),
            }
        },
    }
}

fn clear_incoming_mirror_pointers<R: Runner>(r: &mut R, dropped: &str)
    ensures
        final(r).world() == clear_incoming_does(old(r).world(), dropped@),
{
    proof {
        reveal(clear_incoming_does);
    }
    let pointer: String = match PairPointer::parse_dataset(dropped) {
        None => return ,
        Some(p) => p.render(),
    };
    let args = text::argv4("list", "-Hp", "-o", "name");
    let t: String = match sub::zpool_capture(r, args.as_slice()) {
        Err(e) => {
            tell_failure(r, &e);
            return ;
        },
        Ok(t) => t,
    };
    let ghost w1 = r.world();
    let ls = text::lines(t.as_str());
    let mut i: usize = 0;
    while i < ls.len()
        invariant
            i <= ls@.len(),
            r.world() == clear_on_pools_does(
                w1,
                ls.deep_view().take(i as int),
                pointer@,
                dropped@,
            ),
        decreases ls@.len() - i,
    {
        proof {
            let next = ls.deep_view().take(i + 1);
            assert(next.drop_last() =~= ls.deep_view().take(i as int));
            assert(next.last() == ls@[i as int]@);
        }
        clear_on_pool(r, ls[i], pointer.as_str(), dropped);
        i = i + 1;
    }
    assert(ls.deep_view().take(i as int) =~= ls.deep_view());
}

/// The report of a clone that was promoted.
pub open spec fn promoted_line(ds: Seq<char>) -> Seq<char> {
    "promoted: "@ + ds
}

/// The report of a dataset that is bound to nothing.
pub open spec fn orphan_line(ds: Seq<char>) -> Seq<char> {
    "orphaned: "@ + ds + " (no live binding remains; remove with `zfs destroy "@ + ds
        + "` if no longer needed)"@
}

/// One report for each of the promoted clones.
pub open spec fn promoted_lines(names: Seq<Seq<char>>) -> Seq<Seq<char>> {
    names.map_values(|n: Seq<char>| promoted_line(n))
}

fn list_promoted(names: &Vec<String>) -> (r: Vec<String>)
    ensures
        r.deep_view() == promoted_lines(names.deep_view()),
{
    let mut out: Vec<String> = Vec::new();
    let mut i: usize = 0;
    while i < names.len()
        invariant
            i <= names@.len(),
            out@.len() == i,
            forall|k: int|
                0 <= k < i ==> #[trigger] out.deep_view()[k] == promoted_line(
                    names.deep_view()[k],
                ),
        decreases names@.len() - i,
    {
        let ghost before = out.deep_view();
        let line: String = text::cat2("promoted: ", names[i].as_str());
        out.push(line);
        assert(out.deep_view() =~= before.push(line@));
        assert(names.deep_view()[i as int] == names@[i as int]@);
        i = i + 1;
    }
    assert(out.deep_view() =~= promoted_lines(names.deep_view()));
    out
}

/// One report for each of the orphans.
pub open spec fn orphan_lines(names: Seq<Seq<char>>) -> Seq<Seq<char>> {
    names.map_values(|n: Seq<char>| orphan_line(n))
}

fn list_orphans(names: &Vec<String>) -> (r: Vec<String>)
    ensures
        r.deep_view() == orphan_lines(names.deep_view()),
{
    let mut out: Vec<String> = Vec::new();
    let mut i: usize = 0;
    while i < names.len()
        invariant
            i <= names@.len(),
            out@.len() == i,
            forall|k: int|
                0 <= k < i ==> #[trigger] out.deep_view()[k] == orphan_line(names.deep_view()[k]),
        decreases names@.len() - i,
    {
        let ghost before = out.deep_view();
        let ds: &str = names[i].as_str();
        let line: String = text::cat5(
            "orphaned: ",
            ds,
            " (no live binding remains; remove with `zfs destroy ",
            ds,
            "` if no longer needed)",
        );
        out.push(line);
        assert(out.deep_view() =~= before.push(line@));
        assert(names.deep_view()[i as int] == names@[i as int]@);
        i = i + 1;
    }
    assert(out.deep_view() =~= orphan_lines(names.deep_view()));
    out
}

/// The drop itself: clones are promoted, then the boot environment destroyed,
/// pointers and bindings to it cleared, orphans reported.
#[verifier::opaque]
pub open spec fn destroy_and_tidy_does(w: World, target: Doomed) -> (World, Result<(), Seq<char>>) {
    let (w1, promoted) = promote_does(w, target.dataset, PROMOTIONS as nat);
    match promoted {
        Err(m) => (w1, Err(m)),
        Ok(ps) => {
            let (w2, told) = sub::tell_all_does(w1, promoted_lines(ps));
            let (w3, destroyed) = if told is Err {
                (w2, told)
            } else {
                zfs_in_context_does(
                    w2,
                    seq!["destroy"@, "-r"@, target.dataset],
                    "zfs destroy -r "@ + target.dataset,
                )
            };
            if destroyed is Err {
                (w3, destroyed)
            } else {
                let wd = w3.say("destroyed: "@ + target.dataset);
                if w3.unit() is Err {
                    (wd, w3.unit())
                } else {
                    let w4 = clear_incoming_does(wd, target.dataset);
                    let key = Key { pool: target.pool, be: text::after_last(target.dataset, '/') };
                    let (w5, purged) = purge_does(w4, key);
                    match purged {
                        Err(m) => (w5, Err(m)),
                        Ok(orphans) => sub::tell_all_does(w5, orphan_lines(orphans)),
                    }
                }
            }
        },
    }
}

fn destroy_and_tidy<R: Runner>(r: &mut R, target: &TargetBe) -> (res: Result<(), Error>)
    ensures
        sub::did(final(r).world(), res) == destroy_and_tidy_does(
            old(r).world(),
            target.deep_view(),
        ),
{
    proof {
        reveal(destroy_and_tidy_does);
    }
    let ds: &str = target.dataset.as_str();
    let promoted: Vec<String> = match promote_dependent_clones(r, ds) {
        Err(e) => return Err(e),
        Ok(p) => p,
    };
    let lines = list_promoted(&promoted);
    if let Err(e) = sub::tell_all(r, &lines) {
        return Err(e);
    }
    let args = text::argv3("destroy", "-r", ds);
    let doing: String = text::cat2("zfs destroy -r ", ds);
    if let Err(e) = zfs_in_context(r, args.as_slice(), doing.as_str()) {
        return Err(e);
    }
    let line: String = text::cat2("destroyed: ", ds);
    if let Err(e) = r.tell(line.as_str()) {
        return Err(e);
    }
    clear_incoming_mirror_pointers(r, ds);
    let key: BoundKey = BoundKey::new(target.pool.as_str(), dataset_leaf(ds));
    match purge_be_from_bound_lists(r, &key) {
        Err(e) => Err(e),
        Ok(orphans) => {
            let lines = list_orphans(&orphans);
            sub::tell_all(r, &lines)
        },
    }
}

/// `drop`, by its argument.
pub open spec fn run_does(w: World, name: Seq<char>) -> (World, Result<(), Seq<char>>) {
    let (w1, found) = locate_does(w, name);
    match found {
        Err(m) => (w1, Err(m)),
        Ok(target) => {
            let (w2, clear) = clear_to_drop_does(w1, name, target.dataset);
            if clear is Err {
                (w2, clear)
            } else {
                destroy_and_tidy_does(w2, target)
            }
        },
    }
}

/// Runs `drop`.
pub fn run<R: Runner>(r: &mut R, args: &DropArgs) -> (res: Result<(), Error>)
    ensures
        sub::did(final(r).world(), res) == run_does(old(r).world(), args.name@),
{
    let target: TargetBe = match locate_target_be(r, args.name.as_str()) {
        Err(e) => return Err(e),
        Ok(t) => t,
    };
    if let Err(e) = clear_to_drop(r, args.name.as_str(), target.dataset.as_str()) {
        return Err(e);
    }
    destroy_and_tidy(r, &target)
}

// ---------------------------------------------------------------------------
// Laws
// ---------------------------------------------------------------------------

/// What is located is a boot environment of the list, and bears the name, or
/// lies at the dataset, that was asked for.
pub proof fn law_target_is_a_boot_environment(rows: Seq<Row>, name: Seq<char>)
    ensures
        doomed_of(rows, name) matches Ok(d) ==> (d.dataset == name || text::after_last(
            d.dataset,
            '/',
        ) == name) && exists|i: int|
            0 <= i < rows.len() && (#[trigger] rows[i]).is_be && rows[i].name == d.dataset,
{
    lemma_meant(rows, name);
}

proof fn lemma_meant(rows: Seq<Row>, name: Seq<char>)
    ensures
        forall|k: int|
            0 <= k < meant(rows, name).len() ==> ({
                let ds = #[trigger] meant(rows, name)[k];
                (ds == name || text::after_last(ds, '/') == name) && exists|i: int|
                    0 <= i < rows.len() && (#[trigger] rows[i]).is_be && rows[i].name == ds
            }),
    decreases rows.len(),
{
    if rows.len() > 0 {
        let front = rows.drop_last();
        lemma_meant(front, name);
        assert forall|k: int| 0 <= k < meant(rows, name).len() implies ({
            let ds = #[trigger] meant(rows, name)[k];
            (ds == name || text::after_last(ds, '/') == name) && exists|i: int|
                0 <= i < rows.len() && (#[trigger] rows[i]).is_be && rows[i].name == ds
        }) by {
            let ds = meant(rows, name)[k];
            if k < meant(front, name).len() {
                assert(ds == meant(front, name)[k]);
                let i = choose|i: int|
                    0 <= i < front.len() && (#[trigger] front[i]).is_be && front[i].name == ds;
                assert(rows[i] == front[i]);
            } else {
                assert(rows[rows.len() - 1].name == ds);
            }
        }
    }
}

/// A boot environment that boots next is never dropped: the drop fails, and
/// nothing has been changed.
pub proof fn law_active_is_refused(w: World, name: Seq<char>, target: Doomed)
    requires
        locate_does(w, name).1 == Ok::<Doomed, Seq<char>>(target),
        is_active_does(locate_does(w, name).0, target.dataset).1 == Ok::<bool, Seq<char>>(true),
    ensures
        run_does(w, name).1 is Err,
        sub::only_looked(w, run_does(w, name).0),
{
    reveal(clear_to_drop_does);
    lemma_list_looks(w);
    lemma_active_looks(locate_does(w, name).0, target.dataset);
}

/// A boot environment that is running is never dropped: the drop fails, and
/// nothing has been changed.
pub proof fn law_running_is_refused(w: World, name: Seq<char>, target: Doomed)
    requires
        locate_does(w, name).1 == Ok::<Doomed, Seq<char>>(target),
        ({
            let (w1, active) = is_active_does(locate_does(w, name).0, target.dataset);
            active == Ok::<bool, Seq<char>>(false) && is_live_root_does(w1, target.dataset).1
        }),
    ensures
        run_does(w, name).1 is Err,
        sub::only_looked(w, run_does(w, name).0),
{
    reveal(clear_to_drop_does);
    reveal(is_live_root_does);
    lemma_list_looks(w);
    lemma_active_looks(locate_does(w, name).0, target.dataset);
}

/// Nothing is changed before the operator has typed the dataset: where the
/// line that was typed is another, the drop fails, and all it did was to look
/// and to ask.
pub proof fn law_wrong_confirmation_changes_nothing(w: World, name: Seq<char>, target: Doomed)
    requires
        locate_does(w, name).1 == Ok::<Doomed, Seq<char>>(target),
        clear_to_drop_does(locate_does(w, name).0, name, target.dataset).1 is Err,
    ensures
        run_does(w, name).1 is Err,
        ({
            let end = run_does(w, name).0;
            sub::continues(w, end) && forall|i: int|
                w.calls.len() <= i < end.calls.len() ==> sub::harmless(#[trigger] end.calls[i])
                    || end.calls[i] == Call::Ask
        }),
{
    reveal(clear_to_drop_does);
    reveal(is_live_root_does);
    lemma_list_looks(w);
    lemma_active_looks(locate_does(w, name).0, target.dataset);
}

/// The confirmation is given only for a line that reads, without the white
/// space around it, as the dataset does.
pub proof fn law_confirmation_is_exact(line: Seq<char>, expected: Seq<char>)
    ensures
        confirmed(line, expected) is Ok <==> line.len() > 0 && text::trimmed(line) == expected,
{
}

proof fn lemma_list_looks(w: World)
    ensures
        sub::only_looked(w, list_datasets_does(w).0),
{
    reveal(list_datasets_does);
}

proof fn lemma_active_looks(w: World, ds: Seq<char>)
    ensures
        sub::only_looked(w, is_active_does(w, ds).0),
{
    reveal(is_active_does);
}

/// When the promotions are done, the last look at the file systems found no
/// clone of the target left.
pub proof fn law_no_dependent_is_left(w: World, target: Seq<char>, fuel: nat)
    requires
        promote_does(w, target, fuel).1 is Ok,
    ensures
        exists|before: World|
            ({
                let (after, rows) = #[trigger] list_datasets_does(before);
                after == promote_does(w, target, fuel).0 && rows is Ok && first_dependent(
                    rows->Ok_0,
                    target,
                ) is None
            }),
    decreases fuel,
{
    let (w1, listed) = list_datasets_does(w);
    let rows = listed->Ok_0;
    if let Some(ds) = first_dependent(rows, target) {
        let (w2, done) = zfs_in_context_does(w1, seq!["promote"@, ds], "zfs promote "@ + ds);
        law_no_dependent_is_left(w2, target, (fuel - 1) as nat);
    } else {
        assert(list_datasets_does(w).0 == promote_does(w, target, fuel).0);
    }
}

/// The clone that a call promotes, if it promotes one.
pub open spec fn promotion(c: Call) -> Option<Seq<char>> {
    match c {
        Call::Run { prog, args } => if prog == "zfs"@ && args.len() > 0 && args[0] == "promote"@ {
            Some(args.last())
        } else {
            None
        },
        _ => None,
    }
}

/// The clones that calls promote, in order, but for the first `from` calls.
pub open spec fn promotions(calls: Seq<Call>, from: int) -> Seq<Seq<char>>
    decreases calls.len(),
{
    if calls.len() == 0 || calls.len() <= from {
        seq![]
    } else {
        let front = promotions(calls.drop_last(), from);
        match promotion(calls.last()) {
            Some(ds) => front.push(ds),
            None => front,
        }
    }
}

/// The clones that are reported are those for which a promotion was called,
/// in the order of the calls.
pub proof fn law_promotions_are_reported(w: World, target: Seq<char>, fuel: nat)
    requires
        promote_does(w, target, fuel).1 is Ok,
    ensures
        promotions(promote_does(w, target, fuel).0.calls, w.calls.len() as int)
            == promote_does(w, target, fuel).1->Ok_0,
{
    let from = w.calls.len() as int;
    lemma_promotions(w, target, fuel, from);
    assert(promotions(w.calls, from) =~= seq![]);
    assert(promotions(w.calls, from) + promote_does(w, target, fuel).1->Ok_0
        =~= promote_does(w, target, fuel).1->Ok_0);
}

proof fn lemma_promotions(w: World, target: Seq<char>, fuel: nat, from: int)
    requires
        promote_does(w, target, fuel).1 is Ok,
        from <= w.calls.len(),
    ensures
        promotions(promote_does(w, target, fuel).0.calls, from) == promotions(w.calls, from)
            + promote_does(w, target, fuel).1->Ok_0,
    decreases fuel,
{
    let (w1, listed) = list_datasets_does(w);
    lemma_list_looks(w);
    lemma_looked_promotes_nothing(w, w1, from);
    let had = promotions(w.calls, from);
    if let Some(ds) = first_dependent(listed->Ok_0, target) {
        let args = seq!["promote"@, ds];
        let (w2, done) = zfs_in_context_does(w1, args, "zfs promote "@ + ds);
        let c = Call::Run { prog: "zfs"@, args };
        let t = w1.trace(sub::announced("zfs"@, args));
        assert(args[0] == "promote"@ && args.last() == ds);
        assert(w2.calls == t.calls.push(c));
        assert(t.calls.drop_last() =~= w1.calls);
        assert(w2.calls.drop_last() =~= t.calls);
        assert(promotions(t.calls, from) == had);
        assert(promotions(w2.calls, from) == had.push(ds));
        lemma_promotions(w2, target, (fuel - 1) as nat, from);
        let more = promote_does(w2, target, (fuel - 1) as nat).1->Ok_0;
        assert(had.push(ds) + more =~= had + (seq![ds] + more));
    } else {
        assert(had + seq![] =~= had);
    }
}

/// Looking promotes nothing.
proof fn lemma_looked_promotes_nothing(a: World, b: World, from: int)
    requires
        sub::only_looked(a, b),
        from <= a.calls.len(),
    ensures
        promotions(b.calls, from) == promotions(a.calls, from),
    decreases b.calls.len(),
{
    if b.calls.len() > a.calls.len() {
        let c = World { calls: b.calls.drop_last(), replies: b.replies };
        assert(sub::only_looked(a, c)) by {
            assert forall|i: int| 0 <= i < a.calls.len() implies #[trigger] c.calls[i]
                == a.calls[i] by {
                assert(b.calls[i] == a.calls[i]);
            }
            assert forall|i: int| a.calls.len() <= i < c.calls.len() implies sub::harmless(
                #[trigger] c.calls[i],
            ) by {
                assert(c.calls[i] == b.calls[i]);
            }
        }
        lemma_looked_promotes_nothing(a, c, from);
        assert(sub::harmless(b.calls[b.calls.len() - 1]));
        reveal_strlit("promote");
        reveal_strlit("list");
        reveal_strlit("get");
        reveal_strlit("zfs");
        reveal_strlit("wipefs");
        reveal_strlit("lsblk");
        reveal_strlit("findmnt");
        assert("promote"@[0] == 'p' && "list"@[0] == 'l' && "get"@[0] == 'g');
        assert("zfs"@[0] == 'z' && "lsblk"@[0] == 'l' && "findmnt"@[0] == 'f' && "wipefs"@[0]
            == 'w');
    } else {
        assert(b.calls =~= a.calls);
    }
}

/// Where [`first_dependent`] finds nothing, no row is a clone of the target.
pub proof fn law_first_dependent_finds(rows: Seq<Row>, target: Seq<char>, i: int)
    requires
        first_dependent(rows, target) is None,
        0 <= i < rows.len(),
    ensures
        !depends_on(rows[i], target),
    decreases rows.len(),
{
    if i > 0 {
        assert(rows.drop_first()[i - 1] == rows[i]);
        law_first_dependent_finds(rows.drop_first(), target, i - 1);
    }
}

/// A dataset is reported as an orphan only if the dropped boot environment was
/// the last one it was bound to.
pub proof fn law_orphans_had_one_binding(w: World, rows: Seq<Row>, key: Key, k: int)
    requires
        purge_rows_does(w, rows, key).1 is Ok,
        0 <= k < purge_rows_does(w, rows, key).1->Ok_0.len(),
    ensures
        exists|i: int|
            0 <= i < rows.len() && (#[trigger] rows[i]).name == purge_rows_does(
                w,
                rows,
                key,
            ).1->Ok_0[k] && (rows[i].bound_to matches Some(ks) && ks.contains(key)
                && model::without_key(ks, key).len() == 0),
    decreases rows.len(),
{
    if rows.len() > 0 {
        reveal(purge_one_does);
        let front = rows.drop_last();
        let (w1, so_far) = purge_rows_does(w, front, key);
        let orphans = so_far->Ok_0;
        let all = purge_rows_does(w, rows, key).1->Ok_0;
        if k < orphans.len() {
            assert(all[k] == orphans[k]);
            law_orphans_had_one_binding(w, front, key, k);
            let i = choose|i: int|
                0 <= i < front.len() && (#[trigger] front[i]).name == orphans[k] && (
                front[i].bound_to matches Some(ks) && ks.contains(key) && model::without_key(
                    ks,
                    key,
                ).len() == 0);
            assert(rows[i] == front[i]);
        } else {
            assert(rows[rows.len() - 1].name == all[k]);
        }
    }
}

/// What the drop of `ds` may do: ask, destroy that dataset, promote clones, and
/// change properties.
pub open spec fn dropping(ds: Seq<char>) -> spec_fn(Call) -> bool {
    |c: Call|
        {
            ||| c == Call::Ask
            ||| c == (Call::Run { prog: "zfs"@, args: seq!["destroy"@, "-r"@, ds] })
            ||| c matches Call::Run { prog, args } && prog == "zfs"@ && args.len() > 0 && (args[0]
                == "promote"@ || args[0] == "set"@ || args[0] == "inherit"@)
        }
}

/// A drop destroys the boot environment that was asked for and nothing else:
/// datasets that are left without a binding stay, and so do clones.
pub proof fn law_only_the_target_is_destroyed(w: World, name: Seq<char>)
    ensures
        match locate_does(w, name).1 {
            Ok(target) => sub::did_only(w, run_does(w, name).0, dropping(target.dataset)),
            Err(_) => sub::only_looked(w, run_does(w, name).0),
        },
{
    lemma_list_looks(w);
    let (w1, found) = locate_does(w, name);
    if let Ok(target) = found {
        let p = dropping(target.dataset);
        effects::lemma_looked(w, w1, p);
        let (w2, clear) = clear_to_drop_does(w1, name, target.dataset);
        lemma_clear_to_drop(w1, name, target.dataset);
        effects::lemma_then(w, w1, w2, p);
        lemma_tidy(w2, target);
        effects::lemma_then(w, w2, destroy_and_tidy_does(w2, target).0, p);
    }
}

proof fn lemma_clear_to_drop(w: World, name: Seq<char>, ds: Seq<char>)
    ensures
        sub::did_only(w, clear_to_drop_does(w, name, ds).0, dropping(ds)),
{
    reveal(clear_to_drop_does);
    reveal(is_live_root_does);
    lemma_active_looks(w, ds);
    let w1 = is_active_does(w, ds).0;
    let w2 = is_live_root_does(w1, ds).0;
    effects::lemma_looked(w, w1, dropping(ds));
    effects::lemma_looked(w1, w2, dropping(ds));
    effects::lemma_then(w, w1, w2, dropping(ds));
    effects::lemma_then(w, w2, confirm_does(w2, ds).0, dropping(ds));
}

proof fn lemma_tidy(w: World, target: Doomed)
    ensures
        sub::did_only(w, destroy_and_tidy_does(w, target).0, dropping(target.dataset)),
{
    reveal(destroy_and_tidy_does);
    let ds = target.dataset;
    let p = dropping(ds);
    let (w1, promoted) = promote_does(w, ds, PROMOTIONS as nat);
    lemma_promote(w, ds, PROMOTIONS as nat);
    if let Ok(ps) = promoted {
        let w2 = sub::tell_all_does(w1, promoted_lines(ps)).0;
        sub::lemma_tell_all_looks(w1, promoted_lines(ps));
        effects::lemma_looked(w1, w2, p);
        effects::lemma_then(w, w1, w2, p);
        let args = seq!["destroy"@, "-r"@, ds];
        let w3 = zfs_in_context_does(w2, args, "zfs destroy -r "@ + ds).0;
        assert(p(Call::Run { prog: "zfs"@, args }));
        assert(sub::did_only(w2, w3, p));
        effects::lemma_then(w, w2, w3, p);
        let wd = w3.say("destroyed: "@ + ds);
        let w4 = clear_incoming_does(wd, ds);
        effects::lemma_looked(w3, wd, p);
        effects::lemma_then(w, w3, wd, p);
        lemma_clear_incoming(wd, ds);
        effects::lemma_then(w, wd, w4, p);
        let key = Key { pool: target.pool, be: text::after_last(ds, '/') };
        let (w5, purged) = purge_does(w4, key);
        lemma_list_looks(w4);
        let (wl, listed) = list_datasets_does(w4);
        effects::lemma_looked(w4, wl, p);
        effects::lemma_then(w, w4, wl, p);
        if let Ok(rows) = listed {
            lemma_purge(wl, rows, key, ds);
            effects::lemma_then(w, wl, w5, p);
        }
        if let Ok(orphans) = purged {
            sub::lemma_tell_all_looks(w5, orphan_lines(orphans));
            let end = sub::tell_all_does(w5, orphan_lines(orphans)).0;
            effects::lemma_looked(w5, end, p);
            effects::lemma_then(w, w5, end, p);
        }
    }
}

proof fn lemma_promote(w: World, target: Seq<char>, fuel: nat)
    ensures
        sub::did_only(w, promote_does(w, target, fuel).0, dropping(target)),
    decreases fuel,
{
    let p = dropping(target);
    if fuel > 0 {
        lemma_list_looks(w);
        let (w1, listed) = list_datasets_does(w);
        effects::lemma_looked(w, w1, p);
        if let Ok(rows) = listed {
            if let Some(ds) = first_dependent(rows, target) {
                let args = seq!["promote"@, ds];
                let (w2, done) = zfs_in_context_does(w1, args, "zfs promote "@ + ds);
                assert(args[0] == "promote"@);
                assert(p(Call::Run { prog: "zfs"@, args }));
                assert(sub::did_only(w1, w2, p));
                effects::lemma_then(w, w1, w2, p);
                lemma_promote(w2, target, (fuel - 1) as nat);
                effects::lemma_then(w, w2, promote_does(w2, target, (fuel - 1) as nat).0, p);
            }
        }
    }
}

proof fn lemma_purge(w: World, rows: Seq<Row>, key: Key, ds: Seq<char>)
    ensures
        sub::did_only(w, purge_rows_does(w, rows, key).0, dropping(ds)),
    decreases rows.len(),
{
    let p = dropping(ds);
    if rows.len() > 0 {
        reveal(purge_one_does);
        lemma_purge(w, rows.drop_last(), key, ds);
        let (w1, so_far) = purge_rows_does(w, rows.drop_last(), key);
        let row = rows.last();
        let (w2, done) = purge_one_does(w1, row, key);
        if let Some(ks) = row.bound_to {
            let unset = seq!["inherit"@, "zboot:attached-to"@, row.name];
            let left = model::without_key(ks, key);
            let set = seq!["set"@, "zboot:attached-to="@ + model::list_text(left), row.name];
            assert(unset[0] == "inherit"@ && set[0] == "set"@);
            assert(p(Call::Run { prog: "zfs"@, args: unset }));
            assert(p(Call::Run { prog: "zfs"@, args: set }));
        }
        assert(sub::did_only(w1, w2, p));
        effects::lemma_then(w, w1, w2, p);
    }
}

proof fn lemma_clear_incoming(w: World, ds: Seq<char>)
    ensures
        sub::did_only(w, clear_incoming_does(w, ds), dropping(ds)),
{
    reveal(clear_incoming_does);
    let p = dropping(ds);
    if let Some(k) = model::pair_of(ds) {
        let args = seq!["list"@, "-Hp"@, "-o"@, "name"@];
        let (w1, listed) = sub::capture_does(w, "zpool"@, args);
        assert(args[0] == "list"@);
        assert(sub::did_only(w, w1, p));
        if let Ok(t) = listed {
            lemma_clear_on_pools(w1, text::lines_of(t), model::pair_text(k), ds);
            effects::lemma_then(
                w,
                w1,
                clear_on_pools_does(w1, text::lines_of(t), model::pair_text(k), ds),
                p,
            );
        }
    }
}

proof fn lemma_clear_on_pools(w: World, names: Seq<Seq<char>>, pointer: Seq<char>, ds: Seq<char>)
    ensures
        sub::did_only(w, clear_on_pools_does(w, names, pointer, ds), dropping(ds)),
    decreases names.len(),
{
    let p = dropping(ds);
    if names.len() > 0 {
        reveal(clear_on_pool_does);
        let pool = names.last();
        lemma_clear_on_pools(w, names.drop_last(), pointer, ds);
        let w0 = clear_on_pools_does(w, names.drop_last(), pointer, ds);
        zfs_ops::lemma_pool_property_looks(w0, pool, "zboot:role"@);
        let w1 = zfs_ops::pool_property_does(w0, pool, "zboot:role"@).0;
        effects::lemma_looked(w0, w1, p);
        let args = seq![
            "get"@,
            "-Hp"@,
            "-r"@,
            "-t"@,
            "filesystem"@,
            "-o"@,
            "name,value"@,
            "zboot:mirror"@,
            pool,
        ];
        let (w2, got) = sub::capture_does(w1, "zfs"@, args);
        assert(args[0] == "get"@);
        assert(sub::did_only(w1, w2, p));
        effects::lemma_then(w0, w1, w2, p);
        if let Ok(t) = got {
            lemma_clear_lines(w2, text::lines_of(t), pointer, ds);
            effects::lemma_then(
                w0,
                w2,
                clear_lines_does(w2, text::lines_of(t), pointer, ds),
                p,
            );
        }
        let end = clear_on_pool_does(w0, pool, pointer, ds);
        assert(sub::did_only(w0, end, p));
        effects::lemma_then(w, w0, end, p);
    }
}

proof fn lemma_clear_lines(w: World, ls: Seq<Seq<char>>, pointer: Seq<char>, ds: Seq<char>)
    ensures
        sub::did_only(w, clear_lines_does(w, ls, pointer, ds), dropping(ds)),
    decreases ls.len(),
{
    let p = dropping(ds);
    if ls.len() > 0 {
        lemma_clear_lines(w, ls.drop_last(), pointer, ds);
        let w1 = clear_lines_does(w, ls.drop_last(), pointer, ds);
        let name = zfs_ops::tab_column(ls.last(), 0, ""@);
        let args = seq!["inherit"@, "zboot:mirror"@, name];
        assert(args[0] == "inherit"@);
        assert(p(Call::Run { prog: "zfs"@, args }));
        let w2 = clear_lines_does(w, ls, pointer, ds);
        assert(sub::did_only(w1, w2, p));
        effects::lemma_then(w, w1, w2, p);
    }
}

/// Between `a` and `b` the key has gone from the list of a row, if it was there:
/// what is left was set, and where nothing is left, the list was cleared.
pub open spec fn purged(a: World, b: World, row: Row, key: Key) -> bool {
    row.bound_to matches Some(ks) ==> (ks.contains(key) ==> {
        let left = model::without_key(ks, key);
        if left.len() == 0 {
            effects::ran(a, b, "zfs"@, seq!["inherit"@, "zboot:attached-to"@, row.name])
        } else {
            effects::ran(
                a,
                b,
                "zfs"@,
                seq!["set"@, "zboot:attached-to="@ + model::list_text(left), row.name],
            )
        }
    })
}

/// The key is the only one in the list of a row.
pub open spec fn last_binding(row: Row, key: Key) -> bool {
    row.bound_to matches Some(ks) && ks.contains(key) && model::without_key(ks, key).len() == 0
}

proof fn lemma_purged_within(a: World, b: World, c: World, d: World, row: Row, key: Key)
    requires
        sub::continues(a, b),
        purged(b, c, row, key),
        sub::continues(c, d),
    ensures
        purged(a, d, row, key),
{
    if let Some(ks) = row.bound_to {
        if ks.contains(key) {
            let left = model::without_key(ks, key);
            let args = if left.len() == 0 {
                seq!["inherit"@, "zboot:attached-to"@, row.name]
            } else {
                seq!["set"@, "zboot:attached-to="@ + model::list_text(left), row.name]
            };
            effects::lemma_ran_within(a, b, c, d, "zfs"@, args);
        }
    }
}

/// A purge that succeeds takes the key out of every list that holds it, and
/// reports exactly those datasets whose list held nothing else.
pub proof fn law_every_list_is_purged(w: World, rows: Seq<Row>, key: Key)
    requires
        purge_rows_does(w, rows, key).1 is Ok,
    ensures
        sub::continues(w, purge_rows_does(w, rows, key).0),
        forall|i: int|
            0 <= i < rows.len() ==> purged(
                w,
                purge_rows_does(w, rows, key).0,
                #[trigger] rows[i],
                key,
            ),
        forall|x: Seq<char>| #[trigger]
            purge_rows_does(w, rows, key).1->Ok_0.contains(x) <==> exists|i: int|
                0 <= i < rows.len() && (#[trigger] rows[i]).name == x && last_binding(rows[i], key),
    decreases rows.len(),
{
    assert(sub::continues(w, w));
    if rows.len() > 0 {
        reveal(purge_one_does);
        let front = rows.drop_last();
        law_every_list_is_purged(w, front, key);
        let (w1, so_far) = purge_rows_does(w, front, key);
        let (end, res) = purge_rows_does(w, rows, key);
        let before = so_far->Ok_0;
        let all = res->Ok_0;
        let row = rows.last();
        if let Some(ks) = row.bound_to {
            let left = model::without_key(ks, key);
            let unset = seq!["inherit"@, "zboot:attached-to"@, row.name];
            let set = seq!["set"@, "zboot:attached-to="@ + model::list_text(left), row.name];
            effects::lemma_run_ran(w1, "zfs"@, unset);
            effects::lemma_run_ran(w1, "zfs"@, set);
        }
        assert(sub::continues(w1, end));
        assert(sub::continues(end, end));
        effects::lemma_continues(w, w1, end);
        assert(purged(w1, end, row, key));
        lemma_purged_within(w, w1, end, end, row, key);
        assert forall|i: int| 0 <= i < rows.len() implies purged(w, end, #[trigger] rows[i], key) by {
            if i < front.len() {
                assert(front[i] == rows[i]);
                lemma_purged_within(w, w, w1, end, front[i], key);
            }
        }
        assert forall|x: Seq<char>| #[trigger] all.contains(x) <==> exists|i: int|
            0 <= i < rows.len() && (#[trigger] rows[i]).name == x && last_binding(
                rows[i],
                key,
            ) by {
            if all.contains(x) {
                let k = choose|k: int| 0 <= k < all.len() && all[k] == x;
                if k < before.len() {
                    assert(before[k] == x);
                    assert(before.contains(x));
                    let i = choose|i: int|
                        0 <= i < front.len() && (#[trigger] front[i]).name == x && last_binding(
                            front[i],
                            key,
                        );
                    assert(rows[i] == front[i]);
                } else {
                    assert(rows[rows.len() - 1] == row);
                }
            }
            if exists|i: int|
                0 <= i < rows.len() && (#[trigger] rows[i]).name == x && last_binding(
                    rows[i],
                    key,
                ) {
                let i = choose|i: int|
                    0 <= i < rows.len() && (#[trigger] rows[i]).name == x && last_binding(
                        rows[i],
                        key,
                    );
                if i < front.len() {
                    assert(front[i] == rows[i]);
                    assert(before.contains(x));
                    let k = choose|k: int| 0 <= k < before.len() && before[k] == x;
                    assert(all[k] == x);
                } else {
                    assert(all[all.len() - 1] == x);
                }
            }
        }
    }
}

/// The call that leaves a dataset without a peer.
pub open spec fn unpointing(ds: Seq<char>) -> Call {
    Call::Run { prog: "zfs"@, args: seq!["inherit"@, "zboot:mirror"@, ds] }
}

/// Every line that reads the pointer has its dataset's pointer cleared.
pub proof fn law_every_pointer_is_cleared(
    w: World,
    ls: Seq<Seq<char>>,
    pointer: Seq<char>,
    dropped: Seq<char>,
)
    ensures
        sub::continues(w, clear_lines_does(w, ls, pointer, dropped)),
        forall|i: int|
            0 <= i < ls.len() && zfs_ops::snap_rows(ls)[i].1 == pointer ==> sub::called(
                w,
                clear_lines_does(w, ls, pointer, dropped),
                unpointing((#[trigger] zfs_ops::snap_rows(ls)[i]).0),
            ),
    decreases ls.len(),
{
    assert(sub::continues(w, w));
    if ls.len() > 0 {
        let front = ls.drop_last();
        law_every_pointer_is_cleared(w, front, pointer, dropped);
        let w1 = clear_lines_does(w, front, pointer, dropped);
        let end = clear_lines_does(w, ls, pointer, dropped);
        assert(sub::continues(w1, end));
        effects::lemma_continues(w, w1, end);
        assert forall|i: int|
            0 <= i < ls.len() && zfs_ops::snap_rows(ls)[i].1 == pointer implies sub::called(
            w,
            end,
            unpointing((#[trigger] zfs_ops::snap_rows(ls)[i]).0),
        ) by {
            let c = unpointing(zfs_ops::snap_rows(ls)[i].0);
            if i < front.len() {
                assert(front[i] == ls[i]);
                assert(zfs_ops::snap_rows(front)[i] == zfs_ops::snap_rows(ls)[i]);
                assert(sub::called(w, w1, c));
                let n = choose|n: int|
                    w.calls.len() <= n < w1.calls.len() && #[trigger] w1.calls[n] == c;
                assert(end.calls[n] == w1.calls[n]);
            } else {
                assert(ls[i] == ls.last());
                let n = w1.calls.len() as int + 1;
                assert(end.calls[n] == c);
            }
        }
    }
}

/// Between `a` and `b` a pool was looked at: where it is a root pool and its
/// pointers can be read, each that reads `pointer` was cleared.
pub open spec fn swept(a: World, b: World, pool: Seq<char>, pointer: Seq<char>) -> bool {
    exists|n: int| a.calls.len() <= n < b.calls.len() && #[trigger] swept_at(b, n, pool, pointer)
}

/// The sweep of a pool that begins with the call of a number.
pub open spec fn swept_at(b: World, n: int, pool: Seq<char>, pointer: Seq<char>) -> bool {
    &&& b.calls[n] == walk::role_call(pool)
    &&& effects::read_as(b, n, "root"@) && (b.replies)(n as nat).garbled is None ==> {
        let told = zfs_ops::snap_rows(text::lines_of((b.replies)((n + 1) as nat).stdout));
        &&& n + 1 < b.calls.len()
        &&& b.calls[n + 1] == walk::table_call(pool, "zboot:mirror"@)
        &&& effects::succeeded(b, n + 1) ==> forall|k: int|
            0 <= k < told.len() && told[k].1 == pointer ==> called_since(
                b,
                n,
                unpointing((#[trigger] told[k]).0),
            )
    }
}

/// A call has been made since the call of a number.
pub open spec fn called_since(b: World, n: int, c: Call) -> bool {
    exists|i: int| n <= i < b.calls.len() && #[trigger] b.calls[i] == c
}

proof fn lemma_swept_within(a: World, b: World, c: World, pool: Seq<char>, pointer: Seq<char>)
    requires
        swept(a, b, pool, pointer),
        sub::continues(b, c),
    ensures
        swept(a, c, pool, pointer),
{
    let n = choose|n: int|
        a.calls.len() <= n < b.calls.len() && #[trigger] swept_at(b, n, pool, pointer);
    assert(c.calls[n] == b.calls[n]);
    if n + 1 < b.calls.len() {
        assert(c.calls[n + 1] == b.calls[n + 1]);
    }
    let told = zfs_ops::snap_rows(text::lines_of((b.replies)((n + 1) as nat).stdout));
    assert forall|k: int|
        0 <= k < told.len() && told[k].1 == pointer && called_since(
            b,
            n,
            unpointing(told[k].0),
        ) implies called_since(c, n, unpointing((#[trigger] told[k]).0)) by {
        let x = unpointing(told[k].0);
        let i = choose|i: int| n <= i < b.calls.len() && #[trigger] b.calls[i] == x;
        assert(c.calls[i] == b.calls[i]);
    }
    assert(swept_at(c, n, pool, pointer));
}

/// Every pool is swept.
pub proof fn law_every_pool_is_swept(
    w: World,
    names: Seq<Seq<char>>,
    pointer: Seq<char>,
    dropped: Seq<char>,
)
    ensures
        sub::continues(w, clear_on_pools_does(w, names, pointer, dropped)),
        forall|i: int|
            0 <= i < names.len() ==> swept(
                w,
                clear_on_pools_does(w, names, pointer, dropped),
                #[trigger] names[i],
                pointer,
            ),
    decreases names.len(),
{
    assert(sub::continues(w, w));
    if names.len() > 0 {
        let front = names.drop_last();
        law_every_pool_is_swept(w, front, pointer, dropped);
        let w1 = clear_on_pools_does(w, front, pointer, dropped);
        let end = clear_on_pools_does(w, names, pointer, dropped);
        lemma_pool_swept(w1, names.last(), pointer, dropped);
        effects::lemma_continues(w, w1, end);
        let n = choose|n: int|
            w1.calls.len() <= n < end.calls.len() && #[trigger] swept_at(
                end,
                n,
                names.last(),
                pointer,
            );
        assert(swept(w, end, names.last(), pointer));
        assert forall|i: int| 0 <= i < names.len() implies swept(
            w,
            end,
            #[trigger] names[i],
            pointer,
        ) by {
            if i < front.len() {
                assert(front[i] == names[i]);
                lemma_swept_within(w, w1, end, front[i], pointer);
            }
        }
    }
}

proof fn lemma_pool_swept(w: World, pool: Seq<char>, pointer: Seq<char>, dropped: Seq<char>)
    ensures
        sub::continues(w, clear_on_pool_does(w, pool, pointer, dropped)),
        swept(w, clear_on_pool_does(w, pool, pointer, dropped), pool, pointer),
{
    reveal(clear_on_pool_does);
    reveal(zfs_ops::pool_property_does);
    let end = clear_on_pool_does(w, pool, pointer, dropped);
    let n = w.calls.len() as int;
    let (w1, role) = zfs_ops::pool_property_does(w, pool, "zboot:role"@);
    let (w2, got) = sub::capture_does(
        w1,
        "zfs"@,
        walk::table_call(pool, "zboot:mirror"@)->Run_args,
    );
    assert(w2.calls[n] == walk::role_call(pool));
    assert(w2.calls[n + 1] == walk::table_call(pool, "zboot:mirror"@));
    if role == Ok::<Seq<char>, Seq<char>>("root"@) {
        if let Ok(t) = got {
            let ls = text::lines_of(t);
            law_every_pointer_is_cleared(w2, ls, pointer, dropped);
            assert(sub::continues(w2, end));
            let told = zfs_ops::snap_rows(ls);
            assert forall|k: int| 0 <= k < told.len() && told[k].1 == pointer implies called_since(
                end,
                n,
                unpointing((#[trigger] told[k]).0),
            ) by {
                let c = unpointing(told[k].0);
                assert(sub::called(w2, end, c));
                let i = choose|i: int|
                    w2.calls.len() <= i < end.calls.len() && #[trigger] end.calls[i] == c;
            }
        }
        assert(sub::continues(w2, end));
        assert(end.calls[n] == w2.calls[n] && end.calls[n + 1] == w2.calls[n + 1]);
    }
    assert(sub::continues(w, end));
    assert(swept_at(end, n, pool, pointer));
}

/// The lists of the rows were all purged.
pub open spec fn all_purged(a: World, b: World, rows: Seq<Row>, key: Key) -> bool {
    forall|i: int| 0 <= i < rows.len() ==> purged(a, b, #[trigger] rows[i], key)
}

/// Afterwards all file systems were listed, and their lists purged.
pub open spec fn purged_after(a: World, m: World, b: World, key: Key) -> bool {
    &&& sub::continues(a, m)
    &&& list_datasets_does(m).1 is Ok
    &&& all_purged(m, b, list_datasets_does(m).1->Ok_0, key)
}

/// A drop that succeeds has destroyed the boot environment with its snapshots;
/// and after that all file systems were listed, and the key of the dropped one
/// taken out of every list that held it.
pub proof fn law_dropped_is_gone(w: World, name: Seq<char>)
    requires
        run_does(w, name).1 is Ok,
    ensures
        ({
            let end = run_does(w, name).0;
            locate_does(w, name).1 matches Ok(target) && {
                let key = Key { pool: target.pool, be: text::after_last(target.dataset, '/') };
                &&& effects::ran(w, end, "zfs"@, seq!["destroy"@, "-r"@, target.dataset])
                &&& exists|m: World| #[trigger]
                    purged_after(w, m, end, key) && effects::ran(
                        w,
                        m,
                        "zfs"@,
                        seq!["destroy"@, "-r"@, target.dataset],
                    )
            }
        }),
{
    reveal(destroy_and_tidy_does);
    let (w0, found) = locate_does(w, name);
    let target = found->Ok_0;
    let ds = target.dataset;
    lemma_list_looks(w);
    let wc = clear_to_drop_does(w0, name, ds).0;
    lemma_clear_to_drop(w0, name, ds);
    let (w1, promoted) = promote_does(wc, ds, PROMOTIONS as nat);
    lemma_promote(wc, ds, PROMOTIONS as nat);
    let ps = promoted->Ok_0;
    let w2 = sub::tell_all_does(w1, promoted_lines(ps)).0;
    sub::lemma_tell_all_looks(w1, promoted_lines(ps));
    let args = seq!["destroy"@, "-r"@, ds];
    effects::lemma_run_ran(w2, "zfs"@, args);
    let w3 = sub::run_does(w2, "zfs"@, args).0;
    let wd = w3.say("destroyed: "@ + ds);
    let w4 = clear_incoming_does(wd, ds);
    lemma_clear_incoming(wd, ds);
    let key = Key { pool: target.pool, be: text::after_last(ds, '/') };
    let (wl, listed) = list_datasets_does(w4);
    lemma_list_looks(w4);
    let (w5, done) = purge_does(w4, key);
    law_every_list_is_purged(wl, listed->Ok_0, key);
    let end = run_does(w, name).0;
    sub::lemma_tell_all_looks(w5, orphan_lines(done->Ok_0));
    assert(sub::continues(w3, wd));
    effects::lemma_continues(w3, wd, w4);
    effects::lemma_continues(w4, wl, w5);
    effects::lemma_continues(w4, w5, end);
    effects::lemma_continues(w3, w4, end);
    effects::lemma_continues(w, w0, wc);
    effects::lemma_continues(w, wc, w1);
    effects::lemma_continues(w, w1, w2);
    effects::lemma_continues(w, w2, w3);
    effects::lemma_continues(w, w3, w4);
    effects::lemma_ran_within(w, w2, w3, end, "zfs"@, args);
    effects::lemma_ran_within(w, w2, w3, w4, "zfs"@, args);
    let rows = listed->Ok_0;
    assert forall|i: int| 0 <= i < rows.len() implies purged(w4, end, #[trigger] rows[i], key) by {
        lemma_purged_within(w4, wl, w5, end, rows[i], key);
    }
    assert(purged_after(w, w4, end, key));
}

/// Every environment that a name may mean is found: a path means the one at it, and a bare name any one of that name.
pub proof fn law_every_one_meant_is_found(rows: Seq<Row>, name: Seq<char>)
    ensures
        forall|x: Seq<char>| #[trigger] meant(rows, name).contains(x) <==> exists|i: int| 0 <= i < rows.len() && x == (#[trigger] rows[i]).name && (#[trigger] rows[i]).is_be && (if name.contains('/') { x == name } else { text::after_last(x, '/') == name }),
    decreases rows.len(),
{
    if rows.len() > 0 {
        let front = rows.drop_last();
        law_every_one_meant_is_found(front, name);
        let before = meant(front, name);
        let all = meant(rows, name);
        assert forall|x: Seq<char>| #[trigger] all.contains(x) <==> exists|i: int| 0 <= i < rows.len() && x == (#[trigger] rows[i]).name && (#[trigger] rows[i]).is_be && (if name.contains('/') { x == name } else { text::after_last(x, '/') == name }) by {
            if all.contains(x) {
                let k = choose|k: int| 0 <= k < all.len() && all[k] == x;
                if k < before.len() {
                    assert(before[k] == x);
                    assert(before.contains(x));
                    let i = choose|i: int| 0 <= i < front.len() && x == (#[trigger] front[i]).name && (#[trigger] front[i]).is_be && (if name.contains('/') { x == name } else { text::after_last(x, '/') == name });
                    assert(rows[i] == front[i]);
                } else {
                    assert(x == rows[rows.len() - 1].name && rows[rows.len() - 1].is_be && (if name.contains('/') { x == name } else { text::after_last(x, '/') == name }));
                }
            }
            if exists|i: int| 0 <= i < rows.len() && x == (#[trigger] rows[i]).name && (#[trigger] rows[i]).is_be && (if name.contains('/') { x == name } else { text::after_last(x, '/') == name }) {
                let i = choose|i: int| 0 <= i < rows.len() && x == (#[trigger] rows[i]).name && (#[trigger] rows[i]).is_be && (if name.contains('/') { x == name } else { text::after_last(x, '/') == name });
                if i < front.len() {
                    assert(front[i] == rows[i]);
                    assert(before.contains(x));
                    let k = choose|k: int| 0 <= k < before.len() && before[k] == x;
                    assert(all[k] == x);
                } else {
                    assert(rows[i] == rows.last());
                    assert(all[all.len() - 1] == x);
                }
            }
        }
    }
}

/// Nothing is dropped that a pool boots or that is running, nor before its full
/// name was typed.
pub proof fn law_drop_is_checked(w: World, name: Seq<char>, ds: Seq<char>)
    requires
        clear_to_drop_does(w, name, ds).1 is Ok,
        !model::unset(ds),
    ensures
        ({
            let end = clear_to_drop_does(w, name, ds).0;
            let n = w.calls.len() as int;
            let pools = text::lines_of((w.replies)(n as nat).stdout);
            let mounts = text::lines_of((w.replies)((n + 1) as nat).stdout);
            &&& end.calls[n] == (Call::Run {
                prog: "zpool"@,
                args: seq!["list"@, "-Hp"@, "-o"@, "name,bootfs"@],
            }) && effects::succeeded(w, n)
            &&& forall|i: int|
                0 <= i < pools.len() && text::trimmed(#[trigger] pools[i]).len() > 0
                    ==> zfs_ops::tab_column(text::trimmed(pools[i]), 1, "-"@) != ds
            &&& end.calls[n + 1] == (Call::ReadFile { path: "/proc/self/mounts"@ })
            &&& (w.replies)((n + 1) as nat).failure is None ==> forall|i: int|
                0 <= i < mounts.len() ==> !(zfs_ops::word(#[trigger] mounts[i], 0) == ds
                    && zfs_ops::word(mounts[i], 1) == "/"@)
            &&& end.calls[n + 2] == Call::Ask
            &&& text::trimmed((w.replies)((n + 2) as nat).stdout) == ds
        }),
{
    reveal(clear_to_drop_does);
    reveal(is_active_does);
    reveal(is_live_root_does);
    let n = w.calls.len() as int;
    let lines = text::lines_of((w.replies)(n as nat).stdout);
    pools::law_full_lines(lines);
    let full = pools::full_lines(lines);
    assert forall|i: int|
        0 <= i < lines.len() && text::trimmed(#[trigger] lines[i]).len() > 0
            implies zfs_ops::tab_column(text::trimmed(lines[i]), 1, "-"@) != ds by {
        assert(full.contains(text::trimmed(lines[i])));
        let k = choose|k: int| 0 <= k < full.len() && full[k] == text::trimmed(lines[i]);
        assert(!model::unset(ds));
        if zfs_ops::tab_column(full[k], 1, "-"@) == ds {
            assert(boots_next(full, ds));
        }
    }
}

} // verus!
