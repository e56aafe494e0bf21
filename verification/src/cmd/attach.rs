//! `attach` and `detach`: bind a dataset to boot environments.
//!
//! `attach <dataset>` shows the binding; `attach <dataset> --to a,b` sets it,
//! and lets the dataset mount just where what boots next is in the list. The
//! mount point stays as it is.

use vstd::prelude::*;

use crate::effects;
use crate::error;
use crate::error::Error;
use crate::model;
use crate::model::{BoundKey, BoundList, Key};
use crate::sub;
use crate::sub::{Call, Runner, World};
use crate::text;

verus! {

/// Arguments of `attach`.
#[derive(Debug)]
pub struct AttachArgs {
    /// The dataset.
    pub dataset: String,
    /// The new list, `pool:be` entries with commas between them.
    pub to: Option<String>,
}

/// Arguments of `detach`.
#[derive(Debug)]
pub struct DetachArgs {
    /// The dataset.
    pub dataset: String,
}

// ---------------------------------------------------------------------------
// Show
// ---------------------------------------------------------------------------

/// A property as it is shown.
pub open spec fn shown(v: Seq<char>) -> Seq<char> {
    if model::unset(v) {
        "(unset)"@
    } else {
        v
    }
}

/// A property as it is shown.
pub fn or_dash<'a>(s: &'a str) -> (r: &'a str)
    ensures
        r@ == shown(s@),
{
    if model::is_unset(s) {
        "(unset)"
    } else {
        s
    }
}

/// Reads a property of a dataset.
#[verifier::opaque]
pub open spec fn read_prop_does(w: World, ds: Seq<char>, prop: Seq<char>) -> (World, Result<
    Seq<char>,
    Seq<char>,
>) {
    let (w1, got) = sub::capture_does(
        w,
        "zfs"@,
        seq!["get"@, "-Hp"@, "-o"@, "value"@, prop, ds],
    );
    (
        w1,
        match got {
            Err(m) => Err(m),
            Ok(t) => Ok(text::trimmed(t)),
        },
    )
}

fn read_prop<R: Runner>(r: &mut R, ds: &str, prop: &str) -> (res: Result<String, Error>)
    ensures
        sub::did(final(r).world(), res) == read_prop_does(old(r).world(), ds@, prop@),
{
    proof {
        reveal(read_prop_does);
    }
    let args = text::argv6("get", "-Hp", "-o", "value", prop, ds);
    match sub::zfs_capture(r, args.as_slice()) {
        Err(e) => Err(e),
        Ok(t) => Ok(text::trim(t.as_str()).to_owned()),
    }
}

/// Shows the binding of a dataset.
#[verifier::opaque]
pub open spec fn show_does(w: World, ds: Seq<char>) -> (World, Result<(), Seq<char>>) {
    let (w1, a) = read_prop_does(w, ds, "zboot:attached-to"@);
    match a {
        Err(m) => (w1, Err(m)),
        Ok(bound) => {
            let (w2, b) = read_prop_does(w1, ds, "canmount"@);
            match b {
                Err(m) => (w2, Err(m)),
                Ok(canmount) => {
                    let (w3, c) = read_prop_does(w2, ds, "mountpoint"@);
                    match c {
                        Err(m) => (w3, Err(m)),
                        Ok(mp) => (
                            w3.say(ds).say("  zboot:attached-to : "@ + shown(bound)).say(
                                "  canmount       : "@ + shown(canmount),
                            ).say("  mountpoint     : "@ + shown(mp)),
                            Ok(()),
                        ),
                    }
                },
            }
        },
    }
}

fn run_show<R: Runner>(r: &mut R, ds: &str) -> (res: Result<(), Error>)
    ensures
        sub::did(final(r).world(), res) == show_does(old(r).world(), ds@),
{
    proof {
        reveal(show_does);
    }
    let bound: String = match read_prop(r, ds, "zboot:attached-to") {
        Err(e) => return Err(e),
        Ok(v) => v,
    };
    let canmount: String = match read_prop(r, ds, "canmount") {
        Err(e) => return Err(e),
        Ok(v) => v,
    };
    let mp: String = match read_prop(r, ds, "mountpoint") {
        Err(e) => return Err(e),
        Ok(v) => v,
    };
    r.say(ds);
    let a: String = text::cat2("  zboot:attached-to : ", or_dash(bound.as_str()));
    r.say(a.as_str());
    let b: String = text::cat2("  canmount       : ", or_dash(canmount.as_str()));
    r.say(b.as_str());
    let c: String = text::cat2("  mountpoint     : ", or_dash(mp.as_str()));
    r.say(c.as_str());
    Ok(())
}

// ---------------------------------------------------------------------------
// Set
// ---------------------------------------------------------------------------

/// The datasets of the boot environments of a list.
pub open spec fn datasets_of(ks: Seq<Key>) -> Seq<Seq<char>> {
    Seq::new(ks.len(), |i: int| model::be_dataset(ks[i].pool, ks[i].be))
}

fn list_datasets(l: &BoundList) -> (r: Vec<String>)
    ensures
        r.deep_view() == datasets_of(l.deep_view()),
{
    let ghost goal = datasets_of(l.deep_view());
    let mut out: Vec<String> = Vec::new();
    let mut i: usize = 0;
    assert(out.deep_view() =~= goal.take(0));
    while i < l.0.len()
        invariant
            i <= l.0@.len(),
            goal == datasets_of(l.deep_view()),
            goal.len() == l.0@.len(),
            out.deep_view() == goal.take(i as int),
        decreases l.0@.len() - i,
    {
        assert(l.deep_view()[i as int] == l.0@[i as int].deep_view());
        let ds: String = model::be_path(l.0[i].pool.as_str(), l.0[i].be.as_str());
        text::push_text(&mut out, ds.as_str());
        assert(goal.take(i + 1) =~= goal.take(i as int).push(goal[i as int]));
        i = i + 1;
    }
    assert(goal.take(i as int) =~= goal);
    out
}

/// The row says that `ds` is a boot environment.
pub open spec fn marks(line: Seq<char>, ds: Seq<char>) -> bool {
    let cols = text::pieces(line, '\t');
    cols.len() >= 2 && cols[0] == ds && text::trimmed(cols[1]) == "true"@
}

/// The table says that `ds` is a boot environment.
pub open spec fn marked(ls: Seq<Seq<char>>, ds: Seq<char>) -> bool {
    exists|i: int| 0 <= i < ls.len() && marks(#[trigger] ls[i], ds)
}

fn is_marked(table: &str, ds: &str) -> (r: bool)
    ensures
        r == marked(text::lines_of(table@), ds@),
{
    let ls = text::lines(table);
    let ghost all = ls.deep_view();
    let mut i: usize = 0;
    while i < ls.len()
        invariant
            i <= ls@.len(),
            all == ls.deep_view(),
            all == text::lines_of(table@),
            forall|j: int| 0 <= j < i ==> !marks(#[trigger] all[j], ds@),
        decreases ls@.len() - i,
    {
        assert(all[i as int] == ls@[i as int]@);
        let cols = text::split(ls[i], '\t');
        let ghost cs = cols.deep_view();
        if cols.len() >= 2 {
            assert(cs[0] == cols@[0]@ && cs[1] == cols@[1]@);
            if text::eq(cols[0], ds) && text::eq(text::trim(cols[1]), "true") {
                assert(marks(all[i as int], ds@));
                return true;
            }
        }
        i = i + 1;
    }
    false
}

/// Those of the list that the table does not mark.
pub open spec fn unknown(ks: Seq<Key>, ls: Seq<Seq<char>>) -> Seq<Seq<char>>
    decreases ks.len(),
{
    if ks.len() == 0 {
        seq![]
    } else {
        let front = unknown(ks.drop_last(), ls);
        let k = ks.last();
        if marked(ls, model::be_dataset(k.pool, k.be)) {
            front
        } else {
            front.push(model::key_text(k))
        }
    }
}

fn find_unknown(l: &BoundList, table: &str) -> (r: Vec<String>)
    ensures
        r.deep_view() == unknown(l.deep_view(), text::lines_of(table@)),
{
    let ghost all = l.deep_view();
    let ghost ls = text::lines_of(table@);
    let mut out: Vec<String> = Vec::new();
    let mut i: usize = 0;
    assert(out.deep_view() =~= unknown(all.take(0), ls));
    while i < l.0.len()
        invariant
            i <= l.0@.len(),
            all == l.deep_view(),
            all.len() == l.0@.len(),
            ls == text::lines_of(table@),
            out.deep_view() == unknown(all.take(i as int), ls),
        decreases l.0@.len() - i,
    {
        proof {
            assert(all.take(i + 1).drop_last() =~= all.take(i as int));
            assert(all.take(i + 1).last() == l.0@[i as int].deep_view());
        }
        let ds: String = model::be_path(l.0[i].pool.as_str(), l.0[i].be.as_str());
        if !is_marked(table, ds.as_str()) {
            let k: String = l.0[i].render();
            text::push_text(&mut out, k.as_str());
        }
        i = i + 1;
    }
    assert(all.take(i as int) =~= all);
    out
}

/// The complaint about boot environments that are not there.
pub open spec fn unknown_text(names: Seq<Seq<char>>, stderr: Seq<char>) -> Seq<char> {
    "attach: unknown BE(s) in --to list: "@ + text::joined(names, ", "@) + " "@ + (if text::holds(
        stderr,
        "does not exist"@,
    ) {
        "(some datasets don't exist; check the pool prefix)"@
    } else {
        "(datasets exist but lack `zboot:be=true` — they aren't BEs)"@
    }) + ". Run `zboot status` to see the BE catalog."@
}

/// Every entry of the list is a boot environment that is there, by what `zfs`
/// printed.
pub open spec fn all_known(ks: Seq<Key>, stdout: Seq<char>, stderr: Seq<char>) -> Result<
    (),
    Seq<char>,
> {
    let missing = unknown(ks, text::lines_of(stdout));
    if missing.len() == 0 {
        Ok(())
    } else {
        Err(unknown_text(missing, stderr))
    }
}

/// Whether every entry of the list is a boot environment, by what `zfs`
/// printed.
pub fn check_known(l: &BoundList, stdout: &str, stderr: &str) -> (res: Result<(), Error>)
    ensures
        error::outcome(res) == all_known(l.deep_view(), stdout@, stderr@),
{
    let missing = find_unknown(l, stdout);
    if missing.len() == 0 {
        return Ok(());
    }
    let names: String = text::join(&missing, ", ");
    let hint: &str = if text::contains(stderr, "does not exist") {
        "(some datasets don't exist; check the pool prefix)"
    } else {
        "(datasets exist but lack `zboot:be=true` — they aren't BEs)"
    };
    Err(
        Error::from_text(
            text::cat5(
                "attach: unknown BE(s) in --to list: ",
                names.as_str(),
                " ",
                hint,
                ". Run `zboot status` to see the BE catalog.",
            ),
        ),
    )
}

/// Asks which entries of the list are boot environments.
#[verifier::opaque]
pub open spec fn ensure_bes_exist_does(w: World, ks: Seq<Key>) -> (World, Result<(), Seq<char>>) {
    let w1 = w.run(
        "zfs"@,
        seq!["get"@, "-Hp"@, "-o"@, "name,value"@, "zboot:be"@] + datasets_of(ks),
    );
    match w.ran() {
        Err(m) => (w1, Err(error::within("spawn zfs get for attach validation"@, m))),
        Ok(out) => (w1, all_known(ks, out.stdout, out.stderr)),
    }
}

fn ensure_bes_exist<R: Runner>(r: &mut R, l: &BoundList) -> (res: Result<(), Error>)
    ensures
        sub::did(final(r).world(), res) == ensure_bes_exist_does(old(r).world(), l.deep_view()),
{
    proof {
        reveal(ensure_bes_exist_does);
    }
    let dss = list_datasets(l);
    let head = text::argv5("get", "-Hp", "-o", "name,value", "zboot:be");
    let args = text::extend_strs(head, &dss);
    match r.run("zfs", args.as_slice()) {
        Err(e) => Err(e.context("spawn zfs get for attach validation")),
        Ok(out) => check_known(l, out.stdout.as_str(), out.stderr.as_str()),
    }
}

/// The pool of a dataset.
pub fn pool_of<'a>(dataset: &'a str) -> (r: &'a str)
    ensures
        r@ == text::before(dataset@, '/'),
{
    text::head(dataset, '/')
}

/// What a pool boots next, as an entry of a list.
#[verifier::opaque]
pub open spec fn active_be_does(w: World, pool: Seq<char>) -> (World, Result<Key, Seq<char>>) {
    let (w1, got) = sub::capture_does(
        w,
        "zpool"@,
        seq!["get"@, "-Hp"@, "-o"@, "value"@, "bootfs"@, pool],
    );
    match got {
        Err(m) => (w1, Err(m)),
        Ok(t) => {
            let bootfs = text::trimmed(t);
            if model::unset(bootfs) {
                (w1, Err("pool "@ + pool + " has no bootfs set"@))
            } else {
                (w1, Ok(Key { pool, be: text::after_last(bootfs, '/') }))
            }
        },
    }
}

fn active_be<R: Runner>(r: &mut R, pool: &str) -> (res: Result<BoundKey, Error>)
    ensures
        sub::did(final(r).world(), res) == active_be_does(old(r).world(), pool@),
{
    proof {
        reveal(active_be_does);
    }
    let args = text::argv6("get", "-Hp", "-o", "value", "bootfs", pool);
    let got: String = match sub::zpool_capture(r, args.as_slice()) {
        Err(e) => return Err(e),
        Ok(t) => t,
    };
    let bootfs: &str = text::trim(got.as_str());
    if model::is_unset(bootfs) {
        return Err(Error::from_text(text::cat3("pool ", pool, " has no bootfs set")));
    }
    Ok(BoundKey::new(pool, text::tail(bootfs, '/')))
}

/// Writes the list and `canmount`.
#[verifier::opaque]
pub open spec fn write_does(w: World, ds: Seq<char>, ks: Seq<Key>, active: Key) -> (World, Result<
    (),
    Seq<char>,
>) {
    let canmount = if ks.contains(active) {
        "on"@
    } else {
        "off"@
    };
    let w1 = w.say("attach: "@ + ds).say("  zboot:attached-to := "@ + model::list_text(ks)).say(
        "  canmount       := "@ + canmount + " (active="@ + model::key_text(active) + ")"@,
    );
    let (w2, a) = sub::run_does(
        w1,
        "zfs"@,
        seq!["set"@, "zboot:attached-to="@ + model::list_text(ks), ds],
    );
    match a {
        Err(m) => (w2, Err(m)),
        Ok(()) => sub::run_does(w2, "zfs"@, seq!["set"@, "canmount="@ + canmount, ds]),
    }
}

fn write<R: Runner>(r: &mut R, ds: &str, l: &BoundList, active: &BoundKey) -> (res: Result<
    (),
    Error,
>)
    ensures
        sub::did(final(r).world(), res) == write_does(
            old(r).world(),
            ds@,
            l.deep_view(),
            active.deep_view(),
        ),
{
    proof {
        reveal(write_does);
    }
    let canmount: &str = if l.contains(active) {
        "on"
    } else {
        "off"
    };
    let shown: String = l.render();
    let a: String = text::cat2("attach: ", ds);
    r.say(a.as_str());
    let b: String = text::cat2("  zboot:attached-to := ", shown.as_str());
    r.say(b.as_str());
    let key: String = active.render();
    let c: String = text::cat5("  canmount       := ", canmount, " (active=", key.as_str(), ")");
    r.say(c.as_str());
    let set: String = text::cat2("zboot:attached-to=", shown.as_str());
    let args = text::argv3("set", set.as_str(), ds);
    match sub::zfs(r, args.as_slice()) {
        Err(e) => return Err(e),
        Ok(()) => {},
    }
    let set: String = text::cat2("canmount=", canmount);
    let args = text::argv3("set", set.as_str(), ds);
    sub::zfs(r, args.as_slice())
}

/// Sets the binding of a dataset.
#[verifier::opaque]
pub open spec fn set_does(w: World, ds: Seq<char>, list: Seq<char>) -> (World, Result<
    (),
    Seq<char>,
>) {
    match model::list_of(list) {
        Err(m) => (w, Err(error::within("parsing --to "@ + text::quoted_text(list), m))),
        Ok(ks) => {
            let (w1, known) = ensure_bes_exist_does(w, ks);
            match known {
                Err(m) => (w1, Err(m)),
                Ok(()) => {
                    let (w2, active) = active_be_does(w1, text::before(ds, '/'));
                    match active {
                        Err(m) => (w2, Err(m)),
                        Ok(k) => write_does(w2, ds, ks, k),
                    }
                },
            }
        },
    }
}

fn run_set<R: Runner>(r: &mut R, ds: &str, list: &str) -> (res: Result<(), Error>)
    ensures
        sub::did(final(r).world(), res) == set_does(old(r).world(), ds@, list@),
{
    proof {
        reveal(set_does);
    }
    let l = match BoundList::parse(list) {
        Err(e) => {
            let q: String = text::quoted(list);
            let what: String = text::cat2("parsing --to ", q.as_str());
            return Err(e.context(what.as_str()));
        },
        Ok(l) => l,
    };
    match ensure_bes_exist(r, &l) {
        Err(e) => return Err(e),
        Ok(()) => {},
    }
    let active = match active_be(r, pool_of(ds)) {
        Err(e) => return Err(e),
        Ok(k) => k,
    };
    write(r, ds, &l, &active)
}

// ---------------------------------------------------------------------------
// The verbs
// ---------------------------------------------------------------------------

/// What `attach` does.
pub open spec fn run_does(w: World, ds: Seq<char>, to: Option<Seq<char>>) -> (World, Result<
    (),
    Seq<char>,
>) {
    match to {
        Some(list) => set_does(w, ds, list),
        None => show_does(w, ds),
    }
}

/// `attach`: binds a dataset to boot environments, or shows its binding.
pub fn run<R: Runner>(r: &mut R, args: &AttachArgs) -> (res: Result<(), Error>)
    ensures
        sub::did(final(r).world(), res) == run_does(
            old(r).world(),
            args.dataset@,
            args.to.deep_view(),
        ),
{
    match &args.to {
        Some(list) => run_set(r, args.dataset.as_str(), list.as_str()),
        None => run_show(r, args.dataset.as_str()),
    }
}

/// What `detach` does.
pub open spec fn detach_does(w: World, ds: Seq<char>) -> (World, Result<(), Seq<char>>) {
    sub::run_does(
        w.say("attach: clearing zboot:attached-to on "@ + ds),
        "zfs"@,
        seq!["inherit"@, "zboot:attached-to"@, ds],
    )
}

/// `detach`: unbinds a dataset.
pub fn detach<R: Runner>(r: &mut R, args: &DetachArgs) -> (res: Result<(), Error>)
    ensures
        sub::did(final(r).world(), res) == detach_does(old(r).world(), args.dataset@),
{
    let ds: &str = args.dataset.as_str();
    let line: String = text::cat2("attach: clearing zboot:attached-to on ", ds);
    r.say(line.as_str());
    let args = text::argv3("inherit", "zboot:attached-to", ds);
    sub::zfs(r, args.as_slice())
}

// ---------------------------------------------------------------------------
// Laws
// ---------------------------------------------------------------------------

/// A list with an entry that is no boot environment is refused, and nothing
/// changes.
pub proof fn law_unknown_is_refused(w: World, ds: Seq<char>, list: Seq<char>, ks: Seq<Key>)
    requires
        model::list_of(list) == Ok::<Seq<Key>, Seq<char>>(ks),
        ensure_bes_exist_does(w, ks).1 is Err,
    ensures
        set_does(w, ds, list).1 is Err,
        sub::only_looked(w, set_does(w, ds, list).0),
{
    reveal(set_does);
    reveal(ensure_bes_exist_does);
}

/// An entry passes just where the table marks its dataset.
pub proof fn law_known_is_marked(ks: Seq<Key>, ls: Seq<Seq<char>>)
    ensures
        unknown(ks, ls).len() == 0 <==> (forall|i: int|
            0 <= i < ks.len() ==> marked(
                ls,
                model::be_dataset((#[trigger] ks[i]).pool, ks[i].be),
            )),
    decreases ks.len(),
{
    if ks.len() > 0 {
        let front = ks.drop_last();
        law_known_is_marked(front, ls);
        if unknown(front, ls).len() == 0 {
            assert forall|i: int| 0 <= i < ks.len() && i < front.len() implies marked(
                ls,
                model::be_dataset((#[trigger] ks[i]).pool, ks[i].be),
            ) by {
                assert(front[i] == ks[i]);
            }
        } else {
            let i = choose|i: int|
                0 <= i < front.len() && !marked(
                    ls,
                    model::be_dataset((#[trigger] front[i]).pool, front[i].be),
                );
            assert(ks[i] == front[i]);
        }
        assert(ks[ks.len() - 1] == ks.last());
    }
}

/// Attaching sets the list, and `canmount` to `on` exactly where the list holds
/// what the pool boots next; it sets nothing else.
pub proof fn law_canmount_follows_the_list(w: World, ds: Seq<char>, ks: Seq<Key>, active: Key)
    ensures
        ({
            let (end, res) = write_does(w, ds, ks, active);
            let list = Call::Run {
                prog: "zfs"@,
                args: seq!["set"@, "zboot:attached-to="@ + model::list_text(ks), ds],
            };
            let canmount = Call::Run {
                prog: "zfs"@,
                args: seq![
                    "set"@,
                    "canmount="@ + (if ks.contains(active) {
                        "on"@
                    } else {
                        "off"@
                    }),
                    ds,
                ],
            };
            &&& sub::did_only(w, end, |c: Call| c == list || c == canmount)
            &&& res is Ok ==> sub::called(w, end, list) && sub::called(w, end, canmount)
        }),
{
    reveal(write_does);
    let (end, res) = write_does(w, ds, ks, active);
    let n = end.calls.len();
    if res is Ok {
        assert(end.calls[n - 1] is Run);
        assert(end.calls[n - 3] is Run);
    }
}

/// An attached dataset gets exactly the list that was asked for, of environments
/// that all exist; it mounts where the pool's active one is on that list, and
/// else it does not.
pub proof fn law_attached_is_written(w: World, ds: Seq<char>, list: Seq<char>)
    requires
        set_does(w, ds, list).1 is Ok,
    ensures
        ({
            let end = set_does(w, ds, list).0;
            let n = w.calls.len() as int;
            let ks = model::list_of(list)->Ok_0;
            let pool = text::before(ds, '/');
            let bootfs = text::trimmed((w.replies)((n + 1) as nat).stdout);
            let active = Key { pool, be: text::after_last(bootfs, '/') };
            &&& model::list_of(list) is Ok
            &&& n + 1 < end.calls.len()
            &&& end.calls[n] == (Call::Run {
                prog: "zfs"@,
                args: seq!["get"@, "-Hp"@, "-o"@, "name,value"@, "zboot:be"@] + datasets_of(ks),
            })
            &&& forall|i: int|
                0 <= i < ks.len() ==> marked(
                    text::lines_of((w.replies)(n as nat).stdout),
                    model::be_dataset((#[trigger] ks[i]).pool, ks[i].be),
                )
            &&& end.calls[n + 1] == (Call::Run {
                prog: "zpool"@,
                args: seq!["get"@, "-Hp"@, "-o"@, "value"@, "bootfs"@, pool],
            })
            &&& effects::succeeded(w, n + 1) && !model::unset(bootfs)
            &&& effects::ran(
                w,
                end,
                "zfs"@,
                seq!["set"@, "zboot:attached-to="@ + model::list_text(ks), ds],
            )
            &&& effects::ran(
                w,
                end,
                "zfs"@,
                seq![
                    "set"@,
                    "canmount="@ + (if ks.contains(active) {
                        "on"@
                    } else {
                        "off"@
                    }),
                    ds,
                ],
            )
        }),
{
    reveal(set_does);
    reveal(ensure_bes_exist_does);
    reveal(active_be_does);
    reveal(write_does);
    let end = set_does(w, ds, list).0;
    let n = w.calls.len() as int;
    let ks = model::list_of(list)->Ok_0;
    let pool = text::before(ds, '/');
    law_known_is_marked(ks, text::lines_of((w.replies)(n as nat).stdout));
    let w1 = ensure_bes_exist_does(w, ks).0;
    let w2 = active_be_does(w1, pool).0;
    let active = active_be_does(w1, pool).1->Ok_0;
    let m = end.calls.len() as int;
    let set = seq!["set"@, "zboot:attached-to="@ + model::list_text(ks), ds];
    let mount = seq![
        "set"@,
        "canmount="@ + (if ks.contains(active) {
            "on"@
        } else {
            "off"@
        }),
        ds,
    ];
    assert(end.calls[m - 3] == Call::Run { prog: "zfs"@, args: set });
    assert(end.calls[m - 1] == Call::Run { prog: "zfs"@, args: mount });
}

/// A detached dataset has lost its own list.
pub proof fn law_detached_is_cleared(w: World, ds: Seq<char>)
    requires
        detach_does(w, ds).1 is Ok,
    ensures
        effects::ran(
            w,
            detach_does(w, ds).0,
            "zfs"@,
            seq!["inherit"@, "zboot:attached-to"@, ds],
        ),
{
    let args = seq!["inherit"@, "zboot:attached-to"@, ds];
    let w1 = w.say("attach: clearing zboot:attached-to on "@ + ds);
    effects::lemma_run_ran(w1, "zfs"@, args);
    let end = detach_does(w, ds).0;
    assert(sub::continues(end, end));
    effects::lemma_ran_within(w, w1, end, end, "zfs"@, args);
}

} // verus!
