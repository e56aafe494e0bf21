//! `primary`: make a boot environment the primary side of its pair.
//!
//! The markers and `readonly` change sides, and what boots next follows where
//! the demoted side was what its pool boots. No data moves. Where the peer does
//! not point back, it is left alone.

use vstd::prelude::*;

use crate::be_arg;
use crate::cmd::rename;
use crate::effects;
use crate::error;
use crate::error::Error;
use crate::model;
use crate::model::{Key, PairPointer};
use crate::sub;
use crate::sub::{Call, Runner, World};
use crate::text;
use crate::zfs_ops;

verus! {

/// Arguments of `primary`.
#[derive(Debug)]
pub struct PrimaryArgs {
    /// The boot environment: a bare name on the running pool, or a full
    /// dataset path.
    pub be: String,
}

/// The two sides, and whether they point at each other.
pub struct Sides {
    pub be: Seq<char>,
    pub peer: Key,
    pub mutual: bool,
}

/// The two sides, and whether they point at each other.
pub struct PairSides {
    pub be: String,
    pub peer: PairPointer,
    pub mutual: bool,
}

impl DeepView for PairSides {
    type V = Sides;

    open spec fn deep_view(&self) -> Sides {
        Sides { be: self.be@, peer: self.peer.deep_view(), mutual: self.mutual }
    }
}

/// The complaint about a boot environment without a peer.
pub open spec fn no_peer_text(be: Seq<char>) -> Seq<char> {
    be + " has no zboot:mirror peer; primary operates on mutual pairs only. Run `pair "@ + be
        + " <peer>` first, or use `default "@ + be + "` if you just want to change bootfs."@
}

/// Where the peer points, if it is there.
pub open spec fn peer_back_does(w: World, peer: Key) -> (World, Result<Option<Key>, Seq<char>>) {
    let peer_ds = model::pair_text(peer);
    let (w1, there) = zfs_ops::dataset_exists_does(w, peer_ds);
    if zfs_ops::exists_or_not(there) {
        zfs_ops::read_pair_pointer_does(w1, peer_ds)
    } else {
        (w1, Ok(None))
    }
}

fn read_peer_back<R: Runner>(r: &mut R, peer: &PairPointer) -> (res: Result<
    Option<PairPointer>,
    Error,
>)
    ensures
        sub::did(final(r).world(), res) == peer_back_does(old(r).world(), peer.deep_view()),
{
    let peer_ds: String = peer.render();
    if zfs_ops::is_there(r, peer_ds.as_str()) {
        zfs_ops::read_pair_pointer(r, peer_ds.as_str())
    } else {
        Ok(None)
    }
}

/// Finds the two sides.
#[verifier::opaque]
pub open spec fn sides_does(w: World, arg: Seq<char>) -> (World, Result<Sides, Seq<char>>) {
    let (w1, ds) = be_arg::resolve_be_dataset_does(w, arg);
    match ds {
        Err(m) => (w1, Err(m)),
        Ok(be) => {
            let (w2, there) = zfs_ops::dataset_exists_does(w1, be);
            match there {
                Err(m) => (w2, Err(m)),
                Ok(b) => if !b {
                    (w2, Err("BE "@ + be + " does not exist"@))
                } else {
                    let (w3, peer) = zfs_ops::read_pair_pointer_does(w2, be);
                    match peer {
                        Err(m) => (w3, Err(m)),
                        Ok(None) => (w3, Err(no_peer_text(be))),
                        Ok(Some(k)) => {
                            let (w4, back) = peer_back_does(w3, k);
                            match back {
                                Err(m) => (w4, Err(m)),
                                Ok(o) => match rename::pointer_of(be) {
                                    Err(m) => (w4, Err(m)),
                                    Ok(own) => (
                                        w4,
                                        Ok(Sides { be, peer: k, mutual: o == Some(own) }),
                                    ),
                                },
                            }
                        },
                    }
                },
            }
        },
    }
}

fn find_sides<R: Runner>(r: &mut R, arg: &str) -> (res: Result<PairSides, Error>)
    ensures
        sub::did(final(r).world(), res) == sides_does(old(r).world(), arg@),
{
    proof {
        reveal(sides_does);
    }
    let be: String = match be_arg::resolve_be_dataset(r, arg) {
        Err(e) => return Err(e),
        Ok(d) => d,
    };
    match zfs_ops::dataset_exists(r, be.as_str()) {
        Err(e) => return Err(e),
        Ok(b) => if !b {
            return Err(Error::from_text(text::cat3("BE ", be.as_str(), " does not exist")));
        },
    }
    let peer: PairPointer = match zfs_ops::read_pair_pointer(r, be.as_str()) {
        Err(e) => return Err(e),
        Ok(None) => {
            return Err(
                Error::from_text(
                    text::cat6(
                        be.as_str(),
                        " has no zboot:mirror peer; primary operates on mutual pairs only. Run `pair ",
                        be.as_str(),
                        " <peer>` first, or use `default ",
                        be.as_str(),
                        "` if you just want to change bootfs.",
                    ),
                ),
            );
        },
        Ok(Some(k)) => k,
    };
    let back = match read_peer_back(r, &peer) {
        Err(e) => return Err(e),
        Ok(o) => o,
    };
    let own = match rename::parse_pointer(be.as_str()) {
        Err(e) => return Err(e),
        Ok(k) => k,
    };
    let mutual: bool = match &back {
        Some(k) => k.same(&own),
        None => false,
    };
    Ok(PairSides { be, peer, mutual })
}

/// Keeps the state of a peer that is mounted.
#[verifier::opaque]
pub open spec fn keep_peer_does(w: World, x: Sides) -> (World, Result<(), Seq<char>>) {
    let peer_ds = model::pair_text(x.peer);
    if !x.mutual {
        (w, Ok(()))
    } else {
        let (w1, mounted) = zfs_ops::is_mounted_does(w, peer_ds);
        if !mounted {
            (w1, Ok(()))
        } else {
            let name = "pre-primary-"@ + text::decimal(w1.reply().nanos as nat);
            let (w2, taken) = zfs_ops::take_snapshot_does(w1.after(Call::Clock), peer_ds, name);
            match taken {
                Err(m) => (
                    w2,
                    Err(
                        error::within(
                            "snapshot peer before primary flip (live-root case)"@,
                            m,
                        ),
                    ),
                ),
                Ok(_) => (
                    w2.say(
                        "    pre-primary snapshot: "@ + peer_ds + "@"@ + name
                            + " (peer is mounted at /)"@,
                    ),
                    Ok(()),
                ),
            }
        }
    }
}

fn keep_peer<R: Runner>(r: &mut R, x: &PairSides) -> (res: Result<(), Error>)
    ensures
        sub::did(final(r).world(), res) == keep_peer_does(old(r).world(), x.deep_view()),
{
    proof {
        reveal(keep_peer_does);
    }
    let peer_ds: String = x.peer.render();
    if !x.mutual {
        return Ok(());
    }
    if !zfs_ops::is_mounted(r, peer_ds.as_str()) {
        return Ok(());
    }
    let n: u128 = r.clock();
    let digits: String = text::dec(n);
    let name: String = text::cat2("pre-primary-", digits.as_str());
    match zfs_ops::take_snapshot(r, peer_ds.as_str(), name.as_str()) {
        Err(e) => return Err(e.context("snapshot peer before primary flip (live-root case)")),
        Ok(_) => {},
    }
    let line: String = text::cat5(
        "    pre-primary snapshot: ",
        peer_ds.as_str(),
        "@",
        name.as_str(),
        " (peer is mounted at /)",
    );
    r.say(line.as_str());
    Ok(())
}

/// Moves the primary marker.
#[verifier::opaque]
pub open spec fn mark_does(w: World, x: Sides) -> (World, Result<(), Seq<char>>) {
    let (w1, a) = zfs_ops::set_property_does(w, x.be, "zboot:primary"@, "on"@);
    match a {
        Err(m) => (w1, Err(m)),
        Ok(()) => if x.mutual {
            zfs_ops::set_property_does(w1, model::pair_text(x.peer), "zboot:primary"@, "off"@)
        } else {
            (w1, Ok(()))
        },
    }
}

fn mark<R: Runner>(r: &mut R, x: &PairSides) -> (res: Result<(), Error>)
    ensures
        sub::did(final(r).world(), res) == mark_does(old(r).world(), x.deep_view()),
{
    proof {
        reveal(mark_does);
    }
    match zfs_ops::set_property_tolerant(r, x.be.as_str(), "zboot:primary", "on") {
        Err(e) => return Err(e),
        Ok(()) => {},
    }
    if x.mutual {
        let peer_ds: String = x.peer.render();
        return zfs_ops::set_property_tolerant(r, peer_ds.as_str(), "zboot:primary", "off");
    }
    Ok(())
}

/// Makes the new primary writable, and the peer read-only unless it is
/// mounted.
#[verifier::opaque]
pub open spec fn turn_does(w: World, x: Sides) -> (World, Result<(), Seq<char>>) {
    let peer_ds = model::pair_text(x.peer);
    let (w1, a) = zfs_ops::set_property_does(w, x.be, "readonly"@, "off"@);
    match a {
        Err(m) => (w1, Err(error::within("clearing readonly on new primary"@, m))),
        Ok(()) => if !x.mutual {
            (w1, Ok(()))
        } else {
            let (w2, mounted) = zfs_ops::is_mounted_does(w1, peer_ds);
            if mounted {
                (
                    w2.say(
                        "    skipped readonly=on on "@ + peer_ds
                            + " (mounted at /; next reboot + `push "@ + text::after_last(
                            x.be,
                            '/',
                        ) + "` settles)"@,
                    ),
                    Ok(()),
                )
            } else {
                let (w3, b) = zfs_ops::set_property_does(w2, peer_ds, "readonly"@, "on"@);
                (w3, error::in_context(b, "setting readonly=on on demoted peer"@))
            }
        },
    }
}

fn turn<R: Runner>(r: &mut R, x: &PairSides) -> (res: Result<(), Error>)
    ensures
        sub::did(final(r).world(), res) == turn_does(old(r).world(), x.deep_view()),
{
    proof {
        reveal(turn_does);
    }
    let peer_ds: String = x.peer.render();
    match zfs_ops::set_readonly_tolerant(r, x.be.as_str(), "off") {
        Err(e) => return Err(e.context("clearing readonly on new primary")),
        Ok(()) => {},
    }
    if !x.mutual {
        return Ok(());
    }
    if zfs_ops::is_mounted(r, peer_ds.as_str()) {
        let line: String = text::cat5(
            "    skipped readonly=on on ",
            peer_ds.as_str(),
            " (mounted at /; next reboot + `push ",
            text::tail(x.be.as_str(), '/'),
            "` settles)",
        );
        r.say(line.as_str());
        return Ok(());
    }
    let res = zfs_ops::set_readonly_tolerant(r, peer_ds.as_str(), "on");
    error::with_context(res, "setting readonly=on on demoted peer")
}

/// `ds` is what the pool boots next, as far as that can be read.
pub open spec fn boots(v: Result<Option<Seq<char>>, Seq<char>>, ds: Seq<char>) -> bool {
    v == Ok::<Option<Seq<char>>, Seq<char>>(Some(ds))
}

fn is_bootfs<R: Runner>(r: &mut R, pool: &str, ds: &str) -> (res: bool)
    ensures
        final(r).world() == zfs_ops::pool_bootfs_does(old(r).world(), pool@).0,
        res == boots(zfs_ops::pool_bootfs_does(old(r).world(), pool@).1, ds@),
{
    match zfs_ops::pool_bootfs(r, pool) {
        Ok(b) => text::opt_is(&b, ds),
        Err(_) => false,
    }
}

/// The peer's pool no longer boots the peer.
#[verifier::opaque]
pub open spec fn leave_bootfs_does(w: World, x: Sides) -> (World, Result<(), Seq<char>>) {
    let (w1, res) = sub::run_does(w, "zpool"@, seq!["set"@, "bootfs="@, x.peer.pool]);
    match res {
        Err(m) => (w1, Err(error::within("clearing bootfs on "@ + x.peer.pool, m))),
        Ok(()) => (w1.say("    bootfs["@ + x.peer.pool + "] cleared"@), Ok(())),
    }
}

fn leave_bootfs<R: Runner>(r: &mut R, x: &PairSides) -> (res: Result<(), Error>)
    ensures
        sub::did(final(r).world(), res) == leave_bootfs_does(old(r).world(), x.deep_view()),
{
    proof {
        reveal(leave_bootfs_does);
    }
    let pool: &str = x.peer.pool.as_str();
    let args = text::argv3("set", "bootfs=", pool);
    match sub::cmd(r, "zpool", args.as_slice()) {
        Err(e) => {
            let what: String = text::cat2("clearing bootfs on ", pool);
            return Err(e.context(what.as_str()));
        },
        Ok(()) => {},
    }
    let line: String = text::cat3("    bootfs[", pool, "] cleared");
    r.say(line.as_str());
    Ok(())
}

/// The pool of the new primary boots it next.
#[verifier::opaque]
pub open spec fn take_bootfs_does(w: World, x: Sides) -> (World, Result<(), Seq<char>>) {
    let pool = text::before(x.be, '/');
    let (w1, v) = zfs_ops::pool_bootfs_does(w, pool);
    if boots(v, x.be) {
        (w1, Ok(()))
    } else {
        let (w2, res) = sub::run_does(w1, "zpool"@, seq!["set"@, "bootfs="@ + x.be, pool]);
        match res {
            Err(m) => (w2, Err(error::within("setting bootfs on "@ + pool, m))),
            Ok(()) => (w2.say("    bootfs["@ + pool + "] = "@ + x.be), Ok(())),
        }
    }
}

fn take_bootfs<R: Runner>(r: &mut R, x: &PairSides) -> (res: Result<(), Error>)
    ensures
        sub::did(final(r).world(), res) == take_bootfs_does(old(r).world(), x.deep_view()),
{
    proof {
        reveal(take_bootfs_does);
    }
    let pool: &str = text::head(x.be.as_str(), '/');
    if is_bootfs(r, pool, x.be.as_str()) {
        return Ok(());
    }
    let set: String = text::cat2("bootfs=", x.be.as_str());
    let args = text::argv3("set", set.as_str(), pool);
    match sub::cmd(r, "zpool", args.as_slice()) {
        Err(e) => {
            let what: String = text::cat2("setting bootfs on ", pool);
            return Err(e.context(what.as_str()));
        },
        Ok(()) => {},
    }
    let line: String = text::cat4("    bootfs[", pool, "] = ", x.be.as_str());
    r.say(line.as_str());
    Ok(())
}

/// What boots next follows, where the demoted side was what its pool boots.
#[verifier::opaque]
pub open spec fn follow_bootfs_does(w: World, x: Sides) -> (World, Result<(), Seq<char>>) {
    if !x.mutual {
        (w, Ok(()))
    } else {
        let (w1, v) = zfs_ops::pool_bootfs_does(w, x.peer.pool);
        if !boots(v, model::pair_text(x.peer)) {
            (w1, Ok(()))
        } else {
            let (w2, left) = leave_bootfs_does(w1, x);
            if left is Err {
                (w2, left)
            } else {
                take_bootfs_does(w2, x)
            }
        }
    }
}

fn follow_bootfs<R: Runner>(r: &mut R, x: &PairSides) -> (res: Result<(), Error>)
    ensures
        sub::did(final(r).world(), res) == follow_bootfs_does(old(r).world(), x.deep_view()),
{
    proof {
        reveal(follow_bootfs_does);
    }
    if !x.mutual {
        return Ok(());
    }
    let peer_ds: String = x.peer.render();
    if !is_bootfs(r, x.peer.pool.as_str(), peer_ds.as_str()) {
        return Ok(());
    }
    match leave_bootfs(r, x) {
        Err(e) => return Err(e),
        Ok(()) => {},
    }
    take_bootfs(r, x)
}

/// What is left to do where the demoted peer is running.
pub open spec fn next_steps(x: Sides) -> Seq<Seq<char>> {
    let peer_ds = model::pair_text(x.peer);
    seq![
        ""@,
        "  Next steps to complete failover:"@,
        "    reboot                       # land on "@ + x.be,
        "    push "@ + text::after_last(x.be, '/')
            + " --force            # settles peer's readonly=on"@,
        ""@,
        "  Note: pre-primary snapshot on "@ + peer_ds + " captures pre-failover"@,
        "  state. `push --force` wipes it; to preserve, first pull it"@,
        "  out: `pull "@ + peer_ds + "@pre-primary-... --name failover-archive`"@,
    ]
}

fn list_next_steps(x: &PairSides) -> (r: Vec<String>)
    ensures
        r.deep_view() == next_steps(x.deep_view()),
{
    let peer_ds: String = x.peer.render();
    let mut out: Vec<String> = Vec::new();
    text::push_text(&mut out, "");
    text::push_text(&mut out, "  Next steps to complete failover:");
    let a: String = text::cat2("    reboot                       # land on ", x.be.as_str());
    text::push_text(&mut out, a.as_str());
    let b: String = text::cat3(
        "    push ",
        text::tail(x.be.as_str(), '/'),
        " --force            # settles peer's readonly=on",
    );
    text::push_text(&mut out, b.as_str());
    text::push_text(&mut out, "");
    let c: String = text::cat3(
        "  Note: pre-primary snapshot on ",
        peer_ds.as_str(),
        " captures pre-failover",
    );
    text::push_text(&mut out, c.as_str());
    text::push_text(&mut out, "  state. `push --force` wipes it; to preserve, first pull it");
    let d: String = text::cat3(
        "  out: `pull ",
        peer_ds.as_str(),
        "@pre-primary-... --name failover-archive`",
    );
    text::push_text(&mut out, d.as_str());
    assert(out.deep_view() =~= next_steps(x.deep_view()));
    out
}

/// Says what is left to do.
pub open spec fn advise_does(w: World, x: Sides) -> World {
    if !x.mutual {
        w
    } else {
        let (w1, mounted) = zfs_ops::is_mounted_does(w, model::pair_text(x.peer));
        if mounted {
            sub::say_all_does(w1, next_steps(x))
        } else {
            w1
        }
    }
}

fn advise<R: Runner>(r: &mut R, x: &PairSides)
    ensures
        final(r).world() == advise_does(old(r).world(), x.deep_view()),
{
    if !x.mutual {
        return;
    }
    let peer_ds: String = x.peer.render();
    if zfs_ops::is_mounted(r, peer_ds.as_str()) {
        let lines = list_next_steps(x);
        sub::say_all(r, &lines);
    }
}

/// The change of sides.
#[verifier::opaque]
pub open spec fn promote_does(w: World, x: Sides) -> (World, Result<(), Seq<char>>) {
    let (w1, a) = keep_peer_does(w, x);
    if a is Err {
        (w1, a)
    } else {
        let (w2, b) = mark_does(w1, x);
        if b is Err {
            (w2, b)
        } else {
            let (w3, c) = turn_does(w2, x);
            if c is Err {
                (w3, c)
            } else {
                let (w4, d) = follow_bootfs_does(w3, x);
                if d is Err {
                    (w4, d)
                } else {
                    (advise_does(w4, x), Ok(()))
                }
            }
        }
    }
}

fn promote<R: Runner>(r: &mut R, x: &PairSides) -> (res: Result<(), Error>)
    ensures
        sub::did(final(r).world(), res) == promote_does(old(r).world(), x.deep_view()),
{
    proof {
        reveal(promote_does);
    }
    match keep_peer(r, x) {
        Err(e) => return Err(e),
        Ok(()) => {},
    }
    match mark(r, x) {
        Err(e) => return Err(e),
        Ok(()) => {},
    }
    match turn(r, x) {
        Err(e) => return Err(e),
        Ok(()) => {},
    }
    match follow_bootfs(r, x) {
        Err(e) => return Err(e),
        Ok(()) => {},
    }
    advise(r, x);
    Ok(())
}

/// What `primary` does.
pub open spec fn run_does(w: World, arg: Seq<char>) -> (World, Result<(), Seq<char>>) {
    let (w1, sides) = sides_does(w, arg);
    match sides {
        Err(m) => (w1, Err(m)),
        Ok(x) => {
            let peer_ds = model::pair_text(x.peer);
            let w2 = if x.mutual {
                w1
            } else {
                w1.say(
                    "  warning: "@ + peer_ds + " doesn't point back at "@ + x.be
                        + " (asymmetric pair). Continuing on the local side only — peer's state untouched."@,
                )
            };
            let (w3, flag) = zfs_ops::dataset_property_does(w2, x.be, "zboot:primary"@);
            match flag {
                Err(m) => (w3, Err(m)),
                Ok(v) => if v == "on"@ {
                    (w3.say("  "@ + x.be + " is already zboot:primary=on — no-op."@), Ok(()))
                } else {
                    promote_does(w3.say("  primary "@ + x.be + " (peer: "@ + peer_ds + ")"@), x)
                },
            }
        },
    }
}

/// `primary`: makes a boot environment the primary side of its pair.
pub fn run<R: Runner>(r: &mut R, args: &PrimaryArgs) -> (res: Result<(), Error>)
    ensures
        sub::did(final(r).world(), res) == run_does(old(r).world(), args.be@),
{
    let x = match find_sides(r, args.be.as_str()) {
        Err(e) => return Err(e),
        Ok(x) => x,
    };
    let peer_ds: String = x.peer.render();
    if !x.mutual {
        let line: String = text::cat5(
            "  warning: ",
            peer_ds.as_str(),
            " doesn't point back at ",
            x.be.as_str(),
            " (asymmetric pair). Continuing on the local side only — peer's state untouched.",
        );
        r.say(line.as_str());
    }
    let v: String = match zfs_ops::dataset_property(r, x.be.as_str(), "zboot:primary") {
        Err(e) => return Err(e),
        Ok(v) => v,
    };
    if text::eq(v.as_str(), "on") {
        let line: String = text::cat3(
            "  ",
            x.be.as_str(),
            " is already zboot:primary=on — no-op.",
        );
        r.say(line.as_str());
        return Ok(());
    }
    let line: String = text::cat5(
        "  primary ",
        x.be.as_str(),
        " (peer: ",
        peer_ds.as_str(),
        ")",
    );
    r.say(line.as_str());
    promote(r, &x)
}

// ---------------------------------------------------------------------------
// Laws
// ---------------------------------------------------------------------------

proof fn lemma_sides_look(w: World, arg: Seq<char>)
    ensures
        sub::only_looked(w, sides_does(w, arg).0),
{
    reveal(sides_does);
    be_arg::lemma_resolve_looks(w, arg);
    let (w1, ds) = be_arg::resolve_be_dataset_does(w, arg);
    if let Ok(be) = ds {
        zfs_ops::lemma_exists_looks(w1, be);
        let w2 = zfs_ops::dataset_exists_does(w1, be).0;
        zfs_ops::lemma_property_looks(w2, be, "zboot:mirror"@);
        let (w3, peer) = zfs_ops::read_pair_pointer_does(w2, be);
        if let Ok(Some(k)) = peer {
            let peer_ds = model::pair_text(k);
            zfs_ops::lemma_exists_looks(w3, peer_ds);
            let wa = zfs_ops::dataset_exists_does(w3, peer_ds).0;
            zfs_ops::lemma_property_looks(wa, peer_ds, "zboot:mirror"@);
        }
    }
}

/// Making primary what is primary already changes nothing: the verb may be
/// repeated.
pub proof fn law_primary_is_idempotent(w: World, arg: Seq<char>, x: Sides)
    requires
        sides_does(w, arg).1 == Ok::<Sides, Seq<char>>(x),
        x.mutual,
        zfs_ops::dataset_property_does(sides_does(w, arg).0, x.be, "zboot:primary"@).1 == Ok::<
            Seq<char>,
            Seq<char>,
        >("on"@),
    ensures
        run_does(w, arg).1 is Ok,
        sub::only_looked(w, run_does(w, arg).0),
{
    lemma_sides_look(w, arg);
    zfs_ops::lemma_property_looks(sides_does(w, arg).0, x.be, "zboot:primary"@);
}

/// Where the peer does not point back, it is left alone: all that the change of
/// sides does is to mark the boot environment itself and to make it writable.
pub proof fn law_asymmetric_peer_is_left_alone(w: World, x: Sides)
    requires
        !x.mutual,
    ensures
        promote_does(w, x) == {
            let (w1, a) = zfs_ops::set_property_does(w, x.be, "zboot:primary"@, "on"@);
            if a is Err {
                (w1, a)
            } else {
                let (w2, b) = zfs_ops::set_property_does(w1, x.be, "readonly"@, "off"@);
                (w2, error::in_context(b, "clearing readonly on new primary"@))
            }
        },
{
    reveal(promote_does);
    reveal(keep_peer_does);
    reveal(mark_does);
    reveal(turn_does);
    reveal(follow_bootfs_does);
}

/// What boots next stays as it is where the demoted side is not what its pool
/// boots: the pool is asked, and no more.
pub proof fn law_bootfs_moves_only_with_the_demoted_side(w: World, x: Sides)
    requires
        !boots(zfs_ops::pool_bootfs_does(w, x.peer.pool).1, model::pair_text(x.peer)),
    ensures
        follow_bootfs_does(w, x).1 is Ok,
        sub::only_looked(w, follow_bootfs_does(w, x).0),
{
    reveal(follow_bootfs_does);
    zfs_ops::lemma_pool_property_looks(w, x.peer.pool, "bootfs"@);
}

/// Where the sides of a pair change and all goes well, the marker and
/// `readonly` have been set and read back: the new primary side is marked and
/// writable, and the other is marked as the mirror.
pub proof fn law_sides_change(w: World, x: Sides)
    requires
        x.mutual,
        promote_does(w, x).1 is Ok,
    ensures
        ({
            let end = promote_does(w, x).0;
            &&& effects::took(w, end, x.be, "zboot:primary"@, "on"@)
            &&& effects::took(w, end, model::pair_text(x.peer), "zboot:primary"@, "off"@)
            &&& effects::took(w, end, x.be, "readonly"@, "off"@)
        }),
{
    reveal(promote_does);
    reveal(mark_does);
    reveal(turn_does);
    let all = |c: Call| true;
    let peer_ds = model::pair_text(x.peer);
    let end = promote_does(w, x).0;
    let w1 = keep_peer_does(w, x).0;
    lemma_keep_peer(w, x);
    let wa = zfs_ops::set_property_does(w1, x.be, "zboot:primary"@, "on"@).0;
    effects::lemma_set(w1, x.be, "zboot:primary"@, "on"@, all);
    let w2 = mark_does(w1, x).0;
    effects::lemma_set(wa, peer_ds, "zboot:primary"@, "off"@, all);
    let wb = zfs_ops::set_property_does(w2, x.be, "readonly"@, "off"@).0;
    effects::lemma_set(w2, x.be, "readonly"@, "off"@, all);
    let w3 = turn_does(w2, x).0;
    zfs_ops::lemma_mounted_looks(wb, peer_ds);
    let wc = zfs_ops::is_mounted_does(wb, peer_ds).0;
    effects::lemma_set(wc, peer_ds, "readonly"@, "on"@, all);
    assert(sub::continues(wb, w3)) by {
        effects::lemma_continues(
            wb,
            wc,
            zfs_ops::set_property_does(wc, peer_ds, "readonly"@, "on"@).0,
        );
    }
    let w4 = follow_bootfs_does(w3, x).0;
    lemma_follow(w3, x);
    zfs_ops::lemma_mounted_looks(w4, peer_ds);
    sub::lemma_say_all_looks(zfs_ops::is_mounted_does(w4, peer_ds).0, next_steps(x));
    assert(sub::continues(w4, end)) by {
        effects::lemma_continues(w4, zfs_ops::is_mounted_does(w4, peer_ds).0, end);
    }
    effects::lemma_continues(w3, w4, end);
    effects::lemma_continues(wb, w3, end);
    effects::lemma_continues(w2, wb, end);
    effects::lemma_continues(wa, w2, end);
    effects::lemma_continues(w, w1, wa);
    effects::lemma_continues(w, wa, w2);
    effects::lemma_took_within(w, w1, wa, end, x.be, "zboot:primary"@, "on"@);
    effects::lemma_took_within(w, wa, w2, end, peer_ds, "zboot:primary"@, "off"@);
    effects::lemma_took_within(w, w2, wb, end, x.be, "readonly"@, "off"@);
}

proof fn lemma_keep_peer(w: World, x: Sides)
    ensures
        sub::continues(w, keep_peer_does(w, x).0),
{
    reveal(keep_peer_does);
    let all = |c: Call| true;
    let peer_ds = model::pair_text(x.peer);
    zfs_ops::lemma_mounted_looks(w, peer_ds);
    let w1 = zfs_ops::is_mounted_does(w, peer_ds).0;
    let name = "pre-primary-"@ + text::decimal(w1.reply().nanos as nat);
    let w2 = w1.after(Call::Clock);
    effects::lemma_snapshot(w2, peer_ds, name, all);
    effects::lemma_continues(w, w1, w2);
    effects::lemma_continues(w, w2, zfs_ops::take_snapshot_does(w2, peer_ds, name).0);
}

proof fn lemma_follow(w: World, x: Sides)
    ensures
        sub::continues(w, follow_bootfs_does(w, x).0),
{
    reveal(follow_bootfs_does);
    reveal(leave_bootfs_does);
    reveal(take_bootfs_does);
    zfs_ops::lemma_pool_property_looks(w, x.peer.pool, "bootfs"@);
    let w1 = zfs_ops::pool_bootfs_does(w, x.peer.pool).0;
    let w2 = leave_bootfs_does(w1, x).0;
    assert(sub::continues(w1, w2));
    effects::lemma_continues(w, w1, w2);
    let pool = text::before(x.be, '/');
    zfs_ops::lemma_pool_property_looks(w2, pool, "bootfs"@);
    let w3 = zfs_ops::pool_bootfs_does(w2, pool).0;
    effects::lemma_continues(w, w2, w3);
    let w4 = take_bootfs_does(w2, x).0;
    assert(sub::continues(w3, w4));
    effects::lemma_continues(w, w3, w4);
}

/// A demoted side that is not mounted becomes read-only.
pub proof fn law_demoted_side_is_readonly(w: World, x: Sides)
    requires
        x.mutual,
        turn_does(w, x).1 is Ok,
    ensures
        ({
            let end = turn_does(w, x).0;
            let peer_ds = model::pair_text(x.peer);
            exists|n: int|
                w.calls.len() <= n < end.calls.len() && #[trigger] end.calls[n]
                    == effects::get_call(peer_ds, "mounted"@) && (effects::read_as(end, n, "yes"@)
                    || effects::took(w, end, peer_ds, "readonly"@, "on"@))
        }),
{
    reveal(turn_does);
    reveal(zfs_ops::is_mounted_does);
    reveal(zfs_ops::dataset_property_does);
    let all = |c: Call| true;
    let peer_ds = model::pair_text(x.peer);
    let end = turn_does(w, x).0;
    effects::lemma_set(w, x.be, "readonly"@, "off"@, all);
    let w1 = zfs_ops::set_property_does(w, x.be, "readonly"@, "off"@).0;
    let (w2, mounted) = zfs_ops::is_mounted_does(w1, peer_ds);
    let n = w1.calls.len() as int;
    assert(w2.calls[n] == effects::get_call(peer_ds, "mounted"@));
    effects::lemma_set(w2, peer_ds, "readonly"@, "on"@, all);
    assert(sub::continues(w1, w2));
    effects::lemma_continues(w, w1, w2);
    assert(sub::continues(w2, end));
    assert(end.calls[n] == w2.calls[n]);
    if !mounted {
        assert(sub::continues(end, end));
        effects::lemma_took_within(w, w2, end, end, peer_ds, "readonly"@, "on"@);
    }
}

/// Where the demoted side is what its pool boots, that pool boots nothing any
/// more, and the promoted side is what its own pool boots.
pub proof fn law_bootfs_changes_sides(w: World, x: Sides)
    requires
        x.mutual,
        follow_bootfs_does(w, x).1 is Ok,
        !model::unset(model::pair_text(x.peer)),
        effects::booted_from(
            follow_bootfs_does(w, x).0,
            w.calls.len() as int,
            x.peer.pool,
            model::pair_text(x.peer),
        ),
    ensures
        ({
            let end = follow_bootfs_does(w, x).0;
            let pool = text::before(x.be, '/');
            &&& effects::ran(w, end, "zpool"@, seq!["set"@, "bootfs="@, x.peer.pool])
            &&& effects::ran(w, end, "zpool"@, seq!["set"@, "bootfs="@ + x.be, pool]) || exists|n: int|
                w.calls.len() <= n < end.calls.len() && #[trigger] effects::booted_from(
                    end,
                    n,
                    pool,
                    x.be,
                )
        }),
{
    reveal(follow_bootfs_does);
    reveal(leave_bootfs_does);
    reveal(take_bootfs_does);
    reveal(zfs_ops::pool_property_does);
    let end = follow_bootfs_does(w, x).0;
    let pool = text::before(x.be, '/');
    let w1 = zfs_ops::pool_bootfs_does(w, x.peer.pool).0;
    let leave = seq!["set"@, "bootfs="@, x.peer.pool];
    effects::lemma_run_ran(w1, "zpool"@, leave);
    let wa = sub::run_does(w1, "zpool"@, leave).0;
    let w2 = leave_bootfs_does(w1, x).0;
    assert(sub::continues(w, w1));
    assert(sub::continues(wa, w2));
    let (w3, v) = zfs_ops::pool_bootfs_does(w2, pool);
    let take = seq!["set"@, "bootfs="@ + x.be, pool];
    effects::lemma_run_ran(w3, "zpool"@, take);
    let wb = sub::run_does(w3, "zpool"@, take).0;
    assert(sub::continues(w2, w3));
    assert(sub::continues(w3, end));
    assert(sub::continues(end, end));
    effects::lemma_continues(w2, w3, end);
    effects::lemma_continues(wa, w2, end);
    effects::lemma_ran_within(w, w1, wa, end, "zpool"@, leave);
    effects::lemma_continues(w, w1, wa);
    effects::lemma_continues(w, wa, w2);
    effects::lemma_continues(w, w2, w3);
    let n = w2.calls.len() as int;
    assert(w3.calls[n] == effects::pool_call(pool, "bootfs"@));
    assert(end.calls[n] == w3.calls[n]);
    if boots(v, x.be) {
        assert(effects::booted_from(end, n, pool, x.be));
    } else {
        assert(sub::continues(wb, end));
        effects::lemma_ran_within(w, w3, wb, end, "zpool"@, take);
    }
}

/// A promotion that succeeds has found the side on already, or has turned the
/// sides: the one asked for is on, and a peer that points back is off.
pub proof fn law_promotion_turns_the_sides(w: World, arg: Seq<char>)
    requires
        run_does(w, arg).1 is Ok,
    ensures
        sides_does(w, arg).1 matches Ok(x) && {
            let end = run_does(w, arg).0;
            x.mutual ==> was_on(w, end, x.be) || (effects::took(
                w,
                end,
                x.be,
                "zboot:primary"@,
                "on"@,
            ) && effects::took(w, end, model::pair_text(x.peer), "zboot:primary"@, "off"@)
                && effects::took(w, end, x.be, "readonly"@, "off"@))
        },
{
    reveal(zfs_ops::dataset_property_does);
    lemma_sides_look(w, arg);
    let end = run_does(w, arg).0;
    let (w1, sides) = sides_does(w, arg);
    let x = sides->Ok_0;
    if x.mutual {
        let (w2, flag) = zfs_ops::dataset_property_does(w1, x.be, "zboot:primary"@);
        let n = w1.calls.len() as int;
        assert(w2.calls[n] == effects::get_call(x.be, "zboot:primary"@));
        if flag->Ok_0 == "on"@ {
            assert(end.calls[n] == w2.calls[n]);
        } else {
            let peer_ds = model::pair_text(x.peer);
            let w3 = w2.say("  primary "@ + x.be + " (peer: "@ + peer_ds + ")"@);
            assert(sub::continues(w1, w3));
            effects::lemma_continues(w, w1, w3);
            law_sides_change(w3, x);
            assert(sub::continues(end, end));
            effects::lemma_took_within(w, w3, end, end, x.be, "zboot:primary"@, "on"@);
            effects::lemma_took_within(w, w3, end, end, peer_ds, "zboot:primary"@, "off"@);
            effects::lemma_took_within(w, w3, end, end, x.be, "readonly"@, "off"@);
        }
    }
}

/// A side was asked for, and was on.
pub open spec fn was_on(a: World, b: World, ds: Seq<char>) -> bool {
    exists|n: int|
        a.calls.len() <= n < b.calls.len() && #[trigger] b.calls[n] == effects::get_call(
            ds,
            "zboot:primary"@,
        ) && effects::read_as(b, n, "on"@)
}

} // verus!
