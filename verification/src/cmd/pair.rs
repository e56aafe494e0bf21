//! `pair` and `unpair`: who replicates to whom, without moving any data.
//!
//! `pair a b` points `a` at `b`, and `b` back at `a` where `b` points nowhere.
//! Where `b` points elsewhere it is left alone: `a` then only tracks it.

use vstd::prelude::*;

use crate::effects;
use crate::error;
use crate::error::Error;
use crate::model;
use crate::model::{Key, PairPointer};
use crate::sub;
use crate::sub::{Call, Runner, World};
use crate::text;
use crate::zfs_ops;

verus! {

/// Arguments of `pair`.
#[derive(Debug)]
pub struct PairArgs {
    /// First boot environment, a full dataset path.
    pub a: String,
    /// Second boot environment, a full dataset path.
    pub b: String,
    /// Pair them even where each holds snapshots that the other lacks.
    pub force: bool,
}

/// Arguments of `unpair`.
#[derive(Debug)]
pub struct UnpairArgs {
    /// The boot environment to unpair, a full dataset path.
    pub be: String,
}

// ---------------------------------------------------------------------------
// Compatibility
// ---------------------------------------------------------------------------

/// The complaint about two sides that diverged.
pub open spec fn diverged_text(a: Seq<char>, b: Seq<char>, ao: nat, bo: nat) -> Seq<char> {
    "refuses: GUID sets diverged ("@ + a + " has "@ + text::decimal(ao) + " snaps "@ + b
        + " doesn't; "@ + b + " has "@ + text::decimal(bo) + " snaps "@ + a
        + " doesn't). Pairing now would create immediate divergence. Use --force to skip, but you'll need `push --force` or `pull --force` next."@
}

/// Two sides fit where one of them holds all that the other holds.
pub open spec fn compatible(a: Seq<char>, b: Seq<char>, ga: Seq<Seq<char>>, gb: Seq<Seq<char>>) -> Result<
    (),
    Seq<char>,
> {
    let ao = model::lacking(ga, gb).len();
    let bo = model::lacking(gb, ga).len();
    if ao == 0 || bo == 0 {
        Ok(())
    } else {
        Err(diverged_text(a, b, ao, bo))
    }
}

/// Whether two sides fit, by the GUIDs of their snapshots.
pub fn check_guids(a: &str, b: &str, ga: &Vec<String>, gb: &Vec<String>) -> (res: Result<(), Error>)
    ensures
        error::outcome(res) == compatible(a@, b@, ga.deep_view(), gb.deep_view()),
{
    let ao: usize = model::count_lacking(ga, gb);
    let bo: usize = model::count_lacking(gb, ga);
    if ao == 0 || bo == 0 {
        return Ok(());
    }
    let na: String = text::dec_len(ao);
    let nb: String = text::dec_len(bo);
    let m: String = text::cat9(
        "refuses: GUID sets diverged (",
        a,
        " has ",
        na.as_str(),
        " snaps ",
        b,
        " doesn't; ",
        b,
        " has ",
    );
    Err(
        Error::from_text(
            text::cat5(
                m.as_str(),
                nb.as_str(),
                " snaps ",
                a,
                " doesn't). Pairing now would create immediate divergence. Use --force to skip, but you'll need `push --force` or `pull --force` next.",
            ),
        ),
    )
}

/// Compares the snapshots of the two sides.
pub open spec fn verify_compatible_does(w: World, a: Seq<char>, b: Seq<char>) -> (World, Result<
    (),
    Seq<char>,
>) {
    let (w1, ga) = zfs_ops::guid_set_does(w, a);
    let (w2, gb) = zfs_ops::guid_set_does(w1, b);
    (w2, compatible(a, b, zfs_ops::or_no_guids(ga), zfs_ops::or_no_guids(gb)))
}

fn verify_compatible<R: Runner>(r: &mut R, a: &str, b: &str) -> (res: Result<(), Error>)
    ensures
        sub::did(final(r).world(), res) == verify_compatible_does(old(r).world(), a@, b@),
{
    let ga = zfs_ops::guids_or_none(r, a);
    let gb = zfs_ops::guids_or_none(r, b);
    check_guids(a, b, &ga, &gb)
}

// ---------------------------------------------------------------------------
// Pairing
// ---------------------------------------------------------------------------

/// The dataset is there.
pub open spec fn must_exist_does(w: World, ds: Seq<char>) -> (World, Result<(), Seq<char>>) {
    let (w1, there) = zfs_ops::dataset_exists_does(w, ds);
    (
        w1,
        match there {
            Err(m) => Err(m),
            Ok(b) => if b {
                Ok(())
            } else {
                Err("dataset "@ + ds + " does not exist"@)
            },
        },
    )
}

fn must_exist<R: Runner>(r: &mut R, ds: &str) -> (res: Result<(), Error>)
    ensures
        sub::did(final(r).world(), res) == must_exist_does(old(r).world(), ds@),
{
    match zfs_ops::dataset_exists(r, ds) {
        Err(e) => Err(e),
        Ok(b) => if b {
            Ok(())
        } else {
            Err(Error::from_text(text::cat3("dataset ", ds, " does not exist")))
        },
    }
}

/// All that has to hold before two boot environments are paired.
#[verifier::opaque]
pub open spec fn check_pair_does(w: World, a: Seq<char>, b: Seq<char>, force: bool) -> (
    World,
    Result<(), Seq<char>>,
) {
    let a_pool = text::before(a, '/');
    if a == b {
        (w, Err("can't pair a BE with itself"@))
    } else if a_pool == text::before(b, '/') {
        (w, Err("pair must be cross-pool (got "@ + a_pool + " for both sides)"@))
    } else {
        let (w1, have_a) = must_exist_does(w, a);
        match have_a {
            Err(m) => (w1, Err(m)),
            Ok(()) => {
                let (w2, have_b) = must_exist_does(w1, b);
                match have_b {
                    Err(m) => (w2, Err(m)),
                    Ok(()) => {
                        let (w3, peer) = zfs_ops::read_pair_pointer_does(w2, a);
                        match peer {
                            Err(m) => (w3, Err(m)),
                            Ok(Some(_)) => (
                                w3,
                                Err(a + " already has a pair; clear with `unpair` first"@),
                            ),
                            Ok(None) => if force {
                                (w3, Ok(()))
                            } else {
                                verify_compatible_does(w3, a, b)
                            },
                        }
                    },
                }
            },
        }
    }
}

fn check_pair<R: Runner>(r: &mut R, a: &str, b: &str, force: bool) -> (res: Result<(), Error>)
    ensures
        sub::did(final(r).world(), res) == check_pair_does(old(r).world(), a@, b@, force),
{
    proof {
        reveal(check_pair_does);
    }
    if text::eq(a, b) {
        return Err(Error::new("can't pair a BE with itself"));
    }
    let a_pool: &str = text::head(a, '/');
    if text::eq(a_pool, text::head(b, '/')) {
        return Err(
            Error::from_text(
                text::cat3("pair must be cross-pool (got ", a_pool, " for both sides)"),
            ),
        );
    }
    match must_exist(r, a) {
        Err(e) => return Err(e),
        Ok(()) => {},
    }
    match must_exist(r, b) {
        Err(e) => return Err(e),
        Ok(()) => {},
    }
    match zfs_ops::read_pair_pointer(r, a) {
        Err(e) => return Err(e),
        Ok(Some(_)) => {
            return Err(
                Error::from_text(
                    text::cat2(a, " already has a pair; clear with `unpair` first"),
                ),
            );
        },
        Ok(None) => {},
    }
    if force {
        return Ok(());
    }
    verify_compatible(r, a, b)
}

/// The pointer that a dataset path makes.
pub open spec fn canonical(ds: Seq<char>) -> Result<Key, Seq<char>> {
    match model::pair_of(ds) {
        Some(k) => Ok(k),
        None => Err(ds + " not in canonical `<pool>/ROOT/<be>` form"@),
    }
}

fn parse_canonical(ds: &str) -> (res: Result<PairPointer, Error>)
    ensures
        error::outcome(res) == canonical(ds@),
{
    match PairPointer::parse_dataset(ds) {
        Some(k) => Ok(k),
        None => Err(
            Error::from_text(text::cat2(ds, " not in canonical `<pool>/ROOT/<be>` form")),
        ),
    }
}

/// Points the two at each other; the first becomes the primary side.
#[verifier::opaque]
pub open spec fn link_both_does(w: World, a: Seq<char>, b: Seq<char>, to_a: Key) -> (World, Result<
    (),
    Seq<char>,
>) {
    let (w1, r1) = zfs_ops::set_property_does(w, b, "zboot:mirror"@, model::pair_text(to_a));
    match r1 {
        Err(m) => (w1, Err(m)),
        Ok(()) => {
            let (w2, r2) = zfs_ops::set_property_does(w1, a, "zboot:primary"@, "on"@);
            match r2 {
                Err(m) => (w2, Err(m)),
                Ok(()) => {
                    let (w3, r3) = zfs_ops::set_property_does(w2, b, "zboot:primary"@, "off"@);
                    match r3 {
                        Err(m) => (w3, Err(m)),
                        Ok(()) => (
                            w3.say(
                                "  paired "@ + a + " ↔ "@ + b + " (mutual; "@ + a
                                    + " is primary)"@,
                            ),
                            Ok(()),
                        ),
                    }
                },
            }
        },
    }
}

fn link_both<R: Runner>(r: &mut R, a: &str, b: &str, to_a: &PairPointer) -> (res: Result<(), Error>)
    ensures
        sub::did(final(r).world(), res) == link_both_does(
            old(r).world(),
            a@,
            b@,
            to_a.deep_view(),
        ),
{
    proof {
        reveal(link_both_does);
    }
    match zfs_ops::write_pair_pointer(r, b, to_a) {
        Err(e) => return Err(e),
        Ok(()) => {},
    }
    match zfs_ops::set_property_tolerant(r, a, "zboot:primary", "on") {
        Err(e) => return Err(e),
        Ok(()) => {},
    }
    match zfs_ops::set_property_tolerant(r, b, "zboot:primary", "off") {
        Err(e) => return Err(e),
        Ok(()) => {},
    }
    let line: String = text::cat7("  paired ", a, " ↔ ", b, " (mutual; ", a, " is primary)");
    r.say(line.as_str());
    Ok(())
}

/// Points `a` at `b`, and `b` back where it points nowhere.
#[verifier::opaque]
pub open spec fn link_does(w: World, a: Seq<char>, b: Seq<char>) -> (World, Result<(), Seq<char>>) {
    match canonical(b) {
        Err(m) => (w, Err(m)),
        Ok(to_b) => match canonical(a) {
            Err(m) => (w, Err(m)),
            Ok(to_a) => {
                let (w1, peer) = zfs_ops::read_pair_pointer_does(w, b);
                match peer {
                    Err(m) => (w1, Err(m)),
                    Ok(p) => {
                        let (w2, r2) = zfs_ops::set_property_does(
                            w1,
                            a,
                            "zboot:mirror"@,
                            model::pair_text(to_b),
                        );
                        match r2 {
                            Err(m) => (w2, Err(m)),
                            Ok(()) => if p is None {
                                link_both_does(w2, a, b, to_a)
                            } else {
                                let (w3, r3) = zfs_ops::set_property_does(
                                    w2,
                                    a,
                                    "zboot:primary"@,
                                    "off"@,
                                );
                                match r3 {
                                    Err(m) => (w3, Err(m)),
                                    Ok(()) => (
                                        w3.say(
                                            "  paired "@ + a + " → "@ + b + " (asymmetric — "@ + b
                                                + " already has a pair; "@ + a
                                                + " is tracking-only)"@,
                                        ),
                                        Ok(()),
                                    ),
                                }
                            },
                        }
                    },
                }
            },
        },
    }
}

fn link<R: Runner>(r: &mut R, a: &str, b: &str) -> (res: Result<(), Error>)
    ensures
        sub::did(final(r).world(), res) == link_does(old(r).world(), a@, b@),
{
    proof {
        reveal(link_does);
    }
    let to_b = match parse_canonical(b) {
        Err(e) => return Err(e),
        Ok(k) => k,
    };
    let to_a = match parse_canonical(a) {
        Err(e) => return Err(e),
        Ok(k) => k,
    };
    let peer = match zfs_ops::read_pair_pointer(r, b) {
        Err(e) => return Err(e),
        Ok(p) => p,
    };
    match zfs_ops::write_pair_pointer(r, a, &to_b) {
        Err(e) => return Err(e),
        Ok(()) => {},
    }
    if peer.is_none() {
        return link_both(r, a, b, &to_a);
    }
    match zfs_ops::set_property_tolerant(r, a, "zboot:primary", "off") {
        Err(e) => return Err(e),
        Ok(()) => {},
    }
    let line: String = text::cat9(
        "  paired ",
        a,
        " → ",
        b,
        " (asymmetric — ",
        b,
        " already has a pair; ",
        a,
        " is tracking-only)",
    );
    r.say(line.as_str());
    Ok(())
}

/// What `pair` does.
pub open spec fn run_pair_does(w: World, a: Seq<char>, b: Seq<char>, force: bool) -> (
    World,
    Result<(), Seq<char>>,
) {
    let (w1, ok) = check_pair_does(w, a, b, force);
    match ok {
        Err(m) => (w1, Err(m)),
        Ok(()) => link_does(w1, a, b),
    }
}

/// `pair`: makes two boot environments on different pools peers.
pub fn run_pair<R: Runner>(r: &mut R, args: &PairArgs) -> (res: Result<(), Error>)
    ensures
        sub::did(final(r).world(), res) == run_pair_does(
            old(r).world(),
            args.a@,
            args.b@,
            args.force,
        ),
{
    match check_pair(r, args.a.as_str(), args.b.as_str(), args.force) {
        Err(e) => Err(e),
        Ok(()) => link(r, args.a.as_str(), args.b.as_str()),
    }
}

// ---------------------------------------------------------------------------
// Unpairing
// ---------------------------------------------------------------------------

/// Clears the pointer and the primary marker of a dataset.
pub open spec fn clear_does(w: World, ds: Seq<char>) -> World {
    zfs_ops::inherit_property_does(
        zfs_ops::inherit_property_does(w, ds, "zboot:mirror"@),
        ds,
        "zboot:primary"@,
    )
}

fn clear<R: Runner>(r: &mut R, ds: &str)
    ensures
        final(r).world() == clear_does(old(r).world(), ds@),
{
    let _ = zfs_ops::clear_pair_pointer(r, ds);
    let _ = zfs_ops::inherit_property_tolerant(r, ds, "zboot:primary");
}

/// Clears the peer's side too, where it points back at `be`.
#[verifier::opaque]
pub open spec fn clear_peer_does(w: World, be: Seq<char>, peer: Key) -> (World, Result<
    (),
    Seq<char>,
>) {
    let peer_ds = model::pair_text(peer);
    let (w1, there) = zfs_ops::dataset_exists_does(w, peer_ds);
    if !zfs_ops::exists_or_not(there) {
        (w1.say("  peer "@ + peer_ds + " not reachable; left as-is"@), Ok(()))
    } else {
        let (w2, back) = zfs_ops::read_pair_pointer_does(w1, peer_ds);
        match back {
            Err(m) => (w2, Err(m)),
            Ok(None) => (
                w2.say("  "@ + peer_ds + " had no pair pointer; nothing to clear there"@),
                Ok(()),
            ),
            Ok(Some(k)) => if model::pair_of(be) == Some(k) {
                (
                    clear_does(w2, peer_ds).say(
                        "  cleared zboot:mirror + zboot:primary on "@ + peer_ds + " (mutual)"@,
                    ),
                    Ok(()),
                )
            } else {
                (
                    w2.say(
                        "  left "@ + peer_ds + " alone (its pair points at "@ + model::pair_text(k)
                            + ", not at "@ + be + ")"@,
                    ),
                    Ok(()),
                )
            },
        }
    }
}

fn clear_peer<R: Runner>(r: &mut R, be: &str, peer: &PairPointer) -> (res: Result<(), Error>)
    ensures
        sub::did(final(r).world(), res) == clear_peer_does(old(r).world(), be@, peer.deep_view()),
{
    proof {
        reveal(clear_peer_does);
    }
    let peer_ds: String = peer.render();
    if !zfs_ops::is_there(r, peer_ds.as_str()) {
        let line: String = text::cat3("  peer ", peer_ds.as_str(), " not reachable; left as-is");
        r.say(line.as_str());
        return Ok(());
    }
    match zfs_ops::read_pair_pointer(r, peer_ds.as_str()) {
        Err(e) => Err(e),
        Ok(None) => {
            let line: String = text::cat3(
                "  ",
                peer_ds.as_str(),
                " had no pair pointer; nothing to clear there",
            );
            r.say(line.as_str());
            Ok(())
        },
        Ok(Some(k)) => {
            let mutual: bool = match PairPointer::parse_dataset(be) {
                Some(p) => p.same(&k),
                None => false,
            };
            if mutual {
                clear(r, peer_ds.as_str());
                let line: String = text::cat3(
                    "  cleared zboot:mirror + zboot:primary on ",
                    peer_ds.as_str(),
                    " (mutual)",
                );
                r.say(line.as_str());
            } else {
                let shown: String = k.render();
                let line: String = text::cat7(
                    "  left ",
                    peer_ds.as_str(),
                    " alone (its pair points at ",
                    shown.as_str(),
                    ", not at ",
                    be,
                    ")",
                );
                r.say(line.as_str());
            }
            Ok(())
        },
    }
}

/// What `unpair` does.
pub open spec fn run_unpair_does(w: World, be: Seq<char>) -> (World, Result<(), Seq<char>>) {
    let (w1, peer) = zfs_ops::read_pair_pointer_does(w, be);
    match peer {
        Err(m) => (w1, Err(m)),
        Ok(None) => (w1, Err(be + " has no zboot:mirror; nothing to unpair"@)),
        Ok(Some(k)) => clear_peer_does(
            clear_does(w1, be).say("  cleared zboot:mirror + zboot:primary on "@ + be),
            be,
            k,
        ),
    }
}

/// `unpair`: clears the pointer of a boot environment, and that of its peer
/// where it points back.
pub fn run_unpair<R: Runner>(r: &mut R, args: &UnpairArgs) -> (res: Result<(), Error>)
    ensures
        sub::did(final(r).world(), res) == run_unpair_does(old(r).world(), args.be@),
{
    match zfs_ops::read_pair_pointer(r, args.be.as_str()) {
        Err(e) => Err(e),
        Ok(None) => Err(
            Error::from_text(
                text::cat2(args.be.as_str(), " has no zboot:mirror; nothing to unpair"),
            ),
        ),
        Ok(Some(k)) => {
            clear(r, args.be.as_str());
            let line: String = text::cat2(
                "  cleared zboot:mirror + zboot:primary on ",
                args.be.as_str(),
            );
            r.say(line.as_str());
            clear_peer(r, args.be.as_str(), &k)
        },
    }
}

// ---------------------------------------------------------------------------
// Laws
// ---------------------------------------------------------------------------

/// A pairing that is refused changes nothing.
pub proof fn law_refused_pair_changes_nothing(w: World, a: Seq<char>, b: Seq<char>, force: bool)
    ensures
        sub::only_looked(w, check_pair_does(w, a, b, force).0),
        check_pair_does(w, a, b, force).1 is Err ==> run_pair_does(w, a, b, force)
            == check_pair_does(w, a, b, force),
{
    reveal(check_pair_does);
    zfs_ops::lemma_exists_looks(w, a);
    let w1 = must_exist_does(w, a).0;
    zfs_ops::lemma_exists_looks(w1, b);
    let w2 = must_exist_does(w1, b).0;
    zfs_ops::lemma_property_looks(w2, a, "zboot:mirror"@);
    let w3 = zfs_ops::read_pair_pointer_does(w2, a).0;
    zfs_ops::lemma_list_looks(w3, a);
    let w4 = zfs_ops::guid_set_does(w3, a).0;
    zfs_ops::lemma_list_looks(w4, b);
}

/// Boot environments of one pool are never paired, nor one with itself.
pub proof fn law_pairs_cross_pools(w: World, a: Seq<char>, b: Seq<char>, force: bool)
    ensures
        run_pair_does(w, a, b, force).1 is Ok ==> a != b && text::before(a, '/') != text::before(
            b,
            '/',
        ),
{
    reveal(check_pair_does);
}

/// Whether two sides fit does not depend on which of them is named first.
pub proof fn law_compatible_is_symmetric(
    a: Seq<char>,
    b: Seq<char>,
    ga: Seq<Seq<char>>,
    gb: Seq<Seq<char>>,
)
    ensures
        compatible(a, b, ga, gb) is Ok <==> compatible(b, a, gb, ga) is Ok,
{
}

/// Where the pairing succeeds, `a` points at `b`. Where `b` pointed nowhere, it
/// points back, and `a` is the primary side of the two.
pub proof fn law_paired_point_at_each_other(w: World, a: Seq<char>, b: Seq<char>, force: bool)
    requires
        run_pair_does(w, a, b, force).1 is Ok,
    ensures
        ({
            let end = run_pair_does(w, a, b, force).0;
            let checked = check_pair_does(w, a, b, force).0;
            let (_, b_had) = zfs_ops::read_pair_pointer_does(checked, b);
            &&& b_had is Ok
            &&& effects::took(w, end, a, "zboot:mirror"@, b)
            &&& b_had->Ok_0 is None ==> {
                &&& effects::took(w, end, b, "zboot:mirror"@, a)
                &&& effects::took(w, end, a, "zboot:primary"@, "on"@)
                &&& effects::took(w, end, b, "zboot:primary"@, "off"@)
            }
        }),
{
    lemma_link(w, a, b, force);
}

/// Where `b` points elsewhere already, it is left alone: `a` only tracks it.
pub proof fn law_taken_peer_is_left_alone(w: World, a: Seq<char>, b: Seq<char>, force: bool)
    requires
        zfs_ops::read_pair_pointer_does(check_pair_does(w, a, b, force).0, b).1 matches Ok(Some(_)),
    ensures
        sub::did_only(w, run_pair_does(w, a, b, force).0, |c: Call| effects::concerns(c, a)),
        run_pair_does(w, a, b, force).1 is Ok ==> effects::took(
            w,
            run_pair_does(w, a, b, force).0,
            a,
            "zboot:primary"@,
            "off"@,
        ),
{
    lemma_link(w, a, b, force);
}

proof fn lemma_link(w: World, a: Seq<char>, b: Seq<char>, force: bool)
    ensures
        ({
            let (end, res) = run_pair_does(w, a, b, force);
            let checked = check_pair_does(w, a, b, force).0;
            let (_, b_had) = zfs_ops::read_pair_pointer_does(checked, b);
            &&& res is Ok ==> {
                &&& b_had is Ok
                &&& effects::took(w, end, a, "zboot:mirror"@, b)
                &&& b_had->Ok_0 is None ==> {
                    &&& effects::took(w, end, b, "zboot:mirror"@, a)
                    &&& effects::took(w, end, a, "zboot:primary"@, "on"@)
                    &&& effects::took(w, end, b, "zboot:primary"@, "off"@)
                }
                &&& b_had->Ok_0 is Some ==> effects::took(w, end, a, "zboot:primary"@, "off"@)
            }
            &&& b_had matches Ok(Some(_)) ==> sub::did_only(
                w,
                end,
                |c: Call| effects::concerns(c, a),
            )
        }),
{
    reveal(link_does);
    reveal(link_both_does);
    let mine = |c: Call| effects::concerns(c, a);
    let p = |c: Call| effects::concerns(c, a) || effects::concerns(c, b);
    let (w0, ok) = check_pair_does(w, a, b, force);
    law_refused_pair_changes_nothing(w, a, b, force);
    effects::lemma_looked(w, w0, mine);
    effects::lemma_looked(w, w0, p);
    model::law_pair_text(a);
    model::law_pair_text(b);
    if ok is Ok && canonical(a) is Ok && canonical(b) is Ok {
        let (w1, peer) = zfs_ops::read_pair_pointer_does(w0, b);
        zfs_ops::lemma_property_looks(w0, b, "zboot:mirror"@);
        effects::lemma_looked(w0, w1, mine);
        effects::lemma_then(w, w0, w1, mine);
        if let Ok(had) = peer {
            let (w2, r2) = zfs_ops::set_property_does(w1, a, "zboot:mirror"@, b);
            effects::lemma_set(w1, a, "zboot:mirror"@, b, mine);
            effects::lemma_then(w, w1, w2, mine);
            if r2 is Ok && had is Some {
                let (w3, r3) = zfs_ops::set_property_does(w2, a, "zboot:primary"@, "off"@);
                effects::lemma_set(w2, a, "zboot:primary"@, "off"@, mine);
                effects::lemma_then(w, w2, w3, mine);
                if r3 is Ok {
                    let end = run_pair_does(w, a, b, force).0;
                    assert(sub::did_only(w3, end, mine));
                    effects::lemma_then(w, w3, end, mine);
                    effects::lemma_continues(w2, w3, end);
                    effects::lemma_took_within(w, w1, w2, end, a, "zboot:mirror"@, b);
                    effects::lemma_took_within(w, w2, w3, end, a, "zboot:primary"@, "off"@);
                }
            }
            if r2 is Ok && had is None {
                let (w3, r3) = zfs_ops::set_property_does(w2, b, "zboot:mirror"@, a);
                effects::lemma_set(w2, b, "zboot:mirror"@, a, p);
                let (w4, r4) = zfs_ops::set_property_does(w3, a, "zboot:primary"@, "on"@);
                effects::lemma_set(w3, a, "zboot:primary"@, "on"@, p);
                let (w5, r5) = zfs_ops::set_property_does(w4, b, "zboot:primary"@, "off"@);
                effects::lemma_set(w4, b, "zboot:primary"@, "off"@, p);
                if r3 is Ok && r4 is Ok && r5 is Ok {
                    let end = run_pair_does(w, a, b, force).0;
                    assert(sub::continues(w5, end));
                    effects::lemma_continues(w4, w5, end);
                    effects::lemma_continues(w3, w4, end);
                    effects::lemma_continues(w2, w3, end);
                    effects::lemma_continues(w, w2, w3);
                    effects::lemma_continues(w, w3, w4);
                    effects::lemma_took_within(w, w1, w2, end, a, "zboot:mirror"@, b);
                    effects::lemma_took_within(w, w2, w3, end, b, "zboot:mirror"@, a);
                    effects::lemma_took_within(w, w3, w4, end, a, "zboot:primary"@, "on"@);
                    effects::lemma_took_within(w, w4, w5, end, b, "zboot:primary"@, "off"@);
                }
            }
        }
    }
}

/// Where the peer does not point back, unpairing leaves it alone.
pub proof fn law_unpair_leaves_another_pair_alone(w: World, be: Seq<char>, peer: Key)
    requires
        ({
            let peer_ds = model::pair_text(peer);
            let w1 = zfs_ops::dataset_exists_does(w, peer_ds).0;
            zfs_ops::read_pair_pointer_does(w1, peer_ds).1 matches Ok(o) && (o is None || o
                != model::pair_of(be))
        }),
    ensures
        clear_peer_does(w, be, peer).1 is Ok,
        sub::only_looked(w, clear_peer_does(w, be, peer).0),
{
    reveal(clear_peer_does);
    let peer_ds = model::pair_text(peer);
    zfs_ops::lemma_exists_looks(w, peer_ds);
    let w1 = zfs_ops::dataset_exists_does(w, peer_ds).0;
    zfs_ops::lemma_property_looks(w1, peer_ds, "zboot:mirror"@);
}

/// Unpairing concerns the boot environment and its peer, and nothing else.
pub proof fn law_unpair_keeps_to_the_pair(w: World, be: Seq<char>)
    ensures
        ({
            let (end, _) = run_unpair_does(w, be);
            match zfs_ops::read_pair_pointer_does(w, be).1 {
                Ok(Some(k)) => sub::did_only(
                    w,
                    end,
                    |c: Call|
                        effects::concerns(c, be) || effects::concerns(c, model::pair_text(k)),
                ),
                _ => sub::only_looked(w, end),
            }
        }),
{
    zfs_ops::lemma_property_looks(w, be, "zboot:mirror"@);
    let (w1, peer) = zfs_ops::read_pair_pointer_does(w, be);
    if let Ok(Some(k)) = peer {
        reveal(clear_peer_does);
        let peer_ds = model::pair_text(k);
        let p = |c: Call| effects::concerns(c, be) || effects::concerns(c, peer_ds);
        effects::lemma_looked(w, w1, p);
        let w2 = clear_does(w1, be);
        lemma_clear(w1, be, p);
        effects::lemma_then(w, w1, w2, p);
        let w3 = w2.say("  cleared zboot:mirror + zboot:primary on "@ + be);
        effects::lemma_looked(w2, w3, p);
        effects::lemma_then(w, w2, w3, p);
        zfs_ops::lemma_exists_looks(w3, peer_ds);
        let w4 = zfs_ops::dataset_exists_does(w3, peer_ds).0;
        zfs_ops::lemma_property_looks(w4, peer_ds, "zboot:mirror"@);
        let w5 = zfs_ops::read_pair_pointer_does(w4, peer_ds).0;
        effects::lemma_looked(w3, w5, p);
        effects::lemma_then(w, w3, w5, p);
        lemma_clear(w5, peer_ds, p);
        effects::lemma_then(w, w5, clear_does(w5, peer_ds), p);
        effects::lemma_looked(w3, w4, p);
        effects::lemma_then(w, w3, w4, p);
        let end = run_unpair_does(w, be).0;
        assert(sub::did_only(w, end, p));
    }
}

proof fn lemma_clear(w: World, ds: Seq<char>, p: spec_fn(Call) -> bool)
    requires
        effects::allows(p, ds),
    ensures
        sub::did_only(w, clear_does(w, ds), p),
{
    let w1 = zfs_ops::inherit_property_does(w, ds, "zboot:mirror"@);
    effects::lemma_inherit(w, ds, "zboot:mirror"@, p);
    effects::lemma_inherit(w1, ds, "zboot:primary"@, p);
    effects::lemma_then(w, w1, clear_does(w, ds), p);
}

/// The call by which a dataset gives up its own value of a property.
pub open spec fn giving_up(ds: Seq<char>, prop: Seq<char>) -> Call {
    Call::Run { prog: "zfs"@, args: seq!["inherit"@, prop, ds] }
}

/// An environment that was unpaired has given up its pointer and its side, and
/// so has a peer that is there and points back at it.
pub proof fn law_unpaired_is_cleared(w: World, be: Seq<char>)
    requires
        run_unpair_does(w, be).1 is Ok,
    ensures
        ({
            let end = run_unpair_does(w, be).0;
            let n = w.calls.len() as int;
            let peer_ds = model::pair_text(
                model::pair_of(text::trimmed((w.replies)(n as nat).stdout))->0,
            );
            &&& end.calls[n] == effects::get_call(be, "zboot:mirror"@)
            &&& model::pair_of(text::trimmed((w.replies)(n as nat).stdout)) is Some
            &&& sub::called(w, end, giving_up(be, "zboot:mirror"@))
            &&& sub::called(w, end, giving_up(be, "zboot:primary"@))
            &&& exists|k: int|
                n < k < end.calls.len() && #[trigger] end.calls[k] == (Call::Run {
                    prog: "zfs"@,
                    args: seq!["list"@, "-H"@, "-o"@, "name"@, peer_ds],
                }) && (effects::succeeded(w, k) ==> {
                    let back = model::pair_of(
                        text::trimmed((w.replies)((k + 1) as nat).stdout),
                    );
                    &&& end.calls[k + 1] == effects::get_call(peer_ds, "zboot:mirror"@)
                    &&& effects::succeeded(w, k + 1)
                    &&& back is Some && back == model::pair_of(be) ==> sub::called(
                        w,
                        end,
                        giving_up(peer_ds, "zboot:mirror"@),
                    ) && sub::called(w, end, giving_up(peer_ds, "zboot:primary"@))
                })
        }),
{
    reveal(clear_peer_does);
    reveal(zfs_ops::inherit_property_does);
    reveal(zfs_ops::dataset_exists_does);
    reveal(zfs_ops::dataset_property_does);
    let end = run_unpair_does(w, be).0;
    let n = w.calls.len() as int;
    let peer_ds = model::pair_text(
        model::pair_of(text::trimmed((w.replies)(n as nat).stdout))->0,
    );
    assert(end.calls[n + 2] == giving_up(be, "zboot:mirror"@));
    assert(end.calls[n + 4] == giving_up(be, "zboot:primary"@));
    let k = n + 6;
    assert(end.calls[k] == Call::Run {
        prog: "zfs"@,
        args: seq!["list"@, "-H"@, "-o"@, "name"@, peer_ds],
    });
    if effects::succeeded(w, k) {
        let back = model::pair_of(text::trimmed((w.replies)((k + 1) as nat).stdout));
        assert(end.calls[k + 1] == effects::get_call(peer_ds, "zboot:mirror"@));
        if back is Some && back == model::pair_of(be) {
            assert(end.calls[k + 3] == giving_up(peer_ds, "zboot:mirror"@));
            assert(end.calls[k + 5] == giving_up(peer_ds, "zboot:primary"@));
        }
    }
}

/// A pair is made only of two environments on two pools that are both there, the
/// first of which has no peer yet.
pub proof fn law_pair_is_checked(w: World, a: Seq<char>, b: Seq<char>, force: bool)
    requires
        check_pair_does(w, a, b, force).1 is Ok,
    ensures
        ({
            let end = check_pair_does(w, a, b, force).0;
            let n = w.calls.len() as int;
            &&& text::before(a, '/') != text::before(b, '/')
            &&& end.calls[n] == (Call::Run {
                prog: "zfs"@,
                args: seq!["list"@, "-H"@, "-o"@, "name"@, a],
            }) && effects::succeeded(w, n)
            &&& end.calls[n + 1] == (Call::Run {
                prog: "zfs"@,
                args: seq!["list"@, "-H"@, "-o"@, "name"@, b],
            }) && effects::succeeded(w, n + 1)
            &&& end.calls[n + 2] == effects::get_call(a, "zboot:mirror"@)
            &&& effects::succeeded(w, n + 2) && model::pair_of(
                text::trimmed((w.replies)((n + 2) as nat).stdout),
            ) is None
        }),
{
    reveal(check_pair_does);
    reveal(verify_compatible_does);
    reveal(zfs_ops::guid_set_does);
    reveal(zfs_ops::list_snapshots_does);
    reveal(zfs_ops::dataset_exists_does);
    reveal(zfs_ops::dataset_property_does);
}

} // verus!
