//! `mirror`: push every primary boot environment to its peer, and to all that
//! track it.

use vstd::prelude::*;

use crate::cmd::push;
use crate::effects;
use crate::error;
use crate::error::Error;
use crate::model;
use crate::model::PairPointer;
use crate::order;
use crate::order::Keyed;
use crate::sub;
use crate::sub::{Call, Runner, World};
use crate::text;
use crate::walk;
use crate::zfs_ops;
use crate::zfs_ops::Snaps;

verus! {

/// Arguments of `mirror`.
#[derive(Debug)]
pub struct MirrorArgs {
    /// Destroy the snapshots that a destination alone holds, each time after
    /// its name has been typed.
    pub force: bool,
}

/// How a push to one destination ended.
#[derive(Debug, Clone, Copy, PartialEq, Eq, Structural)]
pub enum PushOutcome {
    Synced,
    NoOp,
    /// The destination diverged, and nothing was forced.
    Refused,
}

impl DeepView for PushOutcome {
    type V = PushOutcome;

    open spec fn deep_view(&self) -> PushOutcome {
        *self
    }
}

/// What is counted: how a push ended, or that there was none.
#[derive(Debug, Clone, Copy, PartialEq, Eq, Structural)]
pub enum End {
    Synced,
    NoOp,
    Refused,
    Skipped,
}

impl DeepView for End {
    type V = End;

    open spec fn deep_view(&self) -> End {
        *self
    }
}

// ---------------------------------------------------------------------------
// Who is pushed, and where to
// ---------------------------------------------------------------------------

/// In ascending order.
pub open spec fn in_order(names: Seq<Seq<char>>) -> Seq<Seq<char>> {
    order::sorted(names, |x: Seq<char>| x)
}

/// Sorts names in ascending order.
pub fn sort_names(v: Vec<String>) -> (r: Vec<String>)
    ensures
        r.deep_view() == in_order(v.deep_view()),
{
    proof {
        let f = |x: Seq<char>| <String as Keyed>::key_of(x);
        let g = |x: Seq<char>| x;
        assert(f =~= g);
    }
    order::sort(v)
}

/// The primary boot environments of the imported root pools.
pub open spec fn primaries_does(w: World) -> (World, Result<Seq<Seq<char>>, Seq<char>>) {
    let (w1, got) = walk::property_table_does(w, "zboot:primary"@);
    (
        w1,
        match got {
            Err(m) => Err(m),
            Ok(rows) => Ok(in_order(walk::holders(rows, "on"@))),
        },
    )
}

fn list_primary_bes<R: Runner>(r: &mut R) -> (res: Result<Vec<String>, Error>)
    ensures
        sub::did(final(r).world(), res) == primaries_does(old(r).world()),
{
    match walk::property_table(r, "zboot:primary") {
        Err(e) => Err(e),
        Ok(rows) => Ok(sort_names(walk::find_holders(&rows, "on"))),
    }
}

/// `have`, and those whose pointer reads `shown`: all but `primary`, each
/// once.
pub open spec fn with_trackers(
    have: Seq<Seq<char>>,
    rows: Snaps,
    shown: Seq<char>,
    primary: Seq<char>,
) -> Seq<Seq<char>>
    decreases rows.len(),
{
    if rows.len() == 0 {
        have
    } else {
        let front = with_trackers(have, rows.drop_last(), shown, primary);
        let name = rows.last().0;
        if rows.last().1 == shown && name != primary && !front.contains(name) {
            front.push(name)
        } else {
            front
        }
    }
}

fn add_trackers(
    have: Vec<String>,
    rows: &Vec<(String, String)>,
    shown: &str,
    primary: &str,
) -> (r: Vec<String>)
    ensures
        r.deep_view() == with_trackers(have.deep_view(), rows.deep_view(), shown@, primary@),
{
    let ghost all = rows.deep_view();
    let ghost before = have.deep_view();
    let mut out: Vec<String> = have;
    let mut i: usize = 0;
    assert(out.deep_view() =~= with_trackers(before, all.take(0), shown@, primary@));
    while i < rows.len()
        invariant
            i <= rows@.len(),
            all == rows.deep_view(),
            out.deep_view() == with_trackers(before, all.take(i as int), shown@, primary@),
        decreases rows@.len() - i,
    {
        proof {
            assert(all.take(i + 1).drop_last() =~= all.take(i as int));
            assert(all.take(i + 1).last() == rows@[i as int].deep_view());
        }
        let name: &str = rows[i].0.as_str();
        if text::eq(rows[i].1.as_str(), shown) && !text::eq(name, primary) && !text::any_eq(
            &out,
            name,
        ) {
            text::push_text(&mut out, name);
        }
        i = i + 1;
    }
    assert(all.take(i as int) =~= all);
    out
}

/// The pointer at a boot environment, as it is written; empty where its
/// dataset is not in the usual place.
pub open spec fn pointer_at(ds: Seq<char>) -> Seq<char> {
    match model::pair_of(ds) {
        Some(k) => model::pair_text(k),
        None => seq![],
    }
}

/// The peer of a boot environment, where it is there.
pub open spec fn peer_does(w: World, primary: Seq<char>) -> (World, Result<
    Seq<Seq<char>>,
    Seq<char>,
>) {
    let (w1, peer) = zfs_ops::read_pair_pointer_does(w, primary);
    match peer {
        Err(m) => (w1, Err(m)),
        Ok(None) => (w1, Ok(seq![])),
        Ok(Some(k)) => {
            let ds = model::pair_text(k);
            let (w2, there) = zfs_ops::dataset_exists_does(w1, ds);
            if zfs_ops::exists_or_not(there) {
                (w2, Ok(seq![ds]))
            } else {
                (w2, Ok(seq![]))
            }
        },
    }
}

fn find_peer<R: Runner>(r: &mut R, primary: &str) -> (res: Result<Vec<String>, Error>)
    ensures
        sub::did(final(r).world(), res) == peer_does(old(r).world(), primary@),
{
    let mut out: Vec<String> = Vec::new();
    match zfs_ops::read_pair_pointer(r, primary) {
        Err(e) => return Err(e),
        Ok(None) => {},
        Ok(Some(k)) => {
            let ds: String = k.render();
            if zfs_ops::is_there(r, ds.as_str()) {
                out.push(ds);
                assert(out.deep_view() =~= seq![ds@]);
                return Ok(out);
            }
        },
    }
    assert(out.deep_view() =~= seq![]);
    Ok(out)
}

/// Where a primary boot environment is pushed to.
#[verifier::opaque]
pub open spec fn targets_does(w: World, primary: Seq<char>) -> (World, Result<
    Seq<Seq<char>>,
    Seq<char>,
>) {
    let (w1, peer) = peer_does(w, primary);
    match peer {
        Err(m) => (w1, Err(m)),
        Ok(have) => {
            let (w2, got) = walk::property_table_does(w1, "zboot:mirror"@);
            (
                w2,
                match got {
                    Err(m) => Err(m),
                    Ok(rows) => Ok(
                        in_order(with_trackers(have, rows, pointer_at(primary), primary)),
                    ),
                },
            )
        },
    }
}

fn list_outgoing_targets<R: Runner>(r: &mut R, primary: &str) -> (res: Result<Vec<String>, Error>)
    ensures
        sub::did(final(r).world(), res) == targets_does(old(r).world(), primary@),
{
    proof {
        reveal(targets_does);
    }
    let shown: String = match PairPointer::parse_dataset(primary) {
        Some(k) => k.render(),
        None => String::new(),
    };
    assert(shown@ =~= pointer_at(primary@));
    let have = match find_peer(r, primary) {
        Err(e) => return Err(e),
        Ok(v) => v,
    };
    match walk::property_table(r, "zboot:mirror") {
        Err(e) => Err(e),
        Ok(rows) => Ok(sort_names(add_trackers(have, &rows, shown.as_str(), primary))),
    }
}

// ---------------------------------------------------------------------------
// One push
// ---------------------------------------------------------------------------

/// The destination is not mounted and writable.
#[verifier::opaque]
pub open spec fn refuse_mounted_does(w: World, dst: Seq<char>, there: bool) -> (World, Result<
    (),
    Seq<char>,
>) {
    if !there {
        (w, Ok(()))
    } else {
        let (w1, mounted) = zfs_ops::is_mounted_does(w, dst);
        if !mounted {
            (w1, Ok(()))
        } else {
            let (w2, ro) = zfs_ops::dataset_property_does(w1, dst, "readonly"@);
            if push::reads_on(ro) {
                (w2, Ok(()))
            } else {
                (w2, Err("dest "@ + dst + " is mounted+rw"@))
            }
        }
    }
}

fn refuse_mounted<R: Runner>(r: &mut R, dst: &str, there: bool) -> (res: Result<(), Error>)
    ensures
        sub::did(final(r).world(), res) == refuse_mounted_does(old(r).world(), dst@, there),
{
    proof {
        reveal(refuse_mounted_does);
    }
    if !there {
        return Ok(());
    }
    if !zfs_ops::is_mounted(r, dst) {
        return Ok(());
    }
    if push::is_readonly(r, dst) {
        return Ok(());
    }
    Err(Error::from_text(text::cat3("dest ", dst, " is mounted+rw")))
}

/// What the destination alone holds: nothing, or it is refused (`false`), or
/// its loss has been confirmed.
#[verifier::opaque]
pub open spec fn check_divergence_does(
    w: World,
    src: Seq<char>,
    dst: Seq<char>,
    there: bool,
    force: bool,
) -> (World, Result<bool, Seq<char>>) {
    if !there {
        (w, Ok(true))
    } else {
        let (w1, got) = zfs_ops::snapshots_only_on_right_does(w, src, dst);
        match got {
            Err(m) => (w1, Err(sub::outermost(w1, m))),
            Ok(extras) => if extras.len() == 0 {
                (w1, Ok(true))
            } else if !force {
                (
                    w1.say(
                        "    refused: divergent ("@ + text::decimal(extras.len())
                            + " dest-only snapshots; pass --force to truncate)"@,
                    ),
                    Ok(false),
                )
            } else {
                let (w2, ok) = zfs_ops::confirm_truncate_does(
                    w1,
                    "mirror --force will destroy these snapshots on "@ + dst,
                    dst,
                    extras,
                );
                (
                    w2,
                    match ok {
                        Err(m) => Err(sub::outermost(w2, m)),
                        Ok(()) => Ok(true),
                    },
                )
            },
        }
    }
}

fn check_divergence<R: Runner>(r: &mut R, src: &str, dst: &str, there: bool, force: bool) -> (res:
    Result<bool, Error>)
    ensures
        sub::did(final(r).world(), res) == check_divergence_does(
            old(r).world(),
            src@,
            dst@,
            there,
            force,
        ),
{
    proof {
        reveal(check_divergence_does);
    }
    if !there {
        return Ok(true);
    }
    let extras = match zfs_ops::snapshots_only_on_right(r, src, dst) {
        Err(e) => return Err(e.front()),
        Ok(v) => v,
    };
    if extras.len() == 0 {
        return Ok(true);
    }
    if !force {
        let n: String = text::dec_len(extras.len());
        let line: String = text::cat3(
            "    refused: divergent (",
            n.as_str(),
            " dest-only snapshots; pass --force to truncate)",
        );
        r.say(line.as_str());
        return Ok(false);
    }
    let label: String = text::cat2("mirror --force will destroy these snapshots on ", dst);
    match zfs_ops::confirm_destructive_truncate(r, label.as_str(), dst, &extras) {
        Err(e) => Err(e.front()),
        Ok(()) => Ok(true),
    }
}

/// What stands behind the first `@`.
pub open spec fn leaf(anchor: Seq<char>) -> Seq<char> {
    anchor.skip(text::position(anchor, '@') + 1)
}

/// Takes a fresh anchor on the source, and makes room for it on the
/// destination's pool.
#[verifier::opaque]
pub open spec fn anchor_does(w: World, src: Seq<char>, dst: Seq<char>, there: bool) -> (
    World,
    Result<Seq<char>, Seq<char>>,
) {
    let anchor = src + "@"@ + zfs_ops::anchor_name(w.reply().nanos as nat);
    let (w1, taken) = zfs_ops::take_snapshot_does(w.after(Call::Clock), src, leaf(anchor));
    match taken {
        Err(_) => (w1, Err("snapshot source"@)),
        Ok(_) => if there {
            (w1, Ok(anchor))
        } else {
            let (w2, made) = zfs_ops::ensure_root_container_does(w1, text::before(dst, '/'));
            (
                w2,
                match made {
                    Err(_) => Err("creating ROOT container "@ + text::before(dst, '/') + "/ROOT"@),
                    Ok(()) => Ok(anchor),
                },
            )
        },
    }
}

fn take_anchor<R: Runner>(r: &mut R, src: &str, dst: &str, there: bool) -> (res: Result<
    String,
    Error,
>)
    ensures
        sub::did(final(r).world(), res) == anchor_does(old(r).world(), src@, dst@, there),
        res matches Ok(a) ==> a@.contains('@'),
{
    proof {
        reveal(anchor_does);
        reveal_strlit("@");
    }
    let name: String = zfs_ops::fresh_anchor_name(r);
    let anchor: String = text::cat3(src, "@", name.as_str());
    proof {
        assert(anchor@[src@.len() as int] == '@');
        text::lemma_position(anchor@, '@');
    }
    if let Some((_, leaf)) = text::split_once(anchor.as_str(), '@') {
        match zfs_ops::take_snapshot(r, src, leaf) {
            Err(_) => return Err(Error::new("snapshot source")),
            Ok(_) => {},
        }
    }
    if !there {
        match zfs_ops::ensure_root_container(r, text::head(dst, '/')) {
            Err(_) => {
                return Err(
                    Error::from_text(
                        text::cat3("creating ROOT container ", text::head(dst, '/'), "/ROOT"),
                    ),
                );
            },
            Ok(()) => {},
        }
    }
    Ok(anchor)
}

/// The outcome of the last call, with no more of an error than stands in front.
pub open spec fn in_front(w: World, done: Result<(), Seq<char>>) -> Result<(), Seq<char>> {
    match done {
        Err(m) => Err(sub::outermost(w, m)),
        Ok(()) => Ok(()),
    }
}

fn front_of(done: Result<(), Error>) -> (r: Result<(), Error>)
    ensures
        match done {
            Err(e) => error::outcome(r) == Err::<(), Seq<char>>(e.outermost@),
            Ok(()) => r is Ok,
        },
{
    match done {
        Err(e) => Err(e.front()),
        Ok(()) => Ok(()),
    }
}

/// Moves the data: nothing to move (`None`), or how it went.
#[verifier::opaque]
pub open spec fn send_does(
    w: World,
    src: Seq<char>,
    dst: Seq<char>,
    anchor: Seq<char>,
    there: bool,
) -> (World, Result<Option<Result<(), Seq<char>>>, Seq<char>>) {
    let (w1, prev) = if there {
        zfs_ops::previous_anchor_on_dest_does(w, src, dst)
    } else {
        (w, Ok(None))
    };
    match prev {
        Err(m) => (w1, Err(sub::outermost(w1, m))),
        Ok(Some(p)) => if p == anchor {
            (w1, Ok(None))
        } else {
            let (w2, sent) = zfs_ops::send_incremental_does(w1, p, anchor, dst);
            (w2, Ok(Some(in_front(w2, sent))))
        },
        Ok(None) => {
            let (w2, sent) = zfs_ops::send_full_does(w1, anchor, dst);
            (w2, Ok(Some(in_front(w2, sent))))
        },
    }
}

/// How a transfer went, by what it returned.
pub open spec fn went(r: Result<Option<Result<(), Error>>, Error>) -> Result<
    Option<Result<(), Seq<char>>>,
    Seq<char>,
> {
    match r {
        Err(e) => Err(e@),
        Ok(None) => Ok(None),
        Ok(Some(sent)) => Ok(Some(error::outcome(sent))),
    }
}

fn send<R: Runner>(r: &mut R, src: &str, dst: &str, anchor: &str, there: bool) -> (res: Result<
    Option<Result<(), Error>>,
    Error,
>)
    ensures
        (final(r).world(), went(res)) == send_does(
            old(r).world(),
            src@,
            dst@,
            anchor@,
            there,
        ),
{
    proof {
        reveal(send_does);
    }
    let prev: Option<String> = if there {
        match zfs_ops::previous_anchor_on_dest(r, src, dst) {
            Err(e) => return Err(e.front()),
            Ok(p) => p,
        }
    } else {
        None
    };
    match prev {
        Some(p) => {
            if text::eq(p.as_str(), anchor) {
                return Ok(None);
            }
            Ok(Some(front_of(zfs_ops::send_recv_incremental(r, p.as_str(), anchor, dst))))
        },
        None => Ok(Some(front_of(zfs_ops::send_recv_full(r, anchor, dst)))),
    }
}

/// What follows the transfer.
#[verifier::opaque]
pub open spec fn settle_does(
    w: World,
    src: Seq<char>,
    dst: Seq<char>,
    anchor: Seq<char>,
    sent: Option<Result<(), Seq<char>>>,
    was_readonly: bool,
) -> (World, Result<PushOutcome, Seq<char>>) {
    match sent {
        None => (push::prune_both_does(w, src, dst, anchor), Ok(PushOutcome::NoOp)),
        Some(Err(m)) => (
            if was_readonly {
                zfs_ops::set_property_does(w, dst, "readonly"@, "on"@).0
            } else {
                w
            },
            Err(m),
        ),
        Some(Ok(())) => {
            let (w1, a) = zfs_ops::set_be_contract_does(w, dst);
            match a {
                Err(m) => (w1, Err(sub::outermost(w1, m))),
                Ok(()) => {
                    let (w2, b) = zfs_ops::set_property_does(w1, dst, "readonly"@, "on"@);
                    match b {
                        Err(m) => (w2, Err(sub::outermost(w2, m))),
                        Ok(()) => (
                            push::prune_both_does(w2, src, dst, anchor),
                            Ok(PushOutcome::Synced),
                        ),
                    }
                },
            }
        },
    }
}

fn settle<R: Runner>(
    r: &mut R,
    src: &str,
    dst: &str,
    anchor: &str,
    sent: Option<Result<(), Error>>,
    was_readonly: bool,
) -> (res: Result<PushOutcome, Error>)
    requires
        anchor@.contains('@'),
    ensures
        sub::did(final(r).world(), res) == settle_does(
            old(r).world(),
            src@,
            dst@,
            anchor@,
            match sent {
                None => None,
                Some(s) => Some(error::outcome(s)),
            },
            was_readonly,
        ),
{
    proof {
        reveal(settle_does);
    }
    match sent {
        None => {
            push::prune_both(r, src, dst, anchor);
            Ok(PushOutcome::NoOp)
        },
        Some(Err(e)) => {
            if was_readonly {
                let _ = zfs_ops::set_readonly_tolerant(r, dst, "on");
            }
            Err(e)
        },
        Some(Ok(())) => {
            match zfs_ops::set_be_contract(r, dst) {
                Err(e) => return Err(e.front()),
                Ok(()) => {},
            }
            match zfs_ops::set_readonly_tolerant(r, dst, "on") {
                Err(e) => return Err(e.front()),
                Ok(()) => {},
            }
            push::prune_both(r, src, dst, anchor);
            Ok(PushOutcome::Synced)
        },
    }
}

/// The transfer to one destination.
#[verifier::opaque]
pub open spec fn transfer_does(w: World, src: Seq<char>, dst: Seq<char>, there: bool) -> (
    World,
    Result<PushOutcome, Seq<char>>,
) {
    let (w1, taken) = anchor_does(w, src, dst, there);
    match taken {
        Err(m) => (w1, Err(m)),
        Ok(anchor) => {
            let (w2, opened) = push::open_dest_does(w1, dst, there);
            match opened {
                Err(m) => (w2, Err(sub::outermost(w2, m))),
                Ok(was_readonly) => {
                    let (w3, sent) = send_does(w2, src, dst, anchor, there);
                    match sent {
                        Err(m) => (w3, Err(m)),
                        Ok(s) => settle_does(w3, src, dst, anchor, s, was_readonly),
                    }
                },
            }
        },
    }
}

fn transfer<R: Runner>(r: &mut R, src: &str, dst: &str, there: bool) -> (res: Result<
    PushOutcome,
    Error,
>)
    ensures
        sub::did(final(r).world(), res) == transfer_does(old(r).world(), src@, dst@, there),
{
    proof {
        reveal(transfer_does);
    }
    let anchor: String = match take_anchor(r, src, dst, there) {
        Err(e) => return Err(e),
        Ok(a) => a,
    };
    let was_readonly: bool = match push::open_dest(r, dst, there) {
        Err(e) => return Err(e.front()),
        Ok(b) => b,
    };
    match send(r, src, dst, anchor.as_str(), there) {
        Err(e) => Err(e),
        Ok(sent) => settle(r, src, dst, anchor.as_str(), sent, was_readonly),
    }
}

/// Pushes one boot environment to one destination.
#[verifier::opaque]
pub open spec fn push_one_pair_does(w: World, src: Seq<char>, dst: Seq<char>, force: bool) -> (
    World,
    Result<PushOutcome, Seq<char>>,
) {
    let (w1, found) = zfs_ops::dataset_exists_does(w, dst);
    let there = zfs_ops::exists_or_not(found);
    let (w2, free) = refuse_mounted_does(w1, dst, there);
    match free {
        Err(m) => (w2, Err(m)),
        Ok(()) => {
            let (w3, go) = check_divergence_does(w2, src, dst, there, force);
            match go {
                Err(m) => (w3, Err(m)),
                Ok(b) => if b {
                    transfer_does(w3, src, dst, there)
                } else {
                    (w3, Ok(PushOutcome::Refused))
                },
            }
        },
    }
}

/// Pushes one boot environment to one destination.
pub fn push_one_pair<R: Runner>(r: &mut R, src: &str, dst: &str, force: bool) -> (res: Result<
    PushOutcome,
    Error,
>)
    ensures
        sub::did(final(r).world(), res) == push_one_pair_does(
            old(r).world(),
            src@,
            dst@,
            force,
        ),
{
    proof {
        reveal(push_one_pair_does);
    }
    let there: bool = zfs_ops::is_there(r, dst);
    match refuse_mounted(r, dst, there) {
        Err(e) => return Err(e),
        Ok(()) => {},
    }
    match check_divergence(r, src, dst, there, force) {
        Err(e) => Err(e),
        Ok(b) => if b {
            transfer(r, src, dst, there)
        } else {
            Ok(PushOutcome::Refused)
        },
    }
}

// ---------------------------------------------------------------------------
// All pushes
// ---------------------------------------------------------------------------

/// Pushes to one destination, and says how that ended.
pub open spec fn pair_does(w: World, src: Seq<char>, dst: Seq<char>, force: bool) -> (World, End) {
    let (w1, res) = push_one_pair_does(w.say("  "@ + src + " → "@ + dst), src, dst, force);
    match res {
        Ok(PushOutcome::Synced) => (w1.say("    synced"@), End::Synced),
        Ok(PushOutcome::NoOp) => (w1.say("    no-op"@), End::NoOp),
        Ok(PushOutcome::Refused) => (w1, End::Refused),
        Err(m) => (w1.say("    skipped: "@ + m), End::Skipped),
    }
}

fn push_pair<R: Runner>(r: &mut R, src: &str, dst: &str, force: bool) -> (res: End)
    ensures
        (final(r).world(), res) == pair_does(old(r).world(), src@, dst@, force),
{
    let line: String = text::cat4("  ", src, " → ", dst);
    r.say(line.as_str());
    match push_one_pair(r, src, dst, force) {
        Ok(PushOutcome::Synced) => {
            r.say("    synced");
            End::Synced
        },
        Ok(PushOutcome::NoOp) => {
            r.say("    no-op");
            End::NoOp
        },
        Ok(PushOutcome::Refused) => End::Refused,
        Err(e) => {
            let line: String = text::cat2("    skipped: ", e.message.as_str());
            r.say(line.as_str());
            End::Skipped
        },
    }
}

/// Pushes to each of the destinations.
pub open spec fn pairs_does(w: World, src: Seq<char>, dsts: Seq<Seq<char>>, force: bool) -> (
    World,
    Seq<End>,
)
    decreases dsts.len(),
{
    if dsts.len() == 0 {
        (w, seq![])
    } else {
        let (w1, front) = pairs_does(w, src, dsts.drop_last(), force);
        let (w2, end) = pair_does(w1, src, dsts.last(), force);
        (w2, front.push(end))
    }
}

fn push_pairs<R: Runner>(
    r: &mut R,
    src: &str,
    dsts: &Vec<String>,
    force: bool,
    ends: &mut Vec<End>,
)
    ensures
        ({
            let (w, more) = pairs_does(old(r).world(), src@, dsts.deep_view(), force);
            final(r).world() == w && final(ends)@ == old(ends)@ + more
        }),
{
    let ghost all = dsts.deep_view();
    let ghost before = ends@;
    let mut i: usize = 0;
    assert(all.take(0) =~= seq![]);
    assert(ends@ =~= before + seq![]);
    while i < dsts.len()
        invariant
            i <= dsts@.len(),
            all == dsts.deep_view(),
            r.world() == pairs_does(old(r).world(), src@, all.take(i as int), force).0,
            ends@ == before + pairs_does(old(r).world(), src@, all.take(i as int), force).1,
        decreases dsts@.len() - i,
    {
        proof {
            assert(all.take(i + 1).drop_last() =~= all.take(i as int));
            assert(all.take(i + 1).last() == dsts@[i as int]@);
        }
        let ghost front = pairs_does(old(r).world(), src@, all.take(i as int), force).1;
        let end = push_pair(r, src, dsts[i].as_str(), force);
        ends.push(end);
        assert((before + front).push(end) =~= before + front.push(end));
        i = i + 1;
    }
    assert(all.take(i as int) =~= all);
}

/// Pushes one primary boot environment everywhere it goes.
#[verifier::opaque]
pub open spec fn primary_does(w: World, primary: Seq<char>, force: bool) -> (World, Result<
    Seq<End>,
    Seq<char>,
>) {
    let (w1, got) = targets_does(w, primary);
    match got {
        Err(m) => (w1, Err(m)),
        Ok(dsts) => if dsts.len() == 0 {
            (
                w1.say(
                    "  "@ + primary
                        + ": no peers (Mirror unset and no incoming trackers); skip"@,
                ),
                Ok(seq![End::Skipped]),
            )
        } else {
            let (w2, ends) = pairs_does(w1, primary, dsts, force);
            (w2, Ok(ends))
        },
    }
}

/// Pushes each of the primary boot environments.
pub open spec fn all_does(w: World, primaries: Seq<Seq<char>>, force: bool) -> (World, Result<
    Seq<End>,
    Seq<char>,
>)
    decreases primaries.len(),
{
    if primaries.len() == 0 {
        (w, Ok(seq![]))
    } else {
        let (w1, first) = primary_does(w, primaries[0], force);
        match first {
            Err(m) => (w1, Err(m)),
            Ok(ends) => {
                let (w2, rest) = all_does(w1, primaries.drop_first(), force);
                (
                    w2,
                    match rest {
                        Err(m) => Err(m),
                        Ok(more) => Ok(ends + more),
                    },
                )
            },
        }
    }
}

fn push_primary<R: Runner>(r: &mut R, primary: &str, force: bool, ends: &mut Vec<End>) -> (res:
    Result<(), Error>)
    ensures
        ({
            let (w, out) = primary_does(old(r).world(), primary@, force);
            &&& final(r).world() == w
            &&& match out {
                Err(m) => error::outcome(res) == Err::<(), Seq<char>>(m),
                Ok(more) => res is Ok && final(ends)@ == old(ends)@ + more,
            }
        }),
{
    proof {
        reveal(primary_does);
    }
    let dsts = match list_outgoing_targets(r, primary) {
        Err(e) => return Err(e),
        Ok(v) => v,
    };
    if dsts.len() == 0 {
        let line: String = text::cat3(
            "  ",
            primary,
            ": no peers (Mirror unset and no incoming trackers); skip",
        );
        r.say(line.as_str());
        let ghost before = ends@;
        ends.push(End::Skipped);
        assert(ends@ =~= before + seq![End::Skipped]);
        return Ok(());
    }
    push_pairs(r, primary, &dsts, force, ends);
    Ok(())
}

fn push_all<R: Runner>(
    r: &mut R,
    primaries: &Vec<String>,
    i: usize,
    force: bool,
    ends: &mut Vec<End>,
) -> (res: Result<(), Error>)
    requires
        i <= primaries@.len(),
    ensures
        ({
            let (w, out) = all_does(
                old(r).world(),
                primaries.deep_view().skip(i as int),
                force,
            );
            &&& final(r).world() == w
            &&& match out {
                Err(m) => error::outcome(res) == Err::<(), Seq<char>>(m),
                Ok(more) => res is Ok && final(ends)@ == old(ends)@ + more,
            }
        }),
    decreases primaries@.len() - i,
{
    let ghost before = ends@;
    if i == primaries.len() {
        assert(before =~= before + seq![]);
        return Ok(());
    }
    let ghost rest = primaries.deep_view().skip(i as int);
    proof {
        assert(rest[0] == primaries@[i as int]@);
        assert(rest.drop_first() =~= primaries.deep_view().skip(i + 1));
    }
    let ghost w = r.world();
    match push_primary(r, primaries[i].as_str(), force, ends) {
        Err(e) => return Err(e),
        Ok(()) => {},
    }
    let ghost first = primary_does(w, rest[0], force).1->Ok_0;
    let ghost w1 = r.world();
    let res = push_all(r, primaries, i + 1, force, ends);
    proof {
        if let Ok(more) = all_does(w1, rest.drop_first(), force).1 {
            assert(before + first + more =~= before + (first + more));
        }
    }
    res
}

/// How many of the pushes ended so.
pub open spec fn ended(ends: Seq<End>, e: End) -> nat
    decreases ends.len(),
{
    if ends.len() == 0 {
        0
    } else {
        ended(ends.drop_last(), e) + (if ends.last() == e {
            1nat
        } else {
            0
        })
    }
}

fn count_ended(ends: &Vec<End>, e: End) -> (n: usize)
    ensures
        n == ended(ends@, e),
{
    let mut n: usize = 0;
    let mut i: usize = 0;
    while i < ends.len()
        invariant
            n <= i <= ends@.len(),
            n == ended(ends@.take(i as int), e),
        decreases ends@.len() - i,
    {
        proof {
            assert(ends@.take(i + 1).drop_last() =~= ends@.take(i as int));
        }
        if ends[i] == e {
            n = n + 1;
        }
        i = i + 1;
    }
    assert(ends@.take(i as int) =~= ends@);
    n
}

/// The last line: how many pushes ended which way.
pub open spec fn summary_line(ends: Seq<End>) -> Seq<char> {
    "=== mirror summary: synced="@ + text::decimal(ended(ends, End::Synced)) + " no-op="@
        + text::decimal(ended(ends, End::NoOp)) + " refused="@ + text::decimal(
        ended(ends, End::Refused),
    ) + " skipped="@ + text::decimal(ended(ends, End::Skipped)) + " ==="@
}

fn summary(ends: &Vec<End>) -> (r: String)
    ensures
        r@ == summary_line(ends@),
{
    let a: String = text::dec_len(count_ended(ends, End::Synced));
    let b: String = text::dec_len(count_ended(ends, End::NoOp));
    let c: String = text::dec_len(count_ended(ends, End::Refused));
    let d: String = text::dec_len(count_ended(ends, End::Skipped));
    text::cat9(
        "=== mirror summary: synced=",
        a.as_str(),
        " no-op=",
        b.as_str(),
        " refused=",
        c.as_str(),
        " skipped=",
        d.as_str(),
        " ===",
    )
}

/// What `mirror` does.
pub open spec fn run_does(w: World, force: bool) -> (World, Result<(), Seq<char>>) {
    let (w1, got) = primaries_does(w);
    match got {
        Err(m) => (w1, Err(m)),
        Ok(ps) => if ps.len() == 0 {
            (
                w1.say(
                    "mirror: no BEs with zboot:primary=on found across imported root pools."@,
                ),
                Ok(()),
            )
        } else {
            let w2 = w1.say(
                "=== mirror: walking "@ + text::decimal(ps.len()) + " primary BE(s) ==="@,
            );
            let (w3, out) = all_does(w2, ps, force);
            match out {
                Err(m) => (w3, Err(m)),
                Ok(ends) => (w3.say(""@).say(summary_line(ends)), Ok(())),
            }
        },
    }
}

/// `mirror`: pushes every primary boot environment everywhere it goes.
pub fn run<R: Runner>(r: &mut R, args: &MirrorArgs) -> (res: Result<(), Error>)
    ensures
        sub::did(final(r).world(), res) == run_does(old(r).world(), args.force),
{
    let ps = match list_primary_bes(r) {
        Err(e) => return Err(e),
        Ok(v) => v,
    };
    if ps.len() == 0 {
        r.say("mirror: no BEs with zboot:primary=on found across imported root pools.");
        return Ok(());
    }
    let n: String = text::dec_len(ps.len());
    let line: String = text::cat3("=== mirror: walking ", n.as_str(), " primary BE(s) ===");
    r.say(line.as_str());
    let mut ends: Vec<End> = Vec::new();
    assert(ps.deep_view().skip(0) =~= ps.deep_view());
    let ghost w2 = r.world();
    match push_all(r, &ps, 0, args.force, &mut ends) {
        Err(e) => return Err(e),
        Ok(()) => {},
    }
    proof {
        let more = all_does(w2, ps.deep_view(), args.force).1->Ok_0;
        assert(Seq::<End>::empty() + more =~= more);
    }
    r.say("");
    let last: String = summary(&ends);
    r.say(last.as_str());
    Ok(())
}

// ---------------------------------------------------------------------------
// Laws
// ---------------------------------------------------------------------------

/// A destination that diverged is refused unless forced, and nothing changes.
pub proof fn law_divergence_is_refused(
    w: World,
    src: Seq<char>,
    dst: Seq<char>,
    extras: Seq<Seq<char>>,
)
    requires
        zfs_ops::snapshots_only_on_right_does(w, src, dst).1 == Ok::<Seq<Seq<char>>, Seq<char>>(
            extras,
        ),
        extras.len() > 0,
    ensures
        check_divergence_does(w, src, dst, true, false).1 == Ok::<bool, Seq<char>>(false),
        sub::only_looked(w, check_divergence_does(w, src, dst, true, false).0),
{
    reveal(check_divergence_does);
    zfs_ops::lemma_only_on_right_looks(w, src, dst);
}

/// A boot environment is never pushed to itself as a tracker, and to none
/// twice.
pub proof fn law_trackers(
    have: Seq<Seq<char>>,
    rows: Snaps,
    shown: Seq<char>,
    primary: Seq<char>,
)
    requires
        have.no_duplicates(),
    ensures
        with_trackers(have, rows, shown, primary).no_duplicates(),
        !have.contains(primary) ==> !with_trackers(have, rows, shown, primary).contains(primary),
    decreases rows.len(),
{
    if rows.len() > 0 {
        law_trackers(have, rows.drop_last(), shown, primary);
        let front = with_trackers(have, rows.drop_last(), shown, primary);
        let all = with_trackers(have, rows, shown, primary);
        if all != front {
            assert forall|i: int, j: int|
                0 <= i < all.len() && 0 <= j < all.len() && i != j implies all[i] != all[j] by {
                if i == all.len() - 1 {
                    assert(front[j] == all[j]);
                } else if j == all.len() - 1 {
                    assert(front[i] == all[i]);
                }
            }
            if all.contains(primary) {
                let k = choose|k: int| 0 <= k < all.len() && all[k] == primary;
                assert(k < front.len() ==> front[k] == primary);
            }
        }
    }
}

/// Every push is counted once.
pub proof fn law_counts_add_up(ends: Seq<End>)
    ensures
        ended(ends, End::Synced) + ended(ends, End::NoOp) + ended(ends, End::Refused) + ended(
            ends,
            End::Skipped,
        ) == ends.len(),
    decreases ends.len(),
{
    if ends.len() > 0 {
        law_counts_add_up(ends.drop_last());
    }
}

proof fn lemma_divergence(
    w: World,
    src: Seq<char>,
    dst: Seq<char>,
    there: bool,
    force: bool,
    p: spec_fn(Call) -> bool,
)
    requires
        p(Call::Ask),
    ensures
        sub::did_only(w, check_divergence_does(w, src, dst, there, force).0, p),
{
    reveal(check_divergence_does);
    zfs_ops::lemma_only_on_right_looks(w, src, dst);
    let (w1, found) = zfs_ops::snapshots_only_on_right_does(w, src, dst);
    effects::lemma_looked(w, w1, p);
    if let Ok(extras) = found {
        let line = "    refused: divergent ("@ + text::decimal(extras.len())
            + " dest-only snapshots; pass --force to truncate)"@;
        effects::lemma_looked(w, w1.say(line), p);
        let label = "mirror --force will destroy these snapshots on "@ + dst;
        effects::lemma_confirm(w1, label, dst, extras, p);
        effects::lemma_then(
            w,
            w1,
            zfs_ops::confirm_truncate_does(w1, label, dst, extras).0,
            p,
        );
    }
}

proof fn lemma_anchor(
    w: World,
    src: Seq<char>,
    dst: Seq<char>,
    there: bool,
    p: spec_fn(Call) -> bool,
)
    requires
        effects::allows(p, src),
        effects::allows(p, text::before(dst, '/') + "/ROOT"@),
    ensures
        sub::did_only(w, anchor_does(w, src, dst, there).0, p),
{
    reveal(anchor_does);
    let anchor = src + "@"@ + zfs_ops::anchor_name(w.reply().nanos as nat);
    let w0 = w.after(Call::Clock);
    let w1 = zfs_ops::take_snapshot_does(w0, src, leaf(anchor)).0;
    effects::lemma_snapshot(w0, src, leaf(anchor), p);
    effects::lemma_then(w, w0, w1, p);
    let pool = text::before(dst, '/');
    effects::lemma_container(w1, pool, p);
    effects::lemma_then(w, w1, zfs_ops::ensure_root_container_does(w1, pool).0, p);
}

proof fn lemma_send(
    w: World,
    src: Seq<char>,
    dst: Seq<char>,
    anchor: Seq<char>,
    there: bool,
    p: spec_fn(Call) -> bool,
)
    requires
        effects::allows(p, dst),
    ensures
        sub::did_only(w, send_does(w, src, dst, anchor, there).0, p),
{
    reveal(send_does);
    let (w1, prev) = if there {
        zfs_ops::previous_anchor_on_dest_does(w, src, dst)
    } else {
        (w, Ok(None))
    };
    effects::lemma_previous_looks(w, src, dst);
    effects::lemma_looked(w, w1, p);
    match prev {
        Err(_) => {},
        Ok(Some(from)) => {
            push::lemma_sends(w1, from, anchor, dst, p);
            effects::lemma_then(
                w,
                w1,
                zfs_ops::send_incremental_does(w1, from, anchor, dst).0,
                p,
            );
        },
        Ok(None) => {
            push::lemma_sends(w1, anchor, anchor, dst, p);
            effects::lemma_then(w, w1, zfs_ops::send_full_does(w1, anchor, dst).0, p);
        },
    }
}

proof fn lemma_settle(
    w: World,
    src: Seq<char>,
    dst: Seq<char>,
    anchor: Seq<char>,
    sent: Option<Result<(), Seq<char>>>,
    was_readonly: bool,
    p: spec_fn(Call) -> bool,
)
    requires
        effects::allows(p, src),
        effects::allows(p, dst),
    ensures
        sub::did_only(w, settle_does(w, src, dst, anchor, sent, was_readonly).0, p),
        settle_does(w, src, dst, anchor, sent, was_readonly).1 == Ok::<PushOutcome, Seq<char>>(
            PushOutcome::Synced,
        ) ==> {
            let end = settle_does(w, src, dst, anchor, sent, was_readonly).0;
            effects::took_contract(w, end, dst) && effects::took(w, end, dst, "readonly"@, "on"@)
        },
{
    reveal(settle_does);
    match sent {
        None => {
            push::lemma_prune_both(w, src, dst, anchor, p);
        },
        Some(Err(_)) => {
            effects::lemma_set(w, dst, "readonly"@, "on"@, p);
        },
        Some(Ok(())) => {
            let (w1, a) = zfs_ops::set_be_contract_does(w, dst);
            effects::lemma_contract(w, dst, p);
            let (w2, b) = zfs_ops::set_property_does(w1, dst, "readonly"@, "on"@);
            effects::lemma_set(w1, dst, "readonly"@, "on"@, p);
            effects::lemma_then(w, w1, w2, p);
            if a is Ok && b is Ok {
                let end = push::prune_both_does(w2, src, dst, anchor);
                push::lemma_prune_both(w2, src, dst, anchor, p);
                effects::lemma_then(w, w2, end, p);
                assert(sub::continues(w, w));
                effects::lemma_continues(w1, w2, end);
                effects::lemma_contract_within(w, w, w1, end, dst);
                effects::lemma_took_within(w, w1, w2, end, dst, "readonly"@, "on"@);
            }
        },
    }
}

proof fn lemma_pair(w: World, src: Seq<char>, dst: Seq<char>, force: bool)
    ensures
        ({
            let (end, res) = push_one_pair_does(w, src, dst, force);
            &&& sub::did_only(w, end, effects::replication(src, dst))
            &&& res == Ok::<PushOutcome, Seq<char>>(PushOutcome::Synced) ==> {
                effects::took_contract(w, end, dst) && effects::took(
                    w,
                    end,
                    dst,
                    "readonly"@,
                    "on"@,
                )
            }
        }),
{
    reveal(push_one_pair_does);
    reveal(refuse_mounted_does);
    reveal(transfer_does);
    let p = effects::replication(src, dst);
    let (w1, found) = zfs_ops::dataset_exists_does(w, dst);
    let there = zfs_ops::exists_or_not(found);
    zfs_ops::lemma_exists_looks(w, dst);
    let (w2, free) = refuse_mounted_does(w1, dst, there);
    zfs_ops::lemma_mounted_looks(w1, dst);
    zfs_ops::lemma_property_looks(zfs_ops::is_mounted_does(w1, dst).0, dst, "readonly"@);
    effects::lemma_looked(w, w2, p);
    let (w3, go) = check_divergence_does(w2, src, dst, there, force);
    lemma_divergence(w2, src, dst, there, force, p);
    effects::lemma_then(w, w2, w3, p);
    if go == Ok::<bool, Seq<char>>(true) {
        let (w4, taken) = anchor_does(w3, src, dst, there);
        lemma_anchor(w3, src, dst, there, p);
        effects::lemma_then(w, w3, w4, p);
        if let Ok(anchor) = taken {
            let (w5, opened) = push::open_dest_does(w4, dst, there);
            push::lemma_open_dest(w4, dst, there, p);
            effects::lemma_then(w, w4, w5, p);
            if let Ok(was_readonly) = opened {
                let (w6, sent) = send_does(w5, src, dst, anchor, there);
                lemma_send(w5, src, dst, anchor, there, p);
                effects::lemma_then(w, w5, w6, p);
                if let Ok(s) = sent {
                    let (end, res) = settle_does(w6, src, dst, anchor, s, was_readonly);
                    lemma_settle(w6, src, dst, anchor, s, was_readonly, p);
                    effects::lemma_then(w, w6, end, p);
                    assert(sub::continues(end, end));
                    if res == Ok::<PushOutcome, Seq<char>>(PushOutcome::Synced) {
                        effects::lemma_contract_within(w, w6, end, end, dst);
                        effects::lemma_took_within(w, w6, end, end, dst, "readonly"@, "on"@);
                    }
                }
            }
        }
    }
}

/// What the transfer did, by its outcome: a snapshot that was sent arrived; one
/// that was not is there already.
proof fn lemma_sent(
    a: World,
    w: World,
    src: Seq<char>,
    dst: Seq<char>,
    anchor: Seq<char>,
    there: bool,
)
    requires
        sub::continues(a, w),
        !there ==> exists|l: int|
            a.calls.len() <= l < w.calls.len() && #[trigger] effects::told_absent(w, l, dst),
    ensures
        ({
            let (end, sent) = send_does(w, src, dst, anchor, there);
            match sent {
                Ok(Some(Ok(_))) => effects::replicated(a, end, src, dst, anchor),
                Ok(None) => holds_already(a, end, src, dst, anchor),
                _ => true,
            }
        }),
{
    reveal(send_does);
    let (w1, prev) = if there {
        zfs_ops::previous_anchor_on_dest_does(w, src, dst)
    } else {
        (w, Ok(None))
    };
    effects::lemma_base_told(w, src, dst);
    effects::lemma_continues(a, w, w1);
    let n = w.calls.len() as int;
    match prev {
        Err(_) => {},
        Ok(Some(p)) => if p == anchor {
            assert(effects::base_told(w1, n, src, dst, Some(anchor)));
        } else {
            if zfs_ops::send_incremental_does(w1, p, anchor, dst).1 is Ok {
                effects::lemma_sent_on(a, w1, src, dst, p, anchor);
            }
        },
        Ok(None) => {
            let l = if there {
                n
            } else {
                choose|l: int|
                    a.calls.len() <= l < w.calls.len() && #[trigger] effects::told_absent(w, l, dst)
            };
            if zfs_ops::send_full_does(w1, anchor, dst).1 is Ok {
                effects::lemma_sent_whole(a, w1, l, src, dst, anchor, false);
            }
        },
    }
}

/// Between `a` and `b` both sides were listed, and the last snapshot that they
/// share is this one.
pub open spec fn holds_already(
    a: World,
    b: World,
    src: Seq<char>,
    dst: Seq<char>,
    snap: Seq<char>,
) -> bool {
    exists|n: int|
        a.calls.len() <= n && n + 1 < b.calls.len() && #[trigger] effects::base_told(
            b,
            n,
            src,
            dst,
            Some(snap),
        )
}

/// A push that ends as synced took a fresh anchor on the source and brought it
/// to the destination: from the last snapshot that both sides share, where
/// there is one, and else whole. One that ends with nothing to do took an
/// anchor that the destination has already. (No dataset has an `@` in its name.)
pub proof fn law_synced_has_arrived(w: World, src: Seq<char>, dst: Seq<char>, force: bool)
    requires
        !src.contains('@'),
    ensures
        ({
            let (end, res) = push_one_pair_does(w, src, dst, force);
            &&& res == Ok::<PushOutcome, Seq<char>>(PushOutcome::Synced) ==> exists|
                anchor: Seq<char>,
            | #[trigger]
                effects::anchored(w, end, src, anchor) && effects::replicated(w, end, src, dst, anchor)
            &&& res == Ok::<PushOutcome, Seq<char>>(PushOutcome::NoOp) ==> exists|
                anchor: Seq<char>,
            | #[trigger]
                effects::anchored(w, end, src, anchor) && holds_already(w, end, src, dst, anchor)
        }),
{
    let (end, res) = push_one_pair_does(w, src, dst, force);
    if res == Ok::<PushOutcome, Seq<char>>(PushOutcome::Synced) || res == Ok::<
        PushOutcome,
        Seq<char>,
    >(PushOutcome::NoOp) {
        reveal(push_one_pair_does);
        reveal(refuse_mounted_does);
        reveal(transfer_does);
        reveal(settle_does);
        let p = effects::replication(src, dst);
        let (w1, found) = zfs_ops::dataset_exists_does(w, dst);
        let there = zfs_ops::exists_or_not(found);
        zfs_ops::lemma_exists_looks(w, dst);
        let (w2, free) = refuse_mounted_does(w1, dst, there);
        zfs_ops::lemma_mounted_looks(w1, dst);
        zfs_ops::lemma_property_looks(zfs_ops::is_mounted_does(w1, dst).0, dst, "readonly"@);
        let (w3, go) = check_divergence_does(w2, src, dst, there, force);
        lemma_divergence(w2, src, dst, there, force, p);
        let (w4, taken) = anchor_does(w3, src, dst, there);
        lemma_anchor(w3, src, dst, there, p);
        let anchor = taken->Ok_0;
        let (w5, opened) = push::open_dest_does(w4, dst, there);
        push::lemma_open_dest(w4, dst, there, p);
        let was_readonly = opened->Ok_0;
        let (w6, sent) = send_does(w5, src, dst, anchor, there);
        lemma_send(w5, src, dst, anchor, there, p);
        lemma_settle(w6, src, dst, anchor, sent->Ok_0, was_readonly, p);
        effects::lemma_continues(w, w1, w2);
        effects::lemma_continues(w, w2, w3);
        effects::lemma_continues(w, w3, w4);
        effects::lemma_continues(w, w4, w5);
        effects::lemma_continues(w, w5, w6);
        effects::lemma_continues(w1, w2, w3);
        effects::lemma_continues(w1, w3, w4);
        effects::lemma_continues(w1, w4, w5);
        effects::lemma_continues(w4, w5, w6);
        effects::lemma_continues(w4, w6, end);
        if !there {
            reveal(zfs_ops::dataset_exists_does);
            let l = w.calls.len() as int;
            assert(w5.calls[l] == w1.calls[l]);
            assert(effects::told_absent(w5, l, dst));
        }
        lemma_anchor_is_fresh(w3, src, dst, there);
        effects::lemma_ran_within(w, w3, w4, end, "zfs"@, seq!["snapshot"@, anchor]);
        assert(effects::anchored(w, end, src, anchor));
        lemma_sent(w, w5, src, dst, anchor, there);
        assert(sub::continues(w, w));
        if res == Ok::<PushOutcome, Seq<char>>(PushOutcome::Synced) {
            effects::lemma_replicated_within(w, w, w6, end, src, dst, anchor);
        } else {
            let n = choose|n: int|
                w.calls.len() <= n && n + 1 < w6.calls.len() && #[trigger] effects::base_told(
                    w6,
                    n,
                    src,
                    dst,
                    Some(anchor),
                );
            assert(end.calls[n] == w6.calls[n] && end.calls[n + 1] == w6.calls[n + 1]);
            assert(effects::base_told(end, n, src, dst, Some(anchor)));
        }
    }
}

/// The anchor is a snapshot of the source that was taken just now.
proof fn lemma_anchor_is_fresh(w: World, src: Seq<char>, dst: Seq<char>, there: bool)
    requires
        anchor_does(w, src, dst, there).1 is Ok,
        !src.contains('@'),
    ensures
        effects::anchored(w, anchor_does(w, src, dst, there).0, src, anchor_does(w, src, dst, there).1->Ok_0),
{
    reveal(anchor_does);
    reveal(zfs_ops::take_snapshot_does);
    let name = zfs_ops::anchor_name(w.reply().nanos as nat);
    let anchor = src + "@"@ + name;
    reveal_strlit("@");
    reveal_strlit("mirror-");
    reveal_strlit("@mirror-");
    assert forall|j: int| 0 <= j < src.len() implies anchor[j] != '@' by {
        assert(src.contains(src[j]));
    }
    text::lemma_position_is(anchor, '@', src.len() as int);
    assert(leaf(anchor) =~= name);
    assert(anchor.take((src + "@mirror-"@).len() as int) =~= src + "@mirror-"@);
    let w0 = w.after(Call::Clock);
    let args = seq!["snapshot"@, anchor];
    effects::lemma_run_ran(w0, "zfs"@, args);
    let w1 = sub::run_does(w0, "zfs"@, args).0;
    let pool = text::before(dst, '/');
    effects::lemma_container(w1, pool, |c: Call| true);
    effects::lemma_continues(w1, w1, anchor_does(w, src, dst, there).0);
    effects::lemma_ran_within(w, w0, w1, anchor_does(w, src, dst, there).0, "zfs"@, args);
}

/// The push to one destination changes its two sides and nothing else, however
/// it ends.
pub proof fn law_pair_keeps_to_its_sides(w: World, src: Seq<char>, dst: Seq<char>, force: bool)
    ensures
        sub::did_only(
            w,
            push_one_pair_does(w, src, dst, force).0,
            effects::replication(src, dst),
        ),
{
    lemma_pair(w, src, dst, force);
}

/// A destination that was synced is a boot environment and read-only: all its
/// properties have been set and read back.
pub proof fn law_synced_is_a_readonly_be(w: World, src: Seq<char>, dst: Seq<char>, force: bool)
    requires
        push_one_pair_does(w, src, dst, force).1 == Ok::<PushOutcome, Seq<char>>(
            PushOutcome::Synced,
        ),
    ensures
        ({
            let end = push_one_pair_does(w, src, dst, force).0;
            effects::took_contract(w, end, dst) && effects::took(w, end, dst, "readonly"@, "on"@)
        }),
{
    lemma_pair(w, src, dst, force);
}

/// A primary goes to its peer, if that is there, and to everyone that points at
/// it, itself aside; and nowhere else.
pub proof fn law_every_tracker_is_a_target(
    have: Seq<Seq<char>>,
    rows: Snaps,
    shown: Seq<char>,
    primary: Seq<char>,
)
    ensures
        forall|x: Seq<char>| #[trigger]
            with_trackers(have, rows, shown, primary).contains(x) <==> have.contains(x) || (x
                != primary && rows.contains((x, shown))),
    decreases rows.len(),
{
    if rows.len() > 0 {
        let front = rows.drop_last();
        law_every_tracker_is_a_target(have, front, shown, primary);
        let before = with_trackers(have, front, shown, primary);
        let all = with_trackers(have, rows, shown, primary);
        let last = rows.last();
        assert forall|x: Seq<char>| #[trigger]
            all.contains(x) <==> have.contains(x) || (x != primary && rows.contains((x, shown))) by {
            assert(rows.contains((x, shown)) <==> front.contains((x, shown)) || last == (x, shown))
                by {
                if rows.contains((x, shown)) {
                    let i = choose|i: int| 0 <= i < rows.len() && rows[i] == (x, shown);
                    if i < front.len() {
                        assert(front[i] == rows[i]);
                    }
                }
                if front.contains((x, shown)) {
                    let i = choose|i: int| 0 <= i < front.len() && front[i] == (x, shown);
                    assert(rows[i] == front[i]);
                }
                assert(rows[rows.len() - 1] == last);
            }
            assert(before.contains(x) ==> all.contains(x)) by {
                if before.contains(x) {
                    let k = choose|k: int| 0 <= k < before.len() && before[k] == x;
                    assert(all[k] == x);
                }
            }
            if all.contains(x) && !before.contains(x) {
                let k = choose|k: int| 0 <= k < all.len() && all[k] == x;
                if k < before.len() {
                    assert(before[k] == x);
                }
            }
            if last == (x, shown) && x != primary && !before.contains(x) {
                assert(all[all.len() - 1] == x);
            }
        }
    }
}

/// Putting names in order keeps them.
proof fn lemma_in_order_keeps(v: Seq<Seq<char>>)
    ensures
        forall|x: Seq<char>| #[trigger] in_order(v).contains(x) <==> v.contains(x),
{
    broadcast use vstd::seq_lib::group_to_multiset_ensures;

    order::law_sorted(v, |x: Seq<char>| x);
    assert forall|x: Seq<char>| #[trigger] in_order(v).contains(x) <==> v.contains(x) by {
        assert(in_order(v).to_multiset().count(x) > 0 <==> in_order(v).contains(x));
        assert(v.to_multiset().count(x) > 0 <==> v.contains(x));
    }
}

/// The primaries are the file systems of the root pools whose `zboot:primary`
/// reads `on`, all of them.
pub proof fn law_primaries_are_all(w: World)
    requires
        primaries_does(w).1 is Ok,
    ensures
        walk::property_table_does(w, "zboot:primary"@).1 matches Ok(rows) && forall|x: Seq<char>|
            #[trigger] primaries_does(w).1->Ok_0.contains(x) <==> rows.contains((x, "on"@)),
{
    let rows = walk::property_table_does(w, "zboot:primary"@).1->Ok_0;
    walk::law_holders(rows, "on"@);
    lemma_in_order_keeps(walk::holders(rows, "on"@));
    assert forall|x: Seq<char>| #[trigger]
        primaries_does(w).1->Ok_0.contains(x) <==> rows.contains((x, "on"@)) by {
        if rows.contains((x, "on"@)) {
            let i = choose|i: int| 0 <= i < rows.len() && rows[i] == (x, "on"@);
            assert(rows[i] == (x, "on"@));
        }
    }
}

/// A primary is pushed to what its `zboot:mirror` reads, where that is a boot
/// environment which is there, and to all whose `zboot:mirror` reads the primary.
pub proof fn law_targets_are_all(w: World, primary: Seq<char>)
    requires
        targets_does(w, primary).1 is Ok,
    ensures
        ({
            let (end, res) = targets_does(w, primary);
            let n = w.calls.len() as int;
            let value = text::trimmed((w.replies)(n as nat).stdout);
            let peered = model::pair_of(value) is Some && effects::succeeded(w, n + 1);
            &&& end.calls[n] == effects::get_call(primary, "zboot:mirror"@)
            &&& effects::succeeded(w, n)
            &&& model::pair_of(value) is Some ==> end.calls[n + 1] == Call::Run {
                prog: "zfs"@,
                args: seq!["list"@, "-H"@, "-o"@, "name"@, value],
            }
            &&& peer_does(w, primary).1 is Ok
            &&& walk::property_table_does(peer_does(w, primary).0, "zboot:mirror"@).1 matches Ok(
                rows,
            ) && forall|x: Seq<char>| #[trigger]
                res->Ok_0.contains(x) <==> (peered && x == value) || (x != primary
                    && rows.contains((x, pointer_at(primary))))
        }),
{
    reveal(targets_does);
    reveal(zfs_ops::dataset_property_does);
    reveal(zfs_ops::dataset_exists_does);
    let (end, res) = targets_does(w, primary);
    let n = w.calls.len() as int;
    let (w1, peer) = peer_does(w, primary);
    let have = peer->Ok_0;
    let value = text::trimmed((w.replies)(n as nat).stdout);
    model::law_pair_text(value);
    let rows = walk::property_table_does(w1, "zboot:mirror"@).1->Ok_0;
    walk::lemma_table_looks(w1, "zboot:mirror"@);
    assert(end.calls[n] == w1.calls[n]);
    if model::pair_of(value) is Some {
        assert(end.calls[n + 1] == w1.calls[n + 1]);
    }
    law_every_tracker_is_a_target(have, rows, pointer_at(primary), primary);
    lemma_in_order_keeps(with_trackers(have, rows, pointer_at(primary), primary));
    let peered = model::pair_of(value) is Some && effects::succeeded(w, n + 1);
    assert forall|x: Seq<char>| have.contains(x) <==> peered && x == value by {
        if peered {
            assert(have =~= seq![value]);
            assert(have[0] == value);
        } else {
            assert(have =~= seq![]);
        }
    }
}

/// In the course of a run, a boot environment was pushed to a destination, and
/// how that ended was told.
pub open spec fn pushed_on_the_way(
    a: World,
    m: World,
    b: World,
    src: Seq<char>,
    dst: Seq<char>,
    force: bool,
) -> bool {
    let (w1, res) = push_one_pair_does(m.say("  "@ + src + " → "@ + dst), src, dst, force);
    &&& sub::continues(a, m)
    &&& sub::continues(w1, b)
    &&& res matches Ok(PushOutcome::Synced) ==> w1.calls.len() < b.calls.len() && b.calls[
        w1.calls.len() as int
    ] == (Call::Say { text: "    synced"@ })
    &&& res matches Ok(PushOutcome::NoOp) ==> w1.calls.len() < b.calls.len() && b.calls[
        w1.calls.len() as int
    ] == (Call::Say { text: "    no-op"@ })
    &&& res matches Err(m) ==> w1.calls.len() < b.calls.len() && b.calls[w1.calls.len() as int] == (
    Call::Say { text: "    skipped: "@ + m })
}

/// In the course of a run, a boot environment was pushed to a destination; that
/// counts as synced exactly where the push did.
pub open spec fn was_pushed(
    a: World,
    b: World,
    src: Seq<char>,
    dst: Seq<char>,
    force: bool,
    e: End,
) -> bool {
    exists|m: World| #[trigger]
        pushed_on_the_way(a, m, b, src, dst, force) && (e is Synced <==> push_one_pair_does(
            m.say("  "@ + src + " → "@ + dst),
            src,
            dst,
            force,
        ).1 == Ok::<PushOutcome, Seq<char>>(PushOutcome::Synced))
}

/// What was pushed in the first part of a run was pushed in the run.
proof fn lemma_was_pushed_within(
    a: World,
    b: World,
    c: World,
    src: Seq<char>,
    dst: Seq<char>,
    force: bool,
    e: End,
)
    requires
        was_pushed(a, b, src, dst, force, e),
        sub::continues(b, c),
    ensures
        was_pushed(a, c, src, dst, force, e),
{
    let m = choose|m: World| #[trigger]
        pushed_on_the_way(a, m, b, src, dst, force) && (e is Synced <==> push_one_pair_does(
            m.say("  "@ + src + " → "@ + dst),
            src,
            dst,
            force,
        ).1 == Ok::<PushOutcome, Seq<char>>(PushOutcome::Synced));
    let mid = push_one_pair_does(m.say("  "@ + src + " → "@ + dst), src, dst, force).0;
    effects::lemma_continues(mid, b, c);
    let n = mid.calls.len() as int;
    if n < b.calls.len() {
        assert(c.calls[n] == b.calls[n]);
    }
    assert(pushed_on_the_way(a, m, c, src, dst, force));
}

/// Every target of a primary is pushed to, one after the other, and there are as
/// many ends as targets; as synced count exactly those pushes that were.
pub proof fn law_every_target_is_pushed(w: World, src: Seq<char>, dsts: Seq<Seq<char>>, force: bool)
    ensures
        ({
            let (end, ends) = pairs_does(w, src, dsts, force);
            &&& sub::continues(w, end)
            &&& ends.len() == dsts.len()
            &&& forall|i: int|
                0 <= i < dsts.len() ==> was_pushed(w, end, src, #[trigger] dsts[i], force, ends[i])
        }),
    decreases dsts.len(),
{
    let (end, ends) = pairs_does(w, src, dsts, force);
    if dsts.len() > 0 {
        let front = dsts.drop_last();
        law_every_target_is_pushed(w, src, front, force);
        let (w1, before) = pairs_does(w, src, front, force);
        let last = dsts.last();
        let said = w1.say("  "@ + src + " → "@ + last);
        lemma_pair(said, src, last, force);
        let w2 = push_one_pair_does(said, src, last, force).0;
        effects::lemma_continues(w1, said, w2);
        assert(sub::continues(w2, end));
        effects::lemma_continues(w1, w2, end);
        effects::lemma_continues(w, w1, end);
        assert(pushed_on_the_way(w, w1, end, src, last, force));
        assert(was_pushed(w, end, src, last, force, ends.last()));
        assert forall|i: int| 0 <= i < dsts.len() implies was_pushed(
            w,
            end,
            src,
            #[trigger] dsts[i],
            force,
            ends[i],
        ) by {
            if i < front.len() {
                assert(front[i] == dsts[i]);
                assert(ends[i] == before[i]);
                lemma_was_pushed_within(w, w1, end, src, front[i], force, before[i]);
            } else {
                assert(dsts[i] == last);
            }
        }
    } else {
        assert(sub::continues(w, w));
    }
}

/// A primary was handled in the course of a run: its targets were looked for,
/// and each of them was pushed to.
pub open spec fn handled(
    a: World,
    m: World,
    b: World,
    primary: Seq<char>,
    force: bool,
    ends: Seq<End>,
) -> bool {
    let (w1, got) = targets_does(m, primary);
    &&& sub::continues(a, m)
    &&& got is Ok
    &&& got->Ok_0.len() > 0 ==> ends.len() == got->Ok_0.len()
    &&& forall|i: int|
        0 <= i < got->Ok_0.len() ==> was_pushed(
            w1,
            b,
            primary,
            #[trigger] got->Ok_0[i],
            force,
            ends[i],
        )
}

/// A primary was handled in the course of a run.
pub open spec fn was_handled(a: World, b: World, primary: Seq<char>, force: bool) -> bool {
    exists|m: World, ends: Seq<End>| #[trigger] handled(a, m, b, primary, force, ends)
}

proof fn lemma_was_handled_within(
    a: World,
    b: World,
    c: World,
    d: World,
    primary: Seq<char>,
    force: bool,
)
    requires
        sub::continues(a, b),
        was_handled(b, c, primary, force),
        sub::continues(c, d),
    ensures
        was_handled(a, d, primary, force),
{
    let (m, ends) = choose|m: World, ends: Seq<End>| #[trigger]
        handled(b, m, c, primary, force, ends);
    effects::lemma_continues(a, b, m);
    let (w1, got) = targets_does(m, primary);
    let dsts = got->Ok_0;
    assert forall|i: int| 0 <= i < dsts.len() implies was_pushed(
        w1,
        d,
        primary,
        #[trigger] dsts[i],
        force,
        ends[i],
    ) by {
        lemma_was_pushed_within(w1, c, d, primary, dsts[i], force, ends[i]);
    }
    assert(handled(a, m, d, primary, force, ends));
}

/// A run over the primaries that succeeds handles every one of them.
pub proof fn law_every_primary_is_handled(w: World, primaries: Seq<Seq<char>>, force: bool)
    requires
        all_does(w, primaries, force).1 is Ok,
    ensures
        sub::continues(w, all_does(w, primaries, force).0),
        forall|i: int|
            0 <= i < primaries.len() ==> was_handled(
                w,
                all_does(w, primaries, force).0,
                #[trigger] primaries[i],
                force,
            ),
    decreases primaries.len(),
{
    let end = all_does(w, primaries, force).0;
    assert(sub::continues(w, w) && sub::continues(end, end));
    if primaries.len() > 0 {
        let p = primaries[0];
        let rest = primaries.drop_first();
        let w1 = primary_does(w, p, force).0;
        reveal(primary_does);
        let (wt, got) = targets_does(w, p);
        let dsts = got->Ok_0;
        let ends = pairs_does(wt, p, dsts, force).1;
        lemma_targets_look(w, p);
        law_every_target_is_pushed(wt, p, dsts, force);
        assert(sub::continues(wt, w1));
        effects::lemma_continues(w, wt, w1);
        law_every_primary_is_handled(w1, rest, force);
        effects::lemma_continues(w, w1, end);
        assert(handled(w, w, w1, p, force, ends));
        assert(was_handled(w, w1, p, force));
        lemma_was_handled_within(w, w, w1, end, p, force);
        assert forall|i: int| 0 <= i < primaries.len() implies was_handled(
            w,
            end,
            #[trigger] primaries[i],
            force,
        ) by {
            if i > 0 {
                assert(rest[i - 1] == primaries[i]);
                lemma_was_handled_within(w, w1, end, end, rest[i - 1], force);
            }
        }
    }
}

proof fn lemma_targets_look(w: World, primary: Seq<char>)
    ensures
        sub::continues(w, targets_does(w, primary).0),
{
    reveal(targets_does);
    reveal(zfs_ops::dataset_exists_does);
    let wt = targets_does(w, primary).0;
    let wp = peer_does(w, primary).0;
    zfs_ops::lemma_property_looks(w, primary, "zboot:mirror"@);
    assert(sub::continues(w, wp));
    walk::lemma_table_looks(wp, "zboot:mirror"@);
    effects::lemma_continues(w, wp, walk::property_table_does(wp, "zboot:mirror"@).0);
}

/// A run that succeeds looks for the primaries, and handles every one of them.
pub proof fn law_mirror_reaches_everyone(w: World, force: bool)
    requires
        run_does(w, force).1 is Ok,
    ensures
        primaries_does(w).1 is Ok,
        forall|i: int|
            0 <= i < primaries_does(w).1->Ok_0.len() ==> was_handled(
                w,
                run_does(w, force).0,
                #[trigger] primaries_does(w).1->Ok_0[i],
                force,
            ),
{
    let (w1, got) = primaries_does(w);
    let ps = got->Ok_0;
    walk::lemma_table_looks(w, "zboot:primary"@);
    if ps.len() > 0 {
        let w2 = w1.say("=== mirror: walking "@ + text::decimal(ps.len()) + " primary BE(s) ==="@);
        law_every_primary_is_handled(w2, ps, force);
        let w3 = all_does(w2, ps, force).0;
        let end = run_does(w, force).0;
        assert(sub::continues(w3, end));
        effects::lemma_continues(w, w1, w2);
        assert forall|i: int| 0 <= i < ps.len() implies was_handled(
            w,
            end,
            #[trigger] ps[i],
            force,
        ) by {
            lemma_was_handled_within(w, w2, w3, end, ps[i], force);
        }
    }
}

/// A pair that is in step again keeps no anchor but the new one, on either side.
pub proof fn law_settled_pair_is_tidy(
    w: World,
    src: Seq<char>,
    dst: Seq<char>,
    anchor: Seq<char>,
    sent: Option<Result<(), Seq<char>>>,
    was_readonly: bool,
)
    requires
        settle_does(w, src, dst, anchor, sent, was_readonly).1 is Ok,
    ensures
        push::both_pruned(
            w,
            settle_does(w, src, dst, anchor, sent, was_readonly).0,
            src,
            dst,
            anchor,
        ),
{
    reveal(settle_does);
    let all = |c: Call| true;
    let end = settle_does(w, src, dst, anchor, sent, was_readonly).0;
    assert(sub::continues(w, w));
    assert(sub::continues(end, end));
    if sent is None {
        push::lemma_both_pruned(w, w, end, src, dst, anchor);
    } else {
        effects::lemma_contract(w, dst, all);
        let w1 = zfs_ops::set_be_contract_does(w, dst).0;
        effects::lemma_set(w1, dst, "readonly"@, "on"@, all);
        let w2 = zfs_ops::set_property_does(w1, dst, "readonly"@, "on"@).0;
        effects::lemma_continues(w, w1, w2);
        push::lemma_both_pruned(w, w2, end, src, dst, anchor);
    }
}

/// Nothing is sent over a destination that someone may be writing to.
pub proof fn law_mounted_dest_is_spared(w: World, dst: Seq<char>)
    requires
        refuse_mounted_does(w, dst, true).1 is Ok,
    ensures
        push::spared(refuse_mounted_does(w, dst, true).0, w.calls.len() as int, dst),
{
    reveal(refuse_mounted_does);
    reveal(zfs_ops::is_mounted_does);
    reveal(zfs_ops::dataset_property_does);
}

/// Where it is not forced, nothing is sent over a destination that holds more
/// than the source.
pub proof fn law_nothing_is_lost_unforced(w: World, src: Seq<char>, dst: Seq<char>)
    requires
        check_divergence_does(w, src, dst, true, false).1 == Ok::<bool, Seq<char>>(true),
    ensures
        exists|k: int|
            w.calls.len() <= k && k + 1 < check_divergence_does(
                w,
                src,
                dst,
                true,
                false,
            ).0.calls.len() && #[trigger] effects::nothing_more(
                check_divergence_does(w, src, dst, true, false).0,
                k,
                src,
                dst,
            ),
{
    reveal(check_divergence_does);
    effects::law_only_on_right(w, src, dst);
    let k = w.calls.len() as int;
    let end = check_divergence_does(w, src, dst, true, false).0;
    assert(effects::nothing_more(end, k, src, dst));
}

} // verus!
