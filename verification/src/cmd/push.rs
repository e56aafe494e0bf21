//! `push`: send a boot environment's snapshots to its peer, or to a pool that
//! becomes its peer.
//!
//! A plain push only adds. Where the destination holds snapshots that the
//! source does not (divergence), or already stands behind the snapshot that
//! the push is bounded at (rewind), it is refused; `--force` overrides, after
//! the operator has typed the destination's name.

use vstd::prelude::*;
use vstd::string::*;

use crate::be_arg;
use crate::effects;
use crate::error;
use crate::error::Error;
use crate::model;
use crate::model::PairPointer;
use crate::sub;
use crate::sub::{Call, Runner, World};
use crate::text;
use crate::zfs_ops;

verus! {

/// Arguments of `push`.
#[derive(Debug)]
pub struct PushArgs {
    /// Source: a bare name, a dataset path, or either with `@<snap>` to bound
    /// the push; the running boot environment where it is missing.
    pub be: Option<String>,
    /// `<pool>` (same name; the two become a pair) or
    /// `<pool>/ROOT/<other-name>` (a copy on its own).
    pub to: Option<String>,
    /// Overwrite what diverged, or rewind.
    pub force: bool,
}

/// What a push does to the pair pointers.
#[derive(Debug, Clone, Copy, PartialEq, Eq, Structural)]
pub enum PairedMode {
    /// The pointer is there already; nothing is written.
    Existing,
    /// The source gets a pointer, and the destination too where it has none.
    BootstrapPaired,
    /// A copy on its own: the destination is left without a pointer.
    AdHocUnpaired,
}

impl DeepView for PairedMode {
    type V = PairedMode;

    open spec fn deep_view(&self) -> PairedMode {
        *self
    }
}

// ---------------------------------------------------------------------------
// Refusals
// ---------------------------------------------------------------------------

/// The refusal of a push to a destination that diverged.
pub open spec fn divergence_text(src: Seq<char>, dest: Seq<char>, extras: Seq<Seq<char>>) -> Seq<
    char,
> {
    let pool = text::before(dest, '/');
    "refuses: divergent dest "@ + dest + " (has "@ + text::decimal(extras.len())
        + " snapshot(s) source "@ + src
        + " does not).\n  Why: a regular push only adds snapshots — it can't decide whether to keep\n  or destroy dest-only ones. Refusing so you pick: force-overwrite, pull\n  instead, or preserve dest's lineage as a separate BE first.\n  dest-only:\n      "@
        + zfs_ops::preview_text(extras)
        + "\n  resolve with:\n    push --force         will run: zfs receive -F (destroys dest-only above)\n    pull --force         will run: zfs receive -F on this side (accepts peer)\n    preserve + re-bootstrap (if you want dest's lineage kept somewhere):\n                         zboot fork <name> --from "@
        + dest
        + "@<snap>     # clone of dest@<snap>\n                         zfs promote "@
        + pool
        + "/ROOT/<name>        # snapshots move to <name>\n                         zboot drop "@
        + dest
        + "                          # dest is now an empty clone\n                         zboot push --to "@
        + pool + "                # re-bootstrap pair on fresh dest"@
}

fn divergence_message(src: &str, dest: &str, extras: &Vec<String>) -> (r: Error)
    ensures
        r@ == divergence_text(src@, dest@, extras.deep_view()),
{
    let preview: String = zfs_ops::format_snapshot_preview(extras);
    let pool: &str = text::head(dest, '/');
    let n: String = text::dec_len(extras.len());
    let mut m: String = text::cat9(
        "refuses: divergent dest ",
        dest,
        " (has ",
        n.as_str(),
        " snapshot(s) source ",
        src,
        " does not).\n  Why: a regular push only adds snapshots — it can't decide whether to keep\n  or destroy dest-only ones. Refusing so you pick: force-overwrite, pull\n  instead, or preserve dest's lineage as a separate BE first.\n  dest-only:\n      ",
        preview.as_str(),
        "\n  resolve with:\n    push --force         will run: zfs receive -F (destroys dest-only above)\n    pull --force         will run: zfs receive -F on this side (accepts peer)\n    preserve + re-bootstrap (if you want dest's lineage kept somewhere):\n                         zboot fork <name> --from ",
    );
    m.append(dest);
    m.append("@<snap>     # clone of dest@<snap>\n                         zfs promote ");
    m.append(pool);
    m.append("/ROOT/<name>        # snapshots move to <name>\n                         zboot drop ");
    m.append(dest);
    m.append(
        "                          # dest is now an empty clone\n                         zboot push --to ",
    );
    m.append(pool);
    m.append("                # re-bootstrap pair on fresh dest");
    Error::from_text(m)
}

/// The refusal of a bounded push to a destination that stands behind the
/// bound.
pub open spec fn rewind_text(
    src: Seq<char>,
    dest: Seq<char>,
    bound: Seq<char>,
    after: Seq<Seq<char>>,
) -> Seq<char> {
    let pool = text::before(dest, '/');
    let n = text::decimal(after.len());
    "refuses: bounded push to "@ + dest + " but dest is past the bound "@ + src + "@"@ + bound
        + ".\n  Why: dest has "@ + n
        + " snapshot(s) taken after the bound on source. A regular\n  push can't go backwards (zfs send -I requires forward time). This is a\n  *rewind*, not a fast-forward — matches git's non-fast-forward refusal.\n  dest-after-bound:\n      "@
        + zfs_ops::preview_text(after)
        + "\n  resolve with:\n    push --force         will run: zfs rollback -r "@ + dest + "@"@ + bound
        + "\n                         destroys the "@ + n
        + " snapshot(s) above on dest\n    (omit @"@ + bound
        + ")      push to dest's latest, no rewind\n    preserve + re-bootstrap (if you want dest's newer lineage kept):\n                         zboot fork <name> --from "@
        + dest
        + "@<snap>     # clone of dest@<snap>\n                         zfs promote "@
        + pool
        + "/ROOT/<name>        # snapshots move to <name>\n                         zboot drop "@
        + dest
        + "                          # dest is now an empty clone\n                         zboot push --to "@
        + pool + "                # re-bootstrap pair on fresh dest"@
}

fn rewind_message(src: &str, dest: &str, bound: &str, after: &Vec<String>) -> (r: Error)
    ensures
        r@ == rewind_text(src@, dest@, bound@, after.deep_view()),
{
    let preview: String = zfs_ops::format_snapshot_preview(after);
    let pool: &str = text::head(dest, '/');
    let n: String = text::dec_len(after.len());
    let mut m: String = text::cat6(
        "refuses: bounded push to ",
        dest,
        " but dest is past the bound ",
        src,
        "@",
        bound,
    );
    m.append(".\n  Why: dest has ");
    m.append(n.as_str());
    m.append(
        " snapshot(s) taken after the bound on source. A regular\n  push can't go backwards (zfs send -I requires forward time). This is a\n  *rewind*, not a fast-forward — matches git's non-fast-forward refusal.\n  dest-after-bound:\n      ",
    );
    m.append(preview.as_str());
    m.append("\n  resolve with:\n    push --force         will run: zfs rollback -r ");
    m.append(dest);
    m.append("@");
    m.append(bound);
    m.append("\n                         destroys the ");
    m.append(n.as_str());
    m.append(" snapshot(s) above on dest\n    (omit @");
    m.append(bound);
    m.append(
        ")      push to dest's latest, no rewind\n    preserve + re-bootstrap (if you want dest's newer lineage kept):\n                         zboot fork <name> --from ",
    );
    m.append(dest);
    m.append("@<snap>     # clone of dest@<snap>\n                         zfs promote ");
    m.append(pool);
    m.append("/ROOT/<name>        # snapshots move to <name>\n                         zboot drop ");
    m.append(dest);
    m.append(
        "                          # dest is now an empty clone\n                         zboot push --to ",
    );
    m.append(pool);
    m.append("                # re-bootstrap pair on fresh dest");
    Error::from_text(m)
}

/// The refusal of a push into a destination that is mounted and writable.
pub open spec fn mounted_text(dest: Seq<char>) -> Seq<char> {
    "dest "@ + dest
        + " is mounted+rw; refuses (would corrupt kernel cache). Either unmount, or set readonly=on on dest first."@
}

/// Whether `readonly` reads `on`; a failure to read counts as not.
pub open spec fn reads_on(v: Result<Seq<char>, Seq<char>>) -> bool {
    v == Ok::<Seq<char>, Seq<char>>("on"@)
}

/// True iff `readonly` of the dataset reads `on`.
pub fn is_readonly<R: Runner>(r: &mut R, ds: &str) -> (res: bool)
    ensures
        final(r).world() == zfs_ops::dataset_property_does(old(r).world(), ds@, "readonly"@).0,
        res == reads_on(zfs_ops::dataset_property_does(old(r).world(), ds@, "readonly"@).1),
{
    match zfs_ops::dataset_property(r, ds, "readonly") {
        Err(_) => false,
        Ok(v) => text::eq(v.as_str(), "on"),
    }
}

/// Refuses a destination that is mounted and not read-only.
#[verifier::opaque]
pub open spec fn refuse_mounted_does(w: World, dest: Seq<char>, there: bool) -> (World, Result<
    (),
    Seq<char>,
>) {
    if !there {
        (w, Ok(()))
    } else {
        let (w1, mounted) = zfs_ops::is_mounted_does(w, dest);
        if !mounted {
            (w1, Ok(()))
        } else {
            let (w2, ro) = zfs_ops::dataset_property_does(w1, dest, "readonly"@);
            if reads_on(ro) {
                (w2, Ok(()))
            } else {
                (w2, Err(mounted_text(dest)))
            }
        }
    }
}

fn refuse_mounted<R: Runner>(r: &mut R, dest: &str, there: bool) -> (res: Result<(), Error>)
    ensures
        sub::did(final(r).world(), res) == refuse_mounted_does(old(r).world(), dest@, there),
{
    proof {
        reveal(refuse_mounted_does);
    }
    if there && zfs_ops::is_mounted(r, dest) {
        if !is_readonly(r, dest) {
            return Err(
                Error::from_text(
                    text::cat3(
                        "dest ",
                        dest,
                        " is mounted+rw; refuses (would corrupt kernel cache). Either unmount, or set readonly=on on dest first.",
                    ),
                ),
            );
        }
    }
    Ok(())
}

/// Refuses a destination with snapshots of its own; with `force`, asks.
#[verifier::opaque]
pub open spec fn check_divergence_does(
    w: World,
    src: Seq<char>,
    dest: Seq<char>,
    there: bool,
    force: bool,
) -> (World, Result<(), Seq<char>>) {
    if !there {
        (w, Ok(()))
    } else {
        let (w1, found) = zfs_ops::snapshots_only_on_right_does(w, src, dest);
        match found {
            Err(m) => (w1, Err(m)),
            Ok(extras) => if extras.len() == 0 {
                (w1, Ok(()))
            } else if !force {
                (w1, Err(divergence_text(src, dest, extras)))
            } else {
                zfs_ops::confirm_truncate_does(
                    w1,
                    "push --force will run: zfs receive -F (destroys dest-only snapshots on "@
                        + dest + ")"@,
                    dest,
                    extras,
                )
            },
        }
    }
}

fn check_divergence<R: Runner>(r: &mut R, src: &str, dest: &str, there: bool, force: bool) -> (res:
    Result<(), Error>)
    ensures
        sub::did(final(r).world(), res) == check_divergence_does(
            old(r).world(),
            src@,
            dest@,
            there,
            force,
        ),
{
    proof {
        reveal(check_divergence_does);
    }
    if !there {
        return Ok(());
    }
    let extras = match zfs_ops::snapshots_only_on_right(r, src, dest) {
        Err(e) => return Err(e),
        Ok(x) => x,
    };
    if extras.len() == 0 {
        return Ok(());
    }
    if !force {
        return Err(divergence_message(src, dest, &extras));
    }
    let label: String = text::cat3(
        "push --force will run: zfs receive -F (destroys dest-only snapshots on ",
        dest,
        ")",
    );
    zfs_ops::confirm_destructive_truncate(r, label.as_str(), dest, &extras)
}

/// Finds out whether a bounded push is a rewind; gives the snapshot to roll
/// the destination back to. Refused unless `force`, which asks.
#[verifier::opaque]
pub open spec fn check_rewind_does(
    w: World,
    src: Seq<char>,
    dest: Seq<char>,
    bound: Option<Seq<char>>,
    there: bool,
    force: bool,
) -> (World, Result<Option<Seq<char>>, Seq<char>>) {
    match bound {
        None => (w, Ok(None)),
        Some(snap) => if !there {
            (w, Ok(None))
        } else {
            let (w1, found) = zfs_ops::dest_snapshots_after_bound_does(w, src, dest, snap);
            match found {
                Err(m) => (w1, Err(m)),
                Ok(after) => if after.len() == 0 {
                    (w1, Ok(None))
                } else if !force {
                    (w1, Err(rewind_text(src, dest, snap, after)))
                } else {
                    let dest_bound = dest + "@"@ + snap;
                    let (w2, yes) = zfs_ops::confirm_truncate_does(
                        w1,
                        "push --force will run: zfs rollback -r "@ + dest_bound
                            + " (rewinds dest, destroying snapshots taken after the bound)"@,
                        dest,
                        after,
                    );
                    match yes {
                        Err(m) => (w2, Err(m)),
                        Ok(_) => (w2, Ok(Some(dest_bound))),
                    }
                },
            }
        },
    }
}

fn check_rewind<R: Runner>(
    r: &mut R,
    src: &str,
    dest: &str,
    bound: Option<&str>,
    there: bool,
    force: bool,
) -> (res: Result<Option<String>, Error>)
    ensures
        sub::did(final(r).world(), res) == check_rewind_does(
            old(r).world(),
            src@,
            dest@,
            bound.deep_view(),
            there,
            force,
        ),
{
    proof {
        reveal(check_rewind_does);
    }
    let snap: &str = match bound {
        None => return Ok(None),
        Some(s) => s,
    };
    if !there {
        return Ok(None);
    }
    let after = match zfs_ops::dest_snapshots_after_bound(r, src, dest, snap) {
        Err(e) => return Err(e),
        Ok(a) => a,
    };
    if after.len() == 0 {
        return Ok(None);
    }
    if !force {
        return Err(rewind_message(src, dest, snap, &after));
    }
    let dest_bound: String = text::cat3(dest, "@", snap);
    let label: String = text::cat3(
        "push --force will run: zfs rollback -r ",
        dest_bound.as_str(),
        " (rewinds dest, destroying snapshots taken after the bound)",
    );
    match zfs_ops::confirm_destructive_truncate(r, label.as_str(), dest, &after) {
        Err(e) => Err(e),
        Ok(_) => Ok(Some(dest_bound)),
    }
}

// ---------------------------------------------------------------------------
// The push of one boot environment
// ---------------------------------------------------------------------------

/// The snapshot that is sent: the bound, or a fresh anchor on the source.
#[verifier::opaque]
pub open spec fn pick_anchor_does(w: World, src: Seq<char>, bound: Option<Seq<char>>) -> (
    World,
    Result<Seq<char>, Seq<char>>,
) {
    match bound {
        Some(snap) => (w, Ok(src + "@"@ + snap)),
        None => {
            let name = zfs_ops::anchor_name(w.reply().nanos as nat);
            let (w1, taken) = zfs_ops::take_snapshot_does(w.after(Call::Clock), src, name);
            (
                w1,
                match taken {
                    Err(m) => Err(error::within("snapshot source"@, m)),
                    Ok(_) => Ok(src + "@"@ + name),
                },
            )
        },
    }
}

fn pick_anchor<R: Runner>(r: &mut R, src: &str, bound: Option<&str>) -> (res: Result<String, Error>)
    ensures
        sub::did(final(r).world(), res) == pick_anchor_does(
            old(r).world(),
            src@,
            bound.deep_view(),
        ),
{
    proof {
        reveal(pick_anchor_does);
    }
    match bound {
        Some(snap) => Ok(text::cat3(src, "@", snap)),
        None => {
            let name: String = zfs_ops::fresh_anchor_name(r);
            match zfs_ops::take_snapshot(r, src, name.as_str()) {
                Err(e) => Err(e.context("snapshot source")),
                Ok(_) => Ok(text::cat3(src, "@", name.as_str())),
            }
        },
    }
}

/// Makes the destination writable for the transfer, and says whether it has to
/// be made read-only again. One that is mounted read-only stays so.
#[verifier::opaque]
pub open spec fn open_dest_does(w: World, dest: Seq<char>, there: bool) -> (World, Result<
    bool,
    Seq<char>,
>) {
    if !there {
        (w, Ok(false))
    } else {
        let (w1, mounted) = zfs_ops::is_mounted_does(w, dest);
        let (w2, ro) = if mounted {
            zfs_ops::dataset_property_does(w1, dest, "readonly"@)
        } else {
            (w1, Ok(""@))
        };
        if mounted && reads_on(ro) {
            (w2, Ok(false))
        } else {
            let (w3, val) = zfs_ops::dataset_property_does(w2, dest, "readonly"@);
            match val {
                Err(m) => (w3, Err(m)),
                Ok(v) => if v == "on"@ {
                    let (w4, set) = zfs_ops::set_property_does(w3, dest, "readonly"@, "off"@);
                    match set {
                        Err(m) => (w4, Err(m)),
                        Ok(_) => (w4, Ok(true)),
                    }
                } else {
                    (w3, Ok(false))
                },
            }
        }
    }
}

/// Makes the destination writable for the transfer, and says whether it has to
/// be made read-only again.
pub fn open_dest<R: Runner>(r: &mut R, dest: &str, there: bool) -> (res: Result<bool, Error>)
    ensures
        sub::did(final(r).world(), res) == open_dest_does(old(r).world(), dest@, there),
        res matches Err(e) ==> e.outermost@ == sub::outermost(final(r).world(), e@),
{
    proof {
        reveal(open_dest_does);
    }
    if !there {
        return Ok(false);
    }
    let mounted_ro: bool = if zfs_ops::is_mounted(r, dest) {
        is_readonly(r, dest)
    } else {
        false
    };
    if mounted_ro {
        return Ok(false);
    }
    let val: String = match zfs_ops::dataset_property(r, dest, "readonly") {
        Err(e) => return Err(e),
        Ok(v) => v,
    };
    if text::eq(val.as_str(), "on") {
        match zfs_ops::set_readonly_tolerant(r, dest, "off") {
            Err(e) => Err(e),
            Ok(_) => Ok(true),
        }
    } else {
        Ok(false)
    }
}

/// Names of the snapshots of a source that a send of `anchor` alone leaves
/// behind; replication anchors do not count.
pub open spec fn left_behind(snaps: zfs_ops::Snaps, anchor: Seq<char>) -> Seq<Seq<char>> {
    zfs_ops::snap_names(
        snaps.filter(|p: (Seq<char>, Seq<char>)| !model::anchor(p.0) && p.0 != anchor),
    )
}

fn find_left_behind(snaps: &Vec<(String, String)>, anchor: &str) -> (res: Vec<String>)
    ensures
        res.deep_view() == left_behind(snaps.deep_view(), anchor@),
{
    let ghost all = snaps.deep_view();
    let ghost keep = |p: (Seq<char>, Seq<char>)| !model::anchor(p.0) && p.0 != anchor@;
    let mut out: Vec<String> = Vec::new();
    let mut i: usize = 0;
    proof {
        reveal(Seq::filter);
        assert(out.deep_view() =~= zfs_ops::snap_names(all.take(0).filter(keep)));
    }
    while i < snaps.len()
        invariant
            i <= snaps@.len(),
            all == snaps.deep_view(),
            keep == (|p: (Seq<char>, Seq<char>)| !model::anchor(p.0) && p.0 != anchor@),
            out.deep_view() == zfs_ops::snap_names(all.take(i as int).filter(keep)),
        decreases snaps@.len() - i,
    {
        proof {
            reveal(Seq::filter);
            assert(all.take(i + 1).drop_last() =~= all.take(i as int));
            assert(all.take(i + 1).last() == snaps@[i as int].deep_view());
            zfs_ops::lemma_names_push(
                all.take(i as int).filter(keep),
                snaps@[i as int].deep_view(),
            );
        }
        let name: &str = snaps[i].0.as_str();
        if !model::is_replication_anchor(name) && !text::eq(name, anchor) {
            text::push_text(&mut out, name);
        }
        i = i + 1;
    }
    assert(all.take(i as int) =~= all);
    out
}

/// One line for each of the names.
pub open spec fn say_names_does(w: World, names: Seq<Seq<char>>) -> World
    decreases names.len(),
{
    if names.len() == 0 {
        w
    } else {
        say_names_does(w, names.drop_last()).say("    "@ + names.last())
    }
}

fn say_names<R: Runner>(r: &mut R, names: &Vec<String>)
    ensures
        final(r).world() == say_names_does(old(r).world(), names.deep_view()),
{
    let ghost w = r.world();
    let mut i: usize = 0;
    while i < names.len()
        invariant
            i <= names@.len(),
            r.world() == say_names_does(w, names.deep_view().take(i as int)),
        decreases names@.len() - i,
    {
        proof {
            let next = names.deep_view().take(i + 1);
            assert(next.drop_last() =~= names.deep_view().take(i as int));
            assert(next.last() == names@[i as int]@);
        }
        let line: String = text::cat2("    ", names[i].as_str());
        r.say(line.as_str());
        i = i + 1;
    }
    assert(names.deep_view().take(i as int) =~= names.deep_view());
}

/// Warns of the snapshots that a send of a clone's anchor leaves behind.
#[verifier::opaque]
pub open spec fn warn_lost_does(w: World, src: Seq<char>, anchor: Seq<char>) -> World {
    let (w1, listed) = zfs_ops::list_snapshots_does(w, src);
    match listed {
        Err(_) => w1,
        Ok(snaps) => {
            let lost = left_behind(snaps, anchor);
            if lost.len() == 0 {
                w1
            } else {
                let w2 = say_names_does(
                    w1.say(
                        "  warning: source is a clone; bootstrap uses `zfs send -p` and won't transfer these own snapshots to dest:"@,
                    ),
                    zfs_ops::previewed(lost),
                );
                let w3 = if lost.len() > zfs_ops::PREVIEW {
                    w2.say(
                        "    ... ("@ + text::decimal((lost.len() - zfs_ops::PREVIEW) as nat)
                            + " more)"@,
                    )
                } else {
                    w2
                };
                w3.say(
                    "  Only the anchor's data state transfers. If you want any of these on dest, run `zboot push <BE>@<snap>` individually for each before (or after) the bootstrap."@,
                )
            }
        },
    }
}

fn warn_lost_intermediate_snapshots<R: Runner>(r: &mut R, src: &str, anchor: &str)
    ensures
        final(r).world() == warn_lost_does(old(r).world(), src@, anchor@),
{
    proof {
        reveal(warn_lost_does);
    }
    let snaps = match zfs_ops::list_snapshots_with_guids(r, src) {
        Err(_) => return ,
        Ok(s) => s,
    };
    let lost = find_left_behind(&snaps, anchor);
    if lost.len() == 0 {
        return ;
    }
    r.say(
        "  warning: source is a clone; bootstrap uses `zfs send -p` and won't transfer these own snapshots to dest:",
    );
    let shown = zfs_ops::first_of(&lost);
    say_names(r, &shown);
    if lost.len() > zfs_ops::PREVIEW {
        let n: String = text::dec_len(lost.len() - zfs_ops::PREVIEW);
        let line: String = text::cat3("    ... (", n.as_str(), " more)");
        r.say(line.as_str());
    }
    r.say(
        "  Only the anchor's data state transfers. If you want any of these on dest, run `zboot push <BE>@<snap>` individually for each before (or after) the bootstrap.",
    );
}

/// Moves the data: a rollback for a rewind; else an incremental send from the
/// last common snapshot, or a full send, which for a clone stands alone.
#[verifier::opaque]
pub open spec fn move_data_does(
    w: World,
    src: Seq<char>,
    dest: Seq<char>,
    anchor: Seq<char>,
    rewind: Option<Seq<char>>,
    there: bool,
) -> (World, Result<Result<(), Seq<char>>, Seq<char>>) {
    match rewind {
        Some(bound) => {
            let (w1, done) = zfs_ops::rollback_recursive_does(w, bound);
            (w1, Ok(done))
        },
        None => {
            let (w1, prev) = if there {
                zfs_ops::previous_anchor_on_dest_does(w, src, dest)
            } else {
                (w, Ok(None))
            };
            match prev {
                Err(m) => (w1, Err(m)),
                Ok(Some(p)) => {
                    let (w2, done) = zfs_ops::send_incremental_does(w1, p, anchor, dest);
                    (w2, Ok(done))
                },
                Ok(None) => {
                    let (w2, clone) = zfs_ops::dataset_is_clone_does(w1, src);
                    if clone == Ok::<bool, Seq<char>>(true) {
                        let (w3, done) = zfs_ops::send_standalone_does(
                            warn_lost_does(w2, src, anchor),
                            anchor,
                            dest,
                        );
                        (w3, Ok(done))
                    } else {
                        let (w3, done) = zfs_ops::send_full_does(w2, anchor, dest);
                        (w3, Ok(done))
                    }
                },
            }
        },
    }
}

/// A failure before the transfer began, or what came of the transfer.
pub open spec fn tried(r: Result<Result<(), Error>, Error>) -> Result<
    Result<(), Seq<char>>,
    Seq<char>,
> {
    match r {
        Err(e) => Err(e@),
        Ok(done) => Ok(error::outcome(done)),
    }
}

fn move_data<R: Runner>(
    r: &mut R,
    src: &str,
    dest: &str,
    anchor: &str,
    rewind: &Option<String>,
    there: bool,
) -> (res: Result<Result<(), Error>, Error>)
    ensures
        (final(r).world(), tried(res)) == move_data_does(
            old(r).world(),
            src@,
            dest@,
            anchor@,
            rewind.deep_view(),
            there,
        ),
{
    proof {
        reveal(move_data_does);
    }
    match rewind {
        Some(bound) => Ok(zfs_ops::zfs_rollback_recursive(r, bound.as_str())),
        None => {
            let prev: Option<String> = if there {
                match zfs_ops::previous_anchor_on_dest(r, src, dest) {
                    Err(e) => return Err(e),
                    Ok(p) => p,
                }
            } else {
                None
            };
            match prev {
                Some(p) => Ok(zfs_ops::send_recv_incremental(r, p.as_str(), anchor, dest)),
                None => {
                    let clone: bool = match zfs_ops::dataset_is_clone(r, src) {
                        Ok(c) => c,
                        Err(_) => false,
                    };
                    if clone {
                        warn_lost_intermediate_snapshots(r, src, anchor);
                        Ok(zfs_ops::send_recv_full_standalone(r, anchor, dest))
                    } else {
                        Ok(zfs_ops::send_recv_full(r, anchor, dest))
                    }
                },
            }
        },
    }
}

/// The pair pointer that a dataset's name is, or why it is none.
pub open spec fn pair_or_error(ds: Seq<char>) -> Result<model::Key, Seq<char>> {
    match model::pair_of(ds) {
        Some(k) => Ok(k),
        None => Err(
            "dataset "@ + text::quoted_text(ds)
                + " doesn't fit the canonical `<pool>/ROOT/<be>` form"@,
        ),
    }
}

fn parse_pair_from_ds(ds: &str) -> (res: Result<PairPointer, Error>)
    ensures
        error::outcome(res) == pair_or_error(ds@),
{
    match PairPointer::parse_dataset(ds) {
        Some(p) => Ok(p),
        None => {
            let q: String = text::quoted(ds);
            Err(
                Error::from_text(
                    text::cat3(
                        "dataset ",
                        q.as_str(),
                        " doesn't fit the canonical `<pool>/ROOT/<be>` form",
                    ),
                ),
            )
        },
    }
}

/// Writes the pair pointers that the mode asks for.
#[verifier::opaque]
pub open spec fn pair_up_does(w: World, src: Seq<char>, dest: Seq<char>, mode: PairedMode) -> (
    World,
    Result<(), Seq<char>>,
) {
    match mode {
        PairedMode::Existing => (w, Ok(())),
        PairedMode::AdHocUnpaired => (
            zfs_ops::inherit_property_does(w, dest, "zboot:mirror"@),
            Ok(()),
        ),
        PairedMode::BootstrapPaired => match (pair_or_error(dest), pair_or_error(src)) {
            (Err(m), _) => (w, Err(m)),
            (Ok(_), Err(m)) => (w, Err(m)),
            (Ok(to_dest), Ok(to_src)) => {
                let (w1, a) = zfs_ops::set_property_does(
                    w,
                    src,
                    "zboot:mirror"@,
                    model::pair_text(to_dest),
                );
                if a is Err {
                    (w1, a)
                } else {
                    let w2 = zfs_ops::set_property_does(w1, src, "zboot:primary"@, "on"@).0;
                    let (w3, back) = zfs_ops::read_pair_pointer_does(w2, dest);
                    match back {
                        Err(m) => (w3, Err(m)),
                        Ok(Some(_)) => (
                            zfs_ops::set_property_does(w3, src, "zboot:primary"@, "on"@).0,
                            Ok(()),
                        ),
                        Ok(None) => {
                            let (w4, b) = zfs_ops::set_property_does(
                                w3,
                                dest,
                                "zboot:mirror"@,
                                model::pair_text(to_src),
                            );
                            if b is Err {
                                (w4, b)
                            } else {
                                (
                                    zfs_ops::set_property_does(
                                        w4,
                                        dest,
                                        "zboot:primary"@,
                                        "off"@,
                                    ).0,
                                    Ok(()),
                                )
                            }
                        },
                    }
                }
            },
        },
    }
}

fn pair_up<R: Runner>(r: &mut R, src: &str, dest: &str, mode: PairedMode) -> (res: Result<(), Error>)
    ensures
        sub::did(final(r).world(), res) == pair_up_does(old(r).world(), src@, dest@, mode),
{
    proof {
        reveal(pair_up_does);
    }
    match mode {
        PairedMode::Existing => Ok(()),
        PairedMode::AdHocUnpaired => {
            let _ = zfs_ops::clear_pair_pointer(r, dest);
            Ok(())
        },
        PairedMode::BootstrapPaired => {
            let to_dest = match parse_pair_from_ds(dest) {
                Err(e) => return Err(e),
                Ok(p) => p,
            };
            let to_src = match parse_pair_from_ds(src) {
                Err(e) => return Err(e),
                Ok(p) => p,
            };
            if let Err(e) = zfs_ops::write_pair_pointer(r, src, &to_dest) {
                return Err(e);
            }
            let _ = zfs_ops::set_property_tolerant(r, src, "zboot:primary", "on");
            match zfs_ops::read_pair_pointer(r, dest) {
                Err(e) => Err(e),
                Ok(Some(_)) => {
                    let _ = zfs_ops::set_property_tolerant(r, src, "zboot:primary", "on");
                    Ok(())
                },
                Ok(None) => {
                    if let Err(e) = zfs_ops::write_pair_pointer(r, dest, &to_src) {
                        return Err(e);
                    }
                    let _ = zfs_ops::set_property_tolerant(r, dest, "zboot:primary", "off");
                    Ok(())
                },
            }
        },
    }
}

/// Destroys the stale anchors on both sides, except the snapshot just sent.
pub open spec fn prune_both_does(w: World, src: Seq<char>, dest: Seq<char>, anchor: Seq<char>) -> World {
    let w1 = zfs_ops::prune_old_anchors_does(w, src, anchor);
    let leaf = anchor.skip(text::position(anchor, '@') + 1);
    zfs_ops::prune_old_anchors_does(w1, dest, dest + "@"@ + leaf)
}

/// Destroys the stale anchors on both sides, except the snapshot just sent.
pub fn prune_both<R: Runner>(r: &mut R, src: &str, dest: &str, anchor: &str)
    requires
        anchor@.contains('@'),
    ensures
        final(r).world() == prune_both_does(old(r).world(), src@, dest@, anchor@),
{
    zfs_ops::prune_old_anchors(r, src, anchor);
    if let Some((_, leaf)) = text::split_once(anchor, '@') {
        let kept: String = text::cat3(dest, "@", leaf);
        zfs_ops::prune_old_anchors(r, dest, kept.as_str());
    }
}

/// What follows a transfer that succeeded.
#[verifier::opaque]
pub open spec fn settle_does(
    w: World,
    src: Seq<char>,
    dest: Seq<char>,
    mode: PairedMode,
    anchor: Seq<char>,
    rewind: Option<Seq<char>>,
) -> (World, Result<(), Seq<char>>) {
    let (w1, a) = zfs_ops::set_be_contract_does(w, dest);
    if a is Err {
        (w1, a)
    } else {
        let (w2, b) = zfs_ops::set_property_does(w1, dest, "readonly"@, "on"@);
        if b is Err {
            (w2, b)
        } else {
            match rewind {
                Some(bound) => (
                    w2.say("    rewound to "@ + bound + " (dest readonly)"@),
                    Ok(()),
                ),
                None => {
                    let (w3, c) = pair_up_does(w2, src, dest, mode);
                    if c is Err {
                        (w3, c)
                    } else {
                        (
                            prune_both_does(w3, src, dest, anchor).say(
                                "    pushed (dest readonly)"@,
                            ),
                            Ok(()),
                        )
                    }
                },
            }
        }
    }
}

fn settle<R: Runner>(
    r: &mut R,
    src: &str,
    dest: &str,
    mode: PairedMode,
    anchor: &str,
    rewind: &Option<String>,
) -> (res: Result<(), Error>)
    requires
        anchor@.contains('@'),
    ensures
        sub::did(final(r).world(), res) == settle_does(
            old(r).world(),
            src@,
            dest@,
            mode,
            anchor@,
            rewind.deep_view(),
        ),
{
    proof {
        reveal(settle_does);
    }
    if let Err(e) = zfs_ops::set_be_contract(r, dest) {
        return Err(e);
    }
    if let Err(e) = zfs_ops::set_readonly_tolerant(r, dest, "on") {
        return Err(e);
    }
    match rewind {
        Some(bound) => {
            let line: String = text::cat3("    rewound to ", bound.as_str(), " (dest readonly)");
            r.say(line.as_str());
            Ok(())
        },
        None => {
            if let Err(e) = pair_up(r, src, dest, mode) {
                return Err(e);
            }
            prune_both(r, src, dest, anchor);
            r.say("    pushed (dest readonly)");
            Ok(())
        },
    }
}

/// The line that announces a push.
pub open spec fn push_line(src: Seq<char>, dest: Seq<char>, bound: Option<Seq<char>>) -> Seq<char> {
    match bound {
        Some(snap) => "  push "@ + src + "@"@ + snap + " \u{2192} "@ + dest,
        None => "  push "@ + src + " \u{2192} "@ + dest,
    }
}

/// What is done once the data may move.
#[verifier::opaque]
pub open spec fn transfer_and_settle_does(
    w: World,
    src: Seq<char>,
    dest: Seq<char>,
    mode: PairedMode,
    anchor: Seq<char>,
    rewind: Option<Seq<char>>,
    there: bool,
) -> (World, Result<(), Seq<char>>) {
    let (w1, a) = if there {
        (w, Ok(()))
    } else {
        zfs_ops::ensure_root_container_does(w, text::before(dest, '/'))
    };
    if a is Err {
        (w1, a)
    } else {
        let (w2, opened) = open_dest_does(w1, dest, there);
        match opened {
            Err(m) => (w2, Err(m)),
            Ok(was_readonly) => {
                let (w3, moved) = move_data_does(w2, src, dest, anchor, rewind, there);
                match moved {
                    Err(m) => (w3, Err(m)),
                    Ok(Err(m)) => (
                        if was_readonly {
                            zfs_ops::set_property_does(w3, dest, "readonly"@, "on"@).0
                        } else {
                            w3
                        },
                        Err(m),
                    ),
                    Ok(Ok(_)) => settle_does(w3, src, dest, mode, anchor, rewind),
                }
            },
        }
    }
}

fn transfer_and_settle<R: Runner>(
    r: &mut R,
    src: &str,
    dest: &str,
    mode: PairedMode,
    anchor: &str,
    rewind: &Option<String>,
    there: bool,
) -> (res: Result<(), Error>)
    requires
        anchor@.contains('@'),
    ensures
        sub::did(final(r).world(), res) == transfer_and_settle_does(
            old(r).world(),
            src@,
            dest@,
            mode,
            anchor@,
            rewind.deep_view(),
            there,
        ),
{
    proof {
        reveal(transfer_and_settle_does);
    }
    if !there {
        if let Err(e) = zfs_ops::ensure_root_container(r, text::head(dest, '/')) {
            return Err(e);
        }
    }
    let was_readonly: bool = match open_dest(r, dest, there) {
        Err(e) => return Err(e),
        Ok(b) => b,
    };
    match move_data(r, src, dest, anchor, rewind, there) {
        Err(e) => Err(e),
        Ok(Err(e)) => {
            if was_readonly {
                let _ = zfs_ops::set_readonly_tolerant(r, dest, "on");
            }
            Err(e)
        },
        Ok(Ok(_)) => settle(r, src, dest, mode, anchor, rewind),
    }
}

/// The checks of a push, which come before any change: whether the destination
/// is there, that it is not mounted writable, that it has not diverged, and
/// whether the push is a rewind.
#[verifier::opaque]
pub open spec fn push_checks_does(
    w: World,
    src: Seq<char>,
    dest: Seq<char>,
    bound: Option<Seq<char>>,
    force: bool,
) -> (World, Result<(bool, Option<Seq<char>>), Seq<char>>) {
    let (w1, found) = zfs_ops::dataset_exists_does(w, dest);
    let there = zfs_ops::exists_or_not(found);
    let (w2, a) = refuse_mounted_does(w1, dest, there);
    match a {
        Err(m) => (w2, Err(m)),
        Ok(_) => {
            let (w3, b) = check_divergence_does(w2, src, dest, there, force);
            match b {
                Err(m) => (w3, Err(m)),
                Ok(_) => {
                    let (w4, c) = check_rewind_does(w3, src, dest, bound, there, force);
                    match c {
                        Err(m) => (w4, Err(m)),
                        Ok(rewind) => (w4, Ok((there, rewind))),
                    }
                },
            }
        },
    }
}

fn push_checks<R: Runner>(r: &mut R, src: &str, dest: &str, bound: Option<&str>, force: bool) -> (res:
    Result<(bool, Option<String>), Error>)
    ensures
        sub::did(final(r).world(), res) == push_checks_does(
            old(r).world(),
            src@,
            dest@,
            bound.deep_view(),
            force,
        ),
{
    proof {
        reveal(push_checks_does);
    }
    let there: bool = zfs_ops::is_there(r, dest);
    if let Err(e) = refuse_mounted(r, dest, there) {
        return Err(e);
    }
    if let Err(e) = check_divergence(r, src, dest, there, force) {
        return Err(e);
    }
    match check_rewind(r, src, dest, bound, there, force) {
        Err(e) => Err(e),
        Ok(rewind) => Ok((there, rewind)),
    }
}

/// One push: the checks, which refuse before anything is changed; then the
/// anchor, the transfer, and what follows it.
#[verifier::opaque]
pub open spec fn push_one_does(
    w: World,
    src: Seq<char>,
    dest: Seq<char>,
    mode: PairedMode,
    bound: Option<Seq<char>>,
    force: bool,
) -> (World, Result<(), Seq<char>>) {
    let (w1, checked) = push_checks_does(
        w.say(push_line(src, dest, bound)),
        src,
        dest,
        bound,
        force,
    );
    match checked {
        Err(m) => (w1, Err(m)),
        Ok((there, rewind)) => {
            let (w2, d) = pick_anchor_does(w1, src, bound);
            match d {
                Err(m) => (w2, Err(m)),
                Ok(anchor) => transfer_and_settle_does(
                    w2,
                    src,
                    dest,
                    mode,
                    anchor,
                    rewind,
                    there,
                ),
            }
        },
    }
}

/// Pushes one boot environment to one destination.
pub fn push_one<R: Runner>(
    r: &mut R,
    src: &str,
    dest: &str,
    mode: PairedMode,
    bounded_snap: Option<&str>,
    force: bool,
) -> (res: Result<(), Error>)
    ensures
        sub::did(final(r).world(), res) == push_one_does(
            old(r).world(),
            src@,
            dest@,
            mode,
            bounded_snap.deep_view(),
            force,
        ),
{
    proof {
        reveal(push_one_does);
    }
    let line: String = match bounded_snap {
        Some(snap) => text::cat6("  push ", src, "@", snap, " \u{2192} ", dest),
        None => text::cat4("  push ", src, " \u{2192} ", dest),
    };
    r.say(line.as_str());
    let (there, rewind) = match push_checks(r, src, dest, bounded_snap, force) {
        Err(e) => return Err(e),
        Ok(x) => x,
    };
    let ghost w1 = r.world();
    let anchor: String = match pick_anchor(r, src, bounded_snap) {
        Err(e) => return Err(e),
        Ok(a) => a,
    };
    proof {
        lemma_anchor_has_at(w1, src@, bounded_snap.deep_view());
    }
    transfer_and_settle(r, src, dest, mode, anchor.as_str(), &rewind, there)
}

proof fn lemma_anchor_has_at(w: World, src: Seq<char>, bound: Option<Seq<char>>)
    ensures
        pick_anchor_does(w, src, bound).1 matches Ok(a) ==> a.contains('@'),
{
    reveal(pick_anchor_does);
    reveal_strlit("@");
    if let Ok(a) = pick_anchor_does(w, src, bound).1 {
        assert(a[src.len() as int] == '@');
    }
}

// ---------------------------------------------------------------------------
// The verb
// ---------------------------------------------------------------------------

/// What `--to` names: a pool, where the destination has the source's name and
/// becomes its peer; or a full path, which becomes a copy on its own.
pub open spec fn to_target(src: Seq<char>, spec: Seq<char>) -> Result<
    (Seq<char>, PairedMode),
    Seq<char>,
> {
    if spec.contains('/') {
        if model::pair_of(spec) is None {
            Err(
                "--to "@ + text::quoted_text(spec)
                    + ": expected `<pool>` (same name as source) or `<pool>/ROOT/<other-name>` (full path)"@,
            )
        } else {
            Ok((spec, PairedMode::AdHocUnpaired))
        }
    } else {
        Ok((model::be_dataset(spec, text::after_last(src, '/')), PairedMode::BootstrapPaired))
    }
}

/// Reads the `--to` argument.
pub fn parse_to_target(src_dataset: &str, spec: &str) -> (res: Result<(String, PairedMode), Error>)
    ensures
        error::outcome(res) == to_target(src_dataset@, spec@),
{
    if text::has(spec, '/') {
        if PairPointer::parse_dataset(spec).is_none() {
            let q: String = text::quoted(spec);
            return Err(
                Error::from_text(
                    text::cat3(
                        "--to ",
                        q.as_str(),
                        ": expected `<pool>` (same name as source) or `<pool>/ROOT/<other-name>` (full path)",
                    ),
                ),
            );
        }
        return Ok((spec.to_owned(), PairedMode::AdHocUnpaired));
    }
    Ok((model::be_path(spec, text::tail(src_dataset, '/')), PairedMode::BootstrapPaired))
}

/// The boot environment that an optional argument names: the argument, or the
/// one that is running.
#[verifier::opaque]
pub open spec fn named_or_running_does(w: World, be: Option<Seq<char>>) -> (World, Result<
    Seq<char>,
    Seq<char>,
>) {
    match be {
        Some(t) => (w, Ok(t)),
        None => {
            let (w1, ds) = zfs_ops::discover_booted_dataset_does(w);
            (
                w1,
                error::in_context(
                    ds,
                    "no BE given; can't determine the running BE from /proc/self/mounts"@,
                ),
            )
        },
    }
}

/// The argument, or the boot environment that is running.
pub fn named_or_running<R: Runner>(r: &mut R, be: &Option<String>) -> (res: Result<String, Error>)
    ensures
        sub::did(final(r).world(), res) == named_or_running_does(old(r).world(), be.deep_view()),
{
    proof {
        reveal(named_or_running_does);
    }
    match be {
        Some(t) => Ok(t.clone()),
        None => {
            let ds = zfs_ops::discover_booted_dataset(r);
            error::with_context(
                ds,
                "no BE given; can't determine the running BE from /proc/self/mounts",
            )
        },
    }
}

/// The source's checks, in order: it exists, its pool is there for boot
/// environments, a warning where it is the mirror side, the bound exists.
#[verifier::opaque]
pub open spec fn check_source_does(w: World, src: Seq<char>, bound: Option<Seq<char>>) -> (
    World,
    Result<(), Seq<char>>,
) {
    let pool = text::before(src, '/');
    let (w1, there) = zfs_ops::dataset_exists_does(w, src);
    match there {
        Err(m) => (w1, Err(m)),
        Ok(false) => (w1, Err("source BE "@ + src + " does not exist"@)),
        Ok(true) => {
            let (w2, role) = zfs_ops::require_role_root_does(w1, pool);
            if role is Err {
                (w2, error::in_context(role, "source pool "@ + pool))
            } else {
                let (w3, primary) = zfs_ops::dataset_property_does(w2, src, "zboot:primary"@);
                let w4 = if primary == Ok::<Seq<char>, Seq<char>>("off"@) {
                    w3.say(
                        "  warning: "@ + src
                            + " has zboot:primary=off (mirror side).\n  Pushing from the mirror side reverses canonical direction. Did you mean `primary "@
                            + src + "` first?"@,
                    )
                } else {
                    w3
                };
                match bound {
                    None => (w4, Ok(())),
                    Some(snap) => {
                        let full = src + "@"@ + snap;
                        let (w5, known) = zfs_ops::snapshot_exists_does(w4, full);
                        match known {
                            Err(m) => (w5, Err(m)),
                            Ok(false) => (
                                w5,
                                Err("source snapshot "@ + full + " does not exist"@),
                            ),
                            Ok(true) => (w5, Ok(())),
                        }
                    },
                }
            }
        },
    }
}

fn check_source<R: Runner>(r: &mut R, src: &str, bound: Option<&str>) -> (res: Result<(), Error>)
    ensures
        sub::did(final(r).world(), res) == check_source_does(
            old(r).world(),
            src@,
            bound.deep_view(),
        ),
{
    proof {
        reveal(check_source_does);
    }
    match zfs_ops::dataset_exists(r, src) {
        Err(e) => return Err(e),
        Ok(there) => if !there {
            return Err(Error::from_text(text::cat3("source BE ", src, " does not exist")));
        },
    }
    let pool: &str = text::head(src, '/');
    if let Err(e) = zfs_ops::require_role_root(r, pool) {
        let doing: String = text::cat2("source pool ", pool);
        return Err(e.context(doing.as_str()));
    }
    if let Ok(val) = zfs_ops::dataset_property(r, src, "zboot:primary") {
        if text::eq(val.as_str(), "off") {
            let line: String = text::cat5(
                "  warning: ",
                src,
                " has zboot:primary=off (mirror side).\n  Pushing from the mirror side reverses canonical direction. Did you mean `primary ",
                src,
                "` first?",
            );
            r.say(line.as_str());
        }
    }
    match bound {
        None => Ok(()),
        Some(snap) => {
            let full: String = text::cat3(src, "@", snap);
            match zfs_ops::snapshot_exists(r, full.as_str()) {
                Err(e) => Err(e),
                Ok(known) => if known {
                    Ok(())
                } else {
                    Err(
                        Error::from_text(
                            text::cat3("source snapshot ", full.as_str(), " does not exist"),
                        ),
                    )
                },
            }
        },
    }
}

/// Where the push goes and what it does to the pair pointers: the peer, which
/// must be there; or what `--to` names, on a pool for boot environments.
#[verifier::opaque]
pub open spec fn pick_dest_does(w: World, src: Seq<char>, to: Option<Seq<char>>) -> (World, Result<
    (Seq<char>, PairedMode),
    Seq<char>,
>) {
    match to {
        None => {
            let (w1, pointer) = zfs_ops::read_pair_pointer_does(w, src);
            match pointer {
                Err(m) => (w1, Err(m)),
                Ok(None) => (
                    w1,
                    Err(
                        src
                            + " has no zboot:mirror peer; supply --to <pool> to bootstrap, or --to <pool>/ROOT/<name> for an ad-hoc copy"@,
                    ),
                ),
                Ok(Some(k)) => {
                    let peer = model::pair_text(k);
                    let (w2, there) = zfs_ops::dataset_exists_does(w1, peer);
                    match there {
                        Err(m) => (w2, Err(m)),
                        Ok(true) => (w2, Ok((peer, PairedMode::Existing))),
                        Ok(false) => (
                            w2,
                            Err(
                                src + "'s zboot:mirror points at "@ + peer
                                    + ", but that dataset doesn't exist. The pair pointer is dangling (status shows it as `[target missing]`). Either:\n    zboot unpair "@
                                    + src
                                    + "                  # clear the stale pointer\n    zboot push "@
                                    + src
                                    + " --to <pool>        # bootstrap a fresh peer"@,
                            ),
                        ),
                    }
                },
            }
        },
        Some(spec) => match to_target(src, spec) {
            Err(m) => (w, Err(m)),
            Ok((dst, mode)) => {
                let pool = text::before(dst, '/');
                let w1 = if pool == text::before(src, '/') {
                    w.say(
                        "  warning: same-pool push will full-copy data into "@ + dst
                            + ". If you want a cheaper clone, use `zboot fork` instead. Proceeding (full-copy creates an independent dataset, no clone dependency)."@,
                    )
                } else {
                    w
                };
                let (w2, role) = zfs_ops::require_role_root_does(w1, pool);
                match role {
                    Err(m) => (w2, Err(error::within("dest pool "@ + pool, m))),
                    Ok(_) => (w2, Ok((dst, mode))),
                }
            },
        },
    }
}

fn pick_dest<R: Runner>(r: &mut R, src: &str, to: &Option<String>) -> (res: Result<
    (String, PairedMode),
    Error,
>)
    ensures
        sub::did(final(r).world(), res) == pick_dest_does(old(r).world(), src@, to.deep_view()),
{
    proof {
        reveal(pick_dest_does);
    }
    match to {
        None => {
            let peer: String = match zfs_ops::read_pair_pointer(r, src) {
                Err(e) => return Err(e),
                Ok(None) => {
                    return Err(
                        Error::from_text(
                            text::cat2(
                                src,
                                " has no zboot:mirror peer; supply --to <pool> to bootstrap, or --to <pool>/ROOT/<name> for an ad-hoc copy",
                            ),
                        ),
                    );
                },
                Ok(Some(p)) => p.render(),
            };
            match zfs_ops::dataset_exists(r, peer.as_str()) {
                Err(e) => Err(e),
                Ok(there) => if there {
                    Ok((peer, PairedMode::Existing))
                } else {
                    Err(
                        Error::from_text(
                            text::cat8(
                                src,
                                "'s zboot:mirror points at ",
                                peer.as_str(),
                                ", but that dataset doesn't exist. The pair pointer is dangling (status shows it as `[target missing]`). Either:\n    zboot unpair ",
                                src,
                                "                  # clear the stale pointer\n    zboot push ",
                                src,
                                " --to <pool>        # bootstrap a fresh peer",
                            ),
                        ),
                    )
                },
            }
        },
        Some(spec) => {
            let (dst, mode) = match parse_to_target(src, spec.as_str()) {
                Err(e) => return Err(e),
                Ok(x) => x,
            };
            let pool: &str = text::head(dst.as_str(), '/');
            if text::eq(pool, text::head(src, '/')) {
                let line: String = text::cat3(
                    "  warning: same-pool push will full-copy data into ",
                    dst.as_str(),
                    ". If you want a cheaper clone, use `zboot fork` instead. Proceeding (full-copy creates an independent dataset, no clone dependency).",
                );
                r.say(line.as_str());
            }
            match zfs_ops::require_role_root(r, pool) {
                Err(e) => {
                    let doing: String = text::cat2("dest pool ", pool);
                    Err(e.context(doing.as_str()))
                },
                Ok(_) => Ok((dst, mode)),
            }
        },
    }
}

/// A bounded bootstrap makes a copy on its own: a pair that is pinned to one
/// snapshot would not be a pair.
pub open spec fn mode_for(mode: PairedMode, bound: Option<Seq<char>>) -> PairedMode {
    if bound is Some && mode == PairedMode::BootstrapPaired {
        PairedMode::AdHocUnpaired
    } else {
        mode
    }
}

/// `push`, by its arguments.
pub open spec fn run_does(
    w: World,
    be: Option<Seq<char>>,
    to: Option<Seq<char>>,
    force: bool,
) -> (World, Result<(), Seq<char>>) {
    let (w1, named) = named_or_running_does(w, be);
    match named {
        Err(m) => (w1, Err(m)),
        Ok(arg) => {
            let (name, bound) = be_arg::be_and_snap(arg);
            let (w2, resolved) = be_arg::resolve_be_dataset_does(w1, name);
            match resolved {
                Err(m) => (w2, Err(m)),
                Ok(src) => {
                    let (w3, checked) = check_source_does(w2, src, bound);
                    if checked is Err {
                        (w3, checked)
                    } else {
                        let (w4, picked) = pick_dest_does(w3, src, to);
                        match picked {
                            Err(m) => (w4, Err(m)),
                            Ok((dest, mode)) => push_one_does(
                                w4,
                                src,
                                dest,
                                mode_for(mode, bound),
                                bound,
                                force,
                            ),
                        }
                    }
                },
            }
        },
    }
}

/// Runs `push`.
pub fn run<R: Runner>(r: &mut R, args: &PushArgs) -> (res: Result<(), Error>)
    ensures
        sub::did(final(r).world(), res) == run_does(
            old(r).world(),
            args.be.deep_view(),
            args.to.deep_view(),
            args.force,
        ),
{
    let arg: String = match named_or_running(r, &args.be) {
        Err(e) => return Err(e),
        Ok(a) => a,
    };
    let (name, bound) = be_arg::split_be_snap(arg.as_str());
    let src: String = match be_arg::resolve_be_dataset(r, name.as_str()) {
        Err(e) => return Err(e),
        Ok(s) => s,
    };
    let bound_ref: Option<&str> = match &bound {
        Some(b) => Some(b.as_str()),
        None => None,
    };
    if let Err(e) = check_source(r, src.as_str(), bound_ref) {
        return Err(e);
    }
    let (dest, mode) = match pick_dest(r, src.as_str(), &args.to) {
        Err(e) => return Err(e),
        Ok(x) => x,
    };
    let mode: PairedMode = if bound.is_some() && mode == PairedMode::BootstrapPaired {
        PairedMode::AdHocUnpaired
    } else {
        mode
    };
    push_one(r, src.as_str(), dest.as_str(), mode, bound_ref, args.force)
}

// ---------------------------------------------------------------------------
// Laws
// ---------------------------------------------------------------------------

proof fn lemma_checks_only_look(
    w: World,
    src: Seq<char>,
    dest: Seq<char>,
    bound: Option<Seq<char>>,
)
    ensures
        sub::only_looked(w, push_checks_does(w, src, dest, bound, false).0),
{
    reveal(push_checks_does);
    reveal(refuse_mounted_does);
    reveal(check_divergence_does);
    reveal(check_rewind_does);
    let (w1, found) = zfs_ops::dataset_exists_does(w, dest);
    let there = zfs_ops::exists_or_not(found);
    zfs_ops::lemma_exists_looks(w, dest);
    let (w2, a) = refuse_mounted_does(w1, dest, there);
    zfs_ops::lemma_mounted_looks(w1, dest);
    let (wm, mounted) = zfs_ops::is_mounted_does(w1, dest);
    zfs_ops::lemma_property_looks(wm, dest, "readonly"@);
    assert(sub::only_looked(w, w2));
    if a is Ok {
        let (w3, b) = check_divergence_does(w2, src, dest, there, false);
        zfs_ops::lemma_only_on_right_looks(w2, src, dest);
        assert(sub::only_looked(w, w3));
        if b is Ok {
            if let Some(snap) = bound {
                zfs_ops::lemma_after_bound_looks(w3, src, dest, snap);
            }
        }
    }
}

/// Without `--force` the checks of a push only look: whatever they find, and
/// whether or not the push is then refused, no command that changes anything
/// has been run by the time they are done.
pub proof fn law_checks_change_nothing(
    w: World,
    src: Seq<char>,
    dest: Seq<char>,
    bound: Option<Seq<char>>,
)
    ensures
        sub::only_looked(w, push_checks_does(w, src, dest, bound, false).0),
{
    lemma_checks_only_look(w, src, dest, bound);
}

/// A push that the checks refuse, for a mounted destination, for divergence, for
/// a rewind or for a wrong confirmation, ends there with the check's error. It
/// has changed nothing: all it did was to look, and with `--force` to ask.
pub proof fn law_refused_push_changes_nothing(
    w: World,
    src: Seq<char>,
    dest: Seq<char>,
    mode: PairedMode,
    bound: Option<Seq<char>>,
    force: bool,
)
    requires
        push_checks_does(
            w.say(push_line(src, dest, bound)),
            src,
            dest,
            bound,
            force,
        ).1 is Err,
    ensures
        push_one_does(w, src, dest, mode, bound, force).1 is Err,
        sub::did_only(w, push_one_does(w, src, dest, mode, bound, force).0, effects::asking()),
        !force ==> sub::only_looked(w, push_one_does(w, src, dest, mode, bound, force).0),
{
    reveal(push_one_does);
    let p = effects::asking();
    let w0 = w.say(push_line(src, dest, bound));
    assert(sub::only_looked(w, w0));
    effects::lemma_looked(w, w0, p);
    lemma_checks(w0, src, dest, bound, force, p);
    effects::lemma_then(w, w0, push_checks_does(w0, src, dest, bound, force).0, p);
    lemma_checks_only_look(w0, src, dest, bound);
}

/// A destination with snapshots that the source does not have is refused
/// without `--force`, unless it was refused before for being mounted.
pub proof fn law_divergence_is_refused(
    w: World,
    src: Seq<char>,
    dest: Seq<char>,
    extras: Seq<Seq<char>>,
)
    requires
        zfs_ops::snapshots_only_on_right_does(w, src, dest).1 == Ok::<Seq<Seq<char>>, Seq<char>>(
            extras,
        ),
        extras.len() > 0,
    ensures
        check_divergence_does(w, src, dest, true, false).1 == Err::<(), Seq<char>>(
            divergence_text(src, dest, extras),
        ),
{
    reveal(check_divergence_does);
}

/// With `--force` a diverged destination is overwritten only after the
/// operator typed its name.
pub proof fn law_force_needs_the_name(
    w: World,
    src: Seq<char>,
    dest: Seq<char>,
    extras: Seq<Seq<char>>,
)
    requires
        zfs_ops::snapshots_only_on_right_does(w, src, dest).1 == Ok::<Seq<Seq<char>>, Seq<char>>(
            extras,
        ),
        extras.len() > 0,
        check_divergence_does(w, src, dest, true, true).1 is Ok,
    ensures
        ({
            let n = check_divergence_does(w, src, dest, true, true).0.calls.len();
            n > 0 && check_divergence_does(w, src, dest, true, true).0.calls[n - 1] == Call::Ask
                && text::trimmed((w.replies)((n - 1) as nat).stdout) == dest
        }),
{
    reveal(check_divergence_does);
    let w1 = zfs_ops::snapshots_only_on_right_does(w, src, dest).0;
    let label = "push --force will run: zfs receive -F (destroys dest-only snapshots on "@ + dest
        + ")"@;
    zfs_ops::lemma_only_on_right_looks(w, src, dest);
    zfs_ops::lemma_confirm_asks(w1, label, dest, extras);
}

proof fn lemma_checks(
    w: World,
    src: Seq<char>,
    dest: Seq<char>,
    bound: Option<Seq<char>>,
    force: bool,
    p: spec_fn(Call) -> bool,
)
    requires
        p(Call::Ask),
    ensures
        sub::did_only(w, push_checks_does(w, src, dest, bound, force).0, p),
        push_checks_does(w, src, dest, bound, force).1 matches Ok(x) ==> effects::is_of(x.1, dest),
{
    reveal(push_checks_does);
    let (w1, found) = zfs_ops::dataset_exists_does(w, dest);
    let there = zfs_ops::exists_or_not(found);
    zfs_ops::lemma_exists_looks(w, dest);
    effects::lemma_looked(w, w1, p);
    let (w2, a) = refuse_mounted_does(w1, dest, there);
    lemma_refuse_mounted(w1, dest, there);
    effects::lemma_looked(w1, w2, p);
    effects::lemma_then(w, w1, w2, p);
    let (w3, b) = check_divergence_does(w2, src, dest, there, force);
    lemma_divergence(w2, src, dest, there, force, p);
    effects::lemma_then(w, w2, w3, p);
    let w4 = check_rewind_does(w3, src, dest, bound, there, force).0;
    lemma_rewind(w3, src, dest, bound, there, force, p);
    effects::lemma_then(w, w3, w4, p);
}

proof fn lemma_refuse_mounted(w: World, dest: Seq<char>, there: bool)
    ensures
        sub::only_looked(w, refuse_mounted_does(w, dest, there).0),
{
    reveal(refuse_mounted_does);
    zfs_ops::lemma_mounted_looks(w, dest);
    zfs_ops::lemma_property_looks(zfs_ops::is_mounted_does(w, dest).0, dest, "readonly"@);
}

proof fn lemma_divergence(
    w: World,
    src: Seq<char>,
    dest: Seq<char>,
    there: bool,
    force: bool,
    p: spec_fn(Call) -> bool,
)
    requires
        p(Call::Ask),
    ensures
        sub::did_only(w, check_divergence_does(w, src, dest, there, force).0, p),
{
    reveal(check_divergence_does);
    zfs_ops::lemma_only_on_right_looks(w, src, dest);
    let (w1, found) = zfs_ops::snapshots_only_on_right_does(w, src, dest);
    effects::lemma_looked(w, w1, p);
    if let Ok(extras) = found {
        let label = "push --force will run: zfs receive -F (destroys dest-only snapshots on "@
            + dest + ")"@;
        effects::lemma_confirm(w1, label, dest, extras, p);
        effects::lemma_then(
            w,
            w1,
            zfs_ops::confirm_truncate_does(w1, label, dest, extras).0,
            p,
        );
    }
}

proof fn lemma_rewind(
    w: World,
    src: Seq<char>,
    dest: Seq<char>,
    bound: Option<Seq<char>>,
    there: bool,
    force: bool,
    p: spec_fn(Call) -> bool,
)
    requires
        p(Call::Ask),
    ensures
        sub::did_only(w, check_rewind_does(w, src, dest, bound, there, force).0, p),
        check_rewind_does(w, src, dest, bound, there, force).1 matches Ok(b) ==> effects::is_of(
            b,
            dest,
        ),
{
    reveal(check_rewind_does);
    if let Some(snap) = bound {
        zfs_ops::lemma_after_bound_looks(w, src, dest, snap);
        let (w1, found) = zfs_ops::dest_snapshots_after_bound_does(w, src, dest, snap);
        effects::lemma_looked(w, w1, p);
        if let Ok(after) = found {
            let label = "push --force will run: zfs rollback -r "@ + (dest + "@"@ + snap)
                + " (rewinds dest, destroying snapshots taken after the bound)"@;
            effects::lemma_confirm(w1, label, dest, after, p);
            effects::lemma_then(
                w,
                w1,
                zfs_ops::confirm_truncate_does(w1, label, dest, after).0,
                p,
            );
        }
    }
}

proof fn lemma_pick_anchor(
    w: World,
    src: Seq<char>,
    bound: Option<Seq<char>>,
    p: spec_fn(Call) -> bool,
)
    requires
        effects::allows(p, src),
    ensures
        sub::did_only(w, pick_anchor_does(w, src, bound).0, p),
{
    reveal(pick_anchor_does);
    if bound is None {
        let w1 = w.after(Call::Clock);
        let name = zfs_ops::anchor_name(w.reply().nanos as nat);
        effects::lemma_snapshot(w1, src, name, p);
        effects::lemma_then(w, w1, zfs_ops::take_snapshot_does(w1, src, name).0, p);
    }
}

/// Opening the destination concerns it.
pub proof fn lemma_open_dest(w: World, dest: Seq<char>, there: bool, p: spec_fn(Call) -> bool)
    requires
        effects::allows(p, dest),
    ensures
        sub::did_only(w, open_dest_does(w, dest, there).0, p),
{
    reveal(open_dest_does);
    let (w1, mounted) = zfs_ops::is_mounted_does(w, dest);
    zfs_ops::lemma_mounted_looks(w, dest);
    effects::lemma_looked(w, w1, p);
    let w2 = if mounted {
        zfs_ops::dataset_property_does(w1, dest, "readonly"@).0
    } else {
        w1
    };
    zfs_ops::lemma_property_looks(w1, dest, "readonly"@);
    effects::lemma_looked(w1, w2, p);
    effects::lemma_then(w, w1, w2, p);
    zfs_ops::lemma_property_looks(w2, dest, "readonly"@);
    let w3 = zfs_ops::dataset_property_does(w2, dest, "readonly"@).0;
    effects::lemma_looked(w2, w3, p);
    effects::lemma_then(w, w2, w3, p);
    effects::lemma_set(w3, dest, "readonly"@, "off"@, p);
    effects::lemma_then(
        w,
        w3,
        zfs_ops::set_property_does(w3, dest, "readonly"@, "off"@).0,
        p,
    );
}

proof fn lemma_say_names_looks(w: World, names: Seq<Seq<char>>)
    ensures
        sub::only_looked(w, say_names_does(w, names)),
    decreases names.len(),
{
    if names.len() > 0 {
        lemma_say_names_looks(w, names.drop_last());
    }
}

proof fn lemma_warn_lost_looks(w: World, src: Seq<char>, anchor: Seq<char>)
    ensures
        sub::only_looked(w, warn_lost_does(w, src, anchor)),
{
    reveal(warn_lost_does);
    zfs_ops::lemma_list_looks(w, src);
    let (w1, listed) = zfs_ops::list_snapshots_does(w, src);
    if let Ok(snaps) = listed {
        let lost = left_behind(snaps, anchor);
        let wa = w1.say(
            "  warning: source is a clone; bootstrap uses `zfs send -p` and won't transfer these own snapshots to dest:"@,
        );
        lemma_say_names_looks(wa, zfs_ops::previewed(lost));
    }
}

proof fn lemma_move_data(
    w: World,
    src: Seq<char>,
    dest: Seq<char>,
    anchor: Seq<char>,
    rewind: Option<Seq<char>>,
    there: bool,
    p: spec_fn(Call) -> bool,
)
    requires
        effects::allows(p, dest),
        effects::is_of(rewind, dest),
    ensures
        sub::did_only(w, move_data_does(w, src, dest, anchor, rewind, there).0, p),
{
    reveal(move_data_does);
    match rewind {
        Some(bound) => {
            effects::lemma_rewind(w, dest, bound, p);
        },
        None => {
            let (w1, prev) = if there {
                zfs_ops::previous_anchor_on_dest_does(w, src, dest)
            } else {
                (w, Ok(None))
            };
            effects::lemma_previous_looks(w, src, dest);
            effects::lemma_looked(w, w1, p);
            match prev {
                Err(_) => {},
                Ok(Some(from)) => {
                    lemma_sends(w1, from, anchor, dest, p);
                    effects::lemma_then(
                        w,
                        w1,
                        zfs_ops::send_incremental_does(w1, from, anchor, dest).0,
                        p,
                    );
                },
                Ok(None) => {
                    let w2 = zfs_ops::dataset_is_clone_does(w1, src).0;
                    reveal(zfs_ops::dataset_is_clone_does);
                    zfs_ops::lemma_property_looks(w1, src, "origin"@);
                    effects::lemma_looked(w1, w2, p);
                    effects::lemma_then(w, w1, w2, p);
                    let w3 = warn_lost_does(w2, src, anchor);
                    lemma_warn_lost_looks(w2, src, anchor);
                    effects::lemma_looked(w2, w3, p);
                    effects::lemma_then(w, w2, w3, p);
                    lemma_sends(w3, anchor, anchor, dest, p);
                    lemma_sends(w2, anchor, anchor, dest, p);
                    effects::lemma_then(
                        w,
                        w3,
                        zfs_ops::send_standalone_does(w3, anchor, dest).0,
                        p,
                    );
                    effects::lemma_then(w, w2, zfs_ops::send_full_does(w2, anchor, dest).0, p);
                },
            }
        },
    }
}

/// The three sends concern the destination.
pub proof fn lemma_sends(
    w: World,
    from: Seq<char>,
    anchor: Seq<char>,
    dest: Seq<char>,
    p: spec_fn(Call) -> bool,
)
    requires
        effects::allows(p, dest),
    ensures
        sub::did_only(w, zfs_ops::send_standalone_does(w, anchor, dest).0, p),
        sub::did_only(w, zfs_ops::send_full_does(w, anchor, dest).0, p),
        sub::did_only(w, zfs_ops::send_incremental_does(w, from, anchor, dest).0, p),
{
    assert forall|label: Seq<char>, waits: bool, send: Seq<Seq<char>>| sub::did_only(
        w,
        (#[trigger] zfs_ops::transfer_does(w, label, waits, send, dest)).0,
        p,
    ) by {
        effects::lemma_transfer(w, label, waits, send, dest, p);
    }
}

proof fn lemma_pair_up(
    w: World,
    src: Seq<char>,
    dest: Seq<char>,
    mode: PairedMode,
    p: spec_fn(Call) -> bool,
)
    requires
        effects::allows(p, src),
        effects::allows(p, dest),
    ensures
        sub::did_only(w, pair_up_does(w, src, dest, mode).0, p),
{
    reveal(pair_up_does);
    effects::lemma_inherit(w, dest, "zboot:mirror"@, p);
    match (pair_or_error(dest), pair_or_error(src)) {
        (Ok(to_dest), Ok(to_src)) => {
            let w1 = zfs_ops::set_property_does(
                w,
                src,
                "zboot:mirror"@,
                model::pair_text(to_dest),
            ).0;
            effects::lemma_set(w, src, "zboot:mirror"@, model::pair_text(to_dest), p);
            let w2 = zfs_ops::set_property_does(w1, src, "zboot:primary"@, "on"@).0;
            effects::lemma_set(w1, src, "zboot:primary"@, "on"@, p);
            effects::lemma_then(w, w1, w2, p);
            let w3 = zfs_ops::read_pair_pointer_does(w2, dest).0;
            zfs_ops::lemma_property_looks(w2, dest, "zboot:mirror"@);
            effects::lemma_looked(w2, w3, p);
            effects::lemma_then(w, w2, w3, p);
            effects::lemma_set(w3, src, "zboot:primary"@, "on"@, p);
            effects::lemma_then(
                w,
                w3,
                zfs_ops::set_property_does(w3, src, "zboot:primary"@, "on"@).0,
                p,
            );
            let w4 = zfs_ops::set_property_does(
                w3,
                dest,
                "zboot:mirror"@,
                model::pair_text(to_src),
            ).0;
            effects::lemma_set(w3, dest, "zboot:mirror"@, model::pair_text(to_src), p);
            effects::lemma_then(w, w3, w4, p);
            effects::lemma_set(w4, dest, "zboot:primary"@, "off"@, p);
            effects::lemma_then(
                w,
                w4,
                zfs_ops::set_property_does(w4, dest, "zboot:primary"@, "off"@).0,
                p,
            );
        },
        _ => {},
    }
}

/// Pruning both sides concerns both.
pub proof fn lemma_prune_both(
    w: World,
    src: Seq<char>,
    dest: Seq<char>,
    anchor: Seq<char>,
    p: spec_fn(Call) -> bool,
)
    requires
        effects::allows(p, src),
        effects::allows(p, dest),
    ensures
        sub::did_only(w, prune_both_does(w, src, dest, anchor), p),
{
    let w1 = zfs_ops::prune_old_anchors_does(w, src, anchor);
    let leaf = anchor.skip(text::position(anchor, '@') + 1);
    effects::lemma_prune(w, src, anchor, p);
    effects::lemma_prune(w1, dest, dest + "@"@ + leaf, p);
    effects::lemma_then(w, w1, prune_both_does(w, src, dest, anchor), p);
}

proof fn lemma_settle(
    w: World,
    src: Seq<char>,
    dest: Seq<char>,
    mode: PairedMode,
    anchor: Seq<char>,
    rewind: Option<Seq<char>>,
    p: spec_fn(Call) -> bool,
)
    requires
        effects::allows(p, src),
        effects::allows(p, dest),
    ensures
        sub::did_only(w, settle_does(w, src, dest, mode, anchor, rewind).0, p),
        settle_does(w, src, dest, mode, anchor, rewind).1 is Ok ==> {
            let end = settle_does(w, src, dest, mode, anchor, rewind).0;
            effects::took_contract(w, end, dest) && effects::took(
                w,
                end,
                dest,
                "readonly"@,
                "on"@,
            )
        },
{
    reveal(settle_does);
    let end = settle_does(w, src, dest, mode, anchor, rewind).0;
    let (w1, a) = zfs_ops::set_be_contract_does(w, dest);
    effects::lemma_contract(w, dest, p);
    let (w2, b) = zfs_ops::set_property_does(w1, dest, "readonly"@, "on"@);
    effects::lemma_set(w1, dest, "readonly"@, "on"@, p);
    effects::lemma_then(w, w1, w2, p);
    if a is Ok && b is Ok {
        match rewind {
            Some(bound) => {
                assert(sub::did_only(w2, end, p));
            },
            None => {
                let (w3, c) = pair_up_does(w2, src, dest, mode);
                lemma_pair_up(w2, src, dest, mode, p);
                if c is Ok {
                    let w4 = prune_both_does(w3, src, dest, anchor);
                    lemma_prune_both(w3, src, dest, anchor, p);
                    effects::lemma_then(w2, w3, w4, p);
                    assert(sub::did_only(w4, end, p));
                    effects::lemma_then(w2, w4, end, p);
                }
            },
        }
        effects::lemma_then(w, w2, end, p);
        assert(sub::continues(w, w));
        effects::lemma_continues(w1, w2, end);
        effects::lemma_contract_within(w, w, w1, end, dest);
        effects::lemma_took_within(w, w1, w2, end, dest, "readonly"@, "on"@);
    }
}

proof fn lemma_transfer_and_settle(
    w: World,
    src: Seq<char>,
    dest: Seq<char>,
    mode: PairedMode,
    anchor: Seq<char>,
    rewind: Option<Seq<char>>,
    there: bool,
)
    requires
        effects::is_of(rewind, dest),
    ensures
        ({
            let (end, res) = transfer_and_settle_does(
                w,
                src,
                dest,
                mode,
                anchor,
                rewind,
                there,
            );
            &&& sub::did_only(w, end, effects::replication(src, dest))
            &&& res is Ok ==> effects::took_contract(w, end, dest) && effects::took(
                w,
                end,
                dest,
                "readonly"@,
                "on"@,
            )
        }),
{
    reveal(transfer_and_settle_does);
    let p = effects::replication(src, dest);
    let pool = text::before(dest, '/');
    let (w1, a) = if there {
        (w, Ok(()))
    } else {
        zfs_ops::ensure_root_container_does(w, pool)
    };
    effects::lemma_container(w, pool, p);
    assert(sub::did_only(w, w1, p));
    if a is Ok {
        let (w2, opened) = open_dest_does(w1, dest, there);
        lemma_open_dest(w1, dest, there, p);
        effects::lemma_then(w, w1, w2, p);
        if let Ok(was_readonly) = opened {
            let (w3, moved) = move_data_does(w2, src, dest, anchor, rewind, there);
            lemma_move_data(w2, src, dest, anchor, rewind, there, p);
            effects::lemma_then(w, w2, w3, p);
            match moved {
                Err(_) => {},
                Ok(Err(_)) => {
                    effects::lemma_set(w3, dest, "readonly"@, "on"@, p);
                    effects::lemma_then(
                        w,
                        w3,
                        zfs_ops::set_property_does(w3, dest, "readonly"@, "on"@).0,
                        p,
                    );
                },
                Ok(Ok(_)) => {
                    let (end, res) = settle_does(w3, src, dest, mode, anchor, rewind);
                    lemma_settle(w3, src, dest, mode, anchor, rewind, p);
                    effects::lemma_then(w, w3, end, p);
                    assert(sub::continues(end, end));
                    if res is Ok {
                        effects::lemma_contract_within(w, w3, end, end, dest);
                        effects::lemma_took_within(w, w3, end, end, dest, "readonly"@, "on"@);
                    }
                },
            }
        }
    }
}

/// A push changes its two sides and nothing else, however it ends.
pub proof fn law_push_keeps_to_its_sides(
    w: World,
    src: Seq<char>,
    dest: Seq<char>,
    mode: PairedMode,
    bound: Option<Seq<char>>,
    force: bool,
)
    ensures
        sub::did_only(
            w,
            push_one_does(w, src, dest, mode, bound, force).0,
            effects::replication(src, dest),
        ),
{
    lemma_push(w, src, dest, mode, bound, force);
}

/// A push that succeeds leaves a boot environment that is read-only: all its
/// properties have been set and read back.
pub proof fn law_pushed_is_a_readonly_be(
    w: World,
    src: Seq<char>,
    dest: Seq<char>,
    mode: PairedMode,
    bound: Option<Seq<char>>,
    force: bool,
)
    requires
        push_one_does(w, src, dest, mode, bound, force).1 is Ok,
    ensures
        ({
            let end = push_one_does(w, src, dest, mode, bound, force).0;
            effects::took_contract(w, end, dest) && effects::took(
                w,
                end,
                dest,
                "readonly"@,
                "on"@,
            )
        }),
{
    lemma_push(w, src, dest, mode, bound, force);
}

proof fn lemma_push(
    w: World,
    src: Seq<char>,
    dest: Seq<char>,
    mode: PairedMode,
    bound: Option<Seq<char>>,
    force: bool,
)
    ensures
        ({
            let (end, res) = push_one_does(w, src, dest, mode, bound, force);
            &&& sub::did_only(w, end, effects::replication(src, dest))
            &&& res is Ok ==> effects::took_contract(w, end, dest) && effects::took(
                w,
                end,
                dest,
                "readonly"@,
                "on"@,
            )
        }),
{
    reveal(push_one_does);
    let p = effects::replication(src, dest);
    let w0 = w.say(push_line(src, dest, bound));
    assert(sub::did_only(w, w0, p));
    let (w1, checked) = push_checks_does(w0, src, dest, bound, force);
    lemma_checks(w0, src, dest, bound, force, p);
    effects::lemma_then(w, w0, w1, p);
    if let Ok((there, rewind)) = checked {
        let (w2, d) = pick_anchor_does(w1, src, bound);
        lemma_pick_anchor(w1, src, bound, p);
        effects::lemma_then(w, w1, w2, p);
        if let Ok(anchor) = d {
            let (end, res) = transfer_and_settle_does(w2, src, dest, mode, anchor, rewind, there);
            lemma_transfer_and_settle(w2, src, dest, mode, anchor, rewind, there);
            effects::lemma_then(w, w2, end, p);
            assert(sub::continues(end, end));
            if res is Ok {
                effects::lemma_contract_within(w, w2, end, end, dest);
                effects::lemma_took_within(w, w2, end, end, dest, "readonly"@, "on"@);
            }
        }
    }
}

/// Where the transfer fails, a destination that was opened for it is made
/// read-only again, and the failure is handed on.
pub proof fn law_failed_push_closes_the_dest(
    w: World,
    src: Seq<char>,
    dest: Seq<char>,
    mode: PairedMode,
    anchor: Seq<char>,
    rewind: Option<Seq<char>>,
    m: Seq<char>,
)
    requires
        open_dest_does(w, dest, true).1 == Ok::<bool, Seq<char>>(true),
        move_data_does(open_dest_does(w, dest, true).0, src, dest, anchor, rewind, true).1 == Ok::<
            Result<(), Seq<char>>,
            Seq<char>,
        >(Err(m)),
    ensures
        ({
            let moved = move_data_does(
                open_dest_does(w, dest, true).0,
                src,
                dest,
                anchor,
                rewind,
                true,
            ).0;
            transfer_and_settle_does(w, src, dest, mode, anchor, rewind, true) == (
                zfs_ops::set_property_does(moved, dest, "readonly"@, "on"@).0,
                Err::<(), Seq<char>>(m),
            )
        }),
{
    reveal(transfer_and_settle_does);
}

/// A copy that is bounded at a snapshot is never paired by the push that makes
/// it.
pub proof fn law_bounded_copy_is_unpaired(
    w: World,
    src: Seq<char>,
    dest: Seq<char>,
    mode: PairedMode,
    snap: Seq<char>,
)
    ensures
        mode_for(mode, Some(snap)) == PairedMode::AdHocUnpaired || mode_for(mode, Some(snap))
            == PairedMode::Existing,
        mode != PairedMode::Existing ==> pair_up_does(w, src, dest, mode_for(mode, Some(snap))) == (
            zfs_ops::inherit_property_does(w, dest, "zboot:mirror"@),
            Ok::<(), Seq<char>>(()),
        ),
{
    reveal(pair_up_does);
}

/// What moving the data came to: the destination was rolled back, or the
/// snapshot has reached it.
proof fn lemma_moved(
    a: World,
    w: World,
    src: Seq<char>,
    dest: Seq<char>,
    anchor: Seq<char>,
    rewind: Option<Seq<char>>,
    there: bool,
)
    requires
        sub::continues(a, w),
        !there ==> exists|l: int|
            a.calls.len() <= l < w.calls.len() && #[trigger] effects::told_absent(w, l, dest),
    ensures
        ({
            let (end, moved) = move_data_does(w, src, dest, anchor, rewind, there);
            moved matches Ok(Ok(_)) ==> match rewind {
                Some(bound) => effects::ran(w, end, "zfs"@, seq!["rollback"@, "-r"@, bound]),
                None => effects::replicated(a, end, src, dest, anchor),
            }
        }),
{
    reveal(move_data_does);
    match rewind {
        Some(bound) => {
            reveal(zfs_ops::rollback_recursive_does);
            let end = move_data_does(w, src, dest, anchor, rewind, there).0;
            let n = w.calls.len() as int + 1;
            assert(end.calls[n] == Call::Run {
                prog: "zfs"@,
                args: seq!["rollback"@, "-r"@, bound],
            });
        },
        None => {
            let (w1, prev) = if there {
                zfs_ops::previous_anchor_on_dest_does(w, src, dest)
            } else {
                (w, Ok(None))
            };
            effects::lemma_base_told(w, src, dest);
            effects::lemma_continues(a, w, w1);
            let n = w.calls.len() as int;
            match prev {
                Err(_) => {},
                Ok(Some(p)) => {
                    if zfs_ops::send_incremental_does(w1, p, anchor, dest).1 is Ok {
                        effects::lemma_sent_on(a, w1, src, dest, p, anchor);
                    }
                },
                Ok(None) => {
                    let l = if there {
                        n
                    } else {
                        choose|l: int|
                            a.calls.len() <= l < w.calls.len() && #[trigger] effects::told_absent(
                                w,
                                l,
                                dest,
                            )
                    };
                    let w2 = zfs_ops::dataset_is_clone_does(w1, src).0;
                    reveal(zfs_ops::dataset_is_clone_does);
                    zfs_ops::lemma_property_looks(w1, src, "origin"@);
                    let w3 = warn_lost_does(w2, src, anchor);
                    lemma_warn_lost_looks(w2, src, anchor);
                    effects::lemma_continues(w1, w2, w3);
                    effects::lemma_continues(a, w1, w2);
                    effects::lemma_continues(a, w1, w3);
                    assert(w2.calls[l] == w1.calls[l] && w3.calls[l] == w1.calls[l]);
                    if there {
                        assert(w2.calls[l + 1] == w1.calls[l + 1]);
                        assert(w3.calls[l + 1] == w1.calls[l + 1]);
                    }
                    assert(effects::nothing_shared(w2, l, w2.calls.len() as int, src, dest));
                    assert(effects::nothing_shared(w3, l, w3.calls.len() as int, src, dest));
                    if zfs_ops::send_standalone_does(w3, anchor, dest).1 is Ok {
                        effects::lemma_sent_whole(a, w3, l, src, dest, anchor, true);
                    }
                    if zfs_ops::send_full_does(w2, anchor, dest).1 is Ok {
                        effects::lemma_sent_whole(a, w2, l, src, dest, anchor, false);
                    }
                },
            }
        },
    }
}

/// A push that succeeds has brought the destination to the bound it was given:
/// the snapshot arrived, or the destination, which was ahead, was rolled back to
/// it. Without a bound a fresh anchor of the source arrived. What arrives comes
/// from the last snapshot that both sides share, where there is one.
pub proof fn law_pushed_has_arrived(
    w: World,
    src: Seq<char>,
    dest: Seq<char>,
    mode: PairedMode,
    bound: Option<Seq<char>>,
    force: bool,
)
    requires
        push_one_does(w, src, dest, mode, bound, force).1 is Ok,
    ensures
        effects::brought(w, push_one_does(w, src, dest, mode, bound, force).0, src, dest, bound),
{
    reveal(push_one_does);
    reveal(push_checks_does);
    reveal(transfer_and_settle_does);
    let p = effects::replication(src, dest);
    let w0 = w.say(push_line(src, dest, bound));
    let (wx, found) = zfs_ops::dataset_exists_does(w0, dest);
    let there = zfs_ops::exists_or_not(found);
    zfs_ops::lemma_exists_looks(w0, dest);
    let wy = refuse_mounted_does(wx, dest, there).0;
    lemma_refuse_mounted(wx, dest, there);
    let wz = check_divergence_does(wy, src, dest, there, force).0;
    lemma_divergence(wy, src, dest, there, force, p);
    let (w1, rewinding) = check_rewind_does(wz, src, dest, bound, there, force);
    lemma_rewind(wz, src, dest, bound, there, force, p);
    let rewind = rewinding->Ok_0;
    let (w2, d) = pick_anchor_does(w1, src, bound);
    lemma_pick_anchor(w1, src, bound, p);
    let anchor = d->Ok_0;
    let pool = text::before(dest, '/');
    let w3 = if there {
        w2
    } else {
        zfs_ops::ensure_root_container_does(w2, pool).0
    };
    effects::lemma_container(w2, pool, p);
    let w4 = open_dest_does(w3, dest, there).0;
    lemma_open_dest(w3, dest, there, p);
    let (w5, moved) = move_data_does(w4, src, dest, anchor, rewind, there);
    lemma_move_data(w4, src, dest, anchor, rewind, there, p);
    let end = settle_does(w5, src, dest, mode, anchor, rewind).0;
    lemma_settle(w5, src, dest, mode, anchor, rewind, p);
    assert(sub::continues(w2, w3));
    effects::lemma_continues(w, w0, wx);
    effects::lemma_continues(w, wx, wy);
    effects::lemma_continues(wx, wy, wz);
    effects::lemma_continues(w, wy, wz);
    effects::lemma_continues(wx, wz, w1);
    effects::lemma_continues(w, wz, w1);
    effects::lemma_continues(wx, w1, w2);
    effects::lemma_continues(w, w1, w2);
    effects::lemma_continues(wx, w2, w3);
    effects::lemma_continues(w, w2, w3);
    effects::lemma_continues(wx, w3, w4);
    effects::lemma_continues(w, w3, w4);
    effects::lemma_continues(w, w4, w5);
    effects::lemma_continues(w2, w3, w4);
    effects::lemma_continues(w2, w4, w5);
    effects::lemma_continues(w2, w5, end);
    effects::lemma_continues(w1, w2, end);
    assert(sub::continues(w, w));
    if !there {
        reveal(zfs_ops::dataset_exists_does);
        let l = w0.calls.len() as int;
        assert(w4.calls[l] == wx.calls[l]);
        assert(effects::told_absent(w4, l, dest));
    }
    lemma_moved(w, w4, src, dest, anchor, rewind, there);
    match bound {
        None => {
            reveal(check_rewind_does);
            reveal(pick_anchor_does);
            effects::lemma_fresh_anchor(w1, src);
            effects::lemma_ran_within(w, w1, w2, end, "zfs"@, seq!["snapshot"@, anchor]);
            effects::lemma_replicated_within(w, w, w5, end, src, dest, anchor);
            assert(effects::anchored(w, end, src, anchor));
        },
        Some(snap) => {
            reveal(check_rewind_does);
            reveal(pick_anchor_does);
            match rewind {
                None => {
                    effects::lemma_replicated_within(w, w, w5, end, src, dest, anchor);
                },
                Some(b) => {
                    effects::lemma_ran_within(
                        w,
                        w4,
                        w5,
                        end,
                        "zfs"@,
                        seq!["rollback"@, "-r"@, b],
                    );
                    effects::lemma_told_ahead(wz, src, dest, snap);
                    let l = wz.calls.len() as int;
                    let wl = zfs_ops::dest_snapshots_after_bound_does(wz, src, dest, snap).0;
                    let after = zfs_ops::dest_snapshots_after_bound_does(wz, src, dest, snap).1->Ok_0;
                    zfs_ops::lemma_confirm_asks(
                        wl,
                        "push --force will run: zfs rollback -r "@ + b
                            + " (rewinds dest, destroying snapshots taken after the bound)"@,
                        dest,
                        after,
                    );
                    effects::lemma_continues(wl, w1, end);
                    assert(end.calls[l] == wl.calls[l] && end.calls[l + 1] == wl.calls[l + 1]);
                    assert(effects::told_ahead(end, l, src, dest, src + "@"@ + snap));
                },
            }
        },
    }
}

/// Both sides were pruned of every anchor but the new one.
pub open spec fn both_pruned(
    a: World,
    b: World,
    src: Seq<char>,
    dest: Seq<char>,
    anchor: Seq<char>,
) -> bool {
    let leaf = anchor.skip(text::position(anchor, '@') + 1);
    effects::pruned(a, b, src, anchor) && effects::pruned(a, b, dest, dest + "@"@ + leaf)
}

/// Pruning both sides prunes both.
pub proof fn lemma_both_pruned(
    a: World,
    w: World,
    d: World,
    src: Seq<char>,
    dest: Seq<char>,
    anchor: Seq<char>,
)
    requires
        sub::continues(a, w),
        sub::continues(prune_both_does(w, src, dest, anchor), d),
    ensures
        sub::continues(w, prune_both_does(w, src, dest, anchor)),
        both_pruned(a, d, src, dest, anchor),
{
    let leaf = anchor.skip(text::position(anchor, '@') + 1);
    effects::lemma_pruned(w, src, anchor);
    let w1 = zfs_ops::prune_old_anchors_does(w, src, anchor);
    effects::lemma_pruned(w1, dest, dest + "@"@ + leaf);
    let w2 = prune_both_does(w, src, dest, anchor);
    effects::lemma_continues(w, w1, w2);
    effects::lemma_continues(w1, w2, d);
    effects::lemma_continues(a, w, w1);
    effects::lemma_pruned_within(a, w, w1, d, src, anchor);
    effects::lemma_pruned_within(a, w1, w2, d, dest, dest + "@"@ + leaf);
}

/// A push to a new peer points each side at the other, unless the peer points
/// somewhere already; a push of one snapshot leaves the copy unpaired.
pub proof fn law_peers_are_paired_up(w: World, src: Seq<char>, dest: Seq<char>, mode: PairedMode)
    requires
        pair_up_does(w, src, dest, mode).1 is Ok,
    ensures
        ({
            let end = pair_up_does(w, src, dest, mode).0;
            &&& sub::continues(w, end)
            &&& mode is BootstrapPaired ==> {
                &&& effects::took(w, end, src, "zboot:mirror"@, dest)
                &&& exists|n: int|
                    w.calls.len() <= n < end.calls.len() && #[trigger] end.calls[n]
                        == effects::get_call(dest, "zboot:mirror"@) && effects::succeeded(end, n)
                        && (model::pair_of(text::trimmed((end.replies)(n as nat).stdout)) is None
                        ==> effects::took(w, end, dest, "zboot:mirror"@, src))
            }
            &&& mode is AdHocUnpaired ==> sub::called(
                w,
                end,
                Call::Run { prog: "zfs"@, args: seq!["inherit"@, "zboot:mirror"@, dest] },
            )
        }),
{
    reveal(pair_up_does);
    reveal(zfs_ops::inherit_property_does);
    let all = |c: Call| true;
    let end = pair_up_does(w, src, dest, mode).0;
    assert(sub::continues(w, w));
    match mode {
        PairedMode::Existing => {},
        PairedMode::AdHocUnpaired => {
            assert(end.calls[w.calls.len() as int + 1] == Call::Run {
                prog: "zfs"@,
                args: seq!["inherit"@, "zboot:mirror"@, dest],
            });
        },
        PairedMode::BootstrapPaired => {
            reveal(zfs_ops::dataset_property_does);
            model::law_pair_text(src);
            model::law_pair_text(dest);
            effects::lemma_set(w, src, "zboot:mirror"@, dest, all);
            let w1 = zfs_ops::set_property_does(w, src, "zboot:mirror"@, dest).0;
            effects::lemma_set(w1, src, "zboot:primary"@, "on"@, all);
            let w2 = zfs_ops::set_property_does(w1, src, "zboot:primary"@, "on"@).0;
            let (w3, back) = zfs_ops::read_pair_pointer_does(w2, dest);
            let n = w2.calls.len() as int;
            assert(w3.calls[n] == effects::get_call(dest, "zboot:mirror"@));
            assert(sub::continues(w2, w3));
            effects::lemma_continues(w, w1, w2);
            effects::lemma_continues(w, w2, w3);
            effects::lemma_set(w3, src, "zboot:primary"@, "on"@, all);
            effects::lemma_set(w3, dest, "zboot:mirror"@, src, all);
            let w4 = zfs_ops::set_property_does(w3, dest, "zboot:mirror"@, src).0;
            effects::lemma_set(w4, dest, "zboot:primary"@, "off"@, all);
            if back->Ok_0 is Some {
                assert(sub::continues(w3, end));
            } else {
                effects::lemma_continues(w3, w4, end);
                effects::lemma_took_within(w, w3, w4, end, dest, "zboot:mirror"@, src);
            }
            assert(sub::continues(w3, end));
            effects::lemma_continues(w, w3, end);
            effects::lemma_continues(w2, w3, end);
            effects::lemma_continues(w1, w2, end);
            effects::lemma_took_within(w, w, w1, end, src, "zboot:mirror"@, dest);
            assert(end.calls[n] == w3.calls[n]);
        },
    }
}

/// A push that settles leaves on either side no anchor but the new one.
pub proof fn law_settled_push_is_tidy(
    w: World,
    src: Seq<char>,
    dest: Seq<char>,
    mode: PairedMode,
    anchor: Seq<char>,
)
    requires
        settle_does(w, src, dest, mode, anchor, None).1 is Ok,
    ensures
        both_pruned(w, settle_does(w, src, dest, mode, anchor, None).0, src, dest, anchor),
{
    reveal(settle_does);
    let all = |c: Call| true;
    let end = settle_does(w, src, dest, mode, anchor, None).0;
    effects::lemma_contract(w, dest, all);
    let w1 = zfs_ops::set_be_contract_does(w, dest).0;
    effects::lemma_set(w1, dest, "readonly"@, "on"@, all);
    let w2 = zfs_ops::set_property_does(w1, dest, "readonly"@, "on"@).0;
    law_peers_are_paired_up(w2, src, dest, mode);
    let w3 = pair_up_does(w2, src, dest, mode).0;
    effects::lemma_continues(w, w1, w2);
    effects::lemma_continues(w, w2, w3);
    assert(sub::continues(prune_both_does(w3, src, dest, anchor), end));
    lemma_both_pruned(w, w3, end, src, dest, anchor);
}

/// A push with no target goes to the peer that the source's own pointer names,
/// which is there.
pub proof fn law_push_goes_to_the_peer(w: World, src: Seq<char>)
    requires
        pick_dest_does(w, src, None).1 is Ok,
    ensures
        ({
            let (end, res) = pick_dest_does(w, src, None);
            let n = w.calls.len() as int;
            let told = model::pair_of(text::trimmed(w.reply().stdout));
            &&& end.calls[n] == effects::get_call(src, "zboot:mirror"@)
            &&& effects::succeeded(w, n)
            &&& told is Some && res->Ok_0.0 == model::pair_text(told->0)
            &&& res->Ok_0.1 is Existing
            &&& end.calls[n + 1] == (Call::Run {
                prog: "zfs"@,
                args: seq!["list"@, "-H"@, "-o"@, "name"@, res->Ok_0.0],
            })
            &&& effects::succeeded(w, n + 1)
        }),
{
    reveal(pick_dest_does);
    reveal(zfs_ops::dataset_property_does);
    reveal(zfs_ops::dataset_exists_does);
}

/// A push that succeeds has brought the source, or the snapshot of it that was
/// asked for, to its destination, which is a read-only environment now.
pub proof fn law_push_has_arrived(
    w: World,
    be: Option<Seq<char>>,
    to: Option<Seq<char>>,
    force: bool,
)
    requires
        run_does(w, be, to, force).1 is Ok,
    ensures
        ({
            let end = run_does(w, be, to, force).0;
            exists|src: Seq<char>, dest: Seq<char>, bound: Option<Seq<char>>|
                #[trigger] effects::brought(w, end, src, dest, bound) && effects::took(
                    w,
                    end,
                    dest,
                    "readonly"@,
                    "on"@,
                ) && (be matches Some(t) ==> bound == be_arg::be_and_snap(t).1 && (
                be_arg::be_and_snap(t).0.contains('/') ==> src == be_arg::be_and_snap(t).0))
        }),
{
    reveal(named_or_running_does);
    reveal(zfs_ops::discover_booted_dataset_does);
    reveal(be_arg::resolve_be_dataset_does);
    reveal(check_source_does);
    reveal(pick_dest_does);
    reveal(zfs_ops::require_role_root_does);
    reveal(zfs_ops::pool_property_does);
    reveal(zfs_ops::dataset_property_does);
    reveal(zfs_ops::dataset_exists_does);
    reveal(zfs_ops::snapshot_exists_does);
    let end = run_does(w, be, to, force).0;
    let (w1, named) = named_or_running_does(w, be);
    let (name, bound) = be_arg::be_and_snap(named->Ok_0);
    let (w2, resolved) = be_arg::resolve_be_dataset_does(w1, name);
    let src = resolved->Ok_0;
    let w3 = check_source_does(w2, src, bound).0;
    let (w4, picked) = pick_dest_does(w3, src, to);
    let (dest, mode) = picked->Ok_0;
    assert(sub::continues(w, w1));
    assert(sub::continues(w1, w2));
    assert(sub::continues(w2, w3));
    assert(sub::continues(w3, w4));
    effects::lemma_continues(w, w1, w2);
    effects::lemma_continues(w, w2, w3);
    effects::lemma_continues(w, w3, w4);
    assert(sub::continues(end, end));
    law_pushed_has_arrived(w4, src, dest, mode_for(mode, bound), bound, force);
    law_pushed_is_a_readonly_be(w4, src, dest, mode_for(mode, bound), bound, force);
    effects::lemma_brought_within(w, w4, end, end, src, dest, bound);
    effects::lemma_took_within(w, w4, end, end, dest, "readonly"@, "on"@);
}

/// A destination that is there was asked whether it is mounted, and one that is
/// was found to be read-only.
pub open spec fn spared(w: World, n: int, dest: Seq<char>) -> bool {
    &&& w.calls[n] == effects::get_call(dest, "mounted"@)
    &&& effects::read_as(w, n, "yes"@) && (w.replies)(n as nat).garbled is None ==> {
        &&& w.calls[n + 1] == effects::get_call(dest, "readonly"@)
        &&& effects::read_as(w, n + 1, "on"@)
    }
}

/// Nothing is pushed over a destination that someone may be writing to.
pub proof fn law_mounted_dest_is_spared(w: World, dest: Seq<char>)
    requires
        refuse_mounted_does(w, dest, true).1 is Ok,
    ensures
        spared(refuse_mounted_does(w, dest, true).0, w.calls.len() as int, dest),
{
    reveal(refuse_mounted_does);
    reveal(zfs_ops::is_mounted_does);
    reveal(zfs_ops::dataset_property_does);
}

/// Where it is not forced, nothing is pushed over a destination that holds more
/// than the source.
pub proof fn law_nothing_is_lost_unforced(w: World, src: Seq<char>, dest: Seq<char>)
    requires
        check_divergence_does(w, src, dest, true, false).1 is Ok,
    ensures
        effects::nothing_more(
            check_divergence_does(w, src, dest, true, false).0,
            w.calls.len() as int,
            src,
            dest,
        ),
{
    reveal(check_divergence_does);
    effects::law_only_on_right(w, src, dest);
}

/// A push that passes its checks has asked whether the destination is there, and
/// where it is has spared it if it is mounted, and, unless forced, has found that
/// it holds nothing more than the source.
pub proof fn law_push_is_checked(
    w: World,
    src: Seq<char>,
    dest: Seq<char>,
    bound: Option<Seq<char>>,
)
    requires
        push_checks_does(w, src, dest, bound, false).1 is Ok,
    ensures
        ({
            let end = push_checks_does(w, src, dest, bound, false).0;
            let n = w.calls.len() as int;
            &&& end.calls[n] == (Call::Run {
                prog: "zfs"@,
                args: seq!["list"@, "-H"@, "-o"@, "name"@, dest],
            })
            &&& effects::succeeded(w, n) ==> {
                &&& spared(end, n + 1, dest)
                &&& exists|k: int|
                    n + 1 < k && k + 1 < end.calls.len() && #[trigger] effects::nothing_more(
                        end,
                        k,
                        src,
                        dest,
                    )
            }
        }),
{
    reveal(push_checks_does);
    reveal(zfs_ops::dataset_exists_does);
    reveal(check_rewind_does);
    let (end, res) = push_checks_does(w, src, dest, bound, false);
    let n = w.calls.len() as int;
    let w1 = zfs_ops::dataset_exists_does(w, dest).0;
    let there = effects::succeeded(w, n);
    assert(w1.calls[n] == Call::Run {
        prog: "zfs"@,
        args: seq!["list"@, "-H"@, "-o"@, "name"@, dest],
    });
    let w2 = refuse_mounted_does(w1, dest, there).0;
    lemma_refuse_mounted(w1, dest, there);
    let w3 = check_divergence_does(w2, src, dest, there, false).0;
    lemma_checks_only_look(w, src, dest, bound);
    assert(sub::continues(w, end));
    if there {
        law_mounted_dest_is_spared(w1, dest);
        law_nothing_is_lost_unforced(w2, src, dest);
        reveal(refuse_mounted_does);
        reveal(zfs_ops::is_mounted_does);
        reveal(zfs_ops::dataset_property_does);
        reveal(check_divergence_does);
        effects::law_only_on_right(w2, src, dest);
        let k = w2.calls.len() as int;
        if let Some(snap) = bound {
            zfs_ops::lemma_after_bound_looks(w3, src, dest, snap);
        }
        assert(sub::continues(w1, w2));
        assert(sub::continues(w2, w3));
        assert(sub::continues(w3, end));
        effects::lemma_continues(w2, w3, end);
        effects::lemma_continues(w1, w2, end);
        assert(end.calls[n] == w1.calls[n]);
        assert(w3.calls[k] == end.calls[k]);
        assert(w3.calls[k + 1] == end.calls[k + 1]);
        assert(effects::nothing_more(end, k, src, dest));
        assert(w2.calls[n + 1] == end.calls[n + 1]);
        assert(n + 2 < w2.calls.len() ==> w2.calls[n + 2] == end.calls[n + 2]);
    } else {
        reveal(refuse_mounted_does);
        reveal(check_divergence_does);
        assert(w3 == w1);
        assert(sub::continues(w3, end));
        assert(end.calls[n] == w1.calls[n]);
    }
}

} // verus!
