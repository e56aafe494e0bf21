//! `pull`: receive a boot environment's snapshots from its peer, or from a
//! remote dataset into a new boot environment.
//!
//! The other direction of `push`, with the same refusals: what diverged or
//! would be rewound is overwritten only with `--force`, after the operator has
//! typed the local dataset's name; and nothing is received into a file system
//! that is mounted writable.

use vstd::prelude::*;
use vstd::string::*;

use crate::be_arg;
use crate::cmd::push;
use crate::effects;
use crate::error;
use crate::error::Error;
use crate::model;
use crate::model::PairPointer;
use crate::sub;
use crate::sub::{Call, Runner, World};
use crate::text;
use crate::zfs_ops;

verus! {

/// Arguments of `pull`.
#[derive(Debug)]
pub struct PullArgs {
    /// With `name`: the remote source, a full dataset path. Without: the local
    /// boot environment. Either may carry `@<snap>` to bound the pull.
    pub be: Option<String>,
    /// Create a local boot environment of this name.
    pub name: Option<String>,
    /// Overwrite what diverged, or rewind.
    pub force: bool,
}

// ---------------------------------------------------------------------------
// Refusals
// ---------------------------------------------------------------------------

/// The refusal of a pull into a dataset that diverged.
pub open spec fn divergence_text(remote: Seq<char>, local: Seq<char>, extras: Seq<Seq<char>>) -> Seq<
    char,
> {
    "refuses: local "@ + local + " has "@ + text::decimal(extras.len()) + " snapshot(s) remote "@
        + remote
        + " does not.\n  Why: a regular pull only adds snapshots from remote — it can't decide\n  whether to keep or destroy local-only ones. Refusing so you pick:\n  force-overwrite local, push the other way, or preserve local's lineage\n  as a separate BE first.\n  local-only:\n      "@
        + zfs_ops::preview_text(extras)
        + "\n  resolve with:\n    push --force         will run: zfs receive -F on remote (keeps this side)\n    pull --force         will run: zfs receive -F (destroys local-only above)\n    preserve + re-bootstrap (if you want local's lineage kept somewhere):\n                         zboot fork <name> --from "@
        + local
        + "@<snap>     # clone of local@<snap>\n                         zfs promote "@
        + text::before(local, '/')
        + "/ROOT/<name>        # snapshots move to <name>\n                         zboot drop "@
        + local
        + "                          # local is now an empty clone\n                         zboot pull --name "@
        + text::after_last(local, '/') + " "@ + remote + " # re-bootstrap from remote"@
}

fn divergence_message(remote: &str, local: &str, extras: &Vec<String>) -> (r: Error)
    ensures
        r@ == divergence_text(remote@, local@, extras.deep_view()),
{
    let preview: String = zfs_ops::format_snapshot_preview(extras);
    let n: String = text::dec_len(extras.len());
    let mut m: String = text::cat6(
        "refuses: local ",
        local,
        " has ",
        n.as_str(),
        " snapshot(s) remote ",
        remote,
    );
    m.append(
        " does not.\n  Why: a regular pull only adds snapshots from remote — it can't decide\n  whether to keep or destroy local-only ones. Refusing so you pick:\n  force-overwrite local, push the other way, or preserve local's lineage\n  as a separate BE first.\n  local-only:\n      ",
    );
    m.append(preview.as_str());
    m.append(
        "\n  resolve with:\n    push --force         will run: zfs receive -F on remote (keeps this side)\n    pull --force         will run: zfs receive -F (destroys local-only above)\n    preserve + re-bootstrap (if you want local's lineage kept somewhere):\n                         zboot fork <name> --from ",
    );
    m.append(local);
    m.append("@<snap>     # clone of local@<snap>\n                         zfs promote ");
    m.append(text::head(local, '/'));
    m.append("/ROOT/<name>        # snapshots move to <name>\n                         zboot drop ");
    m.append(local);
    m.append(
        "                          # local is now an empty clone\n                         zboot pull --name ",
    );
    m.append(text::tail(local, '/'));
    m.append(" ");
    m.append(remote);
    m.append(" # re-bootstrap from remote");
    Error::from_text(m)
}

/// The refusal of a bounded pull into a dataset that stands behind the bound.
pub open spec fn rewind_text(
    remote: Seq<char>,
    local: Seq<char>,
    bound: Seq<char>,
    after: Seq<Seq<char>>,
) -> Seq<char> {
    let n = text::decimal(after.len());
    "refuses: bounded pull into "@ + local + " but local is past the bound "@ + remote + "@"@
        + bound + ".\n  Why: local has "@ + n
        + " snapshot(s) taken after the bound on remote. A regular pull\n  can't go backwards (zfs send -I requires forward time). This is a *rewind*,\n  not a fast-forward — matches git's non-fast-forward refusal.\n  local-after-bound:\n      "@
        + zfs_ops::preview_text(after)
        + "\n  resolve with:\n    pull --force         will run: zfs rollback -r "@ + local + "@"@ + bound
        + "\n                         destroys the "@ + n
        + " snapshot(s) above on local\n    (omit @"@ + bound
        + ")      pull remote's latest, no rewind\n    preserve + re-bootstrap (if you want local's newer lineage kept):\n                         zboot fork <name> --from "@
        + local
        + "@<snap>     # clone of local@<snap>\n                         zfs promote "@
        + text::before(local, '/')
        + "/ROOT/<name>        # snapshots move to <name>\n                         zboot drop "@
        + local
        + "                          # local is now an empty clone\n                         zboot pull --name "@
        + text::after_last(local, '/') + " "@ + remote + " # re-bootstrap from remote"@
}

fn rewind_message(remote: &str, local: &str, bound: &str, after: &Vec<String>) -> (r: Error)
    ensures
        r@ == rewind_text(remote@, local@, bound@, after.deep_view()),
{
    let preview: String = zfs_ops::format_snapshot_preview(after);
    let n: String = text::dec_len(after.len());
    let mut m: String = text::cat6(
        "refuses: bounded pull into ",
        local,
        " but local is past the bound ",
        remote,
        "@",
        bound,
    );
    m.append(".\n  Why: local has ");
    m.append(n.as_str());
    m.append(
        " snapshot(s) taken after the bound on remote. A regular pull\n  can't go backwards (zfs send -I requires forward time). This is a *rewind*,\n  not a fast-forward — matches git's non-fast-forward refusal.\n  local-after-bound:\n      ",
    );
    m.append(preview.as_str());
    m.append("\n  resolve with:\n    pull --force         will run: zfs rollback -r ");
    m.append(local);
    m.append("@");
    m.append(bound);
    m.append("\n                         destroys the ");
    m.append(n.as_str());
    m.append(" snapshot(s) above on local\n    (omit @");
    m.append(bound);
    m.append(
        ")      pull remote's latest, no rewind\n    preserve + re-bootstrap (if you want local's newer lineage kept):\n                         zboot fork <name> --from ",
    );
    m.append(local);
    m.append("@<snap>     # clone of local@<snap>\n                         zfs promote ");
    m.append(text::head(local, '/'));
    m.append("/ROOT/<name>        # snapshots move to <name>\n                         zboot drop ");
    m.append(local);
    m.append(
        "                          # local is now an empty clone\n                         zboot pull --name ",
    );
    m.append(text::tail(local, '/'));
    m.append(" ");
    m.append(remote);
    m.append(" # re-bootstrap from remote");
    Error::from_text(m)
}

/// Refuses a local dataset with snapshots of its own; with `force`, asks.
#[verifier::opaque]
pub open spec fn check_divergence_does(
    w: World,
    remote: Seq<char>,
    local: Seq<char>,
    existed: bool,
    force: bool,
) -> (World, Result<(), Seq<char>>) {
    if !existed {
        (w, Ok(()))
    } else {
        let (w1, found) = zfs_ops::snapshots_only_on_right_does(w, remote, local);
        match found {
            Err(m) => (w1, Err(m)),
            Ok(extras) => if extras.len() == 0 {
                (w1, Ok(()))
            } else if !force {
                (w1, Err(divergence_text(remote, local, extras)))
            } else {
                zfs_ops::confirm_truncate_does(
                    w1,
                    "pull --force will run: zfs receive -F (destroys local-only snapshots on "@
                        + local + ")"@,
                    local,
                    extras,
                )
            },
        }
    }
}

fn check_divergence<R: Runner>(r: &mut R, remote: &str, local: &str, existed: bool, force: bool) -> (
res: Result<(), Error>)
    ensures
        sub::did(final(r).world(), res) == check_divergence_does(
            old(r).world(),
            remote@,
            local@,
            existed,
            force,
        ),
{
    proof {
        reveal(check_divergence_does);
    }
    if !existed {
        return Ok(());
    }
    let extras = match zfs_ops::snapshots_only_on_right(r, remote, local) {
        Err(e) => return Err(e),
        Ok(x) => x,
    };
    if extras.len() == 0 {
        return Ok(());
    }
    if !force {
        return Err(divergence_message(remote, local, &extras));
    }
    let label: String = text::cat3(
        "pull --force will run: zfs receive -F (destroys local-only snapshots on ",
        local,
        ")",
    );
    zfs_ops::confirm_destructive_truncate(r, label.as_str(), local, &extras)
}

/// Finds out whether a bounded pull is a rewind; gives the snapshot to roll
/// back to. Refused unless `force`, which asks.
#[verifier::opaque]
pub open spec fn check_rewind_does(
    w: World,
    remote: Seq<char>,
    local: Seq<char>,
    bound: Option<Seq<char>>,
    existed: bool,
    force: bool,
) -> (World, Result<Option<Seq<char>>, Seq<char>>) {
    match bound {
        None => (w, Ok(None)),
        Some(snap) => if !existed {
            (w, Ok(None))
        } else {
            let (w1, found) = zfs_ops::dest_snapshots_after_bound_does(w, remote, local, snap);
            match found {
                Err(m) => (w1, Err(m)),
                Ok(after) => if after.len() == 0 {
                    (w1, Ok(None))
                } else if !force {
                    (w1, Err(rewind_text(remote, local, snap, after)))
                } else {
                    let local_bound = local + "@"@ + snap;
                    let (w2, yes) = zfs_ops::confirm_truncate_does(
                        w1,
                        "pull --force will run: zfs rollback -r "@ + local_bound
                            + " (rewinds local, destroying snapshots taken after the bound)"@,
                        local,
                        after,
                    );
                    match yes {
                        Err(m) => (w2, Err(m)),
                        Ok(_) => (w2, Ok(Some(local_bound))),
                    }
                },
            }
        },
    }
}

fn check_rewind<R: Runner>(
    r: &mut R,
    remote: &str,
    local: &str,
    bound: Option<&str>,
    existed: bool,
    force: bool,
) -> (res: Result<Option<String>, Error>)
    ensures
        sub::did(final(r).world(), res) == check_rewind_does(
            old(r).world(),
            remote@,
            local@,
            bound.deep_view(),
            existed,
            force,
        ),
{
    proof {
        reveal(check_rewind_does);
    }
    let snap: &str = match bound {
        None => return Ok(None),
        Some(s) => s,
    };
    if !existed {
        return Ok(None);
    }
    let after = match zfs_ops::dest_snapshots_after_bound(r, remote, local, snap) {
        Err(e) => return Err(e),
        Ok(a) => a,
    };
    if after.len() == 0 {
        return Ok(None);
    }
    if !force {
        return Err(rewind_message(remote, local, snap, &after));
    }
    let local_bound: String = text::cat3(local, "@", snap);
    let label: String = text::cat3(
        "pull --force will run: zfs rollback -r ",
        local_bound.as_str(),
        " (rewinds local, destroying snapshots taken after the bound)",
    );
    match zfs_ops::confirm_destructive_truncate(r, label.as_str(), local, &after) {
        Err(e) => Err(e),
        Ok(_) => Ok(Some(local_bound)),
    }
}

// ---------------------------------------------------------------------------
// The receive
// ---------------------------------------------------------------------------

/// The snapshot that is received: the bound, or a fresh anchor on the remote.
#[verifier::opaque]
pub open spec fn pick_anchor_does(w: World, remote: Seq<char>, bound: Option<Seq<char>>) -> (
    World,
    Result<Seq<char>, Seq<char>>,
) {
    match bound {
        Some(snap) => (w, Ok(remote + "@"@ + snap)),
        None => {
            let name = zfs_ops::anchor_name(w.reply().nanos as nat);
            let (w1, taken) = zfs_ops::take_snapshot_does(w.after(Call::Clock), remote, name);
            (
                w1,
                match taken {
                    Err(m) => Err(error::within("snapshot remote"@, m)),
                    Ok(_) => Ok(remote + "@"@ + name),
                },
            )
        },
    }
}

fn pick_anchor<R: Runner>(r: &mut R, remote: &str, bound: Option<&str>) -> (res: Result<
    String,
    Error,
>)
    ensures
        sub::did(final(r).world(), res) == pick_anchor_does(
            old(r).world(),
            remote@,
            bound.deep_view(),
        ),
{
    proof {
        reveal(pick_anchor_does);
    }
    match bound {
        Some(snap) => Ok(text::cat3(remote, "@", snap)),
        None => {
            let name: String = zfs_ops::fresh_anchor_name(r);
            match zfs_ops::take_snapshot(r, remote, name.as_str()) {
                Err(e) => Err(e.context("snapshot remote")),
                Ok(_) => Ok(text::cat3(remote, "@", name.as_str())),
            }
        },
    }
}

proof fn lemma_anchor_has_at(w: World, remote: Seq<char>, bound: Option<Seq<char>>)
    ensures
        pick_anchor_does(w, remote, bound).1 matches Ok(a) ==> a.contains('@'),
{
    reveal(pick_anchor_does);
    reveal_strlit("@");
    if let Ok(a) = pick_anchor_does(w, remote, bound).1 {
        assert(a[remote.len() as int] == '@');
    }
}

/// Makes an existing local dataset writable, and says whether it was not.
#[verifier::opaque]
pub open spec fn open_local_does(w: World, local: Seq<char>, existed: bool) -> (World, Result<
    bool,
    Seq<char>,
>) {
    if !existed {
        (w, Ok(false))
    } else {
        let (w1, val) = zfs_ops::dataset_property_does(w, local, "readonly"@);
        match val {
            Err(m) => (w1, Err(m)),
            Ok(v) => if v == "on"@ {
                let (w2, set) = zfs_ops::set_property_does(w1, local, "readonly"@, "off"@);
                match set {
                    Err(m) => (w2, Err(m)),
                    Ok(_) => (w2, Ok(true)),
                }
            } else {
                (w1, Ok(false))
            },
        }
    }
}

fn open_local<R: Runner>(r: &mut R, local: &str, existed: bool) -> (res: Result<bool, Error>)
    ensures
        sub::did(final(r).world(), res) == open_local_does(old(r).world(), local@, existed),
{
    proof {
        reveal(open_local_does);
    }
    if !existed {
        return Ok(false);
    }
    let val: String = match zfs_ops::dataset_property(r, local, "readonly") {
        Err(e) => return Err(e),
        Ok(v) => v,
    };
    if text::eq(val.as_str(), "on") {
        match zfs_ops::set_readonly_tolerant(r, local, "off") {
            Err(e) => Err(e),
            Ok(_) => Ok(true),
        }
    } else {
        Ok(false)
    }
}

/// Moves the data: a rollback for a rewind; else an incremental send from the
/// last common snapshot, or a full send.
#[verifier::opaque]
pub open spec fn move_data_does(
    w: World,
    remote: Seq<char>,
    local: Seq<char>,
    anchor: Seq<char>,
    rewind: Option<Seq<char>>,
    existed: bool,
) -> (World, Result<Result<(), Seq<char>>, Seq<char>>) {
    match rewind {
        Some(bound) => {
            let (w1, done) = zfs_ops::rollback_recursive_does(w, bound);
            (w1, Ok(done))
        },
        None => {
            let (w1, prev) = if existed {
                zfs_ops::previous_anchor_on_dest_does(w, remote, local)
            } else {
                (w, Ok(None))
            };
            match prev {
                Err(m) => (w1, Err(m)),
                Ok(Some(p)) => {
                    let (w2, done) = zfs_ops::send_incremental_does(w1, p, anchor, local);
                    (w2, Ok(done))
                },
                Ok(None) => {
                    let (w2, done) = zfs_ops::send_full_does(w1, anchor, local);
                    (w2, Ok(done))
                },
            }
        },
    }
}

fn move_data<R: Runner>(
    r: &mut R,
    remote: &str,
    local: &str,
    anchor: &str,
    rewind: &Option<String>,
    existed: bool,
) -> (res: Result<Result<(), Error>, Error>)
    ensures
        (final(r).world(), push::tried(res)) == move_data_does(
            old(r).world(),
            remote@,
            local@,
            anchor@,
            rewind.deep_view(),
            existed,
        ),
{
    proof {
        reveal(move_data_does);
    }
    match rewind {
        Some(bound) => Ok(zfs_ops::zfs_rollback_recursive(r, bound.as_str())),
        None => {
            let prev: Option<String> = if existed {
                match zfs_ops::previous_anchor_on_dest(r, remote, local) {
                    Err(e) => return Err(e),
                    Ok(p) => p,
                }
            } else {
                None
            };
            match prev {
                Some(p) => Ok(zfs_ops::send_recv_incremental(r, p.as_str(), anchor, local)),
                None => Ok(zfs_ops::send_recv_full(r, anchor, local)),
            }
        },
    }
}

/// What follows a transfer that succeeded.
#[verifier::opaque]
pub open spec fn settle_does(
    w: World,
    remote: Seq<char>,
    local: Seq<char>,
    anchor: Seq<char>,
    rewind: Option<Seq<char>>,
) -> (World, Result<(), Seq<char>>) {
    let (w1, a) = zfs_ops::set_be_contract_does(w, local);
    if a is Err {
        (w1, a)
    } else {
        let (w2, b) = zfs_ops::set_property_does(w1, local, "readonly"@, "on"@);
        if b is Err {
            (w2, b)
        } else {
            match rewind {
                Some(bound) => (
                    w2.say("    rewound to "@ + bound + " (local readonly)"@),
                    Ok(()),
                ),
                None => (
                    push::prune_both_does(w2, remote, local, anchor).say(
                        "    pulled (local readonly)"@,
                    ),
                    Ok(()),
                ),
            }
        }
    }
}

fn settle<R: Runner>(
    r: &mut R,
    remote: &str,
    local: &str,
    anchor: &str,
    rewind: &Option<String>,
) -> (res: Result<(), Error>)
    requires
        anchor@.contains('@'),
    ensures
        sub::did(final(r).world(), res) == settle_does(
            old(r).world(),
            remote@,
            local@,
            anchor@,
            rewind.deep_view(),
        ),
{
    proof {
        reveal(settle_does);
    }
    if let Err(e) = zfs_ops::set_be_contract(r, local) {
        return Err(e);
    }
    if let Err(e) = zfs_ops::set_readonly_tolerant(r, local, "on") {
        return Err(e);
    }
    match rewind {
        Some(bound) => {
            let line: String = text::cat3("    rewound to ", bound.as_str(), " (local readonly)");
            r.say(line.as_str());
        },
        None => {
            push::prune_both(r, remote, local, anchor);
            r.say("    pulled (local readonly)");
        },
    }
    Ok(())
}

/// One receive: the checks, the anchor, the transfer, and what follows it.
#[verifier::opaque]
pub open spec fn receive_into_does(
    w: World,
    remote: Seq<char>,
    local: Seq<char>,
    bound: Option<Seq<char>>,
    force: bool,
    existed: bool,
) -> (World, Result<(), Seq<char>>) {
    let (w1, a) = check_divergence_does(w, remote, local, existed, force);
    if a is Err {
        (w1, a)
    } else {
        let (w2, b) = check_rewind_does(w1, remote, local, bound, existed, force);
        match b {
            Err(m) => (w2, Err(m)),
            Ok(rewind) => {
                let (w3, c) = pick_anchor_does(w2, remote, bound);
                match c {
                    Err(m) => (w3, Err(m)),
                    Ok(anchor) => {
                        let (w4, opened) = open_local_does(w3, local, existed);
                        match opened {
                            Err(m) => (w4, Err(m)),
                            Ok(was_readonly) => {
                                let (w5, moved) = move_data_does(
                                    w4,
                                    remote,
                                    local,
                                    anchor,
                                    rewind,
                                    existed,
                                );
                                match moved {
                                    Err(m) => (w5, Err(m)),
                                    Ok(Err(m)) => (
                                        if was_readonly {
                                            zfs_ops::set_property_does(
                                                w5,
                                                local,
                                                "readonly"@,
                                                "on"@,
                                            ).0
                                        } else {
                                            w5
                                        },
                                        Err(m),
                                    ),
                                    Ok(Ok(_)) => settle_does(w5, remote, local, anchor, rewind),
                                }
                            },
                        }
                    },
                }
            },
        }
    }
}

/// Receives from `remote_src` into `local_dataset`, which is there already
/// (`existed`) or is made.
pub fn receive_into<R: Runner>(
    r: &mut R,
    remote_src: &str,
    local_dataset: &str,
    bounded_snap: Option<&str>,
    force: bool,
    existed: bool,
) -> (res: Result<(), Error>)
    ensures
        sub::did(final(r).world(), res) == receive_into_does(
            old(r).world(),
            remote_src@,
            local_dataset@,
            bounded_snap.deep_view(),
            force,
            existed,
        ),
{
    proof {
        reveal(receive_into_does);
    }
    if let Err(e) = check_divergence(r, remote_src, local_dataset, existed, force) {
        return Err(e);
    }
    let rewind: Option<String> = match check_rewind(
        r,
        remote_src,
        local_dataset,
        bounded_snap,
        existed,
        force,
    ) {
        Err(e) => return Err(e),
        Ok(x) => x,
    };
    let ghost w2 = r.world();
    let anchor: String = match pick_anchor(r, remote_src, bounded_snap) {
        Err(e) => return Err(e),
        Ok(a) => a,
    };
    proof {
        lemma_anchor_has_at(w2, remote_src@, bounded_snap.deep_view());
    }
    let was_readonly: bool = match open_local(r, local_dataset, existed) {
        Err(e) => return Err(e),
        Ok(b) => b,
    };
    match move_data(r, remote_src, local_dataset, anchor.as_str(), &rewind, existed) {
        Err(e) => Err(e),
        Ok(Err(e)) => {
            if was_readonly {
                let _ = zfs_ops::set_readonly_tolerant(r, local_dataset, "on");
            }
            Err(e)
        },
        Ok(Ok(_)) => settle(r, remote_src, local_dataset, anchor.as_str(), &rewind),
    }
}

// ---------------------------------------------------------------------------
// The two forms of a pull
// ---------------------------------------------------------------------------

/// The remote's checks of an initial pull; gives the local dataset to make.
#[verifier::opaque]
pub open spec fn check_initial_does(
    w: World,
    remote: Seq<char>,
    bound: Option<Seq<char>>,
    name: Seq<char>,
) -> (World, Result<Seq<char>, Seq<char>>) {
    if !remote.contains('/') {
        (
            w,
            Err(
                "--name is for initial pull; `--be` must be the FULL remote dataset path (e.g. rpool2/ROOT/be1), got bare name "@
                    + text::quoted_text(remote),
            ),
        )
    } else {
        let (w1, there) = zfs_ops::dataset_exists_does(w, remote);
        match there {
            Err(m) => (w1, Err(m)),
            Ok(false) => (w1, Err("remote source "@ + remote + " does not exist"@)),
            Ok(true) => {
                let (w2, known) = bound_exists_does(w1, remote, bound, " does not exist"@);
                match known {
                    Err(m) => (w2, Err(m)),
                    Ok(_) => {
                        let remote_pool = text::before(remote, '/');
                        let (w3, role) = zfs_ops::require_role_root_does(w2, remote_pool);
                        match role {
                            Err(m) => (w3, Err(error::within("remote pool "@ + remote_pool, m))),
                            Ok(_) => {
                                let (w4, booted) = zfs_ops::discover_booted_pool_does(w3);
                                match booted {
                                    Err(m) => (w4, Err(m)),
                                    Ok(pool) => {
                                        let w5 = if pool == remote_pool {
                                            w4.say(
                                                "  warning: same-pool pull will full-copy data into the new BE. If you want a cheaper clone, use `zboot fork` instead. Proceeding (full-copy creates an independent dataset, no clone dependency)."@,
                                            )
                                        } else {
                                            w4
                                        };
                                        let (w6, mine) = zfs_ops::require_role_root_does(w5, pool);
                                        match mine {
                                            Err(m) => (w6, Err(m)),
                                            Ok(_) => {
                                                let local = model::be_dataset(pool, name);
                                                let (w7, taken) = zfs_ops::dataset_exists_does(
                                                    w6,
                                                    local,
                                                );
                                                if zfs_ops::exists_or_not(taken) {
                                                    (
                                                        w7,
                                                        Err(
                                                            "local BE "@ + local
                                                                + " already exists; pick a different --name or drop the old one"@,
                                                        ),
                                                    )
                                                } else {
                                                    (w7, Ok(local))
                                                }
                                            },
                                        }
                                    },
                                }
                            },
                        }
                    },
                }
            },
        }
    }
}

/// Checks that the bound, if there is one, is a snapshot of the remote.
#[verifier::opaque]
pub open spec fn bound_exists_does(
    w: World,
    remote: Seq<char>,
    bound: Option<Seq<char>>,
    complaint: Seq<char>,
) -> (World, Result<(), Seq<char>>) {
    match bound {
        None => (w, Ok(())),
        Some(snap) => {
            let full = remote + "@"@ + snap;
            let (w1, known) = zfs_ops::snapshot_exists_does(w, full);
            match known {
                Err(m) => (w1, Err(m)),
                Ok(true) => (w1, Ok(())),
                Ok(false) => (w1, Err("remote snapshot "@ + full + complaint)),
            }
        },
    }
}

fn bound_exists<R: Runner>(r: &mut R, remote: &str, bound: Option<&str>, complaint: &str) -> (res:
    Result<(), Error>)
    ensures
        sub::did(final(r).world(), res) == bound_exists_does(
            old(r).world(),
            remote@,
            bound.deep_view(),
            complaint@,
        ),
{
    proof {
        reveal(bound_exists_does);
    }
    match bound {
        None => Ok(()),
        Some(snap) => {
            let full: String = text::cat3(remote, "@", snap);
            match zfs_ops::snapshot_exists(r, full.as_str()) {
                Err(e) => Err(e),
                Ok(known) => if known {
                    Ok(())
                } else {
                    Err(
                        Error::from_text(text::cat3("remote snapshot ", full.as_str(), complaint)),
                    )
                },
            }
        },
    }
}

fn check_initial<R: Runner>(r: &mut R, remote: &str, bound: Option<&str>, name: &str) -> (res:
    Result<String, Error>)
    ensures
        sub::did(final(r).world(), res) == check_initial_does(
            old(r).world(),
            remote@,
            bound.deep_view(),
            name@,
        ),
{
    proof {
        reveal(check_initial_does);
    }
    if !text::has(remote, '/') {
        let q: String = text::quoted(remote);
        return Err(
            Error::from_text(
                text::cat2(
                    "--name is for initial pull; `--be` must be the FULL remote dataset path (e.g. rpool2/ROOT/be1), got bare name ",
                    q.as_str(),
                ),
            ),
        );
    }
    match zfs_ops::dataset_exists(r, remote) {
        Err(e) => return Err(e),
        Ok(there) => if !there {
            return Err(Error::from_text(text::cat3("remote source ", remote, " does not exist")));
        },
    }
    if let Err(e) = bound_exists(r, remote, bound, " does not exist") {
        return Err(e);
    }
    let remote_pool: &str = text::head(remote, '/');
    if let Err(e) = zfs_ops::require_role_root(r, remote_pool) {
        let doing: String = text::cat2("remote pool ", remote_pool);
        return Err(e.context(doing.as_str()));
    }
    let pool: String = match zfs_ops::discover_booted_pool(r) {
        Err(e) => return Err(e),
        Ok(p) => p,
    };
    if text::eq(pool.as_str(), remote_pool) {
        r.say(
            "  warning: same-pool pull will full-copy data into the new BE. If you want a cheaper clone, use `zboot fork` instead. Proceeding (full-copy creates an independent dataset, no clone dependency).",
        );
    }
    if let Err(e) = zfs_ops::require_role_root(r, pool.as_str()) {
        return Err(e);
    }
    let local: String = model::be_path(pool.as_str(), name);
    if zfs_ops::is_there(r, local.as_str()) {
        return Err(
            Error::from_text(
                text::cat3(
                    "local BE ",
                    local.as_str(),
                    " already exists; pick a different --name or drop the old one",
                ),
            ),
        );
    }
    Ok(local)
}

/// The pair pointer that a dataset's name is, or `complaint` and the name.
pub open spec fn pair_or(ds: Seq<char>, complaint: Seq<char>) -> Result<model::Key, Seq<char>> {
    match model::pair_of(ds) {
        Some(k) => Ok(k),
        None => Err(complaint + ds),
    }
}

fn parse_pair_or(ds: &str, complaint: &str) -> (res: Result<PairPointer, Error>)
    ensures
        error::outcome(res) == pair_or(ds@, complaint@),
{
    match PairPointer::parse_dataset(ds) {
        Some(p) => Ok(p),
        None => Err(Error::from_text(text::cat2(complaint, ds))),
    }
}

/// Makes the new boot environment and the remote a pair; one that is pinned to
/// a bound has no peer.
#[verifier::opaque]
pub open spec fn pair_initial_does(
    w: World,
    remote: Seq<char>,
    local: Seq<char>,
    bound: Option<Seq<char>>,
) -> (World, Result<(), Seq<char>>) {
    if bound is Some {
        (zfs_ops::inherit_property_does(w, local, "zboot:mirror"@), Ok(()))
    } else {
        match (
            pair_or(remote, "can't parse remote source "@),
            pair_or(local, "can't parse local dataset "@),
        ) {
            (Err(m), _) => (w, Err(m)),
            (Ok(_), Err(m)) => (w, Err(m)),
            (Ok(to_remote), Ok(to_local)) => {
                let (w1, a) = zfs_ops::set_property_does(
                    w,
                    local,
                    "zboot:mirror"@,
                    model::pair_text(to_remote),
                );
                if a is Err {
                    (w1, a)
                } else {
                    let w2 = zfs_ops::set_property_does(w1, local, "zboot:primary"@, "off"@).0;
                    let (w3, back) = zfs_ops::read_pair_pointer_does(w2, remote);
                    match back {
                        Err(m) => (w3, Err(m)),
                        Ok(Some(_)) => (w3, Ok(())),
                        Ok(None) => zfs_ops::set_property_does(
                            w3,
                            remote,
                            "zboot:mirror"@,
                            model::pair_text(to_local),
                        ),
                    }
                }
            },
        }
    }
}

fn pair_initial<R: Runner>(r: &mut R, remote: &str, local: &str, bound: Option<&str>) -> (res:
    Result<(), Error>)
    ensures
        sub::did(final(r).world(), res) == pair_initial_does(
            old(r).world(),
            remote@,
            local@,
            bound.deep_view(),
        ),
{
    proof {
        reveal(pair_initial_does);
    }
    if bound.is_some() {
        let _ = zfs_ops::clear_pair_pointer(r, local);
        return Ok(());
    }
    let to_remote = match parse_pair_or(remote, "can't parse remote source ") {
        Err(e) => return Err(e),
        Ok(p) => p,
    };
    let to_local = match parse_pair_or(local, "can't parse local dataset ") {
        Err(e) => return Err(e),
        Ok(p) => p,
    };
    if let Err(e) = zfs_ops::write_pair_pointer(r, local, &to_remote) {
        return Err(e);
    }
    let _ = zfs_ops::set_property_tolerant(r, local, "zboot:primary", "off");
    match zfs_ops::read_pair_pointer(r, remote) {
        Err(e) => Err(e),
        Ok(Some(_)) => Ok(()),
        Ok(None) => zfs_ops::write_pair_pointer(r, remote, &to_local),
    }
}

/// The line that announces a pull.
pub open spec fn pull_line(
    remote: Seq<char>,
    local: Seq<char>,
    bound: Option<Seq<char>>,
    plain: Seq<char>,
    bounded: Seq<char>,
) -> Seq<char> {
    match bound {
        Some(snap) => "  pull "@ + remote + "@"@ + snap + " \u{2192} "@ + local + bounded,
        None => "  pull "@ + remote + " \u{2192} "@ + local + plain,
    }
}

fn announce<R: Runner>(
    r: &mut R,
    remote: &str,
    local: &str,
    bound: Option<&str>,
    plain: &str,
    bounded: &str,
)
    ensures
        final(r).world() == old(r).world().say(
            pull_line(remote@, local@, bound.deep_view(), plain@, bounded@),
        ),
{
    let line: String = match bound {
        Some(snap) => text::cat7("  pull ", remote, "@", snap, " \u{2192} ", local, bounded),
        None => text::cat5("  pull ", remote, " \u{2192} ", local, plain),
    };
    r.say(line.as_str());
}

/// An initial pull.
#[verifier::opaque]
pub open spec fn pull_initial_does(
    w: World,
    remote: Seq<char>,
    bound: Option<Seq<char>>,
    name: Seq<char>,
    force: bool,
) -> (World, Result<(), Seq<char>>) {
    let (w1, checked) = check_initial_does(w, remote, bound, name);
    match checked {
        Err(m) => (w1, Err(m)),
        Ok(local) => {
            let w2 = w1.say(
                pull_line(remote, local, bound, " (initial)"@, " (initial bounded)"@),
            );
            let (w3, root) = zfs_ops::ensure_root_container_does(w2, text::before(local, '/'));
            if root is Err {
                (w3, root)
            } else {
                let (w4, got) = receive_into_does(w3, remote, local, bound, force, false);
                if got is Err {
                    (w4, got)
                } else {
                    pair_initial_does(w4, remote, local, bound)
                }
            }
        },
    }
}

/// Pulls `remote_src` into a new local boot environment `local_name`. The two
/// become a pair; with a bound the new one is a pinned copy without a peer.
pub fn pull_initial<R: Runner>(
    r: &mut R,
    remote_src: &str,
    bounded_snap: Option<&str>,
    local_name: &str,
    force: bool,
) -> (res: Result<(), Error>)
    ensures
        sub::did(final(r).world(), res) == pull_initial_does(
            old(r).world(),
            remote_src@,
            bounded_snap.deep_view(),
            local_name@,
            force,
        ),
{
    proof {
        reveal(pull_initial_does);
    }
    let local: String = match check_initial(r, remote_src, bounded_snap, local_name) {
        Err(e) => return Err(e),
        Ok(l) => l,
    };
    announce(r, remote_src, local.as_str(), bounded_snap, " (initial)", " (initial bounded)");
    if let Err(e) = zfs_ops::ensure_root_container(r, text::head(local.as_str(), '/')) {
        return Err(e);
    }
    if let Err(e) = receive_into(r, remote_src, local.as_str(), bounded_snap, force, false) {
        return Err(e);
    }
    pair_initial(r, remote_src, local.as_str(), bounded_snap)
}

/// The refusal of a pull into a file system that is mounted writable.
pub open spec fn mounted_text(local: Seq<char>) -> Seq<char> {
    let leaf = text::after_last(local, '/');
    "local "@ + local
        + " is mounted+rw; refuses (would corrupt kernel cache).\n  If this is the active BE, the recipe is:\n    zboot pull --name <fresh> <remote>\n    zboot default <fresh>\n    reboot\n    zboot drop "@
        + leaf + "\n    zboot rename <fresh> "@ + leaf
        + "\n  Otherwise: unmount, or set readonly=on on local first."@
}

/// The checks of an incremental pull; gives the local dataset and its peer.
#[verifier::opaque]
pub open spec fn check_incremental_does(w: World, arg: Seq<char>, bound: Option<Seq<char>>) -> (
    World,
    Result<(Seq<char>, Seq<char>), Seq<char>>,
) {
    let (w1, resolved) = be_arg::resolve_be_dataset_does(w, arg);
    match resolved {
        Err(m) => (w1, Err(m)),
        Ok(local) => {
            let (w2, there) = zfs_ops::dataset_exists_does(w1, local);
            match there {
                Err(m) => (w2, Err(m)),
                Ok(false) => (w2, Err("local BE "@ + local + " does not exist"@)),
                Ok(true) => {
                    let (w3, mounted) = zfs_ops::is_mounted_does(w2, local);
                    let (w4, ro) = if mounted {
                        zfs_ops::dataset_property_does(w3, local, "readonly"@)
                    } else {
                        (w3, Ok("on"@))
                    };
                    if !push::reads_on(ro) {
                        (w4, Err(mounted_text(local)))
                    } else {
                        let (w5, pointer) = zfs_ops::read_pair_pointer_does(w4, local);
                        match pointer {
                            Err(m) => (w5, Err(m)),
                            Ok(None) => (
                                w5,
                                Err(
                                    local
                                        + " has no zboot:mirror peer; use `pull --name <new> <remote>` to do an initial pull"@,
                                ),
                            ),
                            Ok(Some(k)) => {
                                let remote = model::pair_text(k);
                                let (w6, found) = zfs_ops::dataset_exists_does(w5, remote);
                                match found {
                                    Err(m) => (w6, Err(m)),
                                    Ok(false) => (
                                        w6,
                                        Err(
                                            "paired remote "@ + remote
                                                + " not reachable (pool not imported or destroyed)"@,
                                        ),
                                    ),
                                    Ok(true) => {
                                        let (w7, known) = bound_exists_does(
                                            w6,
                                            remote,
                                            bound,
                                            " does not exist on paired peer"@,
                                        );
                                        match known {
                                            Err(m) => (w7, Err(m)),
                                            Ok(_) => (w7, Ok((local, remote))),
                                        }
                                    },
                                }
                            },
                        }
                    }
                },
            }
        },
    }
}

fn check_incremental<R: Runner>(r: &mut R, arg: &str, bound: Option<&str>) -> (res: Result<
    (String, String),
    Error,
>)
    ensures
        sub::did(final(r).world(), res) == check_incremental_does(
            old(r).world(),
            arg@,
            bound.deep_view(),
        ),
{
    proof {
        reveal(check_incremental_does);
    }
    let local: String = match be_arg::resolve_be_dataset(r, arg) {
        Err(e) => return Err(e),
        Ok(l) => l,
    };
    match zfs_ops::dataset_exists(r, local.as_str()) {
        Err(e) => return Err(e),
        Ok(there) => if !there {
            return Err(
                Error::from_text(text::cat3("local BE ", local.as_str(), " does not exist")),
            );
        },
    }
    if zfs_ops::is_mounted(r, local.as_str()) {
        if !push::is_readonly(r, local.as_str()) {
            let leaf: &str = text::tail(local.as_str(), '/');
            return Err(
                Error::from_text(
                    text::cat7(
                        "local ",
                        local.as_str(),
                        " is mounted+rw; refuses (would corrupt kernel cache).\n  If this is the active BE, the recipe is:\n    zboot pull --name <fresh> <remote>\n    zboot default <fresh>\n    reboot\n    zboot drop ",
                        leaf,
                        "\n    zboot rename <fresh> ",
                        leaf,
                        "\n  Otherwise: unmount, or set readonly=on on local first.",
                    ),
                ),
            );
        }
    }
    let remote: String = match zfs_ops::read_pair_pointer(r, local.as_str()) {
        Err(e) => return Err(e),
        Ok(None) => {
            return Err(
                Error::from_text(
                    text::cat2(
                        local.as_str(),
                        " has no zboot:mirror peer; use `pull --name <new> <remote>` to do an initial pull",
                    ),
                ),
            );
        },
        Ok(Some(p)) => p.render(),
    };
    match zfs_ops::dataset_exists(r, remote.as_str()) {
        Err(e) => return Err(e),
        Ok(found) => if !found {
            return Err(
                Error::from_text(
                    text::cat3(
                        "paired remote ",
                        remote.as_str(),
                        " not reachable (pool not imported or destroyed)",
                    ),
                ),
            );
        },
    }
    match bound_exists(r, remote.as_str(), bound, " does not exist on paired peer") {
        Err(e) => Err(e),
        Ok(_) => Ok((local, remote)),
    }
}

/// A pull into a boot environment that has a peer.
#[verifier::opaque]
pub open spec fn pull_incremental_does(
    w: World,
    arg: Seq<char>,
    bound: Option<Seq<char>>,
    force: bool,
) -> (World, Result<(), Seq<char>>) {
    let (w1, checked) = check_incremental_does(w, arg, bound);
    match checked {
        Err(m) => (w1, Err(m)),
        Ok((local, remote)) => receive_into_does(
            w1.say(pull_line(remote, local, bound, ""@, ""@)),
            remote,
            local,
            bound,
            force,
            true,
        ),
    }
}

/// Pulls from the peer into a local boot environment.
pub fn pull_incremental<R: Runner>(
    r: &mut R,
    local_arg: &str,
    bounded_snap: Option<&str>,
    force: bool,
) -> (res: Result<(), Error>)
    ensures
        sub::did(final(r).world(), res) == pull_incremental_does(
            old(r).world(),
            local_arg@,
            bounded_snap.deep_view(),
            force,
        ),
{
    proof {
        reveal(pull_incremental_does);
    }
    let (local, remote) = match check_incremental(r, local_arg, bounded_snap) {
        Err(e) => return Err(e),
        Ok(x) => x,
    };
    announce(r, remote.as_str(), local.as_str(), bounded_snap, "", "");
    receive_into(r, remote.as_str(), local.as_str(), bounded_snap, force, true)
}

/// `pull`, by its arguments.
pub open spec fn run_does(
    w: World,
    be: Option<Seq<char>>,
    name: Option<Seq<char>>,
    force: bool,
) -> (World, Result<(), Seq<char>>) {
    if be is None && name is Some {
        (w, Err("`--name` requires the source BE path as a positional argument"@))
    } else {
        let (w1, named) = push::named_or_running_does(w, be);
        match named {
            Err(m) => (w1, Err(m)),
            Ok(arg) => {
                let (target, bound) = be_arg::be_and_snap(arg);
                match name {
                    Some(new_name) => pull_initial_does(w1, target, bound, new_name, force),
                    None => pull_incremental_does(w1, target, bound, force),
                }
            },
        }
    }
}

/// Runs `pull`.
pub fn run<R: Runner>(r: &mut R, args: &PullArgs) -> (res: Result<(), Error>)
    ensures
        sub::did(final(r).world(), res) == run_does(
            old(r).world(),
            args.be.deep_view(),
            args.name.deep_view(),
            args.force,
        ),
{
    if args.be.is_none() && args.name.is_some() {
        return Err(
            Error::new("`--name` requires the source BE path as a positional argument"),
        );
    }
    let arg: String = match push::named_or_running(r, &args.be) {
        Err(e) => return Err(e),
        Ok(a) => a,
    };
    let (target, bound) = be_arg::split_be_snap(arg.as_str());
    let bound_ref: Option<&str> = match &bound {
        Some(b) => Some(b.as_str()),
        None => None,
    };
    match &args.name {
        Some(new_name) => pull_initial(r, target.as_str(), bound_ref, new_name.as_str(), args.force),
        None => pull_incremental(r, target.as_str(), bound_ref, args.force),
    }
}

// ---------------------------------------------------------------------------
// Laws
// ---------------------------------------------------------------------------

/// A pull from a remote with nothing of its own to lose is never refused for
/// divergence or rewind: a dataset that is only now being made has no
/// snapshots.
pub proof fn law_initial_pull_is_not_refused(
    w: World,
    remote: Seq<char>,
    local: Seq<char>,
    bound: Option<Seq<char>>,
    force: bool,
)
    ensures
        check_divergence_does(w, remote, local, false, force) == (w, Ok::<(), Seq<char>>(())),
        check_rewind_does(w, remote, local, bound, false, force) == (
            w,
            Ok::<Option<Seq<char>>, Seq<char>>(None),
        ),
{
    reveal(check_divergence_does);
    reveal(check_rewind_does);
}

/// A pull that is refused for divergence or rewind, or for a wrong
/// confirmation, has changed nothing: all it did was to look, and with
/// `--force` to ask.
pub proof fn law_refused_pull_changes_nothing(
    w: World,
    remote: Seq<char>,
    local: Seq<char>,
    bound: Option<Seq<char>>,
    existed: bool,
    force: bool,
)
    requires
        ({
            let (w1, a) = check_divergence_does(w, remote, local, existed, force);
            a is Err || check_rewind_does(w1, remote, local, bound, existed, force).1 is Err
        }),
    ensures
        ({
            let (end, res) = receive_into_does(w, remote, local, bound, force, existed);
            &&& res is Err
            &&& sub::did_only(w, end, effects::asking())
            &&& !force ==> sub::only_looked(w, end)
        }),
{
    reveal(receive_into_does);
    let p = effects::asking();
    let (w1, a) = check_divergence_does(w, remote, local, existed, force);
    lemma_divergence(w, remote, local, existed, force, p);
    lemma_rewind(w1, remote, local, bound, existed, force, p);
    effects::lemma_then(
        w,
        w1,
        check_rewind_does(w1, remote, local, bound, existed, force).0,
        p,
    );
    if !force {
        reveal(check_divergence_does);
        reveal(check_rewind_does);
        zfs_ops::lemma_only_on_right_looks(w, remote, local);
        if let Some(snap) = bound {
            zfs_ops::lemma_after_bound_looks(w1, remote, local, snap);
        }
    }
}

/// A pull into a boot environment that its checks refuse, such as one that is
/// mounted writable, has changed nothing, with `--force` and without.
pub proof fn law_unfit_pull_changes_nothing(
    w: World,
    arg: Seq<char>,
    bound: Option<Seq<char>>,
    force: bool,
)
    requires
        check_incremental_does(w, arg, bound).1 is Err,
    ensures
        pull_incremental_does(w, arg, bound, force).1 is Err,
        sub::only_looked(w, pull_incremental_does(w, arg, bound, force).0),
{
    reveal(pull_incremental_does);
    reveal(check_incremental_does);
    let (w1, resolved) = be_arg::resolve_be_dataset_does(w, arg);
    be_arg::lemma_resolve_looks(w, arg);
    if let Ok(local) = resolved {
        zfs_ops::lemma_exists_looks(w1, local);
        let (w2, there) = zfs_ops::dataset_exists_does(w1, local);
        zfs_ops::lemma_mounted_looks(w2, local);
        let (w3, mounted) = zfs_ops::is_mounted_does(w2, local);
        zfs_ops::lemma_property_looks(w3, local, "readonly"@);
        let w4 = if mounted {
            zfs_ops::dataset_property_does(w3, local, "readonly"@).0
        } else {
            w3
        };
        reveal(zfs_ops::read_pair_pointer_does);
        zfs_ops::lemma_property_looks(w4, local, "zboot:mirror"@);
        let (w5, pointer) = zfs_ops::read_pair_pointer_does(w4, local);
        if let Ok(Some(k)) = pointer {
            let remote = model::pair_text(k);
            zfs_ops::lemma_exists_looks(w5, remote);
            let w6 = zfs_ops::dataset_exists_does(w5, remote).0;
            reveal(bound_exists_does);
            reveal(zfs_ops::snapshot_exists_does);
            assert(sub::only_looked(
                w6,
                bound_exists_does(w6, remote, bound, " does not exist on paired peer"@).0,
            ));
        }
    }
}

proof fn lemma_divergence(
    w: World,
    remote: Seq<char>,
    local: Seq<char>,
    existed: bool,
    force: bool,
    p: spec_fn(Call) -> bool,
)
    requires
        p(Call::Ask),
    ensures
        sub::did_only(w, check_divergence_does(w, remote, local, existed, force).0, p),
{
    reveal(check_divergence_does);
    zfs_ops::lemma_only_on_right_looks(w, remote, local);
    let (w1, found) = zfs_ops::snapshots_only_on_right_does(w, remote, local);
    effects::lemma_looked(w, w1, p);
    if let Ok(extras) = found {
        let label = "pull --force will run: zfs receive -F (destroys local-only snapshots on "@
            + local + ")"@;
        effects::lemma_confirm(w1, label, local, extras, p);
        effects::lemma_then(
            w,
            w1,
            zfs_ops::confirm_truncate_does(w1, label, local, extras).0,
            p,
        );
    }
}

proof fn lemma_rewind(
    w: World,
    remote: Seq<char>,
    local: Seq<char>,
    bound: Option<Seq<char>>,
    existed: bool,
    force: bool,
    p: spec_fn(Call) -> bool,
)
    requires
        p(Call::Ask),
    ensures
        sub::did_only(w, check_rewind_does(w, remote, local, bound, existed, force).0, p),
        check_rewind_does(w, remote, local, bound, existed, force).1 matches Ok(b)
            ==> effects::is_of(b, local),
{
    reveal(check_rewind_does);
    if let Some(snap) = bound {
        zfs_ops::lemma_after_bound_looks(w, remote, local, snap);
        let (w1, found) = zfs_ops::dest_snapshots_after_bound_does(w, remote, local, snap);
        effects::lemma_looked(w, w1, p);
        if let Ok(after) = found {
            let label = "pull --force will run: zfs rollback -r "@ + (local + "@"@ + snap)
                + " (rewinds local, destroying snapshots taken after the bound)"@;
            effects::lemma_confirm(w1, label, local, after, p);
            effects::lemma_then(
                w,
                w1,
                zfs_ops::confirm_truncate_does(w1, label, local, after).0,
                p,
            );
        }
    }
}

proof fn lemma_pick_anchor(
    w: World,
    remote: Seq<char>,
    bound: Option<Seq<char>>,
    p: spec_fn(Call) -> bool,
)
    requires
        effects::allows(p, remote),
    ensures
        sub::did_only(w, pick_anchor_does(w, remote, bound).0, p),
{
    reveal(pick_anchor_does);
    if bound is None {
        let w1 = w.after(Call::Clock);
        let name = zfs_ops::anchor_name(w.reply().nanos as nat);
        effects::lemma_snapshot(w1, remote, name, p);
        effects::lemma_then(w, w1, zfs_ops::take_snapshot_does(w1, remote, name).0, p);
    }
}

proof fn lemma_open_local(w: World, local: Seq<char>, existed: bool, p: spec_fn(Call) -> bool)
    requires
        effects::allows(p, local),
    ensures
        sub::did_only(w, open_local_does(w, local, existed).0, p),
{
    reveal(open_local_does);
    zfs_ops::lemma_property_looks(w, local, "readonly"@);
    let w1 = zfs_ops::dataset_property_does(w, local, "readonly"@).0;
    effects::lemma_looked(w, w1, p);
    effects::lemma_set(w1, local, "readonly"@, "off"@, p);
    effects::lemma_then(
        w,
        w1,
        zfs_ops::set_property_does(w1, local, "readonly"@, "off"@).0,
        p,
    );
}

proof fn lemma_move_data(
    w: World,
    remote: Seq<char>,
    local: Seq<char>,
    anchor: Seq<char>,
    rewind: Option<Seq<char>>,
    existed: bool,
    p: spec_fn(Call) -> bool,
)
    requires
        effects::allows(p, local),
        effects::is_of(rewind, local),
    ensures
        sub::did_only(w, move_data_does(w, remote, local, anchor, rewind, existed).0, p),
{
    reveal(move_data_does);
    match rewind {
        Some(bound) => {
            effects::lemma_rewind(w, local, bound, p);
        },
        None => {
            let (w1, prev) = if existed {
                zfs_ops::previous_anchor_on_dest_does(w, remote, local)
            } else {
                (w, Ok(None))
            };
            effects::lemma_previous_looks(w, remote, local);
            effects::lemma_looked(w, w1, p);
            match prev {
                Err(_) => {},
                Ok(Some(from)) => {
                    push::lemma_sends(w1, from, anchor, local, p);
                    effects::lemma_then(
                        w,
                        w1,
                        zfs_ops::send_incremental_does(w1, from, anchor, local).0,
                        p,
                    );
                },
                Ok(None) => {
                    push::lemma_sends(w1, anchor, anchor, local, p);
                    effects::lemma_then(w, w1, zfs_ops::send_full_does(w1, anchor, local).0, p);
                },
            }
        },
    }
}

proof fn lemma_settle(
    w: World,
    remote: Seq<char>,
    local: Seq<char>,
    anchor: Seq<char>,
    rewind: Option<Seq<char>>,
    p: spec_fn(Call) -> bool,
)
    requires
        effects::allows(p, remote),
        effects::allows(p, local),
    ensures
        sub::did_only(w, settle_does(w, remote, local, anchor, rewind).0, p),
        settle_does(w, remote, local, anchor, rewind).1 is Ok ==> {
            let end = settle_does(w, remote, local, anchor, rewind).0;
            effects::took_contract(w, end, local) && effects::took(
                w,
                end,
                local,
                "readonly"@,
                "on"@,
            )
        },
{
    reveal(settle_does);
    let end = settle_does(w, remote, local, anchor, rewind).0;
    let (w1, a) = zfs_ops::set_be_contract_does(w, local);
    effects::lemma_contract(w, local, p);
    let (w2, b) = zfs_ops::set_property_does(w1, local, "readonly"@, "on"@);
    effects::lemma_set(w1, local, "readonly"@, "on"@, p);
    effects::lemma_then(w, w1, w2, p);
    if a is Ok && b is Ok {
        match rewind {
            Some(bound) => {
                assert(sub::did_only(w2, end, p));
            },
            None => {
                let w3 = push::prune_both_does(w2, remote, local, anchor);
                push::lemma_prune_both(w2, remote, local, anchor, p);
                assert(sub::did_only(w3, end, p));
                effects::lemma_then(w2, w3, end, p);
            },
        }
        effects::lemma_then(w, w2, end, p);
        assert(sub::continues(w, w));
        effects::lemma_continues(w1, w2, end);
        effects::lemma_contract_within(w, w, w1, end, local);
        effects::lemma_took_within(w, w1, w2, end, local, "readonly"@, "on"@);
    }
}

proof fn lemma_receive(
    w: World,
    remote: Seq<char>,
    local: Seq<char>,
    bound: Option<Seq<char>>,
    force: bool,
    existed: bool,
)
    ensures
        ({
            let (end, res) = receive_into_does(w, remote, local, bound, force, existed);
            &&& sub::did_only(w, end, effects::replication(remote, local))
            &&& res is Ok ==> effects::took_contract(w, end, local) && effects::took(
                w,
                end,
                local,
                "readonly"@,
                "on"@,
            )
        }),
{
    reveal(receive_into_does);
    let p = effects::replication(remote, local);
    let (w1, a) = check_divergence_does(w, remote, local, existed, force);
    lemma_divergence(w, remote, local, existed, force, p);
    let (w2, b) = check_rewind_does(w1, remote, local, bound, existed, force);
    lemma_rewind(w1, remote, local, bound, existed, force, p);
    effects::lemma_then(w, w1, w2, p);
    if a is Ok && b is Ok {
        let rewind = b->Ok_0;
        let (w3, c) = pick_anchor_does(w2, remote, bound);
        lemma_pick_anchor(w2, remote, bound, p);
        effects::lemma_then(w, w2, w3, p);
        if let Ok(anchor) = c {
            let (w4, opened) = open_local_does(w3, local, existed);
            lemma_open_local(w3, local, existed, p);
            effects::lemma_then(w, w3, w4, p);
            if opened is Ok {
                let (w5, moved) = move_data_does(w4, remote, local, anchor, rewind, existed);
                lemma_move_data(w4, remote, local, anchor, rewind, existed, p);
                effects::lemma_then(w, w4, w5, p);
                match moved {
                    Err(_) => {},
                    Ok(Err(_)) => {
                        effects::lemma_set(w5, local, "readonly"@, "on"@, p);
                        effects::lemma_then(
                            w,
                            w5,
                            zfs_ops::set_property_does(w5, local, "readonly"@, "on"@).0,
                            p,
                        );
                    },
                    Ok(Ok(_)) => {
                        let (end, res) = settle_does(w5, remote, local, anchor, rewind);
                        lemma_settle(w5, remote, local, anchor, rewind, p);
                        effects::lemma_then(w, w5, end, p);
                        assert(sub::continues(end, end));
                        if res is Ok {
                            effects::lemma_contract_within(w, w5, end, end, local);
                            effects::lemma_took_within(
                                w,
                                w5,
                                end,
                                end,
                                local,
                                "readonly"@,
                                "on"@,
                            );
                        }
                    },
                }
            }
        }
    }
}

/// A receive changes its two sides and nothing else, however it ends.
pub proof fn law_pull_keeps_to_its_sides(
    w: World,
    remote: Seq<char>,
    local: Seq<char>,
    bound: Option<Seq<char>>,
    force: bool,
    existed: bool,
)
    ensures
        sub::did_only(
            w,
            receive_into_does(w, remote, local, bound, force, existed).0,
            effects::replication(remote, local),
        ),
{
    lemma_receive(w, remote, local, bound, force, existed);
}

/// A receive that succeeds leaves a boot environment that is read-only: all its
/// properties have been set and read back.
pub proof fn law_pulled_is_a_readonly_be(
    w: World,
    remote: Seq<char>,
    local: Seq<char>,
    bound: Option<Seq<char>>,
    force: bool,
    existed: bool,
)
    requires
        receive_into_does(w, remote, local, bound, force, existed).1 is Ok,
    ensures
        ({
            let end = receive_into_does(w, remote, local, bound, force, existed).0;
            effects::took_contract(w, end, local) && effects::took(
                w,
                end,
                local,
                "readonly"@,
                "on"@,
            )
        }),
{
    lemma_receive(w, remote, local, bound, force, existed);
}

/// A copy that is bounded at a snapshot is never paired by the pull that makes
/// it.
pub proof fn law_bounded_copy_is_unpaired(
    w: World,
    remote: Seq<char>,
    local: Seq<char>,
    snap: Seq<char>,
)
    ensures
        pair_initial_does(w, remote, local, Some(snap)) == (
            zfs_ops::inherit_property_does(w, local, "zboot:mirror"@),
            Ok::<(), Seq<char>>(()),
        ),
{
    reveal(pair_initial_does);
}

proof fn lemma_moved(
    a: World,
    w: World,
    remote: Seq<char>,
    local: Seq<char>,
    anchor: Seq<char>,
    rewind: Option<Seq<char>>,
    existed: bool,
)
    requires
        sub::continues(a, w),
        !existed ==> exists|l: int|
            a.calls.len() <= l < w.calls.len() && #[trigger] effects::told_absent(w, l, local),
    ensures
        ({
            let (end, moved) = move_data_does(w, remote, local, anchor, rewind, existed);
            moved matches Ok(Ok(_)) ==> match rewind {
                Some(bound) => effects::ran(w, end, "zfs"@, seq!["rollback"@, "-r"@, bound]),
                None => effects::replicated(a, end, remote, local, anchor),
            }
        }),
{
    reveal(move_data_does);
    match rewind {
        Some(bound) => {
            reveal(zfs_ops::rollback_recursive_does);
            let end = move_data_does(w, remote, local, anchor, rewind, existed).0;
            let n = w.calls.len() as int + 1;
            assert(end.calls[n] == Call::Run {
                prog: "zfs"@,
                args: seq!["rollback"@, "-r"@, bound],
            });
        },
        None => {
            let (w1, prev) = if existed {
                zfs_ops::previous_anchor_on_dest_does(w, remote, local)
            } else {
                (w, Ok(None))
            };
            effects::lemma_base_told(w, remote, local);
            effects::lemma_continues(a, w, w1);
            let n = w.calls.len() as int;
            match prev {
                Err(_) => {},
                Ok(Some(p)) => {
                    if zfs_ops::send_incremental_does(w1, p, anchor, local).1 is Ok {
                        effects::lemma_sent_on(a, w1, remote, local, p, anchor);
                    }
                },
                Ok(None) => {
                    let l = if existed {
                        n
                    } else {
                        choose|l: int|
                            a.calls.len() <= l < w.calls.len() && #[trigger] effects::told_absent(
                                w,
                                l,
                                local,
                            )
                    };
                    if zfs_ops::send_full_does(w1, anchor, local).1 is Ok {
                        effects::lemma_sent_whole(a, w1, l, remote, local, anchor, false);
                    }
                },
            }
        },
    }
}

/// What a receive that succeeds has brought; `a` is a world before it, since
/// when the local dataset has turned out to be missing, if it is.
proof fn lemma_received(
    a: World,
    w: World,
    remote: Seq<char>,
    local: Seq<char>,
    bound: Option<Seq<char>>,
    force: bool,
    existed: bool,
)
    requires
        receive_into_does(w, remote, local, bound, force, existed).1 is Ok,
        sub::continues(a, w),
        !existed ==> exists|l: int|
            a.calls.len() <= l < w.calls.len() && #[trigger] effects::told_absent(w, l, local),
    ensures
        effects::brought(
            a,
            receive_into_does(w, remote, local, bound, force, existed).0,
            remote,
            local,
            bound,
        ),
{
    reveal(receive_into_does);
    let p = effects::replication(remote, local);
    let w1 = check_divergence_does(w, remote, local, existed, force).0;
    lemma_divergence(w, remote, local, existed, force, p);
    let (w2, b) = check_rewind_does(w1, remote, local, bound, existed, force);
    lemma_rewind(w1, remote, local, bound, existed, force, p);
    let rewind = b->Ok_0;
    let (w3, c) = pick_anchor_does(w2, remote, bound);
    lemma_pick_anchor(w2, remote, bound, p);
    let anchor = c->Ok_0;
    let w4 = open_local_does(w3, local, existed).0;
    lemma_open_local(w3, local, existed, p);
    let (w5, moved) = move_data_does(w4, remote, local, anchor, rewind, existed);
    lemma_move_data(w4, remote, local, anchor, rewind, existed, p);
    let end = settle_does(w5, remote, local, anchor, rewind).0;
    lemma_settle(w5, remote, local, anchor, rewind, p);
    effects::lemma_continues(w, w1, w2);
    effects::lemma_continues(w, w2, w3);
    effects::lemma_continues(w, w3, w4);
    effects::lemma_continues(a, w, w1);
    effects::lemma_continues(a, w1, w2);
    effects::lemma_continues(a, w2, w3);
    effects::lemma_continues(a, w3, w4);
    effects::lemma_continues(w3, w4, w5);
    effects::lemma_continues(w3, w5, end);
    effects::lemma_continues(w2, w3, end);
    effects::lemma_continues(a, w4, w5);
    assert(sub::continues(a, a));
    if !existed {
        let l = choose|l: int|
            a.calls.len() <= l < w.calls.len() && #[trigger] effects::told_absent(w, l, local);
        assert(w4.calls[l] == w.calls[l]);
        assert(effects::told_absent(w4, l, local));
    }
    lemma_moved(a, w4, remote, local, anchor, rewind, existed);
    reveal(check_rewind_does);
    reveal(pick_anchor_does);
    match bound {
        None => {
            effects::lemma_fresh_anchor(w2, remote);
            effects::lemma_ran_within(a, w2, w3, end, "zfs"@, seq!["snapshot"@, anchor]);
            effects::lemma_replicated_within(a, a, w5, end, remote, local, anchor);
            assert(effects::anchored(a, end, remote, anchor));
        },
        Some(snap) => {
            match rewind {
                None => {
                    effects::lemma_replicated_within(a, a, w5, end, remote, local, anchor);
                },
                Some(x) => {
                    effects::lemma_ran_within(
                        a,
                        w4,
                        w5,
                        end,
                        "zfs"@,
                        seq!["rollback"@, "-r"@, x],
                    );
                    effects::lemma_told_ahead(w1, remote, local, snap);
                    let l = w1.calls.len() as int;
                    let (wl, found) = zfs_ops::dest_snapshots_after_bound_does(
                        w1,
                        remote,
                        local,
                        snap,
                    );
                    zfs_ops::lemma_confirm_asks(
                        wl,
                        "pull --force will run: zfs rollback -r "@ + x
                            + " (rewinds local, destroying snapshots taken after the bound)"@,
                        local,
                        found->Ok_0,
                    );
                    effects::lemma_continues(wl, w2, end);
                    assert(end.calls[l] == wl.calls[l] && end.calls[l + 1] == wl.calls[l + 1]);
                    assert(effects::told_ahead(end, l, remote, local, remote + "@"@ + snap));
                },
            }
        },
    }
}

/// A pull from the peer that succeeds has brought the local dataset to the bound,
/// or to a fresh anchor of the peer.
pub proof fn law_pulled_has_arrived(
    w: World,
    remote: Seq<char>,
    local: Seq<char>,
    bound: Option<Seq<char>>,
    force: bool,
)
    requires
        receive_into_does(w, remote, local, bound, force, true).1 is Ok,
    ensures
        effects::brought(
            w,
            receive_into_does(w, remote, local, bound, force, true).0,
            remote,
            local,
            bound,
        ),
{
    assert(sub::continues(w, w));
    lemma_received(w, w, remote, local, bound, force, true);
}

/// An initial pull that succeeds has brought a new local boot environment to the
/// bound, or to a fresh anchor of the remote; and where there is no bound the
/// new one points at the remote.
pub proof fn law_initial_pull_has_arrived(
    w: World,
    remote: Seq<char>,
    bound: Option<Seq<char>>,
    name: Seq<char>,
    force: bool,
)
    requires
        pull_initial_does(w, remote, bound, name, force).1 is Ok,
    ensures
        ({
            let end = pull_initial_does(w, remote, bound, name, force).0;
            exists|pool: Seq<char>|
                effects::brought(w, end, remote, #[trigger] model::be_dataset(pool, name), bound)
                    && (bound is None ==> effects::took(
                    w,
                    end,
                    model::be_dataset(pool, name),
                    "zboot:mirror"@,
                    remote,
                ))
        }),
{
    reveal(pull_initial_does);
    let end = pull_initial_does(w, remote, bound, name, force).0;
    let (w1, checked) = check_initial_does(w, remote, bound, name);
    let local = checked->Ok_0;
    lemma_initial_checked(w, remote, bound, name);
    let w2 = w1.say(pull_line(remote, local, bound, " (initial)"@, " (initial bounded)"@));
    let pool = text::before(local, '/');
    let w3 = zfs_ops::ensure_root_container_does(w2, pool).0;
    effects::lemma_container(w2, pool, |c: Call| true);
    effects::lemma_continues(w, w1, w2);
    effects::lemma_continues(w, w2, w3);
    effects::lemma_continues(w1, w2, w3);
    let l = choose|l: int|
        w.calls.len() <= l < w1.calls.len() && #[trigger] effects::told_absent(w1, l, local);
    assert(w3.calls[l] == w1.calls[l]);
    assert(effects::told_absent(w3, l, local));
    lemma_received(w, w3, remote, local, bound, force, false);
    let w4 = receive_into_does(w3, remote, local, bound, force, false).0;
    lemma_receive(w3, remote, local, bound, force, false);
    effects::lemma_continues(w, w3, w4);
    lemma_paired(w4, remote, local, bound);
    assert(sub::continues(w, w) && sub::continues(end, end));
    effects::lemma_brought_within(w, w, w4, end, remote, local, bound);
    if bound is None {
        effects::lemma_took_within(w, w4, end, end, local, "zboot:mirror"@, remote);
    }
    let at = choose|at: Seq<char>| local == #[trigger] model::be_dataset(at, name);
    assert(effects::brought(w, end, remote, model::be_dataset(at, name), bound));
}

/// The checks of an initial pull end with the local dataset being missing.
proof fn lemma_initial_checked(
    w: World,
    remote: Seq<char>,
    bound: Option<Seq<char>>,
    name: Seq<char>,
)
    requires
        check_initial_does(w, remote, bound, name).1 is Ok,
    ensures
        ({
            let (end, checked) = check_initial_does(w, remote, bound, name);
            let local = checked->Ok_0;
            &&& sub::only_looked(w, end)
            &&& exists|at: Seq<char>| local == #[trigger] model::be_dataset(at, name)
            &&& exists|l: int|
                w.calls.len() <= l < end.calls.len() && #[trigger] effects::told_absent(
                    end,
                    l,
                    local,
                )
        }),
{
    reveal(check_initial_does);
    reveal(zfs_ops::dataset_exists_does);
    let end = check_initial_does(w, remote, bound, name).0;
    let w1 = zfs_ops::dataset_exists_does(w, remote).0;
    let w2 = bound_exists_does(w1, remote, bound, " does not exist"@).0;
    assert(sub::only_looked(w1, w2)) by {
        reveal(bound_exists_does);
        reveal(zfs_ops::snapshot_exists_does);
    }
    let remote_pool = text::before(remote, '/');
    let w3 = zfs_ops::require_role_root_does(w2, remote_pool).0;
    assert(sub::only_looked(w2, w3)) by {
        reveal(zfs_ops::require_role_root_does);
        zfs_ops::lemma_pool_property_looks(w2, remote_pool, "zboot:role"@);
    }
    let (w4, booted) = zfs_ops::discover_booted_pool_does(w3);
    assert(sub::only_looked(w3, w4)) by {
        reveal(zfs_ops::discover_booted_dataset_does);
    }
    let pool = booted->Ok_0;
    let w5 = if pool == remote_pool {
        w4.say(
            "  warning: same-pool pull will full-copy data into the new BE. If you want a cheaper clone, use `zboot fork` instead. Proceeding (full-copy creates an independent dataset, no clone dependency)."@,
        )
    } else {
        w4
    };
    let w6 = zfs_ops::require_role_root_does(w5, pool).0;
    assert(sub::only_looked(w5, w6)) by {
        reveal(zfs_ops::require_role_root_does);
        zfs_ops::lemma_pool_property_looks(w5, pool, "zboot:role"@);
    }
    assert(sub::only_looked(w, w1));
    assert(sub::only_looked(w4, w5));
    assert(sub::only_looked(w6, end));
    effects::lemma_looked_on(w, w1, w2);
    effects::lemma_looked_on(w, w2, w3);
    effects::lemma_looked_on(w, w3, w4);
    effects::lemma_looked_on(w, w4, w5);
    effects::lemma_looked_on(w, w5, w6);
    effects::lemma_looked_on(w, w6, end);
    let l = end.calls.len() - 1;
    let local = check_initial_does(w, remote, bound, name).1->Ok_0;
    assert(effects::told_absent(end, l, local));
}

proof fn lemma_paired(w: World, remote: Seq<char>, local: Seq<char>, bound: Option<Seq<char>>)
    requires
        pair_initial_does(w, remote, local, bound).1 is Ok,
    ensures
        sub::continues(w, pair_initial_does(w, remote, local, bound).0),
        bound is None ==> effects::took(
            w,
            pair_initial_does(w, remote, local, bound).0,
            local,
            "zboot:mirror"@,
            remote,
        ),
{
    reveal(pair_initial_does);
    reveal(zfs_ops::inherit_property_does);
    let all = |c: Call| true;
    let end = pair_initial_does(w, remote, local, bound).0;
    if bound is None {
        let to_remote = model::pair_of(remote)->0;
        model::law_pair_text(remote);
        let w1 = zfs_ops::set_property_does(w, local, "zboot:mirror"@, remote).0;
        effects::lemma_set(w, local, "zboot:mirror"@, remote, all);
        let w2 = zfs_ops::set_property_does(w1, local, "zboot:primary"@, "off"@).0;
        effects::lemma_set(w1, local, "zboot:primary"@, "off"@, all);
        let (w3, back) = zfs_ops::read_pair_pointer_does(w2, remote);
        assert(sub::continues(w2, w3)) by {
            reveal(zfs_ops::read_pair_pointer_does);
            zfs_ops::lemma_property_looks(w2, remote, "zboot:mirror"@);
        }
        let to_local = model::pair_of(local)->0;
        effects::lemma_set(w3, remote, "zboot:mirror"@, model::pair_text(to_local), all);
        assert(sub::continues(w3, end));
        effects::lemma_continues(w1, w2, w3);
        effects::lemma_continues(w1, w3, end);
        effects::lemma_continues(w, w1, end);
        assert(sub::continues(w, w));
        effects::lemma_took_within(w, w, w1, end, local, "zboot:mirror"@, remote);
    }
}

/// A pull that settles leaves on either side no anchor but the new one.
pub proof fn law_settled_pull_is_tidy(
    w: World,
    remote: Seq<char>,
    local: Seq<char>,
    anchor: Seq<char>,
)
    requires
        settle_does(w, remote, local, anchor, None).1 is Ok,
    ensures
        push::both_pruned(
            w,
            settle_does(w, remote, local, anchor, None).0,
            remote,
            local,
            anchor,
        ),
{
    reveal(settle_does);
    let all = |c: Call| true;
    let end = settle_does(w, remote, local, anchor, None).0;
    effects::lemma_contract(w, local, all);
    let w1 = zfs_ops::set_be_contract_does(w, local).0;
    effects::lemma_set(w1, local, "readonly"@, "on"@, all);
    let w2 = zfs_ops::set_property_does(w1, local, "readonly"@, "on"@).0;
    effects::lemma_continues(w, w1, w2);
    assert(sub::continues(push::prune_both_does(w2, remote, local, anchor), end));
    push::lemma_both_pruned(w, w2, end, remote, local, anchor);
}

/// A pull into an environment that is there brings what its peer holds, and the
/// peer is the one that its own pointer names.
pub proof fn law_pull_has_arrived(
    w: World,
    arg: Seq<char>,
    bound: Option<Seq<char>>,
    force: bool,
)
    requires
        pull_incremental_does(w, arg, bound, force).1 is Ok,
    ensures
        ({
            let end = pull_incremental_does(w, arg, bound, force).0;
            exists|remote: Seq<char>, local: Seq<char>|
                #[trigger] effects::brought(w, end, remote, local, bound) && (arg.contains('/')
                    ==> local == arg) && points_at(w, end, local, remote)
        }),
{
    reveal(pull_incremental_does);
    reveal(check_incremental_does);
    reveal(be_arg::resolve_be_dataset_does);
    reveal(zfs_ops::discover_booted_dataset_does);
    reveal(zfs_ops::dataset_exists_does);
    reveal(zfs_ops::is_mounted_does);
    reveal(zfs_ops::dataset_property_does);
    reveal(bound_exists_does);
    reveal(zfs_ops::snapshot_exists_does);
    let end = pull_incremental_does(w, arg, bound, force).0;
    let (w1, checked) = check_incremental_does(w, arg, bound);
    let (local, remote) = checked->Ok_0;
    let w2 = w1.say(pull_line(remote, local, bound, ""@, ""@));
    assert(sub::continues(w, w2));
    law_pulled_has_arrived(w2, remote, local, bound, force);
    lemma_receive(w2, remote, local, bound, force, true);
    assert(sub::continues(end, end));
    effects::lemma_brought_within(w, w2, end, end, remote, local, bound);
    let wl = be_arg::resolve_be_dataset_does(w, arg).0;
    let (w3, mounted) = zfs_ops::is_mounted_does(zfs_ops::dataset_exists_does(wl, local).0, local);
    let w4 = if mounted {
        zfs_ops::dataset_property_does(w3, local, "readonly"@).0
    } else {
        w3
    };
    let n = w4.calls.len() as int;
    assert(w2.calls[n] == effects::get_call(local, "zboot:mirror"@));
    assert(end.calls[n] == w2.calls[n]);
}

/// A pointer was read, and names a dataset.
pub open spec fn points_at(a: World, b: World, ds: Seq<char>, peer: Seq<char>) -> bool {
    exists|n: int|
        a.calls.len() <= n < b.calls.len() && #[trigger] b.calls[n] == effects::get_call(
            ds,
            "zboot:mirror"@,
        ) && effects::succeeded(b, n) && (model::pair_of(
            text::trimmed((b.replies)(n as nat).stdout),
        ) matches Some(k) && model::pair_text(k) == peer)
}

} // verus!
