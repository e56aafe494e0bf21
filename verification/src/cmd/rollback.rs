//! `rollback`: fork a snapshot into a new boot environment, and boot that
//! next.
//!
//! The two verbs are run as commands of their own, so that each goes through
//! all of its checks. Where the fork fails nothing is switched. Where the
//! switch fails the new boot environment stays, and a warning says so.

use vstd::prelude::*;

use crate::cmd::snapshot;
use crate::effects;
use crate::error;
use crate::error::Error;
use crate::model;
use crate::model::SnapshotRef;
use crate::sub;
use crate::sub::{Call, RawOutput, Runner, Spilled, World};
use crate::text;

verus! {

/// Arguments of `rollback`.
#[derive(Debug)]
pub struct RollbackArgs {
    /// `<dataset>@<snapshot>`, any that is there.
    pub to: String,
    /// Name of the new boot environment; made from the clock where it is
    /// missing.
    pub name: Option<String>,
}

/// `rollback-YYYYMMDDTHHMMSSZ`.
pub fn default_rollback_name(unix_secs: u64) -> (r: String)
    ensures
        snapshot::names_instant("rollback-"@, r@, unix_secs as int),
{
    snapshot::stamped_name("rollback-", unix_secs)
}

/// A name that a boot environment can have.
pub open spec fn valid_name(name: Seq<char>) -> Result<(), Seq<char>> {
    if name.len() == 0 {
        Err("rollback: --name must be non-empty"@)
    } else if name.contains('/') || name.contains('@') {
        Err(
            "rollback: --name must be a bare BE name (no `/` or `@`); got "@ + text::quoted_text(
                name,
            ),
        )
    } else {
        Ok(())
    }
}

/// Refuses a name that no boot environment can have.
pub fn validate_be_name(name: &str) -> (res: Result<(), Error>)
    ensures
        error::outcome(res) == valid_name(name@),
{
    if name.is_empty() {
        return Err(Error::new("rollback: --name must be non-empty"));
    }
    if text::has(name, '/') || text::has(name, '@') {
        let q: String = text::quoted(name);
        return Err(
            Error::from_text(
                text::cat2(
                    "rollback: --name must be a bare BE name (no `/` or `@`); got ",
                    q.as_str(),
                ),
            ),
        );
    }
    Ok(())
}

/// Runs this program again with other arguments, and passes on what it
/// printed.
#[verifier::opaque]
pub open spec fn subverb_does(
    w: World,
    args: Seq<Seq<char>>,
    doing: Seq<char>,
    forwarding: Seq<char>,
) -> (World, Result<Spilled, Seq<char>>) {
    let exe = match w.line() {
        Ok(p) => p,
        Err(_) => "zboot"@,
    };
    let w1 = w.after(Call::Exe);
    let w2 = w1.run(exe, args);
    match w1.spilled() {
        Err(m) => (w2, Err(error::within(doing, error::within(sub::spawning_text(exe, args), m)))),
        Ok(out) => {
            let (w3, passed) = sub::forward_does(w2, out.bytes, forwarding);
            match passed {
                Err(m) => (w3, Err(m)),
                Ok(()) => if out.error_bytes.len() == 0 {
                    (w3, Ok(out))
                } else {
                    (w3.after(Call::ForwardError { bytes: out.error_bytes }), Ok(out))
                },
            }
        },
    }
}

fn subverb<R: Runner>(r: &mut R, args: &[&str], doing: &str, forwarding: &str) -> (res: Result<
    RawOutput,
    Error,
>)
    ensures
        sub::did(final(r).world(), res) == subverb_does(
            old(r).world(),
            args.deep_view(),
            doing@,
            forwarding@,
        ),
{
    proof {
        reveal(subverb_does);
    }
    let exe: String = match r.exe() {
        Ok(p) => p,
        Err(_) => "zboot".to_owned(),
    };
    let out = match r.spill(exe.as_str(), args) {
        Err(e) => return Err(sub::not_spawned(e, exe.as_str(), args).context(doing)),
        Ok(o) => o,
    };
    if let Err(e) = sub::forward(r, out.bytes.as_slice(), forwarding) {
        return Err(e);
    }
    if out.error_bytes.len() > 0 {
        r.forward_error(out.error_bytes.as_slice());
    }
    Ok(out)
}

/// The fork.
#[verifier::opaque]
pub open spec fn fork_does(w: World, name: Seq<char>, to: Seq<char>) -> (World, Result<
    (),
    Seq<char>,
>) {
    let (w0, told) = sub::tell_does(w, "rollback: forking "@ + name + " from "@ + to, "write"@);
    let (w1, got) = match told {
        Err(m) => (w0, Err(m)),
        Ok(()) => subverb_does(
            w0,
            seq!["fork"@, name, "--from"@, to],
            "spawning `zboot fork`"@,
            "forwarding fork stdout"@,
        ),
    };
    match got {
        Err(m) => (w1, Err(m)),
        Ok(out) => if out.rc == 0 {
            (w1, Ok(()))
        } else {
            (
                w1,
                Err(
                    "rollback: `zboot fork "@ + name + " --from "@ + to + "` failed rc="@
                        + text::signed_decimal(out.rc) + ": "@ + text::trimmed(out.stderr),
                ),
            )
        },
    }
}

fn fork<R: Runner>(r: &mut R, name: &str, to: &str) -> (res: Result<(), Error>)
    ensures
        sub::did(final(r).world(), res) == fork_does(old(r).world(), name@, to@),
{
    proof {
        reveal(fork_does);
    }
    let line: String = text::cat4("rollback: forking ", name, " from ", to);
    if let Err(e) = sub::tell(r, line.as_str(), "write") {
        return Err(e);
    }
    let args = text::argv4("fork", name, "--from", to);
    let out = match subverb(
        r,
        args.as_slice(),
        "spawning `zboot fork`",
        "forwarding fork stdout",
    ) {
        Err(e) => return Err(e),
        Ok(o) => o,
    };
    if out.rc == 0 {
        return Ok(());
    }
    let rc: String = text::dec_signed(out.rc as i64);
    Err(
        Error::from_text(
            text::cat8(
                "rollback: `zboot fork ",
                name,
                " --from ",
                to,
                "` failed rc=",
                rc.as_str(),
                ": ",
                text::trim(out.stderr.as_str()),
            ),
        ),
    )
}

/// The warning about a boot environment that was made and does not boot next.
pub open spec fn warning_text(name: Seq<char>, rc: int) -> Seq<char> {
    "warning: rollback created BE "@ + text::quoted_text(name)
        + " but `zboot default` failed (rc="@ + text::signed_decimal(rc)
        + "); the new BE was not activated. Retry with `zboot default "@ + name
        + "`, or `zboot drop "@ + name + "` to discard."@
}

/// The switch.
#[verifier::opaque]
pub open spec fn switch_does(w: World, name: Seq<char>) -> (World, Result<(), Seq<char>>) {
    let (w0, told) = sub::tell_does(w, "rollback: switching to "@ + name, "write"@);
    let (w1, got) = match told {
        Err(m) => (w0, Err(m)),
        Ok(()) => subverb_does(
            w0,
            seq!["default"@, name],
            "spawning `zboot default`"@,
            "forwarding switch stdout"@,
        ),
    };
    match got {
        Err(m) => (w1, Err(m)),
        Ok(out) => if out.rc == 0 {
            sub::tell_does(w1, "rollback: complete — "@ + name + " is now active"@, "write"@)
        } else {
            (
                w1.trace(warning_text(name, out.rc)),
                Err(
                    "rollback: `zboot default "@ + name + "` failed rc="@ + text::signed_decimal(
                        out.rc,
                    ) + ": "@ + text::trimmed(out.stderr),
                ),
            )
        },
    }
}

fn switch<R: Runner>(r: &mut R, name: &str) -> (res: Result<(), Error>)
    ensures
        sub::did(final(r).world(), res) == switch_does(old(r).world(), name@),
{
    proof {
        reveal(switch_does);
    }
    let line: String = text::cat2("rollback: switching to ", name);
    if let Err(e) = sub::tell(r, line.as_str(), "write") {
        return Err(e);
    }
    let args = text::argv2("default", name);
    let out = match subverb(
        r,
        args.as_slice(),
        "spawning `zboot default`",
        "forwarding switch stdout",
    ) {
        Err(e) => return Err(e),
        Ok(o) => o,
    };
    if out.rc == 0 {
        let line: String = text::cat3("rollback: complete — ", name, " is now active");
        return sub::tell(r, line.as_str(), "write");
    }
    let rc: String = text::dec_signed(out.rc as i64);
    let q: String = text::quoted(name);
    let warning: String = text::cat9(
        "warning: rollback created BE ",
        q.as_str(),
        " but `zboot default` failed (rc=",
        rc.as_str(),
        "); the new BE was not activated. Retry with `zboot default ",
        name,
        "`, or `zboot drop ",
        name,
        "` to discard.",
    );
    r.trace(warning.as_str());
    Err(
        Error::from_text(
            text::cat6(
                "rollback: `zboot default ",
                name,
                "` failed rc=",
                rc.as_str(),
                ": ",
                text::trim(out.stderr.as_str()),
            ),
        ),
    )
}

/// The rollback with the name that was given or made.
pub open spec fn run_named_does(w: World, to: Seq<char>, name: Seq<char>) -> (World, Result<
    (),
    Seq<char>,
>) {
    match valid_name(name) {
        Err(m) => (w, Err(m)),
        Ok(()) => {
            let (w1, forked) = fork_does(w, name, to);
            match forked {
                Err(m) => (w1, Err(m)),
                Ok(()) => switch_does(w1, name),
            }
        },
    }
}

fn run_named<R: Runner>(r: &mut R, to: &str, name: &str) -> (res: Result<(), Error>)
    ensures
        sub::did(final(r).world(), res) == run_named_does(old(r).world(), to@, name@),
{
    match validate_be_name(name) {
        Err(e) => return Err(e),
        Ok(()) => {},
    }
    match fork(r, name, to) {
        Err(e) => Err(e),
        Ok(()) => switch(r, name),
    }
}

/// The complaint about a snapshot that is none.
pub open spec fn bad_snapshot_text(to: Seq<char>) -> Seq<char> {
    "rollback: --to must be `<dataset>@<snapshot>` (got "@ + text::quoted_text(to) + ")"@
}

/// What `rollback` does in the world `w`: `end` is the world it leaves, `out`
/// what it returns. Where no name is given, the name is that of the instant
/// that the clock reads.
pub open spec fn run_does(
    w: World,
    to: Seq<char>,
    name: Option<Seq<char>>,
    end: World,
    out: Result<(), Seq<char>>,
) -> bool {
    if model::snap_of(to) is None {
        (end, out) == (w, Err::<(), Seq<char>>(bad_snapshot_text(to)))
    } else {
        match name {
            Some(n) => (end, out) == run_named_does(w, to, n),
            None => exists|n: Seq<char>| #[trigger]
                snapshot::names_instant(
                    "rollback-"@,
                    n,
                    snapshot::seconds_of(w.reply().nanos),
                ) && (end, out) == run_named_does(w.after(Call::Clock), to, n),
        }
    }
}

/// `rollback`: forks a snapshot, and boots the fork next.
pub fn run<R: Runner>(r: &mut R, args: &RollbackArgs) -> (res: Result<(), Error>)
    ensures
        run_does(
            old(r).world(),
            args.to@,
            args.name.deep_view(),
            final(r).world(),
            error::outcome(res),
        ),
{
    let to: &str = args.to.as_str();
    let parsed = SnapshotRef::parse(to);
    if parsed.is_none() {
        let q: String = text::quoted(to);
        return Err(
            Error::from_text(
                text::cat3(
                    "rollback: --to must be `<dataset>@<snapshot>` (got ",
                    q.as_str(),
                    ")",
                ),
            ),
        );
    }
    match &args.name {
        Some(n) => run_named(r, to, n.as_str()),
        None => {
            let n: String = default_rollback_name(snapshot::unix_secs(r));
            run_named(r, to, n.as_str())
        },
    }
}

// ---------------------------------------------------------------------------
// Laws
// ---------------------------------------------------------------------------

/// Nothing is switched unless the fork succeeded.
pub proof fn law_no_switch_after_failed_fork(w: World, to: Seq<char>, name: Seq<char>)
    requires
        valid_name(name) is Ok,
        fork_does(w, name, to).1 is Err,
    ensures
        run_named_does(w, to, name).0 == fork_does(w, name, to).0,
        run_named_does(w, to, name).1 is Err,
{
}

/// A name or a snapshot that cannot be is refused before anything is asked of
/// the machine.
pub proof fn law_bad_arguments_do_nothing(w: World, to: Seq<char>, name: Seq<char>)
    ensures
        valid_name(name) is Err ==> run_named_does(w, to, name).0 == w && run_named_does(
            w,
            to,
            name,
        ).1 is Err,
        forall|end: World, out: Result<(), Seq<char>>|
            model::snap_of(to) is None && #[trigger] run_does(w, to, Some(name), end, out) ==> end
                == w && out is Err,
{
}

/// A command of this program was run, and came to its end with no error.
pub open spec fn carried_out(a: World, b: World, args: Seq<Seq<char>>) -> bool {
    exists|n: int|
        a.calls.len() <= n < b.calls.len() && #[trigger] effects::succeeded(b, n)
            && b.calls[n] is Run && b.calls[n]->Run_args == args
}

/// A rollback that succeeds has forked the snapshot that was asked for under the
/// name that was asked for, and then made that the one that boots.
pub proof fn law_rollback_forks_and_switches(w: World, to: Seq<char>, name: Seq<char>)
    requires
        run_named_does(w, to, name).1 is Ok,
    ensures
        ({
            let end = run_named_does(w, to, name).0;
            exists|at: World| #[trigger]
                sub::continues(w, at) && sub::continues(at, end) && carried_out(
                    w,
                    at,
                    seq!["fork"@, name, "--from"@, to],
                ) && carried_out(at, end, seq!["default"@, name])
        }),
{
    reveal(fork_does);
    reveal(switch_does);
    reveal(subverb_does);
    let end = run_named_does(w, to, name).0;
    let at = fork_does(w, name, to).0;
    let n = w.calls.len() as int + 2;
    assert(sub::continues(w, at));
    assert(at.calls[n] is Run);
    assert(effects::succeeded(at, n));
    let m = at.calls.len() as int + 2;
    assert(sub::continues(at, end));
    assert(end.calls[m] is Run);
    assert(effects::succeeded(end, m));
}

} // verus!
