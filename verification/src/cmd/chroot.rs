//! `chroot`: a shell inside a boot environment, which is mounted writable for
//! it. All mounts are taken away again, however the shell ends.

use vstd::prelude::*;

use crate::cmd::drop;
use crate::effects;
use crate::error;
use crate::error::Error;
use crate::mounts;
use crate::mounts::Style;
use crate::paths;
use crate::sub;
use crate::sub::{Call, Runner, World};
use crate::text;
use crate::zfs_ops;

verus! {

/// Arguments of `chroot`.
#[derive(Debug)]
pub struct ChrootArgs {
    /// Name of the boot environment.
    pub name: String,
    /// The shell to run; `/bin/sh` where it is not there.
    pub shell: String,
}

// ---------------------------------------------------------------------------
// Which one
// ---------------------------------------------------------------------------

/// The dataset and the value of a row of `name`, `property`, `value`.
pub open spec fn row_value(line: Seq<char>) -> (Seq<char>, Seq<char>) {
    match text::cut(line, '\t') {
        Some((ds, rest)) => match text::cut(rest, '\t') {
            Some((_, v)) => (ds, text::trimmed(v)),
            None => (ds, text::trimmed(""@)),
        },
        None => (line, text::trimmed(""@)),
    }
}

fn parse_row<'a>(line: &'a str) -> (r: (&'a str, &'a str))
    ensures
        r.0@ == row_value(line@).0,
        r.1@ == row_value(line@).1,
{
    match text::split_once(line, '\t') {
        Some((ds, rest)) => match text::split_once(rest, '\t') {
            Some((_, v)) => (ds, text::trim(v)),
            None => (ds, text::trim("")),
        },
        None => (line, text::trim("")),
    }
}

/// The boot environments of a name.
pub open spec fn named(ls: Seq<Seq<char>>, name: Seq<char>) -> Seq<Seq<char>>
    decreases ls.len(),
{
    if ls.len() == 0 {
        seq![]
    } else {
        let front = named(ls.drop_last(), name);
        let (ds, v) = row_value(ls.last());
        if v == "true"@ && text::after_last(ds, '/') == name {
            front.push(ds)
        } else {
            front
        }
    }
}

fn find_named(listing: &str, name: &str) -> (r: Vec<String>)
    ensures
        r.deep_view() == named(text::lines_of(listing@), name@),
{
    let ls = text::lines(listing);
    let ghost all = ls.deep_view();
    let mut out: Vec<String> = Vec::new();
    let mut i: usize = 0;
    assert(out.deep_view() =~= named(all.take(0), name@));
    while i < ls.len()
        invariant
            i <= ls@.len(),
            all == ls.deep_view(),
            all == text::lines_of(listing@),
            out.deep_view() == named(all.take(i as int), name@),
        decreases ls@.len() - i,
    {
        proof {
            assert(all.take(i + 1).drop_last() =~= all.take(i as int));
            assert(all.take(i + 1).last() == ls@[i as int]@);
        }
        let (ds, v) = parse_row(ls[i]);
        if text::eq(v, "true") && text::eq(text::tail(ds, '/'), name) {
            text::push_text(&mut out, ds);
        }
        i = i + 1;
    }
    assert(all.take(i as int) =~= all);
    out
}

/// The one boot environment of a name.
pub open spec fn target_of(listing: Seq<char>, name: Seq<char>) -> Result<Seq<char>, Seq<char>> {
    let found = named(text::lines_of(listing), name);
    if found.len() == 0 {
        Err(
            "chroot: no BE named "@ + text::quoted_text(name)
                + " (looked for datasets with zboot:be=true)"@,
        )
    } else if found.len() == 1 {
        Ok(found[0])
    } else {
        Err(
            "chroot: BE name "@ + text::quoted_text(name) + " is ambiguous across "@
                + text::decimal(found.len())
                + " pools; pass the full dataset path instead. Matches: "@ + text::joined(
                found,
                ", "@,
            ),
        )
    }
}

/// The one boot environment of a name, by what `zfs get` printed.
pub fn pick_target(listing: &str, name: &str) -> (res: Result<String, Error>)
    ensures
        error::outcome(res) == target_of(listing@, name@),
{
    let found = find_named(listing, name);
    let q: String = text::quoted(name);
    if found.len() == 0 {
        return Err(
            Error::from_text(
                text::cat3(
                    "chroot: no BE named ",
                    q.as_str(),
                    " (looked for datasets with zboot:be=true)",
                ),
            ),
        );
    }
    if found.len() == 1 {
        assert(found.deep_view()[0] == found@[0]@);
        return Ok(found[0].clone());
    }
    let n: String = text::dec_len(found.len());
    let shown: String = text::join(&found, ", ");
    Err(
        Error::from_text(
            text::cat6(
                "chroot: BE name ",
                q.as_str(),
                " is ambiguous across ",
                n.as_str(),
                " pools; pass the full dataset path instead. Matches: ",
                shown.as_str(),
            ),
        ),
    )
}

/// Finds the one boot environment of a name.
#[verifier::opaque]
pub open spec fn locate_does(w: World, name: Seq<char>) -> (World, Result<Seq<char>, Seq<char>>) {
    let (w1, got) = sub::capture_does(
        w,
        "zfs"@,
        seq!["get"@, "-Hp"@, "-o"@, "name,property,value"@, "zboot:be"@, "-t"@, "filesystem"@],
    );
    match got {
        Err(m) => (w1, Err(error::within("`zfs get zboot:be` failed"@, m))),
        Ok(t) => (w1, target_of(t, name)),
    }
}

fn locate_be<R: Runner>(r: &mut R, name: &str) -> (res: Result<String, Error>)
    ensures
        sub::did(final(r).world(), res) == locate_does(old(r).world(), name@),
{
    proof {
        reveal(locate_does);
    }
    let args = text::argv7(
        "get",
        "-Hp",
        "-o",
        "name,property,value",
        "zboot:be",
        "-t",
        "filesystem",
    );
    match sub::zfs_capture(r, args.as_slice()) {
        Err(e) => Err(e.context("`zfs get zboot:be` failed")),
        Ok(t) => pick_target(t.as_str(), name),
    }
}

// ---------------------------------------------------------------------------
// The shell
// ---------------------------------------------------------------------------

/// The shell that is there: the one asked for, else `/bin/sh`. Where neither
/// is there, the one asked for, so that the failure names it.
pub open spec fn shell_does(w: World, root: Seq<char>, asked: Seq<char>) -> (World, Seq<char>) {
    let w1 = w.after(
        Call::Exists { path: paths::under(root, paths::rootless(asked)) },
    );
    if w.reply().yes {
        (w1, asked)
    } else {
        (
            w1.after(Call::Exists { path: paths::under(root, "bin/sh"@) }),
            if w1.reply().yes {
                "/bin/sh"@
            } else {
                asked
            },
        )
    }
}

/// The shell that is there.
pub fn pick_shell<R: Runner>(r: &mut R, be_root: &str, requested: &str) -> (res: String)
    ensures
        (final(r).world(), res@) == shell_does(old(r).world(), be_root@, requested@),
{
    let first: String = paths::join(be_root, paths::strip_root(requested));
    if r.present(first.as_str()) {
        return requested.to_owned();
    }
    let second: String = paths::join(be_root, "bin/sh");
    if r.present(second.as_str()) {
        return "/bin/sh".to_owned();
    }
    requested.to_owned()
}

/// Takes all mounts away: the `n` that were bound, then the boot environment
/// itself, and the directory it was mounted on.
pub open spec fn unwind_does(w: World, mp: Seq<char>, n: nat) -> World {
    let w1 = mounts::unbind_does(w, mp, n);
    w1.after(Call::Attend { prog: "umount"@, args: seq!["-l"@, mp] }).after(
        Call::RemoveDir { path: mp },
    )
}

fn unwind<R: Runner>(r: &mut R, mp: &str, n: usize)
    requires
        n <= 4,
    ensures
        final(r).world() == unwind_does(old(r).world(), mp@, n as nat),
{
    mounts::unbind(r, mp, n);
    let args = text::argv2("-l", mp);
    let _ = r.attend("umount", args.as_slice());
    let _ = r.remove_dir(mp);
}

/// Runs the shell in the root that has been prepared.
#[verifier::opaque]
pub open spec fn session_does(
    w: World,
    name: Seq<char>,
    ds: Seq<char>,
    mp: Seq<char>,
    asked: Seq<char>,
) -> (World, Result<i32, Seq<char>>) {
    let w1 = w.say(
        "→ chroot "@ + name + " ("@ + ds
            + "). Tip: `zboot snapshot --name pre-chroot` first if you want a clean revert."@,
    ).say("→ exit (Ctrl-D, `exit`) to return."@);
    let (w2, shell) = shell_does(w1, mp, asked);
    let w3 = w2.after(
        Call::Attend { prog: "setsid"@, args: seq!["-c"@, "chroot"@, mp, shell] },
    );
    match w2.code() {
        Err(m) => (
            w3,
            Err(error::within("spawn `setsid -c chroot "@ + mp + " "@ + shell + "`"@, m)),
        ),
        Ok(rc) => (w3.say("← exited chroot rc="@ + zfs_ops::rc_text(rc as int)), Ok(rc)),
    }
}

fn session<R: Runner>(r: &mut R, name: &str, ds: &str, mp: &str, asked: &str) -> (res: Result<
    i32,
    Error,
>)
    ensures
        sub::did(final(r).world(), res) == session_does(
            old(r).world(),
            name@,
            ds@,
            mp@,
            asked@,
        ),
{
    proof {
        reveal(session_does);
    }
    let line: String = text::cat5(
        "→ chroot ",
        name,
        " (",
        ds,
        "). Tip: `zboot snapshot --name pre-chroot` first if you want a clean revert.",
    );
    r.say(line.as_str());
    r.say("→ exit (Ctrl-D, `exit`) to return.");
    let shell: String = pick_shell(r, mp, asked);
    let args = text::argv4("-c", "chroot", mp, shell.as_str());
    match r.attend("setsid", args.as_slice()) {
        Err(e) => {
            let what: String = text::cat5("spawn `setsid -c chroot ", mp, " ", shell.as_str(), "`");
            Err(e.context(what.as_str()))
        },
        Ok(rc) => {
            let shown: String = zfs_ops::rc_shown(rc);
            let line: String = text::cat2("← exited chroot rc=", shown.as_str());
            r.say(line.as_str());
            Ok(rc)
        },
    }
}

/// Prepares the root, runs the shell in it, and takes all mounts away.
#[verifier::opaque]
pub open spec fn enter_does(
    w: World,
    name: Seq<char>,
    ds: Seq<char>,
    mp: Seq<char>,
    asked: Seq<char>,
) -> (World, Result<i32, Seq<char>>) {
    let (w1, n, bound) = mounts::bind_does(w, mp, Style::Plain, 0);
    match bound {
        Err(m) => (unwind_does(w1, mp, n), Err(m)),
        Ok(()) => {
            let (w2, res) = session_does(w1, name, ds, mp, asked);
            (unwind_does(w2, mp, n), res)
        },
    }
}

fn enter<R: Runner>(r: &mut R, name: &str, ds: &str, mp: &str, asked: &str) -> (res: Result<
    i32,
    Error,
>)
    ensures
        sub::did(final(r).world(), res) == enter_does(
            old(r).world(),
            name@,
            ds@,
            mp@,
            asked@,
        ),
{
    proof {
        reveal(enter_does);
    }
    let mut n: usize = 0;
    match mounts::bind(r, mp, Style::Plain, 0, &mut n) {
        Err(e) => {
            unwind(r, mp, n);
            Err(e)
        },
        Ok(()) => {
            let res = session(r, name, ds, mp, asked);
            unwind(r, mp, n);
            res
        },
    }
}

/// Mounts a boot environment and runs a shell in it.
#[verifier::opaque]
pub open spec fn visit_does(w: World, name: Seq<char>, ds: Seq<char>, asked: Seq<char>) -> (
    World,
    Result<i32, Seq<char>>,
) {
    let mp = "/tmp/zboot-chroot-"@ + name;
    let w1 = w.after(Call::MakeDirs { path: mp });
    match w.unit() {
        Err(m) => (w1, Err(error::within("mkdir "@ + mp, m))),
        Ok(()) => {
            let (w2, mounted) = sub::run_does(
                w1,
                "mount"@,
                seq!["-t"@, "zfs"@, "-o"@, "zfsutil,rw"@, ds, mp],
            );
            match mounted {
                Err(m) => (w2, Err(error::within("mount "@ + ds + " → "@ + mp, m))),
                Ok(()) => enter_does(w2, name, ds, mp, asked),
            }
        },
    }
}

fn visit<R: Runner>(r: &mut R, name: &str, ds: &str, asked: &str) -> (res: Result<i32, Error>)
    ensures
        sub::did(final(r).world(), res) == visit_does(old(r).world(), name@, ds@, asked@),
{
    proof {
        reveal(visit_does);
    }
    let mp: String = text::cat2("/tmp/zboot-chroot-", name);
    match r.make_dirs(mp.as_str()) {
        Err(e) => {
            let what: String = text::cat2("mkdir ", mp.as_str());
            return Err(e.context(what.as_str()));
        },
        Ok(()) => {},
    }
    let args = text::argv6("-t", "zfs", "-o", "zfsutil,rw", ds, mp.as_str());
    match sub::cmd(r, "mount", args.as_slice()) {
        Err(e) => {
            let what: String = text::cat4("mount ", ds, " → ", mp.as_str());
            Err(e.context(what.as_str()))
        },
        Ok(()) => enter(r, name, ds, mp.as_str(), asked),
    }
}

/// What `chroot` does.
pub open spec fn run_does(w: World, name: Seq<char>, asked: Seq<char>) -> (World, Result<
    i32,
    Seq<char>,
>) {
    let (w1, found) = locate_does(w, name);
    match found {
        Err(m) => (w1, Err(m)),
        Ok(ds) => {
            let (w2, live) = drop::is_live_root_does(w1, ds);
            if live {
                (
                    w2,
                    Err(
                        "chroot: refusing — `"@ + name
                            + "` is the live `/` (chroot'ing into your own root is pointless). Use a different BE."@,
                    ),
                )
            } else {
                visit_does(w2, text::after_last(ds, '/'), ds, asked)
            }
        },
    }
}

/// `chroot`: a shell inside a boot environment. Its exit code is handed on; -1
/// stands for a shell that a signal ended.
pub fn run<R: Runner>(r: &mut R, args: &ChrootArgs) -> (res: Result<i32, Error>)
    ensures
        sub::did(final(r).world(), res) == run_does(old(r).world(), args.name@, args.shell@),
{
    let ds: String = match locate_be(r, args.name.as_str()) {
        Err(e) => return Err(e),
        Ok(d) => d,
    };
    if drop::is_live_root(r, ds.as_str()) {
        return Err(
            Error::from_text(
                text::cat3(
                    "chroot: refusing — `",
                    args.name.as_str(),
                    "` is the live `/` (chroot'ing into your own root is pointless). Use a different BE.",
                ),
            ),
        );
    }
    visit(r, text::tail(ds.as_str(), '/'), ds.as_str(), args.shell.as_str())
}

// ---------------------------------------------------------------------------
// Laws
// ---------------------------------------------------------------------------

/// Once the boot environment is mounted, it is taken away again, however the
/// rest goes: the last two things that happen are its unmounting and the
/// removal of the mount point.
pub proof fn law_mounts_are_taken_away(
    w: World,
    name: Seq<char>,
    ds: Seq<char>,
    mp: Seq<char>,
    asked: Seq<char>,
)
    ensures
        ({
            let end = enter_does(w, name, ds, mp, asked).0;
            let n = end.calls.len();
            &&& n >= 2
            &&& end.calls[n - 2] == (Call::Attend { prog: "umount"@, args: seq!["-l"@, mp] })
            &&& end.calls[n - 1] == (Call::RemoveDir { path: mp })
        }),
{
    reveal(enter_does);
}

/// The running root is refused, and nothing is mounted.
pub proof fn law_live_root_is_refused(w: World, name: Seq<char>, asked: Seq<char>, ds: Seq<char>)
    requires
        locate_does(w, name).1 == Ok::<Seq<char>, Seq<char>>(ds),
        drop::is_live_root_does(locate_does(w, name).0, ds).1,
    ensures
        run_does(w, name, asked).1 is Err,
        sub::only_looked(w, run_does(w, name, asked).0),
{
    reveal(locate_does);
    reveal(drop::is_live_root_does);
}

/// Every environment of the name is found.
pub proof fn law_every_namesake_is_found(ls: Seq<Seq<char>>, name: Seq<char>)
    ensures
        forall|x: Seq<char>| #[trigger] named(ls, name).contains(x) <==> exists|i: int| 0 <= i < ls.len() && row_value((#[trigger] ls[i])) == (x, "true"@) && text::after_last(x, '/') == name,
    decreases ls.len(),
{
    if ls.len() > 0 {
        let front = ls.drop_last();
        law_every_namesake_is_found(front, name);
        let before = named(front, name);
        let all = named(ls, name);
        assert forall|x: Seq<char>| #[trigger] all.contains(x) <==> exists|i: int| 0 <= i < ls.len() && row_value((#[trigger] ls[i])) == (x, "true"@) && text::after_last(x, '/') == name by {
            if all.contains(x) {
                let k = choose|k: int| 0 <= k < all.len() && all[k] == x;
                if k < before.len() {
                    assert(before[k] == x);
                    assert(before.contains(x));
                    let i = choose|i: int| 0 <= i < front.len() && row_value((#[trigger] front[i])) == (x, "true"@) && text::after_last(x, '/') == name;
                    assert(ls[i] == front[i]);
                } else {
                    assert(row_value(ls[ls.len() - 1]) == (x, "true"@) && text::after_last(x, '/') == name);
                }
            }
            if exists|i: int| 0 <= i < ls.len() && row_value((#[trigger] ls[i])) == (x, "true"@) && text::after_last(x, '/') == name {
                let i = choose|i: int| 0 <= i < ls.len() && row_value((#[trigger] ls[i])) == (x, "true"@) && text::after_last(x, '/') == name;
                if i < front.len() {
                    assert(front[i] == ls[i]);
                    assert(before.contains(x));
                    let k = choose|k: int| 0 <= k < before.len() && before[k] == x;
                    assert(all[k] == x);
                } else {
                    assert(ls[i] == ls.last());
                    assert(all[all.len() - 1] == x);
                }
            }
        }
    }
}

/// The call that enters a root.
pub open spec fn entering(mp: Seq<char>, shell: Seq<char>) -> Call {
    Call::Attend { prog: "setsid"@, args: seq!["-c"@, "chroot"@, mp, shell] }
}

/// A visit that succeeds has mounted the environment, with all that the host
/// shows, and has entered it; what it gives is what the shell left with.
pub proof fn law_visit_enters_the_environment(
    w: World,
    name: Seq<char>,
    ds: Seq<char>,
    asked: Seq<char>,
)
    requires
        visit_does(w, name, ds, asked).1 is Ok,
    ensures
        ({
            let (end, res) = visit_does(w, name, ds, asked);
            let mp = "/tmp/zboot-chroot-"@ + name;
            &&& effects::came_off(
                w,
                end,
                Call::Run {
                    prog: "mount"@,
                    args: seq!["-t"@, "zfs"@, "-o"@, "zfsutil,rw"@, ds, mp],
                },
            )
            &&& forall|k: int|
                0 <= k < 4 ==> effects::came_off(
                    w,
                    end,
                    mounts::binding(
                        Style::Plain,
                        #[trigger] mounts::binds()[k],
                        mp + mounts::binds()[k],
                    ),
                )
            &&& exists|n: int, shell: Seq<char>|
                w.calls.len() <= n < end.calls.len() && #[trigger] entered(
                    end,
                    n,
                    mp,
                    shell,
                ) && (end.replies)(n as nat).failure is None && res->Ok_0 == (end.replies)(
                    n as nat,
                ).rc as i32
        }),
{
    reveal(visit_does);
    reveal(enter_does);
    reveal(session_does);
    let (end, res) = visit_does(w, name, ds, asked);
    let mp = "/tmp/zboot-chroot-"@ + name;
    let w1 = w.after(Call::MakeDirs { path: mp });
    let args = seq!["-t"@, "zfs"@, "-o"@, "zfsutil,rw"@, ds, mp];
    effects::lemma_run_came_off(w1, "mount"@, args);
    let w2 = sub::run_does(w1, "mount"@, args).0;
    mounts::law_all_are_bound(w2, mp, Style::Plain, 0);
    let (w3, m, bound) = mounts::bind_does(w2, mp, Style::Plain, 0);
    let w4 = session_does(w3, name, ds, mp, asked).0;
    assert(sub::continues(w3, w4));
    mounts::law_unbind_undoes_bind(w4, mp, m);
    let w5 = mounts::unbind_does(w4, mp, m);
    assert(sub::continues(w5, end));
    effects::lemma_continues(w4, w5, end);
    effects::lemma_continues(w3, w4, end);
    effects::lemma_continues(w2, w3, end);
    assert(sub::continues(w, w1));
    effects::lemma_continues(w, w1, w2);
    effects::lemma_came_within(w, w1, w2, end, Call::Run { prog: "mount"@, args });
    assert forall|k: int| 0 <= k < 4 implies effects::came_off(
        w,
        end,
        mounts::binding(Style::Plain, #[trigger] mounts::binds()[k], mp + mounts::binds()[k]),
    ) by {
        effects::lemma_came_within(
            w,
            w2,
            w3,
            end,
            mounts::binding(Style::Plain, mounts::binds()[k], mp + mounts::binds()[k]),
        );
    }
    let n = w4.calls.len() - 2;
    let shell = w4.calls[n]->Attend_args[3];
    assert(w4.calls[n] == entering(mp, shell));
    assert(end.calls[n] == w4.calls[n]);
    assert(entered(end, n, mp, shell));
    effects::lemma_continues(w, w2, w3);
}

/// The n-th call enters a root.
pub open spec fn entered(w: World, n: int, mp: Seq<char>, shell: Seq<char>) -> bool {
    w.calls[n] == entering(mp, shell)
}

} // verus!
