//! The system's own file systems, bound into another root for a while.

use vstd::prelude::*;

use crate::cmd::deploy;
use crate::effects;
use crate::error;
use crate::error::Error;
use crate::sub;
use crate::sub::{Call, Runner, World};
use crate::text;

verus! {

/// What is bound, in this order.
pub open spec fn binds() -> Seq<Seq<char>> {
    seq!["/dev"@, "/dev/pts"@, "/proc"@, "/sys"@]
}

/// The one of a number.
pub fn bind_source(i: usize) -> (r: &'static str)
    requires
        i < 4,
    ensures
        r@ == binds()[i as int],
{
    if i == 0 {
        "/dev"
    } else if i == 1 {
        "/dev/pts"
    } else if i == 2 {
        "/proc"
    } else {
        "/sys"
    }
}

/// How much the operator sees of it.
#[derive(Debug, Clone, Copy, PartialEq, Eq, Structural)]
pub enum Style {
    /// What every command shows.
    Plain,
    /// A line for each one before.
    Told,
    /// The command, and what it prints.
    Traced,
}

/// Binds one directory to another.
pub open spec fn bind_one_does(w: World, style: Style, src: Seq<char>, dst: Seq<char>) -> (
    World,
    Result<(), Seq<char>>,
) {
    let args = seq!["--bind"@, src, dst];
    match style {
        Style::Plain => sub::run_does(w, "mount"@, args),
        Style::Told => sub::run_does(
            w.say("    + mount --bind "@ + src + " "@ + dst),
            "mount"@,
            args,
        ),
        Style::Traced => deploy::spawn_does(w, "mount"@, args),
    }
}

fn bind_one<R: Runner>(r: &mut R, style: Style, src: &str, dst: &str) -> (res: Result<(), Error>)
    ensures
        sub::did(final(r).world(), res) == bind_one_does(old(r).world(), style, src@, dst@),
{
    let args = text::argv3("--bind", src, dst);
    match style {
        Style::Plain => sub::cmd(r, "mount", args.as_slice()),
        Style::Told => {
            let line: String = text::cat4("    + mount --bind ", src, " ", dst);
            r.say(line.as_str());
            sub::cmd(r, "mount", args.as_slice())
        },
        Style::Traced => deploy::spawn(r, "mount", args.as_slice()),
    }
}

/// Binds the rest, from the one of number `i` on. The number that comes back
/// is that of those bound in the end.
pub open spec fn bind_does(w: World, root: Seq<char>, style: Style, i: nat) -> (World, nat, Result<
    (),
    Seq<char>,
>)
    decreases 4 - i,
{
    if i >= 4 {
        (w, i, Ok(()))
    } else {
        let src = binds()[i as int];
        let dst = root + src;
        let w1 = w.after(Call::MakeDirs { path: dst });
        match w.unit() {
            Err(m) => (w1, i, Err(error::within("mkdir "@ + dst, m))),
            Ok(()) => {
                let (w3, res) = bind_one_does(w1, style, src, dst);
                match res {
                    Err(m) => (w3, i, Err(error::within("bind "@ + src + " → "@ + dst, m))),
                    Ok(()) => bind_does(w3, root, style, i + 1),
                }
            },
        }
    }
}

/// Binds the rest, from the one of number `i` on. `bound` becomes the number
/// of those bound in the end.
pub fn bind<R: Runner>(r: &mut R, root: &str, style: Style, i: usize, bound: &mut usize) -> (res:
    Result<(), Error>)
    requires
        i <= 4,
    ensures
        (final(r).world(), *final(bound) as nat, error::outcome(res)) == bind_does(
            old(r).world(),
            root@,
            style,
            i as nat,
        ),
        *final(bound) <= 4,
    decreases 4 - i,
{
    *bound = i;
    if i >= 4 {
        return Ok(());
    }
    let src: &str = bind_source(i);
    let dst: String = text::cat2(root, src);
    match r.make_dirs(dst.as_str()) {
        Err(e) => {
            let what: String = text::cat2("mkdir ", dst.as_str());
            return Err(e.context(what.as_str()));
        },
        Ok(()) => {},
    }
    match bind_one(r, style, src, dst.as_str()) {
        Err(e) => {
            let what: String = text::cat4("bind ", src, " → ", dst.as_str());
            Err(e.context(what.as_str()))
        },
        Ok(()) => bind(r, root, style, i + 1, bound),
    }
}

/// Takes the first `n` away again, the last of them first. Whether that
/// succeeds is not asked.
pub open spec fn unbind_does(w: World, root: Seq<char>, n: nat) -> World
    decreases n,
{
    if n == 0 {
        w
    } else {
        let dst = root + binds()[n - 1];
        unbind_does(
            w.after(Call::Attend { prog: "umount"@, args: seq!["-l"@, dst] }),
            root,
            (n - 1) as nat,
        )
    }
}

/// Takes the first `n` away again, the last of them first.
pub fn unbind<R: Runner>(r: &mut R, root: &str, n: usize)
    requires
        n <= 4,
    ensures
        final(r).world() == unbind_does(old(r).world(), root@, n as nat),
    decreases n,
{
    if n == 0 {
        return;
    }
    let dst: String = text::cat2(root, bind_source(n - 1));
    let args = text::argv2("-l", dst.as_str());
    let _ = r.attend("umount", args.as_slice());
    unbind(r, root, n - 1);
}

/// As many are taken away as were bound, each once.
pub proof fn law_unbind_undoes_bind(w: World, root: Seq<char>, n: nat)
    requires
        n <= 4,
    ensures
        unbind_does(w, root, n).calls.len() == w.calls.len() + n,
        forall|k: int|
            0 <= k < n ==> #[trigger] unbind_does(w, root, n).calls[w.calls.len() + k] == (
            Call::Attend { prog: "umount"@, args: seq!["-l"@, root + binds()[n - 1 - k]] }),
        sub::continues(w, unbind_does(w, root, n)),
    decreases n,
{
    if n > 0 {
        let dst = root + binds()[n - 1];
        let w1 = w.after(Call::Attend { prog: "umount"@, args: seq!["-l"@, dst] });
        law_unbind_undoes_bind(w1, root, (n - 1) as nat);
        let end = unbind_does(w, root, n);
        assert forall|k: int| 0 <= k < n implies #[trigger] end.calls[w.calls.len() + k] == (
        Call::Attend { prog: "umount"@, args: seq!["-l"@, root + binds()[n - 1 - k]] }) by {
            if k == 0 {
                assert(w1.calls[w.calls.len() as int] == end.calls[w.calls.len() as int]);
            } else {
                assert(end.calls[w1.calls.len() + (k - 1)] == end.calls[w.calls.len() + k]);
            }
        }
    }
}

/// The call that shows a directory of the host below another root.
pub open spec fn binding(style: Style, src: Seq<char>, dst: Seq<char>) -> Call {
    let args = seq!["--bind"@, src, dst];
    match style {
        Style::Traced => Call::Attend { prog: "mount"@, args },
        _ => Call::Run { prog: "mount"@, args },
    }
}

proof fn lemma_bind_one(w: World, style: Style, src: Seq<char>, dst: Seq<char>)
    ensures
        ({
            let (end, res) = bind_one_does(w, style, src, dst);
            &&& sub::continues(w, end)
            &&& res is Ok ==> effects::came_off(w, end, binding(style, src, dst))
        }),
{
    let (end, res) = bind_one_does(w, style, src, dst);
    let args = seq!["--bind"@, src, dst];
    match style {
        Style::Plain => {
            effects::lemma_run_came_off(w, "mount"@, args);
        },
        Style::Told => {
            let w1 = w.say("    + mount --bind "@ + src + " "@ + dst);
            effects::lemma_run_came_off(w1, "mount"@, args);
            effects::lemma_continues(w, w1, end);
            assert(sub::continues(end, end));
            if res is Ok {
                effects::lemma_came_within(w, w1, end, end, binding(style, src, dst));
            }
        },
        Style::Traced => {
            deploy::lemma_spawned(w, "mount"@, args);
        },
    }
}

/// Where binding succeeds, every one of the host's directories is there.
pub proof fn law_all_are_bound(w: World, root: Seq<char>, style: Style, i: nat)
    ensures
        ({
            let (end, n, res) = bind_does(w, root, style, i);
            &&& sub::continues(w, end)
            &&& n <= 4 || n == i
            &&& res is Ok ==> forall|k: int|
                i <= k < 4 ==> effects::came_off(
                    w,
                    end,
                    binding(style, #[trigger] binds()[k], root + binds()[k]),
                )
        }),
    decreases 4 - i,
{
    let (end, n, res) = bind_does(w, root, style, i);
    assert(sub::continues(w, w));
    if i < 4 {
        let src = binds()[i as int];
        let dst = root + src;
        let w1 = w.after(Call::MakeDirs { path: dst });
        assert(sub::continues(w, w1));
        if w.unit() is Ok {
            lemma_bind_one(w1, style, src, dst);
            let (w3, one) = bind_one_does(w1, style, src, dst);
            effects::lemma_continues(w, w1, w3);
            if one is Ok {
                law_all_are_bound(w3, root, style, i + 1);
                effects::lemma_continues(w, w3, end);
                assert(sub::continues(end, end));
                if res is Ok {
                    assert forall|k: int| i <= k < 4 implies effects::came_off(
                        w,
                        end,
                        binding(style, #[trigger] binds()[k], root + binds()[k]),
                    ) by {
                        let c = binding(style, binds()[k], root + binds()[k]);
                        if k == i {
                            effects::lemma_came_within(w, w1, w3, end, c);
                        } else {
                            effects::lemma_came_within(w, w3, end, end, c);
                        }
                    }
                }
            }
        }
    }
}

} // verus!
