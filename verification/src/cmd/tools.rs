//! What the verbs that build images share: which programs are there, and the
//! script that does the work.

use vstd::prelude::*;

use crate::cmd::efi;
use crate::effects;
use crate::error;
use crate::error::Error;
use crate::paths;
use crate::sub;
use crate::sub::{Call, Runner, World};
use crate::text;
use crate::zfs_ops;

verus! {

// ---------------------------------------------------------------------------
// Programs
// ---------------------------------------------------------------------------

/// Looks for a program in some directories, in their order, up to the first
/// that has it.
pub open spec fn search_does(w: World, dirs: Seq<Seq<char>>, name: Seq<char>) -> (World, bool)
    decreases dirs.len(),
{
    if dirs.len() == 0 {
        (w, false)
    } else {
        let w1 = w.after(Call::IsFile { path: paths::under(dirs[0], name) });
        if w.reply().yes {
            (w1, true)
        } else {
            search_does(w1, dirs.drop_first(), name)
        }
    }
}

fn search<R: Runner>(r: &mut R, dirs: &Vec<&str>, i: usize, name: &str) -> (res: bool)
    requires
        i <= dirs@.len(),
    ensures
        (final(r).world(), res) == search_does(
            old(r).world(),
            dirs.deep_view().skip(i as int),
            name@,
        ),
    decreases dirs@.len() - i,
{
    let ghost left = dirs.deep_view().skip(i as int);
    if i >= dirs.len() {
        return false;
    }
    proof {
        assert(left[0] == dirs@[i as int]@);
        assert(left.drop_first() =~= dirs.deep_view().skip(i + 1));
    }
    let path: String = paths::join(dirs[i], name);
    if r.is_file(path.as_str()) {
        return true;
    }
    search(r, dirs, i + 1, name)
}

/// Where programs are looked for behind the search path.
pub open spec fn usual_dirs() -> Seq<Seq<char>> {
    seq!["/usr/sbin"@, "/sbin"@, "/usr/bin"@, "/bin"@]
}

/// Looks for a program: along the search path, then in the usual places.
#[verifier::opaque]
pub open spec fn is_executable_does(w: World, name: Seq<char>) -> (World, bool) {
    let w1 = w.after(Call::Env { name: "PATH"@ });
    let (w2, found) = match w.mended() {
        Some(p) => search_does(w1, text::pieces(p, ':'), name),
        None => (w1, false),
    };
    if found {
        (w2, true)
    } else {
        search_does(w2, usual_dirs(), name)
    }
}

/// Looks for a program: along the search path, then in the usual places.
pub fn is_executable<R: Runner>(r: &mut R, name: &str) -> (res: bool)
    ensures
        (final(r).world(), res) == is_executable_does(old(r).world(), name@),
{
    proof {
        reveal(is_executable_does);
    }
    match r.env_mended("PATH") {
        Some(p) => {
            let dirs = text::split(p.as_str(), ':');
            assert(dirs.deep_view().skip(0) =~= dirs.deep_view());
            if search(r, &dirs, 0, name) {
                return true;
            }
        },
        None => {},
    }
    let dirs = text::argv4("/usr/sbin", "/sbin", "/usr/bin", "/bin");
    assert(dirs.deep_view().skip(0) =~= dirs.deep_view());
    search(r, &dirs, 0, name)
}

/// Looks for some programs, and gathers the hints for those that are not
/// there.
pub open spec fn missing_does(w: World, wanted: Seq<(Seq<char>, Seq<char>)>) -> (World, Seq<
    Seq<char>,
>)
    decreases wanted.len(),
{
    if wanted.len() == 0 {
        (w, seq![])
    } else {
        let (w1, missing) = missing_does(w, wanted.drop_last());
        let (w2, there) = is_executable_does(w1, wanted.last().0);
        (
            w2,
            if there {
                missing
            } else {
                missing.push(wanted.last().1)
            },
        )
    }
}

/// Looks for some programs, each with a hint, and gathers the hints for those
/// that are not there.
pub fn find_missing<R: Runner>(r: &mut R, wanted: &Vec<(&str, &str)>) -> (res: Vec<String>)
    ensures
        (final(r).world(), res.deep_view()) == missing_does(old(r).world(), wanted.deep_view()),
{
    let ghost w = r.world();
    let ghost all = wanted.deep_view();
    let mut missing: Vec<String> = Vec::new();
    let mut i: usize = 0;
    assert(missing.deep_view() =~= missing_does(w, all.take(0)).1);
    while i < wanted.len()
        invariant
            i <= wanted@.len(),
            all == wanted.deep_view(),
            (r.world(), missing.deep_view()) == missing_does(w, all.take(i as int)),
        decreases wanted@.len() - i,
    {
        proof {
            assert(all.take(i + 1).drop_last() =~= all.take(i as int));
            assert(all.take(i + 1).last() == wanted@[i as int].deep_view());
        }
        let (name, hint) = wanted[i];
        if !is_executable(r, name) {
            text::push_text(&mut missing, hint);
        }
        i = i + 1;
    }
    assert(all.take(i as int) =~= all);
    missing
}

/// The effective user among the fields of the first line that lists the users
/// of the process.
pub open spec fn effective_user(ls: Seq<Seq<char>>) -> Option<Seq<char>>
    decreases ls.len(),
{
    if ls.len() == 0 {
        None
    } else if text::begins(ls[0], "Uid:"@) {
        let fields = text::words_of(ls[0].skip("Uid:"@.len() as int));
        if fields.len() > 1 {
            Some(fields[1])
        } else {
            None
        }
    } else {
        effective_user(ls.drop_first())
    }
}

/// The status of a process says that it runs as root.
pub open spec fn runs_as_root(status: Seq<char>) -> bool {
    effective_user(text::lines_of(status)) == Some("0"@)
}

/// The status of a process says that it runs as root.
pub fn status_is_root(status: &str) -> (r: bool)
    ensures
        r == runs_as_root(status@),
{
    let ls = text::lines(status);
    let ghost all = ls.deep_view();
    let mut i: usize = 0;
    assert(all.skip(0) =~= all);
    while i < ls.len()
        invariant
            i <= ls@.len(),
            all == ls.deep_view(),
            all == text::lines_of(status@),
            effective_user(all) == effective_user(all.skip(i as int)),
        decreases ls@.len() - i,
    {
        proof {
            assert(all.skip(i as int)[0] == ls@[i as int]@);
            assert(all.skip(i as int).drop_first() =~= all.skip(i + 1));
        }
        match text::strip_prefix(ls[i], "Uid:") {
            Some(rest) => {
                let fields = text::words(rest);
                if fields.len() > 1 {
                    assert(fields.deep_view()[1] == fields@[1]@);
                    return text::eq(fields[1], "0");
                }
                return false;
            },
            None => {},
        }
        i = i + 1;
    }
    false
}

/// Asks whether this process runs as root. Where that cannot be read, it does
/// not.
pub open spec fn is_root_does(w: World) -> (World, bool) {
    (
        w.after(Call::ReadFile { path: "/proc/self/status"@ }),
        match w.line() {
            Ok(t) => runs_as_root(t),
            Err(_) => false,
        },
    )
}

/// Asks whether this process runs as root.
pub fn is_root<R: Runner>(r: &mut R) -> (res: bool)
    ensures
        (final(r).world(), res) == is_root_does(old(r).world()),
{
    match r.read_file("/proc/self/status") {
        Ok(t) => status_is_root(t.as_str()),
        Err(_) => false,
    }
}

// ---------------------------------------------------------------------------
// Where the image goes
// ---------------------------------------------------------------------------

/// The path that was asked for, or one in the operator's cache.
pub open spec fn output_does(w: World, output: Option<Seq<char>>, usual: Seq<char>) -> (
    World,
    Result<Seq<char>, Seq<char>>,
) {
    match output {
        Some(p) => (w, Ok(p)),
        None => (
            w.after(Call::Env { name: "HOME"@ }),
            match w.maybe() {
                Some(home) => Ok(paths::under(home, usual)),
                None => Err("HOME env var not set"@),
            },
        ),
    }
}

/// The path that was asked for, or one in the operator's cache.
pub fn output_path<R: Runner>(r: &mut R, output: &Option<String>, usual: &str) -> (res: Result<
    String,
    Error,
>)
    ensures
        sub::did(final(r).world(), res) == output_does(
            old(r).world(),
            output.deep_view(),
            usual@,
        ),
{
    match output {
        Some(p) => Ok(p.clone()),
        None => match r.env("HOME") {
            Some(home) => Ok(paths::join(home.as_str(), usual)),
            None => Err(Error::new("HOME env var not set")),
        },
    }
}

// ---------------------------------------------------------------------------
// The script
// ---------------------------------------------------------------------------

/// Writes a script to a temporary file that can be run.
#[verifier::opaque]
pub open spec fn stage_does(w: World, content: Seq<char>, prefix: Seq<char>) -> (World, Result<
    Seq<char>,
    Seq<char>,
>) {
    let (w1, dir) = efi::temp_dir_does(w);
    let path = paths::under(
        dir,
        prefix + "-"@ + text::decimal(w1.reply().pid as nat) + ".sh"@,
    );
    let w2 = w1.after(Call::Pid);
    sub::chain(
        sub::explained(
            (
                w2.after(
                    Call::WriteFile { path, bytes: vstd::utf8::encode_utf8(content) },
                ),
                w2.unit(),
            ),
            "write embedded script to "@ + path,
        ),
        |w3: World|
            sub::chain(
                (w3.after(Call::MakeExecutable { path }), w3.unit()),
                |w4: World| (w4, Ok(path)),
            ),
    )
}

/// Writes a script to a temporary file that can be run, and tells its path.
pub fn stage_script<R: Runner>(r: &mut R, content: &str, prefix: &str) -> (res: Result<
    String,
    Error,
>)
    ensures
        sub::did(final(r).world(), res) == stage_does(old(r).world(), content@, prefix@),
{
    proof {
        reveal(stage_does);
    }
    let dir: String = efi::temp_dir(r);
    let pid: String = text::dec(r.pid() as u128);
    let name: String = text::cat4(prefix, "-", pid.as_str(), ".sh");
    let path: String = paths::join(dir.as_str(), name.as_str());
    match r.write_file(path.as_str(), content.as_bytes()) {
        Err(e) => {
            let what: String = text::cat2("write embedded script to ", path.as_str());
            return Err(e.context(what.as_str()));
        },
        Ok(()) => {},
    }
    match r.make_executable(path.as_str()) {
        Err(e) => Err(e),
        Ok(()) => Ok(path),
    }
}

/// Runs a script with variables in its environment, and removes it, unless it
/// could not be started.
#[verifier::opaque]
pub open spec fn run_staged_does(
    w: World,
    content: Seq<char>,
    prefix: Seq<char>,
    env: Seq<(Seq<char>, Seq<char>)>,
    spawning: Seq<char>,
    failed: Seq<char>,
) -> (World, Result<(), Seq<char>>) {
    let (w1, staged) = stage_does(w, content, prefix);
    match staged {
        Err(m) => (w1, Err(m)),
        Ok(path) => {
            let w2 = w1.after(Call::RunWith { prog: "bash"@, args: seq![path], env });
            match w1.code() {
                Err(m) => (w2, Err(error::within(spawning, m))),
                Ok(rc) => (
                    w2.after(Call::RemoveFile { path }),
                    if rc == 0 {
                        Ok(())
                    } else {
                        Err(failed + " (rc="@ + zfs_ops::rc_text(rc as int) + ")"@)
                    },
                ),
            }
        },
    }
}

/// Runs a script with variables in its environment.
pub fn run_staged<R: Runner>(
    r: &mut R,
    content: &str,
    prefix: &str,
    env: Vec<(String, String)>,
    spawning: &str,
    failed: &str,
) -> (res: Result<(), Error>)
    ensures
        sub::did(final(r).world(), res) == run_staged_does(
            old(r).world(),
            content@,
            prefix@,
            env.deep_view(),
            spawning@,
            failed@,
        ),
{
    proof {
        reveal(run_staged_does);
    }
    let path: String = match stage_script(r, content, prefix) {
        Err(e) => return Err(e),
        Ok(p) => p,
    };
    let args = text::argv1(path.as_str());
    match r.run_with("bash", args.as_slice(), env) {
        Err(e) => Err(e.context(spawning)),
        Ok(rc) => {
            let _ = r.remove_file(path.as_str());
            if rc == 0 {
                return Ok(());
            }
            let shown: String = zfs_ops::rc_shown(rc);
            Err(Error::from_text(text::cat4(failed, " (rc=", shown.as_str(), ")")))
        },
    }
}

/// A variable of a script's environment.
pub fn push_var(env: &mut Vec<(String, String)>, name: &str, value: &str)
    ensures
        final(env).deep_view() == old(env).deep_view().push((name@, value@)),
{
    let ghost before = env.deep_view();
    let var = (name.to_owned(), value.to_owned());
    assert(var.deep_view() == (name@, value@));
    env.push(var);
    assert(env.deep_view() =~= before.push((name@, value@)));
}

// ---------------------------------------------------------------------------
// Laws
// ---------------------------------------------------------------------------

/// Looking for a program changes nothing.
pub proof fn law_searching_looks(w: World, name: Seq<char>)
    ensures
        sub::only_looked(w, is_executable_does(w, name).0),
{
    reveal(is_executable_does);
    let w1 = w.after(Call::Env { name: "PATH"@ });
    match w.mended() {
        Some(p) => {
            lemma_search_looks(w1, text::pieces(p, ':'), name);
            let w2 = search_does(w1, text::pieces(p, ':'), name).0;
            lemma_search_looks(w2, usual_dirs(), name);
        },
        None => {
            lemma_search_looks(w1, usual_dirs(), name);
        },
    }
}

proof fn lemma_search_looks(w: World, dirs: Seq<Seq<char>>, name: Seq<char>)
    ensures
        sub::only_looked(w, search_does(w, dirs, name).0),
    decreases dirs.len(),
{
    if dirs.len() > 0 {
        lemma_search_looks(
            w.after(Call::IsFile { path: paths::under(dirs[0], name) }),
            dirs.drop_first(),
            name,
        );
    }
}

/// Looking for all the programs changes nothing.
pub proof fn law_missing_looks(w: World, wanted: Seq<(Seq<char>, Seq<char>)>)
    ensures
        sub::only_looked(w, missing_does(w, wanted).0),
    decreases wanted.len(),
{
    if wanted.len() > 0 {
        law_missing_looks(w, wanted.drop_last());
        law_searching_looks(missing_does(w, wanted.drop_last()).0, wanted.last().0);
    }
}

/// A script that was run does not stay.
pub proof fn law_script_is_removed(
    w: World,
    content: Seq<char>,
    prefix: Seq<char>,
    env: Seq<(Seq<char>, Seq<char>)>,
    spawning: Seq<char>,
    failed: Seq<char>,
)
    requires
        stage_does(w, content, prefix).1 is Ok,
        stage_does(w, content, prefix).0.code() is Ok,
    ensures
        run_staged_does(w, content, prefix, env, spawning, failed).0.calls.last() == (
        Call::RemoveFile { path: stage_does(w, content, prefix).1->Ok_0 }),
{
    reveal(run_staged_does);
}

/// A program that is missing is told of: one is looked for in every directory,
/// and is missing only where none of them has it.
pub proof fn law_program_is_looked_for_everywhere(
    w: World,
    dirs: Seq<Seq<char>>,
    name: Seq<char>,
)
    ensures
        ({
            let (end, found) = search_does(w, dirs, name);
            &&& sub::continues(w, end)
            &&& !found ==> forall|k: int|
                0 <= k < dirs.len() ==> lacked(
                    w,
                    end,
                    paths::under(#[trigger] dirs[k], name),
                )
            &&& found ==> exists|n: int, k: int|
                w.calls.len() <= n < end.calls.len() && 0 <= k < dirs.len()
                    && #[trigger] end.calls[n] == (Call::IsFile {
                    path: paths::under(#[trigger] dirs[k], name),
                }) && (end.replies)(n as nat).yes
        }),
    decreases dirs.len(),
{
    assert(sub::continues(w, w));
    if dirs.len() > 0 {
        let (end, found) = search_does(w, dirs, name);
        let path = paths::under(dirs[0], name);
        let w1 = w.after(Call::IsFile { path });
        let n0 = w.calls.len() as int;
        assert(sub::continues(w, w1));
        assert(w1.calls[n0] == Call::IsFile { path });
        if w.reply().yes {
            assert(end.calls[n0] == Call::IsFile { path: paths::under(dirs[0], name) });
        } else {
            let rest = dirs.drop_first();
            law_program_is_looked_for_everywhere(w1, rest, name);
            effects::lemma_continues(w, w1, end);
            assert(end.calls[n0] == w1.calls[n0]);
            if found {
                let (n, k) = choose|n: int, k: int|
                    w1.calls.len() <= n < end.calls.len() && 0 <= k < rest.len()
                        && #[trigger] end.calls[n] == (Call::IsFile {
                        path: paths::under(#[trigger] rest[k], name),
                    }) && (end.replies)(n as nat).yes;
                assert(dirs[k + 1] == rest[k]);
                assert(end.calls[n] == Call::IsFile { path: paths::under(dirs[k + 1], name) });
            } else {
                assert forall|k: int| 0 <= k < dirs.len() implies lacked(
                    w,
                    end,
                    paths::under(#[trigger] dirs[k], name),
                ) by {
                    if k > 0 {
                        assert(rest[k - 1] == dirs[k]);
                        let p = paths::under(rest[k - 1], name);
                        assert(lacked(w1, end, p));
                        let n = choose|n: int|
                            w1.calls.len() <= n < end.calls.len() && #[trigger] end.calls[n] == (
                            Call::IsFile { path: p }) && !(end.replies)(n as nat).yes;
                        assert(end.calls[n] == Call::IsFile { path: p });
                    }
                }
            }
        }
    }
}

/// A file was asked for, and was not there.
pub open spec fn lacked(a: World, b: World, path: Seq<char>) -> bool {
    exists|n: int|
        a.calls.len() <= n < b.calls.len() && #[trigger] b.calls[n] == (Call::IsFile { path })
            && !(b.replies)(n as nat).yes
}

/// The effective user is the second number of the first line that tells of
/// users.
pub proof fn law_effective_user(ls: Seq<Seq<char>>, i: int)
    requires
        0 <= i < ls.len(),
        text::begins(ls[i], "Uid:"@),
        forall|j: int| 0 <= j < i ==> !text::begins(#[trigger] ls[j], "Uid:"@),
    ensures
        ({
            let fields = text::words_of(ls[i].skip("Uid:"@.len() as int));
            effective_user(ls) == (if fields.len() > 1 {
                Some(fields[1])
            } else {
                None
            })
        }),
    decreases ls.len(),
{
    if i > 0 {
        let rest = ls.drop_first();
        assert(rest[i - 1] == ls[i]);
        assert(!text::begins(ls[0], "Uid:"@));
        assert forall|j: int| 0 <= j < i - 1 implies !text::begins(
            #[trigger] rest[j],
            "Uid:"@,
        ) by {
            assert(rest[j] == ls[j + 1]);
        }
        law_effective_user(rest, i - 1);
    }
}

/// A staged script that succeeds was written out whole and run with what it was
/// to know.
pub proof fn law_staged_script_is_run(
    w: World,
    content: Seq<char>,
    prefix: Seq<char>,
    env: Seq<(Seq<char>, Seq<char>)>,
    spawning: Seq<char>,
    failed: Seq<char>,
)
    ensures
        ({
            let (end, res) = run_staged_does(w, content, prefix, env, spawning, failed);
            &&& sub::continues(w, end)
            &&& res is Ok ==> exists|path: Seq<char>|
                effects::came_off(
                    w,
                    end,
                    Call::WriteFile { path, bytes: vstd::utf8::encode_utf8(content) },
                ) && effects::came_off(w, end, #[trigger] staged_run(path, env))
        }),
{
    reveal(run_staged_does);
    reveal(stage_does);
    let (end, res) = run_staged_does(w, content, prefix, env, spawning, failed);
    let (w1, staged) = stage_does(w, content, prefix);
    assert(sub::continues(w, w1));
    assert(sub::continues(w1, end));
    effects::lemma_continues(w, w1, end);
    if res is Ok {
        let path = staged->Ok_0;
        let m = w1.calls.len() as int;
        let write = Call::WriteFile { path, bytes: vstd::utf8::encode_utf8(content) };
        assert(w1.calls[m - 2] == write);
        assert(effects::went_well(w1, m - 2));
        assert(effects::came_off(w, w1, write));
        assert(sub::continues(w, w));
        effects::lemma_came_within(w, w, w1, end, write);
        assert(end.calls[m] == staged_run(path, env));
        assert(effects::went_well(end, m));
        assert(effects::came_off(w, end, staged_run(path, env)));
    }
}

/// The call that runs a staged script.
pub open spec fn staged_run(path: Seq<char>, env: Seq<(Seq<char>, Seq<char>)>) -> Call {
    Call::RunWith { prog: "bash"@, args: seq![path], env }
}

} // verus!
