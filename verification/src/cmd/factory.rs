//! `factory`: builds the archive that `deploy` unpacks, by `debootstrap` in a
//! chroot. The work is done by a script.

use vstd::prelude::*;

use crate::cmd::tools;
use crate::effects;
use crate::error;
use crate::error::Error;
use crate::paths;
use crate::sub;
use crate::sub::{Call, Runner, World};
use crate::text;

verus! {

/// Arguments of `factory`.
#[derive(Debug)]
pub struct FactoryArgs {
    /// Where the archive goes; a file in the operator's cache, where it is not
    /// given.
    pub output: Option<String>,
    /// The Debian suite.
    pub suite: String,
    /// Packages beyond the usual ones.
    pub packages: Vec<String>,
    /// Leave the kernel's headers out.
    pub no_headers: bool,
    /// The suite that ZFS comes from, where it is another.
    pub zfs_from_suite: Option<String>,
}

/// The programs that are needed, each with a hint.
pub open spec fn needed() -> Seq<(Seq<char>, Seq<char>)> {
    seq![
        ("debootstrap"@, "debootstrap (apt install debootstrap)"@),
        ("chroot"@, "chroot (core util)"@),
        ("mount"@, "mount (core util)"@),
        ("umount"@, "umount (core util)"@),
        ("tar"@, "tar (core util)"@),
    ]
}

/// Makes sure of what the script needs: the programs first, then root.
#[verifier::opaque]
pub open spec fn prereqs_does(w: World) -> (World, Result<(), Seq<char>>) {
    let (w1, missing) = tools::missing_does(w, needed());
    if missing.len() > 0 {
        (
            w1,
            Err(
                "prereqs missing:\n  - "@ + text::joined(missing, "\n  - "@)
                    + "\n\nInstall them, or run from within a Debian VM via `bash scripts/internal/factory-in-vm.sh` (clean cloud image, no host install needed)."@,
            ),
        )
    } else {
        let (w2, root) = tools::is_root_does(w1);
        (
            w2,
            if root {
                Ok(())
            } else {
                Err(
                    "needs root (debootstrap + chroot + bind-mount).\n  Re-run via: sudo -E zboot factory\n  (or run sandboxed via `bash scripts/internal/factory-in-vm.sh` — builds inside a clean Debian cloud-image VM, no host root needed)"@,
                )
            },
        )
    }
}

/// Makes sure of what the script needs.
pub fn check_prereqs<R: Runner>(r: &mut R) -> (res: Result<(), Error>)
    ensures
        sub::did(final(r).world(), res) == prereqs_does(old(r).world()),
{
    proof {
        reveal(prereqs_does);
    }
    let wanted: Vec<(&str, &str)> = vec![
        ("debootstrap", "debootstrap (apt install debootstrap)"),
        ("chroot", "chroot (core util)"),
        ("mount", "mount (core util)"),
        ("umount", "umount (core util)"),
        ("tar", "tar (core util)"),
    ];
    assert(wanted.deep_view() =~= needed());
    let missing = tools::find_missing(r, &wanted);
    if missing.len() > 0 {
        let listed: String = text::join(&missing, "\n  - ");
        return Err(
            Error::from_text(
                text::cat3(
                    "prereqs missing:\n  - ",
                    listed.as_str(),
                    "\n\nInstall them, or run from within a Debian VM via `bash scripts/internal/factory-in-vm.sh` (clean cloud image, no host install needed).",
                ),
            ),
        );
    }
    if !tools::is_root(r) {
        return Err(
            Error::new(
                "needs root (debootstrap + chroot + bind-mount).\n  Re-run via: sudo -E zboot factory\n  (or run sandboxed via `bash scripts/internal/factory-in-vm.sh` — builds inside a clean Debian cloud-image VM, no host root needed)",
            ),
        );
    }
    Ok(())
}

/// Settles where the archive goes, and makes the directory for it.
#[verifier::opaque]
pub open spec fn resolve_does(w: World, output: Option<Seq<char>>) -> (World, Result<
    Seq<char>,
    Seq<char>,
>) {
    let (w1, path) = tools::output_does(w, output, ".cache/zboot/factory.tar.zst"@);
    match path {
        Err(m) => (w1, Err(m)),
        Ok(p) => match paths::parent_of(p) {
            None => (w1, Ok(p)),
            Some(dir) => sub::chain(
                sub::explained(
                    (w1.after(Call::MakeDirs { path: dir }), w1.unit()),
                    "create parent dir for "@ + p,
                ),
                |w2: World| (w2, Ok(p)),
            ),
        },
    }
}

/// Settles where the archive goes, and makes the directory for it.
pub fn resolve_output<R: Runner>(r: &mut R, output: &Option<String>) -> (res: Result<
    String,
    Error,
>)
    ensures
        sub::did(final(r).world(), res) == resolve_does(old(r).world(), output.deep_view()),
{
    proof {
        reveal(resolve_does);
    }
    let path: String = match tools::output_path(r, output, ".cache/zboot/factory.tar.zst") {
        Err(e) => return Err(e),
        Ok(p) => p,
    };
    match paths::parent(path.as_str()) {
        None => {},
        Some(dir) => match r.make_dirs(dir.as_str()) {
            Err(e) => {
                let what: String = text::cat2("create parent dir for ", path.as_str());
                return Err(e.context(what.as_str()));
            },
            Ok(()) => {},
        },
    }
    Ok(path)
}

/// What the archive is called.
pub open spec fn label_of(extras: Seq<char>) -> Seq<char> {
    if extras.len() == 0 {
        "stock"@
    } else {
        "factory"@
    }
}

/// What is shown before the script runs.
pub open spec fn announced(a: FactoryArgs, output: Seq<char>, exe: Seq<char>) -> Seq<Seq<char>> {
    let extras = text::joined(a.packages.deep_view(), " "@);
    seq![
        "[zboot factory] debootstrap + chroot (~5min) — "@ + label_of(extras) + " tar"@,
        "  output:      "@ + output,
        "  suite:       "@ + a.suite@,
        "  zboot bin:   "@ + exe,
    ] + (if extras.len() == 0 {
        seq![]
    } else {
        seq!["  extra pkgs:  "@ + extras]
    }) + (if a.no_headers {
        seq!["  --no-headers: purging linux-headers + DKMS sources after compile"@]
    } else {
        seq![]
    }) + seq![""@] + (match a.zfs_from_suite {
        Some(s) => seq!["  zfs from:    "@ + s@ + " (pinned via apt preferences)"@],
        None => seq![],
    })
}

fn announce(a: &FactoryArgs, extras: &str, label: &str, output: &str, exe: &str) -> (r: Vec<String>)
    requires
        extras@ == text::joined(a.packages.deep_view(), " "@),
        label@ == label_of(extras@),
    ensures
        r.deep_view() == announced(*a, output@, exe@),
{
    let mut out: Vec<String> = Vec::new();
    assert(out.deep_view() =~= seq![]);
    let line: String = text::cat3(
        "[zboot factory] debootstrap + chroot (~5min) — ",
        label,
        " tar",
    );
    text::push_text(&mut out, line.as_str());
    let line: String = text::cat2("  output:      ", output);
    text::push_text(&mut out, line.as_str());
    let line: String = text::cat2("  suite:       ", a.suite.as_str());
    text::push_text(&mut out, line.as_str());
    let line: String = text::cat2("  zboot bin:   ", exe);
    text::push_text(&mut out, line.as_str());
    if !extras.is_empty() {
        let line: String = text::cat2("  extra pkgs:  ", extras);
        text::push_text(&mut out, line.as_str());
    }
    if a.no_headers {
        text::push_text(
            &mut out,
            "  --no-headers: purging linux-headers + DKMS sources after compile",
        );
    }
    text::push_text(&mut out, "");
    match &a.zfs_from_suite {
        Some(s) => {
            let line: String = text::cat3(
                "  zfs from:    ",
                s.as_str(),
                " (pinned via apt preferences)",
            );
            text::push_text(&mut out, line.as_str());
        },
        None => {},
    }
    out
}

/// What the script is told.
pub open spec fn script_env(a: FactoryArgs, output: Seq<char>, exe: Seq<char>) -> Seq<
    (Seq<char>, Seq<char>),
> {
    seq![
        ("ZBOOT_BIN"@, exe),
        ("FACTORY_TAR"@, output),
        ("DEBIAN_SUITE"@, a.suite@),
        ("EXTRA_PACKAGES"@, text::joined(a.packages.deep_view(), " "@)),
        (
            "NO_HEADERS"@,
            if a.no_headers {
                "1"@
            } else {
                ""@
            },
        ),
        (
            "ZFS_FROM_SUITE"@,
            match a.zfs_from_suite {
                Some(s) => s@,
                None => ""@,
            },
        ),
    ]
}

fn build_env(a: &FactoryArgs, extras: &str, output: &str, exe: &str) -> (r: Vec<(String, String)>)
    requires
        extras@ == text::joined(a.packages.deep_view(), " "@),
    ensures
        r.deep_view() == script_env(*a, output@, exe@),
{
    let mut env: Vec<(String, String)> = Vec::new();
    assert(env.deep_view() =~= seq![]);
    tools::push_var(&mut env, "ZBOOT_BIN", exe);
    tools::push_var(&mut env, "FACTORY_TAR", output);
    tools::push_var(&mut env, "DEBIAN_SUITE", a.suite.as_str());
    tools::push_var(&mut env, "EXTRA_PACKAGES", extras);
    let headers: &str = if a.no_headers {
        "1"
    } else {
        ""
    };
    tools::push_var(&mut env, "NO_HEADERS", headers);
    let from: &str = match &a.zfs_from_suite {
        Some(s) => s.as_str(),
        None => "",
    };
    tools::push_var(&mut env, "ZFS_FROM_SUITE", from);
    env
}

/// Builds the archive.
#[verifier::opaque]
pub open spec fn build_does(w: World, a: FactoryArgs, output: Seq<char>, script: Seq<char>) -> (
    World,
    Result<(), Seq<char>>,
) {
    let label = label_of(text::joined(a.packages.deep_view(), " "@));
    let w1 = w.after(Call::Exe);
    match w.line() {
        Err(m) => (w1, Err(error::within("locate this CLI binary"@, m))),
        Ok(exe) => {
            let (w2, told) = sub::tell_all_does(w1, announced(a, output, exe));
            if told is Err {
                (w2, told)
            } else {
                sub::chain(
                    tools::run_staged_does(
                        w2,
                        script,
                        "zboot-factory-tar"@,
                        script_env(a, output, exe),
                        "spawn embedded build-factory-tar script"@,
                        label + " tar build failed"@,
                    ),
                    |w3: World|
                        (w3.say("✓ "@ + label + " tar ready: "@ + output), w3.unit()),
                )
            }
        },
    }
}

fn build<R: Runner>(r: &mut R, a: &FactoryArgs, output: &str, script: &str) -> (res: Result<
    (),
    Error,
>)
    ensures
        sub::did(final(r).world(), res) == build_does(old(r).world(), *a, output@, script@),
{
    proof {
        reveal(build_does);
    }
    let exe: String = match r.exe() {
        Err(e) => return Err(e.context("locate this CLI binary")),
        Ok(p) => p,
    };
    let extras: String = text::join(&a.packages, " ");
    let label: &str = if extras.as_str().is_empty() {
        "stock"
    } else {
        "factory"
    };
    let lines = announce(a, extras.as_str(), label, output, exe.as_str());
    if let Err(e) = sub::tell_all(r, &lines) {
        return Err(e);
    }
    let env = build_env(a, extras.as_str(), output, exe.as_str());
    let failed: String = text::cat2(label, " tar build failed");
    match tools::run_staged(
        r,
        script,
        "zboot-factory-tar",
        env,
        "spawn embedded build-factory-tar script",
        failed.as_str(),
    ) {
        Err(e) => return Err(e),
        Ok(()) => {},
    }
    let line: String = text::cat4("✓ ", label, " tar ready: ", output);
    r.tell(line.as_str())
}

/// What `factory` does.
pub open spec fn run_does(w: World, a: FactoryArgs, script: Seq<char>) -> (World, Result<
    (),
    Seq<char>,
>) {
    sub::chain(
        prereqs_does(w),
        |w1: World|
            {
                let (w2, output) = resolve_does(w1, a.output.deep_view());
                match output {
                    Err(m) => (w2, Err(m)),
                    Ok(path) => build_does(w2, a, path, script),
                }
            },
    )
}

/// `factory`: builds the archive that `deploy` unpacks. `script` is the one
/// that does the work.
pub fn run<R: Runner>(r: &mut R, args: &FactoryArgs, script: &str) -> (res: Result<(), Error>)
    ensures
        sub::did(final(r).world(), res) == run_does(old(r).world(), *args, script@),
{
    match check_prereqs(r) {
        Err(e) => return Err(e),
        Ok(()) => {},
    }
    match resolve_output(r, &args.output) {
        Err(e) => Err(e),
        Ok(path) => build(r, args, path.as_str(), script),
    }
}

/// Where something that the script needs is not there, nothing is done, and the
/// complaint names all of it.
pub proof fn law_missing_is_told_at_once(w: World, a: FactoryArgs, script: Seq<char>)
    requires
        tools::missing_does(w, needed()).1.len() > 0 || !tools::is_root_does(
            tools::missing_does(w, needed()).0,
        ).1,
    ensures
        run_does(w, a, script).1 is Err,
        sub::only_looked(w, run_does(w, a, script).0),
{
    reveal(prereqs_does);
    tools::law_missing_looks(w, needed());
}

/// An archive that was built was built by the script, told the place for it, the
/// suite and the packages that were asked for.
pub proof fn law_archive_is_built(w: World, a: FactoryArgs, output: Seq<char>, script: Seq<char>)
    requires
        build_does(w, a, output, script).1 is Ok,
    ensures
        ({
            let end = build_does(w, a, output, script).0;
            exists|path: Seq<char>, env: Seq<(Seq<char>, Seq<char>)>|
                effects::came_off(w, end, #[trigger] tools::staged_run(path, env))
                    && effects::came_off(
                    w,
                    end,
                    Call::WriteFile { path, bytes: vstd::utf8::encode_utf8(script) },
                ) && env.contains(("FACTORY_TAR"@, output)) && env.contains(
                    ("DEBIAN_SUITE"@, a.suite@),
                ) && env.contains(
                    ("EXTRA_PACKAGES"@, text::joined(a.packages.deep_view(), " "@)),
                )
        }),
{
    reveal(build_does);
    let end = build_does(w, a, output, script).0;
    let label = label_of(text::joined(a.packages.deep_view(), " "@));
    let exe = w.line()->Ok_0;
    let w1 = w.after(Call::Exe);
    sub::lemma_tell_all_looks(w1, announced(a, output, exe));
    let w2 = sub::tell_all_does(w1, announced(a, output, exe)).0;
    let env = script_env(a, output, exe);
    let spawning = "spawn embedded build-factory-tar script"@;
    let failed = label + " tar build failed"@;
    tools::law_staged_script_is_run(w2, script, "zboot-factory-tar"@, env, spawning, failed);
    let w3 = tools::run_staged_does(
        w2,
        script,
        "zboot-factory-tar"@,
        env,
        spawning,
        failed,
    ).0;
    assert(sub::continues(w, w1));
    effects::lemma_continues(w, w1, w2);
    assert(sub::continues(w3, end));
    let path = choose|path: Seq<char>|
        effects::came_off(
            w2,
            w3,
            Call::WriteFile { path, bytes: vstd::utf8::encode_utf8(script) },
        ) && effects::came_off(w2, w3, #[trigger] tools::staged_run(path, env));
    effects::lemma_came_within(w, w2, w3, end, tools::staged_run(path, env));
    effects::lemma_came_within(
        w,
        w2,
        w3,
        end,
        Call::WriteFile { path, bytes: vstd::utf8::encode_utf8(script) },
    );
    assert(env[1] == ("FACTORY_TAR"@, output));
    assert(env[2] == ("DEBIAN_SUITE"@, a.suite@));
    assert(env[3] == ("EXTRA_PACKAGES"@, text::joined(a.packages.deep_view(), " "@)));
}

} // verus!
