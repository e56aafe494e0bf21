//! `live`: builds a live image, and the directory that it is served from, with
//! the boot loader in it. The work is done by a script.

use vstd::prelude::*;

use crate::cmd::efi;
use crate::cmd::tools;
use crate::effects;
use crate::error;
use crate::error::Error;
use crate::paths;
use crate::sub;
use crate::sub::{Call, Runner, World};
use crate::text;

verus! {

/// Arguments of `live`.
#[derive(Debug)]
pub struct LiveArgs {
    /// Where the image goes; a directory in the operator's cache, where it is
    /// not given.
    pub output: Option<String>,
    /// The Debian suite.
    pub suite: String,
    /// Packages beyond the usual ones.
    pub packages: Vec<String>,
    /// A directory of hooks for the build.
    pub hooks_dir: Option<String>,
    /// A directory of files for the image.
    pub includes_dir: Option<String>,
    /// The suite that ZFS comes from; none where it is empty.
    pub zfs_from_suite: String,
    /// Write no menu for the network boot.
    pub no_menu: bool,
}

/// The programs that are needed, each with a hint.
pub open spec fn needed() -> Seq<(Seq<char>, Seq<char>)> {
    seq![("lb"@, "lb (apt install live-build)"@), ("sudo"@, "sudo"@)]
}

/// Makes sure of the programs that the script needs.
#[verifier::opaque]
pub open spec fn prereqs_does(w: World) -> (World, Result<(), Seq<char>>) {
    let (w1, missing) = tools::missing_does(w, needed());
    (
        w1,
        if missing.len() > 0 {
            Err(
                "prereqs missing:\n  - "@ + text::joined(missing, "\n  - "@)
                    + "\n\nInstall them, or run sandboxed via `bash scripts/internal/live-in-vm.sh` — builds inside a clean Debian cloud-image VM, no host live-build needed."@,
            )
        } else {
            Ok(())
        },
    )
}

/// Makes sure of the programs that the script needs.
pub fn check_prereqs<R: Runner>(r: &mut R) -> (res: Result<(), Error>)
    ensures
        sub::did(final(r).world(), res) == prereqs_does(old(r).world()),
{
    proof {
        reveal(prereqs_does);
    }
    let wanted: Vec<(&str, &str)> = vec![
        ("lb", "lb (apt install live-build)"),
        ("sudo", "sudo"),
    ];
    assert(wanted.deep_view() =~= needed());
    let missing = tools::find_missing(r, &wanted);
    if missing.len() > 0 {
        let listed: String = text::join(&missing, "\n  - ");
        return Err(
            Error::from_text(
                text::cat3(
                    "prereqs missing:\n  - ",
                    listed.as_str(),
                    "\n\nInstall them, or run sandboxed via `bash scripts/internal/live-in-vm.sh` — builds inside a clean Debian cloud-image VM, no host live-build needed.",
                ),
            ),
        );
    }
    Ok(())
}

/// Settles where the image goes, and makes that directory.
#[verifier::opaque]
pub open spec fn resolve_does(w: World, output: Option<Seq<char>>) -> (World, Result<
    Seq<char>,
    Seq<char>,
>) {
    let (w1, path) = tools::output_does(w, output, ".cache/zboot/pxe"@);
    match path {
        Err(m) => (w1, Err(m)),
        Ok(p) => sub::chain(
            sub::explained(
                (w1.after(Call::MakeDirs { path: p }), w1.unit()),
                "create output dir "@ + p,
            ),
            |w2: World| (w2, Ok(p)),
        ),
    }
}

/// Settles where the image goes, and makes that directory.
pub fn resolve_output<R: Runner>(r: &mut R, output: &Option<String>) -> (res: Result<
    String,
    Error,
>)
    ensures
        sub::did(final(r).world(), res) == resolve_does(old(r).world(), output.deep_view()),
{
    proof {
        reveal(resolve_does);
    }
    let path: String = match tools::output_path(r, output, ".cache/zboot/pxe") {
        Err(e) => return Err(e),
        Ok(p) => p,
    };
    match r.make_dirs(path.as_str()) {
        Err(e) => {
            let what: String = text::cat2("create output dir ", path.as_str());
            return Err(e.context(what.as_str()));
        },
        Ok(()) => {},
    }
    Ok(path)
}

/// What the image is called.
pub open spec fn label_of(extras: Seq<char>) -> Seq<char> {
    if extras.len() == 0 {
        "minimal"@
    } else {
        "extended"@
    }
}

/// What is shown before the script runs.
pub open spec fn announced(a: LiveArgs, output: Seq<char>, exe: Seq<char>) -> Seq<Seq<char>> {
    let extras = text::joined(a.packages.deep_view(), ","@);
    seq![
        "[zboot live] live-build → "@ + label_of(extras) + " debian live (~10-20min)"@,
        "  output:      "@ + output,
        "  suite:       "@ + a.suite@,
        "  zboot bin:   "@ + exe,
    ] + (if extras.len() == 0 {
        seq![]
    } else {
        seq!["  extra pkgs:  "@ + extras]
    }) + (match a.hooks_dir {
        Some(d) => seq!["  hooks dir:   "@ + d@],
        None => seq![],
    }) + (match a.includes_dir {
        Some(d) => seq!["  includes:    "@ + d@],
        None => seq![],
    }) + (if a.zfs_from_suite@.len() == 0 {
        seq![]
    } else {
        seq!["  zfs from:    "@ + a.zfs_from_suite@ + " (apt-pinned)"@]
    }) + seq![
        "  menu.ipxe:   "@ + (if a.no_menu {
            "no (--no-menu)"@
        } else {
            "yes"@
        }),
        ""@,
    ]
}

fn announce(a: &LiveArgs, extras: &str, label: &str, output: &str, exe: &str) -> (r: Vec<String>)
    requires
        extras@ == text::joined(a.packages.deep_view(), ","@),
        label@ == label_of(extras@),
    ensures
        r.deep_view() == announced(*a, output@, exe@),
{
    let mut out: Vec<String> = Vec::new();
    assert(out.deep_view() =~= seq![]);
    let line: String = text::cat3(
        "[zboot live] live-build → ",
        label,
        " debian live (~10-20min)",
    );
    text::push_text(&mut out, line.as_str());
    let line: String = text::cat2("  output:      ", output);
    text::push_text(&mut out, line.as_str());
    let line: String = text::cat2("  suite:       ", a.suite.as_str());
    text::push_text(&mut out, line.as_str());
    let line: String = text::cat2("  zboot bin:   ", exe);
    text::push_text(&mut out, line.as_str());
    if !extras.is_empty() {
        let line: String = text::cat2("  extra pkgs:  ", extras);
        text::push_text(&mut out, line.as_str());
    }
    match &a.hooks_dir {
        Some(d) => {
            let line: String = text::cat2("  hooks dir:   ", d.as_str());
            text::push_text(&mut out, line.as_str());
        },
        None => {},
    }
    match &a.includes_dir {
        Some(d) => {
            let line: String = text::cat2("  includes:    ", d.as_str());
            text::push_text(&mut out, line.as_str());
        },
        None => {},
    }
    if !a.zfs_from_suite.as_str().is_empty() {
        let line: String = text::cat3(
            "  zfs from:    ",
            a.zfs_from_suite.as_str(),
            " (apt-pinned)",
        );
        text::push_text(&mut out, line.as_str());
    }
    let menu: &str = if a.no_menu {
        "no (--no-menu)"
    } else {
        "yes"
    };
    let line: String = text::cat2("  menu.ipxe:   ", menu);
    text::push_text(&mut out, line.as_str());
    text::push_text(&mut out, "");
    out
}

/// What the script is told.
pub open spec fn script_env(a: LiveArgs, output: Seq<char>, exe: Seq<char>) -> Seq<
    (Seq<char>, Seq<char>),
> {
    seq![
        ("ZBOOT_BIN"@, exe),
        ("OUTPUT_DIR"@, output),
        ("DEBIAN_SUITE"@, a.suite@),
        ("EXTRA_PACKAGES"@, text::joined(a.packages.deep_view(), ","@)),
        ("ZFS_FROM_SUITE"@, a.zfs_from_suite@),
        (
            "GENERATE_MENU"@,
            if a.no_menu {
                ""@
            } else {
                "1"@
            },
        ),
    ] + (match a.hooks_dir {
        Some(d) => seq![("EXTRA_HOOKS_DIR"@, d@)],
        None => seq![],
    }) + (match a.includes_dir {
        Some(d) => seq![("EXTRA_INCLUDES_DIR"@, d@)],
        None => seq![],
    })
}

fn build_env(a: &LiveArgs, extras: &str, output: &str, exe: &str) -> (r: Vec<(String, String)>)
    requires
        extras@ == text::joined(a.packages.deep_view(), ","@),
    ensures
        r.deep_view() == script_env(*a, output@, exe@),
{
    let mut env: Vec<(String, String)> = Vec::new();
    assert(env.deep_view() =~= seq![]);
    tools::push_var(&mut env, "ZBOOT_BIN", exe);
    tools::push_var(&mut env, "OUTPUT_DIR", output);
    tools::push_var(&mut env, "DEBIAN_SUITE", a.suite.as_str());
    tools::push_var(&mut env, "EXTRA_PACKAGES", extras);
    tools::push_var(&mut env, "ZFS_FROM_SUITE", a.zfs_from_suite.as_str());
    let menu: &str = if a.no_menu {
        ""
    } else {
        "1"
    };
    tools::push_var(&mut env, "GENERATE_MENU", menu);
    match &a.hooks_dir {
        Some(d) => tools::push_var(&mut env, "EXTRA_HOOKS_DIR", d.as_str()),
        None => {},
    }
    match &a.includes_dir {
        Some(d) => tools::push_var(&mut env, "EXTRA_INCLUDES_DIR", d.as_str()),
        None => {},
    }
    env
}

/// What is told at the end.
pub open spec fn ready_lines(label: Seq<char>, output: Seq<char>, carried: Seq<u8>) -> Seq<
    Seq<char>,
> {
    seq![
        "  + zboot-boot.efi  ("@ + text::decimal(carried.len()) + " B, from embedded copy)"@,
        "✓ "@ + label + " debian live ready: "@ + output + "/"@,
    ]
}

/// Builds the image, and puts the loader beside it.
#[verifier::opaque]
pub open spec fn build_does(
    w: World,
    a: LiveArgs,
    output: Seq<char>,
    script: Seq<char>,
    carried: Seq<u8>,
) -> (World, Result<(), Seq<char>>) {
    let label = label_of(text::joined(a.packages.deep_view(), ","@));
    let w1 = w.after(Call::Exe);
    match w.line() {
        Err(m) => (w1, Err(error::within("locate this CLI binary"@, m))),
        Ok(exe) => {
            let (w2, told) = sub::tell_all_does(w1, announced(a, output, exe));
            if told is Err {
                (w2, told)
            } else {
                sub::chain(
                    tools::run_staged_does(
                        w2,
                        script,
                        "zboot-debian-live"@,
                        script_env(a, output, exe),
                        "spawn embedded build-debian-live script"@,
                        "debian-live build failed"@,
                    ),
                    |w3: World|
                        sub::chain(
                            sub::explained(
                                efi::write_embedded_does(w3, output, carried),
                                "write zboot-boot.efi to "@ + paths::under(
                                    output,
                                    "zboot-boot.efi"@,
                                ),
                            ),
                            |w4: World| sub::tell_all_does(w4, ready_lines(label, output, carried)),
                        ),
                )
            }
        },
    }
}

fn build<R: Runner>(r: &mut R, a: &LiveArgs, output: &str, script: &str, carried: &[u8]) -> (res:
    Result<(), Error>)
    ensures
        sub::did(final(r).world(), res) == build_does(
            old(r).world(),
            *a,
            output@,
            script@,
            carried@,
        ),
{
    proof {
        reveal(build_does);
    }
    let exe: String = match r.exe() {
        Err(e) => return Err(e.context("locate this CLI binary")),
        Ok(p) => p,
    };
    let extras: String = text::join(&a.packages, ",");
    let label: &str = if extras.as_str().is_empty() {
        "minimal"
    } else {
        "extended"
    };
    let lines = announce(a, extras.as_str(), label, output, exe.as_str());
    if let Err(e) = sub::tell_all(r, &lines) {
        return Err(e);
    }
    let env = build_env(a, extras.as_str(), output, exe.as_str());
    match tools::run_staged(
        r,
        script,
        "zboot-debian-live",
        env,
        "spawn embedded build-debian-live script",
        "debian-live build failed",
    ) {
        Err(e) => return Err(e),
        Ok(()) => {},
    }
    match efi::write_embedded(r, output, carried) {
        Err(e) => {
            let dest: String = paths::join(output, "zboot-boot.efi");
            let what: String = text::cat2("write zboot-boot.efi to ", dest.as_str());
            return Err(e.context(what.as_str()));
        },
        Ok(()) => {},
    }
    let size: String = text::dec_len(carried.len());
    let mut ready: Vec<String> = Vec::new();
    ready.push(text::cat3("  + zboot-boot.efi  (", size.as_str(), " B, from embedded copy)"));
    ready.push(text::cat5("✓ ", label, " debian live ready: ", output, "/"));
    assert(ready.deep_view() =~= ready_lines(label@, output@, carried@));
    sub::tell_all(r, &ready)
}

/// What `live` does.
pub open spec fn run_does(w: World, a: LiveArgs, script: Seq<char>, carried: Seq<u8>) -> (
    World,
    Result<(), Seq<char>>,
) {
    sub::chain(
        prereqs_does(w),
        |w1: World|
            {
                let (w2, output) = resolve_does(w1, a.output.deep_view());
                match output {
                    Err(m) => (w2, Err(m)),
                    Ok(path) => build_does(w2, a, path, script, carried),
                }
            },
    )
}

/// `live`: builds a live image. `script` is the one that does the work, and
/// `carried` the boot loader that the program carries with it.
pub fn run<R: Runner>(r: &mut R, args: &LiveArgs, script: &str, carried: &[u8]) -> (res: Result<
    (),
    Error,
>)
    ensures
        sub::did(final(r).world(), res) == run_does(
            old(r).world(),
            *args,
            script@,
            carried@,
        ),
{
    match check_prereqs(r) {
        Err(e) => return Err(e),
        Ok(()) => {},
    }
    match resolve_output(r, &args.output) {
        Err(e) => Err(e),
        Ok(path) => build(r, args, path.as_str(), script, carried),
    }
}

/// Where a program is missing, nothing is done.
pub proof fn law_missing_is_told_at_once(
    w: World,
    a: LiveArgs,
    script: Seq<char>,
    carried: Seq<u8>,
)
    requires
        tools::missing_does(w, needed()).1.len() > 0,
    ensures
        run_does(w, a, script, carried).1 is Err,
        sub::only_looked(w, run_does(w, a, script, carried).0),
{
    reveal(prereqs_does);
    tools::law_missing_looks(w, needed());
}

} // verus!
