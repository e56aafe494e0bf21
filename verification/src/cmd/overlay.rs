//! `overlay`: an archive of a host's own files goes over a boot environment.
//!
//! The archive holds a directory `rootfs`, which is laid over the root, and a
//! script `post-install.sh`, which is run inside it; either may be missing, and
//! both may stand in one directory. A snapshot is taken first, and what was
//! mounted or unpacked on the way is taken away again, however it ends.

use vstd::prelude::*;

use crate::cmd::drop;
use crate::effects;
use crate::error;
use crate::error::Error;
use crate::mounts;
use crate::mounts::Style;
use crate::paths;
use crate::pools;
use crate::sub;
use crate::sub::{Call, Fault, Runner, Step, World};
use crate::text;
use crate::zfs_ops;

verus! {

/// Arguments of `overlay`.
#[derive(Debug)]
pub struct OverlayArgs {
    /// The archive.
    pub tar: String,
    /// The boot environment; the only one there is, where it is not given.
    pub be: Option<String>,
    /// Take no snapshot first.
    pub no_snapshot: bool,
}

// ---------------------------------------------------------------------------
// Which one
// ---------------------------------------------------------------------------

/// The pools among `names` that hold boot environments. One that cannot be
/// asked does not.
pub open spec fn root_pools_does(w: World, names: Seq<Seq<char>>) -> (World, Seq<Seq<char>>)
    decreases names.len(),
{
    if names.len() == 0 {
        (w, seq![])
    } else {
        let (w1, found) = root_pools_does(w, names.drop_last());
        let (w2, role) = sub::capture_does(
            w1,
            "zpool"@,
            seq!["get"@, "-Hp"@, "-o"@, "value"@, "zboot:role"@, names.last()],
        );
        (
            w2,
            match role {
                Ok(v) => if text::trimmed(v) == "root"@ {
                    found.push(names.last())
                } else {
                    found
                },
                Err(_) => found,
            },
        )
    }
}

fn root_pools<R: Runner>(r: &mut R, names: &Vec<String>) -> (res: Vec<String>)
    ensures
        (final(r).world(), res.deep_view()) == root_pools_does(old(r).world(), names.deep_view()),
{
    let ghost w = r.world();
    let ghost all = names.deep_view();
    let mut found: Vec<String> = Vec::new();
    let mut i: usize = 0;
    assert(found.deep_view() =~= root_pools_does(w, all.take(0)).1);
    while i < names.len()
        invariant
            i <= names@.len(),
            all == names.deep_view(),
            (r.world(), found.deep_view()) == root_pools_does(w, all.take(i as int)),
        decreases names@.len() - i,
    {
        proof {
            assert(all.take(i + 1).drop_last() =~= all.take(i as int));
            assert(all.take(i + 1).last() == names@[i as int]@);
        }
        let pool: &str = names[i].as_str();
        let args = text::argv6("get", "-Hp", "-o", "value", "zboot:role", pool);
        match sub::zpool_capture(r, args.as_slice()) {
            Ok(v) => {
                if text::eq(text::trim(v.as_str()), "root") {
                    text::push_text(&mut found, pool);
                }
            },
            Err(_) => {},
        }
        i = i + 1;
    }
    assert(all.take(i as int) =~= all);
    found
}

/// A row of `name`, `property`, `value` marks a boot environment.
pub open spec fn marks_be(line: Seq<char>) -> bool {
    text::trimmed(zfs_ops::tab_column(line, 2, ""@)) == "true"@
}

/// The boot environments that the rows mark.
pub open spec fn marked(ls: Seq<Seq<char>>) -> Seq<Seq<char>>
    decreases ls.len(),
{
    if ls.len() == 0 {
        seq![]
    } else if marks_be(ls.last()) {
        marked(ls.drop_last()).push(zfs_ops::tab_column(ls.last(), 0, ""@))
    } else {
        marked(ls.drop_last())
    }
}

fn find_marked(listing: &str) -> (r: Vec<String>)
    ensures
        r.deep_view() == marked(text::lines_of(listing@)),
{
    let ls = text::lines(listing);
    let ghost all = ls.deep_view();
    let mut out: Vec<String> = Vec::new();
    let mut i: usize = 0;
    assert(out.deep_view() =~= marked(all.take(0)));
    while i < ls.len()
        invariant
            i <= ls@.len(),
            all == ls.deep_view(),
            all == text::lines_of(listing@),
            out.deep_view() == marked(all.take(i as int)),
        decreases ls@.len() - i,
    {
        proof {
            assert(all.take(i + 1).drop_last() =~= all.take(i as int));
            assert(all.take(i + 1).last() == ls@[i as int]@);
        }
        if text::eq(text::trim(zfs_ops::get_tab_column(ls[i], 2, "")), "true") {
            text::push_text(&mut out, zfs_ops::get_tab_column(ls[i], 0, ""));
        }
        i = i + 1;
    }
    assert(all.take(i as int) =~= all);
    out
}

/// The boot environments on all of `pools`.
pub open spec fn candidates_does(w: World, pools: Seq<Seq<char>>) -> (World, Result<
    Seq<Seq<char>>,
    Seq<char>,
>)
    decreases pools.len(),
{
    if pools.len() == 0 {
        (w, Ok(seq![]))
    } else {
        let (w1, got) = sub::capture_does(
            w,
            "zfs"@,
            seq![
                "get"@,
                "-Hpr"@,
                "-t"@,
                "filesystem"@,
                "-o"@,
                "name,property,value"@,
                "zboot:be"@,
                pools[0],
            ],
        );
        match got {
            Err(m) => (w1, Err(m)),
            Ok(t) => {
                let (w2, rest) = candidates_does(w1, pools.drop_first());
                match rest {
                    Err(m) => (w2, Err(m)),
                    Ok(more) => (w2, Ok(marked(text::lines_of(t)) + more)),
                }
            },
        }
    }
}

fn candidates<R: Runner>(r: &mut R, pools: &Vec<String>, i: usize) -> (res: Result<
    Vec<String>,
    Error,
>)
    requires
        i <= pools@.len(),
    ensures
        sub::did(final(r).world(), res) == candidates_does(
            old(r).world(),
            pools.deep_view().skip(i as int),
        ),
    decreases pools@.len() - i,
{
    let ghost left = pools.deep_view().skip(i as int);
    if i >= pools.len() {
        let none: Vec<String> = Vec::new();
        assert(none.deep_view() =~= seq![]);
        return Ok(none);
    }
    proof {
        assert(left[0] == pools@[i as int]@);
        assert(left.drop_first() =~= pools.deep_view().skip(i + 1));
    }
    let args = text::argv8(
        "get",
        "-Hpr",
        "-t",
        "filesystem",
        "-o",
        "name,property,value",
        "zboot:be",
        pools[i].as_str(),
    );
    let listing: String = match sub::zfs_capture(r, args.as_slice()) {
        Err(e) => return Err(e),
        Ok(t) => t,
    };
    let mut found = find_marked(listing.as_str());
    let ghost here = found.deep_view();
    let mut more = match candidates(r, pools, i + 1) {
        Err(e) => return Err(e),
        Ok(m) => m,
    };
    let ghost rest = more.deep_view();
    found.append(&mut more);
    assert(found.deep_view() =~= here + rest);
    Ok(found)
}

/// The one that is meant: the only one there is.
pub open spec fn only_one(found: Seq<Seq<char>>) -> Result<Seq<char>, Seq<char>> {
    if found.len() == 0 {
        Err(
            "overlay: no BEs found (no datasets with zboot:be=true on root pools); did `zboot deploy` complete?"@,
        )
    } else if found.len() == 1 {
        Ok(found[0])
    } else {
        Err(
            "overlay: target is ambiguous — "@ + text::decimal(found.len()) + " BEs found: "@
                + text::joined(found, ", "@)
                + ". Pass `--be <full-dataset-path>` to disambiguate."@,
        )
    }
}

/// The one that is meant, of those found.
pub fn pick_only(found: &Vec<String>) -> (res: Result<String, Error>)
    ensures
        error::outcome(res) == only_one(found.deep_view()),
{
    if found.len() == 0 {
        return Err(
            Error::new(
                "overlay: no BEs found (no datasets with zboot:be=true on root pools); did `zboot deploy` complete?",
            ),
        );
    }
    if found.len() == 1 {
        assert(found.deep_view()[0] == found@[0]@);
        return Ok(found[0].clone());
    }
    let n: String = text::dec_len(found.len());
    let shown: String = text::join(found, ", ");
    Err(
        Error::from_text(
            text::cat5(
                "overlay: target is ambiguous — ",
                n.as_str(),
                " BEs found: ",
                shown.as_str(),
                ". Pass `--be <full-dataset-path>` to disambiguate.",
            ),
        ),
    )
}

/// Finds the boot environment that is meant.
#[verifier::opaque]
pub open spec fn target_does(w: World, be: Option<Seq<char>>) -> (World, Result<
    Seq<char>,
    Seq<char>,
>) {
    match be {
        Some(ds) => (w, Ok(ds)),
        None => {
            let (w1, got) = sub::capture_does(
                w,
                "zpool"@,
                seq!["list"@, "-Hp"@, "-o"@, "name"@],
            );
            match got {
                Err(m) => (w1, Err(m)),
                Ok(t) => {
                    let names = pools::full_lines(text::lines_of(t));
                    if names.len() == 0 {
                        (
                            w1,
                            Err(
                                "overlay: no pools imported (run `zpool import` first)"@,
                            ),
                        )
                    } else {
                        let (w2, roots) = root_pools_does(w1, names);
                        if roots.len() == 0 {
                            (
                                w2,
                                Err(
                                    "overlay: no `zboot:role=root` pools found; tag a pool first or pass --be"@,
                                ),
                            )
                        } else {
                            let (w3, found) = candidates_does(w2, roots);
                            match found {
                                Err(m) => (w3, Err(m)),
                                Ok(f) => (w3, only_one(f)),
                            }
                        }
                    }
                },
            }
        },
    }
}

/// Finds the boot environment that is meant.
pub fn resolve_target<R: Runner>(r: &mut R, be: &Option<String>) -> (res: Result<String, Error>)
    ensures
        sub::did(final(r).world(), res) == target_does(old(r).world(), be.deep_view()),
{
    proof {
        reveal(target_does);
    }
    match be {
        Some(ds) => return Ok(ds.clone()),
        None => {},
    }
    let args = text::argv4("list", "-Hp", "-o", "name");
    let listing: String = match sub::zpool_capture(r, args.as_slice()) {
        Err(e) => return Err(e),
        Ok(t) => t,
    };
    let names = pools::nonblank_lines(listing.as_str());
    if names.len() == 0 {
        return Err(Error::new("overlay: no pools imported (run `zpool import` first)"));
    }
    let roots = root_pools(r, &names);
    if roots.len() == 0 {
        return Err(
            Error::new(
                "overlay: no `zboot:role=root` pools found; tag a pool first or pass --be",
            ),
        );
    }
    assert(roots.deep_view().skip(0) =~= roots.deep_view());
    match candidates(r, &roots, 0) {
        Err(e) => Err(e),
        Ok(found) => pick_only(&found),
    }
}

// ---------------------------------------------------------------------------
// The archive
// ---------------------------------------------------------------------------

/// The error for a step of unpacking through `zstd` that failed.
pub open spec fn unpack_fault(step: Step, m: Seq<char>) -> Seq<char> {
    match step {
        Step::Start => error::within("spawn zstd"@, m),
        Step::Connect => "zstd stdout"@,
        Step::StartNext => error::within("spawn tar"@, m),
        _ => m,
    }
}

fn not_unpacked(f: Fault) -> (e: Error)
    ensures
        e@ == unpack_fault(f.step, f.message@),
{
    match f.step {
        Step::Start => f.with("spawn zstd"),
        Step::Connect => Error::new("zstd stdout"),
        Step::StartNext => f.with("spawn tar"),
        _ => f.plain(),
    }
}

/// Unpacks an archive, through `zstd` where its name says so.
#[verifier::opaque]
pub open spec fn extract_does(w: World, path: Seq<char>, dest: Seq<char>) -> (World, Result<
    (),
    Seq<char>,
>) {
    let w1 = w.trace("+ tar -xf "@ + path + " -C "@ + dest);
    if paths::zstd_name(path) {
        (
            w1.after(
                Call::Pipe {
                    prog: "zstd"@,
                    args: seq!["-dc"@, path],
                    to_prog: "tar"@,
                    to_args: seq![
                        "--xattrs"@,
                        "--xattrs-include=*"@,
                        "--acls"@,
                        "-xf"@,
                        "-"@,
                        "-C"@,
                        dest,
                    ],
                },
            ),
            match w1.piped() {
                Err((step, m)) => Err(unpack_fault(step, m)),
                Ok((rc, to_rc)) => if rc != 0 {
                    Err("zstd -dc "@ + path + " rc="@ + zfs_ops::rc_text(rc))
                } else if to_rc != 0 {
                    Err("tar -xf rc="@ + zfs_ops::rc_text(to_rc))
                } else {
                    Ok(())
                },
            },
        )
    } else {
        sub::run_does(
            w1,
            "tar"@,
            seq!["--xattrs"@, "--xattrs-include=*"@, "--acls"@, "-xf"@, path, "-C"@, dest],
        )
    }
}

fn extract_tar<R: Runner>(r: &mut R, path: &str, dest: &str) -> (res: Result<(), Error>)
    ensures
        sub::did(final(r).world(), res) == extract_does(old(r).world(), path@, dest@),
{
    proof {
        reveal(extract_does);
    }
    let line: String = text::cat4("+ tar -xf ", path, " -C ", dest);
    r.trace(line.as_str());
    if !paths::is_zstd(path) {
        let args = text::argv7(
            "--xattrs",
            "--xattrs-include=*",
            "--acls",
            "-xf",
            path,
            "-C",
            dest,
        );
        return sub::cmd(r, "tar", args.as_slice());
    }
    let args = text::argv2("-dc", path);
    let to_args = text::argv7("--xattrs", "--xattrs-include=*", "--acls", "-xf", "-", "-C", dest);
    match r.pipe("zstd", args.as_slice(), "tar", to_args.as_slice()) {
        Err(f) => Err(not_unpacked(f)),
        Ok(codes) => if codes.rc != 0 {
            let rc: String = zfs_ops::rc_shown(codes.rc);
            Err(Error::from_text(text::cat4("zstd -dc ", path, " rc=", rc.as_str())))
        } else if codes.to_rc != 0 {
            let rc: String = zfs_ops::rc_shown(codes.to_rc);
            Err(Error::from_text(text::cat2("tar -xf rc=", rc.as_str())))
        } else {
            Ok(())
        },
    }
}

/// What an archive holds.
#[derive(Debug)]
pub struct Layout {
    /// The directory that goes over the root.
    pub rootfs: Option<String>,
    /// The script to run.
    pub post_install: Option<String>,
}

/// What an archive holds, by its paths.
pub struct Found {
    pub rootfs: Option<Seq<char>>,
    pub post_install: Option<Seq<char>>,
}

impl DeepView for Layout {
    type V = Found;

    open spec fn deep_view(&self) -> Found {
        Found { rootfs: self.rootfs.deep_view(), post_install: self.post_install.deep_view() }
    }
}

/// Looks for the script in a directory.
pub open spec fn script_does(w: World, dir: Seq<char>) -> (World, Option<Seq<char>>) {
    let path = paths::under(dir, "post-install.sh"@);
    (
        w.after(Call::IsFile { path }),
        if w.reply().yes {
            Some(path)
        } else {
            None
        },
    )
}

fn find_script<R: Runner>(r: &mut R, dir: &str) -> (res: Option<String>)
    ensures
        (final(r).world(), res.deep_view()) == script_does(old(r).world(), dir@),
{
    let path: String = paths::join(dir, "post-install.sh");
    if r.is_file(path.as_str()) {
        Some(path)
    } else {
        None
    }
}

/// Looks for `rootfs` in a directory, and for the script beside it.
pub open spec fn rootfs_does(w: World, dir: Seq<char>) -> (World, Option<Found>) {
    let path = paths::under(dir, "rootfs"@);
    let w1 = w.after(Call::IsDir { path });
    if w.reply().yes {
        let (w2, script) = script_does(w1, dir);
        (w2, Some(Found { rootfs: Some(path), post_install: script }))
    } else {
        (w1, None)
    }
}

fn find_rootfs<R: Runner>(r: &mut R, dir: &str) -> (res: Option<Layout>)
    ensures
        (final(r).world(), res.deep_view()) == rootfs_does(old(r).world(), dir@),
{
    let path: String = paths::join(dir, "rootfs");
    if r.is_dir(path.as_str()) {
        let script = find_script(r, dir);
        Some(Layout { rootfs: Some(path), post_install: script })
    } else {
        None
    }
}

/// Looks for `rootfs` in the one directory that is there.
pub open spec fn wrapped_does(w: World, staging: Seq<char>, names: Seq<Seq<char>>) -> (
    World,
    Option<Found>,
) {
    if names.len() == 1 {
        let dir = paths::under(staging, names[0]);
        let w1 = w.after(Call::IsDir { path: dir });
        if w.reply().yes {
            rootfs_does(w1, dir)
        } else {
            (w1, None)
        }
    } else {
        (w, None)
    }
}

fn find_wrapped<R: Runner>(r: &mut R, staging: &str, names: &Vec<String>) -> (res: Option<Layout>)
    ensures
        (final(r).world(), res.deep_view()) == wrapped_does(
            old(r).world(),
            staging@,
            names.deep_view(),
        ),
{
    if names.len() != 1 {
        return None;
    }
    assert(names.deep_view()[0] == names@[0]@);
    let dir: String = paths::join(staging, names[0].as_str());
    if r.is_dir(dir.as_str()) {
        find_rootfs(r, dir.as_str())
    } else {
        None
    }
}

/// The complaint about an archive that holds neither.
pub open spec fn bad_layout_text(names: Seq<Seq<char>>) -> Seq<char> {
    "overlay tar layout invalid: expected `rootfs/` and/or `post-install.sh` at top of tar (or wrapped in a single top-level directory). Got entries: "@
        + text::quoted_list(names)
}

/// Finds out what the unpacked archive holds.
#[verifier::opaque]
pub open spec fn layout_does(w: World, staging: Seq<char>) -> (World, Result<Found, Seq<char>>) {
    let (w1, flat) = rootfs_does(w, staging);
    match flat {
        Some(f) => (w1, Ok(f)),
        None => {
            let w2 = w1.after(Call::ListDir { path: staging });
            match w1.listed() {
                Err(m) => (w2, Err(error::within("read_dir "@ + staging, m))),
                Ok(names) => {
                    let (w3, wrapped) = wrapped_does(w2, staging, names);
                    match wrapped {
                        Some(f) => (w3, Ok(f)),
                        None => {
                            let (w4, script) = script_does(w3, staging);
                            match script {
                                Some(s) => (
                                    w4,
                                    Ok(Found { rootfs: None, post_install: Some(s) }),
                                ),
                                None => (w4, Err(bad_layout_text(names))),
                            }
                        },
                    }
                },
            }
        },
    }
}

/// Finds out what the unpacked archive holds.
pub fn locate_layout<R: Runner>(r: &mut R, staging: &str) -> (res: Result<Layout, Error>)
    ensures
        sub::did(final(r).world(), res) == layout_does(old(r).world(), staging@),
{
    proof {
        reveal(layout_does);
    }
    match find_rootfs(r, staging) {
        Some(l) => return Ok(l),
        None => {},
    }
    let names = match r.list_dir(staging) {
        Err(e) => {
            let what: String = text::cat2("read_dir ", staging);
            return Err(e.context(what.as_str()));
        },
        Ok(n) => n,
    };
    match find_wrapped(r, staging, &names) {
        Some(l) => return Ok(l),
        None => {},
    }
    match find_script(r, staging) {
        Some(s) => Ok(Layout { rootfs: None, post_install: Some(s) }),
        None => {
            let shown: String = text::quote_list(&names);
            Err(
                Error::from_text(
                    text::cat2(
                        "overlay tar layout invalid: expected `rootfs/` and/or `post-install.sh` at top of tar (or wrapped in a single top-level directory). Got entries: ",
                        shown.as_str(),
                    ),
                ),
            )
        },
    }
}

// ---------------------------------------------------------------------------
// Laying it over
// ---------------------------------------------------------------------------

/// The error for a step of copying from `tar` to `tar` that failed.
pub open spec fn copy_fault(step: Step, m: Seq<char>) -> Seq<char> {
    match step {
        Step::Start => error::within("spawn tar -c"@, m),
        Step::Connect => "tar -c stdout"@,
        Step::StartNext => error::within("spawn tar -x"@, m),
        _ => m,
    }
}

fn not_copied(f: Fault) -> (e: Error)
    ensures
        e@ == copy_fault(f.step, f.message@),
{
    match f.step {
        Step::Start => f.with("spawn tar -c"),
        Step::Connect => Error::new("tar -c stdout"),
        Step::StartNext => f.with("spawn tar -x"),
        _ => f.plain(),
    }
}

/// Lays a directory over the root, with owners, modes and attributes.
#[verifier::opaque]
pub open spec fn apply_rootfs_does(w: World, src: Seq<char>, dst: Seq<char>) -> (World, Result<
    (),
    Seq<char>,
>) {
    let w1 = w.trace("+ tar -c "@ + src + "/. | tar -x -C "@ + dst);
    (
        w1.after(
            Call::Pipe {
                prog: "tar"@,
                args: seq![
                    "--xattrs"@,
                    "--xattrs-include=*"@,
                    "--acls"@,
                    "-cf"@,
                    "-"@,
                    "-C"@,
                    src,
                    "."@,
                ],
                to_prog: "tar"@,
                to_args: seq![
                    "--xattrs"@,
                    "--xattrs-include=*"@,
                    "--acls"@,
                    "-xf"@,
                    "-"@,
                    "-C"@,
                    dst,
                ],
            },
        ),
        match w1.piped() {
            Err((step, m)) => Err(copy_fault(step, m)),
            Ok((rc, to_rc)) => if rc != 0 {
                Err("tar -c rootfs rc="@ + zfs_ops::rc_text(rc))
            } else if to_rc != 0 {
                Err("tar -x onto BE rc="@ + zfs_ops::rc_text(to_rc))
            } else {
                Ok(())
            },
        },
    )
}

fn apply_rootfs<R: Runner>(r: &mut R, src: &str, dst: &str) -> (res: Result<(), Error>)
    ensures
        sub::did(final(r).world(), res) == apply_rootfs_does(old(r).world(), src@, dst@),
{
    proof {
        reveal(apply_rootfs_does);
    }
    let line: String = text::cat4("+ tar -c ", src, "/. | tar -x -C ", dst);
    r.trace(line.as_str());
    let args = text::argv8(
        "--xattrs",
        "--xattrs-include=*",
        "--acls",
        "-cf",
        "-",
        "-C",
        src,
        ".",
    );
    let to_args = text::argv7("--xattrs", "--xattrs-include=*", "--acls", "-xf", "-", "-C", dst);
    match r.pipe("tar", args.as_slice(), "tar", to_args.as_slice()) {
        Err(f) => Err(not_copied(f)),
        Ok(codes) => if codes.rc != 0 {
            let rc: String = zfs_ops::rc_shown(codes.rc);
            Err(Error::from_text(text::cat2("tar -c rootfs rc=", rc.as_str())))
        } else if codes.to_rc != 0 {
            let rc: String = zfs_ops::rc_shown(codes.to_rc);
            Err(Error::from_text(text::cat2("tar -x onto BE rc=", rc.as_str())))
        } else {
            Ok(())
        },
    }
}

/// Where the script stands in the boot environment while it runs.
pub open spec fn script_in(root: Seq<char>) -> Seq<char> {
    root + "/tmp/zboot-post-install.sh"@
}

/// Runs the script inside the root, and removes it whatever came of it.
#[verifier::opaque]
pub open spec fn run_script_does(w: World, root: Seq<char>) -> (World, Result<(), Seq<char>>) {
    let w1 = w.say("    + chroot "@ + root + " /tmp/zboot-post-install.sh"@);
    let w2 = w1.after(
        Call::Attend { prog: "chroot"@, args: seq![root, "/tmp/zboot-post-install.sh"@] },
    );
    (
        w2.after(Call::RemoveFile { path: script_in(root) }),
        match w1.code() {
            Err(m) => Err(error::within("spawn chroot post-install.sh"@, m)),
            Ok(rc) => if rc == 0 {
                Ok(())
            } else {
                Err("post-install.sh failed rc="@ + zfs_ops::rc_text(rc as int))
            },
        },
    )
}

fn run_script<R: Runner>(r: &mut R, root: &str) -> (res: Result<(), Error>)
    ensures
        sub::did(final(r).world(), res) == run_script_does(old(r).world(), root@),
{
    proof {
        reveal(run_script_does);
    }
    let line: String = text::cat3("    + chroot ", root, " /tmp/zboot-post-install.sh");
    r.say(line.as_str());
    let args = text::argv2(root, "/tmp/zboot-post-install.sh");
    let ran = r.attend("chroot", args.as_slice());
    let path: String = text::cat2(root, "/tmp/zboot-post-install.sh");
    let _ = r.remove_file(path.as_str());
    match ran {
        Err(e) => Err(e.context("spawn chroot post-install.sh")),
        Ok(rc) => if rc == 0 {
            Ok(())
        } else {
            let shown: String = zfs_ops::rc_shown(rc);
            Err(Error::from_text(text::cat2("post-install.sh failed rc=", shown.as_str())))
        },
    }
}

/// Puts the script into the root.
#[verifier::opaque]
pub open spec fn place_script_does(w: World, script: Seq<char>, root: Seq<char>) -> (World, Result<
    (),
    Seq<char>,
>) {
    let path = script_in(root);
    sub::chain(
        sub::explained(
            (w.after(Call::MakeDirs { path: root + "/tmp"@ }), w.unit()),
            "mkdir "@ + root + "/tmp"@,
        ),
        |w1: World|
            sub::chain(
                sub::explained(
                    (w1.after(Call::CopyFile { from: script, to: path }), w1.unit()),
                    "copy post-install.sh → "@ + path,
                ),
                |w2: World|
                    sub::explained(
                        (w2.after(Call::MakeExecutable { path }), w2.unit()),
                        "chmod 755 "@ + path,
                    ),
            ),
    )
}

fn place_script<R: Runner>(r: &mut R, script: &str, root: &str) -> (res: Result<(), Error>)
    ensures
        sub::did(final(r).world(), res) == place_script_does(old(r).world(), script@, root@),
{
    proof {
        reveal(place_script_does);
    }
    let dir: String = text::cat2(root, "/tmp");
    match r.make_dirs(dir.as_str()) {
        Err(e) => {
            let what: String = text::cat3("mkdir ", root, "/tmp");
            return Err(e.context(what.as_str()));
        },
        Ok(()) => {},
    }
    let path: String = text::cat2(root, "/tmp/zboot-post-install.sh");
    match r.copy_file(script, path.as_str()) {
        Err(e) => {
            let what: String = text::cat2("copy post-install.sh → ", path.as_str());
            return Err(e.context(what.as_str()));
        },
        Ok(()) => {},
    }
    match r.make_executable(path.as_str()) {
        Err(e) => {
            let what: String = text::cat2("chmod 755 ", path.as_str());
            Err(e.context(what.as_str()))
        },
        Ok(()) => Ok(()),
    }
}

/// Runs the script inside the root, with the system's file systems bound into
/// it for that while.
#[verifier::opaque]
pub open spec fn post_install_does(w: World, script: Seq<char>, root: Seq<char>) -> (World, Result<
    (),
    Seq<char>,
>) {
    sub::chain(
        place_script_does(w, script, root),
        |w1: World|
            {
                let (w2, n, bound) = mounts::bind_does(w1, root, Style::Told, 0);
                match bound {
                    Err(m) => (mounts::unbind_does(w2, root, n), Err(m)),
                    Ok(()) => {
                        let (w3, ran) = run_script_does(w2, root);
                        (mounts::unbind_does(w3, root, n), ran)
                    },
                }
            },
    )
}

fn run_post_install<R: Runner>(r: &mut R, script: &str, root: &str) -> (res: Result<(), Error>)
    ensures
        sub::did(final(r).world(), res) == post_install_does(old(r).world(), script@, root@),
{
    proof {
        reveal(post_install_does);
    }
    match place_script(r, script, root) {
        Err(e) => return Err(e),
        Ok(()) => {},
    }
    let mut n: usize = 0;
    match mounts::bind(r, root, Style::Told, 0, &mut n) {
        Err(e) => {
            mounts::unbind(r, root, n);
            return Err(e);
        },
        Ok(()) => {},
    }
    let ran = run_script(r, root);
    mounts::unbind(r, root, n);
    ran
}

/// Lays what the archive holds over the mounted boot environment.
#[verifier::opaque]
pub open spec fn lay_over_does(w: World, ds: Seq<char>, found: Found, mp: Seq<char>) -> (
    World,
    Result<(), Seq<char>>,
) {
    let w1 = w.say("→ overlay → "@ + ds + " (mounted at "@ + mp + ")"@);
    sub::chain(
        match found.rootfs {
            Some(src) => apply_rootfs_does(w1.say("  applying rootfs/"@), src, mp),
            None => (w1.say("  no rootfs/ in tar — skipping file layering"@), Ok(())),
        },
        |w2: World|
            sub::chain(
                match found.post_install {
                    Some(s) => post_install_does(
                        w2.say("  running post-install.sh in chroot"@),
                        s,
                        mp,
                    ),
                    None => (w2.say("  no post-install.sh — skipping"@), Ok(())),
                },
                |w3: World| (w3.say("✓ overlay complete on "@ + ds), Ok(())),
            ),
    )
}

fn lay_over<R: Runner>(r: &mut R, ds: &str, layout: &Layout, mp: &str) -> (res: Result<(), Error>)
    ensures
        sub::did(final(r).world(), res) == lay_over_does(
            old(r).world(),
            ds@,
            layout.deep_view(),
            mp@,
        ),
{
    proof {
        reveal(lay_over_does);
    }
    let line: String = text::cat5("→ overlay → ", ds, " (mounted at ", mp, ")");
    r.say(line.as_str());
    match &layout.rootfs {
        Some(src) => {
            r.say("  applying rootfs/");
            match apply_rootfs(r, src.as_str(), mp) {
                Err(e) => return Err(e),
                Ok(()) => {},
            }
        },
        None => {
            r.say("  no rootfs/ in tar — skipping file layering");
        },
    }
    match &layout.post_install {
        Some(s) => {
            r.say("  running post-install.sh in chroot");
            match run_post_install(r, s.as_str(), mp) {
                Err(e) => return Err(e),
                Ok(()) => {},
            }
        },
        None => {
            r.say("  no post-install.sh — skipping");
        },
    }
    let line: String = text::cat2("✓ overlay complete on ", ds);
    r.say(line.as_str());
    Ok(())
}

/// Mounts the boot environment, lays the archive over it, and unmounts it
/// whatever came of that.
#[verifier::opaque]
pub open spec fn visit_does(w: World, ds: Seq<char>, found: Found, mp: Seq<char>) -> (
    World,
    Result<(), Seq<char>>,
) {
    sub::chain(
        sub::explained((w.after(Call::MakeDirs { path: mp }), w.unit()), "mkdir "@ + mp),
        |w1: World|
            sub::chain(
                sub::explained(
                    sub::run_does(
                        w1,
                        "mount"@,
                        seq!["-t"@, "zfs"@, "-o"@, "zfsutil"@, ds, mp],
                    ),
                    "mount "@ + ds + " → "@ + mp,
                ),
                |w2: World|
                    {
                        let (w3, done) = lay_over_does(w2, ds, found, mp);
                        (
                            w3.after(
                                Call::Attend { prog: "umount"@, args: seq!["-l"@, mp] },
                            ).after(Call::RemoveDir { path: mp }),
                            done,
                        )
                    },
            ),
    )
}

fn visit<R: Runner>(r: &mut R, ds: &str, layout: &Layout, mp: &str) -> (res: Result<(), Error>)
    ensures
        sub::did(final(r).world(), res) == visit_does(
            old(r).world(),
            ds@,
            layout.deep_view(),
            mp@,
        ),
{
    proof {
        reveal(visit_does);
    }
    match r.make_dirs(mp) {
        Err(e) => {
            let what: String = text::cat2("mkdir ", mp);
            return Err(e.context(what.as_str()));
        },
        Ok(()) => {},
    }
    let args = text::argv6("-t", "zfs", "-o", "zfsutil", ds, mp);
    match sub::cmd(r, "mount", args.as_slice()) {
        Err(e) => {
            let what: String = text::cat4("mount ", ds, " → ", mp);
            return Err(e.context(what.as_str()));
        },
        Ok(()) => {},
    }
    let done = lay_over(r, ds, layout, mp);
    let args = text::argv2("-l", mp);
    let _ = r.attend("umount", args.as_slice());
    let _ = r.remove_dir(mp);
    done
}

/// Unpacks the archive, and lays it over.
#[verifier::opaque]
pub open spec fn unpack_does(
    w: World,
    tar: Seq<char>,
    ds: Seq<char>,
    staging: Seq<char>,
    mp: Seq<char>,
) -> (World, Result<(), Seq<char>>) {
    sub::chain(
        extract_does(w.say("→ extracting "@ + tar + " → "@ + staging), tar, staging),
        |w1: World|
            {
                let (w2, found) = layout_does(w1, staging);
                match found {
                    Err(m) => (w2, Err(m)),
                    Ok(f) => visit_does(w2, ds, f, mp),
                }
            },
    )
}

fn unpack<R: Runner>(r: &mut R, tar: &str, ds: &str, staging: &str, mp: &str) -> (res: Result<
    (),
    Error,
>)
    ensures
        sub::did(final(r).world(), res) == unpack_does(
            old(r).world(),
            tar@,
            ds@,
            staging@,
            mp@,
        ),
{
    proof {
        reveal(unpack_does);
    }
    let line: String = text::cat4("→ extracting ", tar, " → ", staging);
    r.say(line.as_str());
    match extract_tar(r, tar, staging) {
        Err(e) => return Err(e),
        Ok(()) => {},
    }
    match locate_layout(r, staging) {
        Err(e) => Err(e),
        Ok(layout) => visit(r, ds, &layout, mp),
    }
}

/// Unpacks the archive in a directory of its own, lays it over, and removes
/// that directory whatever came of it.
#[verifier::opaque]
pub open spec fn apply_does(w: World, tar: Seq<char>, ds: Seq<char>) -> (World, Result<
    (),
    Seq<char>,
>) {
    let pid = text::decimal(w.reply().pid as nat);
    let w1 = w.after(Call::Pid);
    let staging = "/tmp/zboot-overlay-staging-"@ + pid;
    sub::chain(
        sub::explained(
            (w1.after(Call::MakeDirs { path: staging }), w1.unit()),
            "mkdir "@ + staging,
        ),
        |w2: World|
            {
                let (w3, done) = unpack_does(
                    w2,
                    tar,
                    ds,
                    staging,
                    "/tmp/zboot-overlay-be-"@ + pid,
                );
                (w3.after(Call::RemoveTree { path: staging }), done)
            },
    )
}

fn apply<R: Runner>(r: &mut R, tar: &str, ds: &str) -> (res: Result<(), Error>)
    ensures
        sub::did(final(r).world(), res) == apply_does(old(r).world(), tar@, ds@),
{
    proof {
        reveal(apply_does);
    }
    let pid: String = text::dec(r.pid() as u128);
    let staging: String = text::cat2("/tmp/zboot-overlay-staging-", pid.as_str());
    match r.make_dirs(staging.as_str()) {
        Err(e) => {
            let what: String = text::cat2("mkdir ", staging.as_str());
            return Err(e.context(what.as_str()));
        },
        Ok(()) => {},
    }
    let mp: String = text::cat2("/tmp/zboot-overlay-be-", pid.as_str());
    let done = unpack(r, tar, ds, staging.as_str(), mp.as_str());
    let _ = r.remove_tree(staging.as_str());
    done
}

/// Takes the snapshot to go back to.
#[verifier::opaque]
pub open spec fn keep_does(w: World, ds: Seq<char>, no_snapshot: bool) -> (World, Result<
    (),
    Seq<char>,
>) {
    if no_snapshot {
        (w, Ok(()))
    } else {
        let snap = ds + "@overlay-pre-"@ + text::decimal(w.reply().nanos as nat);
        sub::explained(
            sub::run_does(
                w.after(Call::Clock).say(
                    "→ snapshot "@ + snap + " (rollback point; --no-snapshot to skip)"@,
                ),
                "zfs"@,
                seq!["snapshot"@, snap],
            ),
            "snapshot "@ + snap,
        )
    }
}

fn keep<R: Runner>(r: &mut R, ds: &str, no_snapshot: bool) -> (res: Result<(), Error>)
    ensures
        sub::did(final(r).world(), res) == keep_does(old(r).world(), ds@, no_snapshot),
{
    proof {
        reveal(keep_does);
    }
    if no_snapshot {
        return Ok(());
    }
    let nanos: String = text::dec(r.clock());
    let snap: String = text::cat3(ds, "@overlay-pre-", nanos.as_str());
    let line: String = text::cat3(
        "→ snapshot ",
        snap.as_str(),
        " (rollback point; --no-snapshot to skip)",
    );
    r.say(line.as_str());
    let args = text::argv2("snapshot", snap.as_str());
    match sub::cmd(r, "zfs", args.as_slice()) {
        Err(e) => {
            let what: String = text::cat2("snapshot ", snap.as_str());
            Err(e.context(what.as_str()))
        },
        Ok(()) => Ok(()),
    }
}

/// What `overlay` does.
pub open spec fn run_does(
    w: World,
    tar: Seq<char>,
    be: Option<Seq<char>>,
    no_snapshot: bool,
) -> (World, Result<(), Seq<char>>) {
    let (w1, target) = target_does(w, be);
    match target {
        Err(m) => (w1, Err(m)),
        Ok(ds) => {
            let (w2, live) = drop::is_live_root_does(w1, ds);
            if live {
                (
                    w2,
                    Err(
                        "overlay: refusing — `"@ + ds
                            + "` is the live `/`. Overlay is for freshly-deployed BEs; run from a rescue medium."@,
                    ),
                )
            } else {
                sub::chain(
                    keep_does(w2, ds, no_snapshot),
                    |w3: World| apply_does(w3, tar, ds),
                )
            }
        },
    }
}

/// `overlay`: an archive of a host's own files goes over a boot environment.
pub fn run<R: Runner>(r: &mut R, args: &OverlayArgs) -> (res: Result<(), Error>)
    ensures
        sub::did(final(r).world(), res) == run_does(
            old(r).world(),
            args.tar@,
            args.be.deep_view(),
            args.no_snapshot,
        ),
{
    let ds: String = match resolve_target(r, &args.be) {
        Err(e) => return Err(e),
        Ok(d) => d,
    };
    if drop::is_live_root(r, ds.as_str()) {
        return Err(
            Error::from_text(
                text::cat3(
                    "overlay: refusing — `",
                    ds.as_str(),
                    "` is the live `/`. Overlay is for freshly-deployed BEs; run from a rescue medium.",
                ),
            ),
        );
    }
    match keep(r, ds.as_str(), args.no_snapshot) {
        Err(e) => return Err(e),
        Ok(()) => {},
    }
    apply(r, args.tar.as_str(), ds.as_str())
}

// ---------------------------------------------------------------------------
// Laws
// ---------------------------------------------------------------------------

proof fn lemma_roots_look(w: World, names: Seq<Seq<char>>)
    ensures
        sub::only_looked(w, root_pools_does(w, names).0),
    decreases names.len(),
{
    if names.len() > 0 {
        lemma_roots_look(w, names.drop_last());
    }
}

proof fn lemma_candidates_look(w: World, pools: Seq<Seq<char>>)
    ensures
        sub::only_looked(w, candidates_does(w, pools).0),
    decreases pools.len(),
{
    if pools.len() > 0 {
        let args = seq![
            "get"@,
            "-Hpr"@,
            "-t"@,
            "filesystem"@,
            "-o"@,
            "name,property,value"@,
            "zboot:be"@,
            pools[0],
        ];
        lemma_candidates_look(sub::capture_does(w, "zfs"@, args).0, pools.drop_first());
    }
}

/// Finding the boot environment changes nothing.
pub proof fn law_finding_looks(w: World, be: Option<Seq<char>>)
    ensures
        sub::only_looked(w, target_does(w, be).0),
{
    reveal(target_does);
    if be is None {
        let (w1, got) = sub::capture_does(w, "zpool"@, seq!["list"@, "-Hp"@, "-o"@, "name"@]);
        match got {
            Ok(t) => {
                let names = pools::full_lines(text::lines_of(t));
                lemma_roots_look(w1, names);
                let (w2, roots) = root_pools_does(w1, names);
                lemma_candidates_look(w2, roots);
            },
            Err(_) => {},
        }
    }
}

/// The running root is refused, and left as it is.
pub proof fn law_live_root_is_refused(
    w: World,
    tar: Seq<char>,
    be: Option<Seq<char>>,
    no_snapshot: bool,
    ds: Seq<char>,
)
    requires
        target_does(w, be).1 == Ok::<Seq<char>, Seq<char>>(ds),
        drop::is_live_root_does(target_does(w, be).0, ds).1,
    ensures
        run_does(w, tar, be, no_snapshot).1 is Err,
        sub::only_looked(w, run_does(w, tar, be, no_snapshot).0),
{
    law_finding_looks(w, be);
    reveal(drop::is_live_root_does);
}

/// Without a snapshot to go back to, unless it was not wanted, nothing is laid
/// over.
pub proof fn law_snapshot_comes_first(
    w: World,
    tar: Seq<char>,
    be: Option<Seq<char>>,
    ds: Seq<char>,
)
    requires
        target_does(w, be).1 == Ok::<Seq<char>, Seq<char>>(ds),
        !drop::is_live_root_does(target_does(w, be).0, ds).1,
        keep_does(drop::is_live_root_does(target_does(w, be).0, ds).0, ds, false).1 is Err,
    ensures
        run_does(w, tar, be, false) == keep_does(
            drop::is_live_root_does(target_does(w, be).0, ds).0,
            ds,
            false,
        ),
{
}

/// The directory that the archive was unpacked in is removed at the end,
/// whatever came of it.
pub proof fn law_staging_is_removed(w: World, tar: Seq<char>, ds: Seq<char>)
    requires
        w.after(Call::Pid).unit() is Ok,
    ensures
        apply_does(w, tar, ds).0.calls.last() == (Call::RemoveTree {
            path: "/tmp/zboot-overlay-staging-"@ + text::decimal(w.reply().pid as nat),
        }),
{
    reveal(apply_does);
}

/// A boot environment that was mounted is unmounted, whatever came of it.
pub proof fn law_unmounted_at_the_end(w: World, ds: Seq<char>, found: Found, mp: Seq<char>)
    requires
        w.unit() is Ok,
        sub::run_does(
            w.after(Call::MakeDirs { path: mp }),
            "mount"@,
            seq!["-t"@, "zfs"@, "-o"@, "zfsutil"@, ds, mp],
        ).1 is Ok,
    ensures
        ({
            let calls = visit_does(w, ds, found, mp).0.calls;
            &&& calls.len() >= 2
            &&& calls[calls.len() - 2] == (Call::Attend {
                prog: "umount"@,
                args: seq!["-l"@, mp],
            })
            &&& calls.last() == Call::RemoveDir { path: mp }
        }),
{
    reveal(visit_does);
}

/// The script does not stay in the boot environment, whatever came of it.
pub proof fn law_script_is_removed(w: World, root: Seq<char>)
    ensures
        run_script_does(w, root).0.calls.last() == (Call::RemoveFile { path: script_in(root) }),
{
    reveal(run_script_does);
}

/// An archive that is accepted holds a root or a script.
pub proof fn law_layout_holds_something(w: World, staging: Seq<char>)
    ensures
        layout_does(w, staging).1 matches Ok(f) ==> f.rootfs is Some || f.post_install is Some,
        sub::only_looked(w, layout_does(w, staging).0),
{
    reveal(layout_does);
}

/// Every line marked as a boot environment gives one.
pub proof fn law_every_marked_be(ls: Seq<Seq<char>>)
    ensures
        forall|x: Seq<char>| #[trigger] marked(ls).contains(x) <==> exists|i: int| 0 <= i < ls.len() && x == zfs_ops::tab_column((#[trigger] ls[i]), 0, ""@) && text::trimmed(zfs_ops::tab_column((#[trigger] ls[i]), 2, ""@)) == "true"@,
    decreases ls.len(),
{
    if ls.len() > 0 {
        let front = ls.drop_last();
        law_every_marked_be(front);
        let before = marked(front);
        let all = marked(ls);
        assert forall|x: Seq<char>| #[trigger] all.contains(x) <==> exists|i: int| 0 <= i < ls.len() && x == zfs_ops::tab_column((#[trigger] ls[i]), 0, ""@) && text::trimmed(zfs_ops::tab_column((#[trigger] ls[i]), 2, ""@)) == "true"@ by {
            if all.contains(x) {
                let k = choose|k: int| 0 <= k < all.len() && all[k] == x;
                if k < before.len() {
                    assert(before[k] == x);
                    assert(before.contains(x));
                    let i = choose|i: int| 0 <= i < front.len() && x == zfs_ops::tab_column((#[trigger] front[i]), 0, ""@) && text::trimmed(zfs_ops::tab_column((#[trigger] front[i]), 2, ""@)) == "true"@;
                    assert(ls[i] == front[i]);
                } else {
                    assert(x == zfs_ops::tab_column(ls[ls.len() - 1], 0, ""@) && text::trimmed(zfs_ops::tab_column(ls[ls.len() - 1], 2, ""@)) == "true"@);
                }
            }
            if exists|i: int| 0 <= i < ls.len() && x == zfs_ops::tab_column((#[trigger] ls[i]), 0, ""@) && text::trimmed(zfs_ops::tab_column((#[trigger] ls[i]), 2, ""@)) == "true"@ {
                let i = choose|i: int| 0 <= i < ls.len() && x == zfs_ops::tab_column((#[trigger] ls[i]), 0, ""@) && text::trimmed(zfs_ops::tab_column((#[trigger] ls[i]), 2, ""@)) == "true"@;
                if i < front.len() {
                    assert(front[i] == ls[i]);
                    assert(before.contains(x));
                    let k = choose|k: int| 0 <= k < before.len() && before[k] == x;
                    assert(all[k] == x);
                } else {
                    assert(ls[i] == ls.last());
                    assert(all[all.len() - 1] == x);
                }
            }
        }
    }
}

/// The call that lays one tree over another.
pub open spec fn layering(src: Seq<char>, dst: Seq<char>) -> Call {
    let kept = seq!["--xattrs"@, "--xattrs-include=*"@, "--acls"@];
    Call::Pipe {
        prog: "tar"@,
        args: kept + seq!["-cf"@, "-"@, "-C"@, src, "."@],
        to_prog: "tar"@,
        to_args: kept + seq!["-xf"@, "-"@, "-C"@, dst],
    }
}

/// The call that unpacks an archive.
pub open spec fn unpacking(path: Seq<char>, dest: Seq<char>) -> Call {
    let kept = seq!["--xattrs"@, "--xattrs-include=*"@, "--acls"@];
    if paths::zstd_name(path) {
        Call::Pipe {
            prog: "zstd"@,
            args: seq!["-dc"@, path],
            to_prog: "tar"@,
            to_args: kept + seq!["-xf"@, "-"@, "-C"@, dest],
        }
    } else {
        Call::Run { prog: "tar"@, args: kept + seq!["-xf"@, path, "-C"@, dest] }
    }
}

/// The call that runs the script within another root.
pub open spec fn scripting(root: Seq<char>) -> Call {
    Call::Attend { prog: "chroot"@, args: seq![root, "/tmp/zboot-post-install.sh"@] }
}

/// What an overlay holds has reached the environment mounted at `mp`: its files
/// are laid over, and its script was copied in and run there.
pub open spec fn laid_over(a: World, b: World, found: Found, mp: Seq<char>) -> bool {
    &&& found.rootfs matches Some(src) ==> effects::came_off(a, b, layering(src, mp))
    &&& found.post_install matches Some(s) ==> {
        &&& effects::came_off(
            a,
            b,
            Call::CopyFile { from: s, to: mp + "/tmp/zboot-post-install.sh"@ },
        )
        &&& effects::came_off(a, b, scripting(mp))
    }
}

proof fn lemma_laid_within(a: World, b: World, c: World, d: World, found: Found, mp: Seq<char>)
    requires
        sub::continues(a, b),
        laid_over(b, c, found, mp),
        sub::continues(c, d),
    ensures
        laid_over(a, d, found, mp),
{
    if let Some(src) = found.rootfs {
        effects::lemma_came_within(a, b, c, d, layering(src, mp));
    }
    if let Some(s) = found.post_install {
        let copy = Call::CopyFile { from: s, to: mp + "/tmp/zboot-post-install.sh"@ };
        effects::lemma_came_within(a, b, c, d, copy);
        effects::lemma_came_within(a, b, c, d, scripting(mp));
    }
}

proof fn lemma_extracted(w: World, path: Seq<char>, dest: Seq<char>)
    ensures
        ({
            let (end, res) = extract_does(w, path, dest);
            &&& sub::continues(w, end)
            &&& res is Ok ==> effects::came_off(w, end, unpacking(path, dest))
        }),
{
    reveal(extract_does);
    let (end, res) = extract_does(w, path, dest);
    let w1 = w.trace("+ tar -xf "@ + path + " -C "@ + dest);
    let c = unpacking(path, dest);
    assert(sub::continues(w, w1));
    assert(sub::continues(end, end));
    if paths::zstd_name(path) {
        let to_args = seq![
            "--xattrs"@,
            "--xattrs-include=*"@,
            "--acls"@,
            "-xf"@,
            "-"@,
            "-C"@,
            dest,
        ];
        assert(c->Pipe_to_args =~= to_args);
        assert(end == w1.after(c));
        assert(sub::continues(w1, end));
        if res is Ok {
            effects::lemma_came_now(w1, c);
        }
    } else {
        let args = seq![
            "--xattrs"@,
            "--xattrs-include=*"@,
            "--acls"@,
            "-xf"@,
            path,
            "-C"@,
            dest,
        ];
        assert(c->Run_args =~= args);
        effects::lemma_run_came_off(w1, "tar"@, args);
    }
    effects::lemma_continues(w, w1, end);
    if res is Ok {
        effects::lemma_came_within(w, w1, end, end, c);
    }
}

proof fn lemma_layered(w: World, src: Seq<char>, dst: Seq<char>)
    ensures
        ({
            let (end, res) = apply_rootfs_does(w, src, dst);
            &&& sub::continues(w, end)
            &&& res is Ok ==> effects::came_off(w, end, layering(src, dst))
        }),
{
    reveal(apply_rootfs_does);
    let (end, res) = apply_rootfs_does(w, src, dst);
    let w1 = w.trace("+ tar -c "@ + src + "/. | tar -x -C "@ + dst);
    let c = layering(src, dst);
    let args = seq!["--xattrs"@, "--xattrs-include=*"@, "--acls"@, "-cf"@, "-"@, "-C"@, src, "."@];
    let to_args = seq!["--xattrs"@, "--xattrs-include=*"@, "--acls"@, "-xf"@, "-"@, "-C"@, dst];
    assert(c->Pipe_args =~= args);
    assert(c->Pipe_to_args =~= to_args);
    assert(end == w1.after(c));
    assert(sub::continues(w, w1));
    assert(sub::continues(w1, end));
    assert(sub::continues(end, end));
    effects::lemma_continues(w, w1, end);
    if res is Ok {
        effects::lemma_came_now(w1, c);
        effects::lemma_came_within(w, w1, end, end, c);
    }
}

proof fn lemma_placed(w: World, script: Seq<char>, root: Seq<char>)
    ensures
        ({
            let (end, res) = place_script_does(w, script, root);
            &&& sub::continues(w, end)
            &&& res is Ok ==> effects::came_off(
                w,
                end,
                Call::CopyFile { from: script, to: script_in(root) },
            )
        }),
{
    reveal(place_script_does);
    let (end, res) = place_script_does(w, script, root);
    let n = w.calls.len() as int;
    assert(sub::continues(w, end));
    if res is Ok {
        assert(end.calls[n + 1] == Call::CopyFile { from: script, to: script_in(root) });
        assert(effects::went_well(end, n + 1));
    }
}

proof fn lemma_scripted(w: World, script: Seq<char>, root: Seq<char>)
    ensures
        ({
            let (end, res) = post_install_does(w, script, root);
            &&& sub::continues(w, end)
            &&& res is Ok ==> effects::came_off(
                w,
                end,
                Call::CopyFile { from: script, to: script_in(root) },
            ) && effects::came_off(w, end, scripting(root))
        }),
{
    reveal(post_install_does);
    reveal(run_script_does);
    lemma_placed(w, script, root);
    let (end, res) = post_install_does(w, script, root);
    let (w1, placed) = place_script_does(w, script, root);
    if placed is Ok {
        mounts::law_all_are_bound(w1, root, Style::Told, 0);
        let (w2, n, bound) = mounts::bind_does(w1, root, Style::Told, 0);
        effects::lemma_continues(w, w1, w2);
        if bound is Err {
            mounts::law_unbind_undoes_bind(w2, root, n);
            effects::lemma_continues(w, w2, end);
        } else {
            let (w3, ran) = run_script_does(w2, root);
            let m = w2.calls.len() as int;
            mounts::law_unbind_undoes_bind(w3, root, n);
            assert(sub::continues(w2, w3));
            effects::lemma_continues(w, w2, w3);
            effects::lemma_continues(w, w3, end);
            effects::lemma_continues(w2, w3, end);
            effects::lemma_continues(w1, w2, end);
            assert(sub::continues(w, w));
            assert(sub::continues(w3, w3));
            if res is Ok {
                let copy = Call::CopyFile { from: script, to: script_in(root) };
                effects::lemma_came_within(w, w, w1, end, copy);
                assert(w3.calls[m + 1] == scripting(root));
                assert(effects::went_well(w3, m + 1));
                assert(effects::came_off(w2, w3, scripting(root)));
                effects::lemma_came_within(w, w2, w3, end, scripting(root));
            }
        }
    }
}

proof fn lemma_laid(w: World, ds: Seq<char>, found: Found, mp: Seq<char>)
    ensures
        ({
            let (end, res) = lay_over_does(w, ds, found, mp);
            &&& sub::continues(w, end)
            &&& res is Ok ==> laid_over(w, end, found, mp)
        }),
{
    reveal(lay_over_does);
    let (end, res) = lay_over_does(w, ds, found, mp);
    let w1 = w.say("→ overlay → "@ + ds + " (mounted at "@ + mp + ")"@);
    let w1b = w1.say("  applying rootfs/"@);
    let (w2, layered) = match found.rootfs {
        Some(src) => apply_rootfs_does(w1b, src, mp),
        None => (w1.say("  no rootfs/ in tar — skipping file layering"@), Ok(())),
    };
    assert(sub::continues(w, w1));
    assert(sub::continues(w, w1b));
    assert(sub::continues(w, w));
    if let Some(src) = found.rootfs {
        lemma_layered(w1b, src, mp);
        effects::lemma_continues(w, w1b, w2);
    }
    assert(sub::continues(w, w2));
    if layered is Ok {
        let w2b = w2.say("  running post-install.sh in chroot"@);
        let (w3, scripted) = match found.post_install {
            Some(s) => post_install_does(w2b, s, mp),
            None => (w2.say("  no post-install.sh — skipping"@), Ok(())),
        };
        assert(sub::continues(w2, w2b));
        effects::lemma_continues(w, w2, w2b);
        if let Some(s) = found.post_install {
            lemma_scripted(w2b, s, mp);
            effects::lemma_continues(w2, w2b, w3);
        }
        assert(sub::continues(w2, w3));
        effects::lemma_continues(w, w2, w3);
        assert(sub::continues(w3, end));
        effects::lemma_continues(w, w3, end);
        effects::lemma_continues(w2, w3, end);
        if res is Ok {
            if let Some(src) = found.rootfs {
                effects::lemma_came_within(w, w1b, w2, end, layering(src, mp));
            }
            if let Some(s) = found.post_install {
                let copy = Call::CopyFile { from: s, to: mp + "/tmp/zboot-post-install.sh"@ };
                effects::lemma_came_within(w, w2b, w3, end, copy);
                effects::lemma_came_within(w, w2b, w3, end, scripting(mp));
            }
        }
    }
}

/// The call that mounts an environment.
pub open spec fn mounting(ds: Seq<char>, mp: Seq<char>) -> Call {
    Call::Run { prog: "mount"@, args: seq!["-t"@, "zfs"@, "-o"@, "zfsutil"@, ds, mp] }
}

proof fn lemma_visited(w: World, ds: Seq<char>, found: Found, mp: Seq<char>)
    ensures
        ({
            let (end, res) = visit_does(w, ds, found, mp);
            &&& sub::continues(w, end)
            &&& res is Ok ==> effects::came_off(w, end, mounting(ds, mp)) && laid_over(
                w,
                end,
                found,
                mp,
            )
        }),
{
    reveal(visit_does);
    let (end, res) = visit_does(w, ds, found, mp);
    let w1 = w.after(Call::MakeDirs { path: mp });
    assert(sub::continues(w, w1));
    if w.unit() is Ok {
        let args = seq!["-t"@, "zfs"@, "-o"@, "zfsutil"@, ds, mp];
        effects::lemma_run_came_off(w1, "mount"@, args);
        let (w2, mounted) = sub::run_does(w1, "mount"@, args);
        effects::lemma_continues(w, w1, w2);
        if mounted is Ok {
            lemma_laid(w2, ds, found, mp);
            let (w3, done) = lay_over_does(w2, ds, found, mp);
            assert(sub::continues(w3, end));
            effects::lemma_continues(w2, w3, end);
            effects::lemma_continues(w, w2, end);
            if res is Ok {
                effects::lemma_came_within(w, w1, w2, end, mounting(ds, mp));
                lemma_laid_within(w, w2, w3, end, found, mp);
            }
        }
    }
}

proof fn lemma_layout_looks(w: World, staging: Seq<char>)
    ensures
        sub::continues(w, layout_does(w, staging).0),
{
    reveal(layout_does);
}

/// An overlay that was found in a tree is laid over whole, in the environment
/// asked for.
pub open spec fn reached(
    a: World,
    b: World,
    ds: Seq<char>,
    staging: Seq<char>,
    mp: Seq<char>,
    w: World,
) -> bool {
    &&& layout_does(w, staging).1 matches Ok(found) && laid_over(a, b, found, mp)
    &&& effects::came_off(a, b, mounting(ds, mp))
}

/// An overlay that succeeds has unpacked the archive, mounted the environment
/// that was asked for, laid the files over and run the script that were found.
pub proof fn law_overlay_reaches_the_environment(w: World, tar: Seq<char>, ds: Seq<char>)
    requires
        apply_does(w, tar, ds).1 is Ok,
    ensures
        ({
            let end = apply_does(w, tar, ds).0;
            let pid = text::decimal(w.reply().pid as nat);
            let staging = "/tmp/zboot-overlay-staging-"@ + pid;
            let mp = "/tmp/zboot-overlay-be-"@ + pid;
            &&& effects::came_off(w, end, unpacking(tar, staging))
            &&& exists|at: World|
                sub::continues(w, at) && sub::continues(at, end) && #[trigger] reached(
                    w,
                    end,
                    ds,
                    staging,
                    mp,
                    at,
                )
        }),
{
    reveal(apply_does);
    reveal(unpack_does);
    let end = apply_does(w, tar, ds).0;
    let pid = text::decimal(w.reply().pid as nat);
    let staging = "/tmp/zboot-overlay-staging-"@ + pid;
    let mp = "/tmp/zboot-overlay-be-"@ + pid;
    let w1 = w.after(Call::Pid);
    let w2 = w1.after(Call::MakeDirs { path: staging });
    let w3 = w2.say("→ extracting "@ + tar + " → "@ + staging);
    assert(sub::continues(w, w3));
    lemma_extracted(w3, tar, staging);
    let at = extract_does(w3, tar, staging).0;
    effects::lemma_continues(w, w3, at);
    lemma_layout_looks(at, staging);
    let (w4, found) = layout_does(at, staging);
    effects::lemma_continues(w, at, w4);
    let f = found->Ok_0;
    lemma_visited(w4, ds, f, mp);
    let w5 = visit_does(w4, ds, f, mp).0;
    assert(sub::continues(w5, end));
    effects::lemma_continues(w4, w5, end);
    effects::lemma_continues(at, w4, end);
    effects::lemma_came_within(w, w3, at, end, unpacking(tar, staging));
    effects::lemma_came_within(w, w4, w5, end, mounting(ds, mp));
    lemma_laid_within(w, w4, w5, end, f, mp);
    assert(reached(w, end, ds, staging, mp, at));
}

/// The files of an overlay are the directory `rootfs` of its tree, and its script
/// is the file `post-install.sh` beside it.
pub proof fn law_flat_layout(w: World, staging: Seq<char>)
    ensures
        ({
            let (end, found) = layout_does(w, staging);
            let n = w.calls.len();
            &&& end.calls[n as int] == (Call::IsDir { path: paths::under(staging, "rootfs"@) })
            &&& w.reply().yes ==> found == Ok::<Found, Seq<char>>(
                Found {
                    rootfs: Some(paths::under(staging, "rootfs"@)),
                    post_install: if (w.replies)(n + 1).yes {
                        Some(paths::under(staging, "post-install.sh"@))
                    } else {
                        None
                    },
                },
            ) && end.calls[n as int + 1] == (Call::IsFile {
                path: paths::under(staging, "post-install.sh"@),
            })
        }),
{
    reveal(layout_does);
}

/// The snapshot to go back to is taken, unless it is declined.
pub proof fn law_way_back_is_kept(w: World, ds: Seq<char>)
    requires
        keep_does(w, ds, false).1 is Ok,
    ensures
        effects::ran(
            w,
            keep_does(w, ds, false).0,
            "zfs"@,
            seq!["snapshot"@, ds + "@overlay-pre-"@ + text::decimal(w.reply().nanos as nat)],
        ),
{
    reveal(keep_does);
    let snap = ds + "@overlay-pre-"@ + text::decimal(w.reply().nanos as nat);
    let args = seq!["snapshot"@, snap];
    let w1 = w.after(Call::Clock).say(
        "→ snapshot "@ + snap + " (rollback point; --no-snapshot to skip)"@,
    );
    effects::lemma_run_ran(w1, "zfs"@, args);
    let end = keep_does(w, ds, false).0;
    assert(sub::continues(w, w1));
    assert(sub::continues(end, end));
    effects::lemma_ran_within(w, w1, end, end, "zfs"@, args);
}

/// An overlay that was asked for and succeeds reaches the environment meant, with
/// a way back unless that was declined.
pub proof fn law_overlay_reaches_what_is_meant(
    w: World,
    tar: Seq<char>,
    be: Option<Seq<char>>,
    no_snapshot: bool,
)
    requires
        run_does(w, tar, be, no_snapshot).1 is Ok,
    ensures
        ({
            let end = run_does(w, tar, be, no_snapshot).0;
            target_does(w, be).1 matches Ok(ds) && (be matches Some(b) ==> ds == b) && exists|
                pid: Seq<char>,
            |
                effects::came_off(
                    w,
                    end,
                    #[trigger] unpacking(tar, "/tmp/zboot-overlay-staging-"@ + pid),
                ) && effects::came_off(
                    w,
                    end,
                    mounting(ds, "/tmp/zboot-overlay-be-"@ + pid),
                )
        }),
{
    reveal(target_does);
    reveal(drop::is_live_root_does);
    law_finding_looks(w, be);
    let end = run_does(w, tar, be, no_snapshot).0;
    let (w1, target) = target_does(w, be);
    let ds = target->Ok_0;
    let w2 = drop::is_live_root_does(w1, ds).0;
    assert(sub::continues(w1, w2));
    effects::lemma_continues(w, w1, w2);
    let w3 = keep_does(w2, ds, no_snapshot).0;
    assert(sub::continues(w2, w3)) by {
        reveal(keep_does);
    }
    effects::lemma_continues(w, w2, w3);
    law_overlay_reaches_the_environment(w3, tar, ds);
    let pid = text::decimal(w3.reply().pid as nat);
    let staging = "/tmp/zboot-overlay-staging-"@ + pid;
    let mp = "/tmp/zboot-overlay-be-"@ + pid;
    assert(sub::continues(end, end));
    effects::lemma_came_within(w, w3, end, end, unpacking(tar, staging));
    effects::lemma_came_within(w, w3, end, end, mounting(ds, mp));
}

/// Every pool whose role is that of a root pool is looked through, and no other.
pub proof fn law_root_pools_are_asked(w: World, names: Seq<Seq<char>>)
    ensures
        ({
            let (end, roots) = root_pools_does(w, names);
            let n = w.calls.len() as int;
            &&& end.calls.len() == n + names.len()
            &&& end.replies == w.replies
            &&& forall|i: int|
                0 <= i < names.len() ==> end.calls[n + i] == role_call(#[trigger] names[i])
            &&& forall|i: int|
                0 <= i < names.len() && effects::read_as(w, n + i, "root"@) ==> roots.contains(
                    #[trigger] names[i],
                )
            &&& forall|k: int|
                0 <= k < roots.len() ==> exists|i: int|
                    0 <= i < names.len() && effects::read_as(w, n + i, "root"@)
                        && #[trigger] names[i] == #[trigger] roots[k]
        }),
    decreases names.len(),
{
    if names.len() > 0 {
        let front = names.drop_last();
        law_root_pools_are_asked(w, front);
        let (w1, found) = root_pools_does(w, front);
        let (end, roots) = root_pools_does(w, names);
        let n = w.calls.len() as int;
        let m = n + front.len();
        assert(w1.calls.len() == m);
        assert(end.calls[m] == role_call(names.last()));
        assert forall|i: int| 0 <= i < names.len() implies end.calls[n + i] == role_call(
            #[trigger] names[i],
        ) by {
            if i < front.len() {
                assert(front[i] == names[i]);
                assert(w1.calls[n + i] == role_call(front[i]));
            }
        }
        assert forall|i: int|
            0 <= i < names.len() && effects::read_as(w, n + i, "root"@) implies roots.contains(
            #[trigger] names[i],
        ) by {
            if i < front.len() {
                assert(front[i] == names[i]);
                let k = choose|k: int| 0 <= k < found.len() && found[k] == names[i];
                assert(roots[k] == names[i]);
            } else {
                assert(roots[roots.len() - 1] == names[i]);
            }
        }
        assert forall|k: int| 0 <= k < roots.len() implies exists|i: int|
            0 <= i < names.len() && effects::read_as(w, n + i, "root"@) && #[trigger] names[i]
                == #[trigger] roots[k] by {
            if k < found.len() {
                assert(roots[k] == found[k]);
                let i = choose|i: int|
                    0 <= i < front.len() && effects::read_as(w, n + i, "root"@)
                        && #[trigger] front[i] == found[k];
                assert(names[i] == front[i]);
            } else {
                assert(names[names.len() - 1] == roots[k]);
            }
        }
    }
}

/// The call that reads the role of a pool.
pub open spec fn role_call(pool: Seq<char>) -> Call {
    Call::Run {
        prog: "zpool"@,
        args: seq!["get"@, "-Hp"@, "-o"@, "value"@, "zboot:role"@, pool],
    }
}

/// The call that reads the marks below a pool.
pub open spec fn marks_call(pool: Seq<char>) -> Call {
    Call::Run {
        prog: "zfs"@,
        args: seq![
            "get"@,
            "-Hpr"@,
            "-t"@,
            "filesystem"@,
            "-o"@,
            "name,property,value"@,
            "zboot:be"@,
            pool,
        ],
    }
}

/// Every environment marked on any of the pools is a candidate.
pub proof fn law_every_marked_be_is_a_candidate(w: World, pools: Seq<Seq<char>>)
    requires
        candidates_does(w, pools).1 is Ok,
    ensures
        ({
            let (end, res) = candidates_does(w, pools);
            let n = w.calls.len() as int;
            &&& end.calls.len() == n + pools.len()
            &&& sub::continues(w, end)
            &&& forall|i: int|
                0 <= i < pools.len() ==> end.calls[n + i] == marks_call(#[trigger] pools[i])
                    && effects::succeeded(w, n + i) && all_among(
                    marked(text::lines_of((w.replies)((n + i) as nat).stdout)),
                    res->Ok_0,
                )
        }),
    decreases pools.len(),
{
    assert(sub::continues(w, w));
    if pools.len() > 0 {
        let (end, res) = candidates_does(w, pools);
        let n = w.calls.len() as int;
        let rest = pools.drop_first();
        let w1 = w.run("zfs"@, marks_call(pools[0])->Run_args);
        law_every_marked_be_is_a_candidate(w1, rest);
        let more = candidates_does(w1, rest).1->Ok_0;
        let mine = marked(text::lines_of(w.reply().stdout));
        assert(res->Ok_0 == mine + more);
        assert(w1.calls[n] == marks_call(pools[0]));
        assert(end.calls[n] == w1.calls[n]);
        effects::lemma_continues(w, w1, end);
        assert forall|i: int| 0 <= i < pools.len() implies end.calls[n + i] == marks_call(
            #[trigger] pools[i],
        ) && effects::succeeded(w, n + i) && all_among(
            marked(text::lines_of((w.replies)((n + i) as nat).stdout)),
            res->Ok_0,
        ) by {
            let some = marked(text::lines_of((w.replies)((n + i) as nat).stdout));
            if i == 0 {
                assert forall|k: int| 0 <= k < some.len() implies res->Ok_0.contains(
                    #[trigger] some[k],
                ) by {
                    assert(res->Ok_0[k] == some[k]);
                }
            } else {
                assert(rest[i - 1] == pools[i]);
                assert(end.calls[n + 1 + (i - 1)] == marks_call(rest[i - 1]));
                assert(all_among(some, more));
                assert forall|k: int| 0 <= k < some.len() implies res->Ok_0.contains(
                    #[trigger] some[k],
                ) by {
                    assert(more.contains(some[k]));
                    let j = choose|j: int| 0 <= j < more.len() && more[j] == some[k];
                    assert(res->Ok_0[mine.len() + j] == some[k]);
                }
            }
        }
    }
}

/// Each of the first is one of the second.
pub open spec fn all_among(xs: Seq<Seq<char>>, ys: Seq<Seq<char>>) -> bool {
    forall|k: int| 0 <= k < xs.len() ==> ys.contains(#[trigger] xs[k])
}

} // verus!
