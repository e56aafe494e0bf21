//! The contents of a new boot environment: unpacked or installed, given the
//! host's identity, and opened to the operator.

use vstd::prelude::*;
use vstd::string::*;

use crate::cmd::deploy;
use crate::cmd::deploy::source;
use crate::cmd::deploy::source::{Origin, Source};
use crate::effects;
use crate::error;
use crate::error::Error;
use crate::mounts;
use crate::mounts::Style;
use crate::paths;
use crate::sub;
use crate::sub::{Call, Fault, Runner, Step, World};
use crate::text;
use crate::zfs_ops;

verus! {

// ---------------------------------------------------------------------------
// An archive
// ---------------------------------------------------------------------------

/// The error for a step of unpacking through `zstd` that failed.
pub open spec fn unpack_fault(step: Step, m: Seq<char>) -> Seq<char> {
    match step {
        Step::Start => error::within("spawn zstd"@, m),
        Step::Connect => "zstd stdout missing"@,
        Step::StartNext => error::within("spawn tar"@, m),
        Step::WaitNext => error::within("wait tar"@, m),
        Step::Wait => error::within("wait zstd"@, m),
        Step::Write => m,
    }
}

fn not_unpacked(f: Fault) -> (e: Error)
    ensures
        e@ == unpack_fault(f.step, f.message@),
{
    match f.step {
        Step::Start => f.with("spawn zstd"),
        Step::Connect => Error::new("zstd stdout missing"),
        Step::StartNext => f.with("spawn tar"),
        Step::WaitNext => f.with("wait tar"),
        Step::Wait => f.with("wait zstd"),
        Step::Write => f.plain(),
    }
}

/// Unpacks an archive, through `zstd` where its name says so.
#[verifier::opaque]
pub open spec fn from_tar_does(w: World, path: Seq<char>, root: Seq<char>) -> (World, Result<
    (),
    Seq<char>,
>) {
    let w1 = w.say("    tar source: "@ + path + " → "@ + root);
    if paths::zstd_name(path) {
        (
            w1.after(
                Call::Pipe {
                    prog: "zstd"@,
                    args: seq!["-dc"@, path],
                    to_prog: "tar"@,
                    to_args: seq!["-xf"@, "-"@, "-C"@, root],
                },
            ),
            match w1.piped() {
                Err((step, m)) => Err(unpack_fault(step, m)),
                Ok((rc, to_rc)) => if rc != 0 {
                    Err("zstd -dc "@ + path + " rc="@ + zfs_ops::rc_text(rc))
                } else if to_rc != 0 {
                    Err("tar -xf - -C "@ + root + " rc="@ + zfs_ops::rc_text(to_rc))
                } else {
                    Ok(())
                },
            },
        )
    } else {
        deploy::spawn_does(w1, "tar"@, seq!["-xf"@, path, "-C"@, root])
    }
}

fn populate_from_tar<R: Runner>(r: &mut R, path: &str, be_root: &str) -> (res: Result<(), Error>)
    ensures
        sub::did(final(r).world(), res) == from_tar_does(old(r).world(), path@, be_root@),
{
    proof {
        reveal(from_tar_does);
    }
    let line: String = text::cat4("    tar source: ", path, " → ", be_root);
    r.say(line.as_str());
    if !paths::is_zstd(path) {
        let args = text::argv4("-xf", path, "-C", be_root);
        return deploy::spawn(r, "tar", args.as_slice());
    }
    let args = text::argv2("-dc", path);
    let to_args = text::argv4("-xf", "-", "-C", be_root);
    match r.pipe("zstd", args.as_slice(), "tar", to_args.as_slice()) {
        Err(f) => Err(not_unpacked(f)),
        Ok(codes) => if codes.rc != 0 {
            let rc: String = zfs_ops::rc_shown(codes.rc);
            Err(Error::from_text(text::cat4("zstd -dc ", path, " rc=", rc.as_str())))
        } else if codes.to_rc != 0 {
            let rc: String = zfs_ops::rc_shown(codes.to_rc);
            Err(Error::from_text(text::cat4("tar -xf - -C ", be_root, " rc=", rc.as_str())))
        } else {
            Ok(())
        },
    }
}

// ---------------------------------------------------------------------------
// A Debian suite
// ---------------------------------------------------------------------------

/// Puts `update-initramfs` aside, so that no package runs it half way.
#[verifier::opaque]
pub open spec fn divert_does(w: World, root: Seq<char>) -> (World, Result<(), Seq<char>>) {
    sub::chain(
        deploy::spawn_does(
            w.say("    [phase 4] divert update-initramfs"@),
            "chroot"@,
            seq![
                root,
                "dpkg-divert"@,
                "--local"@,
                "--rename"@,
                "--add"@,
                "/usr/sbin/update-initramfs"@,
            ],
        ),
        |w1: World|
            sub::explained(
                (
                    w1.after(
                        Call::CopyFile {
                            from: root + "/bin/true"@,
                            to: root + "/usr/sbin/update-initramfs"@,
                        },
                    ),
                    w1.unit(),
                ),
                "stub update-initramfs with /bin/true"@,
            ),
    )
}

fn divert<R: Runner>(r: &mut R, root: &str) -> (res: Result<(), Error>)
    ensures
        sub::did(final(r).world(), res) == divert_does(old(r).world(), root@),
{
    proof {
        reveal(divert_does);
    }
    r.say("    [phase 4] divert update-initramfs");
    let args = text::argv6(
        root,
        "dpkg-divert",
        "--local",
        "--rename",
        "--add",
        "/usr/sbin/update-initramfs",
    );
    match deploy::spawn(r, "chroot", args.as_slice()) {
        Err(e) => return Err(e),
        Ok(()) => {},
    }
    let from: String = text::cat2(root, "/bin/true");
    let to: String = text::cat2(root, "/usr/sbin/update-initramfs");
    match r.copy_file(from.as_str(), to.as_str()) {
        Err(e) => Err(e.context("stub update-initramfs with /bin/true")),
        Ok(()) => Ok(()),
    }
}

/// Installs the kernel and ZFS.
#[verifier::opaque]
pub open spec fn packages_does(w: World, root: Seq<char>) -> (World, Result<(), Seq<char>>) {
    sub::chain(
        deploy::spawn_does(
            w.say("    [phase 5] apt install kernel + zfs (DKMS builds zfs.ko)"@),
            "chroot"@,
            seq![root, "apt-get"@, "update"@, "-y"@],
        ),
        |w1: World|
            deploy::spawn_does(
                w1,
                "chroot"@,
                seq![
                    root,
                    "env"@,
                    "DEBIAN_FRONTEND=noninteractive"@,
                    "apt-get"@,
                    "install"@,
                    "-y"@,
                    "--no-install-recommends"@,
                ] + source::packages(),
            ),
    )
}

fn install_packages<R: Runner>(r: &mut R, root: &str) -> (res: Result<(), Error>)
    ensures
        sub::did(final(r).world(), res) == packages_does(old(r).world(), root@),
{
    proof {
        reveal(packages_does);
    }
    r.say("    [phase 5] apt install kernel + zfs (DKMS builds zfs.ko)");
    let args = text::argv4(root, "apt-get", "update", "-y");
    match deploy::spawn(r, "chroot", args.as_slice()) {
        Err(e) => return Err(e),
        Ok(()) => {},
    }
    let mut args = text::argv7(
        root,
        "env",
        "DEBIAN_FRONTEND=noninteractive",
        "apt-get",
        "install",
        "-y",
        "--no-install-recommends",
    );
    let ghost head = args.deep_view();
    let mut packages = source::package_list();
    let ghost tail = packages.deep_view();
    let ghost (head_strs, tail_strs) = (args@, packages@);
    args.append(&mut packages);
    proof {
        assert(args@ =~= head_strs + tail_strs);
        assert(args.deep_view() =~= head + tail);
    }
    deploy::spawn(r, "chroot", args.as_slice())
}

/// Puts `update-initramfs` back, and runs it once.
#[verifier::opaque]
pub open spec fn restore_does(w: World, root: Seq<char>) -> (World, Result<(), Seq<char>>) {
    let w1 = w.say("    [phase 6] restore + run update-initramfs"@);
    sub::chain(
        sub::explained(
            (
                w1.after(Call::RemoveFile { path: root + "/usr/sbin/update-initramfs"@ }),
                w1.unit(),
            ),
            "remove stub update-initramfs"@,
        ),
        |w2: World|
            sub::chain(
                deploy::spawn_does(
                    w2,
                    "chroot"@,
                    seq![
                        root,
                        "dpkg-divert"@,
                        "--local"@,
                        "--rename"@,
                        "--remove"@,
                        "/usr/sbin/update-initramfs"@,
                    ],
                ),
                |w3: World|
                    deploy::spawn_does(
                        w3,
                        "chroot"@,
                        seq![root, "update-initramfs"@, "-c"@, "-k"@, "all"@],
                    ),
            ),
    )
}

fn restore<R: Runner>(r: &mut R, root: &str) -> (res: Result<(), Error>)
    ensures
        sub::did(final(r).world(), res) == restore_does(old(r).world(), root@),
{
    proof {
        reveal(restore_does);
    }
    r.say("    [phase 6] restore + run update-initramfs");
    let stub: String = text::cat2(root, "/usr/sbin/update-initramfs");
    match r.remove_file(stub.as_str()) {
        Err(e) => return Err(e.context("remove stub update-initramfs")),
        Ok(()) => {},
    }
    let args = text::argv6(
        root,
        "dpkg-divert",
        "--local",
        "--rename",
        "--remove",
        "/usr/sbin/update-initramfs",
    );
    match deploy::spawn(r, "chroot", args.as_slice()) {
        Err(e) => return Err(e),
        Ok(()) => {},
    }
    let args = text::argv5(root, "update-initramfs", "-c", "-k", "all");
    deploy::spawn(r, "chroot", args.as_slice())
}

/// What is done while the system's own file systems are bound into the root.
pub open spec fn inside_does(w: World, root: Seq<char>) -> (World, Result<(), Seq<char>>) {
    sub::chain(
        divert_does(w, root),
        |w1: World| sub::chain(packages_does(w1, root), |w2: World| restore_does(w2, root)),
    )
}

fn inside<R: Runner>(r: &mut R, root: &str) -> (res: Result<(), Error>)
    ensures
        sub::did(final(r).world(), res) == inside_does(old(r).world(), root@),
{
    match divert(r, root) {
        Err(e) => return Err(e),
        Ok(()) => {},
    }
    match install_packages(r, root) {
        Err(e) => return Err(e),
        Ok(()) => {},
    }
    restore(r, root)
}

/// Installs the kernel and ZFS with the system's own file systems bound into
/// the root. They are taken away again, however it ends.
#[verifier::opaque]
pub open spec fn chroot_install_does(w: World, root: Seq<char>) -> (World, Result<(), Seq<char>>) {
    let (w1, n, bound) = mounts::bind_does(
        w.say("    [phase 3] bind mounts for chroot"@),
        root,
        Style::Traced,
        0,
    );
    match bound {
        Err(m) => (mounts::unbind_does(w1, root, n), Err(m)),
        Ok(()) => {
            let (w2, res) = inside_does(w1, root);
            (mounts::unbind_does(w2, root, n), res)
        },
    }
}

fn chroot_install<R: Runner>(r: &mut R, root: &str) -> (res: Result<(), Error>)
    ensures
        sub::did(final(r).world(), res) == chroot_install_does(old(r).world(), root@),
{
    proof {
        reveal(chroot_install_does);
    }
    r.say("    [phase 3] bind mounts for chroot");
    let mut n: usize = 0;
    match mounts::bind(r, root, Style::Traced, 0, &mut n) {
        Err(e) => {
            mounts::unbind(r, root, n);
            Err(e)
        },
        Ok(()) => {
            let res = inside(r, root);
            mounts::unbind(r, root, n);
            res
        },
    }
}

/// Installs a bootable Debian root: the base system, then the host's identity,
/// which the boot image takes up, then the kernel and ZFS.
#[verifier::opaque]
pub open spec fn from_debootstrap_does(
    w: World,
    suite: Seq<char>,
    mirror: Option<Seq<char>>,
    root: Seq<char>,
    hostid: Seq<char>,
    hostname: Seq<char>,
) -> (World, Result<(), Seq<char>>) {
    let m = source::mirror_of(mirror);
    sub::chain(
        deploy::spawn_does(
            w.say("    [debootstrap] suite="@ + suite + " mirror="@ + m).say(
                "    [phase 1] debootstrap minbase"@,
            ),
            "debootstrap"@,
            seq!["--variant=minbase"@, "--components=main,contrib"@, suite, root, m],
        ),
        |w1: World|
            sub::chain(
                sub::explained(
                    (
                        w1.after(
                            Call::WriteFile {
                                path: root + "/etc/apt/sources.list"@,
                                bytes: vstd::utf8::encode_utf8(
                                    "deb "@ + m + " "@ + suite + " main contrib\n"@,
                                ),
                            },
                        ),
                        w1.unit(),
                    ),
                    "write sources.list"@,
                ),
                |w2: World|
                    sub::chain(
                        identity_does(
                            w2.say(
                                "    [phase 2.5] write /etc/hostid + /etc/hostname (pre-initramfs)"@,
                            ),
                            root,
                            hostid,
                            hostname,
                        ),
                        |w3: World| chroot_install_does(w3, root),
                    ),
            ),
    )
}

fn populate_from_debootstrap<R: Runner>(
    r: &mut R,
    suite: &str,
    mirror: &Option<String>,
    be_root: &str,
    hostid_hex: &str,
    hostname: &str,
) -> (res: Result<(), Error>)
    ensures
        sub::did(final(r).world(), res) == from_debootstrap_does(
            old(r).world(),
            suite@,
            mirror.deep_view(),
            be_root@,
            hostid_hex@,
            hostname@,
        ),
{
    proof {
        reveal(from_debootstrap_does);
    }
    let m: &str = source::mirror_or_usual(mirror);
    let line: String = text::cat4("    [debootstrap] suite=", suite, " mirror=", m);
    r.say(line.as_str());
    r.say("    [phase 1] debootstrap minbase");
    let args = text::argv5("--variant=minbase", "--components=main,contrib", suite, be_root, m);
    match deploy::spawn(r, "debootstrap", args.as_slice()) {
        Err(e) => return Err(e),
        Ok(()) => {},
    }
    let sources: String = text::cat5("deb ", m, " ", suite, " main contrib\n");
    let path: String = text::cat2(be_root, "/etc/apt/sources.list");
    match r.write_file(path.as_str(), sources.as_str().as_bytes()) {
        Err(e) => return Err(e.context("write sources.list")),
        Ok(()) => {},
    }
    r.say("    [phase 2.5] write /etc/hostid + /etc/hostname (pre-initramfs)");
    match write_be_identity(r, be_root, hostid_hex, hostname) {
        Err(e) => return Err(e),
        Ok(()) => {},
    }
    chroot_install(r, be_root)
}

/// Fills a boot environment from its source.
pub open spec fn populate_does(
    w: World,
    s: Origin,
    root: Seq<char>,
    hostid: Seq<char>,
    hostname: Seq<char>,
) -> (World, Result<(), Seq<char>>) {
    match s {
        Origin::Tar { path } => from_tar_does(w, path, root),
        Origin::Debootstrap { suite, mirror } => from_debootstrap_does(
            w,
            suite,
            mirror,
            root,
            hostid,
            hostname,
        ),
    }
}

/// Fills a boot environment from its source.
pub fn populate_be<R: Runner>(
    r: &mut R,
    s: &Source,
    be_root: &str,
    hostid_hex: &str,
    hostname: &str,
) -> (res: Result<(), Error>)
    ensures
        sub::did(final(r).world(), res) == populate_does(
            old(r).world(),
            s.deep_view(),
            be_root@,
            hostid_hex@,
            hostname@,
        ),
{
    match s {
        Source::Tar { path } => populate_from_tar(r, path.as_str(), be_root),
        Source::Debootstrap { suite, mirror } => populate_from_debootstrap(
            r,
            suite.as_str(),
            mirror,
            be_root,
            hostid_hex,
            hostname,
        ),
    }
}

// ---------------------------------------------------------------------------
// Identity and access
// ---------------------------------------------------------------------------

/// Writes the host id and the host name.
#[verifier::opaque]
pub open spec fn identity_does(
    w: World,
    root: Seq<char>,
    hostid: Seq<char>,
    hostname: Seq<char>,
) -> (World, Result<(), Seq<char>>) {
    let id_path = root + "/etc/hostid"@;
    let name_path = root + "/etc/hostname"@;
    match deploy::hex_bytes(vstd::utf8::encode_utf8(hostid)) {
        Err(m) => (w, Err(m)),
        Ok(bytes) => sub::chain(
            sub::explained(
                (w.after(Call::WriteFile { path: id_path, bytes }), w.unit()),
                "write "@ + id_path,
            ),
            |w1: World|
                sub::explained(
                    (
                        w1.after(
                            Call::WriteFile {
                                path: name_path,
                                bytes: vstd::utf8::encode_utf8(hostname + "\n"@),
                            },
                        ),
                        w1.unit(),
                    ),
                    "write "@ + name_path,
                ),
        ),
    }
}

/// Writes the host id and the host name.
pub fn write_be_identity<R: Runner>(
    r: &mut R,
    be_root: &str,
    hostid_hex: &str,
    hostname: &str,
) -> (res: Result<(), Error>)
    ensures
        sub::did(final(r).world(), res) == identity_does(
            old(r).world(),
            be_root@,
            hostid_hex@,
            hostname@,
        ),
{
    proof {
        reveal(identity_does);
    }
    let bytes = match deploy::hex_to_bytes_le(hostid_hex) {
        Err(e) => return Err(e),
        Ok(b) => b,
    };
    let id_path: String = text::cat2(be_root, "/etc/hostid");
    match r.write_file(id_path.as_str(), bytes.as_slice()) {
        Err(e) => {
            let what: String = text::cat2("write ", id_path.as_str());
            return Err(e.context(what.as_str()));
        },
        Ok(()) => {},
    }
    let line: String = text::cat2(hostname, "\n");
    let name_path: String = text::cat2(be_root, "/etc/hostname");
    match r.write_file(name_path.as_str(), line.as_str().as_bytes()) {
        Err(e) => {
            let what: String = text::cat2("write ", name_path.as_str());
            Err(e.context(what.as_str()))
        },
        Ok(()) => Ok(()),
    }
}

/// A line of the password file, with no password where it is root's.
pub open spec fn unlocked(line: Seq<char>) -> Seq<char> {
    if text::begins(line, "root:"@) {
        match text::cut(line.skip("root:"@.len() as int), ':') {
            Some((_, rest)) => "root::"@ + rest,
            None => line,
        }
    } else {
        line
    }
}

/// The password file, with no password for root.
pub open spec fn unlocked_file(content: Seq<char>) -> Seq<char> {
    text::joined(text::pieces(content, '\n').map_values(|l: Seq<char>| unlocked(l)), "\n"@)
}

fn unlock_line(line: &str) -> (r: String)
    ensures
        r@ == unlocked(line@),
{
    match text::strip_prefix(line, "root:") {
        None => line.to_owned(),
        Some(rest) => match text::split_once(rest, ':') {
            Some((_, tail)) => text::cat2("root::", tail),
            None => line.to_owned(),
        },
    }
}

/// The password file, with no password for root.
pub fn unlock_root(content: &str) -> (r: String)
    ensures
        r@ == unlocked_file(content@),
{
    let ls = text::split(content, '\n');
    let ghost all = ls.deep_view();
    let mut out: Vec<String> = Vec::new();
    let mut i: usize = 0;
    while i < ls.len()
        invariant
            i <= ls@.len(),
            all == ls.deep_view(),
            out.deep_view() =~= all.take(i as int).map_values(|l: Seq<char>| unlocked(l)),
        decreases ls@.len() - i,
    {
        let line: String = unlock_line(ls[i]);
        text::push_text(&mut out, line.as_str());
        i = i + 1;
    }
    assert(all.take(i as int) =~= all);
    text::join(&out, "\n")
}

/// Takes root's password away, so that the operator can log in.
#[verifier::opaque]
pub open spec fn empty_password_does(w: World, root: Seq<char>) -> (World, Result<(), Seq<char>>) {
    let path = root + "/etc/shadow"@;
    let w1 = w.after(Call::ReadFile { path });
    match w.line() {
        Err(m) => (w1, Err(error::within("read "@ + path, m))),
        Ok(content) => sub::explained(
            (
                w1.after(
                    Call::WriteFile {
                        path,
                        bytes: vstd::utf8::encode_utf8(unlocked_file(content)),
                    },
                ),
                w1.unit(),
            ),
            "write "@ + path,
        ),
    }
}

/// Takes root's password away.
pub fn empty_root_password<R: Runner>(r: &mut R, be_root: &str) -> (res: Result<(), Error>)
    ensures
        sub::did(final(r).world(), res) == empty_password_does(old(r).world(), be_root@),
{
    proof {
        reveal(empty_password_does);
    }
    let path: String = text::cat2(be_root, "/etc/shadow");
    let content: String = match r.read_file(path.as_str()) {
        Err(e) => {
            let what: String = text::cat2("read ", path.as_str());
            return Err(e.context(what.as_str()));
        },
        Ok(c) => c,
    };
    let out: String = unlock_root(content.as_str());
    match r.write_file(path.as_str(), out.as_str().as_bytes()) {
        Err(e) => {
            let what: String = text::cat2("write ", path.as_str());
            Err(e.context(what.as_str()))
        },
        Ok(()) => Ok(()),
    }
}

// ---------------------------------------------------------------------------
// The host id in the boot images
// ---------------------------------------------------------------------------

/// Text as bytes, one for each character.
pub open spec fn ascii(s: Seq<char>) -> Seq<u8> {
    s.map_values(|c: char| c as u8)
}

fn push_ascii(buf: &mut Vec<u8>, s: &str)
    ensures
        final(buf)@ == old(buf)@ + ascii(s@),
{
    let n: usize = s.unicode_len();
    let mut i: usize = 0;
    assert(ascii(s@.take(0)) =~= seq![]);
    while i < n
        invariant
            n == s@.len(),
            i <= n,
            buf@ =~= old(buf)@ + ascii(s@.take(i as int)),
        decreases n - i,
    {
        let c: char = s.get_char(i);
        buf.push(c as u8);
        i = i + 1;
    }
    assert(s@.take(n as int) =~= s@);
}

/// How many bytes are missing to a multiple of four.
pub open spec fn gap(n: nat) -> nat {
    ((4 - n % 4) % 4) as nat
}

/// Zero bytes.
pub open spec fn zeros(n: nat) -> Seq<u8> {
    Seq::new(n, |i: int| 0u8)
}

/// Bytes, filled up to a multiple of four.
pub open spec fn filled(b: Seq<u8>) -> Seq<u8> {
    b + zeros(gap(b.len()))
}

fn push_zeros(buf: &mut Vec<u8>, n: usize)
    ensures
        final(buf)@ == old(buf)@ + zeros(n as nat),
{
    let mut i: usize = 0;
    assert(buf@ =~= old(buf)@ + zeros(0));
    while i < n
        invariant
            i <= n,
            buf@ == old(buf)@ + zeros(i as nat),
        decreases n - i,
    {
        buf.push(0);
        assert(buf@ =~= old(buf)@ + zeros((i + 1) as nat));
        i = i + 1;
    }
}

fn pad_to_4(buf: &mut Vec<u8>)
    ensures
        final(buf)@ == filled(old(buf)@),
{
    let n: usize = (4 - buf.len() % 4) % 4;
    push_zeros(buf, n);
}

/// Eight hexadecimal digits.
pub open spec fn hex8(n: nat) -> Seq<char> {
    text::padded(n, 16, 8)
}

/// The head of an archive member, in the `newc` format of `cpio`: the magic
/// number, then thirteen fields.
pub open spec fn member_head(ino: nat, mode: nat, nlink: nat, size: nat, name_len: nat) -> Seq<
    char,
> {
    "070701"@ + hex8(ino) + hex8(mode) + hex8(0) + hex8(0) + hex8(nlink) + hex8(0) + hex8(size)
        + hex8(0) + hex8(0) + hex8(0) + hex8(0) + hex8(name_len) + hex8(0)
}

fn push_field(head: &mut String, n: u32)
    ensures
        final(head)@ == old(head)@ + hex8(n as nat),
{
    let field: String = text::pad(n as u128, 16, 8);
    head.append(field.as_str());
}

fn head_of(ino: u32, mode: u32, nlink: u32, filesize: u32, namesize: u32) -> (r: String)
    ensures
        r@ == member_head(
            ino as nat,
            mode as nat,
            nlink as nat,
            filesize as nat,
            namesize as nat,
        ),
{
    let mut head: String = "070701".to_owned();
    push_field(&mut head, ino);
    push_field(&mut head, mode);
    push_field(&mut head, 0);
    push_field(&mut head, 0);
    push_field(&mut head, nlink);
    push_field(&mut head, 0);
    push_field(&mut head, filesize);
    push_field(&mut head, 0);
    push_field(&mut head, 0);
    push_field(&mut head, 0);
    push_field(&mut head, 0);
    push_field(&mut head, namesize);
    push_field(&mut head, 0);
    head
}

/// An archive that holds one file, `etc/hostid`.
#[verifier::opaque]
pub open spec fn overlay_of(id: Seq<u8>) -> Seq<u8> {
    let named = filled(
        ascii(member_head(1, 0o100_644, 1, id.len(), 11)) + ascii("etc/hostid\0"@),
    );
    let content = filled(named + id);
    filled(content + ascii(member_head(0, 0, 1, 0, 11)) + ascii("TRAILER!!!\0"@))
}

/// An archive that holds one file, `etc/hostid`.
pub fn build_hostid_cpio_overlay(bytes: &[u8]) -> (r: Vec<u8>)
    requires
        bytes@.len() <= u32::MAX,
    ensures
        r@ == overlay_of(bytes@),
{
    proof {
        reveal(overlay_of);
    }
    let mut buf: Vec<u8> = Vec::new();
    let head: String = head_of(1, 0o100_644, 1, bytes.len() as u32, 11);
    push_ascii(&mut buf, head.as_str());
    push_ascii(&mut buf, "etc/hostid\0");
    assert(buf@ =~= ascii(head@) + ascii("etc/hostid\0"@));
    pad_to_4(&mut buf);
    let ghost named = buf@;
    buf.extend_from_slice(bytes);
    assert(buf@ =~= named + bytes@);
    pad_to_4(&mut buf);
    let head: String = head_of(0, 0, 1, 0, 11);
    push_ascii(&mut buf, head.as_str());
    push_ascii(&mut buf, "TRAILER!!!\0");
    pad_to_4(&mut buf);
    buf
}

/// A boot image already ends with an archive, at a place where it is found.
pub open spec fn carries(image: Seq<u8>, overlay: Seq<u8>) -> bool {
    image.len() % 4 == 0 && image.len() >= overlay.len() && image.skip(
        image.len() - overlay.len(),
    ) == overlay
}

fn check_carries(image: &Vec<u8>, overlay: &Vec<u8>) -> (r: bool)
    ensures
        r == carries(image@, overlay@),
{
    let n: usize = image.len();
    let m: usize = overlay.len();
    if n % 4 != 0 || n < m {
        return false;
    }
    let mut i: usize = 0;
    while i < m
        invariant
            n == image@.len(),
            m == overlay@.len(),
            m <= n,
            n % 4 == 0,
            i <= m,
            forall|j: int| 0 <= j < i ==> image@[n - m + j] == #[trigger] overlay@[j],
        decreases m - i,
    {
        if image[n - m + i] != overlay[i] {
            assert(image@.skip(n - m)[i as int] != overlay@[i as int]);
            return false;
        }
        i = i + 1;
    }
    assert(image@.skip(n - m) =~= overlay@);
    true
}

/// What is put behind a boot image.
pub open spec fn addition(image: Seq<u8>, overlay: Seq<u8>) -> Seq<u8> {
    zeros(gap(image.len())) + overlay
}

/// The error for a step of adding to a file that failed.
pub open spec fn append_fault(step: Step, path: Seq<char>, what: Seq<char>, m: Seq<char>) -> Seq<
    char,
> {
    if step == Step::Start {
        error::within("open "@ + path + " for append"@, m)
    } else {
        error::within("write "@ + what + " to "@ + path, m)
    }
}

/// Adds to a file.
pub open spec fn append_does(w: World, path: Seq<char>, bytes: Seq<u8>, what: Seq<char>) -> (
    World,
    Result<(), Seq<char>>,
) {
    (
        w.after(Call::AppendFile { path, bytes }),
        match w.stepped() {
            Err((step, m)) => Err(append_fault(step, path, what, m)),
            Ok(()) => Ok(()),
        },
    )
}

fn append<R: Runner>(r: &mut R, path: &str, bytes: &[u8], what: &str) -> (res: Result<(), Error>)
    ensures
        sub::did(final(r).world(), res) == append_does(old(r).world(), path@, bytes@, what@),
{
    match r.append_file(path, bytes) {
        Err(f) => {
            let doing: String = match f.step {
                Step::Start => text::cat3("open ", path, " for append"),
                _ => text::cat4("write ", what, " to ", path),
            };
            Err(f.with(doing.as_str()))
        },
        Ok(()) => Ok(()),
    }
}

/// Puts an archive behind a boot image, after so many zeros.
pub open spec fn put_behind_does(w: World, path: Seq<char>, pad: nat, overlay: Seq<u8>) -> (World, Result<
    (),
    Seq<char>,
>) {
    sub::chain(
        if pad > 0 {
            append_does(w, path, zeros(pad), "pad"@)
        } else {
            (w, Ok(()))
        },
        |w1: World| append_does(w1, path, overlay, "cpio overlay"@),
    )
}

fn put_behind<R: Runner>(r: &mut R, path: &str, pad: usize, overlay: &Vec<u8>) -> (res: Result<(), Error>)
    ensures
        sub::did(final(r).world(), res) == put_behind_does(old(r).world(), path@, pad as nat, overlay@),
{
    if pad > 0 {
        let mut filling: Vec<u8> = Vec::new();
        push_zeros(&mut filling, pad);
        assert(filling@ =~= zeros(pad as nat));
        if let Err(e) = append(r, path, filling.as_slice(), "pad") {
            return Err(e);
        }
    }
    append(r, path, overlay.as_slice(), "cpio overlay")
}

/// Puts the archive behind one boot image, unless it already ends with it.
#[verifier::opaque]
pub open spec fn overlay_one_does(w: World, path: Seq<char>, overlay: Seq<u8>) -> (World, Result<
    (),
    Seq<char>,
>) {
    let w1 = w.after(Call::ReadBytes { path });
    match w.raw() {
        Err(m) => (w1, Err(error::within("read "@ + path, m))),
        Ok(image) => if carries(image, overlay) {
            (w1, Ok(()))
        } else {
            sub::chain(
                put_behind_does(w1, path, gap(image.len()), overlay),
                |w2: World|
                    (
                        w2.say(
                            "    cpio-overlay /etc/hostid into "@ + path + " (+"@ + text::decimal(
                                gap(image.len()),
                            ) + " bytes pad, +"@ + text::decimal(overlay.len())
                                + " bytes overlay)"@,
                        ),
                        Ok(()),
                    ),
            )
        },
    }
}

fn overlay_one<R: Runner>(r: &mut R, path: &str, overlay: &Vec<u8>) -> (res: Result<(), Error>)
    ensures
        sub::did(final(r).world(), res) == overlay_one_does(old(r).world(), path@, overlay@),
{
    proof {
        reveal(overlay_one_does);
    }
    let image = match r.read_bytes(path) {
        Err(e) => {
            let what: String = text::cat2("read ", path);
            return Err(e.context(what.as_str()));
        },
        Ok(b) => b,
    };
    if check_carries(&image, overlay) {
        return Ok(());
    }
    let pad: usize = (4 - image.len() % 4) % 4;
    if let Err(e) = put_behind(r, path, pad, overlay) {
        return Err(e);
    }
    let pad_shown: String = text::dec_len(pad);
    let len_shown: String = text::dec_len(overlay.len());
    let line: String = text::cat7(
        "    cpio-overlay /etc/hostid into ",
        path,
        " (+",
        pad_shown.as_str(),
        " bytes pad, +",
        len_shown.as_str(),
        " bytes overlay)",
    );
    r.say(line.as_str());
    Ok(())
}

/// Puts the archive behind each boot image among some names.
pub open spec fn overlay_all_does(
    w: World,
    dir: Seq<char>,
    names: Seq<Seq<char>>,
    overlay: Seq<u8>,
) -> (World, Result<(), Seq<char>>)
    decreases names.len(),
{
    if names.len() == 0 {
        (w, Ok(()))
    } else if text::begins(names[0], "initrd.img-"@) {
        let (w1, done) = overlay_one_does(w, paths::under(dir, names[0]), overlay);
        match done {
            Err(m) => (w1, Err(m)),
            Ok(()) => overlay_all_does(w1, dir, names.drop_first(), overlay),
        }
    } else {
        overlay_all_does(w, dir, names.drop_first(), overlay)
    }
}

fn overlay_from<R: Runner>(
    r: &mut R,
    dir: &str,
    names: &Vec<String>,
    i: usize,
    overlay: &Vec<u8>,
) -> (res: Result<(), Error>)
    requires
        i <= names@.len(),
    ensures
        sub::did(final(r).world(), res) == overlay_all_does(
            old(r).world(),
            dir@,
            names.deep_view().skip(i as int),
            overlay@,
        ),
    decreases names@.len() - i,
{
    let ghost rest = names.deep_view().skip(i as int);
    if i >= names.len() {
        return Ok(());
    }
    proof {
        assert(rest[0] == names@[i as int]@);
        assert(rest.drop_first() =~= names.deep_view().skip(i + 1));
    }
    if text::starts_with(names[i].as_str(), "initrd.img-") {
        let path: String = paths::join(dir, names[i].as_str());
        match overlay_one(r, path.as_str(), overlay) {
            Err(e) => return Err(e),
            Ok(()) => {},
        }
    }
    overlay_from(r, dir, names, i + 1, overlay)
}

/// Puts the host id behind every boot image of a boot environment, so that it
/// boots with it by whatever way. Where there is no `/boot`, there is nothing
/// to do.
#[verifier::opaque]
pub open spec fn overlay_initrds_does(w: World, root: Seq<char>, hostid: Seq<char>) -> (
    World,
    Result<(), Seq<char>>,
) {
    match deploy::hex_bytes(vstd::utf8::encode_utf8(hostid)) {
        Err(m) => (w, Err(m)),
        Ok(id) => {
            let dir = root + "/boot"@;
            let w1 = w.after(Call::ListUntil { path: dir });
            match w.listed_until() {
                Err(_) => (w1, Ok(())),
                Ok((names, cut)) => {
                    let (w2, done) = overlay_all_does(w1, dir, names, overlay_of(id));
                    match (done, cut) {
                        (Ok(()), Some(m)) => (w2, Err(m)),
                        _ => (w2, done),
                    }
                },
            }
        },
    }
}

/// Puts the host id behind every boot image of a boot environment.
pub fn overlay_hostid_in_initrds<R: Runner>(r: &mut R, be_root: &str, hostid_hex: &str) -> (res:
    Result<(), Error>)
    ensures
        sub::did(final(r).world(), res) == overlay_initrds_does(
            old(r).world(),
            be_root@,
            hostid_hex@,
        ),
{
    proof {
        reveal(overlay_initrds_does);
    }
    let id = match deploy::hex_to_bytes_le(hostid_hex) {
        Err(e) => return Err(e),
        Ok(b) => b,
    };
    let overlay = build_hostid_cpio_overlay(id.as_slice());
    let dir: String = text::cat2(be_root, "/boot");
    match r.list_until(dir.as_str()) {
        Err(_) => Ok(()),
        Ok((names, cut)) => {
            assert(names.deep_view().skip(0) =~= names.deep_view());
            match overlay_from(r, dir.as_str(), &names, 0, &overlay) {
                Err(e) => Err(e),
                Ok(()) => match cut {
                    Some(m) => Err(Error::from_text(m)),
                    None => Ok(()),
                },
            }
        },
    }
}

// ---------------------------------------------------------------------------
// Laws
// ---------------------------------------------------------------------------

/// An archive fills whole words, whatever it holds.
pub proof fn law_overlay_is_aligned(id: Seq<u8>)
    ensures
        overlay_of(id).len() % 4 == 0,
{
    reveal(overlay_of);
    let named = filled(
        ascii(member_head(1, 0o100_644, 1, id.len(), 11)) + ascii("etc/hostid\0"@),
    );
    let content = filled(named + id);
    let all = content + ascii(member_head(0, 0, 1, 0, 11)) + ascii("TRAILER!!!\0"@);
    lemma_filled(all);
}

/// What is filled up fills whole words.
proof fn lemma_filled(b: Seq<u8>)
    ensures
        filled(b).len() % 4 == 0,
{
    assert(filled(b).len() == b.len() + gap(b.len()));
}

/// Behind a boot image, the archive begins at a multiple of four, where the
/// kernel looks for it.
pub proof fn law_overlay_is_found(image: Seq<u8>, id: Seq<u8>)
    ensures
        ({
            let whole = image + addition(image, overlay_of(id));
            let at = whole.len() - overlay_of(id).len();
            &&& at % 4 == 0
            &&& whole.skip(at) == overlay_of(id)
            &&& whole.take(image.len() as int) == image
        }),
{
    let overlay = overlay_of(id);
    let whole = image + addition(image, overlay);
    assert(whole.skip(whole.len() - overlay.len()) =~= overlay);
    assert(whole.take(image.len() as int) =~= image);
}

/// What has been put behind a boot image is not put there again.
pub proof fn law_overlay_is_idempotent(w: World, path: Seq<char>, image: Seq<u8>, id: Seq<u8>)
    requires
        w.raw() == Ok::<Seq<u8>, Seq<char>>(image + addition(image, overlay_of(id))),
    ensures
        overlay_one_does(w, path, overlay_of(id)).1 is Ok,
        sub::only_looked(w, overlay_one_does(w, path, overlay_of(id)).0),
{
    reveal(overlay_one_does);
    law_overlay_is_aligned(id);
    law_overlay_is_found(image, id);
    assert(carries(image + addition(image, overlay_of(id)), overlay_of(id)));
}

/// What is left of a boot image.
pub open spec fn left_of(image: Seq<u8>, overlay: Seq<u8>) -> Seq<u8> {
    if carries(image, overlay) {
        image
    } else {
        image + addition(image, overlay)
    }
}

/// What calls add to a file, in order, but for the first `from` calls.
pub open spec fn added(calls: Seq<Call>, from: int, path: Seq<char>) -> Seq<u8>
    decreases calls.len(),
{
    if calls.len() == 0 || calls.len() <= from {
        seq![]
    } else {
        let front = added(calls.drop_last(), from, path);
        match calls.last() {
            Call::AppendFile { path: p, bytes } => if p == path {
                front + bytes
            } else {
                front
            },
            _ => front,
        }
    }
}

/// What a run that succeeds adds to a boot image makes [`left_of`] of it.
pub proof fn law_image_is_completed(w: World, path: Seq<char>, overlay: Seq<u8>)
    requires
        overlay_one_does(w, path, overlay).1 is Ok,
    ensures
        w.raw() matches Ok(image) && image + added(
            overlay_one_does(w, path, overlay).0.calls,
            w.calls.len() as int,
            path,
        ) == left_of(image, overlay),
{
    reveal(overlay_one_does);
    let from = w.calls.len() as int;
    let image = w.raw()->Ok_0;
    let w1 = w.after(Call::ReadBytes { path });
    assert(w1.calls.drop_last() =~= w.calls);
    assert(added(w.calls, from, path) =~= seq![]);
    assert(added(w1.calls, from, path) =~= seq![]);
    if carries(image, overlay) {
        assert(image + added(w1.calls, from, path) =~= image);
    } else {
        let pad = gap(image.len());
        let w2 = if pad > 0 {
            append_does(w1, path, zeros(pad), "pad"@).0
        } else {
            w1
        };
        if pad > 0 {
            assert(w2.calls.drop_last() =~= w1.calls);
        }
        assert(added(w2.calls, from, path) =~= zeros(pad));
        let w3 = append_does(w2, path, overlay, "cpio overlay"@).0;
        assert(w3.calls.drop_last() =~= w2.calls);
        assert(added(w3.calls, from, path) =~= addition(image, overlay));
        let end = overlay_one_does(w, path, overlay).0;
        assert(end.calls.drop_last() =~= w3.calls);
        assert(added(end.calls, from, path) =~= addition(image, overlay));
    }
}

/// The boot images that a run reads, in order.
pub open spec fn images_read(
    w: World,
    dir: Seq<char>,
    names: Seq<Seq<char>>,
    overlay: Seq<u8>,
) -> Seq<Seq<u8>>
    decreases names.len(),
{
    if names.len() == 0 {
        seq![]
    } else if text::begins(names[0], "initrd.img-"@) {
        match w.raw() {
            Err(_) => seq![],
            Ok(image) => {
                let w1 = overlay_one_does(w, paths::under(dir, names[0]), overlay).0;
                seq![image] + images_read(w1, dir, names.drop_first(), overlay)
            },
        }
    } else {
        images_read(w, dir, names.drop_first(), overlay)
    }
}

/// A run over a boot environment that finds there what an earlier run left
/// changes nothing: the same names in its `/boot`, and in each boot image what
/// the earlier run left of it.
pub proof fn law_overlays_are_idempotent(
    w: World,
    again: World,
    root: Seq<char>,
    hostid: Seq<char>,
    id: Seq<u8>,
    names: Seq<Seq<char>>,
)
    requires
        deploy::hex_bytes(vstd::utf8::encode_utf8(hostid)) == Ok::<Seq<u8>, Seq<char>>(id),
        w.listed_until() == Ok::<_, Seq<char>>((names, None::<Seq<char>>)),
        overlay_initrds_does(w, root, hostid).1 is Ok,
        again.listed_until() == w.listed_until(),
        ({
            let dir = root + "/boot"@;
            let images = images_read(
                w.after(Call::ListUntil { path: dir }),
                dir,
                names,
                overlay_of(id),
            );
            forall|k: int|
                0 <= k < images.len() ==> found_at(again, again.calls.len() + 1 + k, left_of(
                    #[trigger] images[k],
                    overlay_of(id),
                ))
        }),
    ensures
        overlay_initrds_does(again, root, hostid).1 is Ok,
        sub::only_looked(again, overlay_initrds_does(again, root, hostid).0),
{
    reveal(overlay_initrds_does);
    let dir = root + "/boot"@;
    let c = Call::ListUntil { path: dir };
    lemma_overlays_again(w.after(c), again.after(c), dir, names, id);
    let end = overlay_all_does(again.after(c), dir, names, overlay_of(id)).0;
    effects::lemma_looked_on(again, again.after(c), end);
}

/// The reply to the call of a number holds these bytes.
pub open spec fn found_at(w: World, n: int, bytes: Seq<u8>) -> bool {
    (w.replies)(n as nat).failure is None && (w.replies)(n as nat).bytes == bytes
}

proof fn lemma_overlays_again(
    w: World,
    again: World,
    dir: Seq<char>,
    names: Seq<Seq<char>>,
    id: Seq<u8>,
)
    requires
        overlay_all_does(w, dir, names, overlay_of(id)).1 is Ok,
        ({
            let images = images_read(w, dir, names, overlay_of(id));
            forall|k: int|
                0 <= k < images.len() ==> found_at(again, again.calls.len() + k, left_of(
                    #[trigger] images[k],
                    overlay_of(id),
                ))
        }),
    ensures
        overlay_all_does(again, dir, names, overlay_of(id)).1 is Ok,
        sub::only_looked(again, overlay_all_does(again, dir, names, overlay_of(id)).0),
    decreases names.len(),
{
    let o = overlay_of(id);
    if names.len() > 0 {
        let rest = names.drop_first();
        if text::begins(names[0], "initrd.img-"@) {
            reveal(overlay_one_does);
            let path = paths::under(dir, names[0]);
            let image = w.raw()->Ok_0;
            let w1 = overlay_one_does(w, path, o).0;
            let images = images_read(w, dir, names, o);
            let more = images_read(w1, dir, rest, o);
            assert(images =~= seq![image] + more);
            assert(images[0] == image);
            assert(found_at(again, again.calls.len() as int, left_of(image, o)));
            law_overlay_is_aligned(id);
            law_overlay_is_found(image, id);
            assert(carries(left_of(image, o), o));
            let next = again.after(Call::ReadBytes { path });
            assert(overlay_one_does(again, path, o) == (next, Ok::<(), Seq<char>>(())));
            assert forall|k: int| 0 <= k < more.len() implies found_at(
                next,
                next.calls.len() + k,
                left_of(#[trigger] more[k], o),
            ) by {
                assert(images[k + 1] == more[k]);
                assert(found_at(again, again.calls.len() + (k + 1), left_of(images[k + 1], o)));
            }
            lemma_overlays_again(w1, next, dir, rest, id);
            effects::lemma_looked_on(again, next, overlay_all_does(next, dir, rest, o).0);
        } else {
            assert(images_read(w, dir, names, o) == images_read(w, dir, rest, o));
            lemma_overlays_again(w, again, dir, rest, id);
        }
    }
}

/// Taking root's password away keeps the lines of the file, each but for its
/// password where it is root's; done again, it changes nothing more.
pub proof fn law_unlocking_the_file(content: Seq<char>)
    ensures
        text::pieces(unlocked_file(content), '\n').len() == text::pieces(content, '\n').len(),
        forall|i: int|
            0 <= i < text::pieces(content, '\n').len() ==> #[trigger] text::pieces(
                unlocked_file(content),
                '\n',
            )[i] == unlocked(text::pieces(content, '\n')[i]),
        unlocked_file(unlocked_file(content)) == unlocked_file(content),
{
    let ls = text::pieces(content, '\n');
    let f = |l: Seq<char>| unlocked(l);
    let out = ls.map_values(f);
    text::lemma_pieces_hold_no(content, '\n');
    assert forall|i: int| 0 <= i < out.len() implies !(#[trigger] out[i]).contains('\n') by {
        assert(!ls[i].contains('\n'));
        lemma_unlocked_is_a_line(ls[i]);
    }
    reveal_strlit("\n");
    assert("\n"@ =~= seq!['\n']);
    text::lemma_pieces_of_joined(out, '\n');
    assert forall|i: int| 0 <= i < out.len() implies #[trigger] out.map_values(f)[i] == out[i] by {
        law_unlocking(ls[i]);
    }
    assert(out.map_values(f) =~= out);
}

/// What was one line stays one.
proof fn lemma_unlocked_is_a_line(line: Seq<char>)
    requires
        !line.contains('\n'),
    ensures
        !unlocked(line).contains('\n'),
{
    reveal_strlit("root:");
    reveal_strlit("root::");
    let out = unlocked(line);
    if text::begins(line, "root:"@) && line.skip(5).contains(':') {
        let tail = line.skip(5);
        let p = text::position(tail, ':');
        text::lemma_position(tail, ':');
        assert(out == "root::"@ + tail.skip(p + 1));
        assert forall|i: int| 0 <= i < out.len() implies out[i] != '\n' by {
            if i >= 6 {
                assert(out[i] == line[5 + p + 1 + (i - 6)]);
                assert(line.contains(line[5 + p + 1 + (i - 6)]));
            }
        }
    }
}

/// A password that has been taken away stays away, and no line but root's
/// changes.
pub proof fn law_unlocking(line: Seq<char>)
    ensures
        unlocked(unlocked(line)) == unlocked(line),
        !text::begins(line, "root:"@) ==> unlocked(line) == line,
{
    reveal_strlit("root:");
    reveal_strlit("root::");
    if text::begins(line, "root:"@) {
        let tail = line.skip(5);
        match text::cut(tail, ':') {
            None => {},
            Some((h, rest)) => {
                let once = "root::"@ + rest;
                assert(once.take(5) =~= "root:"@);
                let again = once.skip(5);
                assert(again[0] == ':');
                text::lemma_position_is(again, ':', 0);
                assert(again.skip(1) =~= rest);
            },
        }
    }
}

/// The mounts of an installation are taken away however it ends: as many as
/// were made, and nothing comes after.
pub proof fn law_installation_leaves_no_mounts(w: World, root: Seq<char>)
    ensures
        ({
            let (w1, n, bound) = mounts::bind_does(
                w.say("    [phase 3] bind mounts for chroot"@),
                root,
                Style::Traced,
                0,
            );
            chroot_install_does(w, root).0 == mounts::unbind_does(
                if bound is Ok {
                    inside_does(w1, root).0
                } else {
                    w1
                },
                root,
                n,
            )
        }),
{
    reveal(chroot_install_does);
}

/// The call that unpacks an archive into a new environment.
pub open spec fn unpacking(path: Seq<char>, root: Seq<char>) -> Call {
    if paths::zstd_name(path) {
        Call::Pipe {
            prog: "zstd"@,
            args: seq!["-dc"@, path],
            to_prog: "tar"@,
            to_args: seq!["-xf"@, "-"@, "-C"@, root],
        }
    } else {
        deploy::attended("tar"@, seq!["-xf"@, path, "-C"@, root])
    }
}

/// An environment filled from an archive has had it unpacked.
pub proof fn law_archive_is_unpacked(w: World, path: Seq<char>, root: Seq<char>)
    ensures
        ({
            let (end, res) = from_tar_does(w, path, root);
            &&& sub::continues(w, end)
            &&& res is Ok ==> effects::all_came_off(w, end, seq![unpacking(path, root)])
        }),
{
    reveal(from_tar_does);
    let (end, res) = from_tar_does(w, path, root);
    let w1 = w.say("    tar source: "@ + path + " → "@ + root);
    let c = unpacking(path, root);
    assert(sub::continues(w, w1));
    assert(sub::continues(end, end));
    if paths::zstd_name(path) {
        assert(end == w1.after(c));
        assert(sub::continues(w1, end));
        if res is Ok {
            effects::lemma_came_now(w1, c);
        }
    } else {
        deploy::lemma_spawned(w1, "tar"@, seq!["-xf"@, path, "-C"@, root]);
    }
    effects::lemma_continues(w, w1, end);
    if res is Ok {
        effects::lemma_came_within(w, w1, end, end, c);
    }
}

/// What gives an environment its identity.
pub open spec fn naming(root: Seq<char>, id: Seq<u8>, hostname: Seq<char>) -> Seq<Call> {
    seq![
        Call::WriteFile { path: root + "/etc/hostid"@, bytes: id },
        Call::WriteFile {
            path: root + "/etc/hostname"@,
            bytes: vstd::utf8::encode_utf8(hostname + "\n"@),
        },
    ]
}

/// An environment is given the host id and the name that were asked for.
pub proof fn law_identity_is_written(
    w: World,
    root: Seq<char>,
    hostid: Seq<char>,
    hostname: Seq<char>,
)
    ensures
        ({
            let (end, res) = identity_does(w, root, hostid, hostname);
            let id = deploy::hex_bytes(vstd::utf8::encode_utf8(hostid));
            &&& sub::continues(w, end)
            &&& res is Ok ==> id is Ok && effects::all_came_off(
                w,
                end,
                naming(root, id->Ok_0, hostname),
            )
        }),
{
    reveal(identity_does);
    let (end, res) = identity_does(w, root, hostid, hostname);
    let id = deploy::hex_bytes(vstd::utf8::encode_utf8(hostid));
    if res is Ok {
        let cs = naming(root, id->Ok_0, hostname);
        let n = w.calls.len() as int;
        assert(end.calls[n] == cs[0]);
        assert(end.calls[n + 1] == cs[1]);
        assert(effects::went_well(end, n));
        assert(effects::went_well(end, n + 1));
    }
}

/// What puts a kernel and its modules into an environment.
pub open spec fn installing(root: Seq<char>) -> Seq<Call> {
    let update = "/usr/sbin/update-initramfs"@;
    let diverts = seq![root, "dpkg-divert"@, "--local"@, "--rename"@];
    let wants = seq![
        root,
        "env"@,
        "DEBIAN_FRONTEND=noninteractive"@,
        "apt-get"@,
        "install"@,
        "-y"@,
        "--no-install-recommends"@,
    ];
    seq![
        deploy::attended("chroot"@, diverts + seq!["--add"@, update]),
        Call::CopyFile { from: root + "/bin/true"@, to: root + update },
        deploy::attended("chroot"@, seq![root, "apt-get"@, "update"@, "-y"@]),
        deploy::attended("chroot"@, wants + source::packages()),
        Call::RemoveFile { path: root + update },
        deploy::attended("chroot"@, diverts + seq!["--remove"@, update]),
        deploy::attended("chroot"@, seq![root, "update-initramfs"@, "-c"@, "-k"@, "all"@]),
    ]
}

/// The kernel is installed while its images are held back, and then they are
/// all made.
pub proof fn law_kernel_is_installed(w: World, root: Seq<char>)
    ensures
        ({
            let (end, res) = inside_does(w, root);
            &&& sub::continues(w, end)
            &&& res is Ok ==> effects::all_came_off(w, end, installing(root))
        }),
{
    reveal(divert_does);
    reveal(packages_does);
    reveal(restore_does);
    let cs = installing(root);
    let update = "/usr/sbin/update-initramfs"@;
    let (end, res) = inside_does(w, root);
    let w0 = w.say("    [phase 4] divert update-initramfs"@);
    let a = seq![root, "dpkg-divert"@, "--local"@, "--rename"@, "--add"@, update];
    assert(cs[0]->Attend_args =~= a);
    deploy::lemma_spawned(w0, "chroot"@, a);
    let wa = deploy::spawn_does(w0, "chroot"@, a);
    assert(sub::continues(w, w0));
    effects::lemma_continues(w, w0, wa.0);
    if wa.1 is Ok {
        let w1 = wa.0.after(cs[1]);
        let (d, diverted) = divert_does(w, root);
        assert(d == w1);
        assert(sub::continues(wa.0, w1));
        effects::lemma_continues(w, wa.0, w1);
        if diverted is Ok {
            effects::lemma_came_now(wa.0, cs[1]);
            let w2 = w1.say("    [phase 5] apt install kernel + zfs (DKMS builds zfs.ko)"@);
            deploy::lemma_spawned(w2, "chroot"@, cs[2]->Attend_args);
            let wb = deploy::spawn_does(w2, "chroot"@, cs[2]->Attend_args);
            assert(sub::continues(w1, w2));
            effects::lemma_continues(w1, w2, wb.0);
            effects::lemma_continues(w, w1, wb.0);
            if wb.1 is Ok {
                deploy::lemma_spawned(wb.0, "chroot"@, cs[3]->Attend_args);
                let wc = deploy::spawn_does(wb.0, "chroot"@, cs[3]->Attend_args);
                effects::lemma_continues(w, wb.0, wc.0);
                if wc.1 is Ok {
                    let w3 = wc.0.say("    [phase 6] restore + run update-initramfs"@);
                    let w4 = w3.after(cs[4]);
                    assert(sub::continues(wc.0, w3));
                    assert(sub::continues(w3, w4));
                    effects::lemma_continues(wc.0, w3, w4);
                    effects::lemma_continues(w, wc.0, w4);
                    if w3.unit() is Ok {
                        effects::lemma_came_now(w3, cs[4]);
                        let b = seq![
                            root,
                            "dpkg-divert"@,
                            "--local"@,
                            "--rename"@,
                            "--remove"@,
                            update,
                        ];
                        assert(cs[5]->Attend_args =~= b);
                        deploy::lemma_spawned(w4, "chroot"@, b);
                        let wd = deploy::spawn_does(w4, "chroot"@, b);
                        effects::lemma_continues(w, w4, wd.0);
                        if wd.1 is Ok {
                            deploy::lemma_spawned(wd.0, "chroot"@, cs[6]->Attend_args);
                            effects::lemma_continues(w, wd.0, end);
                            if res is Ok {
                                assert(sub::continues(end, end));
                                effects::lemma_came_within(w, wd.0, end, end, cs[6]);
                                effects::lemma_came_within(w, w4, wd.0, end, cs[5]);
                                effects::lemma_continues(w4, wd.0, end);
                                effects::lemma_continues(w, wc.0, w3);
                                effects::lemma_came_within(w, w3, w4, end, cs[4]);
                                effects::lemma_continues(wc.0, w4, end);
                                effects::lemma_came_within(w, wb.0, wc.0, end, cs[3]);
                                effects::lemma_continues(wb.0, wc.0, end);
                                effects::lemma_continues(w, w1, w2);
                                effects::lemma_came_within(w, w2, wb.0, end, cs[2]);
                                effects::lemma_continues(w1, wb.0, end);
                                effects::lemma_came_within(w, wa.0, w1, end, cs[1]);
                                effects::lemma_continues(wa.0, w1, end);
                                effects::lemma_came_within(w, w0, wa.0, end, cs[0]);
                            }
                        }
                    }
                }
            }
        }
    }
}

/// What fills an environment from a mirror, up to the kernel.
pub open spec fn bootstrapping(suite: Seq<char>, m: Seq<char>, root: Seq<char>) -> Seq<Call> {
    seq![
        deploy::attended(
            "debootstrap"@,
            seq!["--variant=minbase"@, "--components=main,contrib"@, suite, root, m],
        ),
        Call::WriteFile {
            path: root + "/etc/apt/sources.list"@,
            bytes: vstd::utf8::encode_utf8("deb "@ + m + " "@ + suite + " main contrib\n"@),
        },
    ]
}

/// An environment filled from a mirror is of the suite that was asked for, has
/// its identity before its kernel is installed, and has a kernel.
pub proof fn law_mirror_is_bootstrapped(
    w: World,
    suite: Seq<char>,
    mirror: Option<Seq<char>>,
    root: Seq<char>,
    hostid: Seq<char>,
    hostname: Seq<char>,
)
    ensures
        ({
            let (end, res) = from_debootstrap_does(w, suite, mirror, root, hostid, hostname);
            let id = deploy::hex_bytes(vstd::utf8::encode_utf8(hostid));
            &&& sub::continues(w, end)
            &&& res is Ok ==> id is Ok && effects::all_came_off(
                w,
                end,
                bootstrapping(suite, source::mirror_of(mirror), root) + naming(
                    root,
                    id->Ok_0,
                    hostname,
                ) + installing(root),
            )
        }),
{
    reveal(from_debootstrap_does);
    reveal(chroot_install_does);
    let m = source::mirror_of(mirror);
    let id = deploy::hex_bytes(vstd::utf8::encode_utf8(hostid));
    let (end, res) = from_debootstrap_does(w, suite, mirror, root, hostid, hostname);
    let cs = bootstrapping(suite, m, root);
    let w0 = w.say("    [debootstrap] suite="@ + suite + " mirror="@ + m).say(
        "    [phase 1] debootstrap minbase"@,
    );
    assert(sub::continues(w, w0));
    deploy::lemma_spawned(w0, "debootstrap"@, cs[0]->Attend_args);
    let wa = deploy::spawn_does(w0, "debootstrap"@, cs[0]->Attend_args);
    effects::lemma_continues(w, w0, wa.0);
    if wa.1 is Ok {
        let w1 = wa.0.after(cs[1]);
        assert(sub::continues(wa.0, w1));
        effects::lemma_continues(w, wa.0, w1);
        if wa.0.unit() is Ok {
            effects::lemma_came_now(wa.0, cs[1]);
            effects::lemma_came_within(w, w0, wa.0, w1, cs[0]);
            assert(sub::continues(w1, w1));
            effects::lemma_came_within(w, wa.0, w1, w1, cs[1]);
            assert(effects::all_came_off(w, w1, cs));
            let w2 = w1.say(
                "    [phase 2.5] write /etc/hostid + /etc/hostname (pre-initramfs)"@,
            );
            assert(sub::continues(w1, w2));
            law_identity_is_written(w2, root, hostid, hostname);
            let (w3, named) = identity_does(w2, root, hostid, hostname);
            effects::lemma_continues(w1, w2, w3);
            effects::lemma_continues(w, w1, w3);
            if named is Ok {
                let ns = naming(root, id->Ok_0, hostname);
                assert(sub::continues(w3, w3));
                effects::lemma_all_within(w1, w2, w3, w3, ns);
                effects::lemma_all_then(w, w1, w3, cs, ns);
                let w4 = w3.say("    [phase 3] bind mounts for chroot"@);
                mounts::law_all_are_bound(w4, root, Style::Traced, 0);
                let (w5, n, bound) = mounts::bind_does(w4, root, Style::Traced, 0);
                assert(sub::continues(w3, w4));
                effects::lemma_continues(w3, w4, w5);
                if bound is Err {
                    mounts::law_unbind_undoes_bind(w5, root, n);
                    effects::lemma_continues(w3, w5, end);
                } else {
                    law_kernel_is_installed(w5, root);
                    let w6 = inside_does(w5, root).0;
                    mounts::law_unbind_undoes_bind(w6, root, n);
                    effects::lemma_continues(w5, w6, end);
                    effects::lemma_continues(w3, w5, end);
                    if res is Ok {
                        effects::lemma_all_within(w3, w5, w6, end, installing(root));
                        effects::lemma_all_then(w, w3, end, cs + ns, installing(root));
                    }
                }
                effects::lemma_continues(w, w3, end);
            }
        }
    }
}

/// An image of the new environment carries the overlay: it was read, and what it
/// lacked was put behind it.
pub open spec fn completed(a: World, b: World, path: Seq<char>, overlay: Seq<u8>) -> bool {
    exists|n: int|
        a.calls.len() <= n < b.calls.len() && #[trigger] b.calls[n] == (Call::ReadBytes { path })
            && (b.replies)(n as nat).failure is None && (carries(
            (b.replies)(n as nat).bytes,
            overlay,
        ) || sub::called(a, b, Call::AppendFile { path, bytes: overlay }))
}

proof fn lemma_completed_within(
    a: World,
    b: World,
    c: World,
    d: World,
    path: Seq<char>,
    overlay: Seq<u8>,
)
    requires
        sub::continues(a, b),
        completed(b, c, path, overlay),
        sub::continues(c, d),
    ensures
        completed(a, d, path, overlay),
{
    let n = choose|n: int|
        b.calls.len() <= n < c.calls.len() && #[trigger] c.calls[n] == (Call::ReadBytes { path })
            && (c.replies)(n as nat).failure is None && (carries(
            (c.replies)(n as nat).bytes,
            overlay,
        ) || sub::called(b, c, Call::AppendFile { path, bytes: overlay }));
    assert(d.calls[n] == c.calls[n]);
    if !carries((c.replies)(n as nat).bytes, overlay) {
        effects::lemma_called_within(a, b, c, d, Call::AppendFile { path, bytes: overlay });
    }
}

proof fn lemma_completed(w: World, path: Seq<char>, overlay: Seq<u8>)
    ensures
        sub::continues(w, overlay_one_does(w, path, overlay).0),
        overlay_one_does(w, path, overlay).1 is Ok ==> completed(
            w,
            overlay_one_does(w, path, overlay).0,
            path,
            overlay,
        ),
{
    reveal(overlay_one_does);
    let (end, res) = overlay_one_does(w, path, overlay);
    let n = w.calls.len() as int;
    assert(end.calls[n] == Call::ReadBytes { path });
    if res is Ok && !carries(w.reply().bytes, overlay) {
        let k = end.calls.len() - 2;
        assert(end.calls[k] == Call::AppendFile { path, bytes: overlay });
    }
}

/// Every image that is found among the names is completed.
pub proof fn law_every_image_is_completed(
    w: World,
    dir: Seq<char>,
    names: Seq<Seq<char>>,
    overlay: Seq<u8>,
)
    ensures
        ({
            let (end, res) = overlay_all_does(w, dir, names, overlay);
            &&& sub::continues(w, end)
            &&& res is Ok ==> forall|i: int|
                0 <= i < names.len() && text::begins(#[trigger] names[i], "initrd.img-"@)
                    ==> completed(w, end, paths::under(dir, names[i]), overlay)
        }),
    decreases names.len(),
{
    let (end, res) = overlay_all_does(w, dir, names, overlay);
    assert(sub::continues(w, w));
    if names.len() > 0 {
        let rest = names.drop_first();
        let path = paths::under(dir, names[0]);
        let image = text::begins(names[0], "initrd.img-"@);
        lemma_completed(w, path, overlay);
        let (w1, one) = if image {
            overlay_one_does(w, path, overlay)
        } else {
            (w, Ok(()))
        };
        if one is Ok {
            law_every_image_is_completed(w1, dir, rest, overlay);
            effects::lemma_continues(w, w1, end);
            if res is Ok {
                assert(sub::continues(end, end));
                assert forall|i: int|
                    0 <= i < names.len() && text::begins(
                        #[trigger] names[i],
                        "initrd.img-"@,
                    ) implies completed(w, end, paths::under(dir, names[i]), overlay) by {
                    if i == 0 {
                        lemma_completed_within(w, w, w1, end, path, overlay);
                    } else {
                        assert(rest[i - 1] == names[i]);
                        let one = paths::under(dir, rest[i - 1]);
                        lemma_completed_within(w, w1, end, end, one, overlay);
                    }
                }
            }
        }
    }
}

/// The password file is read and written back, with the lock on the operator's
/// account taken off and nothing else.
pub proof fn law_password_is_emptied(w: World, root: Seq<char>)
    requires
        empty_password_does(w, root).1 is Ok,
    ensures
        ({
            let end = empty_password_does(w, root).0;
            let n = w.calls.len() as int;
            &&& end.calls[n] == (Call::ReadFile { path: root + "/etc/shadow"@ })
            &&& effects::came_off(
                w,
                end,
                Call::WriteFile {
                    path: root + "/etc/shadow"@,
                    bytes: vstd::utf8::encode_utf8(unlocked_file(w.reply().stdout)),
                },
            )
        }),
{
    reveal(empty_password_does);
    let end = empty_password_does(w, root).0;
    let n = w.calls.len() as int;
    assert(end.calls[n + 1] is WriteFile);
    assert(effects::went_well(end, n + 1));
}

} // verus!
