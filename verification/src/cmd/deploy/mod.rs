//! `deploy`: a fresh disk becomes a pool with a boot environment and a boot
//! loader.

pub mod be;
pub mod esp;
pub mod plan;
pub mod source;

use vstd::prelude::*;

use crate::cmd::deploy::plan::{Filling, Mode, Plan, Scheme};
use crate::cmd::deploy::source::{Origin, Source};
use crate::effects;
use crate::error;
use crate::error::Error;
use crate::pools;
use crate::sub;
use crate::sub::{Call, Fault, Runner, Step, World};
use crate::text;
use crate::zfs_ops;

verus! {

/// Arguments of `deploy`.
#[derive(Debug)]
pub struct DeployArgs {
    /// The disk. It has to be empty.
    pub target: Option<String>,
    /// The whole disk becomes the pool, without a boot loader.
    pub no_efi: bool,
    /// The pool gets no boot environment.
    pub empty: bool,
    /// The host name, from which the host id is made.
    pub hostname: String,
    /// Name of the first boot environment.
    pub be: String,
    /// Where its contents come from.
    pub source: Option<String>,
    /// The Debian suite where no source is given.
    pub suite: String,
    /// The pool whose boot environments are mirrored instead.
    pub mirror_from: Option<String>,
    /// The kernel command line of all boot environments of the pool.
    pub cmdline: Option<String>,
    /// Name of the pool.
    pub pool: String,
    /// Show the plan, and do nothing.
    pub check: bool,
    /// The same as `check`.
    pub dry_run: bool,
    /// Take no snapshot in the end.
    pub no_snapshot: bool,
}

// ---------------------------------------------------------------------------
// Commands and steps
// ---------------------------------------------------------------------------

/// Shows a command, runs it on the operator's terminal, and insists on exit
/// code 0.
pub open spec fn spawn_does(w: World, prog: Seq<char>, args: Seq<Seq<char>>) -> (World, Result<
    (),
    Seq<char>,
>) {
    let line = prog + " "@ + text::joined(args, " "@);
    let w1 = w.trace("+ "@ + line);
    (
        w1.after(Call::Attend { prog, args }),
        match w1.code() {
            Err(m) => Err(error::within("spawn `"@ + line + "`"@, m)),
            Ok(rc) => if rc == 0 {
                Ok(())
            } else {
                Err("`"@ + line + "` rc="@ + zfs_ops::rc_text(rc as int))
            },
        },
    )
}

/// Shows a command, runs it on the operator's terminal, and insists on exit
/// code 0.
pub fn spawn<R: Runner>(r: &mut R, prog: &str, args: &[&str]) -> (res: Result<(), Error>)
    ensures
        sub::did(final(r).world(), res) == spawn_does(old(r).world(), prog@, args.deep_view()),
{
    let joined: String = text::join_strs(args, " ");
    let line: String = text::cat3(prog, " ", joined.as_str());
    let shown: String = text::cat2("+ ", line.as_str());
    r.trace(shown.as_str());
    match r.attend(prog, args) {
        Err(e) => {
            let what: String = text::cat3("spawn `", line.as_str(), "`");
            Err(e.context(what.as_str()))
        },
        Ok(rc) => if rc == 0 {
            Ok(())
        } else {
            let rc: String = zfs_ops::rc_shown(rc);
            Err(Error::from_text(text::cat4("`", line.as_str(), "` rc=", rc.as_str())))
        },
    }
}

/// A step begins.
pub open spec fn step_begins(w: World, label: Seq<char>) -> World {
    w.say("[ ] "@ + label)
}

/// A step ends: it is ticked off, or its failure is put in context.
pub open spec fn step_ends(done: (World, Result<(), Seq<char>>), label: Seq<char>) -> (
    World,
    Result<(), Seq<char>>,
) {
    match done.1 {
        Err(m) => (done.0, Err(error::within("step `"@ + label + "` failed"@, m))),
        Ok(()) => (done.0.say("[x] "@ + label), Ok(())),
    }
}

/// A step begins.
pub fn begin_step<R: Runner>(r: &mut R, label: &str)
    ensures
        final(r).world() == step_begins(old(r).world(), label@),
{
    let line: String = text::cat2("[ ] ", label);
    r.say(line.as_str());
}

/// A step ends.
pub fn end_step<R: Runner>(r: &mut R, label: &str, done: Result<(), Error>) -> (res: Result<
    (),
    Error,
>)
    ensures
        sub::did(final(r).world(), res) == step_ends(
            (old(r).world(), error::outcome(done)),
            label@,
        ),
{
    match done {
        Err(e) => {
            let what: String = text::cat3("step `", label, "` failed");
            Err(e.context(what.as_str()))
        },
        Ok(()) => {
            let line: String = text::cat2("[x] ", label);
            r.say(line.as_str());
            Ok(())
        },
    }
}

/// Unmounts what is mounted at a path.
pub fn unmount_be<R: Runner>(r: &mut R, mountpoint: &str) -> (res: Result<(), Error>)
    ensures
        sub::did(final(r).world(), res) == spawn_does(
            old(r).world(),
            "umount"@,
            seq![mountpoint@],
        ),
{
    let args = text::argv1(mountpoint);
    spawn(r, "umount", args.as_slice())
}

// ---------------------------------------------------------------------------
// The host id
// ---------------------------------------------------------------------------

/// The value of a hexadecimal digit.
pub open spec fn nibble(b: u8) -> Option<nat> {
    if 48 <= b <= 57 {
        Some((b - 48) as nat)
    } else if 97 <= b <= 102 {
        Some((b - 87) as nat)
    } else if 65 <= b <= 70 {
        Some((b - 55) as nat)
    } else {
        None
    }
}

fn nibble_value(b: u8) -> (r: Option<u8>)
    ensures
        match r {
            Some(v) => nibble(b) == Some(v as nat) && v < 16,
            None => nibble(b) is None,
        },
{
    if 48 <= b && b <= 57 {
        Some(b - 48)
    } else if 97 <= b && b <= 102 {
        Some(b - 87)
    } else if 65 <= b && b <= 70 {
        Some(b - 55)
    } else {
        None
    }
}

/// The byte that two characters stand for: two digits, or a sign and a digit.
pub open spec fn hex_pair(a: u8, b: u8) -> Option<u8> {
    match nibble(b) {
        None => None,
        Some(lo) => if a == 43 {
            Some(lo as u8)
        } else {
            match nibble(a) {
                None => None,
                Some(hi) => Some((hi * 16 + lo) as u8),
            }
        },
    }
}

fn hex_pair_value(a: u8, b: u8) -> (r: Option<u8>)
    ensures
        r == hex_pair(a, b),
{
    match nibble_value(b) {
        None => None,
        Some(lo) => if a == 43 {
            Some(lo)
        } else {
            match nibble_value(a) {
                None => None,
                Some(hi) => Some(hi * 16 + lo),
            }
        },
    }
}

/// A byte that begins a character of more than one byte.
pub open spec fn leads(b: u8) -> bool {
    0xC2 <= b <= 0xF4
}

/// `b` may stand behind `a`, which begins a character.
pub open spec fn follows(a: u8, b: u8) -> bool {
    let low: int = if a == 0xE0 {
        0xA0
    } else if a == 0xF0 {
        0x90
    } else {
        0x80
    };
    let high: int = if a == 0xED {
        0x9F
    } else if a == 0xF4 {
        0x8F
    } else {
        0xBF
    };
    low <= b <= high
}

/// What keeps two bytes from being text, in the words of std's `Utf8Error`:
/// where the fault lies, and whether a character breaks off there.
pub open spec fn text_fault(a: u8, b: u8) -> Option<Seq<char>> {
    if a < 0x80 {
        if b < 0x80 {
            None
        } else if leads(b) {
            Some("incomplete utf-8 byte sequence from index 1"@)
        } else {
            Some("invalid utf-8 sequence of 1 bytes from index 1"@)
        }
    } else if leads(a) && follows(a, b) {
        if a < 0xE0 {
            None
        } else {
            Some("incomplete utf-8 byte sequence from index 0"@)
        }
    } else {
        Some("invalid utf-8 sequence of 1 bytes from index 0"@)
    }
}

fn find_text_fault(a: u8, b: u8) -> (r: Option<&'static str>)
    ensures
        r.deep_view() == text_fault(a, b),
{
    let low: u8 = if a == 0xE0 {
        0xA0
    } else if a == 0xF0 {
        0x90
    } else {
        0x80
    };
    let high: u8 = if a == 0xED {
        0x9F
    } else if a == 0xF4 {
        0x8F
    } else {
        0xBF
    };
    if a < 0x80 {
        if b < 0x80 {
            None
        } else if 0xC2 <= b && b <= 0xF4 {
            Some("incomplete utf-8 byte sequence from index 1")
        } else {
            Some("invalid utf-8 sequence of 1 bytes from index 1")
        }
    } else if 0xC2 <= a && a <= 0xF4 && low <= b && b <= high {
        if a < 0xE0 {
            None
        } else {
            Some("incomplete utf-8 byte sequence from index 0")
        }
    } else {
        Some("invalid utf-8 sequence of 1 bytes from index 0")
    }
}

/// The byte that two bytes of text stand for, or what is wrong with them.
pub open spec fn hex_byte(a: u8, b: u8, i: nat) -> Result<u8, Seq<char>> {
    match text_fault(a, b) {
        Some(m) => Err(m),
        None => match hex_pair(a, b) {
            Some(v) => Ok(v),
            None => Err(
                error::within(
                    "non-hex byte at offset "@ + text::decimal(i),
                    "invalid digit found in string"@,
                ),
            ),
        },
    }
}

fn read_hex_byte(a: u8, b: u8, i: usize) -> (r: Result<u8, Error>)
    ensures
        error::outcome(r) == hex_byte(a, b, i as nat),
{
    if let Some(m) = find_text_fault(a, b) {
        return Err(Error::new(m));
    }
    match hex_pair_value(a, b) {
        Some(v) => Ok(v),
        None => {
            let shown: String = text::dec_len(i);
            let what: String = text::cat2("non-hex byte at offset ", shown.as_str());
            Err(Error::new("invalid digit found in string").context(what.as_str()))
        },
    }
}

/// The four bytes that eight characters stand for, in their order.
pub open spec fn hex_bytes(b: Seq<u8>) -> Result<Seq<u8>, Seq<char>> {
    if b.len() != 8 {
        Err("hostid hex must be 8 chars, got "@ + text::decimal(b.len()))
    } else {
        match (
            hex_byte(b[0], b[1], 0),
            hex_byte(b[2], b[3], 1),
            hex_byte(b[4], b[5], 2),
            hex_byte(b[6], b[7], 3),
        ) {
            (Err(m), _, _, _) => Err(m),
            (_, Err(m), _, _) => Err(m),
            (_, _, Err(m), _) => Err(m),
            (_, _, _, Err(m)) => Err(m),
            (Ok(p), Ok(q), Ok(r), Ok(s)) => Ok(seq![p, q, r, s]),
        }
    }
}

/// The four bytes that eight hexadecimal digits stand for, in their order.
pub fn hex_to_bytes_le(hex8: &str) -> (res: Result<[u8; 4], Error>)
    ensures
        error::outcome(res) == hex_bytes(vstd::utf8::encode_utf8(hex8@)),
        res matches Ok(a) ==> Ok::<Seq<u8>, Seq<char>>(a@) == hex_bytes(
            vstd::utf8::encode_utf8(hex8@),
        ),
{
    let b = hex8.as_bytes();
    if b.len() != 8 {
        let n: String = text::dec_len(b.len());
        return Err(Error::from_text(text::cat2("hostid hex must be 8 chars, got ", n.as_str())));
    }
    let b0: u8 = match read_hex_byte(b[0], b[1], 0) {
        Err(e) => return Err(e),
        Ok(v) => v,
    };
    let b1: u8 = match read_hex_byte(b[2], b[3], 1) {
        Err(e) => return Err(e),
        Ok(v) => v,
    };
    let b2: u8 = match read_hex_byte(b[4], b[5], 2) {
        Err(e) => return Err(e),
        Ok(v) => v,
    };
    let b3: u8 = match read_hex_byte(b[6], b[7], 3) {
        Err(e) => return Err(e),
        Ok(v) => v,
    };
    let out: [u8; 4] = [b0, b1, b2, b3];
    assert(out@ =~= seq![b0, b1, b2, b3]);
    assert(out.deep_view() =~= out@);
    Ok(out)
}

// ---------------------------------------------------------------------------
// The disk and the pool
// ---------------------------------------------------------------------------

/// Wipes the labels of a disk.
pub open spec fn wipe_does(w: World, disk: Seq<char>) -> (World, Result<(), Seq<char>>) {
    sub::chain(
        spawn_does(w, "wipefs"@, seq!["-a"@, disk]),
        |w1: World| spawn_does(w1, "sgdisk"@, seq!["-Z"@, disk]),
    )
}

/// Wipes the labels of a disk.
pub fn wipe_disk_labels<R: Runner>(r: &mut R, disk: &str) -> (res: Result<(), Error>)
    ensures
        sub::did(final(r).world(), res) == wipe_does(old(r).world(), disk@),
{
    let args = text::argv2("-a", disk);
    match spawn(r, "wipefs", args.as_slice()) {
        Err(e) => return Err(e),
        Ok(()) => {},
    }
    let args = text::argv2("-Z", disk);
    spawn(r, "sgdisk", args.as_slice())
}

/// The partition table: a small partition for the loader, the rest for the
/// pool.
pub open spec fn table_script() -> Seq<char> {
    "label: gpt\n,512MiB,U\n,,L\n"@
}

/// Tells the kernel about the new partitions, one way or the other, and waits
/// for their device nodes. Whether that succeeds is not asked.
pub open spec fn settle_does(w: World, disk: Seq<char>) -> World {
    let (w1, told) = spawn_does(w, "partprobe"@, seq![disk]);
    let w2 = if told is Ok {
        w1
    } else {
        spawn_does(w1, "partx"@, seq!["-u"@, disk]).0
    };
    spawn_does(w2, "udevadm"@, seq!["settle"@, "--timeout=30"@]).0
}

/// Tells the kernel about the new partitions, and waits for their device nodes.
pub fn settle<R: Runner>(r: &mut R, disk: &str)
    ensures
        final(r).world() == settle_does(old(r).world(), disk@),
{
    let args = text::argv1(disk);
    match spawn(r, "partprobe", args.as_slice()) {
        Ok(()) => {},
        Err(_) => {
            let args = text::argv2("-u", disk);
            let _ = spawn(r, "partx", args.as_slice());
        },
    }
    let args = text::argv2("settle", "--timeout=30");
    let _ = spawn(r, "udevadm", args.as_slice());
}

/// The error for a step of feeding `sfdisk` that failed.
pub open spec fn divide_fault(step: Step, m: Seq<char>) -> Seq<char> {
    match step {
        Step::Start => error::within("spawn sfdisk"@, m),
        Step::Connect => "sfdisk has no stdin"@,
        Step::Write => error::within("write sfdisk script"@, m),
        Step::Wait => error::within("wait sfdisk"@, m),
        _ => m,
    }
}

fn not_divided(f: Fault) -> (e: Error)
    ensures
        e@ == divide_fault(f.step, f.message@),
{
    match f.step {
        Step::Start => f.with("spawn sfdisk"),
        Step::Connect => Error::new("sfdisk has no stdin"),
        Step::Write => f.with("write sfdisk script"),
        Step::Wait => f.with("wait sfdisk"),
        _ => f.plain(),
    }
}

/// Wipes a disk and divides it by a script.
#[verifier::opaque]
pub open spec fn divide_does(w: World, disk: Seq<char>, script: Seq<char>) -> (World, Result<
    (),
    Seq<char>,
>) {
    sub::chain(
        wipe_does(w, disk),
        |w1: World|
            {
                let w2 = w1.after(
                    Call::Feed { prog: "sfdisk"@, args: seq![disk], input: script },
                );
                match w1.fed() {
                    Err((step, m)) => (w2, Err(divide_fault(step, m))),
                    Ok(rc) => if rc == 0 {
                        (settle_does(w2, disk), Ok(()))
                    } else {
                        (w2, Err("sfdisk "@ + disk + " rc="@ + zfs_ops::rc_text(rc)))
                    },
                }
            },
    )
}

/// Wipes a disk and divides it by a script.
pub fn divide<R: Runner>(r: &mut R, disk: &str, script: &str) -> (res: Result<(), Error>)
    ensures
        sub::did(final(r).world(), res) == divide_does(old(r).world(), disk@, script@),
{
    proof {
        reveal(divide_does);
    }
    match wipe_disk_labels(r, disk) {
        Err(e) => return Err(e),
        Ok(()) => {},
    }
    let args = text::argv1(disk);
    match r.feed("sfdisk", args.as_slice(), script) {
        Err(f) => return Err(not_divided(f)),
        Ok(code) => {
            if code != 0 {
                let rc: String = zfs_ops::rc_shown(code);
                return Err(Error::from_text(text::cat4("sfdisk ", disk, " rc=", rc.as_str())));
            }
        },
    }
    settle(r, disk);
    Ok(())
}

/// Wipes a disk and divides it between the loader and the pool.
pub open spec fn partition_does(w: World, disk: Seq<char>) -> (World, Result<(), Seq<char>>) {
    divide_does(w, disk, table_script())
}

fn wipe_and_partition<R: Runner>(r: &mut R, disk: &str) -> (res: Result<(), Error>)
    ensures
        sub::did(final(r).world(), res) == partition_does(old(r).world(), disk@),
{
    divide(r, disk, "label: gpt\n,512MiB,U\n,,L\n")
}

/// Writes the host id of the machine that deploys, which the new pool takes.
#[verifier::opaque]
pub open spec fn host_hostid_does(w: World, hostid: Seq<char>) -> (World, Result<(), Seq<char>>) {
    match hex_bytes(vstd::utf8::encode_utf8(hostid)) {
        Err(m) => (w, Err(m)),
        Ok(bytes) => sub::explained(
            (w.after(Call::WriteFile { path: "/etc/hostid"@, bytes }), w.unit()),
            "write /etc/hostid"@,
        ),
    }
}

fn write_host_hostid<R: Runner>(r: &mut R, hex8: &str) -> (res: Result<(), Error>)
    ensures
        sub::did(final(r).world(), res) == host_hostid_does(old(r).world(), hex8@),
{
    proof {
        reveal(host_hostid_does);
    }
    let bytes = match hex_to_bytes_le(hex8) {
        Err(e) => return Err(e),
        Ok(b) => b,
    };
    match r.write_file("/etc/hostid", bytes.as_slice()) {
        Err(e) => Err(e.context("write /etc/hostid")),
        Ok(()) => Ok(()),
    }
}

/// How the pool is made: with features that older systems know too.
pub open spec fn create_pool_args(pool: Seq<char>, partition: Seq<char>) -> Seq<Seq<char>> {
    seq![
        "create"@,
        "-f"@,
        "-o"@,
        "ashift=12"@,
        "-o"@,
        "cachefile=none"@,
        "-o"@,
        "compatibility=openzfs-2.1-linux"@,
        "-O"@,
        "canmount=off"@,
        "-O"@,
        "mountpoint=none"@,
        "-O"@,
        "compression=zstd"@,
        "-O"@,
        "xattr=sa"@,
        "-O"@,
        "acltype=posixacl"@,
        pool,
        partition,
    ]
}

fn create_pool<R: Runner>(r: &mut R, pool: &str, partition: &str) -> (res: Result<(), Error>)
    ensures
        sub::did(final(r).world(), res) == spawn_does(
            old(r).world(),
            "zpool"@,
            create_pool_args(pool@, partition@),
        ),
{
    let mut args = text::argv9(
        "create",
        "-f",
        "-o",
        "ashift=12",
        "-o",
        "cachefile=none",
        "-o",
        "compatibility=openzfs-2.1-linux",
        "-O",
    );
    let mut more = text::argv9(
        "canmount=off",
        "-O",
        "mountpoint=none",
        "-O",
        "compression=zstd",
        "-O",
        "xattr=sa",
        "-O",
        "acltype=posixacl",
    );
    let mut last = text::argv2(pool, partition);
    let ghost (a, b, c) = (args@, more@, last@);
    let ghost (va, vb, vc) = (args.deep_view(), more.deep_view(), last.deep_view());
    args.append(&mut more);
    args.append(&mut last);
    assert(args@ =~= a + b + c);
    assert(args.deep_view() =~= va + vb + vc);
    assert(args.deep_view() =~= create_pool_args(pool@, partition@));
    spawn(r, "zpool", args.as_slice())
}

fn create_root_container<R: Runner>(r: &mut R, pool: &str) -> (res: Result<(), Error>)
    ensures
        sub::did(final(r).world(), res) == spawn_does(
            old(r).world(),
            "zfs"@,
            seq![
                "create"@,
                "-o"@,
                "canmount=off"@,
                "-o"@,
                "mountpoint=none"@,
                pool@ + "/ROOT"@,
            ],
        ),
{
    let root: String = text::cat2(pool, "/ROOT");
    let args = text::argv6(
        "create",
        "-o",
        "canmount=off",
        "-o",
        "mountpoint=none",
        root.as_str(),
    );
    spawn(r, "zfs", args.as_slice())
}

/// Mounts the new boot environment.
pub open spec fn mount_be_does(w: World, dataset: Seq<char>, mountpoint: Seq<char>) -> (
    World,
    Result<(), Seq<char>>,
) {
    sub::chain(
        sub::explained(
            (w.after(Call::MakeDirs { path: mountpoint }), w.unit()),
            "mkdir "@ + mountpoint,
        ),
        |w1: World|
            spawn_does(
                w1,
                "mount"@,
                seq!["-t"@, "zfs"@, "-o"@, "zfsutil"@, dataset, mountpoint],
            ),
    )
}

fn mount_be<R: Runner>(r: &mut R, dataset: &str, mountpoint: &str) -> (res: Result<(), Error>)
    ensures
        sub::did(final(r).world(), res) == mount_be_does(old(r).world(), dataset@, mountpoint@),
{
    match r.make_dirs(mountpoint) {
        Err(e) => {
            let what: String = text::cat2("mkdir ", mountpoint);
            return Err(e.context(what.as_str()));
        },
        Ok(()) => {},
    }
    let args = text::argv6("-t", "zfs", "-o", "zfsutil", dataset, mountpoint);
    spawn(r, "mount", args.as_slice())
}

/// A step that runs one command.
pub open spec fn command_step(
    w: World,
    label: Seq<char>,
    prog: Seq<char>,
    args: Seq<Seq<char>>,
) -> (World, Result<(), Seq<char>>) {
    step_ends(spawn_does(step_begins(w, label), prog, args), label)
}

fn run_step<R: Runner>(r: &mut R, label: &str, prog: &str, args: &[&str]) -> (res: Result<
    (),
    Error,
>)
    ensures
        sub::did(final(r).world(), res) == command_step(
            old(r).world(),
            label@,
            prog@,
            args.deep_view(),
        ),
{
    begin_step(r, label);
    let done = spawn(r, prog, args);
    end_step(r, label, done)
}

// ---------------------------------------------------------------------------
// Before anything is done
// ---------------------------------------------------------------------------

/// The lines that a program prints about a disk.
pub open spec fn ask_disk_does(
    w: World,
    prog: Seq<char>,
    args: Seq<Seq<char>>,
    shown: Seq<char>,
    skip: nat,
) -> (World, Result<Seq<Seq<char>>, Seq<char>>) {
    (
        w.run(prog, args),
        match w.printed() {
            Err(m) => Err(error::within("spawn "@ + prog, m)),
            Ok(out) => if out.rc == 0 {
                let ls = text::lines_of(out.stdout);
                match sub::legible(out, "non-utf8 "@ + prog + " output"@) {
                    Err(m) => Err(m),
                    Ok(_) => Ok(
                        pools::full_lines(
                            if skip <= ls.len() {
                                ls.skip(skip as int)
                            } else {
                                seq![]
                            },
                        ),
                    ),
                }
            } else {
                Err(
                    shown + " rc="@ + zfs_ops::rc_text(out.rc) + ": "@ + text::trimmed(
                        out.stderr,
                    ),
                )
            },
        },
    )
}

fn ask_disk<R: Runner>(r: &mut R, prog: &str, args: &[&str], shown: &str, skip: usize) -> (res:
    Result<Vec<String>, Error>)
    ensures
        sub::did(final(r).world(), res) == ask_disk_does(
            old(r).world(),
            prog@,
            args.deep_view(),
            shown@,
            skip as nat,
        ),
{
    match r.read(prog, args) {
        Err(e) => {
            let what: String = text::cat2("spawn ", prog);
            Err(e.context(what.as_str()))
        },
        Ok(out) => if out.rc == 0 {
            let what: String = text::cat3("non-utf8 ", prog, " output");
            match sub::check_legible(&out, what.as_str()) {
                Err(e) => Err(e),
                Ok(()) => Ok(pools::nonblank_lines_from(out.stdout.as_str(), skip)),
            }
        } else {
            let rc: String = zfs_ops::rc_shown(out.rc);
            Err(
                Error::from_text(
                    text::cat5(
                        shown,
                        " rc=",
                        rc.as_str(),
                        ": ",
                        text::trim(out.stderr.as_str()),
                    ),
                ),
            )
        },
    }
}

/// The devices on a disk: all that is listed but the disk itself.
pub open spec fn children_does(w: World, disk: Seq<char>) -> (World, Result<
    Seq<Seq<char>>,
    Seq<char>,
>) {
    ask_disk_does(w, "lsblk"@, seq!["-nro"@, "NAME"@, disk], "lsblk "@ + disk, 1)
}

/// The devices on a disk.
pub fn lsblk_children<R: Runner>(r: &mut R, disk: &str) -> (res: Result<Vec<String>, Error>)
    ensures
        sub::did(final(r).world(), res) == children_does(old(r).world(), disk@),
{
    let args = text::argv3("-nro", "NAME", disk);
    let shown: String = text::cat2("lsblk ", disk);
    ask_disk(r, "lsblk", args.as_slice(), shown.as_str(), 1)
}

/// The signatures on a disk.
pub open spec fn signatures_does(w: World, disk: Seq<char>) -> (World, Result<
    Seq<Seq<char>>,
    Seq<char>,
>) {
    ask_disk_does(
        w,
        "wipefs"@,
        seq!["--noheadings"@, "--output=TYPE"@, "-n"@, disk],
        "wipefs -n "@ + disk,
        0,
    )
}

/// The signatures on a disk.
pub fn wipefs_signatures<R: Runner>(r: &mut R, disk: &str) -> (res: Result<Vec<String>, Error>)
    ensures
        sub::did(final(r).world(), res) == signatures_does(old(r).world(), disk@),
{
    let args = text::argv4("--noheadings", "--output=TYPE", "-n", disk);
    let shown: String = text::cat2("wipefs -n ", disk);
    ask_disk(r, "wipefs", args.as_slice(), shown.as_str(), 0)
}

/// The complaint about a disk that is not empty.
pub open spec fn not_empty_text(
    disk: Seq<char>,
    children: Seq<Seq<char>>,
    signatures: Seq<Seq<char>>,
) -> Seq<char> {
    "refusing to deploy onto "@ + disk + ": not empty.\n"@ + (if children.len() > 0 {
        "  existing partitions/children: "@ + text::joined(children, ", "@) + "\n"@
    } else {
        seq![]
    }) + (if signatures.len() > 0 {
        "  disk signature(s) detected   : "@ + text::joined(signatures, ", "@) + "\n"@
    } else {
        seq![]
    }) + ("  clear with: wipefs -a "@ + disk + " && sgdisk -Z "@ + disk + "\n"@)
        + "  bypass with: ZBOOT_DEPLOY_ALLOW_NONEMPTY=1 (loud)"@
}

fn not_empty(disk: &str, children: &Vec<String>, signatures: &Vec<String>) -> (e: Error)
    ensures
        e@ == not_empty_text(disk@, children.deep_view(), signatures.deep_view()),
{
    proof {
        reveal_strlit("");
    }
    let first: String = if children.len() > 0 {
        let shown: String = text::join(children, ", ");
        text::cat3("  existing partitions/children: ", shown.as_str(), "\n")
    } else {
        "".to_owned()
    };
    let second: String = if signatures.len() > 0 {
        let shown: String = text::join(signatures, ", ");
        text::cat3("  disk signature(s) detected   : ", shown.as_str(), "\n")
    } else {
        "".to_owned()
    };
    let third: String = text::cat5(
        "  clear with: wipefs -a ",
        disk,
        " && sgdisk -Z ",
        disk,
        "\n",
    );
    assert(""@ =~= seq![]);
    Error::from_text(
        text::cat7(
            "refusing to deploy onto ",
            disk,
            ": not empty.\n",
            first.as_str(),
            second.as_str(),
            third.as_str(),
            "  bypass with: ZBOOT_DEPLOY_ALLOW_NONEMPTY=1 (loud)",
        ),
    )
}

/// Refuses a disk with anything on it, unless the environment allows it.
#[verifier::opaque]
pub open spec fn ensure_empty_does(w: World, disk: Seq<char>) -> (World, Result<(), Seq<char>>) {
    let w1 = w.after(Call::Env { name: "ZBOOT_DEPLOY_ALLOW_NONEMPTY"@ });
    if w.maybe() == Some("1"@) {
        sub::tell_does(
            w1,
            "[ZBOOT_DEPLOY_ALLOW_NONEMPTY=1 — skipping empty-disk preflight]"@,
            "write nonempty-bypass notice"@,
        )
    } else {
        let (w2, children) = children_does(w1, disk);
        match children {
            Err(m) => (w2, Err(m)),
            Ok(cs) => {
                let (w3, signatures) = signatures_does(w2, disk);
                match signatures {
                    Err(m) => (w3, Err(m)),
                    Ok(ss) => if cs.len() == 0 && ss.len() == 0 {
                        (w3, Ok(()))
                    } else {
                        (w3, Err(not_empty_text(disk, cs, ss)))
                    },
                }
            },
        }
    }
}

/// Refuses a disk with anything on it, unless the environment allows it.
pub fn ensure_disk_empty<R: Runner>(r: &mut R, disk: &str) -> (res: Result<(), Error>)
    ensures
        sub::did(final(r).world(), res) == ensure_empty_does(old(r).world(), disk@),
{
    proof {
        reveal(ensure_empty_does);
    }
    let allowed = r.env("ZBOOT_DEPLOY_ALLOW_NONEMPTY");
    if text::opt_is(&allowed, "1") {
        return sub::tell(
            r,
            "[ZBOOT_DEPLOY_ALLOW_NONEMPTY=1 — skipping empty-disk preflight]",
            "write nonempty-bypass notice",
        );
    }
    let children = match lsblk_children(r, disk) {
        Err(e) => return Err(e),
        Ok(c) => c,
    };
    let signatures = match wipefs_signatures(r, disk) {
        Err(e) => return Err(e),
        Ok(s) => s,
    };
    if children.len() == 0 && signatures.len() == 0 {
        return Ok(());
    }
    Err(not_empty(disk, &children, &signatures))
}

/// The complaint about a pool of the same name that is imported.
pub open spec fn imported_text(p: Seq<char>) -> Seq<char> {
    "pool `"@ + p + "` is CURRENTLY IMPORTED on this system. `zpool create "@ + p
        + " ...` would fail. Resolve by one of: (a) `zpool export "@ + p
        + "` then re-run deploy; (b) `zpool destroy "@ + p
        + "` if the existing pool is disposable; (c) re-run deploy with `--pool <other-name>` for a multi-pool host."@
}

/// The complaint about a pool of the same name on another disk.
pub open spec fn importable_text(p: Seq<char>) -> Seq<char> {
    "an importable pool named `"@ + p
        + "` already exists on another disk. Deploy refuses to proceed — at boot time, ZFS would resolve `"@
        + p + "` to one of them arbitrarily. Resolve by one of: (a) `zpool import "@ + p
        + "` to confirm which disk, then `zpool destroy "@ + p
        + "`; (b) `wipefs -a <disk>` on the conflicting disk to remove ZFS labels; (c) re-run deploy with `--pool <other-name>` for a multi-pool host."@
}

/// Refuses a pool's name that is taken.
#[verifier::opaque]
pub open spec fn no_collision_does(w: World, p: Seq<char>) -> (World, Result<(), Seq<char>>) {
    let (w1, imported) = pools::is_pool_imported_does(
        w.say("[ ] preflight: no other `"@ + p + "` visible"@),
        p,
    );
    match imported {
        Err(m) => (w1, Err(m)),
        Ok(true) => (w1, Err(imported_text(p))),
        Ok(false) => {
            let (w2, importable) = pools::importable_pools_does(w1);
            match importable {
                Err(m) => (w2, Err(m)),
                Ok(names) => if names.contains(p) {
                    (w2, Err(importable_text(p)))
                } else {
                    (w2.say("[x] preflight: no other `"@ + p + "` visible"@), Ok(()))
                },
            }
        },
    }
}

/// Refuses a pool's name that is taken.
pub fn ensure_no_pool_name_collision<R: Runner>(r: &mut R, p: &str) -> (res: Result<(), Error>)
    ensures
        sub::did(final(r).world(), res) == no_collision_does(old(r).world(), p@),
{
    proof {
        reveal(no_collision_does);
    }
    let line: String = text::cat3("[ ] preflight: no other `", p, "` visible");
    r.say(line.as_str());
    match pools::is_pool_imported(r, p) {
        Err(e) => return Err(e),
        Ok(true) => return Err(
            Error::from_text(
                text::cat9(
                    "pool `",
                    p,
                    "` is CURRENTLY IMPORTED on this system. `zpool create ",
                    p,
                    " ...` would fail. Resolve by one of: (a) `zpool export ",
                    p,
                    "` then re-run deploy; (b) `zpool destroy ",
                    p,
                    "` if the existing pool is disposable; (c) re-run deploy with `--pool <other-name>` for a multi-pool host.",
                ),
            ),
        ),
        Ok(false) => {},
    }
    let names = match pools::importable_pools(r) {
        Err(e) => return Err(e),
        Ok(n) => n,
    };
    if text::any_eq(&names, p) {
        return Err(
            Error::from_text(
                text::cat9(
                    "an importable pool named `",
                    p,
                    "` already exists on another disk. Deploy refuses to proceed — at boot time, ZFS would resolve `",
                    p,
                    "` to one of them arbitrarily. Resolve by one of: (a) `zpool import ",
                    p,
                    "` to confirm which disk, then `zpool destroy ",
                    p,
                    "`; (b) `wipefs -a <disk>` on the conflicting disk to remove ZFS labels; (c) re-run deploy with `--pool <other-name>` for a multi-pool host.",
                ),
            ),
        );
    }
    let line: String = text::cat3("[x] preflight: no other `", p, "` visible");
    r.say(line.as_str());
    Ok(())
}

/// Shows a line; a failure is handed on where it `must` be shown.
pub open spec fn tell_if_does(w: World, text: Seq<char>, what: Seq<char>, must: bool) -> (
    World,
    Result<(), Seq<char>>,
) {
    if must {
        sub::tell_does(w, text, what)
    } else {
        (w.say(text), Ok(()))
    }
}

fn tell_if<R: Runner>(r: &mut R, text: &str, what: &str, must: bool) -> (res: Result<(), Error>)
    ensures
        sub::did(final(r).world(), res) == tell_if_does(old(r).world(), text@, what@, must),
{
    if must {
        sub::tell(r, text, what)
    } else {
        r.say(text);
        Ok(())
    }
}

/// Lets the operator confirm by typing a name, or takes the word of an
/// environment variable for it. With `must`, what is told has to be shown.
#[verifier::opaque]
pub open spec fn confirm_by_does(
    w: World,
    var: Seq<char>,
    warning: Seq<char>,
    expected: Seq<char>,
    bypass: Option<Seq<char>>,
    must: bool,
) -> (World, Result<(), Seq<char>>) {
    match bypass {
        Some(v) => if v == expected {
            tell_if_does(
                w,
                "[confirmed via "@ + var + "="@ + expected + "]"@,
                "write env-bypass notice"@,
                must,
            )
        } else {
            (
                w,
                Err(
                    var + "="@ + text::quoted_text(v) + " does not match target basename "@
                        + text::quoted_text(expected),
                ),
            )
        },
        None => {
            let (w1, told) = tell_if_does(
                w,
                warning + " Type "@ + text::quoted_text(expected)
                    + " to proceed (Ctrl-C to abort):"@,
                "write confirmation prompt"@,
                must,
            );
            if told is Err {
                (w1, told)
            } else {
                let w2 = w1.after(Call::Ask);
                match w1.line() {
                    Err(m) => (w2, Err(error::within("read confirmation"@, m))),
                    Ok(l) => if text::trimmed(l) == expected {
                        (w2, Ok(()))
                    } else {
                        (
                            w2,
                            Err(
                                "confirmation mismatch: expected exactly "@ + text::quoted_text(
                                    expected,
                                ) + ", got "@ + text::quoted_text(text::trimmed(l)),
                            ),
                        )
                    },
                }
            }
        },
    }
}

/// Lets the operator confirm by typing a name, or takes the word of an
/// environment variable for it. With `must`, what is told has to be shown.
pub fn confirm_by<R: Runner>(
    r: &mut R,
    var: &str,
    warning: &str,
    expected: &str,
    env_bypass: Option<&str>,
    must: bool,
) -> (res: Result<(), Error>)
    ensures
        sub::did(final(r).world(), res) == confirm_by_does(
            old(r).world(),
            var@,
            warning@,
            expected@,
            env_bypass.deep_view(),
            must,
        ),
{
    proof {
        reveal(confirm_by_does);
    }
    let q: String = text::quoted(expected);
    match env_bypass {
        Some(v) => {
            if text::eq(v, expected) {
                let line: String = text::cat5("[confirmed via ", var, "=", expected, "]");
                return tell_if(r, line.as_str(), "write env-bypass notice", must);
            }
            let qv: String = text::quoted(v);
            return Err(
                Error::from_text(
                    text::cat5(
                        var,
                        "=",
                        qv.as_str(),
                        " does not match target basename ",
                        q.as_str(),
                    ),
                ),
            );
        },
        None => {},
    }
    let line: String = text::cat4(
        warning,
        " Type ",
        q.as_str(),
        " to proceed (Ctrl-C to abort):",
    );
    if let Err(e) = tell_if(r, line.as_str(), "write confirmation prompt", must) {
        return Err(e);
    }
    let typed: String = match r.ask() {
        Err(e) => return Err(e.context("read confirmation")),
        Ok(l) => l,
    };
    let got: &str = text::trim(typed.as_str());
    if text::eq(got, expected) {
        return Ok(());
    }
    let qg: String = text::quoted(got);
    Err(
        Error::from_text(
            text::cat4(
                "confirmation mismatch: expected exactly ",
                q.as_str(),
                ", got ",
                qg.as_str(),
            ),
        ),
    )
}

/// Lets the operator confirm by typing the disk's name, or takes the
/// environment's word for it.
pub open spec fn confirm_does(w: World, expected: Seq<char>, bypass: Option<Seq<char>>) -> (
    World,
    Result<(), Seq<char>>,
) {
    confirm_by_does(
        w,
        "ZBOOT_DEPLOY_CONFIRM_DISK"@,
        "This will WIPE the target disk."@,
        expected,
        bypass,
        true,
    )
}

/// Lets the operator confirm by typing the disk's name.
pub fn confirm_target<R: Runner>(r: &mut R, expected: &str, env_bypass: Option<&str>) -> (res: Result<
    (),
    Error,
>)
    ensures
        sub::did(final(r).world(), res) == confirm_does(
            old(r).world(),
            expected@,
            env_bypass.deep_view(),
        ),
{
    confirm_by(
        r,
        "ZBOOT_DEPLOY_CONFIRM_DISK",
        "This will WIPE the target disk.",
        expected,
        env_bypass,
        true,
    )
}

// ---------------------------------------------------------------------------
// What is done
// ---------------------------------------------------------------------------

/// The disk becomes a pool with a container for boot environments.
#[verifier::opaque]
pub open spec fn make_pool_does(w: World, p: Scheme) -> (World, Result<(), Seq<char>>) {
    sub::chain(
        if p.esp_partition is Some {
            step_ends(
                partition_does(step_begins(w, "wipe target + sfdisk GPT"@), p.disk),
                "wipe target + sfdisk GPT"@,
            )
        } else {
            step_ends(
                wipe_does(step_begins(w, "wipe target disk labels"@), p.disk),
                "wipe target disk labels"@,
            )
        },
        |w1: World|
            sub::chain(
                step_ends(
                    host_hostid_does(step_begins(w1, "write host hostid"@), p.hostid_hex),
                    "write host hostid"@,
                ),
                |w2: World|
                    sub::chain(
                        command_step(
                            w2,
                            "zpool create"@,
                            "zpool"@,
                            create_pool_args(p.pool, p.pool_partition),
                        ),
                        |w3: World|
                            sub::chain(
                                command_step(
                                    w3,
                                    "tag pool role=root"@,
                                    "zpool"@,
                                    seq!["set"@, "zboot:role=root"@, p.pool],
                                ),
                                |w4: World|
                                    command_step(
                                        w4,
                                        "create ROOT container"@,
                                        "zfs"@,
                                        seq![
                                            "create"@,
                                            "-o"@,
                                            "canmount=off"@,
                                            "-o"@,
                                            "mountpoint=none"@,
                                            p.pool + "/ROOT"@,
                                        ],
                                    ),
                            ),
                    ),
            ),
    )
}

fn make_pool<R: Runner>(r: &mut R, plan: &Plan) -> (res: Result<(), Error>)
    ensures
        sub::did(final(r).world(), res) == make_pool_does(old(r).world(), plan.deep_view()),
{
    proof {
        reveal(make_pool_does);
    }
    let wiped = if plan.has_esp() {
        begin_step(r, "wipe target + sfdisk GPT");
        let done = wipe_and_partition(r, plan.disk.as_str());
        end_step(r, "wipe target + sfdisk GPT", done)
    } else {
        begin_step(r, "wipe target disk labels");
        let done = wipe_disk_labels(r, plan.disk.as_str());
        end_step(r, "wipe target disk labels", done)
    };
    match wiped {
        Err(e) => return Err(e),
        Ok(()) => {},
    }
    begin_step(r, "write host hostid");
    let done = write_host_hostid(r, plan.hostid_hex.as_str());
    match end_step(r, "write host hostid", done) {
        Err(e) => return Err(e),
        Ok(()) => {},
    }
    begin_step(r, "zpool create");
    let done = create_pool(r, plan.pool.as_str(), plan.pool_partition.as_str());
    match end_step(r, "zpool create", done) {
        Err(e) => return Err(e),
        Ok(()) => {},
    }
    let args = text::argv3("set", "zboot:role=root", plan.pool.as_str());
    match run_step(r, "tag pool role=root", "zpool", args.as_slice()) {
        Err(e) => return Err(e),
        Ok(()) => {},
    }
    begin_step(r, "create ROOT container");
    let done = create_root_container(r, plan.pool.as_str());
    end_step(r, "create ROOT container", done)
}

/// Mirrors the boot environments of another pool into the new one.
#[verifier::opaque]
pub open spec fn mirror_does(w: World, from: Seq<char>, pool: Seq<char>) -> (World, Result<
    (),
    Seq<char>,
>) {
    let w1 = w.say("[ ] mirror from "@ + from + " → "@ + pool);
    let exe = match w1.line() {
        Ok(p) => p,
        Err(_) => "zboot"@,
    };
    let w2 = w1.after(Call::Exe);
    let w3 = w2.after(Call::Attend { prog: exe, args: seq!["mirror"@, "--to"@, pool] });
    match w2.code() {
        Err(m) => (
            w3,
            Err(error::within("spawn `"@ + exe + " mirror --to "@ + pool + "`"@, m)),
        ),
        Ok(rc) => if rc == 0 {
            (w3.say("[x] mirror complete"@), Ok(()))
        } else {
            (
                w3,
                Err("`zboot mirror --to "@ + pool + "` rc="@ + zfs_ops::rc_text(rc as int)),
            )
        },
    }
}

fn mirror_into<R: Runner>(r: &mut R, from: &str, pool: &str) -> (res: Result<(), Error>)
    ensures
        sub::did(final(r).world(), res) == mirror_does(old(r).world(), from@, pool@),
{
    proof {
        reveal(mirror_does);
    }
    let line: String = text::cat4("[ ] mirror from ", from, " → ", pool);
    r.say(line.as_str());
    let exe: String = match r.exe() {
        Ok(p) => p,
        Err(_) => "zboot".to_owned(),
    };
    let args = text::argv3("mirror", "--to", pool);
    match r.attend(exe.as_str(), args.as_slice()) {
        Err(e) => {
            let what: String = text::cat5("spawn `", exe.as_str(), " mirror --to ", pool, "`");
            Err(e.context(what.as_str()))
        },
        Ok(rc) => if rc == 0 {
            r.say("[x] mirror complete");
            Ok(())
        } else {
            let rc: String = zfs_ops::rc_shown(rc);
            Err(
                Error::from_text(
                    text::cat4("`zboot mirror --to ", pool, "` rc=", rc.as_str()),
                ),
            )
        },
    }
}

/// Makes the dataset of the boot environment, marks it and mounts it.
#[verifier::opaque]
pub open spec fn make_be_does(w: World, p: Scheme, mp: Seq<char>) -> (World, Result<(), Seq<char>>) {
    let label = "mount BE at "@ + mp;
    sub::chain(
        command_step(
            w,
            "create BE dataset"@,
            "zfs"@,
            seq![
                "create"@,
                "-o"@,
                "canmount=noauto"@,
                "-o"@,
                "mountpoint=/"@,
                p.be_dataset,
            ],
        ),
        |w1: World|
            sub::chain(
                command_step(w1, "tag BE"@, "zfs"@, seq!["set"@, "zboot:be=true"@, p.be_dataset]),
                |w2: World|
                    step_ends(mount_be_does(step_begins(w2, label), p.be_dataset, mp), label),
            ),
    )
}

fn make_be<R: Runner>(r: &mut R, plan: &Plan, mp: &str) -> (res: Result<(), Error>)
    ensures
        sub::did(final(r).world(), res) == make_be_does(old(r).world(), plan.deep_view(), mp@),
{
    proof {
        reveal(make_be_does);
    }
    let ds: &str = plan.be_dataset.as_str();
    let args = text::argv6("create", "-o", "canmount=noauto", "-o", "mountpoint=/", ds);
    match run_step(r, "create BE dataset", "zfs", args.as_slice()) {
        Err(e) => return Err(e),
        Ok(()) => {},
    }
    let args = text::argv3("set", "zboot:be=true", ds);
    match run_step(r, "tag BE", "zfs", args.as_slice()) {
        Err(e) => return Err(e),
        Ok(()) => {},
    }
    let label: String = text::cat2("mount BE at ", mp);
    begin_step(r, label.as_str());
    let done = mount_be(r, ds, mp);
    end_step(r, label.as_str(), done)
}

/// Fills the mounted boot environment, gives it the host's identity, and opens
/// it to the operator.
#[verifier::opaque]
pub open spec fn fill_be_does(w: World, p: Scheme, s: Origin, mp: Seq<char>) -> (World, Result<
    (),
    Seq<char>,
>) {
    sub::chain(
        be::populate_does(
            w.say("[ ] populate from "@ + source::source_text(s)),
            s,
            mp,
            p.hostid_hex,
            p.hostname,
        ),
        |w1: World|
            sub::chain(
                step_ends(
                    be::identity_does(
                        step_begins(
                            w1.say("[x] populate complete"@),
                            "write BE hostid + hostname"@,
                        ),
                        mp,
                        p.hostid_hex,
                        p.hostname,
                    ),
                    "write BE hostid + hostname"@,
                ),
                |w2: World|
                    sub::chain(
                        step_ends(
                            be::empty_password_does(
                                step_begins(w2, "empty root password (first-boot access)"@),
                                mp,
                            ),
                            "empty root password (first-boot access)"@,
                        ),
                        |w3: World|
                            sub::chain(
                                be::overlay_initrds_does(
                                    w3.say("[ ] cpio-overlay /etc/hostid in BE's initrds"@),
                                    mp,
                                    p.hostid_hex,
                                ),
                                |w4: World|
                                    (
                                        w4.say("[x] cpio-overlay /etc/hostid in BE's initrds"@),
                                        Ok(()),
                                    ),
                            ),
                    ),
            ),
    )
}

fn fill_be<R: Runner>(r: &mut R, plan: &Plan, s: &Source, mp: &str) -> (res: Result<(), Error>)
    ensures
        sub::did(final(r).world(), res) == fill_be_does(
            old(r).world(),
            plan.deep_view(),
            s.deep_view(),
            mp@,
        ),
{
    proof {
        reveal(fill_be_does);
    }
    let shown: String = s.render();
    let line: String = text::cat2("[ ] populate from ", shown.as_str());
    r.say(line.as_str());
    let hostid: &str = plan.hostid_hex.as_str();
    let hostname: &str = plan.hostname.as_str();
    match be::populate_be(r, s, mp, hostid, hostname) {
        Err(e) => return Err(e),
        Ok(()) => {},
    }
    r.say("[x] populate complete");
    begin_step(r, "write BE hostid + hostname");
    let done = be::write_be_identity(r, mp, hostid, hostname);
    match end_step(r, "write BE hostid + hostname", done) {
        Err(e) => return Err(e),
        Ok(()) => {},
    }
    begin_step(r, "empty root password (first-boot access)");
    let done = be::empty_root_password(r, mp);
    match end_step(r, "empty root password (first-boot access)", done) {
        Err(e) => return Err(e),
        Ok(()) => {},
    }
    r.say("[ ] cpio-overlay /etc/hostid in BE's initrds");
    match be::overlay_hostid_in_initrds(r, mp, hostid) {
        Err(e) => return Err(e),
        Ok(()) => {},
    }
    r.say("[x] cpio-overlay /etc/hostid in BE's initrds");
    Ok(())
}

/// The boot environment becomes the one that boots: its command line is set,
/// the pool points at it, it is snapshotted and unmounted.
#[verifier::opaque]
pub open spec fn finish_be_does(w: World, p: Scheme, no_snapshot: bool, mp: Seq<char>) -> (
    World,
    Result<(), Seq<char>>,
) {
    sub::chain(
        match p.cmdline {
            None => (w, Ok(())),
            Some(c) => command_step(
                w,
                "set zboot:kernel-cmdline on ROOT"@,
                "zfs"@,
                seq!["set"@, "zboot:kernel-cmdline="@ + c, p.pool + "/ROOT"@],
            ),
        },
        |w1: World|
            sub::chain(
                command_step(
                    w1,
                    "set bootfs"@,
                    "zpool"@,
                    seq!["set"@, "bootfs="@ + p.be_dataset, p.pool],
                ),
                |w2: World|
                    sub::chain(
                        if no_snapshot {
                            (w2, Ok(()))
                        } else {
                            command_step(
                                w2,
                                "snapshot @deploy (rollback point)"@,
                                "zfs"@,
                                seq!["snapshot"@, p.be_dataset + "@deploy"@],
                            )
                        },
                        |w3: World| command_step(w3, "unmount BE"@, "umount"@, seq![mp]),
                    ),
            ),
    )
}

fn finish_be<R: Runner>(r: &mut R, plan: &Plan, no_snapshot: bool, mp: &str) -> (res: Result<
    (),
    Error,
>)
    ensures
        sub::did(final(r).world(), res) == finish_be_does(
            old(r).world(),
            plan.deep_view(),
            no_snapshot,
            mp@,
        ),
{
    proof {
        reveal(finish_be_does);
    }
    match &plan.cmdline {
        None => {},
        Some(c) => {
            let prop: String = text::cat2("zboot:kernel-cmdline=", c.as_str());
            let root: String = text::cat2(plan.pool.as_str(), "/ROOT");
            let args = text::argv3("set", prop.as_str(), root.as_str());
            match run_step(r, "set zboot:kernel-cmdline on ROOT", "zfs", args.as_slice()) {
                Err(e) => return Err(e),
                Ok(()) => {},
            }
        },
    }
    let prop: String = text::cat2("bootfs=", plan.be_dataset.as_str());
    let args = text::argv3("set", prop.as_str(), plan.pool.as_str());
    match run_step(r, "set bootfs", "zpool", args.as_slice()) {
        Err(e) => return Err(e),
        Ok(()) => {},
    }
    if !no_snapshot {
        let snap: String = text::cat2(plan.be_dataset.as_str(), "@deploy");
        let args = text::argv2("snapshot", snap.as_str());
        match run_step(r, "snapshot @deploy (rollback point)", "zfs", args.as_slice()) {
            Err(e) => return Err(e),
            Ok(()) => {},
        }
    }
    let args = text::argv1(mp);
    run_step(r, "unmount BE", "umount", args.as_slice())
}

/// Fills the new pool.
#[verifier::opaque]
pub open spec fn fill_pool_does(w: World, p: Scheme, no_snapshot: bool) -> (World, Result<
    (),
    Seq<char>,
>) {
    match p.mode {
        Filling::MirrorFrom(from) => mirror_does(w, from, p.pool),
        Filling::Source(s) => {
            let mp = "/tmp/zboot-deploy-"@ + text::decimal(w.reply().pid as nat);
            sub::chain(
                make_be_does(w.after(Call::Pid), p, mp),
                |w1: World|
                    sub::chain(
                        fill_be_does(w1, p, s, mp),
                        |w2: World| finish_be_does(w2, p, no_snapshot, mp),
                    ),
            )
        },
        Filling::Empty => (
            w.say("[ ] --empty: no BE installed; bootfs left unset"@),
            Ok(()),
        ),
    }
}

fn fill_pool<R: Runner>(r: &mut R, plan: &Plan, no_snapshot: bool) -> (res: Result<(), Error>)
    ensures
        sub::did(final(r).world(), res) == fill_pool_does(
            old(r).world(),
            plan.deep_view(),
            no_snapshot,
        ),
{
    proof {
        reveal(fill_pool_does);
    }
    match &plan.mode {
        Mode::MirrorFrom(from) => mirror_into(r, from.as_str(), plan.pool.as_str()),
        Mode::Source(s) => {
            let pid: String = text::dec(r.pid() as u128);
            let mp: String = text::cat2("/tmp/zboot-deploy-", pid.as_str());
            match make_be(r, plan, mp.as_str()) {
                Err(e) => return Err(e),
                Ok(()) => {},
            }
            match fill_be(r, plan, s, mp.as_str()) {
                Err(e) => return Err(e),
                Ok(()) => {},
            }
            finish_be(r, plan, no_snapshot, mp.as_str())
        },
        Mode::Empty => {
            r.say("[ ] --empty: no BE installed; bootfs left unset");
            Ok(())
        },
    }
}

/// Installs the boot loader, where the disk has a place for it. A loader that
/// is not found is only told.
#[verifier::opaque]
pub open spec fn loader_does(w: World, p: Scheme, carried: Seq<u8>) -> (World, Result<
    (),
    Seq<char>,
>) {
    if p.esp_partition is None {
        (
            w.say(
                "[ ] ESP/bootloader skipped (--no-efi — boot via another disk's bootloader)"@,
            ),
            Ok(()),
        )
    } else {
        let (w1, bundle) = esp::resolve_bundle_does(w, carried);
        match bundle {
            Ok(b) => esp::install_layout_does(w1.say("[ ] EFI bundle: "@ + b), p, b),
            Err(m) => (
                w1.say(
                    "[!] ESP install skipped: "@ + m
                        + "\n    set ZBOOT_EFI_BUNDLE=/path/to/zboot-boot.efi or place the bundle at /usr/share/zboot/zboot-boot.efi to enable."@,
                ),
                Ok(()),
            ),
        }
    }
}

fn install_loader<R: Runner>(r: &mut R, plan: &Plan, carried: &[u8]) -> (res: Result<(), Error>)
    ensures
        sub::did(final(r).world(), res) == loader_does(
            old(r).world(),
            plan.deep_view(),
            carried@,
        ),
{
    proof {
        reveal(loader_does);
    }
    if !plan.has_esp() {
        r.say("[ ] ESP/bootloader skipped (--no-efi — boot via another disk's bootloader)");
        return Ok(());
    }
    match esp::resolve_efi_bundle(r, carried) {
        Ok(b) => {
            let line: String = text::cat2("[ ] EFI bundle: ", b.as_str());
            r.say(line.as_str());
            esp::install_efi_for_layout(r, plan, b.as_str())
        },
        Err(e) => {
            let line: String = text::cat3(
                "[!] ESP install skipped: ",
                e.message.as_str(),
                "\n    set ZBOOT_EFI_BUNDLE=/path/to/zboot-boot.efi or place the bundle at /usr/share/zboot/zboot-boot.efi to enable.",
            );
            r.say(line.as_str());
            Ok(())
        },
    }
}

/// Carries the plan out.
pub open spec fn execute_does(w: World, p: Scheme, no_snapshot: bool, carried: Seq<u8>) -> (
    World,
    Result<(), Seq<char>>,
) {
    let (w0, told) = sub::tell_does(w, "\n=== executing deploy ==="@, "write exec header"@);
    if told is Err {
        (w0, told)
    } else {
        sub::chain(
            make_pool_does(w0, p),
            |w1: World|
                sub::chain(
                    fill_pool_does(w1, p, no_snapshot),
                    |w2: World|
                        sub::chain(
                            loader_does(w2, p, carried),
                            |w3: World| (w3.say("\n=== deploy complete ==="@), Ok(())),
                        ),
                ),
        )
    }
}

/// Carries the plan out. `carried` is the boot loader that the program carries
/// with it.
pub fn execute_live<R: Runner>(r: &mut R, plan: &Plan, no_snapshot: bool, carried: &[u8]) -> (res:
    Result<(), Error>)
    ensures
        sub::did(final(r).world(), res) == execute_does(
            old(r).world(),
            plan.deep_view(),
            no_snapshot,
            carried@,
        ),
{
    if let Err(e) = sub::tell(r, "\n=== executing deploy ===", "write exec header") {
        return Err(e);
    }
    match make_pool(r, plan) {
        Err(e) => return Err(e),
        Ok(()) => {},
    }
    match fill_pool(r, plan, no_snapshot) {
        Err(e) => return Err(e),
        Ok(()) => {},
    }
    match install_loader(r, plan, carried) {
        Err(e) => return Err(e),
        Ok(()) => {},
    }
    r.say("\n=== deploy complete ===");
    Ok(())
}

/// Shows the plan, and refuses a disk that is not empty.
pub open spec fn preflight_does(w: World, p: Scheme) -> (World, Result<(), Seq<char>>) {
    sub::chain(
        sub::tell_does(w, plan::plan_text(p), "write deploy plan"@),
        |w1: World| ensure_empty_does(w1, p.disk),
    )
}

/// What `deploy` does.
pub open spec fn run_does(w: World, a: DeployArgs, carried: Seq<u8>) -> (World, Result<
    (),
    Seq<char>,
>) {
    match plan::compose_of(a) {
        Err(m) => (w, Err(m)),
        Ok(p) => {
            let checked = preflight_does(w, p);
            if a.check || a.dry_run {
                checked
            } else {
                sub::chain(
                    checked,
                    |w1: World|
                        sub::chain(
                            no_collision_does(w1, p.pool),
                            |w2: World|
                                sub::chain(
                                    confirm_does(
                                        w2.after(
                                            Call::Env { name: "ZBOOT_DEPLOY_CONFIRM_DISK"@ },
                                        ),
                                        p.target_basename,
                                        w2.maybe(),
                                    ),
                                    |w3: World| execute_does(w3, p, a.no_snapshot, carried),
                                ),
                        ),
                )
            }
        },
    }
}

/// `deploy`: a fresh disk becomes a pool with a boot environment and a boot
/// loader. `carried` is the boot loader that the program carries with it.
pub fn run<R: Runner>(r: &mut R, args: &DeployArgs, carried: &[u8]) -> (res: Result<(), Error>)
    ensures
        sub::did(final(r).world(), res) == run_does(old(r).world(), *args, carried@),
{
    let plan = match Plan::compose(args) {
        Err(e) => return Err(e),
        Ok(p) => p,
    };
    let shown: String = plan.render();
    if let Err(e) = sub::tell(r, shown.as_str(), "write deploy plan") {
        return Err(e);
    }
    match ensure_disk_empty(r, plan.pool_disk_for_preflight()) {
        Err(e) => return Err(e),
        Ok(()) => {},
    }
    if args.check || args.dry_run {
        return Ok(());
    }
    match ensure_no_pool_name_collision(r, plan.pool.as_str()) {
        Err(e) => return Err(e),
        Ok(()) => {},
    }
    let bypass = r.env("ZBOOT_DEPLOY_CONFIRM_DISK");
    let bypass: Option<&str> = match &bypass {
        Some(v) => Some(v.as_str()),
        None => None,
    };
    match confirm_target(r, plan.target_basename.as_str(), bypass) {
        Err(e) => return Err(e),
        Ok(()) => {},
    }
    execute_live(r, &plan, args.no_snapshot, carried)
}

// ---------------------------------------------------------------------------
// Laws
// ---------------------------------------------------------------------------

proof fn lemma_empty_looks(w: World, disk: Seq<char>)
    ensures
        sub::only_looked(w, ensure_empty_does(w, disk).0),
{
    reveal(ensure_empty_does);
    let args = seq!["--noheadings"@, "--output=TYPE"@, "-n"@, disk];
    assert(args[2] == "-n"@);
    assert(sub::query("wipefs"@, args));
}

/// A digit in lower case is one byte, which stands for its value.
proof fn lemma_digit_is_read(d: nat)
    requires
        d < 16,
    ensures
        '\0' <= text::digit_char(d) <= '\u{7f}',
        nibble(text::digit_char(d) as u8) == Some(d),
        (text::digit_char(d) as u8) < 0x80,
        (text::digit_char(d) as u8) != 43,
{
}

/// The digits of a text at the place of a byte are those of the byte.
spec fn spells(h: Seq<char>, b: Seq<u8>, k: int) -> bool {
    &&& h[2 * k] == text::digit_char(b[k] as nat / 16)
    &&& h[2 * k + 1] == text::digit_char(b[k] as nat % 16)
}

/// A byte in hexadecimal is its two digits.
proof fn lemma_two_digits(n: nat)
    requires
        n < 256,
    ensures
        text::padded(n, 16, 2) == seq![text::digit_char(n / 16), text::digit_char(n % 16)],
{
    assert(text::padded(n / 16, 16, 1) == seq![text::digit_char(n / 16)]);
    assert(text::padded(n, 16, 2) =~= text::padded(n / 16, 16, 1).push(text::digit_char(n % 16)));
}

/// The host id that is made of a digest is read back as the four bytes that
/// the digest begins with, in their order.
pub proof fn law_hostid_is_read_back(digest: Seq<u8>)
    requires
        digest.len() >= 4,
    ensures
        hex_bytes(vstd::utf8::encode_utf8(plan::hostid_of(digest))) == Ok::<Seq<u8>, Seq<char>>(
            digest.take(4),
        ),
{
    let h = plan::hostid_of(digest);
    assert forall|k: int| 0 <= k < 4 implies #[trigger] spells(h, digest.take(4), k) by {
        lemma_two_digits(digest[0] as nat);
        lemma_two_digits(digest[1] as nat);
        lemma_two_digits(digest[2] as nat);
        lemma_two_digits(digest[3] as nat);
        assert(k == 0 || k == 1 || k == 2 || k == 3);
    }
    assert(h.len() == 8) by {
        lemma_two_digits(digest[0] as nat);
        lemma_two_digits(digest[1] as nat);
        lemma_two_digits(digest[2] as nat);
        lemma_two_digits(digest[3] as nat);
    }
    lemma_hex_text_is_read(h, digest.take(4));
}

/// A host id of eight digits in lower case is written back as it was, from the
/// bytes that it is read as.
pub proof fn law_hostid_is_written_back(h: Seq<char>)
    requires
        h.len() == 8,
        forall|i: int| 0 <= i < 8 ==> text::digit(#[trigger] h[i]) || 'a' <= h[i] <= 'f',
    ensures
        hex_bytes(vstd::utf8::encode_utf8(h)) matches Ok(b) && plan::hostid_of(b) == h,
{
    let b = Seq::new(4, |k: int| (digit_of(h[2 * k]) * 16 + digit_of(h[2 * k + 1])) as u8);
    assert forall|k: int| 0 <= k < 4 implies #[trigger] spells(h, b, k) by {
        lemma_digit_of(h[2 * k]);
        lemma_digit_of(h[2 * k + 1]);
    }
    lemma_hex_text_is_read(h, b);
    lemma_two_digits(b[0] as nat);
    lemma_two_digits(b[1] as nat);
    lemma_two_digits(b[2] as nat);
    lemma_two_digits(b[3] as nat);
    assert(spells(h, b, 0) && spells(h, b, 1) && spells(h, b, 2) && spells(h, b, 3));
    assert(plan::hostid_of(b) =~= h);
}

/// The value of a digit in lower case.
spec fn digit_of(c: char) -> nat {
    if c <= '9' {
        (c as u8 - 48) as nat
    } else {
        (c as u8 - 87) as nat
    }
}

proof fn lemma_digit_of(c: char)
    requires
        text::digit(c) || 'a' <= c <= 'f',
    ensures
        digit_of(c) < 16,
        text::digit_char(digit_of(c)) == c,
{
}

/// Eight digits that spell four bytes are read as those bytes.
proof fn lemma_hex_text_is_read(h: Seq<char>, b: Seq<u8>)
    requires
        h.len() == 8,
        b.len() == 4,
        forall|k: int| 0 <= k < 4 ==> #[trigger] spells(h, b, k),
    ensures
        hex_bytes(vstd::utf8::encode_utf8(h)) == Ok::<Seq<u8>, Seq<char>>(b),
{
    assert forall|k: int| 0 <= k < 4 implies {
        &&& #[trigger] spells(h, b, k)
        &&& '\0' <= h[2 * k] <= '\u{7f}'
        &&& '\0' <= h[2 * k + 1] <= '\u{7f}'
        &&& hex_byte(h[2 * k] as u8, h[2 * k + 1] as u8, k as nat) == Ok::<u8, Seq<char>>(b[k])
    } by {
        let (hi, lo) = (b[k] as nat / 16, b[k] as nat % 16);
        assert(spells(h, b, k));
        lemma_digit_is_read(hi);
        lemma_digit_is_read(lo);
        assert(hi * 16 + lo == b[k]);
        assert(hex_pair(h[2 * k] as u8, h[2 * k + 1] as u8) == Some(b[k]));
    }
    assert(vstd::utf8::is_ascii_chars(h)) by {
        assert forall|i: int| 0 <= i < h.len() implies '\0' <= #[trigger] h[i] <= '\u{7f}' by {
            assert(spells(h, b, i / 2));
            assert(i == 2 * (i / 2) || i == 2 * (i / 2) + 1);
        }
    }
    vstd::utf8::is_ascii_chars_encode_utf8(h);
    assert(spells(h, b, 0) && spells(h, b, 1) && spells(h, b, 2) && spells(h, b, 3));
    assert(seq![b[0], b[1], b[2], b[3]] =~= b);
}

/// A plan that is only checked, and a plan for a disk that is not empty, leave
/// the machine as it is.
pub proof fn law_check_changes_nothing(w: World, a: DeployArgs, carried: Seq<u8>)
    requires
        a.check || a.dry_run || (plan::compose_of(a) matches Ok(p) && preflight_does(w, p).1 is Err),
    ensures
        sub::only_looked(w, run_does(w, a, carried).0),
{
    match plan::compose_of(a) {
        Err(_) => {},
        Ok(p) => {
            lemma_empty_looks(w.say(plan::plan_text(p)), p.disk);
        },
    }
}

/// A disk is empty iff nothing is listed on it and it has no signature; any
/// other is refused, unless the environment allows it.
pub proof fn law_only_empty_disks(w: World, disk: Seq<char>, cs: Seq<Seq<char>>, ss: Seq<Seq<char>>)
    requires
        w.maybe() != Some("1"@),
        ({
            let w1 = w.after(Call::Env { name: "ZBOOT_DEPLOY_ALLOW_NONEMPTY"@ });
            &&& children_does(w1, disk).1 == Ok::<Seq<Seq<char>>, Seq<char>>(cs)
            &&& signatures_does(children_does(w1, disk).0, disk).1 == Ok::<
                Seq<Seq<char>>,
                Seq<char>,
            >(ss)
        }),
    ensures
        ensure_empty_does(w, disk).1 is Ok <==> cs.len() == 0 && ss.len() == 0,
{
    reveal(ensure_empty_does);
}

/// Nothing is confirmed without the name: typed, or given by the environment.
pub proof fn law_confirmation(
    w: World,
    var: Seq<char>,
    warning: Seq<char>,
    expected: Seq<char>,
    bypass: Option<Seq<char>>,
    must: bool,
)
    ensures
        confirm_by_does(w, var, warning, expected, bypass, must).1 is Ok ==> (match bypass {
            Some(v) => v == expected,
            None => w.say(
                warning + " Type "@ + text::quoted_text(expected)
                    + " to proceed (Ctrl-C to abort):"@,
            ).line() matches Ok(l) && text::trimmed(l) == expected,
        }),
{
    reveal(confirm_by_does);
}

/// All that comes before the first change: the disk is empty, the pool's name
/// is free, the operator has confirmed.
pub open spec fn cleared_does(w: World, p: Scheme) -> (World, Result<(), Seq<char>>) {
    sub::chain(
        preflight_does(w, p),
        |w1: World|
            sub::chain(
                no_collision_does(w1, p.pool),
                |w2: World|
                    confirm_does(
                        w2.after(Call::Env { name: "ZBOOT_DEPLOY_CONFIRM_DISK"@ }),
                        p.target_basename,
                        w2.maybe(),
                    ),
            ),
    )
}

/// What the checks of a deployment may do besides looking: ask the operator, and
/// have the pools listed that could be imported.
pub open spec fn asking() -> spec_fn(Call) -> bool {
    |c: Call|
        c == Call::Ask || c == (Call::Run {
            prog: "zpool"@,
            args: seq!["import"@, "-d"@, "/dev"@],
        })
}

/// Nothing is written before the operator has confirmed: where a check fails or
/// the confirmation is not given, the deployment ends there, and all it did was
/// to look and to ask.
pub proof fn law_nothing_is_written_unconfirmed(
    w: World,
    a: DeployArgs,
    carried: Seq<u8>,
    p: Scheme,
)
    requires
        plan::compose_of(a) == Ok::<Scheme, Seq<char>>(p),
        !a.check,
        !a.dry_run,
    ensures
        sub::did_only(w, cleared_does(w, p).0, asking()),
        cleared_does(w, p).1 is Err ==> run_does(w, a, carried) == cleared_does(w, p),
        cleared_does(w, p).1 is Ok ==> run_does(w, a, carried) == execute_does(
            cleared_does(w, p).0,
            p,
            a.no_snapshot,
            carried,
        ),
{
    reveal(no_collision_does);
    reveal(confirm_by_does);
    reveal(pools::currently_imported_does);
    reveal(pools::importable_pools_does);
    let q = asking();
    let w0 = w.say(plan::plan_text(p));
    let (w1, empty) = preflight_does(w, p);
    lemma_empty_looks(w0, p.disk);
    effects::lemma_looked(w, w0, q);
    effects::lemma_looked(w0, ensure_empty_does(w0, p.disk).0, q);
    effects::lemma_then(w, w0, ensure_empty_does(w0, p.disk).0, q);
    assert(sub::did_only(w, w1, q));
    if empty is Ok {
        let (w2, free) = no_collision_does(w1, p.pool);
        let listing = seq!["import"@, "-d"@, "/dev"@];
        assert(q(Call::Run { prog: "zpool"@, args: listing }));
        assert(sub::did_only(w1, w2, q));
        effects::lemma_then(w, w1, w2, q);
        if free is Ok {
            let w3 = w2.after(Call::Env { name: "ZBOOT_DEPLOY_CONFIRM_DISK"@ });
            effects::lemma_looked(w2, w3, q);
            effects::lemma_then(w, w2, w3, q);
            let w4 = confirm_does(w3, p.target_basename, w2.maybe()).0;
            assert(sub::did_only(w3, w4, q));
            effects::lemma_then(w, w3, w4, q);
        }
    }
}

/// A command of a deployment that succeeds came off.
pub proof fn lemma_spawned(w: World, prog: Seq<char>, args: Seq<Seq<char>>)
    ensures
        sub::continues(w, spawn_does(w, prog, args).0),
        spawn_does(w, prog, args).1 is Ok ==> effects::came_off(
            w,
            spawn_does(w, prog, args).0,
            Call::Attend { prog, args },
        ),
{
    let end = spawn_does(w, prog, args).0;
    let n = w.calls.len() as int;
    if spawn_does(w, prog, args).1 is Ok {
        assert(end.calls[n + 1] == Call::Attend { prog, args });
        assert(effects::went_well(end, n + 1));
    }
}

/// A program run on the operator's terminal.
pub open spec fn attended(prog: Seq<char>, args: Seq<Seq<char>>) -> Call {
    Call::Attend { prog, args }
}

/// A step of one command that succeeds has run it.
pub proof fn lemma_step(w: World, label: Seq<char>, prog: Seq<char>, args: Seq<Seq<char>>)
    ensures
        ({
            let (end, res) = command_step(w, label, prog, args);
            &&& sub::continues(w, end)
            &&& res is Ok ==> effects::all_came_off(w, end, seq![attended(prog, args)])
        }),
{
    let w1 = step_begins(w, label);
    lemma_spawned(w1, prog, args);
    let w2 = spawn_does(w1, prog, args).0;
    let (end, res) = command_step(w, label, prog, args);
    assert(sub::continues(w, w1));
    assert(sub::continues(w2, end));
    effects::lemma_continues(w, w1, w2);
    effects::lemma_continues(w, w2, end);
    if res is Ok {
        effects::lemma_came_within(w, w1, w2, end, attended(prog, args));
    }
}

/// What clears a disk.
pub open spec fn clearing(disk: Seq<char>) -> Seq<Call> {
    seq![attended("wipefs"@, seq!["-a"@, disk]), attended("sgdisk"@, seq!["-Z"@, disk])]
}

proof fn lemma_wiped(w: World, disk: Seq<char>)
    ensures
        ({
            let (end, res) = wipe_does(w, disk);
            &&& sub::continues(w, end)
            &&& res is Ok ==> effects::all_came_off(w, end, clearing(disk))
        }),
{
    lemma_spawned(w, "wipefs"@, seq!["-a"@, disk]);
    let w1 = spawn_does(w, "wipefs"@, seq!["-a"@, disk]).0;
    lemma_spawned(w1, "sgdisk"@, seq!["-Z"@, disk]);
    let w2 = spawn_does(w1, "sgdisk"@, seq!["-Z"@, disk]).0;
    effects::lemma_continues(w, w1, w2);
    if wipe_does(w, disk).1 is Ok {
        assert(sub::continues(w, w));
        assert(sub::continues(w2, w2));
        effects::lemma_came_within(w, w, w1, w2, clearing(disk)[0]);
        effects::lemma_came_within(w, w1, w2, w2, clearing(disk)[1]);
    }
}

/// A divided disk was cleared first, and has the partitions that were asked for.
pub proof fn law_divided(w: World, disk: Seq<char>, script: Seq<char>)
    ensures
        ({
            let (end, res) = divide_does(w, disk, script);
            &&& sub::continues(w, end)
            &&& res is Ok ==> effects::all_came_off(
                w,
                end,
                clearing(disk).push(
                    Call::Feed { prog: "sfdisk"@, args: seq![disk], input: script },
                ),
            )
        }),
{
    reveal(divide_does);
    lemma_wiped(w, disk);
    let (w1, wiped) = wipe_does(w, disk);
    let (end, res) = divide_does(w, disk, script);
    let c = Call::Feed { prog: "sfdisk"@, args: seq![disk], input: script };
    if wiped is Ok {
        let w2 = w1.after(c);
        assert(sub::continues(w1, w2));
        let a = spawn_does(w2, "partprobe"@, seq![disk]);
        lemma_spawned(w2, "partprobe"@, seq![disk]);
        lemma_spawned(a.0, "partx"@, seq!["-u"@, disk]);
        let b = if a.1 is Ok {
            a.0
        } else {
            spawn_does(a.0, "partx"@, seq!["-u"@, disk]).0
        };
        lemma_spawned(b, "udevadm"@, seq!["settle"@, "--timeout=30"@]);
        let settled = settle_does(w2, disk);
        assert(sub::continues(a.0, b)) by {
            assert(sub::continues(a.0, a.0));
        }
        effects::lemma_continues(w2, a.0, b);
        effects::lemma_continues(w2, b, settled);
        effects::lemma_continues(w, w1, w2);
        effects::lemma_continues(w, w2, settled);
        if res is Ok {
            assert(end == settled);
            effects::lemma_came_now(w1, c);
            assert(effects::all_came_off(w1, w2, seq![c]));
            effects::lemma_all_then(w, w1, w2, clearing(disk), seq![c]);
            assert(clearing(disk).push(c) =~= clearing(disk) + seq![c]);
            assert(sub::continues(w, w));
            effects::lemma_all_within(w, w, w2, end, clearing(disk).push(c));
        }
    }
}

/// What makes a root pool.
pub open spec fn pool_making(p: Scheme) -> Seq<Call> {
    seq![
        attended("zpool"@, create_pool_args(p.pool, p.pool_partition)),
        attended("zpool"@, seq!["set"@, "zboot:role=root"@, p.pool]),
        attended(
            "zfs"@,
            seq![
                "create"@,
                "-o"@,
                "canmount=off"@,
                "-o"@,
                "mountpoint=none"@,
                p.pool + "/ROOT"@,
            ],
        ),
    ]
}

/// What readies a disk for it.
pub open spec fn disk_making(p: Scheme) -> Seq<Call> {
    if p.esp_partition is Some {
        clearing(p.disk).push(
            Call::Feed { prog: "sfdisk"@, args: seq![p.disk], input: table_script() },
        )
    } else {
        clearing(p.disk)
    }
}

/// A pool that was made stands on a disk that was cleared and divided; it has the
/// role of a root pool, and a place for environments. The host has taken on the
/// host id before.
pub proof fn law_pool_is_made(w: World, p: Scheme)
    ensures
        ({
            let (end, res) = make_pool_does(w, p);
            let id = hex_bytes(vstd::utf8::encode_utf8(p.hostid_hex));
            &&& sub::continues(w, end)
            &&& res is Ok ==> {
                &&& id is Ok
                &&& effects::all_came_off(
                    w,
                    end,
                    disk_making(p) + seq![
                        Call::WriteFile { path: "/etc/hostid"@, bytes: id->Ok_0 },
                    ] + pool_making(p),
                )
            }
        }),
{
    reveal(make_pool_does);
    reveal(host_hostid_does);
    let (end, res) = make_pool_does(w, p);
    let id = hex_bytes(vstd::utf8::encode_utf8(p.hostid_hex));
    let gpt = "wipe target + sfdisk GPT"@;
    let labels = "wipe target disk labels"@;
    let w0 = if p.esp_partition is Some {
        step_begins(w, gpt)
    } else {
        step_begins(w, labels)
    };
    assert(sub::continues(w, w0));
    law_divided(w0, p.disk, table_script());
    lemma_wiped(w0, p.disk);
    let wa = if p.esp_partition is Some {
        partition_does(w0, p.disk)
    } else {
        wipe_does(w0, p.disk)
    };
    let (w1, cleared) = step_ends(
        wa,
        if p.esp_partition is Some {
            gpt
        } else {
            labels
        },
    );
    assert(sub::continues(wa.0, w1));
    effects::lemma_continues(w, w0, wa.0);
    effects::lemma_continues(w, wa.0, w1);
    if cleared is Ok {
        effects::lemma_all_within(w, w0, wa.0, w1, disk_making(p));
        let wb = step_begins(w1, "write host hostid"@);
        let (w2, named) = step_ends(host_hostid_does(wb, p.hostid_hex), "write host hostid"@);
        assert(sub::continues(w1, w2));
        let c = Call::WriteFile { path: "/etc/hostid"@, bytes: id->Ok_0 };
        if named is Ok {
            let n = wb.calls.len() as int;
            assert(w2.calls[n] == c);
            assert(effects::went_well(w2, n));
            assert(effects::all_came_off(w1, w2, seq![c]));
            effects::lemma_all_then(w, w1, w2, disk_making(p), seq![c]);
            let a = pool_making(p)[0];
            let b = pool_making(p)[1];
            let d = pool_making(p)[2];
            lemma_step(w2, "zpool create"@, "zpool"@, a->Attend_args);
            let (w3, made) = command_step(w2, "zpool create"@, "zpool"@, a->Attend_args);
            lemma_step(w3, "tag pool role=root"@, "zpool"@, b->Attend_args);
            let (w4, tagged) = command_step(w3, "tag pool role=root"@, "zpool"@, b->Attend_args);
            lemma_step(w4, "create ROOT container"@, "zfs"@, d->Attend_args);
            let (w5, placed) = command_step(w4, "create ROOT container"@, "zfs"@, d->Attend_args);
            let so_far = disk_making(p) + seq![c];
            effects::lemma_continues(w, w2, w3);
            effects::lemma_continues(w, w3, w4);
            effects::lemma_continues(w, w4, w5);
            if res is Ok {
                effects::lemma_all_then(w, w2, w3, so_far, seq![a]);
                effects::lemma_all_then(w, w3, w4, so_far + seq![a], seq![b]);
                effects::lemma_all_then(w, w4, w5, so_far + seq![a] + seq![b], seq![d]);
                assert(so_far + pool_making(p) =~= so_far + seq![a] + seq![b] + seq![d]);
            }
        } else {
            effects::lemma_continues(w, w1, w2);
        }
    }
}

/// What makes an environment and opens it at `mp`.
pub open spec fn be_making(p: Scheme, mp: Seq<char>) -> Seq<Call> {
    seq![
        attended(
            "zfs"@,
            seq![
                "create"@,
                "-o"@,
                "canmount=noauto"@,
                "-o"@,
                "mountpoint=/"@,
                p.be_dataset,
            ],
        ),
        attended("zfs"@, seq!["set"@, "zboot:be=true"@, p.be_dataset]),
        attended("mount"@, seq!["-t"@, "zfs"@, "-o"@, "zfsutil"@, p.be_dataset, mp]),
    ]
}

/// An environment that was made is marked as one, and is open.
pub proof fn law_be_is_made(w: World, p: Scheme, mp: Seq<char>)
    ensures
        ({
            let (end, res) = make_be_does(w, p, mp);
            &&& sub::continues(w, end)
            &&& res is Ok ==> effects::all_came_off(w, end, be_making(p, mp))
        }),
{
    reveal(make_be_does);
    let (end, res) = make_be_does(w, p, mp);
    let a = be_making(p, mp)[0];
    let b = be_making(p, mp)[1];
    let d = be_making(p, mp)[2];
    lemma_step(w, "create BE dataset"@, "zfs"@, a->Attend_args);
    let (w1, made) = command_step(w, "create BE dataset"@, "zfs"@, a->Attend_args);
    if made is Ok {
        lemma_step(w1, "tag BE"@, "zfs"@, b->Attend_args);
        let (w2, tagged) = command_step(w1, "tag BE"@, "zfs"@, b->Attend_args);
        effects::lemma_continues(w, w1, w2);
        if tagged is Ok {
            effects::lemma_all_then(w, w1, w2, seq![a], seq![b]);
            let w3 = step_begins(w2, "mount BE at "@ + mp);
            let w4 = w3.after(Call::MakeDirs { path: mp });
            assert(sub::continues(w2, w4));
            lemma_spawned(w4, "mount"@, d->Attend_args);
            let w5 = spawn_does(w4, "mount"@, d->Attend_args).0;
            effects::lemma_continues(w2, w4, w5);
            if w3.unit() is Ok {
                assert(sub::continues(w5, end));
                effects::lemma_continues(w2, w5, end);
            } else {
                assert(end == w4);
            }
            effects::lemma_continues(w, w2, end);
            if res is Ok {
                effects::lemma_came_within(w2, w4, w5, end, d);
                assert(effects::all_came_off(w2, end, seq![d]));
                effects::lemma_all_then(w, w2, end, seq![a] + seq![b], seq![d]);
                assert(be_making(p, mp) =~= seq![a] + seq![b] + seq![d]);
            }
        }
    }
}

/// What makes an environment the one that boots, and closes it.
pub open spec fn be_finishing(p: Scheme, no_snapshot: bool, mp: Seq<char>) -> Seq<Call> {
    let kept = match p.cmdline {
        Some(c) => seq![
            attended("zfs"@, seq!["set"@, "zboot:kernel-cmdline="@ + c, p.pool + "/ROOT"@]),
        ],
        None => seq![],
    };
    let boots = seq![attended("zpool"@, seq!["set"@, "bootfs="@ + p.be_dataset, p.pool])];
    let back = if no_snapshot {
        seq![]
    } else {
        seq![attended("zfs"@, seq!["snapshot"@, p.be_dataset + "@deploy"@])]
    };
    kept + boots + back + seq![attended("umount"@, seq![mp])]
}

/// An environment that was finished is what its pool boots, with the command line
/// that was asked for, and has a way back unless that was declined.
pub proof fn law_be_is_finished(w: World, p: Scheme, no_snapshot: bool, mp: Seq<char>)
    ensures
        ({
            let (end, res) = finish_be_does(w, p, no_snapshot, mp);
            &&& sub::continues(w, end)
            &&& res is Ok ==> effects::all_came_off(w, end, be_finishing(p, no_snapshot, mp))
        }),
{
    reveal(finish_be_does);
    let (end, res) = finish_be_does(w, p, no_snapshot, mp);
    assert(sub::continues(w, w));
    let line = seq!["set"@, "zboot:kernel-cmdline="@ + p.cmdline->0, p.pool + "/ROOT"@];
    let label = "set zboot:kernel-cmdline on ROOT"@;
    lemma_step(w, label, "zfs"@, line);
    let (w1, kept) = match p.cmdline {
        None => (w, Ok(())),
        Some(c) => command_step(w, label, "zfs"@, line),
    };
    let xs: Seq<Call> = match p.cmdline {
        Some(c) => seq![attended("zfs"@, line)],
        None => seq![],
    };
    assert(sub::continues(w, w1));
    if kept is Ok {
        assert(effects::all_came_off(w, w1, xs));
        let boots = seq!["set"@, "bootfs="@ + p.be_dataset, p.pool];
        lemma_step(w1, "set bootfs"@, "zpool"@, boots);
        let (w2, booted) = command_step(w1, "set bootfs"@, "zpool"@, boots);
        effects::lemma_continues(w, w1, w2);
        if booted is Ok {
            let ys = xs + seq![attended("zpool"@, boots)];
            effects::lemma_all_then(w, w1, w2, xs, seq![attended("zpool"@, boots)]);
            let snap = seq!["snapshot"@, p.be_dataset + "@deploy"@];
            let told = "snapshot @deploy (rollback point)"@;
            lemma_step(w2, told, "zfs"@, snap);
            assert(sub::continues(w2, w2));
            let (w3, taken) = if no_snapshot {
                (w2, Ok(()))
            } else {
                command_step(w2, told, "zfs"@, snap)
            };
            let back: Seq<Call> = if no_snapshot {
                seq![]
            } else {
                seq![attended("zfs"@, snap)]
            };
            effects::lemma_continues(w, w2, w3);
            if taken is Ok {
                assert(effects::all_came_off(w2, w3, back));
                effects::lemma_all_then(w, w2, w3, ys, back);
                lemma_step(w3, "unmount BE"@, "umount"@, seq![mp]);
                effects::lemma_continues(w, w3, end);
                if res is Ok {
                    let last = seq![attended("umount"@, seq![mp])];
                    effects::lemma_all_then(w, w3, end, ys + back, last);
                    assert(be_finishing(p, no_snapshot, mp) =~= ys + back + last);
                }
            }
        }
    }
}

/// What fills an open environment from its source.
pub open spec fn sourcing(s: Origin, mp: Seq<char>, id: Seq<u8>, hostname: Seq<char>) -> Seq<Call> {
    match s {
        Origin::Tar { path } => seq![be::unpacking(path, mp)],
        Origin::Debootstrap { suite, mirror } => be::bootstrapping(
            suite,
            source::mirror_of(mirror),
            mp,
        ) + be::naming(mp, id, hostname) + be::installing(mp),
    }
}

/// An environment that was filled holds what its source gives, and has its
/// identity.
pub proof fn law_be_is_filled(w: World, p: Scheme, s: Origin, mp: Seq<char>)
    ensures
        ({
            let (end, res) = fill_be_does(w, p, s, mp);
            let id = hex_bytes(vstd::utf8::encode_utf8(p.hostid_hex));
            &&& sub::continues(w, end)
            &&& res is Ok ==> id is Ok && effects::all_came_off(
                w,
                end,
                sourcing(s, mp, id->Ok_0, p.hostname) + be::naming(mp, id->Ok_0, p.hostname),
            )
        }),
{
    reveal(fill_be_does);
    reveal(be::empty_password_does);
    reveal(be::overlay_initrds_does);
    let (end, res) = fill_be_does(w, p, s, mp);
    let id = hex_bytes(vstd::utf8::encode_utf8(p.hostid_hex));
    let w0 = w.say("[ ] populate from "@ + source::source_text(s));
    match s {
        Origin::Tar { path } => {
            be::law_archive_is_unpacked(w0, path, mp);
        },
        Origin::Debootstrap { suite, mirror } => {
            be::law_mirror_is_bootstrapped(w0, suite, mirror, mp, p.hostid_hex, p.hostname);
        },
    }
    let (w1, filled) = be::populate_does(w0, s, mp, p.hostid_hex, p.hostname);
    assert(sub::continues(w, w0));
    effects::lemma_continues(w, w0, w1);
    if filled is Ok {
        let label = "write BE hostid + hostname"@;
        let w2 = step_begins(w1.say("[x] populate complete"@), label);
        be::law_identity_is_written(w2, mp, p.hostid_hex, p.hostname);
        let wa = be::identity_does(w2, mp, p.hostid_hex, p.hostname);
        let (w3, named) = step_ends(wa, label);
        assert(sub::continues(w1, w2));
        assert(sub::continues(wa.0, w3));
        effects::lemma_continues(w1, w2, wa.0);
        effects::lemma_continues(w1, wa.0, w3);
        effects::lemma_continues(w, w1, w3);
        if named is Ok {
            let xs = sourcing(s, mp, id->Ok_0, p.hostname);
            let ns = be::naming(mp, id->Ok_0, p.hostname);
            assert(sub::continues(w1, w1));
            effects::lemma_all_within(w, w0, w1, w1, xs);
            effects::lemma_all_within(w1, w2, wa.0, w3, ns);
            effects::lemma_all_then(w, w1, w3, xs, ns);
            let open = "empty root password (first-boot access)"@;
            let (w4, emptied) = step_ends(
                be::empty_password_does(step_begins(w3, open), mp),
                open,
            );
            assert(sub::continues(w3, w4));
            effects::lemma_continues(w, w3, w4);
            if emptied is Ok {
                let w5 = w4.say("[ ] cpio-overlay /etc/hostid in BE's initrds"@);
                let dir = mp + "/boot"@;
                let w6 = w5.after(Call::ListUntil { path: dir });
                if let Ok((names, cut)) = w5.listed_until() {
                    be::law_every_image_is_completed(w6, dir, names, be::overlay_of(id->Ok_0));
                }
                let w7 = be::overlay_initrds_does(w5, mp, p.hostid_hex).0;
                assert(sub::continues(w4, w6));
                assert(sub::continues(w6, w6));
                assert(sub::continues(w6, w7));
                effects::lemma_continues(w4, w6, w7);
                assert(sub::continues(w7, end));
                effects::lemma_continues(w4, w7, end);
                effects::lemma_continues(w3, w4, end);
                effects::lemma_continues(w, w4, end);
                assert(sub::continues(w, w));
                if res is Ok {
                    effects::lemma_all_within(w, w, w3, end, xs + ns);
                }
            }
        }
    }
}

/// What fills a pool with an environment that was opened at `mp`.
pub open spec fn pool_filling(
    p: Scheme,
    s: Origin,
    no_snapshot: bool,
    mp: Seq<char>,
    id: Seq<u8>,
) -> Seq<Call> {
    be_making(p, mp) + (sourcing(s, mp, id, p.hostname) + be::naming(mp, id, p.hostname))
        + be_finishing(p, no_snapshot, mp)
}

/// What mirrors to a pool.
pub open spec fn mirroring(exe: Seq<char>, pool: Seq<char>) -> Call {
    attended(exe, seq!["mirror"@, "--to"@, pool])
}

/// A pool filled from a source has an environment that holds what the source
/// gives, and boots it; one filled from another pool was mirrored to.
pub proof fn law_pool_is_filled(w: World, p: Scheme, no_snapshot: bool)
    ensures
        ({
            let (end, res) = fill_pool_does(w, p, no_snapshot);
            let id = hex_bytes(vstd::utf8::encode_utf8(p.hostid_hex));
            &&& sub::continues(w, end)
            &&& res is Ok ==> match p.mode {
                Filling::Source(s) => id is Ok && exists|mp: Seq<char>|
                    effects::all_came_off(
                        w,
                        end,
                        #[trigger] pool_filling(p, s, no_snapshot, mp, id->Ok_0),
                    ),
                Filling::MirrorFrom(_) => exists|exe: Seq<char>|
                    effects::came_off(
                        w,
                        end,
                        #[trigger] mirroring(exe, p.pool),
                    ),
                Filling::Empty => true,
            }
        }),
{
    reveal(fill_pool_does);
    reveal(mirror_does);
    let (end, res) = fill_pool_does(w, p, no_snapshot);
    let id = hex_bytes(vstd::utf8::encode_utf8(p.hostid_hex));
    match p.mode {
        Filling::Source(s) => {
            let mp = "/tmp/zboot-deploy-"@ + text::decimal(w.reply().pid as nat);
            let w0 = w.after(Call::Pid);
            assert(sub::continues(w, w0));
            law_be_is_made(w0, p, mp);
            let (w1, made) = make_be_does(w0, p, mp);
            effects::lemma_continues(w, w0, w1);
            if made is Ok {
                assert(sub::continues(w1, w1));
                effects::lemma_all_within(w, w0, w1, w1, be_making(p, mp));
                law_be_is_filled(w1, p, s, mp);
                let (w2, filled) = fill_be_does(w1, p, s, mp);
                effects::lemma_continues(w, w1, w2);
                if filled is Ok {
                    let xs = sourcing(s, mp, id->Ok_0, p.hostname) + be::naming(
                        mp,
                        id->Ok_0,
                        p.hostname,
                    );
                    effects::lemma_all_then(w, w1, w2, be_making(p, mp), xs);
                    law_be_is_finished(w2, p, no_snapshot, mp);
                    effects::lemma_continues(w, w2, end);
                    if res is Ok {
                        effects::lemma_all_then(
                            w,
                            w2,
                            end,
                            be_making(p, mp) + xs,
                            be_finishing(p, no_snapshot, mp),
                        );
                        assert(effects::all_came_off(
                            w,
                            end,
                            pool_filling(p, s, no_snapshot, mp, id->Ok_0),
                        ));
                    }
                }
            }
        },
        Filling::MirrorFrom(from) => {
            let w1 = w.say("[ ] mirror from "@ + from + " → "@ + p.pool);
            let exe = match w1.line() {
                Ok(e) => e,
                Err(_) => "zboot"@,
            };
            let c = mirroring(exe, p.pool);
            let n = w.calls.len() as int + 2;
            assert(end.calls[n] == c);
            if res is Ok {
                assert(effects::went_well(end, n));
                assert(effects::came_off(w, end, c));
            }
        },
        Filling::Empty => {},
    }
}

/// A deployment that succeeds has made the pool and filled it.
pub proof fn law_deployed(w: World, p: Scheme, no_snapshot: bool, carried: Seq<u8>)
    requires
        execute_does(w, p, no_snapshot, carried).1 is Ok,
    ensures
        ({
            let end = execute_does(w, p, no_snapshot, carried).0;
            let id = hex_bytes(vstd::utf8::encode_utf8(p.hostid_hex));
            &&& id is Ok
            &&& exists|at: World| #[trigger]
                sub::continues(w, at) && effects::all_came_off(
                    w,
                    at,
                    disk_making(p) + seq![
                        Call::WriteFile { path: "/etc/hostid"@, bytes: id->Ok_0 },
                    ] + pool_making(p),
                ) && fill_pool_does(at, p, no_snapshot).1 is Ok && loader_does(
                    fill_pool_does(at, p, no_snapshot).0,
                    p,
                    carried,
                ).1 is Ok && end == loader_does(
                    fill_pool_does(at, p, no_snapshot).0,
                    p,
                    carried,
                ).0.say("\n=== deploy complete ==="@)
        }),
{
    let end = execute_does(w, p, no_snapshot, carried).0;
    let w0 = w.say("\n=== executing deploy ==="@);
    assert(sub::continues(w, w0));
    law_pool_is_made(w0, p);
    let at = make_pool_does(w0, p).0;
    effects::lemma_continues(w, w0, at);
    assert(sub::continues(at, at));
    let id = hex_bytes(vstd::utf8::encode_utf8(p.hostid_hex));
    effects::lemma_all_within(
        w,
        w0,
        at,
        at,
        disk_making(p) + seq![Call::WriteFile { path: "/etc/hostid"@, bytes: id->Ok_0 }]
            + pool_making(p),
    );
}

/// Where a boot loader can be had, it is installed on the partition for it.
pub proof fn law_loader_is_installed(w: World, p: Scheme, carried: Seq<u8>)
    requires
        p.esp_partition is Some,
        esp::resolve_bundle_does(w, carried).1 is Ok,
        loader_does(w, p, carried).1 is Ok,
    ensures
        ({
            let end = loader_does(w, p, carried).0;
            let at = esp::resolve_bundle_does(w, carried).0;
            let bundle = esp::resolve_bundle_does(w, carried).1->Ok_0;
            let part = p.esp_partition->0;
            exists|mp: Seq<char>|
                effects::all_came_off(
                    at,
                    end,
                    seq![esp::making(part)] + seq![esp::opening(part, mp)]
                        + #[trigger] esp::filling(p.disk, part, mp, bundle),
                )
        }),
{
    reveal(loader_does);
    let end = loader_does(w, p, carried).0;
    let (at, found) = esp::resolve_bundle_does(w, carried);
    let bundle = found->Ok_0;
    let part = p.esp_partition->0;
    let w1 = at.say("[ ] EFI bundle: "@ + bundle);
    assert(sub::continues(at, w1));
    assert(sub::continues(end, end));
    esp::law_system_partition_is_set_up(w1, p, bundle);
    let mp = choose|mp: Seq<char>|
        effects::all_came_off(
            w1,
            end,
            seq![esp::making(part)] + seq![esp::opening(part, mp)] + #[trigger] esp::filling(
                p.disk,
                part,
                mp,
                bundle,
            ),
        );
    effects::lemma_all_within(
        at,
        w1,
        end,
        end,
        seq![esp::making(part)] + seq![esp::opening(part, mp)] + esp::filling(
            p.disk,
            part,
            mp,
            bundle,
        ),
    );
}

/// A deployment that was asked for and succeeds has made the pool that the plan
/// names.
pub proof fn law_deployed_as_planned(w: World, a: DeployArgs, carried: Seq<u8>)
    requires
        !a.check,
        !a.dry_run,
        run_does(w, a, carried).1 is Ok,
    ensures
        plan::compose_of(a) matches Ok(p) && effects::all_came_off(
            w,
            run_does(w, a, carried).0,
            pool_making(p),
        ),
{
    let p = plan::compose_of(a)->Ok_0;
    let end = run_does(w, a, carried).0;
    law_nothing_is_written_unconfirmed(w, a, carried, p);
    let w1 = cleared_does(w, p).0;
    let w2 = w1.say("\n=== executing deploy ==="@);
    assert(sub::continues(w1, w2));
    effects::lemma_continues(w, w1, w2);
    law_pool_is_made(w2, p);
    let w3 = make_pool_does(w2, p).0;
    law_pool_is_filled(w3, p, a.no_snapshot);
    let w4 = fill_pool_does(w3, p, a.no_snapshot).0;
    lemma_loader_goes_on(w4, p, carried);
    let w5 = loader_does(w4, p, carried).0;
    assert(sub::continues(w5, end));
    effects::lemma_continues(w4, w5, end);
    effects::lemma_continues(w3, w4, end);
    let id = hex_bytes(vstd::utf8::encode_utf8(p.hostid_hex));
    let head = disk_making(p) + seq![
        Call::WriteFile { path: "/etc/hostid"@, bytes: id->Ok_0 },
    ];
    let all = head + pool_making(p);
    assert forall|i: int| 0 <= i < pool_making(p).len() implies effects::came_off(
        w2,
        w3,
        #[trigger] pool_making(p)[i],
    ) by {
        assert(all[head.len() + i] == pool_making(p)[i]);
    }
    effects::lemma_all_within(w, w2, w3, end, pool_making(p));
}

proof fn lemma_loader_goes_on(w: World, p: Scheme, carried: Seq<u8>)
    ensures
        sub::continues(w, loader_does(w, p, carried).0),
{
    reveal(loader_does);
    if p.esp_partition is Some {
        esp::lemma_bundle_goes_on(w, carried);
        let (w1, bundle) = esp::resolve_bundle_does(w, carried);
        if let Ok(b) = bundle {
            let w2 = w1.say("[ ] EFI bundle: "@ + b);
            assert(sub::continues(w1, w2));
            esp::law_system_partition_is_set_up(w2, p, b);
            effects::lemma_continues(w, w1, w2);
            effects::lemma_continues(w, w2, loader_does(w, p, carried).0);
        }
    }
}

/// A pool is made only under a name that no imported or importable pool has.
pub proof fn law_taken_pool_name_is_refused(w: World, p: Seq<char>)
    requires
        no_collision_does(w, p).1 is Ok,
    ensures
        ({
            let end = no_collision_does(w, p).0;
            let n = w.calls.len() as int + 1;
            let there = text::lines_of((w.replies)(n as nat).stdout);
            let found = text::lines_of((w.replies)((n + 1) as nat).stdout);
            &&& end.calls[n] == (Call::Run {
                prog: "zpool"@,
                args: seq!["list"@, "-H"@, "-o"@, "name"@],
            })
            &&& forall|i: int|
                0 <= i < there.len() ==> text::trimmed(#[trigger] there[i]) != p || p.len() == 0
            &&& end.calls[n + 1] == (Call::Run {
                prog: "zpool"@,
                args: seq!["import"@, "-d"@, "/dev"@],
            })
            &&& forall|i: int|
                0 <= i < found.len() && text::begins(
                    text::trim_front(#[trigger] found[i]),
                    "pool: "@,
                ) ==> text::trim_front(found[i]).skip("pool: "@.len() as int) != p
        }),
{
    reveal(no_collision_does);
    reveal(pools::currently_imported_does);
    reveal(pools::importable_pools_does);
    let n = w.calls.len() as int + 1;
    let there = text::lines_of((w.replies)(n as nat).stdout);
    let found = text::lines_of((w.replies)((n + 1) as nat).stdout);
    pools::law_full_lines(there);
    pools::law_every_announced_pool(found);
    assert(!pools::full_lines(there).contains(p));
    assert(!pools::announced_pools(found).contains(p));
}

} // verus!
