//! The first steps of the first process: the kernel's modules, the devices,
//! the pools, and the host id. None of them stops the boot: what fails is told
//! on the error stream.

use vstd::prelude::*;

use crate::effects;
use crate::error;
use crate::error::Error;
use crate::paths;
use crate::sub;
use crate::sub::{Call, Runner, World};
use crate::text;
use crate::zfs_ops;

verus! {

// ---------------------------------------------------------------------------
// Helpers that may fail
// ---------------------------------------------------------------------------

/// Looks for a program in some directories, in their order, up to the first
/// that has it.
pub open spec fn resolve_does(w: World, dirs: Seq<Seq<char>>, name: Seq<char>) -> (World, Option<
    Seq<char>,
>)
    decreases dirs.len(),
{
    if dirs.len() == 0 {
        (w, None)
    } else {
        let path = paths::under(dirs[0], name);
        let w1 = w.after(Call::Exists { path });
        if w.reply().yes {
            (w1, Some(path))
        } else {
            resolve_does(w1, dirs.drop_first(), name)
        }
    }
}

fn resolve<R: Runner>(r: &mut R, dirs: &Vec<&str>, i: usize, name: &str) -> (res: Option<String>)
    requires
        i <= dirs@.len(),
    ensures
        (final(r).world(), res.deep_view()) == resolve_does(
            old(r).world(),
            dirs.deep_view().skip(i as int),
            name@,
        ),
    decreases dirs@.len() - i,
{
    let ghost left = dirs.deep_view().skip(i as int);
    if i >= dirs.len() {
        return None;
    }
    proof {
        assert(left[0] == dirs@[i as int]@);
        assert(left.drop_first() =~= dirs.deep_view().skip(i + 1));
    }
    let path: String = paths::join(dirs[i], name);
    if r.present(path.as_str()) {
        return Some(path);
    }
    resolve(r, dirs, i + 1, name)
}

/// Where helpers are looked for.
pub open spec fn helper_dirs() -> Seq<Seq<char>> {
    seq!["/sbin"@, "/usr/sbin"@, "/bin"@, "/usr/bin"@]
}

/// The name of a helper without the directory.
pub open spec fn helper_name(prog: Seq<char>) -> Seq<char> {
    text::after_last(paths::rootless(prog), '/')
}

/// Tells of a helper that did not do its work. A module that this machine has
/// no file for is passed over.
pub open spec fn report_does(w: World, ran: Result<sub::Ran, Seq<char>>, label: Seq<char>) -> World {
    match ran {
        Err(m) => w.trace("zboot-boot/preinit: "@ + label + ": spawn error: "@ + m),
        Ok(out) => if out.rc == 0 || text::holds(out.stderr, "not found in modules.dep"@) {
            w
        } else {
            w.trace(
                "zboot-boot/preinit: "@ + label + ": rc="@ + zfs_ops::rc_text(out.rc)
                    + " stderr="@ + text::quoted_text(text::trimmed(out.stderr)),
            )
        },
    }
}

/// Runs a helper, wherever it stands, and tells where it fails.
#[verifier::opaque]
pub open spec fn run_or_warn_does(
    w: World,
    prog: Seq<char>,
    args: Seq<Seq<char>>,
    label: Seq<char>,
) -> World {
    let (w1, found) = resolve_does(w, helper_dirs(), helper_name(prog));
    match found {
        None => w1.trace(
            "zboot-boot/preinit: "@ + label + ": helper "@ + prog + " not found in initrd"@,
        ),
        Some(path) => report_does(w1.run(path, args), w1.ran(), label),
    }
}

/// Runs a helper, wherever it stands, and tells where it fails.
pub fn run_or_warn<R: Runner>(r: &mut R, prog: &str, args: &[&str], label: &str)
    ensures
        final(r).world() == run_or_warn_does(old(r).world(), prog@, args.deep_view(), label@),
{
    proof {
        reveal(run_or_warn_does);
    }
    let name: &str = text::tail(paths::strip_root(prog), '/');
    let dirs = text::argv4("/sbin", "/usr/sbin", "/bin", "/usr/bin");
    assert(dirs.deep_view().skip(0) =~= dirs.deep_view());
    let path: String = match resolve(r, &dirs, 0, name) {
        None => {
            let line: String = text::cat5(
                "zboot-boot/preinit: ",
                label,
                ": helper ",
                prog,
                " not found in initrd",
            );
            r.trace(line.as_str());
            return;
        },
        Some(p) => p,
    };
    match r.run(path.as_str(), args) {
        Err(e) => {
            let line: String = text::cat4(
                "zboot-boot/preinit: ",
                label,
                ": spawn error: ",
                e.message.as_str(),
            );
            r.trace(line.as_str());
        },
        Ok(out) => {
            if out.rc == 0 || text::contains(out.stderr.as_str(), "not found in modules.dep") {
                return;
            }
            let rc: String = zfs_ops::rc_shown(out.rc);
            let q: String = text::quoted(text::trim(out.stderr.as_str()));
            let line: String = text::cat6(
                "zboot-boot/preinit: ",
                label,
                ": rc=",
                rc.as_str(),
                " stderr=",
                q.as_str(),
            );
            r.trace(line.as_str());
        },
    }
}

// ---------------------------------------------------------------------------
// Devices
// ---------------------------------------------------------------------------

/// Waits until the devices found so far have their nodes.
pub open spec fn settle_does(w: World) -> World {
    run_or_warn_does(
        w,
        "/usr/bin/udevadm"@,
        seq!["settle"@, "--timeout=10"@],
        "udevadm settle"@,
    )
}

fn udevadm_settle<R: Runner>(r: &mut R)
    ensures
        final(r).world() == settle_does(old(r).world()),
{
    let args = text::argv2("settle", "--timeout=10");
    run_or_warn(r, "/usr/bin/udevadm", args.as_slice(), "udevadm settle");
}

/// Looks for the daemon that makes device nodes.
pub open spec fn udevd_does(w: World) -> (World, Option<Seq<char>>) {
    let first = "/lib/systemd/systemd-udevd"@;
    let second = "/usr/lib/systemd/systemd-udevd"@;
    let w1 = w.after(Call::Exists { path: first });
    if w.reply().yes {
        (w1, Some(first))
    } else {
        (
            w1.after(Call::Exists { path: second }),
            if w1.reply().yes {
                Some(second)
            } else {
                None
            },
        )
    }
}

fn find_udevd<R: Runner>(r: &mut R) -> (res: Option<&'static str>)
    ensures
        (final(r).world(), res.deep_view()) == udevd_does(old(r).world()),
{
    if r.present("/lib/systemd/systemd-udevd") {
        return Some("/lib/systemd/systemd-udevd");
    }
    if r.present("/usr/lib/systemd/systemd-udevd") {
        return Some("/usr/lib/systemd/systemd-udevd");
    }
    None
}

/// Starts the daemon, and tells where it fails.
pub open spec fn start_does(w: World, udevd: Seq<char>) -> World {
    let w1 = w.run(udevd, seq!["--daemon"@]);
    match w.ran() {
        Err(m) => w1.trace("zboot-boot/preinit: udevd spawn err: "@ + m),
        Ok(out) => if out.rc == 0 {
            w1
        } else {
            w1.trace(
                "zboot-boot/preinit: udevd start failed rc="@ + zfs_ops::rc_text(out.rc)
                    + ": "@ + text::trimmed(out.stderr),
            )
        },
    }
}

fn start_udevd<R: Runner>(r: &mut R, udevd: &str)
    ensures
        final(r).world() == start_does(old(r).world(), udevd@),
{
    let args = text::argv1("--daemon");
    match r.run(udevd, args.as_slice()) {
        Err(e) => {
            let line: String = text::cat2(
                "zboot-boot/preinit: udevd spawn err: ",
                e.message.as_str(),
            );
            r.trace(line.as_str());
        },
        Ok(out) => {
            if out.rc != 0 {
                let rc: String = zfs_ops::rc_shown(out.rc);
                let line: String = text::cat4(
                    "zboot-boot/preinit: udevd start failed rc=",
                    rc.as_str(),
                    ": ",
                    text::trim(out.stderr.as_str()),
                );
                r.trace(line.as_str());
            }
        },
    }
}

/// Starts the daemon, has it look at the devices that are there already, and
/// waits for it.
#[verifier::opaque]
pub open spec fn devices_does(w: World) -> World {
    let (w1, found) = udevd_does(w);
    match found {
        None => w1.trace(
            "zboot-boot/preinit: WARN: no systemd-udevd; device readiness unreliable"@,
        ),
        Some(udevd) => settle_does(
            run_or_warn_does(
                start_does(w1, udevd),
                "/usr/bin/udevadm"@,
                seq!["trigger"@, "--action=add"@],
                "udevadm trigger"@,
            ),
        ),
    }
}

/// Starts the daemon, has it look at the devices that are there already, and
/// waits for it.
pub fn start_udev_and_settle<R: Runner>(r: &mut R)
    ensures
        final(r).world() == devices_does(old(r).world()),
{
    proof {
        reveal(devices_does);
    }
    match find_udevd(r) {
        None => {
            r.trace("zboot-boot/preinit: WARN: no systemd-udevd; device readiness unreliable");
        },
        Some(udevd) => {
            start_udevd(r, udevd);
            let args = text::argv2("trigger", "--action=add");
            run_or_warn(r, "/usr/bin/udevadm", args.as_slice(), "udevadm trigger");
            udevadm_settle(r);
        },
    }
}

// ---------------------------------------------------------------------------
// Modules
// ---------------------------------------------------------------------------

/// The modules for disks, and for keyboards on USB, whose controllers come
/// first.
pub open spec fn drivers() -> Seq<Seq<char>> {
    seq![
        "nvme"@,
        "nvme_core"@,
        "ahci"@,
        "sd_mod"@,
        "usb_storage"@,
        "uas"@,
        "mmc_core"@,
        "mmc_block"@,
        "sdhci"@,
        "sdhci_pci"@,
        "sdhci_acpi"@,
        "virtio_blk"@,
        "xhci_pci"@,
        "xhci_hcd"@,
        "ehci_pci"@,
        "ehci_hcd"@,
        "ohci_pci"@,
        "ohci_hcd"@,
        "uhci_hcd"@,
        "usbhid"@,
        "hid_generic"@,
    ]
}

fn driver_names() -> (r: Vec<&'static str>)
    ensures
        r.deep_view() == drivers(),
{
    let names = vec![
        "nvme",
        "nvme_core",
        "ahci",
        "sd_mod",
        "usb_storage",
        "uas",
        "mmc_core",
        "mmc_block",
        "sdhci",
        "sdhci_pci",
        "sdhci_acpi",
        "virtio_blk",
        "xhci_pci",
        "xhci_hcd",
        "ehci_pci",
        "ehci_hcd",
        "ohci_pci",
        "ohci_hcd",
        "uhci_hcd",
        "usbhid",
        "hid_generic",
    ];
    assert(names.deep_view() =~= drivers());
    names
}

/// Loads some modules, one after the other.
pub open spec fn modules_does(w: World, names: Seq<Seq<char>>) -> World
    decreases names.len(),
{
    if names.len() == 0 {
        w
    } else {
        run_or_warn_does(
            modules_does(w, names.drop_last()),
            "/sbin/modprobe"@,
            seq![names.last()],
            "modprobe "@ + names.last(),
        )
    }
}

fn load_modules<R: Runner>(r: &mut R, names: &Vec<&str>)
    ensures
        final(r).world() == modules_does(old(r).world(), names.deep_view()),
{
    let ghost w = r.world();
    let ghost all = names.deep_view();
    let mut i: usize = 0;
    assert(all.take(0) =~= seq![]);
    while i < names.len()
        invariant
            i <= names@.len(),
            all == names.deep_view(),
            r.world() == modules_does(w, all.take(i as int)),
        decreases names@.len() - i,
    {
        proof {
            assert(all.take(i + 1).drop_last() =~= all.take(i as int));
            assert(all.take(i + 1).last() == names@[i as int]@);
        }
        let label: String = text::cat2("modprobe ", names[i]);
        let args = text::argv1(names[i]);
        run_or_warn(r, "/sbin/modprobe", args.as_slice(), label.as_str());
        i = i + 1;
    }
    assert(all.take(i as int) =~= all);
}

/// Lists the modules, where the kernel has no list of them yet.
#[verifier::opaque]
pub open spec fn depmod_does(w: World, version: Seq<char>) -> World {
    let w1 = w.after(
        Call::Exists { path: "/lib/modules/"@ + version + "/modules.dep"@ },
    );
    if w.reply().yes {
        w1
    } else {
        run_or_warn_does(w1, "/sbin/depmod"@, seq!["-a"@, version], "depmod"@)
    }
}

fn list_modules<R: Runner>(r: &mut R, version: &str)
    ensures
        final(r).world() == depmod_does(old(r).world(), version@),
{
    proof {
        reveal(depmod_does);
    }
    let path: String = text::cat3("/lib/modules/", version, "/modules.dep");
    if !r.present(path.as_str()) {
        let args = text::argv2("-a", version);
        run_or_warn(r, "/sbin/depmod", args.as_slice(), "depmod");
    }
}

// ---------------------------------------------------------------------------
// Pools
// ---------------------------------------------------------------------------

/// Tells which pools are imported.
pub open spec fn tell_pools_does(w: World) -> World {
    let w1 = w.run("/sbin/zpool"@, seq!["list"@, "-H"@, "-o"@, "name"@]);
    match w.ran() {
        Ok(out) => w1.trace(
            "zboot-boot/preinit: imported pools: "@ + text::trimmed(out.stdout),
        ),
        Err(m) => w1.trace("zboot-boot/preinit: post-import list err: "@ + m),
    }
}

fn tell_pools<R: Runner>(r: &mut R)
    ensures
        final(r).world() == tell_pools_does(old(r).world()),
{
    let args = text::argv4("list", "-H", "-o", "name");
    match r.run("/sbin/zpool", args.as_slice()) {
        Ok(out) => {
            let line: String = text::cat2(
                "zboot-boot/preinit: imported pools: ",
                text::trim(out.stdout.as_str()),
            );
            r.trace(line.as_str());
        },
        Err(e) => {
            let line: String = text::cat2(
                "zboot-boot/preinit: post-import list err: ",
                e.message.as_str(),
            );
            r.trace(line.as_str());
        },
    }
}

/// Imports all pools, to be read only and mounted nowhere.
#[verifier::opaque]
pub open spec fn import_does(w: World) -> World {
    let w1 = settle_does(
        run_or_warn_does(w, "/sbin/modprobe"@, seq!["zfs"@], "modprobe zfs"@),
    );
    tell_pools_does(
        run_or_warn_does(
            w1,
            "/sbin/zpool"@,
            seq!["import"@, "-a"@, "-N"@, "-o"@, "readonly=on"@, "-d"@, "/dev"@, "-f"@],
            "zpool import"@,
        ),
    )
}

fn import_pools<R: Runner>(r: &mut R)
    ensures
        final(r).world() == import_does(old(r).world()),
{
    proof {
        reveal(import_does);
    }
    let args = text::argv1("zfs");
    run_or_warn(r, "/sbin/modprobe", args.as_slice(), "modprobe zfs");
    udevadm_settle(r);
    let args = text::argv8("import", "-a", "-N", "-o", "readonly=on", "-d", "/dev", "-f");
    run_or_warn(r, "/sbin/zpool", args.as_slice(), "zpool import");
    tell_pools(r);
}

// ---------------------------------------------------------------------------
// The host id
// ---------------------------------------------------------------------------

/// Asks whether a pool holds boot environments.
pub open spec fn role_does(w: World, pool: Seq<char>) -> (World, bool) {
    (
        w.run(
            "/sbin/zpool"@,
            seq!["get"@, "-Hp"@, "-o"@, "value"@, "zboot:role"@, pool],
        ),
        w.ran() matches Ok(out) && out.rc == 0 && text::trimmed(out.stdout) == "root"@,
    )
}

fn is_root_pool<R: Runner>(r: &mut R, pool: &str) -> (res: bool)
    ensures
        (final(r).world(), res) == role_does(old(r).world(), pool@),
{
    let args = text::argv6("get", "-Hp", "-o", "value", "zboot:role", pool);
    match r.run("/sbin/zpool", args.as_slice()) {
        Ok(out) => out.rc == 0 && text::eq(text::trim(out.stdout.as_str()), "root"),
        Err(_) => false,
    }
}

/// Reads the host id of a boot environment, which is mounted for that while.
#[verifier::opaque]
pub open spec fn read_hostid_does(w: World, ds: Seq<char>) -> (World, Option<Seq<u8>>) {
    let mp = "/run/zboot-hostid-probe-"@ + text::decimal(w.reply().pid as nat);
    let w1 = w.after(Call::Pid);
    let w2 = w1.after(Call::MakeDirs { path: mp });
    if w1.unit() is Err {
        (w2, None)
    } else {
        let w3 = w2.after(
            Call::Attend {
                prog: "/bin/mount"@,
                args: seq!["-t"@, "zfs"@, "-o"@, "ro,zfsutil"@, ds, mp],
            },
        );
        if w2.code() == Ok::<i32, Seq<char>>(0) {
            let w4 = w3.after(Call::ReadBytes { path: mp + "/etc/hostid"@ });
            (
                w4.after(Call::Attend { prog: "/bin/umount"@, args: seq![mp] }).after(
                    Call::RemoveDir { path: mp },
                ),
                match w3.raw() {
                    Ok(b) => if b.len() > 0 {
                        Some(b)
                    } else {
                        None
                    },
                    Err(_) => None,
                },
            )
        } else {
            (w3.after(Call::RemoveDir { path: mp }), None)
        }
    }
}

fn read_hostid<R: Runner>(r: &mut R, ds: &str) -> (res: Option<Vec<u8>>)
    ensures
        final(r).world() == read_hostid_does(old(r).world(), ds@).0,
        (match res {
            Some(b) => Some(b@),
            None => None,
        }) == read_hostid_does(old(r).world(), ds@).1,
{
    proof {
        reveal(read_hostid_does);
    }
    let pid: String = text::dec(r.pid() as u128);
    let mp: String = text::cat2("/run/zboot-hostid-probe-", pid.as_str());
    match r.make_dirs(mp.as_str()) {
        Err(_) => return None,
        Ok(()) => {},
    }
    let args = text::argv6("-t", "zfs", "-o", "ro,zfsutil", ds, mp.as_str());
    let mounted: bool = match r.attend("/bin/mount", args.as_slice()) {
        Ok(rc) => rc == 0,
        Err(_) => false,
    };
    if !mounted {
        let _ = r.remove_dir(mp.as_str());
        return None;
    }
    let path: String = text::cat2(mp.as_str(), "/etc/hostid");
    let read = r.read_bytes(path.as_str());
    let args = text::argv1(mp.as_str());
    let _ = r.attend("/bin/umount", args.as_slice());
    let _ = r.remove_dir(mp.as_str());
    match read {
        Ok(b) => if b.len() > 0 {
            Some(b)
        } else {
            None
        },
        Err(_) => None,
    }
}

/// Reads the host id that a row of pool and boot environment leads to.
#[verifier::opaque]
pub open spec fn try_row_does(w: World, line: Seq<char>) -> (World, Option<Seq<u8>>) {
    let cols = text::words_of(line);
    if cols.len() < 2 || cols[1] == "-"@ {
        (w, None)
    } else {
        let (w1, root) = role_does(w, cols[0]);
        if root {
            read_hostid_does(w1, cols[1])
        } else {
            (w1, None)
        }
    }
}

fn try_row<R: Runner>(r: &mut R, line: &str) -> (res: Option<Vec<u8>>)
    ensures
        final(r).world() == try_row_does(old(r).world(), line@).0,
        (match res {
            Some(b) => Some(b@),
            None => None,
        }) == try_row_does(old(r).world(), line@).1,
{
    proof {
        reveal(try_row_does);
    }
    let cols = text::words(line);
    if cols.len() < 2 {
        return None;
    }
    assert(cols.deep_view()[0] == cols@[0]@);
    assert(cols.deep_view()[1] == cols@[1]@);
    if text::eq(cols[1], "-") {
        return None;
    }
    if !is_root_pool(r, cols[0]) {
        return None;
    }
    read_hostid(r, cols[1])
}

/// Takes the host id from the first row that leads to one.
pub open spec fn adopt_rows_does(w: World, ls: Seq<Seq<char>>) -> (World, Result<(), Seq<char>>)
    decreases ls.len(),
{
    if ls.len() == 0 {
        (w, Err("no zboot:role=root pool yielded a readable /etc/hostid"@))
    } else {
        let (w1, found) = try_row_does(w, ls[0]);
        match found {
            None => adopt_rows_does(w1, ls.drop_first()),
            Some(b) => {
                let w2 = w1.after(Call::WriteFile { path: "/etc/hostid"@, bytes: b });
                match w1.unit() {
                    Err(m) => (w2, Err(error::within("write /etc/hostid"@, m))),
                    Ok(()) => (
                        w2.trace(
                            "zboot-boot/preinit: adopted /etc/hostid from "@ + text::words_of(
                                ls[0],
                            )[1] + " ("@ + text::decimal(b.len()) + " bytes)"@,
                        ),
                        Ok(()),
                    ),
                }
            },
        }
    }
}

fn adopt_rows<R: Runner>(r: &mut R, ls: &Vec<&str>, i: usize) -> (res: Result<(), Error>)
    requires
        i <= ls@.len(),
    ensures
        sub::did(final(r).world(), res) == adopt_rows_does(
            old(r).world(),
            ls.deep_view().skip(i as int),
        ),
    decreases ls@.len() - i,
{
    let ghost left = ls.deep_view().skip(i as int);
    if i >= ls.len() {
        return Err(Error::new("no zboot:role=root pool yielded a readable /etc/hostid"));
    }
    proof {
        assert(left[0] == ls@[i as int]@);
        assert(left.drop_first() =~= ls.deep_view().skip(i + 1));
    }
    match try_row(r, ls[i]) {
        None => adopt_rows(r, ls, i + 1),
        Some(b) => {
            match r.write_file("/etc/hostid", b.as_slice()) {
                Err(e) => return Err(e.context("write /etc/hostid")),
                Ok(()) => {},
            }
            let n: String = text::dec_len(b.len());
            let bootfs: &str = zfs_ops::get_word(ls[i], 1);
            proof {
                reveal(try_row_does);
            }
            let line: String = text::cat5(
                "zboot-boot/preinit: adopted /etc/hostid from ",
                bootfs,
                " (",
                n.as_str(),
                " bytes)",
            );
            r.trace(line.as_str());
            Ok(())
        },
    }
}

/// Takes the host id from the first boot environment that has one.
#[verifier::opaque]
pub open spec fn adopt_does(w: World) -> (World, Result<(), Seq<char>>) {
    let w1 = w.run("/sbin/zpool"@, seq!["list"@, "-H"@, "-o"@, "name,bootfs"@]);
    match w.ran() {
        Err(m) => (w1, Err(error::within("spawn `zpool list`"@, m))),
        Ok(out) => if out.rc == 0 {
            adopt_rows_does(w1, text::lines_of(out.stdout))
        } else {
            (
                w1,
                Err(
                    "`zpool list` rc="@ + zfs_ops::rc_text(out.rc) + ": "@ + text::trimmed(
                        out.stderr,
                    ),
                ),
            )
        },
    }
}

/// Takes the host id from the first boot environment that has one, so that a
/// pool opened from here carries it.
pub fn adopt_hostid_from_pool<R: Runner>(r: &mut R) -> (res: Result<(), Error>)
    ensures
        sub::did(final(r).world(), res) == adopt_does(old(r).world()),
{
    proof {
        reveal(adopt_does);
    }
    let args = text::argv4("list", "-H", "-o", "name,bootfs");
    match r.run("/sbin/zpool", args.as_slice()) {
        Err(e) => Err(e.context("spawn `zpool list`")),
        Ok(out) => {
            if out.rc != 0 {
                let rc: String = zfs_ops::rc_shown(out.rc);
                return Err(
                    Error::from_text(
                        text::cat4(
                            "`zpool list` rc=",
                            rc.as_str(),
                            ": ",
                            text::trim(out.stderr.as_str()),
                        ),
                    ),
                );
            }
            let ls = text::lines(out.stdout.as_str());
            assert(ls.deep_view().skip(0) =~= ls.deep_view());
            adopt_rows(r, &ls, 0)
        },
    }
}

// ---------------------------------------------------------------------------
// All of it
// ---------------------------------------------------------------------------

/// Loads the modules, finds the devices, imports the pools and takes the host
/// id. Only where there are no modules at all does that fail.
pub open spec fn load_kmods_does(w: World) -> (World, Result<(), Seq<char>>) {
    let w1 = w.after(Call::ListDir { path: "/lib/modules"@ });
    match w.listed() {
        Err(m) => (w1, Err(error::within("read /lib/modules"@, m))),
        Ok(names) => if names.len() == 0 {
            (w1, Err("/lib/modules empty"@))
        } else {
            let w2 = devices_does(depmod_does(w1, names[0]));
            let w3 = import_does(settle_does(modules_does(w2, drivers())));
            let (w4, adopted) = adopt_does(w3);
            (
                match adopted {
                    Ok(()) => w4,
                    Err(m) => w4.trace("zboot-boot/preinit: hostid-adopt skipped: "@ + m),
                },
                Ok(()),
            )
        },
    }
}

/// Loads the modules, finds the devices, imports the pools and takes the host
/// id.
pub fn load_kmods<R: Runner>(r: &mut R) -> (res: Result<(), Error>)
    ensures
        sub::did(final(r).world(), res) == load_kmods_does(old(r).world()),
{
    let names = match r.list_dir("/lib/modules") {
        Err(e) => return Err(e.context("read /lib/modules")),
        Ok(n) => n,
    };
    if names.len() == 0 {
        return Err(Error::new("/lib/modules empty"));
    }
    assert(names.deep_view()[0] == names@[0]@);
    list_modules(r, names[0].as_str());
    start_udev_and_settle(r);
    let modules = driver_names();
    load_modules(r, &modules);
    udevadm_settle(r);
    import_pools(r);
    match adopt_hostid_from_pool(r) {
        Ok(()) => {},
        Err(e) => {
            let line: String = text::cat2(
                "zboot-boot/preinit: hostid-adopt skipped: ",
                e.message.as_str(),
            );
            r.trace(line.as_str());
        },
    }
    Ok(())
}

// ---------------------------------------------------------------------------
// Laws
// ---------------------------------------------------------------------------

/// The boot goes on whatever fails, as long as there are modules.
pub proof fn law_boot_goes_on(w: World)
    ensures
        load_kmods_does(w).1 is Ok <==> (w.listed() matches Ok(names) && names.len() > 0),
{
}

/// A module that this machine has no file for is not told of.
pub proof fn law_missing_modules_are_silent(w: World, out: sub::Ran, label: Seq<char>)
    requires
        text::holds(out.stderr, "not found in modules.dep"@),
    ensures
        report_does(w, Ok(out), label) == w,
{
}

/// The boot environment that the host id was read from is not left mounted,
/// and its mount point is removed.
pub proof fn law_probe_is_taken_away(w: World, ds: Seq<char>)
    requires
        w.after(Call::Pid).unit() is Ok,
    ensures
        ({
            let mp = "/run/zboot-hostid-probe-"@ + text::decimal(w.reply().pid as nat);
            let calls = read_hostid_does(w, ds).0.calls;
            let w2 = w.after(Call::Pid).after(Call::MakeDirs { path: mp });
            &&& calls.last() == Call::RemoveDir { path: mp }
            &&& w2.code() == Ok::<i32, Seq<char>>(0) ==> calls[calls.len() - 2] == (Call::Attend {
                prog: "/bin/umount"@,
                args: seq![mp],
            })
        }),
{
    reveal(read_hostid_does);
}

/// An empty host id is never taken.
pub proof fn law_adopted_hostid_is_not_empty(w: World, line: Seq<char>)
    ensures
        try_row_does(w, line).1 matches Some(b) ==> b.len() > 0,
{
    reveal(try_row_does);
    reveal(read_hostid_does);
}

/// A helper was looked for in its directories, and run where it was found.
pub open spec fn helped(a: World, b: World, prog: Seq<char>, args: Seq<Seq<char>>) -> bool {
    ||| exists|k: int|
        0 <= k < helper_dirs().len() && sub::called(
            a,
            b,
            Call::Run {
                prog: paths::under(#[trigger] helper_dirs()[k], helper_name(prog)),
                args,
            },
        )
    ||| forall|k: int|
        0 <= k < helper_dirs().len() ==> missed(
            a,
            b,
            paths::under(#[trigger] helper_dirs()[k], helper_name(prog)),
        )
}

/// A path was asked for, and was not there.
pub open spec fn missed(a: World, b: World, path: Seq<char>) -> bool {
    exists|n: int|
        a.calls.len() <= n < b.calls.len() && #[trigger] b.calls[n] == (Call::Exists { path })
            && !(b.replies)(n as nat).yes
}

proof fn lemma_missed_within(a: World, b: World, c: World, d: World, path: Seq<char>)
    requires
        sub::continues(a, b),
        missed(b, c, path),
        sub::continues(c, d),
    ensures
        missed(a, d, path),
{
    let n = choose|n: int|
        b.calls.len() <= n < c.calls.len() && #[trigger] c.calls[n] == (Call::Exists { path })
            && !(c.replies)(n as nat).yes;
    assert(d.calls[n] == c.calls[n]);
}

proof fn lemma_helped_within(
    a: World,
    b: World,
    c: World,
    d: World,
    prog: Seq<char>,
    args: Seq<Seq<char>>,
)
    requires
        sub::continues(a, b),
        helped(b, c, prog, args),
        sub::continues(c, d),
    ensures
        helped(a, d, prog, args),
{
    if exists|k: int|
        0 <= k < helper_dirs().len() && sub::called(
            b,
            c,
            Call::Run {
                prog: paths::under(#[trigger] helper_dirs()[k], helper_name(prog)),
                args,
            },
        ) {
        let k = choose|k: int|
            0 <= k < helper_dirs().len() && sub::called(
                b,
                c,
                Call::Run {
                    prog: paths::under(#[trigger] helper_dirs()[k], helper_name(prog)),
                    args,
                },
            );
        let path = paths::under(helper_dirs()[k], helper_name(prog));
        effects::lemma_called_within(a, b, c, d, Call::Run { prog: path, args });
    } else {
        assert forall|k: int| 0 <= k < helper_dirs().len() implies missed(
            a,
            d,
            paths::under(#[trigger] helper_dirs()[k], helper_name(prog)),
        ) by {
            lemma_missed_within(
                a,
                b,
                c,
                d,
                paths::under(helper_dirs()[k], helper_name(prog)),
            );
        }
    }
}

/// A program is found in the first of the directories that has it, and nowhere
/// else.
pub proof fn law_first_directory_counts(w: World, dirs: Seq<Seq<char>>, name: Seq<char>)
    ensures
        ({
            let (end, found) = resolve_does(w, dirs, name);
            &&& sub::continues(w, end)
            &&& match found {
                Some(path) => exists|k: int|
                    0 <= k < dirs.len() && path == paths::under(#[trigger] dirs[k], name),
                None => forall|k: int|
                    0 <= k < dirs.len() ==> missed(
                        w,
                        end,
                        paths::under(#[trigger] dirs[k], name),
                    ),
            }
        }),
    decreases dirs.len(),
{
    assert(sub::continues(w, w));
    if dirs.len() > 0 {
        let (end, found) = resolve_does(w, dirs, name);
        let path = paths::under(dirs[0], name);
        let w1 = w.after(Call::Exists { path });
        assert(sub::continues(w, w1));
        if w.reply().yes {
            assert(found == Some(paths::under(dirs[0], name)));
        } else {
            let rest = dirs.drop_first();
            law_first_directory_counts(w1, rest, name);
            effects::lemma_continues(w, w1, end);
            let n = w.calls.len() as int;
            assert(w1.calls[n] == Call::Exists { path });
            assert(end.calls[n] == w1.calls[n]);
            assert(sub::continues(end, end));
            match found {
                Some(p) => {
                    let k = choose|k: int|
                        0 <= k < rest.len() && p == paths::under(#[trigger] rest[k], name);
                    assert(dirs[k + 1] == rest[k]);
                },
                None => {
                    assert forall|k: int| 0 <= k < dirs.len() implies missed(
                        w,
                        end,
                        paths::under(#[trigger] dirs[k], name),
                    ) by {
                        if k > 0 {
                            assert(rest[k - 1] == dirs[k]);
                            lemma_missed_within(
                                w,
                                w1,
                                end,
                                end,
                                paths::under(rest[k - 1], name),
                            );
                        }
                    }
                },
            }
        }
    }
}

proof fn lemma_helped(w: World, prog: Seq<char>, args: Seq<Seq<char>>, label: Seq<char>)
    ensures
        sub::continues(w, run_or_warn_does(w, prog, args, label)),
        helped(w, run_or_warn_does(w, prog, args, label), prog, args),
{
    reveal(run_or_warn_does);
    let end = run_or_warn_does(w, prog, args, label);
    law_first_directory_counts(w, helper_dirs(), helper_name(prog));
    let (w1, found) = resolve_does(w, helper_dirs(), helper_name(prog));
    assert(sub::continues(w1, end));
    effects::lemma_continues(w, w1, end);
    match found {
        Some(path) => {
            let n = w1.calls.len() as int;
            assert(end.calls[n] == Call::Run { prog: path, args });
            let k = choose|k: int|
                0 <= k < helper_dirs().len() && path == paths::under(
                    #[trigger] helper_dirs()[k],
                    helper_name(prog),
                );
            assert(sub::called(
                w,
                end,
                Call::Run { prog: paths::under(helper_dirs()[k], helper_name(prog)), args },
            ));
        },
        None => {
            assert(sub::continues(w, w));
            assert forall|k: int| 0 <= k < helper_dirs().len() implies missed(
                w,
                end,
                paths::under(#[trigger] helper_dirs()[k], helper_name(prog)),
            ) by {
                lemma_missed_within(
                    w,
                    w,
                    w1,
                    end,
                    paths::under(helper_dirs()[k], helper_name(prog)),
                );
            }
        },
    }
}

/// Every module is asked for, where the program that loads modules can be found.
pub proof fn law_every_module_is_asked_for(w: World, names: Seq<Seq<char>>)
    ensures
        sub::continues(w, modules_does(w, names)),
        forall|i: int|
            0 <= i < names.len() ==> helped(
                w,
                modules_does(w, names),
                "/sbin/modprobe"@,
                seq![#[trigger] names[i]],
            ),
    decreases names.len(),
{
    assert(sub::continues(w, w));
    if names.len() > 0 {
        let front = names.drop_last();
        law_every_module_is_asked_for(w, front);
        let w1 = modules_does(w, front);
        let end = modules_does(w, names);
        let name = names.last();
        lemma_helped(w1, "/sbin/modprobe"@, seq![name], "modprobe "@ + name);
        effects::lemma_continues(w, w1, end);
        assert(sub::continues(end, end));
        assert forall|i: int| 0 <= i < names.len() implies helped(
            w,
            end,
            "/sbin/modprobe"@,
            seq![#[trigger] names[i]],
        ) by {
            if i < front.len() {
                assert(front[i] == names[i]);
                lemma_helped_within(w, w, w1, end, "/sbin/modprobe"@, seq![names[i]]);
            } else {
                lemma_helped_within(w, w1, end, end, "/sbin/modprobe"@, seq![names[i]]);
            }
        }
    }
}

/// Pools are asked to be imported, all of them, unmounted and unwritten.
pub proof fn law_pools_are_imported(w: World)
    ensures
        ({
            let end = import_does(w);
            &&& helped(w, end, "/sbin/modprobe"@, seq!["zfs"@])
            &&& helped(
                w,
                end,
                "/sbin/zpool"@,
                seq!["import"@, "-a"@, "-N"@, "-o"@, "readonly=on"@, "-d"@, "/dev"@, "-f"@],
            )
        }),
{
    reveal(import_does);
    let all = seq!["import"@, "-a"@, "-N"@, "-o"@, "readonly=on"@, "-d"@, "/dev"@, "-f"@];
    lemma_helped(w, "/sbin/modprobe"@, seq!["zfs"@], "modprobe zfs"@);
    let w1 = run_or_warn_does(w, "/sbin/modprobe"@, seq!["zfs"@], "modprobe zfs"@);
    let settle = seq!["settle"@, "--timeout=10"@];
    lemma_helped(w1, "/usr/bin/udevadm"@, settle, "udevadm settle"@);
    let w2 = settle_does(w1);
    lemma_helped(w2, "/sbin/zpool"@, all, "zpool import"@);
    let w3 = run_or_warn_does(w2, "/sbin/zpool"@, all, "zpool import"@);
    let end = import_does(w);
    assert(sub::continues(w3, end));
    assert(sub::continues(w, w));
    effects::lemma_continues(w, w1, w2);
    effects::lemma_continues(w2, w3, end);
    effects::lemma_continues(w1, w2, end);
    lemma_helped_within(w, w, w1, end, "/sbin/modprobe"@, seq!["zfs"@]);
    lemma_helped_within(w, w2, w3, end, "/sbin/zpool"@, all);
}

/// A host id that was adopted is what was read from an environment that a root
/// pool boots, byte for byte.
pub proof fn law_adopted_hostid_was_read(w: World, ls: Seq<Seq<char>>)
    ensures
        ({
            let (end, res) = adopt_rows_does(w, ls);
            &&& sub::continues(w, end)
            &&& res is Ok ==> exists|n: int|
                w.calls.len() <= n < end.calls.len() && #[trigger] hostid_read(end, n)
                    && effects::came_off(
                    w,
                    end,
                    Call::WriteFile {
                        path: "/etc/hostid"@,
                        bytes: (end.replies)(n as nat).bytes,
                    },
                )
        }),
    decreases ls.len(),
{
    reveal(try_row_does);
    reveal(read_hostid_does);
    assert(sub::continues(w, w));
    if ls.len() > 0 {
        let (end, res) = adopt_rows_does(w, ls);
        let (w1, found) = try_row_does(w, ls[0]);
        assert(sub::continues(w, w1));
        match found {
            None => {
                law_adopted_hostid_was_read(w1, ls.drop_first());
                effects::lemma_continues(w, w1, end);
                if res is Ok {
                    let n = choose|n: int|
                        w1.calls.len() <= n < end.calls.len() && #[trigger] hostid_read(end, n)
                            && effects::came_off(
                            w1,
                            end,
                            Call::WriteFile {
                                path: "/etc/hostid"@,
                                bytes: (end.replies)(n as nat).bytes,
                            },
                        );
                    assert(sub::continues(end, end));
                    effects::lemma_came_within(
                        w,
                        w1,
                        end,
                        end,
                        Call::WriteFile {
                            path: "/etc/hostid"@,
                            bytes: (end.replies)(n as nat).bytes,
                        },
                    );
                }
            },
            Some(b) => {
                assert(sub::continues(w1, end));
                effects::lemma_continues(w, w1, end);
                if res is Ok {
                    let n = w1.calls.len() - 3;
                    assert(w1.calls[n] is ReadBytes);
                    assert(end.calls[n] == w1.calls[n]);
                    assert(hostid_read(end, n));
                    let m = w1.calls.len() as int;
                    let c = Call::WriteFile { path: "/etc/hostid"@, bytes: b };
                    assert(end.calls[m] == c);
                    assert(effects::went_well(end, m));
                    assert(effects::came_off(w, end, c));
                }
            },
        }
    }
}

/// The n-th call read bytes, and there were some.
pub open spec fn hostid_read(w: World, n: int) -> bool {
    w.calls[n] is ReadBytes && (w.replies)(n as nat).failure is None && (w.replies)(
        n as nat,
    ).bytes.len() > 0
}

/// On the way to a boot every driver is asked for, and the pools are imported.
pub proof fn law_boot_is_prepared(w: World)
    requires
        w.listed() is Ok,
        load_kmods_does(w).1 is Ok,
    ensures
        ({
            let end = load_kmods_does(w).0;
            &&& forall|i: int|
                0 <= i < drivers().len() ==> helped(
                    w,
                    end,
                    "/sbin/modprobe"@,
                    seq![#[trigger] drivers()[i]],
                )
            &&& helped(w, end, "/sbin/modprobe"@, seq!["zfs"@])
            &&& helped(
                w,
                end,
                "/sbin/zpool"@,
                seq!["import"@, "-a"@, "-N"@, "-o"@, "readonly=on"@, "-d"@, "/dev"@, "-f"@],
            )
        }),
{
    reveal(depmod_does);
    reveal(devices_does);
    reveal(import_does);
    reveal(adopt_does);
    let end = load_kmods_does(w).0;
    let names = w.listed()->Ok_0;
    let w1 = w.after(Call::ListDir { path: "/lib/modules"@ });
    let wa = w1.after(
        Call::Exists { path: "/lib/modules/"@ + names[0] + "/modules.dep"@ },
    );
    lemma_helped(wa, "/sbin/depmod"@, seq!["-a"@, names[0]], "depmod"@);
    let wb = depmod_does(w1, names[0]);
    assert(sub::continues(w, wa));
    assert(sub::continues(wa, wa));
    assert(sub::continues(wa, wb));
    effects::lemma_continues(w, wa, wb);
    let (wc, found) = udevd_does(wb);
    assert(sub::continues(wb, wc));
    let wd = start_does(wc, found->0);
    assert(sub::continues(wc, wd));
    let trigger = seq!["trigger"@, "--action=add"@];
    let settle = seq!["settle"@, "--timeout=10"@];
    lemma_helped(wd, "/usr/bin/udevadm"@, trigger, "udevadm trigger"@);
    let we = run_or_warn_does(wd, "/usr/bin/udevadm"@, trigger, "udevadm trigger"@);
    lemma_helped(we, "/usr/bin/udevadm"@, settle, "udevadm settle"@);
    let w2 = devices_does(wb);
    assert(sub::continues(wc, w2)) by {
        if found is Some {
            effects::lemma_continues(wc, wd, we);
            effects::lemma_continues(wc, we, w2);
        }
    }
    effects::lemma_continues(wb, wc, w2);
    effects::lemma_continues(w, wb, w2);
    law_every_module_is_asked_for(w2, drivers());
    let w3 = modules_does(w2, drivers());
    lemma_helped(w3, "/usr/bin/udevadm"@, settle, "udevadm settle"@);
    let w4 = settle_does(w3);
    law_pools_are_imported(w4);
    let w5 = import_does(w4);
    assert(sub::continues(w4, w5)) by {
        let all = seq![
            "import"@,
            "-a"@,
            "-N"@,
            "-o"@,
            "readonly=on"@,
            "-d"@,
            "/dev"@,
            "-f"@,
        ];
        lemma_helped(w4, "/sbin/modprobe"@, seq!["zfs"@], "modprobe zfs"@);
        let x1 = run_or_warn_does(w4, "/sbin/modprobe"@, seq!["zfs"@], "modprobe zfs"@);
        lemma_helped(x1, "/usr/bin/udevadm"@, settle, "udevadm settle"@);
        let x2 = settle_does(x1);
        lemma_helped(x2, "/sbin/zpool"@, all, "zpool import"@);
        let x3 = run_or_warn_does(x2, "/sbin/zpool"@, all, "zpool import"@);
        assert(sub::continues(x3, w5));
        effects::lemma_continues(w4, x1, x2);
        effects::lemma_continues(w4, x2, x3);
        effects::lemma_continues(w4, x3, w5);
    }
    let w6 = w5.run("/sbin/zpool"@, seq!["list"@, "-H"@, "-o"@, "name,bootfs"@]);
    if w5.ran() is Ok && w5.ran()->Ok_0.rc == 0 {
        law_adopted_hostid_was_read(w6, text::lines_of(w5.ran()->Ok_0.stdout));
    }
    let w7 = adopt_does(w5).0;
    assert(sub::continues(w5, w6));
    assert(sub::continues(w6, w6));
    assert(sub::continues(w6, w7));
    effects::lemma_continues(w5, w6, w7);
    assert(sub::continues(w7, end));
    effects::lemma_continues(w5, w7, end);
    effects::lemma_continues(w4, w5, end);
    effects::lemma_continues(w3, w4, end);
    effects::lemma_continues(w, w2, w3);
    effects::lemma_continues(w, w3, w4);
    assert forall|i: int| 0 <= i < drivers().len() implies helped(
        w,
        end,
        "/sbin/modprobe"@,
        seq![#[trigger] drivers()[i]],
    ) by {
        lemma_helped_within(w, w2, w3, end, "/sbin/modprobe"@, seq![drivers()[i]]);
    }
    lemma_helped_within(w, w4, w5, end, "/sbin/modprobe"@, seq!["zfs"@]);
    lemma_helped_within(
        w,
        w4,
        w5,
        end,
        "/sbin/zpool"@,
        seq!["import"@, "-a"@, "-N"@, "-o"@, "readonly=on"@, "-d"@, "/dev"@, "-f"@],
    );
}

} // verus!
