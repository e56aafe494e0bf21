//! The boot loader's partition, and the firmware's list of loaders.

use vstd::prelude::*;

use vstd::string::*;

use crate::cmd::deploy;
use crate::cmd::deploy::plan::{Plan, Scheme};
use crate::cmd::efi;
use crate::effects;
use crate::error;
use crate::error::Error;
use crate::paths;
use crate::sub;
use crate::sub::{Call, Runner, World};
use crate::text;
use crate::zfs_ops;

verus! {

// ---------------------------------------------------------------------------
// The loader
// ---------------------------------------------------------------------------

/// Looks for a file at the first of some paths where there is one.
pub open spec fn first_file_does(w: World, cands: Seq<Seq<char>>) -> (World, Option<Seq<char>>)
    decreases cands.len(),
{
    if cands.len() == 0 {
        (w, None)
    } else {
        let w1 = w.after(Call::IsFile { path: cands[0] });
        if w.reply().yes {
            (w1, Some(cands[0]))
        } else {
            first_file_does(w1, cands.drop_first())
        }
    }
}

fn first_file<R: Runner>(r: &mut R, cands: &Vec<String>, i: usize) -> (res: Option<String>)
    requires
        i <= cands@.len(),
    ensures
        (final(r).world(), res.deep_view()) == first_file_does(
            old(r).world(),
            cands.deep_view().skip(i as int),
        ),
    decreases cands@.len() - i,
{
    let ghost rest = cands.deep_view().skip(i as int);
    if i >= cands.len() {
        return None;
    }
    proof {
        assert(rest[0] == cands@[i as int]@);
        assert(rest.drop_first() =~= cands.deep_view().skip(i + 1));
    }
    if r.is_file(cands[i].as_str()) {
        return Some(cands[i].clone());
    }
    first_file(r, cands, i + 1)
}

/// Where the loader may lie: in two usual places, and beside the running
/// program.
pub open spec fn candidates_of(exe: Result<Seq<char>, Seq<char>>) -> Seq<Seq<char>> {
    let usual = seq!["/usr/share/zboot/zboot-boot.efi"@, "/usr/lib/zboot/zboot-boot.efi"@];
    match exe {
        Err(_) => usual,
        Ok(p) => match paths::parent_of(p) {
            None => usual,
            Some(dir) => usual.push(paths::under(dir, "zboot-boot.efi"@)),
        },
    }
}

fn candidates(exe: Result<String, Error>) -> (r: Vec<String>)
    ensures
        r.deep_view() == candidates_of(error::outcome(exe)),
{
    let mut out: Vec<String> = Vec::new();
    text::push_text(&mut out, "/usr/share/zboot/zboot-boot.efi");
    text::push_text(&mut out, "/usr/lib/zboot/zboot-boot.efi");
    assert(out.deep_view() =~= seq![
        "/usr/share/zboot/zboot-boot.efi"@,
        "/usr/lib/zboot/zboot-boot.efi"@,
    ]);
    match exe {
        Err(_) => {},
        Ok(p) => match paths::parent(p.as_str()) {
            None => {},
            Some(dir) => {
                let path: String = paths::join(dir.as_str(), "zboot-boot.efi");
                text::push_text(&mut out, path.as_str());
            },
        },
    }
    out
}

/// Finds the loader: the file that the environment names, else the one that
/// the program carries, else one that lies in a usual place.
#[verifier::opaque]
pub open spec fn resolve_bundle_does(w: World, carried: Seq<u8>) -> (World, Result<
    Seq<char>,
    Seq<char>,
>) {
    let w1 = w.after(Call::Env { name: "ZBOOT_EFI_BUNDLE"@ });
    match w.maybe() {
        Some(p) => (
            w1.after(Call::IsFile { path: p }),
            if w1.reply().yes {
                Ok(p)
            } else {
                Err("ZBOOT_EFI_BUNDLE="@ + text::quoted_text(p) + " is not a regular file"@)
            },
        ),
        None => if carried.len() > 0 {
            efi::extract_does(w1, carried)
        } else {
            let cands = candidates_of(w1.line());
            let (w2, found) = first_file_does(w1.after(Call::Exe), cands);
            match found {
                Some(p) => (w2, Ok(p)),
                None => (
                    w2,
                    Err(
                        "zboot-boot.efi not found — embedded copy is empty placeholder (build with `bash boot/build.sh && cargo build --release` to embed), and not present at any of: "@
                            + text::joined(cands, " / "@),
                    ),
                ),
            }
        },
    }
}

/// Finds the loader.
pub fn resolve_efi_bundle<R: Runner>(r: &mut R, carried: &[u8]) -> (res: Result<String, Error>)
    ensures
        sub::did(final(r).world(), res) == resolve_bundle_does(old(r).world(), carried@),
{
    proof {
        reveal(resolve_bundle_does);
    }
    match r.env("ZBOOT_EFI_BUNDLE") {
        Some(p) => {
            if r.is_file(p.as_str()) {
                return Ok(p);
            }
            let q: String = text::quoted(p.as_str());
            return Err(
                Error::from_text(
                    text::cat3("ZBOOT_EFI_BUNDLE=", q.as_str(), " is not a regular file"),
                ),
            );
        },
        None => {},
    }
    if carried.len() > 0 {
        return efi::extract_to_tmp(r, carried);
    }
    let exe = r.exe();
    let cands = candidates(exe);
    assert(cands.deep_view().skip(0) =~= cands.deep_view());
    match first_file(r, &cands, 0) {
        Some(p) => Ok(p),
        None => {
            let shown: String = text::join(&cands, " / ");
            Err(
                Error::from_text(
                    text::cat2(
                        "zboot-boot.efi not found — embedded copy is empty placeholder (build with `bash boot/build.sh && cargo build --release` to embed), and not present at any of: ",
                        shown.as_str(),
                    ),
                ),
            )
        },
    }
}

// ---------------------------------------------------------------------------
// The partition
// ---------------------------------------------------------------------------

/// Mounts the loader's partition.
pub open spec fn mount_esp_does(w: World, partition: Seq<char>, mountpoint: Seq<char>) -> (
    World,
    Result<(), Seq<char>>,
) {
    sub::chain(
        sub::explained(
            (w.after(Call::MakeDirs { path: mountpoint }), w.unit()),
            "mkdir "@ + mountpoint,
        ),
        |w1: World|
            deploy::spawn_does(w1, "mount"@, seq!["-t"@, "vfat"@, partition, mountpoint]),
    )
}

/// Mounts the loader's partition.
pub fn mount_esp<R: Runner>(r: &mut R, partition: &str, mountpoint: &str) -> (res: Result<
    (),
    Error,
>)
    ensures
        sub::did(final(r).world(), res) == mount_esp_does(
            old(r).world(),
            partition@,
            mountpoint@,
        ),
{
    match r.make_dirs(mountpoint) {
        Err(e) => {
            let what: String = text::cat2("mkdir ", mountpoint);
            return Err(e.context(what.as_str()));
        },
        Ok(()) => {},
    }
    let args = text::argv4("-t", "vfat", partition, mountpoint);
    deploy::spawn(r, "mount", args.as_slice())
}

/// Copies the loader to its own place, and to the one where the firmware looks
/// on its own.
#[verifier::opaque]
pub open spec fn install_does(w: World, bundle: Seq<char>, esp: Seq<char>) -> (World, Result<
    (),
    Seq<char>,
>) {
    let canonical = esp + "/EFI/zboot-boot"@;
    let fallback = esp + "/EFI/BOOT"@;
    sub::chain(
        sub::explained(
            (w.after(Call::MakeDirs { path: canonical }), w.unit()),
            "mkdir EFI/zboot-boot"@,
        ),
        |w1: World|
            sub::chain(
                sub::explained(
                    (w1.after(Call::MakeDirs { path: fallback }), w1.unit()),
                    "mkdir EFI/BOOT"@,
                ),
                |w2: World|
                    sub::chain(
                        sub::explained(
                            (
                                w2.after(
                                    Call::CopyFile {
                                        from: bundle,
                                        to: canonical + "/zboot-boot.efi"@,
                                    },
                                ),
                                w2.unit(),
                            ),
                            "copy zboot-boot.efi (canonical)"@,
                        ),
                        |w3: World|
                            sub::explained(
                                (
                                    w3.after(
                                        Call::CopyFile {
                                            from: bundle,
                                            to: fallback + "/BOOTX64.EFI"@,
                                        },
                                    ),
                                    w3.unit(),
                                ),
                                "copy BOOTX64.EFI (fallback)"@,
                            ),
                    ),
            ),
    )
}

/// Copies the loader to its two places.
pub fn install_efi_to_esp<R: Runner>(r: &mut R, bundle: &str, esp: &str) -> (res: Result<(), Error>)
    ensures
        sub::did(final(r).world(), res) == install_does(old(r).world(), bundle@, esp@),
{
    proof {
        reveal(install_does);
    }
    let canonical: String = text::cat2(esp, "/EFI/zboot-boot");
    let fallback: String = text::cat2(esp, "/EFI/BOOT");
    match r.make_dirs(canonical.as_str()) {
        Err(e) => return Err(e.context("mkdir EFI/zboot-boot")),
        Ok(()) => {},
    }
    match r.make_dirs(fallback.as_str()) {
        Err(e) => return Err(e.context("mkdir EFI/BOOT")),
        Ok(()) => {},
    }
    let first: String = text::cat2(canonical.as_str(), "/zboot-boot.efi");
    match r.copy_file(bundle, first.as_str()) {
        Err(e) => return Err(e.context("copy zboot-boot.efi (canonical)")),
        Ok(()) => {},
    }
    let second: String = text::cat2(fallback.as_str(), "/BOOTX64.EFI");
    match r.copy_file(bundle, second.as_str()) {
        Err(e) => Err(e.context("copy BOOTX64.EFI (fallback)")),
        Ok(()) => Ok(()),
    }
}

/// Formats the loader's partition, mounts it, copies the loader, unmounts it,
/// and tells the firmware.
#[verifier::opaque]
pub open spec fn install_layout_does(w: World, p: Scheme, bundle: Seq<char>) -> (World, Result<
    (),
    Seq<char>,
>) {
    match p.esp_partition {
        None => (
            w,
            Err("internal: install_efi_for_layout called without an ESP partition"@),
        ),
        Some(esp) => sub::chain(
            deploy::step_ends(
                deploy::spawn_does(
                    deploy::step_begins(w, "mkfs.vfat ESP"@),
                    "mkfs.vfat"@,
                    seq!["-F32"@, "-n"@, "ESP"@, esp],
                ),
                "mkfs.vfat ESP"@,
            ),
            |w1: World|
                {
                    let mp = "/tmp/zboot-esp-"@ + text::decimal(w1.reply().pid as nat);
                    let label = "mount ESP at "@ + mp;
                    sub::chain(
                        deploy::step_ends(
                            mount_esp_does(
                                deploy::step_begins(w1.after(Call::Pid), label),
                                esp,
                                mp,
                            ),
                            label,
                        ),
                        |w2: World| fill_esp_does(w2, p.disk, esp, mp, bundle),
                    )
                },
        ),
    }
}

/// Copies the loader to the mounted partition, unmounts it, and tells the
/// firmware.
#[verifier::opaque]
pub open spec fn fill_esp_does(
    w: World,
    disk: Seq<char>,
    esp: Seq<char>,
    mp: Seq<char>,
    bundle: Seq<char>,
) -> (World, Result<(), Seq<char>>) {
    sub::chain(
        deploy::step_ends(
            install_does(deploy::step_begins(w, "copy zboot-boot.efi to ESP"@), bundle, mp),
            "copy zboot-boot.efi to ESP"@,
        ),
        |w1: World|
            sub::chain(
                deploy::step_ends(
                    deploy::spawn_does(
                        deploy::step_begins(w1, "unmount ESP"@),
                        "umount"@,
                        seq![mp],
                    ),
                    "unmount ESP"@,
                ),
                |w2: World|
                    deploy::step_ends(
                        register_does(
                            deploy::step_begins(w2, "efibootmgr register"@),
                            disk,
                            number_of(esp) as nat,
                            "zboot-boot"@,
                        ),
                        "efibootmgr register"@,
                    ),
            ),
    )
}

fn fill_esp<R: Runner>(r: &mut R, disk: &str, esp: &str, mp: &str, bundle: &str) -> (res: Result<
    (),
    Error,
>)
    ensures
        sub::did(final(r).world(), res) == fill_esp_does(
            old(r).world(),
            disk@,
            esp@,
            mp@,
            bundle@,
        ),
{
    proof {
        reveal(fill_esp_does);
    }
    deploy::begin_step(r, "copy zboot-boot.efi to ESP");
    let done = install_efi_to_esp(r, bundle, mp);
    match deploy::end_step(r, "copy zboot-boot.efi to ESP", done) {
        Err(e) => return Err(e),
        Ok(()) => {},
    }
    deploy::begin_step(r, "unmount ESP");
    let done = deploy::unmount_be(r, mp);
    match deploy::end_step(r, "unmount ESP", done) {
        Err(e) => return Err(e),
        Ok(()) => {},
    }
    deploy::begin_step(r, "efibootmgr register");
    let done = register_efi(r, disk, partition_number(esp), "zboot-boot");
    deploy::end_step(r, "efibootmgr register", done)
}

/// Installs the loader as the plan says.
pub fn install_efi_for_layout<R: Runner>(r: &mut R, plan: &Plan, bundle: &str) -> (res: Result<
    (),
    Error,
>)
    ensures
        sub::did(final(r).world(), res) == install_layout_does(
            old(r).world(),
            plan.deep_view(),
            bundle@,
        ),
{
    proof {
        reveal(install_layout_does);
    }
    let esp: &str = match &plan.esp_partition {
        None => return Err(
            Error::new("internal: install_efi_for_layout called without an ESP partition"),
        ),
        Some(e) => e.as_str(),
    };
    deploy::begin_step(r, "mkfs.vfat ESP");
    let args = text::argv4("-F32", "-n", "ESP", esp);
    let done = deploy::spawn(r, "mkfs.vfat", args.as_slice());
    match deploy::end_step(r, "mkfs.vfat ESP", done) {
        Err(e) => return Err(e),
        Ok(()) => {},
    }
    let pid: String = text::dec(r.pid() as u128);
    let mp: String = text::cat2("/tmp/zboot-esp-", pid.as_str());
    let label: String = text::cat2("mount ESP at ", mp.as_str());
    deploy::begin_step(r, label.as_str());
    let done = mount_esp(r, esp, mp.as_str());
    match deploy::end_step(r, label.as_str(), done) {
        Err(e) => return Err(e),
        Ok(()) => {},
    }
    fill_esp(r, plan.disk.as_str(), esp, mp.as_str(), bundle)
}

/// The digits that a text ends in.
pub open spec fn final_digits(s: Seq<char>) -> Seq<char>
    decreases s.len(),
{
    if s.len() == 0 || !text::digit(s.last()) {
        seq![]
    } else {
        final_digits(s.drop_last()).push(s.last())
    }
}

/// The number that a partition's path ends in; 1 where there is none that fits
/// a byte.
pub open spec fn number_of(part: Seq<char>) -> int {
    match text::parsed_upto(final_digits(part), 255) {
        Some(n) => n as int,
        None => 1,
    }
}

/// The number that a partition's path ends in.
pub fn partition_number(part: &str) -> (r: u8)
    ensures
        r == number_of(part@),
{
    let n: usize = part.unicode_len();
    let mut i: usize = n;
    assert(part@.take(n as int) =~= part@);
    assert(part@.subrange(n as int, n as int) =~= seq![]);
    assert(final_digits(part@) =~= final_digits(part@.take(i as int)) + part@.subrange(
        i as int,
        n as int,
    ));
    while i > 0 && text::is_digit(part.get_char(i - 1))
        invariant
            n == part@.len(),
            i <= n,
            final_digits(part@) == final_digits(part@.take(i as int)) + part@.subrange(
                i as int,
                n as int,
            ),
        decreases i,
    {
        proof {
            let head = part@.take(i as int);
            assert(head.drop_last() =~= part@.take(i - 1));
            assert(head.last() == part@[i - 1]);
            assert(final_digits(head) + part@.subrange(i as int, n as int) =~= final_digits(
                head.drop_last(),
            ) + part@.subrange(i - 1, n as int));
        }
        i = i - 1;
    }
    assert(final_digits(part@.take(i as int)) =~= seq![]) by {
        if i > 0 {
            assert(part@.take(i as int).last() == part@[i - 1]);
        }
    }
    let digits: &str = part.substring_char(i, n);
    assert(digits@ =~= final_digits(part@));
    match text::parse_upto(digits, 255) {
        Some(v) => v as u8,
        None => 1,
    }
}

// ---------------------------------------------------------------------------
// The firmware's list
// ---------------------------------------------------------------------------

/// One entry of the firmware's list.
#[derive(Debug)]
pub struct EfiEntry {
    pub id: String,
    pub label: String,
}

/// One entry of the firmware's list, by what is known of it.
pub struct Listed {
    pub id: Seq<char>,
    pub label: Seq<char>,
}

impl DeepView for EfiEntry {
    type V = Listed;

    open spec fn deep_view(&self) -> Listed {
        Listed { id: self.id@, label: self.label@ }
    }
}

/// A text without the stars at its end.
pub open spec fn unstarred(s: Seq<char>) -> Seq<char>
    decreases s.len(),
{
    if s.len() > 0 && s.last() == '*' {
        unstarred(s.drop_last())
    } else {
        s
    }
}

fn strip_stars<'a>(s: &'a str) -> (r: &'a str)
    ensures
        r@ == unstarred(s@),
{
    let mut n: usize = s.unicode_len();
    assert(s@.take(n as int) =~= s@);
    while n > 0 && s.get_char(n - 1) == '*'
        invariant
            n <= s@.len(),
            unstarred(s@) == unstarred(s@.take(n as int)),
        decreases n,
    {
        proof {
            assert(s@.take(n as int).last() == s@[n - 1]);
            assert(s@.take(n as int).drop_last() =~= s@.take(n - 1));
        }
        n = n - 1;
    }
    proof {
        assert(n > 0 ==> s@.take(n as int).last() == s@[n - 1]);
    }
    let r: &str = s.substring_char(0, n);
    assert(r@ =~= s@.take(n as int));
    r
}

/// Four hexadecimal digits.
pub open spec fn is_entry_id(s: Seq<char>) -> bool {
    s.len() == 4 && forall|i: int| 0 <= i < s.len() ==> text::hex_digit(#[trigger] s[i])
}

fn check_entry_id(s: &str) -> (r: bool)
    ensures
        r == is_entry_id(s@),
{
    if s.unicode_len() != 4 {
        return false;
    }
    let mut i: usize = 0;
    while i < 4
        invariant
            s@.len() == 4,
            i <= 4,
            forall|j: int| 0 <= j < i ==> text::hex_digit(#[trigger] s@[j]),
        decreases 4 - i,
    {
        if !text::is_hex_digit(s.get_char(i)) {
            return false;
        }
        i = i + 1;
    }
    true
}

/// The entry of a line `BootNNNN* Label`, with what stands behind a tab left
/// out.
pub open spec fn entry_of(line: Seq<char>) -> Option<Listed> {
    let l = text::trim_front(line);
    if !text::begins(l, "Boot"@) {
        None
    } else {
        let rest = l.skip("Boot"@.len() as int);
        let (id, label) = match text::cut(rest, ' ') {
            Some(p) => p,
            None => (rest, ""@),
        };
        if is_entry_id(unstarred(id)) {
            Some(
                Listed { id: unstarred(id), label: text::trimmed(text::before(label, '\t')) },
            )
        } else {
            None
        }
    }
}

fn parse_entry(line: &str) -> (r: Option<EfiEntry>)
    ensures
        r.deep_view() == entry_of(line@),
{
    let l: &str = text::trim_start(line);
    let rest: &str = match text::strip_prefix(l, "Boot") {
        None => return None,
        Some(t) => t,
    };
    let (id, label) = match text::split_once(rest, ' ') {
        Some(p) => p,
        None => (rest, ""),
    };
    let id: &str = strip_stars(id);
    if !check_entry_id(id) {
        return None;
    }
    let label: &str = text::trim(text::head(label, '\t'));
    Some(EfiEntry { id: id.to_owned(), label: label.to_owned() })
}

/// The entries of a listing, in order.
pub open spec fn entries_of(lines: Seq<Seq<char>>) -> Seq<Listed>
    decreases lines.len(),
{
    if lines.len() == 0 {
        seq![]
    } else {
        let front = entries_of(lines.drop_last());
        match entry_of(lines.last()) {
            Some(e) => front.push(e),
            None => front,
        }
    }
}

/// The entries of a listing, in order.
pub fn parse_entries(listing: &str) -> (r: Vec<EfiEntry>)
    ensures
        r.deep_view() == entries_of(text::lines_of(listing@)),
{
    let ls = text::lines(listing);
    let ghost all = ls.deep_view();
    let mut out: Vec<EfiEntry> = Vec::new();
    let mut i: usize = 0;
    assert(out.deep_view() =~= entries_of(all.take(0)));
    while i < ls.len()
        invariant
            i <= ls@.len(),
            all == ls.deep_view(),
            out.deep_view() == entries_of(all.take(i as int)),
        decreases ls@.len() - i,
    {
        proof {
            assert(all.take(i + 1).drop_last() =~= all.take(i as int));
            assert(all.take(i + 1).last() == ls@[i as int]@);
        }
        match parse_entry(ls[i]) {
            Some(e) => {
                let ghost seen = e.deep_view();
                out.push(e);
                assert(out.deep_view() =~= entries_of(all.take(i as int)).push(seen));
            },
            None => {},
        }
        i = i + 1;
    }
    assert(all.take(i as int) =~= all);
    out
}

/// Lists the firmware's entries.
#[verifier::opaque]
pub open spec fn list_entries_does(w: World) -> (World, Result<Seq<Listed>, Seq<char>>) {
    (
        w.run("efibootmgr"@, seq![]),
        match w.printed() {
            Err(m) => Err(error::within("spawn efibootmgr"@, m)),
            Ok(out) => if out.rc == 0 {
                match sub::legible(out, "non-utf8 efibootmgr output"@) {
                    Err(m) => Err(m),
                    Ok(_) => Ok(entries_of(text::lines_of(out.stdout))),
                }
            } else {
                Err(
                    "efibootmgr rc="@ + zfs_ops::rc_text(out.rc) + ": "@ + text::trimmed(
                        out.stderr,
                    ),
                )
            },
        },
    )
}

/// Lists the firmware's entries.
pub fn list_efi_entries<R: Runner>(r: &mut R) -> (res: Result<Vec<EfiEntry>, Error>)
    ensures
        sub::did(final(r).world(), res) == list_entries_does(old(r).world()),
{
    proof {
        reveal(list_entries_does);
    }
    let none: Vec<&str> = Vec::new();
    assert(none.deep_view() =~= seq![]);
    match r.read("efibootmgr", none.as_slice()) {
        Err(e) => Err(e.context("spawn efibootmgr")),
        Ok(out) => if out.rc == 0 {
            match sub::check_legible(&out, "non-utf8 efibootmgr output") {
                Err(e) => Err(e),
                Ok(()) => Ok(parse_entries(out.stdout.as_str())),
            }
        } else {
            let rc: String = zfs_ops::rc_shown(out.rc);
            Err(
                Error::from_text(
                    text::cat4(
                        "efibootmgr rc=",
                        rc.as_str(),
                        ": ",
                        text::trim(out.stderr.as_str()),
                    ),
                ),
            )
        },
    }
}

/// Drops the entries of a label. Whether that succeeds is not asked.
pub open spec fn drop_entries_does(w: World, entries: Seq<Listed>, label: Seq<char>) -> World
    decreases entries.len(),
{
    if entries.len() == 0 {
        w
    } else if entries[0].label == label {
        drop_entries_does(
            deploy::spawn_does(w, "efibootmgr"@, seq!["-b"@, entries[0].id, "-B"@]).0,
            entries.drop_first(),
            label,
        )
    } else {
        drop_entries_does(w, entries.drop_first(), label)
    }
}

fn drop_entries<R: Runner>(r: &mut R, entries: &Vec<EfiEntry>, i: usize, label: &str)
    requires
        i <= entries@.len(),
    ensures
        final(r).world() == drop_entries_does(
            old(r).world(),
            entries.deep_view().skip(i as int),
            label@,
        ),
    decreases entries@.len() - i,
{
    let ghost rest = entries.deep_view().skip(i as int);
    if i >= entries.len() {
        return;
    }
    proof {
        assert(rest[0] == entries@[i as int].deep_view());
        assert(rest.drop_first() =~= entries.deep_view().skip(i + 1));
    }
    if text::eq(entries[i].label.as_str(), label) {
        let args = text::argv3("-b", entries[i].id.as_str(), "-B");
        let _ = deploy::spawn(r, "efibootmgr", args.as_slice());
    }
    drop_entries(r, entries, i + 1, label);
}

/// Enters the loader in the firmware's list, in place of the entries that have
/// the same label.
#[verifier::opaque]
pub open spec fn register_does(w: World, disk: Seq<char>, part: nat, label: Seq<char>) -> (
    World,
    Result<(), Seq<char>>,
) {
    let (w1, listed) = list_entries_does(w);
    let w2 = match listed {
        Ok(entries) => drop_entries_does(w1, entries, label),
        Err(_) => w1,
    };
    deploy::spawn_does(
        w2,
        "efibootmgr"@,
        seq![
            "--create"@,
            "--disk"@,
            disk,
            "--part"@,
            text::decimal(part),
            "--label"@,
            label,
            "--loader"@,
            "\\EFI\\zboot-boot\\zboot-boot.efi"@,
        ],
    )
}

/// Enters the loader in the firmware's list.
pub fn register_efi<R: Runner>(r: &mut R, disk: &str, part: u8, label: &str) -> (res: Result<
    (),
    Error,
>)
    ensures
        sub::did(final(r).world(), res) == register_does(
            old(r).world(),
            disk@,
            part as nat,
            label@,
        ),
{
    proof {
        reveal(register_does);
    }
    match list_efi_entries(r) {
        Ok(entries) => {
            assert(entries.deep_view().skip(0) =~= entries.deep_view());
            drop_entries(r, &entries, 0, label);
        },
        Err(_) => {},
    }
    let shown: String = text::dec(part as u128);
    let args = text::argv9(
        "--create",
        "--disk",
        disk,
        "--part",
        shown.as_str(),
        "--label",
        label,
        "--loader",
        "\\EFI\\zboot-boot\\zboot-boot.efi",
    );
    deploy::spawn(r, "efibootmgr", args.as_slice())
}

// ---------------------------------------------------------------------------
// Laws
// ---------------------------------------------------------------------------

/// The number of a partition is read back from the path made for it.
pub proof fn law_partition_number(disk: Seq<char>, n: nat)
    requires
        n <= 255,
    ensures
        number_of(crate::cmd::deploy::plan::partition_of(disk, n)) == n,
{
    let path = crate::cmd::deploy::plan::partition_of(disk, n);
    let d = text::decimal(n);
    text::lemma_decimal(n);
    let head = path.take(path.len() - d.len());
    assert(path =~= head + d);
    assert(head.len() > 0 ==> !text::digit(head.last())) by {
        reveal_strlit("p");
        if disk.len() > 0 && text::digit(disk.last()) {
            assert(head =~= disk + "p"@);
        } else {
            assert(head =~= disk);
        }
    }
    lemma_final_digits(head, d);
}

proof fn lemma_final_digits(head: Seq<char>, d: Seq<char>)
    requires
        text::all_digits(d),
        head.len() > 0 ==> !text::digit(head.last()),
    ensures
        final_digits(head + d) == d,
    decreases d.len(),
{
    if d.len() == 0 {
        assert(head + d =~= head);
    } else {
        assert((head + d).last() == d.last());
        assert((head + d).drop_last() =~= head + d.drop_last());
        lemma_final_digits(head, d.drop_last());
    }
}

/// Every line that holds an entry gives it.
pub proof fn law_every_entry_is_read(lines: Seq<Seq<char>>)
    ensures
        forall|x: Listed| #[trigger] entries_of(lines).contains(x) <==> exists|i: int| 0 <= i < lines.len() && entry_of((#[trigger] lines[i])) == Some(x),
    decreases lines.len(),
{
    if lines.len() > 0 {
        let front = lines.drop_last();
        law_every_entry_is_read(front);
        let before = entries_of(front);
        let all = entries_of(lines);
        assert forall|x: Listed| #[trigger] all.contains(x) <==> exists|i: int| 0 <= i < lines.len() && entry_of((#[trigger] lines[i])) == Some(x) by {
            if all.contains(x) {
                let k = choose|k: int| 0 <= k < all.len() && all[k] == x;
                if k < before.len() {
                    assert(before[k] == x);
                    assert(before.contains(x));
                    let i = choose|i: int| 0 <= i < front.len() && entry_of((#[trigger] front[i])) == Some(x);
                    assert(lines[i] == front[i]);
                } else {
                    assert(entry_of(lines[lines.len() - 1]) == Some(x));
                }
            }
            if exists|i: int| 0 <= i < lines.len() && entry_of((#[trigger] lines[i])) == Some(x) {
                let i = choose|i: int| 0 <= i < lines.len() && entry_of((#[trigger] lines[i])) == Some(x);
                if i < front.len() {
                    assert(front[i] == lines[i]);
                    assert(before.contains(x));
                    let k = choose|k: int| 0 <= k < before.len() && before[k] == x;
                    assert(all[k] == x);
                } else {
                    assert(lines[i] == lines.last());
                    assert(all[all.len() - 1] == x);
                }
            }
        }
    }
}

/// The call that takes an entry out of the firmware's list.
pub open spec fn unlisting(id: Seq<char>) -> Call {
    deploy::attended("efibootmgr"@, seq!["-b"@, id, "-B"@])
}

/// Every entry with the label is taken out.
pub proof fn law_old_entries_are_dropped(w: World, entries: Seq<Listed>, label: Seq<char>)
    ensures
        sub::continues(w, drop_entries_does(w, entries, label)),
        forall|i: int|
            0 <= i < entries.len() && (#[trigger] entries[i]).label == label ==> sub::called(
                w,
                drop_entries_does(w, entries, label),
                unlisting(entries[i].id),
            ),
    decreases entries.len(),
{
    assert(sub::continues(w, w));
    if entries.len() > 0 {
        let rest = entries.drop_first();
        let end = drop_entries_does(w, entries, label);
        let c = unlisting(entries[0].id);
        let w1 = if entries[0].label == label {
            deploy::spawn_does(w, "efibootmgr"@, c->Attend_args).0
        } else {
            w
        };
        deploy::lemma_spawned(w, "efibootmgr"@, c->Attend_args);
        law_old_entries_are_dropped(w1, rest, label);
        effects::lemma_continues(w, w1, end);
        assert(sub::continues(end, end));
        assert forall|i: int|
            0 <= i < entries.len() && (#[trigger] entries[i]).label == label implies sub::called(
            w,
            end,
            unlisting(entries[i].id),
        ) by {
            if i == 0 {
                assert(w1.calls[w.calls.len() as int + 1] == c);
                assert(sub::called(w, w1, c));
                effects::lemma_called_within(w, w, w1, end, c);
            } else {
                assert(rest[i - 1] == entries[i]);
                effects::lemma_called_within(w, w1, end, end, unlisting(rest[i - 1].id));
            }
        }
    }
}

/// What puts the boot loader in its two places.
pub open spec fn placing(bundle: Seq<char>, esp: Seq<char>) -> Seq<Call> {
    seq![
        Call::CopyFile { from: bundle, to: esp + "/EFI/zboot-boot"@ + "/zboot-boot.efi"@ },
        Call::CopyFile { from: bundle, to: esp + "/EFI/BOOT"@ + "/BOOTX64.EFI"@ },
    ]
}

/// An installed boot loader stands in its own place and in the one that any
/// firmware tries.
pub proof fn law_loader_is_placed(w: World, bundle: Seq<char>, esp: Seq<char>)
    ensures
        ({
            let (end, res) = install_does(w, bundle, esp);
            &&& sub::continues(w, end)
            &&& res is Ok ==> effects::all_came_off(w, end, placing(bundle, esp))
        }),
{
    reveal(install_does);
    let (end, res) = install_does(w, bundle, esp);
    if res is Ok {
        let n = w.calls.len() as int;
        assert(end.calls[n + 2] == placing(bundle, esp)[0]);
        assert(end.calls[n + 3] == placing(bundle, esp)[1]);
        assert(effects::went_well(end, n + 2));
        assert(effects::went_well(end, n + 3));
    }
}

/// The call that makes the firmware list the boot loader.
pub open spec fn listing(disk: Seq<char>, part: nat, label: Seq<char>) -> Call {
    deploy::attended(
        "efibootmgr"@,
        seq![
            "--create"@,
            "--disk"@,
            disk,
            "--part"@,
            text::decimal(part),
            "--label"@,
            label,
            "--loader"@,
            "\\EFI\\zboot-boot\\zboot-boot.efi"@,
        ],
    )
}

/// A registered boot loader is on the firmware's list, and where that could be
/// read no older entry with the label is.
pub proof fn law_loader_is_registered(w: World, disk: Seq<char>, part: nat, label: Seq<char>)
    ensures
        ({
            let (end, res) = register_does(w, disk, part, label);
            let y = w.reply();
            let ls = text::lines_of(y.stdout);
            &&& sub::continues(w, end)
            &&& end.calls[w.calls.len() as int] == (Call::Run {
                prog: "efibootmgr"@,
                args: seq![],
            })
            &&& effects::succeeded(w, w.calls.len() as int) && y.garbled is None ==> forall|i: int|
                0 <= i < ls.len() ==> (entry_of(#[trigger] ls[i]) matches Some(e) && e.label
                    == label ==> sub::called(w, end, unlisting(entry_of(ls[i])->0.id)))
            &&& res is Ok ==> effects::came_off(w, end, listing(disk, part, label))
        }),
{
    reveal(register_does);
    reveal(list_entries_does);
    let (end, res) = register_does(w, disk, part, label);
    let y = w.reply();
    let ls = text::lines_of(y.stdout);
    let (w1, listed) = list_entries_does(w);
    let es = entries_of(ls);
    law_old_entries_are_dropped(w1, es, label);
    let w2 = if listed is Ok {
        drop_entries_does(w1, es, label)
    } else {
        w1
    };
    assert(sub::continues(w1, w1));
    assert(sub::continues(w, w1));
    let c = listing(disk, part, label);
    deploy::lemma_spawned(w2, "efibootmgr"@, c->Attend_args);
    effects::lemma_continues(w, w1, w2);
    effects::lemma_continues(w, w2, end);
    let n = w.calls.len() as int;
    assert(w1.calls[n] == Call::Run { prog: "efibootmgr"@, args: seq![] });
    assert(w2.calls[n] == w1.calls[n]);
    assert(end.calls[n] == w2.calls[n]);
    assert(sub::continues(end, end));
    if effects::succeeded(w, n) && y.garbled is None {
        law_every_entry_is_read(ls);
        assert forall|i: int| 0 <= i < ls.len() implies (entry_of(#[trigger] ls[i]) matches Some(e)
            && e.label == label ==> sub::called(w, end, unlisting(entry_of(ls[i])->0.id))) by {
            if let Some(e) = entry_of(ls[i]) {
                if e.label == label {
                    assert(es.contains(e));
                    let k = choose|k: int| 0 <= k < es.len() && es[k] == e;
                    assert(sub::called(w1, w2, unlisting(es[k].id)));
                    effects::lemma_called_within(w, w1, w2, end, unlisting(e.id));
                }
            }
        }
    }
    if res is Ok {
        effects::lemma_came_within(w, w2, end, end, c);
    }
}

/// What makes a system partition.
pub open spec fn making(esp: Seq<char>) -> Call {
    deploy::attended("mkfs.vfat"@, seq!["-F32"@, "-n"@, "ESP"@, esp])
}

/// What opens a system partition at `mp`.
pub open spec fn opening(esp: Seq<char>, mp: Seq<char>) -> Call {
    deploy::attended("mount"@, seq!["-t"@, "vfat"@, esp, mp])
}

/// A system partition that was opened is open.
pub proof fn lemma_opened(w: World, esp: Seq<char>, mp: Seq<char>)
    ensures
        ({
            let (end, res) = mount_esp_does(w, esp, mp);
            &&& sub::continues(w, end)
            &&& res is Ok ==> effects::all_came_off(w, end, seq![opening(esp, mp)])
        }),
{
    let (end, res) = mount_esp_does(w, esp, mp);
    let w1 = w.after(Call::MakeDirs { path: mp });
    assert(sub::continues(w, w1));
    if w.unit() is Ok {
        deploy::lemma_spawned(w1, "mount"@, opening(esp, mp)->Attend_args);
        effects::lemma_continues(w, w1, end);
        assert(sub::continues(end, end));
        if res is Ok {
            effects::lemma_came_within(w, w1, end, end, opening(esp, mp));
        }
    }
}

/// What fills an open system partition, closes it and has it listed.
pub open spec fn filling(
    disk: Seq<char>,
    esp: Seq<char>,
    mp: Seq<char>,
    bundle: Seq<char>,
) -> Seq<Call> {
    placing(bundle, mp) + seq![deploy::attended("umount"@, seq![mp])] + seq![
        listing(disk, number_of(esp) as nat, "zboot-boot"@),
    ]
}

proof fn lemma_filled_esp(
    w: World,
    disk: Seq<char>,
    esp: Seq<char>,
    mp: Seq<char>,
    bundle: Seq<char>,
)
    ensures
        ({
            let (end, res) = fill_esp_does(w, disk, esp, mp, bundle);
            &&& sub::continues(w, end)
            &&& res is Ok ==> effects::all_came_off(w, end, filling(disk, esp, mp, bundle))
        }),
{
    reveal(fill_esp_does);
    let (end, res) = fill_esp_does(w, disk, esp, mp, bundle);
    let copy = "copy zboot-boot.efi to ESP"@;
    let w0 = deploy::step_begins(w, copy);
    law_loader_is_placed(w0, bundle, mp);
    let wa = install_does(w0, bundle, mp);
    let (w1, placed) = deploy::step_ends(wa, copy);
    assert(sub::continues(w, w0));
    assert(sub::continues(wa.0, w1));
    effects::lemma_continues(w, w0, wa.0);
    effects::lemma_continues(w, wa.0, w1);
    if placed is Ok {
        effects::lemma_all_within(w, w0, wa.0, w1, placing(bundle, mp));
        let close = deploy::attended("umount"@, seq![mp]);
        deploy::lemma_step(w1, "unmount ESP"@, "umount"@, seq![mp]);
        let (w2, closed) = deploy::command_step(w1, "unmount ESP"@, "umount"@, seq![mp]);
        effects::lemma_continues(w, w1, w2);
        if closed is Ok {
            effects::lemma_all_then(w, w1, w2, placing(bundle, mp), seq![close]);
            let label = "efibootmgr register"@;
            let w3 = deploy::step_begins(w2, label);
            let part = number_of(esp) as nat;
            law_loader_is_registered(w3, disk, part, "zboot-boot"@);
            let wb = register_does(w3, disk, part, "zboot-boot"@);
            assert(sub::continues(w2, w3));
            assert(sub::continues(wb.0, end));
            effects::lemma_continues(w2, w3, wb.0);
            effects::lemma_continues(w2, wb.0, end);
            effects::lemma_continues(w, w2, end);
            if res is Ok {
                let c = listing(disk, part, "zboot-boot"@);
                effects::lemma_came_within(w2, w3, wb.0, end, c);
                assert(effects::all_came_off(w2, end, seq![c]));
                effects::lemma_all_then(
                    w,
                    w2,
                    end,
                    placing(bundle, mp) + seq![close],
                    seq![c],
                );
            }
        }
    }
}

/// A system partition that was set up is made anew, holds the boot loader, and is
/// on the firmware's list.
pub proof fn law_system_partition_is_set_up(w: World, p: Scheme, bundle: Seq<char>)
    requires
        p.esp_partition is Some,
    ensures
        ({
            let (end, res) = install_layout_does(w, p, bundle);
            let esp = p.esp_partition->0;
            &&& sub::continues(w, end)
            &&& res is Ok ==> exists|mp: Seq<char>|
                effects::all_came_off(
                    w,
                    end,
                    seq![making(esp)] + seq![opening(esp, mp)] + #[trigger] filling(
                        p.disk,
                        esp,
                        mp,
                        bundle,
                    ),
                )
        }),
{
    reveal(install_layout_does);
    let (end, res) = install_layout_does(w, p, bundle);
    let esp = p.esp_partition->0;
    let make = "mkfs.vfat ESP"@;
    deploy::lemma_step(w, make, "mkfs.vfat"@, making(esp)->Attend_args);
    let (w1, made) = deploy::command_step(w, make, "mkfs.vfat"@, making(esp)->Attend_args);
    if made is Ok {
        let mp = "/tmp/zboot-esp-"@ + text::decimal(w1.reply().pid as nat);
        let label = "mount ESP at "@ + mp;
        let w2 = deploy::step_begins(w1.after(Call::Pid), label);
        lemma_opened(w2, esp, mp);
        let wa = mount_esp_does(w2, esp, mp);
        let (w3, opened) = deploy::step_ends(wa, label);
        assert(sub::continues(w1, w2));
        assert(sub::continues(wa.0, w3));
        effects::lemma_continues(w1, w2, wa.0);
        effects::lemma_continues(w1, wa.0, w3);
        effects::lemma_continues(w, w1, w3);
        if opened is Ok {
            effects::lemma_all_within(w1, w2, wa.0, w3, seq![opening(esp, mp)]);
            effects::lemma_all_then(w, w1, w3, seq![making(esp)], seq![opening(esp, mp)]);
            lemma_filled_esp(w3, p.disk, esp, mp, bundle);
            effects::lemma_continues(w, w3, end);
            if res is Ok {
                effects::lemma_all_then(
                    w,
                    w3,
                    end,
                    seq![making(esp)] + seq![opening(esp, mp)],
                    filling(p.disk, esp, mp, bundle),
                );
            }
        }
    }
}

proof fn lemma_first_file_goes_on(w: World, cands: Seq<Seq<char>>)
    ensures
        sub::continues(w, first_file_does(w, cands).0),
    decreases cands.len(),
{
    if cands.len() > 0 {
        let w1 = w.after(Call::IsFile { path: cands[0] });
        lemma_first_file_goes_on(w1, cands.drop_first());
        effects::lemma_continues(w, w1, first_file_does(w1, cands.drop_first()).0);
    }
}

/// Looking for a boot loader goes on from where it begins.
pub proof fn lemma_bundle_goes_on(w: World, carried: Seq<u8>)
    ensures
        sub::continues(w, resolve_bundle_does(w, carried).0),
{
    reveal(resolve_bundle_does);
    reveal(efi::extract_does);
    let w1 = w.after(Call::Env { name: "ZBOOT_EFI_BUNDLE"@ });
    if w.maybe() is None && carried.len() == 0 {
        let w2 = w1.after(Call::Exe);
        lemma_first_file_goes_on(w2, candidates_of(w1.line()));
    }
}

/// The first candidate that is a file is taken.
pub proof fn law_first_file_is_taken(w: World, cands: Seq<Seq<char>>)
    ensures
        ({
            let n = w.calls.len();
            match first_file_does(w, cands).1 {
                Some(p) => exists|i: int|
                    0 <= i < cands.len() && #[trigger] cands[i] == p && (w.replies)(
                        (n + i) as nat,
                    ).yes && forall|j: int| 0 <= j < i ==> !(w.replies)(#[trigger] at(n, j)).yes,
                None => forall|j: int|
                    0 <= j < cands.len() ==> !(w.replies)(#[trigger] at(n, j)).yes,
            }
        }),
    decreases cands.len(),
{
    if cands.len() > 0 {
        let n = w.calls.len();
        let rest = cands.drop_first();
        let w1 = w.after(Call::IsFile { path: cands[0] });
        assert(at(n, 0) == n);
        if w.reply().yes {
            assert(cands[0] == first_file_does(w, cands).1->0);
        } else {
            law_first_file_is_taken(w1, rest);
            assert forall|j: int| 0 < j implies #[trigger] at(n, j) == at(n + 1, j - 1) by {}
            match first_file_does(w1, rest).1 {
                Some(p) => {
                    let i = choose|i: int|
                        0 <= i < rest.len() && #[trigger] rest[i] == p && (w1.replies)(
                            (n + 1 + i) as nat,
                        ).yes && forall|j: int|
                            0 <= j < i ==> !(w1.replies)(#[trigger] at(n + 1, j)).yes;
                    assert(cands[i + 1] == p);
                    assert forall|j: int| 0 <= j < i + 1 implies !(w.replies)(
                        #[trigger] at(n, j),
                    ).yes by {
                        if j > 0 {
                            assert(!(w1.replies)(at(n + 1, j - 1)).yes);
                        }
                    }
                },
                None => {
                    assert forall|j: int| 0 <= j < cands.len() implies !(w.replies)(
                        #[trigger] at(n, j),
                    ).yes by {
                        if j > 0 {
                            assert(!(w1.replies)(at(n + 1, j - 1)).yes);
                        }
                    }
                },
            }
        }
    }
}

/// The place of the j-th call after the n-th.
pub open spec fn at(n: nat, j: int) -> nat {
    (n + j) as nat
}

} // verus!
