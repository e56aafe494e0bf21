//! The plan of a deployment: what will be done, in words, before it is done.

use vstd::prelude::*;

use crate::cmd::deploy::esp;
use crate::cmd::deploy::source;
use crate::cmd::deploy::source::{Origin, Source};
use crate::cmd::deploy::DeployArgs;
use crate::error;
use crate::error::Error;
use crate::paths;
use crate::text;

verus! {

/// What fills the new pool.
#[derive(Debug)]
pub enum Mode {
    /// A fresh boot environment from a source.
    Source(Source),
    /// Boot environments of an existing root pool.
    MirrorFrom(String),
    /// Nothing.
    Empty,
}

/// What fills the new pool, by what is known of it.
pub enum Filling {
    Source(Origin),
    MirrorFrom(Seq<char>),
    Empty,
}

impl DeepView for Mode {
    type V = Filling;

    open spec fn deep_view(&self) -> Filling {
        match self {
            Mode::Source(s) => Filling::Source(s.deep_view()),
            Mode::MirrorFrom(p) => Filling::MirrorFrom(p@),
            Mode::Empty => Filling::Empty,
        }
    }
}

/// The plan of a deployment.
#[derive(Debug)]
pub struct Plan {
    /// The disk that becomes the pool.
    pub disk: String,
    /// Its name without directories: what has to be typed to confirm.
    pub target_basename: String,
    /// What the pool is made of: the disk, or its second partition.
    pub pool_partition: String,
    /// The boot loader's partition, where there is one.
    pub esp_partition: Option<String>,
    pub pool: String,
    pub be_dataset: String,
    pub be_mountpoint: String,
    pub hostname: String,
    pub hostid_hex: String,
    pub mode: Mode,
    pub cmdline: Option<String>,
}

/// The plan of a deployment, by what is known of it.
pub struct Scheme {
    pub disk: Seq<char>,
    pub target_basename: Seq<char>,
    pub pool_partition: Seq<char>,
    pub esp_partition: Option<Seq<char>>,
    pub pool: Seq<char>,
    pub be_dataset: Seq<char>,
    pub be_mountpoint: Seq<char>,
    pub hostname: Seq<char>,
    pub hostid_hex: Seq<char>,
    pub mode: Filling,
    pub cmdline: Option<Seq<char>>,
}

impl DeepView for Plan {
    type V = Scheme;

    open spec fn deep_view(&self) -> Scheme {
        Scheme {
            disk: self.disk@,
            target_basename: self.target_basename@,
            pool_partition: self.pool_partition@,
            esp_partition: self.esp_partition.deep_view(),
            pool: self.pool@,
            be_dataset: self.be_dataset@,
            be_mountpoint: self.be_mountpoint@,
            hostname: self.hostname@,
            hostid_hex: self.hostid_hex@,
            mode: self.mode.deep_view(),
            cmdline: self.cmdline.deep_view(),
        }
    }
}

// ---------------------------------------------------------------------------
// What the plan is made from
// ---------------------------------------------------------------------------

/// The last name in a disk's path.
pub open spec fn basename_does(disk: Seq<char>) -> Result<Seq<char>, Seq<char>> {
    match paths::base(disk) {
        Some(b) => Ok(b),
        None => Err("disk "@ + text::quoted_text(disk) + " has no basename"@),
    }
}

/// The last name in a disk's path.
pub fn basename_of(disk: &str) -> (res: Result<String, Error>)
    ensures
        error::outcome(res) == basename_does(disk@),
{
    match paths::file_name(disk) {
        Some(b) => Ok(b),
        None => {
            let q: String = text::quoted(disk);
            Err(Error::from_text(text::cat3("disk ", q.as_str(), " has no basename")))
        },
    }
}

/// The path of a disk's partition. Behind a name that ends in a digit, a `p`
/// keeps the two numbers apart.
pub open spec fn partition_of(disk: Seq<char>, n: nat) -> Seq<char> {
    if disk.len() > 0 && text::digit(disk.last()) {
        disk + "p"@ + text::decimal(n)
    } else {
        disk + text::decimal(n)
    }
}

/// The path of a disk's partition.
pub fn partition_path(disk: &str, n: u8) -> (r: String)
    ensures
        r@ == partition_of(disk@, n as nat),
{
    let shown: String = text::dec(n as u128);
    let cs = text::chars_of(disk);
    if cs.len() > 0 && text::is_digit(cs[cs.len() - 1]) {
        text::cat3(disk, "p", shown.as_str())
    } else {
        text::cat2(disk, shown.as_str())
    }
}

/// The SHA-256 digest of some bytes.
pub uninterp spec fn sha256_digest(bytes: Seq<u8>) -> Seq<u8>;

/// `sha2::Sha256::digest`: the digest is a function of the bytes alone, and
/// holds 32 bytes.
#[verifier::external_body]
fn sha256(bytes: &[u8]) -> (r: Vec<u8>)
    ensures
        r@ == sha256_digest(bytes@),
        r@.len() == 32,
{
    <sha2::Sha256 as sha2::Digest>::digest(bytes).to_vec()
}

/// The host id of a digest: its first four bytes, in hexadecimal.
pub open spec fn hostid_of(digest: Seq<u8>) -> Seq<char> {
    text::padded(digest[0] as nat, 16, 2) + text::padded(digest[1] as nat, 16, 2) + text::padded(
        digest[2] as nat,
        16,
        2,
    ) + text::padded(digest[3] as nat, 16, 2)
}

/// The host id of a digest.
pub fn hostid_from_digest(digest: &[u8]) -> (r: String)
    requires
        digest@.len() >= 4,
    ensures
        r@ == hostid_of(digest@),
{
    let a: String = text::pad(digest[0] as u128, 16, 2);
    let b: String = text::pad(digest[1] as u128, 16, 2);
    let c: String = text::pad(digest[2] as u128, 16, 2);
    let d: String = text::pad(digest[3] as u128, 16, 2);
    text::cat4(a.as_str(), b.as_str(), c.as_str(), d.as_str())
}

/// The host id of a host name.
pub open spec fn hostid_of_name(hostname: Seq<char>) -> Seq<char> {
    hostid_of(sha256_digest(vstd::utf8::encode_utf8(hostname)))
}

/// The host id of a host name.
pub fn hostid_from_hostname(hostname: &str) -> (r: String)
    ensures
        r@ == hostid_of_name(hostname@),
{
    let digest = sha256(hostname.as_bytes());
    hostid_from_digest(digest.as_slice())
}

/// What fills the pool, by the arguments.
pub open spec fn mode_of(
    empty: bool,
    source: Option<Seq<char>>,
    suite: Seq<char>,
    mirror_from: Option<Seq<char>>,
    cmdline: Option<Seq<char>>,
) -> Result<Filling, Seq<char>> {
    if empty {
        if source is Some {
            Err("--empty is incompatible with --source"@)
        } else if mirror_from is Some {
            Err("--empty is incompatible with --mirror-from"@)
        } else if cmdline is Some {
            Err("--empty is incompatible with --cmdline (no BE to apply it to)"@)
        } else {
            Ok(Filling::Empty)
        }
    } else {
        match mirror_from {
            Some(p) => Ok(Filling::MirrorFrom(p)),
            None => {
                let url = match source {
                    Some(u) => u,
                    None => "debootstrap://"@ + suite,
                };
                match source::source_of(url) {
                    Ok(s) => Ok(Filling::Source(s)),
                    Err(m) => Err(m),
                }
            },
        }
    }
}

/// What fills the pool, by the arguments.
pub fn resolve_mode(args: &DeployArgs) -> (res: Result<Mode, Error>)
    ensures
        error::outcome(res) == mode_of(
            args.empty,
            args.source.deep_view(),
            args.suite@,
            args.mirror_from.deep_view(),
            args.cmdline.deep_view(),
        ),
{
    if args.empty {
        if args.source.is_some() {
            return Err(Error::new("--empty is incompatible with --source"));
        }
        if args.mirror_from.is_some() {
            return Err(Error::new("--empty is incompatible with --mirror-from"));
        }
        if args.cmdline.is_some() {
            return Err(
                Error::new("--empty is incompatible with --cmdline (no BE to apply it to)"),
            );
        }
        return Ok(Mode::Empty);
    }
    match &args.mirror_from {
        Some(p) => return Ok(Mode::MirrorFrom(p.clone())),
        None => {},
    }
    let url: String = match &args.source {
        Some(u) => u.clone(),
        None => text::cat2("debootstrap://", args.suite.as_str()),
    };
    match Source::parse(url.as_str()) {
        Ok(s) => Ok(Mode::Source(s)),
        Err(e) => Err(e),
    }
}

/// The plan that the arguments ask for.
pub open spec fn compose_of(a: DeployArgs) -> Result<Scheme, Seq<char>> {
    match a.target.deep_view() {
        None => Err("--target /dev/X is required"@),
        Some(disk) => match basename_does(disk) {
            Err(m) => Err(m),
            Ok(base) => match mode_of(
                a.empty,
                a.source.deep_view(),
                a.suite@,
                a.mirror_from.deep_view(),
                a.cmdline.deep_view(),
            ) {
                Err(m) => Err(m),
                Ok(mode) => Ok(
                    Scheme {
                        disk,
                        target_basename: base,
                        pool_partition: if a.no_efi {
                            disk
                        } else {
                            partition_of(disk, 2)
                        },
                        esp_partition: if a.no_efi {
                            None
                        } else {
                            Some(partition_of(disk, 1))
                        },
                        pool: a.pool@,
                        be_dataset: a.pool@ + "/ROOT/"@ + a.be@,
                        be_mountpoint: "/"@,
                        hostname: a.hostname@,
                        hostid_hex: hostid_of_name(a.hostname@),
                        mode,
                        cmdline: a.cmdline.deep_view(),
                    },
                ),
            },
        },
    }
}

// ---------------------------------------------------------------------------
// The plan in words
// ---------------------------------------------------------------------------

/// The thick rule.
pub open spec fn thick_rule() -> Seq<char> {
    "================================================================"@
}

/// The thin rule.
pub open spec fn thin_rule() -> Seq<char> {
    "----------------------------------------------------------------"@
}

/// One step with its number.
pub open spec fn numbered(n: nat, what: Seq<char>) -> Seq<char> {
    "    "@ + text::decimal(n) + ". "@ + what
}

/// One step with its number.
pub fn number(n: u8, what: &str) -> (r: String)
    ensures
        r@ == numbered(n as nat, what@),
{
    let shown: String = text::dec(n as u128);
    text::cat4("    ", shown.as_str(), ". ", what)
}

/// The lines that say what fills the pool.
pub open spec fn mode_lines(p: Scheme) -> Seq<Seq<char>> {
    match p.mode {
        Filling::Source(s) => seq![
            "  BE dataset     : "@ + p.be_dataset + " (mountpoint "@ + p.be_mountpoint + ")"@,
            "  source         : "@ + source::source_text(s),
        ],
        Filling::MirrorFrom(from) => seq![
            "  populate via   : zboot mirror --to "@ + p.pool + " (from "@ + from + ")"@,
        ],
        Filling::Empty => seq!["  BE             : <none — --empty>"@],
    }
}

/// The line that shows the command line, where one is given.
pub open spec fn cmdline_lines(p: Scheme) -> Seq<Seq<char>> {
    match p.cmdline {
        Some(c) => seq!["  cmdline (ROOT) : "@ + c],
        None => seq![],
    }
}

/// What the plan is about.
pub open spec fn head_lines(p: Scheme) -> Seq<Seq<char>> {
    seq![
        "zboot deploy — plan"@,
        thick_rule(),
        "  target         : "@ + p.disk + " ("@ + (if p.esp_partition is Some {
            "partition ESP+root"@
        } else {
            "whole-disk pool (--no-efi)"@
        }) + ")"@,
        "  hostname       : "@ + p.hostname,
        "  hostid (hex)   : "@ + p.hostid_hex,
        "  pool           : "@ + p.pool,
    ] + mode_lines(p) + cmdline_lines(p) + seq![thin_rule(), "  operations (in order):"@]
}

/// The steps up to the container of boot environments.
pub open spec fn pool_lines(p: Scheme) -> Seq<Seq<char>> {
    seq![
        if p.esp_partition is Some {
            numbered(
                1,
                "wipefs -a "@ + p.disk + " ; sfdisk "@ + p.disk
                    + " (GPT: ESP 512MiB + root)"@,
            )
        } else {
            numbered(
                1,
                "wipefs -a "@ + p.disk + " (whole-disk pool — no partitioning)"@,
            )
        },
        numbered(2, "write 4 raw hostid bytes to /etc/hostid (host side)"@),
        numbered(3, "zpool create -o ashift=12 -o cachefile=none \\"@),
        "         -o compatibility=openzfs-2.1-linux \\"@,
        "         -O canmount=off -O mountpoint=none -O compression=zstd \\"@,
        "         -O xattr=sa -O acltype=posixacl \\"@,
        "         "@ + p.pool + " "@ + p.pool_partition,
        numbered(4, "zpool set zboot:role=root "@ + p.pool),
        numbered(5, "zfs create -o canmount=off -o mountpoint=none "@ + p.pool + "/ROOT"@),
    ]
}

/// How a source is unpacked.
pub open spec fn unpack_lines(s: Origin) -> Seq<Seq<char>> {
    match s {
        Origin::Tar { path } => seq!["         tar: zstd -dc "@ + path + " | tar -xf - -C <be>"@],
        Origin::Debootstrap { suite, mirror } => seq![
            "         debootstrap --variant=minbase --components=main,contrib \\"@,
            "                     "@ + suite + " <be> "@ + source::mirror_of(mirror),
            "         + chroot apt install "@ + text::joined(source::packages(), " "@)
                + " (DKMS builds zfs.ko)"@,
        ],
    }
}

/// How many steps fill the pool.
pub open spec fn filling_steps(p: Scheme) -> nat {
    match p.mode {
        Filling::MirrorFrom(_) => 1,
        Filling::Source(_) => if p.cmdline is Some {
            5
        } else {
            4
        },
        Filling::Empty => 0,
    }
}

/// The steps that fill the pool.
pub open spec fn filling_lines(p: Scheme) -> Seq<Seq<char>> {
    match p.mode {
        Filling::MirrorFrom(from) => seq![
            numbered(
                6,
                "zboot mirror --to "@ + p.pool + " (replicates BEs from "@ + from + ")"@,
            ),
        ],
        Filling::Source(s) => seq![
            numbered(6, "zfs create -o canmount=noauto -o mountpoint=/ "@ + p.be_dataset),
            numbered(7, "zfs set zboot:be=true "@ + p.be_dataset),
            numbered(8, "mount "@ + p.be_dataset + " → temp dir; populate from source"@),
        ] + unpack_lines(s) + seq![numbered(9, "write hostid + /etc/hostname inside BE"@)] + (
        if p.cmdline is Some {
            seq![numbered(10, "zfs set zboot:kernel-cmdline=\"...\" "@ + p.pool + "/ROOT"@)]
        } else {
            seq![]
        }),
        Filling::Empty => seq![],
    }
}

/// The steps that install the boot loader.
pub open spec fn loader_lines(p: Scheme) -> Seq<Seq<char>> {
    let n = 6 + filling_steps(p);
    match p.esp_partition {
        Some(esp) => seq![
            numbered(n, "install zboot-boot.efi to "@ + esp + " (mount ESP, copy bundle)"@),
            numbered(
                n + 1,
                "efibootmgr --create --disk "@ + p.disk + " --part "@ + text::decimal(
                    esp::number_of(esp) as nat,
                ) + " \\"@,
            ),
            "         --label \"zboot-boot\" --loader '\\EFI\\zboot-boot\\zboot-boot.efi'"@,
        ],
        None => seq![
            "    -. ESP/bootloader skipped (--no-efi — recover via another disk's bootloader)"@,
        ],
    }
}

/// The last step.
pub open spec fn last_line(p: Scheme) -> Seq<char> {
    let n = 6 + filling_steps(p) + (if p.esp_partition is Some {
        2nat
    } else {
        0nat
    });
    if p.mode is Empty {
        "    -. bootfs left unset (--empty — set manually after BE attach)"@
    } else {
        numbered(n, "zpool set bootfs="@ + p.be_dataset + " "@ + p.pool)
    }
}

/// The plan, line by line.
pub open spec fn plan_lines(p: Scheme) -> Seq<Seq<char>> {
    head_lines(p) + pool_lines(p) + filling_lines(p) + loader_lines(p) + seq![
        last_line(p),
        thick_rule(),
    ]
}

/// The plan as one text.
pub open spec fn plan_text(p: Scheme) -> Seq<char> {
    text::paragraph(plan_lines(p))
}

/// Puts a text behind others.
fn put(out: &mut Vec<String>, t: String)
    ensures
        final(out).deep_view() == old(out).deep_view().push(t@),
{
    text::push_text(out, t.as_str());
}

impl Plan {
    /// The plan that the arguments ask for.
    pub fn compose(args: &DeployArgs) -> (res: Result<Plan, Error>)
        ensures
            error::outcome(res) == compose_of(*args),
    {
        let disk: &str = match &args.target {
            None => return Err(Error::new("--target /dev/X is required")),
            Some(d) => d.as_str(),
        };
        let target_basename: String = match basename_of(disk) {
            Err(e) => return Err(e),
            Ok(b) => b,
        };
        let mode = match resolve_mode(args) {
            Err(e) => return Err(e),
            Ok(m) => m,
        };
        let pool_partition: String = if args.no_efi {
            disk.to_owned()
        } else {
            partition_path(disk, 2)
        };
        let esp_partition: Option<String> = if args.no_efi {
            None
        } else {
            Some(partition_path(disk, 1))
        };
        Ok(
            Plan {
                disk: disk.to_owned(),
                target_basename,
                pool_partition,
                esp_partition,
                pool: args.pool.clone(),
                be_dataset: text::cat3(args.pool.as_str(), "/ROOT/", args.be.as_str()),
                be_mountpoint: "/".to_owned(),
                hostname: args.hostname.clone(),
                hostid_hex: hostid_from_hostname(args.hostname.as_str()),
                mode,
                cmdline: text::clone_opt(&args.cmdline),
            },
        )
    }

    /// The disk that has to be empty.
    pub fn pool_disk_for_preflight(&self) -> (r: &str)
        ensures
            r@ == self.deep_view().disk,
    {
        self.disk.as_str()
    }

    /// There is a partition for the boot loader.
    pub fn has_esp(&self) -> (r: bool)
        ensures
            r == (self.deep_view().esp_partition is Some),
    {
        self.esp_partition.is_some()
    }

    /// The pool gets a boot environment.
    pub fn installs_be(&self) -> (r: bool)
        ensures
            r == !(self.deep_view().mode is Empty),
    {
        match &self.mode {
            Mode::Empty => false,
            _ => true,
        }
    }

    fn put_head(&self, out: &mut Vec<String>)
        ensures
            final(out).deep_view() == old(out).deep_view() + head_lines(self.deep_view()),
    {
        text::push_text(out, "zboot deploy — plan");
        text::push_text(out, "================================================================");
        let label: &str = if self.has_esp() {
            "partition ESP+root"
        } else {
            "whole-disk pool (--no-efi)"
        };
        put(out, text::cat5("  target         : ", self.disk.as_str(), " (", label, ")"));
        put(out, text::cat2("  hostname       : ", self.hostname.as_str()));
        put(out, text::cat2("  hostid (hex)   : ", self.hostid_hex.as_str()));
        put(out, text::cat2("  pool           : ", self.pool.as_str()));
        match &self.mode {
            Mode::Source(s) => {
                put(
                    out,
                    text::cat5(
                        "  BE dataset     : ",
                        self.be_dataset.as_str(),
                        " (mountpoint ",
                        self.be_mountpoint.as_str(),
                        ")",
                    ),
                );
                let shown: String = s.render();
                put(out, text::cat2("  source         : ", shown.as_str()));
            },
            Mode::MirrorFrom(from) => {
                put(
                    out,
                    text::cat5(
                        "  populate via   : zboot mirror --to ",
                        self.pool.as_str(),
                        " (from ",
                        from.as_str(),
                        ")",
                    ),
                );
            },
            Mode::Empty => text::push_text(out, "  BE             : <none — --empty>"),
        }
        match &self.cmdline {
            Some(c) => put(out, text::cat2("  cmdline (ROOT) : ", c.as_str())),
            None => {},
        }
        text::push_text(out, "----------------------------------------------------------------");
        text::push_text(out, "  operations (in order):");
    }

    fn put_pool(&self, out: &mut Vec<String>)
        ensures
            final(out).deep_view() == old(out).deep_view() + pool_lines(self.deep_view()),
    {
        let first: String = if self.has_esp() {
            text::cat5(
                "wipefs -a ",
                self.disk.as_str(),
                " ; sfdisk ",
                self.disk.as_str(),
                " (GPT: ESP 512MiB + root)",
            )
        } else {
            text::cat3("wipefs -a ", self.disk.as_str(), " (whole-disk pool — no partitioning)")
        };
        put(out, number(1, first.as_str()));
        put(out, number(2, "write 4 raw hostid bytes to /etc/hostid (host side)"));
        put(out, number(3, "zpool create -o ashift=12 -o cachefile=none \\"));
        text::push_text(out, "         -o compatibility=openzfs-2.1-linux \\");
        text::push_text(out, "         -O canmount=off -O mountpoint=none -O compression=zstd \\");
        text::push_text(out, "         -O xattr=sa -O acltype=posixacl \\");
        put(out, text::cat4("         ", self.pool.as_str(), " ", self.pool_partition.as_str()));
        let role: String = text::cat2("zpool set zboot:role=root ", self.pool.as_str());
        put(out, number(4, role.as_str()));
        let root: String = text::cat3(
            "zfs create -o canmount=off -o mountpoint=none ",
            self.pool.as_str(),
            "/ROOT",
        );
        put(out, number(5, root.as_str()));
    }

    fn put_filling(&self, out: &mut Vec<String>) -> (n: u8)
        ensures
            final(out).deep_view() == old(out).deep_view() + filling_lines(self.deep_view()),
            n == 6 + filling_steps(self.deep_view()),
    {
        match &self.mode {
            Mode::MirrorFrom(from) => {
                let line: String = text::cat5(
                    "zboot mirror --to ",
                    self.pool.as_str(),
                    " (replicates BEs from ",
                    from.as_str(),
                    ")",
                );
                put(out, number(6, line.as_str()));
                7
            },
            Mode::Source(s) => {
                let made: String = text::cat2(
                    "zfs create -o canmount=noauto -o mountpoint=/ ",
                    self.be_dataset.as_str(),
                );
                put(out, number(6, made.as_str()));
                let marked: String = text::cat2("zfs set zboot:be=true ", self.be_dataset.as_str());
                put(out, number(7, marked.as_str()));
                let mounted: String = text::cat3(
                    "mount ",
                    self.be_dataset.as_str(),
                    " → temp dir; populate from source",
                );
                put(out, number(8, mounted.as_str()));
                put_unpack(s, out);
                put(out, number(9, "write hostid + /etc/hostname inside BE"));
                if self.cmdline.is_some() {
                    let set: String = text::cat3(
                        "zfs set zboot:kernel-cmdline=\"...\" ",
                        self.pool.as_str(),
                        "/ROOT",
                    );
                    put(out, number(10, set.as_str()));
                    11
                } else {
                    10
                }
            },
            Mode::Empty => 6,
        }
    }

    fn put_loader(&self, n: u8, out: &mut Vec<String>) -> (m: u8)
        requires
            n == 6 + filling_steps(self.deep_view()),
        ensures
            final(out).deep_view() == old(out).deep_view() + loader_lines(self.deep_view()),
            m == n + (if self.deep_view().esp_partition is Some {
                2int
            } else {
                0int
            }),
    {
        match &self.esp_partition {
            Some(esp) => {
                let line: String = text::cat3(
                    "install zboot-boot.efi to ",
                    esp.as_str(),
                    " (mount ESP, copy bundle)",
                );
                put(out, number(n, line.as_str()));
                let part: String = text::dec(esp::partition_number(esp.as_str()) as u128);
                let line: String = text::cat5(
                    "efibootmgr --create --disk ",
                    self.disk.as_str(),
                    " --part ",
                    part.as_str(),
                    " \\",
                );
                put(out, number(n + 1, line.as_str()));
                text::push_text(
                    out,
                    "         --label \"zboot-boot\" --loader '\\EFI\\zboot-boot\\zboot-boot.efi'",
                );
                n + 2
            },
            None => {
                text::push_text(
                    out,
                    "    -. ESP/bootloader skipped (--no-efi — recover via another disk's bootloader)",
                );
                n
            },
        }
    }

    /// The plan in words.
    pub fn render(&self) -> (r: String)
        ensures
            r@ == plan_text(self.deep_view()),
    {
        let mut out: Vec<String> = Vec::new();
        assert(out.deep_view() =~= seq![]);
        self.put_head(&mut out);
        self.put_pool(&mut out);
        let n: u8 = self.put_filling(&mut out);
        let m: u8 = self.put_loader(n, &mut out);
        if self.installs_be() {
            let line: String = text::cat4(
                "zpool set bootfs=",
                self.be_dataset.as_str(),
                " ",
                self.pool.as_str(),
            );
            put(&mut out, number(m, line.as_str()));
        } else {
            text::push_text(
                &mut out,
                "    -. bootfs left unset (--empty — set manually after BE attach)",
            );
        }
        text::push_text(
            &mut out,
            "================================================================",
        );
        assert(out.deep_view() =~= plan_lines(self.deep_view()));
        text::end_lines(&out)
    }
}

fn put_unpack(s: &Source, out: &mut Vec<String>)
    ensures
        final(out).deep_view() == old(out).deep_view() + unpack_lines(s.deep_view()),
{
    match s {
        Source::Tar { path } => {
            put(
                out,
                text::cat3("         tar: zstd -dc ", path.as_str(), " | tar -xf - -C <be>"),
            );
        },
        Source::Debootstrap { suite, mirror } => {
            text::push_text(
                out,
                "         debootstrap --variant=minbase --components=main,contrib \\",
            );
            put(
                out,
                text::cat4(
                    "                     ",
                    suite.as_str(),
                    " <be> ",
                    source::mirror_or_usual(mirror),
                ),
            );
            let packages = source::package_list();
            let shown: String = text::join_strs(packages.as_slice(), " ");
            put(
                out,
                text::cat3(
                    "         + chroot apt install ",
                    shown.as_str(),
                    " (DKMS builds zfs.ko)",
                ),
            );
        },
    }
}

// ---------------------------------------------------------------------------
// Laws
// ---------------------------------------------------------------------------

/// A plan takes the whole disk iff there is no boot loader on it; else the
/// loader gets the first partition and the pool the second.
pub proof fn law_layout(a: DeployArgs)
    requires
        compose_of(a) is Ok,
    ensures
        ({
            let p = compose_of(a)->Ok_0;
            &&& a.no_efi ==> p.esp_partition is None && p.pool_partition == p.disk
            &&& !a.no_efi ==> p.esp_partition == Some(partition_of(p.disk, 1)) && p.pool_partition
                == partition_of(p.disk, 2)
            &&& p.esp_partition != Some(p.pool_partition)
        }),
{
    let p = compose_of(a)->Ok_0;
    if !a.no_efi {
        let one = partition_of(p.disk, 1);
        let two = partition_of(p.disk, 2);
        assert(one.last() == '1' && two.last() == '2') by {
            assert(text::decimal(1) =~= seq!['1']);
            assert(text::decimal(2) =~= seq!['2']);
        }
    }
}

/// An empty pool is asked for alone: together with a source, a pool to mirror
/// or a command line it is refused.
pub proof fn law_empty_stands_alone(a: DeployArgs)
    requires
        a.empty,
        a.source is Some || a.mirror_from is Some || a.cmdline is Some,
    ensures
        compose_of(a) is Err,
{
}

} // verus!
