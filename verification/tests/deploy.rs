#![allow(dead_code)]

use std::collections::{BTreeMap, BTreeSet, VecDeque};

use zboot::cmd::deploy;
use zboot::cmd::deploy::be::{
    build_hostid_cpio_overlay, empty_root_password, overlay_hostid_in_initrds, unlock_root,
};
use zboot::cmd::deploy::esp::{parse_entries, partition_number, resolve_efi_bundle};
use zboot::cmd::deploy::plan;
use zboot::cmd::deploy::plan::{hostid_from_digest, hostid_from_hostname, Mode};
use zboot::cmd::deploy::source::{mirror_or_usual, Source};
use zboot::cmd::deploy::{
    confirm_target, ensure_disk_empty, ensure_no_pool_name_collision, hex_to_bytes_le, DeployArgs,
};
use zboot::cmd::efi;
use zboot::cmd::esp;
use zboot::cmd::esp::{Content, EspArgs, Shape};
use zboot::sub::{Answer, Request, Runner, World};

/// A host that plays a part: what its programs answer is set up before, its
/// files are a map, and what it is asked for is kept.
#[derive(Default)]
struct Host {
    /// Exit code, output and error output of a command line.
    programs: BTreeMap<String, (i32, String, String)>,
    files: BTreeMap<String, Vec<u8>>,
    dirs: BTreeSet<String>,
    links: BTreeMap<String, String>,
    vars: BTreeMap<String, String>,
    typed: VecDeque<String>,
    nanos: u128,
    pid: u32,
    /// The command lines, in order.
    calls: Vec<String>,
    /// Their arguments.
    argv: Vec<Vec<String>>,
    said: String,
    traced: String,
    shown_at_most: Option<usize>,
}

impl Host {
    fn answers(mut self, line: &str, rc: i32, stdout: &str, stderr: &str) -> Host {
        self.programs.insert(line.to_owned(), (rc, stdout.to_owned(), stderr.to_owned()));
        self
    }

    fn file(mut self, path: &str, text: &str) -> Host {
        self.files.insert(path.to_owned(), text.as_bytes().to_vec());
        self.make_parents(path);
        self
    }

    fn dir(mut self, path: &str) -> Host {
        self.make_parents(&format!("{path}/x"));
        self
    }

    fn var(mut self, name: &str, value: &str) -> Host {
        self.vars.insert(name.to_owned(), value.to_owned());
        self
    }

    fn types(mut self, line: &str) -> Host {
        self.typed.push_back(line.to_owned());
        self
    }

    fn link(mut self, path: &str, target: &str) -> Host {
        self.links.insert(path.to_owned(), target.to_owned());
        self.make_parents(path);
        self
    }

    fn has_file(&self, path: &str) -> bool {
        match self.links.get(path) {
            Some(target) => {
                let dir = path.rsplit_once('/').map_or("", |x| x.0);
                self.files.contains_key(&format!("{dir}/{target}"))
            }
            None => self.files.contains_key(path),
        }
    }

    fn make_parents(&mut self, path: &str) {
        let parts: Vec<&str> = path.split('/').collect();
        for i in 2..parts.len() {
            self.dirs.insert(parts[..i].join("/"));
        }
    }

    fn play(&mut self, prog: &str, args: &[String]) -> Answer {
        let line = format!("{prog} {}", args.join(" ")).trim_end().to_owned();
        self.calls.push(line.clone());
        self.argv.push(args.to_vec());
        match self.programs.get(&line) {
            Some((rc, out, err)) => Answer {
                rc: *rc,
                stdout: out.clone(),
                stderr: err.clone(),
                bytes: out.clone().into_bytes(),
                error_bytes: err.clone().into_bytes(),
                ..Answer::default()
            },
            None => Answer::default(),
        }
    }

    fn names_in(&self, dir: &str) -> Vec<String> {
        let front = format!("{dir}/");
        let mut names: BTreeSet<String> = BTreeSet::new();
        let all = self.files.keys().chain(self.dirs.iter()).chain(self.links.keys());
        for p in all {
            if let Some(rest) = p.strip_prefix(&front) {
                names.insert(rest.split('/').next().unwrap_or("").to_owned());
            }
        }
        names.into_iter().collect()
    }

    /// Shows no more than `n` texts; those behind them are lost.
    fn shows(mut self, n: usize) -> Host {
        self.shown_at_most = Some(n);
        self
    }

    fn show(&mut self, text: &str) -> Answer {
        if let Some(n) = self.shown_at_most {
            if n == 0 {
                return Answer {
                    failure: Some("Broken pipe (os error 32)".to_owned()),
                    ..Answer::default()
                };
            }
            self.shown_at_most = Some(n - 1);
        }
        self.said.push_str(text);
        Answer::default()
    }
}

fn refused(m: &str) -> Answer {
    Answer { failure: Some(m.to_owned()), ..Answer::default() }
}

fn yes_or_no(yes: bool) -> Answer {
    Answer { yes, ..Answer::default() }
}

impl Runner for Host {
    fn world(&self) -> World {
        unreachable!("only contracts speak of it")
    }

    fn perform(&mut self, q: Request) -> Answer {
        match q {
            Request::Run { prog, args } => self.play(&prog, &args),
            Request::Attend { prog, args } => self.play(&prog, &args),
            Request::RunWith { prog, args, env } => {
                for (k, v) in env {
                    self.vars.insert(k, v);
                }
                self.play(&prog, &args)
            }
            Request::Pipe { prog, args, to_prog, to_args } => {
                let from = self.play(&prog, &args);
                let to = self.play(&to_prog, &to_args);
                Answer { rc: from.rc, to_rc: to.rc, ..Answer::default() }
            }
            Request::Feed { prog, args, input } => {
                self.vars.insert("fed".to_owned(), input);
                self.play(&prog, &args)
            }
            Request::Say { text } => self.show(&format!("{text}\n")),
            Request::Show { text } => self.show(&text),
            Request::Trace { text } => {
                self.traced.push_str(&text);
                self.traced.push('\n');
                Answer::default()
            }
            Request::Forward { bytes } => self.show(&String::from_utf8_lossy(&bytes)),
            Request::ForwardError { bytes } => {
                self.traced.push_str(&String::from_utf8_lossy(&bytes));
                Answer::default()
            }
            Request::Ask => {
                let stdout = self.typed.pop_front().unwrap_or_default();
                Answer { stdout, ..Answer::default() }
            }
            Request::ReadFile { path } => match self.files.get(&path) {
                Some(b) => Answer {
                    stdout: String::from_utf8_lossy(b).into_owned(),
                    ..Answer::default()
                },
                None => refused("No such file or directory (os error 2)"),
            },
            Request::ReadBytes { path } => match self.files.get(&path) {
                Some(b) => Answer { bytes: b.clone(), ..Answer::default() },
                None => refused("No such file or directory (os error 2)"),
            },
            Request::WriteFile { path, bytes } => {
                self.files.insert(path, bytes);
                Answer::default()
            }
            Request::AppendFile { path, bytes } => {
                self.files.entry(path).or_default().extend(bytes);
                Answer::default()
            }
            Request::CopyFile { from, to } => match self.files.get(&from).cloned() {
                Some(b) => {
                    self.files.insert(to, b);
                    Answer::default()
                }
                None => refused("No such file or directory (os error 2)"),
            },
            Request::RenameFile { from, to } => match self.files.remove(&from) {
                Some(b) => {
                    self.files.insert(to, b);
                    Answer::default()
                }
                None => refused("No such file or directory (os error 2)"),
            },
            Request::RemoveFile { path } => {
                self.files.remove(&path);
                Answer::default()
            }
            Request::MakeDirs { path } => {
                self.make_parents(&format!("{path}/x"));
                Answer::default()
            }
            Request::RemoveDir { path } => {
                self.dirs.remove(&path);
                Answer::default()
            }
            Request::RemoveTree { path } => {
                let front = format!("{path}/");
                self.dirs.retain(|d| *d != path && !d.starts_with(&front));
                self.files.retain(|f, _| !f.starts_with(&front));
                Answer::default()
            }
            Request::Exists { path } => yes_or_no(
                self.has_file(&path) || self.dirs.contains(&path),
            ),
            Request::IsFile { path } => yes_or_no(self.has_file(&path)),
            Request::IsDir { path } => yes_or_no(self.dirs.contains(&path)),
            Request::ListDir { path }
            | Request::ListTexts { path }
            | Request::ListUntil { path } => {
                if self.dirs.contains(&path) {
                    Answer { names: self.names_in(&path), ..Answer::default() }
                } else {
                    refused("No such file or directory (os error 2)")
                }
            }
            Request::ReadLink { path } => match self.links.get(&path) {
                Some(t) => Answer { stdout: t.clone(), ..Answer::default() },
                None => refused("Invalid argument (os error 22)"),
            },
            Request::Env { name } => match self.vars.get(&name) {
                Some(v) => Answer { stdout: v.clone(), ..Answer::default() },
                None => refused("environment variable not found"),
            },
            Request::Exe => Answer { stdout: "/usr/bin/zboot".to_owned(), ..Answer::default() },
            Request::Clock => Answer { nanos: self.nanos, ..Answer::default() },
            Request::Pid => Answer { pid: self.pid, ..Answer::default() },
            Request::KeyWithin { millis: _ }
            | Request::TakeKeys
            | Request::LeaveKeys
            | Request::Interactive
            | Request::MakeExecutable { path: _ }
            | Request::Reboot => Answer::default(),
        }
    }
}

// ---------------------------------------------------------------------------
// Sources
// ---------------------------------------------------------------------------

#[test]
fn parse_tar_url() {
    let s = Source::parse("tar:///payload/root.tar.zst").unwrap();
    assert!(matches!(s, Source::Tar { .. }));
    if let Source::Tar { path } = s {
        assert_eq!(path, "/payload/root.tar.zst");
    }
}

#[test]
fn parse_debootstrap_bare_suite() {
    let s = Source::parse("debootstrap://trixie").unwrap();
    if let Source::Debootstrap { suite, mirror } = s {
        assert_eq!(suite, "trixie");
        assert!(mirror.is_none());
    } else {
        panic!("expected Debootstrap variant");
    }
}

#[test]
fn parse_debootstrap_with_mirror() {
    let s = Source::parse("debootstrap://testing?mirror=http://deb.debian.org/debian").unwrap();
    if let Source::Debootstrap { suite, mirror } = s {
        assert_eq!(suite, "testing");
        assert_eq!(mirror.as_deref(), Some("http://deb.debian.org/debian"));
    } else {
        panic!("expected Debootstrap variant");
    }
}

#[test]
fn parse_unknown_scheme() {
    assert!(Source::parse("ftp://example.com/x").is_err());
    assert!(Source::parse("zfs-recv://host:rpool/be@s").is_err());
    assert!(Source::parse("restic://repo/snap").is_err());
}

#[test]
fn parse_debootstrap_rejects_unknown_query() {
    let e = Source::parse("debootstrap://trixie?include=htop").unwrap_err();
    let msg = e.message;
    assert!(
        msg.contains("only accepts `mirror=`"),
        "error doesn't mention the only-mirror constraint: {msg}",
    );
}

#[test]
fn parse_tar_empty_path() {
    assert!(Source::parse("tar://").is_err());
}

#[test]
fn a_source_reads_back() {
    let s = Source::parse("debootstrap://trixie?mirror=http://m/d").unwrap();
    let again = Source::parse(&s.render()).unwrap();
    assert_eq!(s.render(), again.render());
    assert_eq!(mirror_or_usual(&None), "http://deb.debian.org/debian");
}

// ---------------------------------------------------------------------------
// Disks and host ids
// ---------------------------------------------------------------------------

#[test]
fn partition_path_sata() {
    assert_eq!(plan::partition_path("/dev/vda", 1), "/dev/vda1");
    assert_eq!(plan::partition_path("/dev/sda", 2), "/dev/sda2");
}

#[test]
fn partition_path_nvme() {
    assert_eq!(plan::partition_path("/dev/nvme0n1", 1), "/dev/nvme0n1p1");
    assert_eq!(plan::partition_path("/dev/nvme0n1", 2), "/dev/nvme0n1p2");
}

#[test]
fn partitions_know_their_number() {
    assert_eq!(partition_number("/dev/nvme0n1p3"), 3);
    assert_eq!(partition_number("/dev/vda12"), 12);
    assert_eq!(partition_number(&plan::partition_path("/dev/sda", 2)), 2);
}

#[test]
fn hex_to_bytes_basic() {
    assert_eq!(hex_to_bytes_le("00112233").unwrap(), [0x00, 0x11, 0x22, 0x33]);
    assert_eq!(hex_to_bytes_le("deadbeef").unwrap(), [0xde, 0xad, 0xbe, 0xef]);
}

#[test]
fn hex_to_bytes_wrong_length() {
    assert!(hex_to_bytes_le("123").is_err());
    assert!(hex_to_bytes_le("123456789").is_err());
}

#[test]
fn hex_to_bytes_non_hex() {
    assert!(hex_to_bytes_le("0g000000").is_err());
}

#[test]
fn host_ids_come_from_the_digest() {
    assert_eq!(hostid_from_digest(&[0x00, 0x0a, 0xff, 0x10, 0x99]), "000aff10");
    assert_eq!(hostid_from_hostname("h"), "aaa94026");
    assert_eq!(hostid_from_hostname("zboot"), "56fa6d76");
}

// ---------------------------------------------------------------------------
// Confirmation
// ---------------------------------------------------------------------------

#[test]
fn mod_confirm_via_env() {
    let mut h = Host::default();
    confirm_target(&mut h, "vda", Some("vda")).unwrap();
    assert!(h.said.contains("[confirmed via ZBOOT_DEPLOY_CONFIRM_DISK=vda]"));
}

#[test]
fn mod_confirm_env_mismatch_errors() {
    let mut h = Host::default();
    let e = confirm_target(&mut h, "vda", Some("nvme0n1")).unwrap_err();
    assert!(e.message.contains("does not match"));
}

#[test]
fn mod_confirm_via_stdin() {
    let mut h = Host::default().types("vda\n");
    confirm_target(&mut h, "vda", None).unwrap();
}

#[test]
fn confirm_stdin_mismatch_errors() {
    let mut h = Host::default().types("sda\n");
    let e = confirm_target(&mut h, "vda", None).unwrap_err();
    assert!(e.message.contains("confirmation mismatch"));
}

// ---------------------------------------------------------------------------
// Plans
// ---------------------------------------------------------------------------

fn args_with_target(t: &str) -> DeployArgs {
    DeployArgs {
        target: Some(t.into()),
        no_efi: false,
        empty: false,
        hostname: "h".into(),
        be: "be1".into(),
        source: None,
        suite: "trixie".into(),
        mirror_from: None,
        cmdline: None,
        pool: "rpool".into(),
        check: false,
        dry_run: false,
        no_snapshot: true,
    }
}

#[test]
fn plan_default_partitions_disk_and_uses_p2() {
    let a = args_with_target("/dev/vda");
    let p = plan::Plan::compose(&a).unwrap();
    assert_eq!(p.disk, "/dev/vda");
    assert_eq!(p.pool_partition, "/dev/vda2");
    assert_eq!(p.esp_partition.as_deref(), Some("/dev/vda1"));
    assert!(matches!(p.mode, Mode::Source(_)));
    assert!(p.has_esp());
    assert!(p.installs_be());
}

#[test]
fn plan_no_efi_uses_whole_disk_no_esp() {
    let mut a = args_with_target("/dev/nvme0n1");
    a.no_efi = true;
    let p = plan::Plan::compose(&a).unwrap();
    assert_eq!(p.pool_partition, "/dev/nvme0n1");
    assert!(p.esp_partition.is_none());
    assert!(!p.has_esp());
    assert!(p.installs_be());
}

#[test]
fn plan_empty_mode_skips_be_keeps_esp() {
    let mut a = args_with_target("/dev/vdb");
    a.empty = true;
    let p = plan::Plan::compose(&a).unwrap();
    assert!(matches!(p.mode, Mode::Empty));
    assert!(!p.installs_be());
    assert!(p.has_esp());
}

#[test]
fn plan_empty_with_no_efi_strips_everything() {
    let mut a = args_with_target("/dev/vdb");
    a.empty = true;
    a.no_efi = true;
    let p = plan::Plan::compose(&a).unwrap();
    assert!(matches!(p.mode, Mode::Empty));
    assert!(!p.installs_be());
    assert!(!p.has_esp());
    assert_eq!(p.pool_partition, "/dev/vdb");
}

#[test]
fn plan_empty_rejects_source() {
    let mut a = args_with_target("/dev/vdb");
    a.empty = true;
    a.source = Some("tar:///x".into());
    let e = plan::Plan::compose(&a).unwrap_err();
    assert!(e.message.contains("--empty is incompatible with --source"));
}

#[test]
fn plan_empty_rejects_mirror_from() {
    let mut a = args_with_target("/dev/vdb");
    a.empty = true;
    a.mirror_from = Some("rpool".into());
    let e = plan::Plan::compose(&a).unwrap_err();
    assert!(e.message.contains("--empty is incompatible with --mirror-from"));
}

#[test]
fn plan_mirror_from_skips_source() {
    let mut a = args_with_target("/dev/vda");
    a.mirror_from = Some("rpool".into());
    let p = plan::Plan::compose(&a).unwrap();
    assert!(matches!(p.mode, Mode::MirrorFrom(ref s) if s == "rpool"));
    assert!(p.has_esp());
    assert!(p.installs_be());
}

#[test]
fn plan_default_falls_back_to_debootstrap_suite() {
    let a = args_with_target("/dev/vda");
    let p = plan::Plan::compose(&a).unwrap();
    match p.mode {
        Mode::Source(Source::Debootstrap { suite, .. }) => assert_eq!(suite, "trixie"),
        other => panic!("expected debootstrap source, got {other:?}"),
    }
}

#[test]
fn plan_missing_target_errors() {
    let mut a = args_with_target("/dev/vda");
    a.target = None;
    let e = plan::Plan::compose(&a).unwrap_err();
    assert!(e.message.contains("--target"));
}

#[test]
fn a_checked_plan_changes_nothing() {
    let mut a = args_with_target("/dev/vda");
    a.check = true;
    let mut h = Host::default();
    deploy::run(&mut h, &a, &[1]).unwrap();
    assert!(h.said.contains("/dev/vda"), "{}", h.said);
    for c in &h.calls {
        assert!(
            c.starts_with("lsblk ") || c.starts_with("wipefs --noheadings") || c.starts_with("zpool list"),
            "{c}"
        );
    }
    assert!(h.files.is_empty());
}

// ---------------------------------------------------------------------------
// Preflight
// ---------------------------------------------------------------------------

#[test]
fn only_an_empty_disk_is_taken() {
    let mut h = Host::default();
    ensure_disk_empty(&mut h, "/dev/vda").unwrap();
    let wipefs = h.calls.iter().find(|c| c.starts_with("wipefs")).unwrap().clone();
    let mut h = Host::default().answers(&wipefs, 0, "ext4\n", "");
    let e = ensure_disk_empty(&mut h, "/dev/vda").unwrap_err();
    assert!(e.message.contains("ext4"), "{}", e.message);
    let mut h = Host::default()
        .answers(&wipefs, 0, "ext4\n", "")
        .var("ZBOOT_DEPLOY_ALLOW_NONEMPTY", "1");
    ensure_disk_empty(&mut h, "/dev/vda").unwrap();
}

#[test]
fn a_pool_of_the_name_is_refused() {
    let mut h = Host::default();
    ensure_no_pool_name_collision(&mut h, "rpool").unwrap();
    let list = h.calls[0].clone();
    let mut h = Host::default().answers(&list, 0, "data\nrpool\n", "");
    assert!(ensure_no_pool_name_collision(&mut h, "rpool").is_err());
}

// ---------------------------------------------------------------------------
// The host id behind the boot images
// ---------------------------------------------------------------------------

#[test]
fn build_hostid_cpio_overlay_has_newc_magic_and_filename() {
    let bytes = [0x5e, 0xec, 0x0d, 0xc4];
    let buf = build_hostid_cpio_overlay(&bytes);
    assert_eq!(&buf[..6], b"070701", "newc magic");
    let after_header = &buf[110..];
    assert!(after_header.starts_with(b"etc/hostid\0"), "{:?}", &after_header[..15]);
}

#[test]
fn build_hostid_cpio_overlay_total_size_is_4byte_aligned() {
    let bytes = [0x5e, 0xec, 0x0d, 0xc4];
    let buf = build_hostid_cpio_overlay(&bytes);
    assert_eq!(buf.len() % 4, 0, "overlay length {} not 4-aligned", buf.len());
}

#[test]
fn build_hostid_cpio_overlay_has_trailer() {
    let bytes = [0x5e, 0xec, 0x0d, 0xc4];
    let buf = build_hostid_cpio_overlay(&bytes);
    let found = buf.windows(11).any(|w| w == b"TRAILER!!!\0");
    assert!(found, "no TRAILER!!! sentinel in overlay");
}

#[test]
fn build_hostid_cpio_overlay_contains_hostid_bytes() {
    let bytes = [0xab, 0xcd, 0xef, 0x42];
    let buf = build_hostid_cpio_overlay(&bytes);
    let found = buf.windows(4).any(|w| w == bytes);
    assert!(found, "hostid bytes not found in overlay");
}

#[test]
fn the_overlay_goes_in_once() {
    let mut h = Host::default()
        .file("/mnt/boot/initrd.img-6.1", "abcde")
        .file("/mnt/boot/vmlinuz-6.1", "k");
    overlay_hostid_in_initrds(&mut h, "/mnt", "deadbeef").unwrap();
    let once = h.files["/mnt/boot/initrd.img-6.1"].clone();
    let overlay = build_hostid_cpio_overlay(&[0xde, 0xad, 0xbe, 0xef]);
    assert_eq!(once.len(), 8 + overlay.len());
    assert!(once.ends_with(&overlay));
    overlay_hostid_in_initrds(&mut h, "/mnt", "deadbeef").unwrap();
    assert_eq!(h.files["/mnt/boot/initrd.img-6.1"], once);
    assert_eq!(h.files["/mnt/boot/vmlinuz-6.1"], b"k");
}

#[test]
fn root_gets_no_password() {
    assert_eq!(
        unlock_root("root:*:19000:0:99999:7:::\ndaemon:*:1::::::\n"),
        "root::19000:0:99999:7:::\ndaemon:*:1::::::\n"
    );
    let mut h = Host::default().file("/mnt/etc/shadow", "root:!:1\n");
    empty_root_password(&mut h, "/mnt").unwrap();
    assert_eq!(h.files["/mnt/etc/shadow"], b"root::1\n");
}

// ---------------------------------------------------------------------------
// The boot loader
// ---------------------------------------------------------------------------

#[test]
fn firmware_entries_are_read() {
    let e = parse_entries("BootCurrent: 0001\nBoot0001* debian\nBoot000A  zboot-boot\tHD(1)\n");
    assert_eq!(e.len(), 2);
    assert_eq!(e[0].id, "0001");
    assert_eq!(e[0].label, "debian");
    assert_eq!(e[1].id, "000A");
}

#[test]
fn the_carried_loader_is_written_whole() {
    let mut h = Host::default();
    efi::write_embedded(&mut h, "/srv/pxe", &[7, 8]).unwrap();
    assert_eq!(h.files["/srv/pxe/zboot-boot.efi"], vec![7, 8]);
    assert!(!h.files.contains_key("/srv/pxe/zboot-boot.efi.partial"));
    assert!(efi::write_embedded(&mut h, "/srv/pxe", &[]).is_err());
    assert!(resolve_efi_bundle(&mut Host::default(), &[]).is_err());
    h.pid = 5;
    assert_eq!(efi::extract_to_tmp(&mut h, &[9]).unwrap(), "/tmp/zboot-boot-5.efi");
    assert_eq!(h.files["/tmp/zboot-boot-5.efi"], vec![9]);
}

// ---------------------------------------------------------------------------
// A loader's own disk
// ---------------------------------------------------------------------------

fn plan_for(target: &str, shape: Shape, content: Content) -> esp::Plan {
    let (parent_disk, part_number) = match shape {
        Shape::WholeDisk => (None, None),
        Shape::Partition => (Some("/dev/sdb".to_owned()), Some(partition_number(target))),
    };
    esp::Plan { target: target.to_owned(), shape, content, parent_disk, part_number }
}

#[test]
fn whole_disk_empty_doesnt_need_replace() {
    let p = plan_for("/dev/sdb", Shape::WholeDisk, Content::Empty);
    assert!(!p.needs_replace());
    assert_eq!(p.esp_partition(), "/dev/sdb1");
    assert_eq!(p.efibootmgr_disk(), "/dev/sdb");
    assert_eq!(p.efibootmgr_part(), 1);
}

#[test]
fn whole_disk_non_empty_needs_replace() {
    let p = plan_for(
        "/dev/sdb",
        Shape::WholeDisk,
        Content::Other("partitions: sdb1, sdb2".into()),
    );
    assert!(p.needs_replace());
}

#[test]
fn partition_fat32_no_replace() {
    let p = plan_for("/dev/sdb1", Shape::Partition, Content::Fat32);
    assert!(!p.needs_replace());
    assert_eq!(p.esp_partition(), "/dev/sdb1");
    assert_eq!(p.efibootmgr_disk(), "/dev/sdb");
    assert_eq!(p.efibootmgr_part(), 1);
}

#[test]
fn partition_empty_no_replace() {
    let p = plan_for("/dev/sdb1", Shape::Partition, Content::Empty);
    assert!(!p.needs_replace());
}

#[test]
fn partition_other_fs_needs_replace() {
    let p = plan_for("/dev/sdb1", Shape::Partition, Content::Other("ntfs".into()));
    assert!(p.needs_replace());
}

#[test]
fn partition_efibootmgr_uses_parent_disk() {
    let p = plan_for("/dev/nvme0n1p3", Shape::Partition, Content::Fat32);
    assert_eq!(p.efibootmgr_disk(), "/dev/sdb");
    assert_eq!(p.efibootmgr_part(), 3);
}

#[test]
fn whole_disk_renders_partition_step() {
    let p = plan_for("/dev/sdb", Shape::WholeDisk, Content::Empty);
    let s = p.render("zboot-boot", false);
    assert!(s.contains("wipefs -a /dev/sdb"));
    assert!(s.contains("sfdisk /dev/sdb"));
    assert!(s.contains("mkfs.vfat -F32 /dev/sdb1"));
    assert!(s.contains("efibootmgr"));
}

#[test]
fn partition_skips_partition_step() {
    let p = plan_for("/dev/sdb1", Shape::Partition, Content::Empty);
    let s = p.render("zboot-boot", false);
    assert!(!s.contains("sfdisk"));
    assert!(s.contains("mkfs.vfat -F32 /dev/sdb1"));
}

#[test]
fn esp_confirm_via_env() {
    let mut h = Host::default();
    esp::confirm_target(&mut h, "sdb", Some("sdb")).unwrap();
    assert!(h.said.contains("[confirmed via ZBOOT_ESP_CONFIRM_TARGET=sdb]"));
}

#[test]
fn esp_confirm_env_mismatch_errors() {
    let mut h = Host::default();
    let e = esp::confirm_target(&mut h, "sdb", Some("sda")).unwrap_err();
    assert!(e.message.contains("does not match"));
}

#[test]
fn esp_confirm_via_stdin() {
    let mut h = Host::default().types("sdb\n");
    esp::confirm_target(&mut h, "sdb", None).unwrap();
}

fn esp_args(target: &str, replace: bool, check: bool) -> EspArgs {
    EspArgs { target: target.into(), label: "zboot-boot".into(), replace, check }
}

#[test]
fn esp_keeps_a_fat32_partition() {
    let mut h = Host::default()
        .answers("lsblk -no TYPE /dev/sdb1", 0, "part\n", "")
        .answers("lsblk -no PKNAME /dev/sdb1", 0, "sdb\n", "");
    esp::Plan::probe(&mut h, "/dev/sdb1").unwrap();
    let wipefs = h.calls.iter().find(|c| c.starts_with("wipefs")).unwrap().clone();
    let mut h = h.answers(&wipefs, 0, "vfat\nvfat\n", "");
    h.calls.clear();
    h.pid = 3;
    esp::run(&mut h, &esp_args("/dev/sdb1", false, false), &[1, 2]).unwrap();
    assert!(!h.calls.iter().any(|c| c.starts_with("mkfs") || c.starts_with("sfdisk")));
    assert!(h.calls.iter().any(|c| c.contains("/tmp/zboot-esp-3") && c.contains("umount")));
    assert!(h.calls.iter().any(|c| c.contains("--disk /dev/sdb --part 1")), "{:?}", h.calls);
    assert!(h.said.contains("[x] efibootmgr register\n\n=== esp complete ===\n"), "{}", h.said);
}

#[test]
fn esp_refuses_what_is_not_empty() {
    let wipefs = "wipefs --noheadings --output=TYPE -n /dev/sdb";
    let mut h = Host::default()
        .answers("lsblk -no TYPE /dev/sdb", 0, "disk\n", "")
        .answers(wipefs, 0, "zfs_member\ngpt\nzfs_member\n", "");
    let e = esp::run(&mut h, &esp_args("/dev/sdb", false, false), &[1]).unwrap_err();
    assert!(
        e.message.starts_with("target /dev/sdb is not empty/FAT32 — pass --replace to overwrite."),
        "{}",
        e.message
    );
    assert!(h.calls.iter().all(|c| c.starts_with("lsblk") || c.starts_with("wipefs --noheadings")));
    let e = esp::run(&mut h, &esp_args("/dev/sdb", true, false), &[1]).unwrap_err();
    assert!(e.message.contains("confirmation mismatch"), "{}", e.message);
    esp::run(&mut h, &esp_args("/dev/sdb", false, true), &[1]).unwrap();
}

#[test]
fn esp_knows_what_it_is_given() {
    assert!(matches!(esp::parse_shape("disk", "/dev/x").unwrap(), Shape::WholeDisk));
    assert!(matches!(esp::parse_shape("loop", "/dev/x").unwrap(), Shape::WholeDisk));
    assert!(matches!(esp::parse_shape("part", "/dev/x").unwrap(), Shape::Partition));
    assert_eq!(
        esp::parse_shape("rom", "/dev/x").unwrap_err().message,
        "target /dev/x has unsupported lsblk type \"rom\" (expected disk/loop/part)"
    );
    let s = |v: &[&str]| v.iter().map(|x| (*x).to_owned()).collect::<Vec<String>>();
    let both = esp::classify(Shape::WholeDisk, &s(&["gpt"]), &s(&["sdb1", "sdb2"]));
    assert!(matches!(both, Content::Other(t) if t == "partitions: sdb1, sdb2; gpt"));
    let two = esp::classify(Shape::Partition, &s(&["vfat", "ext4", "vfat"]), &s(&[]));
    assert!(matches!(two, Content::Other(t) if t == "ext4,vfat"));
    assert!(matches!(esp::classify(Shape::Partition, &s(&["vfat"]), &s(&[])), Content::Fat32));
}

// ---------------------------------------------------------------------------
// What a plan reads like
// ---------------------------------------------------------------------------

#[test]
fn a_plan_is_told_step_by_step() {
    let mut a = args_with_target("/dev/vda");
    a.cmdline = Some("quiet".into());
    let mut p = plan::Plan::compose(&a).unwrap();
    p.hostid_hex = "00bab10c".into();
    assert_eq!(
        p.render(),
        concat_lines(&[
            "zboot deploy — plan",
            "================================================================",
            "  target         : /dev/vda (partition ESP+root)",
            "  hostname       : h",
            "  hostid (hex)   : 00bab10c",
            "  pool           : rpool",
            "  BE dataset     : rpool/ROOT/be1 (mountpoint /)",
            "  source         : debootstrap://trixie",
            "  cmdline (ROOT) : quiet",
            "----------------------------------------------------------------",
            "  operations (in order):",
            "    1. wipefs -a /dev/vda ; sfdisk /dev/vda (GPT: ESP 512MiB + root)",
            "    2. write 4 raw hostid bytes to /etc/hostid (host side)",
            "    3. zpool create -o ashift=12 -o cachefile=none \\",
            "         -o compatibility=openzfs-2.1-linux \\",
            "         -O canmount=off -O mountpoint=none -O compression=zstd \\",
            "         -O xattr=sa -O acltype=posixacl \\",
            "         rpool /dev/vda2",
            "    4. zpool set zboot:role=root rpool",
            "    5. zfs create -o canmount=off -o mountpoint=none rpool/ROOT",
            "    6. zfs create -o canmount=noauto -o mountpoint=/ rpool/ROOT/be1",
            "    7. zfs set zboot:be=true rpool/ROOT/be1",
            "    8. mount rpool/ROOT/be1 → temp dir; populate from source",
            "         debootstrap --variant=minbase --components=main,contrib \\",
            "                     trixie <be> http://deb.debian.org/debian",
            "         + chroot apt install linux-image-amd64 linux-headers-amd64 zfs-dkms zfs-initramfs systemd-sysv (DKMS builds zfs.ko)",
            "    9. write hostid + /etc/hostname inside BE",
            "    10. zfs set zboot:kernel-cmdline=\"...\" rpool/ROOT",
            "    11. install zboot-boot.efi to /dev/vda1 (mount ESP, copy bundle)",
            "    12. efibootmgr --create --disk /dev/vda --part 1 \\",
            "         --label \"zboot-boot\" --loader '\\EFI\\zboot-boot\\zboot-boot.efi'",
            "    13. zpool set bootfs=rpool/ROOT/be1 rpool",
            "================================================================",
        ])
    );
}

#[test]
fn an_empty_plan_leaves_bootfs_unset() {
    let mut a = args_with_target("/dev/vda");
    a.empty = true;
    a.no_efi = true;
    let mut p = plan::Plan::compose(&a).unwrap();
    p.hostid_hex = "00bab10c".into();
    assert_eq!(
        p.render(),
        concat_lines(&[
            "zboot deploy — plan",
            "================================================================",
            "  target         : /dev/vda (whole-disk pool (--no-efi))",
            "  hostname       : h",
            "  hostid (hex)   : 00bab10c",
            "  pool           : rpool",
            "  BE             : <none — --empty>",
            "----------------------------------------------------------------",
            "  operations (in order):",
            "    1. wipefs -a /dev/vda (whole-disk pool — no partitioning)",
            "    2. write 4 raw hostid bytes to /etc/hostid (host side)",
            "    3. zpool create -o ashift=12 -o cachefile=none \\",
            "         -o compatibility=openzfs-2.1-linux \\",
            "         -O canmount=off -O mountpoint=none -O compression=zstd \\",
            "         -O xattr=sa -O acltype=posixacl \\",
            "         rpool /dev/vda",
            "    4. zpool set zboot:role=root rpool",
            "    5. zfs create -o canmount=off -o mountpoint=none rpool/ROOT",
            "    -. ESP/bootloader skipped (--no-efi — recover via another disk's bootloader)",
            "    -. bootfs left unset (--empty — set manually after BE attach)",
            "================================================================",
        ])
    );
}

#[test]
fn a_loader_plan_is_told_step_by_step() {
    let p = plan_for("/dev/sdb", Shape::WholeDisk, Content::Other("partitions: sdb1".into()));
    assert_eq!(
        p.render("zb", false),
        concat_lines(&[
            "zboot esp — plan",
            "================================================================",
            "  target         : /dev/sdb",
            "  shape          : whole disk",
            "  content        : partitions: sdb1",
            "  label          : zb",
            "  replace        : REQUIRED but not given",
            "----------------------------------------------------------------",
            "  operations (in order):",
            "    1. wipefs -a /dev/sdb ; sfdisk /dev/sdb (GPT: 512MiB ESP)",
            "    2. mkfs.vfat -F32 /dev/sdb1",
            "    3. mount /dev/sdb1 → /tmp/zboot-esp-<pid>",
            "    4. copy zboot-boot.efi → \\EFI\\zboot-boot\\zboot-boot.efi (+ BOOTX64.EFI)",
            "    5. efibootmgr --create --disk /dev/sdb --part 1 --label \"zb\" \\",
            "         --loader '\\EFI\\zboot-boot\\zboot-boot.efi'",
            "================================================================",
        ])
    );
}

fn concat_lines(lines: &[&str]) -> String {
    lines.iter().map(|l| format!("{l}\n")).collect()
}

#[test]
fn an_unconfirmed_deployment_only_looks() {
    let mut h = Host::default().types("vdb\n");
    let a = args_with_target("/dev/vda");
    let err = deploy::run(&mut h, &a, &[]).unwrap_err();
    assert_eq!(
        err.message,
        "confirmation mismatch: expected exactly \"vda\", got \"vdb\""
    );
    assert_eq!(
        h.calls,
        vec![
            "lsblk -nro NAME /dev/vda",
            "wipefs --noheadings --output=TYPE -n /dev/vda",
            "zpool list -H -o name",
            "zpool import -d /dev",
        ]
    );
    assert!(h.files.is_empty());
}

#[test]
fn a_deployment_from_a_tar_file() {
    let mut h = Host { pid: 9, ..Host::default() }
        .types("vda\n")
        .file("/tmp/zboot-deploy-9/etc/shadow", "root:*:1:0:9:7:::\nbin:*:1:0:9:7:::\n")
        .file("/tmp/zboot-deploy-9/boot/initrd.img-6.12", "abcd");
    let mut a = args_with_target("/dev/vda");
    a.source = Some("tar:///srv/be.tar.zst".into());
    a.no_efi = true;
    a.no_snapshot = false;
    a.cmdline = Some("quiet".into());
    deploy::run(&mut h, &a, &[]).unwrap();
    let mut rest = h.calls.iter();
    for step in [
        "wipefs -a /dev/vda",
        "zpool create -f -o ashift=12 -o cachefile=none -o compatibility=openzfs-2.1-linux -O canmount=off -O mountpoint=none -O compression=zstd -O xattr=sa -O acltype=posixacl rpool /dev/vda",
        "zpool set zboot:role=root rpool",
        "zfs create -o canmount=off -o mountpoint=none rpool/ROOT",
        "zfs create -o canmount=noauto -o mountpoint=/ rpool/ROOT/be1",
        "zfs set zboot:be=true rpool/ROOT/be1",
        "mount -t zfs -o zfsutil rpool/ROOT/be1 /tmp/zboot-deploy-9",
        "zstd -dc /srv/be.tar.zst",
        "tar -xf - -C /tmp/zboot-deploy-9",
        "zfs set zboot:kernel-cmdline=quiet rpool/ROOT",
        "zpool set bootfs=rpool/ROOT/be1 rpool",
        "zfs snapshot rpool/ROOT/be1@deploy",
        "umount /tmp/zboot-deploy-9",
    ] {
        assert!(rest.any(|c| c == step), "{step}: {:?}", h.calls);
    }
    assert_eq!(h.files["/etc/hostid"].len(), 4);
    assert_eq!(h.files["/tmp/zboot-deploy-9/etc/hostid"], h.files["/etc/hostid"]);
    assert_eq!(h.files["/tmp/zboot-deploy-9/etc/hostname"], b"h\n".to_vec());
    assert!(h.files["/tmp/zboot-deploy-9/etc/shadow"].starts_with(b"root::1:0:9:7:::\nbin:*:"));
    assert!(h.files["/tmp/zboot-deploy-9/boot/initrd.img-6.12"].len() > 4);
    assert!(h.said.ends_with("\n=== deploy complete ===\n"));
    assert!(h.said.contains("[x] set bootfs\n"));
}

#[test]
fn hex_digits_of_other_alphabets_are_told_apart() {
    let fault = |s: &str| hex_to_bytes_le(s).unwrap_err().message;
    // Two bytes of one character are text, and no number.
    assert!(fault("\u{e9}000000").contains("invalid digit found in string"));
    // A character that begins on the second byte of a pair breaks off.
    assert!(fault("0\u{e9}00000").contains("incomplete utf-8 byte sequence from index 1"));
    assert!(fault("\u{20ac}00000").contains("incomplete utf-8 byte sequence from index 0"));
    assert!(fault("000000\u{e9}").contains("invalid digit found in string"));
}

#[test]
fn a_deployment_stops_at_a_lost_line() {
    let mut h = Host::default().types("vda\n").shows(0);
    let err = deploy::run(&mut h, &args_with_target("/dev/vda"), &[]).unwrap_err();
    assert_eq!(err.message, "write deploy plan: Broken pipe (os error 32)");
    assert!(h.files.is_empty());
    assert!(!h.calls.iter().any(|c| c.starts_with("zpool create")));
}

#[test]
fn esp_stops_at_a_lost_plan() {
    let mut h = Host::default()
        .answers("lsblk -no TYPE /dev/sdb", 0, "disk\n", "")
        .shows(0);
    let err = esp::run(&mut h, &esp_args("/dev/sdb", true, true), &[1]).unwrap_err();
    assert_eq!(err.message, "write esp plan: Broken pipe (os error 32)");
    assert!(!h.calls.iter().any(|c| c.starts_with("mkfs") || c.starts_with("sfdisk")));
}
