#![allow(dead_code)]

use std::collections::{BTreeMap, BTreeSet, VecDeque};

use zboot::be_arg::{resolve_be_dataset, split_be_snap};
use zboot::cmd::attach::{or_dash, pool_of};
use zboot::cmd::chroot;
use zboot::cmd::chroot::pick_shell;
use zboot::cmd::factory;
use zboot::cmd::live;
use zboot::cmd::overlay;
use zboot::cmd::overlay::locate_layout;
use zboot::cmd::push::{parse_to_target, PairedMode};
use zboot::cmd::rollback;
use zboot::cmd::rollback::{default_rollback_name, validate_be_name, RollbackArgs};
use zboot::cmd::snapshot::{
    civil_from_unix, default_snap_name, pick_from_observed, Observed,
};
use zboot::cmd::tools;
use zboot::model::{BootEnvironment, Pool};
use zboot::pools;
use zboot::script::Script;
use zboot::sub;
use zboot::sub::{Answer, Request, Runner, World};
use zboot::zfs_ops;
use zboot::zfs_ops::snapshots_after_bound_pure;

/// A host that plays a part: what its programs answer is set up before, its
/// files are a map, and what it is asked for is kept.
#[derive(Default)]
struct Host {
    /// Exit code, output and error output of a command line.
    programs: BTreeMap<String, (i32, String, String)>,
    files: BTreeMap<String, Vec<u8>>,
    dirs: BTreeSet<String>,
    links: BTreeMap<String, String>,
    vars: BTreeMap<String, String>,
    typed: VecDeque<String>,
    nanos: u128,
    pid: u32,
    /// The command lines, in order.
    calls: Vec<String>,
    /// Their arguments.
    argv: Vec<Vec<String>>,
    said: String,
    traced: String,
    shown_at_most: Option<usize>,
}

impl Host {
    fn answers(mut self, line: &str, rc: i32, stdout: &str, stderr: &str) -> Host {
        self.programs.insert(line.to_owned(), (rc, stdout.to_owned(), stderr.to_owned()));
        self
    }

    fn file(mut self, path: &str, text: &str) -> Host {
        self.files.insert(path.to_owned(), text.as_bytes().to_vec());
        self.make_parents(path);
        self
    }

    fn dir(mut self, path: &str) -> Host {
        self.make_parents(&format!("{path}/x"));
        self
    }

    fn var(mut self, name: &str, value: &str) -> Host {
        self.vars.insert(name.to_owned(), value.to_owned());
        self
    }

    fn types(mut self, line: &str) -> Host {
        self.typed.push_back(line.to_owned());
        self
    }

    fn link(mut self, path: &str, target: &str) -> Host {
        self.links.insert(path.to_owned(), target.to_owned());
        self.make_parents(path);
        self
    }

    fn has_file(&self, path: &str) -> bool {
        match self.links.get(path) {
            Some(target) => {
                let dir = path.rsplit_once('/').map_or("", |x| x.0);
                self.files.contains_key(&format!("{dir}/{target}"))
            }
            None => self.files.contains_key(path),
        }
    }

    fn make_parents(&mut self, path: &str) {
        let parts: Vec<&str> = path.split('/').collect();
        for i in 2..parts.len() {
            self.dirs.insert(parts[..i].join("/"));
        }
    }

    fn play(&mut self, prog: &str, args: &[String]) -> Answer {
        let line = format!("{prog} {}", args.join(" ")).trim_end().to_owned();
        self.calls.push(line.clone());
        self.argv.push(args.to_vec());
        match self.programs.get(&line) {
            Some((rc, out, err)) => Answer {
                rc: *rc,
                stdout: out.clone(),
                stderr: err.clone(),
                bytes: out.clone().into_bytes(),
                error_bytes: err.clone().into_bytes(),
                ..Answer::default()
            },
            None => Answer::default(),
        }
    }

    fn names_in(&self, dir: &str) -> Vec<String> {
        let front = format!("{dir}/");
        let mut names: BTreeSet<String> = BTreeSet::new();
        let all = self.files.keys().chain(self.dirs.iter()).chain(self.links.keys());
        for p in all {
            if let Some(rest) = p.strip_prefix(&front) {
                names.insert(rest.split('/').next().unwrap_or("").to_owned());
            }
        }
        names.into_iter().collect()
    }

    /// Shows no more than `n` texts; those behind them are lost.
    fn shows(mut self, n: usize) -> Host {
        self.shown_at_most = Some(n);
        self
    }

    fn show(&mut self, text: &str) -> Answer {
        if let Some(n) = self.shown_at_most {
            if n == 0 {
                return Answer {
                    failure: Some("Broken pipe (os error 32)".to_owned()),
                    ..Answer::default()
                };
            }
            self.shown_at_most = Some(n - 1);
        }
        self.said.push_str(text);
        Answer::default()
    }
}

fn refused(m: &str) -> Answer {
    Answer { failure: Some(m.to_owned()), ..Answer::default() }
}

fn yes_or_no(yes: bool) -> Answer {
    Answer { yes, ..Answer::default() }
}

impl Runner for Host {
    fn world(&self) -> World {
        unreachable!("only contracts speak of it")
    }

    fn perform(&mut self, q: Request) -> Answer {
        match q {
            Request::Run { prog, args } => self.play(&prog, &args),
            Request::Attend { prog, args } => self.play(&prog, &args),
            Request::RunWith { prog, args, env } => {
                for (k, v) in env {
                    self.vars.insert(k, v);
                }
                self.play(&prog, &args)
            }
            Request::Pipe { prog, args, to_prog, to_args } => {
                let from = self.play(&prog, &args);
                let to = self.play(&to_prog, &to_args);
                Answer { rc: from.rc, to_rc: to.rc, ..Answer::default() }
            }
            Request::Feed { prog, args, input } => {
                self.vars.insert("fed".to_owned(), input);
                self.play(&prog, &args)
            }
            Request::Say { text } => self.show(&format!("{text}\n")),
            Request::Show { text } => self.show(&text),
            Request::Trace { text } => {
                self.traced.push_str(&text);
                self.traced.push('\n');
                Answer::default()
            }
            Request::Forward { bytes } => self.show(&String::from_utf8_lossy(&bytes)),
            Request::ForwardError { bytes } => {
                self.traced.push_str(&String::from_utf8_lossy(&bytes));
                Answer::default()
            }
            Request::Ask => {
                let stdout = self.typed.pop_front().unwrap_or_default();
                Answer { stdout, ..Answer::default() }
            }
            Request::ReadFile { path } => match self.files.get(&path) {
                Some(b) => Answer {
                    stdout: String::from_utf8_lossy(b).into_owned(),
                    ..Answer::default()
                },
                None => refused("No such file or directory (os error 2)"),
            },
            Request::ReadBytes { path } => match self.files.get(&path) {
                Some(b) => Answer { bytes: b.clone(), ..Answer::default() },
                None => refused("No such file or directory (os error 2)"),
            },
            Request::WriteFile { path, bytes } => {
                self.files.insert(path, bytes);
                Answer::default()
            }
            Request::AppendFile { path, bytes } => {
                self.files.entry(path).or_default().extend(bytes);
                Answer::default()
            }
            Request::CopyFile { from, to } => match self.files.get(&from).cloned() {
                Some(b) => {
                    self.files.insert(to, b);
                    Answer::default()
                }
                None => refused("No such file or directory (os error 2)"),
            },
            Request::RenameFile { from, to } => match self.files.remove(&from) {
                Some(b) => {
                    self.files.insert(to, b);
                    Answer::default()
                }
                None => refused("No such file or directory (os error 2)"),
            },
            Request::RemoveFile { path } => {
                self.files.remove(&path);
                Answer::default()
            }
            Request::MakeDirs { path } => {
                self.make_parents(&format!("{path}/x"));
                Answer::default()
            }
            Request::RemoveDir { path } => {
                self.dirs.remove(&path);
                Answer::default()
            }
            Request::RemoveTree { path } => {
                let front = format!("{path}/");
                self.dirs.retain(|d| *d != path && !d.starts_with(&front));
                self.files.retain(|f, _| !f.starts_with(&front));
                Answer::default()
            }
            Request::Exists { path } => yes_or_no(
                self.has_file(&path) || self.dirs.contains(&path),
            ),
            Request::IsFile { path } => yes_or_no(self.has_file(&path)),
            Request::IsDir { path } => yes_or_no(self.dirs.contains(&path)),
            Request::ListDir { path }
            | Request::ListTexts { path }
            | Request::ListUntil { path } => {
                if self.dirs.contains(&path) {
                    Answer { names: self.names_in(&path), ..Answer::default() }
                } else {
                    refused("No such file or directory (os error 2)")
                }
            }
            Request::ReadLink { path } => match self.links.get(&path) {
                Some(t) => Answer { stdout: t.clone(), ..Answer::default() },
                None => refused("Invalid argument (os error 22)"),
            },
            Request::Env { name } => match self.vars.get(&name) {
                Some(v) => Answer { stdout: v.clone(), ..Answer::default() },
                None => refused("environment variable not found"),
            },
            Request::Exe => Answer { stdout: "/usr/bin/zboot".to_owned(), ..Answer::default() },
            Request::Clock => Answer { nanos: self.nanos, ..Answer::default() },
            Request::Pid => Answer { pid: self.pid, ..Answer::default() },
            Request::KeyWithin { millis: _ }
            | Request::TakeKeys
            | Request::LeaveKeys
            | Request::Interactive
            | Request::MakeExecutable { path: _ }
            | Request::Reboot => Answer::default(),
        }
    }
}

// ---------------------------------------------------------------------------
// Arguments
// ---------------------------------------------------------------------------

#[test]
fn split_bare() {
    let (be, snap) = split_be_snap("be1");
    assert_eq!(be, "be1");
    assert!(snap.is_none());
}

#[test]
fn split_with_snap() {
    let (be, snap) = split_be_snap("be1@known-good");
    assert_eq!(be, "be1");
    assert_eq!(snap.as_deref(), Some("known-good"));
}

#[test]
fn split_full_path_with_snap() {
    let (be, snap) = split_be_snap("rpool/ROOT/be1@milestone-3");
    assert_eq!(be, "rpool/ROOT/be1");
    assert_eq!(snap.as_deref(), Some("milestone-3"));
}

#[test]
fn split_full_path_without_snap() {
    let (be, snap) = split_be_snap("rpool/ROOT/be1");
    assert_eq!(be, "rpool/ROOT/be1");
    assert!(snap.is_none());
}

#[test]
fn split_empty_components_pass_through() {
    let (be, snap) = split_be_snap("@snap");
    assert_eq!(be, "@snap");
    assert!(snap.is_none());
    let (be, snap) = split_be_snap("be1@");
    assert_eq!(be, "be1@");
    assert!(snap.is_none());
}

#[test]
fn bare_names_live_on_the_booted_pool() {
    let mut h = Host::default().file("/proc/self/mounts", "tank/ROOT/be1 / zfs rw 0 0\n");
    assert_eq!(resolve_be_dataset(&mut h, "be7").unwrap(), "tank/ROOT/be7");
    assert_eq!(resolve_be_dataset(&mut h, "rpool/ROOT/be7").unwrap(), "rpool/ROOT/be7");
    let mut h = Host::default();
    assert!(resolve_be_dataset(&mut h, "be7").is_err());
}

// ---------------------------------------------------------------------------
// Attaching
// ---------------------------------------------------------------------------

#[test]
fn pool_of_first_component() {
    assert_eq!(pool_of("rpool/home"), "rpool");
    assert_eq!(pool_of("rpool/ROOT/be1"), "rpool");
    assert_eq!(pool_of("rpool"), "rpool");
}

#[test]
fn or_dash_handles_unset_forms() {
    assert_eq!(or_dash(""), "(unset)");
    assert_eq!(or_dash("-"), "(unset)");
    assert_eq!(or_dash("/home"), "/home");
}

// ---------------------------------------------------------------------------
// A shell in another root
// ---------------------------------------------------------------------------

#[test]
fn pick_shell_returns_requested_when_present() {
    let mut tmp = Host::default().file("/mnt/t/bin/bash", "");
    assert_eq!(pick_shell(&mut tmp, "/mnt/t", "/bin/bash"), "/bin/bash");
}

#[test]
fn pick_shell_falls_back_to_sh_when_requested_missing() {
    let mut tmp = Host::default().file("/mnt/t/bin/sh", "");
    assert_eq!(pick_shell(&mut tmp, "/mnt/t", "/bin/bash"), "/bin/sh");
}

#[test]
fn pick_shell_returns_requested_when_neither_present() {
    let mut tmp = Host::default().dir("/mnt/t");
    assert_eq!(pick_shell(&mut tmp, "/mnt/t", "/bin/bash"), "/bin/bash");
}

const BE_TABLE: &str = "zfs get -Hp -o name,property,value zboot:be -t filesystem";

#[test]
fn chroot_takes_all_mounts_away() {
    let mut h = Host::default()
        .answers(BE_TABLE, 0, "rpool/ROOT/be1\tzboot:be\ttrue\nrpool/ROOT/be2\tzboot:be\ttrue\n", "")
        .file("/proc/self/mounts", "rpool/ROOT/be1 / zfs rw 0 0\n")
        .file("/tmp/zboot-chroot-be2/bin/bash", "");
    let args = chroot::ChrootArgs { name: "be2".into(), shell: "/bin/bash".into() };
    assert_eq!(chroot::run(&mut h, &args).unwrap(), 0);
    let n = h.calls.len();
    assert_eq!(
        h.calls[n - 6..].to_vec(),
        vec![
            "setsid -c chroot /tmp/zboot-chroot-be2 /bin/bash",
            "umount -l /tmp/zboot-chroot-be2/sys",
            "umount -l /tmp/zboot-chroot-be2/proc",
            "umount -l /tmp/zboot-chroot-be2/dev/pts",
            "umount -l /tmp/zboot-chroot-be2/dev",
            "umount -l /tmp/zboot-chroot-be2",
        ]
    );
    assert!(!h.dirs.contains("/tmp/zboot-chroot-be2"));
}

#[test]
fn chroot_hands_the_exit_code_on() {
    let mut h = Host::default()
        .answers(BE_TABLE, 0, "rpool/ROOT/be2\tzboot:be\ttrue\n", "")
        .answers("setsid -c chroot /tmp/zboot-chroot-be2 /bin/bash", 3, "", "")
        .file("/tmp/zboot-chroot-be2/bin/bash", "");
    let args = chroot::ChrootArgs { name: "be2".into(), shell: "/bin/bash".into() };
    assert_eq!(chroot::run(&mut h, &args).unwrap(), 3);
    assert!(h.said.ends_with("← exited chroot rc=Some(3)\n"), "{}", h.said);
}

#[test]
fn chroot_refuses_the_live_root() {
    let mut h = Host::default()
        .answers(BE_TABLE, 0, "rpool/ROOT/be1\tzboot:be\ttrue\n", "")
        .file("/proc/self/mounts", "rpool/ROOT/be1 / zfs rw 0 0\n");
    let args = chroot::ChrootArgs { name: "be1".into(), shell: "/bin/bash".into() };
    assert!(chroot::run(&mut h, &args).is_err());
    assert_eq!(h.calls, vec![BE_TABLE]);
}

#[test]
fn chroot_wants_one_of_a_name() {
    let none = chroot::pick_target("", "be1").unwrap_err();
    assert_eq!(
        none.message,
        "chroot: no BE named \"be1\" (looked for datasets with zboot:be=true)"
    );
    let two = chroot::pick_target("a/ROOT/be1\tp\ttrue\nb/ROOT/be1\tp\ttrue\n", "be1").unwrap_err();
    assert_eq!(
        two.message,
        "chroot: BE name \"be1\" is ambiguous across 2 pools; pass the full dataset path instead. Matches: a/ROOT/be1, b/ROOT/be1"
    );
}

// ---------------------------------------------------------------------------
// Pushing
// ---------------------------------------------------------------------------

#[test]
fn parse_to_pool_only_is_bootstrap_paired() {
    let (dst, mode) = parse_to_target("rpool/ROOT/be1", "rpool2").unwrap();
    assert_eq!(dst, "rpool2/ROOT/be1");
    assert!(matches!(mode, PairedMode::BootstrapPaired));
}

#[test]
fn parse_to_full_path_is_adhoc() {
    let (dst, mode) = parse_to_target("rpool/ROOT/be1", "rpool2/ROOT/snapshot-feb").unwrap();
    assert_eq!(dst, "rpool2/ROOT/snapshot-feb");
    assert!(matches!(mode, PairedMode::AdHocUnpaired));
}

#[test]
fn parse_to_bad_path_rejected() {
    assert!(parse_to_target("rpool/ROOT/be1", "rpool2/ZOO/be1").is_err());
    assert!(parse_to_target("rpool/ROOT/be1", "rpool2/ROOT/").is_err());
}

// ---------------------------------------------------------------------------
// Snapshots
// ---------------------------------------------------------------------------

fn pool(name: &str, bootfs: Option<&str>) -> Pool {
    let mut p = Pool::new(name);
    p.bootfs = bootfs.map(str::to_owned);
    p
}

fn be(pool: &str, name: &str) -> BootEnvironment {
    BootEnvironment::new(pool, name)
}

#[test]
fn picks_active_be_dataset() {
    let observed = Observed {
        pools: vec![pool("rpool", Some("rpool/ROOT/be1"))],
        bes: vec![be("rpool", "be1")],
    };
    let snap = pick_from_observed(&observed, "snap-x").unwrap();
    assert_eq!(snap.dataset, "rpool/ROOT/be1");
    assert_eq!(snap.name, "snap-x");
}

#[test]
fn fails_with_no_active_be() {
    let observed = Observed {
        pools: vec![pool("rpool", None)],
        bes: vec![be("rpool", "be1")],
    };
    let err = pick_from_observed(&observed, "snap").unwrap_err();
    assert!(err.message.contains("no active BE"), "{}", err.message);
}

#[test]
fn fails_when_bootfs_does_not_point_at_a_be() {
    let observed = Observed {
        pools: vec![pool("rpool", Some("rpool/ROOT/missing"))],
        bes: vec![be("rpool", "be1")],
    };
    assert!(pick_from_observed(&observed, "snap").is_err());
}

#[test]
fn explicit_name_used_verbatim() {
    let observed = Observed {
        pools: vec![pool("rpool", Some("rpool/ROOT/be1"))],
        bes: vec![be("rpool", "be1")],
    };
    let snap = pick_from_observed(&observed, "my-named-snap").unwrap();
    assert_eq!(snap.name, "my-named-snap");
}

#[test]
fn default_snap_name_format() {
    assert_eq!(default_snap_name(0), "snapshot-19700101T000000Z");
    let name = default_snap_name(1_700_000_000);
    assert!(name.starts_with("snapshot-"));
    assert!(name.ends_with('Z'));
    assert_eq!(name.len(), "snapshot-".len() + "YYYYMMDDTHHMMSSZ".len());
}

#[test]
fn civil_time_of_known_seconds() {
    assert_eq!(civil_from_unix(0), (1970, 1, 1, 0, 0, 0));
    assert_eq!(civil_from_unix(951_782_400), (2000, 2, 29, 0, 0, 0));
    assert_eq!(civil_from_unix(1_700_000_000), (2023, 11, 14, 22, 13, 20));
    assert_eq!(default_snap_name(1_700_000_000), "snapshot-20231114T221320Z");
}

fn pair(name: &str, guid: &str) -> (String, String) {
    (name.to_owned(), guid.to_owned())
}

#[test]
fn after_bound_empty_when_dest_at_bound() {
    let src = vec![pair("rpool/ROOT/be1@A", "1"), pair("rpool/ROOT/be1@B", "2")];
    let dest = vec![pair("rpool2/ROOT/be1@A", "1"), pair("rpool2/ROOT/be1@B", "2")];
    let out = snapshots_after_bound_pure(&src, &dest, "rpool/ROOT/be1@B");
    assert!(out.is_empty());
}

#[test]
fn after_bound_finds_dest_past_bound() {
    let src = vec![
        pair("rpool/ROOT/be1@A", "1"),
        pair("rpool/ROOT/be1@B", "2"),
        pair("rpool/ROOT/be1@C", "3"),
    ];
    let dest = vec![
        pair("rpool2/ROOT/be1@A", "1"),
        pair("rpool2/ROOT/be1@B", "2"),
        pair("rpool2/ROOT/be1@C", "3"),
    ];
    let out = snapshots_after_bound_pure(&src, &dest, "rpool/ROOT/be1@B");
    assert_eq!(out, vec!["rpool2/ROOT/be1@C"]);
}

#[test]
fn after_bound_ignores_anchors() {
    let src = vec![
        pair("rpool/ROOT/be1@A", "1"),
        pair("rpool/ROOT/be1@B", "2"),
        pair("rpool/ROOT/be1@mirror-99", "9"),
        pair("rpool/ROOT/be1@C", "3"),
    ];
    let dest = vec![
        pair("rpool2/ROOT/be1@A", "1"),
        pair("rpool2/ROOT/be1@B", "2"),
        pair("rpool2/ROOT/be1@mirror-99", "9"),
        pair("rpool2/ROOT/be1@C", "3"),
    ];
    let out = snapshots_after_bound_pure(&src, &dest, "rpool/ROOT/be1@B");
    assert_eq!(out, vec!["rpool2/ROOT/be1@C"]);
}

#[test]
fn after_bound_empty_when_bound_not_on_src() {
    let src = vec![pair("rpool/ROOT/be1@A", "1")];
    let dest = vec![pair("rpool2/ROOT/be1@A", "1")];
    let out = snapshots_after_bound_pure(&src, &dest, "rpool/ROOT/be1@missing");
    assert!(out.is_empty());
}

#[test]
fn after_bound_skips_dest_only_snaps() {
    let src = vec![pair("rpool/ROOT/be1@A", "1"), pair("rpool/ROOT/be1@B", "2")];
    let dest = vec![pair("rpool2/ROOT/be1@A", "1"), pair("rpool2/ROOT/be1@X", "99")];
    let out = snapshots_after_bound_pure(&src, &dest, "rpool/ROOT/be1@A");
    assert!(out.is_empty());
}

// ---------------------------------------------------------------------------
// Rolling back
// ---------------------------------------------------------------------------

#[test]
fn default_name_unix_epoch() {
    assert_eq!(default_rollback_name(0), "rollback-19700101T000000Z");
}

#[test]
fn default_name_known_timestamp() {
    let unix = unix_for(2026, 5, 9, 14, 30, 0);
    assert_eq!(default_rollback_name(unix), "rollback-20260509T143000Z");
}

#[test]
fn default_name_format_invariants() {
    let name = default_rollback_name(1_700_000_000);
    assert!(name.starts_with("rollback-"));
    let stamp = &name["rollback-".len()..];
    assert_eq!(stamp.len(), "YYYYMMDDTHHMMSSZ".len());
    assert!(stamp.ends_with('Z'));
    assert_eq!(stamp.chars().nth(8), Some('T'));
}

/// Seconds since the beginning of 1970 for a date and a time.
fn unix_for(year: u64, month: u64, day: u64, hour: u64, minute: u64, second: u64) -> u64 {
    let y_civil = if month <= 2 { year - 1 } else { year };
    let era = y_civil / 400;
    let yoe = y_civil - era * 400;
    let mp = if month > 2 { month - 3 } else { month + 9 };
    let doy = (153 * mp + 2) / 5 + day - 1;
    let doe = yoe * 365 + yoe / 4 - yoe / 100 + doy;
    let days = era * 146_097 + doe - 719_468;
    days * 86_400 + hour * 3600 + minute * 60 + second
}

#[test]
fn validate_be_name_accepts_simple() {
    assert!(validate_be_name("be1").is_ok());
    assert!(validate_be_name("rollback-20260509T143000Z").is_ok());
}

#[test]
fn validate_be_name_rejects_empty() {
    let err = validate_be_name("").unwrap_err();
    assert!(err.message.contains("non-empty"));
}

#[test]
fn validate_be_name_rejects_slash() {
    let err = validate_be_name("ROOT/foo").unwrap_err();
    assert!(err.message.contains("bare BE name"));
}

#[test]
fn validate_be_name_rejects_at() {
    let err = validate_be_name("foo@bar").unwrap_err();
    assert!(err.message.contains("bare BE name"));
}

#[test]
fn happy_path_named_runs_fork_then_switch() {
    let mut h = Host::default()
        .answers(
            "/usr/bin/zboot fork my-rollback --from rpool/ROOT/BE1@snap1",
            0,
            "fork: created BE\n",
            "",
        )
        .answers("/usr/bin/zboot default my-rollback", 0, "switch: bootfs set\n", "");
    rollback::run(
        &mut h,
        &RollbackArgs { to: "rpool/ROOT/BE1@snap1".into(), name: Some("my-rollback".into()) },
    )
    .unwrap();
    assert_eq!(h.calls.len(), 2, "expected fork + switch, got {:?}", h.calls);
    assert_eq!(h.argv[0], vec!["fork", "my-rollback", "--from", "rpool/ROOT/BE1@snap1"]);
    assert_eq!(h.argv[1], vec!["default", "my-rollback"]);
    assert!(h.traced.is_empty());
    assert!(h.said.contains("forking my-rollback from rpool/ROOT/BE1@snap1"), "{}", h.said);
    assert!(h.said.contains("switching to my-rollback"), "{}", h.said);
    assert!(h.said.contains("complete"), "{}", h.said);
}

#[test]
fn default_name_used_when_flag_absent() {
    let mut h = Host::default();
    h.nanos = u128::from(unix_for(2026, 5, 9, 14, 30, 0)) * 1_000_000_000;
    rollback::run(&mut h, &RollbackArgs { to: "rpool/ROOT/BE1@snap1".into(), name: None }).unwrap();
    assert_eq!(h.argv[0][1], "rollback-20260509T143000Z");
    assert_eq!(h.argv[1][1], "rollback-20260509T143000Z");
}

#[test]
fn malformed_to_fails_before_spawning_fork() {
    let mut h = Host::default();
    let err = rollback::run(&mut h, &RollbackArgs { to: "no_at_sign".into(), name: None })
        .unwrap_err();
    assert!(err.message.contains("--to"));
    assert!(h.calls.is_empty(), "fork must not be spawned");
}

#[test]
fn fork_failure_skips_switch_and_propagates_error() {
    let mut h = Host::default().answers(
        "/usr/bin/zboot fork BE2 --from rpool/ROOT/BE1@snap1",
        1,
        "",
        "fork: target dataset already exists: rpool/ROOT/BE2\n",
    );
    let err = rollback::run(
        &mut h,
        &RollbackArgs { to: "rpool/ROOT/BE1@snap1".into(), name: Some("BE2".into()) },
    )
    .unwrap_err();
    let msg = err.message;
    assert!(msg.contains("rollback"), "{msg}");
    assert!(msg.contains("fork"), "{msg}");
    assert!(msg.contains("rc=1"), "{msg}");
    assert_eq!(h.calls.len(), 1, "no switch after fork failure: {:?}", h.calls);
    assert!(!h.traced.contains("not activated"), "no warning on fork failure");
}

#[test]
fn switch_failure_post_fork_warns_and_errors() {
    let mut h = Host::default()
        .answers("/usr/bin/zboot fork rb --from rpool/ROOT/BE1@snap1", 0, "fork: created\n", "")
        .answers("/usr/bin/zboot default rb", 2, "", "switch: zfs failed\n");
    let err = rollback::run(
        &mut h,
        &RollbackArgs { to: "rpool/ROOT/BE1@snap1".into(), name: Some("rb".into()) },
    )
    .unwrap_err();
    let msg = err.message;
    assert!(msg.contains("default"), "{msg}");
    assert!(msg.contains("rc=2"), "{msg}");
    let warnings: Vec<&str> =
        h.traced.lines().filter(|l| !l.contains("switch: zfs failed")).collect();
    assert_eq!(warnings.len(), 1, "{warnings:?}");
    let w = warnings[0];
    assert!(w.contains("not activated"), "{w}");
    assert!(w.contains("rb"), "{w}");
    assert_eq!(h.calls.len(), 2);
    assert_eq!(h.argv[1][0], "default");
}

#[test]
fn invalid_name_rejected_before_fork() {
    let mut h = Host::default();
    let err = rollback::run(
        &mut h,
        &RollbackArgs { to: "rpool/ROOT/BE1@snap1".into(), name: Some("ROOT/foo".into()) },
    )
    .unwrap_err();
    assert!(err.message.contains("bare BE name"));
    assert!(h.calls.is_empty());
}

#[test]
fn run_rejects_malformed_to_via_public_entry() {
    let mut h = Host::default();
    let err = rollback::run(&mut h, &RollbackArgs { to: "missing-at-sign".into(), name: None })
        .unwrap_err();
    assert!(err.message.contains("--to"));
}

// ---------------------------------------------------------------------------
// Overlays
// ---------------------------------------------------------------------------

#[test]
fn layout_flat_rootfs_only() {
    let mut d = Host::default().dir("/tmp/d/rootfs/etc");
    let l = locate_layout(&mut d, "/tmp/d").unwrap();
    assert_eq!(l.rootfs, Some("/tmp/d/rootfs".to_owned()));
    assert_eq!(l.post_install, None);
}

#[test]
fn layout_flat_with_post_install() {
    let mut d = Host::default()
        .dir("/tmp/d/rootfs")
        .file("/tmp/d/post-install.sh", "#!/bin/sh\n");
    let l = locate_layout(&mut d, "/tmp/d").unwrap();
    assert!(l.rootfs.is_some());
    assert!(l.post_install.is_some());
}

#[test]
fn layout_wrapped_in_top_dir() {
    let mut d = Host::default()
        .dir("/tmp/d/data/rootfs/etc")
        .file("/tmp/d/data/post-install.sh", "#!/bin/sh\n");
    let l = locate_layout(&mut d, "/tmp/d").unwrap();
    assert_eq!(l.rootfs, Some("/tmp/d/data/rootfs".to_owned()));
    assert_eq!(l.post_install, Some("/tmp/d/data/post-install.sh".to_owned()));
}

#[test]
fn layout_post_install_only_is_ok() {
    let mut d = Host::default().file("/tmp/d/post-install.sh", "#!/bin/sh\n");
    let l = locate_layout(&mut d, "/tmp/d").unwrap();
    assert!(l.rootfs.is_none());
    assert!(l.post_install.is_some());
}

#[test]
fn layout_empty_errors() {
    let mut d = Host::default().dir("/tmp/d");
    assert!(locate_layout(&mut d, "/tmp/d").is_err());
}

#[test]
fn layout_unknown_top_dir_errors() {
    let mut d = Host::default().dir("/tmp/d/data/somethingelse");
    let e = locate_layout(&mut d, "/tmp/d").unwrap_err();
    assert!(e.message.contains("rootfs"));
    assert!(e.message.ends_with("Got entries: [\"data\"]"), "{}", e.message);
}

fn overlay_args(be: Option<&str>) -> overlay::OverlayArgs {
    overlay::OverlayArgs {
        tar: "/srv/host.tar.zst".into(),
        be: be.map(str::to_owned),
        no_snapshot: false,
    }
}

#[test]
fn overlay_runs_and_cleans_up() {
    let mut h = Host::default()
        .dir("/tmp/zboot-overlay-staging-9/rootfs")
        .file("/tmp/zboot-overlay-staging-9/post-install.sh", "#!/bin/sh\n");
    h.pid = 9;
    h.nanos = 77;
    overlay::run(&mut h, &overlay_args(Some("rpool/ROOT/be1"))).unwrap();
    let mp = "/tmp/zboot-overlay-be-9";
    assert_eq!(h.calls[0], "zfs snapshot rpool/ROOT/be1@overlay-pre-77");
    assert_eq!(h.calls[1], "zstd -dc /srv/host.tar.zst");
    assert!(h.calls.contains(&format!("mount -t zfs -o zfsutil rpool/ROOT/be1 {mp}")));
    assert!(h.calls.contains(&format!("chroot {mp} /tmp/zboot-post-install.sh")));
    assert_eq!(h.calls.last().unwrap(), &format!("umount -l {mp}"));
    assert!(!h.files.contains_key(&format!("{mp}/tmp/zboot-post-install.sh")));
    assert!(!h.dirs.contains("/tmp/zboot-overlay-staging-9"));
    assert!(h.said.ends_with("✓ overlay complete on rpool/ROOT/be1\n"), "{}", h.said);
}

#[test]
fn overlay_cleans_up_after_a_failure() {
    let mut h = Host::default()
        .file("/tmp/zboot-overlay-staging-9/post-install.sh", "#!/bin/sh\n")
        .answers("chroot /tmp/zboot-overlay-be-9 /tmp/zboot-post-install.sh", 3, "", "");
    h.pid = 9;
    let e = overlay::run(&mut h, &overlay_args(Some("rpool/ROOT/be1"))).unwrap_err();
    assert_eq!(e.message, "post-install.sh failed rc=Some(3)");
    assert!(!h.files.contains_key("/tmp/zboot-overlay-be-9/tmp/zboot-post-install.sh"));
    assert_eq!(h.calls.last().unwrap(), "umount -l /tmp/zboot-overlay-be-9");
    assert!(!h.dirs.contains("/tmp/zboot-overlay-staging-9"));
}

#[test]
fn overlay_refuses_the_live_root() {
    let mut h = Host::default().file("/proc/self/mounts", "rpool/ROOT/be1 / zfs rw 0 0\n");
    let e = overlay::run(&mut h, &overlay_args(Some("rpool/ROOT/be1"))).unwrap_err();
    assert!(e.message.contains("is the live `/`"), "{}", e.message);
    assert!(h.calls.is_empty());
}

#[test]
fn overlay_finds_the_only_be() {
    let roles = "zpool get -Hp -o value zboot:role rpool";
    let bes = "zfs get -Hpr -t filesystem -o name,property,value zboot:be rpool";
    let mut h = Host::default()
        .answers("zpool list -Hp -o name", 0, "rpool\ndata\n", "")
        .answers(roles, 0, "root\n", "")
        .answers("zpool get -Hp -o value zboot:role data", 0, "-\n", "")
        .answers(bes, 0, "rpool\tzboot:be\t-\nrpool/ROOT/be1\tzboot:be\ttrue\n", "");
    assert_eq!(overlay::resolve_target(&mut h, &None).unwrap(), "rpool/ROOT/be1");
    let mut h = h.answers(bes, 0, "a\tp\ttrue\nb\tp\ttrue\n", "");
    assert_eq!(
        overlay::resolve_target(&mut h, &None).unwrap_err().message,
        "overlay: target is ambiguous — 2 BEs found: a, b. Pass `--be <full-dataset-path>` to disambiguate."
    );
    let mut h = h.answers(bes, 0, "", "");
    assert!(overlay::resolve_target(&mut h, &None)
        .unwrap_err()
        .message
        .starts_with("overlay: no BEs found"));
    let mut h = h.answers(roles, 0, "-\n", "");
    assert!(overlay::resolve_target(&mut h, &None)
        .unwrap_err()
        .message
        .starts_with("overlay: no `zboot:role=root` pools found"));
    let mut h = h.answers("zpool list -Hp -o name", 0, "", "");
    assert_eq!(
        overlay::resolve_target(&mut h, &None).unwrap_err().message,
        "overlay: no pools imported (run `zpool import` first)"
    );
}

// ---------------------------------------------------------------------------
// Images
// ---------------------------------------------------------------------------

fn live_args(output: Option<&str>) -> live::LiveArgs {
    live::LiveArgs {
        output: output.map(str::to_owned),
        suite: "testing".into(),
        packages: vec![],
        hooks_dir: None,
        includes_dir: None,
        zfs_from_suite: "sid".into(),
        no_menu: false,
    }
}

#[test]
fn resolve_output_explicit_path_creates_dir() {
    let mut h = Host::default();
    let args = live_args(Some("/tmp/t/subdir"));
    let resolved = live::resolve_output(&mut h, &args.output).unwrap();
    assert_eq!(resolved, "/tmp/t/subdir");
    assert!(h.dirs.contains(&resolved), "explicit --output dir should be created");
}

#[test]
fn images_go_to_the_cache() {
    let mut h = Host::default().var("HOME", "/home/op");
    assert_eq!(live::resolve_output(&mut h, &None).unwrap(), "/home/op/.cache/zboot/pxe");
    assert_eq!(
        factory::resolve_output(&mut h, &None).unwrap(),
        "/home/op/.cache/zboot/factory.tar.zst"
    );
    assert!(h.dirs.contains("/home/op/.cache/zboot"));
    let mut h = Host::default();
    assert_eq!(live::resolve_output(&mut h, &None).unwrap_err().message, "HOME env var not set");
}

#[test]
fn live_builds_and_brings_the_loader() {
    let mut h = Host::default()
        .var("PATH", "/opt/bin:/usr/bin")
        .file("/opt/bin/lb", "")
        .file("/bin/sudo", "");
    h.pid = 4;
    live::run(&mut h, &live_args(Some("/srv/pxe")), "echo hi\n", &[1, 2, 3]).unwrap();
    assert_eq!(h.calls, vec!["bash /tmp/zboot-debian-live-4.sh"]);
    assert_eq!(h.vars["OUTPUT_DIR"], "/srv/pxe");
    assert_eq!(h.vars["GENERATE_MENU"], "1");
    assert_eq!(h.files["/srv/pxe/zboot-boot.efi"], vec![1, 2, 3]);
    assert!(!h.files.contains_key("/tmp/zboot-debian-live-4.sh"));
    assert!(h.said.contains("  + zboot-boot.efi  (3 B, from embedded copy)\n"), "{}", h.said);
    assert!(h.said.ends_with("✓ minimal debian live ready: /srv/pxe/\n"), "{}", h.said);
}

#[test]
fn live_tells_all_that_is_missing() {
    let mut h = Host::default();
    let e = live::run(&mut h, &live_args(Some("/srv/pxe")), "", &[1]).unwrap_err();
    assert!(
        e.message.starts_with("prereqs missing:\n  - lb (apt install live-build)\n  - sudo\n\n"),
        "{}",
        e.message
    );
    assert!(h.dirs.is_empty());
}

fn factory_args() -> factory::FactoryArgs {
    factory::FactoryArgs {
        output: Some("/srv/f.tar.zst".into()),
        suite: "trixie".into(),
        packages: vec!["a".into(), "b".into()],
        no_headers: true,
        zfs_from_suite: None,
    }
}

fn builder() -> Host {
    let mut h = Host::default().file("/proc/self/status", "Name:\tz\nUid:\t1000\t0\t0\t0\n");
    for tool in ["debootstrap", "chroot", "mount", "umount", "tar"] {
        h = h.file(&format!("/usr/sbin/{tool}"), "");
    }
    h.pid = 4;
    h
}

#[test]
fn factory_builds() {
    let mut h = builder();
    factory::run(&mut h, &factory_args(), "echo hi\n").unwrap();
    assert_eq!(h.calls, vec!["bash /tmp/zboot-factory-tar-4.sh"]);
    assert_eq!(h.vars["EXTRA_PACKAGES"], "a b");
    assert_eq!(h.vars["NO_HEADERS"], "1");
    assert_eq!(h.vars["ZBOOT_BIN"], "/usr/bin/zboot");
    assert!(h.said.ends_with("✓ factory tar ready: /srv/f.tar.zst\n"), "{}", h.said);
    let mut h = builder().answers("bash /tmp/zboot-factory-tar-4.sh", 7, "", "");
    assert_eq!(
        factory::run(&mut h, &factory_args(), "echo hi\n").unwrap_err().message,
        "factory tar build failed (rc=Some(7))"
    );
}

#[test]
fn factory_needs_root_and_its_tools() {
    let mut h = builder().file("/proc/self/status", "Uid:\t0\t1000\t0\t0\n");
    let e = factory::check_prereqs(&mut h).unwrap_err();
    assert!(e.message.starts_with("needs root"), "{}", e.message);
    let mut h = builder();
    h.files.remove("/usr/sbin/tar");
    let e = factory::check_prereqs(&mut h).unwrap_err();
    assert!(e.message.starts_with("prereqs missing:\n  - tar (core util)\n\n"), "{}", e.message);
}

#[test]
fn root_is_the_effective_user() {
    assert!(tools::status_is_root("Uid:\t1000\t0\t0\t0\n"));
    assert!(!tools::status_is_root("Uid:\t0\t1000\t0\t0\n"));
    assert!(!tools::status_is_root("Uid:\t0\n"));
    assert!(!tools::status_is_root(""));
}

// ---------------------------------------------------------------------------
// Commands
// ---------------------------------------------------------------------------

#[test]
fn mutating_commands_are_shown() {
    let mut h = Host::default().answers("zfs destroy a", 1, "", "no such dataset\n");
    sub::cmd(&mut h, "zfs", &["create", "a"]).unwrap();
    assert!(format!("{}{}", h.said, h.traced).contains("+ zfs create a\n"));
    let e = sub::cmd(&mut h, "zfs", &["destroy", "a"]).unwrap_err();
    assert!(e.message.contains("no such dataset"), "{}", e.message);
    let mut h = Host::default().answers("zfs list", 0, "x", "");
    assert_eq!(sub::zfs_capture(&mut h, &["list"]).unwrap(), "x");
    assert!(h.said.is_empty() && h.traced.is_empty());
}

#[test]
fn rollback_tells_of_a_lost_line() {
    let args = RollbackArgs { to: "rpool/ROOT/BE1@snap1".into(), name: Some("rb".into()) };
    let mut h = Host::default().shows(0);
    let err = rollback::run(&mut h, &args).unwrap_err();
    assert_eq!(err.message, "write: Broken pipe (os error 32)");
    assert!(h.calls.is_empty(), "{:?}", h.calls);
    let mut h = Host::default().shows(1);
    let err = rollback::run(&mut h, &args).unwrap_err();
    assert!(err.message.ends_with("write: Broken pipe (os error 32)"), "{}", err.message);
    assert_eq!(h.calls, vec!["/usr/bin/zboot fork rb --from rpool/ROOT/BE1@snap1"]);
}

#[test]
fn default_names_sort_as_their_instants() {
    let instants: [u64; 8] =
        [0, 1, 59, 86_399, 86_400, 951_782_400, 4_102_444_800, 253_402_300_799];
    for pair in instants.windows(2) {
        let (a, b) = (default_snap_name(pair[0]), default_snap_name(pair[1]));
        assert!(a < b, "{a} {b}");
        assert!(!b.contains([':', '/', '@']), "{b}");
    }
    assert_eq!(default_snap_name(253_402_300_799), "snapshot-99991231T235959Z");
}

#[test]
fn a_pool_is_imported_on_the_terminal() {
    let mut s = Script::new(vec![
        Answer { stdout: "rpool\n".to_owned(), ..Answer::default() },
        Answer { stdout: "on\n".to_owned(), ..Answer::default() },
    ]);
    pools::ensure_pool_imported_rw(&mut s, "rpool").unwrap();
    assert_eq!(s.calls.len(), 4);
    assert!(matches!(s.calls[0], Request::Run { .. }));
    assert!(matches!(s.calls[1], Request::Run { .. }));
    let attended: Vec<String> = s.calls[2..]
        .iter()
        .map(|c| match c {
            Request::Attend { prog, args } => format!("{prog} {}", args.join(" ")),
            other => format!("{other:?}"),
        })
        .collect();
    assert_eq!(attended, vec!["zpool export rpool", "zpool import -N -f rpool"]);
}

#[test]
fn a_program_that_does_not_start_is_named() {
    let missing = "No such file or directory (os error 2)";
    let mut s = Script::new(vec![refused(missing)]);
    let err = pools::currently_imported(&mut s).unwrap_err();
    assert_eq!(err.message, format!("spawn `zpool list`: {missing}"));
    let mut s = Script::new(vec![refused(missing)]);
    let err = sub::capture(&mut s, "zfs", &["get", "all"]).unwrap_err();
    assert_eq!(err.message, format!("spawning `zfs get all`: {missing}"));
    assert_eq!(err.outermost, "spawning `zfs get all`");
}

#[test]
fn output_that_is_no_text_is_refused_or_mended() {
    let fault = "invalid utf-8 sequence of 1 bytes from index 2";
    let garbled = || Answer {
        stdout: "on\u{fffd}\n".to_owned(),
        garbled: Some(fault.to_owned()),
        ..Answer::default()
    };
    let mut s = Script::new(vec![garbled()]);
    let err = zfs_ops::dataset_property(&mut s, "rpool/a", "readonly").unwrap_err();
    assert_eq!(err.message, format!("non-utf8 from zfs get: {fault}"));
    assert_eq!(err.outermost, "non-utf8 from zfs get");
    let mut s = Script::new(vec![garbled()]);
    let err = zfs_ops::pool_property(&mut s, "rpool", "bootfs").unwrap_err();
    assert_eq!(err.message, format!("non-utf8 from zpool get: {fault}"));
    let mut s = Script::new(vec![garbled()]);
    let err = zfs_ops::list_snapshots_with_guids(&mut s, "rpool/a").unwrap_err();
    assert_eq!(err.message, format!("non-utf8: {fault}"));
    let mut s = Script::new(vec![garbled()]);
    assert_eq!(pools::currently_imported(&mut s).unwrap(), vec!["on\u{fffd}"]);
    let mut s = Script::new(vec![Answer { rc: 1, stderr: "no\n".to_owned(), ..garbled() }]);
    let err = zfs_ops::dataset_property(&mut s, "rpool/a", "readonly").unwrap_err();
    assert_eq!(err.message, "zfs get readonly rpool/a rc=Some(1): no");
}
