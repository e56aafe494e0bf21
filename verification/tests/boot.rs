#![allow(dead_code)]

use std::collections::{BTreeMap, BTreeSet, VecDeque};

use zboot::boot::completion::{word_under_cursor, ShellHelper};
use zboot::boot::discover::{
    assemble, enumerate_kernels, extract_bes, forest_from_payload, BeJson, BeRecord, DiscoverV1,
    KernelEntry, PoolJson,
};
use zboot::boot::kexec::{
    build_cmdline, compose_cmdline, decide_gate, decode_hostid, gate_from_environment,
    handoff_with_gate, plan, plan_with_kernel, Gate, KexecBackend, KexecPlan, Load, Outcome, RecordingBackend,
    SystemKexec,
};
use zboot::boot::menu;
use zboot::boot::menu::{
    build_rows, build_targets, countdown_then_halt, default_target_idx, fake_payload,
    kernel_version_label, pair_initrd_for_display, print_target_menu, render_plain,
    render_targets_plain, Next, RowKind,
};
use zboot::boot::preinit;
use zboot::boot::shell;
use zboot::boot::shell::{
    ensure_pool_rw, help_for, resolve_be, resolve_pick, tokenize, verb_boot, verb_help, verb_list,
    verb_ls, BootTarget, KernelChoice,
};
use zboot::error::Error;
use zboot::model::{
    parse_zfs_get, parse_zpool_list, BootEnvironment, BoundList, Forest, Pool, PoolRole,
    SnapshotRef,
};
use zboot::state::annotate_pool_roles;
use zboot::sub::{Answer, Request, Runner, World};
use zboot::version::{is_newer, is_older, sort_newest_first};

/// A host that plays a part: what its programs answer is set up before, its
/// files are a map, and what it is asked for is kept.
#[derive(Default)]
struct Host {
    /// Exit code, output and error output of a command line.
    programs: BTreeMap<String, (i32, String, String)>,
    files: BTreeMap<String, Vec<u8>>,
    dirs: BTreeSet<String>,
    links: BTreeMap<String, String>,
    vars: BTreeMap<String, String>,
    typed: VecDeque<String>,
    nanos: u128,
    pid: u32,
    /// The command lines, in order.
    calls: Vec<String>,
    /// Their arguments.
    argv: Vec<Vec<String>>,
    said: String,
    traced: String,
    shown_at_most: Option<usize>,
}

impl Host {
    fn answers(mut self, line: &str, rc: i32, stdout: &str, stderr: &str) -> Host {
        self.programs.insert(line.to_owned(), (rc, stdout.to_owned(), stderr.to_owned()));
        self
    }

    fn file(mut self, path: &str, text: &str) -> Host {
        self.files.insert(path.to_owned(), text.as_bytes().to_vec());
        self.make_parents(path);
        self
    }

    fn dir(mut self, path: &str) -> Host {
        self.make_parents(&format!("{path}/x"));
        self
    }

    fn var(mut self, name: &str, value: &str) -> Host {
        self.vars.insert(name.to_owned(), value.to_owned());
        self
    }

    fn types(mut self, line: &str) -> Host {
        self.typed.push_back(line.to_owned());
        self
    }

    fn link(mut self, path: &str, target: &str) -> Host {
        self.links.insert(path.to_owned(), target.to_owned());
        self.make_parents(path);
        self
    }

    fn has_file(&self, path: &str) -> bool {
        match self.links.get(path) {
            Some(target) => {
                let dir = path.rsplit_once('/').map_or("", |x| x.0);
                self.files.contains_key(&format!("{dir}/{target}"))
            }
            None => self.files.contains_key(path),
        }
    }

    fn make_parents(&mut self, path: &str) {
        let parts: Vec<&str> = path.split('/').collect();
        for i in 2..parts.len() {
            self.dirs.insert(parts[..i].join("/"));
        }
    }

    fn play(&mut self, prog: &str, args: &[String]) -> Answer {
        let line = format!("{prog} {}", args.join(" ")).trim_end().to_owned();
        self.calls.push(line.clone());
        self.argv.push(args.to_vec());
        match self.programs.get(&line) {
            Some((rc, out, err)) => Answer {
                rc: *rc,
                stdout: out.clone(),
                stderr: err.clone(),
                bytes: out.clone().into_bytes(),
                error_bytes: err.clone().into_bytes(),
                ..Answer::default()
            },
            None => Answer::default(),
        }
    }

    fn names_in(&self, dir: &str) -> Vec<String> {
        let front = format!("{dir}/");
        let mut names: BTreeSet<String> = BTreeSet::new();
        let all = self.files.keys().chain(self.dirs.iter()).chain(self.links.keys());
        for p in all {
            if let Some(rest) = p.strip_prefix(&front) {
                names.insert(rest.split('/').next().unwrap_or("").to_owned());
            }
        }
        names.into_iter().collect()
    }

    /// Shows no more than `n` texts; those behind them are lost.
    fn shows(mut self, n: usize) -> Host {
        self.shown_at_most = Some(n);
        self
    }

    fn show(&mut self, text: &str) -> Answer {
        if let Some(n) = self.shown_at_most {
            if n == 0 {
                return Answer {
                    failure: Some("Broken pipe (os error 32)".to_owned()),
                    ..Answer::default()
                };
            }
            self.shown_at_most = Some(n - 1);
        }
        self.said.push_str(text);
        Answer::default()
    }
}

fn refused(m: &str) -> Answer {
    Answer { failure: Some(m.to_owned()), ..Answer::default() }
}

fn yes_or_no(yes: bool) -> Answer {
    Answer { yes, ..Answer::default() }
}

impl Runner for Host {
    fn world(&self) -> World {
        unreachable!("only contracts speak of it")
    }

    fn perform(&mut self, q: Request) -> Answer {
        match q {
            Request::Run { prog, args } => self.play(&prog, &args),
            Request::Attend { prog, args } => self.play(&prog, &args),
            Request::RunWith { prog, args, env } => {
                for (k, v) in env {
                    self.vars.insert(k, v);
                }
                self.play(&prog, &args)
            }
            Request::Pipe { prog, args, to_prog, to_args } => {
                let from = self.play(&prog, &args);
                let to = self.play(&to_prog, &to_args);
                Answer { rc: from.rc, to_rc: to.rc, ..Answer::default() }
            }
            Request::Feed { prog, args, input } => {
                self.vars.insert("fed".to_owned(), input);
                self.play(&prog, &args)
            }
            Request::Say { text } => self.show(&format!("{text}\n")),
            Request::Show { text } => self.show(&text),
            Request::Trace { text } => {
                self.traced.push_str(&text);
                self.traced.push('\n');
                Answer::default()
            }
            Request::Forward { bytes } => self.show(&String::from_utf8_lossy(&bytes)),
            Request::ForwardError { bytes } => {
                self.traced.push_str(&String::from_utf8_lossy(&bytes));
                Answer::default()
            }
            Request::Ask => {
                let stdout = self.typed.pop_front().unwrap_or_default();
                Answer { stdout, ..Answer::default() }
            }
            Request::ReadFile { path } => match self.files.get(&path) {
                Some(b) => Answer {
                    stdout: String::from_utf8_lossy(b).into_owned(),
                    ..Answer::default()
                },
                None => refused("No such file or directory (os error 2)"),
            },
            Request::ReadBytes { path } => match self.files.get(&path) {
                Some(b) => Answer { bytes: b.clone(), ..Answer::default() },
                None => refused("No such file or directory (os error 2)"),
            },
            Request::WriteFile { path, bytes } => {
                self.files.insert(path, bytes);
                Answer::default()
            }
            Request::AppendFile { path, bytes } => {
                self.files.entry(path).or_default().extend(bytes);
                Answer::default()
            }
            Request::CopyFile { from, to } => match self.files.get(&from).cloned() {
                Some(b) => {
                    self.files.insert(to, b);
                    Answer::default()
                }
                None => refused("No such file or directory (os error 2)"),
            },
            Request::RenameFile { from, to } => match self.files.remove(&from) {
                Some(b) => {
                    self.files.insert(to, b);
                    Answer::default()
                }
                None => refused("No such file or directory (os error 2)"),
            },
            Request::RemoveFile { path } => {
                self.files.remove(&path);
                Answer::default()
            }
            Request::MakeDirs { path } => {
                self.make_parents(&format!("{path}/x"));
                Answer::default()
            }
            Request::RemoveDir { path } => {
                self.dirs.remove(&path);
                Answer::default()
            }
            Request::RemoveTree { path } => {
                let front = format!("{path}/");
                self.dirs.retain(|d| *d != path && !d.starts_with(&front));
                self.files.retain(|f, _| !f.starts_with(&front));
                Answer::default()
            }
            Request::Exists { path } => yes_or_no(
                self.has_file(&path) || self.dirs.contains(&path),
            ),
            Request::IsFile { path } => yes_or_no(self.has_file(&path)),
            Request::IsDir { path } => yes_or_no(self.dirs.contains(&path)),
            Request::ListDir { path }
            | Request::ListTexts { path }
            | Request::ListUntil { path } => {
                if self.dirs.contains(&path) {
                    Answer { names: self.names_in(&path), ..Answer::default() }
                } else {
                    refused("No such file or directory (os error 2)")
                }
            }
            Request::ReadLink { path } => match self.links.get(&path) {
                Some(t) => Answer { stdout: t.clone(), ..Answer::default() },
                None => refused("Invalid argument (os error 22)"),
            },
            Request::Env { name } => match self.vars.get(&name) {
                Some(v) => Answer { stdout: v.clone(), ..Answer::default() },
                None => refused("environment variable not found"),
            },
            Request::Exe => Answer { stdout: "/usr/bin/zboot".to_owned(), ..Answer::default() },
            Request::Clock => Answer { nanos: self.nanos, ..Answer::default() },
            Request::Pid => Answer { pid: self.pid, ..Answer::default() },
            Request::KeyWithin { millis: _ }
            | Request::TakeKeys
            | Request::LeaveKeys
            | Request::Interactive
            | Request::MakeExecutable { path: _ }
            | Request::Reboot => Answer::default(),
        }
    }
}

// ---------------------------------------------------------------------------
// The menu
// ---------------------------------------------------------------------------

fn be(pool: &str, name: &str, origin: Option<&str>) -> BootEnvironment {
    let mut b = BootEnvironment::new(pool, name);
    b.origin = origin.and_then(SnapshotRef::parse);
    b
}

fn forest(bes: Vec<BootEnvironment>) -> Forest {
    Forest::from_origins(bes)
}

// --- build_rows / build_rows_with_active (legacy lineage layout) -------

#[test]
fn empty_forest_yields_no_rows() {
    assert!(build_rows(&forest(vec![]), None).is_empty());
}

#[test]
fn single_be_yields_header_and_row() {
    let f = forest(vec![be("rpool", "be1", None)]);
    let rows = build_rows(&f, Some("rpool/ROOT/be1"));
    assert_eq!(rows.len(), 2);
    assert_eq!(rows[0].kind, RowKind::Header);
    assert_eq!(rows[0].pool, "rpool");
    assert_eq!(rows[1].kind, RowKind::Be);
    assert_eq!(rows[1].label, "be1");
    assert!(rows[1].active);
}

#[test]
fn pools_sort_alphabetically() {
    let f = forest(vec![be("rpool", "be1", None), be("dpool", "be1", None)]);
    let rows = build_rows(&f, None);
    let pool_headers: Vec<&str> = rows
        .iter()
        .filter(|r| r.kind == RowKind::Header)
        .map(|r| r.pool.as_str())
        .collect();
    assert_eq!(pool_headers, vec!["dpool", "rpool"]);
}

#[test]
fn lineage_indents_under_parent() {
    let f = forest(vec![
        be("rpool", "be1", None),
        be("rpool", "be2", Some("rpool/ROOT/be1@snap1")),
    ]);
    let rows = build_rows(&f, Some("rpool/ROOT/be1"));
    assert_eq!(rows.len(), 3);
    let be1_prefix_len = rows[1].prefix.len();
    let be2_prefix_len = rows[2].prefix.len();
    assert!(
        be2_prefix_len > be1_prefix_len,
        "be2 ({be2_prefix_len}) should be more deeply indented than be1 ({be1_prefix_len})"
    );
}

#[test]
fn lineage_depth_two() {
    let f = forest(vec![
        be("rpool", "be1", None),
        be("rpool", "be2", Some("rpool/ROOT/be1@snap1")),
        be("rpool", "be3", Some("rpool/ROOT/be2@snap1")),
    ]);
    let rows = build_rows(&f, None);
    assert_eq!(rows.len(), 4);
    let prefixes: Vec<usize> = rows
        .iter()
        .filter(|r| r.kind == RowKind::Be)
        .map(|r| r.prefix.len())
        .collect();
    assert_eq!(prefixes.len(), 3);
    assert!(prefixes[0] < prefixes[1] && prefixes[1] < prefixes[2]);
}

#[test]
fn external_origin_is_local_root() {
    let f = forest(vec![be("dpool", "recovery", Some("dpool/foreign@x"))]);
    let rows = build_rows(&f, None);
    assert_eq!(rows.len(), 2);
    assert_eq!(rows[1].label, "recovery");
    assert!(rows[1].prefix.contains("└── "));
}

#[test]
fn cross_pool_origin_does_not_nest_across_pools() {
    let f = forest(vec![
        be("rpool", "be1", None),
        be("rpool2", "mirror", Some("rpool/ROOT/be1@snap1")),
    ]);
    let rows = build_rows(&f, None);
    let pool_headers: Vec<&str> = rows
        .iter()
        .filter(|r| r.kind == RowKind::Header)
        .map(|r| r.pool.as_str())
        .collect();
    assert_eq!(pool_headers, vec!["rpool", "rpool2"]);
    let mirror = rows.iter().find(|r| r.label == "mirror").unwrap();
    assert!(
        mirror.prefix.starts_with("  └── "),
        "expected mirror at top-level, got prefix {:?}",
        mirror.prefix
    );
}

#[test]
fn active_marker_only_on_bootfs_dataset() {
    let f = forest(vec![
        be("rpool", "be1", None),
        be("rpool", "be2", Some("rpool/ROOT/be1@snap1")),
    ]);
    let rows = build_rows(&f, Some("rpool/ROOT/be2"));
    let be1 = rows.iter().find(|r| r.label == "be1").unwrap();
    let be2 = rows.iter().find(|r| r.label == "be2").unwrap();
    assert!(!be1.active);
    assert!(be2.active);
}

#[test]
fn sibling_connectors_use_branch_then_corner() {
    let f = forest(vec![
        be("rpool", "be1", None),
        be("rpool", "be2", Some("rpool/ROOT/be1@snap1")),
        be("rpool", "be1-staging", Some("rpool/ROOT/be1@snap1")),
    ]);
    let rows = build_rows(&f, None);
    let staging = rows.iter().find(|r| r.label == "be1-staging").unwrap();
    let be2 = rows.iter().find(|r| r.label == "be2").unwrap();
    assert!(staging.prefix.contains("├── "), "{:?}", staging.prefix);
    assert!(be2.prefix.contains("└── "), "{:?}", be2.prefix);
}

#[test]
fn plain_render_contains_dataset_paths() {
    let f = forest(vec![be("rpool", "be1", None)]);
    let rows = build_rows(&f, Some("rpool/ROOT/be1"));
    let mut h = Host::default();
    render_plain(&mut h, &rows).unwrap();
    let s = h.said;
    assert!(s.contains("pool rpool:"), "{s}");
    assert!(s.contains("* be1"), "{s}");
    assert!(s.contains("zboot-boot menu"), "{s}");
}

#[test]
fn plain_render_empty_emits_explicit_message() {
    let mut h = Host::default();
    render_plain(&mut h, &vec![]).unwrap();
    let s = h.said;
    assert!(s.contains("no boot environments"), "{s}");
}

// --- build_targets + print_target_menu --------------------------------

#[test]
fn fake_payload_has_expected_shape() {
    let payload = fake_payload();
    let targets = build_targets(&payload);
    // BE-level numbering: 3 BEs (be1, be2, be3) → 3 BootTargets.
    assert_eq!(targets.len(), 3);
    let idxs: Vec<usize> = targets.iter().map(|t| t.idx).collect();
    assert_eq!(idxs, vec![1, 2, 3]);
    // Pool grouping: 2 BEs in rpool, 1 in rpool2.
    let pools: Vec<&str> = targets.iter().map(|t| t.pool.as_str()).collect();
    assert_eq!(pools, vec!["rpool", "rpool", "rpool2"]);
    // be1 has 3 kernels in the fake payload.
    assert_eq!(targets[0].kernels.len(), 3);
    // be1 is active (matches rpool/bootfs).
    assert!(targets[0].is_active);
}

#[test]
fn build_targets_synthesizes_target_for_be_without_kernels() {
    // BE with kernels=[] gets one BootTarget with a single synthetic
    // vmlinuz/initrd.img kernel so the menu still shows it; kexec
    // will surface the missing file at handoff time if it's not
    // actually there.
    let payload = DiscoverV1 {
        pools: vec![PoolJson {
            name: "rpool".into(),
            role: "root".into(),
            bootfs: Some("rpool/ROOT/be1".into()),
            guid: None,
        }],
        bes: vec![BeJson {
            pool: "rpool".into(),
            dataset: "rpool/ROOT/be1".into(),
            name: "be1".into(),
            origin: None,
            active: true,
            readonly: false,
            bound_to: vec![],
            kernels: vec![],
            mount_root: None,
        }],
    };
    let targets = build_targets(&payload);
    assert_eq!(targets.len(), 1);
    assert_eq!(targets[0].kernels.len(), 1);
    assert_eq!(targets[0].kernels[0].vmlinuz, "vmlinuz");
    assert_eq!(targets[0].kernels[0].initrd, "initrd.img");
    assert!(targets[0].kernels[0].is_default);
    assert!(targets[0].is_active);
}

#[test]
fn print_target_menu_matches_design_shape() {
    let targets = build_targets(&fake_payload());
    let mut h = Host::default();
    print_target_menu(&mut h, &targets).unwrap();
    let s = h.said;

    // Banner + numbered BE rows + tree connectors per DESIGN.md.
    assert!(s.contains("zboot-boot"), "{s}");
    assert!(s.contains("1)"), "{s}");
    assert!(s.contains("rpool/ROOT/be1"), "{s}");
    // Tree connectors `├` / `└` and version annotations.
    assert!(s.contains("├ "), "{s}");
    assert!(s.contains("└ "), "{s}");
    assert!(s.contains("(default)"), "{s}");
    assert!(s.contains("(prev)"), "{s}");
    // Pool separator between rpool and rpool2.
    assert!(s.contains("─────────────────────────────────"), "{s}");
    // BE-level numbering stops at 3 (three BEs across two pools).
    assert!(s.contains("3)"), "{s}");
    assert!(!s.contains("5)"), "{s}");
    // Active BE gets the `*` marker.
    assert!(s.contains("1) * rpool/ROOT/be1"), "{s}");
}

#[test]
fn default_target_idx_picks_active_be() {
    let targets = build_targets(&fake_payload());
    let i = default_target_idx(&targets);
    // fake_payload marks rpool/ROOT/be1 active.
    assert_eq!(targets[i].dataset, "rpool/ROOT/be1");
    assert!(targets[i].is_active);
}

#[test]
fn kernel_version_label_handles_three_shapes() {
    assert_eq!(kernel_version_label("vmlinuz"), "");
    assert_eq!(kernel_version_label("vmlinuz.old"), "(prev)");
    assert_eq!(kernel_version_label("vmlinuz-6.13.0"), "6.13.0");
}

#[test]
fn pair_initrd_for_display_mirrors_discover() {
    assert_eq!(pair_initrd_for_display("vmlinuz"), "initrd.img");
    assert_eq!(pair_initrd_for_display("vmlinuz.old"), "initrd.img.old");
    assert_eq!(
        pair_initrd_for_display("vmlinuz-6.13.0"),
        "initrd.img-6.13.0",
    );
}

#[test]
fn render_targets_plain_includes_banner_and_rows() {
    let targets = build_targets(&fake_payload());
    let mut h = Host::default();
    render_targets_plain(&mut h, &targets).unwrap();
    let s = h.said;
    assert!(s.contains("plain text"), "{s}");
    assert!(s.contains("rpool/ROOT/be1"), "{s}");
    assert!(s.contains("rpool2/ROOT/be3"), "{s}");
}

// ---------------------------------------------------------------------------
// What is found
// ---------------------------------------------------------------------------

fn pool(name: &str, role: Option<PoolRole>, bootfs: Option<&str>) -> Pool {
    let mut p = Pool::new(name);
    p.role = role;
    p.bootfs = bootfs.map(str::to_owned);
    p.guid = Some(42);
    p
}

// --- empty payload ------------------------------------------------------

#[test]
fn empty_payload_has_no_pools_or_bes() {
    let v1 = assemble(&vec![], &vec![]);
    assert!(v1.pools.is_empty());
    assert!(v1.bes.is_empty());
}

// --- annotate_pool_roles ------------------------------------------------

#[test]
fn annotate_pool_roles_sets_root() {
    let mut pools = vec![pool("rpool", None, None), pool("dpool", None, None)];
    let role_text = "rpool\tzboot:role\troot\n";
    let props = parse_zfs_get(role_text).unwrap();
    annotate_pool_roles(&mut pools, &props);
    assert_eq!(pools[0].role, Some(PoolRole::Root));
    assert_eq!(pools[1].role, None);
}

// --- extract_bes --------------------------------------------------------

#[test]
fn extract_bes_marks_be_dataset() {
    let datasets = vec![
        "rpool".to_owned(),
        "rpool/ROOT".to_owned(),
        "rpool/ROOT/be1".to_owned(),
    ];
    let text = "\
rpool/ROOT/be1\tzboot:be\ttrue
rpool/ROOT/be1\torigin\t-
rpool/ROOT/be1\tzboot:attached-to\t-
";
    let props = parse_zfs_get(text).unwrap();
    let recs = extract_bes("rpool", &datasets, &props);
    assert_eq!(recs.len(), 3);
    let be1 = recs.iter().find(|r| r.dataset == "rpool/ROOT/be1").unwrap();
    assert!(be1.is_be);
    assert_eq!(be1.origin, None);
    assert!(be1.bound_to.is_empty());
    // Container datasets remain not-BE.
    assert!(!recs.iter().find(|r| r.dataset == "rpool").unwrap().is_be);
}

#[test]
fn extract_bes_captures_origin_and_bound_to() {
    let datasets = vec!["rpool/ROOT/be2".to_owned()];
    let text = "\
rpool/ROOT/be2\tzboot:be\ttrue
rpool/ROOT/be2\torigin\trpool/ROOT/be1@snap1
rpool/ROOT/be2\tzboot:attached-to\trpool:be1,rpool:be2
";
    let props = parse_zfs_get(text).unwrap();
    let recs = extract_bes("rpool", &datasets, &props);
    assert_eq!(recs.len(), 1);
    let r = &recs[0];
    assert!(r.is_be);
    assert_eq!(r.origin.as_deref(), Some("rpool/ROOT/be1@snap1"));
    assert_eq!(r.bound_to.0.len(), 2);
}

// --- assemble: single BE ----------------------------------------------

#[test]
fn assemble_state_fresh_shape() {
    let pools = vec![pool("rpool", Some(PoolRole::Root), Some("rpool/ROOT/be1"))];
    let records = vec![BeRecord {
        pool: "rpool".into(),
        dataset: "rpool/ROOT/be1".into(),
        is_be: true,
        origin: None,
        bound_to: BoundList::new(),
        readonly: false,
    }];
    let v1 = assemble(&pools, &records);
    assert_eq!(v1.pools.len(), 1);
    assert_eq!(v1.pools[0].role, "root");
    assert_eq!(v1.pools[0].bootfs.as_deref(), Some("rpool/ROOT/be1"));
    assert_eq!(v1.bes.len(), 1);
    assert!(v1.bes[0].active);
    assert!(v1.bes[0].origin.is_none());
    assert_eq!(v1.bes[0].name, "be1");
    assert!(v1.bes[0].bound_to.is_empty());
}

// --- assemble: two BEs with origin (clone of be1@snap1) ---------------

#[test]
fn assemble_state_forked_shape() {
    let pools = vec![pool("rpool", Some(PoolRole::Root), Some("rpool/ROOT/be1"))];
    let records = vec![
        BeRecord {
            pool: "rpool".into(),
            dataset: "rpool/ROOT/be1".into(),
            is_be: true,
            origin: None,
            bound_to: BoundList::new(),
            readonly: false,
        },
        BeRecord {
            pool: "rpool".into(),
            dataset: "rpool/ROOT/be2".into(),
            is_be: true,
            origin: Some("rpool/ROOT/be1@snap1".into()),
            bound_to: BoundList::new(),
            readonly: false,
        },
    ];
    let v1 = assemble(&pools, &records);
    assert_eq!(v1.bes.len(), 2);
    let be1 = v1.bes.iter().find(|b| b.name == "be1").unwrap();
    let be2 = v1.bes.iter().find(|b| b.name == "be2").unwrap();
    assert!(be1.active);
    assert!(!be2.active);
    assert_eq!(be1.origin, None);
    assert_eq!(be2.origin.as_deref(), Some("rpool/ROOT/be1@snap1"));
}

// --- assemble: two pools, each role=root --------------------------------

#[test]
fn assemble_multi_slot_lists_both_pools() {
    let pools = vec![
        pool("rpool", Some(PoolRole::Root), Some("rpool/ROOT/be1")),
        pool("rpool2", Some(PoolRole::Root), Some("rpool2/ROOT/be1")),
    ];
    let records = vec![
        BeRecord {
            pool: "rpool".into(),
            dataset: "rpool/ROOT/be1".into(),
            is_be: true,
            origin: None,
            bound_to: BoundList::new(),
            readonly: false,
        },
        BeRecord {
            pool: "rpool2".into(),
            dataset: "rpool2/ROOT/be1".into(),
            is_be: true,
            origin: None,
            bound_to: BoundList::new(),
            readonly: false,
        },
    ];
    let v1 = assemble(&pools, &records);
    assert_eq!(v1.pools.len(), 2);
    assert!(v1.pools.iter().all(|p| p.role == "root"));
    assert_eq!(v1.bes.len(), 2);
    // Both BEs are active — each is its own pool's bootfs.
    assert!(v1.bes.iter().all(|b| b.active));
}

// --- assemble: drops non-BE rows ---------------------------------------

#[test]
fn assemble_skips_non_be_records() {
    let pools = vec![pool("rpool", Some(PoolRole::Root), Some("rpool/ROOT/be1"))];
    let records = vec![
        BeRecord {
            pool: "rpool".into(),
            dataset: "rpool".into(),
            is_be: false,
            origin: None,
            bound_to: BoundList::new(),
            readonly: false,
        },
        BeRecord {
            pool: "rpool".into(),
            dataset: "rpool/ROOT".into(),
            is_be: false,
            origin: None,
            bound_to: BoundList::new(),
            readonly: false,
        },
        BeRecord {
            pool: "rpool".into(),
            dataset: "rpool/ROOT/be1".into(),
            is_be: true,
            origin: None,
            bound_to: BoundList::new(),
            readonly: false,
        },
    ];
    let v1 = assemble(&pools, &records);
    assert_eq!(v1.bes.len(), 1);
    assert_eq!(v1.bes[0].dataset, "rpool/ROOT/be1");
}

// --- assemble: bound_to surfaces in JSON ------------------------------

#[test]
fn assemble_bound_to_round_trip() {
    let pools = vec![pool("rpool", Some(PoolRole::Root), Some("rpool/ROOT/be1"))];
    let bound = BoundList::parse("rpool:be1,rpool:be2").unwrap();
    let records = vec![BeRecord {
        pool: "rpool".into(),
        dataset: "rpool/ROOT/be1".into(),
        is_be: true,
        origin: None,
        bound_to: bound,
        readonly: false,
    }];
    let v1 = assemble(&pools, &records);
    assert_eq!(v1.bes[0].bound_to, vec!["rpool:be1", "rpool:be2"]);
}

// --- end-to-end: parse zpool list + zfs get → assemble -----------------

#[test]
fn end_to_end_state_fresh_recorded_text() {
    // Recorded `zpool list -Hp -o name,bootfs,guid`:
    let pool_text = "rpool\trpool/ROOT/be1\t12345\n";
    let mut pools = parse_zpool_list(pool_text).unwrap();

    // Recorded `zpool get -Hp -o name,property,value zboot:role rpool`:
    let role_text = "rpool\tzboot:role\troot\n";
    let role_props = parse_zfs_get(role_text).unwrap();
    annotate_pool_roles(&mut pools, &role_props);

    // Recorded `zfs list -Hp -r -o name -t filesystem rpool`:
    let datasets = vec![
        "rpool".to_owned(),
        "rpool/ROOT".to_owned(),
        "rpool/ROOT/be1".to_owned(),
    ];
    // Recorded `zfs get -Hp -o name,property,value origin,zboot:be,zboot:attached-to,zboot:bound-mountpoint,zboot:created-by rpool rpool/ROOT rpool/ROOT/be1`:
    let zfs_text = "\
rpool/ROOT/be1\torigin\t-
rpool/ROOT/be1\tzboot:be\ttrue
rpool/ROOT/be1\tzboot:attached-to\t-
";
    let props = parse_zfs_get(zfs_text).unwrap();
    let records = extract_bes("rpool", &datasets, &props);

    let v1 = assemble(&pools, &records);
    assert_eq!(v1.pools.len(), 1);
    assert_eq!(v1.pools[0].role, "root");
    assert_eq!(v1.bes.len(), 1);
    assert!(v1.bes[0].active);
    assert!(v1.bes[0].origin.is_none());
}

// --- forest_from_payload: discover → menu bridge -----------------------

#[test]
fn forest_from_payload_state_fresh() {
    // One pool, one active BE, no origin.
    let payload = DiscoverV1 {
        pools: vec![PoolJson {
            name: "rpool".into(),
            role: "root".into(),
            bootfs: Some("rpool/ROOT/be1".into()),
            guid: Some(42),
        }],
        bes: vec![BeJson {
            pool: "rpool".into(),
            dataset: "rpool/ROOT/be1".into(),
            name: "be1".into(),
            origin: None,
            active: true,
            bound_to: vec![],
            readonly: false,
            kernels: Vec::new(),
            mount_root: None,
        }],
    };
    let (forest, active) = forest_from_payload(&payload);
    assert_eq!(forest.bes.len(), 1);
    assert_eq!(forest.bes[0].pool, "rpool");
    assert_eq!(forest.bes[0].name, "be1");
    assert_eq!(forest.bes[0].dataset, "rpool/ROOT/be1");
    assert!(forest.bes[0].origin.is_none());
    assert_eq!(active, vec!["rpool/ROOT/be1".to_owned()]);
}

#[test]
fn forest_from_payload_carries_origin_lineage() {
    let payload = DiscoverV1 {
        pools: vec![PoolJson {
            name: "rpool".into(),
            role: "root".into(),
            bootfs: Some("rpool/ROOT/be1".into()),
            guid: None,
        }],
        bes: vec![
            BeJson {
                pool: "rpool".into(),
                dataset: "rpool/ROOT/be1".into(),
                name: "be1".into(),
                origin: None,
                active: true,
                bound_to: vec![],
                readonly: false,
                kernels: Vec::new(),
                mount_root: None,
            },
            BeJson {
                pool: "rpool".into(),
                dataset: "rpool/ROOT/be2".into(),
                name: "be2".into(),
                origin: Some("rpool/ROOT/be1@snap1".into()),
                active: false,
                bound_to: vec![],
                readonly: false,
                kernels: Vec::new(),
                mount_root: None,
            },
        ],
    };
    let (forest, active) = forest_from_payload(&payload);
    let be2 = forest
        .bes
        .iter()
        .find(|b| b.name == "be2")
        .expect("be2 in forest");
    assert_eq!(
        be2.origin.as_ref().map(|s| s.render()).as_deref(),
        Some("rpool/ROOT/be1@snap1")
    );
    assert_eq!(active, vec!["rpool/ROOT/be1".to_owned()]);
}

#[test]
fn forest_from_payload_multi_slot_keeps_both_actives() {
    let payload = DiscoverV1 {
        pools: vec![
            PoolJson {
                name: "rpool".into(),
                role: "root".into(),
                bootfs: Some("rpool/ROOT/be1".into()),
                guid: None,
            },
            PoolJson {
                name: "rpool2".into(),
                role: "root".into(),
                bootfs: Some("rpool2/ROOT/be1".into()),
                guid: None,
            },
        ],
        bes: vec![
            BeJson {
                pool: "rpool".into(),
                dataset: "rpool/ROOT/be1".into(),
                name: "be1".into(),
                origin: None,
                active: true,
                bound_to: vec![],
                readonly: false,
                kernels: Vec::new(),
                mount_root: None,
            },
            BeJson {
                pool: "rpool2".into(),
                dataset: "rpool2/ROOT/be1".into(),
                name: "be1".into(),
                origin: None,
                active: true,
                bound_to: vec![],
                readonly: false,
                kernels: Vec::new(),
                mount_root: None,
            },
        ],
    };
    let (forest, mut active) = forest_from_payload(&payload);
    assert_eq!(forest.bes.len(), 2);
    active.sort();
    assert_eq!(
        active,
        vec!["rpool/ROOT/be1".to_owned(), "rpool2/ROOT/be1".to_owned()]
    );
}

#[test]
fn forest_from_payload_empty_yields_empty_forest() {
    let payload = DiscoverV1 {
        pools: vec![],
        bes: vec![],
    };
    let (forest, active) = forest_from_payload(&payload);
    assert!(forest.bes.is_empty());
    assert!(active.is_empty());
}

#[test]
fn enumerate_kernels_handles_symlink_versioned_and_old() {
    let mut dir = Host::default()
        .file("/b/vmlinuz-6.13.0", "")
        .file("/b/initrd.img-6.13.0", "")
        .file("/b/vmlinuz-6.12.86", "")
        .file("/b/initrd.img-6.12.86", "")
        .link("/b/vmlinuz", "vmlinuz-6.13.0")
        .link("/b/initrd.img", "initrd.img-6.13.0")
        .link("/b/vmlinuz.old", "vmlinuz-6.12.86")
        .link("/b/initrd.img.old", "initrd.img-6.12.86");
    let entries = enumerate_kernels(&mut dir, "/b");
    let names: Vec<&str> = entries.iter().map(|e| e.vmlinuz.as_str()).collect();
    assert_eq!(
        names,
        vec!["vmlinuz", "vmlinuz.old", "vmlinuz-6.13.0", "vmlinuz-6.12.86"],
    );
    let by_name = |n: &str| entries.iter().find(|e| e.vmlinuz == n).unwrap();
    assert!(by_name("vmlinuz-6.13.0").default);
    assert!(!by_name("vmlinuz").default);
    assert!(!by_name("vmlinuz.old").default);
    assert_eq!(by_name("vmlinuz").initrd.as_deref(), Some("initrd.img"));
    assert_eq!(by_name("vmlinuz.old").initrd.as_deref(), Some("initrd.img.old"));
    assert_eq!(by_name("vmlinuz-6.13.0").initrd.as_deref(), Some("initrd.img-6.13.0"));
}

#[test]
fn enumerate_kernels_filters_companion_files() {
    let mut dir = Host::default()
        .file("/b/vmlinuz-6.13.0", "")
        .file("/b/initrd.img-6.13.0", "")
        .file("/b/vmlinuz-6.13.0.sig", "")
        .file("/b/vmlinuz-6.12.0.dpkg-old", "");
    let entries = enumerate_kernels(&mut dir, "/b");
    let names: Vec<&str> = entries.iter().map(|e| e.vmlinuz.as_str()).collect();
    assert_eq!(names, vec!["vmlinuz-6.13.0"]);
}

#[test]
fn enumerate_kernels_initrd_pair_missing_yields_none() {
    let mut dir = Host::default().file("/b/vmlinuz-6.13.0", "");
    let entries = enumerate_kernels(&mut dir, "/b");
    assert_eq!(entries.len(), 1);
    assert!(entries[0].initrd.is_none());
    assert!(!entries[0].default);
}

#[test]
fn enumerate_kernels_no_symlink_no_default() {
    let mut dir = Host::default().file("/b/vmlinuz-6.13.0", "").file("/b/initrd.img-6.13.0", "");
    let entries = enumerate_kernels(&mut dir, "/b");
    assert_eq!(entries.len(), 1);
    assert!(!entries[0].default);
}

#[test]
fn enumerate_kernels_empty_dir_yields_empty() {
    let mut dir = Host::default().dir("/b");
    assert!(enumerate_kernels(&mut dir, "/b").is_empty());
}

#[test]
fn enumerate_kernels_missing_dir_yields_empty() {
    let mut dir = Host::default().dir("/b");
    assert!(enumerate_kernels(&mut dir, "/b/does-not-exist").is_empty());
}

// ---------------------------------------------------------------------------
// Starting a kernel
// ---------------------------------------------------------------------------

fn at(dataset: &str) -> BootEnvironment {
    let mut b = BootEnvironment::new("rpool", "be1");
    b.dataset = dataset.to_owned();
    b
}

fn make_boot(kernel: &str, initrd: &str, with_symlink: bool) -> Host {
    let mut h = Host::default()
        .file(&format!("/r/boot/{kernel}"), "vmlinuz-bytes")
        .file(&format!("/r/boot/{initrd}"), "initrd-bytes");
    if with_symlink {
        h = h.link("/r/boot/vmlinuz", kernel).link("/r/boot/initrd.img", initrd);
    }
    h
}

// --- build_cmdline ------------------------------------------------------

#[test]
fn cmdline_default_shape() {
    let s = build_cmdline("rpool/ROOT/be1", None);
    assert_eq!(s, "root=ZFS=rpool/ROOT/be1 ro");
}

#[test]
fn cmdline_appends_extras() {
    let s = build_cmdline("rpool/ROOT/be1", Some("loglevel=4 nosplash"));
    assert_eq!(s, "root=ZFS=rpool/ROOT/be1 ro loglevel=4 nosplash");
}

#[test]
fn cmdline_ignores_empty_extras() {
    let s = build_cmdline("rpool/ROOT/be1", Some(""));
    assert_eq!(s, "root=ZFS=rpool/ROOT/be1 ro");
}
// --- decide_gate: pure logic ------------------------------------------

#[test]
fn gate_default_closed_on_dev_host() {
    assert_eq!(decide_gate(false, false), Gate::Closed);
}

#[test]
fn gate_open_when_pid_one() {
    assert_eq!(decide_gate(true, false), Gate::Open);
}

#[test]
fn gate_open_with_env_override() {
    assert_eq!(decide_gate(false, true), Gate::Open);
}

#[test]
fn gate_open_when_both_signals_fire() {
    assert_eq!(decide_gate(true, true), Gate::Open);
}
#[test]
fn plan_resolves_via_symlink_filenames() {
    let mut tmp = make_boot("vmlinuz-6.1.0-22-amd64", "initrd.img-6.1.0-22-amd64", true);
    let p = plan(&mut tmp, &at("rpool/ROOT/be1"), "/r").unwrap();
    assert!(p.kernel.ends_with("/vmlinuz"));
    assert!(p.initrd.ends_with("/initrd.img"));
    assert!(p.cmdline.starts_with("root=ZFS=rpool/ROOT/be1 ro"));
    assert!(p.cmdline.contains("zboot.be=be1"));
    assert!(p.cmdline.contains("console=tty0"));
    assert!(p.cmdline.contains("console=ttyS0,115200"));
    assert_eq!(p.dataset, "rpool/ROOT/be1");
}

#[test]
fn plan_propagates_missing_kernel_error() {
    let mut tmp = Host::default().file("/r/boot/initrd.img", "i");
    let e = plan(&mut tmp, &at("rpool/ROOT/be1"), "/r").unwrap_err();
    let msg = e.message;
    assert!(msg.contains("kernel `vmlinuz` not found"), "{msg}");
    assert!(msg.contains("rpool/ROOT/be1"), "{msg}");
}

#[test]
fn plan_with_kernel_picks_specific_filenames() {
    let mut tmp = Host::default()
        .file("/r/boot/vmlinuz-6.13.0", "new")
        .file("/r/boot/initrd.img-6.13.0", "new")
        .file("/r/boot/vmlinuz.old", "old")
        .file("/r/boot/initrd.img.old", "old");
    let p = plan_with_kernel(
        &mut tmp,
        &at("rpool/ROOT/be1"),
        "/r",
        "vmlinuz.old",
        "initrd.img.old",
        None,
    )
    .unwrap();
    assert!(p.kernel.ends_with("/vmlinuz.old"));
    assert!(p.initrd.ends_with("/initrd.img.old"));
}

#[test]
fn plan_with_kernel_extras_override_replaces_default() {
    let mut tmp = make_boot("vmlinuz-6.13.0", "initrd.img-6.13.0", true);
    let p = plan_with_kernel(
        &mut tmp,
        &at("rpool/ROOT/be1"),
        "/r",
        "vmlinuz",
        "initrd.img",
        Some("loglevel=4 nosplash"),
    )
    .unwrap();
    assert!(p.cmdline.starts_with("root=ZFS=rpool/ROOT/be1 ro"));
    assert!(p.cmdline.contains("loglevel=4 nosplash"));
    assert!(!p.cmdline.contains("zboot.be="));
    assert!(!p.cmdline.contains("console=ttyS0,115200"));
}

#[test]
fn plan_with_kernel_missing_kernel_carries_filename_in_error() {
    let mut tmp = Host::default().dir("/r/boot");
    let e = plan_with_kernel(
        &mut tmp,
        &at("rpool/ROOT/be1"),
        "/r",
        "vmlinuz-nope",
        "initrd.img-nope",
        None,
    )
    .unwrap_err();
    let msg = e.message;
    assert!(msg.contains("vmlinuz-nope"), "{msg}");
}

#[test]
fn compose_cmdline_default_extras_match_legacy_plan() {
    let s = compose_cmdline(&mut Host::default(), &at("rpool/ROOT/be1"), None);
    assert!(s.starts_with("root=ZFS=rpool/ROOT/be1 ro"));
    assert!(s.contains("zboot.be=be1"));
    assert!(s.contains("console=tty0"));
    assert!(s.contains("console=ttyS0,115200"));
    let be_pos = s.find("zboot.be=be1").unwrap();
    if let Some(splh) = s.find("spl_hostid=") {
        assert!(be_pos < splh);
    }
}

#[test]
fn compose_cmdline_override_replaces_default_extras() {
    let mut h = Host::default().file("/etc/hostid", "abcd");
    let s = compose_cmdline(&mut h, &at("rpool/ROOT/be1"), Some("debug systemd.log_level=debug"));
    assert!(!s.contains("zboot.be="));
    assert!(s.contains("debug systemd.log_level=debug"));
    let dbg_pos = s.find("debug systemd").unwrap();
    if let Some(splh) = s.find("spl_hostid=") {
        assert!(dbg_pos < splh);
    }
}

#[test]
fn compose_cmdline_appends_spl_hostid_from_runtime_etc_hostid() {
    let mut h = Host::default().file("/etc/hostid", "abcd");
    let s = compose_cmdline(&mut h, &at("rpool/ROOT/be1"), None);
    assert!(s.contains("spl_hostid=0x"), "{s}");
    assert!(s.ends_with("spl_hostid=0x64636261"), "{s}");
}

#[test]
fn host_ids_are_four_bytes() {
    assert_eq!(decode_hostid(&vec![1, 2, 3, 4]), Some(0x0403_0201));
    assert_eq!(decode_hostid(&vec![1, 2, 3]), None);
}

#[test]
fn the_environment_decides() {
    let mut h = Host::default();
    h.pid = 1;
    assert_eq!(gate_from_environment(&mut h), Gate::Open);
    h.pid = 77;
    assert_eq!(gate_from_environment(&mut h), Gate::Closed);
}

#[test]
fn handoff_closed_gate_writes_would_kexec_and_skips_backend() {
    let mut tmp = make_boot("vmlinuz-6.1.0-22-amd64", "initrd.img-6.1.0-22-amd64", true);
    let mut backend = RecordingBackend::default();
    handoff_with_gate(&mut tmp, &at("rpool/ROOT/be1"), "/r", &mut backend, Gate::Closed).unwrap();
    assert!(backend.loads.is_empty());
    assert_eq!(backend.exec_calls, 0);
    let s = tmp.said;
    assert!(s.contains("would kexec rpool/ROOT/be1"), "{s}");
    assert!(s.contains("vmlinuz"), "{s}");
    assert!(s.contains("initrd.img"), "{s}");
    assert!(s.contains("root=ZFS=rpool/ROOT/be1 ro"), "{s}");
}

#[test]
fn handoff_open_gate_invokes_backend() {
    let mut tmp = make_boot("vmlinuz-6.1.0-22-amd64", "initrd.img-6.1.0-22-amd64", true);
    let mut backend = RecordingBackend::default();
    let err = handoff_with_gate(&mut tmp, &at("rpool/ROOT/be1"), "/r", &mut backend, Gate::Open)
        .unwrap_err();
    assert!(err.message.contains("returned without rebooting"));
    assert_eq!(backend.loads.len(), 1);
    let p = &backend.loads[0];
    assert!(p.cmdline.starts_with("root=ZFS=rpool/ROOT/be1 ro"));
    assert!(p.cmdline.contains("zboot.be=be1"));
    assert!(p.cmdline.contains("console=tty0"));
    assert!(p.cmdline.contains("console=ttyS0,115200"));
    assert_eq!(p.dataset, "rpool/ROOT/be1");
    assert!(p.kernel.ends_with("/vmlinuz"));
    assert!(p.initrd.ends_with("/initrd.img"));
    assert_eq!(backend.exec_calls, 1);
}

/// Its `load` always fails.
struct FailLoad;

impl KexecBackend for FailLoad {
    type State = ();

    fn state(&self) {
        unreachable!("only contracts speak of it")
    }

    fn loads(_s: (), _w: World, _p: Load) -> ((), World, Outcome) {
        unreachable!("only contracts speak of it")
    }

    fn starts(_s: (), _w: World) -> ((), World, Outcome) {
        unreachable!("only contracts speak of it")
    }

    fn load<R: Runner>(&mut self, _r: &mut R, _plan: &KexecPlan) -> Result<(), Error> {
        Err(Error::new("syscall ENOMEM"))
    }

    fn exec<R: Runner>(&mut self, _r: &mut R) -> Result<(), Error> {
        unreachable!("load failed; exec should not run")
    }
}

#[test]
fn handoff_load_error_carries_kernel_path() {
    let mut tmp = make_boot("vmlinuz-6.1.0-22-amd64", "initrd.img-6.1.0-22-amd64", true);
    let mut backend = FailLoad;
    let err = handoff_with_gate(&mut tmp, &at("rpool/ROOT/be1"), "/r", &mut backend, Gate::Open)
        .unwrap_err();
    let msg = err.message;
    assert!(msg.contains("kexec load failed"), "{msg}");
    assert!(msg.contains("vmlinuz"), "{msg}");
    assert!(msg.contains("syscall ENOMEM"), "{msg}");
}

#[test]
fn system_kexec_binary_default_is_kexec() {
    let s = SystemKexec::new();
    assert_eq!(s.binary(), "kexec");
}

#[test]
fn system_kexec_binary_override_honored() {
    let s = SystemKexec { kexec_bin: Some("/opt/zboot/kexec".to_owned()) };
    assert_eq!(s.binary(), "/opt/zboot/kexec");
}

// ---------------------------------------------------------------------------
// The shell
// ---------------------------------------------------------------------------

fn kc(name: &str, default: bool) -> KernelChoice {
    KernelChoice {
        vmlinuz: name.to_owned(),
        initrd: name.replace("vmlinuz", "initrd.img"),
        is_default: default,
    }
}

fn t(idx: usize, ds: &str, name: &str, kernels: Vec<KernelChoice>) -> BootTarget {
    BootTarget {
        idx,
        pool: ds.split('/').next().unwrap_or("rpool").to_owned(),
        dataset: ds.to_owned(),
        name: name.to_owned(),
        mount_root: "/".to_owned(),
        is_active: false,
        kernels,
        readonly: false,
        origin_short: None,
    }
}

#[test]
fn tokenize_handles_quoted_extras() {
    let toks = tokenize(r#"cmdline 1 "loglevel=4 quiet""#).unwrap();
    assert_eq!(toks, vec!["cmdline", "1", "loglevel=4 quiet"]);
}

#[test]
fn tokenize_rejects_unterminated_quote() {
    assert!(tokenize(r#"cmdline 1 "open"#).is_err());
}

#[test]
fn resolve_be_numeric_picks_target() {
    let targets = vec![t(1, "rpool/ROOT/be1", "be1", vec![kc("vmlinuz", true)])];
    let r = resolve_be("1", &targets).unwrap();
    assert_eq!(r.dataset, "rpool/ROOT/be1");
}

#[test]
fn resolve_pick_numeric_returns_default_kernel() {
    let targets = vec![t(
        1,
        "rpool/ROOT/be1",
        "be1",
        vec![kc("vmlinuz", false), kc("vmlinuz-6.13.0", true)],
    )];
    let (be, k) = resolve_pick("1", &targets).unwrap();
    assert_eq!(be.dataset, "rpool/ROOT/be1");
    assert_eq!(k.vmlinuz, "vmlinuz-6.13.0");
    assert!(k.is_default);
}

#[test]
fn resolve_pick_composite_picks_specific_kernel() {
    let targets = vec![t(
        1,
        "rpool/ROOT/be1",
        "be1",
        vec![kc("vmlinuz", true), kc("vmlinuz.old", false)],
    )];
    let (be, k) = resolve_pick("rpool/ROOT/be1:vmlinuz.old", &targets).unwrap();
    assert_eq!(be.dataset, "rpool/ROOT/be1");
    assert_eq!(k.vmlinuz, "vmlinuz.old");
}

#[test]
fn resolve_unknown_errors() {
    let targets = vec![t(1, "rpool/ROOT/be1", "be1", vec![kc("vmlinuz", true)])];
    assert!(resolve_be("99", &targets).is_err());
    assert!(resolve_pick("nope:vmlinuz", &targets).is_err());
    assert!(resolve_pick("rpool/ROOT/be1:missing", &targets).is_err());
}

#[test]
fn ls_renders_kernels_under_be() {
    let targets = vec![
        t(
            1,
            "rpool/ROOT/be1",
            "be1",
            vec![kc("vmlinuz", true), kc("vmlinuz.old", false)],
        ),
        t(2, "rpool/ROOT/be2", "be2", vec![kc("vmlinuz", true)]),
    ];
    let mut h = Host::default();
    verb_ls(&mut h, &targets).unwrap();
    let s = h.said;
    assert!(s.contains("rpool/ROOT/be1"), "{s}");
    assert!(s.contains("rpool/ROOT/be2"), "{s}");
    assert!(s.contains("(default)"), "{s}");
    assert!(s.contains("vmlinuz.old"), "{s}");
    // BE-level numbering: 1) and 2), not 1)..3).
    assert!(s.contains("1) "), "{s}");
    assert!(s.contains("2) "), "{s}");
    assert!(!s.contains("3) "), "{s}");
}

#[test]
fn help_lists_verbs() {
    let mut h = Host::default();
    verb_help(&mut h, &vec![]).unwrap();
    let s = h.said;
    assert!(s.contains("boot"), "{s}");
    assert!(s.contains("rollback"), "{s}");
    assert!(s.contains("reboot"), "{s}");
    assert!(s.contains("sh "), "{s}");
}

#[test]
fn sh_verb_registered() {
    assert!(verb_list().contains(&"sh".to_owned()));
    assert_ne!(help_for("sh"), "(unknown verb)");
}

#[test]
fn ensure_pool_rw_skips_when_already_recorded() {
    // If the pool is in the set we never spawn zpool — so this test
    // works even on a host without ZFS.
    let mut set = vec!["rpool".to_owned()];
    let mut h = Host::default();
    ensure_pool_rw(&mut h, "rpool", &mut set).unwrap();
    assert!(h.calls.is_empty());
    assert_eq!(set.len(), 1);
}

#[test]
fn word_under_cursor_at_end_returns_empty_fragment() {
    let (start, frag) = word_under_cursor("boot ");
    assert_eq!(start, 5);
    assert_eq!(frag, "");
}

#[test]
fn word_under_cursor_picks_partial_word() {
    let (start, frag) = word_under_cursor("boot rpoo");
    assert_eq!(start, 5);
    assert_eq!(frag, "rpoo");
}
#[test]
fn helper_completes_verbs_at_start() {
    let helper = ShellHelper { targets: vec![], verbs: verb_list() };
    let (start, cands) = helper.complete(&mut Host::default(), "bo");
    assert_eq!(start, 0);
    assert!(cands.iter().any(|c| c.replacement == "boot"));
}

#[test]
fn helper_completes_numeric_after_boot() {
    let helper = ShellHelper {
        targets: vec![
            t(1, "rpool/ROOT/be1", "be1", vec![kc("vmlinuz", true), kc("vmlinuz.old", false)]),
            t(2, "rpool/ROOT/be2", "be2", vec![kc("vmlinuz", true)]),
        ],
        verbs: verb_list(),
    };
    let (start, cands) = helper.complete(&mut Host::default(), "boot ");
    assert_eq!(start, 5);
    let reps: Vec<&str> = cands.iter().map(|c| c.replacement.as_str()).collect();
    assert!(reps.contains(&"1"), "{reps:?}");
    assert!(reps.contains(&"2"), "{reps:?}");
    assert!(reps.iter().any(|r| r.contains("vmlinuz.old")), "{reps:?}");
}

#[test]
fn helper_completes_help_argument_with_verb() {
    let helper = ShellHelper { targets: vec![], verbs: verb_list() };
    let (_, cands) = helper.complete(&mut Host::default(), "help bo");
    assert!(cands.iter().any(|c| c.replacement == "boot"));
}

#[test]
fn boot_numeric_works() {
    let mut targets = vec![t(1, "rpool/ROOT/be1", "be1", vec![kc("vmlinuz", true)])];
    let mut h = Host::default().file("/tmp/n/boot/vmlinuz", "k").file("/tmp/n/boot/initrd.img", "i");
    h.pid = 99;
    targets[0].mount_root = "/tmp/n".to_owned();
    verb_boot(&mut h, &vec!["1".to_owned()], &targets).unwrap();
    let s = h.said;
    assert!(s.contains("would kexec rpool/ROOT/be1"), "{s}");
}

#[test]
fn words_count_in_bytes() {
    assert_eq!(word_under_cursor("böot rp"), (6, "rp"));
    assert_eq!(word_under_cursor(""), (0, ""));
}

#[test]
fn a_pool_is_opened_once() {
    let targets = vec![t(1, "rpool/ROOT/be1", "be1", vec![kc("vmlinuz", true)])];
    let mut rw: Vec<String> = Vec::new();
    let mut h = Host::default();
    shell::turn(&mut h, "cmdline 1 quiet", &targets, &mut rw).unwrap();
    assert_eq!(rw, vec!["rpool"]);
    let opened = h.calls.iter().filter(|c| c.contains("import")).count();
    shell::turn(&mut h, "cmdline 1 debug", &targets, &mut rw).unwrap();
    assert_eq!(h.calls.iter().filter(|c| c.contains("import")).count(), opened);
    assert_eq!(rw, vec!["rpool"]);
}

#[test]
fn unknown_lines_are_told() {
    let targets = vec![t(1, "rpool/ROOT/be1", "be1", vec![kc("vmlinuz", true)])];
    let mut rw: Vec<String> = Vec::new();
    let mut h = Host::default();
    shell::turn(&mut h, "frobnicate", &targets, &mut rw).unwrap();
    assert!(format!("{}{}", h.said, h.traced).contains("frobnicate"));
    assert!(h.calls.is_empty());
    assert_eq!(help_for("frobnicate"), "(unknown verb)");
}

// ---------------------------------------------------------------------------
// The menu at work
// ---------------------------------------------------------------------------

#[test]
fn a_countdown_that_runs_out_boots() {
    assert!(!countdown_then_halt(&mut Host::default(), 1, 2).unwrap());
}

#[test]
fn without_a_terminal_nothing_starts() {
    let mut h = Host::default();
    let next = menu::run_with_payload(&mut h, &fake_payload()).unwrap();
    assert!(matches!(next, Next::Done));
    assert!(h.said.contains("plain text"), "{}", h.said);
    assert!(!h.said.contains("would kexec"), "{}", h.said);
}

// ---------------------------------------------------------------------------
// The first steps
// ---------------------------------------------------------------------------

#[test]
fn helpers_are_found_by_name() {
    let mut h = Host::default()
        .file("/usr/sbin/modprobe", "")
        .answers("/usr/sbin/modprobe zfs", 1, "", "boom\n")
        .answers("/usr/sbin/modprobe uas", 1, "", "Module uas not found in modules.dep\n");
    preinit::run_or_warn(&mut h, "/sbin/modprobe", &["uas"], "modprobe uas");
    assert!(h.traced.is_empty(), "{}", h.traced);
    preinit::run_or_warn(&mut h, "/sbin/modprobe", &["zfs"], "modprobe zfs");
    assert_eq!(h.traced, "zboot-boot/preinit: modprobe zfs: rc=Some(1) stderr=\"boom\"\n");
    preinit::run_or_warn(&mut h, "/sbin/depmod", &[], "depmod");
    assert!(h.traced.ends_with(
        "zboot-boot/preinit: depmod: helper /sbin/depmod not found in initrd\n"
    ));
}

#[test]
fn the_host_id_is_adopted_from_the_first_root_pool() {
    let mut h = Host::default()
        .answers(
            "/sbin/zpool list -H -o name,bootfs",
            0,
            "data\t-\nbak\tbak/ROOT/x\nrpool\trpool/ROOT/be1\n",
            "",
        )
        .answers("/sbin/zpool get -Hp -o value zboot:role rpool", 0, "root\n", "")
        .file("/run/zboot-hostid-probe-1/etc/hostid", "abcd");
    h.pid = 1;
    preinit::adopt_hostid_from_pool(&mut h).unwrap();
    assert_eq!(h.files["/etc/hostid"], b"abcd");
    assert!(h.traced.contains("adopted /etc/hostid from rpool/ROOT/be1 (4 bytes)"), "{}", h.traced);
    assert_eq!(h.calls.last().unwrap(), "/bin/umount /run/zboot-hostid-probe-1");
    let e = preinit::adopt_hostid_from_pool(&mut Host::default()).unwrap_err();
    assert_eq!(e.message, "no zboot:role=root pool yielded a readable /etc/hostid");
}

#[test]
fn the_boot_goes_on_while_there_are_modules() {
    assert!(preinit::load_kmods(&mut Host::default()).is_err());
    let mut h = Host::default().dir("/lib/modules");
    assert_eq!(preinit::load_kmods(&mut h).unwrap_err().message, "/lib/modules empty");
    let mut h = Host::default().dir("/lib/modules/6.12");
    preinit::load_kmods(&mut h).unwrap();
    assert!(h.traced.contains("depmod: helper /sbin/depmod not found"), "{}", h.traced);
    assert!(h.traced.contains("hostid-adopt skipped"), "{}", h.traced);
}

#[test]
fn newer_kernels_come_first() {
    let mut dir = Host::default()
        .file("/b/vmlinuz-6.9.0", "")
        .file("/b/vmlinuz-6.13.0", "")
        .file("/b/vmlinuz-6.13.0-rc2", "")
        .file("/b/vmlinuz-10.1", "")
        .file("/b/vmlinuz-6.1.0-9-amd64", "")
        .file("/b/vmlinuz-6.1.0-22-amd64", "");
    let entries = enumerate_kernels(&mut dir, "/b");
    let names: Vec<&str> = entries.iter().map(|e| e.vmlinuz.as_str()).collect();
    assert_eq!(
        names,
        vec![
            "vmlinuz-10.1",
            "vmlinuz-6.13.0-rc2",
            "vmlinuz-6.13.0",
            "vmlinuz-6.9.0",
            "vmlinuz-6.1.0-22-amd64",
            "vmlinuz-6.1.0-9-amd64",
        ],
    );
}

#[test]
fn versions_are_told_apart_by_their_numbers() {
    assert!(is_newer("6.13.0", "6.9.0"));
    assert!(!is_newer("6.9.0", "6.13.0"));
    assert!(is_older("6.9.0", "6.13.0"));
    assert!(!is_older("6.9", "6.9"));
    // More digits than any machine word holds.
    assert!(is_newer("100000000000000000000000000000000000000001", "99999999999999999999999999"));
    // One number in two spellings: one order between them, and only one.
    assert!(is_newer("6.1", "6.01") != is_newer("6.01", "6.1"));
    let v: Vec<String> = ["1.2", "1.10", "1.9"].iter().map(|s| (*s).to_owned()).collect();
    assert_eq!(sort_newest_first(&v), vec!["1.10", "1.9", "1.2"]);
}

#[test]
fn menus_tell_of_a_lost_line() {
    let targets = build_targets(&fake_payload());
    let rows = build_rows(&forest(vec![be("rpool", "be1", None)]), None);
    for n in 0..2 {
        let mut h = Host::default().shows(n);
        let err = print_target_menu(&mut h, &targets).unwrap_err();
        assert!(err.message.ends_with("Broken pipe (os error 32)"), "{}", err.message);
        let mut h = Host::default().shows(n);
        assert!(render_targets_plain(&mut h, &targets).is_err());
        let mut h = Host::default().shows(n);
        assert!(render_plain(&mut h, &rows).is_err());
    }
    let mut rw: Vec<String> = Vec::new();
    let mut h = Host::default().shows(0);
    assert!(shell::turn(&mut h, "help", &targets, &mut rw).is_err());
}

#[test]
fn a_closed_gate_tells_of_a_lost_line() {
    let mut tmp =
        make_boot("vmlinuz-6.1.0-22-amd64", "initrd.img-6.1.0-22-amd64", true).shows(0);
    let mut backend = RecordingBackend::default();
    let err = handoff_with_gate(&mut tmp, &at("rpool/ROOT/be1"), "/r", &mut backend, Gate::Closed)
        .unwrap_err();
    assert!(err.message.ends_with("Broken pipe (os error 32)"), "{}", err.message);
    assert!(backend.loads.is_empty());
    assert_eq!(backend.exec_calls, 0);
}
