#![allow(dead_code)]

use std::collections::{BTreeMap, BTreeSet, VecDeque};

use zboot::cmd::attach;
use zboot::cmd::attach::{AttachArgs, DetachArgs};
use zboot::cmd::cmdline;
use zboot::cmd::cmdline::{CmdlineAction, CmdlineArgs};
use zboot::cmd::drop;
use zboot::cmd::drop::DropArgs;
use zboot::cmd::fork;
use zboot::cmd::fork::ForkArgs;
use zboot::cmd::mirror;
use zboot::cmd::mirror::MirrorArgs;
use zboot::cmd::pair;
use zboot::cmd::pair::{PairArgs, UnpairArgs};
use zboot::cmd::primary;
use zboot::cmd::primary::PrimaryArgs;
use zboot::cmd::pull;
use zboot::cmd::pull::PullArgs;
use zboot::cmd::push;
use zboot::cmd::push::PushArgs;
use zboot::cmd::rename;
use zboot::cmd::rename::RenameArgs;
use zboot::cmd::snapshot;
use zboot::cmd::snapshot::SnapshotArgs;
use zboot::cmd::status;
use zboot::cmd::status::StatusArgs;
use zboot::sub::{Answer, Request, Runner, World};
use zboot::zfs_ops;

/// A dataset: its properties, and its snapshots in the order of their creation.
#[derive(Clone, Default)]
struct Dataset {
    props: BTreeMap<String, String>,
    snaps: Vec<(String, u64)>,
}

/// A machine with a small ZFS of its own.
#[derive(Default)]
struct Machine {
    datasets: BTreeMap<String, Dataset>,
    pools: BTreeMap<String, BTreeMap<String, String>>,
    files: BTreeMap<String, String>,
    typed: VecDeque<String>,
    /// Beginnings of command lines that fail.
    broken: BTreeSet<String>,
    guid: u64,
    nanos: u128,
    /// The commands that change something, in order.
    changes: Vec<String>,
    said: String,
    traced: String,
    shown_at_most: Option<usize>,
}

fn dash(v: Option<&String>) -> String {
    v.cloned().unwrap_or_else(|| "-".to_owned())
}

impl Machine {
    fn pool(mut self, name: &str) -> Machine {
        let props = BTreeMap::from([("zboot:role".to_owned(), "root".to_owned())]);
        self.pools.insert(name.to_owned(), props);
        self
    }

    fn boots(mut self, pool: &str, ds: &str) -> Machine {
        self.pool_mut(pool).insert("bootfs".to_owned(), ds.to_owned());
        self
    }

    fn be(mut self, ds: &str, snaps: &[&str]) -> Machine {
        self.datasets.insert(ds.to_owned(), Dataset::default());
        self.set(ds, "zboot:be", "true");
        for s in snaps {
            self.take(ds, s);
        }
        self
    }

    fn with(mut self, ds: &str, prop: &str, value: &str) -> Machine {
        self.set(ds, prop, value);
        self
    }

    fn running(mut self, ds: &str) -> Machine {
        self.files.insert("/proc/self/mounts".to_owned(), format!("{ds} / zfs rw 0 0\n"));
        self.set(ds, "mounted", "yes");
        self
    }

    fn types(mut self, line: &str) -> Machine {
        self.typed.push_back(line.to_owned());
        self
    }

    fn breaks(mut self, line: &str) -> Machine {
        self.broken.insert(line.to_owned());
        self
    }

    fn pool_mut(&mut self, pool: &str) -> &mut BTreeMap<String, String> {
        self.pools.entry(pool.to_owned()).or_default()
    }

    fn set(&mut self, ds: &str, prop: &str, value: &str) {
        let d = self.datasets.entry(ds.to_owned()).or_default();
        d.props.insert(prop.to_owned(), value.to_owned());
    }

    fn take(&mut self, ds: &str, snap: &str) {
        self.guid += 1;
        let guid = self.guid;
        self.datasets.entry(ds.to_owned()).or_default().snaps.push((snap.to_owned(), guid));
    }

    fn prop(&self, ds: &str, prop: &str) -> String {
        match self.datasets.get(ds) {
            Some(d) => match (prop, d.props.get(prop)) {
                (_, Some(v)) => v.clone(),
                ("readonly", None) => "off".to_owned(),
                ("mounted", None) => "no".to_owned(),
                _ => "-".to_owned(),
            },
            None => "-".to_owned(),
        }
    }

    fn bootfs(&self, pool: &str) -> String {
        dash(self.pools[pool].get("bootfs"))
    }

    fn names(&self, ds: &str) -> Vec<String> {
        self.datasets[ds].snaps.iter().map(|s| s.0.clone()).collect()
    }

    fn anchors(&self, ds: &str) -> usize {
        self.names(ds).iter().filter(|n| n.starts_with("mirror-")).count()
    }

    fn play(&mut self, prog: &str, args: &[String]) -> (i32, String, String) {
        let line = format!("{prog} {}", args.join(" "));
        let query = ["list", "get"].contains(&args[0].as_str()) || prog == "findmnt";
        if !query {
            self.changes.push(line.clone());
        }
        if self.broken.iter().any(|b| line.starts_with(b.as_str())) {
            return (1, String::new(), format!("broken: {line}\n"));
        }
        let a: Vec<&str> = args.iter().map(String::as_str).collect();
        match prog {
            "zpool" => self.zpool(&a),
            "zfs" => self.zfs(&a),
            "findmnt" => match self.files.get("/proc/self/mounts") {
                Some(t) => (0, format!("{}\n", t.split(' ').next().unwrap_or("")), String::new()),
                None => (1, String::new(), String::new()),
            },
            "ed" => {
                let text = self.typed.pop_front().unwrap_or_default();
                self.files.insert(a[0].to_owned(), text);
                (0, String::new(), String::new())
            }
            _ => panic!("unknown program: {line}"),
        }
    }

    fn zpool(&mut self, a: &[&str]) -> (i32, String, String) {
        let mut out = String::new();
        match a {
            ["list", "-Hp" | "-H", "-o", "name"] => {
                for p in self.pools.keys() {
                    out += &format!("{p}\n");
                }
            }
            ["list", "-Hp", "-o", "name,bootfs"] => {
                for (p, props) in &self.pools {
                    out += &format!("{p}\t{}\n", dash(props.get("bootfs")));
                }
            }
            ["list", "-Hp", "-o", "name,bootfs,guid"] => {
                for (p, props) in &self.pools {
                    out += &format!("{p}\t{}\t1\n", dash(props.get("bootfs")));
                }
            }
            ["get", "-H" | "-Hp", "-o", "value", prop, pool] => match self.pools.get(*pool) {
                Some(props) => out = format!("{}\n", dash(props.get(*prop))),
                None => return (1, out, format!("cannot open '{pool}': no such pool\n")),
            },
            ["get", "-Hp", "-o", "name,property,value", prop, rest @ ..] => {
                for p in rest {
                    out += &format!("{p}\t{prop}\t{}\n", dash(self.pools[*p].get(*prop)));
                }
            }
            ["set", assignment, pool] => {
                let (prop, value) = assignment.split_once('=').unwrap();
                if value.is_empty() {
                    self.pool_mut(pool).remove(prop);
                } else {
                    self.pool_mut(pool).insert(prop.to_owned(), value.to_owned());
                }
            }
            _ => panic!("zpool {a:?}"),
        }
        (0, out, String::new())
    }

    fn zfs(&mut self, a: &[&str]) -> (i32, String, String) {
        let mut out = String::new();
        let gone = |ds: &str| (1, String::new(), format!("cannot open '{ds}': dataset does not exist\n"));
        match a {
            ["list", "-H" | "-Hp", "-o", "name", ds] => {
                if !self.datasets.contains_key(*ds) {
                    return gone(ds);
                }
                out = format!("{ds}\n");
            }
            ["list", "-Hp", "-o", "name", "-t", "filesystem"] => {
                for ds in self.datasets.keys() {
                    out += &format!("{ds}\n");
                }
            }
            ["list", "-H", "-t", "snapshot", "-o", "name", full] => {
                let (ds, snap) = full.split_once('@').unwrap();
                let there = self.datasets.get(ds).is_some_and(|d| d.snaps.iter().any(|s| s.0 == snap));
                if !there {
                    return gone(full);
                }
                out = format!("{full}\n");
            }
            ["list", "-Hp", "-t", "snapshot", "-o", "name", "-r", ds] => {
                for (s, _) in &self.datasets[*ds].snaps {
                    out += &format!("{ds}@{s}\n");
                }
            }
            ["list", "-Hp", "-t", "snapshot", "-o", "name,guid", .., ds] => {
                let Some(d) = self.datasets.get(*ds) else {
                    return gone(ds);
                };
                for (s, g) in &d.snaps {
                    out += &format!("{ds}@{s}\t{g}\n");
                }
            }
            ["get", "-Hp", "-o", "value", "written", _] => out = "0\n".to_owned(),
            ["get", "-Hp", "-o", "value", prop, ds] => {
                if !self.datasets.contains_key(*ds) {
                    return gone(ds);
                }
                out = format!("{}\n", self.prop(ds, prop));
            }
            ["get", "-H", "-o", "value,source", prop, ds] => {
                out = match self.datasets[*ds].props.get(*prop) {
                    Some(v) => format!("{v}\tlocal\n"),
                    None => "-\t-\n".to_owned(),
                };
            }
            ["get", "-Hp", "-r", "-t", "filesystem", "-o", "name,value", prop, pool] => {
                for ds in self.datasets.keys().filter(|d| d.split('/').next() == Some(*pool)) {
                    out += &format!("{ds}\t{}\n", self.prop(ds, prop));
                }
            }
            ["get", "-Hp", "-o", "name,value", prop, rest @ ..] => {
                for ds in rest {
                    if !self.datasets.contains_key(*ds) {
                        return gone(ds);
                    }
                    out += &format!("{ds}\t{}\n", self.prop(ds, prop));
                }
            }
            ["get", "-Hp", "-o", "name,property,value", props, rest @ ..] => {
                for ds in rest {
                    for prop in props.split(',') {
                        out += &format!("{ds}\t{prop}\t{}\n", self.prop(ds, prop));
                    }
                }
            }
            ["set", "-u", assignment, ds] | ["set", assignment, ds] => {
                if !self.datasets.contains_key(*ds) {
                    return gone(ds);
                }
                let (prop, value) = assignment.split_once('=').unwrap();
                self.set(ds, prop, value);
            }
            ["inherit", prop, ds] => {
                if let Some(d) = self.datasets.get_mut(*ds) {
                    d.props.remove(*prop);
                }
            }
            ["snapshot", full] => {
                let (ds, snap) = full.split_once('@').unwrap();
                self.take(ds, snap);
            }
            ["destroy", "-r", ds] => {
                self.datasets.remove(*ds);
            }
            ["destroy", full] => {
                let (ds, snap) = full.split_once('@').unwrap();
                self.datasets.get_mut(ds).unwrap().snaps.retain(|s| s.0 != snap);
            }
            ["rollback", "-r", full] => {
                let (ds, snap) = full.split_once('@').unwrap();
                let d = self.datasets.get_mut(ds).unwrap();
                let i = d.snaps.iter().position(|s| s.0 == snap).unwrap();
                d.snaps.truncate(i + 1);
            }
            ["create", .., ds] => {
                self.datasets.insert((*ds).to_owned(), Dataset::default());
            }
            ["rename", from, to] => {
                let d = self.datasets.remove(*from).unwrap();
                self.datasets.insert((*to).to_owned(), d);
            }
            ["clone", "-o", one, "-o", two, from, to] => {
                let (ds, _) = from.split_once('@').unwrap();
                let mut d = Dataset { props: self.datasets[ds].props.clone(), snaps: Vec::new() };
                d.props.remove("mounted");
                for assignment in [one, two] {
                    let (prop, value) = assignment.split_once('=').unwrap();
                    d.props.insert(prop.to_owned(), value.to_owned());
                }
                d.props.insert("origin".to_owned(), (*from).to_owned());
                self.datasets.insert((*to).to_owned(), d);
            }
            ["promote", ds] => {
                self.datasets.get_mut(*ds).unwrap().props.remove("origin");
            }
            _ => panic!("zfs {a:?}"),
        }
        (0, out, String::new())
    }

    fn stream(&mut self, send: &[String], dest: &str) -> Answer {
        let line = format!("zfs {} | zfs receive {dest}", send.join(" "));
        self.changes.push(line.clone());
        if self.broken.contains("stream") {
            return Answer { to_rc: 1, ..Answer::default() };
        }
        let anchor = send.last().unwrap();
        let (src, snap) = anchor.split_once('@').unwrap();
        let mut from = self.datasets[src].clone();
        from.props.remove("mounted");
        let end = from.snaps.iter().position(|s| s.0 == snap).unwrap();
        let to = self.datasets.entry(dest.to_owned()).or_default();
        match send[1].as_str() {
            "-R" => {
                to.props = from.props.clone();
                to.snaps = from.snaps[..=end].to_vec();
            }
            "-p" => {
                to.props = from.props.clone();
                to.props.remove("origin");
                to.snaps = vec![from.snaps[end].clone()];
            }
            _ => {
                let base = send[2].split_once('@').unwrap().1;
                let begin = from.snaps.iter().position(|s| s.0 == base).unwrap();
                let guid = from.snaps[begin].1;
                let common = to.snaps.iter().position(|s| s.1 == guid).unwrap();
                to.snaps.truncate(common + 1);
                to.snaps.extend_from_slice(&from.snaps[begin + 1..=end]);
            }
        }
        Answer::default()
    }

    /// Shows no more than `n` texts; those behind them are lost.
    fn shows(mut self, n: usize) -> Machine {
        self.shown_at_most = Some(n);
        self
    }

    fn show(&mut self, text: &str) -> Answer {
        if let Some(n) = self.shown_at_most {
            if n == 0 {
                return Answer {
                    failure: Some("Broken pipe (os error 32)".to_owned()),
                    ..Answer::default()
                };
            }
            self.shown_at_most = Some(n - 1);
        }
        self.said.push_str(text);
        Answer::default()
    }
}

impl Runner for Machine {
    fn world(&self) -> World {
        unreachable!("only contracts speak of it")
    }

    fn perform(&mut self, q: Request) -> Answer {
        match q {
            Request::Run { prog, args } | Request::Attend { prog, args } => {
                let (rc, stdout, stderr) = self.play(&prog, &args);
                Answer { rc, stdout, stderr, ..Answer::default() }
            }
            Request::Pipe { prog: _, args, to_prog: _, to_args } => {
                let dest = to_args.last().unwrap().clone();
                self.stream(&args, &dest)
            }
            Request::Say { text } => self.show(&format!("{text}\n")),
            Request::Trace { text } => {
                self.traced.push_str(&text);
                self.traced.push('\n');
                Answer::default()
            }
            Request::Ask => {
                let stdout = self.typed.pop_front().unwrap_or_default();
                Answer { stdout, ..Answer::default() }
            }
            Request::ReadFile { path } => match self.files.get(&path) {
                Some(t) => Answer { stdout: t.clone(), ..Answer::default() },
                None => Answer { failure: Some("no such file".to_owned()), ..Answer::default() },
            },
            Request::WriteFile { path, bytes } => {
                self.files.insert(path, String::from_utf8(bytes).unwrap());
                Answer::default()
            }
            Request::RemoveFile { path } => {
                self.files.remove(&path);
                Answer::default()
            }
            Request::Env { name: _ } => Answer { stdout: "ed".to_owned(), ..Answer::default() },
            Request::Clock => {
                self.nanos += 1;
                Answer { nanos: self.nanos, ..Answer::default() }
            }
            Request::Pid => Answer { pid: 7, ..Answer::default() },
            other => panic!("unexpected: {other:?}"),
        }
    }
}

const A: &str = "rpool/ROOT/be1";
const B: &str = "rpool2/ROOT/be1";

/// Two root pools; the first one boots, and runs, `be1`.
fn two_pools() -> Machine {
    Machine::default().pool("rpool").pool("rpool2").be(A, &["s1", "s2"]).boots("rpool", A).running(A)
}

fn push_args(be: Option<&str>, to: Option<&str>, force: bool) -> PushArgs {
    PushArgs { be: be.map(str::to_owned), to: to.map(str::to_owned), force }
}

fn pull_args(be: Option<&str>, name: Option<&str>, force: bool) -> PullArgs {
    PullArgs { be: be.map(str::to_owned), name: name.map(str::to_owned), force }
}

/// The two pools after `be1` has been pushed to the second one.
fn paired() -> Machine {
    let mut m = two_pools();
    push::run(&mut m, &push_args(None, Some("rpool2"), false)).unwrap();
    m.changes.clear();
    m.said.clear();
    m
}

fn is_readonly_be(m: &Machine, ds: &str) -> bool {
    m.prop(ds, "readonly") == "on"
        && m.prop(ds, "canmount") == "noauto"
        && m.prop(ds, "mountpoint") == "/"
        && m.prop(ds, "zboot:be") == "true"
}

// ---------------------------------------------------------------------------
// Pushing
// ---------------------------------------------------------------------------

#[test]
fn push_to_a_pool_makes_a_pair() {
    let m = paired();
    assert_eq!(m.names(B), vec!["s1", "s2", "mirror-1"]);
    assert!(is_readonly_be(&m, B));
    assert_eq!(m.prop(A, "zboot:mirror"), B);
    assert_eq!(m.prop(A, "zboot:primary"), "on");
    // The stream carried the source's properties along, its pointer not yet
    // among them.
    assert_eq!(m.prop(B, "zboot:mirror"), A);
    assert_eq!(m.prop(B, "zboot:primary"), "off");
    assert!(m.datasets.contains_key("rpool2/ROOT"));
}

#[test]
fn push_again_is_incremental_and_prunes() {
    let mut m = paired();
    m.take(A, "s3");
    push::run(&mut m, &push_args(None, None, false)).unwrap();
    assert!(m.changes.contains(&format!("zfs send -I {A}@mirror-1 {A}@mirror-2 | zfs receive {B}")));
    assert_eq!(m.names(B), vec!["s1", "s2", "s3", "mirror-2"]);
    assert_eq!(m.names(A), vec!["s1", "s2", "s3", "mirror-2"]);
    assert!(is_readonly_be(&m, B));
    assert_eq!(
        m.said,
        format!("  push {A} \u{2192} {B}\n    pushed (dest readonly)\n")
    );
}

#[test]
fn push_changes_its_two_sides_only() {
    let mut m = paired().be("rpool/ROOT/other", &["x"]);
    push::run(&mut m, &push_args(None, None, false)).unwrap();
    for c in &m.changes {
        let last = c.rsplit(' ').next().unwrap();
        let ds = last.split('@').next().unwrap();
        assert!(ds == A || ds == B, "{c}");
    }
}

#[test]
fn push_refuses_divergence() {
    let mut m = paired();
    m.take(B, "own");
    let err = push::run(&mut m, &push_args(None, None, false)).unwrap_err();
    assert!(err.message.starts_with("refuses: "), "{}", err.message);
    assert!(err.message.contains(&format!("{B}@own")), "{}", err.message);
    assert!(m.changes.is_empty(), "{:?}", m.changes);
}

#[test]
fn forced_push_needs_the_name_of_the_dest() {
    let mut m = paired().types("yes");
    m.take(B, "own");
    assert!(push::run(&mut m, &push_args(None, None, true)).is_err());
    assert!(m.changes.is_empty(), "{:?}", m.changes);
    m.typed.push_back(format!("{B}\n"));
    push::run(&mut m, &push_args(None, None, true)).unwrap();
    assert!(!m.names(B).contains(&"own".to_owned()));
}

#[test]
fn push_to_an_older_bound_is_a_rewind() {
    let mut m = paired();
    let err = push::run(&mut m, &push_args(Some("be1@s1"), None, false)).unwrap_err();
    assert!(err.message.contains("rewind"), "{}", err.message);
    assert!(m.changes.is_empty());
    m.typed.push_back(B.to_owned());
    push::run(&mut m, &push_args(Some("be1@s1"), None, true)).unwrap();
    assert_eq!(m.names(B), vec!["s1"]);
    assert!(m.said.contains(&format!("    rewound to {B}@s1 (dest readonly)\n")));
}

#[test]
fn failed_push_leaves_the_dest_readonly() {
    let mut m = paired().breaks("stream");
    let err = push::run(&mut m, &push_args(None, None, false)).unwrap_err();
    assert!(err.message.starts_with("zfs receive rc="), "{}", err.message);
    assert_eq!(m.prop(B, "readonly"), "on");
    assert!(m.changes.contains(&format!("zfs set -u readonly=off {B}")));
    assert_eq!(m.changes.last().unwrap(), &format!("zfs set -u readonly=on {B}"));
}

#[test]
fn push_refuses_a_mounted_dest() {
    let mut m = paired().with(B, "mounted", "yes").with(B, "readonly", "off");
    let err = push::run(&mut m, &push_args(None, None, false)).unwrap_err();
    assert!(err.message.contains("is mounted+rw; refuses"), "{}", err.message);
    assert!(m.changes.is_empty());
}

#[test]
fn push_of_a_path_makes_an_unpaired_copy() {
    let mut m = paired();
    let copy = "rpool2/ROOT/copy";
    push::run(&mut m, &push_args(None, Some(copy), false)).unwrap();
    assert_eq!(m.prop(copy, "zboot:mirror"), "-");
    assert_eq!(m.prop(A, "zboot:mirror"), B);
    assert!(is_readonly_be(&m, copy));
}

#[test]
fn bounded_bootstrap_is_not_paired() {
    let mut m = two_pools();
    push::run(&mut m, &push_args(Some("be1@s1"), Some("rpool2"), false)).unwrap();
    assert_eq!(m.names(B), vec!["s1"]);
    assert_eq!(m.prop(A, "zboot:mirror"), "-");
    assert_eq!(m.prop(B, "zboot:mirror"), "-");
}

#[test]
fn push_of_a_clone_stands_alone() {
    let mut m = two_pools().with(A, "origin", "rpool/ROOT/base@s");
    push::run(&mut m, &push_args(None, Some("rpool2"), false)).unwrap();
    assert!(m.changes.contains(&format!("zfs send -p {A}@mirror-1 | zfs receive {B}")));
    assert!(m.said.contains(
        "  warning: source is a clone; bootstrap uses `zfs send -p` and won't transfer these own snapshots to dest:\n"
    ));
    assert!(m.said.contains(&format!("    {A}@s1\n")));
}

#[test]
fn push_without_a_peer_is_refused() {
    let mut m = two_pools();
    let err = push::run(&mut m, &push_args(None, None, false)).unwrap_err();
    assert_eq!(
        err.message,
        format!("{A} has no zboot:mirror peer; supply --to <pool> to bootstrap, or --to <pool>/ROOT/<name> for an ad-hoc copy")
    );
    let mut m = two_pools().with(A, "zboot:mirror", B);
    let err = push::run(&mut m, &push_args(None, None, false)).unwrap_err();
    assert!(err.message.contains("The pair pointer is dangling"), "{}", err.message);
}

// ---------------------------------------------------------------------------
// Pulling
// ---------------------------------------------------------------------------

#[test]
fn pull_by_name_makes_a_pair() {
    let mut m = two_pools().be("rpool2/ROOT/far", &["f1"]);
    pull::run(&mut m, &pull_args(Some("rpool2/ROOT/far"), Some("near"), false)).unwrap();
    let near = "rpool/ROOT/near";
    assert_eq!(m.names(near), vec!["f1", "mirror-1"]);
    assert!(is_readonly_be(&m, near));
    assert_eq!(m.prop(near, "zboot:mirror"), "rpool2/ROOT/far");
    assert_eq!(m.prop(near, "zboot:primary"), "off");
    assert_eq!(m.prop("rpool2/ROOT/far", "zboot:mirror"), near);
    // Whether the remote is primary is not the pull's business.
    assert_eq!(m.prop("rpool2/ROOT/far", "zboot:primary"), "-");
}

#[test]
fn bounded_pull_is_an_unpaired_copy() {
    let mut m = two_pools().be("rpool2/ROOT/far", &["f1", "f2"]);
    pull::run(&mut m, &pull_args(Some("rpool2/ROOT/far@f1"), Some("near"), false)).unwrap();
    assert_eq!(m.names("rpool/ROOT/near"), vec!["f1"]);
    assert_eq!(m.prop("rpool/ROOT/near", "zboot:mirror"), "-");
    assert_eq!(m.prop("rpool2/ROOT/far", "zboot:mirror"), "-");
}

#[test]
fn pull_brings_the_peers_snapshots() {
    let mut m = two_pools().be("rpool2/ROOT/far", &["f1"]);
    pull::run(&mut m, &pull_args(Some("rpool2/ROOT/far"), Some("near"), false)).unwrap();
    m.take("rpool2/ROOT/far", "f2");
    m.said.clear();
    pull::run(&mut m, &pull_args(Some("near"), None, false)).unwrap();
    assert_eq!(m.names("rpool/ROOT/near"), vec!["f1", "f2", "mirror-2"]);
    assert_eq!(
        m.said,
        "  pull rpool2/ROOT/far \u{2192} rpool/ROOT/near\n    pulled (local readonly)\n"
    );
}

#[test]
fn pull_refuses_divergence_and_the_running_be() {
    let mut m = two_pools().be("rpool2/ROOT/far", &["f1"]);
    pull::run(&mut m, &pull_args(Some("rpool2/ROOT/far"), Some("near"), false)).unwrap();
    m.take("rpool/ROOT/near", "own");
    m.changes.clear();
    let err = pull::run(&mut m, &pull_args(Some("near"), None, false)).unwrap_err();
    assert!(err.message.starts_with("refuses: local rpool/ROOT/near has 1 snapshot(s)"), "{}", err.message);
    let err = pull::run(&mut m, &pull_args(None, None, false)).unwrap_err();
    assert!(err.message.contains("is mounted+rw; refuses"), "{}", err.message);
    assert!(m.changes.is_empty(), "{:?}", m.changes);
    m.typed.push_back("rpool/ROOT/near".to_owned());
    pull::run(&mut m, &pull_args(Some("near"), None, true)).unwrap();
    assert!(!m.names("rpool/ROOT/near").contains(&"own".to_owned()));
}

#[test]
fn failed_pull_leaves_the_local_readonly() {
    let mut m = two_pools().be("rpool2/ROOT/far", &["f1"]);
    pull::run(&mut m, &pull_args(Some("rpool2/ROOT/far"), Some("near"), false)).unwrap();
    let mut m = m.breaks("stream");
    assert!(pull::run(&mut m, &pull_args(Some("near"), None, false)).is_err());
    assert_eq!(m.prop("rpool/ROOT/near", "readonly"), "on");
}

#[test]
fn pull_by_name_wants_a_path_and_a_free_name() {
    let mut m = two_pools().be("rpool2/ROOT/far", &["f1"]);
    let err = pull::run(&mut m, &pull_args(Some("far"), Some("near"), false)).unwrap_err();
    assert!(err.message.contains("must be the FULL remote dataset path"), "{}", err.message);
    let err = pull::run(&mut m, &pull_args(Some("rpool2/ROOT/far"), Some("be1"), false)).unwrap_err();
    assert!(err.message.contains("already exists; pick a different --name"), "{}", err.message);
    let err = pull::run(&mut m, &pull_args(None, Some("near"), false)).unwrap_err();
    assert_eq!(
        err.message,
        "`--name` requires the source BE path as a positional argument"
    );
    assert!(m.changes.is_empty());
}

// ---------------------------------------------------------------------------
// All at once
// ---------------------------------------------------------------------------

#[test]
fn mirror_tells_how_each_push_ended() {
    let mut m = paired()
        .be("rpool/ROOT/be2", &["t1"])
        .be("rpool2/ROOT/be2", &["own"])
        .with("rpool/ROOT/be2", "zboot:primary", "on")
        .with("rpool/ROOT/be2", "zboot:mirror", "rpool2/ROOT/be2")
        .be("rpool/ROOT/be3", &[])
        .with("rpool/ROOT/be3", "zboot:primary", "on");
    mirror::run(&mut m, &MirrorArgs { force: false }).unwrap();
    assert_eq!(
        m.said,
        format!(
            "=== mirror: walking 3 primary BE(s) ===\n  \
             {A} \u{2192} {B}\n    synced\n  \
             rpool/ROOT/be2 \u{2192} rpool2/ROOT/be2\n    \
             refused: divergent (1 dest-only snapshots; pass --force to truncate)\n  \
             rpool/ROOT/be3: no peers (Mirror unset and no incoming trackers); skip\n\n\
             === mirror summary: synced=1 no-op=0 refused=1 skipped=1 ===\n"
        )
    );
    assert!(is_readonly_be(&m, B));
    assert_eq!(m.names("rpool2/ROOT/be2"), vec!["own"]);
}

#[test]
fn mirror_feeds_those_that_track_a_primary() {
    let mut m = paired()
        .be("rpool2/ROOT/tracker", &[])
        .with("rpool2/ROOT/tracker", "zboot:mirror", A);
    mirror::run(&mut m, &MirrorArgs { force: false }).unwrap();
    assert!(m.said.contains(&format!("  {A} \u{2192} rpool2/ROOT/tracker\n    synced\n")));
    assert!(m.said.ends_with("=== mirror summary: synced=2 no-op=0 refused=0 skipped=0 ===\n"));
    assert!(is_readonly_be(&m, "rpool2/ROOT/tracker"));
}

#[test]
fn mirror_skips_what_it_cannot_reach() {
    let mut m = paired().with(B, "mounted", "yes").with(B, "readonly", "off");
    mirror::run(&mut m, &MirrorArgs { force: false }).unwrap();
    assert!(m.said.contains(&format!("    skipped: dest {B} is mounted+rw\n")));
    let mut m = Machine::default().pool("rpool");
    mirror::run(&mut m, &MirrorArgs { force: false }).unwrap();
    assert_eq!(
        m.said,
        "mirror: no BEs with zboot:primary=on found across imported root pools.\n"
    );
}

// ---------------------------------------------------------------------------
// Pairs
// ---------------------------------------------------------------------------

fn pair_args(a: &str, b: &str, force: bool) -> PairArgs {
    PairArgs { a: a.to_owned(), b: b.to_owned(), force }
}

#[test]
fn pair_points_both_ways() {
    let mut m = two_pools().be(B, &[]);
    pair::run_pair(&mut m, &pair_args(A, B, false)).unwrap();
    assert_eq!(m.prop(A, "zboot:mirror"), B);
    assert_eq!(m.prop(B, "zboot:mirror"), A);
    assert_eq!(m.prop(A, "zboot:primary"), "on");
    assert_eq!(m.prop(B, "zboot:primary"), "off");
    assert_eq!(m.said, format!("  paired {A} \u{2194} {B} (mutual; {A} is primary)\n"));
}

#[test]
fn pair_leaves_a_taken_peer_alone() {
    let mut m = paired().be("rpool/ROOT/third", &[]);
    pair::run_pair(&mut m, &pair_args("rpool/ROOT/third", B, false)).unwrap();
    assert_eq!(m.prop("rpool/ROOT/third", "zboot:mirror"), B);
    assert_eq!(m.prop("rpool/ROOT/third", "zboot:primary"), "off");
    assert_eq!(m.prop(B, "zboot:mirror"), A);
    assert!(m.changes.iter().all(|c| c.ends_with("rpool/ROOT/third")), "{:?}", m.changes);
}

#[test]
fn pair_refuses() {
    let mut m = two_pools().be("rpool/ROOT/be2", &[]).be(B, &["own"]);
    let refusal = |m: &mut Machine, a: &str, b: &str| {
        pair::run_pair(m, &pair_args(a, b, false)).unwrap_err().message
    };
    assert_eq!(refusal(&mut m, A, A), "can't pair a BE with itself");
    assert_eq!(
        refusal(&mut m, A, "rpool/ROOT/be2"),
        "pair must be cross-pool (got rpool for both sides)"
    );
    assert_eq!(
        refusal(&mut m, A, "rpool2/ROOT/none"),
        "dataset rpool2/ROOT/none does not exist"
    );
    assert!(refusal(&mut m, A, B).starts_with("refuses: GUID sets diverged"));
    assert!(m.changes.is_empty());
    pair::run_pair(&mut m, &pair_args(A, B, true)).unwrap();
    assert_eq!(
        refusal(&mut m, A, B),
        format!("{A} already has a pair; clear with `unpair` first")
    );
}

#[test]
fn unpair_undoes_pair() {
    let mut m = two_pools().be(B, &[]);
    pair::run_pair(&mut m, &pair_args(A, B, false)).unwrap();
    pair::run_unpair(&mut m, &UnpairArgs { be: A.to_owned() }).unwrap();
    for ds in [A, B] {
        assert_eq!(m.prop(ds, "zboot:mirror"), "-");
        assert_eq!(m.prop(ds, "zboot:primary"), "-");
    }
    let err = pair::run_unpair(&mut m, &UnpairArgs { be: A.to_owned() }).unwrap_err();
    assert_eq!(err.message, format!("{A} has no zboot:mirror; nothing to unpair"));
}

#[test]
fn unpair_leaves_another_pair_alone() {
    let mut m = paired().be("rpool/ROOT/third", &[]).with("rpool/ROOT/third", "zboot:mirror", B);
    pair::run_unpair(&mut m, &UnpairArgs { be: "rpool/ROOT/third".to_owned() }).unwrap();
    assert_eq!(m.prop("rpool/ROOT/third", "zboot:mirror"), "-");
    assert_eq!(m.prop(B, "zboot:mirror"), A);
    assert!(m.said.contains(&format!("  left {B} alone (its pair points at {A}, not at rpool/ROOT/third)\n")));
}

// ---------------------------------------------------------------------------
// Changing sides
// ---------------------------------------------------------------------------

fn primary_args(be: &str) -> PrimaryArgs {
    PrimaryArgs { be: be.to_owned() }
}

#[test]
fn primary_changes_sides_and_bootfs_follows() {
    let mut m = paired().with(A, "mounted", "no");
    primary::run(&mut m, &primary_args(B)).unwrap();
    assert_eq!(m.prop(B, "zboot:primary"), "on");
    assert_eq!(m.prop(A, "zboot:primary"), "off");
    assert_eq!(m.prop(B, "readonly"), "off");
    assert_eq!(m.prop(A, "readonly"), "on");
    assert_eq!(m.bootfs("rpool"), "-");
    assert_eq!(m.bootfs("rpool2"), B);
    assert_eq!(
        m.said,
        format!("  primary {B} (peer: {A})\n    bootfs[rpool] cleared\n    bootfs[rpool2] = {B}\n")
    );
}

#[test]
fn primary_keeps_the_state_of_a_running_peer() {
    let mut m = paired();
    primary::run(&mut m, &primary_args(B)).unwrap();
    assert_eq!(m.prop(A, "readonly"), "off");
    assert!(m.names(A).contains(&"pre-primary-2".to_owned()), "{:?}", m.names(A));
    assert!(m.said.contains(&format!("    skipped readonly=on on {A} (mounted at /; next reboot + `push be1` settles)\n")));
    assert!(m.said.contains("  Next steps to complete failover:\n"));
}

#[test]
fn primary_leaves_bootfs_where_the_demoted_side_does_not_boot() {
    let mut m = paired().with(A, "mounted", "no");
    m.pool_mut("rpool").insert("bootfs".to_owned(), "rpool/ROOT/other".to_owned());
    primary::run(&mut m, &primary_args(B)).unwrap();
    assert_eq!(m.prop(B, "zboot:primary"), "on");
    assert_eq!(m.bootfs("rpool"), "rpool/ROOT/other");
    assert_eq!(m.bootfs("rpool2"), "-");
}

#[test]
fn primary_leaves_an_asymmetric_peer_alone() {
    let third = "rpool2/ROOT/third";
    let mut m = paired().be(third, &[]).with(third, "zboot:mirror", A);
    primary::run(&mut m, &primary_args(third)).unwrap();
    assert_eq!(
        m.changes,
        vec![
            format!("zfs set -u zboot:primary=on {third}"),
            format!("zfs set -u readonly=off {third}"),
        ]
    );
    assert!(m.said.starts_with(&format!("  warning: {A} doesn't point back at {third} (asymmetric pair).")));
}

#[test]
fn primary_of_the_primary_is_a_no_op() {
    let mut m = paired();
    primary::run(&mut m, &primary_args("be1")).unwrap();
    assert!(m.changes.is_empty());
    assert_eq!(m.said, format!("  {A} is already zboot:primary=on — no-op.\n"));
    let mut m = two_pools();
    let err = primary::run(&mut m, &primary_args("be1")).unwrap_err();
    assert!(err.message.contains("has no zboot:mirror peer; primary operates on mutual pairs only."));
}

// ---------------------------------------------------------------------------
// Renaming
// ---------------------------------------------------------------------------

#[test]
fn rename_repoints_and_bootfs_follows() {
    let mut m = paired();
    let args = RenameArgs { be: "be1".to_owned(), new_name: "main".to_owned() };
    rename::run(&mut m, &args).unwrap();
    assert!(m.datasets.contains_key("rpool/ROOT/main"));
    assert!(!m.datasets.contains_key(A));
    assert_eq!(m.bootfs("rpool"), "rpool/ROOT/main");
    assert_eq!(m.prop(B, "zboot:mirror"), "rpool/ROOT/main");
    assert_eq!(
        m.said,
        format!("  rename {A} \u{2192} rpool/ROOT/main\n    update {B} mirror pointer\n")
    );
}

#[test]
fn rename_wants_a_free_bare_name() {
    let mut m = paired().be("rpool/ROOT/be2", &[]);
    let taken = RenameArgs { be: "be1".to_owned(), new_name: "be2".to_owned() };
    assert_eq!(
        rename::run(&mut m, &taken).unwrap_err().message,
        "target name rpool/ROOT/be2 already exists"
    );
    let path = RenameArgs { be: "be1".to_owned(), new_name: "a/b".to_owned() };
    assert_eq!(
        rename::run(&mut m, &path).unwrap_err().message,
        "--new-name takes a bare BE name, not a path (got \"a/b\")"
    );
    assert!(m.changes.is_empty());
}

// ---------------------------------------------------------------------------
// What the verbs share
// ---------------------------------------------------------------------------

#[test]
fn one_pool_is_active() {
    let mut m = two_pools();
    assert_eq!(zfs_ops::discover_active_pool(&mut m).unwrap(), "rpool");
    m.pool_mut("rpool2").insert("bootfs".to_owned(), B.to_owned());
    assert_eq!(
        zfs_ops::discover_active_pool(&mut m).unwrap_err().message,
        "more than one pool has a bootfs set (rpool, rpool2); can't determine active pool"
    );
    let mut m = Machine::default().pool("rpool");
    assert_eq!(
        zfs_ops::discover_active_pool(&mut m).unwrap_err().message,
        "no pool has a bootfs set; can't determine active pool"
    );
}

#[test]
fn pruning_spares_the_kept_and_tells_what_stays() {
    let mut m = Machine::default()
        .be(A, &["mirror-1", "mine", "mirror-2", "mirror-3"])
        .breaks(&format!("zfs destroy {A}@mirror-1"));
    zfs_ops::prune_old_anchors(&mut m, A, &format!("{A}@mirror-3"));
    assert_eq!(m.names(A), vec!["mirror-1", "mine", "mirror-3"]);
    assert_eq!(
        m.traced,
        format!(
            "+ zfs destroy {A}@mirror-1\n\
             `zfs destroy {A}@mirror-1` exited rc=1: broken: zfs destroy {A}@mirror-1\n\
             + zfs destroy {A}@mirror-2\n"
        )
    );
}

#[test]
fn setting_is_judged_by_what_reads_back() {
    let mut m = Machine::default().be(A, &[]).breaks("zfs set");
    let err = zfs_ops::set_property_tolerant(&mut m, A, "readonly", "on").unwrap_err();
    assert_eq!(
        err.message,
        format!("zfs set readonly=on on {A} did not take effect (actual=off)")
    );
    m.set(A, "readonly", "on");
    zfs_ops::set_property_tolerant(&mut m, A, "readonly", "on").unwrap();
}

#[test]
fn bytes_are_not_dirty_without_a_snapshot() {
    let mut m = Machine::default().be(A, &[]).be(B, &["s"]);
    assert_eq!(zfs_ops::dirty_bytes_since_latest(&mut m, A), None);
    assert_eq!(zfs_ops::dirty_bytes_since_latest(&mut m, B), Some(0));
}

// ---------------------------------------------------------------------------
// Attaching
// ---------------------------------------------------------------------------

fn attach_args(to: Option<&str>) -> AttachArgs {
    AttachArgs { dataset: "rpool/home".to_owned(), to: to.map(str::to_owned) }
}

#[test]
fn attach_follows_what_boots() {
    let mut m = two_pools().be("rpool/ROOT/be2", &[]).with("rpool/home", "mountpoint", "/home");
    attach::run(&mut m, &attach_args(Some("rpool:be1,rpool:be2"))).unwrap();
    assert_eq!(m.prop("rpool/home", "zboot:attached-to"), "rpool:be1,rpool:be2");
    assert_eq!(m.prop("rpool/home", "canmount"), "on");
    attach::run(&mut m, &attach_args(Some("rpool:be2"))).unwrap();
    assert_eq!(m.prop("rpool/home", "canmount"), "off");
    assert_eq!(m.prop("rpool/home", "mountpoint"), "/home");
    m.said.clear();
    attach::run(&mut m, &attach_args(None)).unwrap();
    assert_eq!(
        m.said,
        "rpool/home\n  zboot:attached-to : rpool:be2\n  canmount       : off\n  mountpoint     : /home\n"
    );
    attach::detach(&mut m, &DetachArgs { dataset: "rpool/home".to_owned() }).unwrap();
    assert_eq!(m.prop("rpool/home", "zboot:attached-to"), "-");
    assert_eq!(m.prop("rpool/home", "canmount"), "off");
}

#[test]
fn attach_refuses_what_is_no_be() {
    let mut m = two_pools().with("rpool/home", "mountpoint", "/home");
    let err = attach::run(&mut m, &attach_args(Some("rpool:none"))).unwrap_err();
    assert_eq!(
        err.message,
        "attach: unknown BE(s) in --to list: rpool:none (some datasets don't exist; check the pool prefix). Run `zboot status` to see the BE catalog."
    );
    assert!(m.changes.is_empty());
}

// ---------------------------------------------------------------------------
// The kernel's command line
// ---------------------------------------------------------------------------

fn cmdline_args(action: Option<CmdlineAction>, be: Option<&str>, root: Option<&str>) -> CmdlineArgs {
    CmdlineArgs { action, be: be.map(str::to_owned), root: root.map(str::to_owned) }
}

#[test]
fn cmdline_is_set_shown_and_cleared() {
    let mut m = two_pools();
    let set = CmdlineAction::Assign { value: "quiet splash".to_owned() };
    cmdline::run(&mut m, &cmdline_args(Some(set), None, None)).unwrap();
    assert_eq!(m.prop(A, "zboot:kernel-cmdline"), "quiet splash");
    m.said.clear();
    cmdline::run(&mut m, &cmdline_args(None, Some(A), None)).unwrap();
    assert_eq!(m.said, format!("{A}: quiet splash  [local]\n"));
    cmdline::run(&mut m, &cmdline_args(Some(CmdlineAction::Clear), None, None)).unwrap();
    m.said.clear();
    cmdline::run(&mut m, &cmdline_args(Some(CmdlineAction::Get), None, None)).unwrap();
    assert_eq!(m.said, format!("{A}: (unset)  [-]\n"));
}

#[test]
fn cmdline_of_a_pool_stands_on_its_root() {
    let mut m = two_pools().with("rpool/ROOT", "canmount", "off");
    let set = CmdlineAction::Assign { value: "quiet".to_owned() };
    cmdline::run(&mut m, &cmdline_args(Some(set), None, Some("rpool"))).unwrap();
    assert_eq!(m.prop("rpool/ROOT", "zboot:kernel-cmdline"), "quiet");
}

#[test]
fn cmdline_edit_saves_what_was_typed() {
    let edit = |m: &mut Machine| {
        cmdline::run(m, &cmdline_args(Some(CmdlineAction::Edit), Some(A), None)).unwrap();
    };
    let mut m = two_pools().types("  quiet nomodeset\n").types("quiet nomodeset\n").types("\n");
    edit(&mut m);
    assert_eq!(m.prop(A, "zboot:kernel-cmdline"), "quiet nomodeset");
    m.said.clear();
    edit(&mut m);
    assert_eq!(m.said, "no change\n");
    edit(&mut m);
    assert_eq!(m.prop(A, "zboot:kernel-cmdline"), "-");
    assert!(!m.files.keys().any(|f| f.starts_with("/tmp/")));
}

// ---------------------------------------------------------------------------
// Forks, drops, snapshots
// ---------------------------------------------------------------------------

fn fork_args(name: &str, from: &str) -> ForkArgs {
    ForkArgs { name: name.to_owned(), from: from.to_owned() }
}

#[test]
fn fork_makes_a_be_that_shares() {
    let mut m = paired().with("rpool/home", "zboot:attached-to", "rpool:be1");
    fork::run(&mut m, &fork_args("be2", &format!("{A}@s1"))).unwrap();
    let new = "rpool/ROOT/be2";
    assert!(m.traced.contains(&format!("+ zfs clone -o canmount=noauto -o mountpoint=/ {A}@s1 {new}\n")));
    assert_eq!(m.prop(new, "zboot:be"), "true");
    assert_eq!(m.prop(new, "canmount"), "noauto");
    assert_eq!(m.prop(new, "mountpoint"), "/");
    assert_eq!(m.prop(new, "origin"), format!("{A}@s1"));
    // Two boot environments cannot have one peer.
    assert_eq!(m.prop(new, "zboot:mirror"), "-");
    assert_eq!(m.prop("rpool/home", "zboot:attached-to"), "rpool:be1,rpool:be2");
    assert_eq!(
        m.said,
        format!(
            "Created {new} (cloned from {A}@s1); zboot:be=true\n\
             Sharing 1 bound dataset(s) with rpool:be1:\n  \
             rpool/home -> rpool:be1,rpool:be2\n"
        )
    );
    let err = fork::run(&mut m, &fork_args("be2", &format!("{A}@s1"))).unwrap_err();
    assert!(err.message.starts_with(&format!("fork: target dataset already exists: {new}")));
}

#[test]
fn fork_of_a_bare_name_is_of_what_a_root_pool_boots() {
    let mut m = two_pools();
    m.pools.insert("data".to_owned(), BTreeMap::new());
    m.pool_mut("data").insert("bootfs".to_owned(), "data/old".to_owned());
    fork::run(&mut m, &fork_args("be2", "s2")).unwrap();
    assert_eq!(m.prop("rpool/ROOT/be2", "origin"), format!("{A}@s2"));
    assert!(m.said.contains("No bound datasets reference rpool:be1 — new BE has no shared state."));
    m.pool_mut("rpool").remove("bootfs");
    let err = fork::run(&mut m, &fork_args("be3", "s2")).unwrap_err();
    assert!(err.message.starts_with("can't resolve bare snapshot name"), "{}", err.message);
}

#[test]
fn drop_destroys_the_target_and_tidies() {
    let mut m = paired()
        .with("rpool2/home", "zboot:attached-to", "rpool2:be1")
        .with("rpool/home", "zboot:attached-to", "rpool:be1,rpool2:be1")
        .be("rpool2/ROOT/clone", &[])
        .with("rpool2/ROOT/clone", "origin", &format!("{B}@s1"))
        .types(&format!("{B}\n"));
    drop::run(&mut m, &DropArgs { name: B.to_owned() }).unwrap();
    assert!(!m.datasets.contains_key(B));
    assert!(m.datasets.contains_key("rpool2/home"));
    assert!(m.datasets.contains_key("rpool2/ROOT/clone"));
    assert_eq!(m.prop(A, "zboot:mirror"), "-");
    assert_eq!(m.prop("rpool/home", "zboot:attached-to"), "rpool:be1");
    assert_eq!(
        m.changes.iter().filter(|c| c.contains("destroy")).collect::<Vec<_>>(),
        vec![&format!("zfs destroy -r {B}")]
    );
    assert_eq!(
        m.said,
        format!(
            "promoted: rpool2/ROOT/clone\n\
             destroyed: {B}\n\
             cleared zboot:mirror on {A} (was pointing at dropped {B})\n\
             orphaned: rpool2/home (no live binding remains; remove with `zfs destroy rpool2/home` if no longer needed)\n"
        )
    );
}

#[test]
fn drop_tells_what_it_could_not_look_at() {
    let mut m = paired().types(B).breaks("zpool get -H -o value zboot:role rpool2");
    drop::run(&mut m, &DropArgs { name: B.to_owned() }).unwrap();
    assert!(m.said.contains("note: zpool get zboot:role rpool2 rc="), "{}", m.said);
    assert_eq!(m.prop(A, "zboot:mirror"), "-");
}

#[test]
fn drop_refuses_what_runs() {
    let mut m = paired().types(A);
    let err = drop::run(&mut m, &DropArgs { name: A.to_owned() }).unwrap_err();
    assert!(err.message.contains("is the active BE (bootfs points here)"), "{}", err.message);
    m.pool_mut("rpool").remove("bootfs");
    let err = drop::run(&mut m, &DropArgs { name: A.to_owned() }).unwrap_err();
    assert!(err.message.contains("is mounted as the live `/`"), "{}", err.message);
    assert!(m.changes.is_empty());
}

#[test]
fn snapshot_is_of_what_boots() {
    let mut m = two_pools();
    snapshot::run(&mut m, &SnapshotArgs { name: Some("now".to_owned()) }).unwrap();
    assert_eq!(m.changes, vec![format!("zfs snapshot {A}@now")]);
    m.nanos = 1_778_337_000_000_000_000;
    snapshot::run(&mut m, &SnapshotArgs { name: None }).unwrap();
    assert_eq!(m.names(A).last().unwrap(), "snapshot-20260509T143000Z");
}

#[test]
fn status_changes_nothing_and_shows_the_pair() {
    let mut m = paired();
    status::run(&mut m, &StatusArgs { no_import: true }).unwrap();
    assert!(m.changes.is_empty());
    assert!(m.said.starts_with(&format!("Booted: {A}\nPools:\n  rpool  role=root  bootfs={A}\n")));
    assert!(m.said.contains("* be1 [rw] [primary]\n"), "{}", m.said);
    assert!(m.said.contains("  be1 [ro] [mirror]\n"), "{}", m.said);
    assert!(m.said.contains(&format!("mirror:  {B} ")), "{}", m.said);
}

#[test]
fn mirror_shows_the_front_of_an_error() {
    let mut m = paired().breaks("zfs snapshot");
    mirror::run(&mut m, &MirrorArgs { force: false }).unwrap();
    assert!(m.said.contains("    skipped: snapshot source\n"), "{}", m.said);
    assert!(m.said.ends_with("=== mirror summary: synced=0 no-op=0 refused=0 skipped=1 ===\n"));
}

#[test]
fn forced_pull_needs_the_name_of_the_local() {
    let mut m = two_pools().be("rpool2/ROOT/far", &["f1"]);
    pull::run(&mut m, &pull_args(Some("rpool2/ROOT/far"), Some("near"), false)).unwrap();
    m.take("rpool/ROOT/near", "own");
    m.changes.clear();
    m.typed.push_back("yes".to_owned());
    assert!(pull::run(&mut m, &pull_args(Some("near"), None, true)).is_err());
    assert!(m.changes.is_empty(), "{:?}", m.changes);
}

// ---------------------------------------------------------------------------
// Output that is lost
// ---------------------------------------------------------------------------

#[test]
fn fork_tells_of_a_lost_line() {
    let mut m = paired().with("rpool/home", "zboot:attached-to", "rpool:be1").shows(0);
    let err = fork::run(&mut m, &fork_args("be2", &format!("{A}@s1"))).unwrap_err();
    assert_eq!(err.message, "write: Broken pipe (os error 32)");
    assert_eq!(m.prop("rpool/home", "zboot:attached-to"), "rpool:be1");
    let mut m = paired().with("rpool/home", "zboot:attached-to", "rpool:be1").shows(1);
    let err = fork::run(&mut m, &fork_args("be2", &format!("{A}@s1"))).unwrap_err();
    assert_eq!(err.message, "write: Broken pipe (os error 32)");
    assert_eq!(m.said, format!("Created rpool/ROOT/be2 (cloned from {A}@s1); zboot:be=true\n"));
    assert_eq!(m.prop("rpool/home", "zboot:attached-to"), "rpool:be1");
}

#[test]
fn cmdline_tells_of_a_lost_line() {
    let set = CmdlineAction::Assign { value: "quiet".to_owned() };
    let mut m = paired().shows(0);
    let err = cmdline::run(&mut m, &cmdline_args(Some(set), Some(A), None)).unwrap_err();
    assert_eq!(err.message, "write set output: Broken pipe (os error 32)");
    assert_eq!(m.prop(A, "zboot:kernel-cmdline"), "quiet");
    let err = cmdline::run(&mut m, &cmdline_args(None, Some(A), None)).unwrap_err();
    assert_eq!(err.message, "write get output: Broken pipe (os error 32)");
    let clear = Some(CmdlineAction::Clear);
    let err = cmdline::run(&mut m, &cmdline_args(clear, Some(A), None)).unwrap_err();
    assert_eq!(err.message, "write clear output: Broken pipe (os error 32)");
    assert_eq!(m.prop(A, "zboot:kernel-cmdline"), "-");
}

#[test]
fn mirror_goes_on_after_a_lost_line() {
    let mut m = paired().shows(0);
    mirror::run(&mut m, &MirrorArgs { force: false }).unwrap();
    assert!(m.said.is_empty());
    assert!(is_readonly_be(&m, B));
}

#[test]
fn drop_tells_of_a_pointer_that_stays() {
    let mut m = paired().types(B).breaks(&format!("zfs inherit zboot:mirror {A}"));
    drop::run(&mut m, &DropArgs { name: B.to_owned() }).unwrap();
    assert!(m.said.contains(&format!("note: `zfs inherit zboot:mirror {A}` ")), "{}", m.said);
    assert!(!m.said.contains("cleared zboot:mirror"), "{}", m.said);
}

#[test]
fn drop_reports_the_promotions_it_called() {
    let mut m = paired()
        .be("rpool2/ROOT/c1", &[])
        .with("rpool2/ROOT/c1", "origin", &format!("{B}@s1"))
        .be("rpool2/ROOT/c2", &[])
        .with("rpool2/ROOT/c2", "origin", &format!("{B}@s2"))
        .types(B);
    drop::run(&mut m, &DropArgs { name: B.to_owned() }).unwrap();
    let called: Vec<String> = m
        .changes
        .iter()
        .filter_map(|c| c.strip_prefix("zfs promote ").map(|d| format!("promoted: {d}")))
        .collect();
    let told: Vec<&str> = m.said.lines().filter(|l| l.starts_with("promoted: ")).collect();
    assert_eq!(called, told);
    assert!(!told.is_empty());
}
