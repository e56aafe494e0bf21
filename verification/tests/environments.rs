#![allow(dead_code)]

use std::collections::VecDeque;

use zboot::cmd::default::DefaultArgs;
use zboot::cmd::drop;
use zboot::cmd::drop::{DatasetRow, DropArgs};
use zboot::cmd::fork;
use zboot::cmd::fork::ForkArgs;
use zboot::cmd::status;
use zboot::cmd::status::{BoundDataset, StateSnapshot};
use zboot::model::{
    parse_property, BootEnvironment, BoundKey, BoundList, Forest, Pool, PoolRole, Property,
    SnapshotRef,
};
use zboot::sub::{Answer, Request, RunOutput, Runner, World};

fn refused(m: &str) -> Answer {
    Answer { failure: Some(m.to_owned()), ..Answer::default() }
}

fn printed(stdout: String) -> Answer {
    Answer { stdout, ..Answer::default() }
}

/// A host that has nothing.
struct Silent;

impl Runner for Silent {
    fn world(&self) -> World {
        unreachable!("only contracts speak of it")
    }

    fn perform(&mut self, q: Request) -> Answer {
        panic!("unexpected: {q:?}")
    }
}

// ---------------------------------------------------------------------------
// What boots next
// ---------------------------------------------------------------------------

/// A host that plays a recorded transcript: each command has to be the next
/// one of it. Questions beside it find no answer.
#[derive(Default)]
struct FakeRunner {
    expectations: VecDeque<(String, Vec<String>, RunOutput)>,
    observed: Vec<(String, Vec<String>)>,
    said: String,
}

impl FakeRunner {
    fn expect(&mut self, prog: &str, args: &[&str], rc: i32, stdout: &str, stderr: &str) {
        self.expectations.push_back((
            prog.to_owned(),
            args.iter().map(|s| (*s).to_owned()).collect(),
            RunOutput { rc, stdout: stdout.to_owned(), stderr: stderr.to_owned() },
        ));
    }

    fn next(&mut self, prog: &str, args: &[String]) -> Answer {
        let beside = ["zboot:primary", "zboot:mirror"].iter().any(|p| args.iter().any(|a| a == p))
            || args == ["list", "-H", "-o", "name"];
        if beside {
            return refused("no such program");
        }
        self.observed.push((prog.to_owned(), args.to_vec()));
        let (eprog, eargs, out) = self
            .expectations
            .pop_front()
            .unwrap_or_else(|| panic!("unexpected call: {prog} {args:?}"));
        assert_eq!(prog, eprog, "prog mismatch (observed args: {args:?})");
        assert_eq!(eargs, args, "args mismatch for {prog}");
        Answer { rc: out.rc, stdout: out.stdout, stderr: out.stderr, ..Answer::default() }
    }
}

impl Runner for FakeRunner {
    fn world(&self) -> World {
        unreachable!("only contracts speak of it")
    }

    fn perform(&mut self, q: Request) -> Answer {
        match q {
            Request::Run { prog, args } => self.next(&prog, &args),
            Request::Say { text } => {
                self.said.push_str(&text);
                self.said.push('\n');
                Answer::default()
            }
            Request::Trace { text: _ } => Answer::default(),
            _ => refused("not here"),
        }
    }
}

fn zpool_list_text() -> &'static str {
    "rpool\trpool/ROOT/BE1\t111\n"
}

fn zpool_list_two_pools() -> &'static str {
    "rpool\trpool/ROOT/BE1\t111\nrpool2\trpool2/ROOT/BE1\t222\n"
}

/// rpool active (bootfs=BE1); rpool2 has no bootfs set.
fn zpool_list_two_pools_one_active() -> &'static str {
    "rpool\trpool/ROOT/BE1\t111\nrpool2\t-\t222\n"
}

// ------------------------------------------------------------------
// Helpers — typical fixed transcript prefix shared by most tests.
// ------------------------------------------------------------------

fn expect_discovery_single_pool(r: &mut FakeRunner, zboot_be_text: &str, bound_text: &str) {
    r.expect(
        "zpool",
        &["list", "-Hp", "-o", "name,bootfs,guid"],
        0,
        zpool_list_text(),
        "",
    );
    r.expect(
        "zpool",
        &[
            "get",
            "-Hp",
            "-o",
            "name,property,value",
            "zboot:role",
            "rpool",
        ],
        0,
        "rpool\tzboot:role\troot\n",
        "",
    );
    r.expect(
        "zfs",
        &[
            "get",
            "-Hpr",
            "-o",
            "name,property,value",
            "zboot:be",
            "rpool",
        ],
        0,
        zboot_be_text,
        "",
    );
    // After bootfs decision, list_bound_datasets is called.
    r.expect(
        "zfs",
        &[
            "get",
            "-Hpr",
            "-o",
            "name,property,value",
            "zboot:attached-to,canmount",
            "rpool",
        ],
        0,
        bound_text,
        "",
    );
}

// ------------------------------------------------------------------
// Test cases
// ------------------------------------------------------------------

#[test]
fn default_unknown_be_errors_without_writing() {
    let mut r = FakeRunner::default();
    r.expect(
        "zpool",
        &["list", "-Hp", "-o", "name,bootfs,guid"],
        0,
        zpool_list_text(),
        "",
    );
    r.expect(
        "zpool",
        &[
            "get",
            "-Hp",
            "-o",
            "name,property,value",
            "zboot:role",
            "rpool",
        ],
        0,
        "rpool\tzboot:role\troot\n",
        "",
    );
    r.expect(
        "zfs",
        &[
            "get",
            "-Hpr",
            "-o",
            "name,property,value",
            "zboot:be",
            "rpool",
        ],
        0,
        "rpool/ROOT/BE1\tzboot:be\ttrue\n",
        "",
    );
    let res = zboot::cmd::default::run_with_runner(&DefaultArgs { name: "ghost".into() }, &mut r);
    let err = res.unwrap_err();
    let msg = err.message;
    assert!(msg.contains("ghost"), "{msg}");
    // No `zpool set` / `zfs set` calls expected.
    assert!(r.expectations.is_empty(), "queue should be drained");
    assert!(
        !r.observed
            .iter()
            .any(|(p, a)| p == "zpool" && a.first().is_some_and(|x| x == "set")),
        "must not call zpool set on error: {:?}",
        r.observed
    );
}

#[test]
fn default_idempotent_on_active_be() {
    let mut r = FakeRunner::default();
    expect_discovery_single_pool(
        &mut r,
        "rpool/ROOT/BE1\tzboot:be\ttrue\n",
        "", // no bound datasets
    );
    // No `zpool set bootfs=` because BE1 is already active.
    // No `zfs set` calls because no bound datasets.
    zboot::cmd::default::run_with_runner(&DefaultArgs { name: "BE1".into() }, &mut r).unwrap();
    let out = r.said.clone();
    assert!(out.contains("already active"), "{out}");
    assert!(
        !r.observed
            .iter()
            .any(|(p, a)| p == "zpool" && a.first().is_some_and(|x| x == "set")),
        "no zpool set on idempotent path: {:?}",
        r.observed
    );
    assert!(r.expectations.is_empty(), "queue should be drained");
}

#[test]
fn default_sets_bootfs_when_changing_be() {
    let mut r = FakeRunner::default();
    // Pool says active=BE1, two BEs exist; we'll switch to BE2.
    r.expect(
        "zpool",
        &["list", "-Hp", "-o", "name,bootfs,guid"],
        0,
        zpool_list_text(),
        "",
    );
    r.expect(
        "zpool",
        &[
            "get",
            "-Hp",
            "-o",
            "name,property,value",
            "zboot:role",
            "rpool",
        ],
        0,
        "rpool\tzboot:role\troot\n",
        "",
    );
    r.expect(
        "zfs",
        &[
            "get",
            "-Hpr",
            "-o",
            "name,property,value",
            "zboot:be",
            "rpool",
        ],
        0,
        "rpool/ROOT/BE1\tzboot:be\ttrue\nrpool/ROOT/BE2\tzboot:be\ttrue\n",
        "",
    );
    // bootfs change first.
    r.expect(
        "zpool",
        &["set", "bootfs=rpool/ROOT/BE2", "rpool"],
        0,
        "",
        "",
    );
    // Then bound-dataset listing (empty in this test).
    r.expect(
        "zfs",
        &[
            "get",
            "-Hpr",
            "-o",
            "name,property,value",
            "zboot:attached-to,canmount",
            "rpool",
        ],
        0,
        "",
        "",
    );
    zboot::cmd::default::run_with_runner(&DefaultArgs { name: "BE2".into() }, &mut r).unwrap();
    assert!(r.expectations.is_empty(), "queue should be drained");
}

#[test]
fn default_unbinds_dataset_bound_to_other_be_only() {
    let mut r = FakeRunner::default();
    r.expect(
        "zpool",
        &["list", "-Hp", "-o", "name,bootfs,guid"],
        0,
        zpool_list_text(),
        "",
    );
    r.expect(
        "zpool",
        &[
            "get",
            "-Hp",
            "-o",
            "name,property,value",
            "zboot:role",
            "rpool",
        ],
        0,
        "rpool\tzboot:role\troot\n",
        "",
    );
    r.expect(
        "zfs",
        &[
            "get",
            "-Hpr",
            "-o",
            "name,property,value",
            "zboot:be",
            "rpool",
        ],
        0,
        "rpool/ROOT/BE1\tzboot:be\ttrue\nrpool/ROOT/BE2\tzboot:be\ttrue\n",
        "",
    );
    r.expect(
        "zpool",
        &["set", "bootfs=rpool/ROOT/BE2", "rpool"],
        0,
        "",
        "",
    );
    // /home is bound only to BE1; switching to BE2 must set its
    // canmount=off (active BE not in bound-to list).
    r.expect(
        "zfs",
        &[
            "get",
            "-Hpr",
            "-o",
            "name,property,value",
            "zboot:attached-to,canmount",
            "rpool",
        ],
        0,
        "rpool/home\tzboot:attached-to\trpool:BE1\n\
         rpool/home\tcanmount\ton\n",
        "",
    );
    r.expect("zfs", &["set", "canmount=off", "rpool/home"], 0, "", "");

    zboot::cmd::default::run_with_runner(&DefaultArgs { name: "BE2".into() }, &mut r).unwrap();
    assert!(r.expectations.is_empty(), "queue should be drained");
}

#[test]
fn default_remounts_dataset_bound_to_target() {
    let mut r = FakeRunner::default();
    r.expect(
        "zpool",
        &["list", "-Hp", "-o", "name,bootfs,guid"],
        0,
        zpool_list_text(),
        "",
    );
    r.expect(
        "zpool",
        &[
            "get",
            "-Hp",
            "-o",
            "name,property,value",
            "zboot:role",
            "rpool",
        ],
        0,
        "rpool\tzboot:role\troot\n",
        "",
    );
    r.expect(
        "zfs",
        &[
            "get",
            "-Hpr",
            "-o",
            "name,property,value",
            "zboot:be",
            "rpool",
        ],
        0,
        "rpool/ROOT/BE1\tzboot:be\ttrue\nrpool/ROOT/BE2\tzboot:be\ttrue\n",
        "",
    );
    r.expect(
        "zpool",
        &["set", "bootfs=rpool/ROOT/BE2", "rpool"],
        0,
        "",
        "",
    );
    // /home is bound to BE1+BE2; switching from BE1 to BE2 keeps mount.
    // Current mountpoint shows `none` to verify we *do* set it.
    r.expect(
        "zfs",
        &[
            "get",
            "-Hpr",
            "-o",
            "name,property,value",
            "zboot:attached-to,canmount",
            "rpool",
        ],
        0,
        "rpool/home\tzboot:attached-to\trpool:BE1,rpool:BE2\n\
         rpool/home\tcanmount\toff\n",
        "",
    );
    r.expect("zfs", &["set", "canmount=on", "rpool/home"], 0, "", "");

    zboot::cmd::default::run_with_runner(&DefaultArgs { name: "BE2".into() }, &mut r).unwrap();
    assert!(r.expectations.is_empty(), "queue should be drained");
}

#[test]
fn default_skips_zfs_set_when_mountpoint_already_correct() {
    let mut r = FakeRunner::default();
    r.expect(
        "zpool",
        &["list", "-Hp", "-o", "name,bootfs,guid"],
        0,
        zpool_list_text(),
        "",
    );
    r.expect(
        "zpool",
        &[
            "get",
            "-Hp",
            "-o",
            "name,property,value",
            "zboot:role",
            "rpool",
        ],
        0,
        "rpool\tzboot:role\troot\n",
        "",
    );
    r.expect(
        "zfs",
        &[
            "get",
            "-Hpr",
            "-o",
            "name,property,value",
            "zboot:be",
            "rpool",
        ],
        0,
        "rpool/ROOT/BE1\tzboot:be\ttrue\n",
        "",
    );
    // Already-active BE; idempotent path. canmount=on already
    // matches "BE1 in bound-to" → no `zfs set` call needed.
    r.expect(
        "zfs",
        &[
            "get",
            "-Hpr",
            "-o",
            "name,property,value",
            "zboot:attached-to,canmount",
            "rpool",
        ],
        0,
        "rpool/home\tzboot:attached-to\trpool:BE1\n\
         rpool/home\tcanmount\ton\n",
        "",
    );

    zboot::cmd::default::run_with_runner(&DefaultArgs { name: "BE1".into() }, &mut r).unwrap();
    assert!(r.expectations.is_empty(), "queue should be drained");
}

#[test]
fn default_finds_be_in_second_root_pool() {
    let mut r = FakeRunner::default();
    r.expect(
        "zpool",
        &["list", "-Hp", "-o", "name,bootfs,guid"],
        0,
        zpool_list_two_pools(),
        "",
    );
    r.expect(
        "zpool",
        &[
            "get",
            "-Hp",
            "-o",
            "name,property,value",
            "zboot:role",
            "rpool",
            "rpool2",
        ],
        0,
        "rpool\tzboot:role\troot\nrpool2\tzboot:role\troot\n",
        "",
    );
    r.expect(
        "zfs",
        &[
            "get",
            "-Hpr",
            "-o",
            "name,property,value",
            "zboot:be",
            "rpool",
            "rpool2",
        ],
        0,
        "rpool/ROOT/BE1\tzboot:be\ttrue\nrpool2/ROOT/BE1\tzboot:be\ttrue\n",
        "",
    );
    // Both pools have a BE named "BE1"; disambiguate by passing the
    // full dataset path. Target is rpool's BE1 (already-active there),
    // so bootfs on rpool isn't reset. BUT rpool2 has a stale bootfs
    // from the fixture, which the cross-pool single-active invariant
    // clears.
    r.expect(
        "zpool",
        &["set", "bootfs=", "rpool2"],
        0,
        "",
        "",
    );
    r.expect(
        "zfs",
        &[
            "get",
            "-Hpr",
            "-o",
            "name,property,value",
            "zboot:attached-to,canmount",
            "rpool",
            "rpool2",
        ],
        0,
        "",
        "",
    );

    zboot::cmd::default::run_with_runner(&DefaultArgs { name: "rpool/ROOT/BE1".into() }, &mut r)
    .unwrap();
    assert!(r.expectations.is_empty(), "queue should be drained");
}

#[test]
fn default_refuses_ambiguous_be_name_across_pools() {
    let mut r = FakeRunner::default();
    r.expect("zpool", &["list", "-Hp", "-o", "name,bootfs,guid"], 0, zpool_list_two_pools(), "");
    r.expect(
        "zpool",
        &["get", "-Hp", "-o", "name,property,value", "zboot:role", "rpool", "rpool2"],
        0,
        "rpool\tzboot:role\troot\nrpool2\tzboot:role\troot\n",
        "",
    );
    r.expect(
        "zfs",
        &["get", "-Hpr", "-o", "name,property,value", "zboot:be", "rpool", "rpool2"],
        0,
        "rpool/ROOT/BE1\tzboot:be\ttrue\nrpool2/ROOT/BE1\tzboot:be\ttrue\n",
        "",
    );
    let err = zboot::cmd::default::run_with_runner(&DefaultArgs { name: "BE1".into() }, &mut r)
    .unwrap_err();
    let msg = err.message;
    assert!(msg.contains("ambiguous"), "{msg}");
    assert!(msg.contains("full dataset path"), "{msg}");
}

/// Crash-safety: when `default` switches the active pool, the
/// loser's bootfs MUST be cleared before the winner's bootfs is
/// set. A mid-crash with the opposite order would leave two pools
/// with bootfs set — bootloader picks one alphabetically and the
/// user has no idea which.
#[test]
fn default_clears_losing_pool_before_setting_winner() {
    let mut r = FakeRunner::default();
    // rpool is active (bootfs=rpool/ROOT/BE1); rpool2 has BE2 we'll switch to.
    r.expect(
        "zpool",
        &["list", "-Hp", "-o", "name,bootfs,guid"],
        0,
        zpool_list_two_pools_one_active(),
        "",
    );
    r.expect(
        "zpool",
        &[
            "get",
            "-Hp",
            "-o",
            "name,property,value",
            "zboot:role",
            "rpool",
            "rpool2",
        ],
        0,
        "rpool\tzboot:role\troot\nrpool2\tzboot:role\troot\n",
        "",
    );
    r.expect(
        "zfs",
        &[
            "get",
            "-Hpr",
            "-o",
            "name,property,value",
            "zboot:be",
            "rpool",
            "rpool2",
        ],
        0,
        "rpool/ROOT/BE1\tzboot:be\ttrue\nrpool2/ROOT/BE2\tzboot:be\ttrue\n",
        "",
    );
    // ORDER MATTERS — the FakeRunner enforces it via FIFO dequeue.
    // (1) Clear rpool first (it's the loser).
    r.expect("zpool", &["set", "bootfs=", "rpool"], 0, "", "");
    // (2) THEN set rpool2 (the winner).
    r.expect(
        "zpool",
        &["set", "bootfs=rpool2/ROOT/BE2", "rpool2"],
        0,
        "",
        "",
    );
    r.expect(
        "zfs",
        &[
            "get",
            "-Hpr",
            "-o",
            "name,property,value",
            "zboot:attached-to,canmount",
            "rpool",
            "rpool2",
        ],
        0,
        "",
        "",
    );

    zboot::cmd::default::run_with_runner(&DefaultArgs { name: "BE2".into() }, &mut r).unwrap();
    assert!(r.expectations.is_empty(), "queue should be drained");

    // Belt-and-suspenders: also cross-check the recorded sequence.
    let order: Vec<String> = r
        .observed
        .iter()
        .filter_map(|(prog, args)| {
            if prog == "zpool" && args.first().map(String::as_str) == Some("set") {
                Some(args.join(" "))
            } else {
                None
            }
        })
        .collect();
    assert_eq!(order.len(), 2, "expected 2 zpool set calls, got {order:?}");
    assert!(
        order[0].contains("bootfs= rpool"),
        "first zpool set must clear the loser; got {:?}",
        order[0]
    );
    assert!(
        order[1].contains("bootfs=rpool2/ROOT/BE2 rpool2"),
        "second zpool set must set the winner; got {:?}",
        order[1]
    );
}

#[test]
fn default_split_dataset_pool_and_name_basic() {
    assert_eq!(
        zboot::cmd::default::split_dataset_pool_and_name("rpool/ROOT/BE1"),
        ("rpool", "BE1")
    );
    assert_eq!(zboot::cmd::default::split_dataset_pool_and_name("rpool/home"), ("rpool", "home"));
}

// -- readonly-clearing helper -------------------------------------------

#[test]
fn target_be_readonly_on_detects_on() {
    let mut r = FakeRunner::default();
    r.expect(
        "zfs",
        &[
            "get",
            "-Hp",
            "-o",
            "value",
            "readonly",
            "rpool2/ROOT/be2",
        ],
        0,
        "on\n",
        "",
    );
    assert!(zboot::cmd::default::target_be_readonly_on(&mut r, "rpool2/ROOT/be2").unwrap());
}

#[test]
fn target_be_readonly_on_returns_false_when_off() {
    let mut r = FakeRunner::default();
    r.expect(
        "zfs",
        &[
            "get",
            "-Hp",
            "-o",
            "value",
            "readonly",
            "rpool/ROOT/BE1",
        ],
        0,
        "off\n",
        "",
    );
    assert!(!zboot::cmd::default::target_be_readonly_on(&mut r, "rpool/ROOT/BE1").unwrap());
}

#[test]
fn target_be_readonly_on_returns_false_when_unparseable() {
    let mut r = FakeRunner::default();
    r.expect(
        "zfs",
        &["get", "-Hp", "-o", "value", "readonly", "rpool/ROOT/BE1"],
        0,
        "-\n", // unset / inherited
        "",
    );
    assert!(!zboot::cmd::default::target_be_readonly_on(&mut r, "rpool/ROOT/BE1").unwrap());
}
// ---------------------------------------------------------------------------
// Dropping
// ---------------------------------------------------------------------------

/// Pools and datasets in memory.
#[derive(Default)]
struct Pools {
    datasets: Vec<DatasetRow>,
    pools: Vec<(String, Option<String>)>,
    calls: Vec<String>,
    typed: String,
    said: String,
}

impl Pools {
    fn typing(line: &str) -> Pools {
        Pools { typed: line.to_owned(), ..Pools::default() }
    }

    fn add_pool(&mut self, name: &str, bootfs: Option<&str>) {
        self.pools.push((name.into(), bootfs.map(str::to_owned)));
    }

    fn add_be(&mut self, dataset: &str, origin: Option<&str>) {
        self.datasets.push(DatasetRow {
            name: dataset.into(),
            is_be: true,
            origin: origin.and_then(SnapshotRef::parse),
            bound_to: None,
        });
    }

    fn add_bound(&mut self, dataset: &str, bound_to: &str) {
        self.datasets.push(DatasetRow {
            name: dataset.into(),
            is_be: false,
            origin: None,
            bound_to: Some(BoundList::parse(bound_to).unwrap()),
        });
    }

    fn table(&self, names: &[String]) -> String {
        let mut out = String::new();
        for n in names {
            let r = self.datasets.iter().find(|r| r.name == *n).unwrap();
            let be = if r.is_be { "true" } else { "-" };
            let origin = r.origin.as_ref().map_or("-".to_owned(), |o| o.render());
            let bound = r.bound_to.as_ref().map_or("-".to_owned(), |b| b.render());
            out.push_str(&format!("{n}\tzboot:be\t{be}\n"));
            out.push_str(&format!("{n}\torigin\t{origin}\n"));
            out.push_str(&format!("{n}\tzboot:attached-to\t{bound}\n"));
        }
        out
    }

    /// The promoted dataset loses its origin, and what it was cloned from
    /// becomes its clone.
    fn promote(&mut self, dataset: &str) {
        let i = self.datasets.iter().position(|r| r.name == dataset).unwrap();
        let former = self.datasets[i].origin.as_ref().map(|o| o.dataset.clone());
        self.datasets[i].origin = None;
        if let Some(former) = former {
            if let Some(parent) = self.datasets.iter_mut().find(|r| r.name == former) {
                parent.origin = SnapshotRef::parse(&format!("{dataset}@promoted-snap"));
            }
        }
    }

    fn bind(&mut self, dataset: &str, list: Option<BoundList>) {
        if let Some(row) = self.datasets.iter_mut().find(|r| r.name == dataset) {
            row.bound_to = list;
        }
    }

    fn play(&mut self, prog: &str, args: &[String]) -> Answer {
        let line = args.join(" ");
        if prog == "zpool" && line == "list -Hp -o name,bootfs" {
            let rows = self.pools.iter().map(|(n, b)| {
                format!("{n}\t{}\n", b.as_deref().unwrap_or("-"))
            });
            return printed(rows.collect());
        }
        if prog == "zpool" && line == "list -Hp -o name" {
            return printed(self.pools.iter().map(|(n, _)| format!("{n}\n")).collect());
        }
        if line == "list -Hp -o name -t filesystem" {
            return printed(self.datasets.iter().map(|r| format!("{}\n", r.name)).collect());
        }
        if line.starts_with("get -Hp -o name,property,value zboot:be,origin,zboot:attached-to") {
            return printed(self.table(&args[5..]));
        }
        match args[0].as_str() {
            "promote" => {
                self.calls.push(format!("promote {}", args[1]));
                self.promote(&args[1]);
            }
            "destroy" => {
                assert_eq!(args[1], "-r");
                self.calls.push(format!("destroy {}", args[2]));
                self.datasets.retain(|r| r.name != args[2]);
            }
            "set" => {
                let value = args[1].strip_prefix("zboot:attached-to=").unwrap();
                self.calls.push(format!("set bound-to={value} {}", args[2]));
                self.bind(&args[2], Some(BoundList::parse(value).unwrap()));
            }
            "inherit" => {
                assert_eq!(args[1], "zboot:attached-to");
                self.calls.push(format!("unset bound-to {}", args[2]));
                self.bind(&args[2], None);
            }
            _ => {}
        }
        Answer::default()
    }
}

impl Runner for Pools {
    fn world(&self) -> World {
        unreachable!("only contracts speak of it")
    }

    fn perform(&mut self, q: Request) -> Answer {
        match q {
            Request::Run { prog, args } => self.play(&prog, &args),
            Request::Say { text } => {
                self.said.push_str(&text);
                self.said.push('\n');
                Answer::default()
            }
            Request::Show { text } => {
                self.said.push_str(&text);
                Answer::default()
            }
            Request::Ask => printed(self.typed.clone()),
            Request::ReadFile { path: _ } => refused("not here"),
            _ => Answer::default(),
        }
    }
}

fn drop_args(name: &str) -> DropArgs {
    DropArgs { name: name.to_owned() }
}

// --- confirm_with -------------------------------------------------------

#[test]
fn confirm_with_exact_match_succeeds() {
    let mut input = Pools::typing("rpool/ROOT/BE2\n");
    drop::confirm_with(&mut input, "rpool/ROOT/BE2").unwrap();
}

#[test]
fn confirm_with_trailing_whitespace_ok() {
    let mut input = Pools::typing("rpool/ROOT/BE2  \n");
    drop::confirm_with(&mut input, "rpool/ROOT/BE2").unwrap();
}

#[test]
fn confirm_with_mismatch_fails() {
    let mut input = Pools::typing("BE2\n");
    let err = drop::confirm_with(&mut input, "rpool/ROOT/BE2").unwrap_err();
    assert!(err.message.contains("mismatch"));
}

#[test]
fn confirm_with_eof_fails() {
    let mut input = Pools::typing("");
    let err = drop::confirm_with(&mut input, "rpool/ROOT/BE2").unwrap_err();
    assert!(err.message.contains("no confirmation"));
}

// --- locate_target_be ---------------------------------------------------

#[test]
fn locate_finds_unique_be() {
    let mut z = Pools::default();
    z.add_be("rpool/ROOT/BE1", None);
    z.add_be("rpool/ROOT/BE2", Some("rpool/ROOT/BE1@snap1"));
    let t = drop::locate_target_be(&mut z, "BE2").unwrap();
    assert_eq!(t.dataset, "rpool/ROOT/BE2");
    assert_eq!(t.pool, "rpool");
}

#[test]
fn locate_errors_when_missing() {
    let mut z = Pools::default();
    z.add_be("rpool/ROOT/BE1", None);
    let err = drop::locate_target_be(&mut z, "ghost").unwrap_err();
    assert!(err.message.contains("no BE named"));
}

#[test]
fn locate_errors_when_ambiguous() {
    let mut z = Pools::default();
    z.add_be("rpool/ROOT/BE1", None);
    z.add_be("rpool2/ROOT/BE1", None);
    let err = drop::locate_target_be(&mut z, "BE1").unwrap_err();
    assert!(err.message.contains("multiple BEs"));
    assert!(
        err.message.contains("full dataset path"),
        "error should mention full dataset path: {}", err.message
    );
}

#[test]
fn locate_accepts_fully_qualified_dataset() {
    let mut z = Pools::default();
    z.add_be("rpool/ROOT/BE1", None);
    z.add_be("rpool2/ROOT/BE1", None);
    let t = drop::locate_target_be(&mut z, "rpool2/ROOT/BE1").unwrap();
    assert_eq!(t.dataset, "rpool2/ROOT/BE1");
    assert_eq!(t.pool, "rpool2");
}

#[test]
fn locate_errors_on_unknown_fully_qualified() {
    let mut z = Pools::default();
    z.add_be("rpool/ROOT/BE1", None);
    let err = drop::locate_target_be(&mut z, "rpool/ROOT/ghost").unwrap_err();
    assert!(err.message.contains("no BE matching dataset"));
}

// --- is_active ----------------------------------------------------------

#[test]
fn is_active_when_bootfs_matches() {
    let mut z = Pools::default();
    z.add_pool("rpool", Some("rpool/ROOT/BE1"));
    assert!(drop::is_active(&mut z, "rpool/ROOT/BE1").unwrap());
    assert!(!drop::is_active(&mut z, "rpool/ROOT/BE2").unwrap());
}

#[test]
fn is_active_false_when_no_bootfs() {
    let mut z = Pools::default();
    z.add_pool("rpool", None);
    assert!(!drop::is_active(&mut z, "rpool/ROOT/BE1").unwrap());
}

// --- promote_dependent_clones ------------------------------------------

#[test]
fn promote_clears_one_dependent() {
    let mut z = Pools::default();
    z.add_be("rpool/ROOT/BE1", None);
    z.add_be("rpool/ROOT/BE2", Some("rpool/ROOT/BE1@snap1"));
    let promoted = drop::promote_dependent_clones(&mut z, "rpool/ROOT/BE1").unwrap();
    assert_eq!(promoted, vec!["rpool/ROOT/BE2"]);
    // After promote, no clone hangs off BE1.
    let rows = z.datasets.clone();
    assert!(!rows.iter().any(|r| {
        r.origin
            .as_ref()
            .is_some_and(|o| o.dataset == "rpool/ROOT/BE1")
    }));
}

#[test]
fn promote_noop_when_no_clones() {
    let mut z = Pools::default();
    z.add_be("rpool/ROOT/BE1", None);
    let promoted = drop::promote_dependent_clones(&mut z, "rpool/ROOT/BE1").unwrap();
    assert!(promoted.is_empty());
}

// --- purge_be_from_bound_lists -----------------------------------------

#[test]
fn purge_removes_key_from_shared_list() {
    let mut z = Pools::default();
    z.add_bound("rpool/home", "rpool:BE1,rpool:BE2");
    let key = BoundKey::new("rpool", "BE2");
    let orphans = drop::purge_be_from_bound_lists(&mut z, &key).unwrap();
    assert!(orphans.is_empty());
    // /home now binds only to BE1.
    let rows = z.datasets.clone();
    let home = rows.iter().find(|r| r.name == "rpool/home").unwrap();
    assert_eq!(home.bound_to.as_ref().unwrap().render(), "rpool:BE1");
}

#[test]
fn purge_orphans_dataset_when_last_key_removed() {
    let mut z = Pools::default();
    z.add_bound("rpool/home", "rpool:BE3");
    let key = BoundKey::new("rpool", "BE3");
    let orphans = drop::purge_be_from_bound_lists(&mut z, &key).unwrap();
    assert_eq!(orphans, vec!["rpool/home"]);
    let rows = z.datasets.clone();
    let home = rows.iter().find(|r| r.name == "rpool/home").unwrap();
    assert!(home.bound_to.is_none());
}

#[test]
fn purge_skips_unrelated_lists() {
    let mut z = Pools::default();
    z.add_bound("rpool/home", "rpool:BE1");
    let key = BoundKey::new("rpool", "BE2");
    let orphans = drop::purge_be_from_bound_lists(&mut z, &key).unwrap();
    assert!(orphans.is_empty());
    let rows = z.datasets.clone();
    let home = rows.iter().find(|r| r.name == "rpool/home").unwrap();
    // Untouched.
    assert_eq!(home.bound_to.as_ref().unwrap().render(), "rpool:BE1");
}

// --- run_inner end-to-end (against FakeZfs) ----------------------------

#[test]
fn run_inner_drops_non_active_be_with_correct_confirmation() {
    let mut z = Pools::default();
    z.add_pool("rpool", Some("rpool/ROOT/BE1"));
    z.add_be("rpool/ROOT/BE1", None);
    z.add_be("rpool/ROOT/BE2", Some("rpool/ROOT/BE1@snap1"));
    z.add_bound("rpool/home", "rpool:BE1,rpool:BE2");

    z.typed = "rpool/ROOT/BE2\n".to_owned();
    drop::run(&mut z, &drop_args("BE2")).unwrap();

    let stdout = z.said.clone();
    assert!(stdout.contains("destroyed: rpool/ROOT/BE2"), "{stdout}");
    // No orphan — /home still binds to BE1.
    assert!(!stdout.contains("orphaned:"), "{stdout}");

    // BE2 gone from datasets; /home still bound to BE1.
    let rows = z.datasets.clone();
    assert!(rows.iter().all(|r| r.name != "rpool/ROOT/BE2"));
    let home = rows.iter().find(|r| r.name == "rpool/home").unwrap();
    assert_eq!(home.bound_to.as_ref().unwrap().render(), "rpool:BE1");
}

#[test]
fn run_inner_refuses_active_be() {
    let mut z = Pools::default();
    z.add_pool("rpool", Some("rpool/ROOT/BE1"));
    z.add_be("rpool/ROOT/BE1", None);

    z.typed = "rpool/ROOT/BE1\n".to_owned();
    let err = drop::run(&mut z, &drop_args("BE1")).unwrap_err();
    let msg = err.message;
    assert!(msg.contains("active BE"), "got: {msg}");
    // Datasets untouched.
    let rows = z.datasets.clone();
    assert_eq!(rows.len(), 1);
}

#[test]
fn run_inner_refuses_on_confirmation_mismatch() {
    let mut z = Pools::default();
    z.add_pool("rpool", Some("rpool/ROOT/BE1"));
    z.add_be("rpool/ROOT/BE1", None);
    z.add_be("rpool/ROOT/BE2", None);

    z.typed = "BE2\n".to_owned();
    let err = drop::run(&mut z, &drop_args("BE2")).unwrap_err();
    let msg = err.message;
    assert!(msg.contains("rpool/ROOT/BE2"), "got: {msg}");
    // BE2 untouched.
    let rows = z.datasets.clone();
    assert!(rows.iter().any(|r| r.name == "rpool/ROOT/BE2"));
}

#[test]
fn run_inner_surfaces_orphan_when_last_binding_removed() {
    let mut z = Pools::default();
    z.add_pool("rpool", Some("rpool/ROOT/BE1"));
    z.add_be("rpool/ROOT/BE1", None);
    z.add_be("rpool/ROOT/BE3", None);
    z.add_bound("rpool/home3", "rpool:BE3");

    z.typed = "rpool/ROOT/BE3\n".to_owned();
    drop::run(&mut z, &drop_args("BE3")).unwrap();

    let stdout = z.said.clone();
    assert!(stdout.contains("orphaned: rpool/home3"), "{stdout}");
    // Orphan dataset itself is NOT destroyed — only its property
    // was cleared.
    let rows = z.datasets.clone();
    assert!(rows.iter().any(|r| r.name == "rpool/home3"));
}

#[test]
fn run_inner_promotes_dependent_clone_before_destroy() {
    // BE1 → BE2 → BE3 chain. Drop BE2 must promote BE3.
    let mut z = Pools::default();
    z.add_pool("rpool", Some("rpool/ROOT/BE1"));
    z.add_be("rpool/ROOT/BE1", None);
    z.add_be("rpool/ROOT/BE2", Some("rpool/ROOT/BE1@snap1"));
    z.add_be("rpool/ROOT/BE3", Some("rpool/ROOT/BE2@snap2"));

    z.typed = "rpool/ROOT/BE2\n".to_owned();
    drop::run(&mut z, &drop_args("BE2")).unwrap();

    let stdout = z.said.clone();
    assert!(stdout.contains("promoted: rpool/ROOT/BE3"), "{stdout}");
    assert!(stdout.contains("destroyed: rpool/ROOT/BE2"), "{stdout}");

    let calls = &z.calls;
    // promote must precede destroy in the call order.
    let promote_idx = calls
        .iter()
        .position(|c| c.starts_with("promote "))
        .unwrap();
    let destroy_idx = calls
        .iter()
        .position(|c| c.starts_with("destroy "))
        .unwrap();
    assert!(promote_idx < destroy_idx, "calls: {calls:?}");
}

// --- path utilities -----------------------------------------------------

#[test]
fn dataset_pool_and_leaf_basic() {
    assert_eq!(drop::dataset_pool("rpool/ROOT/BE1"), "rpool");
    assert_eq!(drop::dataset_leaf("rpool/ROOT/BE1"), "BE1");
    assert_eq!(drop::dataset_pool("rpool"), "rpool");
    assert_eq!(drop::dataset_leaf("rpool"), "rpool");
}

// ---------------------------------------------------------------------------
// Forking
// ---------------------------------------------------------------------------

fn make_props(items: &[(&str, &str, &str)]) -> Vec<(String, Property)> {
    items
        .iter()
        .map(|(name, prop, value)| {
            (
                (*name).to_owned(),
                parse_property(prop, value).expect("test fixture parse"),
            )
        })
        .collect()
}

// --- pool_of / last_component ------------------------------------------

#[test]
fn pool_of_basic() {
    assert_eq!(fork::pool_of("rpool/ROOT/be1"), "rpool");
    assert_eq!(fork::pool_of("rpool"), "rpool");
    assert_eq!(fork::pool_of(""), "");
}

#[test]
fn last_component_basic() {
    assert_eq!(fork::last_component("rpool/ROOT/be1"), "be1");
    assert_eq!(fork::last_component("rpool/home"), "home");
    assert_eq!(fork::last_component("rpool"), "rpool");
}

#[test]
fn resolve_from_qualified_passes_through() {
    let r = fork::resolve_from(&mut Silent, "rpool/ROOT/be1@snap1").unwrap();
    assert_eq!(r.dataset, "rpool/ROOT/be1");
    assert_eq!(r.name, "snap1");
}

#[test]
fn resolve_from_rejects_empty() {
    assert!(fork::resolve_from(&mut Silent, "").is_err());
}

// Bare-name resolution shells out to `zpool list`; the live path
// is exercised by the e2e shell scripts. Here we only cover the
// qualified form and the empty case to keep tests hermetic.

// --- check_origin_lineage ----------------------------------------------

#[test]
fn lineage_ok_when_dataset_is_root() {
    let datasets = vec!["rpool/ROOT/be1".to_owned()];
    let props = make_props(&[("rpool/ROOT/be1", "origin", "-")]);
    assert!(fork::check_origin_lineage("rpool/ROOT/be1", &datasets, &props).is_ok());
}

#[test]
fn lineage_ok_when_parent_present() {
    let datasets = vec!["rpool/ROOT/be1".to_owned(), "rpool/ROOT/be2".to_owned()];
    let props = make_props(&[
        ("rpool/ROOT/be1", "origin", "-"),
        ("rpool/ROOT/be2", "origin", "rpool/ROOT/be1@snap1"),
    ]);
    assert!(fork::check_origin_lineage("rpool/ROOT/be2", &datasets, &props).is_ok());
}

#[test]
fn lineage_refuses_when_start_dataset_missing() {
    let datasets: Vec<String> = vec![];
    let props: Vec<(String, Property)> = vec![];
    let err = fork::check_origin_lineage("rpool/ROOT/ghost", &datasets, &props).unwrap_err();
    let msg = err.message;
    assert!(msg.contains("zfs promote"), "{msg}");
    assert!(msg.contains("ghost"), "{msg}");
}

#[test]
fn lineage_refuses_when_origin_dataset_dropped() {
    // be2 cloned from be1; be1 has been destroyed (not in datasets).
    let datasets = vec!["rpool/ROOT/be2".to_owned()];
    let props = make_props(&[("rpool/ROOT/be2", "origin", "rpool/ROOT/be1@snap1")]);
    let err = fork::check_origin_lineage("rpool/ROOT/be2", &datasets, &props).unwrap_err();
    let msg = err.message;
    assert!(msg.contains("zfs promote"), "expected hint, got: {msg}");
    assert!(msg.contains("rpool/ROOT/be1"), "{msg}");
}

#[test]
fn lineage_refuses_on_deeper_chain() {
    // be3 cloned from be2; be2 cloned from be1; be1 destroyed.
    let datasets = vec!["rpool/ROOT/be2".to_owned(), "rpool/ROOT/be3".to_owned()];
    let props = make_props(&[
        ("rpool/ROOT/be2", "origin", "rpool/ROOT/be1@snap1"),
        ("rpool/ROOT/be3", "origin", "rpool/ROOT/be2@snap1"),
    ]);
    let err = fork::check_origin_lineage("rpool/ROOT/be3", &datasets, &props).unwrap_err();
    let msg = err.message;
    assert!(msg.contains("zfs promote"), "{msg}");
    assert!(msg.contains("rpool/ROOT/be1"), "{msg}");
}

// --- ForkArgs validation (via run, but stubbing ZFS would be heavy;
//     just exercise the early-return arg validation here) ---------------

#[test]
fn run_rejects_malformed_from() {
    // `dataset@` has `@` but an empty snap name — rejected by
    // SnapshotRef::parse early, before any zpool/zfs subprocess
    // (which keeps this test runnable in CI without ZFS installed).
    // A bare name without `@` is now a valid shorthand resolved
    // against the active BE; not a malformed form.
    let args = ForkArgs {
        name: "be2".into(),
        from: "rpool/ROOT/be1@".into(),
    };
    let err = fork::run(&mut Silent, &args).unwrap_err();
    let msg = err.message;
    assert!(msg.contains("--from"), "{msg}");
}

#[test]
fn run_rejects_empty_name() {
    let args = ForkArgs {
        name: String::new(),
        from: "rpool/ROOT/be1@snap1".into(),
    };
    let err = fork::run(&mut Silent, &args).unwrap_err();
    let msg = err.message;
    assert!(msg.contains("non-empty"), "{msg}");
}

#[test]
fn run_rejects_name_with_slash() {
    let args = ForkArgs {
        name: "ROOT/be2".into(),
        from: "rpool/ROOT/be1@snap1".into(),
    };
    let err = fork::run(&mut Silent, &args).unwrap_err();
    let msg = err.message;
    assert!(msg.contains("bare BE name"), "{msg}");
}

#[test]
fn run_rejects_name_with_at() {
    let args = ForkArgs {
        name: "be2@bad".into(),
        from: "rpool/ROOT/be1@snap1".into(),
    };
    let err = fork::run(&mut Silent, &args).unwrap_err();
    let msg = err.message;
    assert!(msg.contains("bare BE name"), "{msg}");
}

// ---------------------------------------------------------------------------
// Status
// ---------------------------------------------------------------------------

fn pool(name: &str, role: Option<PoolRole>, bootfs: Option<&str>) -> Pool {
    let mut p = Pool::new(name);
    p.role = role;
    p.bootfs = bootfs.map(str::to_owned);
    p.guid = Some(123_456_789);
    p
}

fn be(pool: &str, name: &str, origin: Option<&str>) -> BootEnvironment {
    let mut b = BootEnvironment::new(pool, name);
    b.origin = origin.and_then(SnapshotRef::parse);
    b
}

fn bound(dataset: &str, bound_to: &str) -> BoundDataset {
    BoundDataset {
        dataset: dataset.into(),
        bound_to: BoundList::parse(bound_to).unwrap(),
    }
}

fn render_string(snapshot: &StateSnapshot) -> String {
    let mut p = Pools::default();
    status::render_human(&mut p, snapshot).unwrap();
    p.said
}

// --- empty case ---------------------------------------------------------

#[test]
fn empty_snapshot_renders_pools_and_bes_sections() {
    let s = render_string(&StateSnapshot {
        pools: vec![],
        forest: Forest::from_origins(vec![]),
        bound_datasets: vec![],
    });
    assert!(s.contains("Pools:\n  (none)"), "got: {s}");
    assert!(s.contains("Boot environments:\n  (none)"), "got: {s}");
    assert!(
        !s.contains("Orphans:"),
        "no orphans section when empty: {s}"
    );
}

// --- fresh: one pool, one BE, no orphans --------------------------------

fn fresh_snapshot() -> StateSnapshot {
    StateSnapshot {
        pools: vec![pool("rpool", Some(PoolRole::Root), Some("rpool/ROOT/be1"))],
        forest: Forest::from_origins(vec![be("rpool", "be1", None)]),
        bound_datasets: vec![],
    }
}

#[test]
fn fresh_renders_active_marker() {
    let s = render_string(&fresh_snapshot());
    assert!(s.contains("role=root"), "{s}");
    assert!(s.contains("bootfs=rpool/ROOT/be1"), "{s}");
    // Active BE marker.
    assert!(s.contains("* be1") || s.contains("*be1"), "{s}");
    assert!(s.contains("dataset: rpool/ROOT/be1"), "{s}");
}

// --- forked: BE1 + BE2 (cloned) -----------------------------------------

fn forked_snapshot() -> StateSnapshot {
    StateSnapshot {
        pools: vec![pool("rpool", Some(PoolRole::Root), Some("rpool/ROOT/be1"))],
        forest: Forest::from_origins(vec![
            be("rpool", "be1", None),
            be("rpool", "be2", Some("rpool/ROOT/be1@snap1")),
        ]),
        bound_datasets: vec![],
    }
}

#[test]
fn forked_origin_shown_in_human_output() {
    let s = render_string(&forked_snapshot());
    assert!(
        s.contains("origin:  rpool/ROOT/be1@snap1"),
        "expected origin under be2, got:\n{s}"
    );
}

#[test]
fn forked_human_uses_tree_connectors() {
    let s = render_string(&forked_snapshot());
    // BE2 is a child of BE1 — should appear nested via connector.
    assert!(
        s.contains("├── ") || s.contains("└── "),
        "expected tree connector chars, got:\n{s}"
    );
}

// --- bound: /home bound to BE1 only -------------------------------------

fn bound_snapshot() -> StateSnapshot {
    StateSnapshot {
        pools: vec![pool("rpool", Some(PoolRole::Root), Some("rpool/ROOT/be1"))],
        forest: Forest::from_origins(vec![be("rpool", "be1", None)]),
        bound_datasets: vec![bound("rpool/home", "rpool:be1")],
    }
}

#[test]
fn bound_human_lists_bound_dataset_under_be() {
    let s = render_string(&bound_snapshot());
    assert!(s.contains("bound:"), "{s}");
    assert!(s.contains("- rpool/home"), "{s}");
    assert!(!s.contains("Orphans:"), "{s}");
}

// --- shared-bound: /home bound to BE1+BE2 -------------------------------

fn shared_bound_snapshot() -> StateSnapshot {
    StateSnapshot {
        pools: vec![pool("rpool", Some(PoolRole::Root), Some("rpool/ROOT/be1"))],
        forest: Forest::from_origins(vec![
            be("rpool", "be1", None),
            be("rpool", "be2", Some("rpool/ROOT/be1@snap1")),
        ]),
        bound_datasets: vec![bound("rpool/home", "rpool:be1,rpool:be2")],
    }
}

#[test]
fn shared_bound_human_marks_share() {
    let s = render_string(&shared_bound_snapshot());
    assert!(
        s.contains("shared with"),
        "expected `shared with` annotation, got:\n{s}"
    );
}

// --- orphan -------------------------------------------------------------

#[test]
fn orphan_surfaces_when_all_bound_to_keys_stale() {
    // /home was bound to be-gone, which no longer exists.
    let snapshot = StateSnapshot {
        pools: vec![pool("rpool", Some(PoolRole::Root), Some("rpool/ROOT/be1"))],
        forest: Forest::from_origins(vec![be("rpool", "be1", None)]),
        bound_datasets: vec![bound("rpool/home", "rpool:be-gone")],
    };
    let s = render_string(&snapshot);
    assert!(s.contains("Orphans:"), "{s}");
    assert!(s.contains("[!] rpool/home"), "{s}");
}

#[test]
fn dataset_with_one_live_one_dead_key_is_not_an_orphan() {
    let snapshot = StateSnapshot {
        pools: vec![pool("rpool", Some(PoolRole::Root), Some("rpool/ROOT/be1"))],
        forest: Forest::from_origins(vec![be("rpool", "be1", None)]),
        bound_datasets: vec![bound("rpool/home", "rpool:be1,rpool:dead")],
    };
    let s = render_string(&snapshot);
    assert!(!s.contains("Orphans:"), "{s}");
}

// --- multi-pool ---------------------------------------------------------

#[test]
fn multi_pool_lists_both_pools_with_role_root() {
    let snapshot = StateSnapshot {
        pools: vec![
            pool("rpool", Some(PoolRole::Root), Some("rpool/ROOT/be1")),
            pool("rpool2", Some(PoolRole::Root), None),
        ],
        forest: Forest::from_origins(vec![be("rpool", "be1", None), be("rpool2", "be1", None)]),
        bound_datasets: vec![],
    };
    let s = render_string(&snapshot);
    assert!(s.contains("rpool"), "{s}");
    assert!(s.contains("rpool2"), "{s}");
    assert!(s.contains("pool rpool:"), "{s}");
    assert!(s.contains("pool rpool2:"), "{s}");
}

// --- helpers ------------------------------------------------------------

#[test]
fn status_split_dataset_pool_and_name_basic() {
    assert_eq!(status::split_dataset_pool_and_name("rpool"), ("rpool", "rpool"));
    assert_eq!(
        status::split_dataset_pool_and_name("rpool/ROOT/be1"),
        ("rpool", "be1")
    );
    assert_eq!(status::split_dataset_pool_and_name("rpool/home"), ("rpool", "home"));
}
