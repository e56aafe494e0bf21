//! What there is to boot: the root pools, their boot environments, and the
//! kernels in each.
//!
//! Nothing here changes a pool. A boot environment is mounted, and that only
//! read-only and only by the first process of the machine.

use vstd::prelude::*;

use crate::effects;
use crate::error;
use crate::error::Error;
use crate::facts;
use crate::facts::Rows;
use crate::model;
use crate::model::{
    Be, BootEnvironment, BoundList, Forest, Key, Pool, PoolFacts, PoolRole, Property, SnapshotRef,
};
use crate::order;
use crate::paths;
use crate::pools;
use crate::state;
use crate::sub;
use crate::sub::{Call, Runner, World};
use crate::text;
use crate::version;
use crate::zfs_ops;

verus! {

// ---------------------------------------------------------------------------
// What is found
// ---------------------------------------------------------------------------

/// All that was found.
#[derive(Debug)]
pub struct DiscoverV1 {
    pub pools: Vec<PoolJson>,
    pub bes: Vec<BeJson>,
}

/// One root pool.
#[derive(Debug)]
pub struct PoolJson {
    pub name: String,
    /// `root`.
    pub role: String,
    pub bootfs: Option<String>,
    pub guid: Option<u64>,
}

/// One boot environment.
#[derive(Debug)]
pub struct BeJson {
    pub pool: String,
    pub dataset: String,
    /// Last component of the dataset.
    pub name: String,
    /// The snapshot it was cloned from.
    pub origin: Option<String>,
    /// Its pool boots it next.
    pub active: bool,
    /// It is a replica.
    pub readonly: bool,
    /// The `pool:be` keys of what it is bound to.
    pub bound_to: Vec<String>,
    /// The kernels in its `/boot`.
    pub kernels: Vec<KernelEntry>,
    /// Where it is mounted.
    pub mount_root: Option<String>,
}

/// One kernel of a boot environment.
#[derive(Debug)]
pub struct KernelEntry {
    /// Its file name.
    pub vmlinuz: String,
    /// The file name of its boot image.
    pub initrd: Option<String>,
    /// The `vmlinuz` link points at it.
    pub default: bool,
}

/// All that was found, by what is known of it.
#[verifier::ext_equal]
pub struct Found {
    pub pools: Seq<FoundPool>,
    pub bes: Seq<FoundBe>,
}

/// One root pool, by what is known of it.
#[verifier::ext_equal]
pub struct FoundPool {
    pub name: Seq<char>,
    pub role: Seq<char>,
    pub bootfs: Option<Seq<char>>,
    pub guid: Option<u64>,
}

/// One boot environment, by what is known of it.
#[verifier::ext_equal]
pub struct FoundBe {
    pub pool: Seq<char>,
    pub dataset: Seq<char>,
    pub name: Seq<char>,
    pub origin: Option<Seq<char>>,
    pub active: bool,
    pub readonly: bool,
    pub bound_to: Seq<Seq<char>>,
    pub kernels: Seq<Kernel>,
    pub mount_root: Option<Seq<char>>,
}

/// One kernel, by what is known of it.
#[verifier::ext_equal]
pub struct Kernel {
    pub vmlinuz: Seq<char>,
    pub initrd: Option<Seq<char>>,
    pub default: bool,
}

impl DeepView for KernelEntry {
    type V = Kernel;

    open spec fn deep_view(&self) -> Kernel {
        Kernel {
            vmlinuz: self.vmlinuz@,
            initrd: self.initrd.deep_view(),
            default: self.default,
        }
    }
}

impl DeepView for PoolJson {
    type V = FoundPool;

    open spec fn deep_view(&self) -> FoundPool {
        FoundPool {
            name: self.name@,
            role: self.role@,
            bootfs: self.bootfs.deep_view(),
            guid: self.guid,
        }
    }
}

impl DeepView for BeJson {
    type V = FoundBe;

    open spec fn deep_view(&self) -> FoundBe {
        FoundBe {
            pool: self.pool@,
            dataset: self.dataset@,
            name: self.name@,
            origin: self.origin.deep_view(),
            active: self.active,
            readonly: self.readonly,
            bound_to: self.bound_to.deep_view(),
            kernels: self.kernels.deep_view(),
            mount_root: self.mount_root.deep_view(),
        }
    }
}

impl DeepView for DiscoverV1 {
    type V = Found;

    open spec fn deep_view(&self) -> Found {
        Found { pools: self.pools.deep_view(), bes: self.bes.deep_view() }
    }
}

impl KernelEntry {
    /// The same entry.
    pub fn copy(&self) -> (r: KernelEntry)
        ensures
            r.deep_view() == self.deep_view(),
    {
        KernelEntry {
            vmlinuz: self.vmlinuz.clone(),
            initrd: text::clone_opt(&self.initrd),
            default: self.default,
        }
    }
}

fn copy_kernels(v: &Vec<KernelEntry>) -> (r: Vec<KernelEntry>)
    ensures
        r.deep_view() == v.deep_view(),
{
    let mut out: Vec<KernelEntry> = Vec::new();
    let mut i: usize = 0;
    while i < v.len()
        invariant
            i <= v@.len(),
            out.deep_view() =~= v.deep_view().take(i as int),
        decreases v@.len() - i,
    {
        let ghost so_far = out.deep_view();
        let k = v[i].copy();
        out.push(k);
        proof {
            let all = v.deep_view();
            assert(out.deep_view() =~= so_far.push(k.deep_view()));
            assert(all.take(i + 1) =~= all.take(i as int).push(all[i as int]));
        }
        i = i + 1;
    }
    assert(v.deep_view().take(i as int) =~= v.deep_view());
    out
}

// ---------------------------------------------------------------------------
// Programs without a search path
// ---------------------------------------------------------------------------

/// Where programs lie.
pub open spec fn program_paths(prog: Seq<char>) -> Seq<Seq<char>> {
    seq![
        paths::under("/usr/sbin"@, prog),
        paths::under("/sbin"@, prog),
        paths::under("/usr/bin"@, prog),
        paths::under("/bin"@, prog),
    ]
}

fn program_candidates(prog: &str) -> (r: Vec<String>)
    ensures
        r.deep_view() == program_paths(prog@),
{
    let mut out: Vec<String> = Vec::new();
    let a: String = paths::join("/usr/sbin", prog);
    text::push_text(&mut out, a.as_str());
    let b: String = paths::join("/sbin", prog);
    text::push_text(&mut out, b.as_str());
    let c: String = paths::join("/usr/bin", prog);
    text::push_text(&mut out, c.as_str());
    let d: String = paths::join("/bin", prog);
    text::push_text(&mut out, d.as_str());
    assert(out.deep_view() =~= program_paths(prog@));
    out
}

/// Looks for the first of some paths where there is anything.
pub open spec fn first_present_does(w: World, cands: Seq<Seq<char>>) -> (World, Option<Seq<char>>)
    decreases cands.len(),
{
    if cands.len() == 0 {
        (w, None)
    } else {
        let w1 = w.after(Call::Exists { path: cands[0] });
        if w.reply().yes {
            (w1, Some(cands[0]))
        } else {
            first_present_does(w1, cands.drop_first())
        }
    }
}

fn first_present<R: Runner>(r: &mut R, cands: &Vec<String>, i: usize) -> (res: Option<String>)
    requires
        i <= cands@.len(),
    ensures
        (final(r).world(), res.deep_view()) == first_present_does(
            old(r).world(),
            cands.deep_view().skip(i as int),
        ),
    decreases cands@.len() - i,
{
    let ghost rest = cands.deep_view().skip(i as int);
    if i >= cands.len() {
        return None;
    }
    proof {
        assert(rest[0] == cands@[i as int]@);
        assert(rest.drop_first() =~= cands.deep_view().skip(i + 1));
    }
    if r.present(cands[i].as_str()) {
        return Some(cands[i].clone());
    }
    first_present(r, cands, i + 1)
}

/// Looks for a program where programs lie.
pub open spec fn find_program_does(w: World, prog: Seq<char>) -> (World, Option<Seq<char>>) {
    first_present_does(w, program_paths(prog))
}

/// Looks for a program where programs lie.
pub fn find_program<R: Runner>(r: &mut R, prog: &str) -> (res: Option<String>)
    ensures
        (final(r).world(), res.deep_view()) == find_program_does(old(r).world(), prog@),
{
    let cands = program_candidates(prog);
    assert(cands.deep_view().skip(0) =~= cands.deep_view());
    first_present(r, &cands, 0)
}

/// Looking for a program changes nothing.
pub proof fn lemma_find_program_looks(w: World, prog: Seq<char>)
    ensures
        sub::only_looked(w, find_program_does(w, prog).0),
{
    lemma_first_present_looks(w, program_paths(prog));
}

proof fn lemma_first_present_looks(w: World, paths: Seq<Seq<char>>)
    ensures
        sub::only_looked(w, first_present_does(w, paths).0),
    decreases paths.len(),
{
    if paths.len() > 0 {
        let w1 = w.after(Call::Exists { path: paths[0] });
        lemma_first_present_looks(w1, paths.drop_first());
    }
}

/// Runs a program from where it lies, and gives what it prints.
#[verifier::opaque]
pub open spec fn run_cmd_does(w: World, prog: Seq<char>, args: Seq<Seq<char>>) -> (World, Result<
    Seq<char>,
    Seq<char>,
>) {
    let (w1, found) = find_program_does(w, prog);
    let joined = text::joined(args, " "@);
    match found {
        None => (
            w1,
            Err(
                error::within(
                    "locating `"@ + prog + "` in the initrd"@,
                    "`"@ + prog + "` not found in /usr/sbin, /sbin, /usr/bin, or /bin"@,
                ),
            ),
        ),
        Some(path) => (
            w1.run(path, args),
            match w1.printed() {
                Err(m) => Err(error::within("spawning `"@ + path + " "@ + joined + "`"@, m)),
                Ok(out) => if out.rc == 0 {
                    match sub::legible(out, "non-utf8 output from `"@ + prog + "`"@) {
                        Err(m) => Err(m),
                        Ok(_) => Ok(out.stdout),
                    }
                } else {
                    Err(
                        "`"@ + prog + " "@ + joined + "` exited rc="@ + zfs_ops::rc_text(out.rc)
                            + ": "@ + text::trimmed(out.stderr),
                    )
                },
            },
        ),
    }
}

/// Runs a program from where it lies, and gives what it prints.
pub fn run_cmd<R: Runner>(r: &mut R, prog: &str, args: &[&str]) -> (res: Result<String, Error>)
    ensures
        sub::did(final(r).world(), res) == run_cmd_does(old(r).world(), prog@, args.deep_view()),
{
    proof {
        reveal(run_cmd_does);
    }
    let joined: String = text::join_strs(args, " ");
    let path: String = match find_program(r, prog) {
        None => {
            let missing: String = text::cat3(
                "`",
                prog,
                "` not found in /usr/sbin, /sbin, /usr/bin, or /bin",
            );
            let what: String = text::cat3("locating `", prog, "` in the initrd");
            return Err(Error::from_text(missing).context(what.as_str()));
        },
        Some(p) => p,
    };
    match r.read(path.as_str(), args) {
        Err(e) => {
            let what: String = text::cat5("spawning `", path.as_str(), " ", joined.as_str(), "`");
            Err(e.context(what.as_str()))
        },
        Ok(out) => if out.rc == 0 {
            let what: String = text::cat3("non-utf8 output from `", prog, "`");
            match sub::check_legible(&out, what.as_str()) {
                Err(e) => Err(e),
                Ok(()) => Ok(out.stdout),
            }
        } else {
            let rc: String = zfs_ops::rc_shown(out.rc);
            Err(
                Error::from_text(
                    text::cat8(
                        "`",
                        prog,
                        " ",
                        joined.as_str(),
                        "` exited rc=",
                        rc.as_str(),
                        ": ",
                        text::trim(out.stderr.as_str()),
                    ),
                ),
            )
        },
    }
}

// ---------------------------------------------------------------------------
// From tables to boot environments
// ---------------------------------------------------------------------------

/// What the tables say of one dataset.
#[derive(Debug)]
pub struct BeRecord {
    pub pool: String,
    pub dataset: String,
    pub is_be: bool,
    pub origin: Option<String>,
    pub bound_to: BoundList,
    pub readonly: bool,
}

/// What the tables say of one dataset, by what is known of it.
#[verifier::ext_equal]
pub struct Record {
    pub pool: Seq<char>,
    pub dataset: Seq<char>,
    pub is_be: bool,
    pub origin: Option<Seq<char>>,
    pub bound_to: Seq<Key>,
    pub readonly: bool,
}

impl DeepView for BeRecord {
    type V = Record;

    open spec fn deep_view(&self) -> Record {
        Record {
            pool: self.pool@,
            dataset: self.dataset@,
            is_be: self.is_be,
            origin: self.origin.deep_view(),
            bound_to: self.bound_to.deep_view(),
            readonly: self.readonly,
        }
    }
}

/// The record of a dataset.
pub open spec fn record_at(pool: Seq<char>, rows: Rows, ds: Seq<char>) -> Record {
    Record {
        pool,
        dataset: ds,
        is_be: facts::last_be(rows, ds),
        origin: match facts::last_origin(rows, ds) {
            Some(s) => Some(model::snap_text(s)),
            None => None,
        },
        bound_to: match facts::last_attached(rows, ds) {
            Some(ks) => ks,
            None => seq![],
        },
        readonly: facts::last_readonly(rows, ds),
    }
}

/// The records of the datasets, one for each name, in their order.
pub open spec fn records_of(pool: Seq<char>, names: Seq<Seq<char>>, rows: Rows) -> Seq<Record>
    decreases names.len(),
{
    if names.len() == 0 {
        seq![]
    } else {
        let front = records_of(pool, names.drop_last(), rows);
        if names.drop_last().contains(names.last()) {
            front
        } else {
            front.push(record_at(pool, rows, names.last()))
        }
    }
}

fn seen_before(names: &Vec<String>, i: usize) -> (r: bool)
    requires
        i < names@.len(),
    ensures
        r == names.deep_view().take(i as int).contains(names.deep_view()[i as int]),
{
    let ghost before = names.deep_view().take(i as int);
    let mut j: usize = 0;
    while j < i
        invariant
            j <= i < names@.len(),
            before == names.deep_view().take(i as int),
            forall|k: int| 0 <= k < j ==> #[trigger] before[k] != names.deep_view()[i as int],
        decreases i - j,
    {
        assert(before[j as int] == names@[j as int]@);
        if text::eq(names[j].as_str(), names[i].as_str()) {
            return true;
        }
        j = j + 1;
    }
    false
}

/// The records of the datasets of a pool.
pub fn extract_bes(pool: &str, datasets: &Vec<String>, props: &Vec<(String, Property)>) -> (r: Vec<
    BeRecord,
>)
    ensures
        r.deep_view() == records_of(pool@, datasets.deep_view(), props.deep_view()),
{
    let ghost all = datasets.deep_view();
    let ghost rows = props.deep_view();
    let mut out: Vec<BeRecord> = Vec::new();
    let mut i: usize = 0;
    assert(out.deep_view() =~= records_of(pool@, all.take(0), rows));
    while i < datasets.len()
        invariant
            i <= datasets@.len(),
            all == datasets.deep_view(),
            rows == props.deep_view(),
            out.deep_view() == records_of(pool@, all.take(i as int), rows),
        decreases datasets@.len() - i,
    {
        let ghost so_far = out.deep_view();
        proof {
            assert(all.take(i + 1).drop_last() =~= all.take(i as int));
            assert(all.take(i + 1).last() == datasets@[i as int]@);
        }
        let ds: &str = datasets[i].as_str();
        if !seen_before(datasets, i) {
            let origin: Option<String> = match facts::find_origin(props, ds) {
                Some(s) => Some(s.render()),
                None => None,
            };
            let bound_to: BoundList = match facts::find_attached(props, ds) {
                Some(b) => b,
                None => BoundList::new(),
            };
            let rec = BeRecord {
                pool: pool.to_owned(),
                dataset: ds.to_owned(),
                is_be: facts::find_be(props, ds),
                origin,
                bound_to,
                readonly: facts::find_readonly(props, ds),
            };
            assert(rec.deep_view() =~= record_at(pool@, rows, ds@));
            out.push(rec);
            assert(out.deep_view() =~= so_far.push(rec.deep_view()));
        }
        i = i + 1;
    }
    assert(all.take(i as int) =~= all);
    out
}

/// What the first pool of a name boots next.
pub open spec fn bootfs_of(ps: Seq<PoolFacts>, name: Seq<char>) -> Option<Seq<char>>
    decreases ps.len(),
{
    if ps.len() == 0 {
        None
    } else if ps[0].name == name {
        ps[0].bootfs
    } else {
        bootfs_of(ps.drop_first(), name)
    }
}

fn boots_next(ps: &Vec<Pool>, name: &str, dataset: &str) -> (r: bool)
    ensures
        r == (bootfs_of(ps.deep_view(), name@) == Some(dataset@)),
{
    let ghost all = ps.deep_view();
    let mut i: usize = 0;
    assert(all.skip(0) =~= all);
    while i < ps.len()
        invariant
            i <= ps@.len(),
            all == ps.deep_view(),
            bootfs_of(all, name@) == bootfs_of(all.skip(i as int), name@),
        decreases ps@.len() - i,
    {
        proof {
            assert(all.skip(i as int)[0] == ps@[i as int].deep_view());
            assert(all.skip(i as int).drop_first() =~= all.skip(i + 1));
        }
        if text::eq(ps[i].name.as_str(), name) {
            return text::opt_is(&ps[i].bootfs, dataset);
        }
        i = i + 1;
    }
    false
}

/// How a role is shown.
pub open spec fn role_text(role: Option<PoolRole>) -> Seq<char> {
    match role {
        Some(PoolRole::Root) => "root"@,
        None => "?"@,
    }
}

/// The boot environment of a record.
pub open spec fn found_be(ps: Seq<PoolFacts>, rec: Record) -> FoundBe {
    FoundBe {
        pool: rec.pool,
        dataset: rec.dataset,
        name: text::after_last(rec.dataset, '/'),
        origin: rec.origin,
        active: bootfs_of(ps, rec.pool) == Some(rec.dataset),
        readonly: rec.readonly,
        bound_to: model::key_texts(rec.bound_to),
        kernels: seq![],
        mount_root: None,
    }
}

/// The boot environments among the records, in their order.
pub open spec fn found_bes(ps: Seq<PoolFacts>, recs: Seq<Record>) -> Seq<FoundBe>
    decreases recs.len(),
{
    if recs.len() == 0 {
        seq![]
    } else {
        let front = found_bes(ps, recs.drop_last());
        if recs.last().is_be {
            front.push(found_be(ps, recs.last()))
        } else {
            front
        }
    }
}

/// The pools as they are shown.
pub open spec fn found_pools(ps: Seq<PoolFacts>) -> Seq<FoundPool> {
    ps.map_values(
        |p: PoolFacts|
            FoundPool { name: p.name, role: role_text(p.role), bootfs: p.bootfs, guid: p.guid },
    )
}

/// Pools and records put together.
pub open spec fn assembled(ps: Seq<PoolFacts>, recs: Seq<Record>) -> Found {
    Found { pools: found_pools(ps), bes: found_bes(ps, recs) }
}

fn show_pools(ps: &Vec<Pool>) -> (r: Vec<PoolJson>)
    ensures
        r.deep_view() == found_pools(ps.deep_view()),
{
    let ghost all = ps.deep_view();
    let mut out: Vec<PoolJson> = Vec::new();
    let mut i: usize = 0;
    while i < ps.len()
        invariant
            i <= ps@.len(),
            all == ps.deep_view(),
            out.deep_view() =~= found_pools(all.take(i as int)),
        decreases ps@.len() - i,
    {
        let p = &ps[i];
        let role: &str = match p.role {
            Some(PoolRole::Root) => "root",
            None => "?",
        };
        let ghost so_far = out.deep_view();
        let shown = PoolJson {
            name: p.name.clone(),
            role: role.to_owned(),
            bootfs: text::clone_opt(&p.bootfs),
            guid: p.guid,
        };
        out.push(shown);
        proof {
            assert(out.deep_view() =~= so_far.push(shown.deep_view()));
            assert(all.take(i + 1) =~= all.take(i as int).push(all[i as int]));
        }
        i = i + 1;
    }
    assert(all.take(i as int) =~= all);
    out
}

/// Pools and records put together.
pub fn assemble(ps: &Vec<Pool>, records: &Vec<BeRecord>) -> (r: DiscoverV1)
    ensures
        r.deep_view() == assembled(ps.deep_view(), records.deep_view()),
{
    let ghost facts = ps.deep_view();
    let ghost all = records.deep_view();
    let mut bes: Vec<BeJson> = Vec::new();
    let mut i: usize = 0;
    assert(bes.deep_view() =~= found_bes(facts, all.take(0)));
    while i < records.len()
        invariant
            i <= records@.len(),
            facts == ps.deep_view(),
            all == records.deep_view(),
            bes.deep_view() == found_bes(facts, all.take(i as int)),
        decreases records@.len() - i,
    {
        let ghost so_far = bes.deep_view();
        proof {
            assert(all.take(i + 1).drop_last() =~= all.take(i as int));
            assert(all.take(i + 1).last() == records@[i as int].deep_view());
        }
        let rec = &records[i];
        if rec.is_be {
            let none: Vec<KernelEntry> = Vec::new();
            assert(none.deep_view() =~= seq![]);
            let be = BeJson {
                pool: rec.pool.clone(),
                dataset: rec.dataset.clone(),
                name: text::tail(rec.dataset.as_str(), '/').to_owned(),
                origin: text::clone_opt(&rec.origin),
                active: boots_next(ps, rec.pool.as_str(), rec.dataset.as_str()),
                readonly: rec.readonly,
                bound_to: rec.bound_to.renders(),
                kernels: none,
                mount_root: None,
            };
            assert(be.deep_view() =~= found_be(facts, rec.deep_view()));
            bes.push(be);
            assert(bes.deep_view() =~= so_far.push(be.deep_view()));
        }
        i = i + 1;
    }
    assert(all.take(i as int) =~= all);
    DiscoverV1 { pools: show_pools(ps), bes }
}

// ---------------------------------------------------------------------------
// Kernels
// ---------------------------------------------------------------------------

/// A file name that is that of a kernel, not of something beside one.
pub open spec fn kernel_name(n: Seq<char>) -> bool {
    text::begins(n, "vmlinuz"@) && !text::ends(n, ".sig"@) && !text::ends(n, ".bak"@)
        && !text::ends(n, ".dpkg-old"@) && !text::ends(n, ".dpkg-new"@)
}

fn is_kernel_name(n: &str) -> (r: bool)
    ensures
        r == kernel_name(n@),
{
    text::starts_with(n, "vmlinuz") && !text::ends_with(n, ".sig") && !text::ends_with(n, ".bak")
        && !text::ends_with(n, ".dpkg-old") && !text::ends_with(n, ".dpkg-new")
}

/// The four groups of kernels: the link to the current one, the link to the
/// one before, those with a version, and others.
pub open spec fn kernel_group(n: Seq<char>) -> int {
    if n == "vmlinuz"@ {
        0
    } else if n == "vmlinuz.old"@ {
        1
    } else if text::begins(n, "vmlinuz-"@) {
        2
    } else {
        3
    }
}

fn group_of(n: &str) -> (r: u8)
    ensures
        r == kernel_group(n@),
{
    if text::eq(n, "vmlinuz") {
        0
    } else if text::eq(n, "vmlinuz.old") {
        1
    } else if text::starts_with(n, "vmlinuz-") {
        2
    } else {
        3
    }
}

/// The kernels of one group, in the order they are listed.
pub open spec fn kernels_in(names: Seq<Seq<char>>, group: int) -> Seq<Seq<char>>
    decreases names.len(),
{
    if names.len() == 0 {
        seq![]
    } else {
        let front = kernels_in(names.drop_last(), group);
        if kernel_name(names.last()) && kernel_group(names.last()) == group {
            front.push(names.last())
        } else {
            front
        }
    }
}

fn kernels_of_group(names: &Vec<String>, group: u8) -> (r: Vec<String>)
    ensures
        r.deep_view() == kernels_in(names.deep_view(), group as int),
{
    let ghost all = names.deep_view();
    let mut out: Vec<String> = Vec::new();
    let mut i: usize = 0;
    assert(out.deep_view() =~= kernels_in(all.take(0), group as int));
    while i < names.len()
        invariant
            i <= names@.len(),
            all == names.deep_view(),
            out.deep_view() == kernels_in(all.take(i as int), group as int),
        decreases names@.len() - i,
    {
        proof {
            assert(all.take(i + 1).drop_last() =~= all.take(i as int));
            assert(all.take(i + 1).last() == names@[i as int]@);
        }
        let n: &str = names[i].as_str();
        if is_kernel_name(n) && group_of(n) == group {
            text::push_text(&mut out, n);
        }
        i = i + 1;
    }
    assert(all.take(i as int) =~= all);
    out
}

/// The last of the order of texts first.
pub open spec fn last_first(names: Seq<Seq<char>>) -> Seq<Seq<char>> {
    order::sorted_texts(names).reverse()
}

fn put_last_first(out: &mut Vec<String>, names: Vec<String>)
    ensures
        final(out).deep_view() == old(out).deep_view() + last_first(names.deep_view()),
{
    let ghost was = out.deep_view();
    let ghost goal = last_first(names.deep_view());
    let sorted = order::sort_texts(names);
    let n: usize = sorted.len();
    let mut i: usize = 0;
    assert(out.deep_view() =~= was + goal.take(0));
    while i < n
        invariant
            i <= n,
            n == sorted@.len(),
            goal == sorted.deep_view().reverse(),
            out.deep_view() == was + goal.take(i as int),
        decreases n - i,
    {
        let t: &str = sorted[n - 1 - i].as_str();
        text::push_text(out, t);
        assert(goal[i as int] == t@);
        assert(was + goal.take(i + 1) =~= (was + goal.take(i as int)).push(t@));
        i = i + 1;
    }
    assert(goal.take(n as int) =~= goal);
}

/// The kernels of a directory, in the order they are offered: those with a
/// version come the newest first, and others the last of their names first.
pub open spec fn kernels_sorted(names: Seq<Seq<char>>) -> Seq<Seq<char>> {
    kernels_in(names, 0) + kernels_in(names, 1) + version::newest_first(kernels_in(names, 2))
        + last_first(kernels_in(names, 3))
}

fn put_behind(out: &mut Vec<String>, more: Vec<String>)
    ensures
        final(out).deep_view() == old(out).deep_view() + more.deep_view(),
{
    let mut more = more;
    let ghost (a, b) = (out@, more@);
    let ghost (va, vb) = (out.deep_view(), more.deep_view());
    out.append(&mut more);
    assert(out@ =~= a + b);
    assert(out.deep_view() =~= va + vb);
}

/// The kernels of a directory, in the order they are offered.
pub fn sort_kernels(names: &Vec<String>) -> (r: Vec<String>)
    ensures
        r.deep_view() == kernels_sorted(names.deep_view()),
{
    let mut out = kernels_of_group(names, 0);
    put_behind(&mut out, kernels_of_group(names, 1));
    put_behind(&mut out, version::sort_newest_first(&kernels_of_group(names, 2)));
    put_last_first(&mut out, kernels_of_group(names, 3));
    out
}

/// The boot image that goes with a kernel, by name.
pub open spec fn image_of(vmlinuz: Seq<char>) -> Option<Seq<char>> {
    if vmlinuz == "vmlinuz"@ {
        Some("initrd.img"@)
    } else if vmlinuz == "vmlinuz.old"@ {
        Some("initrd.img.old"@)
    } else if text::begins(vmlinuz, "vmlinuz-"@) {
        Some("initrd.img-"@ + vmlinuz.skip("vmlinuz-"@.len() as int))
    } else {
        None
    }
}

/// The boot image that goes with a kernel, by name.
pub fn image_name(vmlinuz: &str) -> (r: Option<String>)
    ensures
        r.deep_view() == image_of(vmlinuz@),
{
    if text::eq(vmlinuz, "vmlinuz") {
        return Some("initrd.img".to_owned());
    }
    if text::eq(vmlinuz, "vmlinuz.old") {
        return Some("initrd.img.old".to_owned());
    }
    match text::strip_prefix(vmlinuz, "vmlinuz-") {
        Some(suffix) => Some(text::cat2("initrd.img-", suffix)),
        None => None,
    }
}

/// The boot image that goes with a kernel, where it is there.
pub open spec fn pair_does(w: World, dir: Seq<char>, vmlinuz: Seq<char>) -> (World, Option<
    Seq<char>,
>) {
    match image_of(vmlinuz) {
        None => (w, None),
        Some(image) => (
            w.after(Call::Exists { path: paths::under(dir, image) }),
            if w.reply().yes {
                Some(image)
            } else {
                None
            },
        ),
    }
}

/// The boot image that goes with a kernel, where it is there.
pub fn pair_initrd<R: Runner>(r: &mut R, boot_dir: &str, vmlinuz: &str) -> (res: Option<String>)
    ensures
        (final(r).world(), res.deep_view()) == pair_does(old(r).world(), boot_dir@, vmlinuz@),
{
    match image_name(vmlinuz) {
        None => None,
        Some(image) => {
            let path: String = paths::join(boot_dir, image.as_str());
            if r.present(path.as_str()) {
                Some(image)
            } else {
                None
            }
        },
    }
}

/// The kernels of the given names. The default is the one that the link points
/// at.
pub open spec fn entries_does(
    w: World,
    dir: Seq<char>,
    names: Seq<Seq<char>>,
    target: Option<Seq<char>>,
) -> (World, Seq<Kernel>)
    decreases names.len(),
{
    if names.len() == 0 {
        (w, seq![])
    } else {
        let (w1, front) = entries_does(w, dir, names.drop_last(), target);
        let (w2, initrd) = pair_does(w1, dir, names.last());
        (
            w2,
            front.push(
                Kernel {
                    vmlinuz: names.last(),
                    initrd,
                    default: target == Some(names.last()),
                },
            ),
        )
    }
}

fn entries<R: Runner>(r: &mut R, dir: &str, names: &Vec<String>, target: &Option<String>) -> (res:
    Vec<KernelEntry>)
    ensures
        (final(r).world(), res.deep_view()) == entries_does(
            old(r).world(),
            dir@,
            names.deep_view(),
            target.deep_view(),
        ),
{
    let ghost all = names.deep_view();
    let mut out: Vec<KernelEntry> = Vec::new();
    let mut i: usize = 0;
    assert(out.deep_view() =~= seq![]);
    while i < names.len()
        invariant
            i <= names@.len(),
            all == names.deep_view(),
            (r.world(), out.deep_view()) == entries_does(
                old(r).world(),
                dir@,
                all.take(i as int),
                target.deep_view(),
            ),
        decreases names@.len() - i,
    {
        let ghost so_far = out.deep_view();
        proof {
            assert(all.take(i + 1).drop_last() =~= all.take(i as int));
            assert(all.take(i + 1).last() == names@[i as int]@);
        }
        let n: &str = names[i].as_str();
        let initrd = pair_initrd(r, dir, n);
        let entry = KernelEntry {
            vmlinuz: n.to_owned(),
            initrd,
            default: text::opt_is(target, n),
        };
        out.push(entry);
        assert(out.deep_view() =~= so_far.push(entry.deep_view()));
        i = i + 1;
    }
    assert(all.take(i as int) =~= all);
    out
}

/// Looks for the kernels in a directory.
#[verifier::opaque]
pub open spec fn kernels_does(w: World, dir: Seq<char>) -> (World, Seq<Kernel>) {
    let w1 = w.after(Call::ListTexts { path: dir });
    match w.listed() {
        Err(_) => (w1, seq![]),
        Ok(names) => {
            let target = match w1.line() {
                Err(_) => None,
                Ok(t) => paths::base(t),
            };
            entries_does(
                w1.after(Call::ReadLink { path: paths::under(dir, "vmlinuz"@) }),
                dir,
                kernels_sorted(names),
                target,
            )
        },
    }
}

/// The kernels in a directory, each with its boot image. The default is the
/// one that the `vmlinuz` link points at; where there is no such link, there
/// is none.
pub fn enumerate_kernels<R: Runner>(r: &mut R, boot_dir: &str) -> (res: Vec<KernelEntry>)
    ensures
        (final(r).world(), res.deep_view()) == kernels_does(old(r).world(), boot_dir@),
{
    proof {
        reveal(kernels_does);
    }
    let names = match r.list_texts(boot_dir) {
        Err(_) => {
            let none: Vec<KernelEntry> = Vec::new();
            assert(none.deep_view() =~= seq![]);
            return none;
        },
        Ok(n) => n,
    };
    let sorted = sort_kernels(&names);
    let link: String = paths::join(boot_dir, "vmlinuz");
    let target: Option<String> = match r.read_link(link.as_str()) {
        Err(_) => None,
        Ok(t) => paths::file_name(t.as_str()),
    };
    entries(r, boot_dir, &sorted, &target)
}

/// Mounts a boot environment read-only, unless it is mounted already.
#[verifier::opaque]
pub open spec fn mount_does(w: World, dataset: Seq<char>, name: Seq<char>) -> (World, Result<
    Seq<char>,
    Seq<char>,
>) {
    let target = "/zboot/be-mount/"@ + name;
    let w1 = w.after(Call::IsDir { path: paths::under(target, "boot"@) });
    if w.reply().yes {
        (w1, Ok(target))
    } else {
        let w2 = w1.after(Call::MakeDirs { path: target });
        match w1.unit() {
            Err(m) => (w2, Err(error::within("mkdir "@ + target, m))),
            Ok(()) => (
                w2.after(
                    Call::Attend {
                        prog: "/bin/mount"@,
                        args: seq!["-t"@, "zfs"@, "-o"@, "ro,zfsutil"@, dataset, target],
                    },
                ),
                match w2.code() {
                    Err(m) => Err(error::within("spawn mount"@, m)),
                    Ok(rc) => if rc == 0 {
                        Ok(target)
                    } else {
                        Err(
                            "mount "@ + dataset + " -> "@ + target + ": rc="@ + zfs_ops::rc_text(
                                rc as int,
                            ),
                        )
                    },
                },
            ),
        }
    }
}

/// Mounts a boot environment read-only, unless it is mounted already.
pub fn ensure_be_mounted_ro<R: Runner>(r: &mut R, dataset: &str, name: &str) -> (res: Result<
    String,
    Error,
>)
    ensures
        sub::did(final(r).world(), res) == mount_does(old(r).world(), dataset@, name@),
{
    proof {
        reveal(mount_does);
    }
    let target: String = text::cat2("/zboot/be-mount/", name);
    let probe: String = paths::join(target.as_str(), "boot");
    if r.is_dir(probe.as_str()) {
        return Ok(target);
    }
    match r.make_dirs(target.as_str()) {
        Err(e) => {
            let what: String = text::cat2("mkdir ", target.as_str());
            return Err(e.context(what.as_str()));
        },
        Ok(()) => {},
    }
    let args = text::argv6("-t", "zfs", "-o", "ro,zfsutil", dataset, target.as_str());
    match r.attend("/bin/mount", args.as_slice()) {
        Err(e) => Err(e.context("spawn mount")),
        Ok(rc) => if rc == 0 {
            Ok(target)
        } else {
            let rc: String = zfs_ops::rc_shown(rc);
            Err(
                Error::from_text(
                    text::cat6(
                        "mount ",
                        dataset,
                        " -> ",
                        target.as_str(),
                        ": rc=",
                        rc.as_str(),
                    ),
                ),
            )
        },
    }
}

/// Looks for the kernels of one boot environment. Where it cannot be mounted,
/// that is told.
#[verifier::opaque]
pub open spec fn with_kernels_does(w: World, be: FoundBe) -> (World, FoundBe) {
    let (w1, mounted) = mount_does(w, be.dataset, be.name);
    match mounted {
        Ok(root) => {
            let (w2, kernels) = kernels_does(w1, paths::under(root, "boot"@));
            (w2, FoundBe { kernels, mount_root: Some(root), ..be })
        },
        Err(m) => (
            w1.trace(
                "zboot-boot/discover: mount "@ + be.dataset + " for kernel enum failed: "@ + m,
            ),
            be,
        ),
    }
}

fn with_kernels<R: Runner>(r: &mut R, be: &BeJson) -> (res: BeJson)
    ensures
        (final(r).world(), res.deep_view()) == with_kernels_does(
            old(r).world(),
            be.deep_view(),
        ),
{
    proof {
        reveal(with_kernels_does);
    }
    let mounted = ensure_be_mounted_ro(r, be.dataset.as_str(), be.name.as_str());
    let (kernels, mount_root): (Vec<KernelEntry>, Option<String>) = match mounted {
        Ok(root) => {
            let dir: String = paths::join(root.as_str(), "boot");
            let kernels = enumerate_kernels(r, dir.as_str());
            (kernels, Some(root))
        },
        Err(e) => {
            let line: String = text::cat4(
                "zboot-boot/discover: mount ",
                be.dataset.as_str(),
                " for kernel enum failed: ",
                e.message.as_str(),
            );
            r.trace(line.as_str());
            (copy_kernels(&be.kernels), text::clone_opt(&be.mount_root))
        },
    };
    BeJson {
        pool: be.pool.clone(),
        dataset: be.dataset.clone(),
        name: be.name.clone(),
        origin: text::clone_opt(&be.origin),
        active: be.active,
        readonly: be.readonly,
        bound_to: text::clone_texts(&be.bound_to),
        kernels,
        mount_root,
    }
}

/// Looks for the kernels of all boot environments.
pub open spec fn all_kernels_does(w: World, bes: Seq<FoundBe>) -> (World, Seq<FoundBe>)
    decreases bes.len(),
{
    if bes.len() == 0 {
        (w, seq![])
    } else {
        let (w1, front) = all_kernels_does(w, bes.drop_last());
        let (w2, be) = with_kernels_does(w1, bes.last());
        (w2, front.push(be))
    }
}

/// Looks for the kernels of all boot environments, where this is the first
/// process of the machine.
pub open spec fn populate_does(w: World, found: Found) -> (World, Found) {
    let w1 = w.after(Call::Pid);
    if w.reply().pid != 1 {
        (w1, found)
    } else {
        let (w2, bes) = all_kernels_does(w1, found.bes);
        (w2, Found { bes, ..found })
    }
}

/// Looks for the kernels of all boot environments.
pub fn populate_be_kernels<R: Runner>(r: &mut R, payload: DiscoverV1) -> (res: DiscoverV1)
    ensures
        (final(r).world(), res.deep_view()) == populate_does(
            old(r).world(),
            payload.deep_view(),
        ),
{
    if r.pid() != 1 {
        return payload;
    }
    let ghost start = r.world();
    let ghost all = payload.bes.deep_view();
    let mut bes: Vec<BeJson> = Vec::new();
    let mut i: usize = 0;
    assert(bes.deep_view() =~= seq![]);
    while i < payload.bes.len()
        invariant
            i <= payload.bes@.len(),
            all == payload.bes.deep_view(),
            (r.world(), bes.deep_view()) == all_kernels_does(start, all.take(i as int)),
        decreases payload.bes@.len() - i,
    {
        let ghost so_far = bes.deep_view();
        proof {
            assert(all.take(i + 1).drop_last() =~= all.take(i as int));
            assert(all.take(i + 1).last() == payload.bes@[i as int].deep_view());
        }
        let be = with_kernels(r, &payload.bes[i]);
        bes.push(be);
        assert(bes.deep_view() =~= so_far.push(be.deep_view()));
        i = i + 1;
    }
    assert(all.take(i as int) =~= all);
    DiscoverV1 { pools: payload.pools, bes }
}

// ---------------------------------------------------------------------------
// Collection
// ---------------------------------------------------------------------------

/// Lists the pools with their roles.
#[verifier::opaque]
pub open spec fn list_pools_does(w: World) -> (World, Result<Seq<PoolFacts>, Seq<char>>) {
    let (w1, listed) = run_cmd_does(
        w,
        "zpool"@,
        seq!["list"@, "-Hp"@, "-o"@, "name,bootfs,guid"@],
    );
    match listed {
        Err(m) => (w1, Err(m)),
        Ok(t) => match model::pools_of(t) {
            Err(m) => (w1, Err(error::within("parsing `zpool list`"@, m))),
            Ok(ps) => if ps.len() == 0 {
                (w1, Ok(ps))
            } else {
                let (w2, got) = run_cmd_does(
                    w1,
                    "zpool"@,
                    seq!["get"@, "-Hp"@, "-o"@, "name,property,value"@, "zboot:role"@]
                        + model::pool_names(ps),
                );
                match got {
                    Err(m) => (w2, Err(m)),
                    Ok(u) => match model::props_of(u) {
                        Err(m) => (w2, Err(error::within("parsing `zpool get zboot:role`"@, m))),
                        Ok(rows) => (w2, Ok(state::told_roles(ps, rows))),
                    },
                }
            },
        },
    }
}

fn list_pools<R: Runner>(r: &mut R) -> (res: Result<Vec<Pool>, Error>)
    ensures
        sub::did(final(r).world(), res) == list_pools_does(old(r).world()),
{
    proof {
        reveal(list_pools_does);
    }
    let args = text::argv4("list", "-Hp", "-o", "name,bootfs,guid");
    let listed: String = match run_cmd(r, "zpool", args.as_slice()) {
        Err(e) => return Err(e),
        Ok(t) => t,
    };
    let mut ps: Vec<Pool> = match model::parse_zpool_list(listed.as_str()) {
        Err(e) => return Err(e.context("parsing `zpool list`")),
        Ok(ps) => ps,
    };
    if ps.len() == 0 {
        return Ok(ps);
    }
    let names = model::names_of_pools(&ps);
    let head = text::argv5("get", "-Hp", "-o", "name,property,value", "zboot:role");
    let args = text::extend_strs(head, &names);
    let got: String = match run_cmd(r, "zpool", args.as_slice()) {
        Err(e) => return Err(e),
        Ok(t) => t,
    };
    match model::parse_zfs_get(got.as_str()) {
        Err(e) => Err(e.context("parsing `zpool get zboot:role`")),
        Ok(rows) => {
            state::annotate_pool_roles(&mut ps, &rows);
            Ok(ps)
        },
    }
}

/// The pools that hold boot environments.
pub open spec fn root_pools(ps: Seq<PoolFacts>) -> Seq<PoolFacts>
    decreases ps.len(),
{
    if ps.len() == 0 {
        seq![]
    } else {
        let front = root_pools(ps.drop_last());
        if ps.last().role is Some {
            front.push(ps.last())
        } else {
            front
        }
    }
}

fn keep_root_pools(ps: &Vec<Pool>) -> (r: Vec<Pool>)
    ensures
        r.deep_view() == root_pools(ps.deep_view()),
{
    let ghost all = ps.deep_view();
    let mut out: Vec<Pool> = Vec::new();
    let mut i: usize = 0;
    assert(out.deep_view() =~= root_pools(all.take(0)));
    while i < ps.len()
        invariant
            i <= ps@.len(),
            all == ps.deep_view(),
            out.deep_view() == root_pools(all.take(i as int)),
        decreases ps@.len() - i,
    {
        let ghost so_far = out.deep_view();
        proof {
            assert(all.take(i + 1).drop_last() =~= all.take(i as int));
            assert(all.take(i + 1).last() == ps@[i as int].deep_view());
        }
        if ps[i].role.is_some() {
            let p = ps[i].copy();
            out.push(p);
            assert(out.deep_view() =~= so_far.push(p.deep_view()));
        }
        i = i + 1;
    }
    assert(all.take(i as int) =~= all);
    out
}

/// The properties that are asked for.
pub open spec fn asked_props() -> Seq<char> {
    "origin,zboot:be,zboot:attached-to,zboot:bound-mountpoint,zboot:created-by,readonly"@
}

/// Lists the file systems of a pool.
pub open spec fn filesystems_does(w: World, pool: Seq<char>) -> (World, Result<
    Seq<Seq<char>>,
    Seq<char>,
>) {
    let (w1, listed) = run_cmd_does(
        w,
        "zfs"@,
        seq!["list"@, "-Hp"@, "-r"@, "-o"@, "name"@, "-t"@, "filesystem"@, pool],
    );
    match listed {
        Err(m) => (w1, Err(m)),
        Ok(t) => (w1, Ok(pools::full_lines(text::lines_of(t)))),
    }
}

fn list_filesystems_in<R: Runner>(r: &mut R, pool: &str) -> (res: Result<Vec<String>, Error>)
    ensures
        sub::did(final(r).world(), res) == filesystems_does(old(r).world(), pool@),
{
    let args = text::argv8("list", "-Hp", "-r", "-o", "name", "-t", "filesystem", pool);
    match run_cmd(r, "zfs", args.as_slice()) {
        Err(e) => Err(e),
        Ok(t) => Ok(pools::nonblank_lines(t.as_str())),
    }
}

/// Reads the records of one pool.
#[verifier::opaque]
pub open spec fn pool_records_does(w: World, pool: Seq<char>) -> (World, Result<
    Seq<Record>,
    Seq<char>,
>) {
    let (w1, listed) = filesystems_does(w, pool);
    match listed {
        Err(m) => (w1, Err(m)),
        Ok(names) => if names.len() == 0 {
            (w1, Ok(seq![]))
        } else {
            let (w2, got) = run_cmd_does(
                w1,
                "zfs"@,
                seq!["get"@, "-Hp"@, "-o"@, "name,property,value"@, asked_props()] + names,
            );
            match got {
                Err(m) => (w2, Err(m)),
                Ok(t) => match model::props_of(t) {
                    Err(m) => (w2, Err(error::within("parsing `zfs get` for "@ + pool, m))),
                    Ok(rows) => (w2, Ok(records_of(pool, names, rows))),
                },
            }
        },
    }
}

fn pool_records<R: Runner>(r: &mut R, pool: &str) -> (res: Result<Vec<BeRecord>, Error>)
    ensures
        sub::did(final(r).world(), res) == pool_records_does(old(r).world(), pool@),
{
    proof {
        reveal(pool_records_does);
    }
    let names = match list_filesystems_in(r, pool) {
        Err(e) => return Err(e),
        Ok(n) => n,
    };
    if names.len() == 0 {
        let none: Vec<BeRecord> = Vec::new();
        assert(none.deep_view() =~= seq![]);
        return Ok(none);
    }
    let head = text::argv5(
        "get",
        "-Hp",
        "-o",
        "name,property,value",
        "origin,zboot:be,zboot:attached-to,zboot:bound-mountpoint,zboot:created-by,readonly",
    );
    let args = text::extend_strs(head, &names);
    let got: String = match run_cmd(r, "zfs", args.as_slice()) {
        Err(e) => return Err(e),
        Ok(t) => t,
    };
    match model::parse_zfs_get(got.as_str()) {
        Err(e) => {
            let what: String = text::cat2("parsing `zfs get` for ", pool);
            Err(e.context(what.as_str()))
        },
        Ok(rows) => Ok(extract_bes(pool, &names, &rows)),
    }
}

/// Reads the records of some pools, up to the first that fails.
pub open spec fn all_records_does(w: World, ps: Seq<PoolFacts>) -> (World, Result<
    Seq<Record>,
    Seq<char>,
>)
    decreases ps.len(),
{
    if ps.len() == 0 {
        (w, Ok(seq![]))
    } else {
        let (w1, first) = pool_records_does(w, ps[0].name);
        match first {
            Err(m) => (w1, Err(m)),
            Ok(recs) => {
                let (w2, rest) = all_records_does(w1, ps.drop_first());
                match rest {
                    Err(m) => (w2, Err(m)),
                    Ok(more) => (w2, Ok(recs + more)),
                }
            },
        }
    }
}

fn records_from<R: Runner>(r: &mut R, ps: &Vec<Pool>, i: usize) -> (res: Result<
    Vec<BeRecord>,
    Error,
>)
    requires
        i <= ps@.len(),
    ensures
        sub::did(final(r).world(), res) == all_records_does(
            old(r).world(),
            ps.deep_view().skip(i as int),
        ),
    decreases ps@.len() - i,
{
    let ghost rest = ps.deep_view().skip(i as int);
    if i >= ps.len() {
        let none: Vec<BeRecord> = Vec::new();
        assert(none.deep_view() =~= seq![]);
        return Ok(none);
    }
    proof {
        assert(rest[0] == ps@[i as int].deep_view());
        assert(rest.drop_first() =~= ps.deep_view().skip(i + 1));
    }
    let mut recs = match pool_records(r, ps[i].name.as_str()) {
        Err(e) => return Err(e),
        Ok(v) => v,
    };
    let mut more = match records_from(r, ps, i + 1) {
        Err(e) => return Err(e),
        Ok(v) => v,
    };
    let ghost (a, b) = (recs@, more@);
    let ghost (va, vb) = (recs.deep_view(), more.deep_view());
    recs.append(&mut more);
    assert(recs@ =~= a + b);
    assert(recs.deep_view() =~= va + vb);
    Ok(recs)
}

/// Finds what there is to boot.
pub open spec fn collect_does(w: World) -> (World, Result<Found, Seq<char>>) {
    let (w1, listed) = list_pools_does(w);
    match listed {
        Err(m) => (w1, Err(m)),
        Ok(all) => {
            let ps = root_pools(all);
            let (w2, recs) = all_records_does(w1, ps);
            match recs {
                Err(m) => (w2, Err(m)),
                Ok(rs) => {
                    let (w3, found) = populate_does(w2, assembled(ps, rs));
                    (w3, Ok(found))
                },
            }
        },
    }
}

/// What there is to boot.
pub fn collect_for_menu<R: Runner>(r: &mut R) -> (res: Result<DiscoverV1, Error>)
    ensures
        sub::did(final(r).world(), res) == collect_does(old(r).world()),
{
    let all = match list_pools(r) {
        Err(e) => return Err(e),
        Ok(ps) => ps,
    };
    let ps = keep_root_pools(&all);
    assert(ps.deep_view().skip(0) =~= ps.deep_view());
    let recs = match records_from(r, &ps, 0) {
        Err(e) => return Err(e),
        Ok(v) => v,
    };
    let payload = assemble(&ps, &recs);
    Ok(populate_be_kernels(r, payload))
}

// ---------------------------------------------------------------------------
// The forest
// ---------------------------------------------------------------------------

/// The boot environment as it stands in the forest.
pub open spec fn planted(b: FoundBe) -> Be {
    Be {
        pool: b.pool,
        name: b.name,
        dataset: b.dataset,
        origin: match b.origin {
            Some(o) => model::snap_of(o),
            None => None,
        },
        created_by: None,
        mountpoint: None,
        canmount: None,
    }
}

/// The forest of the boot environments.
pub open spec fn forest_of(bes: Seq<FoundBe>) -> Seq<Be> {
    bes.map_values(|b: FoundBe| planted(b))
}

/// The datasets that boot next.
pub open spec fn active_of(bes: Seq<FoundBe>) -> Seq<Seq<char>>
    decreases bes.len(),
{
    if bes.len() == 0 {
        seq![]
    } else {
        let front = active_of(bes.drop_last());
        if bes.last().active {
            front.push(bes.last().dataset)
        } else {
            front
        }
    }
}

/// The forest of the boot environments, and the datasets that boot next.
pub fn forest_from_payload(payload: &DiscoverV1) -> (r: (Forest, Vec<String>))
    ensures
        r.0.deep_view() == forest_of(payload.deep_view().bes),
        r.1.deep_view() == active_of(payload.deep_view().bes),
{
    let ghost all = payload.bes.deep_view();
    let mut bes: Vec<BootEnvironment> = Vec::new();
    let mut active: Vec<String> = Vec::new();
    let mut i: usize = 0;
    assert(active.deep_view() =~= active_of(all.take(0)));
    while i < payload.bes.len()
        invariant
            i <= payload.bes@.len(),
            all == payload.bes.deep_view(),
            bes.deep_view() =~= forest_of(all.take(i as int)),
            active.deep_view() == active_of(all.take(i as int)),
        decreases payload.bes@.len() - i,
    {
        proof {
            assert(all.take(i + 1).drop_last() =~= all.take(i as int));
            assert(all.take(i + 1).last() == payload.bes@[i as int].deep_view());
        }
        let b = &payload.bes[i];
        let mut be = BootEnvironment::new(b.pool.as_str(), b.name.as_str());
        be.dataset = b.dataset.clone();
        be.origin = match &b.origin {
            Some(o) => SnapshotRef::parse(o.as_str()),
            None => None,
        };
        assert(be.deep_view() == planted(b.deep_view()));
        let ghost so_far = bes.deep_view();
        bes.push(be);
        proof {
            assert(bes.deep_view() =~= so_far.push(be.deep_view()));
            assert(all.take(i + 1) =~= all.take(i as int).push(all[i as int]));
        }
        if b.active {
            text::push_text(&mut active, b.dataset.as_str());
        }
        i = i + 1;
    }
    assert(all.take(i as int) =~= all);
    (Forest::from_origins(bes), active)
}

/// What there is to boot, as a forest.
pub fn collect_forest<R: Runner>(r: &mut R) -> (res: Result<(Forest, Vec<String>), Error>)
    ensures
        sub::did(final(r).world(), res) == ({
            let (w, found) = collect_does(old(r).world());
            match found {
                Err(m) => (w, Err(m)),
                Ok(f) => (w, Ok((forest_of(f.bes), active_of(f.bes)))),
            }
        }),
{
    match collect_for_menu(r) {
        Err(e) => Err(e),
        Ok(payload) => Ok(forest_from_payload(&payload)),
    }
}

// ---------------------------------------------------------------------------
// Laws
// ---------------------------------------------------------------------------

/// Every kernel of a directory is offered, and nothing but kernels.
pub proof fn law_all_kernels_are_offered(names: Seq<Seq<char>>, n: Seq<char>)
    ensures
        kernels_sorted(names).contains(n) <==> names.contains(n) && kernel_name(n),
{
    let g = kernel_group(n);
    lemma_kernels_in(names, 0, n);
    lemma_kernels_in(names, 1, n);
    lemma_kernels_in(names, 2, n);
    lemma_kernels_in(names, 3, n);
    lemma_newest_first(kernels_in(names, 2), n);
    lemma_last_first(kernels_in(names, 3), n);
    let a = kernels_in(names, 0);
    let b = kernels_in(names, 1);
    let c = version::newest_first(kernels_in(names, 2));
    let d = last_first(kernels_in(names, 3));
    lemma_in_sum(a, b, n);
    lemma_in_sum(a + b, c, n);
    lemma_in_sum(a + b + c, d, n);
}

proof fn lemma_in_sum(a: Seq<Seq<char>>, b: Seq<Seq<char>>, n: Seq<char>)
    ensures
        (a + b).contains(n) <==> a.contains(n) || b.contains(n),
{
    if a.contains(n) {
        let i = choose|i: int| 0 <= i < a.len() && a[i] == n;
        assert((a + b)[i] == n);
    }
    if b.contains(n) {
        let i = choose|i: int| 0 <= i < b.len() && b[i] == n;
        assert((a + b)[a.len() + i] == n);
    }
}

proof fn lemma_kernels_in(names: Seq<Seq<char>>, group: int, n: Seq<char>)
    ensures
        kernels_in(names, group).contains(n) <==> names.contains(n) && kernel_name(n)
            && kernel_group(n) == group,
    decreases names.len(),
{
    if names.len() > 0 {
        let front = names.drop_last();
        let last = names.last();
        lemma_kernels_in(front, group, n);
        assert(names =~= front.push(last));
        assert(names.contains(n) <==> front.contains(n) || last == n) by {
            if front.contains(n) {
                let i = choose|i: int| 0 <= i < front.len() && front[i] == n;
                assert(names[i] == n);
            }
            if last == n {
                assert(names[names.len() - 1] == n);
            }
            if names.contains(n) && last != n {
                let i = choose|i: int| 0 <= i < names.len() && names[i] == n;
                assert(front[i] == n);
            }
        }
        let ks = kernels_in(front, group);
        if kernel_name(last) && kernel_group(last) == group {
            assert(ks.push(last).contains(n) <==> ks.contains(n) || last == n) by {
                if ks.contains(n) {
                    let i = choose|i: int| 0 <= i < ks.len() && ks[i] == n;
                    assert(ks.push(last)[i] == n);
                }
                if last == n {
                    assert(ks.push(last)[ks.len() as int] == n);
                }
            }
        }
    }
}

proof fn lemma_newest_first(names: Seq<Seq<char>>, n: Seq<char>)
    ensures
        version::newest_first(names).contains(n) <==> names.contains(n),
{
    broadcast use vstd::seq_lib::group_to_multiset_ensures;

    let s = version::newest_first(names);
    version::law_newest_first(names);
    assert(s.contains(n) <==> s.to_multiset().count(n) > 0);
    assert(names.contains(n) <==> names.to_multiset().count(n) > 0);
}

proof fn lemma_last_first(names: Seq<Seq<char>>, n: Seq<char>)
    ensures
        last_first(names).contains(n) <==> names.contains(n),
{
    broadcast use vstd::seq_lib::group_to_multiset_ensures;

    let s = order::sorted_texts(names);
    order::law_sorted(names, |x: Seq<char>| x);
    assert(s.to_multiset() == names.to_multiset());
    assert(s.contains(n) <==> s.to_multiset().count(n) > 0);
    assert(names.contains(n) <==> names.to_multiset().count(n) > 0);
    if s.contains(n) {
        let i = choose|i: int| 0 <= i < s.len() && s[i] == n;
        assert(s.reverse()[s.len() - 1 - i] == n);
    }
    if s.reverse().contains(n) {
        let i = choose|i: int| 0 <= i < s.len() && s.reverse()[i] == n;
        assert(s[s.len() - 1 - i] == n);
    }
}

/// Of two kernels with a version, the one that is offered first is not the
/// older: the newest version comes first.
pub proof fn law_newest_kernel_first(names: Seq<Seq<char>>, i: int, j: int)
    requires
        0 <= i < j < kernels_sorted(names).len(),
        kernel_group(kernels_sorted(names)[i]) == 2,
        kernel_group(kernels_sorted(names)[j]) == 2,
    ensures
        !version::newer(kernels_sorted(names)[j], kernels_sorted(names)[i]),
{
    let a = kernels_in(names, 0);
    let b = kernels_in(names, 1);
    let c = version::newest_first(kernels_in(names, 2));
    let d = last_first(kernels_in(names, 3));
    let all = kernels_sorted(names);
    let before = a.len() + b.len();
    version::law_newest_first(kernels_in(names, 2));
    assert forall|k: int| 0 <= k < all.len() && kernel_group(#[trigger] all[k]) == 2 implies before
        <= k < before + c.len() by {
        if k < a.len() {
            assert(all[k] == a[k]);
            lemma_kernels_in(names, 0, all[k]);
        } else if k < before {
            assert(all[k] == b[k - a.len()]);
            lemma_kernels_in(names, 1, all[k]);
        } else if k >= before + c.len() {
            assert(all[k] == d[k - before - c.len()]);
            lemma_last_first(kernels_in(names, 3), all[k]);
            lemma_kernels_in(names, 3, all[k]);
        }
    }
    assert(all[i] == c[i - before]);
    assert(all[j] == c[j - before]);
}

/// At most one kernel is the default, where no name is listed twice.
pub proof fn law_one_default(
    w: World,
    dir: Seq<char>,
    names: Seq<Seq<char>>,
    target: Option<Seq<char>>,
    i: int,
)
    requires
        0 <= i < entries_does(w, dir, names, target).1.len(),
    ensures
        entries_does(w, dir, names, target).1.len() == names.len(),
        entries_does(w, dir, names, target).1[i].vmlinuz == names[i],
        entries_does(w, dir, names, target).1[i].default <==> target == Some(names[i]),
    decreases names.len(),
{
    if names.len() > 0 {
        let front = entries_does(w, dir, names.drop_last(), target).1;
        if i < front.len() {
            law_one_default(w, dir, names.drop_last(), target, i);
        } else {
            lemma_entries_len(w, dir, names.drop_last(), target);
        }
    }
}

proof fn lemma_entries_len(
    w: World,
    dir: Seq<char>,
    names: Seq<Seq<char>>,
    target: Option<Seq<char>>,
)
    ensures
        entries_does(w, dir, names, target).1.len() == names.len(),
    decreases names.len(),
{
    if names.len() > 0 {
        lemma_entries_len(w, dir, names.drop_last(), target);
    }
}

/// Nothing is mounted, and nothing else is changed, by any process but the
/// machine's first.
pub proof fn law_only_the_first_process_mounts(w: World, found: Found)
    requires
        w.reply().pid != 1,
    ensures
        populate_does(w, found).1 == found,
        sub::only_looked(w, populate_does(w, found).0),
{
}

/// A boot environment that is found is marked as one, lies at a dataset of a
/// record, and is active iff its pool boots it next.
pub proof fn law_found_bes(ps: Seq<PoolFacts>, recs: Seq<Record>, i: int)
    requires
        0 <= i < found_bes(ps, recs).len(),
    ensures
        exists|k: int|
            0 <= k < recs.len() && (#[trigger] recs[k]).is_be && found_bes(ps, recs)[i]
                == found_be(ps, recs[k]),
    decreases recs.len(),
{
    if recs.len() > 0 {
        let front = recs.drop_last();
        if i < found_bes(ps, front).len() {
            law_found_bes(ps, front, i);
            let k = choose|k: int|
                0 <= k < front.len() && (#[trigger] front[k]).is_be && found_bes(ps, front)[i]
                    == found_be(ps, front[k]);
            assert(recs[k] == front[k]);
        } else {
            assert(recs[recs.len() - 1] == recs.last());
        }
    }
}

/// Every record of a boot environment is found as one, and no other.
pub proof fn law_every_be_is_found(ps: Seq<PoolFacts>, recs: Seq<Record>)
    ensures
        forall|x: FoundBe| #[trigger] found_bes(ps, recs).contains(x) <==> exists|i: int| 0 <= i < recs.len() && (#[trigger] recs[i]).is_be && x == found_be(ps, (#[trigger] recs[i])),
    decreases recs.len(),
{
    if recs.len() > 0 {
        let front = recs.drop_last();
        law_every_be_is_found(ps, front);
        let before = found_bes(ps, front);
        let all = found_bes(ps, recs);
        assert forall|x: FoundBe| #[trigger] all.contains(x) <==> exists|i: int| 0 <= i < recs.len() && (#[trigger] recs[i]).is_be && x == found_be(ps, (#[trigger] recs[i])) by {
            if all.contains(x) {
                let k = choose|k: int| 0 <= k < all.len() && all[k] == x;
                if k < before.len() {
                    assert(before[k] == x);
                    assert(before.contains(x));
                    let i = choose|i: int| 0 <= i < front.len() && (#[trigger] front[i]).is_be && x == found_be(ps, (#[trigger] front[i]));
                    assert(recs[i] == front[i]);
                } else {
                    assert(recs[recs.len() - 1].is_be && x == found_be(ps, recs[recs.len() - 1]));
                }
            }
            if exists|i: int| 0 <= i < recs.len() && (#[trigger] recs[i]).is_be && x == found_be(ps, (#[trigger] recs[i])) {
                let i = choose|i: int| 0 <= i < recs.len() && (#[trigger] recs[i]).is_be && x == found_be(ps, (#[trigger] recs[i]));
                if i < front.len() {
                    assert(front[i] == recs[i]);
                    assert(before.contains(x));
                    let k = choose|k: int| 0 <= k < before.len() && before[k] == x;
                    assert(all[k] == x);
                } else {
                    assert(recs[i] == recs.last());
                    assert(all[all.len() - 1] == x);
                }
            }
        }
    }
}

/// All pools with a role count, and no other.
pub proof fn law_root_pools_are_those_with_a_role(ps: Seq<PoolFacts>)
    ensures
        forall|x: PoolFacts| #[trigger] root_pools(ps).contains(x) <==> exists|i: int| 0 <= i < ps.len() && (#[trigger] ps[i]) == x && x.role is Some,
    decreases ps.len(),
{
    if ps.len() > 0 {
        let front = ps.drop_last();
        law_root_pools_are_those_with_a_role(front);
        let before = root_pools(front);
        let all = root_pools(ps);
        assert forall|x: PoolFacts| #[trigger] all.contains(x) <==> exists|i: int| 0 <= i < ps.len() && (#[trigger] ps[i]) == x && x.role is Some by {
            if all.contains(x) {
                let k = choose|k: int| 0 <= k < all.len() && all[k] == x;
                if k < before.len() {
                    assert(before[k] == x);
                    assert(before.contains(x));
                    let i = choose|i: int| 0 <= i < front.len() && (#[trigger] front[i]) == x && x.role is Some;
                    assert(ps[i] == front[i]);
                } else {
                    assert(ps[ps.len() - 1] == x && x.role is Some);
                }
            }
            if exists|i: int| 0 <= i < ps.len() && (#[trigger] ps[i]) == x && x.role is Some {
                let i = choose|i: int| 0 <= i < ps.len() && (#[trigger] ps[i]) == x && x.role is Some;
                if i < front.len() {
                    assert(front[i] == ps[i]);
                    assert(before.contains(x));
                    let k = choose|k: int| 0 <= k < before.len() && before[k] == x;
                    assert(all[k] == x);
                } else {
                    assert(ps[i] == ps.last());
                    assert(all[all.len() - 1] == x);
                }
            }
        }
    }
}

/// What boots next is told of every boot environment that does.
pub proof fn law_active_are_all(bes: Seq<FoundBe>)
    ensures
        forall|x: Seq<char>| #[trigger] active_of(bes).contains(x) <==> exists|i: int| 0 <= i < bes.len() && (#[trigger] bes[i]).active && (#[trigger] bes[i]).dataset == x,
    decreases bes.len(),
{
    if bes.len() > 0 {
        let front = bes.drop_last();
        law_active_are_all(front);
        let before = active_of(front);
        let all = active_of(bes);
        assert forall|x: Seq<char>| #[trigger] all.contains(x) <==> exists|i: int| 0 <= i < bes.len() && (#[trigger] bes[i]).active && (#[trigger] bes[i]).dataset == x by {
            if all.contains(x) {
                let k = choose|k: int| 0 <= k < all.len() && all[k] == x;
                if k < before.len() {
                    assert(before[k] == x);
                    assert(before.contains(x));
                    let i = choose|i: int| 0 <= i < front.len() && (#[trigger] front[i]).active && (#[trigger] front[i]).dataset == x;
                    assert(bes[i] == front[i]);
                } else {
                    assert(bes[bes.len() - 1].active && bes[bes.len() - 1].dataset == x);
                }
            }
            if exists|i: int| 0 <= i < bes.len() && (#[trigger] bes[i]).active && (#[trigger] bes[i]).dataset == x {
                let i = choose|i: int| 0 <= i < bes.len() && (#[trigger] bes[i]).active && (#[trigger] bes[i]).dataset == x;
                if i < front.len() {
                    assert(front[i] == bes[i]);
                    assert(before.contains(x));
                    let k = choose|k: int| 0 <= k < before.len() && before[k] == x;
                    assert(all[k] == x);
                } else {
                    assert(bes[i] == bes.last());
                    assert(all[all.len() - 1] == x);
                }
            }
        }
    }
}

/// What a pool boots next is what the first pool of that name has set.
pub proof fn law_bootfs_of(ps: Seq<PoolFacts>, name: Seq<char>)
    ensures
        match bootfs_entry(ps, name) {
            Some(x) => exists|i: int|
                0 <= i < ps.len() && x == (#[trigger] ps[i]) && ps[i].name == name && forall|j: int|
                    0 <= j < i ==> !((#[trigger] ps[j]).name == name),
            None => forall|j: int| 0 <= j < ps.len() ==> !((#[trigger] ps[j]).name == name),
        },
    decreases ps.len(),
{
    if ps.len() > 0 {
        if ps[0].name == name {
            assert(ps[0] == ps[0]);
        } else {
            let rest = ps.drop_first();
            law_bootfs_of(rest, name);
            assert forall|j: int| 0 <= j < ps.len() implies j == 0 || #[trigger] ps[j] == rest[j - 1] by {}
            if let Some(x) = bootfs_entry(rest, name) {
                let i = choose|i: int|
                    0 <= i < rest.len() && x == (#[trigger] rest[i]) && rest[i].name == name && forall|j: int|
                        0 <= j < i ==> !((#[trigger] rest[j]).name == name);
                assert(ps[i + 1] == rest[i]);
                assert(x == ps[i + 1]);
            }
        }
    }
}

/// The first pool of a name.
pub open spec fn bootfs_entry(ps: Seq<PoolFacts>, name: Seq<char>) -> Option<PoolFacts>
    decreases ps.len(),
{
    if ps.len() == 0 {
        None
    } else if ps[0].name == name {
        Some(ps[0])
    } else {
        bootfs_entry(ps.drop_first(), name)
    }
}

/// A boot environment is active exactly where the first pool of its pool's name
/// boots its dataset next.
pub proof fn law_active_is_what_boots(ps: Seq<PoolFacts>, rec: Record)
    ensures
        found_be(ps, rec).active <==> (bootfs_entry(ps, rec.pool) matches Some(p) && p.bootfs
            == Some(rec.dataset)),
        found_be(ps, rec).dataset == rec.dataset,
        found_be(ps, rec).pool == rec.pool,
        found_be(ps, rec).readonly == rec.readonly,
        found_be(ps, rec).origin == rec.origin,
{
    lemma_bootfs(ps, rec.pool);
}

proof fn lemma_bootfs(ps: Seq<PoolFacts>, name: Seq<char>)
    ensures
        bootfs_of(ps, name) == match bootfs_entry(ps, name) {
            Some(p) => p.bootfs,
            None => None,
        },
    decreases ps.len(),
{
    if ps.len() > 0 && ps[0].name != name {
        lemma_bootfs(ps.drop_first(), name);
    }
}

/// There is a record of every file system that is listed.
pub proof fn law_every_file_system_has_a_record(
    pool: Seq<char>,
    names: Seq<Seq<char>>,
    rows: Rows,
)
    ensures
        forall|x: Record| #[trigger]
            records_of(pool, names, rows).contains(x) <==> names.contains(x.dataset) && x
                == record_at(pool, rows, x.dataset),
    decreases names.len(),
{
    if names.len() > 0 {
        let front = names.drop_last();
        law_every_file_system_has_a_record(pool, front, rows);
        let before = records_of(pool, front, rows);
        let all = records_of(pool, names, rows);
        let last = names.last();
        assert forall|x: Record| #[trigger]
            all.contains(x) <==> names.contains(x.dataset) && x == record_at(
                pool,
                rows,
                x.dataset,
            ) by {
            assert(names.contains(x.dataset) <==> front.contains(x.dataset) || x.dataset == last) by {
                if names.contains(x.dataset) {
                    let i = choose|i: int| 0 <= i < names.len() && names[i] == x.dataset;
                    if i < front.len() {
                        assert(front[i] == names[i]);
                    }
                }
                if front.contains(x.dataset) {
                    let i = choose|i: int| 0 <= i < front.len() && front[i] == x.dataset;
                    assert(names[i] == front[i]);
                }
                assert(names[names.len() - 1] == last);
            }
            if before.contains(x) {
                let k = choose|k: int| 0 <= k < before.len() && before[k] == x;
                assert(all[k] == x);
            }
            if all.contains(x) && !before.contains(x) {
                let k = choose|k: int| 0 <= k < all.len() && all[k] == x;
                if k < before.len() {
                    assert(before[k] == x);
                }
            }
            if x == record_at(pool, rows, last) && !front.contains(last) {
                assert(all[all.len() - 1] == x);
            }
        }
    }
}

/// The records of a pool are among those of all.
pub open spec fn pool_included(w: World, m: World, pool: Seq<char>, recs: Seq<Record>) -> bool {
    &&& sub::continues(w, m)
    &&& pool_records_does(m, pool).1 is Ok
    &&& forall|k: int|
        0 <= k < pool_records_does(m, pool).1->Ok_0.len() ==> recs.contains(
            #[trigger] pool_records_does(m, pool).1->Ok_0[k],
        )
}

/// In the course of a survey a pool was read, and all its records are there.
pub open spec fn pool_read(w: World, pool: Seq<char>, recs: Seq<Record>) -> bool {
    exists|m: World| #[trigger] pool_included(w, m, pool, recs)
}

/// A survey of pools that succeeds reads every one of them.
pub proof fn law_every_pool_is_read(w: World, ps: Seq<PoolFacts>)
    requires
        all_records_does(w, ps).1 is Ok,
    ensures
        forall|i: int|
            0 <= i < ps.len() ==> pool_read(
                w,
                (#[trigger] ps[i]).name,
                all_records_does(w, ps).1->Ok_0,
            ),
    decreases ps.len(),
{
    if ps.len() > 0 {
        let (w1, first) = pool_records_does(w, ps[0].name);
        let rest = ps.drop_first();
        law_every_pool_is_read(w1, rest);
        let recs = first->Ok_0;
        let more = all_records_does(w1, rest).1->Ok_0;
        let all = all_records_does(w, ps).1->Ok_0;
        assert(all == recs + more);
        assert(sub::continues(w, w));
        lemma_pool_records_continue(w, ps[0].name);
        assert forall|k: int| 0 <= k < recs.len() implies all.contains(#[trigger] recs[k]) by {
            assert(all[k] == recs[k]);
        }
        assert(pool_included(w, w, ps[0].name, all));
        assert forall|i: int| 0 <= i < ps.len() implies pool_read(
            w,
            (#[trigger] ps[i]).name,
            all,
        ) by {
            if i > 0 {
                assert(rest[i - 1] == ps[i]);
                let m = choose|m: World| #[trigger] pool_included(w1, m, rest[i - 1].name, more);
                effects::lemma_continues(w, w1, m);
                let mine = pool_records_does(m, ps[i].name).1->Ok_0;
                assert forall|k: int| 0 <= k < mine.len() implies all.contains(#[trigger] mine[k]) by {
                    assert(more.contains(mine[k]));
                    let j = choose|j: int| 0 <= j < more.len() && more[j] == mine[k];
                    assert(all[recs.len() + j] == mine[k]);
                }
                assert(pool_included(w, m, ps[i].name, all));
            }
        }
    }
}

proof fn lemma_run_cmd_continues(w: World, prog: Seq<char>, args: Seq<Seq<char>>)
    ensures
        sub::continues(w, run_cmd_does(w, prog, args).0),
{
    reveal(run_cmd_does);
    lemma_find_program_looks(w, prog);
}

proof fn lemma_pool_records_continue(w: World, pool: Seq<char>)
    ensures
        sub::continues(w, pool_records_does(w, pool).0),
{
    reveal(pool_records_does);
    let list = seq!["list"@, "-Hp"@, "-r"@, "-o"@, "name"@, "-t"@, "filesystem"@, pool];
    lemma_run_cmd_continues(w, "zfs"@, list);
    let (w1, listed) = filesystems_does(w, pool);
    if let Ok(names) = listed {
        let get = seq!["get"@, "-Hp"@, "-o"@, "name,property,value"@, asked_props()] + names;
        lemma_run_cmd_continues(w1, "zfs"@, get);
        effects::lemma_continues(w, w1, run_cmd_does(w1, "zfs"@, get).0);
    }
}

/// Looking for kernels keeps every boot environment, and changes nothing of it
/// but its kernels and where it is mounted; and those are as looking for them
/// at that one finds.
pub proof fn law_every_be_is_looked_into(w: World, bes: Seq<FoundBe>)
    ensures
        all_kernels_does(w, bes).1.len() == bes.len(),
        forall|i: int|
            0 <= i < bes.len() ==> looked_into(
                #[trigger] bes[i],
                all_kernels_does(w, bes).1[i],
            ),
    decreases bes.len(),
{
    if bes.len() > 0 {
        let front = bes.drop_last();
        law_every_be_is_looked_into(w, front);
        let (w1, before) = all_kernels_does(w, front);
        let all = all_kernels_does(w, bes).1;
        reveal(with_kernels_does);
        assert(all.last() == with_kernels_does(w1, bes.last()).1);
        assert(found_in(w1, bes.last(), all.last()));
        assert forall|i: int| 0 <= i < bes.len() implies looked_into(#[trigger] bes[i], all[i]) by {
            if i < front.len() {
                assert(front[i] == bes[i]);
                assert(all[i] == before[i]);
            }
        }
    }
}

/// One of two is the other with its kernels looked for, at some time.
pub open spec fn looked_into(b: FoundBe, c: FoundBe) -> bool {
    exists|m: World| #[trigger] found_in(m, b, c)
}

/// One of two is the other with what mounting it and looking under its `boot`
/// brings: its kernels, if it can be mounted.
pub open spec fn found_in(m: World, b: FoundBe, c: FoundBe) -> bool {
    let (w1, mounted) = mount_does(m, b.dataset, b.name);
    &&& c.pool == b.pool && c.dataset == b.dataset && c.name == b.name && c.origin == b.origin
    &&& c.active == b.active && c.readonly == b.readonly && c.bound_to == b.bound_to
    &&& match mounted {
        Ok(root) => c.mount_root == Some(root) && c.kernels == kernels_does(
            w1,
            paths::under(root, "boot"@),
        ).1,
        Err(_) => c.mount_root == b.mount_root && c.kernels == b.kernels,
    }
}

/// The kernels of a directory are those of its names that are kernels', all of
/// them; the default is the one that the link `vmlinuz` leads to.
pub proof fn law_kernels_of_a_directory(w: World, dir: Seq<char>, names: Seq<Seq<char>>)
    requires
        w.listed() == Ok::<Seq<Seq<char>>, Seq<char>>(names),
    ensures
        ({
            let (end, ks) = kernels_does(w, dir);
            let n = w.calls.len() as int;
            let link = (w.replies)((n + 1) as nat);
            &&& end.calls.len() > n + 1
            &&& end.calls[n] == Call::ListTexts { path: dir }
            &&& end.calls[n + 1] == Call::ReadLink { path: paths::under(dir, "vmlinuz"@) }
            &&& forall|x: Seq<char>|
                (exists|i: int| 0 <= i < ks.len() && (#[trigger] ks[i]).vmlinuz == x)
                    <==> #[trigger] names.contains(x) && kernel_name(x)
            &&& forall|i: int|
                0 <= i < ks.len() ==> ((#[trigger] ks[i]).default <==> link.failure is None
                    && paths::base(link.stdout) == Some(ks[i].vmlinuz))
        }),
{
    reveal(kernels_does);
    let (end, ks) = kernels_does(w, dir);
    let n = w.calls.len() as int;
    let sorted = kernels_sorted(names);
    let w1 = w.after(Call::ListTexts { path: dir });
    let w2 = w1.after(Call::ReadLink { path: paths::under(dir, "vmlinuz"@) });
    let target = match w1.line() {
        Err(_) => None,
        Ok(t) => paths::base(t),
    };
    lemma_entries(w2, dir, sorted, target);
    assert(end.calls[n] == w2.calls[n] && end.calls[n + 1] == w2.calls[n + 1]);
    assert forall|x: Seq<char>|
        (exists|i: int| 0 <= i < ks.len() && (#[trigger] ks[i]).vmlinuz == x)
            <==> #[trigger] names.contains(x) && kernel_name(x) by {
        law_all_kernels_are_offered(names, x);
        if names.contains(x) && kernel_name(x) {
            let i = choose|i: int| 0 <= i < sorted.len() && sorted[i] == x;
            assert(ks[i].vmlinuz == x);
        }
        if exists|i: int| 0 <= i < ks.len() && (#[trigger] ks[i]).vmlinuz == x {
            let i = choose|i: int| 0 <= i < ks.len() && (#[trigger] ks[i]).vmlinuz == x;
            assert(sorted[i] == x);
            assert(sorted.contains(x));
        }
    }
}

proof fn lemma_entries(
    w: World,
    dir: Seq<char>,
    names: Seq<Seq<char>>,
    target: Option<Seq<char>>,
)
    ensures
        sub::continues(w, entries_does(w, dir, names, target).0),
        entries_does(w, dir, names, target).1.len() == names.len(),
        forall|i: int|
            0 <= i < names.len() ==> {
                let k = #[trigger] entries_does(w, dir, names, target).1[i];
                &&& k.vmlinuz == names[i]
                &&& k.default <==> target == Some(names[i])
            },
    decreases names.len(),
{
    assert(sub::continues(w, w));
    if names.len() > 0 {
        let front = names.drop_last();
        lemma_entries(w, dir, front, target);
        let (w1, before) = entries_does(w, dir, front, target);
        let (end, all) = entries_does(w, dir, names, target);
        assert(sub::continues(w1, end));
        effects::lemma_continues(w, w1, end);
        assert forall|i: int| 0 <= i < names.len() implies {
            let k = #[trigger] all[i];
            &&& k.vmlinuz == names[i]
            &&& k.default <==> target == Some(names[i])
        } by {
            if i < front.len() {
                assert(all[i] == before[i]);
                assert(front[i] == names[i]);
            }
        }
    }
}

/// The call of a number asks whether a boot image is there, and the kernel has it
/// exactly where it is.
pub open spec fn paired_at(w: World, n: int, dir: Seq<char>, image: Seq<char>, k: Kernel) -> bool {
    &&& w.calls[n] == Call::Exists { path: paths::under(dir, image) }
    &&& k.initrd == if (w.replies)(n as nat).yes {
        Some(image)
    } else {
        None
    }
}

/// Of every kernel whose name has a boot image to it, that image was asked for,
/// and the kernel is paired with it exactly where it is there.
pub proof fn law_kernels_are_paired(
    w: World,
    dir: Seq<char>,
    names: Seq<Seq<char>>,
    target: Option<Seq<char>>,
    i: int,
)
    requires
        0 <= i < names.len(),
    ensures
        ({
            let (end, ks) = entries_does(w, dir, names, target);
            match image_of(names[i]) {
                None => ks[i].initrd is None,
                Some(image) => exists|n: int|
                    w.calls.len() <= n < end.calls.len() && #[trigger] paired_at(
                        end,
                        n,
                        dir,
                        image,
                        ks[i],
                    ),
            }
        }),
    decreases names.len(),
{
    let front = names.drop_last();
    lemma_entries(w, dir, front, target);
    let (w1, before) = entries_does(w, dir, front, target);
    let (end, all) = entries_does(w, dir, names, target);
    assert(sub::continues(w1, end));
    if i < front.len() {
        assert(front[i] == names[i]);
        assert(all[i] == before[i]);
        law_kernels_are_paired(w, dir, front, target, i);
        if let Some(image) = image_of(names[i]) {
            let n = choose|n: int|
                w.calls.len() <= n < w1.calls.len() && #[trigger] paired_at(
                    w1,
                    n,
                    dir,
                    image,
                    before[i],
                );
            assert(end.calls[n] == w1.calls[n]);
            assert(paired_at(end, n, dir, image, all[i]));
        }
    } else {
        if let Some(image) = image_of(names[i]) {
            assert(paired_at(end, w1.calls.len() as int, dir, image, all[i]));
        }
    }
}

} // verus!
