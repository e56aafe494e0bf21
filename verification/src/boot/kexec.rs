//! The handoff to a boot environment's kernel.
//!
//! The kernel and its boot image are loaded and then started, by the `kexec`
//! program. That happens only behind a gate: for the first process of the
//! machine, or where the environment asks for it. In front of a closed gate the
//! operator is told what would be started, and nothing is.

use vstd::prelude::*;

use crate::boot::discover;
use crate::error;
use crate::error::Error;
use crate::model::{Be, BootEnvironment};
use crate::paths;
use crate::sub;
use crate::sub::{Call, Ran, Reply, RunOutput, Runner, World};
use crate::text;
use crate::zfs_ops;

verus! {

// ---------------------------------------------------------------------------
// What is started, and how
// ---------------------------------------------------------------------------

/// What is started.
#[derive(Debug, Clone, PartialEq, Eq)]
pub struct KexecPlan {
    /// Path of the kernel.
    pub kernel: String,
    /// Path of its boot image.
    pub initrd: String,
    /// The kernel's command line.
    pub cmdline: String,
    /// The boot environment's dataset.
    pub dataset: String,
}

/// What is started, by what is known of it.
#[verifier::ext_equal]
pub struct Load {
    pub kernel: Seq<char>,
    pub initrd: Seq<char>,
    pub cmdline: Seq<char>,
    pub dataset: Seq<char>,
}

impl DeepView for KexecPlan {
    type V = Load;

    open spec fn deep_view(&self) -> Load {
        Load {
            kernel: self.kernel@,
            initrd: self.initrd@,
            cmdline: self.cmdline@,
            dataset: self.dataset@,
        }
    }
}

impl KexecPlan {
    /// The same plan.
    pub fn copy(&self) -> (r: KexecPlan)
        ensures
            r.deep_view() == self.deep_view(),
    {
        KexecPlan {
            kernel: self.kernel.clone(),
            initrd: self.initrd.clone(),
            cmdline: self.cmdline.clone(),
            dataset: self.dataset.clone(),
        }
    }
}

/// What came of a step: nothing to report, or the message of a failure.
pub type Outcome = Result<(), Seq<char>>;

/// What loads a kernel and starts it.
pub trait KexecBackend: Sized {
    /// What is remembered between calls.
    type State;

    /// What is remembered now.
    spec fn state(&self) -> Self::State;

    /// What loading does: to what is remembered, to the machine, and the
    /// outcome.
    spec fn loads(s: Self::State, w: World, p: Load) -> (Self::State, World, Outcome);

    /// What starting does. Where it succeeds on a machine, nobody is left to
    /// tell.
    spec fn starts(s: Self::State, w: World) -> (Self::State, World, Outcome);

    /// Loads a kernel and its boot image.
    fn load<R: Runner>(&mut self, r: &mut R, plan: &KexecPlan) -> (res: Result<(), Error>)
        ensures
            (final(self).state(), final(r).world(), error::outcome(res)) == Self::loads(
                old(self).state(),
                old(r).world(),
                plan.deep_view(),
            ),
    ;

    /// Starts the kernel that was loaded.
    fn exec<R: Runner>(&mut self, r: &mut R) -> (res: Result<(), Error>)
        ensures
            (final(self).state(), final(r).world(), error::outcome(res)) == Self::starts(
                old(self).state(),
                old(r).world(),
            ),
    ;
}

/// Whether a kernel is really started.
#[derive(Debug, Clone, Copy, PartialEq, Eq, Structural)]
pub enum Gate {
    Open,
    Closed,
}

/// The kexec gate is open for the first process of the machine, and where the
/// environment asks for it.
pub open spec fn gate(pid_one: bool, asked: bool) -> Gate {
    if pid_one || asked {
        Gate::Open
    } else {
        Gate::Closed
    }
}

/// The kexec gate is open for the first process of the machine, and where the
/// environment asks for it.
pub fn decide_gate(pid_one: bool, env_override: bool) -> (g: Gate)
    ensures
        g == gate(pid_one, env_override),
{
    if pid_one || env_override {
        Gate::Open
    } else {
        Gate::Closed
    }
}

/// Asks the environment and the process number.
pub open spec fn gate_does(w: World) -> (World, Gate) {
    let w1 = w.after(Call::Env { name: "ZBOOT_BOOT_REAL_KEXEC"@ });
    (w1.after(Call::Pid), gate(w1.reply().pid == 1, w.maybe() == Some("1"@)))
}

/// Asks the environment and the process number.
pub fn gate_from_environment<R: Runner>(r: &mut R) -> (g: Gate)
    ensures
        (final(r).world(), g) == gate_does(old(r).world()),
{
    let asked = r.env("ZBOOT_BOOT_REAL_KEXEC");
    let asked: bool = text::opt_is(&asked, "1");
    let pid_one: bool = r.pid() == 1;
    decide_gate(pid_one, asked)
}

// ---------------------------------------------------------------------------
// The command line
// ---------------------------------------------------------------------------

/// What every command line begins with, and what is added to it.
pub open spec fn cmdline_of(dataset: Seq<char>, extras: Option<Seq<char>>) -> Seq<char> {
    let base = "root=ZFS="@ + dataset + " ro"@;
    match extras {
        Some(e) => if e.len() > 0 {
            base + " "@ + e
        } else {
            base
        },
        None => base,
    }
}

/// The kernel's command line: where its root is, and what is added.
pub fn build_cmdline(dataset: &str, extras: Option<&str>) -> (r: String)
    ensures
        r@ == cmdline_of(dataset@, extras.deep_view()),
{
    let base: String = text::cat3("root=ZFS=", dataset, " ro");
    match extras {
        Some(e) => if !e.is_empty() {
            text::cat3(base.as_str(), " ", e)
        } else {
            base
        },
        None => base,
    }
}

/// Reads what the pool keeps for the command line of a dataset; whatever
/// fails, there is nothing.
#[verifier::opaque]
pub open spec fn kept_cmdline_does(w: World, dataset: Seq<char>) -> (World, Option<Seq<char>>) {
    let (w1, found) = discover::find_program_does(w, "zfs"@);
    let zfs = match found {
        Some(p) => p,
        None => "zfs"@,
    };
    (
        w1.run(
            zfs,
            seq!["get"@, "-H"@, "-o"@, "value"@, "zboot:kernel-cmdline"@, dataset],
        ),
        match w1.printed() {
            Err(_) => None,
            Ok(out) => {
                let t = text::trimmed(out.stdout);
                if out.rc != 0 || out.garbled is Some || t.len() == 0 || t == "-"@ {
                    None
                } else {
                    Some(t)
                }
            },
        },
    )
}

/// Reads what the pool keeps for the command line of a dataset.
pub fn read_zboot_cmdline<R: Runner>(r: &mut R, dataset: &str) -> (res: Option<String>)
    ensures
        (final(r).world(), res.deep_view()) == kept_cmdline_does(old(r).world(), dataset@),
{
    proof {
        reveal(kept_cmdline_does);
    }
    let zfs: String = match discover::find_program(r, "zfs") {
        Some(p) => p,
        None => "zfs".to_owned(),
    };
    let args = text::argv6("get", "-H", "-o", "value", "zboot:kernel-cmdline", dataset);
    match r.read(zfs.as_str(), args.as_slice()) {
        Err(_) => None,
        Ok(out) => {
            let t: &str = text::trim(out.stdout.as_str());
            if out.rc != 0 || out.garbled.is_some() || t.is_empty() || text::eq(t, "-") {
                None
            } else {
                Some(t.to_owned())
            }
        },
    }
}

/// The number that four bytes hold, the least significant first.
pub open spec fn little_endian(b: Seq<u8>) -> nat {
    (b[0] + 0x100 * b[1] + 0x1_0000 * b[2] + 0x100_0000 * b[3]) as nat
}

/// The host id of the file's bytes, where there are four.
pub open spec fn hostid_in(b: Seq<u8>) -> Option<nat> {
    if b.len() == 4 {
        Some(little_endian(b))
    } else {
        None
    }
}

/// The host id of the file's bytes, where there are four.
pub fn decode_hostid(b: &Vec<u8>) -> (r: Option<u32>)
    ensures
        match r {
            Some(h) => hostid_in(b@) == Some(h as nat),
            None => hostid_in(b@) is None,
        },
{
    if b.len() != 4 {
        return None;
    }
    let h: u32 = b[0] as u32 + 0x100 * b[1] as u32 + 0x1_0000 * b[2] as u32 + 0x100_0000
        * b[3] as u32;
    Some(h)
}

/// Reads this machine's host id.
pub open spec fn runtime_hostid_does(w: World) -> (World, Option<nat>) {
    (
        w.after(Call::ReadBytes { path: "/etc/hostid"@ }),
        match w.raw() {
            Err(_) => None,
            Ok(b) => hostid_in(b),
        },
    )
}

/// Reads this machine's host id.
pub fn read_runtime_hostid<R: Runner>(r: &mut R) -> (res: Option<u32>)
    ensures
        final(r).world() == runtime_hostid_does(old(r).world()).0,
        match res {
            Some(h) => runtime_hostid_does(old(r).world()).1 == Some(h as nat),
            None => runtime_hostid_does(old(r).world()).1 is None,
        },
{
    match r.read_bytes("/etc/hostid") {
        Err(_) => None,
        Ok(b) => decode_hostid(&b),
    }
}

/// What the boot loader adds where the operator adds nothing.
pub open spec fn usual_extras(name: Seq<char>) -> Seq<char> {
    "zboot.be="@ + name + " console=tty0 console=ttyS0,115200"@
}

/// The parts of a command line, from the least to the most special: the root,
/// what the pool keeps, what is added for this boot, and the host id, which the
/// boot image needs to import the pool.
pub open spec fn cmdline_parts(
    dataset: Seq<char>,
    name: Seq<char>,
    kept: Option<Seq<char>>,
    extras: Option<Seq<char>>,
    hostid: Option<nat>,
) -> Seq<Seq<char>> {
    let added = match extras {
        Some(e) => e,
        None => usual_extras(name),
    };
    seq![cmdline_of(dataset, None)] + (match kept {
        Some(k) => if k.len() > 0 {
            seq![k]
        } else {
            seq![]
        },
        None => seq![],
    }) + (if added.len() > 0 {
        seq![added]
    } else {
        seq![]
    }) + (match hostid {
        Some(h) => seq!["spl.spl_hostid=0x"@ + text::padded(h, 16, 8)],
        None => seq![],
    })
}

/// The parts put together.
pub fn join_cmdline(
    dataset: &str,
    name: &str,
    kept: &Option<String>,
    extras: Option<&str>,
    hostid: Option<u32>,
) -> (r: String)
    ensures
        r@ == text::joined(
            cmdline_parts(
                dataset@,
                name@,
                kept.deep_view(),
                extras.deep_view(),
                match hostid {
                    Some(h) => Some(h as nat),
                    None => None,
                },
            ),
            " "@,
        ),
{
    let mut parts: Vec<String> = Vec::new();
    let base: String = build_cmdline(dataset, None);
    text::push_text(&mut parts, base.as_str());
    match kept {
        Some(k) => {
            if !k.as_str().is_empty() {
                text::push_text(&mut parts, k.as_str());
            }
        },
        None => {},
    }
    let usual: String = text::cat3(
        "zboot.be=",
        name,
        " console=tty0 console=ttyS0,115200",
    );
    let added: &str = match extras {
        Some(e) => e,
        None => usual.as_str(),
    };
    if !added.is_empty() {
        text::push_text(&mut parts, added);
    }
    match hostid {
        Some(h) => {
            let hex: String = text::pad(h as u128, 16, 8);
            let part: String = text::cat2("spl.spl_hostid=0x", hex.as_str());
            text::push_text(&mut parts, part.as_str());
        },
        None => {},
    }
    assert(parts.deep_view() =~= cmdline_parts(
        dataset@,
        name@,
        kept.deep_view(),
        extras.deep_view(),
        match hostid {
            Some(h) => Some(h as nat),
            None => None,
        },
    ));
    text::join(&parts, " ")
}

/// Composes the command line of a boot environment.
#[verifier::opaque]
pub open spec fn compose_does(w: World, be: Be, extras: Option<Seq<char>>) -> (World, Seq<char>) {
    let (w1, kept) = kept_cmdline_does(w, be.dataset);
    let (w2, hostid) = runtime_hostid_does(w1);
    (w2, text::joined(cmdline_parts(be.dataset, be.name, kept, extras, hostid), " "@))
}

/// Composes the command line of a boot environment.
pub fn compose_cmdline<R: Runner>(r: &mut R, be: &BootEnvironment, extras_override: Option<&str>)
    -> (res: String)
    ensures
        (final(r).world(), res@) == compose_does(
            old(r).world(),
            be.deep_view(),
            extras_override.deep_view(),
        ),
{
    proof {
        reveal(compose_does);
    }
    let kept = read_zboot_cmdline(r, be.dataset.as_str());
    let hostid = read_runtime_hostid(r);
    join_cmdline(be.dataset.as_str(), be.name.as_str(), &kept, extras_override, hostid)
}

// ---------------------------------------------------------------------------
// The plan
// ---------------------------------------------------------------------------

/// The complaint about a file that is not there.
pub open spec fn missing_text(
    what: Seq<char>,
    file: Seq<char>,
    dir: Seq<char>,
    dataset: Seq<char>,
) -> Seq<char> {
    what + " `"@ + file + "` not found under "@ + dir + " for BE "@ + dataset
}

fn missing(what: &str, file: &str, dir: &str, dataset: &str) -> (e: Error)
    ensures
        e@ == missing_text(what@, file@, dir@, dataset@),
{
    Error::from_text(
        text::cat7(what, " `", file, "` not found under ", dir, " for BE ", dataset),
    )
}

/// Plans to start one kernel of a boot environment that is mounted at `root`.
#[verifier::opaque]
pub open spec fn plan_with_does(
    w: World,
    be: Be,
    root: Seq<char>,
    kernel: Seq<char>,
    initrd: Seq<char>,
    extras: Option<Seq<char>>,
) -> (World, Result<Load, Seq<char>>) {
    let dir = paths::under(root, "boot"@);
    let kernel_path = paths::under(dir, kernel);
    let initrd_path = paths::under(dir, initrd);
    let w1 = w.after(Call::Exists { path: kernel_path });
    if !w.reply().yes {
        (w1, Err(missing_text("kernel"@, kernel, dir, be.dataset)))
    } else {
        let w2 = w1.after(Call::Exists { path: initrd_path });
        if !w1.reply().yes {
            (w2, Err(missing_text("initrd"@, initrd, dir, be.dataset)))
        } else {
            let (w3, cmdline) = compose_does(w2, be, extras);
            (
                w3,
                Ok(
                    Load {
                        kernel: kernel_path,
                        initrd: initrd_path,
                        cmdline,
                        dataset: be.dataset,
                    },
                ),
            )
        }
    }
}

/// Plans to start one kernel of a boot environment. Both files are taken as
/// they are named. `extras_override` takes the place of what the boot loader
/// adds to the command line on its own.
pub fn plan_with_kernel<R: Runner>(
    r: &mut R,
    be: &BootEnvironment,
    mount_root: &str,
    kernel_filename: &str,
    initrd_filename: &str,
    extras_override: Option<&str>,
) -> (res: Result<KexecPlan, Error>)
    ensures
        sub::did(final(r).world(), res) == plan_with_does(
            old(r).world(),
            be.deep_view(),
            mount_root@,
            kernel_filename@,
            initrd_filename@,
            extras_override.deep_view(),
        ),
{
    proof {
        reveal(plan_with_does);
    }
    let dir: String = paths::join(mount_root, "boot");
    let kernel: String = paths::join(dir.as_str(), kernel_filename);
    if !r.present(kernel.as_str()) {
        return Err(missing("kernel", kernel_filename, dir.as_str(), be.dataset.as_str()));
    }
    let initrd: String = paths::join(dir.as_str(), initrd_filename);
    if !r.present(initrd.as_str()) {
        return Err(missing("initrd", initrd_filename, dir.as_str(), be.dataset.as_str()));
    }
    let cmdline: String = compose_cmdline(r, be, extras_override);
    Ok(KexecPlan { kernel, initrd, cmdline, dataset: be.dataset.clone() })
}

/// Plans to start the default kernel of a boot environment.
pub open spec fn plan_does(w: World, be: Be, root: Seq<char>) -> (World, Result<Load, Seq<char>>) {
    plan_with_does(w, be, root, "vmlinuz"@, "initrd.img"@, None)
}

/// Plans to start the default kernel of a boot environment.
pub fn plan<R: Runner>(r: &mut R, be: &BootEnvironment, mount_root: &str) -> (res: Result<
    KexecPlan,
    Error,
>)
    ensures
        sub::did(final(r).world(), res) == plan_does(
            old(r).world(),
            be.deep_view(),
            mount_root@,
        ),
{
    plan_with_kernel(r, be, mount_root, "vmlinuz", "initrd.img", None)
}

// ---------------------------------------------------------------------------
// The handoff
// ---------------------------------------------------------------------------

/// What is told in front of a closed gate.
pub open spec fn would_text(p: Load) -> Seq<char> {
    "would kexec "@ + p.dataset + " (kernel="@ + p.kernel + ", initrd="@ + p.initrd
        + ", cmdline="@ + text::quoted_text(p.cmdline) + ")"@
}

/// What is told of a kernel that cannot be loaded.
pub open spec fn load_failed_text(p: Load) -> Seq<char> {
    "kexec load failed (kernel="@ + p.kernel + ", initrd="@ + p.initrd + ")"@
}

/// Starts what was planned, where the kexec gate is open. Who comes back from the
/// start has failed.
pub open spec fn handoff_gated_does<B: KexecBackend>(
    s: B::State,
    w: World,
    p: Load,
    g: Gate,
) -> (B::State, World, Result<(), Seq<char>>) {
    match g {
        Gate::Closed => {
            let (w1, told) = sub::tell_does(w, would_text(p), "write would-kexec line"@);
            (s, w1, told)
        },
        Gate::Open => {
            let (s1, w1, loaded) = B::loads(s, w, p);
            match loaded {
                Err(m) => (s1, w1, Err(error::within(load_failed_text(p), m))),
                Ok(()) => {
                    let (told, line) = sub::tell_does(
                        w1,
                        "kexec'ing into "@ + p.dataset,
                        "write kexec line"@,
                    );
                    if line is Err {
                        (s1, told, line)
                    } else {
                        let (s2, w2, started) = B::starts(s1, told);
                        match started {
                            Err(m) => (s2, w2, Err(error::within("kexec exec failed"@, m))),
                            Ok(()) => (
                                s2,
                                w2,
                                Err(
                                    "kexec exec returned without rebooting — the new kernel did not take"@,
                                ),
                            ),
                        }
                    }
                },
            }
        },
    }
}

/// Starts what was planned, where the kexec gate is open.
pub fn handoff_plan_with_gate<R: Runner, B: KexecBackend>(
    r: &mut R,
    plan: &KexecPlan,
    backend: &mut B,
    gate: Gate,
) -> (res: Result<(), Error>)
    ensures
        (final(backend).state(), final(r).world(), error::outcome(res)) == handoff_gated_does::<B>(
            old(backend).state(),
            old(r).world(),
            plan.deep_view(),
            gate,
        ),
{
    match gate {
        Gate::Closed => {
            let q: String = text::quoted(plan.cmdline.as_str());
            let line: String = text::cat9(
                "would kexec ",
                plan.dataset.as_str(),
                " (kernel=",
                plan.kernel.as_str(),
                ", initrd=",
                plan.initrd.as_str(),
                ", cmdline=",
                q.as_str(),
                ")",
            );
            return sub::tell(r, line.as_str(), "write would-kexec line");
        },
        Gate::Open => {},
    }
    match backend.load(r, plan) {
        Err(e) => {
            let what: String = text::cat5(
                "kexec load failed (kernel=",
                plan.kernel.as_str(),
                ", initrd=",
                plan.initrd.as_str(),
                ")",
            );
            return Err(e.context(what.as_str()));
        },
        Ok(()) => {},
    }
    let line: String = text::cat2("kexec'ing into ", plan.dataset.as_str());
    if let Err(e) = sub::tell(r, line.as_str(), "write kexec line") {
        return Err(e);
    }
    match backend.exec(r) {
        Err(e) => Err(e.context("kexec exec failed")),
        Ok(()) => Err(
            Error::new("kexec exec returned without rebooting — the new kernel did not take"),
        ),
    }
}

/// Starts what was planned, where the kexec gate that the environment decides is
/// open.
pub open spec fn handoff_plan_does<B: KexecBackend>(s: B::State, w: World, p: Load) -> (
    B::State,
    World,
    Result<(), Seq<char>>,
) {
    let (w1, g) = gate_does(w);
    handoff_gated_does::<B>(s, w1, p, g)
}

/// Starts what was planned, where the kexec gate that the environment decides is
/// open.
pub fn handoff_plan<R: Runner, B: KexecBackend>(r: &mut R, plan: &KexecPlan, backend: &mut B) -> (
res: Result<(), Error>)
    ensures
        (final(backend).state(), final(r).world(), error::outcome(res)) == handoff_plan_does::<B>(
            old(backend).state(),
            old(r).world(),
            plan.deep_view(),
        ),
{
    let gate = gate_from_environment(r);
    handoff_plan_with_gate(r, plan, backend, gate)
}

/// Plans to start the default kernel of a boot environment, and starts it
/// where the kexec gate is open.
pub open spec fn handoff_with_gate_does<B: KexecBackend>(
    s: B::State,
    w: World,
    be: Be,
    root: Seq<char>,
    g: Gate,
) -> (B::State, World, Result<(), Seq<char>>) {
    let (w1, planned) = plan_does(w, be, root);
    match planned {
        Err(m) => (s, w1, Err(m)),
        Ok(p) => handoff_gated_does::<B>(s, w1, p, g),
    }
}

/// Plans to start the default kernel of a boot environment, and starts it
/// where the kexec gate is open.
pub fn handoff_with_gate<R: Runner, B: KexecBackend>(
    r: &mut R,
    be: &BootEnvironment,
    mount_root: &str,
    backend: &mut B,
    gate: Gate,
) -> (res: Result<(), Error>)
    ensures
        (final(backend).state(), final(r).world(), error::outcome(res)) == handoff_with_gate_does::<
            B,
        >(old(backend).state(), old(r).world(), be.deep_view(), mount_root@, gate),
{
    match plan(r, be, mount_root) {
        Err(e) => Err(e),
        Ok(p) => handoff_plan_with_gate(r, &p, backend, gate),
    }
}

/// Plans to start the default kernel of a boot environment, and starts it
/// where the kexec gate that the environment decides is open.
pub fn handoff<R: Runner, B: KexecBackend>(
    r: &mut R,
    be: &BootEnvironment,
    mount_root: &str,
    backend: &mut B,
) -> (res: Result<(), Error>)
    ensures
        (final(backend).state(), final(r).world(), error::outcome(res)) == handoff_with_gate_does::<
            B,
        >(
            old(backend).state(),
            gate_does(old(r).world()).0,
            be.deep_view(),
            mount_root@,
            gate_does(old(r).world()).1,
        ),
{
    let gate = gate_from_environment(r);
    handoff_with_gate(r, be, mount_root, backend, gate)
}

// ---------------------------------------------------------------------------
// Those that start kernels
// ---------------------------------------------------------------------------

/// The one that really does: it runs `kexec`.
#[derive(Debug)]
pub struct SystemKexec {
    /// Where the program lies, if not on the search path.
    pub kexec_bin: Option<String>,
}

/// The program that is run.
pub open spec fn binary_of(bin: Option<Seq<char>>) -> Seq<char> {
    match bin {
        Some(b) => b,
        None => "kexec"@,
    }
}

/// What `kexec -l` comes to.
pub open spec fn load_outcome(out: Ran) -> Outcome {
    if out.rc == 0 {
        Ok(())
    } else {
        Err(
            "`kexec -l` exited rc="@ + zfs_ops::rc_text(out.rc) + ": "@ + text::trimmed(out.stderr),
        )
    }
}

fn judge_load(out: &RunOutput) -> (res: Result<(), Error>)
    ensures
        error::outcome(res) == load_outcome(out.deep_view()),
{
    if out.rc == 0 {
        Ok(())
    } else {
        let rc: String = zfs_ops::rc_shown(out.rc);
        Err(
            Error::from_text(
                text::cat4(
                    "`kexec -l` exited rc=",
                    rc.as_str(),
                    ": ",
                    text::trim(out.stderr.as_str()),
                ),
            ),
        )
    }
}

/// What `kexec -e` comes to, if it comes back.
pub open spec fn start_outcome(rc: i32) -> Outcome {
    Err(
        "`kexec -e` returned rc="@ + zfs_ops::rc_text(rc as int)
            + " (should never return on success)"@,
    )
}

fn judge_start(rc: i32) -> (res: Result<(), Error>)
    ensures
        error::outcome(res) == start_outcome(rc),
{
    let rc: String = zfs_ops::rc_shown(rc);
    Err(
        Error::from_text(
            text::cat3(
                "`kexec -e` returned rc=",
                rc.as_str(),
                " (should never return on success)",
            ),
        ),
    )
}

impl SystemKexec {
    /// The program on the search path; where it cannot be started from there,
    /// `/usr/sbin/kexec`.
    pub fn new() -> (s: SystemKexec)
        ensures
            s.state() is None,
    {
        SystemKexec { kexec_bin: None }
    }

    /// The program that is run.
    pub fn binary(&self) -> (r: &str)
        ensures
            r@ == binary_of(self.state()),
    {
        match &self.kexec_bin {
            Some(b) => b.as_str(),
            None => "kexec",
        }
    }
}

impl KexecBackend for SystemKexec {
    type State = Option<Seq<char>>;

    open spec fn state(&self) -> Option<Seq<char>> {
        self.kexec_bin.deep_view()
    }

    open spec fn loads(s: Option<Seq<char>>, w: World, p: Load) -> (
        Option<Seq<char>>,
        World,
        Outcome,
    ) {
        let bin = binary_of(s);
        let args = seq![
            "-l"@,
            p.kernel,
            "--initrd="@ + p.initrd,
            "--command-line="@ + p.cmdline,
        ];
        let w1 = w.run(bin, args);
        match w.ran() {
            Ok(out) => (s, w1, load_outcome(out)),
            Err(m) => {
                let failed = Err(error::within("spawn `"@ + bin + " -l ...`"@, m));
                if s is Some {
                    (s, w1, failed)
                } else {
                    (
                        s,
                        w1.run("/usr/sbin/kexec"@, args),
                        match w1.ran() {
                            Ok(out) => load_outcome(out),
                            Err(_) => failed,
                        },
                    )
                }
            },
        }
    }

    open spec fn starts(s: Option<Seq<char>>, w: World) -> (Option<Seq<char>>, World, Outcome) {
        let w1 = w.after(Call::Attend { prog: binary_of(s), args: seq!["-e"@] });
        match w.code() {
            Ok(rc) => (s, w1, start_outcome(rc)),
            Err(m) => {
                let failed = Err(error::within("spawn `kexec -e`"@, m));
                if s is Some {
                    (s, w1, failed)
                } else {
                    (
                        s,
                        w1.after(Call::Attend { prog: "/usr/sbin/kexec"@, args: seq!["-e"@] }),
                        match w1.code() {
                            Ok(rc) => start_outcome(rc),
                            Err(_) => failed,
                        },
                    )
                }
            },
        }
    }

    fn load<R: Runner>(&mut self, r: &mut R, plan: &KexecPlan) -> (res: Result<(), Error>) {
        let image: String = text::cat2("--initrd=", plan.initrd.as_str());
        let line: String = text::cat2("--command-line=", plan.cmdline.as_str());
        let args = text::argv4("-l", plan.kernel.as_str(), image.as_str(), line.as_str());
        match r.run(self.binary(), args.as_slice()) {
            Ok(out) => judge_load(&out),
            Err(e) => {
                if self.kexec_bin.is_none() {
                    if let Ok(out) = r.run("/usr/sbin/kexec", args.as_slice()) {
                        return judge_load(&out);
                    }
                }
                let what: String = text::cat3("spawn `", self.binary(), " -l ...`");
                Err(e.context(what.as_str()))
            },
        }
    }

    fn exec<R: Runner>(&mut self, r: &mut R) -> (res: Result<(), Error>) {
        let args = text::argv1("-e");
        match r.attend(self.binary(), args.as_slice()) {
            Ok(rc) => judge_start(rc),
            Err(e) => {
                if self.kexec_bin.is_none() {
                    if let Ok(rc) = r.attend("/usr/sbin/kexec", args.as_slice()) {
                        return judge_start(rc);
                    }
                }
                Err(e.context("spawn `kexec -e`"))
            },
        }
    }
}

/// The one that only remembers what it was asked.
#[derive(Debug)]
pub struct RecordingBackend {
    pub loads: Vec<KexecPlan>,
    pub exec_calls: usize,
    /// What starting fails with; else it comes back as if it had succeeded.
    pub exec_returns_err: Option<String>,
}

/// What the recording one remembers.
#[verifier::ext_equal]
pub struct Recorded {
    pub loads: Seq<Load>,
    pub exec_calls: nat,
    pub fails: Option<Seq<char>>,
}

/// One more, as far as can be counted.
pub open spec fn counted(n: nat) -> nat {
    if n < usize::MAX {
        n + 1
    } else {
        n
    }
}

impl Default for RecordingBackend {
    fn default() -> (b: RecordingBackend)
        ensures
            b.state() == (Recorded { loads: seq![], exec_calls: 0, fails: None }),
    {
        let loads: Vec<KexecPlan> = Vec::new();
        assert(loads.deep_view() =~= seq![]);
        RecordingBackend { loads, exec_calls: 0, exec_returns_err: None }
    }
}

impl KexecBackend for RecordingBackend {
    type State = Recorded;

    open spec fn state(&self) -> Recorded {
        Recorded {
            loads: self.loads.deep_view(),
            exec_calls: self.exec_calls as nat,
            fails: self.exec_returns_err.deep_view(),
        }
    }

    open spec fn loads(s: Recorded, w: World, p: Load) -> (Recorded, World, Outcome) {
        (Recorded { loads: s.loads.push(p), ..s }, w, Ok(()))
    }

    open spec fn starts(s: Recorded, w: World) -> (Recorded, World, Outcome) {
        (
            Recorded { exec_calls: counted(s.exec_calls), ..s },
            w,
            match s.fails {
                Some(m) => Err(m),
                None => Ok(()),
            },
        )
    }

    fn load<R: Runner>(&mut self, r: &mut R, plan: &KexecPlan) -> (res: Result<(), Error>) {
        let ghost so_far = self.loads.deep_view();
        let p = plan.copy();
        self.loads.push(p);
        assert(self.loads.deep_view() =~= so_far.push(p.deep_view()));
        Ok(())
    }

    fn exec<R: Runner>(&mut self, r: &mut R) -> (res: Result<(), Error>) {
        if self.exec_calls < usize::MAX {
            self.exec_calls = self.exec_calls + 1;
        }
        match &self.exec_returns_err {
            Some(m) => Err(Error::new(m.as_str())),
            None => Ok(()),
        }
    }
}

// ---------------------------------------------------------------------------
// Laws
// ---------------------------------------------------------------------------

/// In front of a closed gate nothing is loaded or started: the operator is
/// told, and where that succeeds so does the handoff.
pub proof fn law_closed_gate_is_harmless<B: KexecBackend>(s: B::State, w: World, p: Load)
    ensures
        handoff_gated_does::<B>(s, w, p, Gate::Closed).0 == s,
        sub::only_looked(w, handoff_gated_does::<B>(s, w, p, Gate::Closed).1),
        handoff_gated_does::<B>(s, w, p, Gate::Closed).2 is Ok <==> w.unit() is Ok,
{
}

/// The kexec gate is closed for everyone but the first process of the machine, unless
/// the environment asks for it.
pub proof fn law_gate(pid_one: bool, asked: bool)
    ensures
        gate(pid_one, asked) is Open <==> pid_one || asked,
{
}

/// Behind an open gate a handoff never comes back with success.
pub proof fn law_open_gate_does_not_return<B: KexecBackend>(s: B::State, w: World, p: Load)
    ensures
        handoff_gated_does::<B>(s, w, p, Gate::Open).2 is Err,
{
}

/// Every command line begins with the root, and ends with the host id where
/// there is one. What is added for one boot takes the place of what the boot
/// loader adds, not of what the pool keeps.
pub proof fn law_cmdline_layers(
    dataset: Seq<char>,
    name: Seq<char>,
    kept: Seq<char>,
    extras: Seq<char>,
    hostid: nat,
)
    requires
        kept.len() > 0,
        extras.len() > 0,
    ensures
        cmdline_parts(dataset, name, Some(kept), Some(extras), Some(hostid)) == seq![
            "root=ZFS="@ + dataset + " ro"@,
            kept,
            extras,
            "spl.spl_hostid=0x"@ + text::padded(hostid, 16, 8),
        ],
        cmdline_parts(dataset, name, Some(kept), None, Some(hostid)) == seq![
            "root=ZFS="@ + dataset + " ro"@,
            kept,
            usual_extras(name),
            "spl.spl_hostid=0x"@ + text::padded(hostid, 16, 8),
        ],
{
    reveal_strlit("zboot.be=");
    assert(usual_extras(name).len() > 0);
    assert(cmdline_parts(dataset, name, Some(kept), Some(extras), Some(hostid)) =~= seq![
        "root=ZFS="@ + dataset + " ro"@,
        kept,
        extras,
        "spl.spl_hostid=0x"@ + text::padded(hostid, 16, 8),
    ]);
    assert(cmdline_parts(dataset, name, Some(kept), None, Some(hostid)) =~= seq![
        "root=ZFS="@ + dataset + " ro"@,
        kept,
        usual_extras(name),
        "spl.spl_hostid=0x"@ + text::padded(hostid, 16, 8),
    ]);
}

/// A part of a command line, with the blank that parts it from the rest.
pub open spec fn blank_before(part: Seq<char>) -> Seq<char> {
    if part.len() == 0 {
        seq![]
    } else {
        " "@ + part
    }
}

/// What the reply to the query of the property adds to the command line: the
/// text, if the query succeeded and told of any.
pub open spec fn kept_part(y: Reply) -> Seq<char> {
    let t = text::trimmed(y.stdout);
    if y.failure is None && y.rc == 0 && y.garbled is None && t != "-"@ {
        blank_before(t)
    } else {
        seq![]
    }
}

/// What the reply to reading the host id adds to the command line.
pub open spec fn hostid_part(y: Reply) -> Seq<char> {
    if y.failure is None && y.bytes.len() == 4 {
        " spl.spl_hostid=0x"@ + text::padded(
            (y.bytes[0] + 256 * (y.bytes[1] + 256 * (y.bytes[2] + 256 * y.bytes[3]))) as nat,
            16,
            8,
        )
    } else {
        seq![]
    }
}

/// The last two calls of composing a command line ask for the property of the
/// dataset and for the host id. The line holds the root, then what the property
/// reads, then what is added for this boot, then the host id.
pub proof fn law_composed_line(w: World, be: Be, extras: Option<Seq<char>>)
    ensures
        ({
            let (end, line) = compose_does(w, be, extras);
            let n = end.calls.len() - 2;
            &&& sub::continues(w, end)
            &&& n >= w.calls.len()
            &&& end.calls[n] is Run
            &&& end.calls[n]->Run_args == seq![
                "get"@,
                "-H"@,
                "-o"@,
                "value"@,
                "zboot:kernel-cmdline"@,
                be.dataset,
            ]
            &&& end.calls[n + 1] == Call::ReadBytes { path: "/etc/hostid"@ }
            &&& line == "root=ZFS="@ + be.dataset + " ro"@ + kept_part((w.replies)(n as nat))
                + blank_before(
                match extras {
                    Some(e) => e,
                    None => "zboot.be="@ + be.name + " console=tty0 console=ttyS0,115200"@,
                },
            ) + hostid_part((w.replies)((n + 1) as nat))
        }),
{
    reveal(compose_does);
    reveal(kept_cmdline_does);
    discover::lemma_find_program_looks(w, "zfs"@);
    let (w1, kept) = kept_cmdline_does(w, be.dataset);
    let (end, line) = compose_does(w, be, extras);
    let n = end.calls.len() - 2;
    let hostid = runtime_hostid_does(w1).1;
    let parts = cmdline_parts(be.dataset, be.name, kept, extras, hostid);
    let added = match extras {
        Some(e) => e,
        None => usual_extras(be.name),
    };
    let root = "root=ZFS="@ + be.dataset + " ro"@;
    let front = match kept {
        Some(k) => seq![root, k],
        None => seq![root],
    };
    let middle = if added.len() > 0 {
        front.push(added)
    } else {
        front
    };
    assert(parts =~= match hostid {
        Some(h) => middle.push("spl.spl_hostid=0x"@ + text::padded(h, 16, 8)),
        None => middle,
    });
    lemma_joined_more(seq![root]);
    lemma_joined_more(front);
    lemma_joined_more(middle);
    lemma_joined_more(parts);
    reveal_strlit("spl.spl_hostid=0x");
    reveal_strlit(" spl.spl_hostid=0x");
    reveal_strlit(" ");
    if let Some(h) = hostid {
        let hex = text::padded(h, 16, 8);
        assert(" "@ + ("spl.spl_hostid=0x"@ + hex) =~= " spl.spl_hostid=0x"@ + hex);
    }
    assert(text::joined(front, " "@) =~= root + kept_part((w.replies)(n as nat)));
    assert(text::joined(middle, " "@) =~= text::joined(front, " "@) + blank_before(added));
    assert(line =~= text::joined(middle, " "@) + hostid_part((w.replies)((n + 1) as nat)));
}

/// Joining takes one part after the other.
proof fn lemma_joined_more(parts: Seq<Seq<char>>)
    requires
        parts.len() > 0,
    ensures
        parts.len() == 1 ==> text::joined(parts, " "@) == parts[0],
        parts.len() > 1 ==> text::joined(parts, " "@) == text::joined(parts.drop_last(), " "@)
            + (" "@ + parts.last()),
        forall|x: Seq<char>| #[trigger] parts.push(x).drop_last() == parts,
{
    assert forall|x: Seq<char>| #[trigger] parts.push(x).drop_last() == parts by {
        assert(parts.push(x).drop_last() =~= parts);
    }
    if parts.len() > 1 {
        assert(text::joined(parts.drop_last(), " "@) + " "@ + parts.last() =~= text::joined(
            parts.drop_last(),
            " "@,
        ) + (" "@ + parts.last()));
    }
}

/// A plan names the two files as they were chosen, under the mounted root; both
/// have been asked for first, and are there. Its command line is the composed
/// one.
pub proof fn law_planned_files(
    w: World,
    be: Be,
    root: Seq<char>,
    kernel: Seq<char>,
    initrd: Seq<char>,
    extras: Option<Seq<char>>,
)
    ensures
        ({
            let dir = paths::under(root, "boot"@);
            let k = paths::under(dir, kernel);
            let i = paths::under(dir, initrd);
            let w2 = w.after(Call::Exists { path: k }).after(Call::Exists { path: i });
            let (end, res) = plan_with_does(w, be, root, kernel, initrd, extras);
            &&& res is Ok <==> (w.replies)(w.calls.len()).yes && (w.replies)(
                (w.calls.len() + 1) as nat,
            ).yes
            &&& res matches Ok(p) ==> {
                &&& p.kernel == k
                &&& p.initrd == i
                &&& p.dataset == be.dataset
                &&& (end, p.cmdline) == compose_does(w2, be, extras)
            }
        }),
{
    reveal(plan_with_does);
}

/// Behind an open gate the first call loads the kernel, the boot image and the
/// command line of the plan; where that succeeds and can be told, the loaded
/// kernel is started next, by the same program.
pub proof fn law_open_gate_starts_the_plan(s: Option<Seq<char>>, w: World, p: Load)
    ensures
        ({
            let end = handoff_gated_does::<SystemKexec>(s, w, p, Gate::Open).1;
            let n = w.calls.len() as int;
            let bin = match s {
                Some(b) => b,
                None => "kexec"@,
            };
            let y = (w.replies)(n as nat);
            &&& end.calls.len() > n
            &&& end.calls[n] == Call::Run {
                prog: bin,
                args: seq![
                    "-l"@,
                    p.kernel,
                    "--initrd="@ + p.initrd,
                    "--command-line="@ + p.cmdline,
                ],
            }
            &&& y.failure is None && y.rc == 0 && (w.replies)((n + 1) as nat).failure is None ==> {
                &&& end.calls.len() > n + 2
                &&& end.calls[n + 2] == Call::Attend { prog: bin, args: seq!["-e"@] }
            }
        }),
{
}

} // verus!
