//! The boot loader's shell: what the operator types after halting the
//! countdown.
//!
//! Verbs that only look, and those that start a kernel, are at home here. The
//! others are those of the command line tool; before they run, the pool is
//! imported anew so that it can be written.

use vstd::prelude::*;
use vstd::string::*;

use crate::boot::kexec;
use crate::boot::kexec::SystemKexec;
use crate::cmd::chroot;
use crate::cmd::chroot::ChrootArgs;
use crate::cmd::cmdline;
use crate::cmd::cmdline::{Action, CmdlineAction, CmdlineArgs};
use crate::cmd::drop;
use crate::cmd::drop::DropArgs;
use crate::cmd::rollback;
use crate::cmd::rollback::RollbackArgs;
use crate::error;
use crate::error::Error;
use crate::model::{Be, BootEnvironment};
use crate::sub;
use crate::sub::{Call, Runner, World};
use crate::text;
use crate::zfs_ops;

verus! {

// ---------------------------------------------------------------------------
// What can be booted
// ---------------------------------------------------------------------------

/// One kernel of a boot environment.
#[derive(Debug, Clone)]
pub struct KernelChoice {
    pub vmlinuz: String,
    pub initrd: String,
    /// The `vmlinuz` link points at it.
    pub is_default: bool,
}

/// One boot environment that can be chosen.
#[derive(Debug, Clone)]
pub struct BootTarget {
    /// Its number, from 1 on.
    pub idx: usize,
    pub pool: String,
    pub dataset: String,
    pub name: String,
    /// Where it is mounted.
    pub mount_root: String,
    pub kernels: Vec<KernelChoice>,
    /// Its pool boots it next.
    pub is_active: bool,
    /// It is a replica.
    pub readonly: bool,
    /// What it was cloned from, without what goes without saying.
    pub origin_short: Option<String>,
}

/// One kernel, by what is known of it.
#[verifier::ext_equal]
pub struct Choice {
    pub vmlinuz: Seq<char>,
    pub initrd: Seq<char>,
    pub is_default: bool,
}

/// One boot environment that can be chosen, by what is known of it.
#[verifier::ext_equal]
pub struct Target {
    pub idx: nat,
    pub pool: Seq<char>,
    pub dataset: Seq<char>,
    pub name: Seq<char>,
    pub mount_root: Seq<char>,
    pub kernels: Seq<Choice>,
    pub is_active: bool,
    pub readonly: bool,
    pub origin_short: Option<Seq<char>>,
}

impl DeepView for KernelChoice {
    type V = Choice;

    open spec fn deep_view(&self) -> Choice {
        Choice { vmlinuz: self.vmlinuz@, initrd: self.initrd@, is_default: self.is_default }
    }
}

impl DeepView for BootTarget {
    type V = Target;

    open spec fn deep_view(&self) -> Target {
        Target {
            idx: self.idx as nat,
            pool: self.pool@,
            dataset: self.dataset@,
            name: self.name@,
            mount_root: self.mount_root@,
            kernels: self.kernels.deep_view(),
            is_active: self.is_active,
            readonly: self.readonly,
            origin_short: self.origin_short.deep_view(),
        }
    }
}

/// Every target has a kernel.
pub open spec fn bootable(ts: Seq<Target>) -> bool {
    forall|i: int| 0 <= i < ts.len() ==> (#[trigger] ts[i]).kernels.len() > 0
}

/// The default kernel: the first that is marked, else the first.
pub open spec fn default_choice(ks: Seq<Choice>) -> Choice {
    match marked_choice(ks) {
        Some(k) => k,
        None => ks[0],
    }
}

/// The first kernel that is marked as the default.
pub open spec fn marked_choice(ks: Seq<Choice>) -> Option<Choice>
    decreases ks.len(),
{
    if ks.len() == 0 {
        None
    } else if ks[0].is_default {
        Some(ks[0])
    } else {
        marked_choice(ks.drop_first())
    }
}

/// The first kernel of a name.
pub open spec fn choice_named(ks: Seq<Choice>, vmlinuz: Seq<char>) -> Option<Choice>
    decreases ks.len(),
{
    if ks.len() == 0 {
        None
    } else if ks[0].vmlinuz == vmlinuz {
        Some(ks[0])
    } else {
        choice_named(ks.drop_first(), vmlinuz)
    }
}

impl BootTarget {
    /// The default kernel: the first that is marked, else the first.
    pub fn default_kernel(&self) -> (r: &KernelChoice)
        requires
            self.deep_view().kernels.len() > 0,
        ensures
            r.deep_view() == default_choice(self.deep_view().kernels),
    {
        let ghost all = self.kernels.deep_view();
        let mut i: usize = 0;
        assert(all.skip(0) =~= all);
        while i < self.kernels.len()
            invariant
                i <= self.kernels@.len(),
                all == self.kernels.deep_view(),
                marked_choice(all) == marked_choice(all.skip(i as int)),
            decreases self.kernels@.len() - i,
        {
            proof {
                assert(all.skip(i as int)[0] == self.kernels@[i as int].deep_view());
                assert(all.skip(i as int).drop_first() =~= all.skip(i + 1));
            }
            if self.kernels[i].is_default {
                return &self.kernels[i];
            }
            i = i + 1;
        }
        assert(all[0] == self.kernels@[0].deep_view());
        &self.kernels[0]
    }

    /// The kernel of a file name.
    pub fn find_kernel(&self, vmlinuz: &str) -> (r: Option<&KernelChoice>)
        ensures
            r.deep_view() == choice_named(self.deep_view().kernels, vmlinuz@),
    {
        let ghost all = self.kernels.deep_view();
        let mut i: usize = 0;
        assert(all.skip(0) =~= all);
        while i < self.kernels.len()
            invariant
                i <= self.kernels@.len(),
                all == self.kernels.deep_view(),
                choice_named(all, vmlinuz@) == choice_named(all.skip(i as int), vmlinuz@),
            decreases self.kernels@.len() - i,
        {
            proof {
                assert(all.skip(i as int)[0] == self.kernels@[i as int].deep_view());
                assert(all.skip(i as int).drop_first() =~= all.skip(i + 1));
            }
            if text::eq(self.kernels[i].vmlinuz.as_str(), vmlinuz) {
                return Some(&self.kernels[i]);
            }
            i = i + 1;
        }
        None
    }
}

// ---------------------------------------------------------------------------
// The line
// ---------------------------------------------------------------------------

/// How far a line has been read: the words so far, the word that is being
/// read, and whether a quote is open.
#[verifier::ext_equal]
pub struct Reading {
    pub words: Seq<Seq<char>>,
    pub word: Seq<char>,
    pub quoted: bool,
}

/// The word that is being read ends.
pub open spec fn word_ended(s: Reading) -> Seq<Seq<char>> {
    if s.word.len() > 0 {
        s.words.push(s.word)
    } else {
        s.words
    }
}

/// One more character is read: a quote opens or closes, a blank outside quotes
/// ends the word, anything else is part of it.
pub open spec fn read_char(s: Reading, c: char) -> Reading {
    if c == '"' {
        Reading { quoted: !s.quoted, ..s }
    } else if !s.quoted && text::space(c) {
        Reading { words: word_ended(s), word: seq![], quoted: s.quoted }
    } else {
        Reading { word: s.word.push(c), ..s }
    }
}

/// A line is read.
pub open spec fn read_line(line: Seq<char>) -> Reading
    decreases line.len(),
{
    if line.len() == 0 {
        Reading { words: seq![], word: seq![], quoted: false }
    } else {
        read_char(read_line(line.drop_last()), line.last())
    }
}

/// The words of a line: blanks part them, except between double quotes.
pub open spec fn tokens_of(line: Seq<char>) -> Result<Seq<Seq<char>>, Seq<char>> {
    let s = read_line(line);
    if s.quoted {
        Err("unterminated quoted string"@)
    } else {
        Ok(word_ended(s))
    }
}

/// The words of a line: blanks part them, except between double quotes.
pub fn tokenize(line: &str) -> (res: Result<Vec<String>, Error>)
    ensures
        error::outcome(res) == tokens_of(line@),
{
    let n: usize = line.unicode_len();
    let mut words: Vec<String> = Vec::new();
    let mut word: String = "".to_owned();
    let mut quoted: bool = false;
    let mut i: usize = 0;
    proof {
        reveal_strlit("");
        assert(words.deep_view() =~= seq![]);
        assert(word@ =~= seq![]);
        assert(line@.take(0).len() == 0);
    }
    while i < n
        invariant
            n == line@.len(),
            i <= n,
            read_line(line@.take(i as int)) == (Reading {
                words: words.deep_view(),
                word: word@,
                quoted,
            }),
        decreases n - i,
    {
        let c: char = line.get_char(i);
        proof {
            assert(line@.take(i + 1).drop_last() =~= line@.take(i as int));
            assert(line@.take(i + 1).last() == c);
        }
        if c == '"' {
            quoted = !quoted;
        } else if !quoted && text::is_space(c) {
            if !word.as_str().is_empty() {
                text::push_text(&mut words, word.as_str());
            }
            word = "".to_owned();
            proof {
                reveal_strlit("");
                assert(word@ =~= seq![]);
            }
        } else {
            let ghost was = word@;
            let part: &str = line.substring_char(i, i + 1);
            word.append(part);
            assert(word@ =~= was.push(c));
        }
        i = i + 1;
    }
    assert(line@.take(n as int) =~= line@);
    if quoted {
        return Err(Error::new("unterminated quoted string"));
    }
    if !word.as_str().is_empty() {
        text::push_text(&mut words, word.as_str());
    }
    Ok(words)
}

// ---------------------------------------------------------------------------
// What is meant
// ---------------------------------------------------------------------------

/// The first target of a number.
pub open spec fn target_numbered(ts: Seq<Target>, n: nat) -> Option<Target>
    decreases ts.len(),
{
    if ts.len() == 0 {
        None
    } else if ts[0].idx == n {
        Some(ts[0])
    } else {
        target_numbered(ts.drop_first(), n)
    }
}

/// The first target of a dataset.
pub open spec fn target_at(ts: Seq<Target>, dataset: Seq<char>) -> Option<Target>
    decreases ts.len(),
{
    if ts.len() == 0 {
        None
    } else if ts[0].dataset == dataset {
        Some(ts[0])
    } else {
        target_at(ts.drop_first(), dataset)
    }
}

/// The first target of a number.
pub fn find_numbered<'a>(targets: &'a Vec<BootTarget>, n: u64) -> (r: Option<&'a BootTarget>)
    ensures
        r.deep_view() == target_numbered(targets.deep_view(), n as nat),
        r matches Some(t) ==> targets.deep_view().contains(t.deep_view()),
{
    let ghost all = targets.deep_view();
    let mut i: usize = 0;
    assert(all.skip(0) =~= all);
    while i < targets.len()
        invariant
            i <= targets@.len(),
            all == targets.deep_view(),
            target_numbered(all, n as nat) == target_numbered(all.skip(i as int), n as nat),
        decreases targets@.len() - i,
    {
        proof {
            assert(all.skip(i as int)[0] == targets@[i as int].deep_view());
            assert(all.skip(i as int).drop_first() =~= all.skip(i + 1));
            assert(all[i as int] == targets@[i as int].deep_view());
        }
        if targets[i].idx as u64 == n {
            return Some(&targets[i]);
        }
        i = i + 1;
    }
    None
}

/// The first target of a dataset.
pub fn find_target<'a>(targets: &'a Vec<BootTarget>, dataset: &str) -> (r: Option<&'a BootTarget>)
    ensures
        r.deep_view() == target_at(targets.deep_view(), dataset@),
        r matches Some(t) ==> targets.deep_view().contains(t.deep_view()),
{
    let ghost all = targets.deep_view();
    let mut i: usize = 0;
    assert(all.skip(0) =~= all);
    while i < targets.len()
        invariant
            i <= targets@.len(),
            all == targets.deep_view(),
            target_at(all, dataset@) == target_at(all.skip(i as int), dataset@),
        decreases targets@.len() - i,
    {
        proof {
            assert(all.skip(i as int)[0] == targets@[i as int].deep_view());
            assert(all.skip(i as int).drop_first() =~= all.skip(i + 1));
            assert(all[i as int] == targets@[i as int].deep_view());
        }
        if text::eq(targets[i].dataset.as_str(), dataset) {
            return Some(&targets[i]);
        }
        i = i + 1;
    }
    None
}

/// The boot environment that an argument means: a number, a dataset, or a
/// dataset with a kernel.
pub open spec fn be_meant(arg: Seq<char>, ts: Seq<Target>) -> Result<Target, Seq<char>> {
    match text::parsed_upto(arg, usize::MAX as nat) {
        Some(n) => match target_numbered(ts, n) {
            Some(t) => Ok(t),
            None => Err("no BE at index "@ + text::decimal(n)),
        },
        None => match target_at(ts, text::before(arg, ':')) {
            Some(t) => Ok(t),
            None => Err("no BE matching "@ + text::quoted_text(arg) + " (try `ls`)"@),
        },
    }
}

/// The boot environment that an argument means.
pub fn resolve_be<'a>(arg: &str, targets: &'a Vec<BootTarget>) -> (res: Result<
    &'a BootTarget,
    Error,
>)
    ensures
        error::outcome(res) == be_meant(arg@, targets.deep_view()),
        res matches Ok(t) ==> targets.deep_view().contains(t.deep_view()),
{
    match text::parse_upto(arg, usize::MAX as u64) {
        Some(n) => match find_numbered(targets, n) {
            Some(t) => Ok(t),
            None => {
                let shown: String = text::dec(n as u128);
                Err(Error::from_text(text::cat2("no BE at index ", shown.as_str())))
            },
        },
        None => match find_target(targets, text::head(arg, ':')) {
            Some(t) => Ok(t),
            None => {
                let q: String = text::quoted(arg);
                Err(
                    Error::from_text(text::cat3("no BE matching ", q.as_str(), " (try `ls`)")),
                )
            },
        },
    }
}

/// The boot environment and the kernel that an argument means.
pub open spec fn pick_meant(arg: Seq<char>, ts: Seq<Target>) -> Result<
    (Target, Choice),
    Seq<char>,
> {
    match be_meant(arg, ts) {
        Err(m) => Err(m),
        Ok(t) => match text::cut(arg, ':') {
            None => Ok((t, default_choice(t.kernels))),
            Some((_, kn)) => match choice_named(t.kernels, kn) {
                Some(k) => Ok((t, k)),
                None => Err(
                    "BE "@ + t.dataset + " has no kernel "@ + text::quoted_text(kn),
                ),
            },
        },
    }
}

/// The boot environment and the kernel that an argument means.
pub fn resolve_pick<'a>(arg: &str, targets: &'a Vec<BootTarget>) -> (res: Result<
    (&'a BootTarget, &'a KernelChoice),
    Error,
>)
    requires
        bootable(targets.deep_view()),
    ensures
        error::outcome(res) == pick_meant(arg@, targets.deep_view()),
{
    let be = match resolve_be(arg, targets) {
        Err(e) => return Err(e),
        Ok(t) => t,
    };
    match text::split_once(arg, ':') {
        None => Ok((be, be.default_kernel())),
        Some((_, kn)) => match be.find_kernel(kn) {
            Some(k) => Ok((be, k)),
            None => {
                let q: String = text::quoted(kn);
                Err(
                    Error::from_text(
                        text::cat4("BE ", be.dataset.as_str(), " has no kernel ", q.as_str()),
                    ),
                )
            },
        },
    }
}

// ---------------------------------------------------------------------------
// Commands, and pools that can be written
// ---------------------------------------------------------------------------

/// Runs a command on the operator's terminal, and insists on exit code 0.
pub open spec fn spawn_does(w: World, prog: Seq<char>, args: Seq<Seq<char>>) -> (World, Result<
    (),
    Seq<char>,
>) {
    let line = prog + " "@ + text::joined(args, " "@);
    (
        w.after(Call::Attend { prog, args }),
        match w.code() {
            Err(m) => Err(error::within("spawn `"@ + line + "`"@, m)),
            Ok(rc) => if rc == 0 {
                Ok(())
            } else {
                Err("`"@ + line + "` rc="@ + zfs_ops::rc_text(rc as int))
            },
        },
    )
}

fn spawn<R: Runner>(r: &mut R, prog: &str, args: &[&str]) -> (res: Result<(), Error>)
    ensures
        sub::did(final(r).world(), res) == spawn_does(old(r).world(), prog@, args.deep_view()),
{
    let joined: String = text::join_strs(args, " ");
    let line: String = text::cat3(prog, " ", joined.as_str());
    match r.attend(prog, args) {
        Err(e) => {
            let what: String = text::cat3("spawn `", line.as_str(), "`");
            Err(e.context(what.as_str()))
        },
        Ok(rc) => if rc == 0 {
            Ok(())
        } else {
            let rc: String = zfs_ops::rc_shown(rc);
            Err(Error::from_text(text::cat4("`", line.as_str(), "` rc=", rc.as_str())))
        },
    }
}

/// What a verb leaves: the machine, the pools that can be written, and the
/// outcome.
pub struct Turn {
    pub w: World,
    pub rw: Seq<Seq<char>>,
    pub out: Result<(), Seq<char>>,
}

/// Imports a pool anew so that it can be written, unless that has been done.
#[verifier::opaque]
pub open spec fn ensure_rw_does(w: World, pool: Seq<char>, rw: Seq<Seq<char>>) -> Turn {
    if rw.contains(pool) {
        Turn { w, rw, out: Ok(()) }
    } else {
        let (w1, out) = sub::chain(
            sub::explained(
                spawn_does(w, "zpool"@, seq!["export"@, pool]),
                "export "@ + pool + " for rw reimport"@,
            ),
            |w1: World|
                sub::explained(
                    spawn_does(w1, "zpool"@, seq!["import"@, "-N"@, "-f"@, pool]),
                    "reimport "@ + pool + " read-write"@,
                ),
        );
        Turn {
            w: w1,
            rw: if out is Ok {
                rw.push(pool)
            } else {
                rw
            },
            out,
        }
    }
}

/// Imports a pool anew so that it can be written, unless that has been done.
/// `rw_pools` are those that can be written.
pub fn ensure_pool_rw<R: Runner>(r: &mut R, pool: &str, rw_pools: &mut Vec<String>) -> (res: Result<
    (),
    Error,
>)
    ensures
        (Turn {
            w: final(r).world(),
            rw: final(rw_pools).deep_view(),
            out: error::outcome(res),
        }) == ensure_rw_does(old(r).world(), pool@, old(rw_pools).deep_view()),
{
    proof {
        reveal(ensure_rw_does);
    }
    if text::any_eq(rw_pools, pool) {
        return Ok(());
    }
    let args = text::argv2("export", pool);
    match spawn(r, "zpool", args.as_slice()) {
        Err(e) => {
            let what: String = text::cat3("export ", pool, " for rw reimport");
            return Err(e.context(what.as_str()));
        },
        Ok(()) => {},
    }
    let args = text::argv4("import", "-N", "-f", pool);
    match spawn(r, "zpool", args.as_slice()) {
        Err(e) => {
            let what: String = text::cat3("reimport ", pool, " read-write");
            return Err(e.context(what.as_str()));
        },
        Ok(()) => {},
    }
    text::push_text(rw_pools, pool);
    Ok(())
}

/// The texts without one of them.
pub open spec fn without(ts: Seq<Seq<char>>, t: Seq<char>) -> Seq<Seq<char>>
    decreases ts.len(),
{
    if ts.len() == 0 {
        seq![]
    } else {
        let front = without(ts.drop_last(), t);
        if ts.last() == t {
            front
        } else {
            front.push(ts.last())
        }
    }
}

fn drop_text(v: &mut Vec<String>, t: &str)
    ensures
        final(v).deep_view() == without(old(v).deep_view(), t@),
{
    let ghost all = v.deep_view();
    let mut out: Vec<String> = Vec::new();
    let mut i: usize = 0;
    assert(out.deep_view() =~= without(all.take(0), t@));
    while i < v.len()
        invariant
            i <= v@.len(),
            all == v.deep_view(),
            out.deep_view() == without(all.take(i as int), t@),
        decreases v@.len() - i,
    {
        proof {
            assert(all.take(i + 1).drop_last() =~= all.take(i as int));
            assert(all.take(i + 1).last() == v@[i as int]@);
        }
        if !text::eq(v[i].as_str(), t) {
            text::push_text(&mut out, v[i].as_str());
        }
        i = i + 1;
    }
    assert(all.take(i as int) =~= all);
    *v = out;
}

/// Imports a pool anew, read-only again.
#[verifier::opaque]
pub open spec fn downgrade_does(w: World, pool: Seq<char>, rw: Seq<Seq<char>>) -> Turn {
    let (w1, out) = sub::chain(
        sub::explained(
            spawn_does(w, "zpool"@, seq!["export"@, pool]),
            "export "@ + pool + " for ro downgrade"@,
        ),
        |w1: World|
            sub::explained(
                spawn_does(
                    w1,
                    "zpool"@,
                    seq!["import"@, "-N"@, "-f"@, "-o"@, "readonly=on"@, pool],
                ),
                "reimport "@ + pool + " readonly"@,
            ),
    );
    Turn {
        w: w1,
        rw: if out is Ok {
            without(rw, pool)
        } else {
            rw
        },
        out,
    }
}

fn downgrade_pool_readonly<R: Runner>(r: &mut R, pool: &str, rw_pools: &mut Vec<String>) -> (res:
    Result<(), Error>)
    ensures
        (Turn {
            w: final(r).world(),
            rw: final(rw_pools).deep_view(),
            out: error::outcome(res),
        }) == downgrade_does(old(r).world(), pool@, old(rw_pools).deep_view()),
{
    proof {
        reveal(downgrade_does);
    }
    let args = text::argv2("export", pool);
    match spawn(r, "zpool", args.as_slice()) {
        Err(e) => {
            let what: String = text::cat3("export ", pool, " for ro downgrade");
            return Err(e.context(what.as_str()));
        },
        Ok(()) => {},
    }
    let args = text::argv6("import", "-N", "-f", "-o", "readonly=on", pool);
    match spawn(r, "zpool", args.as_slice()) {
        Err(e) => {
            let what: String = text::cat3("reimport ", pool, " readonly");
            return Err(e.context(what.as_str()));
        },
        Ok(()) => {},
    }
    drop_text(rw_pools, pool);
    Ok(())
}

// ---------------------------------------------------------------------------
// Verbs that start or look
// ---------------------------------------------------------------------------

/// The boot environment that a target is.
pub open spec fn be_of(t: Target) -> Be {
    Be {
        pool: t.pool,
        name: t.name,
        dataset: t.dataset,
        origin: None,
        created_by: None,
        mountpoint: None,
        canmount: None,
    }
}

/// The boot environment that a target is.
pub fn target_be(t: &BootTarget) -> (b: BootEnvironment)
    ensures
        b.deep_view() == be_of(t.deep_view()),
{
    let mut be = BootEnvironment::new(t.pool.as_str(), t.name.as_str());
    be.dataset = t.dataset.clone();
    be
}

/// Starts one kernel of a boot environment that is mounted at `root`.
#[verifier::opaque]
pub open spec fn launch_does(
    w: World,
    t: Target,
    root: Seq<char>,
    k: Choice,
    extras: Option<Seq<char>>,
) -> (World, Result<(), Seq<char>>) {
    let (w1, planned) = kexec::plan_with_does(w, be_of(t), root, k.vmlinuz, k.initrd, extras);
    match planned {
        Err(m) => (w1, Err(m)),
        Ok(p) => {
            let (_, w2, out) = kexec::handoff_plan_does::<SystemKexec>(None, w1, p);
            (w2, out)
        },
    }
}

/// Starts one kernel of a boot environment that is mounted at `root`.
pub fn launch<R: Runner>(
    r: &mut R,
    t: &BootTarget,
    root: &str,
    k: &KernelChoice,
    extras: Option<&str>,
) -> (res: Result<(), Error>)
    ensures
        sub::did(final(r).world(), res) == launch_does(
            old(r).world(),
            t.deep_view(),
            root@,
            k.deep_view(),
            extras.deep_view(),
        ),
{
    proof {
        reveal(launch_does);
    }
    let be = target_be(t);
    match kexec::plan_with_kernel(
        r,
        &be,
        root,
        k.vmlinuz.as_str(),
        k.initrd.as_str(),
        extras,
    ) {
        Err(e) => Err(e),
        Ok(p) => {
            let mut backend = SystemKexec::new();
            kexec::handoff_plan(r, &p, &mut backend)
        },
    }
}

/// `boot`: starts what the first argument means. Further ones are added to the
/// command line for this once.
#[verifier::opaque]
pub open spec fn boot_does(w: World, args: Seq<Seq<char>>, ts: Seq<Target>) -> (World, Result<
    (),
    Seq<char>,
>) {
    if args.len() == 0 {
        (w, Err("boot: missing argument; try `help boot`"@))
    } else {
        match pick_meant(args[0], ts) {
            Err(m) => (w, Err(m)),
            Ok((t, k)) => launch_does(
                w,
                t,
                t.mount_root,
                k,
                if args.len() > 1 {
                    Some(text::joined(args.skip(1), " "@))
                } else {
                    None
                },
            ),
        }
    }
}

/// The texts from a number on.
fn rest_of<'a>(args: &'a Vec<String>, n: usize) -> (r: Vec<&'a str>)
    requires
        n <= args@.len(),
    ensures
        r.deep_view() == args.deep_view().skip(n as int),
{
    let ghost goal = args.deep_view().skip(n as int);
    let mut out: Vec<&'a str> = Vec::new();
    let mut i: usize = n;
    assert(out.deep_view() =~= goal.take(0));
    while i < args.len()
        invariant
            n <= i <= args@.len(),
            goal == args.deep_view().skip(n as int),
            out.deep_view() == goal.take(i - n),
        decreases args@.len() - i,
    {
        let ghost so_far = out.deep_view();
        let t: &str = args[i].as_str();
        out.push(t);
        proof {
            assert(out.deep_view() =~= so_far.push(t@));
            assert(goal.take(i + 1 - n) =~= goal.take(i - n).push(goal[i - n]));
        }
        i = i + 1;
    }
    assert(goal.take(i - n) =~= goal);
    out
}

/// `boot`: starts what the first argument means.
pub fn verb_boot<R: Runner>(r: &mut R, args: &Vec<String>, targets: &Vec<BootTarget>) -> (res:
    Result<(), Error>)
    requires
        bootable(targets.deep_view()),
    ensures
        sub::did(final(r).world(), res) == boot_does(
            old(r).world(),
            args.deep_view(),
            targets.deep_view(),
        ),
{
    proof {
        reveal(boot_does);
    }
    if args.len() == 0 {
        return Err(Error::new("boot: missing argument; try `help boot`"));
    }
    assert(args.deep_view()[0] == args@[0]@);
    let (t, k) = match resolve_pick(args[0].as_str(), targets) {
        Err(e) => return Err(e),
        Ok(p) => p,
    };
    if args.len() > 1 {
        let rest = rest_of(args, 1);
        let extras: String = text::join_strs(rest.as_slice(), " ");
        launch(r, t, t.mount_root.as_str(), k, Some(extras.as_str()))
    } else {
        launch(r, t, t.mount_root.as_str(), k, None)
    }
}

/// `snapshots`: shows the snapshots of a boot environment.
#[verifier::opaque]
pub open spec fn snapshots_does(w: World, args: Seq<Seq<char>>, ts: Seq<Target>) -> (World, Result<
    (),
    Seq<char>,
>) {
    if args.len() == 0 {
        (w, Err("snapshots: missing argument; try `help snapshots`"@))
    } else {
        match be_meant(args[0], ts) {
            Err(m) => (w, Err(m)),
            Ok(t) => {
                let w1 = w.run(
                    "zfs"@,
                    seq![
                        "list"@,
                        "-H"@,
                        "-t"@,
                        "snapshot"@,
                        "-o"@,
                        "name,used,creation"@,
                        "-r"@,
                        t.dataset,
                    ],
                );
                match w.spilled() {
                    Err(m) => (w1, Err(error::within("spawn zfs list"@, m))),
                    Ok(out) => if out.rc == 0 {
                        sub::forward_does(w1, out.bytes, "write snapshots stdout"@)
                    } else {
                        (
                            w1,
                            Err(
                                "`zfs list -t snapshot "@ + t.dataset + "` rc="@
                                    + zfs_ops::rc_text(out.rc) + ": "@ + text::trimmed(
                                    out.stderr,
                                ),
                            ),
                        )
                    },
                }
            },
        }
    }
}

fn verb_snapshots<R: Runner>(r: &mut R, args: &Vec<String>, targets: &Vec<BootTarget>) -> (res:
    Result<(), Error>)
    ensures
        sub::did(final(r).world(), res) == snapshots_does(
            old(r).world(),
            args.deep_view(),
            targets.deep_view(),
        ),
{
    proof {
        reveal(snapshots_does);
    }
    if args.len() == 0 {
        return Err(Error::new("snapshots: missing argument; try `help snapshots`"));
    }
    assert(args.deep_view()[0] == args@[0]@);
    let t = match resolve_be(args[0].as_str(), targets) {
        Err(e) => return Err(e),
        Ok(t) => t,
    };
    let argv = text::argv8(
        "list",
        "-H",
        "-t",
        "snapshot",
        "-o",
        "name,used,creation",
        "-r",
        t.dataset.as_str(),
    );
    match r.spill("zfs", argv.as_slice()) {
        Err(e) => Err(e.context("spawn zfs list")),
        Ok(out) => if out.rc == 0 {
            sub::forward(r, out.bytes.as_slice(), "write snapshots stdout")
        } else {
            let rc: String = zfs_ops::rc_shown(out.rc);
            Err(
                Error::from_text(
                    text::cat6(
                        "`zfs list -t snapshot ",
                        t.dataset.as_str(),
                        "` rc=",
                        rc.as_str(),
                        ": ",
                        text::trim(out.stderr.as_str()),
                    ),
                ),
            )
        },
    }
}

/// The line between two pools.
pub open spec fn pool_rule() -> Seq<char> {
    "  ─────────────────────────────────"@
}

/// A line between two pools, where a target is not of the pool of the one
/// before.
pub open spec fn rule_before(ts: Seq<Target>) -> Seq<(Seq<char>, Seq<char>)> {
    if ts.len() >= 2 && ts[ts.len() - 2].pool != ts.last().pool {
        seq![(pool_rule(), "write pool sep"@)]
    } else {
        seq![]
    }
}

/// Puts the line between two pools, where it belongs before the target of
/// number `i`.
pub fn put_rule(out: &mut Vec<(String, &'static str)>, targets: &Vec<BootTarget>, i: usize)
    requires
        i < targets@.len(),
    ensures
        final(out).deep_view() == old(out).deep_view() + rule_before(
            targets.deep_view().take(i + 1),
        ),
{
    let ghost front = targets.deep_view().take(i + 1);
    assert(front.last() == targets@[i as int].deep_view());
    if i > 0 {
        assert(front[front.len() - 2] == targets@[i - 1].deep_view());
        if !text::eq(targets[i - 1].pool.as_str(), targets[i].pool.as_str()) {
            sub::push_line(out, "  ─────────────────────────────────", "write pool sep");
            assert(out.deep_view() =~= old(out).deep_view() + rule_before(front));
            return;
        }
    }
    assert(out.deep_view() =~= old(out).deep_view() + rule_before(front));
}

/// What leads to the last kernel, and to another.
pub open spec fn kernel_connector(last: bool) -> Seq<char> {
    if last {
        "└"@
    } else {
        "├"@
    }
}

/// What leads to the last kernel, and to another.
pub fn kernel_lead(last: bool) -> (r: &'static str)
    ensures
        r@ == kernel_connector(last),
{
    if last {
        "└"
    } else {
        "├"
    }
}

/// What marks the default kernel.
pub open spec fn default_tag(is_default: bool) -> Seq<char> {
    if is_default {
        "  (default)"@
    } else {
        ""@
    }
}

/// What marks the default kernel.
pub fn default_mark(is_default: bool) -> (r: &'static str)
    ensures
        r@ == default_tag(is_default),
{
    if is_default {
        "  (default)"
    } else {
        ""
    }
}

/// What marks a target that boots next.
pub open spec fn active_tag(active: bool) -> Seq<char> {
    if active {
        "*"@
    } else {
        " "@
    }
}

/// What marks a target that boots next.
pub fn active_mark(active: bool) -> (r: &'static str)
    ensures
        r@ == active_tag(active),
{
    if active {
        "*"
    } else {
        " "
    }
}

/// One kernel in the listing.
pub open spec fn ls_kernel(ks: Seq<Choice>, i: int) -> Seq<char> {
    "       "@ + kernel_connector(i == ks.len() - 1) + " "@ + ks[i].vmlinuz + default_tag(
        ks[i].is_default,
    )
}

/// One target in the listing.
pub open spec fn ls_target(t: Target) -> Seq<(Seq<char>, Seq<char>)> {
    seq![
        (
            "  "@ + text::decimal(t.idx) + ") "@ + active_tag(t.is_active) + " "@ + t.dataset,
            "write be header"@,
        ),
    ] + Seq::new(t.kernels.len(), |i: int| (ls_kernel(t.kernels, i), "write kernel row"@))
}

/// The listing: the targets with their numbers, and their kernels.
pub open spec fn ls_lines(ts: Seq<Target>) -> Seq<(Seq<char>, Seq<char>)>
    decreases ts.len(),
{
    if ts.len() == 0 {
        seq![]
    } else {
        ls_lines(ts.drop_last()) + rule_before(ts) + ls_target(ts.last())
    }
}

fn put_ls_target(out: &mut Vec<(String, &'static str)>, t: &BootTarget)
    ensures
        final(out).deep_view() == old(out).deep_view() + ls_target(t.deep_view()),
{
    let ghost was = out.deep_view();
    let ghost head = (
        "  "@ + text::decimal(t.idx as nat) + ") "@ + active_tag(t.is_active) + " "@ + t.dataset@,
        "write be header"@,
    );
    let ghost ks = t.kernels.deep_view();
    let ghost rows = Seq::new(ks.len(), |i: int| (ls_kernel(ks, i), "write kernel row"@));
    let n: String = text::dec_len(t.idx);
    let line: String = text::cat6(
        "  ",
        n.as_str(),
        ") ",
        active_mark(t.is_active),
        " ",
        t.dataset.as_str(),
    );
    sub::push_line(out, line.as_str(), "write be header");
    let count: usize = t.kernels.len();
    let mut i: usize = 0;
    assert(out.deep_view() =~= was + seq![head] + rows.take(0));
    while i < count
        invariant
            i <= count,
            count == t.kernels@.len(),
            ks == t.kernels.deep_view(),
            rows == Seq::new(ks.len(), |j: int| (ls_kernel(ks, j), "write kernel row"@)),
            out.deep_view() == was + seq![head] + rows.take(i as int),
        decreases count - i,
    {
        let k = &t.kernels[i];
        assert(ks[i as int] == k.deep_view());
        let row: String = text::cat5(
            "       ",
            kernel_lead(i == count - 1),
            " ",
            k.vmlinuz.as_str(),
            default_mark(k.is_default),
        );
        sub::push_line(out, row.as_str(), "write kernel row");
        assert(rows[i as int] == (row@, "write kernel row"@));
        assert(was + seq![head] + rows.take(i + 1) =~= (was + seq![head] + rows.take(i as int)).push(
            rows[i as int],
        ));
        i = i + 1;
    }
    assert(rows.take(i as int) =~= rows);
    assert(out.deep_view() =~= was + ls_target(t.deep_view()));
}

/// `ls`: shows the targets with their numbers, and their kernels.
pub open spec fn ls_does(w: World, ts: Seq<Target>) -> (World, Result<(), Seq<char>>) {
    if ts.len() == 0 {
        sub::tell_does(w, "(no boot targets)"@, "write empty ls"@)
    } else {
        sub::tell_each_does(w, ls_lines(ts))
    }
}

/// `ls`: shows the targets with their numbers, and their kernels.
pub fn verb_ls<R: Runner>(r: &mut R, targets: &Vec<BootTarget>) -> (res: Result<(), Error>)
    ensures
        sub::did(final(r).world(), res) == ls_does(old(r).world(), targets.deep_view()),
{
    if targets.len() == 0 {
        return sub::tell(r, "(no boot targets)", "write empty ls");
    }
    let ghost all = targets.deep_view();
    let mut out: Vec<(String, &'static str)> = Vec::new();
    let mut i: usize = 0;
    assert(out.deep_view() =~= ls_lines(all.take(0)));
    while i < targets.len()
        invariant
            i <= targets@.len(),
            all == targets.deep_view(),
            out.deep_view() == ls_lines(all.take(i as int)),
        decreases targets@.len() - i,
    {
        proof {
            assert(all.take(i + 1).drop_last() =~= all.take(i as int));
            assert(all.take(i + 1).last() == targets@[i as int].deep_view());
        }
        put_rule(&mut out, targets, i);
        put_ls_target(&mut out, &targets[i]);
        i = i + 1;
    }
    assert(all.take(i as int) =~= all);
    sub::tell_each(r, &out)
}

/// A program that ran, and came to a good end.
pub open spec fn went_well(code: Result<i32, Seq<char>>) -> bool {
    code matches Ok(rc) && rc == 0
}

fn attend_well<R: Runner>(r: &mut R, prog: &str, args: &[&str]) -> (res: bool)
    ensures
        final(r).world() == old(r).world().after(
            Call::Attend { prog: prog@, args: args.deep_view() },
        ),
        res == went_well(old(r).world().code()),
{
    match r.attend(prog, args) {
        Err(_) => false,
        Ok(rc) => rc == 0,
    }
}

/// `reboot`: writes what is pending, exports all pools, and restarts. Whether
/// the first two succeed is told, and does not matter.
#[verifier::opaque]
pub open spec fn reboot_does(w: World) -> (World, Result<(), Seq<char>>) {
    let w1 = w.say("rebooting..."@);
    let w2 = w1.after(Call::Attend { prog: "sync"@, args: seq![] });
    let w3 = if went_well(w1.code()) {
        w2
    } else {
        w2.say("(warning: `sync` failed; continuing)"@)
    };
    let w4 = w3.after(Call::Attend { prog: "zpool"@, args: seq!["export"@, "-a"@] });
    let w5 = if went_well(w3.code()) {
        w4
    } else {
        w4.say("(warning: `zpool export -a` failed; continuing)"@)
    };
    (
        w5.after(Call::Reboot),
        match w5.unit() {
            Err(m) => Err(error::within("reboot(RB_AUTOBOOT)"@, m)),
            Ok(()) => Err("reboot returned unexpectedly"@),
        },
    )
}

fn verb_reboot<R: Runner>(r: &mut R) -> (res: Result<(), Error>)
    ensures
        sub::did(final(r).world(), res) == reboot_does(old(r).world()),
{
    proof {
        reveal(reboot_does);
    }
    r.say("rebooting...");
    let none: Vec<&str> = Vec::new();
    assert(none.deep_view() =~= seq![]);
    if !attend_well(r, "sync", none.as_slice()) {
        r.say("(warning: `sync` failed; continuing)");
    }
    let args = text::argv2("export", "-a");
    if !attend_well(r, "zpool", args.as_slice()) {
        r.say("(warning: `zpool export -a` failed; continuing)");
    }
    match r.reboot() {
        Err(e) => Err(e.context("reboot(RB_AUTOBOOT)")),
        Ok(()) => Err(Error::new("reboot returned unexpectedly")),
    }
}

/// `sh`: runs a shell, or one command in it.
#[verifier::opaque]
pub open spec fn sh_does(w: World, args: Seq<Seq<char>>) -> (World, Result<(), Seq<char>>) {
    let argv = if args.len() == 0 {
        seq!["-c"@, "/bin/sh"@]
    } else {
        seq!["-c"@, "/bin/sh"@, "-c"@, text::joined(args, " "@)]
    };
    let w1 = w.after(Call::Attend { prog: "/bin/setsid"@, args: argv });
    match w.code() {
        Err(m) => (w1, Err(error::within("spawn `setsid -c /bin/sh`"@, m))),
        Ok(rc) => if rc == 0 {
            (w1, Ok(()))
        } else {
            (w1.say("(sh exited rc="@ + zfs_ops::rc_text(rc as int) + ")"@), Ok(()))
        },
    }
}

fn verb_sh<R: Runner>(r: &mut R, args: &Vec<String>) -> (res: Result<(), Error>)
    ensures
        sub::did(final(r).world(), res) == sh_does(old(r).world(), args.deep_view()),
{
    proof {
        reveal(sh_does);
    }
    let command: String = text::join(args, " ");
    let argv = if args.len() == 0 {
        text::argv2("-c", "/bin/sh")
    } else {
        text::argv4("-c", "/bin/sh", "-c", command.as_str())
    };
    match r.attend("/bin/setsid", argv.as_slice()) {
        Err(e) => Err(e.context("spawn `setsid -c /bin/sh`")),
        Ok(rc) => {
            if rc != 0 {
                let shown: String = zfs_ops::rc_shown(rc);
                let line: String = text::cat3("(sh exited rc=", shown.as_str(), ")");
                r.say(line.as_str());
            }
            Ok(())
        },
    }
}

/// The verbs.
pub open spec fn verbs() -> Seq<Seq<char>> {
    seq![
        "boot"@,
        "cmdline"@,
        "default"@,
        "rollback"@,
        "drop"@,
        "chroot"@,
        "snapshots"@,
        "ls"@,
        "sh"@,
        "reboot"@,
        "help"@,
    ]
}

/// The verbs.
pub fn verb_list() -> (r: Vec<String>)
    ensures
        r.deep_view() == verbs(),
{
    let mut out: Vec<String> = Vec::new();
    text::push_text(&mut out, "boot");
    text::push_text(&mut out, "cmdline");
    text::push_text(&mut out, "default");
    text::push_text(&mut out, "rollback");
    text::push_text(&mut out, "drop");
    text::push_text(&mut out, "chroot");
    text::push_text(&mut out, "snapshots");
    text::push_text(&mut out, "ls");
    text::push_text(&mut out, "sh");
    text::push_text(&mut out, "reboot");
    text::push_text(&mut out, "help");
    assert(out.deep_view() =~= verbs());
    out
}

/// The usage of a verb.
pub open spec fn usage(verb: Seq<char>) -> Seq<char> {
    if verb == "boot"@ {
        "boot N|<ds>:<kernel> [<extras>...] — kexec; trailing tokens = one-shot cmdline override"@
    } else if verb == "cmdline"@ {
        "cmdline N [--clear | <extras>...] — show (no args) / persist (extras) / drop local (--clear)"@
    } else if verb == "default"@ {
        "default N — set the pool's bootfs to BE N's dataset"@
    } else if verb == "rollback"@ {
        "rollback N <snap> — fork+switch to a snapshot of BE N"@
    } else if verb == "drop"@ {
        "drop N — destroy BE N (typed-target confirmation)"@
    } else if verb == "chroot"@ {
        "chroot N — mount BE N RW + drop into a shell inside it (remounts on exit)"@
    } else if verb == "snapshots"@ {
        "snapshots N — list snapshots of BE N's dataset"@
    } else if verb == "ls"@ {
        "ls — render the numbered boot menu"@
    } else if verb == "sh"@ {
        "sh [<command>] — spawn /bin/sh (diagnostics; interactive if no args)"@
    } else if verb == "reboot"@ {
        "reboot — sync + immediate restart (reboot(2) RB_AUTOBOOT)"@
    } else if verb == "help"@ {
        "help [verb] — show usage"@
    } else {
        "(unknown verb)"@
    }
}

/// The usage of a verb.
pub fn help_for(verb: &str) -> (r: &'static str)
    ensures
        r@ == usage(verb@),
{
    if text::eq(verb, "boot") {
        "boot N|<ds>:<kernel> [<extras>...] — kexec; trailing tokens = one-shot cmdline override"
    } else if text::eq(verb, "cmdline") {
        "cmdline N [--clear | <extras>...] — show (no args) / persist (extras) / drop local (--clear)"
    } else if text::eq(verb, "default") {
        "default N — set the pool's bootfs to BE N's dataset"
    } else if text::eq(verb, "rollback") {
        "rollback N <snap> — fork+switch to a snapshot of BE N"
    } else if text::eq(verb, "drop") {
        "drop N — destroy BE N (typed-target confirmation)"
    } else if text::eq(verb, "chroot") {
        "chroot N — mount BE N RW + drop into a shell inside it (remounts on exit)"
    } else if text::eq(verb, "snapshots") {
        "snapshots N — list snapshots of BE N's dataset"
    } else if text::eq(verb, "ls") {
        "ls — render the numbered boot menu"
    } else if text::eq(verb, "sh") {
        "sh [<command>] — spawn /bin/sh (diagnostics; interactive if no args)"
    } else if text::eq(verb, "reboot") {
        "reboot — sync + immediate restart (reboot(2) RB_AUTOBOOT)"
    } else if text::eq(verb, "help") {
        "help [verb] — show usage"
    } else {
        "(unknown verb)"
    }
}

/// One row of the list of verbs.
pub open spec fn help_row(v: Seq<char>) -> Seq<char> {
    "  "@ + text::widened(v, 16) + " "@ + usage(v)
}

/// The list of verbs.
pub open spec fn help_lines() -> Seq<(Seq<char>, Seq<char>)> {
    seq![("verbs:"@, "write help banner"@)] + verbs().map_values(
        |v: Seq<char>| (help_row(v), "write help row"@),
    )
}

/// `help`: shows the verbs, or the usage of one.
#[verifier::opaque]
pub open spec fn help_does(w: World, args: Seq<Seq<char>>) -> (World, Result<(), Seq<char>>) {
    if args.len() > 0 {
        sub::tell_does(w, args[0] + ": "@ + usage(args[0]), "write help line"@)
    } else {
        sub::tell_each_does(w, help_lines())
    }
}

/// `help`: shows the verbs, or the usage of one.
pub fn verb_help<R: Runner>(r: &mut R, args: &Vec<String>) -> (res: Result<(), Error>)
    ensures
        sub::did(final(r).world(), res) == help_does(old(r).world(), args.deep_view()),
{
    proof {
        reveal(help_does);
    }
    if args.len() > 0 {
        let v: &str = args[0].as_str();
        assert(args.deep_view()[0] == v@);
        let line: String = text::cat3(v, ": ", help_for(v));
        return sub::tell(r, line.as_str(), "write help line");
    }
    let vs = verb_list();
    let ghost head = seq![("verbs:"@, "write help banner"@)];
    let ghost rows = verbs().map_values(|v: Seq<char>| (help_row(v), "write help row"@));
    let mut out: Vec<(String, &'static str)> = Vec::new();
    sub::push_line(&mut out, "verbs:", "write help banner");
    let mut i: usize = 0;
    assert(out.deep_view() =~= head + rows.take(0));
    while i < vs.len()
        invariant
            i <= vs@.len(),
            vs.deep_view() == verbs(),
            rows == verbs().map_values(|v: Seq<char>| (help_row(v), "write help row"@)),
            out.deep_view() == head + rows.take(i as int),
        decreases vs@.len() - i,
    {
        let v: &str = vs[i].as_str();
        assert(verbs()[i as int] == v@);
        let wide: String = text::widen(v, 16);
        let row: String = text::cat4("  ", wide.as_str(), " ", help_for(v));
        sub::push_line(&mut out, row.as_str(), "write help row");
        assert(rows[i as int] == (row@, "write help row"@));
        assert(head + rows.take(i + 1) =~= (head + rows.take(i as int)).push(rows[i as int]));
        i = i + 1;
    }
    assert(rows.take(i as int) =~= rows);
    sub::tell_each(r, &out)
}

// ---------------------------------------------------------------------------
// Verbs that change something
// ---------------------------------------------------------------------------

/// What `cmdline` is asked for, by the arguments behind the first.
pub open spec fn cmdline_action(rest: Seq<Seq<char>>) -> Result<Action, Seq<char>> {
    let extras = without(rest, "--clear"@);
    if rest.contains("--clear"@) {
        if extras.len() > 0 {
            Err(
                "cmdline: `--clear` cannot combine with extras (got "@ + text::quoted_list(extras)
                    + ")"@,
            )
        } else {
            Ok(Action::Clear)
        }
    } else if extras.len() > 0 {
        Ok(Action::Assign(text::joined(extras, " "@)))
    } else {
        Ok(Action::Get)
    }
}

fn owned_rest(args: &Vec<String>, n: usize) -> (r: Vec<String>)
    requires
        n <= args@.len(),
    ensures
        r.deep_view() == args.deep_view().skip(n as int),
{
    let ghost goal = args.deep_view().skip(n as int);
    let mut out: Vec<String> = Vec::new();
    let mut i: usize = n;
    assert(out.deep_view() =~= goal.take(0));
    while i < args.len()
        invariant
            n <= i <= args@.len(),
            goal == args.deep_view().skip(n as int),
            out.deep_view() == goal.take(i - n),
        decreases args@.len() - i,
    {
        text::push_text(&mut out, args[i].as_str());
        assert(goal.take(i + 1 - n) =~= goal.take(i - n).push(goal[i - n]));
        i = i + 1;
    }
    assert(goal.take(i - n) =~= goal);
    out
}

fn parse_action(rest: &Vec<String>) -> (res: Result<CmdlineAction, Error>)
    ensures
        error::outcome(res) == cmdline_action(rest.deep_view()),
{
    let clear: bool = text::any_eq(rest, "--clear");
    let mut extras = text::clone_texts(rest);
    drop_text(&mut extras, "--clear");
    if clear {
        if extras.len() > 0 {
            let shown: String = text::quote_list(&extras);
            return Err(
                Error::from_text(
                    text::cat3(
                        "cmdline: `--clear` cannot combine with extras (got ",
                        shown.as_str(),
                        ")",
                    ),
                ),
            );
        }
        return Ok(CmdlineAction::Clear);
    }
    if extras.len() > 0 {
        return Ok(CmdlineAction::Assign { value: text::join(&extras, " ") });
    }
    Ok(CmdlineAction::Get)
}

/// `cmdline`: shows, keeps or drops the command line of a boot environment.
#[verifier::opaque]
pub open spec fn cmdline_does(
    w: World,
    args: Seq<Seq<char>>,
    ts: Seq<Target>,
    rw: Seq<Seq<char>>,
) -> Turn {
    if args.len() == 0 {
        Turn { w, rw, out: Err("cmdline: usage `cmdline N [--clear | <extras>...]`"@) }
    } else {
        match be_meant(args[0], ts) {
            Err(m) => Turn { w, rw, out: Err(m) },
            Ok(t) => match cmdline_action(args.skip(1)) {
                Err(m) => Turn { w, rw, out: Err(m) },
                Ok(action) => {
                    let opened = if action is Get {
                        Turn { w, rw, out: Ok(()) }
                    } else {
                        ensure_rw_does(w, t.pool, rw)
                    };
                    match opened.out {
                        Err(m) => opened,
                        Ok(()) => {
                            let (w1, out) = cmdline::run_does(
                                opened.w,
                                Some(action),
                                Some(t.dataset),
                                None,
                            );
                            Turn { w: w1, rw: opened.rw, out }
                        },
                    }
                },
            },
        }
    }
}

fn verb_cmdline<R: Runner>(
    r: &mut R,
    args: &Vec<String>,
    targets: &Vec<BootTarget>,
    rw_pools: &mut Vec<String>,
) -> (res: Result<(), Error>)
    ensures
        (Turn {
            w: final(r).world(),
            rw: final(rw_pools).deep_view(),
            out: error::outcome(res),
        }) == cmdline_does(
            old(r).world(),
            args.deep_view(),
            targets.deep_view(),
            old(rw_pools).deep_view(),
        ),
{
    proof {
        reveal(cmdline_does);
    }
    if args.len() == 0 {
        return Err(Error::new("cmdline: usage `cmdline N [--clear | <extras>...]`"));
    }
    assert(args.deep_view()[0] == args@[0]@);
    let t = match resolve_be(args[0].as_str(), targets) {
        Err(e) => return Err(e),
        Ok(t) => t,
    };
    let rest = owned_rest(args, 1);
    let action = match parse_action(&rest) {
        Err(e) => return Err(e),
        Ok(a) => a,
    };
    let looks: bool = match &action {
        CmdlineAction::Get => true,
        _ => false,
    };
    if !looks {
        match ensure_pool_rw(r, t.pool.as_str(), rw_pools) {
            Err(e) => return Err(e),
            Ok(()) => {},
        }
    }
    let call = CmdlineArgs { action: Some(action), be: Some(t.dataset.clone()), root: None };
    cmdline::run(r, &call)
}

/// `default`: a boot environment boots next.
#[verifier::opaque]
pub open spec fn default_does(
    w: World,
    args: Seq<Seq<char>>,
    ts: Seq<Target>,
    rw: Seq<Seq<char>>,
) -> Turn {
    if args.len() == 0 {
        Turn { w, rw, out: Err("default: missing argument"@) }
    } else {
        match be_meant(args[0], ts) {
            Err(m) => Turn { w, rw, out: Err(m) },
            Ok(t) => {
                let opened = ensure_rw_does(w, t.pool, rw);
                match opened.out {
                    Err(m) => opened,
                    Ok(()) => {
                        let (w1, out) = spawn_does(
                            opened.w,
                            "zpool"@,
                            seq!["set"@, "bootfs="@ + t.dataset, t.pool],
                        );
                        Turn { w: w1, rw: opened.rw, out }
                    },
                }
            },
        }
    }
}

fn verb_default<R: Runner>(
    r: &mut R,
    args: &Vec<String>,
    targets: &Vec<BootTarget>,
    rw_pools: &mut Vec<String>,
) -> (res: Result<(), Error>)
    ensures
        (Turn {
            w: final(r).world(),
            rw: final(rw_pools).deep_view(),
            out: error::outcome(res),
        }) == default_does(
            old(r).world(),
            args.deep_view(),
            targets.deep_view(),
            old(rw_pools).deep_view(),
        ),
{
    proof {
        reveal(default_does);
    }
    if args.len() == 0 {
        return Err(Error::new("default: missing argument"));
    }
    assert(args.deep_view()[0] == args@[0]@);
    let t = match resolve_be(args[0].as_str(), targets) {
        Err(e) => return Err(e),
        Ok(t) => t,
    };
    match ensure_pool_rw(r, t.pool.as_str(), rw_pools) {
        Err(e) => return Err(e),
        Ok(()) => {},
    }
    let prop: String = text::cat2("bootfs=", t.dataset.as_str());
    let argv = text::argv3("set", prop.as_str(), t.pool.as_str());
    spawn(r, "zpool", argv.as_slice())
}

/// `rollback`: a snapshot of a boot environment is forked, and the fork boots
/// next. `end` is what is left.
pub open spec fn rollback_does(
    w: World,
    args: Seq<Seq<char>>,
    ts: Seq<Target>,
    rw: Seq<Seq<char>>,
    end: Turn,
) -> bool {
    if args.len() < 2 {
        end == (Turn { w, rw, out: Err("rollback: usage `rollback N <snap>`"@) })
    } else {
        match be_meant(args[0], ts) {
            Err(m) => end == (Turn { w, rw, out: Err(m) }),
            Ok(t) => {
                let opened = ensure_rw_does(w, t.pool, rw);
                match opened.out {
                    Err(m) => end == opened,
                    Ok(()) => end.rw == opened.rw && rollback::run_does(
                        opened.w,
                        t.dataset + "@"@ + args[1],
                        None,
                        end.w,
                        end.out,
                    ),
                }
            },
        }
    }
}

fn verb_rollback<R: Runner>(
    r: &mut R,
    args: &Vec<String>,
    targets: &Vec<BootTarget>,
    rw_pools: &mut Vec<String>,
) -> (res: Result<(), Error>)
    ensures
        rollback_does(
            old(r).world(),
            args.deep_view(),
            targets.deep_view(),
            old(rw_pools).deep_view(),
            (Turn {
                w: final(r).world(),
                rw: final(rw_pools).deep_view(),
                out: error::outcome(res),
            }),
        ),
{
    if args.len() < 2 {
        return Err(Error::new("rollback: usage `rollback N <snap>`"));
    }
    assert(args.deep_view()[0] == args@[0]@);
    assert(args.deep_view()[1] == args@[1]@);
    let t = match resolve_be(args[0].as_str(), targets) {
        Err(e) => return Err(e),
        Ok(t) => t,
    };
    match ensure_pool_rw(r, t.pool.as_str(), rw_pools) {
        Err(e) => return Err(e),
        Ok(()) => {},
    }
    let call = RollbackArgs {
        to: text::cat3(t.dataset.as_str(), "@", args[1].as_str()),
        name: None,
    };
    rollback::run(r, &call)
}

/// `drop`: a boot environment is destroyed.
#[verifier::opaque]
pub open spec fn drop_does(
    w: World,
    args: Seq<Seq<char>>,
    ts: Seq<Target>,
    rw: Seq<Seq<char>>,
) -> Turn {
    if args.len() == 0 {
        Turn { w, rw, out: Err("drop: missing argument"@) }
    } else {
        match be_meant(args[0], ts) {
            Err(m) => Turn { w, rw, out: Err(m) },
            Ok(t) => {
                let opened = ensure_rw_does(w, t.pool, rw);
                match opened.out {
                    Err(m) => opened,
                    Ok(()) => {
                        let (w1, out) = drop::run_does(
                            opened.w,
                            t.pool + "/ROOT/"@ + t.name,
                        );
                        Turn { w: w1, rw: opened.rw, out }
                    },
                }
            },
        }
    }
}

fn verb_drop<R: Runner>(
    r: &mut R,
    args: &Vec<String>,
    targets: &Vec<BootTarget>,
    rw_pools: &mut Vec<String>,
) -> (res: Result<(), Error>)
    ensures
        (Turn {
            w: final(r).world(),
            rw: final(rw_pools).deep_view(),
            out: error::outcome(res),
        }) == drop_does(
            old(r).world(),
            args.deep_view(),
            targets.deep_view(),
            old(rw_pools).deep_view(),
        ),
{
    proof {
        reveal(drop_does);
    }
    if args.len() == 0 {
        return Err(Error::new("drop: missing argument"));
    }
    assert(args.deep_view()[0] == args@[0]@);
    let t = match resolve_be(args[0].as_str(), targets) {
        Err(e) => return Err(e),
        Ok(t) => t,
    };
    match ensure_pool_rw(r, t.pool.as_str(), rw_pools) {
        Err(e) => return Err(e),
        Ok(()) => {},
    }
    let call = DropArgs { name: text::cat3(t.pool.as_str(), "/ROOT/", t.name.as_str()) };
    drop::run(r, &call)
}

/// After a visit the pool is read-only again, and the boot environment mounted
/// where its kernels are looked for. What fails is told.
#[verifier::opaque]
pub open spec fn leave_does(w: World, t: Target, rw: Seq<Seq<char>>) -> (World, Seq<Seq<char>>) {
    let down = downgrade_does(w, t.pool, rw);
    let w1 = match down.out {
        Ok(()) => down.w,
        Err(m) => down.w.say(
            "(warning: pool "@ + t.pool + " not downgraded to ro: "@ + m + ")"@,
        ),
    };
    let w2 = w1.after(
        Call::Attend {
            prog: "mount"@,
            args: seq!["-t"@, "zfs"@, "-o"@, "zfsutil,ro"@, t.dataset, t.mount_root],
        },
    );
    (
        if went_well(w1.code()) {
            w2
        } else {
            w2.say(
                "(warning: failed to remount "@ + t.dataset + " at "@ + t.mount_root
                    + " — `boot "@ + text::decimal(t.idx) + "` may fail)"@,
            )
        },
        down.rw,
    )
}

fn leave<R: Runner>(r: &mut R, t: &BootTarget, rw_pools: &mut Vec<String>)
    ensures
        (final(r).world(), final(rw_pools).deep_view()) == leave_does(
            old(r).world(),
            t.deep_view(),
            old(rw_pools).deep_view(),
        ),
{
    proof {
        reveal(leave_does);
    }
    match downgrade_pool_readonly(r, t.pool.as_str(), rw_pools) {
        Ok(()) => {},
        Err(e) => {
            let line: String = text::cat5(
                "(warning: pool ",
                t.pool.as_str(),
                " not downgraded to ro: ",
                e.message.as_str(),
                ")",
            );
            r.say(line.as_str());
        },
    }
    let mp: &str = t.mount_root.as_str();
    let argv = text::argv6("-t", "zfs", "-o", "zfsutil,ro", t.dataset.as_str(), mp);
    if !attend_well(r, "mount", argv.as_slice()) {
        let n: String = text::dec_len(t.idx);
        let line: String = text::cat7(
            "(warning: failed to remount ",
            t.dataset.as_str(),
            " at ",
            mp,
            " — `boot ",
            n.as_str(),
            "` may fail)",
        );
        r.say(line.as_str());
    }
}

/// `chroot`: a shell inside a boot environment, after which the pool is
/// read-only again.
#[verifier::opaque]
pub open spec fn chroot_does(
    w: World,
    args: Seq<Seq<char>>,
    ts: Seq<Target>,
    rw: Seq<Seq<char>>,
) -> Turn {
    if args.len() == 0 {
        Turn { w, rw, out: Err("chroot: missing argument; try `help chroot`"@) }
    } else {
        match be_meant(args[0], ts) {
            Err(m) => Turn { w, rw, out: Err(m) },
            Ok(t) => {
                let opened = ensure_rw_does(w, t.pool, rw);
                match opened.out {
                    Err(m) => opened,
                    Ok(()) => {
                        let (w1, out) = chroot::run_does(opened.w, t.name, "/bin/bash"@);
                        let (w2, rw2) = leave_does(w1, t, opened.rw);
                        Turn { w: w2, rw: rw2, out: error::dropped(out) }
                    },
                }
            },
        }
    }
}

fn verb_chroot<R: Runner>(
    r: &mut R,
    args: &Vec<String>,
    targets: &Vec<BootTarget>,
    rw_pools: &mut Vec<String>,
) -> (res: Result<(), Error>)
    ensures
        (Turn {
            w: final(r).world(),
            rw: final(rw_pools).deep_view(),
            out: error::outcome(res),
        }) == chroot_does(
            old(r).world(),
            args.deep_view(),
            targets.deep_view(),
            old(rw_pools).deep_view(),
        ),
{
    proof {
        reveal(chroot_does);
    }
    if args.len() == 0 {
        return Err(Error::new("chroot: missing argument; try `help chroot`"));
    }
    assert(args.deep_view()[0] == args@[0]@);
    let t = match resolve_be(args[0].as_str(), targets) {
        Err(e) => return Err(e),
        Ok(t) => t,
    };
    match ensure_pool_rw(r, t.pool.as_str(), rw_pools) {
        Err(e) => return Err(e),
        Ok(()) => {},
    }
    let call = ChrootArgs { name: t.name.clone(), shell: "/bin/bash".to_owned() };
    let res = chroot::run(r, &call);
    leave(r, t, rw_pools);
    match res {
        Err(e) => Err(e),
        Ok(_) => Ok(()),
    }
}

// ---------------------------------------------------------------------------
// Dispatch
// ---------------------------------------------------------------------------

/// What the first process of a machine answers to the wish to leave.
pub open spec fn no_exit_text(verb: Seq<char>) -> Seq<char> {
    "(`"@ + verb
        + "` ignored — PID 1 has no exit. Use `boot N`, `reboot`, or `chroot N`.)"@
}

/// What a verb does; all but `rollback`.
#[verifier::opaque]
pub open spec fn verb_does(
    w: World,
    verb: Seq<char>,
    args: Seq<Seq<char>>,
    ts: Seq<Target>,
    rw: Seq<Seq<char>>,
) -> Turn {
    if verb == "boot"@ {
        let (w1, out) = boot_does(w, args, ts);
        Turn { w: w1, rw, out }
    } else if verb == "cmdline"@ {
        cmdline_does(w, args, ts, rw)
    } else if verb == "default"@ {
        default_does(w, args, ts, rw)
    } else if verb == "drop"@ {
        drop_does(w, args, ts, rw)
    } else if verb == "chroot"@ {
        chroot_does(w, args, ts, rw)
    } else if verb == "snapshots"@ {
        let (w1, out) = snapshots_does(w, args, ts);
        Turn { w: w1, rw, out }
    } else if verb == "ls"@ {
        let (w1, out) = ls_does(w, ts);
        Turn { w: w1, rw, out }
    } else if verb == "sh"@ {
        let (w1, out) = sh_does(w, args);
        Turn { w: w1, rw, out }
    } else if verb == "reboot"@ {
        let (w1, out) = reboot_does(w);
        Turn { w: w1, rw, out }
    } else if verb == "help"@ {
        let (w1, out) = help_does(w, args);
        Turn { w: w1, rw, out }
    } else if verb == "quit"@ || verb == "exit"@ {
        let (w1, out) = sub::tell_does(w, no_exit_text(verb), "write quit-ignored"@);
        Turn { w: w1, rw, out }
    } else {
        let (w1, out) = sub::tell_does(
            w,
            "unknown verb: "@ + text::quoted_text(verb) + "; try `help`"@,
            "write unknown"@,
        );
        Turn { w: w1, rw, out }
    }
}

/// What a line does; `end` is what is left.
pub open spec fn dispatch_does(
    w: World,
    line: Seq<char>,
    ts: Seq<Target>,
    rw: Seq<Seq<char>>,
    end: Turn,
) -> bool {
    match tokens_of(line) {
        Err(m) => end == (Turn { w, rw, out: Err(error::within("parse input line"@, m)) }),
        Ok(words) => if words.len() == 0 {
            end == (Turn { w, rw, out: Ok(()) })
        } else if words[0] == "rollback"@ {
            rollback_does(w, words.skip(1), ts, rw, end)
        } else {
            end == verb_does(w, words[0], words.skip(1), ts, rw)
        },
    }
}

fn run_verb<R: Runner>(
    r: &mut R,
    verb: &str,
    args: &Vec<String>,
    targets: &Vec<BootTarget>,
    rw_pools: &mut Vec<String>,
) -> (res: Result<(), Error>)
    requires
        bootable(targets.deep_view()),
    ensures
        (Turn {
            w: final(r).world(),
            rw: final(rw_pools).deep_view(),
            out: error::outcome(res),
        }) == verb_does(
            old(r).world(),
            verb@,
            args.deep_view(),
            targets.deep_view(),
            old(rw_pools).deep_view(),
        ),
{
    proof {
        reveal(verb_does);
    }
    if text::eq(verb, "boot") {
        return verb_boot(r, args, targets);
    }
    if text::eq(verb, "cmdline") {
        return verb_cmdline(r, args, targets, rw_pools);
    }
    if text::eq(verb, "default") {
        return verb_default(r, args, targets, rw_pools);
    }
    if text::eq(verb, "drop") {
        return verb_drop(r, args, targets, rw_pools);
    }
    if text::eq(verb, "chroot") {
        return verb_chroot(r, args, targets, rw_pools);
    }
    if text::eq(verb, "snapshots") {
        return verb_snapshots(r, args, targets);
    }
    if text::eq(verb, "ls") {
        return verb_ls(r, targets);
    }
    if text::eq(verb, "sh") {
        return verb_sh(r, args);
    }
    if text::eq(verb, "reboot") {
        return verb_reboot(r);
    }
    if text::eq(verb, "help") {
        return verb_help(r, args);
    }
    if text::eq(verb, "quit") || text::eq(verb, "exit") {
        let line: String = text::cat3(
            "(`",
            verb,
            "` ignored — PID 1 has no exit. Use `boot N`, `reboot`, or `chroot N`.)",
        );
        return sub::tell(r, line.as_str(), "write quit-ignored");
    }
    let q: String = text::quoted(verb);
    let line: String = text::cat3("unknown verb: ", q.as_str(), "; try `help`");
    sub::tell(r, line.as_str(), "write unknown")
}

/// Does what a line says. `rw_pools` are the pools that can be written.
pub fn dispatch<R: Runner>(
    r: &mut R,
    line: &str,
    targets: &Vec<BootTarget>,
    rw_pools: &mut Vec<String>,
) -> (res: Result<(), Error>)
    requires
        bootable(targets.deep_view()),
    ensures
        dispatch_does(
            old(r).world(),
            line@,
            targets.deep_view(),
            old(rw_pools).deep_view(),
            (Turn {
                w: final(r).world(),
                rw: final(rw_pools).deep_view(),
                out: error::outcome(res),
            }),
        ),
{
    let words = match tokenize(line) {
        Err(e) => return Err(e.context("parse input line")),
        Ok(t) => t,
    };
    if words.len() == 0 {
        return Ok(());
    }
    assert(words.deep_view()[0] == words@[0]@);
    let args = owned_rest(&words, 1);
    let verb: &str = words[0].as_str();
    if text::eq(verb, "rollback") {
        return verb_rollback(r, &args, targets, rw_pools);
    }
    run_verb(r, verb, &args, targets, rw_pools)
}

/// What one line that was typed does: a blank one nothing, any other what it
/// says, and what fails is told. It is an error only where that cannot be told.
pub open spec fn turn_does(
    w: World,
    line: Seq<char>,
    ts: Seq<Target>,
    rw: Seq<Seq<char>>,
    left: Turn,
) -> bool {
    let l = text::trimmed(line);
    if l.len() == 0 {
        left == (Turn { w, rw, out: Ok(()) })
    } else {
        exists|end: Turn| #[trigger]
            dispatch_does(w, l, ts, rw, end) && left == (match end.out {
                Ok(()) => end,
                Err(m) => {
                    let (w1, told) = sub::tell_does(end.w, "error: "@ + m, "write error"@);
                    Turn { w: w1, rw: end.rw, out: told }
                },
            })
    }
}

/// Does what one line that was typed says, and tells what fails.
pub fn turn<R: Runner>(
    r: &mut R,
    line: &str,
    targets: &Vec<BootTarget>,
    rw_pools: &mut Vec<String>,
) -> (res: Result<(), Error>)
    requires
        bootable(targets.deep_view()),
    ensures
        turn_does(
            old(r).world(),
            line@,
            targets.deep_view(),
            old(rw_pools).deep_view(),
            (Turn {
                w: final(r).world(),
                rw: final(rw_pools).deep_view(),
                out: error::outcome(res),
            }),
        ),
{
    let l: &str = text::trim(line);
    if l.is_empty() {
        return Ok(());
    }
    let res = dispatch(r, l, targets, rw_pools);
    let ghost end = Turn {
        w: r.world(),
        rw: rw_pools.deep_view(),
        out: error::outcome(res),
    };
    assert(dispatch_does(
        old(r).world(),
        l@,
        targets.deep_view(),
        old(rw_pools).deep_view(),
        end,
    ));
    match res {
        Ok(()) => Ok(()),
        Err(e) => {
            let shown: String = text::cat2("error: ", e.message.as_str());
            sub::tell(r, shown.as_str(), "write error")
        },
    }
}

// ---------------------------------------------------------------------------
// Laws
// ---------------------------------------------------------------------------

/// A text is read from where another was left.
spec fn read_on(st: Reading, s: Seq<char>) -> Reading
    decreases s.len(),
{
    if s.len() == 0 {
        st
    } else {
        read_on(read_char(st, s[0]), s.drop_first())
    }
}

proof fn lemma_read_on_push(st: Reading, s: Seq<char>, c: char)
    ensures
        read_on(st, s.push(c)) == read_char(read_on(st, s), c),
    decreases s.len(),
{
    if s.len() == 0 {
        assert(s.push(c).drop_first() =~= s);
        assert(read_on(read_char(st, c), s) == read_char(st, c));
    } else {
        assert(s.push(c).drop_first() =~= s.drop_first().push(c));
        lemma_read_on_push(read_char(st, s[0]), s.drop_first(), c);
    }
}

proof fn lemma_read_line(s: Seq<char>)
    ensures
        read_line(s) == read_on(Reading { words: seq![], word: seq![], quoted: false }, s),
    decreases s.len(),
{
    if s.len() > 0 {
        lemma_read_line(s.drop_last());
        assert(s =~= s.drop_last().push(s.last()));
        lemma_read_on_push(
            Reading { words: seq![], word: seq![], quoted: false },
            s.drop_last(),
            s.last(),
        );
    }
}

proof fn lemma_read_words(st: Reading, s: Seq<char>)
    requires
        !st.quoted,
        !s.contains('"'),
    ensures
        !read_on(st, s).quoted,
        word_ended(read_on(st, s)) == (if st.word.len() == 0 {
            st.words + text::words_of(s)
        } else {
            st.words + seq![st.word + s.take(text::word_len(s))] + text::words_of(
                s.skip(text::word_len(s)),
            )
        }),
    decreases s.len(),
{
    let n = text::word_len(s);
    if s.len() == 0 {
        assert(text::words_of(s) =~= seq![]);
        assert(s.take(0) =~= seq![]);
        assert(s.skip(0) =~= s);
        assert(st.word + s.take(0) =~= st.word);
        assert(word_ended(st) =~= (if st.word.len() == 0 {
            st.words + text::words_of(s)
        } else {
            st.words + seq![st.word + s.take(n)] + text::words_of(s.skip(n))
        }));
    } else {
        let c = s[0];
        let rest = s.drop_first();
        assert(s.contains(c));
        assert(!rest.contains('"')) by {
            if rest.contains('"') {
                let i = choose|i: int| 0 <= i < rest.len() && rest[i] == '"';
                assert(s[i + 1] == '"');
            }
        }
        let next = read_char(st, c);
        lemma_read_words(next, rest);
        if text::space(c) {
            assert(text::trim_front(s) == text::trim_front(rest));
            assert(text::words_of(s) == text::words_of(rest));
            assert(n == 0);
            assert(s.skip(0) =~= s);
            assert(st.word + s.take(0) =~= st.word);
            if st.word.len() > 0 {
                assert(next.words == st.words.push(st.word));
                assert(next.words + text::words_of(rest) =~= st.words + seq![st.word]
                    + text::words_of(s));
            }
        } else {
            text::lemma_word_len(rest);
            let m = text::word_len(rest);
            assert(n == m + 1);
            assert(next.word == st.word.push(c));
            assert(next.word + rest.take(m) =~= st.word + s.take(n));
            assert(rest.skip(m) =~= s.skip(n));
            if st.word.len() == 0 {
                assert(text::trim_front(s) == s);
                assert(st.word + s.take(n) =~= s.take(n));
                assert(text::words_of(s) == seq![s.take(n)] + text::words_of(s.skip(n)));
                assert(st.words + seq![s.take(n)] + text::words_of(s.skip(n)) =~= st.words
                    + text::words_of(s));
            }
        }
    }
}

/// A line without quotes is parted by its blanks alone.
pub proof fn law_plain_lines(line: Seq<char>)
    requires
        !line.contains('"'),
    ensures
        tokens_of(line) == Ok::<Seq<Seq<char>>, Seq<char>>(text::words_of(line)),
{
    lemma_read_line(line);
    let start = Reading { words: seq![], word: seq![], quoted: false };
    lemma_read_words(start, line);
    assert(start.words + text::words_of(line) =~= text::words_of(line));
}

/// A line is refused iff it holds an odd number of quotes.
pub proof fn law_quotes_pair_up(line: Seq<char>)
    ensures
        tokens_of(line) is Err <==> quotes_in(line) % 2 == 1,
    decreases line.len(),
{
    lemma_quotes(line);
}

/// How many quotes a line holds.
pub open spec fn quotes_in(line: Seq<char>) -> nat
    decreases line.len(),
{
    if line.len() == 0 {
        0
    } else {
        quotes_in(line.drop_last()) + (if line.last() == '"' {
            1nat
        } else {
            0nat
        })
    }
}

proof fn lemma_quotes(line: Seq<char>)
    ensures
        read_line(line).quoted <==> quotes_in(line) % 2 == 1,
    decreases line.len(),
{
    if line.len() > 0 {
        lemma_quotes(line.drop_last());
    }
}

/// A pool that has been made writable is not imported anew.
pub proof fn law_pool_is_opened_once(w: World, w2: World, pool: Seq<char>, rw: Seq<Seq<char>>)
    requires
        ensure_rw_does(w, pool, rw).out is Ok,
    ensures
        ({
            let open = ensure_rw_does(w, pool, rw).rw;
            ensure_rw_does(w2, pool, open) == (Turn { w: w2, rw: open, out: Ok(()) })
        }),
{
    reveal(ensure_rw_does);
    if !rw.contains(pool) {
        assert(rw.push(pool)[rw.len() as int] == pool);
    }
}

/// A pool that is read-only again is imported anew before it is written.
pub proof fn law_closed_pool_is_forgotten(w: World, pool: Seq<char>, rw: Seq<Seq<char>>)
    requires
        downgrade_does(w, pool, rw).out is Ok,
    ensures
        !downgrade_does(w, pool, rw).rw.contains(pool),
{
    reveal(downgrade_does);
    lemma_without(rw, pool);
}

proof fn lemma_without(ts: Seq<Seq<char>>, t: Seq<char>)
    ensures
        !without(ts, t).contains(t),
    decreases ts.len(),
{
    if ts.len() > 0 {
        lemma_without(ts.drop_last(), t);
    }
}

/// The verbs that only show something change nothing.
pub proof fn law_showing_changes_nothing(
    w: World,
    verb: Seq<char>,
    args: Seq<Seq<char>>,
    ts: Seq<Target>,
    rw: Seq<Seq<char>>,
)
    requires
        verb == "ls"@ || verb == "help"@ || verb == "snapshots"@ || verb == "quit"@ || verb
            == "exit"@ || (!verbs().contains(verb)),
    ensures
        sub::only_looked(w, verb_does(w, verb, args, ts, rw).w),
        verb_does(w, verb, args, ts, rw).rw == rw,
{
    reveal(verb_does);
    reveal(help_does);
    reveal(snapshots_does);
    sub::lemma_tell_each_looks(w, ls_lines(ts));
    sub::lemma_tell_each_looks(w, help_lines());
    reveal_strlit("ls");
    reveal_strlit("help");
    reveal_strlit("snapshots");
    reveal_strlit("quit");
    reveal_strlit("exit");
    reveal_strlit("boot");
    reveal_strlit("cmdline");
    reveal_strlit("default");
    reveal_strlit("drop");
    reveal_strlit("chroot");
    reveal_strlit("sh");
    reveal_strlit("reboot");
    assert(verbs()[0] == "boot"@);
    assert(verbs()[1] == "cmdline"@);
    assert(verbs()[2] == "default"@);
    assert(verbs()[4] == "drop"@);
    assert(verbs()[5] == "chroot"@);
    assert(verbs()[8] == "sh"@);
    assert(verbs()[9] == "reboot"@);
    assert("help"@[0] != "boot"@[0] && "help"@[0] != "drop"@[0]);
    assert("quit"@[0] != "boot"@[0] && "quit"@[0] != "drop"@[0]);
    assert("exit"@[0] != "boot"@[0] && "exit"@[0] != "drop"@[0]);
    assert("ls"@[0] != "sh"@[0]);
}

/// Targets that are numbered from 1 on are found by their numbers.
pub proof fn law_numbers(ts: Seq<Target>, from: nat, i: int)
    requires
        0 <= i < ts.len(),
        forall|j: int| 0 <= j < ts.len() ==> (#[trigger] ts[j]).idx == from + j,
    ensures
        target_numbered(ts, (from + i) as nat) == Some(ts[i]),
    decreases ts.len(),
{
    if i > 0 {
        let rest = ts.drop_first();
        assert forall|j: int| 0 <= j < rest.len() implies (#[trigger] rest[j]).idx == (from + 1)
            + j by {
            assert(rest[j] == ts[j + 1]);
        }
        law_numbers(rest, from + 1, i - 1);
        assert(rest[i - 1] == ts[i]);
    }
}

/// The target at a dataset is the first that has it; there is none where none has.
pub proof fn law_target_at(ts: Seq<Target>, dataset: Seq<char>)
    ensures
        match target_at(ts, dataset) {
            Some(x) => exists|i: int|
                0 <= i < ts.len() && x == (#[trigger] ts[i]) && ts[i].dataset == dataset && forall|j: int|
                    0 <= j < i ==> !((#[trigger] ts[j]).dataset == dataset),
            None => forall|j: int| 0 <= j < ts.len() ==> !((#[trigger] ts[j]).dataset == dataset),
        },
    decreases ts.len(),
{
    if ts.len() > 0 {
        if ts[0].dataset == dataset {
            assert(ts[0] == ts[0]);
        } else {
            let rest = ts.drop_first();
            law_target_at(rest, dataset);
            assert forall|j: int| 0 <= j < ts.len() implies j == 0 || #[trigger] ts[j] == rest[j - 1] by {}
            if let Some(x) = target_at(rest, dataset) {
                let i = choose|i: int|
                    0 <= i < rest.len() && x == (#[trigger] rest[i]) && rest[i].dataset == dataset && forall|j: int|
                        0 <= j < i ==> !((#[trigger] rest[j]).dataset == dataset);
                assert(ts[i + 1] == rest[i]);
                assert(x == ts[i + 1]);
            }
        }
    }
}

/// The target of a number is the first that has it; there is none where none has.
pub proof fn law_target_numbered(ts: Seq<Target>, n: nat)
    ensures
        match target_numbered(ts, n) {
            Some(x) => exists|i: int|
                0 <= i < ts.len() && x == (#[trigger] ts[i]) && ts[i].idx == n && forall|j: int|
                    0 <= j < i ==> !((#[trigger] ts[j]).idx == n),
            None => forall|j: int| 0 <= j < ts.len() ==> !((#[trigger] ts[j]).idx == n),
        },
    decreases ts.len(),
{
    if ts.len() > 0 {
        if ts[0].idx == n {
            assert(ts[0] == ts[0]);
        } else {
            let rest = ts.drop_first();
            law_target_numbered(rest, n);
            assert forall|j: int| 0 <= j < ts.len() implies j == 0 || #[trigger] ts[j] == rest[j - 1] by {}
            if let Some(x) = target_numbered(rest, n) {
                let i = choose|i: int|
                    0 <= i < rest.len() && x == (#[trigger] rest[i]) && rest[i].idx == n && forall|j: int|
                        0 <= j < i ==> !((#[trigger] rest[j]).idx == n);
                assert(ts[i + 1] == rest[i]);
                assert(x == ts[i + 1]);
            }
        }
    }
}

/// The kernel of a name is the first that has it; there is none where none has.
pub proof fn law_choice_named(ks: Seq<Choice>, vmlinuz: Seq<char>)
    ensures
        match choice_named(ks, vmlinuz) {
            Some(x) => exists|i: int|
                0 <= i < ks.len() && x == (#[trigger] ks[i]) && ks[i].vmlinuz == vmlinuz && forall|j: int|
                    0 <= j < i ==> !((#[trigger] ks[j]).vmlinuz == vmlinuz),
            None => forall|j: int| 0 <= j < ks.len() ==> !((#[trigger] ks[j]).vmlinuz == vmlinuz),
        },
    decreases ks.len(),
{
    if ks.len() > 0 {
        if ks[0].vmlinuz == vmlinuz {
            assert(ks[0] == ks[0]);
        } else {
            let rest = ks.drop_first();
            law_choice_named(rest, vmlinuz);
            assert forall|j: int| 0 <= j < ks.len() implies j == 0 || #[trigger] ks[j] == rest[j - 1] by {}
            if let Some(x) = choice_named(rest, vmlinuz) {
                let i = choose|i: int|
                    0 <= i < rest.len() && x == (#[trigger] rest[i]) && rest[i].vmlinuz == vmlinuz && forall|j: int|
                        0 <= j < i ==> !((#[trigger] rest[j]).vmlinuz == vmlinuz);
                assert(ks[i + 1] == rest[i]);
                assert(x == ks[i + 1]);
            }
        }
    }
}

/// The marked kernel is the first that is marked as the default.
pub proof fn law_marked_choice(ks: Seq<Choice>)
    ensures
        match marked_choice(ks) {
            Some(x) => exists|i: int|
                0 <= i < ks.len() && x == (#[trigger] ks[i]) && ks[i].is_default && forall|j: int|
                    0 <= j < i ==> !((#[trigger] ks[j]).is_default),
            None => forall|j: int| 0 <= j < ks.len() ==> !((#[trigger] ks[j]).is_default),
        },
    decreases ks.len(),
{
    if ks.len() > 0 {
        if ks[0].is_default {
            assert(ks[0] == ks[0]);
        } else {
            let rest = ks.drop_first();
            law_marked_choice(rest);
            assert forall|j: int| 0 <= j < ks.len() implies j == 0 || #[trigger] ks[j] == rest[j - 1] by {}
            if let Some(x) = marked_choice(rest) {
                let i = choose|i: int|
                    0 <= i < rest.len() && x == (#[trigger] rest[i]) && rest[i].is_default && forall|j: int|
                        0 <= j < i ==> !((#[trigger] rest[j]).is_default);
                assert(ks[i + 1] == rest[i]);
                assert(x == ks[i + 1]);
            }
        }
    }
}

/// The default of some kernels is one of them: a marked one, where there is any,
/// else the first.
pub proof fn law_default_choice(ks: Seq<Choice>)
    requires
        ks.len() > 0,
    ensures
        ks.contains(default_choice(ks)),
        default_choice(ks).is_default <==> exists|i: int|
            0 <= i < ks.len() && (#[trigger] ks[i]).is_default,
        !default_choice(ks).is_default ==> default_choice(ks) == ks[0],
{
    law_marked_choice(ks);
    assert(ks.contains(ks[0]));
}

} // verus!
