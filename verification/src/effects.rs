//! What a run of commands leaves alone, and what it leaves behind.
//!
//! The contracts of the verbs give the calls that they make one by one. The
//! laws about whole verbs speak of less: which datasets the calls concern, and
//! which properties have been set and read back at the end.

use vstd::prelude::*;

use crate::model;
use crate::sub;
use crate::sub::{Call, World};
use crate::text;
use crate::zfs_ops;

verus! {

/// A `zfs` command that changes the dataset `ds` or one of its snapshots: its
/// last argument names it. A stream concerns the dataset that receives it.
pub open spec fn concerns(c: Call, ds: Seq<char>) -> bool {
    match c {
        Call::Run { prog, args } => {
            &&& prog == "zfs"@
            &&& args.len() > 0
            &&& args.last() == ds || text::begins(args.last(), ds + "@"@)
        },
        Call::Pipe { prog, args, to_prog, to_args } => {
            &&& to_prog == "zfs"@
            &&& to_args.len() > 0
            &&& to_args.last() == ds
        },
        _ => false,
    }
}

/// Whatever concerns `ds` is allowed.
pub open spec fn allows(p: spec_fn(Call) -> bool, ds: Seq<char>) -> bool {
    forall|c: Call| #[trigger] concerns(c, ds) ==> p(c)
}

/// The call that sets a property of a dataset without mounting it anew.
pub open spec fn set_call(ds: Seq<char>, prop: Seq<char>, value: Seq<char>) -> Call {
    Call::Run { prog: "zfs"@, args: seq!["set"@, "-u"@, prop + "="@ + value, ds] }
}

/// The call that asks for a property of a dataset.
pub open spec fn get_call(ds: Seq<char>, prop: Seq<char>) -> Call {
    Call::Run { prog: "zfs"@, args: seq!["get"@, "-Hp"@, "-o"@, "value"@, prop, ds] }
}

/// The call of a number succeeded, and what it printed reads so.
pub open spec fn read_as(w: World, n: int, value: Seq<char>) -> bool {
    succeeded(w, n) && text::trimmed((w.replies)(n as nat).stdout) == value
}

/// Between `a` and `b` the property was set to the value, and read back with
/// that value.
pub open spec fn took(a: World, b: World, ds: Seq<char>, prop: Seq<char>, value: Seq<char>) -> bool {
    exists|i: int|
        a.calls.len() <= i && i + 1 < b.calls.len() && #[trigger] b.calls[i] == set_call(
            ds,
            prop,
            value,
        ) && b.calls[i + 1] == get_call(ds, prop) && read_as(b, i + 1, value)
}

/// Between `a` and `b` a command ran, and reported success.
pub open spec fn ran(a: World, b: World, prog: Seq<char>, args: Seq<Seq<char>>) -> bool {
    exists|i: int|
        a.calls.len() <= i < b.calls.len() && #[trigger] b.calls[i] == (Call::Run { prog, args })
            && succeeded(b, i)
}

/// The call that lists the snapshots of a dataset with their GUIDs, oldest
/// first.
pub open spec fn listing(ds: Seq<char>) -> Call {
    Call::Run {
        prog: "zfs"@,
        args: seq![
            "list"@,
            "-Hp"@,
            "-t"@,
            "snapshot"@,
            "-o"@,
            "name,guid"@,
            "-d"@,
            "1"@,
            "-s"@,
            "creation"@,
            ds,
        ],
    }
}

/// The snapshots that a listing tells of; none of a dataset that is missing.
pub open spec fn snaps_told(w: World, n: int) -> zfs_ops::Snaps {
    if (w.replies)(n as nat).rc != 0 {
        seq![]
    } else {
        zfs_ops::snap_rows(text::lines_of((w.replies)(n as nat).stdout))
    }
}

/// `p` is the last of the source's snapshots that the destination has too, by
/// its GUID; `None`, where they have none in common.
pub open spec fn last_shared(
    src: zfs_ops::Snaps,
    dest: zfs_ops::Snaps,
    p: Option<Seq<char>>,
) -> bool {
    match p {
        Some(name) => exists|k: int|
            0 <= k < src.len() && (#[trigger] src[k]).0 == name && zfs_ops::any_guid(
                dest,
                src[k].1,
            ) && forall|j: int| k < j < src.len() ==> !zfs_ops::any_guid(dest, (#[trigger] src[j]).1),
        None => forall|j: int|
            0 <= j < src.len() ==> !zfs_ops::any_guid(dest, (#[trigger] src[j]).1),
    }
}

/// The calls of two numbers list both sides, and `p` is what they share last.
pub open spec fn base_told(
    w: World,
    n: int,
    src: Seq<char>,
    dest: Seq<char>,
    p: Option<Seq<char>>,
) -> bool {
    &&& w.calls[n] == listing(src)
    &&& w.calls[n + 1] == listing(dest)
    &&& last_shared(snaps_told(w, n), snaps_told(w, n + 1), p)
}

/// The call of a number asks for a dataset, which is not there.
pub open spec fn told_absent(w: World, n: int, ds: Seq<char>) -> bool {
    &&& w.calls[n] == Call::Run { prog: "zfs"@, args: seq!["list"@, "-H"@, "-o"@, "name"@, ds] }
    &&& !succeeded(w, n)
}

/// The call of a number is a send into a receive, and both programs succeeded.
pub open spec fn streamed(w: World, n: int, send: Seq<Seq<char>>, dest: Seq<char>) -> bool {
    let y = (w.replies)(n as nat);
    &&& w.calls[n] == Call::Pipe {
        prog: "zfs"@,
        args: send,
        to_prog: "zfs"@,
        to_args: seq!["receive"@, "-F"@, "-u"@, dest],
    }
    &&& y.failure is None && y.rc == 0 && y.to_rc == 0
}

/// The call of a number, or of that and the next, tells before another that the
/// destination is missing, or that it shares nothing with the source.
pub open spec fn nothing_shared(w: World, l: int, n: int, src: Seq<char>, dest: Seq<char>) -> bool {
    ||| told_absent(w, l, dest)
    ||| l + 1 < n && base_told(w, l, src, dest, None)
}

/// The call of a number brings the destination from `p` to a snapshot, and the
/// two listings right before tell that `p` is what both sides share last.
pub open spec fn sent_on(
    w: World,
    n: int,
    src: Seq<char>,
    dest: Seq<char>,
    p: Seq<char>,
    snap: Seq<char>,
) -> bool {
    &&& base_told(w, n - 3, src, dest, Some(p))
    &&& streamed(w, n, seq!["send"@, "-I"@, p, snap], dest)
}

/// With the call of a number a snapshot of the source has reached the
/// destination: from the last snapshot that both sides share, where the two
/// listings right before tell of one; else whole, after the destination has
/// turned out to be missing or to share none.
pub open spec fn arrived(
    a: World,
    w: World,
    n: int,
    src: Seq<char>,
    dest: Seq<char>,
    snap: Seq<char>,
) -> bool {
    ||| a.calls.len() <= n - 3 && exists|p: Seq<char>| #[trigger] sent_on(w, n, src, dest, p, snap)
    ||| {
        &&& streamed(w, n, seq!["send"@, "-R"@, snap], dest) || streamed(
            w,
            n,
            seq!["send"@, "-p"@, snap],
            dest,
        )
        &&& exists|l: int| a.calls.len() <= l < n && #[trigger] nothing_shared(w, l, n, src, dest)
    }
}

/// Between `a` and `b` a snapshot of the source has reached the destination.
pub open spec fn replicated(
    a: World,
    b: World,
    src: Seq<char>,
    dest: Seq<char>,
    snap: Seq<char>,
) -> bool {
    exists|n: int|
        a.calls.len() <= n < b.calls.len() && #[trigger] arrived(a, b, n, src, dest, snap)
}

/// Between `a` and `b` the dataset was given what every boot environment has.
pub open spec fn took_contract(a: World, b: World, ds: Seq<char>) -> bool {
    &&& took(a, b, ds, "canmount"@, "noauto"@)
    &&& took(a, b, ds, "mountpoint"@, "/"@)
    &&& took(a, b, ds, "zboot:be"@, "true"@)
}

/// What a replication may do: change its source and its destination, make the
/// container that the destination lies in, and ask the operator.
pub open spec fn replication(src: Seq<char>, dest: Seq<char>) -> spec_fn(Call) -> bool {
    |c: Call|
        {
            ||| concerns(c, src)
            ||| concerns(c, dest)
            ||| concerns(c, text::before(dest, '/') + "/ROOT"@)
            ||| c == Call::Ask
        }
}

/// What a verb that is refused may have done besides looking: it may have asked
/// the operator.
pub open spec fn asking() -> spec_fn(Call) -> bool {
    |c: Call| c == Call::Ask
}

/// `bound`, if there is one, is a snapshot of `ds`.
pub open spec fn is_of(bound: Option<Seq<char>>, ds: Seq<char>) -> bool {
    bound matches Some(b) ==> exists|snap: Seq<char>| b == #[trigger] (ds + "@"@ + snap)
}

/// What a call sets the property to, and of what, if it is one that sets it.
pub open spec fn setting(c: Call, prog: Seq<char>, prop: Seq<char>) -> Option<
    (Seq<char>, Seq<char>),
> {
    match c {
        Call::Run { prog: p, args } => if p == prog && args.len() == 3 && args[0] == "set"@
            && text::begins(args[1], prop + "="@) {
            Some((args[2], args[1].skip(prop.len() as int + 1)))
        } else {
            None
        },
        _ => None,
    }
}

/// The program of a call ran, and reported success.
pub open spec fn succeeded(w: World, i: int) -> bool {
    (w.replies)(i as nat).failure is None && (w.replies)(i as nat).rc == 0
}

/// The settings of the property since the call of a number, in order: those
/// that were tried, or only those that succeeded.
pub open spec fn settings(
    w: World,
    from: int,
    prog: Seq<char>,
    prop: Seq<char>,
    tried: bool,
) -> Seq<(Seq<char>, Seq<char>)>
    decreases w.calls.len(),
{
    if w.calls.len() == 0 || w.calls.len() <= from {
        seq![]
    } else {
        let n = w.calls.len() - 1;
        let front = settings(
            World { calls: w.calls.drop_last(), replies: w.replies },
            from,
            prog,
            prop,
            tried,
        );
        match setting(w.calls[n], prog, prop) {
            Some(s) => if tried || succeeded(w, n) {
                front.push(s)
            } else {
                front
            },
            None => front,
        }
    }
}

/// Every call but one that sets the property.
pub open spec fn not_setting(prog: Seq<char>, prop: Seq<char>) -> spec_fn(Call) -> bool {
    |c: Call| setting(c, prog, prop) is None
}

/// Calls that do not set the property add no setting of it.
pub proof fn lemma_no_settings(
    a: World,
    b: World,
    from: int,
    prog: Seq<char>,
    prop: Seq<char>,
    tried: bool,
)
    requires
        prog == "zfs"@ || prog == "zpool"@,
        sub::did_only(a, b, not_setting(prog, prop)),
        from <= a.calls.len(),
    ensures
        settings(b, from, prog, prop, tried) == settings(a, from, prog, prop, tried),
    decreases b.calls.len(),
{
    if b.calls.len() > a.calls.len() {
        let n = b.calls.len() - 1;
        let c = World { calls: b.calls.drop_last(), replies: b.replies };
        assert(sub::did_only(a, c, not_setting(prog, prop))) by {
            assert forall|i: int| 0 <= i < a.calls.len() implies #[trigger] c.calls[i]
                == a.calls[i] by {
                assert(b.calls[i] == a.calls[i]);
            }
            assert forall|i: int| a.calls.len() <= i < c.calls.len() implies {
                ||| sub::harmless(#[trigger] c.calls[i])
                ||| c.calls[i] is Trace
                ||| not_setting(prog, prop)(c.calls[i])
            } by {
                assert(c.calls[i] == b.calls[i]);
            }
        }
        lemma_no_settings(a, c, from, prog, prop, tried);
        lemma_harmless_sets_nothing(b.calls[n], prog, prop);
        assert(setting(b.calls[n], prog, prop) is None);
    } else {
        assert(b.calls =~= a.calls);
    }
}

proof fn lemma_harmless_sets_nothing(c: Call, prog: Seq<char>, prop: Seq<char>)
    requires
        prog == "zfs"@ || prog == "zpool"@,
    ensures
        sub::harmless(c) ==> setting(c, prog, prop) is None,
        c is Trace ==> setting(c, prog, prop) is None,
{
    reveal_strlit("set");
    reveal_strlit("list");
    reveal_strlit("get");
    reveal_strlit("wipefs");
    assert("wipefs"@[0] == 'w');
    assert("set"@[0] == 's');
    assert("list"@[0] == 'l');
    assert("get"@[0] == 'g');
    reveal_strlit("zfs");
    reveal_strlit("zpool");
    reveal_strlit("lsblk");
    reveal_strlit("findmnt");
    assert("zfs"@[0] == 'z' && "zpool"@[0] == 'z' && "lsblk"@[0] == 'l' && "findmnt"@[0] == 'f');
}

/// Looking adds no setting.
pub proof fn lemma_looked_sets_nothing(
    a: World,
    b: World,
    from: int,
    prog: Seq<char>,
    prop: Seq<char>,
    tried: bool,
)
    requires
        prog == "zfs"@ || prog == "zpool"@,
        sub::only_looked(a, b),
        from <= a.calls.len(),
    ensures
        settings(b, from, prog, prop, tried) == settings(a, from, prog, prop, tried),
{
    lemma_looked(a, b, not_setting(prog, prop));
    lemma_no_settings(a, b, from, prog, prop, tried);
}

// ---------------------------------------------------------------------------
// One run after another
// ---------------------------------------------------------------------------

/// One run after another keeps to what both are allowed.
pub proof fn lemma_then(a: World, b: World, c: World, p: spec_fn(Call) -> bool)
    requires
        sub::did_only(a, b, p),
        sub::did_only(b, c, p),
    ensures
        sub::did_only(a, c, p),
{
    assert forall|i: int| 0 <= i < a.calls.len() implies #[trigger] c.calls[i] == a.calls[i] by {
        assert(b.calls[i] == a.calls[i]);
        assert(c.calls[i] == b.calls[i]);
    }
    assert forall|i: int| a.calls.len() <= i < c.calls.len() implies {
        ||| sub::harmless(#[trigger] c.calls[i])
        ||| c.calls[i] is Trace
        ||| p(c.calls[i])
    } by {
        if i < b.calls.len() {
            assert(c.calls[i] == b.calls[i]);
        }
    }
}

/// Looking on after looking is looking.
pub proof fn lemma_looked_on(a: World, b: World, c: World)
    requires
        sub::only_looked(a, b),
        sub::only_looked(b, c),
    ensures
        sub::only_looked(a, c),
{
    assert forall|i: int| 0 <= i < a.calls.len() implies #[trigger] c.calls[i] == a.calls[i] by {
        assert(b.calls[i] == a.calls[i]);
        assert(c.calls[i] == b.calls[i]);
    }
    assert forall|i: int| a.calls.len() <= i < c.calls.len() implies sub::harmless(
        #[trigger] c.calls[i],
    ) by {
        if i < b.calls.len() {
            assert(c.calls[i] == b.calls[i]);
        }
    }
}

/// Looking keeps to whatever is allowed.
pub proof fn lemma_looked(a: World, b: World, p: spec_fn(Call) -> bool)
    requires
        sub::only_looked(a, b),
    ensures
        sub::did_only(a, b, p),
{
}

/// What is allowed of one may be allowed of more.
pub proof fn lemma_widen(
    a: World,
    b: World,
    p: spec_fn(Call) -> bool,
    q: spec_fn(Call) -> bool,
)
    requires
        sub::did_only(a, b, p),
        forall|c: Call| #[trigger] p(c) ==> q(c),
    ensures
        sub::did_only(a, b, q),
{
    assert forall|i: int| a.calls.len() <= i < b.calls.len() implies {
        ||| sub::harmless(#[trigger] b.calls[i])
        ||| b.calls[i] is Trace
        ||| q(b.calls[i])
    } by {
        if p(b.calls[i]) {
        }
    }
}

/// What took in a part of a run took in the run.
pub proof fn lemma_took_within(
    a: World,
    b: World,
    c: World,
    d: World,
    ds: Seq<char>,
    prop: Seq<char>,
    value: Seq<char>,
)
    requires
        sub::continues(a, b),
        took(b, c, ds, prop, value),
        sub::continues(c, d),
    ensures
        took(a, d, ds, prop, value),
{
    let i = choose|i: int|
        b.calls.len() <= i && i + 1 < c.calls.len() && #[trigger] c.calls[i] == set_call(
            ds,
            prop,
            value,
        ) && c.calls[i + 1] == get_call(ds, prop) && read_as(c, i + 1, value);
    assert(d.calls[i] == c.calls[i]);
    assert(d.calls[i + 1] == c.calls[i + 1]);
}

/// What ran in a part of a run ran in the run.
pub proof fn lemma_ran_within(
    a: World,
    b: World,
    c: World,
    d: World,
    prog: Seq<char>,
    args: Seq<Seq<char>>,
)
    requires
        sub::continues(a, b),
        ran(b, c, prog, args),
        sub::continues(c, d),
    ensures
        ran(a, d, prog, args),
{
    let i = choose|i: int|
        b.calls.len() <= i < c.calls.len() && #[trigger] c.calls[i] == (Call::Run { prog, args })
            && succeeded(c, i);
    assert(d.calls[i] == c.calls[i]);
}

/// What arrived in a part of a run arrived in the run.
pub proof fn lemma_replicated_within(
    a: World,
    b: World,
    c: World,
    d: World,
    src: Seq<char>,
    dest: Seq<char>,
    snap: Seq<char>,
)
    requires
        sub::continues(a, b),
        replicated(b, c, src, dest, snap),
        sub::continues(c, d),
    ensures
        replicated(a, d, src, dest, snap),
{
    let n = choose|n: int|
        b.calls.len() <= n < c.calls.len() && #[trigger] arrived(b, c, n, src, dest, snap);
    assert forall|i: int| 0 <= i < c.calls.len() implies #[trigger] d.calls[i] == c.calls[i] by {}
    assert forall|send: Seq<Seq<char>>| streamed(c, n, send, dest) implies #[trigger] streamed(
        d,
        n,
        send,
        dest,
    ) by {}
    assert forall|l: int, p: Option<Seq<char>>|
        0 <= l && l + 1 < c.calls.len() && base_told(c, l, src, dest, p) implies #[trigger] base_told(
        d,
        l,
        src,
        dest,
        p,
    ) by {}
    if b.calls.len() <= n - 3 && exists|p: Seq<char>| #[trigger]
        sent_on(c, n, src, dest, p, snap) {
        let p = choose|p: Seq<char>| #[trigger] sent_on(c, n, src, dest, p, snap);
        assert(base_told(d, n - 3, src, dest, Some(p)));
        assert(streamed(d, n, seq!["send"@, "-I"@, p, snap], dest));
        assert(sent_on(d, n, src, dest, p, snap));
    } else {
        let l = choose|l: int| b.calls.len() <= l < n && #[trigger] nothing_shared(c, l, n, src, dest);
        if !told_absent(c, l, dest) {
            assert(base_told(d, l, src, dest, None));
        }
        assert(nothing_shared(d, l, n, src, dest));
    }
    assert(arrived(a, d, n, src, dest, snap));
}

/// A transfer that succeeds ends with its stream.
pub proof fn lemma_streamed(
    w: World,
    label: Seq<char>,
    waits: bool,
    send: Seq<Seq<char>>,
    dest: Seq<char>,
)
    ensures
        sub::continues(w, zfs_ops::transfer_does(w, label, waits, send, dest).0),
        zfs_ops::transfer_does(w, label, waits, send, dest).0.calls.len() == w.calls.len() + 2,
        zfs_ops::transfer_does(w, label, waits, send, dest).1 is Ok ==> streamed(
            zfs_ops::transfer_does(w, label, waits, send, dest).0,
            (w.calls.len() + 1) as int,
            send,
            dest,
        ),
{
    reveal(zfs_ops::transfer_does);
}

/// An incremental send right after looking for its base arrives.
pub proof fn lemma_sent_on(
    a: World,
    w: World,
    src: Seq<char>,
    dest: Seq<char>,
    p: Seq<char>,
    snap: Seq<char>,
)
    requires
        sub::continues(a, w),
        a.calls.len() + 2 <= w.calls.len(),
        base_told(w, w.calls.len() - 2, src, dest, Some(p)),
        zfs_ops::send_incremental_does(w, p, snap, dest).1 is Ok,
    ensures
        replicated(a, zfs_ops::send_incremental_does(w, p, snap, dest).0, src, dest, snap),
{
    let send = seq!["send"@, "-I"@, p, snap];
    lemma_streamed(w, "zfs send -I"@, false, send, dest);
    let end = zfs_ops::send_incremental_does(w, p, snap, dest).0;
    let n = w.calls.len() as int + 1;
    assert(end.calls[n - 3] == w.calls[n - 3]);
    assert(end.calls[n - 2] == w.calls[n - 2]);
    assert(sent_on(end, n, src, dest, p, snap));
    assert(arrived(a, end, n, src, dest, snap));
}

/// A whole send arrives where the destination is missing or shares nothing.
pub proof fn lemma_sent_whole(
    a: World,
    w: World,
    l: int,
    src: Seq<char>,
    dest: Seq<char>,
    snap: Seq<char>,
    alone: bool,
)
    requires
        sub::continues(a, w),
        a.calls.len() <= l < w.calls.len(),
        nothing_shared(w, l, w.calls.len() as int, src, dest),
        if alone {
            zfs_ops::send_standalone_does(w, snap, dest).1 is Ok
        } else {
            zfs_ops::send_full_does(w, snap, dest).1 is Ok
        },
    ensures
        replicated(
            a,
            if alone {
                zfs_ops::send_standalone_does(w, snap, dest).0
            } else {
                zfs_ops::send_full_does(w, snap, dest).0
            },
            src,
            dest,
            snap,
        ),
{
    lemma_streamed(w, "zfs send -p"@, true, seq!["send"@, "-p"@, snap], dest);
    lemma_streamed(w, "zfs send"@, true, seq!["send"@, "-R"@, snap], dest);
    let end = if alone {
        zfs_ops::send_standalone_does(w, snap, dest).0
    } else {
        zfs_ops::send_full_does(w, snap, dest).0
    };
    let n = w.calls.len() as int + 1;
    assert(end.calls[l] == w.calls[l]);
    if l + 1 < w.calls.len() {
        assert(end.calls[l + 1] == w.calls[l + 1]);
    }
    assert(nothing_shared(end, l, n, src, dest));
    if alone {
        assert(streamed(end, n, seq!["send"@, "-p"@, snap], dest));
    } else {
        assert(streamed(end, n, seq!["send"@, "-R"@, snap], dest));
    }
    assert(arrived(a, end, n, src, dest, snap));
}

/// A command that succeeds ran.
pub proof fn lemma_run_ran(w: World, prog: Seq<char>, args: Seq<Seq<char>>)
    ensures
        sub::continues(w, sub::run_does(w, prog, args).0),
        sub::run_does(w, prog, args).1 is Ok ==> ran(w, sub::run_does(w, prog, args).0, prog, args),
{
    let end = sub::run_does(w, prog, args).0;
    let n = w.calls.len() as int + 1;
    assert(end.calls[n] == Call::Run { prog, args });
}

/// Looking for the base of a send lists both sides.
pub proof fn lemma_base_told(w: World, src: Seq<char>, dest: Seq<char>)
    ensures
        ({
            let (w1, p) = zfs_ops::previous_anchor_on_dest_does(w, src, dest);
            &&& sub::continues(w, w1)
            &&& p is Ok ==> w1.calls.len() == w.calls.len() + 2 && base_told(
                w1,
                w.calls.len() as int,
                src,
                dest,
                p->Ok_0,
            )
        }),
{
    reveal(zfs_ops::previous_anchor_on_dest_does);
    reveal(zfs_ops::list_snapshots_does);
    let (w1, s) = zfs_ops::list_snapshots_does(w, src);
    let (w2, d) = zfs_ops::list_snapshots_does(w1, dest);
    let nine = seq![
        "list"@,
        "-Hp"@,
        "-t"@,
        "snapshot"@,
        "-o"@,
        "name,guid"@,
        "-d"@,
        "1"@,
        "-s"@,
    ];
    assert(listing(src)->Run_args =~= nine + seq!["creation"@, src]);
    assert(listing(dest)->Run_args =~= nine + seq!["creation"@, dest]);
    if s is Ok && d is Ok {
        lemma_last_shared(s->Ok_0, d->Ok_0);
        let n = w.calls.len() as int;
        assert(s->Ok_0 =~= snaps_told(w2, n));
        assert(d->Ok_0 =~= snaps_told(w2, n + 1));
    }
}

proof fn lemma_last_shared(src: zfs_ops::Snaps, dest: zfs_ops::Snaps)
    ensures
        last_shared(src, dest, zfs_ops::last_common(src, dest)),
    decreases src.len(),
{
    if src.len() > 0 && !zfs_ops::any_guid(dest, src.last().1) {
        let front = src.drop_last();
        lemma_last_shared(front, dest);
        if let Some(name) = zfs_ops::last_common(front, dest) {
            let k = choose|k: int|
                0 <= k < front.len() && (#[trigger] front[k]).0 == name && zfs_ops::any_guid(
                    dest,
                    front[k].1,
                ) && forall|j: int|
                    k < j < front.len() ==> !zfs_ops::any_guid(dest, (#[trigger] front[j]).1);
            assert(src[k] == front[k]);
            assert forall|j: int| k < j < src.len() implies !zfs_ops::any_guid(
                dest,
                (#[trigger] src[j]).1,
            ) by {
                if j < front.len() {
                    assert(front[j] == src[j]);
                }
            }
        } else {
            assert forall|j: int| 0 <= j < src.len() implies !zfs_ops::any_guid(
                dest,
                (#[trigger] src[j]).1,
            ) by {
                if j < front.len() {
                    assert(front[j] == src[j]);
                }
            }
        }
    } else if src.len() > 0 {
        assert(src[src.len() - 1] == src.last());
    }
}

/// A run that goes on from one that goes on.
pub proof fn lemma_continues(a: World, b: World, c: World)
    requires
        sub::continues(a, b),
        sub::continues(b, c),
    ensures
        sub::continues(a, c),
{
    assert forall|i: int| 0 <= i < a.calls.len() implies #[trigger] c.calls[i] == a.calls[i] by {
        assert(b.calls[i] == a.calls[i]);
    }
}

/// The same for all that a boot environment has.
pub proof fn lemma_contract_within(a: World, b: World, c: World, d: World, ds: Seq<char>)
    requires
        sub::continues(a, b),
        took_contract(b, c, ds),
        sub::continues(c, d),
    ensures
        took_contract(a, d, ds),
{
    lemma_took_within(a, b, c, d, ds, "canmount"@, "noauto"@);
    lemma_took_within(a, b, c, d, ds, "mountpoint"@, "/"@);
    lemma_took_within(a, b, c, d, ds, "zboot:be"@, "true"@);
}

// ---------------------------------------------------------------------------
// The single operations
// ---------------------------------------------------------------------------

/// Setting a property concerns the dataset; where it succeeds, it took.
pub proof fn lemma_set(
    w: World,
    ds: Seq<char>,
    prop: Seq<char>,
    value: Seq<char>,
    p: spec_fn(Call) -> bool,
)
    requires
        allows(p, ds),
    ensures
        sub::did_only(w, zfs_ops::set_property_does(w, ds, prop, value).0, p),
        zfs_ops::set_property_does(w, ds, prop, value).1 is Ok ==> took(
            w,
            zfs_ops::set_property_does(w, ds, prop, value).0,
            ds,
            prop,
            value,
        ),
{
    reveal(zfs_ops::set_property_does);
    let assignment = prop + "="@ + value;
    let args = seq!["set"@, "-u"@, assignment, ds];
    let w1 = w.trace("+ zfs set -u "@ + assignment + " "@ + ds);
    let w2 = w1.run("zfs"@, args);
    assert(args.last() == ds);
    assert(concerns(Call::Run { prog: "zfs"@, args }, ds));
    assert(sub::did_only(w, w2, p));
    zfs_ops::lemma_property_looks(w2, ds, prop);
    let w3 = zfs_ops::dataset_property_does(w2, ds, prop).0;
    lemma_looked(w2, w3, p);
    lemma_then(w, w2, w3, p);
    reveal(zfs_ops::dataset_property_does);
    let n = w1.calls.len() as int;
    if zfs_ops::set_property_does(w, ds, prop, value).1 is Ok {
        assert(w3.calls[n] == set_call(ds, prop, value));
        assert(w3.calls[n + 1] == get_call(ds, prop));
        assert(read_as(w3, n + 1, value));
    }
}

/// Leaving a property to the parent concerns the dataset.
pub proof fn lemma_inherit(w: World, ds: Seq<char>, prop: Seq<char>, p: spec_fn(Call) -> bool)
    requires
        allows(p, ds),
    ensures
        sub::did_only(w, zfs_ops::inherit_property_does(w, ds, prop), p),
{
    reveal(zfs_ops::inherit_property_does);
    let args = seq!["inherit"@, prop, ds];
    assert(args.last() == ds);
    assert(concerns(Call::Run { prog: "zfs"@, args }, ds));
}

/// A snapshot concerns the dataset that it is taken of.
pub proof fn lemma_snapshot(w: World, ds: Seq<char>, name: Seq<char>, p: spec_fn(Call) -> bool)
    requires
        allows(p, ds),
    ensures
        sub::did_only(w, zfs_ops::take_snapshot_does(w, ds, name).0, p),
{
    reveal(zfs_ops::take_snapshot_does);
    let full = ds + "@"@ + name;
    let args = seq!["snapshot"@, full];
    assert(args.last() == full);
    lemma_begins(ds + "@"@, name);
    assert(concerns(Call::Run { prog: "zfs"@, args }, ds));
}

/// A text begins with its first part.
proof fn lemma_begins(a: Seq<char>, b: Seq<char>)
    ensures
        text::begins(a + b, a),
{
    assert((a + b).take(a.len() as int) =~= a);
}

/// Pruning concerns the dataset.
pub proof fn lemma_prune(w: World, ds: Seq<char>, keep: Seq<char>, p: spec_fn(Call) -> bool)
    requires
        allows(p, ds),
    ensures
        sub::did_only(w, zfs_ops::prune_old_anchors_does(w, ds, keep), p),
{
    zfs_ops::law_pruning_spares_the_rest(w, ds, keep);
    let q = |c: Call|
        exists|snap: Seq<char>| #[trigger]
            text::begins(snap, ds + "@mirror-"@) && snap != keep && c == (Call::Run {
                prog: "zfs"@,
                args: seq!["destroy"@, snap],
            });
    assert forall|c: Call| #[trigger] q(c) implies p(c) by {
        let snap = choose|snap: Seq<char>| #[trigger]
            text::begins(snap, ds + "@mirror-"@) && snap != keep && c == (Call::Run {
                prog: "zfs"@,
                args: seq!["destroy"@, snap],
            });
        let args = seq!["destroy"@, snap];
        assert(args.last() == snap);
        reveal_strlit("@mirror-");
        reveal_strlit("@");
        assert(ds + "@mirror-"@ =~= (ds + "@"@) + "mirror-"@) by {
            reveal_strlit("mirror-");
        }
        lemma_begins_shorter(snap, ds + "@"@, "mirror-"@);
        assert(concerns(c, ds));
    }
    lemma_widen(w, zfs_ops::prune_old_anchors_does(w, ds, keep), q, p);
}

proof fn lemma_begins_shorter(s: Seq<char>, a: Seq<char>, b: Seq<char>)
    requires
        text::begins(s, a + b),
    ensures
        text::begins(s, a),
{
    assert(s.take(a.len() as int) =~= s.take((a + b).len() as int).take(a.len() as int));
    assert((a + b).take(a.len() as int) =~= a);
}

/// A stream concerns the dataset that receives it.
pub proof fn lemma_transfer(
    w: World,
    label: Seq<char>,
    waits: bool,
    send: Seq<Seq<char>>,
    dest: Seq<char>,
    p: spec_fn(Call) -> bool,
)
    requires
        allows(p, dest),
    ensures
        sub::did_only(w, zfs_ops::transfer_does(w, label, waits, send, dest).0, p),
{
    reveal(zfs_ops::transfer_does);
    let to_args = seq!["receive"@, "-F"@, "-u"@, dest];
    assert(to_args.last() == dest);
    let c = Call::Pipe { prog: "zfs"@, args: send, to_prog: "zfs"@, to_args };
    assert(concerns(c, dest));
}

/// Rolling back concerns the dataset that is rolled back.
pub proof fn lemma_rollback(w: World, ds: Seq<char>, snap: Seq<char>, p: spec_fn(Call) -> bool)
    requires
        allows(p, ds),
    ensures
        sub::did_only(w, zfs_ops::rollback_recursive_does(w, ds + "@"@ + snap).0, p),
{
    reveal(zfs_ops::rollback_recursive_does);
    let full = ds + "@"@ + snap;
    let args = seq!["rollback"@, "-r"@, full];
    assert(args.last() == full);
    lemma_begins(ds + "@"@, snap);
    assert(concerns(Call::Run { prog: "zfs"@, args }, ds));
}

/// Giving a dataset what a boot environment has concerns that dataset; where it
/// succeeds, it took.
pub proof fn lemma_contract(w: World, ds: Seq<char>, p: spec_fn(Call) -> bool)
    requires
        allows(p, ds),
    ensures
        sub::did_only(w, zfs_ops::set_be_contract_does(w, ds).0, p),
        zfs_ops::set_be_contract_does(w, ds).1 is Ok ==> took_contract(
            w,
            zfs_ops::set_be_contract_does(w, ds).0,
            ds,
        ),
{
    reveal(zfs_ops::set_be_contract_does);
    let (w1, a) = zfs_ops::set_property_does(w, ds, "canmount"@, "noauto"@);
    let (w2, b) = zfs_ops::set_property_does(w1, ds, "mountpoint"@, "/"@);
    let (w3, c) = zfs_ops::set_property_does(w2, ds, "zboot:be"@, "true"@);
    lemma_set(w, ds, "canmount"@, "noauto"@, p);
    lemma_set(w1, ds, "mountpoint"@, "/"@, p);
    lemma_set(w2, ds, "zboot:be"@, "true"@, p);
    lemma_then(w, w1, w2, p);
    lemma_then(w, w2, w3, p);
    assert(sub::continues(w, w));
    assert(sub::continues(w3, w3));
    if a is Ok && b is Ok && c is Ok {
        lemma_continues(w1, w2, w3);
        lemma_took_within(w, w, w1, w3, ds, "canmount"@, "noauto"@);
        lemma_took_within(w, w1, w2, w3, ds, "mountpoint"@, "/"@);
        lemma_took_within(w, w2, w3, w3, ds, "zboot:be"@, "true"@);
    }
}

/// Seeing to the container of a pool concerns the container.
pub proof fn lemma_container(w: World, pool: Seq<char>, p: spec_fn(Call) -> bool)
    requires
        allows(p, pool + "/ROOT"@),
    ensures
        sub::did_only(w, zfs_ops::ensure_root_container_does(w, pool).0, p),
{
    reveal(zfs_ops::ensure_root_container_does);
    let root = pool + "/ROOT"@;
    zfs_ops::lemma_exists_looks(w, root);
    let w1 = zfs_ops::dataset_exists_does(w, root).0;
    lemma_looked(w, w1, p);
    let args = seq!["create"@, "-o"@, "canmount=off"@, "-o"@, "mountpoint=none"@, root];
    assert(args.last() == root);
    assert(concerns(Call::Run { prog: "zfs"@, args }, root));
    let w2 = sub::run_does(w1, "zfs"@, args).0;
    assert(sub::did_only(w1, w2, p));
    lemma_then(w, w1, w2, p);
}

/// A rollback to a bound concerns the dataset that the bound is a snapshot of.
pub proof fn lemma_rewind(w: World, ds: Seq<char>, bound: Seq<char>, p: spec_fn(Call) -> bool)
    requires
        allows(p, ds),
        is_of(Some(bound), ds),
    ensures
        sub::did_only(w, zfs_ops::rollback_recursive_does(w, bound).0, p),
{
    let snap = choose|snap: Seq<char>| bound == #[trigger] (ds + "@"@ + snap);
    lemma_rollback(w, ds, snap, p);
}

/// The base of an incremental send is found by looking.
pub proof fn lemma_previous_looks(w: World, src: Seq<char>, dest: Seq<char>)
    ensures
        sub::only_looked(w, zfs_ops::previous_anchor_on_dest_does(w, src, dest).0),
{
    reveal(zfs_ops::previous_anchor_on_dest_does);
    zfs_ops::lemma_list_looks(w, src);
    zfs_ops::lemma_list_looks(zfs_ops::list_snapshots_does(w, src).0, dest);
}

/// A typed confirmation shows and asks.
pub proof fn lemma_confirm(
    w: World,
    label: Seq<char>,
    target: Seq<char>,
    doomed: Seq<Seq<char>>,
    p: spec_fn(Call) -> bool,
)
    requires
        p(Call::Ask),
    ensures
        sub::did_only(w, zfs_ops::confirm_truncate_does(w, label, target, doomed).0, p),
{
    reveal(zfs_ops::confirm_truncate_does);
    lemma_trace_names(w.trace(label + ":"@), zfs_ops::previewed(doomed), p);
}

proof fn lemma_trace_names(w: World, names: Seq<Seq<char>>, p: spec_fn(Call) -> bool)
    ensures
        sub::did_only(w, zfs_ops::trace_names_does(w, names), p),
    decreases names.len(),
{
    if names.len() > 0 {
        lemma_trace_names(w, names.drop_last(), p);
    }
}

/// Setting a property succeeds exactly where it reads back as it was set,
/// whatever the command itself came to.
pub proof fn law_set_is_read_back(w: World, ds: Seq<char>, prop: Seq<char>, value: Seq<char>)
    ensures
        ({
            let assignment = prop + "="@ + value;
            let set = w.trace("+ zfs set -u "@ + assignment + " "@ + ds).run(
                "zfs"@,
                seq!["set"@, "-u"@, assignment, ds],
            );
            zfs_ops::set_property_does(w, ds, prop, value).1 is Ok
                <==> zfs_ops::dataset_property_does(set, ds, prop).1 == Ok::<Seq<char>, Seq<char>>(
                value,
            )
        }),
{
    reveal(zfs_ops::set_property_does);
}

/// A fresh anchor of the source, taken between `a` and `b`.
pub open spec fn anchored(a: World, b: World, src: Seq<char>, anchor: Seq<char>) -> bool {
    &&& text::begins(anchor, src + "@mirror-"@)
    &&& ran(a, b, "zfs"@, seq!["snapshot"@, anchor])
}

/// The source has a snapshot that was taken after the one called `full`, and the
/// destination has it too; replication anchors do not count.
pub open spec fn ahead(src: zfs_ops::Snaps, dest: zfs_ops::Snaps, full: Seq<char>) -> bool {
    exists|k: int, j: int, m: int|
        0 <= k < j < src.len() && 0 <= m < dest.len() && (#[trigger] src[k]).0 == full
            && !model::anchor((#[trigger] src[j]).0) && !model::anchor((#[trigger] dest[m]).0)
            && dest[m].1 == src[j].1
}

/// The calls of two numbers list both sides, and the destination is ahead of the
/// bound.
pub open spec fn told_ahead(
    w: World,
    l: int,
    src: Seq<char>,
    dest: Seq<char>,
    full: Seq<char>,
) -> bool {
    &&& w.calls[l] == listing(src)
    &&& w.calls[l + 1] == listing(dest)
    &&& ahead(snaps_told(w, l), snaps_told(w, l + 1), full)
}

/// Between `a` and `b` the destination turned out to be ahead of the bound, and
/// was rolled back to it.
pub open spec fn rewound(
    a: World,
    b: World,
    src: Seq<char>,
    dest: Seq<char>,
    snap: Seq<char>,
) -> bool {
    &&& ran(a, b, "zfs"@, seq!["rollback"@, "-r"@, dest + "@"@ + snap])
    &&& exists|l: int|
        a.calls.len() <= l && l + 1 < b.calls.len() && #[trigger] told_ahead(
            b,
            l,
            src,
            dest,
            src + "@"@ + snap,
        )
}

/// Between `a` and `b` the destination was brought to the bound; or, where
/// there is none, to a fresh anchor of the source.
pub open spec fn brought(
    a: World,
    b: World,
    src: Seq<char>,
    dest: Seq<char>,
    bound: Option<Seq<char>>,
) -> bool {
    match bound {
        None => exists|anchor: Seq<char>| #[trigger]
            anchored(a, b, src, anchor) && replicated(a, b, src, dest, anchor),
        Some(snap) => {
            ||| replicated(a, b, src, dest, src + "@"@ + snap)
            ||| rewound(a, b, src, dest, snap)
        },
    }
}

/// What was brought in a part of a run was brought in the run.
pub proof fn lemma_brought_within(
    a: World,
    b: World,
    c: World,
    d: World,
    src: Seq<char>,
    dest: Seq<char>,
    bound: Option<Seq<char>>,
)
    requires
        sub::continues(a, b),
        brought(b, c, src, dest, bound),
        sub::continues(c, d),
    ensures
        brought(a, d, src, dest, bound),
{
    match bound {
        None => {
            let anchor = choose|anchor: Seq<char>| #[trigger]
                anchored(b, c, src, anchor) && replicated(b, c, src, dest, anchor);
            lemma_ran_within(a, b, c, d, "zfs"@, seq!["snapshot"@, anchor]);
            lemma_replicated_within(a, b, c, d, src, dest, anchor);
            assert(anchored(a, d, src, anchor));
        },
        Some(snap) => {
            let full = src + "@"@ + snap;
            if replicated(b, c, src, dest, full) {
                lemma_replicated_within(a, b, c, d, src, dest, full);
            } else {
                lemma_ran_within(
                    a,
                    b,
                    c,
                    d,
                    "zfs"@,
                    seq!["rollback"@, "-r"@, dest + "@"@ + snap],
                );
                let l = choose|l: int|
                    b.calls.len() <= l && l + 1 < c.calls.len() && #[trigger] told_ahead(
                        c,
                        l,
                        src,
                        dest,
                        full,
                    );
                assert(d.calls[l] == c.calls[l] && d.calls[l + 1] == c.calls[l + 1]);
                assert(told_ahead(d, l, src, dest, full));
            }
        },
    }
}

/// Taking a fresh snapshot by the clock, under a replication anchor's name.
pub proof fn lemma_fresh_anchor(w: World, src: Seq<char>)
    ensures
        ({
            let name = zfs_ops::anchor_name(w.reply().nanos as nat);
            let (end, taken) = zfs_ops::take_snapshot_does(w.after(Call::Clock), src, name);
            taken is Ok ==> anchored(w, end, src, src + "@"@ + name)
        }),
{
    reveal(zfs_ops::take_snapshot_does);
    let name = zfs_ops::anchor_name(w.reply().nanos as nat);
    let w0 = w.after(Call::Clock);
    let (end, taken) = zfs_ops::take_snapshot_does(w0, src, name);
    let full = src + "@"@ + name;
    lemma_run_ran(w0, "zfs"@, seq!["snapshot"@, full]);
    reveal_strlit("@");
    reveal_strlit("mirror-");
    reveal_strlit("@mirror-");
    assert(full.take((src + "@mirror-"@).len() as int) =~= src + "@mirror-"@);
    assert(sub::continues(end, end));
    if taken is Ok {
        lemma_ran_within(w, w0, end, end, "zfs"@, seq!["snapshot"@, full]);
    }
}

/// Looking for what a rewind would destroy lists both sides.
pub proof fn lemma_told_ahead(w: World, src: Seq<char>, dest: Seq<char>, snap: Seq<char>)
    ensures
        ({
            let (end, found) = zfs_ops::dest_snapshots_after_bound_does(w, src, dest, snap);
            found matches Ok(after) ==> {
                &&& end.calls.len() == w.calls.len() + 2
                &&& after.len() > 0 ==> told_ahead(
                    end,
                    w.calls.len() as int,
                    src,
                    dest,
                    src + "@"@ + snap,
                )
            }
        }),
{
    reveal(zfs_ops::dest_snapshots_after_bound_does);
    reveal(zfs_ops::list_snapshots_does);
    let (w1, s) = zfs_ops::list_snapshots_does(w, src);
    let (w2, d) = zfs_ops::list_snapshots_does(w1, dest);
    let nine = seq![
        "list"@,
        "-Hp"@,
        "-t"@,
        "snapshot"@,
        "-o"@,
        "name,guid"@,
        "-d"@,
        "1"@,
        "-s"@,
    ];
    assert(listing(src)->Run_args =~= nine + seq!["creation"@, src]);
    assert(listing(dest)->Run_args =~= nine + seq!["creation"@, dest]);
    if s is Ok && d is Ok {
        let n = w.calls.len() as int;
        assert(s->Ok_0 =~= snaps_told(w2, n));
        assert(d->Ok_0 =~= snaps_told(w2, n + 1));
        law_after_bound(s->Ok_0, d->Ok_0, src + "@"@ + snap);
    }
}

/// There is something to destroy exactly where the destination is ahead of the
/// bound.
pub proof fn law_after_bound(src: zfs_ops::Snaps, dest: zfs_ops::Snaps, full: Seq<char>)
    ensures
        zfs_ops::after_bound(src, dest, full).len() > 0 <==> ahead(src, dest, full),
{
    let k = zfs_ops::snap_position(src, full);
    lemma_snap_position(src, full);
    let rest = src.skip(k + 1);
    let keep = |p: (Seq<char>, Seq<char>)| !model::anchor(p.0) && zfs_ops::has_guid(rest, p.1);
    if zfs_ops::after_bound(src, dest, full).len() > 0 {
        dest.lemma_filter_pred(keep, 0);
        let x = dest.filter(keep)[0];
        dest.lemma_filter_contains_rev(keep, x);
        let m = choose|m: int| 0 <= m < dest.len() && dest[m] == x;
        let i = choose|i: int|
            0 <= i < rest.len() && !model::anchor((#[trigger] rest[i]).0) && rest[i].1 == x.1;
        assert(src[k + 1 + i] == rest[i]);
        assert(src[k].0 == full && !model::anchor(src[k + 1 + i].0) && !model::anchor(dest[m].0));
    }
    if ahead(src, dest, full) {
        let (k1, j, m) = choose|k1: int, j: int, m: int|
            0 <= k1 < j < src.len() && 0 <= m < dest.len() && (#[trigger] src[k1]).0 == full
                && !model::anchor((#[trigger] src[j]).0) && !model::anchor((#[trigger] dest[m]).0)
                && dest[m].1 == src[j].1;
        assert(rest[j - k - 1] == src[j]);
        assert(zfs_ops::has_guid(rest, dest[m].1));
        dest.lemma_filter_contains(keep, m);
    }
}

proof fn lemma_snap_position(snaps: zfs_ops::Snaps, name: Seq<char>)
    ensures
        ({
            let p = zfs_ops::snap_position(snaps, name);
            &&& 0 <= p <= snaps.len()
            &&& p < snaps.len() ==> snaps[p].0 == name
            &&& forall|i: int| 0 <= i < p ==> (#[trigger] snaps[i]).0 != name
        }),
    decreases snaps.len(),
{
    if snaps.len() > 0 && snaps[0].0 != name {
        let rest = snaps.drop_first();
        lemma_snap_position(rest, name);
        let p = zfs_ops::snap_position(snaps, name);
        assert forall|i: int| 0 <= i < p implies (#[trigger] snaps[i]).0 != name by {
            if i > 0 {
                assert(rest[i - 1] == snaps[i]);
            }
        }
    }
}

/// What was called in between was called from before to after.
pub proof fn lemma_called_within(a: World, b: World, c: World, d: World, call: Call)
    requires
        sub::continues(a, b),
        sub::called(b, c, call),
        sub::continues(c, d),
    ensures
        sub::called(a, d, call),
{
    let i = choose|i: int| b.calls.len() <= i < c.calls.len() && #[trigger] c.calls[i] == call;
    assert(d.calls[i] == c.calls[i]);
}

/// The call that reads a property of a pool.
pub open spec fn pool_call(pool: Seq<char>, prop: Seq<char>) -> Call {
    Call::Run { prog: "zpool"@, args: seq!["get"@, "-H"@, "-o"@, "value"@, prop, pool] }
}

/// The n-th call read `bootfs` of a pool, and found `ds` in it.
pub open spec fn booted_from(w: World, n: int, pool: Seq<char>, ds: Seq<char>) -> bool {
    &&& w.calls[n] == pool_call(pool, "bootfs"@)
    &&& read_as(w, n, ds)
    &&& (w.replies)(n as nat).garbled is None
}

/// A call was made and did what it was asked to do; a program that was run came
/// to its end with no error.
pub open spec fn came_off(a: World, b: World, c: Call) -> bool {
    exists|i: int|
        a.calls.len() <= i < b.calls.len() && #[trigger] b.calls[i] == c && went_well(b, i)
}

/// The n-th call met with no failure and no exit code but zero.
pub open spec fn went_well(w: World, n: int) -> bool {
    let y = (w.replies)(n as nat);
    &&& y.failure is None
    &&& w.calls[n] is Run || w.calls[n] is Pipe || w.calls[n] is Feed ==> y.rc == 0
    &&& w.calls[n] is Attend || w.calls[n] is RunWith ==> y.rc as i32 == 0
    &&& w.calls[n] is Pipe ==> y.to_rc == 0
}

/// What came off in between came off from before to after.
pub proof fn lemma_came_within(a: World, b: World, c: World, d: World, call: Call)
    requires
        sub::continues(a, b),
        came_off(b, c, call),
        sub::continues(c, d),
    ensures
        came_off(a, d, call),
{
    let i = choose|i: int|
        b.calls.len() <= i < c.calls.len() && #[trigger] c.calls[i] == call && went_well(c, i);
    assert(d.calls[i] == c.calls[i]);
    assert(went_well(d, i));
}

/// A call just made that met with no failure came off.
pub proof fn lemma_came_now(w: World, c: Call)
    requires
        w.reply().failure is None,
        c is Run || c is Pipe || c is Feed ==> w.reply().rc == 0,
        c is Attend || c is RunWith ==> w.reply().rc as i32 == 0,
        c is Pipe ==> w.reply().to_rc == 0,
    ensures
        came_off(w, w.after(c), c),
        sub::continues(w, w.after(c)),
{
    let end = w.after(c);
    let n = w.calls.len() as int;
    assert(end.calls[n] == c);
    assert(went_well(end, n));
}

/// A command that succeeds came off.
pub proof fn lemma_run_came_off(w: World, prog: Seq<char>, args: Seq<Seq<char>>)
    ensures
        sub::continues(w, sub::run_does(w, prog, args).0),
        sub::run_does(w, prog, args).1 is Ok ==> came_off(
            w,
            sub::run_does(w, prog, args).0,
            Call::Run { prog, args },
        ),
{
    let end = sub::run_does(w, prog, args).0;
    let n = w.calls.len() as int + 1;
    assert(end.calls[n] == Call::Run { prog, args });
    assert(sub::run_does(w, prog, args).1 is Ok ==> went_well(end, n));
}

/// Every one of the calls was made and did what it was asked to do.
pub open spec fn all_came_off(a: World, b: World, cs: Seq<Call>) -> bool {
    forall|i: int| 0 <= i < cs.len() ==> came_off(a, b, #[trigger] cs[i])
}

/// What came off in between came off from before to after.
pub proof fn lemma_all_within(a: World, b: World, c: World, d: World, cs: Seq<Call>)
    requires
        sub::continues(a, b),
        all_came_off(b, c, cs),
        sub::continues(c, d),
    ensures
        all_came_off(a, d, cs),
{
    assert forall|i: int| 0 <= i < cs.len() implies came_off(a, d, #[trigger] cs[i]) by {
        lemma_came_within(a, b, c, d, cs[i]);
    }
}

/// What came off first and what came off next came off together.
pub proof fn lemma_all_then(a: World, b: World, c: World, xs: Seq<Call>, ys: Seq<Call>)
    requires
        sub::continues(a, b),
        sub::continues(b, c),
        all_came_off(a, b, xs),
        all_came_off(b, c, ys),
    ensures
        sub::continues(a, c),
        all_came_off(a, c, xs + ys),
{
    lemma_continues(a, b, c);
    assert(sub::continues(a, a));
    assert(sub::continues(c, c));
    lemma_all_within(a, a, b, c, xs);
    lemma_all_within(a, b, c, c, ys);
    let all = xs + ys;
    assert forall|i: int| 0 <= i < all.len() implies came_off(a, c, #[trigger] all[i]) by {
        if i < xs.len() {
            assert(came_off(a, c, xs[i]));
        } else {
            assert(came_off(a, c, ys[i - xs.len()]));
        }
    }
}

/// The snapshots of a dataset were listed, and where they could be, every anchor
/// of it but the one to keep was destroyed.
pub open spec fn pruned(a: World, b: World, ds: Seq<char>, keep: Seq<char>) -> bool {
    exists|n: int|
        a.calls.len() <= n < b.calls.len() && #[trigger] pruned_at(a, b, n, ds, keep)
}

/// The n-th call listed the snapshots of a dataset, and its old anchors went.
pub open spec fn pruned_at(a: World, b: World, n: int, ds: Seq<char>, keep: Seq<char>) -> bool {
    let ls = text::lines_of((b.replies)(n as nat).stdout);
    &&& b.calls[n] == (Call::Run {
        prog: "zfs"@,
        args: seq!["list"@, "-Hp"@, "-t"@, "snapshot"@, "-o"@, "name"@, "-r"@, ds],
    })
    &&& succeeded(b, n) ==> forall|i: int|
        0 <= i < ls.len() && text::begins(text::trimmed(ls[i]), ds + "@mirror-"@) && text::trimmed(
            ls[i],
        ) != keep ==> sub::called(a, b, zfs_ops::destroying(text::trimmed(#[trigger] ls[i])))
}

/// Pruning prunes.
pub proof fn lemma_pruned(w: World, ds: Seq<char>, keep: Seq<char>)
    ensures
        sub::continues(w, zfs_ops::prune_old_anchors_does(w, ds, keep)),
        pruned(w, zfs_ops::prune_old_anchors_does(w, ds, keep), ds, keep),
{
    let all = |c: Call| true;
    let end = zfs_ops::prune_old_anchors_does(w, ds, keep);
    lemma_prune(w, ds, keep, all);
    let n = w.calls.len() as int;
    if succeeded(w, n) {
        zfs_ops::law_every_old_anchor_is_destroyed(w, ds, keep);
        assert(n < end.calls.len()) by {
            reveal(zfs_ops::prune_old_anchors_does);
            zfs_ops::lemma_prune_goes_on(
                w.run(
                    "zfs"@,
                    seq!["list"@, "-Hp"@, "-t"@, "snapshot"@, "-o"@, "name"@, "-r"@, ds],
                ),
                text::lines_of(w.reply().stdout),
                ds,
                keep,
            );
        }
    } else {
        reveal(zfs_ops::prune_old_anchors_does);
        assert(end.calls[n] == Call::Run {
            prog: "zfs"@,
            args: seq!["list"@, "-Hp"@, "-t"@, "snapshot"@, "-o"@, "name"@, "-r"@, ds],
        });
    }
    assert(pruned_at(w, end, n, ds, keep));
}

/// What was pruned in between was pruned from before to after.
pub proof fn lemma_pruned_within(
    a: World,
    b: World,
    c: World,
    d: World,
    ds: Seq<char>,
    keep: Seq<char>,
)
    requires
        sub::continues(a, b),
        pruned(b, c, ds, keep),
        sub::continues(c, d),
    ensures
        pruned(a, d, ds, keep),
{
    let n = choose|n: int|
        b.calls.len() <= n < c.calls.len() && #[trigger] pruned_at(b, c, n, ds, keep);
    assert(d.calls[n] == c.calls[n]);
    let ls = text::lines_of((c.replies)(n as nat).stdout);
    if succeeded(d, n) {
        assert forall|i: int|
            0 <= i < ls.len() && text::begins(text::trimmed(ls[i]), ds + "@mirror-"@)
                && text::trimmed(ls[i]) != keep implies sub::called(
            a,
            d,
            zfs_ops::destroying(text::trimmed(#[trigger] ls[i])),
        ) by {
            lemma_called_within(a, b, c, d, zfs_ops::destroying(text::trimmed(ls[i])));
        }
    }
    assert(pruned_at(a, d, n, ds, keep));
}

/// The n-th call listed what `left` holds and the next what `right` holds, and
/// every snapshot of `right` but anchors is one of `left` too.
pub open spec fn nothing_more(w: World, n: int, left: Seq<char>, right: Seq<char>) -> bool {
    let l = snaps_told(w, n);
    let r = snaps_told(w, n + 1);
    &&& w.calls[n] == listing(left)
    &&& w.calls[n + 1] == listing(right)
    &&& forall|i: int|
        0 <= i < r.len() ==> model::anchor((#[trigger] r[i]).0) || zfs_ops::has_guid(l, r[i].1)
}

/// Where no snapshot is found on the right alone, there is none.
pub proof fn law_only_on_right(w: World, left: Seq<char>, right: Seq<char>)
    ensures
        ({
            let (end, found) = zfs_ops::snapshots_only_on_right_does(w, left, right);
            found matches Ok(extras) ==> {
                &&& end.calls.len() == w.calls.len() + 2
                &&& sub::continues(w, end)
                &&& extras.len() == 0 <==> nothing_more(end, w.calls.len() as int, left, right)
            }
        }),
{
    reveal(zfs_ops::snapshots_only_on_right_does);
    reveal(zfs_ops::list_snapshots_does);
    let (end, found) = zfs_ops::snapshots_only_on_right_does(w, left, right);
    let (w1, s) = zfs_ops::list_snapshots_does(w, left);
    let (w2, d) = zfs_ops::list_snapshots_does(w1, right);
    let nine = seq![
        "list"@,
        "-Hp"@,
        "-t"@,
        "snapshot"@,
        "-o"@,
        "name,guid"@,
        "-d"@,
        "1"@,
        "-s"@,
    ];
    assert(listing(left)->Run_args =~= nine + seq!["creation"@, left]);
    assert(listing(right)->Run_args =~= nine + seq!["creation"@, right]);
    if found is Ok {
        let n = w.calls.len() as int;
        let l = s->Ok_0;
        let r = d->Ok_0;
        assert(l =~= snaps_told(w2, n));
        assert(r =~= snaps_told(w2, n + 1));
        let alone = |p: (Seq<char>, Seq<char>)|
            !model::anchor(p.0) && !zfs_ops::has_guid(l, p.1);
        let kept = r.filter(alone);
        if kept.len() == 0 {
            assert forall|i: int| 0 <= i < r.len() implies model::anchor((#[trigger] r[i]).0)
                || zfs_ops::has_guid(l, r[i].1) by {
                if alone(r[i]) {
                    r.lemma_filter_contains(alone, i);
                    assert(kept.contains(r[i]));
                }
            }
        } else {
            let p = kept[0];
            assert(kept.contains(p));
            r.lemma_filter_contains_rev(alone, p);
            r.lemma_filter_pred(alone, 0);
            let i = choose|i: int| 0 <= i < r.len() && r[i] == p;
            assert(alone(r[i]));
        }
    }
}

} // verus!
