//! `rename`: give a boot environment another name, with every pointer at it.

use vstd::prelude::*;

use crate::be_arg;
use crate::effects;
use crate::error;
use crate::error::Error;
use crate::model;
use crate::model::{Key, PairPointer};
use crate::sub;
use crate::sub::{Call, Runner, World};
use crate::text;
use crate::walk;
use crate::zfs_ops;

verus! {

/// Arguments of `rename`.
#[derive(Debug)]
pub struct RenameArgs {
    /// The boot environment: a bare name on the running pool, or a full
    /// dataset path.
    pub be: String,
    /// Its new name, bare; the pool stays.
    pub new_name: String,
}

/// The datasets whose pointer points at `target`.
pub open spec fn incoming_does(w: World, target: Key) -> (World, Result<Seq<Seq<char>>, Seq<char>>) {
    let (w1, got) = walk::property_table_does(w, "zboot:mirror"@);
    (
        w1,
        match got {
            Err(m) => Err(m),
            Ok(rows) => Ok(walk::holders(rows, model::pair_text(target))),
        },
    )
}

fn find_incoming_pointers<R: Runner>(r: &mut R, target: &PairPointer) -> (res: Result<
    Vec<String>,
    Error,
>)
    ensures
        sub::did(final(r).world(), res) == incoming_does(old(r).world(), target.deep_view()),
{
    let shown: String = target.render();
    match walk::property_table(r, "zboot:mirror") {
        Err(e) => Err(e),
        Ok(rows) => Ok(walk::find_holders(&rows, shown.as_str())),
    }
}

/// What a renaming starts from: the old dataset, the new one, and the pointers
/// at both.
pub struct Renaming {
    pub old_ds: Seq<char>,
    pub new_ds: Seq<char>,
    pub old_key: Key,
    pub new_key: Key,
}

/// A renaming that may go ahead.
pub struct Rename {
    pub old_ds: String,
    pub new_ds: String,
    pub old_pointer: PairPointer,
    pub new_pointer: PairPointer,
}

impl DeepView for Rename {
    type V = Renaming;

    open spec fn deep_view(&self) -> Renaming {
        Renaming {
            old_ds: self.old_ds@,
            new_ds: self.new_ds@,
            old_key: self.old_pointer.deep_view(),
            new_key: self.new_pointer.deep_view(),
        }
    }
}

/// The pointer that a dataset path makes.
pub open spec fn pointer_of(ds: Seq<char>) -> Result<Key, Seq<char>> {
    match model::pair_of(ds) {
        Some(k) => Ok(k),
        None => Err(ds + " not in canonical form"@),
    }
}

/// Makes the pointer of a dataset path.
pub fn parse_pointer(ds: &str) -> (res: Result<PairPointer, Error>)
    ensures
        error::outcome(res) == pointer_of(ds@),
{
    match PairPointer::parse_dataset(ds) {
        Some(k) => Ok(k),
        None => Err(Error::from_text(text::cat2(ds, " not in canonical form"))),
    }
}

/// The pointers at both names.
pub open spec fn renaming_of(old_ds: Seq<char>, new_ds: Seq<char>) -> Result<Renaming, Seq<char>> {
    match pointer_of(old_ds) {
        Err(m) => Err(m),
        Ok(old_key) => match pointer_of(new_ds) {
            Err(m) => Err(m),
            Ok(new_key) => Ok(Renaming { old_ds, new_ds, old_key, new_key }),
        },
    }
}

fn make_renaming(old_ds: &str, new_ds: &str) -> (res: Result<Rename, Error>)
    ensures
        error::outcome(res) == renaming_of(old_ds@, new_ds@),
{
    match parse_pointer(old_ds) {
        Err(e) => Err(e),
        Ok(old_pointer) => match parse_pointer(new_ds) {
            Err(e) => Err(e),
            Ok(new_pointer) => Ok(
                Rename {
                    old_ds: old_ds.to_owned(),
                    new_ds: new_ds.to_owned(),
                    old_pointer,
                    new_pointer,
                },
            ),
        },
    }
}

/// All that has to hold before a boot environment is renamed.
#[verifier::opaque]
pub open spec fn check_does(w: World, be: Seq<char>, new_name: Seq<char>) -> (World, Result<
    Renaming,
    Seq<char>,
>) {
    let (w1, ds) = be_arg::resolve_be_dataset_does(w, be);
    match ds {
        Err(m) => (w1, Err(m)),
        Ok(old_ds) => {
            let (w2, there) = zfs_ops::dataset_exists_does(w1, old_ds);
            match there {
                Err(m) => (w2, Err(m)),
                Ok(b) => if !b {
                    (w2, Err("BE "@ + old_ds + " does not exist"@))
                } else if new_name.contains('/') {
                    (
                        w2,
                        Err(
                            "--new-name takes a bare BE name, not a path (got "@
                                + text::quoted_text(new_name) + ")"@,
                        ),
                    )
                } else {
                    let new_ds = model::be_dataset(text::before(old_ds, '/'), new_name);
                    let (w3, taken) = zfs_ops::dataset_exists_does(w2, new_ds);
                    if zfs_ops::exists_or_not(taken) {
                        (w3, Err("target name "@ + new_ds + " already exists"@))
                    } else {
                        (w3, renaming_of(old_ds, new_ds))
                    }
                },
            }
        },
    }
}

fn check<R: Runner>(r: &mut R, be: &str, new_name: &str) -> (res: Result<Rename, Error>)
    ensures
        sub::did(final(r).world(), res) == check_does(old(r).world(), be@, new_name@),
{
    proof {
        reveal(check_does);
    }
    let old_ds: String = match be_arg::resolve_be_dataset(r, be) {
        Err(e) => return Err(e),
        Ok(d) => d,
    };
    match zfs_ops::dataset_exists(r, old_ds.as_str()) {
        Err(e) => return Err(e),
        Ok(b) => if !b {
            return Err(Error::from_text(text::cat3("BE ", old_ds.as_str(), " does not exist")));
        },
    }
    if text::has(new_name, '/') {
        let q: String = text::quoted(new_name);
        return Err(
            Error::from_text(
                text::cat3(
                    "--new-name takes a bare BE name, not a path (got ",
                    q.as_str(),
                    ")",
                ),
            ),
        );
    }
    let new_ds: String = model::be_path(text::head(old_ds.as_str(), '/'), new_name);
    if zfs_ops::is_there(r, new_ds.as_str()) {
        return Err(
            Error::from_text(text::cat3("target name ", new_ds.as_str(), " already exists")),
        );
    }
    make_renaming(old_ds.as_str(), new_ds.as_str())
}

/// Lets the pool boot next what the old name stood for.
#[verifier::opaque]
pub open spec fn follow_bootfs_does(w: World, x: Renaming) -> (World, Result<(), Seq<char>>) {
    let pool = text::before(x.old_ds, '/');
    let (w1, bootfs) = zfs_ops::pool_bootfs_does(w, pool);
    if bootfs == Ok::<Option<Seq<char>>, Seq<char>>(Some(x.old_ds)) {
        let (w2, res) = sub::run_does(w1, "zpool"@, seq!["set"@, "bootfs="@ + x.new_ds, pool]);
        (w2, error::in_context(res, "zpool set bootfs (post-rename)"@))
    } else {
        (w1, Ok(()))
    }
}

fn follow_bootfs<R: Runner>(r: &mut R, x: &Rename) -> (res: Result<(), Error>)
    ensures
        sub::did(final(r).world(), res) == follow_bootfs_does(old(r).world(), x.deep_view()),
{
    proof {
        reveal(follow_bootfs_does);
    }
    let pool: &str = text::head(x.old_ds.as_str(), '/');
    let moved: bool = match zfs_ops::pool_bootfs(r, pool) {
        Ok(b) => text::opt_is(&b, x.old_ds.as_str()),
        Err(_) => false,
    };
    if !moved {
        return Ok(());
    }
    let set: String = text::cat2("bootfs=", x.new_ds.as_str());
    let args = text::argv3("set", set.as_str(), pool);
    let res = sub::cmd(r, "zpool", args.as_slice());
    error::with_context(res, "zpool set bootfs (post-rename)")
}

/// Rewrites the pointers of the datasets to `to`.
pub open spec fn repoint_does(w: World, dss: Seq<Seq<char>>, to: Key) -> (World, Result<
    (),
    Seq<char>,
>)
    decreases dss.len(),
{
    if dss.len() == 0 {
        (w, Ok(()))
    } else {
        let w1 = w.say("    update "@ + dss[0] + " mirror pointer"@);
        let (w2, res) = zfs_ops::set_property_does(
            w1,
            dss[0],
            "zboot:mirror"@,
            model::pair_text(to),
        );
        match res {
            Err(m) => (w2, Err(error::within("updating mirror pointer on "@ + dss[0], m))),
            Ok(()) => repoint_does(w2, dss.drop_first(), to),
        }
    }
}

fn repoint_from<R: Runner>(r: &mut R, dss: &Vec<String>, i: usize, to: &PairPointer) -> (res:
    Result<(), Error>)
    requires
        i <= dss@.len(),
    ensures
        sub::did(final(r).world(), res) == repoint_does(
            old(r).world(),
            dss.deep_view().skip(i as int),
            to.deep_view(),
        ),
    decreases dss@.len() - i,
{
    if i == dss.len() {
        return Ok(());
    }
    proof {
        assert(dss.deep_view().skip(i as int)[0] == dss@[i as int]@);
        assert(dss.deep_view().skip(i as int).drop_first() =~= dss.deep_view().skip(i + 1));
    }
    let line: String = text::cat3("    update ", dss[i].as_str(), " mirror pointer");
    r.say(line.as_str());
    match zfs_ops::write_pair_pointer(r, dss[i].as_str(), to) {
        Err(e) => {
            let what: String = text::cat2("updating mirror pointer on ", dss[i].as_str());
            Err(e.context(what.as_str()))
        },
        Ok(()) => repoint_from(r, dss, i + 1, to),
    }
}

/// The renaming itself, and what follows it.
#[verifier::opaque]
pub open spec fn rename_does(w: World, x: Renaming) -> (World, Result<(), Seq<char>>) {
    let w1 = w.say("  rename "@ + x.old_ds + " → "@ + x.new_ds);
    let (w2, incoming) = incoming_does(w1, x.old_key);
    match incoming {
        Err(m) => (w2, Err(m)),
        Ok(dss) => {
            let (w3, done) = sub::run_does(w2, "zfs"@, seq!["rename"@, x.old_ds, x.new_ds]);
            match done {
                Err(m) => (w3, Err(error::within("zfs rename"@, m))),
                Ok(()) => {
                    let (w4, followed) = follow_bootfs_does(w3, x);
                    match followed {
                        Err(m) => (w4, Err(m)),
                        Ok(()) => repoint_does(w4, dss, x.new_key),
                    }
                },
            }
        },
    }
}

fn rename<R: Runner>(r: &mut R, x: &Rename) -> (res: Result<(), Error>)
    ensures
        sub::did(final(r).world(), res) == rename_does(old(r).world(), x.deep_view()),
{
    proof {
        reveal(rename_does);
    }
    let line: String = text::cat4("  rename ", x.old_ds.as_str(), " → ", x.new_ds.as_str());
    r.say(line.as_str());
    let incoming = match find_incoming_pointers(r, &x.old_pointer) {
        Err(e) => return Err(e),
        Ok(v) => v,
    };
    let args = text::argv3("rename", x.old_ds.as_str(), x.new_ds.as_str());
    match sub::cmd(r, "zfs", args.as_slice()) {
        Err(e) => return Err(e.context("zfs rename")),
        Ok(()) => {},
    }
    match follow_bootfs(r, x) {
        Err(e) => return Err(e),
        Ok(()) => {},
    }
    assert(incoming.deep_view().skip(0) =~= incoming.deep_view());
    repoint_from(r, &incoming, 0, &x.new_pointer)
}

/// What `rename` does.
pub open spec fn run_does(w: World, be: Seq<char>, new_name: Seq<char>) -> (World, Result<
    (),
    Seq<char>,
>) {
    let (w1, ok) = check_does(w, be, new_name);
    match ok {
        Err(m) => (w1, Err(m)),
        Ok(x) => rename_does(w1, x),
    }
}

/// `rename`: gives a boot environment another name on its pool.
pub fn run<R: Runner>(r: &mut R, args: &RenameArgs) -> (res: Result<(), Error>)
    ensures
        sub::did(final(r).world(), res) == run_does(old(r).world(), args.be@, args.new_name@),
{
    match check(r, args.be.as_str(), args.new_name.as_str()) {
        Err(e) => Err(e),
        Ok(x) => rename(r, &x),
    }
}

/// The pointers of a renaming are those at its two names.
pub proof fn law_renamed_pointer(old_ds: Seq<char>, new_ds: Seq<char>)
    ensures
        renaming_of(old_ds, new_ds) matches Ok(x) ==> model::pair_of(new_ds) == Some(x.new_key)
            && model::pair_of(old_ds) == Some(x.old_key),
{
}

/// A renaming stays on the pool.
pub proof fn law_renaming_stays_on_the_pool(w: World, be: Seq<char>, new_name: Seq<char>)
    ensures
        check_does(w, be, new_name).1 matches Ok(x) ==> text::before(x.new_ds, '/')
            == text::before(x.old_ds, '/') && x.new_ds == model::be_dataset(
            text::before(x.old_ds, '/'),
            new_name,
        ),
{
    reveal(check_does);
    reveal_strlit("/ROOT/");
    if let Ok(x) = check_does(w, be, new_name).1 {
        let pool = text::before(x.old_ds, '/');
        text::lemma_position(x.old_ds, '/');
        assert(x.new_ds == model::be_dataset(pool, new_name));
        assert(x.new_ds[pool.len() as int] == '/');
        text::lemma_position_is(x.new_ds, '/', pool.len() as int);
        assert(x.new_ds.take(pool.len() as int) =~= pool);
    }
}

/// Every dataset that pointed at the old name is found: no pointer dangles.
pub proof fn law_every_holder_is_found(rows: zfs_ops::Snaps, value: Seq<char>, i: int)
    requires
        0 <= i < rows.len(),
        rows[i].1 == value,
    ensures
        walk::holders(rows, value).contains(rows[i].0),
    decreases rows.len(),
{
    let all = walk::holders(rows, value);
    if i == rows.len() - 1 {
        assert(all[all.len() - 1] == rows[i].0);
    } else {
        law_every_holder_is_found(rows.drop_last(), value, i);
        let front = walk::holders(rows.drop_last(), value);
        let k = choose|k: int| 0 <= k < front.len() && front[k] == rows[i].0;
        assert(all[k] == rows[i].0);
    }
}

/// A renaming that succeeds renames the dataset, and every pointer at the old
/// name that was found has been set to the new one and read back.
pub proof fn law_renamed_is_pointed_at(w: World, x: Renaming, i: int)
    requires
        renaming_of(x.old_ds, x.new_ds) == Ok::<Renaming, Seq<char>>(x),
        rename_does(w, x).1 is Ok,
        ({
            let w1 = w.say("  rename "@ + x.old_ds + " → "@ + x.new_ds);
            incoming_does(w1, x.old_key).1 matches Ok(dss) && 0 <= i < dss.len()
        }),
    ensures
        ({
            let w1 = w.say("  rename "@ + x.old_ds + " → "@ + x.new_ds);
            let dss = incoming_does(w1, x.old_key).1->Ok_0;
            let end = rename_does(w, x).0;
            &&& sub::called(
                w,
                end,
                Call::Run { prog: "zfs"@, args: seq!["rename"@, x.old_ds, x.new_ds] },
            )
            &&& effects::took(w, end, dss[i], "zboot:mirror"@, x.new_ds)
        }),
{
    reveal(rename_does);
    reveal(follow_bootfs_does);
    law_renamed_pointer(x.old_ds, x.new_ds);
    model::law_pair_text(x.new_ds);
    let w1 = w.say("  rename "@ + x.old_ds + " → "@ + x.new_ds);
    walk::lemma_table_looks(w1, "zboot:mirror"@);
    let (w2, incoming) = incoming_does(w1, x.old_key);
    let dss = incoming->Ok_0;
    let args = seq!["rename"@, x.old_ds, x.new_ds];
    let w3 = sub::run_does(w2, "zfs"@, args).0;
    let pool = text::before(x.old_ds, '/');
    zfs_ops::lemma_pool_property_looks(w3, pool, "bootfs"@);
    let wb = zfs_ops::pool_bootfs_does(w3, pool).0;
    let w4 = follow_bootfs_does(w3, x).0;
    assert(sub::continues(wb, w4));
    effects::lemma_continues(w3, wb, w4);
    let end = repoint_does(w4, dss, x.new_key).0;
    lemma_repoint(w4, dss, x.new_key, i);
    effects::lemma_continues(w, w1, w2);
    assert(sub::continues(w2, w3));
    effects::lemma_continues(w, w2, w3);
    effects::lemma_continues(w, w3, w4);
    effects::lemma_continues(w3, w4, end);
    assert(sub::continues(end, end));
    effects::lemma_took_within(w, w4, end, end, dss[i], "zboot:mirror"@, x.new_ds);
    let n = w3.calls.len() - 1;
    assert(w3.calls[n] == Call::Run { prog: "zfs"@, args });
    assert(end.calls[n] == w3.calls[n]);
}

proof fn lemma_repoint(w: World, dss: Seq<Seq<char>>, to: Key, i: int)
    requires
        repoint_does(w, dss, to).1 is Ok,
        0 <= i < dss.len(),
    ensures
        sub::continues(w, repoint_does(w, dss, to).0),
        effects::took(
            w,
            repoint_does(w, dss, to).0,
            dss[i],
            "zboot:mirror"@,
            model::pair_text(to),
        ),
    decreases dss.len(),
{
    let w1 = w.say("    update "@ + dss[0] + " mirror pointer"@);
    let w2 = zfs_ops::set_property_does(w1, dss[0], "zboot:mirror"@, model::pair_text(to)).0;
    effects::lemma_set(w1, dss[0], "zboot:mirror"@, model::pair_text(to), |c: Call| true);
    let rest = dss.drop_first();
    let end = repoint_does(w, dss, to).0;
    assert(sub::continues(w, w1));
    effects::lemma_continues(w, w1, w2);
    assert(sub::continues(end, end));
    if rest.len() == 0 {
        assert(end == w2);
    } else if i == 0 {
        lemma_repoint(w2, rest, to, 0);
    } else {
        lemma_repoint(w2, rest, to, i - 1);
        assert(rest[i - 1] == dss[i]);
    }
    effects::lemma_continues(w, w2, end);
    if i == 0 {
        effects::lemma_took_within(
            w,
            w1,
            w2,
            end,
            dss[0],
            "zboot:mirror"@,
            model::pair_text(to),
        );
    } else {
        effects::lemma_took_within(
            w,
            w2,
            end,
            end,
            dss[i],
            "zboot:mirror"@,
            model::pair_text(to),
        );
    }
}

/// Every pointer of a table that named the old dataset names the new one.
pub open spec fn pointers_follow(
    a: World,
    b: World,
    rows: zfs_ops::Snaps,
    old_ds: Seq<char>,
    new_ds: Seq<char>,
) -> bool {
    forall|k: int|
        0 <= k < rows.len() && (#[trigger] rows[k]).1 == old_ds ==> effects::took(
            a,
            b,
            rows[k].0,
            "zboot:mirror"@,
            new_ds,
        )
}

/// Every imported pool was asked for its pointers, and they follow.
pub open spec fn all_pointers_follow(
    a: World,
    b: World,
    names: Seq<Seq<char>>,
    rows: zfs_ops::Snaps,
    old_ds: Seq<char>,
    new_ds: Seq<char>,
) -> bool {
    &&& forall|i: int|
        0 <= i < names.len() ==> walk::was_visited(
            a,
            b,
            #[trigger] names[i],
            "zboot:mirror"@,
            rows,
        )
    &&& pointers_follow(a, b, rows, old_ds, new_ds)
}

/// A renaming that succeeds renames the dataset, and every pointer at it on any
/// root pool follows.
pub proof fn law_pointers_follow_a_renaming(w: World, x: Renaming)
    requires
        renaming_of(x.old_ds, x.new_ds) == Ok::<Renaming, Seq<char>>(x),
        rename_does(w, x).1 is Ok,
    ensures
        ({
            let end = rename_does(w, x).0;
            let n = w.calls.len() as int + 1;
            let names = text::lines_of((w.replies)(n as nat).stdout);
            &&& effects::ran(w, end, "zfs"@, seq!["rename"@, x.old_ds, x.new_ds])
            &&& end.calls[n] == walk::pools_call()
            &&& effects::succeeded(w, n)
            &&& exists|rows: zfs_ops::Snaps| #[trigger]
                all_pointers_follow(w, end, names, rows, x.old_ds, x.new_ds)
        }),
{
    reveal(rename_does);
    reveal(follow_bootfs_does);
    law_renamed_pointer(x.old_ds, x.new_ds);
    model::law_pair_text(x.old_ds);
    model::law_pair_text(x.new_ds);
    let w1 = w.say("  rename "@ + x.old_ds + " → "@ + x.new_ds);
    walk::lemma_table_looks(w1, "zboot:mirror"@);
    walk::law_table_is_of_all_pools(w1, "zboot:mirror"@);
    let rows = walk::property_table_does(w1, "zboot:mirror"@).1->Ok_0;
    let (w2, incoming) = incoming_does(w1, x.old_key);
    let dss = incoming->Ok_0;
    let args = seq!["rename"@, x.old_ds, x.new_ds];
    effects::lemma_run_ran(w2, "zfs"@, args);
    let w3 = sub::run_does(w2, "zfs"@, args).0;
    let pool = text::before(x.old_ds, '/');
    zfs_ops::lemma_pool_property_looks(w3, pool, "bootfs"@);
    let wb = zfs_ops::pool_bootfs_does(w3, pool).0;
    let w4 = follow_bootfs_does(w3, x).0;
    assert(sub::continues(wb, w4));
    effects::lemma_continues(w3, wb, w4);
    let end = repoint_does(w4, dss, x.new_key).0;
    if dss.len() > 0 {
        lemma_repoint(w4, dss, x.new_key, 0);
    }
    assert(sub::continues(w4, end));
    assert(sub::continues(w, w1));
    effects::lemma_continues(w, w1, w2);
    effects::lemma_continues(w3, w4, end);
    effects::lemma_continues(w2, w3, end);
    effects::lemma_ran_within(w, w2, w3, end, "zfs"@, args);
    let n = w.calls.len() as int + 1;
    let names = text::lines_of((w.replies)(n as nat).stdout);
    assert(end.calls[n] == w2.calls[n]);
    assert forall|i: int| 0 <= i < names.len() implies walk::was_visited(
        w,
        end,
        #[trigger] names[i],
        "zboot:mirror"@,
        rows,
    ) by {
        walk::lemma_visited_within(w, w1, w2, end, names[i], "zboot:mirror"@, rows);
    }
    assert forall|k: int|
        0 <= k < rows.len() && (#[trigger] rows[k]).1 == x.old_ds implies effects::took(
        w,
        end,
        rows[k].0,
        "zboot:mirror"@,
        x.new_ds,
    ) by {
        walk::law_holders(rows, x.old_ds);
        assert(rows[k] == (rows[k].0, x.old_ds));
        assert(dss.contains(rows[k].0));
        let i = choose|i: int| 0 <= i < dss.len() && dss[i] == rows[k].0;
        law_renamed_is_pointed_at(w, x, i);
    }
    assert(all_pointers_follow(w, end, names, rows, x.old_ds, x.new_ds));
}

/// Where the pool boots what is renamed, it boots it under the new name.
pub proof fn law_bootfs_follows_a_renaming(w: World, x: Renaming)
    requires
        follow_bootfs_does(w, x).1 is Ok,
        !model::unset(x.old_ds),
    ensures
        ({
            let end = follow_bootfs_does(w, x).0;
            let pool = text::before(x.old_ds, '/');
            let n = w.calls.len() as int;
            &&& end.calls[n] == effects::pool_call(pool, "bootfs"@)
            &&& effects::booted_from(end, n, pool, x.old_ds) ==> effects::ran(
                w,
                end,
                "zpool"@,
                seq!["set"@, "bootfs="@ + x.new_ds, pool],
            )
        }),
{
    reveal(follow_bootfs_does);
    reveal(zfs_ops::pool_property_does);
    let end = follow_bootfs_does(w, x).0;
    let pool = text::before(x.old_ds, '/');
    let n = w.calls.len() as int;
    let w1 = zfs_ops::pool_bootfs_does(w, pool).0;
    let args = seq!["set"@, "bootfs="@ + x.new_ds, pool];
    effects::lemma_run_ran(w1, "zpool"@, args);
    assert(w1.calls[n] == effects::pool_call(pool, "bootfs"@));
    if effects::booted_from(end, n, pool, x.old_ds) {
        assert(sub::continues(w, w1));
        assert(sub::continues(end, end));
        effects::lemma_ran_within(w, w1, end, end, "zpool"@, args);
    }
}

/// A renaming that was asked for and succeeds renames the environment meant, to
/// the name that was asked for and on its own pool.
pub proof fn law_renamed_as_asked(w: World, be: Seq<char>, new_name: Seq<char>)
    requires
        run_does(w, be, new_name).1 is Ok,
    ensures
        ({
            let end = run_does(w, be, new_name).0;
            exists|old_ds: Seq<char>|
                effects::ran(
                    w,
                    end,
                    "zfs"@,
                    seq![
                        "rename"@,
                        old_ds,
                        #[trigger] model::be_dataset(text::before(old_ds, '/'), new_name),
                    ],
                ) && (be.contains('/') ==> old_ds == be)
        }),
{
    reveal(check_does);
    reveal(zfs_ops::dataset_exists_does);
    reveal(be_arg::resolve_be_dataset_does);
    reveal(zfs_ops::discover_booted_dataset_does);
    let end = run_does(w, be, new_name).0;
    let (w1, checked) = check_does(w, be, new_name);
    let x = checked->Ok_0;
    let new_ds = model::be_dataset(text::before(x.old_ds, '/'), new_name);
    assert(renaming_of(x.old_ds, x.new_ds) == Ok::<Renaming, Seq<char>>(x));
    assert(sub::continues(w, w1));
    law_pointers_follow_a_renaming(w1, x);
    assert(sub::continues(end, end));
    effects::lemma_ran_within(w, w1, end, end, "zfs"@, seq!["rename"@, x.old_ds, new_ds]);
}

/// A renaming is planned only to a name that is free.
pub proof fn law_taken_name_is_refused(w: World, be: Seq<char>, new_name: Seq<char>)
    requires
        be.contains('/'),
        check_does(w, be, new_name).1 is Ok,
    ensures
        ({
            let end = check_does(w, be, new_name).0;
            let n = w.calls.len() as int;
            &&& end.calls[n] == (Call::Run {
                prog: "zfs"@,
                args: seq!["list"@, "-H"@, "-o"@, "name"@, be],
            }) && effects::succeeded(w, n)
            &&& end.calls[n + 1] == (Call::Run {
                prog: "zfs"@,
                args: seq![
                    "list"@,
                    "-H"@,
                    "-o"@,
                    "name"@,
                    text::before(be, '/') + "/ROOT/"@ + new_name,
                ],
            }) && !effects::succeeded(w, n + 1)
        }),
{
    reveal(check_does);
    reveal(be_arg::resolve_be_dataset_does);
    reveal(zfs_ops::dataset_exists_does);
    let target = model::be_dataset(text::before(be, '/'), new_name);
    assert(target =~= text::before(be, '/') + "/ROOT/"@ + new_name);
}

} // verus!
