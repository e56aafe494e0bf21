//! Which pools are imported, and importing those that hold boot environments.
//!
//! A pool that could be imported but is not is invisible to `zfs list`.
//! [`ensure_zboot_root_pools_imported`] brings in every `zboot:role=root` pool,
//! read-only; a pool of another kind is given back at once.

use vstd::prelude::*;

use crate::effects;
use crate::error;
use crate::error::Error;
use crate::model;
use crate::sub;
use crate::sub::{Call, Runner, World};
use crate::text;
use crate::zfs_ops;

verus! {

/// The trimmed lines of a text that are not blank.
pub open spec fn full_lines(ls: Seq<Seq<char>>) -> Seq<Seq<char>>
    decreases ls.len(),
{
    if ls.len() == 0 {
        seq![]
    } else {
        let front = full_lines(ls.drop_last());
        let t = text::trimmed(ls.last());
        if t.len() == 0 {
            front
        } else {
            front.push(t)
        }
    }
}

/// The trimmed lines of a text that are not blank, without the first `n`.
pub fn nonblank_lines_from(s: &str, n: usize) -> (r: Vec<String>)
    ensures
        r.deep_view() == full_lines(
            if n <= text::lines_of(s@).len() {
                text::lines_of(s@).skip(n as int)
            } else {
                seq![]
            },
        ),
{
    let ls = text::lines(s);
    let ghost all = ls.deep_view();
    let mut out: Vec<String> = Vec::new();
    if n > ls.len() {
        assert(out.deep_view() =~= full_lines(seq![]));
        return out;
    }
    let mut i: usize = n;
    assert(out.deep_view() =~= full_lines(all.subrange(n as int, n as int)));
    while i < ls.len()
        invariant
            n <= i <= ls@.len(),
            all == ls.deep_view(),
            out.deep_view() == full_lines(all.subrange(n as int, i as int)),
        decreases ls@.len() - i,
    {
        proof {
            let next = all.subrange(n as int, i + 1);
            assert(next.drop_last() =~= all.subrange(n as int, i as int));
            assert(next.last() == ls@[i as int]@);
        }
        let t: &str = text::trim(ls[i]);
        if !t.is_empty() {
            text::push_text(&mut out, t);
        }
        i = i + 1;
    }
    assert(all.subrange(n as int, i as int) =~= all.skip(n as int));
    out
}

/// The trimmed lines of a text that are not blank.
pub fn nonblank_lines(s: &str) -> (r: Vec<String>)
    ensures
        r.deep_view() == full_lines(text::lines_of(s@)),
{
    assert(text::lines_of(s@).skip(0) =~= text::lines_of(s@));
    nonblank_lines_from(s, 0)
}

/// Lists the imported pools. An exit code other than 0 only says that there is
/// none.
#[verifier::opaque]
pub open spec fn currently_imported_does(w: World) -> (World, Result<Seq<Seq<char>>, Seq<char>>) {
    (
        w.run("zpool"@, seq!["list"@, "-H"@, "-o"@, "name"@]),
        match w.ran() {
            Err(m) => Err(error::within("spawn `zpool list`"@, m)),
            Ok(out) => Ok(full_lines(text::lines_of(out.stdout))),
        },
    )
}

/// Names of the pools that are imported.
pub fn currently_imported<R: Runner>(r: &mut R) -> (res: Result<Vec<String>, Error>)
    ensures
        sub::did(final(r).world(), res) == currently_imported_does(old(r).world()),
{
    proof {
        reveal(currently_imported_does);
    }
    let args = text::argv4("list", "-H", "-o", "name");
    match r.run("zpool", args.as_slice()) {
        Err(e) => Err(e.context("spawn `zpool list`")),
        Ok(out) => Ok(nonblank_lines(out.stdout.as_str())),
    }
}

/// Looks whether a pool is imported.
pub open spec fn is_pool_imported_does(w: World, pool: Seq<char>) -> (World, Result<
    bool,
    Seq<char>,
>) {
    let (w1, names) = currently_imported_does(w);
    (
        w1,
        match names {
            Err(m) => Err(m),
            Ok(ns) => Ok(ns.contains(pool)),
        },
    )
}

/// True iff `pool` is imported.
pub fn is_pool_imported<R: Runner>(r: &mut R, pool: &str) -> (res: Result<bool, Error>)
    ensures
        sub::did(final(r).world(), res) == is_pool_imported_does(old(r).world(), pool@),
{
    match currently_imported(r) {
        Err(e) => Err(e),
        Ok(ns) => Ok(text::any_eq(&ns, pool)),
    }
}

/// [`is_pool_imported`], with a failure read as not.
pub fn seems_imported<R: Runner>(r: &mut R, pool: &str) -> (res: bool)
    ensures
        final(r).world() == is_pool_imported_does(old(r).world(), pool@).0,
        res == zfs_ops::exists_or_not(is_pool_imported_does(old(r).world(), pool@).1),
{
    match is_pool_imported(r, pool) {
        Ok(b) => b,
        Err(_) => false,
    }
}

/// Reads the pool's `readonly` property.
#[verifier::opaque]
pub open spec fn pool_readonly_does(w: World, pool: Seq<char>) -> (World, Result<bool, Seq<char>>) {
    (
        w.run("zpool"@, seq!["get"@, "-Hp"@, "-o"@, "value"@, "readonly"@, pool]),
        match w.ran() {
            Err(m) => Err(error::within("spawn `zpool get readonly`"@, m)),
            Ok(out) => if out.rc != 0 {
                Err("zpool get readonly "@ + pool + ": rc="@ + zfs_ops::rc_text(out.rc))
            } else {
                Ok(text::trimmed(out.stdout) == "on"@)
            },
        },
    )
}

fn pool_readonly<R: Runner>(r: &mut R, pool: &str) -> (res: Result<bool, Error>)
    ensures
        sub::did(final(r).world(), res) == pool_readonly_does(old(r).world(), pool@),
{
    proof {
        reveal(pool_readonly_does);
    }
    let args = text::argv6("get", "-Hp", "-o", "value", "readonly", pool);
    match r.run("zpool", args.as_slice()) {
        Err(e) => Err(e.context("spawn `zpool get readonly`")),
        Ok(out) => if out.rc != 0 {
            let rc: String = zfs_ops::rc_shown(out.rc);
            Err(Error::from_text(text::cat4("zpool get readonly ", pool, ": rc=", rc.as_str())))
        } else {
            Ok(text::eq(text::trim(out.stdout.as_str()), "on"))
        },
    }
}

/// A command of which only the success counts; what it prints, the operator
/// sees.
#[verifier::opaque]
pub open spec fn must_does(
    w: World,
    args: Seq<Seq<char>>,
    doing: Seq<char>,
    failed: Seq<char>,
) -> (World, Result<(), Seq<char>>) {
    (
        w.after(Call::Attend { prog: "zpool"@, args }),
        match w.code() {
            Err(m) => Err(error::within(doing, m)),
            Ok(rc) => if rc == 0 {
                Ok(())
            } else {
                Err(failed)
            },
        },
    )
}

fn must<R: Runner>(r: &mut R, args: &[&str], doing: &str, failed: &str) -> (res: Result<(), Error>)
    ensures
        sub::did(final(r).world(), res) == must_does(
            old(r).world(),
            args.deep_view(),
            doing@,
            failed@,
        ),
{
    proof {
        reveal(must_does);
    }
    match r.attend("zpool", args) {
        Err(e) => Err(e.context(doing)),
        Ok(rc) => if rc == 0 {
            Ok(())
        } else {
            Err(Error::new(failed))
        },
    }
}

/// Imports a pool writable: nothing is done where it is so already, and one
/// that is imported read-only is exported first.
#[verifier::opaque]
pub open spec fn ensure_rw_does(w: World, pool: Seq<char>) -> (World, Result<(), Seq<char>>) {
    let (w1, there) = is_pool_imported_does(w, pool);
    match there {
        Err(m) => (w1, Err(m)),
        Ok(imported) => {
            let (w2, ro) = if imported {
                pool_readonly_does(w1, pool)
            } else {
                (w1, Ok(false))
            };
            match ro {
                Err(m) => (w2, Err(m)),
                Ok(readonly) => if imported && !readonly {
                    (w2, Ok(()))
                } else {
                    let (w3, out) = if imported {
                        must_does(
                            w2,
                            seq!["export"@, pool],
                            "export "@ + pool + " to clear readonly"@,
                            "zpool export "@ + pool + " failed"@,
                        )
                    } else {
                        (w2, Ok(()))
                    };
                    if out is Err {
                        (w3, out)
                    } else {
                        must_does(
                            w3,
                            seq!["import"@, "-N"@, "-f"@, pool],
                            "import "@ + pool + " (rw)"@,
                            "zpool import -N -f "@ + pool + " failed"@,
                        )
                    }
                },
            }
        },
    }
}

/// Sees to it that `pool` is imported and writable.
pub fn ensure_pool_imported_rw<R: Runner>(r: &mut R, pool: &str) -> (res: Result<(), Error>)
    ensures
        sub::did(final(r).world(), res) == ensure_rw_does(old(r).world(), pool@),
{
    proof {
        reveal(ensure_rw_does);
    }
    let imported: bool = match is_pool_imported(r, pool) {
        Err(e) => return Err(e),
        Ok(b) => b,
    };
    if imported {
        match pool_readonly(r, pool) {
            Err(e) => return Err(e),
            Ok(ro) => if !ro {
                return Ok(());
            },
        }
        let args = text::argv2("export", pool);
        let doing: String = text::cat3("export ", pool, " to clear readonly");
        let failed: String = text::cat3("zpool export ", pool, " failed");
        if let Err(e) = must(r, args.as_slice(), doing.as_str(), failed.as_str()) {
            return Err(e);
        }
    }
    let args = text::argv4("import", "-N", "-f", pool);
    let doing: String = text::cat3("import ", pool, " (rw)");
    let failed: String = text::cat3("zpool import -N -f ", pool, " failed");
    must(r, args.as_slice(), doing.as_str(), failed.as_str())
}

/// A pool that is imported and writable stays as it is: two questions, and no
/// command that changes anything.
pub proof fn law_rw_pool_is_left_alone(w: World, pool: Seq<char>)
    requires
        is_pool_imported_does(w, pool).1 == Ok::<bool, Seq<char>>(true),
        pool_readonly_does(is_pool_imported_does(w, pool).0, pool).1 == Ok::<bool, Seq<char>>(
            false,
        ),
    ensures
        ensure_rw_does(w, pool).1 is Ok,
        sub::only_looked(w, ensure_rw_does(w, pool).0),
{
    reveal(ensure_rw_does);
    reveal(currently_imported_does);
    reveal(pool_readonly_does);
}

/// The names behind `pool: ` at the start of a line, in order.
pub open spec fn announced_pools(ls: Seq<Seq<char>>) -> Seq<Seq<char>>
    decreases ls.len(),
{
    if ls.len() == 0 {
        seq![]
    } else {
        let front = announced_pools(ls.drop_last());
        let t = text::trim_front(ls.last());
        if text::begins(t, "pool: "@) {
            front.push(t.skip("pool: "@.len() as int))
        } else {
            front
        }
    }
}

/// Reads what `zpool import` prints of the pools that could be imported.
pub fn parse_importable(s: &str) -> (r: Vec<String>)
    ensures
        r.deep_view() == announced_pools(text::lines_of(s@)),
{
    let ls = text::lines(s);
    let mut out: Vec<String> = Vec::new();
    let mut i: usize = 0;
    assert(out.deep_view() =~= announced_pools(ls.deep_view().take(0)));
    while i < ls.len()
        invariant
            i <= ls@.len(),
            ls.deep_view() == text::lines_of(s@),
            out.deep_view() == announced_pools(ls.deep_view().take(i as int)),
        decreases ls@.len() - i,
    {
        proof {
            let next = ls.deep_view().take(i + 1);
            assert(next.drop_last() =~= ls.deep_view().take(i as int));
            assert(next.last() == ls@[i as int]@);
        }
        if let Some(name) = text::strip_prefix(text::trim_start(ls[i]), "pool: ") {
            text::push_text(&mut out, name);
        }
        i = i + 1;
    }
    assert(ls.deep_view().take(i as int) =~= ls.deep_view());
    out
}

/// Scans for pools that could be imported.
#[verifier::opaque]
pub open spec fn importable_pools_does(w: World) -> (World, Result<Seq<Seq<char>>, Seq<char>>) {
    (
        w.run("zpool"@, seq!["import"@, "-d"@, "/dev"@]),
        match w.ran() {
            Err(m) => Err(error::within("spawn `zpool import -d /dev`"@, m)),
            Ok(out) => Ok(announced_pools(text::lines_of(out.stdout))),
        },
    )
}

/// Names of the pools on `/dev` that could be imported. An exit code other
/// than 0 only says that there is none.
pub fn importable_pools<R: Runner>(r: &mut R) -> (res: Result<Vec<String>, Error>)
    ensures
        sub::did(final(r).world(), res) == importable_pools_does(old(r).world()),
{
    proof {
        reveal(importable_pools_does);
    }
    let args = text::argv3("import", "-d", "/dev");
    match r.run("zpool", args.as_slice()) {
        Err(e) => Err(e.context("spawn `zpool import -d /dev`")),
        Ok(out) => Ok(parse_importable(out.stdout.as_str())),
    }
}

/// Reads the pool's role, if it has one.
#[verifier::opaque]
pub open spec fn read_zboot_role_does(w: World, pool: Seq<char>) -> (World, Option<Seq<char>>) {
    (
        w.run("zpool"@, seq!["get"@, "-Hp"@, "-o"@, "value"@, "zboot:role"@, pool]),
        match w.ran() {
            Err(_) => None,
            Ok(out) => if out.rc != 0 || model::unset(text::trimmed(out.stdout)) {
                None
            } else {
                Some(text::trimmed(out.stdout))
            },
        },
    )
}

fn read_zboot_role<R: Runner>(r: &mut R, pool: &str) -> (res: Option<String>)
    ensures
        (final(r).world(), res.deep_view()) == read_zboot_role_does(old(r).world(), pool@),
{
    proof {
        reveal(read_zboot_role_does);
    }
    let args = text::argv6("get", "-Hp", "-o", "value", "zboot:role", pool);
    match r.run("zpool", args.as_slice()) {
        Err(_) => None,
        Ok(out) => {
            let value: &str = text::trim(out.stdout.as_str());
            if out.rc != 0 || model::is_unset(value) {
                None
            } else {
                Some(value.to_owned())
            }
        },
    }
}

/// Tries one pool: imports it read-only and keeps it if its role is `root`.
#[verifier::opaque]
pub open spec fn try_pool_does(w: World, pool: Seq<char>) -> (World, bool) {
    let w1 = w.run("zpool"@, seq!["import"@, "-N"@, "-f"@, "-o"@, "readonly=on"@, pool]);
    match w.ran() {
        Err(_) => (w1, false),
        Ok(out) => if out.rc != 0 {
            let err = text::trimmed(out.stderr);
            (
                if err.len() == 0 {
                    w1
                } else {
                    w1.say("[!] auto-import of `"@ + pool + "` failed: "@ + err)
                },
                false,
            )
        } else {
            let (w2, role) = read_zboot_role_does(w1, pool);
            if role == Some("root"@) {
                (
                    w2.say("[ ] auto-imported `"@ + pool + "` (readonly, zboot:role=root)"@),
                    true,
                )
            } else {
                (
                    w2.after(Call::Attend { prog: "zpool"@, args: seq!["export"@, pool] }),
                    false,
                )
            }
        },
    }
}

fn try_pool<R: Runner>(r: &mut R, pool: &str) -> (res: bool)
    ensures
        (final(r).world(), res) == try_pool_does(old(r).world(), pool@),
{
    proof {
        reveal(try_pool_does);
    }
    let args = text::argv6("import", "-N", "-f", "-o", "readonly=on", pool);
    match r.run("zpool", args.as_slice()) {
        Err(_) => false,
        Ok(out) => if out.rc != 0 {
            let err: &str = text::trim(out.stderr.as_str());
            if !err.is_empty() {
                let line: String = text::cat4("[!] auto-import of `", pool, "` failed: ", err);
                r.say(line.as_str());
            }
            false
        } else {
            let role = read_zboot_role(r, pool);
            if text::opt_is(&role, "root") {
                let line: String = text::cat3(
                    "[ ] auto-imported `",
                    pool,
                    "` (readonly, zboot:role=root)",
                );
                r.say(line.as_str());
                true
            } else {
                let args = text::argv2("export", pool);
                let _ = r.attend("zpool", args.as_slice());
                false
            }
        },
    }
}

/// What a scan has come to.
pub struct Scan {
    pub w: World,
    /// The names met so far.
    pub seen: Seq<Seq<char>>,
    /// The pools imported so far.
    pub imported: Seq<Seq<char>>,
}

/// Goes through the candidates in order. One that is imported already is
/// passed over; of those with the same name only the first is tried.
pub open spec fn scan_does(w: World, already: Seq<Seq<char>>, cands: Seq<Seq<char>>) -> Scan
    decreases cands.len(),
{
    if cands.len() == 0 {
        Scan { w, seen: seq![], imported: seq![] }
    } else {
        let s = scan_does(w, already, cands.drop_last());
        let pool = cands.last();
        if already.contains(pool) {
            s
        } else if s.seen.contains(pool) {
            Scan {
                w: s.w.say(
                    "[!] skipping `"@ + pool
                        + "` — multiple importable pools share this name; import by GUID with `zpool import <guid>` to disambiguate"@,
                ),
                ..s
            }
        } else {
            let (w1, kept) = try_pool_does(s.w, pool);
            Scan {
                w: w1,
                seen: s.seen.push(pool),
                imported: if kept {
                    s.imported.push(pool)
                } else {
                    s.imported
                },
            }
        }
    }
}

/// A list, or none where it could not be had.
pub open spec fn or_none(r: Result<Seq<Seq<char>>, Seq<char>>) -> Seq<Seq<char>> {
    match r {
        Ok(s) => s,
        Err(_) => seq![],
    }
}

/// Imports every root pool that is not imported yet.
#[verifier::opaque]
pub open spec fn ensure_root_pools_does(w: World) -> (World, Seq<Seq<char>>) {
    let (w1, already) = currently_imported_does(w);
    let (w2, cands) = importable_pools_does(w1);
    let s = scan_does(w2, or_none(already), or_none(cands));
    (s.w, s.imported)
}

/// Imports, read-only, every `zboot:role=root` pool on the local disks that is
/// not imported yet; returns the names of those it imported. A pool with
/// another role is exported again.
pub fn ensure_zboot_root_pools_imported<R: Runner>(r: &mut R) -> (res: Result<Vec<String>, Error>)
    ensures
        final(r).world() == ensure_root_pools_does(old(r).world()).0,
        res matches Ok(v) && v.deep_view() == ensure_root_pools_does(old(r).world()).1,
{
    proof {
        reveal(ensure_root_pools_does);
    }
    let already: Vec<String> = match currently_imported(r) {
        Ok(v) => v,
        Err(_) => Vec::new(),
    };
    let cands: Vec<String> = match importable_pools(r) {
        Ok(v) => v,
        Err(_) => Vec::new(),
    };
    proof {
        reveal(currently_imported_does);
        reveal(importable_pools_does);
        let (w1, a) = currently_imported_does(old(r).world());
        assert(already.deep_view() =~= or_none(a));
        assert(cands.deep_view() =~= or_none(importable_pools_does(w1).1));
    }
    let ghost w2 = r.world();
    let mut seen: Vec<String> = Vec::new();
    let mut imported: Vec<String> = Vec::new();
    let mut i: usize = 0;
    assert(seen.deep_view() =~= seq![]);
    assert(imported.deep_view() =~= seq![]);
    while i < cands.len()
        invariant
            i <= cands@.len(),
            (Scan {
                w: r.world(),
                seen: seen.deep_view(),
                imported: imported.deep_view(),
            }) == scan_does(w2, already.deep_view(), cands.deep_view().take(i as int)),
        decreases cands@.len() - i,
    {
        proof {
            let next = cands.deep_view().take(i + 1);
            assert(next.drop_last() =~= cands.deep_view().take(i as int));
            assert(next.last() == cands@[i as int]@);
        }
        let pool: &str = cands[i].as_str();
        if !text::any_eq(&already, pool) {
            if text::any_eq(&seen, pool) {
                let line: String = text::cat3(
                    "[!] skipping `",
                    pool,
                    "` — multiple importable pools share this name; import by GUID with `zpool import <guid>` to disambiguate",
                );
                r.say(line.as_str());
            } else {
                text::push_text(&mut seen, pool);
                if try_pool(r, pool) {
                    text::push_text(&mut imported, pool);
                }
            }
        }
        i = i + 1;
    }
    assert(cands.deep_view().take(i as int) =~= cands.deep_view());
    Ok(imported)
}

/// What the scan reports as imported was a candidate, and was not imported
/// before.
pub proof fn law_scan_imports_candidates(
    w: World,
    already: Seq<Seq<char>>,
    cands: Seq<Seq<char>>,
    pool: Seq<char>,
)
    requires
        scan_does(w, already, cands).imported.contains(pool),
    ensures
        cands.contains(pool),
        !already.contains(pool),
    decreases cands.len(),
{
    if cands.len() > 0 {
        let s = scan_does(w, already, cands.drop_last());
        let t = scan_does(w, already, cands);
        if s.imported.contains(pool) {
            law_scan_imports_candidates(w, already, cands.drop_last(), pool);
            let i = choose|i: int| 0 <= i < cands.drop_last().len() && cands.drop_last()[i] == pool;
            assert(cands[i] == pool);
        } else {
            let i = choose|i: int| 0 <= i < t.imported.len() && t.imported[i] == pool;
            assert(t.imported != s.imported);
            assert(i == s.imported.len()) by {
                if i < s.imported.len() {
                    assert(s.imported[i] == pool);
                }
            }
            assert(cands[cands.len() - 1] == pool);
        }
    }
}

/// Every line that holds more than blanks is kept, trimmed.
pub proof fn law_full_lines(ls: Seq<Seq<char>>)
    ensures
        forall|x: Seq<char>| #[trigger] full_lines(ls).contains(x) <==> exists|i: int| 0 <= i < ls.len() && x == text::trimmed((#[trigger] ls[i])) && x.len() > 0,
    decreases ls.len(),
{
    if ls.len() > 0 {
        let front = ls.drop_last();
        law_full_lines(front);
        let before = full_lines(front);
        let all = full_lines(ls);
        assert forall|x: Seq<char>| #[trigger] all.contains(x) <==> exists|i: int| 0 <= i < ls.len() && x == text::trimmed((#[trigger] ls[i])) && x.len() > 0 by {
            if all.contains(x) {
                let k = choose|k: int| 0 <= k < all.len() && all[k] == x;
                if k < before.len() {
                    assert(before[k] == x);
                    assert(before.contains(x));
                    let i = choose|i: int| 0 <= i < front.len() && x == text::trimmed((#[trigger] front[i])) && x.len() > 0;
                    assert(ls[i] == front[i]);
                } else {
                    assert(x == text::trimmed(ls[ls.len() - 1]) && x.len() > 0);
                }
            }
            if exists|i: int| 0 <= i < ls.len() && x == text::trimmed((#[trigger] ls[i])) && x.len() > 0 {
                let i = choose|i: int| 0 <= i < ls.len() && x == text::trimmed((#[trigger] ls[i])) && x.len() > 0;
                if i < front.len() {
                    assert(front[i] == ls[i]);
                    assert(before.contains(x));
                    let k = choose|k: int| 0 <= k < before.len() && before[k] == x;
                    assert(all[k] == x);
                } else {
                    assert(ls[i] == ls.last());
                    assert(all[all.len() - 1] == x);
                }
            }
        }
    }
}

/// Every pool that a line announces is a candidate.
pub proof fn law_every_announced_pool(ls: Seq<Seq<char>>)
    ensures
        forall|x: Seq<char>| #[trigger] announced_pools(ls).contains(x) <==> exists|i: int| 0 <= i < ls.len() && text::begins(text::trim_front((#[trigger] ls[i])), "pool: "@) && x == text::trim_front((#[trigger] ls[i])).skip("pool: "@.len() as int),
    decreases ls.len(),
{
    if ls.len() > 0 {
        let front = ls.drop_last();
        law_every_announced_pool(front);
        let before = announced_pools(front);
        let all = announced_pools(ls);
        assert forall|x: Seq<char>| #[trigger] all.contains(x) <==> exists|i: int| 0 <= i < ls.len() && text::begins(text::trim_front((#[trigger] ls[i])), "pool: "@) && x == text::trim_front((#[trigger] ls[i])).skip("pool: "@.len() as int) by {
            if all.contains(x) {
                let k = choose|k: int| 0 <= k < all.len() && all[k] == x;
                if k < before.len() {
                    assert(before[k] == x);
                    assert(before.contains(x));
                    let i = choose|i: int| 0 <= i < front.len() && text::begins(text::trim_front((#[trigger] front[i])), "pool: "@) && x == text::trim_front((#[trigger] front[i])).skip("pool: "@.len() as int);
                    assert(ls[i] == front[i]);
                } else {
                    assert(text::begins(text::trim_front(ls[ls.len() - 1]), "pool: "@) && x == text::trim_front(ls[ls.len() - 1]).skip("pool: "@.len() as int));
                }
            }
            if exists|i: int| 0 <= i < ls.len() && text::begins(text::trim_front((#[trigger] ls[i])), "pool: "@) && x == text::trim_front((#[trigger] ls[i])).skip("pool: "@.len() as int) {
                let i = choose|i: int| 0 <= i < ls.len() && text::begins(text::trim_front((#[trigger] ls[i])), "pool: "@) && x == text::trim_front((#[trigger] ls[i])).skip("pool: "@.len() as int);
                if i < front.len() {
                    assert(front[i] == ls[i]);
                    assert(before.contains(x));
                    let k = choose|k: int| 0 <= k < before.len() && before[k] == x;
                    assert(all[k] == x);
                } else {
                    assert(ls[i] == ls.last());
                    assert(all[all.len() - 1] == x);
                }
            }
        }
    }
}

/// The call that imports a pool for a look at it.
pub open spec fn importing(pool: Seq<char>) -> Call {
    Call::Run {
        prog: "zpool"@,
        args: seq!["import"@, "-N"@, "-f"@, "-o"@, "readonly=on"@, pool],
    }
}

/// A pool that could be imported stays where its role is that of a root pool, and
/// else is exported again; one that could not does not count.
pub proof fn law_only_root_pools_stay(w: World, pool: Seq<char>)
    ensures
        ({
            let (end, kept) = try_pool_does(w, pool);
            let n = w.calls.len();
            &&& sub::continues(w, end)
            &&& n < end.calls.len()
            &&& end.calls[n as int] == importing(pool)
            &&& kept <==> effects::succeeded(w, n as int) && effects::read_as(
                w,
                n as int + 1,
                "root"@,
            )
            &&& effects::succeeded(w, n as int) ==> end.calls[n as int + 1] == (Call::Run {
                prog: "zpool"@,
                args: seq!["get"@, "-Hp"@, "-o"@, "value"@, "zboot:role"@, pool],
            })
            &&& effects::succeeded(w, n as int) && !kept ==> sub::called(
                w,
                end,
                Call::Attend { prog: "zpool"@, args: seq!["export"@, pool] },
            )
        }),
{
    reveal(try_pool_does);
    reveal(read_zboot_role_does);
    reveal_strlit("root");
    reveal_strlit("-");
    reveal_strlit("");
    reveal_strlit("none");
    let (end, kept) = try_pool_does(w, pool);
    let n = w.calls.len() as int;
    assert("root"@.len() == 4);
    assert("root"@[0] == 'r');
    assert(!model::unset("root"@));
    if effects::succeeded(w, n) && !kept {
        assert(end.calls[n + 2] == Call::Attend { prog: "zpool"@, args: seq!["export"@, pool] });
    }
}

/// Every candidate that is not imported yet is tried.
pub proof fn law_every_candidate_is_tried(
    w: World,
    already: Seq<Seq<char>>,
    cands: Seq<Seq<char>>,
)
    ensures
        ({
            let s = scan_does(w, already, cands);
            &&& sub::continues(w, s.w)
            &&& forall|i: int|
                0 <= i < cands.len() && !already.contains(#[trigger] cands[i])
                    ==> s.seen.contains(cands[i])
            &&& forall|p: Seq<char>|
                s.seen.contains(p) ==> #[trigger] sub::called(w, s.w, importing(p))
        }),
    decreases cands.len(),
{
    assert(sub::continues(w, w));
    if cands.len() > 0 {
        let front = cands.drop_last();
        law_every_candidate_is_tried(w, already, front);
        let before = scan_does(w, already, front);
        let s = scan_does(w, already, cands);
        let pool = cands.last();
        law_only_root_pools_stay(before.w, pool);
        assert(sub::continues(before.w, s.w));
        effects::lemma_continues(w, before.w, s.w);
        assert forall|i: int|
            0 <= i < cands.len() && !already.contains(#[trigger] cands[i]) implies s.seen.contains(
            cands[i],
        ) by {
            if i < front.len() {
                assert(front[i] == cands[i]);
                assert(before.seen.contains(front[i]));
                let k = choose|k: int| 0 <= k < before.seen.len() && before.seen[k] == cands[i];
                assert(s.seen[k] == cands[i]);
            } else if !before.seen.contains(pool) {
                assert(s.seen[s.seen.len() - 1] == pool);
            }
        }
        assert forall|p: Seq<char>| s.seen.contains(p) implies #[trigger] sub::called(
            w,
            s.w,
            importing(p),
        ) by {
            assert(sub::continues(w, w));
            if before.seen.contains(p) {
                assert(sub::called(w, before.w, importing(p)));
                effects::lemma_called_within(w, w, before.w, s.w, importing(p));
            } else {
                let k = choose|k: int| 0 <= k < s.seen.len() && s.seen[k] == p;
                if k < before.seen.len() {
                    assert(before.seen[k] == p);
                }
                assert(p == pool);
                let n = before.w.calls.len() as int;
                assert(s.w.calls[n] == importing(p));
            }
        }
    }
}

/// Every pool that is announced and not imported yet is tried.
pub proof fn law_every_announced_pool_is_tried(w: World)
    requires
        effects::succeeded(w, w.calls.len() as int),
        effects::succeeded(w, w.calls.len() as int + 1),
    ensures
        ({
            let end = ensure_root_pools_does(w).0;
            let n = w.calls.len();
            let there = full_lines(text::lines_of((w.replies)(n).stdout));
            let found = announced_pools(text::lines_of((w.replies)(n + 1).stdout));
            &&& end.calls[n as int] == (Call::Run {
                prog: "zpool"@,
                args: seq!["list"@, "-H"@, "-o"@, "name"@],
            })
            &&& end.calls[n as int + 1] == (Call::Run {
                prog: "zpool"@,
                args: seq!["import"@, "-d"@, "/dev"@],
            })
            &&& forall|i: int|
                0 <= i < found.len() && !there.contains(#[trigger] found[i]) ==> sub::called(
                    w,
                    end,
                    importing(found[i]),
                )
        }),
{
    reveal(ensure_root_pools_does);
    reveal(currently_imported_does);
    reveal(importable_pools_does);
    let end = ensure_root_pools_does(w).0;
    let n = w.calls.len();
    let there = full_lines(text::lines_of((w.replies)(n).stdout));
    let found = announced_pools(text::lines_of((w.replies)(n + 1).stdout));
    let w2 = importable_pools_does(currently_imported_does(w).0).0;
    law_every_candidate_is_tried(w2, there, found);
    assert(end == scan_does(w2, there, found).w);
    assert(end.calls[n as int] == w2.calls[n as int]);
    assert(end.calls[n as int + 1] == w2.calls[n as int + 1]);
    assert(sub::continues(w, w2));
    assert(sub::continues(end, end));
    assert forall|i: int|
        0 <= i < found.len() && !there.contains(#[trigger] found[i]) implies sub::called(
        w,
        end,
        importing(found[i]),
    ) by {
        assert(sub::called(w2, end, importing(found[i])));
        effects::lemma_called_within(w, w2, end, end, importing(found[i]));
    }
}

/// A pool that has to be writable and is imported read-only is closed and opened
/// again, and one that is not imported is opened.
pub proof fn law_pool_is_made_writable(w: World, pool: Seq<char>)
    requires
        ensure_rw_does(w, pool).1 is Ok,
    ensures
        ({
            let end = ensure_rw_does(w, pool).0;
            let n = w.calls.len() as int;
            let there = full_lines(text::lines_of(w.reply().stdout)).contains(pool);
            let export = Call::Attend { prog: "zpool"@, args: seq!["export"@, pool] };
            let import = Call::Attend {
                prog: "zpool"@,
                args: seq!["import"@, "-N"@, "-f"@, pool],
            };
            &&& sub::continues(w, end)
            &&& end.calls[n] == (Call::Run {
                prog: "zpool"@,
                args: seq!["list"@, "-H"@, "-o"@, "name"@],
            })
            &&& !there ==> effects::came_off(w, end, import)
            &&& there && pool_readonly_does(currently_imported_does(w).0, pool).1 == Ok::<
                bool,
                Seq<char>,
            >(true) ==> effects::came_off(w, end, export) && effects::came_off(w, end, import)
        }),
{
    reveal(ensure_rw_does);
    reveal(currently_imported_does);
    reveal(pool_readonly_does);
    reveal(must_does);
    let end = ensure_rw_does(w, pool).0;
    let m = end.calls.len() as int;
    let there = full_lines(text::lines_of(w.reply().stdout)).contains(pool);
    let ro = pool_readonly_does(currently_imported_does(w).0, pool).1;
    if !there || ro == Ok::<bool, Seq<char>>(true) {
        assert(end.calls[m - 1] == Call::Attend {
            prog: "zpool"@,
            args: seq!["import"@, "-N"@, "-f"@, pool],
        });
        assert(effects::went_well(end, m - 1));
        if there {
            assert(end.calls[m - 2] == Call::Attend {
                prog: "zpool"@,
                args: seq!["export"@, pool],
            });
            assert(effects::went_well(end, m - 2));
        }
    }
}

} // verus!
