//! A walk over all file systems of the imported root pools.

use vstd::prelude::*;

use crate::effects;
use crate::error::Error;
use crate::sub;
use crate::sub::{Call, Runner, World};
use crate::text;
use crate::zfs_ops;
use crate::zfs_ops::Snaps;

verus! {

/// Reads a property of every file system of those of the pools that are root
/// pools, in their order: names with values.
pub open spec fn walk_does(w: World, names: Seq<Seq<char>>, prop: Seq<char>) -> (World, Result<
    Snaps,
    Seq<char>,
>)
    decreases names.len(),
{
    if names.len() == 0 {
        (w, Ok(seq![]))
    } else {
        let (w1, role) = zfs_ops::pool_property_does(w, names[0], "zboot:role"@);
        if role != Ok::<Seq<char>, Seq<char>>("root"@) {
            walk_does(w1, names.drop_first(), prop)
        } else {
            let (w2, got) = sub::capture_does(
                w1,
                "zfs"@,
                seq![
                    "get"@,
                    "-Hp"@,
                    "-r"@,
                    "-t"@,
                    "filesystem"@,
                    "-o"@,
                    "name,value"@,
                    prop,
                    names[0],
                ],
            );
            match got {
                Err(m) => (w2, Err(m)),
                Ok(t) => {
                    let (w3, rest) = walk_does(w2, names.drop_first(), prop);
                    (
                        w3,
                        match rest {
                            Err(m) => Err(m),
                            Ok(rows) => Ok(zfs_ops::snap_rows(text::lines_of(t)) + rows),
                        },
                    )
                },
            }
        }
    }
}

fn walk_from<'a, R: Runner>(r: &mut R, names: &Vec<&'a str>, i: usize, prop: &str) -> (res: Result<
    Vec<(String, String)>,
    Error,
>)
    requires
        i <= names@.len(),
    ensures
        sub::did(final(r).world(), res) == walk_does(
            old(r).world(),
            names.deep_view().skip(i as int),
            prop@,
        ),
    decreases names@.len() - i,
{
    if i == names.len() {
        let none: Vec<(String, String)> = Vec::new();
        assert(none.deep_view() =~= seq![]);
        return Ok(none);
    }
    proof {
        assert(names.deep_view().skip(i as int)[0] == names@[i as int]@);
        assert(names.deep_view().skip(i as int).drop_first() =~= names.deep_view().skip(i + 1));
    }
    let is_root: bool = match zfs_ops::pool_property(r, names[i], "zboot:role") {
        Ok(v) => text::eq(v.as_str(), "root"),
        Err(_) => false,
    };
    if !is_root {
        return walk_from(r, names, i + 1, prop);
    }
    let args = text::argv9(
        "get",
        "-Hp",
        "-r",
        "-t",
        "filesystem",
        "-o",
        "name,value",
        prop,
        names[i],
    );
    let got: String = match sub::zfs_capture(r, args.as_slice()) {
        Err(e) => return Err(e),
        Ok(t) => t,
    };
    let mut rows = zfs_ops::parse_snapshots(got.as_str());
    match walk_from(r, names, i + 1, prop) {
        Err(e) => Err(e),
        Ok(rest) => {
            let ghost a = rows.deep_view();
            let ghost b = rest.deep_view();
            let ghost (x, y) = (rows@, rest@);
            let mut rest = rest;
            rows.append(&mut rest);
            proof {
                assert(rows@ == x + y);
                assert(rows.deep_view() =~= a + b);
            }
            Ok(rows)
        },
    }
}

/// Reads a property of every file system of the imported root pools.
#[verifier::opaque]
pub open spec fn property_table_does(w: World, prop: Seq<char>) -> (World, Result<
    Snaps,
    Seq<char>,
>) {
    let (w1, listed) = sub::capture_does(w, "zpool"@, seq!["list"@, "-Hp"@, "-o"@, "name"@]);
    match listed {
        Err(m) => (w1, Err(m)),
        Ok(t) => walk_does(w1, text::lines_of(t), prop),
    }
}

/// Every file system of the imported root pools, with a property of it.
pub fn property_table<R: Runner>(r: &mut R, prop: &str) -> (res: Result<
    Vec<(String, String)>,
    Error,
>)
    ensures
        sub::did(final(r).world(), res) == property_table_does(old(r).world(), prop@),
{
    proof {
        reveal(property_table_does);
    }
    let args = text::argv4("list", "-Hp", "-o", "name");
    let listed: String = match sub::zpool_capture(r, args.as_slice()) {
        Err(e) => return Err(e),
        Ok(t) => t,
    };
    let names = text::lines(listed.as_str());
    assert(names.deep_view().skip(0) =~= names.deep_view());
    walk_from(r, &names, 0, prop)
}

/// The names in a table whose value is `value`, in its order.
pub open spec fn holders(rows: Snaps, value: Seq<char>) -> Seq<Seq<char>>
    decreases rows.len(),
{
    if rows.len() == 0 {
        seq![]
    } else {
        let front = holders(rows.drop_last(), value);
        if rows.last().1 == value {
            front.push(rows.last().0)
        } else {
            front
        }
    }
}

/// The names in a table whose value is `value`.
pub fn find_holders(rows: &Vec<(String, String)>, value: &str) -> (r: Vec<String>)
    ensures
        r.deep_view() == holders(rows.deep_view(), value@),
{
    let ghost all = rows.deep_view();
    let mut out: Vec<String> = Vec::new();
    let mut i: usize = 0;
    assert(out.deep_view() =~= holders(all.take(0), value@));
    while i < rows.len()
        invariant
            i <= rows@.len(),
            all == rows.deep_view(),
            out.deep_view() == holders(all.take(i as int), value@),
        decreases rows@.len() - i,
    {
        proof {
            assert(all.take(i + 1).drop_last() =~= all.take(i as int));
            assert(all.take(i + 1).last() == rows@[i as int].deep_view());
        }
        if text::eq(rows[i].1.as_str(), value) {
            text::push_text(&mut out, rows[i].0.as_str());
        }
        i = i + 1;
    }
    assert(all.take(i as int) =~= all);
    out
}

/// The walk changes nothing.
pub proof fn lemma_table_looks(w: World, prop: Seq<char>)
    ensures
        sub::only_looked(w, property_table_does(w, prop).0),
{
    reveal(property_table_does);
    let (w1, listed) = sub::capture_does(w, "zpool"@, seq!["list"@, "-Hp"@, "-o"@, "name"@]);
    if let Ok(t) = listed {
        lemma_walk_looks(w1, text::lines_of(t), prop);
    }
}

proof fn lemma_walk_looks(w: World, names: Seq<Seq<char>>, prop: Seq<char>)
    ensures
        sub::only_looked(w, walk_does(w, names, prop).0),
    decreases names.len(),
{
    if names.len() > 0 {
        zfs_ops::lemma_pool_property_looks(w, names[0], "zboot:role"@);
        let w1 = zfs_ops::pool_property_does(w, names[0], "zboot:role"@).0;
        lemma_walk_looks(w1, names.drop_first(), prop);
        let w2 = sub::capture_does(
            w1,
            "zfs"@,
            seq![
                "get"@,
                "-Hp"@,
                "-r"@,
                "-t"@,
                "filesystem"@,
                "-o"@,
                "name,value"@,
                prop,
                names[0],
            ],
        ).0;
        lemma_walk_looks(w2, names.drop_first(), prop);
    }
}

/// The holders of a value are the names of the rows that have it.
pub proof fn law_holders(rows: Snaps, value: Seq<char>)
    ensures
        forall|x: Seq<char>| #[trigger] holders(rows, value).contains(x) <==> exists|i: int| 0 <= i < rows.len() && (#[trigger] rows[i]) == (x, value),
    decreases rows.len(),
{
    if rows.len() > 0 {
        let front = rows.drop_last();
        law_holders(front, value);
        let before = holders(front, value);
        let all = holders(rows, value);
        assert forall|x: Seq<char>| #[trigger] all.contains(x) <==> exists|i: int| 0 <= i < rows.len() && (#[trigger] rows[i]) == (x, value) by {
            if all.contains(x) {
                let k = choose|k: int| 0 <= k < all.len() && all[k] == x;
                if k < before.len() {
                    assert(before[k] == x);
                    assert(before.contains(x));
                    let i = choose|i: int| 0 <= i < front.len() && (#[trigger] front[i]) == (x, value);
                    assert(rows[i] == front[i]);
                } else {
                    assert(rows[rows.len() - 1] == (x, value));
                }
            }
            if exists|i: int| 0 <= i < rows.len() && (#[trigger] rows[i]) == (x, value) {
                let i = choose|i: int| 0 <= i < rows.len() && (#[trigger] rows[i]) == (x, value);
                if i < front.len() {
                    assert(front[i] == rows[i]);
                    assert(before.contains(x));
                    let k = choose|k: int| 0 <= k < before.len() && before[k] == x;
                    assert(all[k] == x);
                } else {
                    assert(rows[i] == rows.last());
                    assert(all[all.len() - 1] == x);
                }
            }
        }
    }
}

/// The call that asks whether a pool is a root pool.
pub open spec fn role_call(pool: Seq<char>) -> Call {
    Call::Run {
        prog: "zpool"@,
        args: seq!["get"@, "-H"@, "-o"@, "value"@, "zboot:role"@, pool],
    }
}

/// The call that reads a property of every file system of a pool.
pub open spec fn table_call(pool: Seq<char>, prop: Seq<char>) -> Call {
    Call::Run {
        prog: "zfs"@,
        args: seq![
            "get"@,
            "-Hp"@,
            "-r"@,
            "-t"@,
            "filesystem"@,
            "-o"@,
            "name,value"@,
            prop,
            pool,
        ],
    }
}

/// The call of a number asks for the role of a pool; and where that is `root`,
/// the next reads the property of all its file systems, and the table holds
/// every row of it.
pub open spec fn visited(
    w: World,
    n: int,
    pool: Seq<char>,
    prop: Seq<char>,
    rows: Snaps,
) -> bool {
    &&& w.calls[n] == role_call(pool)
    &&& effects::read_as(w, n, "root"@) && (w.replies)(n as nat).garbled is None ==> {
        let told = zfs_ops::snap_rows(text::lines_of((w.replies)((n + 1) as nat).stdout));
        &&& n + 1 < w.calls.len()
        &&& w.calls[n + 1] == table_call(pool, prop)
        &&& effects::succeeded(w, n + 1)
        &&& forall|k: int| 0 <= k < told.len() ==> rows.contains(#[trigger] told[k])
    }
}

/// Between `a` and `b` a pool was visited.
pub open spec fn was_visited(
    a: World,
    b: World,
    pool: Seq<char>,
    prop: Seq<char>,
    rows: Snaps,
) -> bool {
    exists|n: int|
        a.calls.len() <= n < b.calls.len() && #[trigger] visited(b, n, pool, prop, rows)
}

/// A walk that succeeds visits every pool that it was given, and its table holds
/// what the visits told.
pub proof fn law_walk_visits_all(w: World, names: Seq<Seq<char>>, prop: Seq<char>)
    requires
        walk_does(w, names, prop).1 is Ok,
    ensures
        ({
            let (end, res) = walk_does(w, names, prop);
            forall|i: int|
                0 <= i < names.len() ==> was_visited(w, end, #[trigger] names[i], prop, res->Ok_0)
        }),
    decreases names.len(),
{
    if names.len() > 0 {
        let (end, res) = walk_does(w, names, prop);
        let rows = res->Ok_0;
        let rest = names.drop_first();
        let n0 = w.calls.len() as int;
        let (w1, role) = zfs_ops::pool_property_does(w, names[0], "zboot:role"@);
        reveal(zfs_ops::pool_property_does);
        zfs_ops::lemma_pool_property_looks(w, names[0], "zboot:role"@);
        let w2 = sub::capture_does(w1, "zfs"@, table_call(names[0], prop)->Run_args).0;
        let next = if role != Ok::<Seq<char>, Seq<char>>("root"@) {
            w1
        } else {
            w2
        };
        law_walk_visits_all(next, rest, prop);
        lemma_walk_looks(next, rest, prop);
        let more = walk_does(next, rest, prop).1->Ok_0;
        assert(end == walk_does(next, rest, prop).0);
        assert(w1.calls[n0] == role_call(names[0]));
        assert(next.calls[n0] == role_call(names[0]));
        assert(end.calls[n0] == next.calls[n0]);
        if role == Ok::<Seq<char>, Seq<char>>("root"@) {
            assert(next.calls[n0 + 1] == table_call(names[0], prop));
            assert(end.calls[n0 + 1] == next.calls[n0 + 1]);
            let told = zfs_ops::snap_rows(
                text::lines_of((w.replies)((n0 + 1) as nat).stdout),
            );
            assert(rows == told + more);
            assert forall|k: int| 0 <= k < told.len() implies rows.contains(#[trigger] told[k]) by {
                assert(rows[k] == told[k]);
            }
        }
        assert(visited(end, n0, names[0], prop, rows));
        assert forall|x: (Seq<char>, Seq<char>)| more.contains(x) implies rows.contains(x) by {
            let k = choose|k: int| 0 <= k < more.len() && more[k] == x;
            assert(rows[rows.len() - more.len() + k] == x);
        }
        assert forall|i: int| 0 <= i < names.len() implies was_visited(
            w,
            end,
            #[trigger] names[i],
            prop,
            rows,
        ) by {
            if i > 0 {
                assert(rest[i - 1] == names[i]);
                assert(was_visited(next, end, rest[i - 1], prop, more));
                let n = choose|n: int|
                    next.calls.len() <= n < end.calls.len() && #[trigger] visited(
                        end,
                        n,
                        rest[i - 1],
                        prop,
                        more,
                    );
                assert(visited(end, n, names[i], prop, rows));
            }
        }
    }
}

/// What was visited in between was visited from before to after.
pub proof fn lemma_visited_within(
    a: World,
    b: World,
    c: World,
    d: World,
    pool: Seq<char>,
    prop: Seq<char>,
    rows: Snaps,
)
    requires
        sub::continues(a, b),
        was_visited(b, c, pool, prop, rows),
        sub::continues(c, d),
    ensures
        was_visited(a, d, pool, prop, rows),
{
    let n = choose|n: int|
        b.calls.len() <= n < c.calls.len() && #[trigger] visited(c, n, pool, prop, rows);
    assert(d.calls[n] == c.calls[n]);
    if n + 1 < c.calls.len() {
        assert(d.calls[n + 1] == c.calls[n + 1]);
    }
    assert(visited(d, n, pool, prop, rows));
}

/// The call that lists the imported pools.
pub open spec fn pools_call() -> Call {
    Call::Run { prog: "zpool"@, args: seq!["list"@, "-Hp"@, "-o"@, "name"@] }
}

/// A table of a property is that of every imported root pool.
pub proof fn law_table_is_of_all_pools(w: World, prop: Seq<char>)
    requires
        property_table_does(w, prop).1 is Ok,
    ensures
        ({
            let (end, res) = property_table_does(w, prop);
            let names = text::lines_of(w.reply().stdout);
            &&& w.calls.len() < end.calls.len()
            &&& end.calls[w.calls.len() as int] == pools_call()
            &&& effects::succeeded(w, w.calls.len() as int)
            &&& forall|i: int|
                0 <= i < names.len() ==> was_visited(w, end, #[trigger] names[i], prop, res->Ok_0)
        }),
{
    reveal(property_table_does);
    let (end, res) = property_table_does(w, prop);
    let names = text::lines_of(w.reply().stdout);
    let w1 = w.run("zpool"@, pools_call()->Run_args);
    law_walk_visits_all(w1, names, prop);
    lemma_walk_looks(w1, names, prop);
    assert(w1.calls[w.calls.len() as int] == pools_call());
    assert(sub::continues(w, w1));
    assert(sub::continues(end, end));
    assert forall|i: int| 0 <= i < names.len() implies was_visited(
        w,
        end,
        #[trigger] names[i],
        prop,
        res->Ok_0,
    ) by {
        lemma_visited_within(w, w1, end, end, names[i], prop, res->Ok_0);
    }
}

} // verus!
