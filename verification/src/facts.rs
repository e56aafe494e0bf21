//! Reading a property table: what it says of one dataset.
//!
//! A table is what `zfs get` prints, row by row. Where it says a thing of a
//! dataset more than once, the last word counts.

use vstd::prelude::*;

use crate::model;
use crate::model::{
    BoundList, Canmount, Key, Mount, Mountpoint, PoolRole, Prop, Property, Snap, SnapshotRef,
};
use crate::text;

verus! {

/// A property table.
pub type Rows = Seq<(Seq<char>, Prop)>;

/// What the table says last of the dataset's `zboot:be`.
pub open spec fn last_be(rows: Rows, ds: Seq<char>) -> bool
    decreases rows.len(),
{
    if rows.len() == 0 {
        false
    } else if rows.last().0 == ds && rows.last().1 is Be {
        rows.last().1->Be_0
    } else {
        last_be(rows.drop_last(), ds)
    }
}

/// What the table says last of the dataset's `zboot:be`.
pub fn find_be(rows: &Vec<(String, Property)>, ds: &str) -> (r: bool)
    ensures
        r == last_be(rows.deep_view(), ds@),
{
    let ghost all = rows.deep_view();
    let mut i: usize = rows.len();
    assert(all.take(i as int) =~= all);
    while i > 0
        invariant
            i <= rows@.len(),
            all == rows.deep_view(),
            last_be(all, ds@) == last_be(all.take(i as int), ds@),
        decreases i,
    {
        proof {
            assert(all.take(i as int).drop_last() =~= all.take(i - 1));
            assert(all.take(i as int).last() == rows@[i - 1].deep_view());
        }
        if let Property::ZbootBe(x) = &rows[i - 1].1 {
            if text::eq(rows[i - 1].0.as_str(), ds) {
                return *x;
            }
        }
        i = i - 1;
    }
    false
}

/// What the table says last of the dataset's origin.
pub open spec fn last_origin(rows: Rows, ds: Seq<char>) -> Option<Snap>
    decreases rows.len(),
{
    if rows.len() == 0 {
        None
    } else if rows.last().0 == ds && rows.last().1 is Origin {
        rows.last().1->Origin_0
    } else {
        last_origin(rows.drop_last(), ds)
    }
}

/// What the table says last of the dataset's origin.
pub fn find_origin(rows: &Vec<(String, Property)>, ds: &str) -> (r: Option<SnapshotRef>)
    ensures
        r.deep_view() == last_origin(rows.deep_view(), ds@),
{
    let ghost all = rows.deep_view();
    let mut i: usize = rows.len();
    assert(all.take(i as int) =~= all);
    while i > 0
        invariant
            i <= rows@.len(),
            all == rows.deep_view(),
            last_origin(all, ds@) == last_origin(all.take(i as int), ds@),
        decreases i,
    {
        proof {
            assert(all.take(i as int).drop_last() =~= all.take(i - 1));
            assert(all.take(i as int).last() == rows@[i - 1].deep_view());
        }
        if let Property::Origin(x) = &rows[i - 1].1 {
            if text::eq(rows[i - 1].0.as_str(), ds) {
                return model::copy_snap(x);
            }
        }
        i = i - 1;
    }
    None
}

/// What the table says last of the dataset's attachments.
pub open spec fn last_attached(rows: Rows, ds: Seq<char>) -> Option<Seq<Key>>
    decreases rows.len(),
{
    if rows.len() == 0 {
        None
    } else if rows.last().0 == ds && rows.last().1 is AttachedTo {
        Some(rows.last().1->AttachedTo_0)
    } else {
        last_attached(rows.drop_last(), ds)
    }
}

/// What the table says last of the dataset's attachments.
pub fn find_attached(rows: &Vec<(String, Property)>, ds: &str) -> (r: Option<BoundList>)
    ensures
        r.deep_view() == last_attached(rows.deep_view(), ds@),
{
    let ghost all = rows.deep_view();
    let mut i: usize = rows.len();
    assert(all.take(i as int) =~= all);
    while i > 0
        invariant
            i <= rows@.len(),
            all == rows.deep_view(),
            last_attached(all, ds@) == last_attached(all.take(i as int), ds@),
        decreases i,
    {
        proof {
            assert(all.take(i as int).drop_last() =~= all.take(i - 1));
            assert(all.take(i as int).last() == rows@[i - 1].deep_view());
        }
        if let Property::ZbootAttachedTo(x) = &rows[i - 1].1 {
            if text::eq(rows[i - 1].0.as_str(), ds) {
                return Some(x.copy());
            }
        }
        i = i - 1;
    }
    None
}

/// What the table says last of the dataset's `canmount`.
pub open spec fn last_canmount(rows: Rows, ds: Seq<char>) -> Option<Canmount>
    decreases rows.len(),
{
    if rows.len() == 0 {
        None
    } else if rows.last().0 == ds && rows.last().1 is Canmount {
        Some(rows.last().1->Canmount_0)
    } else {
        last_canmount(rows.drop_last(), ds)
    }
}

/// What the table says last of the dataset's `canmount`.
pub fn find_canmount(rows: &Vec<(String, Property)>, ds: &str) -> (r: Option<Canmount>)
    ensures
        r == last_canmount(rows.deep_view(), ds@),
{
    let ghost all = rows.deep_view();
    let mut i: usize = rows.len();
    assert(all.take(i as int) =~= all);
    while i > 0
        invariant
            i <= rows@.len(),
            all == rows.deep_view(),
            last_canmount(all, ds@) == last_canmount(all.take(i as int), ds@),
        decreases i,
    {
        proof {
            assert(all.take(i as int).drop_last() =~= all.take(i - 1));
            assert(all.take(i as int).last() == rows@[i - 1].deep_view());
        }
        if let Property::Canmount(x) = &rows[i - 1].1 {
            if text::eq(rows[i - 1].0.as_str(), ds) {
                return Some(*x);
            }
        }
        i = i - 1;
    }
    None
}

/// What the table says last of the dataset's mountpoint.
pub open spec fn last_mount(rows: Rows, ds: Seq<char>) -> Option<Mount>
    decreases rows.len(),
{
    if rows.len() == 0 {
        None
    } else if rows.last().0 == ds && rows.last().1 is Mountpoint {
        Some(rows.last().1->Mountpoint_0)
    } else {
        last_mount(rows.drop_last(), ds)
    }
}

/// What the table says last of the dataset's mountpoint.
pub fn find_mount(rows: &Vec<(String, Property)>, ds: &str) -> (r: Option<Mountpoint>)
    ensures
        r.deep_view() == last_mount(rows.deep_view(), ds@),
{
    let ghost all = rows.deep_view();
    let mut i: usize = rows.len();
    assert(all.take(i as int) =~= all);
    while i > 0
        invariant
            i <= rows@.len(),
            all == rows.deep_view(),
            last_mount(all, ds@) == last_mount(all.take(i as int), ds@),
        decreases i,
    {
        proof {
            assert(all.take(i as int).drop_last() =~= all.take(i - 1));
            assert(all.take(i as int).last() == rows@[i - 1].deep_view());
        }
        if let Property::Mountpoint(x) = &rows[i - 1].1 {
            if text::eq(rows[i - 1].0.as_str(), ds) {
                return Some(x.copy());
            }
        }
        i = i - 1;
    }
    None
}

/// What the table says last of the dataset's `zboot:created-by`.
pub open spec fn last_creator(rows: Rows, ds: Seq<char>) -> Option<Seq<char>>
    decreases rows.len(),
{
    if rows.len() == 0 {
        None
    } else if rows.last().0 == ds && rows.last().1 is CreatedBy {
        Some(rows.last().1->CreatedBy_0)
    } else {
        last_creator(rows.drop_last(), ds)
    }
}

/// What the table says last of the dataset's `zboot:created-by`.
pub fn find_creator(rows: &Vec<(String, Property)>, ds: &str) -> (r: Option<String>)
    ensures
        r.deep_view() == last_creator(rows.deep_view(), ds@),
{
    let ghost all = rows.deep_view();
    let mut i: usize = rows.len();
    assert(all.take(i as int) =~= all);
    while i > 0
        invariant
            i <= rows@.len(),
            all == rows.deep_view(),
            last_creator(all, ds@) == last_creator(all.take(i as int), ds@),
        decreases i,
    {
        proof {
            assert(all.take(i as int).drop_last() =~= all.take(i - 1));
            assert(all.take(i as int).last() == rows@[i - 1].deep_view());
        }
        if let Property::ZbootCreatedBy(x) = &rows[i - 1].1 {
            if text::eq(rows[i - 1].0.as_str(), ds) {
                return Some(x.clone());
            }
        }
        i = i - 1;
    }
    None
}

/// What the table says last of the pool's `zboot:role`.
pub open spec fn last_role(rows: Rows, pool: Seq<char>) -> Option<PoolRole>
    decreases rows.len(),
{
    if rows.len() == 0 {
        None
    } else if rows.last().0 == pool && rows.last().1 is Role {
        Some(rows.last().1->Role_0)
    } else {
        last_role(rows.drop_last(), pool)
    }
}

/// What the table says last of the pool's `zboot:role`.
pub fn find_role(rows: &Vec<(String, Property)>, pool: &str) -> (r: Option<PoolRole>)
    ensures
        r == last_role(rows.deep_view(), pool@),
{
    let ghost all = rows.deep_view();
    let mut i: usize = rows.len();
    assert(all.take(i as int) =~= all);
    while i > 0
        invariant
            i <= rows@.len(),
            all == rows.deep_view(),
            last_role(all, pool@) == last_role(all.take(i as int), pool@),
        decreases i,
    {
        proof {
            assert(all.take(i as int).drop_last() =~= all.take(i - 1));
            assert(all.take(i as int).last() == rows@[i - 1].deep_view());
        }
        if let Property::ZbootRole(x) = &rows[i - 1].1 {
            if text::eq(rows[i - 1].0.as_str(), pool) {
                return Some(*x);
            }
        }
        i = i - 1;
    }
    None
}

/// What the table says last of the dataset's `readonly`, which is no property
/// of this library's.
pub open spec fn last_readonly(rows: Rows, ds: Seq<char>) -> bool
    decreases rows.len(),
{
    if rows.len() == 0 {
        false
    } else if rows.last().0 == ds && rows.last().1 is Other && rows.last().1->name == "readonly"@ {
        rows.last().1->value == "on"@
    } else {
        last_readonly(rows.drop_last(), ds)
    }
}

/// What the table says last of the dataset's `readonly`.
pub fn find_readonly(rows: &Vec<(String, Property)>, ds: &str) -> (r: bool)
    ensures
        r == last_readonly(rows.deep_view(), ds@),
{
    let ghost all = rows.deep_view();
    let mut i: usize = rows.len();
    assert(all.take(i as int) =~= all);
    while i > 0
        invariant
            i <= rows@.len(),
            all == rows.deep_view(),
            last_readonly(all, ds@) == last_readonly(all.take(i as int), ds@),
        decreases i,
    {
        proof {
            assert(all.take(i as int).drop_last() =~= all.take(i - 1));
            assert(all.take(i as int).last() == rows@[i - 1].deep_view());
        }
        if let Property::Other { name, value } = &rows[i - 1].1 {
            if text::eq(name.as_str(), "readonly") && text::eq(rows[i - 1].0.as_str(), ds) {
                return text::eq(value.as_str(), "on");
            }
        }
        i = i - 1;
    }
    false
}

// ---------------------------------------------------------------------------
// Laws
// ---------------------------------------------------------------------------

/// What a row can be about.
pub enum Topic {
    Be,
    Origin,
    Attached,
    Canmount,
    Mountpoint,
    Creator,
    Role,
    Readonly,
}

/// A row is about the topic.
pub open spec fn speaks_of(p: Prop, t: Topic) -> bool {
    match t {
        Topic::Be => p is Be,
        Topic::Origin => p is Origin,
        Topic::Attached => p is AttachedTo,
        Topic::Canmount => p is Canmount,
        Topic::Mountpoint => p is Mountpoint,
        Topic::Creator => p is CreatedBy,
        Topic::Role => p is Role,
        Topic::Readonly => p is Other && p->name == "readonly"@,
    }
}

/// The row of a number is about the topic for the dataset, and no later one is.
pub open spec fn latest(rows: Rows, k: int, ds: Seq<char>, t: Topic) -> bool {
    &&& 0 <= k < rows.len()
    &&& rows[k].0 == ds
    &&& speaks_of(rows[k].1, t)
    &&& forall|j: int|
        k < j < rows.len() ==> !((#[trigger] rows[j]).0 == ds && speaks_of(rows[j].1, t))
}

/// No row is about the topic for the dataset.
pub open spec fn silent_on(rows: Rows, ds: Seq<char>, t: Topic) -> bool {
    forall|j: int|
        0 <= j < rows.len() ==> !((#[trigger] rows[j]).0 == ds && speaks_of(rows[j].1, t))
}

/// Where any row is about the topic, one of them is the latest.
pub proof fn law_some_row_is_latest(rows: Rows, ds: Seq<char>, t: Topic)
    ensures
        silent_on(rows, ds, t) || exists|k: int| #[trigger] latest(rows, k, ds, t),
    decreases rows.len(),
{
    if rows.len() > 0 {
        let n = rows.len() - 1;
        let front = rows.drop_last();
        if rows[n].0 == ds && speaks_of(rows[n].1, t) {
            assert(latest(rows, n, ds, t));
        } else {
            law_some_row_is_latest(front, ds, t);
            if silent_on(front, ds, t) {
                assert forall|j: int| 0 <= j < rows.len() implies !((#[trigger] rows[j]).0 == ds
                    && speaks_of(rows[j].1, t)) by {
                    if j < n {
                        assert(front[j] == rows[j]);
                    }
                }
            } else {
                let k = choose|k: int| #[trigger] latest(front, k, ds, t);
                lemma_latest_later(rows, k, ds, t);
            }
        }
    }
}

proof fn lemma_latest_later(rows: Rows, k: int, ds: Seq<char>, t: Topic)
    requires
        rows.len() > 0,
        latest(rows.drop_last(), k, ds, t),
        !(rows.last().0 == ds && speaks_of(rows.last().1, t)),
    ensures
        latest(rows, k, ds, t),
{
    assert(rows.drop_last()[k] == rows[k]);
    assert forall|j: int| k < j < rows.len() implies !((#[trigger] rows[j]).0 == ds && speaks_of(
        rows[j].1,
        t,
    )) by {
        if j < rows.len() - 1 {
            assert(rows.drop_last()[j] == rows[j]);
        }
    }
}

/// Of each topic the latest row of the dataset counts, wherever it stands;
/// where there is none, nothing is said.
pub proof fn law_latest_row_counts(rows: Rows, ds: Seq<char>)
    ensures
        forall|k: int| #[trigger] latest(rows, k, ds, Topic::Be) ==> last_be(rows, ds) == rows[k].1->Be_0,
        silent_on(rows, ds, Topic::Be) ==> !last_be(rows, ds),
        forall|k: int| #[trigger] latest(rows, k, ds, Topic::Origin) ==> last_origin(rows, ds) == rows[k].1->Origin_0,
        silent_on(rows, ds, Topic::Origin) ==> last_origin(rows, ds) is None,
        forall|k: int| #[trigger] latest(rows, k, ds, Topic::Attached) ==> last_attached(rows, ds) == Some(rows[k].1->AttachedTo_0),
        silent_on(rows, ds, Topic::Attached) ==> last_attached(rows, ds) is None,
        forall|k: int| #[trigger] latest(rows, k, ds, Topic::Canmount) ==> last_canmount(rows, ds) == Some(rows[k].1->Canmount_0),
        silent_on(rows, ds, Topic::Canmount) ==> last_canmount(rows, ds) is None,
        forall|k: int| #[trigger] latest(rows, k, ds, Topic::Mountpoint) ==> last_mount(rows, ds) == Some(rows[k].1->Mountpoint_0),
        silent_on(rows, ds, Topic::Mountpoint) ==> last_mount(rows, ds) is None,
        forall|k: int| #[trigger] latest(rows, k, ds, Topic::Creator) ==> last_creator(rows, ds) == Some(rows[k].1->CreatedBy_0),
        silent_on(rows, ds, Topic::Creator) ==> last_creator(rows, ds) is None,
        forall|k: int| #[trigger] latest(rows, k, ds, Topic::Role) ==> last_role(rows, ds) == Some(rows[k].1->Role_0),
        silent_on(rows, ds, Topic::Role) ==> last_role(rows, ds) is None,
        forall|k: int| #[trigger] latest(rows, k, ds, Topic::Readonly) ==> last_readonly(rows, ds) == (rows[k].1->value == "on"@),
        silent_on(rows, ds, Topic::Readonly) ==> !last_readonly(rows, ds),
    decreases rows.len(),
{
    if rows.len() > 0 {
        let front = rows.drop_last();
        law_latest_row_counts(front, ds);
        assert forall|k: int, t: Topic| #[trigger] latest(rows, k, ds, t) && k < front.len() implies latest(
            front,
            k,
            ds,
            t,
        ) && front[k] == rows[k] && !(rows.last().0 == ds && speaks_of(rows.last().1, t)) by {
            assert forall|j: int| k < j < front.len() implies !((#[trigger] front[j]).0 == ds
                && speaks_of(front[j].1, t)) by {
                assert(front[j] == rows[j]);
            }
            assert(rows[rows.len() - 1] == rows.last());
        }
        assert forall|t: Topic| #[trigger] silent_on(rows, ds, t) implies silent_on(front, ds, t)
            && !(rows.last().0 == ds && speaks_of(rows.last().1, t)) by {
            assert forall|j: int| 0 <= j < front.len() implies !((#[trigger] front[j]).0 == ds
                && speaks_of(front[j].1, t)) by {
                assert(front[j] == rows[j]);
            }
            assert(rows[rows.len() - 1] == rows.last());
        }
    }
}

} // verus!
