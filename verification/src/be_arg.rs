//! The `<BE>` argument, as every verb that takes one reads it.

use vstd::prelude::*;

use crate::error::Error;
use crate::model;
use crate::sub;
use crate::sub::{Runner, World};
use crate::text;
use crate::zfs_ops;

verus! {

/// `be@snap` in its two parts: the last `@` parts them, unless one part would
/// be empty.
pub open spec fn be_and_snap(arg: Seq<char>) -> (Seq<char>, Option<Seq<char>>) {
    match text::cut_last(arg, '@') {
        Some((be, snap)) => if be.len() > 0 && snap.len() > 0 {
            (be, Some(snap))
        } else {
            (arg, None)
        },
        None => (arg, None),
    }
}

/// Splits `be` or `be@snap` into the boot environment and the snapshot. The
/// boot environment may be a full dataset path; only the last `@` introduces
/// the snapshot. With an empty part (`@snap`, `be@`) there is no split: the
/// caller's existence checks report such an argument.
pub fn split_be_snap(arg: &str) -> (r: (String, Option<String>))
    ensures
        r.deep_view() == be_and_snap(arg@),
{
    match text::rsplit_once(arg, '@') {
        Some((be, snap)) => if !be.is_empty() && !snap.is_empty() {
            (be.to_owned(), Some(snap.to_owned()))
        } else {
            (arg.to_owned(), None)
        },
        None => (arg.to_owned(), None),
    }
}

/// Nothing of the argument is lost by the split.
pub proof fn law_split_rejoins(arg: Seq<char>)
    ensures
        match be_and_snap(arg) {
            (be, Some(snap)) => be + "@"@ + snap == arg && !snap.contains('@'),
            (be, None) => be == arg,
        },
{
    reveal_strlit("@");
    text::lemma_last_position(arg, '@');
    if let (be, Some(snap)) = be_and_snap(arg) {
        assert(be + "@"@ + snap =~= arg);
        if snap.contains('@') {
            let i = choose|i: int| 0 <= i < snap.len() && snap[i] == '@';
            assert(arg[text::last_position(arg, '@') + 1 + i] == '@');
        }
    }
}

/// Qualifies a bare name with the pool that is running; a path stays as it is
/// and nothing is asked.
#[verifier::opaque]
pub open spec fn resolve_be_dataset_does(w: World, arg: Seq<char>) -> (World, Result<
    Seq<char>,
    Seq<char>,
>) {
    if arg.contains('/') {
        (w, Ok(arg))
    } else {
        let (w1, pool) = zfs_ops::discover_booted_pool_does(w);
        (
            w1,
            match pool {
                Err(m) => Err(m),
                Ok(p) => Ok(model::be_dataset(p, arg)),
            },
        )
    }
}

/// The dataset that a `<BE>` argument names: a full path as it is, a bare name
/// on the pool whose dataset is mounted at `/`.
pub fn resolve_be_dataset<R: Runner>(r: &mut R, arg: &str) -> (res: Result<String, Error>)
    ensures
        sub::did(final(r).world(), res) == resolve_be_dataset_does(old(r).world(), arg@),
{
    proof {
        reveal(resolve_be_dataset_does);
    }
    if text::has(arg, '/') {
        return Ok(arg.to_owned());
    }
    match zfs_ops::discover_booted_pool(r) {
        Err(e) => Err(e),
        Ok(pool) => Ok(model::be_path(pool.as_str(), arg)),
    }
}

/// Finding the dataset changes nothing.
pub proof fn lemma_resolve_looks(w: World, arg: Seq<char>)
    ensures
        sub::only_looked(w, resolve_be_dataset_does(w, arg).0),
{
    reveal(resolve_be_dataset_does);
    reveal(zfs_ops::discover_booted_dataset_does);
}

} // verus!
