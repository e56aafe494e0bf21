//! What the shell offers where the operator asks for the rest of a word.

use vstd::prelude::*;
use vstd::string::*;

use crate::boot::shell;
use crate::boot::shell::{BootTarget, Choice, Target};
use crate::sub;
use crate::sub::{Runner, World};
use crate::text;

verus! {

/// One way a word can go on.
#[derive(Debug)]
pub struct Pair {
    /// How it is shown.
    pub display: String,
    /// What takes the word's place.
    pub replacement: String,
}

/// One way a word can go on, by what is known of it.
#[verifier::ext_equal]
pub struct Offer {
    pub display: Seq<char>,
    pub replacement: Seq<char>,
}

impl DeepView for Pair {
    type V = Offer;

    open spec fn deep_view(&self) -> Offer {
        Offer { display: self.display@, replacement: self.replacement@ }
    }
}

/// An offer that is shown as it is.
pub open spec fn plain(t: Seq<char>) -> Offer {
    Offer { display: t, replacement: t }
}

fn push_pair(out: &mut Vec<Pair>, display: &str, replacement: &str)
    ensures
        final(out).deep_view() == old(out).deep_view().push(
            (Offer { display: display@, replacement: replacement@ }),
        ),
{
    let ghost so_far = out.deep_view();
    let p = Pair { display: display.to_owned(), replacement: replacement.to_owned() };
    out.push(p);
    assert(out.deep_view() =~= so_far.push(p.deep_view()));
}

// ---------------------------------------------------------------------------
// Where the cursor stands
// ---------------------------------------------------------------------------

/// How many characters stand before the word that ends a text.
pub open spec fn word_start(s: Seq<char>) -> int
    decreases s.len(),
{
    if s.len() == 0 || text::space(s.last()) {
        s.len() as int
    } else {
        word_start(s.drop_last())
    }
}

fn find_word_start(s: &str) -> (r: usize)
    ensures
        r == word_start(s@),
        r <= s@.len(),
{
    let mut n: usize = s.unicode_len();
    assert(s@.take(n as int) =~= s@);
    while n > 0 && !text::is_space(s.get_char(n - 1))
        invariant
            n <= s@.len(),
            word_start(s@) == word_start(s@.take(n as int)),
        decreases n,
    {
        proof {
            assert(s@.take(n as int).last() == s@[n - 1]);
            assert(s@.take(n as int).drop_last() =~= s@.take(n - 1));
        }
        n = n - 1;
    }
    assert(n > 0 ==> s@.take(n as int).last() == s@[n - 1]);
    n
}

/// Where the word under the cursor begins, in bytes, and the word. Behind a
/// blank it is empty.
pub fn word_under_cursor<'a>(prefix: &'a str) -> (r: (usize, &'a str))
    ensures
        r.0 == vstd::utf8::encode_utf8(prefix@.take(word_start(prefix@))).len(),
        r.1@ == prefix@.skip(word_start(prefix@)),
{
    let k: usize = find_word_start(prefix);
    let n: usize = prefix.unicode_len();
    let head: &str = prefix.substring_char(0, k);
    let tail: &str = prefix.substring_char(k, n);
    assert(head@ =~= prefix@.take(k as int));
    assert(tail@ =~= prefix@.skip(k as int));
    (head.as_bytes().len(), tail)
}

/// The words before the word under the cursor.
pub fn words_before<'a>(prefix: &'a str) -> (r: Vec<&'a str>)
    ensures
        r.deep_view() == text::words_of(prefix@.take(word_start(prefix@))),
{
    let k: usize = find_word_start(prefix);
    let head: &'a str = prefix.substring_char(0, k);
    assert(head@ =~= prefix@.take(k as int));
    text::words(head)
}

// ---------------------------------------------------------------------------
// What is offered
// ---------------------------------------------------------------------------

/// The texts that begin with what has been typed.
pub open spec fn matching(ts: Seq<Seq<char>>, frag: Seq<char>) -> Seq<Offer>
    decreases ts.len(),
{
    if ts.len() == 0 {
        seq![]
    } else {
        let front = matching(ts.drop_last(), frag);
        if text::begins(ts.last(), frag) {
            front.push(plain(ts.last()))
        } else {
            front
        }
    }
}

fn offer_matching(ts: &Vec<String>, frag: &str) -> (r: Vec<Pair>)
    ensures
        r.deep_view() == matching(ts.deep_view(), frag@),
{
    let ghost all = ts.deep_view();
    let mut out: Vec<Pair> = Vec::new();
    let mut i: usize = 0;
    assert(out.deep_view() =~= matching(all.take(0), frag@));
    while i < ts.len()
        invariant
            i <= ts@.len(),
            all == ts.deep_view(),
            out.deep_view() == matching(all.take(i as int), frag@),
        decreases ts@.len() - i,
    {
        proof {
            assert(all.take(i + 1).drop_last() =~= all.take(i as int));
            assert(all.take(i + 1).last() == ts@[i as int]@);
        }
        let t: &str = ts[i].as_str();
        if text::starts_with(t, frag) {
            push_pair(&mut out, t, t);
        }
        i = i + 1;
    }
    assert(all.take(i as int) =~= all);
    out
}

/// The kernels of a target, as `<dataset>:<kernel>`.
pub open spec fn composites(dataset: Seq<char>, ks: Seq<Choice>, frag: Seq<char>) -> Seq<Offer>
    decreases ks.len(),
{
    if ks.len() == 0 {
        seq![]
    } else {
        let front = composites(dataset, ks.drop_last(), frag);
        let c = dataset + ":"@ + ks.last().vmlinuz;
        if text::begins(c, frag) {
            front.push(plain(c))
        } else {
            front
        }
    }
}

/// The number of a target, and its kernels where those can be chosen.
pub open spec fn target_offers(t: Target, frag: Seq<char>, with_composite: bool) -> Seq<Offer> {
    let n = text::decimal(t.idx);
    (if text::begins(n, frag) {
        seq![Offer { display: n + " ("@ + t.dataset + ")"@, replacement: n }]
    } else {
        seq![]
    }) + (if with_composite {
        composites(t.dataset, t.kernels, frag)
    } else {
        seq![]
    })
}

/// The numbers of the targets, and their kernels where those can be chosen.
pub open spec fn all_offers(ts: Seq<Target>, frag: Seq<char>, with_composite: bool) -> Seq<Offer>
    decreases ts.len(),
{
    if ts.len() == 0 {
        seq![]
    } else {
        all_offers(ts.drop_last(), frag, with_composite) + target_offers(
            ts.last(),
            frag,
            with_composite,
        )
    }
}

fn push_composites(out: &mut Vec<Pair>, t: &BootTarget, frag: &str)
    ensures
        final(out).deep_view() == old(out).deep_view() + composites(
            t.deep_view().dataset,
            t.deep_view().kernels,
            frag@,
        ),
{
    let ghost was = out.deep_view();
    let ghost all = t.kernels.deep_view();
    let mut i: usize = 0;
    assert(out.deep_view() =~= was + composites(t.dataset@, all.take(0), frag@));
    while i < t.kernels.len()
        invariant
            i <= t.kernels@.len(),
            all == t.kernels.deep_view(),
            out.deep_view() == was + composites(t.dataset@, all.take(i as int), frag@),
        decreases t.kernels@.len() - i,
    {
        proof {
            assert(all.take(i + 1).drop_last() =~= all.take(i as int));
            assert(all.take(i + 1).last() == t.kernels@[i as int].deep_view());
        }
        let c: String = text::cat3(t.dataset.as_str(), ":", t.kernels[i].vmlinuz.as_str());
        if text::starts_with(c.as_str(), frag) {
            push_pair(out, c.as_str(), c.as_str());
            assert(out.deep_view() =~= was + composites(t.dataset@, all.take(i + 1), frag@));
        }
        i = i + 1;
    }
    assert(all.take(i as int) =~= all);
}

/// The part of a snapshot's name behind `@`, of each line that has one.
pub open spec fn snap_names(lines: Seq<Seq<char>>) -> Seq<Seq<char>>
    decreases lines.len(),
{
    if lines.len() == 0 {
        seq![]
    } else {
        let front = snap_names(lines.drop_last());
        match text::cut(lines.last(), '@') {
            Some((_, s)) => front.push(s),
            None => front,
        }
    }
}

fn parse_snap_names(listing: &str) -> (r: Vec<String>)
    ensures
        r.deep_view() == snap_names(text::lines_of(listing@)),
{
    let ls = text::lines(listing);
    let ghost all = ls.deep_view();
    let mut out: Vec<String> = Vec::new();
    let mut i: usize = 0;
    assert(out.deep_view() =~= snap_names(all.take(0)));
    while i < ls.len()
        invariant
            i <= ls@.len(),
            all == ls.deep_view(),
            out.deep_view() == snap_names(all.take(i as int)),
        decreases ls@.len() - i,
    {
        proof {
            assert(all.take(i + 1).drop_last() =~= all.take(i as int));
            assert(all.take(i + 1).last() == ls@[i as int]@);
        }
        match text::split_once(ls[i], '@') {
            Some((_, s)) => text::push_text(&mut out, s),
            None => {},
        }
        i = i + 1;
    }
    assert(all.take(i as int) =~= all);
    out
}

/// Lists the snapshots of a target. Whatever fails, nothing is offered.
#[verifier::opaque]
pub open spec fn snapshots_does(w: World, ts: Seq<Target>, n: Seq<char>, frag: Seq<char>) -> (
    World,
    Seq<Offer>,
) {
    match text::parsed_upto(n, usize::MAX as nat) {
        None => (w, seq![]),
        Some(idx) => match shell::target_numbered(ts, idx) {
            None => (w, seq![]),
            Some(t) => (
                w.run(
                    "zfs"@,
                    seq![
                        "list"@,
                        "-H"@,
                        "-o"@,
                        "name"@,
                        "-t"@,
                        "snapshot"@,
                        "-r"@,
                        t.dataset,
                    ],
                ),
                match w.ran() {
                    Err(_) => seq![],
                    Ok(out) => if out.rc == 0 {
                        matching(snap_names(text::lines_of(out.stdout)), frag)
                    } else {
                        seq![]
                    },
                },
            ),
        },
    }
}

/// The verbs whose first argument is a boot environment.
pub open spec fn takes_target(verb: Seq<char>) -> bool {
    verb == "default"@ || verb == "rollback"@ || verb == "drop"@ || verb == "chroot"@ || verb
        == "snapshots"@
}

/// The verbs whose first argument may be one kernel of a boot environment.
pub open spec fn takes_kernel(verb: Seq<char>) -> bool {
    verb == "boot"@ || verb == "cmdline"@
}

/// Offers arguments of a verb.
pub open spec fn argument_does(
    w: World,
    ts: Seq<Target>,
    verbs: Seq<Seq<char>>,
    words: Seq<Seq<char>>,
    frag: Seq<char>,
) -> (World, Seq<Offer>) {
    let verb = words[0];
    if words.len() == 1 && takes_kernel(verb) {
        (w, all_offers(ts, frag, true))
    } else if words.len() == 1 && takes_target(verb) {
        (w, all_offers(ts, frag, false))
    } else if words.len() == 2 && verb == "rollback"@ {
        snapshots_does(w, ts, words[1], frag)
    } else if words.len() == 1 && verb == "help"@ {
        (w, matching(verbs, frag))
    } else {
        (w, seq![])
    }
}

/// Offers how a line can go on at its end.
pub open spec fn complete_does(
    w: World,
    ts: Seq<Target>,
    verbs: Seq<Seq<char>>,
    prefix: Seq<char>,
) -> (World, Seq<Offer>) {
    let k = word_start(prefix);
    let words = text::words_of(prefix.take(k));
    let frag = prefix.skip(k);
    if words.len() == 0 {
        (w, matching(verbs, frag))
    } else {
        argument_does(w, ts, verbs, words, frag)
    }
}

/// What is known where a word is completed.
#[derive(Debug)]
pub struct ShellHelper {
    pub targets: Vec<BootTarget>,
    pub verbs: Vec<String>,
}

impl ShellHelper {
    /// The numbers of the targets, and their kernels where those can be
    /// chosen.
    pub fn target_candidates(&self, frag: &str, with_composite: bool) -> (r: Vec<Pair>)
        ensures
            r.deep_view() == all_offers(self.targets.deep_view(), frag@, with_composite),
    {
        let ghost all = self.targets.deep_view();
        let mut out: Vec<Pair> = Vec::new();
        let mut i: usize = 0;
        assert(out.deep_view() =~= all_offers(all.take(0), frag@, with_composite));
        while i < self.targets.len()
            invariant
                i <= self.targets@.len(),
                all == self.targets.deep_view(),
                out.deep_view() == all_offers(all.take(i as int), frag@, with_composite),
            decreases self.targets@.len() - i,
        {
            let ghost so_far = out.deep_view();
            proof {
                assert(all.take(i + 1).drop_last() =~= all.take(i as int));
                assert(all.take(i + 1).last() == self.targets@[i as int].deep_view());
            }
            let t = &self.targets[i];
            let n: String = text::dec_len(t.idx);
            if text::starts_with(n.as_str(), frag) {
                let shown: String = text::cat4(n.as_str(), " (", t.dataset.as_str(), ")");
                push_pair(&mut out, shown.as_str(), n.as_str());
            }
            if with_composite {
                push_composites(&mut out, t, frag);
            }
            assert(out.deep_view() =~= so_far + target_offers(
                t.deep_view(),
                frag@,
                with_composite,
            ));
            i = i + 1;
        }
        assert(all.take(i as int) =~= all);
        out
    }

    /// The snapshots of a target.
    pub fn snapshot_candidates<R: Runner>(&self, r: &mut R, n_arg: &str, frag: &str) -> (res: Vec<
        Pair,
    >)
        ensures
            (final(r).world(), res.deep_view()) == snapshots_does(
                old(r).world(),
                self.targets.deep_view(),
                n_arg@,
                frag@,
            ),
    {
        proof {
            reveal(snapshots_does);
        }
        let none: Vec<Pair> = Vec::new();
        assert(none.deep_view() =~= seq![]);
        let idx: u64 = match text::parse_upto(n_arg, usize::MAX as u64) {
            None => return none,
            Some(n) => n,
        };
        let t = match shell::find_numbered(&self.targets, idx) {
            None => return none,
            Some(t) => t,
        };
        let args = text::argv8(
            "list",
            "-H",
            "-o",
            "name",
            "-t",
            "snapshot",
            "-r",
            t.dataset.as_str(),
        );
        match r.run("zfs", args.as_slice()) {
            Err(_) => none,
            Ok(out) => if out.rc == 0 {
                let names = parse_snap_names(out.stdout.as_str());
                offer_matching(&names, frag)
            } else {
                none
            },
        }
    }

    /// Arguments of a verb.
    pub fn complete_arg<'a, R: Runner>(&self, r: &mut R, words: &Vec<&'a str>, frag: &str) -> (res:
        Vec<Pair>)
        requires
            words@.len() > 0,
        ensures
            (final(r).world(), res.deep_view()) == argument_does(
                old(r).world(),
                self.targets.deep_view(),
                self.verbs.deep_view(),
                words.deep_view(),
                frag@,
            ),
    {
        let verb: &str = words[0];
        assert(words.deep_view()[0] == verb@);
        if words.len() == 1 {
            if text::eq(verb, "boot") || text::eq(verb, "cmdline") {
                return self.target_candidates(frag, true);
            }
            if text::eq(verb, "default") || text::eq(verb, "rollback") || text::eq(verb, "drop")
                || text::eq(verb, "chroot") || text::eq(verb, "snapshots") {
                return self.target_candidates(frag, false);
            }
            if text::eq(verb, "help") {
                return offer_matching(&self.verbs, frag);
            }
        }
        if words.len() == 2 && text::eq(verb, "rollback") {
            assert(words.deep_view()[1] == words@[1]@);
            return self.snapshot_candidates(r, words[1], frag);
        }
        let none: Vec<Pair> = Vec::new();
        assert(none.deep_view() =~= seq![]);
        none
    }

    /// How the text before the cursor can go on: where its last word begins,
    /// in bytes, and what can take that word's place.
    pub fn complete<R: Runner>(&self, r: &mut R, prefix: &str) -> (res: (usize, Vec<Pair>))
        ensures
            res.0 == vstd::utf8::encode_utf8(prefix@.take(word_start(prefix@))).len(),
            (final(r).world(), res.1.deep_view()) == complete_does(
                old(r).world(),
                self.targets.deep_view(),
                self.verbs.deep_view(),
                prefix@,
            ),
    {
        let (start, frag) = word_under_cursor(prefix);
        let words = words_before(prefix);
        if words.len() == 0 {
            return (start, offer_matching(&self.verbs, frag));
        }
        let offers = self.complete_arg(r, &words, frag);
        (start, offers)
    }
}

// ---------------------------------------------------------------------------
// Laws
// ---------------------------------------------------------------------------

/// Completion changes nothing.
pub proof fn law_completion_looks(
    w: World,
    ts: Seq<Target>,
    verbs: Seq<Seq<char>>,
    prefix: Seq<char>,
)
    ensures
        sub::only_looked(w, complete_does(w, ts, verbs, prefix).0),
{
    reveal(snapshots_does);
}

/// What is offered in place of a word begins with it.
pub proof fn law_offers_go_on(ts: Seq<Seq<char>>, frag: Seq<char>, i: int)
    requires
        0 <= i < matching(ts, frag).len(),
    ensures
        text::begins(matching(ts, frag)[i].replacement, frag),
        ts.contains(matching(ts, frag)[i].replacement),
    decreases ts.len(),
{
    if ts.len() > 0 {
        let front = ts.drop_last();
        if i < matching(front, frag).len() {
            law_offers_go_on(front, frag, i);
            let t = matching(front, frag)[i].replacement;
            let k = choose|k: int| 0 <= k < front.len() && front[k] == t;
            assert(ts[k] == t);
        } else {
            assert(ts[ts.len() - 1] == ts.last());
        }
    }
}

/// Every word that the fragment begins is offered.
pub proof fn law_every_match_is_offered(ts: Seq<Seq<char>>, frag: Seq<char>)
    ensures
        forall|x: Offer| #[trigger] matching(ts, frag).contains(x) <==> exists|i: int| 0 <= i < ts.len() && x == plain((#[trigger] ts[i])) && text::begins((#[trigger] ts[i]), frag),
    decreases ts.len(),
{
    if ts.len() > 0 {
        let front = ts.drop_last();
        law_every_match_is_offered(front, frag);
        let before = matching(front, frag);
        let all = matching(ts, frag);
        assert forall|x: Offer| #[trigger] all.contains(x) <==> exists|i: int| 0 <= i < ts.len() && x == plain((#[trigger] ts[i])) && text::begins((#[trigger] ts[i]), frag) by {
            if all.contains(x) {
                let k = choose|k: int| 0 <= k < all.len() && all[k] == x;
                if k < before.len() {
                    assert(before[k] == x);
                    assert(before.contains(x));
                    let i = choose|i: int| 0 <= i < front.len() && x == plain((#[trigger] front[i])) && text::begins((#[trigger] front[i]), frag);
                    assert(ts[i] == front[i]);
                } else {
                    assert(x == plain(ts[ts.len() - 1]) && text::begins(ts[ts.len() - 1], frag));
                }
            }
            if exists|i: int| 0 <= i < ts.len() && x == plain((#[trigger] ts[i])) && text::begins((#[trigger] ts[i]), frag) {
                let i = choose|i: int| 0 <= i < ts.len() && x == plain((#[trigger] ts[i])) && text::begins((#[trigger] ts[i]), frag);
                if i < front.len() {
                    assert(front[i] == ts[i]);
                    assert(before.contains(x));
                    let k = choose|k: int| 0 <= k < before.len() && before[k] == x;
                    assert(all[k] == x);
                } else {
                    assert(ts[i] == ts.last());
                    assert(all[all.len() - 1] == x);
                }
            }
        }
    }
}

/// Every line that holds a snapshot gives its name.
pub proof fn law_every_snapshot_is_named(lines: Seq<Seq<char>>)
    ensures
        forall|x: Seq<char>| #[trigger] snap_names(lines).contains(x) <==> exists|i: int| 0 <= i < lines.len() && (text::cut((#[trigger] lines[i]), '@') matches Some(p) && p.1 == x),
    decreases lines.len(),
{
    if lines.len() > 0 {
        let front = lines.drop_last();
        law_every_snapshot_is_named(front);
        let before = snap_names(front);
        let all = snap_names(lines);
        assert forall|x: Seq<char>| #[trigger] all.contains(x) <==> exists|i: int| 0 <= i < lines.len() && (text::cut((#[trigger] lines[i]), '@') matches Some(p) && p.1 == x) by {
            if all.contains(x) {
                let k = choose|k: int| 0 <= k < all.len() && all[k] == x;
                if k < before.len() {
                    assert(before[k] == x);
                    assert(before.contains(x));
                    let i = choose|i: int| 0 <= i < front.len() && (text::cut((#[trigger] front[i]), '@') matches Some(p) && p.1 == x);
                    assert(lines[i] == front[i]);
                } else {
                    assert((text::cut(lines[lines.len() - 1], '@') matches Some(p) && p.1 == x));
                }
            }
            if exists|i: int| 0 <= i < lines.len() && (text::cut((#[trigger] lines[i]), '@') matches Some(p) && p.1 == x) {
                let i = choose|i: int| 0 <= i < lines.len() && (text::cut((#[trigger] lines[i]), '@') matches Some(p) && p.1 == x);
                if i < front.len() {
                    assert(front[i] == lines[i]);
                    assert(before.contains(x));
                    let k = choose|k: int| 0 <= k < before.len() && before[k] == x;
                    assert(all[k] == x);
                } else {
                    assert(lines[i] == lines.last());
                    assert(all[all.len() - 1] == x);
                }
            }
        }
    }
}

} // verus!
