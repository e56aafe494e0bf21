//! What a root pool holds: boot environments, snapshots, the properties that
//! mark them, and the text forms in which ZFS hands these over.

use vstd::prelude::*;

use crate::error;
use crate::error::Error;
use crate::order::Keyed;
use crate::text;

verus! {

// ---------------------------------------------------------------------------
// Snapshots
// ---------------------------------------------------------------------------

/// A snapshot: `<dataset>@<name>`.
#[derive(Debug, Clone)]
pub struct SnapshotRef {
    pub dataset: String,
    pub name: String,
}

/// A snapshot, by what it is called.
pub struct Snap {
    pub dataset: Seq<char>,
    pub name: Seq<char>,
}

impl DeepView for SnapshotRef {
    type V = Snap;

    open spec fn deep_view(&self) -> Snap {
        Snap { dataset: self.dataset@, name: self.name@ }
    }
}

/// The text form of a snapshot.
pub open spec fn snap_text(s: Snap) -> Seq<char> {
    s.dataset + "@"@ + s.name
}

/// The snapshot that a text names: split at its first `@`, with something on
/// both sides.
pub open spec fn snap_of(t: Seq<char>) -> Option<Snap> {
    match text::cut(t, '@') {
        Some((d, n)) => if d.len() > 0 && n.len() > 0 {
            Some(Snap { dataset: d, name: n })
        } else {
            None
        },
        None => None,
    }
}

impl SnapshotRef {
    /// Reads `<dataset>@<name>`.
    pub fn parse(s: &str) -> (r: Option<SnapshotRef>)
        ensures
            r.deep_view() == snap_of(s@),
    {
        match text::split_once(s, '@') {
            Some((d, n)) => if !d.is_empty() && !n.is_empty() {
                Some(SnapshotRef { dataset: d.to_owned(), name: n.to_owned() })
            } else {
                None
            },
            None => None,
        }
    }

    /// `<dataset>@<name>`.
    pub fn render(&self) -> (r: String)
        ensures
            r@ == snap_text(self.deep_view()),
    {
        text::cat3(self.dataset.as_str(), "@", self.name.as_str())
    }

    /// A copy with the same dataset and name.
    pub fn copy(&self) -> (r: SnapshotRef)
        ensures
            r.deep_view() == self.deep_view(),
    {
        SnapshotRef { dataset: self.dataset.clone(), name: self.name.clone() }
    }
}

/// A copy of an optional snapshot.
pub fn copy_snap(o: &Option<SnapshotRef>) -> (r: Option<SnapshotRef>)
    ensures
        r.deep_view() == o.deep_view(),
{
    match o {
        Some(s) => Some(s.copy()),
        None => None,
    }
}

/// Reading back a rendered snapshot gives the snapshot, as long as the dataset
/// holds no `@` and neither part is empty.
pub proof fn law_snapshot_round_trip(s: Snap)
    requires
        s.dataset.len() > 0,
        s.name.len() > 0,
        !s.dataset.contains('@'),
    ensures
        snap_of(snap_text(s)) == Some(s),
{
    let t = snap_text(s);
    reveal_strlit("@");
    let n = s.dataset.len() as int;
    assert(t[n] == '@');
    assert forall|j: int| 0 <= j < n implies t[j] != '@' by {
        assert(t[j] == s.dataset[j]);
        assert(s.dataset.contains(s.dataset[j]));
    }
    text::lemma_position_is(t, '@', n);
    text::lemma_position(t, '@');
    assert(t.take(n) =~= s.dataset);
    assert(t.skip(n + 1) =~= s.name);
}

/// A text that reads as a snapshot is the rendering of that snapshot.
pub proof fn law_snapshot_text(t: Seq<char>)
    ensures
        snap_of(t) matches Some(s) ==> snap_text(s) == t,
{
    text::lemma_position(t, '@');
    reveal_strlit("@");
    if let Some(s) = snap_of(t) {
        assert(snap_text(s) =~= t);
    }
}

// ---------------------------------------------------------------------------
// Bindings: which boot environments a dataset is attached to
// ---------------------------------------------------------------------------

/// A boot environment as a binding names it: `<pool>:<be>`.
#[derive(Debug, Clone)]
pub struct BoundKey {
    pub pool: String,
    pub be: String,
}

/// A binding's target, by what it is called.
pub struct Key {
    pub pool: Seq<char>,
    pub be: Seq<char>,
}

impl DeepView for BoundKey {
    type V = Key;

    open spec fn deep_view(&self) -> Key {
        Key { pool: self.pool@, be: self.be@ }
    }
}

/// The text form of a binding's target.
pub open spec fn key_text(k: Key) -> Seq<char> {
    k.pool + ":"@ + k.be
}

/// The binding's target that a text names: split at its first `:`, with
/// something on both sides.
pub open spec fn key_of(t: Seq<char>) -> Option<Key> {
    match text::cut(t, ':') {
        Some((p, b)) => if p.len() > 0 && b.len() > 0 {
            Some(Key { pool: p, be: b })
        } else {
            None
        },
        None => None,
    }
}

impl BoundKey {
    /// The boot environment `be` of `pool`.
    pub fn new(pool: &str, be: &str) -> (k: BoundKey)
        ensures
            k.deep_view() == (Key { pool: pool@, be: be@ }),
    {
        BoundKey { pool: pool.to_owned(), be: be.to_owned() }
    }

    /// Reads `<pool>:<be>`.
    pub fn parse(s: &str) -> (r: Option<BoundKey>)
        ensures
            r.deep_view() == key_of(s@),
    {
        match text::split_once(s, ':') {
            Some((p, b)) => if !p.is_empty() && !b.is_empty() {
                Some(BoundKey::new(p, b))
            } else {
                None
            },
            None => None,
        }
    }

    /// `<pool>:<be>`.
    pub fn render(&self) -> (r: String)
        ensures
            r@ == key_text(self.deep_view()),
    {
        text::cat3(self.pool.as_str(), ":", self.be.as_str())
    }

    /// True iff both name the same boot environment.
    pub fn same(&self, other: &BoundKey) -> (r: bool)
        ensures
            r == (self.deep_view() == other.deep_view()),
    {
        text::eq(self.pool.as_str(), other.pool.as_str()) && text::eq(
            self.be.as_str(),
            other.be.as_str(),
        )
    }

    /// A copy that names the same boot environment.
    pub fn copy(&self) -> (r: BoundKey)
        ensures
            r.deep_view() == self.deep_view(),
    {
        BoundKey { pool: self.pool.clone(), be: self.be.clone() }
    }
}

/// The boot environments a dataset is attached to, in the order they were
/// attached.
#[derive(Debug, Clone)]
pub struct BoundList(pub Vec<BoundKey>);

impl DeepView for BoundList {
    type V = Seq<Key>;

    open spec fn deep_view(&self) -> Seq<Key> {
        self.0.deep_view()
    }
}

/// The keys' text forms.
pub open spec fn key_texts(ks: Seq<Key>) -> Seq<Seq<char>> {
    Seq::new(ks.len(), |i: int| key_text(ks[i]))
}

/// The text form of a list: its keys with commas between.
pub open spec fn list_text(ks: Seq<Key>) -> Seq<char> {
    text::joined(key_texts(ks), ","@)
}

/// The text that stands for a property nobody set.
pub open spec fn unset(t: Seq<char>) -> bool {
    t.len() == 0 || t == "-"@
}

/// True iff the value is that of a property nobody set.
pub fn is_unset(t: &str) -> (r: bool)
    ensures
        r == unset(t@),
{
    t.is_empty() || text::eq(t, "-")
}

/// The keys that the pieces of a list name, up to the first bad one.
pub open spec fn keys_of(ps: Seq<Seq<char>>) -> Result<Seq<Key>, Seq<char>>
    decreases ps.len(),
{
    if ps.len() == 0 {
        Ok(seq![])
    } else {
        match keys_of(ps.drop_last()) {
            Err(m) => Err(m),
            Ok(ks) => match key_of(ps.last()) {
                Some(k) => Ok(ks.push(k)),
                None => Err("bad `pool:be` entry "@ + text::quoted_text(ps.last())),
            },
        }
    }
}

/// The list that a text names.
pub open spec fn list_of(t: Seq<char>) -> Result<Seq<Key>, Seq<char>> {
    if unset(t) {
        Ok(seq![])
    } else {
        keys_of(text::pieces(t, ','))
    }
}

/// `ks` with `k` behind it, unless it holds `k` already.
pub open spec fn with_key(ks: Seq<Key>, k: Key) -> Seq<Key> {
    if ks.contains(k) {
        ks
    } else {
        ks.push(k)
    }
}

/// `ks` without `k`.
pub open spec fn without_key(ks: Seq<Key>, k: Key) -> Seq<Key>
    decreases ks.len(),
{
    if ks.len() == 0 {
        seq![]
    } else if ks.last() == k {
        without_key(ks.drop_last(), k)
    } else {
        without_key(ks.drop_last(), k).push(ks.last())
    }
}

impl BoundList {
    /// The list without entries.
    pub fn new() -> (l: BoundList)
        ensures
            l.deep_view() == Seq::<Key>::empty(),
    {
        let v: Vec<BoundKey> = Vec::new();
        assert(v.deep_view() =~= Seq::<Key>::empty());
        BoundList(v)
    }

    /// Reads `<pool>:<be>,<pool>:<be>,...`; a property nobody set is the list
    /// without entries.
    pub fn parse(s: &str) -> (r: Result<BoundList, Error>)
        ensures
            error::outcome(r) == list_of(s@),
    {
        let mut out: BoundList = BoundList::new();
        if is_unset(s) {
            return Ok(out);
        }
        let ps = text::split(s, ',');
        let mut i: usize = 0;
        while i < ps.len()
            invariant
                i <= ps@.len(),
                keys_of(ps.deep_view().take(i as int)) == Ok::<Seq<Key>, Seq<char>>(
                    out.deep_view(),
                ),
                ps.deep_view() == text::pieces(s@, ','),
                !unset(s@),
            decreases ps@.len() - i,
        {
            proof {
                let next = ps.deep_view().take(i + 1);
                assert(next.drop_last() =~= ps.deep_view().take(i as int));
                assert(next.last() == ps@[i as int]@);
            }
            match BoundKey::parse(ps[i]) {
                Some(k) => {
                    let ghost so_far = out.deep_view();
                    out.0.push(k);
                    assert(out.deep_view() =~= so_far.push(k.deep_view()));
                },
                None => {
                    proof {
                        lemma_keys_stay_bad(ps.deep_view(), i + 1);
                        assert(ps.deep_view().take(ps@.len() as int) =~= ps.deep_view());
                    }
                    let q: String = text::quoted(ps[i]);
                    return Err(Error::from_text(text::cat2("bad `pool:be` entry ", q.as_str())));
                },
            }
            i = i + 1;
        }
        assert(ps.deep_view().take(i as int) =~= ps.deep_view());
        Ok(out)
    }

    /// The entries with commas between.
    pub fn render(&self) -> (r: String)
        ensures
            r@ == list_text(self.deep_view()),
    {
        let parts = self.renders();
        text::join(&parts, ",")
    }

    /// The text form of every entry.
    pub fn renders(&self) -> (r: Vec<String>)
        ensures
            r.deep_view() == key_texts(self.deep_view()),
    {
        let mut parts: Vec<String> = Vec::new();
        let mut i: usize = 0;
        assert(parts.deep_view() =~= key_texts(self.deep_view()).take(0));
        while i < self.0.len()
            invariant
                i <= self.0@.len(),
                parts.deep_view() == key_texts(self.deep_view()).take(i as int),
            decreases self.0@.len() - i,
        {
            let t: String = self.0[i].render();
            text::push_text(&mut parts, t.as_str());
            assert(key_texts(self.deep_view()).take(i + 1) =~= key_texts(self.deep_view()).take(
                i as int,
            ).push(t@));
            i = i + 1;
        }
        assert(key_texts(self.deep_view()).take(i as int) =~= key_texts(self.deep_view()));
        parts
    }

    /// True iff there is no entry.
    pub fn is_empty(&self) -> (r: bool)
        ensures
            r == (self.deep_view().len() == 0),
    {
        self.0.len() == 0
    }

    /// True iff `k` is an entry.
    pub fn contains(&self, k: &BoundKey) -> (r: bool)
        ensures
            r == self.deep_view().contains(k.deep_view()),
    {
        let mut i: usize = 0;
        while i < self.0.len()
            invariant
                i <= self.0@.len(),
                forall|j: int| 0 <= j < i ==> self.deep_view()[j] != k.deep_view(),
            decreases self.0@.len() - i,
        {
            if self.0[i].same(k) {
                assert(self.deep_view()[i as int] == k.deep_view());
                return true;
            }
            i = i + 1;
        }
        false
    }

    /// Adds `k` at the end, unless it is an entry already.
    pub fn append(&mut self, k: BoundKey)
        ensures
            final(self).deep_view() == with_key(old(self).deep_view(), k.deep_view()),
    {
        if !self.contains(&k) {
            let ghost so_far = self.deep_view();
            self.0.push(k);
            assert(self.deep_view() =~= so_far.push(k.deep_view()));
        }
    }

    /// Takes every occurrence of `k` out.
    pub fn remove(&mut self, k: &BoundKey)
        ensures
            final(self).deep_view() == without_key(old(self).deep_view(), k.deep_view()),
    {
        let mut kept: Vec<BoundKey> = Vec::new();
        let mut i: usize = 0;
        let ghost all = self.deep_view();
        assert(kept.deep_view() =~= without_key(all.take(0), k.deep_view()));
        while i < self.0.len()
            invariant
                i <= self.0@.len(),
                self.deep_view() == all,
                kept.deep_view() == without_key(all.take(i as int), k.deep_view()),
            decreases self.0@.len() - i,
        {
            let ghost so_far = kept.deep_view();
            proof {
                assert(all.take(i + 1).drop_last() =~= all.take(i as int));
                assert(all.take(i + 1).last() == self.0@[i as int].deep_view());
            }
            if !self.0[i].same(k) {
                let c: BoundKey = self.0[i].copy();
                kept.push(c);
                assert(kept.deep_view() =~= so_far.push(c.deep_view()));
            }
            i = i + 1;
        }
        assert(all.take(i as int) =~= all);
        self.0 = kept;
    }

    /// A copy with the same entries.
    pub fn copy(&self) -> (r: BoundList)
        ensures
            r.deep_view() == self.deep_view(),
    {
        let mut v: Vec<BoundKey> = Vec::new();
        let mut i: usize = 0;
        assert(v.deep_view() =~= self.deep_view().take(0));
        while i < self.0.len()
            invariant
                i <= self.0@.len(),
                v.deep_view() == self.deep_view().take(i as int),
            decreases self.0@.len() - i,
        {
            let ghost so_far = v.deep_view();
            let c: BoundKey = self.0[i].copy();
            v.push(c);
            assert(v.deep_view() =~= so_far.push(c.deep_view()));
            assert(self.deep_view().take(i + 1) =~= so_far.push(c.deep_view()));
            i = i + 1;
        }
        assert(self.deep_view().take(i as int) =~= self.deep_view());
        BoundList(v)
    }
}

proof fn lemma_keys_stay_bad(ps: Seq<Seq<char>>, i: int)
    requires
        0 <= i <= ps.len(),
        keys_of(ps.take(i)) is Err,
    ensures
        keys_of(ps.take(ps.len() as int)) == keys_of(ps.take(i)),
    decreases ps.len() - i,
{
    if i < ps.len() {
        assert(ps.take(i + 1).drop_last() =~= ps.take(i));
        lemma_keys_stay_bad(ps, i + 1);
    }
}

/// Adding a key twice is adding it once, and it is then in the list.
pub proof fn law_append_idempotent(ks: Seq<Key>, k: Key)
    ensures
        with_key(with_key(ks, k), k) == with_key(ks, k),
        with_key(ks, k).contains(k),
{
    if !ks.contains(k) {
        assert(ks.push(k)[ks.len() as int] == k);
    }
}

/// A removed key is gone, and every other key is in the list iff it was.
pub proof fn law_remove(ks: Seq<Key>, k: Key, other: Key)
    ensures
        !without_key(ks, k).contains(k),
        other != k ==> (without_key(ks, k).contains(other) <==> ks.contains(other)),
    decreases ks.len(),
{
    if ks.len() > 0 {
        law_remove(ks.drop_last(), k, other);
        let rest = without_key(ks.drop_last(), k);
        let last = ks.last();
        if last != k {
            let out = rest.push(last);
            if out.contains(k) {
                let i = choose|i: int| 0 <= i < out.len() && out[i] == k;
                assert(i < rest.len());
                assert(rest[i] == k);
            }
            if other != k && rest.contains(other) {
                let i = choose|i: int| 0 <= i < rest.len() && rest[i] == other;
                assert(out[i] == other);
            }
            if other == last {
                assert(out[rest.len() as int] == other);
            }
            if out.contains(other) && other != last {
                let i = choose|i: int| 0 <= i < out.len() && out[i] == other;
                assert(rest[i] == other);
            }
        }
        if ks.contains(other) && other != last {
            let i = choose|i: int| 0 <= i < ks.len() && ks[i] == other;
            assert(ks.drop_last()[i] == other);
        }
        if ks.drop_last().contains(other) {
            let i = choose|i: int| 0 <= i < ks.drop_last().len() && ks.drop_last()[i] == other;
            assert(ks[i] == other);
        }
        assert(ks[ks.len() - 1] == last);
    }
}

/// A key that a list's text can hold.
pub open spec fn plain_key(k: Key) -> bool {
    &&& k.pool.len() > 0
    &&& k.be.len() > 0
    &&& !k.pool.contains(':')
    &&& !k.pool.contains(',')
    &&& !k.be.contains(',')
}

/// Reading back a rendered key gives the key.
pub proof fn law_key_round_trip(k: Key)
    requires
        plain_key(k),
    ensures
        key_of(key_text(k)) == Some(k),
{
    let t = key_text(k);
    reveal_strlit(":");
    let n = k.pool.len() as int;
    assert(t[n] == ':');
    assert forall|j: int| 0 <= j < n implies t[j] != ':' by {
        assert(t[j] == k.pool[j]);
        assert(k.pool.contains(k.pool[j]));
    }
    text::lemma_position_is(t, ':', n);
    text::lemma_position(t, ':');
    assert(t.take(n) =~= k.pool);
    assert(t.skip(n + 1) =~= k.be);
}

proof fn lemma_keys_of_texts(ks: Seq<Key>)
    requires
        forall|i: int| 0 <= i < ks.len() ==> plain_key(#[trigger] ks[i]),
    ensures
        keys_of(key_texts(ks)) == Ok::<Seq<Key>, Seq<char>>(ks),
    decreases ks.len(),
{
    if ks.len() > 0 {
        let front = ks.drop_last();
        assert forall|i: int| 0 <= i < front.len() implies plain_key(#[trigger] front[i]) by {
            assert(front[i] == ks[i]);
        }
        lemma_keys_of_texts(front);
        assert(key_texts(ks).drop_last() =~= key_texts(front));
        assert(plain_key(ks[ks.len() - 1]));
        law_key_round_trip(ks.last());
        assert(front.push(ks.last()) =~= ks);
    } else {
        assert(ks =~= seq![]);
    }
}

/// Reading back a rendered binding list gives the list.
pub proof fn law_list_round_trip(ks: Seq<Key>)
    requires
        forall|i: int| 0 <= i < ks.len() ==> plain_key(#[trigger] ks[i]),
    ensures
        list_of(list_text(ks)) == Ok::<Seq<Key>, Seq<char>>(ks),
{
    reveal_strlit(",");
    reveal_strlit("-");
    reveal_strlit(":");
    let ts = key_texts(ks);
    if ks.len() == 0 {
        assert(ks =~= seq![]);
    } else {
        assert(","@ =~= seq![',']);
        assert forall|i: int| 0 <= i < ts.len() implies !(#[trigger] ts[i]).contains(',') by {
            let k = ks[i];
            assert(plain_key(k));
            if ts[i].contains(',') {
                let j = choose|j: int| 0 <= j < ts[i].len() && ts[i][j] == ',';
                if j < k.pool.len() {
                    assert(k.pool[j] == ',');
                } else if j > k.pool.len() {
                    assert(k.be[j - k.pool.len() - 1] == ',');
                }
            }
        }
        text::lemma_pieces_of_joined(ts, ',');
        lemma_keys_of_texts(ks);
        assert(plain_key(ks[0]));
        lemma_joined_len(ts, ","@);
        assert(ts[0].len() > 1);
        assert(list_text(ks).len() > 1);
    }
}

proof fn lemma_joined_len(ps: Seq<Seq<char>>, sep: Seq<char>)
    requires
        ps.len() > 0,
    ensures
        text::joined(ps, sep).len() >= ps[0].len(),
    decreases ps.len(),
{
    if ps.len() > 1 {
        lemma_joined_len(ps.drop_last(), sep);
    }
}

// ---------------------------------------------------------------------------
// Pair pointers
// ---------------------------------------------------------------------------

/// The replication peer of a boot environment: `<pool>/ROOT/<be>`.
#[derive(Debug, Clone)]
pub struct PairPointer {
    pub pool: String,
    pub be: String,
}

impl DeepView for PairPointer {
    type V = Key;

    open spec fn deep_view(&self) -> Key {
        Key { pool: self.pool@, be: self.be@ }
    }
}

/// The dataset of a boot environment.
pub open spec fn be_dataset(pool: Seq<char>, be: Seq<char>) -> Seq<char> {
    pool + "/ROOT/"@ + be
}

/// The dataset of the boot environment `be` of `pool`.
pub fn be_path(pool: &str, be: &str) -> (r: String)
    ensures
        r@ == be_dataset(pool@, be@),
{
    text::cat3(pool, "/ROOT/", be)
}

/// The pair pointer that a dataset's name is: `<pool>/ROOT/<be>`, with nothing
/// empty and no further level.
pub open spec fn pair_of(t: Seq<char>) -> Option<Key> {
    let ps = text::pieces(t, '/');
    if ps.len() == 3 && ps[0].len() > 0 && ps[1] == "ROOT"@ && ps[2].len() > 0 {
        Some(Key { pool: ps[0], be: ps[2] })
    } else {
        None
    }
}

/// The dataset that a pair pointer names.
pub open spec fn pair_text(k: Key) -> Seq<char> {
    be_dataset(k.pool, k.be)
}

impl PairPointer {
    /// Reads `<pool>/ROOT/<be>`; nothing else is a pair pointer.
    pub fn parse_dataset(s: &str) -> (r: Option<PairPointer>)
        ensures
            r.deep_view() == pair_of(s@),
    {
        let ps = text::split(s, '/');
        proof {
            assert(ps.deep_view().len() == ps@.len());
            assert(forall|i: int| 0 <= i < ps@.len() ==> ps.deep_view()[i] == ps@[i]@);
        }
        if ps.len() == 3 && !ps[0].is_empty() && text::eq(ps[1], "ROOT") && !ps[2].is_empty() {
            Some(PairPointer { pool: ps[0].to_owned(), be: ps[2].to_owned() })
        } else {
            None
        }
    }

    /// `<pool>/ROOT/<be>`.
    pub fn render(&self) -> (r: String)
        ensures
            r@ == pair_text(self.deep_view()),
    {
        be_path(self.pool.as_str(), self.be.as_str())
    }

    /// True iff both name the same boot environment.
    pub fn same(&self, other: &PairPointer) -> (r: bool)
        ensures
            r == (self.deep_view() == other.deep_view()),
    {
        text::eq(self.pool.as_str(), other.pool.as_str()) && text::eq(
            self.be.as_str(),
            other.be.as_str(),
        )
    }
}

/// Reading back a rendered pair pointer gives the pointer.
pub proof fn law_pair_round_trip(k: Key)
    requires
        k.pool.len() > 0,
        k.be.len() > 0,
        !k.pool.contains('/'),
        !k.be.contains('/'),
    ensures
        pair_of(pair_text(k)) == Some(k),
{
    reveal_strlit("/ROOT/");
    reveal_strlit("ROOT");
    let ps = seq![k.pool, "ROOT"@, k.be];
    assert(!"ROOT"@.contains('/'));
    text::lemma_pieces_of_joined(ps, '/');
    let j2 = text::joined(ps.take(2), seq!['/']);
    assert(ps.drop_last() =~= ps.take(2));
    assert(ps.take(2).drop_last() =~= seq![k.pool]);
    assert(text::joined(seq![k.pool], seq!['/']) == k.pool);
    assert(j2 == k.pool + seq!['/'] + "ROOT"@);
    assert(text::joined(ps, seq!['/']) =~= pair_text(k));
}

/// A pair pointer renders as the text that it was read from.
pub proof fn law_pair_text(t: Seq<char>)
    ensures
        pair_of(t) matches Some(k) ==> pair_text(k) == t,
{
    reveal_strlit("/ROOT/");
    reveal_strlit("ROOT");
    reveal_with_fuel(text::pieces, 4);
    if let Some(k) = pair_of(t) {
        text::lemma_position(t, '/');
        let i = text::position(t, '/');
        let rest = t.skip(i + 1);
        text::lemma_position(rest, '/');
        let j = text::position(rest, '/');
        let last = rest.skip(j + 1);
        text::lemma_position(last, '/');
        assert(text::pieces(t, '/') =~= seq![t.take(i)] + text::pieces(rest, '/'));
        assert(text::pieces(rest, '/') =~= seq![rest.take(j)] + text::pieces(last, '/'));
        assert(text::pieces(last, '/').len() == 1);
        assert(text::pieces(t, '/')[0] == t.take(i));
        assert(text::pieces(t, '/')[1] == rest.take(j));
        assert(text::pieces(t, '/')[2] == last);
        assert(t =~= t.take(i) + seq!['/'] + rest);
        assert(rest =~= rest.take(j) + seq!['/'] + last);
        assert("/ROOT/"@ =~= seq!['/'] + "ROOT"@ + seq!['/']);
        assert(k.pool == t.take(i) && rest.take(j) == "ROOT"@ && k.be == last);
        assert(pair_text(k) =~= t.take(i) + seq!['/'] + (rest.take(j) + seq!['/'] + last));
    }
}

/// A pair pointer is not read from the value of a property nobody set.
pub proof fn law_pair_unset(t: Seq<char>)
    requires
        unset(t),
    ensures
        pair_of(t) is None,
{
    reveal_strlit("-");
    text::lemma_position(t, '/');
    if text::position(t, '/') < t.len() {
        assert(t[0] == '-');
    }
    assert(text::pieces(t, '/').len() == 1);
}

// ---------------------------------------------------------------------------
// Replication anchors
// ---------------------------------------------------------------------------

/// A snapshot that replication made for itself: its name, which stands behind
/// the last `@` where there is one, begins with `mirror-`.
pub open spec fn anchor(name: Seq<char>) -> bool {
    text::begins(text::after_last(name, '@'), "mirror-"@)
}

/// True iff the snapshot was made by replication for itself. Takes a bare
/// snapshot name, or one with its dataset in front.
pub fn is_replication_anchor(name: &str) -> (r: bool)
    ensures
        r == anchor(name@),
{
    text::starts_with(text::tail(name, '@'), "mirror-")
}

// ---------------------------------------------------------------------------
// Properties
// ---------------------------------------------------------------------------

/// What a pool is for.
#[derive(Debug, Clone, Copy, PartialEq, Eq, Structural)]
pub enum PoolRole {
    /// Holds boot environments.
    Root,
}

impl DeepView for PoolRole {
    type V = PoolRole;

    open spec fn deep_view(&self) -> PoolRole {
        *self
    }
}

/// The `canmount` property.
#[derive(Debug, Clone, Copy, PartialEq, Eq, Structural)]
pub enum Canmount {
    On,
    Off,
    Noauto,
}

impl DeepView for Canmount {
    type V = Canmount;

    open spec fn deep_view(&self) -> Canmount {
        *self
    }
}

/// The text form of `canmount`.
pub open spec fn canmount_text(c: Canmount) -> Seq<char> {
    match c {
        Canmount::On => "on"@,
        Canmount::Off => "off"@,
        Canmount::Noauto => "noauto"@,
    }
}

impl Canmount {
    /// `on`, `off` or `noauto`.
    pub fn render(&self) -> (r: &'static str)
        ensures
            r@ == canmount_text(*self),
    {
        match self {
            Canmount::On => "on",
            Canmount::Off => "off",
            Canmount::Noauto => "noauto",
        }
    }
}

/// The `mountpoint` property.
#[derive(Debug, Clone)]
pub enum Mountpoint {
    /// `none`
    Nowhere,
    Legacy,
    Path(String),
}

/// A mountpoint, by what it reads.
pub enum Mount {
    Nowhere,
    Legacy,
    Path(Seq<char>),
}

impl DeepView for Mountpoint {
    type V = Mount;

    open spec fn deep_view(&self) -> Mount {
        match self {
            Mountpoint::Nowhere => Mount::Nowhere,
            Mountpoint::Legacy => Mount::Legacy,
            Mountpoint::Path(p) => Mount::Path(p@),
        }
    }
}

impl Mountpoint {
    /// A copy that reads the same.
    pub fn copy(&self) -> (r: Mountpoint)
        ensures
            r.deep_view() == self.deep_view(),
    {
        match self {
            Mountpoint::Nowhere => Mountpoint::Nowhere,
            Mountpoint::Legacy => Mountpoint::Legacy,
            Mountpoint::Path(p) => Mountpoint::Path(p.clone()),
        }
    }
}

/// A property of a dataset or a pool, as far as the library reads it.
#[derive(Debug, Clone)]
pub enum Property {
    /// `zboot:role` of a pool.
    ZbootRole(PoolRole),
    /// `zboot:be`: whether the dataset is a boot environment.
    ZbootBe(bool),
    /// `origin`: the snapshot the dataset was cloned from.
    Origin(Option<SnapshotRef>),
    /// `zboot:attached-to`.
    ZbootAttachedTo(BoundList),
    Canmount(Canmount),
    Mountpoint(Mountpoint),
    /// `zboot:created-by`.
    ZbootCreatedBy(String),
    /// Any other property, and those that nobody set.
    Other { name: String, value: String },
}

/// A property, by what it says.
pub enum Prop {
    Role(PoolRole),
    Be(bool),
    Origin(Option<Snap>),
    AttachedTo(Seq<Key>),
    Canmount(Canmount),
    Mountpoint(Mount),
    CreatedBy(Seq<char>),
    Other { name: Seq<char>, value: Seq<char> },
}

impl DeepView for Property {
    type V = Prop;

    open spec fn deep_view(&self) -> Prop {
        match self {
            Property::ZbootRole(x) => Prop::Role(*x),
            Property::ZbootBe(b) => Prop::Be(*b),
            Property::Origin(o) => Prop::Origin(o.deep_view()),
            Property::ZbootAttachedTo(l) => Prop::AttachedTo(l.deep_view()),
            Property::Canmount(c) => Prop::Canmount(*c),
            Property::Mountpoint(m) => Prop::Mountpoint(m.deep_view()),
            Property::ZbootCreatedBy(s) => Prop::CreatedBy(s@),
            Property::Other { name, value } => Prop::Other { name: name@, value: value@ },
        }
    }
}

/// What the property `name` says where it reads `value`. A property that
/// nobody set says nothing, but that a dataset is no boot environment and no
/// clone.
pub open spec fn prop_of(name: Seq<char>, value: Seq<char>) -> Result<Prop, Seq<char>> {
    let plain = Prop::Other { name, value };
    if name == "zboot:be"@ {
        Ok(Prop::Be(value == "true"@))
    } else if name == "origin"@ {
        if unset(value) {
            Ok(Prop::Origin(None))
        } else {
            match snap_of(value) {
                Some(s) => Ok(Prop::Origin(Some(s))),
                None => Err("bad origin "@ + text::quoted_text(value)),
            }
        }
    } else if unset(value) {
        Ok(plain)
    } else if name == "zboot:role"@ {
        if value == "root"@ {
            Ok(Prop::Role(PoolRole::Root))
        } else {
            Ok(plain)
        }
    } else if name == "zboot:attached-to"@ {
        match list_of(value) {
            Ok(ks) => Ok(Prop::AttachedTo(ks)),
            Err(m) => Err(m),
        }
    } else if name == "canmount"@ {
        if value == "on"@ {
            Ok(Prop::Canmount(Canmount::On))
        } else if value == "off"@ {
            Ok(Prop::Canmount(Canmount::Off))
        } else if value == "noauto"@ {
            Ok(Prop::Canmount(Canmount::Noauto))
        } else {
            Ok(plain)
        }
    } else if name == "mountpoint"@ {
        if value == "none"@ {
            Ok(Prop::Mountpoint(Mount::Nowhere))
        } else if value == "legacy"@ {
            Ok(Prop::Mountpoint(Mount::Legacy))
        } else {
            Ok(Prop::Mountpoint(Mount::Path(value)))
        }
    } else if name == "zboot:created-by"@ {
        Ok(Prop::CreatedBy(value))
    } else {
        Ok(plain)
    }
}

/// Reads the value of one property.
pub fn parse_property(name: &str, value: &str) -> (r: Result<Property, Error>)
    ensures
        error::outcome(r) == prop_of(name@, value@),
{
    if text::eq(name, "zboot:be") {
        return Ok(Property::ZbootBe(text::eq(value, "true")));
    }
    if text::eq(name, "origin") {
        if is_unset(value) {
            return Ok(Property::Origin(None));
        }
        return match SnapshotRef::parse(value) {
            Some(s) => Ok(Property::Origin(Some(s))),
            None => {
                let q: String = text::quoted(value);
                Err(Error::from_text(text::cat2("bad origin ", q.as_str())))
            },
        };
    }
    if is_unset(value) {
        return Ok(Property::Other { name: name.to_owned(), value: value.to_owned() });
    }
    if text::eq(name, "zboot:role") {
        if text::eq(value, "root") {
            return Ok(Property::ZbootRole(PoolRole::Root));
        }
    } else if text::eq(name, "zboot:attached-to") {
        return match BoundList::parse(value) {
            Ok(l) => Ok(Property::ZbootAttachedTo(l)),
            Err(e) => Err(e),
        };
    } else if text::eq(name, "canmount") {
        if text::eq(value, "on") {
            return Ok(Property::Canmount(Canmount::On));
        }
        if text::eq(value, "off") {
            return Ok(Property::Canmount(Canmount::Off));
        }
        if text::eq(value, "noauto") {
            return Ok(Property::Canmount(Canmount::Noauto));
        }
    } else if text::eq(name, "mountpoint") {
        if text::eq(value, "none") {
            return Ok(Property::Mountpoint(Mountpoint::Nowhere));
        }
        if text::eq(value, "legacy") {
            return Ok(Property::Mountpoint(Mountpoint::Legacy));
        }
        return Ok(Property::Mountpoint(Mountpoint::Path(value.to_owned())));
    } else if text::eq(name, "zboot:created-by") {
        return Ok(Property::ZbootCreatedBy(value.to_owned()));
    }
    Ok(Property::Other { name: name.to_owned(), value: value.to_owned() })
}

/// One row of `zfs get -H -o name,property,value`: three columns with a tab
/// between; the third goes to the end of the line.
pub open spec fn prop_row(line: Seq<char>) -> Result<(Seq<char>, Prop), Seq<char>> {
    match text::cut(line, '\t') {
        None => Err("bad row "@ + text::quoted_text(line)),
        Some((ds, rest)) => match text::cut(rest, '\t') {
            None => Err("bad row "@ + text::quoted_text(line)),
            Some((name, value)) => match prop_of(name, value) {
                Ok(p) => Ok((ds, p)),
                Err(m) => Err(m),
            },
        },
    }
}

/// The rows of a property table, up to the first bad one; blank lines count
/// for nothing.
pub open spec fn prop_rows(ls: Seq<Seq<char>>) -> Result<Seq<(Seq<char>, Prop)>, Seq<char>>
    decreases ls.len(),
{
    if ls.len() == 0 {
        Ok(seq![])
    } else {
        match prop_rows(ls.drop_last()) {
            Err(m) => Err(m),
            Ok(rows) => if text::trimmed(ls.last()).len() == 0 {
                Ok(rows)
            } else {
                match prop_row(ls.last()) {
                    Err(m) => Err(m),
                    Ok(row) => Ok(rows.push(row)),
                }
            },
        }
    }
}

/// The property table that a text holds.
pub open spec fn props_of(t: Seq<char>) -> Result<Seq<(Seq<char>, Prop)>, Seq<char>> {
    prop_rows(text::lines_of(t))
}

proof fn lemma_rows_stay_bad(ls: Seq<Seq<char>>, i: int)
    requires
        0 <= i <= ls.len(),
        prop_rows(ls.take(i)) is Err,
    ensures
        prop_rows(ls) == prop_rows(ls.take(i)),
    decreases ls.len() - i,
{
    if i < ls.len() {
        assert(ls.take(i + 1).drop_last() =~= ls.take(i));
        lemma_rows_stay_bad(ls, i + 1);
    } else {
        assert(ls.take(i) =~= ls);
    }
}

fn parse_row(line: &str) -> (r: Result<(String, Property), Error>)
    ensures
        error::outcome(r) == prop_row(line@),
{
    match text::split_once(line, '\t') {
        None => {
            let q: String = text::quoted(line);
            Err(Error::from_text(text::cat2("bad row ", q.as_str())))
        },
        Some((ds, rest)) => match text::split_once(rest, '\t') {
            None => {
                let q: String = text::quoted(line);
                Err(Error::from_text(text::cat2("bad row ", q.as_str())))
            },
            Some((name, value)) => match parse_property(name, value) {
                Ok(p) => Ok((ds.to_owned(), p)),
                Err(e) => Err(e),
            },
        },
    }
}

/// Reads the output of `zfs get` or `zpool get` with
/// `-H -o name,property,value`.
pub fn parse_zfs_get(t: &str) -> (r: Result<Vec<(String, Property)>, Error>)
    ensures
        error::outcome(r) == props_of(t@),
{
    let ls = text::lines(t);
    let mut out: Vec<(String, Property)> = Vec::new();
    let mut i: usize = 0;
    assert(ls.deep_view().take(0) =~= seq![]);
    assert(out.deep_view() =~= seq![]);
    while i < ls.len()
        invariant
            i <= ls@.len(),
            ls.deep_view() == text::lines_of(t@),
            prop_rows(ls.deep_view().take(i as int)) == Ok::<Seq<(Seq<char>, Prop)>, Seq<char>>(
                out.deep_view(),
            ),
        decreases ls@.len() - i,
    {
        proof {
            let next = ls.deep_view().take(i + 1);
            assert(next.drop_last() =~= ls.deep_view().take(i as int));
            assert(next.last() == ls@[i as int]@);
        }
        if !text::trim(ls[i]).is_empty() {
            match parse_row(ls[i]) {
                Ok(row) => {
                    let ghost so_far = out.deep_view();
                    out.push(row);
                    assert(out.deep_view() =~= so_far.push(row.deep_view()));
                },
                Err(e) => {
                    proof {
                        lemma_rows_stay_bad(ls.deep_view(), i + 1);
                    }
                    return Err(e);
                },
            }
        }
        i = i + 1;
    }
    assert(ls.deep_view().take(i as int) =~= ls.deep_view());
    Ok(out)
}

// ---------------------------------------------------------------------------
// Pools
// ---------------------------------------------------------------------------

/// An imported pool.
#[derive(Debug, Clone)]
pub struct Pool {
    pub name: String,
    pub role: Option<PoolRole>,
    /// The dataset that boots next from this pool.
    pub bootfs: Option<String>,
    pub guid: Option<u64>,
}

/// A pool, by what is known of it.
pub struct PoolFacts {
    pub name: Seq<char>,
    pub role: Option<PoolRole>,
    pub bootfs: Option<Seq<char>>,
    pub guid: Option<u64>,
}

impl DeepView for Pool {
    type V = PoolFacts;

    open spec fn deep_view(&self) -> PoolFacts {
        PoolFacts {
            name: self.name@,
            role: self.role,
            bootfs: self.bootfs.deep_view(),
            guid: self.guid,
        }
    }
}

impl Pool {
    /// A pool of which nothing but the name is known.
    pub fn new(name: &str) -> (p: Pool)
        ensures
            p.deep_view() == (PoolFacts { name: name@, role: None, bootfs: None, guid: None }),
    {
        Pool { name: name.to_owned(), role: None, bootfs: None, guid: None }
    }

    /// A copy with the same facts.
    pub fn copy(&self) -> (p: Pool)
        ensures
            p.deep_view() == self.deep_view(),
    {
        Pool {
            name: self.name.clone(),
            role: self.role,
            bootfs: text::clone_opt(&self.bootfs),
            guid: self.guid,
        }
    }
}

/// The value of a column, if there is one and somebody set it.
pub open spec fn column(ps: Seq<Seq<char>>, i: int) -> Option<Seq<char>> {
    if i < ps.len() && !unset(ps[i]) {
        Some(ps[i])
    } else {
        None
    }
}

/// The largest GUID.
pub const GUID_MAX: u64 = 0xffff_ffff_ffff_ffff;

/// One row of `zpool list -Hp -o name,bootfs,guid`.
pub open spec fn pool_row(line: Seq<char>) -> Result<PoolFacts, Seq<char>> {
    let ps = text::pieces(line, '\t');
    match column(ps, 2) {
        None => Ok(PoolFacts { name: ps[0], role: None, bootfs: column(ps, 1), guid: None }),
        Some(g) => match text::parsed_upto(g, GUID_MAX as nat) {
            None => Err("bad pool guid "@ + text::quoted_text(g)),
            Some(n) => Ok(
                PoolFacts { name: ps[0], role: None, bootfs: column(ps, 1), guid: Some(n as u64) },
            ),
        },
    }
}

/// The rows of a pool table, up to the first bad one; blank lines count for
/// nothing.
pub open spec fn pool_rows(ls: Seq<Seq<char>>) -> Result<Seq<PoolFacts>, Seq<char>>
    decreases ls.len(),
{
    if ls.len() == 0 {
        Ok(seq![])
    } else {
        match pool_rows(ls.drop_last()) {
            Err(m) => Err(m),
            Ok(rows) => if text::trimmed(ls.last()).len() == 0 {
                Ok(rows)
            } else {
                match pool_row(ls.last()) {
                    Err(m) => Err(m),
                    Ok(row) => Ok(rows.push(row)),
                }
            },
        }
    }
}

/// The pool table that a text holds.
pub open spec fn pools_of(t: Seq<char>) -> Result<Seq<PoolFacts>, Seq<char>> {
    pool_rows(text::lines_of(t))
}

proof fn lemma_pool_rows_stay_bad(ls: Seq<Seq<char>>, i: int)
    requires
        0 <= i <= ls.len(),
        pool_rows(ls.take(i)) is Err,
    ensures
        pool_rows(ls) == pool_rows(ls.take(i)),
    decreases ls.len() - i,
{
    if i < ls.len() {
        assert(ls.take(i + 1).drop_last() =~= ls.take(i));
        lemma_pool_rows_stay_bad(ls, i + 1);
    } else {
        assert(ls.take(i) =~= ls);
    }
}

fn get_column(ps: &Vec<&str>, i: usize) -> (r: Option<String>)
    ensures
        r.deep_view() == column(ps.deep_view(), i as int),
{
    if i < ps.len() && !is_unset(ps[i]) {
        Some(ps[i].to_owned())
    } else {
        None
    }
}

fn parse_pool_row(line: &str) -> (r: Result<Pool, Error>)
    ensures
        error::outcome(r) == pool_row(line@),
{
    let ps = text::split(line, '\t');
    let bootfs: Option<String> = get_column(&ps, 1);
    let name: String = ps[0].to_owned();
    assert(ps.deep_view()[0] == ps@[0]@);
    match get_column(&ps, 2) {
        None => Ok(Pool { name, role: None, bootfs, guid: None }),
        Some(g) => match text::parse_upto(g.as_str(), GUID_MAX) {
            None => {
                let q: String = text::quoted(g.as_str());
                Err(Error::from_text(text::cat2("bad pool guid ", q.as_str())))
            },
            Some(n) => Ok(Pool { name, role: None, bootfs, guid: Some(n) }),
        },
    }
}

/// Reads the output of `zpool list -Hp -o name,bootfs,guid`.
pub fn parse_zpool_list(t: &str) -> (r: Result<Vec<Pool>, Error>)
    ensures
        error::outcome(r) == pools_of(t@),
{
    let ls = text::lines(t);
    let mut out: Vec<Pool> = Vec::new();
    let mut i: usize = 0;
    assert(ls.deep_view().take(0) =~= seq![]);
    assert(out.deep_view() =~= seq![]);
    while i < ls.len()
        invariant
            i <= ls@.len(),
            ls.deep_view() == text::lines_of(t@),
            pool_rows(ls.deep_view().take(i as int)) == Ok::<Seq<PoolFacts>, Seq<char>>(
                out.deep_view(),
            ),
        decreases ls@.len() - i,
    {
        proof {
            let next = ls.deep_view().take(i + 1);
            assert(next.drop_last() =~= ls.deep_view().take(i as int));
            assert(next.last() == ls@[i as int]@);
        }
        if !text::trim(ls[i]).is_empty() {
            match parse_pool_row(ls[i]) {
                Ok(row) => {
                    let ghost so_far = out.deep_view();
                    out.push(row);
                    assert(out.deep_view() =~= so_far.push(row.deep_view()));
                },
                Err(e) => {
                    proof {
                        lemma_pool_rows_stay_bad(ls.deep_view(), i + 1);
                    }
                    return Err(e);
                },
            }
        }
        i = i + 1;
    }
    assert(ls.deep_view().take(i as int) =~= ls.deep_view());
    Ok(out)
}

/// The names of the pools, in order.
pub open spec fn pool_names(ps: Seq<PoolFacts>) -> Seq<Seq<char>> {
    Seq::new(ps.len(), |i: int| ps[i].name)
}

/// The names of the pools, in order.
pub fn names_of_pools(ps: &Vec<Pool>) -> (r: Vec<String>)
    ensures
        r.deep_view() == pool_names(ps.deep_view()),
{
    let mut out: Vec<String> = Vec::new();
    let mut i: usize = 0;
    assert(out.deep_view() =~= pool_names(ps.deep_view()).take(0));
    while i < ps.len()
        invariant
            i <= ps@.len(),
            out.deep_view() == pool_names(ps.deep_view()).take(i as int),
        decreases ps@.len() - i,
    {
        text::push_text(&mut out, ps[i].name.as_str());
        assert(pool_names(ps.deep_view()).take(i + 1) =~= pool_names(ps.deep_view()).take(
            i as int,
        ).push(ps@[i as int].name@));
        i = i + 1;
    }
    assert(pool_names(ps.deep_view()).take(i as int) =~= pool_names(ps.deep_view()));
    out
}

// ---------------------------------------------------------------------------
// Boot environments
// ---------------------------------------------------------------------------

/// A bootable root file system.
#[derive(Debug, Clone)]
pub struct BootEnvironment {
    pub pool: String,
    pub name: String,
    pub dataset: String,
    /// The snapshot it was cloned from.
    pub origin: Option<SnapshotRef>,
    pub created_by: Option<String>,
    pub mountpoint: Option<Mountpoint>,
    pub canmount: Option<Canmount>,
}

/// A boot environment, by what is known of it.
pub struct Be {
    pub pool: Seq<char>,
    pub name: Seq<char>,
    pub dataset: Seq<char>,
    pub origin: Option<Snap>,
    pub created_by: Option<Seq<char>>,
    pub mountpoint: Option<Mount>,
    pub canmount: Option<Canmount>,
}

impl DeepView for BootEnvironment {
    type V = Be;

    open spec fn deep_view(&self) -> Be {
        Be {
            pool: self.pool@,
            name: self.name@,
            dataset: self.dataset@,
            origin: self.origin.deep_view(),
            created_by: self.created_by.deep_view(),
            mountpoint: self.mountpoint.deep_view(),
            canmount: self.canmount,
        }
    }
}

impl Keyed for BootEnvironment {
    open spec fn key_of(v: Be) -> Seq<char> {
        v.name
    }

    fn key(&self) -> (r: &str) {
        self.name.as_str()
    }
}

impl BootEnvironment {
    /// The boot environment `name` of `pool`, at its usual dataset.
    pub fn new(pool: &str, name: &str) -> (b: BootEnvironment)
        ensures
            b.deep_view() == (Be {
                pool: pool@,
                name: name@,
                dataset: be_dataset(pool@, name@),
                origin: None,
                created_by: None,
                mountpoint: None,
                canmount: None,
            }),
    {
        BootEnvironment {
            pool: pool.to_owned(),
            name: name.to_owned(),
            dataset: be_path(pool, name),
            origin: None,
            created_by: None,
            mountpoint: None,
            canmount: None,
        }
    }
}

// ---------------------------------------------------------------------------
// The forest: boot environments by what they were cloned from
// ---------------------------------------------------------------------------

/// All boot environments. One that was cloned from a snapshot of another
/// stands under it.
#[derive(Debug, Clone)]
pub struct Forest {
    pub bes: Vec<BootEnvironment>,
}

impl DeepView for Forest {
    type V = Seq<Be>;

    open spec fn deep_view(&self) -> Seq<Be> {
        self.bes.deep_view()
    }
}

/// `b` was cloned from a snapshot of `dataset`.
pub open spec fn child_of(b: Be, dataset: Seq<char>) -> bool {
    b.origin matches Some(s) && s.dataset == dataset
}

/// One of the boot environments lies at `dataset`.
pub open spec fn has_dataset(bes: Seq<Be>, dataset: Seq<char>) -> bool {
    exists|i: int| 0 <= i < bes.len() && (#[trigger] bes[i]).dataset == dataset
}

/// `b` stands under none of `bes`.
pub open spec fn root_in(bes: Seq<Be>, b: Be) -> bool {
    match b.origin {
        Some(s) => !has_dataset(bes, s.dataset),
        None => true,
    }
}

/// Those that stand under none of the others.
pub open spec fn roots_of(bes: Seq<Be>) -> Seq<Be> {
    bes.filter(|b: Be| root_in(bes, b))
}

/// Those cloned from a snapshot of `dataset`.
pub open spec fn children_in(bes: Seq<Be>, dataset: Seq<char>) -> Seq<Be> {
    bes.filter(|b: Be| child_of(b, dataset))
}

impl Forest {
    /// The forest of these boot environments.
    pub fn from_origins(bes: Vec<BootEnvironment>) -> (f: Forest)
        ensures
            f.deep_view() == bes.deep_view(),
            f.bes == bes,
    {
        Forest { bes }
    }

    /// True iff there is no boot environment.
    pub fn is_empty(&self) -> (r: bool)
        ensures
            r == (self.deep_view().len() == 0),
    {
        self.bes.len() == 0
    }

    /// True iff a boot environment lies at `dataset`.
    pub fn holds(&self, dataset: &str) -> (r: bool)
        ensures
            r == has_dataset(self.deep_view(), dataset@),
    {
        let mut i: usize = 0;
        while i < self.bes.len()
            invariant
                i <= self.bes@.len(),
                forall|j: int| 0 <= j < i ==> (#[trigger] self.deep_view()[j]).dataset != dataset@,
            decreases self.bes@.len() - i,
        {
            if text::eq(self.bes[i].dataset.as_str(), dataset) {
                assert(self.deep_view()[i as int].dataset == dataset@);
                return true;
            }
            i = i + 1;
        }
        false
    }

    /// The boot environments that stand under no other.
    pub fn roots(&self) -> (r: Vec<&BootEnvironment>)
        ensures
            r.deep_view() == roots_of(self.deep_view()),
    {
        let mut out: Vec<&BootEnvironment> = Vec::new();
        let ghost all = self.deep_view();
        let ghost keep = |b: Be| root_in(all, b);
        let mut i: usize = 0;
        proof {
            reveal(Seq::filter);
        }
        assert(out.deep_view() =~= all.take(0).filter(keep));
        while i < self.bes.len()
            invariant
                i <= self.bes@.len(),
                all == self.deep_view(),
                keep == (|b: Be| root_in(all, b)),
                out.deep_view() == all.take(i as int).filter(keep),
            decreases self.bes@.len() - i,
        {
            let ghost so_far = out.deep_view();
            proof {
                reveal(Seq::filter);
                assert(all.take(i + 1).drop_last() =~= all.take(i as int));
                assert(all.take(i + 1).last() == self.bes@[i as int].deep_view());
            }
            let is_root: bool = match &self.bes[i].origin {
                Some(s) => !self.holds(s.dataset.as_str()),
                None => true,
            };
            if is_root {
                out.push(&self.bes[i]);
                assert(out.deep_view() =~= so_far.push(self.bes@[i as int].deep_view()));
            }
            i = i + 1;
        }
        assert(all.take(i as int) =~= all);
        out
    }

    /// The boot environments cloned from a snapshot of `dataset`.
    pub fn children_of(&self, dataset: &str) -> (r: Vec<&BootEnvironment>)
        ensures
            r.deep_view() == children_in(self.deep_view(), dataset@),
    {
        let mut out: Vec<&BootEnvironment> = Vec::new();
        let ghost all = self.deep_view();
        let ghost keep = |b: Be| child_of(b, dataset@);
        let mut i: usize = 0;
        proof {
            reveal(Seq::filter);
        }
        assert(out.deep_view() =~= all.take(0).filter(keep));
        while i < self.bes.len()
            invariant
                i <= self.bes@.len(),
                all == self.deep_view(),
                keep == (|b: Be| child_of(b, dataset@)),
                out.deep_view() == all.take(i as int).filter(keep),
            decreases self.bes@.len() - i,
        {
            let ghost so_far = out.deep_view();
            proof {
                reveal(Seq::filter);
                assert(all.take(i + 1).drop_last() =~= all.take(i as int));
                assert(all.take(i + 1).last() == self.bes@[i as int].deep_view());
            }
            let is_child: bool = match &self.bes[i].origin {
                Some(s) => text::eq(s.dataset.as_str(), dataset),
                None => false,
            };
            if is_child {
                out.push(&self.bes[i]);
                assert(out.deep_view() =~= so_far.push(self.bes@[i as int].deep_view()));
            }
            i = i + 1;
        }
        assert(all.take(i as int) =~= all);
        out
    }
}

// ---------------------------------------------------------------------------
// How the two sides of a pair stand
// ---------------------------------------------------------------------------

/// Those of `a` that `b` lacks.
pub open spec fn lacking(a: Seq<Seq<char>>, b: Seq<Seq<char>>) -> Seq<Seq<char>> {
    a.filter(|g: Seq<char>| !b.contains(g))
}

/// How many of `a` there are that `b` lacks.
pub fn count_lacking(a: &Vec<String>, b: &Vec<String>) -> (r: usize)
    ensures
        r == lacking(a.deep_view(), b.deep_view()).len(),
{
    let ghost all = a.deep_view();
    let ghost keep = |g: Seq<char>| !b.deep_view().contains(g);
    let mut n: usize = 0;
    let mut i: usize = 0;
    proof {
        reveal(Seq::filter);
    }
    assert(all.take(0).filter(keep) =~= seq![]);
    while i < a.len()
        invariant
            n <= i <= a@.len(),
            all == a.deep_view(),
            keep == (|g: Seq<char>| !b.deep_view().contains(g)),
            n == all.take(i as int).filter(keep).len(),
        decreases a@.len() - i,
    {
        proof {
            reveal(Seq::filter);
            assert(all.take(i + 1).drop_last() =~= all.take(i as int));
            assert(all.take(i + 1).last() == a@[i as int]@);
        }
        if !text::any_eq(b, a[i].as_str()) {
            n = n + 1;
        }
        i = i + 1;
    }
    assert(all.take(i as int) =~= all);
    n
}

/// How a boot environment stands to its peer.
#[derive(Debug, Clone, Copy, PartialEq, Eq, Structural)]
pub enum PairStatus {
    /// The peer's pool is not imported.
    Unreachable,
    /// The pool is there, the peer is not.
    TargetMissing,
    /// Both hold the same snapshots.
    InSync,
    /// So many snapshots are on this side alone.
    Ahead(usize),
    /// So many snapshots are on the peer's side alone.
    Behind(usize),
    /// So many are on this side alone, and so many on the peer's.
    Diverged(usize, usize),
}

impl DeepView for PairStatus {
    type V = PairStatus;

    open spec fn deep_view(&self) -> PairStatus {
        *self
    }
}

/// How the holder of the snapshots `local` stands to the holder of `peer`.
pub open spec fn status_of(
    local: Seq<Seq<char>>,
    peer: Option<Seq<Seq<char>>>,
    exists_there: bool,
) -> PairStatus {
    match peer {
        None => PairStatus::Unreachable,
        Some(p) => if !exists_there {
            PairStatus::TargetMissing
        } else {
            let ahead = lacking(local, p).len() as usize;
            let behind = lacking(p, local).len() as usize;
            if ahead == 0 && behind == 0 {
                PairStatus::InSync
            } else if behind == 0 {
                PairStatus::Ahead(ahead)
            } else if ahead == 0 {
                PairStatus::Behind(behind)
            } else {
                PairStatus::Diverged(ahead, behind)
            }
        },
    }
}

/// The marker of a status.
pub open spec fn status_text(s: PairStatus) -> Seq<char> {
    match s {
        PairStatus::Unreachable => "[pool not imported]"@,
        PairStatus::TargetMissing => "[target missing]"@,
        PairStatus::InSync => "[in sync]"@,
        PairStatus::Ahead(n) => "[ahead "@ + text::decimal(n as nat) + "]"@,
        PairStatus::Behind(n) => "[behind "@ + text::decimal(n as nat) + "]"@,
        PairStatus::Diverged(a, b) => "[diverged: "@ + text::decimal(a as nat) + " here, "@
            + text::decimal(b as nat) + " there]"@,
    }
}

/// The marker of a status, with the bytes written since the last snapshot
/// where there are any.
pub open spec fn status_line(s: PairStatus, dirty: Option<u64>) -> Seq<char> {
    match dirty {
        Some(n) => if n > 0 {
            status_text(s) + " ("@ + text::decimal(n as nat) + " bytes unsnapshotted)"@
        } else {
            status_text(s)
        },
        None => status_text(s),
    }
}

impl PairStatus {
    /// Compares the snapshots of the two sides, by their GUIDs. `peer` is
    /// `None` where the peer's pool is not imported.
    pub fn from_guids(local: &Vec<String>, peer: Option<&Vec<String>>, exists_there: bool) -> (r:
        PairStatus)
        ensures
            r == status_of(local.deep_view(), peer.deep_view(), exists_there),
    {
        match peer {
            None => PairStatus::Unreachable,
            Some(p) => if !exists_there {
                PairStatus::TargetMissing
            } else {
                let ahead: usize = count_lacking(local, p);
                let behind: usize = count_lacking(p, local);
                if ahead == 0 && behind == 0 {
                    PairStatus::InSync
                } else if behind == 0 {
                    PairStatus::Ahead(ahead)
                } else if ahead == 0 {
                    PairStatus::Behind(behind)
                } else {
                    PairStatus::Diverged(ahead, behind)
                }
            },
        }
    }

    fn marker(&self) -> (r: String)
        ensures
            r@ == status_text(*self),
    {
        match *self {
            PairStatus::Unreachable => "[pool not imported]".to_owned(),
            PairStatus::TargetMissing => "[target missing]".to_owned(),
            PairStatus::InSync => "[in sync]".to_owned(),
            PairStatus::Ahead(n) => {
                let d: String = text::dec_len(n);
                text::cat3("[ahead ", d.as_str(), "]")
            },
            PairStatus::Behind(n) => {
                let d: String = text::dec_len(n);
                text::cat3("[behind ", d.as_str(), "]")
            },
            PairStatus::Diverged(a, b) => {
                let c: String = text::dec_len(a);
                let d: String = text::dec_len(b);
                text::cat5("[diverged: ", c.as_str(), " here, ", d.as_str(), " there]")
            },
        }
    }

    /// The marker, with the bytes written since the last snapshot where there
    /// are any.
    pub fn render(&self, dirty: Option<u64>) -> (r: String)
        ensures
            r@ == status_line(*self, dirty),
    {
        let m: String = self.marker();
        match dirty {
            Some(n) => if n > 0 {
                let d: String = text::dec(n as u128);
                text::cat4(m.as_str(), " (", d.as_str(), " bytes unsnapshotted)")
            } else {
                m
            },
            None => m,
        }
    }
}

/// A pair is in sync just where neither side holds a snapshot that the other
/// lacks.
pub proof fn law_in_sync(local: Seq<Seq<char>>, peer: Seq<Seq<char>>)
    requires
        local.len() <= usize::MAX,
        peer.len() <= usize::MAX,
    ensures
        status_of(local, Some(peer), true) is InSync <==> (forall|g: Seq<char>|
            local.contains(g) <==> peer.contains(g)),
{
    lemma_lacks_nothing(local, peer);
    lemma_lacks_nothing(peer, local);
}

proof fn lemma_lacks_nothing(a: Seq<Seq<char>>, b: Seq<Seq<char>>)
    ensures
        lacking(a, b).len() <= a.len(),
        lacking(a, b).len() == 0 <==> (forall|g: Seq<char>| a.contains(g) ==> b.contains(g)),
{
    let f = |g: Seq<char>| !b.contains(g);
    a.lemma_filter_len(f);
    if lacking(a, b).len() == 0 {
        assert forall|g: Seq<char>| a.contains(g) implies b.contains(g) by {
            if !b.contains(g) {
                let i = choose|i: int| 0 <= i < a.len() && a[i] == g;
                a.lemma_filter_contains(f, i);
                assert(a.filter(f).contains(g));
            }
        }
    } else {
        let g = lacking(a, b)[0];
        a.lemma_filter_pred(f, 0);
        a.lemma_filter_contains_rev(f, g);
        assert(a.contains(g) && !b.contains(g));
    }
}

/// Every line of a table that is not blank is a row of it, and nothing else is.
pub proof fn law_every_row_is_read(ls: Seq<Seq<char>>)
    requires
        prop_rows(ls) is Ok,
    ensures
        forall|x: (Seq<char>, Prop)| #[trigger] prop_rows(ls)->Ok_0.contains(x) <==> exists|i: int| 0 <= i < ls.len() && text::trimmed((#[trigger] ls[i])).len() > 0 && prop_row((#[trigger] ls[i])) == Ok::<(Seq<char>, Prop), Seq<char>>(x),
    decreases ls.len(),
{
    if ls.len() > 0 {
        let front = ls.drop_last();
        law_every_row_is_read(front);
        let before = prop_rows(front)->Ok_0;
        let all = prop_rows(ls)->Ok_0;
        assert forall|x: (Seq<char>, Prop)| #[trigger] all.contains(x) <==> exists|i: int| 0 <= i < ls.len() && text::trimmed((#[trigger] ls[i])).len() > 0 && prop_row((#[trigger] ls[i])) == Ok::<(Seq<char>, Prop), Seq<char>>(x) by {
            if all.contains(x) {
                let k = choose|k: int| 0 <= k < all.len() && all[k] == x;
                if k < before.len() {
                    assert(before[k] == x);
                    assert(before.contains(x));
                    let i = choose|i: int| 0 <= i < front.len() && text::trimmed((#[trigger] front[i])).len() > 0 && prop_row((#[trigger] front[i])) == Ok::<(Seq<char>, Prop), Seq<char>>(x);
                    assert(ls[i] == front[i]);
                } else {
                    assert(text::trimmed(ls[ls.len() - 1]).len() > 0 && prop_row(ls[ls.len() - 1]) == Ok::<(Seq<char>, Prop), Seq<char>>(x));
                }
            }
            if exists|i: int| 0 <= i < ls.len() && text::trimmed((#[trigger] ls[i])).len() > 0 && prop_row((#[trigger] ls[i])) == Ok::<(Seq<char>, Prop), Seq<char>>(x) {
                let i = choose|i: int| 0 <= i < ls.len() && text::trimmed((#[trigger] ls[i])).len() > 0 && prop_row((#[trigger] ls[i])) == Ok::<(Seq<char>, Prop), Seq<char>>(x);
                if i < front.len() {
                    assert(front[i] == ls[i]);
                    assert(before.contains(x));
                    let k = choose|k: int| 0 <= k < before.len() && before[k] == x;
                    assert(all[k] == x);
                } else {
                    assert(ls[i] == ls.last());
                    assert(all[all.len() - 1] == x);
                }
            }
        }
    }
}

/// Every line of a list of pools that is not blank is a pool, and nothing else is.
pub proof fn law_every_pool_row_is_read(ls: Seq<Seq<char>>)
    requires
        pool_rows(ls) is Ok,
    ensures
        forall|x: PoolFacts| #[trigger] pool_rows(ls)->Ok_0.contains(x) <==> exists|i: int| 0 <= i < ls.len() && text::trimmed((#[trigger] ls[i])).len() > 0 && pool_row((#[trigger] ls[i])) == Ok::<PoolFacts, Seq<char>>(x),
    decreases ls.len(),
{
    if ls.len() > 0 {
        let front = ls.drop_last();
        law_every_pool_row_is_read(front);
        let before = pool_rows(front)->Ok_0;
        let all = pool_rows(ls)->Ok_0;
        assert forall|x: PoolFacts| #[trigger] all.contains(x) <==> exists|i: int| 0 <= i < ls.len() && text::trimmed((#[trigger] ls[i])).len() > 0 && pool_row((#[trigger] ls[i])) == Ok::<PoolFacts, Seq<char>>(x) by {
            if all.contains(x) {
                let k = choose|k: int| 0 <= k < all.len() && all[k] == x;
                if k < before.len() {
                    assert(before[k] == x);
                    assert(before.contains(x));
                    let i = choose|i: int| 0 <= i < front.len() && text::trimmed((#[trigger] front[i])).len() > 0 && pool_row((#[trigger] front[i])) == Ok::<PoolFacts, Seq<char>>(x);
                    assert(ls[i] == front[i]);
                } else {
                    assert(text::trimmed(ls[ls.len() - 1]).len() > 0 && pool_row(ls[ls.len() - 1]) == Ok::<PoolFacts, Seq<char>>(x));
                }
            }
            if exists|i: int| 0 <= i < ls.len() && text::trimmed((#[trigger] ls[i])).len() > 0 && pool_row((#[trigger] ls[i])) == Ok::<PoolFacts, Seq<char>>(x) {
                let i = choose|i: int| 0 <= i < ls.len() && text::trimmed((#[trigger] ls[i])).len() > 0 && pool_row((#[trigger] ls[i])) == Ok::<PoolFacts, Seq<char>>(x);
                if i < front.len() {
                    assert(front[i] == ls[i]);
                    assert(before.contains(x));
                    let k = choose|k: int| 0 <= k < before.len() && before[k] == x;
                    assert(all[k] == x);
                } else {
                    assert(ls[i] == ls.last());
                    assert(all[all.len() - 1] == x);
                }
            }
        }
    }
}

/// Every entry of a list is a key of it, in its place.
pub proof fn law_every_key_is_read(ps: Seq<Seq<char>>)
    requires
        keys_of(ps) is Ok,
    ensures
        keys_of(ps)->Ok_0.len() == ps.len(),
        forall|i: int| 0 <= i < ps.len() ==> key_of(#[trigger] ps[i]) == Some(keys_of(ps)->Ok_0[i]),
    decreases ps.len(),
{
    if ps.len() > 0 {
        let front = ps.drop_last();
        law_every_key_is_read(front);
        assert forall|i: int| 0 <= i < ps.len() implies key_of(#[trigger] ps[i]) == Some(
            keys_of(ps)->Ok_0[i],
        ) by {
            if i < front.len() {
                assert(front[i] == ps[i]);
            }
        }
    }
}

} // verus!
