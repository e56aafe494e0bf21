//! Where the contents of a new boot environment come from.

use vstd::prelude::*;

use crate::error;
use crate::error::Error;
use crate::order;
use crate::text;

verus! {

/// Where the contents of a new boot environment come from.
#[derive(Debug)]
pub enum Source {
    /// An archive.
    Tar { path: String },
    /// A Debian suite, from a mirror or from the usual one.
    Debootstrap { suite: String, mirror: Option<String> },
}

/// Where contents come from, by what is known of it.
pub enum Origin {
    Tar { path: Seq<char> },
    Debootstrap { suite: Seq<char>, mirror: Option<Seq<char>> },
}

impl DeepView for Source {
    type V = Origin;

    open spec fn deep_view(&self) -> Origin {
        match self {
            Source::Tar { path } => Origin::Tar { path: path@ },
            Source::Debootstrap { suite, mirror } => Origin::Debootstrap {
                suite: suite@,
                mirror: mirror.deep_view(),
            },
        }
    }
}

/// The packages that make a Debian root bootable: the kernel, its headers, the
/// ZFS module, what imports the pool at boot, and an `init`.
pub open spec fn packages() -> Seq<Seq<char>> {
    seq![
        "linux-image-amd64"@,
        "linux-headers-amd64"@,
        "zfs-dkms"@,
        "zfs-initramfs"@,
        "systemd-sysv"@,
    ]
}

/// The packages that make a Debian root bootable.
pub fn package_list() -> (r: Vec<&'static str>)
    ensures
        r.deep_view() == packages(),
{
    text::argv5(
        "linux-image-amd64",
        "linux-headers-amd64",
        "zfs-dkms",
        "zfs-initramfs",
        "systemd-sysv",
    )
}

/// The mirror where none is given.
pub open spec fn usual_mirror() -> Seq<char> {
    "http://deb.debian.org/debian"@
}

/// The mirror that is used.
pub open spec fn mirror_of(mirror: Option<Seq<char>>) -> Seq<char> {
    match mirror {
        Some(m) => m,
        None => usual_mirror(),
    }
}

/// The mirror that is used.
pub fn mirror_or_usual<'a>(mirror: &'a Option<String>) -> (r: &'a str)
    ensures
        r@ == mirror_of(mirror.deep_view()),
{
    match mirror {
        Some(m) => m.as_str(),
        None => "http://deb.debian.org/debian",
    }
}

// ---------------------------------------------------------------------------
// The query
// ---------------------------------------------------------------------------

/// The pairs of `a=1&b=2`. A part without `=` is passed over.
pub open spec fn query_pairs(parts: Seq<Seq<char>>) -> Seq<(Seq<char>, Seq<char>)>
    decreases parts.len(),
{
    if parts.len() == 0 {
        seq![]
    } else {
        let front = query_pairs(parts.drop_last());
        match text::cut(parts.last(), '=') {
            Some(kv) => front.push(kv),
            None => front,
        }
    }
}

/// The pairs of a query, in order.
pub fn parse_query<'a>(query: &'a str) -> (r: Vec<(&'a str, &'a str)>)
    ensures
        r.deep_view() == query_pairs(text::pieces(query@, '&')),
{
    let parts = text::split(query, '&');
    let ghost all = parts.deep_view();
    let mut out: Vec<(&'a str, &'a str)> = Vec::new();
    let mut i: usize = 0;
    assert(out.deep_view() =~= query_pairs(all.take(0)));
    while i < parts.len()
        invariant
            i <= parts@.len(),
            all == parts.deep_view(),
            out.deep_view() == query_pairs(all.take(i as int)),
        decreases parts@.len() - i,
    {
        proof {
            assert(all.take(i + 1).drop_last() =~= all.take(i as int));
            assert(all.take(i + 1).last() == parts@[i as int]@);
        }
        match text::split_once(parts[i], '=') {
            Some(kv) => {
                let ghost before = out@;
                out.push(kv);
                assert(out.deep_view() =~= query_pairs(all.take(i as int)).push(kv.deep_view()));
            },
            None => {},
        }
        i = i + 1;
    }
    assert(all.take(i as int) =~= all);
    out
}

/// The value of a key: the last one given counts.
pub open spec fn value_of(pairs: Seq<(Seq<char>, Seq<char>)>, key: Seq<char>) -> Option<Seq<char>>
    decreases pairs.len(),
{
    if pairs.len() == 0 {
        None
    } else if pairs.last().0 == key {
        Some(pairs.last().1)
    } else {
        value_of(pairs.drop_last(), key)
    }
}

fn find_value<'a>(pairs: &Vec<(&'a str, &'a str)>, key: &str) -> (r: Option<String>)
    ensures
        r.deep_view() == value_of(pairs.deep_view(), key@),
{
    let ghost all = pairs.deep_view();
    let mut i: usize = pairs.len();
    assert(all.take(i as int) =~= all);
    while i > 0
        invariant
            i <= pairs@.len(),
            all == pairs.deep_view(),
            value_of(all, key@) == value_of(all.take(i as int), key@),
        decreases i,
    {
        proof {
            assert(all.take(i as int).drop_last() =~= all.take(i - 1));
            assert(all.take(i as int).last() == pairs@[i - 1].deep_view());
        }
        let (k, v) = pairs[i - 1];
        if text::eq(k, key) {
            return Some(v.to_owned());
        }
        i = i - 1;
    }
    None
}

/// The keys other than `key`.
pub open spec fn other_keys(pairs: Seq<(Seq<char>, Seq<char>)>, key: Seq<char>) -> Seq<Seq<char>>
    decreases pairs.len(),
{
    if pairs.len() == 0 {
        seq![]
    } else {
        let front = other_keys(pairs.drop_last(), key);
        if pairs.last().0 == key {
            front
        } else {
            front.push(pairs.last().0)
        }
    }
}

fn find_other_keys<'a>(pairs: &Vec<(&'a str, &'a str)>, key: &str) -> (r: Vec<String>)
    ensures
        r.deep_view() == other_keys(pairs.deep_view(), key@),
{
    let ghost all = pairs.deep_view();
    let mut out: Vec<String> = Vec::new();
    let mut i: usize = 0;
    assert(out.deep_view() =~= other_keys(all.take(0), key@));
    while i < pairs.len()
        invariant
            i <= pairs@.len(),
            all == pairs.deep_view(),
            out.deep_view() == other_keys(all.take(i as int), key@),
        decreases pairs@.len() - i,
    {
        proof {
            assert(all.take(i + 1).drop_last() =~= all.take(i as int));
            assert(all.take(i + 1).last() == pairs@[i as int].deep_view());
        }
        let (k, _) = pairs[i];
        if !text::eq(k, key) {
            text::push_text(&mut out, k);
        }
        i = i + 1;
    }
    assert(all.take(i as int) =~= all);
    out
}

// ---------------------------------------------------------------------------
// The URL
// ---------------------------------------------------------------------------

/// What stands behind `debootstrap://`.
pub open spec fn debootstrap_of(rest: Seq<char>) -> Result<Origin, Seq<char>> {
    let (suite, query) = match text::cut(rest, '?') {
        Some(p) => p,
        None => (rest, ""@),
    };
    let pairs = query_pairs(text::pieces(query, '&'));
    let unknown = order::sorted_set(other_keys(pairs, "mirror"@));
    if suite.len() == 0 {
        Err(
            "debootstrap:// source needs a suite (e.g. `debootstrap://trixie` or `debootstrap://testing?mirror=http://deb.debian.org/debian`)"@,
        )
    } else if unknown.len() > 0 {
        Err(
            "debootstrap:// only accepts `mirror=` in the query string; unknown keys: "@
                + text::quoted_list(unknown)
                + ". Package set + components are fixed by zboot (see DEBOOTSTRAP_PACKAGES)."@,
        )
    } else {
        Ok(Origin::Debootstrap { suite, mirror: value_of(pairs, "mirror"@) })
    }
}

fn parse_debootstrap(rest: &str) -> (res: Result<Source, Error>)
    ensures
        error::outcome(res) == debootstrap_of(rest@),
{
    let (suite, query) = match text::split_once(rest, '?') {
        Some(p) => p,
        None => (rest, ""),
    };
    if suite.is_empty() {
        return Err(
            Error::new(
                "debootstrap:// source needs a suite (e.g. `debootstrap://trixie` or `debootstrap://testing?mirror=http://deb.debian.org/debian`)",
            ),
        );
    }
    let pairs = parse_query(query);
    let others = find_other_keys(&pairs, "mirror");
    let unknown = order::sort_set(&others);
    if unknown.len() > 0 {
        let shown: String = text::quote_list(&unknown);
        return Err(
            Error::from_text(
                text::cat3(
                    "debootstrap:// only accepts `mirror=` in the query string; unknown keys: ",
                    shown.as_str(),
                    ". Package set + components are fixed by zboot (see DEBOOTSTRAP_PACKAGES).",
                ),
            ),
        );
    }
    Ok(Source::Debootstrap { suite: suite.to_owned(), mirror: find_value(&pairs, "mirror") })
}

/// What a URL names: `tar://<path>` or `debootstrap://<suite>[?mirror=<url>]`.
pub open spec fn source_of(url: Seq<char>) -> Result<Origin, Seq<char>> {
    match text::cut_at(url, "://"@) {
        None => Err(
            "source "@ + text::quoted_text(url)
                + " is not a URL — expected `<scheme>://...`"@,
        ),
        Some((scheme, rest)) => if scheme == "tar"@ {
            if rest.len() == 0 {
                Err("tar:// source needs a path (e.g. `tar:///payload/root.tar.zst`)"@)
            } else {
                Ok(Origin::Tar { path: rest })
            }
        } else if scheme == "debootstrap"@ {
            debootstrap_of(rest)
        } else if scheme == "zfs-recv"@ || scheme == "restic"@ {
            Err(
                "source scheme `"@ + scheme
                    + "://` is deferred (Phase 2/3); only `tar://` and `debootstrap://` are wired in MVP"@,
            )
        } else {
            Err(
                "unknown source scheme `"@ + scheme
                    + "://` — expected `tar://` or `debootstrap://`"@,
            )
        },
    }
}

/// The URL of a source.
pub open spec fn source_text(s: Origin) -> Seq<char> {
    match s {
        Origin::Tar { path } => "tar://"@ + path,
        Origin::Debootstrap { suite, mirror } => match mirror {
            Some(m) => "debootstrap://"@ + suite + "?mirror="@ + m,
            None => "debootstrap://"@ + suite,
        },
    }
}

impl Source {
    /// Reads a source URL.
    pub fn parse(url: &str) -> (res: Result<Source, Error>)
        ensures
            error::outcome(res) == source_of(url@),
    {
        let (scheme, rest) = match text::split_at(url, "://") {
            None => {
                let q: String = text::quoted(url);
                return Err(
                    Error::from_text(
                        text::cat3(
                            "source ",
                            q.as_str(),
                            " is not a URL — expected `<scheme>://...`",
                        ),
                    ),
                );
            },
            Some(p) => p,
        };
        if text::eq(scheme, "tar") {
            if rest.is_empty() {
                return Err(
                    Error::new(
                        "tar:// source needs a path (e.g. `tar:///payload/root.tar.zst`)",
                    ),
                );
            }
            return Ok(Source::Tar { path: rest.to_owned() });
        }
        if text::eq(scheme, "debootstrap") {
            return parse_debootstrap(rest);
        }
        if text::eq(scheme, "zfs-recv") || text::eq(scheme, "restic") {
            return Err(
                Error::from_text(
                    text::cat3(
                        "source scheme `",
                        scheme,
                        "://` is deferred (Phase 2/3); only `tar://` and `debootstrap://` are wired in MVP",
                    ),
                ),
            );
        }
        Err(
            Error::from_text(
                text::cat3(
                    "unknown source scheme `",
                    scheme,
                    "://` — expected `tar://` or `debootstrap://`",
                ),
            ),
        )
    }

    /// The URL of the source.
    pub fn render(&self) -> (r: String)
        ensures
            r@ == source_text(self.deep_view()),
    {
        match self {
            Source::Tar { path } => text::cat2("tar://", path.as_str()),
            Source::Debootstrap { suite, mirror } => match mirror {
                Some(m) => text::cat4("debootstrap://", suite.as_str(), "?mirror=", m.as_str()),
                None => text::cat2("debootstrap://", suite.as_str()),
            },
        }
    }
}

// ---------------------------------------------------------------------------
// Laws
// ---------------------------------------------------------------------------

proof fn lemma_cut_behind(head: Seq<char>, rest: Seq<char>)
    requires
        !head.contains(':'),
    ensures
        text::cut_at(head + "://"@ + rest, "://"@) == Some((head, rest)),
    decreases head.len(),
{
    reveal_strlit("://");
    let p = "://"@;
    let s = head + p + rest;
    if head.len() == 0 {
        assert(s.take(3) =~= p);
        assert(s.take(0) =~= head);
        assert(s.skip(3) =~= rest);
    } else {
        assert(s[0] == head[0]);
        assert(head.contains(head[0]));
        assert(!text::begins(s, p)) by {
            if text::begins(s, p) {
                assert(s.take(3)[0] == p[0]);
            }
        }
        assert(s.drop_first() =~= head.drop_first() + p + rest);
        assert forall|c: char| head.drop_first().contains(c) implies head.contains(c) by {
            let i = choose|i: int| 0 <= i < head.drop_first().len() && head.drop_first()[i] == c;
            assert(head[i + 1] == c);
        }
        lemma_cut_behind(head.drop_first(), rest);
        let i: int = text::place(s.drop_first(), p)->0 as int;
        assert(text::place(s.drop_first(), p) is Some);
        assert(s.drop_first().take(i) == head.drop_first());
        assert(i == head.len() - 1) by {
            if text::place(s.drop_first(), p) is Some {
                lemma_place_in(s.drop_first(), p);
            }
        }
        assert(s.take(i + 1) =~= head);
        assert(s.skip(i + 1 + 3) =~= rest);
    }
}

proof fn lemma_place_in(s: Seq<char>, p: Seq<char>)
    requires
        text::place(s, p) is Some,
    ensures
        text::place(s, p)->0 + p.len() <= s.len(),
    decreases s.len(),
{
    if !text::begins(s, p) {
        lemma_place_in(s.drop_first(), p);
    }
}

/// What is read from the URL of a source is that source, unless a part of it
/// would be read otherwise: an empty path or suite, a `?` in the suite, an `&`
/// in the mirror.
pub proof fn law_source_round_trip(s: Origin)
    requires
        match s {
            Origin::Tar { path } => path.len() > 0,
            Origin::Debootstrap { suite, mirror } => {
                &&& suite.len() > 0
                &&& !suite.contains('?')
                &&& mirror matches Some(m) ==> !m.contains('&')
            },
        },
    ensures
        source_of(source_text(s)) == Ok::<Origin, Seq<char>>(s),
{
    reveal_strlit("tar");
    reveal_strlit("debootstrap");
    reveal_strlit("tar://");
    reveal_strlit("debootstrap://");
    reveal_strlit("://");
    match s {
        Origin::Tar { path } => {
            assert("tar"@ + "://"@ + path =~= source_text(s));
            lemma_cut_behind("tar"@, path);
        },
        Origin::Debootstrap { suite, mirror } => {
            let tail = match mirror {
                Some(m) => suite + "?mirror="@ + m,
                None => suite,
            };
            assert("debootstrap"@ + "://"@ + tail =~= source_text(s));
            lemma_cut_behind("debootstrap"@, tail);
            assert("tar"@.len() != "debootstrap"@.len());
            lemma_debootstrap_round_trip(suite, mirror);
        },
    }
}

proof fn lemma_debootstrap_round_trip(suite: Seq<char>, mirror: Option<Seq<char>>)
    requires
        suite.len() > 0,
        !suite.contains('?'),
        mirror matches Some(m) ==> !m.contains('&'),
    ensures
        debootstrap_of(
            match mirror {
                Some(m) => suite + "?mirror="@ + m,
                None => suite,
            },
        ) == Ok::<Origin, Seq<char>>(Origin::Debootstrap { suite, mirror }),
{
    reveal_strlit("");
    reveal_strlit("mirror");
    reveal_strlit("?mirror=");
    match mirror {
        None => {
            text::lemma_position(suite, '?');
            assert(text::cut(suite, '?') is None);
            lemma_one_part(""@);
            assert(query_pairs(seq![""@]) == Seq::<(Seq<char>, Seq<char>)>::empty()) by {
                assert(seq![""@].drop_last() =~= Seq::<Seq<char>>::empty());
                text::lemma_position(""@, '=');
                assert(query_pairs(Seq::empty()) =~= Seq::empty());
                assert(text::cut(""@, '=') is None);
                assert(seq![""@].last() == ""@);
            }
            assert(other_keys(Seq::empty(), "mirror"@) == Seq::<Seq<char>>::empty());
        },
        Some(m) => {
            let rest = suite + "?mirror="@ + m;
            assert forall|j: int| 0 <= j < suite.len() implies rest[j] != '?' by {
                assert(suite.contains(suite[j]));
            }
            text::lemma_position_is(rest, '?', suite.len() as int);
            let query = "mirror="@ + m;
            reveal_strlit("mirror=");
            assert(rest.take(suite.len() as int) =~= suite);
            assert(rest.skip((suite.len() + 1) as int) =~= query);
            assert(rest[suite.len() as int] == '?');
            assert(text::cut(rest, '?') == Some((suite, query)));
            assert(!query.contains('&')) by {
                if query.contains('&') {
                    let i = choose|i: int| 0 <= i < query.len() && query[i] == '&';
                    if i >= 7 {
                        assert(m[i - 7] == '&');
                    }
                }
            }
            lemma_one_part(query);
            let parts = seq![query];
            assert(parts.drop_last() =~= Seq::<Seq<char>>::empty());
            text::lemma_position_is(query, '=', 6);
            assert(query.take(6) =~= "mirror"@);
            assert(query.skip(7) =~= m);
            assert(query[6] == '=');
            assert(text::cut(query, '=') == Some(("mirror"@, m)));
            let pairs = seq![("mirror"@, m)];
            assert(parts.last() == query);
            assert(query_pairs(parts.drop_last()) =~= Seq::empty());
            assert(query_pairs(parts) =~= pairs);
            assert(pairs.drop_last() =~= Seq::<(Seq<char>, Seq<char>)>::empty());
            assert(other_keys(pairs.drop_last(), "mirror"@) =~= Seq::<Seq<char>>::empty());
            assert(pairs.last().0 == "mirror"@);
            assert(other_keys(pairs, "mirror"@) =~= Seq::<Seq<char>>::empty());
        },
    }
}

proof fn lemma_one_part(s: Seq<char>)
    requires
        !s.contains('&'),
    ensures
        text::pieces(s, '&') == seq![s],
{
    text::lemma_pieces_of_joined(seq![s], '&');
    assert(seq![s].drop_last() =~= Seq::<Seq<char>>::empty());
    assert(text::joined(seq![s], seq!['&']) =~= s);
}

/// A URL of a scheme that is not known, and a text that is no URL, are refused.
pub proof fn law_other_schemes_are_refused(url: Seq<char>)
    ensures
        source_of(url) matches Ok(s) ==> (text::cut_at(url, "://"@) matches Some(p) && (p.0
            == "tar"@ || p.0 == "debootstrap"@)),
{
}

/// Every part of a query that holds a `=` is a pair.
pub proof fn law_every_pair_is_read(parts: Seq<Seq<char>>)
    ensures
        forall|x: (Seq<char>, Seq<char>)| #[trigger] query_pairs(parts).contains(x) <==> exists|i: int| 0 <= i < parts.len() && text::cut((#[trigger] parts[i]), '=') == Some(x),
    decreases parts.len(),
{
    if parts.len() > 0 {
        let front = parts.drop_last();
        law_every_pair_is_read(front);
        let before = query_pairs(front);
        let all = query_pairs(parts);
        assert forall|x: (Seq<char>, Seq<char>)| #[trigger] all.contains(x) <==> exists|i: int| 0 <= i < parts.len() && text::cut((#[trigger] parts[i]), '=') == Some(x) by {
            if all.contains(x) {
                let k = choose|k: int| 0 <= k < all.len() && all[k] == x;
                if k < before.len() {
                    assert(before[k] == x);
                    assert(before.contains(x));
                    let i = choose|i: int| 0 <= i < front.len() && text::cut((#[trigger] front[i]), '=') == Some(x);
                    assert(parts[i] == front[i]);
                } else {
                    assert(text::cut(parts[parts.len() - 1], '=') == Some(x));
                }
            }
            if exists|i: int| 0 <= i < parts.len() && text::cut((#[trigger] parts[i]), '=') == Some(x) {
                let i = choose|i: int| 0 <= i < parts.len() && text::cut((#[trigger] parts[i]), '=') == Some(x);
                if i < front.len() {
                    assert(front[i] == parts[i]);
                    assert(before.contains(x));
                    let k = choose|k: int| 0 <= k < before.len() && before[k] == x;
                    assert(all[k] == x);
                } else {
                    assert(parts[i] == parts.last());
                    assert(all[all.len() - 1] == x);
                }
            }
        }
    }
}

/// Every key but the one that is known is an unknown one.
pub proof fn law_every_other_key_is_seen(pairs: Seq<(Seq<char>, Seq<char>)>, key: Seq<char>)
    ensures
        forall|x: Seq<char>| #[trigger] other_keys(pairs, key).contains(x) <==> exists|i: int| 0 <= i < pairs.len() && (#[trigger] pairs[i]).0 == x && x != key,
    decreases pairs.len(),
{
    if pairs.len() > 0 {
        let front = pairs.drop_last();
        law_every_other_key_is_seen(front, key);
        let before = other_keys(front, key);
        let all = other_keys(pairs, key);
        assert forall|x: Seq<char>| #[trigger] all.contains(x) <==> exists|i: int| 0 <= i < pairs.len() && (#[trigger] pairs[i]).0 == x && x != key by {
            if all.contains(x) {
                let k = choose|k: int| 0 <= k < all.len() && all[k] == x;
                if k < before.len() {
                    assert(before[k] == x);
                    assert(before.contains(x));
                    let i = choose|i: int| 0 <= i < front.len() && (#[trigger] front[i]).0 == x && x != key;
                    assert(pairs[i] == front[i]);
                } else {
                    assert(pairs[pairs.len() - 1].0 == x && x != key);
                }
            }
            if exists|i: int| 0 <= i < pairs.len() && (#[trigger] pairs[i]).0 == x && x != key {
                let i = choose|i: int| 0 <= i < pairs.len() && (#[trigger] pairs[i]).0 == x && x != key;
                if i < front.len() {
                    assert(front[i] == pairs[i]);
                    assert(before.contains(x));
                    let k = choose|k: int| 0 <= k < before.len() && before[k] == x;
                    assert(all[k] == x);
                } else {
                    assert(pairs[i] == pairs.last());
                    assert(all[all.len() - 1] == x);
                }
            }
        }
    }
}

} // verus!
