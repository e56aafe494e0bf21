use zboot::model::{
    is_replication_anchor, parse_property, parse_zfs_get, parse_zpool_list, BootEnvironment,
    BoundKey, BoundList, Canmount, Forest, Mountpoint, PairPointer, PairStatus, PoolRole, Property,
    SnapshotRef,
};
use zboot::order;
use zboot::paths;
use zboot::script::Script;
use zboot::sub;
use zboot::sub::{Answer, Runner};

fn texts(xs: &[&str]) -> Vec<String> {
    xs.iter().map(|x| (*x).to_owned()).collect()
}

// ---------------------------------------------------------------------------
// Names
// ---------------------------------------------------------------------------

#[test]
fn snapshots_read_back() {
    let s = SnapshotRef::parse("rpool/ROOT/be1@s").unwrap();
    assert_eq!((s.dataset.as_str(), s.name.as_str()), ("rpool/ROOT/be1", "s"));
    assert_eq!(s.render(), "rpool/ROOT/be1@s");
    assert!(SnapshotRef::parse("rpool/ROOT/be1").is_none());
    assert!(SnapshotRef::parse("@s").is_none());
    assert!(SnapshotRef::parse("rpool@").is_none());
}

#[test]
fn bindings_read_back() {
    let mut l = BoundList::parse("rpool:be1,rpool2:be2").unwrap();
    assert_eq!(l.render(), "rpool:be1,rpool2:be2");
    l.append(BoundKey::new("rpool", "be3"));
    l.append(BoundKey::new("rpool", "be1"));
    assert_eq!(l.render(), "rpool:be1,rpool2:be2,rpool:be3");
    l.remove(&BoundKey::new("rpool", "be1"));
    assert_eq!(l.renders(), texts(&["rpool2:be2", "rpool:be3"]));
    assert!(!l.contains(&BoundKey::new("rpool", "be1")));
    assert!(BoundList::parse("be1").is_err());
}

#[test]
fn pair_pointers_read_back() {
    let p = PairPointer::parse_dataset("rpool/ROOT/be1").unwrap();
    assert_eq!((p.pool.as_str(), p.be.as_str()), ("rpool", "be1"));
    assert_eq!(p.render(), "rpool/ROOT/be1");
    for t in ["-", "", "rpool/be1", "rpool/ROOT/", "rpool/ROOT/a/b", "/ROOT/be1", "rpool/DATA/be1"] {
        assert!(PairPointer::parse_dataset(t).is_none(), "{t}");
    }
}

#[test]
fn anchors_are_known_by_their_names() {
    assert!(is_replication_anchor("rpool/ROOT/be1@mirror-17"));
    assert!(is_replication_anchor("mirror-17"));
    assert!(!is_replication_anchor("rpool/ROOT/mirror-17@s"));
}

// ---------------------------------------------------------------------------
// What the programs print
// ---------------------------------------------------------------------------

#[test]
fn properties_are_read_by_their_names() {
    assert!(matches!(parse_property("canmount", "noauto").unwrap(), Property::Canmount(Canmount::Noauto)));
    assert!(matches!(parse_property("mountpoint", "legacy").unwrap(), Property::Mountpoint(Mountpoint::Legacy)));
    assert!(matches!(parse_property("zboot:be", "true").unwrap(), Property::ZbootBe(true)));
    assert!(matches!(parse_property("origin", "-").unwrap(), Property::Origin(None)));
    assert!(matches!(parse_property("zboot:role", "root").unwrap(), Property::ZbootRole(PoolRole::Root)));
    let rows = parse_zfs_get("rpool/ROOT/be1\tzboot:be\ttrue\n").unwrap();
    assert_eq!(rows.len(), 1);
    assert_eq!(rows[0].0, "rpool/ROOT/be1");
}

#[test]
fn pools_are_read_from_their_table() {
    let ps = parse_zpool_list("rpool\trpool/ROOT/be1\t11\ntank\t-\t12\n").unwrap();
    assert_eq!(ps.len(), 2);
    assert_eq!(ps[0].bootfs.as_deref(), Some("rpool/ROOT/be1"));
    assert_eq!(ps[1].bootfs, None);
}

// ---------------------------------------------------------------------------
// Relations
// ---------------------------------------------------------------------------

#[test]
fn clones_are_children_of_what_they_were_cloned_from() {
    let mut child = BootEnvironment::new("rpool", "be2");
    child.origin = SnapshotRef::parse("rpool/ROOT/be1@s");
    let mut stray = BootEnvironment::new("rpool", "be3");
    stray.origin = SnapshotRef::parse("rpool/ROOT/gone@s");
    let f = Forest::from_origins(vec![BootEnvironment::new("rpool", "be1"), child, stray]);
    let kids: Vec<&str> = f.children_of("rpool/ROOT/be1").iter().map(|b| b.name.as_str()).collect();
    assert_eq!(kids, vec!["be2"]);
    let roots: Vec<&str> = f.roots().iter().map(|b| b.name.as_str()).collect();
    assert_eq!(roots, vec!["be1", "be3"]);
}

#[test]
fn pairs_compare_by_their_snapshots() {
    let shown = |local: &[&str], peer: Option<&[&str]>, there: bool| {
        let p = peer.map(texts);
        PairStatus::from_guids(&texts(local), p.as_ref(), there).render(None)
    };
    assert_eq!(shown(&["1"], None, false), "[pool not imported]");
    assert_eq!(shown(&["1"], Some(&[]), false), "[target missing]");
    assert_eq!(shown(&["1", "2"], Some(&["2", "1"]), true), "[in sync]");
    assert_eq!(shown(&["1", "2", "3"], Some(&["1"]), true), "[ahead 2]");
    assert_eq!(shown(&["1"], Some(&["1", "2"]), true), "[behind 1]");
    assert_eq!(shown(&["1", "2"], Some(&["1", "3"]), true), "[diverged: 1 here, 1 there]");
    let dirty = PairStatus::from_guids(&texts(&["1"]), Some(&texts(&["1"])), true).render(Some(5));
    assert_eq!(dirty, "[in sync] (5 bytes unsnapshotted)");
}

#[test]
fn texts_are_put_in_order() {
    assert_eq!(order::sort_texts(texts(&["b", "a", "c", "a"])), texts(&["a", "a", "b", "c"]));
    assert_eq!(order::sort_set(&texts(&["b", "a", "c", "a"])), texts(&["a", "b", "c"]));
}

#[test]
fn paths_are_taken_apart() {
    assert_eq!(paths::file_name("/dev/vda"), Some("vda".to_owned()));
    assert_eq!(paths::parent("/a/b"), Some("/a".to_owned()));
    assert_eq!(paths::extension("/a/b.tar.zst"), Some("zst".to_owned()));
    assert!(paths::is_zstd("/a/b.tar.zst"));
    assert_eq!(paths::join("/mnt", "boot"), "/mnt/boot");
}

// ---------------------------------------------------------------------------
// A host that plays a list
// ---------------------------------------------------------------------------

#[test]
fn a_script_answers_in_order() {
    let first = Answer { stdout: "one\n".to_owned(), ..Answer::default() };
    let second = Answer { rc: 2, stderr: "no\n".to_owned(), ..Answer::default() };
    let mut s = Script::new(vec![first, second]);
    assert_eq!(sub::capture(&mut s, "zfs", &["list"]).unwrap(), "one\n");
    assert_eq!(
        sub::capture(&mut s, "zfs", &["get", "x"]).unwrap_err().message,
        "`zfs get x` exited rc=2: no"
    );
    s.say("done");
}
