use ncdu_core::delete::prune_entry;
use ncdu_core::exclude::{ExcludeSet, GlobHits};
use ncdu_core::json_export::{export_tree, ExportOptions};
use ncdu_core::json_import::import_tree;
use ncdu_core::model::{EType, EntryId, Ext, Tree};
use ncdu_core::scan::{not_a_directory, scan_root, stat_from_metadata, Metadata, ScanOptions};
use ncdu_core::scan_parallel::{
    after_lookup, before_lookup, build_tree, entries_in, patch, unreadable, EntryName, Listing,
    Lookup, Step, Walked, WalkedDir,
};
use ncdu_core::sink::Stat;

fn metadata() -> Metadata {
    Metadata {
        is_dir: false,
        is_file: true,
        size: 5,
        blocks: 8,
        dev: 3,
        ino: 4,
        nlink: 1,
        mtime: 77,
        uid: 10,
        gid: 11,
        mode: 0o100644,
    }
}

fn dir_stat() -> Stat {
    Stat { etype: EType::Dir, size: 4096, blocks: 8, dev: 1, ..Stat::default() }
}

fn file(name: &str, size: u64) -> Walked {
    let stat = Stat { etype: EType::Reg, size, blocks: size, dev: 1, ..Stat::default() };
    Walked::File { name: name.to_string(), stat }
}

fn special(name: &str, etype: EType) -> Walked {
    Walked::Special { name: name.to_string(), etype }
}

fn dir(name: &str, children: Vec<Walked>) -> WalkedDir {
    WalkedDir { name: name.to_string(), stat: dir_stat(), children, read_error: false }
}

fn names(tree: &Tree, dir: EntryId) -> Vec<String> {
    let mut names = Vec::new();
    let mut cur = tree.get(dir).as_dir().unwrap().sub;
    while !cur.is_none() {
        names.push(tree.get(cur).common.name.clone());
        cur = tree.get(cur).common.next;
    }
    names
}

#[test]
fn types_by_metadata() {
    let etype = |m: Metadata| stat_from_metadata(&m, false).etype;
    assert_eq!(etype(metadata()), EType::Reg);
    assert_eq!(etype(Metadata { nlink: 2, ..metadata() }), EType::Link);
    assert_eq!(etype(Metadata { is_file: false, nlink: 2, ..metadata() }), EType::NonReg);
    assert_eq!(etype(Metadata { is_dir: true, is_file: false, ..metadata() }), EType::Dir);
}

#[test]
fn stat_fields() {
    let m = Metadata { nlink: (1 << 32) + 3, ..metadata() };
    let s = stat_from_metadata(&m, false);
    assert_eq!((s.size, s.blocks, s.dev, s.ino, s.nlink), (5, 8, 3, 4, 3));
    assert!(s.ext.is_empty());
    let s = stat_from_metadata(&Metadata { mtime: -1, mode: 0x1_81a4, ..m }, true);
    let want = Ext { mtime: Some(0), uid: Some(10), gid: Some(11), mode: Some(0x81a4) };
    assert_eq!(s.ext, want);
    let s = stat_from_metadata(&m, true);
    assert_eq!(s.ext.mtime, Some(77));
}

#[test]
fn scan_defaults_and_messages() {
    let opts = ScanOptions::default();
    assert!(!opts.extended);
    assert!(opts.exclude.globs().is_empty());
    assert_eq!(not_a_directory("/etc/passwd"), "scan target is not a directory: /etc/passwd");
}

#[test]
fn names_are_decided_on_before_the_lookup() {
    let text = || EntryName::Text("n".to_string());
    match before_lookup(EntryName::Garbled("n\u{fffd}".to_string()), None) {
        Lookup::Skip(Walked::Special { name, etype }) => {
            assert_eq!((name.as_str(), etype), ("n\u{fffd}", EType::Error));
        }
        _ => panic!("a marker"),
    }
    match before_lookup(text(), Some(false)) {
        Lookup::Skip(Walked::Special { name, etype }) => {
            assert_eq!((name.as_str(), etype), ("n", EType::Pattern));
        }
        _ => panic!("a marker"),
    }
    for excluded in [None, Some(true)] {
        assert!(matches!(before_lookup(text(), excluded), Lookup::Needed(n) if n == "n"));
    }
}

#[test]
fn entries_are_decided_on_after_the_lookup() {
    let name = || "n".to_string();
    let sub = Metadata { is_dir: true, is_file: false, ..metadata() };
    assert!(matches!(
        after_lookup(name(), None, None, false),
        Step::Record(Walked::Special { etype: EType::Error, .. })
    ));
    assert!(matches!(
        after_lookup(name(), Some(true), Some(sub), false),
        Step::Record(Walked::Special { etype: EType::Pattern, .. })
    ));
    assert!(matches!(
        after_lookup(name(), None, Some(sub), false),
        Step::Descend(n, Stat { etype: EType::Dir, .. }) if n == "n"
    ));
    // What is excluded as a directory only stays if it is none.
    assert!(matches!(
        after_lookup(name(), Some(true), Some(metadata()), true),
        Step::Record(Walked::File { name, stat }) if name == "n" && stat.ext.uid == Some(10)
    ));
}

#[test]
fn a_tree_of_what_was_found() {
    let bad = unreadable("locked".to_string(), dir_stat());
    let sub = dir(
        "sub",
        vec![file("x", 10), Walked::Dir(Box::new(bad)), special("p", EType::Pattern)],
    );
    let root = dir("/r", vec![file("a", 1), Walked::Dir(Box::new(sub)), file("b", 2)]);
    assert_eq!(entries_in(&root), 7);
    let tree = build_tree(root);
    let r = tree.get(tree.root);
    assert_eq!(names(&tree, tree.root), vec!["a", "sub", "b"]);
    let d = r.as_dir().unwrap();
    assert_eq!(d.items, 6);
    assert_eq!(r.common.size, 3 * 4096 + 13);
    assert_eq!(r.common.blocks, 3 * 8 + 13);
    assert!(d.suberr && !d.err);
    assert_eq!(tree.devices.get(d.dev), Some(1));
    let sub_id = tree.get(d.sub).common.next;
    assert_eq!(names(&tree, sub_id), vec!["x", "locked", "p"]);
    let sub = tree.get(sub_id);
    assert_eq!(sub.common.blocks, 2 * 8 + 10);
    assert_eq!(sub.as_dir().unwrap().items, 3);
    let in_sequence: Vec<&str> = tree.nodes.iter().map(|n| n.common.name.as_str()).collect();
    assert_eq!(in_sequence, vec!["/r", "a", "sub", "x", "locked", "p", "b"]);
    assert_eq!((tree.root, &tree.devices.list), (EntryId(0), &vec![1]));
    let locked = tree.get(tree.get(sub.as_dir().unwrap().sub).common.next);
    assert!(locked.as_dir().unwrap().err);
    assert_eq!(locked.as_dir().unwrap().items, 0);
}

#[test]
fn found_directories_replace_their_placeholders() {
    let children = vec![
        special("one", EType::Error),
        file("f", 1),
        special("two", EType::Error),
    ];
    let subs = vec![dir("one", vec![]), dir("two", vec![file("g", 2)])];
    let d = patch("d".to_string(), dir_stat(), children, &vec![0, 2], subs);
    assert!(!d.read_error);
    assert!(matches!(&d.children[0], Walked::Dir(s) if s.name == "one" && s.children.is_empty()));
    assert!(matches!(&d.children[1], Walked::File { name, .. } if name == "f"));
    assert!(matches!(&d.children[2], Walked::Dir(s) if s.name == "two" && s.children.len() == 1));
}

/// What the walk makes of a file with these bytes.
fn found(name: &str, contents: &[u8], extended: bool) -> Walked {
    let m = Metadata { size: contents.len() as u64, ..metadata() };
    match after_lookup(name.to_string(), None, Some(m), extended) {
        Step::Record(w) => w,
        Step::Descend(..) => panic!("a file"),
    }
}

fn child(tree: &Tree, parent: EntryId, name: &str) -> EntryId {
    let mut cur = tree.get(parent).as_dir().unwrap().sub;
    while !cur.is_none() {
        if tree.get(cur).common.name == name {
            return cur;
        }
        cur = tree.get(cur).common.next;
    }
    EntryId::none()
}

#[test]
fn scans_empty_dir() {
    let tree = build_tree(dir("/t", vec![]));
    let root = tree.get(tree.root);
    assert_eq!(root.as_dir().unwrap().items, 0);
}

#[test]
fn scans_flat_files() {
    let tree = build_tree(dir(
        "/t",
        vec![found("a", b"hello", false), found("b", b"world!", false)],
    ));
    let root = tree.get(tree.root);
    assert_eq!(root.as_dir().unwrap().items, 2);
    assert_eq!(names(&tree, tree.root), vec!["a".to_string(), "b".to_string()]);
}

#[test]
fn scans_nested_dirs() {
    let sub = dir("sub", vec![found("inner", b"x", false)]);
    let tree = build_tree(dir(
        "/t",
        vec![Walked::Dir(Box::new(sub)), found("top", b"yyy", false)],
    ));
    assert_eq!(tree.get(tree.root).as_dir().unwrap().items, 3); // top, sub, inner
    let sub_id = child(&tree, tree.root, "sub");
    assert!(!sub_id.is_none(), "sub dir not in tree");
    let sub_dir = tree.get(sub_id).as_dir().unwrap();
    assert_eq!(sub_dir.items, 1);
    let inner = tree.get(sub_dir.sub);
    assert_eq!(&*inner.common.name, "inner");
    assert_eq!(inner.common.size, 1);
}

#[test]
fn scan_then_export_then_import_round_trip() {
    let d = dir("d", vec![found("g", b"hi", false)]);
    let tree = build_tree(dir(
        "/t",
        vec![Walked::Dir(Box::new(d)), found("f", b"hello", false)],
    ));
    let opts = ExportOptions {
        program_name: "ncdu".to_string(),
        program_version: "2.9.2".to_string(),
        timestamp: Some(0),
        extended: false,
    };
    let mut out = Vec::new();
    export_tree(&tree, tree.root, &mut out, &opts).unwrap();
    let imported = import_tree(out.as_slice()).unwrap();
    let mut out2 = Vec::new();
    export_tree(&imported, imported.root, &mut out2, &opts).unwrap();
    assert_eq!(out, out2);
}

#[test]
fn rejects_non_directory_path() {
    let err = scan_root("/t/not-a-dir", &metadata(), false).unwrap_err();
    assert_eq!(err, "scan target is not a directory: /t/not-a-dir");
    let m = Metadata { is_dir: true, is_file: false, ..metadata() };
    let stat = scan_root("/t", &m, true).unwrap();
    assert_eq!((stat.etype, stat.size, stat.ext.gid), (EType::Dir, 5, Some(11)));
}

#[test]
fn extended_attrs_populated_when_requested() {
    let tree = build_tree(dir("/t", vec![found("x", b"hi", true)]));
    let root = tree.get(tree.root);
    let child = tree.get(root.as_dir().unwrap().sub);
    let ext = child.common.ext.as_ref().expect("ext should be populated");
    assert!(ext.uid.is_some());
    assert!(ext.gid.is_some());
    assert!(ext.mode.is_some());
    assert!(ext.mtime.is_some());
}

#[test]
fn parallel_matches_sequential_output() {
    let sub = |i: usize, backwards: bool| {
        let mut files: Vec<Walked> = (0..3)
            .map(|j| found(&format!("f{j}"), &vec![0u8; i * 100 + j], false))
            .collect();
        if backwards {
            files.reverse();
        }
        dir(&format!("d{i}"), files)
    };
    let mut in_order: Vec<Walked> =
        (0..5).map(|i| Walked::Dir(Box::new(sub(i, false)))).collect();
    in_order.push(found("top", b"hi", false));
    let mut backwards: Vec<Walked> =
        (0..5).rev().map(|i| Walked::Dir(Box::new(sub(i, true)))).collect();
    backwards.push(found("top", b"hi", false));

    let t_seq = build_tree(dir("/t", in_order));
    let t_par = build_tree(dir("/t", backwards));
    assert_eq!(t_seq.get(t_seq.root).common.size, t_par.get(t_par.root).common.size);
    assert_eq!(t_seq.get(t_seq.root).common.blocks, t_par.get(t_par.root).common.blocks);
    assert_eq!(
        t_seq.get(t_seq.root).as_dir().unwrap().items,
        t_par.get(t_par.root).as_dir().unwrap().items
    );
    assert_eq!(t_seq.get(t_seq.root).common.size, 6 * 4096 + 3015 + 2);
    for i in 0..5 {
        let sub = format!("d{i}");
        let (d, e) = (child(&t_seq, t_seq.root, &sub), child(&t_par, t_par.root, &sub));
        for name in ["f0", "f1", "f2"] {
            let (x, y) = (t_seq.get(child(&t_seq, d, name)), t_par.get(child(&t_par, e, name)));
            assert_eq!(x.common.etype, y.common.etype);
            assert_eq!((x.common.size, x.common.blocks), (y.common.size, y.common.blocks));
        }
    }
}

#[test]
fn deletes_file_and_prunes_tree() {
    let mut tree = build_tree(dir(
        "/t",
        vec![found("keep", b"k", false), found("drop", b"dropped", false)],
    ));
    let root = tree.root;
    let drop_id = child(&tree, root, "drop");
    assert!(!drop_id.is_none());
    prune_entry(&mut tree, root, drop_id);
    assert_eq!(names(&tree, root), vec!["keep"]);
    assert_eq!(tree.get(root).as_dir().unwrap().items, 1);
}

#[test]
fn deletes_subdirectory_recursively() {
    let deeper = dir("deeper", vec![found("z", b"yy", false)]);
    let d = dir("d", vec![found("inner", b"x", false), Walked::Dir(Box::new(deeper))]);
    let mut tree = build_tree(dir("/t", vec![Walked::Dir(Box::new(d))]));
    let root = tree.root;
    let d_id = child(&tree, root, "d");
    assert_eq!(tree.get(root).as_dir().unwrap().items, 4); // d, inner, deeper, z
    prune_entry(&mut tree, root, d_id);
    assert!(tree.get(root).as_dir().unwrap().sub.is_none(), "root should be empty after delete");
    assert_eq!(tree.get(root).as_dir().unwrap().items, 0);
}

#[test]
fn pruning_leaves_what_a_scan_without_the_entry_records() {
    let found_in = |with_x: bool| {
        let mut files = vec![file("a", 1)];
        if with_x {
            files.push(file("x", 10));
        }
        files.push(file("b", 2));
        dir("/r", vec![Walked::Dir(Box::new(dir("sub", files))), file("c", 4)])
    };
    let mut tree = build_tree(found_in(true));
    let sub = child(&tree, tree.root, "sub");
    let x = child(&tree, sub, "x");
    prune_entry(&mut tree, sub, x);
    let fresh = build_tree(found_in(false));
    let opts = ExportOptions { timestamp: Some(0), ..ExportOptions::default() };
    let mut left = Vec::new();
    export_tree(&tree, tree.root, &mut left, &opts).unwrap();
    let mut right = Vec::new();
    export_tree(&fresh, fresh.root, &mut right, &opts).unwrap();
    assert_eq!(left, right);
    assert_eq!(
        tree.get(tree.root).as_dir().unwrap().items,
        fresh.get(fresh.root).as_dir().unwrap().items
    );
}

#[test]
fn parallel_excludes_patterns() {
    let mut exclude = ExcludeSet::new();
    exclude.add("drop");
    let hits = GlobHits::new();
    let level = exclude.for_path("/r", &hits);
    let mut children = Vec::new();
    for name in ["keep", "drop"] {
        let excluded = level.matches(&exclude, name, &hits);
        match before_lookup(EntryName::Text(name.to_string()), excluded) {
            Lookup::Skip(w) => children.push(w),
            Lookup::Needed(name) => match after_lookup(name, excluded, Some(metadata()), false) {
                Step::Record(w) => children.push(w),
                Step::Descend(..) => unreachable!(),
            },
        }
    }
    let tree = build_tree(dir("/r", children));
    assert_eq!(names(&tree, tree.root), vec!["keep", "drop"]);
    let keep = tree.get(tree.root).as_dir().unwrap().sub;
    let drop = tree.get(keep).common.next;
    assert_eq!(tree.get(keep).common.etype, EType::Reg);
    assert_eq!(tree.get(drop).common.etype, EType::Pattern);
}

#[test]
fn a_listing_has_one_record_per_entry() {
    let mut listing = Listing::new();
    listing.record(file("a", 1));
    listing.descend("d");
    listing.record(special("p", EType::Pattern));
    listing.descend("e");
    assert_eq!(listing.places, vec![1, 3]);
    assert_eq!(listing.children.len(), 4);
    let subs = vec![dir("d", vec![file("x", 2)]), dir("e", vec![])];
    let tree = build_tree(listing.finish("/r".to_string(), dir_stat(), subs));
    assert_eq!(names(&tree, tree.root), vec!["a", "d", "p", "e"]);
    assert_eq!(tree.get(tree.root).as_dir().unwrap().items, 5);
    let empty = Listing::new().finish("/r".to_string(), dir_stat(), vec![]);
    assert!(empty.children.is_empty() && !empty.read_error);
}
