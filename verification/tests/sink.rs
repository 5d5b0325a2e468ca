use ncdu_core::json_export::{export_tree, ExportOptions};
use ncdu_core::json_import::import_tree;
use ncdu_core::model::{EType, EntryId, Ext, Inodes, Tree};
use ncdu_core::sink::{MemSink, Stat};

fn stat_reg(size: u64, blocks: u64) -> Stat {
    Stat {
        etype: EType::Reg,
        size,
        blocks,
        dev: 1,
        ..Stat::default()
    }
}

fn stat_dir(dev: u64) -> Stat {
    Stat {
        etype: EType::Dir,
        size: 4096,
        blocks: 8,
        dev,
        ..Stat::default()
    }
}

fn names(tree: &Tree, dir: EntryId) -> Vec<String> {
    let mut names = Vec::new();
    let mut cur = tree.get(dir).as_dir().unwrap().sub;
    while !cur.is_none() {
        names.push(tree.get(cur).common.name.clone());
        cur = tree.get(cur).common.next;
    }
    names
}

#[test]
fn builds_flat_tree() {
    let mut s = MemSink::new();
    let mut root = s.create_root("/tmp", &stat_dir(1));
    root.add_stat(&mut s, "a", &stat_reg(100, 1));
    root.add_stat(&mut s, "b", &stat_reg(200, 1));
    root.finalize(&mut s, None);

    let tree = s.into_tree();
    let r = tree.get(tree.root);
    assert_eq!(&*r.common.name, "/tmp");
    let dir = r.as_dir().unwrap();
    assert_eq!(dir.items, 2);
    // Walk children in order.
    assert_eq!(names(&tree, tree.root), vec!["a".to_string(), "b".to_string()]);
}

#[test]
fn nested_dir_aggregates_blocks() {
    let mut s = MemSink::new();
    let mut root = s.create_root("/", &stat_dir(1));
    let mut sub = root.add_dir(&mut s, "sub", &stat_dir(1));
    sub.add_stat(&mut s, "x", &stat_reg(10, 2));
    sub.add_stat(&mut s, "y", &stat_reg(20, 4));
    sub.finalize(&mut s, Some(&mut root));
    root.finalize(&mut s, None);

    let tree = s.into_tree();
    // root.blocks = own (8) + sub_dir.own (8) + sub_dir.children (6) = 22
    let root_blocks = tree.get(tree.root).common.blocks;
    assert_eq!(root_blocks, 8 + 8 + 6, "got {root_blocks}");
    let root_dir = tree.get(tree.root).as_dir().unwrap();
    assert_eq!(root_dir.items, 3);
}

#[test]
fn special_entries_propagate_suberr() {
    let mut s = MemSink::new();
    let mut root = s.create_root("/", &stat_dir(1));
    let mut sub = root.add_dir(&mut s, "bad", &stat_dir(1));
    sub.add_special(&mut s, "broken", EType::Error);
    sub.finalize(&mut s, Some(&mut root));
    root.finalize(&mut s, None);

    let tree = s.into_tree();
    assert!(tree.get(tree.root).as_dir().unwrap().suberr);
}

#[test]
fn add_dir_subtree_can_round_trip_via_json() {
    let mut s = MemSink::new();
    let mut root = s.create_root("/", &stat_dir(1));
    root.add_stat(&mut s, "f", &stat_reg(5, 1));
    let mut sub = root.add_dir(&mut s, "d", &stat_dir(1));
    sub.add_stat(&mut s, "g", &stat_reg(6, 1));
    sub.finalize(&mut s, Some(&mut root));
    root.finalize(&mut s, None);

    let tree = s.into_tree();
    let opts = ExportOptions {
        program_name: "ncdu".to_string(),
        program_version: "2.9.2".to_string(),
        timestamp: Some(0),
        extended: false,
    };
    let mut out = Vec::new();
    export_tree(&tree, tree.root, &mut out, &opts).unwrap();
    let imported = import_tree(out.as_slice()).unwrap();
    let mut out2 = Vec::new();
    export_tree(&imported, imported.root, &mut out2, &opts).unwrap();
    assert_eq!(out, out2);
}

#[test]
fn an_unreadable_directory_marks_those_above_it() {
    let mut s = MemSink::new();
    let mut root = s.create_root("/", &stat_dir(1));
    let mut a = root.add_dir(&mut s, "a", &stat_dir(1));
    let mut b = a.add_dir(&mut s, "b", &stat_dir(1));
    b.set_read_error(&mut s);
    let (a_id, b_id) = (a.id(), b.id());
    b.finalize(&mut s, Some(&mut a));
    a.finalize(&mut s, Some(&mut root));
    root.finalize(&mut s, None);
    let tree = s.into_tree();
    let dir = |id: EntryId| tree.get(id).as_dir().unwrap().clone();
    assert!(dir(b_id).err && !dir(b_id).suberr);
    assert!(!dir(a_id).err && dir(a_id).suberr);
    assert!(dir(tree.root).suberr);
    assert_eq!(dir(a_id).parent, tree.root);
    assert_eq!(dir(b_id).parent, a_id);
}

#[test]
fn every_hardlink_counts() {
    let link = Stat { etype: EType::Link, ino: 7, nlink: 2, ..stat_reg(1000, 2) };
    let mut s = MemSink::default();
    let mut root = s.create_root("/", &stat_dir(1));
    let first = root.add_stat(&mut s, "l1", &link);
    root.add_stat(&mut s, "l2", &link);
    root.finalize(&mut s, None);
    let tree = s.into_tree();
    let r = tree.get(tree.root);
    assert_eq!((r.common.blocks, r.common.size), (8 + 2 + 2, 4096 + 2000));
    let l = tree.get(first).as_link().unwrap();
    assert_eq!((l.ino, l.nlink, l.parent), (7, 2, tree.root));
}

#[test]
fn handles_may_be_filled_by_turns() {
    let mut s = MemSink::new();
    let mut root = s.create_root("/", &stat_dir(1));
    let mut a = root.add_dir(&mut s, "a", &stat_dir(1));
    let mut b = root.add_dir(&mut s, "b", &stat_dir(2));
    a.add_stat(&mut s, "a1", &stat_reg(1, 1));
    b.add_stat(&mut s, "b1", &stat_reg(1, 1));
    a.add_stat(&mut s, "a2", &stat_reg(1, 1));
    b.add_special(&mut s, "b2", EType::Pattern);
    assert_eq!(names(s.tree(), a.id()), vec!["a1", "a2"]);
    assert_eq!(names(s.tree(), b.id()), vec!["b1", "b2"]);
    assert_eq!(names(s.tree(), root.id()), vec!["a", "b"]);
    assert_eq!(s.tree().devices.list, vec![1, 2]);
}

#[test]
fn totals_stop_at_the_largest_value() {
    let mut s = MemSink::new();
    let mut root = s.create_root("/", &stat_dir(1));
    root.add_stat(&mut s, "big", &stat_reg(u64::MAX, u64::MAX));
    root.add_stat(&mut s, "small", &stat_reg(1, 1));
    root.finalize(&mut s, None);
    let tree = s.into_tree();
    let c = &tree.get(tree.root).common;
    assert_eq!((c.size, c.blocks), (u64::MAX, u64::MAX));
}

#[test]
fn without_aggregation_nothing_is_counted() {
    let mut s = MemSink::new();
    s.aggregate_stats = false;
    let mut root = s.create_root("/", &stat_dir(1));
    let mut sub = root.add_dir(&mut s, "d", &stat_dir(1));
    sub.add_special(&mut s, "e", EType::Error);
    sub.add_stat(&mut s, "f", &stat_reg(3, 3));
    sub.finalize(&mut s, Some(&mut root));
    root.finalize(&mut s, None);
    let tree = s.into_tree();
    let r = tree.get(tree.root);
    assert_eq!((r.common.blocks, r.common.size), (8, 4096));
    let d = r.as_dir().unwrap();
    assert_eq!((d.items, d.suberr), (0, false));
}

#[test]
fn extended_metadata_is_kept_where_there_is_any() {
    let mut s = MemSink::new();
    let mut root = s.create_root("/", &stat_dir(1));
    let ext = Ext { uid: Some(3), ..Ext::default() };
    let with = root.add_stat(&mut s, "x", &Stat { ext, ..stat_reg(1, 1) });
    let without = root.add_stat(&mut s, "y", &stat_reg(1, 1));
    assert_eq!(s.tree().get(with).common.ext, Some(ext));
    assert_eq!(s.tree().get(without).common.ext, None);
}

#[test]
fn totals_add_up_in_whatever_turns() {
    let mut s = MemSink::new();
    let mut root = s.create_root("/", &stat_dir(1));
    let mut a = root.add_dir(&mut s, "a", &stat_dir(1));
    let mut b = root.add_dir(&mut s, "b", &stat_dir(1));
    a.add_stat(&mut s, "a1", &stat_reg(10, 1));
    let mut inner = b.add_dir(&mut s, "inner", &stat_dir(1));
    root.add_stat(&mut s, "r1", &stat_reg(20, 2));
    inner.add_stat(&mut s, "i1", &stat_reg(40, 4));
    b.add_special(&mut s, "b1", EType::Pattern);
    let ids = (a.id(), b.id(), inner.id());
    a.finalize(&mut s, Some(&mut root));
    inner.add_stat(&mut s, "i2", &stat_reg(80, 8));
    inner.finalize(&mut s, Some(&mut b));
    b.finalize(&mut s, Some(&mut root));
    root.finalize(&mut s, None);
    let tree = s.into_tree();
    let totals = |id: EntryId| {
        let n = tree.get(id);
        (n.as_dir().unwrap().items, n.common.blocks, n.common.size)
    };
    assert_eq!(totals(ids.0), (1, 8 + 1, 4096 + 10));
    assert_eq!(totals(ids.2), (2, 8 + 12, 4096 + 120));
    assert_eq!(totals(ids.1), (4, 2 * 8 + 12, 2 * 4096 + 120));
    assert_eq!(totals(tree.root), (8, 4 * 8 + 15, 4 * 4096 + 150));
    assert!(tree.inodes.map.is_empty() && !tree.inodes.uncounted_full);
}

#[test]
fn links_are_entered_into_the_inode_table() {
    let link = |ino: u64| Stat { etype: EType::Link, ino, nlink: 2, ..stat_reg(50, 1) };
    let mut s = MemSink::new();
    let mut root = s.create_root("/", &stat_dir(1));
    let h = root.add_stat(&mut s, "h", &link(42));
    assert_eq!(s.tree().inodes.map.get(&Inodes::key(0, 42)), Some(&h));
    let mut other = root.add_dir(&mut s, "other", &stat_dir(2));
    // The same number on another device is another inode.
    let o = other.add_stat(&mut s, "o", &link(42));
    let again = root.add_stat(&mut s, "again", &link(42));
    let big = root.add_stat(&mut s, "big", &link(u64::MAX));
    root.add_stat(&mut s, "file", &stat_reg(1, 1));
    root.add_special(&mut s, "marker", EType::Error);
    other.finalize(&mut s, Some(&mut root));
    root.finalize(&mut s, None);
    let tree = s.into_tree();
    assert_eq!(tree.inodes.map.len(), 3);
    assert_eq!(tree.inodes.map[&Inodes::key(0, 42)], h);
    assert_eq!(tree.inodes.map[&Inodes::key(1, 42)], o);
    assert_eq!(tree.inodes.map[&Inodes::key(0, u64::MAX)], big);
    assert!(tree.inodes.uncounted.is_empty() && !tree.inodes.uncounted_full);
    let l = tree.get(h).as_link().unwrap();
    assert_eq!((l.ino, l.nlink, l.parent), (42, 2, tree.root));
    assert!(!l.counted);
    let ring = |id: EntryId| {
        let l = tree.get(id).as_link().unwrap();
        (l.prev_link, l.next_link)
    };
    assert_eq!(ring(h), (again, again));
    assert_eq!(ring(again), (h, h));
    assert_eq!(ring(o), (o, o));
    assert_eq!(ring(big), (big, big));
}

#[test]
fn the_links_of_an_inode_form_a_ring() {
    let link = Stat { etype: EType::Link, ino: 7, nlink: 4, ..stat_reg(50, 1) };
    let mut s = MemSink::new();
    let mut root = s.create_root("/", &stat_dir(1));
    let mut ids = Vec::new();
    ids.push(root.add_stat(&mut s, "a", &link));
    let mut sub = root.add_dir(&mut s, "sub", &stat_dir(1));
    ids.push(sub.add_stat(&mut s, "b", &link));
    sub.finalize(&mut s, Some(&mut root));
    ids.push(root.add_stat(&mut s, "c", &link));
    ids.push(root.add_stat(&mut s, "d", &link));
    root.finalize(&mut s, None);
    let tree = s.into_tree();
    for i in 0..4 {
        let l = tree.get(ids[i]).as_link().unwrap();
        assert_eq!(l.next_link, ids[(i + 1) % 4]);
        assert_eq!(l.prev_link, ids[(i + 3) % 4]);
    }
}
