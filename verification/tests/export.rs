use ncdu_core::json::write_escaped;
use ncdu_core::json_export::{export_tree, export_tree_at, ExportError, ExportOptions};
use ncdu_core::model::{EType, EntryId, Node, NodeKind, Tree};

fn fixed_opts() -> ExportOptions {
    ExportOptions {
        extended: false,
        program_name: "ncdu".to_string(),
        program_version: "2.9.2".to_string(),
        timestamp: Some(1_700_000_000),
    }
}

fn make_root(tree: &mut Tree, name: &str, dev: u64) -> EntryId {
    let dev_id = tree.devices.get_id(dev);
    let id = tree.create(EType::Dir, name);
    tree.get_mut(id).as_dir_mut().unwrap().dev = dev_id;
    tree.root = id;
    id
}

fn add_child(tree: &mut Tree, parent: EntryId, child: EntryId) {
    let dir = tree.get_mut(parent).as_dir_mut().unwrap();
    let old_head = dir.sub;
    dir.sub = child;
    dir.items += 1;
    tree.get_mut(child).common.next = old_head;
}

#[test]
fn empty_root_dir() {
    let mut tree = Tree::new();
    let root = make_root(&mut tree, "/tmp", 1);
    let mut out = Vec::new();
    export_tree(&tree, root, &mut out, &fixed_opts()).unwrap();
    let s = String::from_utf8(out).unwrap();
    assert_eq!(
        s,
        "[1,2,{\"progname\":\"ncdu\",\"progver\":\"2.9.2\",\"timestamp\":1700000000},\n[{\"name\":\"/tmp\",\"dev\":1}]]\n"
    );
}

#[test]
fn root_with_one_file() {
    let mut tree = Tree::new();
    let root = make_root(&mut tree, "/tmp", 1);
    let file = tree.create(EType::Reg, "a.txt");
    {
        let c = &mut tree.get_mut(file).common;
        c.size = 100;
        c.blocks = 1;
    }
    add_child(&mut tree, root, file);

    let mut out = Vec::new();
    export_tree(&tree, root, &mut out, &fixed_opts()).unwrap();
    let s = String::from_utf8(out).unwrap();
    assert!(s.contains(r#"{"name":"a.txt","asize":100,"dsize":512}"#), "got: {s}");
}

#[test]
fn escapes_special_chars_in_name() {
    let mut tree = Tree::new();
    let root = make_root(&mut tree, "weird\nname\"quote\\bs", 1);
    let mut out = Vec::new();
    export_tree(&tree, root, &mut out, &fixed_opts()).unwrap();
    let s = String::from_utf8(out).unwrap();
    assert!(s.contains(r#""name":"weird\nname\"quote\\bs""#), "got: {s}");
}

#[test]
fn link_entry_emits_hlnkc() {
    let mut tree = Tree::new();
    let root = make_root(&mut tree, "/", 1);
    let link = tree.create(EType::Link, "hard");
    {
        let n: &mut Node = tree.get_mut(link);
        n.common.size = 50;
        n.common.blocks = 1;
        if let NodeKind::Link(l) = &mut n.kind {
            l.ino = 42;
            l.nlink = 3;
        }
    }
    add_child(&mut tree, root, link);

    let mut out = Vec::new();
    export_tree(&tree, root, &mut out, &fixed_opts()).unwrap();
    let s = String::from_utf8(out).unwrap();
    assert!(
        s.contains(r#""ino":42,"hlnkc":true,"nlink":3"#),
        "got: {s}"
    );
}

#[test]
fn nested_dir_emits_array() {
    let mut tree = Tree::new();
    let root = make_root(&mut tree, "/", 1);
    let sub = tree.create(EType::Dir, "subdir");
    let dev = tree.devices.get_id(1);
    tree.get_mut(sub).as_dir_mut().unwrap().dev = dev;
    add_child(&mut tree, root, sub);

    let f = tree.create(EType::Reg, "inside.txt");
    tree.get_mut(f).common.size = 7;
    add_child(&mut tree, sub, f);

    let mut out = Vec::new();
    export_tree(&tree, root, &mut out, &fixed_opts()).unwrap();
    let s = String::from_utf8(out).unwrap();
    // Sub-dir is an array nested inside the root array; dev omitted because same as parent.
    assert!(s.contains("[{\"name\":\"subdir\"}"), "got: {s}");
    assert!(
        s.contains("{\"name\":\"inside.txt\",\"asize\":7}"),
        "got: {s}"
    );
    assert!(!s.contains("\"subdir\",\"dev\""), "dev should be elided: {s}");
}

#[test]
fn excluded_otherfs_marker() {
    let mut tree = Tree::new();
    let root = make_root(&mut tree, "/", 1);
    let ex = tree.create(EType::OtherFs, "mount");
    add_child(&mut tree, root, ex);
    let mut out = Vec::new();
    export_tree(&tree, root, &mut out, &fixed_opts()).unwrap();
    let s = String::from_utf8(out).unwrap();
    assert!(
        s.contains(r#"{"name":"mount","excluded":"otherfs"}"#),
        "got: {s}"
    );
}

#[test]
fn markers_carry_their_name_and_reason_only() {
    let mut tree = Tree::new();
    let root = make_root(&mut tree, "/", 1);
    for (etype, name) in [
        (EType::Error, "e"),
        (EType::Pattern, "p"),
        (EType::KernFs, "k"),
        (EType::NonReg, "n"),
    ] {
        let id = tree.create(etype, name);
        tree.get_mut(id).common.size = 9;
        add_child(&mut tree, root, id);
    }
    tree.get_mut(root).as_dir_mut().unwrap().err = true;
    let mut out = Vec::new();
    export_tree_at(&tree, root, 5, &mut out, &fixed_opts()).unwrap();
    let s = String::from_utf8(out).unwrap();
    assert_eq!(
        s,
        "[1,2,{\"progname\":\"ncdu\",\"progver\":\"2.9.2\",\"timestamp\":5},\n\
         [{\"name\":\"/\",\"dev\":1,\"read_error\":true},\n\
         {\"name\":\"n\",\"asize\":9,\"notreg\":true},\n\
         {\"name\":\"k\",\"excluded\":\"kernfs\"},\n\
         {\"name\":\"p\",\"excluded\":\"pattern\"},\n\
         {\"name\":\"e\",\"read_error\":true}]]\n"
    );
}

#[test]
fn huge_block_counts_are_capped() {
    let mut tree = Tree::new();
    let root = make_root(&mut tree, "/", u64::MAX);
    tree.get_mut(root).common.blocks = u64::MAX;
    let mut out = Vec::new();
    export_tree(&tree, root, &mut out, &fixed_opts()).unwrap();
    let s = String::from_utf8(out).unwrap();
    // A device number that equals the one for "no parent" is left out.
    assert!(s.ends_with(",\n[{\"name\":\"/\",\"dsize\":18446744073709551615}]]\n"), "got: {s}");
}

#[test]
fn without_a_root_only_the_header_is_written() {
    let tree = Tree::new();
    let mut out = b"before ".to_vec();
    export_tree(&tree, EntryId::none(), &mut out, &fixed_opts()).unwrap();
    assert_eq!(
        String::from_utf8(out).unwrap(),
        "before [1,2,{\"progname\":\"ncdu\",\"progver\":\"2.9.2\",\"timestamp\":1700000000}]\n"
    );
}

#[test]
fn a_file_is_no_root() {
    let mut tree = Tree::new();
    let file = tree.create(EType::Reg, "f");
    let mut out = Vec::new();
    let err = export_tree(&tree, file, &mut out, &fixed_opts()).unwrap_err();
    assert_eq!(err, ExportError::NotADirectory);
    assert_eq!(
        String::from_utf8(out).unwrap(),
        "[1,2,{\"progname\":\"ncdu\",\"progver\":\"2.9.2\",\"timestamp\":1700000000}"
    );
}

#[test]
fn the_clock_fills_in_a_missing_timestamp() {
    let mut tree = Tree::new();
    let root = make_root(&mut tree, "/", 1);
    let opts = ExportOptions { timestamp: None, ..ExportOptions::default() };
    let mut out = Vec::new();
    export_tree(&tree, root, &mut out, &opts).unwrap();
    let s = String::from_utf8(out).unwrap();
    let from = s.find("\"timestamp\":").unwrap() + 12;
    let to = from + s[from..].find('}').unwrap();
    let ts: u64 = s[from..to].parse().unwrap();
    assert!(ts > 1_600_000_000, "got: {s}");
    assert!(s.starts_with("[1,2,{\"progname\":\"ncdu-rs\",\"progver\":\"0.1.0\","), "got: {s}");
}

#[test]
fn every_kind_of_escape() {
    let mut out = Vec::new();
    write_escaped(&mut out, b"a\n\r\x08\t\x0c\\\"\x00\x1f\x7f\xc3\xa9/");
    assert_eq!(out, b"a\\n\\r\\b\\t\\f\\\\\\\"\\u0000\\u001f\\u007f\xc3\xa9/".to_vec());
}
