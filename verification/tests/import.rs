use ncdu_core::delete::prune_entry;
use ncdu_core::json_export::{export_tree, ExportOptions};
use ncdu_core::json_import::{count_entries, import_tree, tree_from_json, ImportError};
use ncdu_core::json_value::{read_json, Json};
use ncdu_core::model::{EType, EntryId, Ext, Inodes, NodeKind, Tree};

fn fixed_opts() -> ExportOptions {
    ExportOptions {
        extended: false,
        program_name: "ncdu".to_string(),
        program_version: "2.9.2".to_string(),
        timestamp: Some(1_700_000_000),
    }
}

fn make_root(tree: &mut Tree, name: &str, dev: u64) -> EntryId {
    let dev_id = tree.devices.get_id(dev);
    let id = tree.create(EType::Dir, name);
    tree.get_mut(id).as_dir_mut().unwrap().dev = dev_id;
    tree.root = id;
    id
}

fn add_child(tree: &mut Tree, parent: EntryId, child: EntryId) {
    // Append, so resulting export order matches insertion order.
    let mut cur = tree.get(parent).as_dir().unwrap().sub;
    if cur.is_none() {
        tree.get_mut(parent).as_dir_mut().unwrap().sub = child;
    } else {
        while !tree.get(cur).common.next.is_none() {
            cur = tree.get(cur).common.next;
        }
        tree.get_mut(cur).common.next = child;
    }
    tree.get_mut(parent).as_dir_mut().unwrap().items += 1;
    match &mut tree.get_mut(child).kind {
        NodeKind::Dir(d) => d.parent = parent,
        NodeKind::Link(l) => l.parent = parent,
        NodeKind::File => {}
    }
}

#[test]
fn round_trip_empty_root() {
    let mut tree = Tree::new();
    make_root(&mut tree, "/tmp", 7);
    let mut out = Vec::new();
    export_tree(&tree, tree.root, &mut out, &fixed_opts()).unwrap();
    let exported = String::from_utf8(out).unwrap();

    let imported = import_tree(exported.as_bytes()).unwrap();
    let mut out2 = Vec::new();
    export_tree(&imported, imported.root, &mut out2, &fixed_opts()).unwrap();
    assert_eq!(exported, String::from_utf8(out2).unwrap());
}

#[test]
fn round_trip_mixed_tree() {
    let mut tree = Tree::new();
    let root = make_root(&mut tree, "/data", 42);

    let f = tree.create(EType::Reg, "file.txt");
    tree.get_mut(f).common.size = 1234;
    tree.get_mut(f).common.blocks = 4;
    add_child(&mut tree, root, f);

    let sub = tree.create(EType::Dir, "sub");
    let dev = tree.devices.get_id(42);
    tree.get_mut(sub).as_dir_mut().unwrap().dev = dev;
    add_child(&mut tree, root, sub);

    let g = tree.create(EType::Reg, "inner");
    tree.get_mut(g).common.size = 99;
    add_child(&mut tree, sub, g);

    let link = tree.create(EType::Link, "hard");
    tree.get_mut(link).common.size = 50;
    tree.get_mut(link).common.blocks = 1;
    if let NodeKind::Link(l) = &mut tree.get_mut(link).kind {
        l.ino = 314;
        l.nlink = 2;
    }
    add_child(&mut tree, root, link);

    let mut out = Vec::new();
    export_tree(&tree, root, &mut out, &fixed_opts()).unwrap();
    let exported = String::from_utf8(out).unwrap();

    let imported = import_tree(exported.as_bytes()).unwrap();
    let mut out2 = Vec::new();
    export_tree(&imported, imported.root, &mut out2, &fixed_opts()).unwrap();
    assert_eq!(
        exported,
        String::from_utf8(out2).unwrap(),
        "round trip differs"
    );
}

#[test]
fn round_trip_with_extended_attrs() {
    let mut tree = Tree::new();
    let root = make_root(&mut tree, "/", 1);
    let f = tree.create(EType::Reg, "x");
    {
        let c = &mut tree.get_mut(f).common;
        c.size = 10;
        c.blocks = 1;
        c.ext = Some(Ext {
            uid: Some(1000),
            gid: Some(1000),
            mode: Some(0o644),
            mtime: Some(1_600_000_000),
        });
    }
    add_child(&mut tree, root, f);

    let opts = ExportOptions {
        extended: true,
        ..fixed_opts()
    };
    let mut out = Vec::new();
    export_tree(&tree, root, &mut out, &opts).unwrap();
    let exported = String::from_utf8(out).unwrap();
    assert!(exported.contains("\"uid\":1000"), "{exported}");
    assert!(exported.contains("\"mode\":420"), "{exported}");

    let imported = import_tree(exported.as_bytes()).unwrap();
    let mut out2 = Vec::new();
    export_tree(&imported, imported.root, &mut out2, &opts).unwrap();
    assert_eq!(exported, String::from_utf8(out2).unwrap());
}

#[test]
fn rejects_wrong_major_version() {
    let bad = br#"[2,0,{},[{"name":"x"}]]"#;
    let err = import_tree(bad.as_slice()).unwrap_err();
    assert!(err.message().contains("incompatible major"));
}

#[test]
fn parses_excluded_markers() {
    let json = br#"[1,2,{},[{"name":"r","dev":1},{"name":"mnt","excluded":"otherfs"},{"name":"k","excluded":"kernfs"}]]"#;
    let tree = import_tree(json.as_slice()).unwrap();
    let root = tree.root;
    let mut child = tree.get(root).as_dir().unwrap().sub;
    let mut found = Vec::new();
    while !child.is_none() {
        found.push(tree.get(child).common.etype);
        child = tree.get(child).common.next;
    }
    assert_eq!(found, vec![EType::OtherFs, EType::KernFs]);
}

fn message(json: &str) -> String {
    import_tree(json.as_bytes()).unwrap_err().message()
}

#[test]
fn every_import_error() {
    assert_eq!(message("{}"), "expected top-level array");
    assert_eq!(
        message("[1,2,{}]"),
        "expected [major, minor, metadata, root, ...] — got 3 elements"
    );
    assert_eq!(message("[\"1\",2,{},{}]"), "major version must be a number");
    assert_eq!(message("[-1,2,{},{}]"), "major version must be a number");
    assert_eq!(message("[2,0,{},{}]"), "incompatible major format version: 2");
    assert_eq!(
        message("[1,2,{},[]]"),
        "empty array — directory entry requires at least an info object"
    );
    assert_eq!(message("[1,2,{},[7]]"), "first array element must be an object");
    assert_eq!(message("[1,2,{},{}]"), "missing or non-string \"name\" field");
    assert_eq!(message("[1,2,{},{\"name\":3}]"), "missing or non-string \"name\" field");
    assert_eq!(message("[1,2,{},null]"), "expected object or array, got null");
    assert_eq!(message("[1,2,{},true]"), "expected object or array, got true");
    assert_eq!(message("[1,2,{},false]"), "expected object or array, got false");
    assert_eq!(message("[1,2,{},-1.5]"), "expected object or array, got -1.5");
    assert_eq!(message("[1,2,{},\"a\\\"b\"]"), "expected object or array, got \"a\\\"b\"");
    assert_eq!(
        message(r#"[1,2,{},"\\\b\f\n\r\t\u0000\u001f\u007f\u00e9/"]"#),
        "expected object or array, got \"\\\\\\b\\f\\n\\r\\t\\u0000\\u001f\u{7f}\u{e9}/\""
    );
    // The first fault in the order of the dump counts.
    assert_eq!(
        message("[1,2,{},[{\"name\":\"r\"},{\"name\":\"ok\"},5,[]]]"),
        "expected object or array, got 5"
    );
    let err = import_tree(b"[1,").unwrap_err();
    assert!(matches!(err, ImportError::Syntax(_)));
    assert!(err.message().contains("line 1 column 3"), "{}", err.message());
    assert_eq!(ImportError::TooManyEntries.message(), "too many entries");
}

#[test]
fn fields_of_an_entry() {
    let json = br#"[1,0,0,[{"name":"r","dev":5,"read_error":true},
        {"name":"f","asize":3,"dsize":1535,"uid":4294967297,"gid":7,"mode":65537,"mtime":9},
        {"name":"l","ino":8,"nlink":2},
        {"name":"h","hlnkc":true},
        {"name":"n","notreg":true,"nlink":4294967298},
        {"name":"e","read_error":true,"asize":4},
        {"name":"p","excluded":"frmlnk"},
        {"name":"o","excluded":"othfs"},
        [{"name":"d"},{"name":"d1"},{"name":"d2"}],
        [{"name":"x","dev":6},[{"name":"y"}]]]]"#;
    let tree = import_tree(json.as_slice()).unwrap();
    let root = tree.get(tree.root);
    let dir = root.as_dir().unwrap();
    assert!(dir.err);
    assert!(dir.parent.is_none());
    // All that is below counts, and an error below it leaves a mark.
    assert_eq!(dir.items, 12);
    assert!(dir.suberr);
    assert_eq!(tree.devices.get(dir.dev), Some(5));
    let mut ids = Vec::new();
    let mut cur = dir.sub;
    while !cur.is_none() {
        ids.push(cur);
        cur = tree.get(cur).common.next;
    }
    assert_eq!(ids.len(), 9);
    let f = tree.get(ids[0]);
    assert_eq!(f.common.etype, EType::Reg);
    assert_eq!((f.common.size, f.common.blocks), (3, 2));
    let ext = f.common.ext.unwrap();
    assert_eq!((ext.uid, ext.gid, ext.mode, ext.mtime), (Some(1), Some(7), Some(1), Some(9)));
    let l = tree.get(ids[1]).as_link().unwrap();
    assert_eq!((l.ino, l.nlink), (8, 2));
    assert_eq!(l.parent, tree.root);
    let h = tree.get(ids[2]).as_link().unwrap();
    assert_eq!((h.ino, h.nlink), (0, 0));
    assert_eq!(tree.inodes.map.len(), 2);
    assert_eq!(tree.inodes.map[&Inodes::key(0, 8)], ids[1]);
    assert_eq!(tree.inodes.map[&Inodes::key(0, 0)], ids[2]);
    // Of the link count the lowest 32 bits count, and there is no inode.
    assert_eq!(tree.get(ids[3]).common.etype, EType::NonReg);
    assert_eq!(tree.get(ids[4]).common.etype, EType::Error);
    assert_eq!(tree.get(ids[5]).common.etype, EType::Pattern);
    assert_eq!(tree.get(ids[6]).common.etype, EType::OtherFs);
    let d = tree.get(ids[7]).as_dir().unwrap();
    assert_eq!(d.items, 2);
    assert_eq!(d.parent, tree.root);
    // A directory is on the device of its parent unless it says otherwise.
    assert_eq!(tree.devices.get(d.dev), Some(5));
    let x = tree.get(ids[8]).as_dir().unwrap();
    assert_eq!(tree.devices.get(x.dev), Some(6));
    let y = tree.get(x.sub).as_dir().unwrap();
    assert_eq!(tree.devices.get(y.dev), Some(6));
}

#[test]
fn a_value_built_by_hand() {
    let name = |s: &str| ("name".to_string(), Json::Text(s.to_string()));
    let number = |n: u64| Json::Number(Some(n), n.to_string());
    let v = Json::Array(vec![
        number(1),
        Json::Null,
        Json::Bool(false),
        Json::Object(vec![
            name("old"),
            ("asize".to_string(), number(12)),
            name("new"),
        ]),
    ]);
    let tree = tree_from_json(&v).unwrap();
    // Of two members with one name the later one counts.
    assert_eq!(tree.get(tree.root).common.name, "new");
    assert_eq!(tree.get(tree.root).common.size, 12);
    // As an entry this is a directory with three others in it.
    assert_eq!(count_entries(&v), 4);
}

#[test]
fn values_are_read_as_they_are_written() {
    let v = read_json(br#" {"b":[1,-2,1.5,null,true,"x\u00e9"],"a":{}} "#).unwrap();
    let members = match v {
        Json::Object(m) => m,
        _ => panic!("an object"),
    };
    assert_eq!(members.len(), 2);
    let items = match &members.iter().find(|m| m.0 == "b").unwrap().1 {
        Json::Array(items) => items,
        _ => panic!("an array"),
    };
    assert!(matches!(&items[0], Json::Number(Some(1), s) if s == "1"));
    assert!(matches!(&items[1], Json::Number(None, s) if s == "-2"));
    assert!(matches!(&items[2], Json::Number(None, s) if s == "1.5"));
    assert!(matches!(&items[3], Json::Null));
    assert!(matches!(&items[4], Json::Bool(true)));
    assert!(matches!(&items[5], Json::Text(s) if s == "xé"));
    assert!(read_json(b"[1] x").is_err());
    assert!(read_json(b"\"\xff\"").is_err());
}

fn nested(levels: usize) -> Tree {
    let mut tree = Tree::new();
    let mut dir = make_root(&mut tree, "r", 1);
    for _ in 1..levels {
        let sub = tree.create(EType::Dir, "d");
        add_child(&mut tree, dir, sub);
        dir = sub;
    }
    tree
}

#[test]
fn a_dump_is_read_back_down_to_the_limit() {
    // The outer array, one array per level, and the object of the last one.
    let deep = nested(125);
    let mut out = Vec::new();
    export_tree(&deep, deep.root, &mut out, &fixed_opts()).unwrap();
    let imported = import_tree(&out).unwrap();
    let mut out2 = Vec::new();
    export_tree(&imported, imported.root, &mut out2, &fixed_opts()).unwrap();
    assert_eq!(out, out2);

    let deeper = nested(126);
    let mut out = Vec::new();
    export_tree(&deeper, deeper.root, &mut out, &fixed_opts()).unwrap();
    assert!(import_tree(&out).unwrap_err().message().contains("recursion limit exceeded"));
}

#[test]
fn a_dump_keeps_what_it_has_room_for() {
    let mut tree = Tree::new();
    let root = make_root(&mut tree, "odd\u{7f}\u{1}\u{e9}\"\\", 3);
    tree.get_mut(root).as_dir_mut().unwrap().suberr = true;
    let e = tree.create(EType::Error, "e");
    tree.get_mut(e).common.size = 77;
    tree.get_mut(e).common.blocks = 77;
    add_child(&mut tree, root, e);
    let f = tree.create(EType::NonReg, "f");
    tree.get_mut(f).common.blocks = u64::MAX / 512;
    tree.get_mut(f).common.ext = Some(Ext::default());
    add_child(&mut tree, root, f);
    let opts = ExportOptions { extended: true, ..fixed_opts() };
    let mut out = Vec::new();
    export_tree(&tree, root, &mut out, &opts).unwrap();
    let back = import_tree(&out).unwrap();
    let r = back.get(back.root);
    assert_eq!(r.common.name, "odd\u{7f}\u{1}\u{e9}\"\\");
    let d = r.as_dir().unwrap();
    assert!(d.suberr);
    assert_eq!(d.items, 2);
    let e = back.get(d.sub);
    assert_eq!((e.common.etype, e.common.size, e.common.blocks), (EType::Error, 0, 0));
    let f = back.get(e.common.next);
    assert_eq!(f.common.etype, EType::NonReg);
    assert_eq!(f.common.blocks, u64::MAX / 512);
    assert!(f.common.ext.is_none());
    let mut out2 = Vec::new();
    export_tree(&back, back.root, &mut out2, &opts).unwrap();
    assert_eq!(out, out2);
}

#[test]
fn devices_and_ids_come_in_the_order_of_the_dump() {
    let dump = br#"[1,2,{},[{"name":"r","dev":7},[{"name":"s"}],[{"name":"m","dev":9},[{"name":"n"}]]]]"#;
    let tree = import_tree(dump).unwrap();
    assert_eq!(tree.root, EntryId(0));
    assert_eq!(tree.devices.list, vec![7, 9]);
    for (i, (name, dev)) in [("r", 0), ("s", 0), ("m", 1), ("n", 1)].into_iter().enumerate() {
        let node = tree.get(EntryId(i as u32));
        assert_eq!(node.common.name, name);
        assert_eq!(node.as_dir().unwrap().dev, dev);
    }
    assert!(tree.inodes.map.is_empty() && tree.inodes.uncounted.is_empty());
    assert!(!tree.inodes.uncounted_full);
}

#[test]
fn counts_and_marks_cover_all_that_is_below() {
    let dump = br#"[1,2,{},[{"name":"r","dev":1},[{"name":"d"},{"name":"f"}]]]"#;
    let mut tree = import_tree(dump).unwrap();
    let (root, d, f) = (EntryId(0), EntryId(1), EntryId(2));
    assert_eq!(tree.get(root).as_dir().unwrap().items, 2);
    assert_eq!(tree.get(d).as_dir().unwrap().items, 1);
    assert!(!tree.get(root).has_err());
    prune_entry(&mut tree, d, f);
    assert_eq!(tree.get(root).as_dir().unwrap().items, 1);
    assert_eq!(tree.get(d).as_dir().unwrap().items, 0);

    let dump = br#"[1,2,{},[{"name":"r"},[{"name":"a"},[{"name":"b","read_error":true}]],[{"name":"c"},{"name":"e","read_error":true}],[{"name":"g"}]]]"#;
    let tree = import_tree(dump).unwrap();
    let marks: Vec<(String, bool, bool)> = tree
        .nodes
        .iter()
        .filter_map(|n| n.as_dir().map(|d| (n.common.name.clone(), d.err, d.suberr)))
        .collect();
    let want = [
        ("r", false, true),
        ("a", false, true),
        ("b", true, false),
        ("c", false, true),
        ("g", false, false),
    ];
    assert_eq!(marks, want.map(|(n, e, s)| (n.to_string(), e, s)).to_vec());
}

#[test]
fn of_the_links_of_an_inode_the_first_is_entered() {
    let dump = br#"[1,2,{},[{"name":"r","dev":5},[{"name":"d"},{"name":"x","ino":3,"nlink":2}],{"name":"y","ino":3,"nlink":2},[{"name":"o","dev":6},{"name":"z","ino":3,"nlink":2}]]]"#;
    let tree = import_tree(dump).unwrap();
    assert_eq!(tree.inodes.map.len(), 2);
    let name = |dev: u32| tree.get(tree.inodes.map[&Inodes::key(dev, 3)]).common.name.clone();
    assert_eq!((name(0).as_str(), name(1).as_str()), ("x", "z"));
    let x = tree.get(tree.inodes.map[&Inodes::key(0, 3)]).as_link().unwrap();
    let y = tree.get(x.next_link);
    assert_eq!(y.common.name, "y");
    assert_eq!(x.prev_link, x.next_link);
    assert_eq!(y.as_link().unwrap().next_link, tree.inodes.map[&Inodes::key(0, 3)]);
    let z = tree.inodes.map[&Inodes::key(1, 3)];
    assert_eq!(tree.get(z).as_link().unwrap().next_link, z);
}
