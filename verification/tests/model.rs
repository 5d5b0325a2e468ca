use ncdu_core::model::{Devices, EType, EntryId, Ext, NodeKind, Tree};

#[test]
fn create_file_entry() {
    let mut tree = Tree::new();
    let id = tree.create(EType::Reg, "hello");
    let node = tree.get(id);
    assert_eq!(node.common.etype, EType::Reg);
    assert!(node.common.ext.is_none());
    assert_eq!(&*node.common.name, "hello");
}

#[test]
fn create_dir_entry() {
    let mut tree = Tree::new();
    let id = tree.create(EType::Dir, "root");
    assert!(tree.get(id).as_dir().is_some());
}

#[test]
fn dev_id_dedup() {
    let mut d = Devices::default();
    assert_eq!(d.get_id(42), 0);
    assert_eq!(d.get_id(99), 1);
    assert_eq!(d.get_id(42), 0);
    assert_eq!(d.list, vec![42, 99]);
}

#[test]
fn etype_classification() {
    assert!(EType::Dir.is_directory());
    assert!(EType::OtherFs.is_directory());
    assert!(EType::KernFs.is_directory());
    assert!(!EType::Reg.is_directory());
    assert!(!EType::Link.is_directory());
    assert_eq!(EType::Pattern.base(), EType::Reg);
    assert_eq!(EType::Dir.base(), EType::Dir);
}

#[test]
fn etype_codes() {
    let all = [
        EType::Dir,
        EType::Reg,
        EType::NonReg,
        EType::Link,
        EType::Error,
        EType::Pattern,
        EType::OtherFs,
        EType::KernFs,
    ];
    let codes: Vec<i8> = all.iter().map(|t| t.code()).collect();
    assert_eq!(codes, vec![0, 1, 2, 3, -1, -2, -3, -4]);
    assert_eq!(EType::Link.base(), EType::Link);
    assert_eq!(EType::Error.base(), EType::Reg);
    assert_eq!(EType::default(), EType::Reg);
}

#[test]
fn device_ids_lead_back_to_devices() {
    let mut d = Devices::default();
    let a = d.get_id(7);
    let b = d.get_id(u64::MAX);
    assert_ne!(a, b);
    assert_eq!(d.get(a), Some(7));
    assert_eq!(d.get(b), Some(u64::MAX));
    assert_eq!(d.get(2), None);
    // Another device leaves them where they are.
    d.get_id(0);
    assert_eq!(d.get(a), Some(7));
    assert_eq!(d.get_id(7), a);
}

#[test]
fn entry_ids() {
    assert!(EntryId::none().is_none());
    assert!(EntryId::default().is_none());
    assert!(!EntryId(0).is_none());
    assert_eq!(EntryId(5).index(), 5);
}

#[test]
fn node_accessors() {
    let mut tree = Tree::new();
    let dir = tree.create(EType::Dir, "d");
    let link = tree.create(EType::Link, "l");
    let err = tree.create(EType::Error, "e");
    assert!(tree.get(dir).as_link().is_none());
    assert!(tree.get(link).as_dir().is_none());
    assert!(tree.get_mut(err).as_dir_mut().is_none());
    assert!(tree.get_mut(err).as_link_mut().is_none());
    tree.get_mut(link).as_link_mut().unwrap().ino = 9;
    assert_eq!(tree.get(link).as_link().unwrap().ino, 9);
    assert!(!tree.get(dir).has_err());
    tree.get_mut(dir).as_dir_mut().unwrap().suberr = true;
    assert!(tree.get(dir).has_err());
    assert!(tree.get(err).has_err());
    assert!(!tree.get(link).has_err());
}

#[test]
fn ext_emptiness() {
    assert!(Ext::default().is_empty());
    let ext = Ext { mode: Some(0), ..Ext::default() };
    assert!(!ext.is_empty());
}

#[test]
fn fmt_path_walks_to_the_root() {
    let mut tree = Tree::new();
    let root = tree.create(EType::Dir, "/data/");
    let sub = tree.create(EType::Dir, "sub");
    let link = tree.create(EType::Link, "hard");
    let file = tree.create(EType::Reg, "plain");
    tree.get_mut(sub).as_dir_mut().unwrap().parent = root;
    if let NodeKind::Link(l) = &mut tree.get_mut(link).kind {
        l.parent = sub;
    }
    let mut out = String::new();
    tree.fmt_path(link, true, &mut out);
    // The root's name ends in a slash already.
    assert_eq!(out, "/data/sub/hard");
    let mut out = String::new();
    tree.fmt_path(link, false, &mut out);
    assert_eq!(out, "sub/hard");
    // A path goes behind what is there; a plain file records no parent.
    let mut out = String::from("at ");
    tree.fmt_path(file, true, &mut out);
    assert_eq!(out, "at plain");
    let mut out = String::new();
    tree.fmt_path(file, false, &mut out);
    assert_eq!(out, "");
    tree.fmt_path(EntryId::none(), true, &mut out);
    assert_eq!(out, "");
}
