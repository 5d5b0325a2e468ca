use ncdu_core::browser::{Action, Browser, Key};
use ncdu_core::delete::{prune_entry, relative_path, subtree_totals};
use ncdu_core::display::{fmt_size, pad_left, render_bar};
use ncdu_core::model::{EType, EntryId, Tree};
use ncdu_core::sink::{MemSink, Stat};

#[test]
fn fmt_size_thresholds() {
    assert_eq!(fmt_size(0), "0 B");
    assert_eq!(fmt_size(512), "512 B");
    assert_eq!(fmt_size(1024), "1.0 KiB");
    assert_eq!(fmt_size(1024 * 1024), "1.0 MiB");
    assert_eq!(fmt_size(1536 * 1024 * 1024), "1.5 GiB");
}

#[test]
fn bar_renders_proportional() {
    assert_eq!(render_bar(0, 10), "          ");
    assert_eq!(render_bar(100, 10), "##########");
    assert_eq!(render_bar(50, 10), "#####     ");
}

/// The notation by floating-point arithmetic.
fn by_float(bytes: u64) -> String {
    let units = ["B", "KiB", "MiB", "GiB", "TiB", "PiB"];
    let mut v = bytes as f64;
    let mut i = 0;
    while v >= 1024.0 && i + 1 < units.len() {
        v /= 1024.0;
        i += 1;
    }
    format!("{:.1} {}", v, units[i])
}

#[test]
fn sizes_round_as_floating_point_does() {
    assert_eq!(fmt_size(1023), "1023 B");
    // A tie goes to the even digit.
    assert_eq!(fmt_size(1280), "1.2 KiB");
    assert_eq!(fmt_size(1792), "1.8 KiB");
    assert_eq!(fmt_size(1024 * 1024 - 1), "1024.0 KiB");
    assert_eq!(fmt_size(u64::MAX), "16384.0 PiB");
    let mut n: u64 = 1;
    for _ in 0..20_000 {
        n = n.wrapping_mul(6364136223846793005).wrapping_add(1442695040888963407);
        for shift in [0, 1, 9, 10, 11, 20, 33, 47, 53] {
            let bytes = n >> shift;
            if bytes >= 1024 {
                assert_eq!(fmt_size(bytes), by_float(bytes), "{bytes}");
            }
        }
    }
    for e in 10..64 {
        for d in [0u64, 1, 2, 3, 512, 1023, 1024, 1025] {
            let bytes = (1u64 << e).wrapping_add(d).max(1024);
            assert_eq!(fmt_size(bytes), by_float(bytes), "{bytes}");
            let bytes = (1u64 << e).wrapping_sub(d).max(1024);
            assert_eq!(fmt_size(bytes), by_float(bytes), "{bytes}");
        }
    }
}

#[test]
fn bars_and_padding_at_their_edges() {
    assert_eq!(render_bar(9, 10), "          ");
    assert_eq!(render_bar(99, 10), "######### ");
    assert_eq!(render_bar(1000, 4), "####");
    assert_eq!(render_bar(50, 0), "");
    assert_eq!(pad_left("ab", 4), "  ab");
    assert_eq!(pad_left("é", 2), " é");
    assert_eq!(pad_left("abcd", 3), "abcd");
}

fn stat(etype: EType, blocks: u64) -> Stat {
    Stat { etype, size: blocks * 512, blocks, dev: 1, ..Stat::default() }
}

/// root: big (8), mid/ (1 + inner (2) + deep/ (1 + z (3))), b (4), a (4), bad
fn sample() -> Tree {
    let mut s = MemSink::new();
    let mut root = s.create_root("root", &stat(EType::Dir, 1));
    root.add_stat(&mut s, "big", &stat(EType::Reg, 8));
    let mut mid = root.add_dir(&mut s, "mid", &stat(EType::Dir, 1));
    mid.add_stat(&mut s, "inner", &stat(EType::NonReg, 2));
    let mut deep = mid.add_dir(&mut s, "deep", &stat(EType::Dir, 1));
    deep.add_stat(&mut s, "z", &stat(EType::Link, 3));
    deep.finalize(&mut s, Some(&mut mid));
    mid.finalize(&mut s, Some(&mut root));
    root.add_stat(&mut s, "b", &stat(EType::Reg, 4));
    root.add_stat(&mut s, "a", &stat(EType::Reg, 4));
    root.add_special(&mut s, "bad", EType::Error);
    root.finalize(&mut s, None);
    s.into_tree()
}

fn child(tree: &Tree, parent: EntryId, name: &str) -> EntryId {
    let mut cur = tree.get(parent).as_dir().unwrap().sub;
    while !cur.is_none() {
        if tree.get(cur).common.name == name {
            return cur;
        }
        cur = tree.get(cur).common.next;
    }
    EntryId::none()
}

fn names(b: &Browser) -> Vec<String> {
    b.items().iter().map(|&id| b.tree().get(id).common.name.clone()).collect()
}

#[test]
fn paths_below_the_root() {
    let tree = sample();
    let root = tree.root;
    let mid = child(&tree, root, "mid");
    let deep = child(&tree, mid, "deep");
    let z = child(&tree, deep, "z");
    assert_eq!(relative_path(&tree, root, mid), "/mid");
    assert_eq!(relative_path(&tree, deep, z), "/mid/deep/z");
    assert_eq!(relative_path(&tree, EntryId::none(), root), "/root");
}

#[test]
fn pruning_a_subtree_adjusts_every_ancestor() {
    let mut tree = sample();
    let root = tree.root;
    let mid = child(&tree, root, "mid");
    let deep = child(&tree, mid, "deep");
    assert_eq!(subtree_totals(&tree, deep), (4, 4 * 512, 2));
    assert_eq!(subtree_totals(&tree, mid), (7, 7 * 512, 4));
    assert_eq!(tree.get(root).common.blocks, 24);
    assert_eq!(tree.get(root).as_dir().unwrap().items, 8);
    prune_entry(&mut tree, mid, deep);
    assert_eq!(tree.get(mid).common.blocks, 3);
    assert_eq!(tree.get(mid).as_dir().unwrap().items, 1);
    assert_eq!(tree.get(root).common.blocks, 20);
    assert_eq!(tree.get(root).common.size, 20 * 512);
    assert_eq!(tree.get(root).as_dir().unwrap().items, 6);
    assert!(child(&tree, mid, "deep").is_none());
    assert!(!child(&tree, mid, "inner").is_none());
}

#[test]
fn pruning_first_middle_and_last_child() {
    for (gone, left) in [
        ("big", vec!["mid", "b", "a", "bad"]),
        ("b", vec!["big", "mid", "a", "bad"]),
        ("bad", vec!["big", "mid", "b", "a"]),
    ] {
        let mut tree = sample();
        let root = tree.root;
        let id = child(&tree, root, gone);
        prune_entry(&mut tree, root, id);
        let mut found = Vec::new();
        let mut cur = tree.get(root).as_dir().unwrap().sub;
        while !cur.is_none() {
            found.push(tree.get(cur).common.name.clone());
            cur = tree.get(cur).common.next;
        }
        assert_eq!(found, left);
    }
}

#[test]
fn totals_never_drop_below_zero() {
    let mut tree = sample();
    let root = tree.root;
    tree.get_mut(root).common.blocks = 3;
    tree.get_mut(root).common.size = 3;
    tree.get_mut(root).as_dir_mut().unwrap().items = 0;
    let big = child(&tree, root, "big");
    prune_entry(&mut tree, root, big);
    let r = tree.get(root);
    assert_eq!((r.common.blocks, r.common.size, r.as_dir().unwrap().items), (0, 0, 0));
}

#[test]
fn entries_are_listed_by_size_and_then_by_name() {
    let b = Browser::new(sample());
    assert_eq!(names(&b), vec!["big", "mid", "a", "b", "bad"]);
    assert_eq!(b.selected(), 0);
    assert_eq!(b.current_dir(), b.tree().root);
    assert!(!b.confirming());
}

#[test]
fn entries_that_are_alike_keep_their_order() {
    let mut s = MemSink::new();
    let mut root = s.create_root("r", &stat(EType::Dir, 1));
    let mut ids = Vec::new();
    for i in 0..40u64 {
        let name = if i % 3 == 0 { "same" } else { "Zeta" };
        ids.push(root.add_stat(&mut s, name, &stat(EType::Reg, i % 2)));
    }
    root.finalize(&mut s, None);
    let tree = s.into_tree();
    let mut want = ids.clone();
    want.sort_by(|&x, &y| {
        let (x, y) = (&tree.get(x).common, &tree.get(y).common);
        y.blocks.cmp(&x.blocks).then_with(|| x.name.cmp(&y.name))
    });
    assert_eq!(Browser::new(tree).items(), &want);
}

#[test]
fn keys_move_the_selection() {
    let mut b = Browser::new(sample());
    for (key, want) in [
        (Key::Up, 0),
        (Key::Down, 1),
        (Key::Char('j'), 2),
        (Key::Char('k'), 1),
        (Key::PageDown, 4),
        (Key::Down, 4),
        (Key::PageUp, 0),
        (Key::End, 4),
        (Key::Home, 0),
        (Key::Char('x'), 0),
        (Key::Other, 0),
    ] {
        assert_eq!(b.handle_key(key), Action::Continue);
        assert_eq!(b.selected(), want, "{key:?}");
    }
    assert_eq!(b.handle_key(Key::Char('q')), Action::Quit);
}

#[test]
fn pages_are_ten_entries_long() {
    let mut s = MemSink::new();
    let mut root = s.create_root("r", &stat(EType::Dir, 1));
    for i in 0..25u64 {
        root.add_stat(&mut s, "f", &stat(EType::Reg, i));
    }
    root.finalize(&mut s, None);
    let mut b = Browser::new(s.into_tree());
    for (key, want) in [
        (Key::PageDown, 10),
        (Key::PageDown, 20),
        (Key::PageDown, 24),
        (Key::PageUp, 14),
        (Key::PageUp, 4),
        (Key::PageUp, 0),
    ] {
        b.handle_key(key);
        assert_eq!(b.selected(), want);
    }
}

#[test]
fn entering_and_leaving_a_directory() {
    let mut b = Browser::new(sample());
    let before = names(&b);
    b.handle_key(Key::Left);
    assert_eq!(b.current_dir(), b.tree().root);
    // A file is not entered.
    b.handle_key(Key::Enter);
    assert_eq!(names(&b), before);
    b.handle_key(Key::Down);
    b.handle_key(Key::Char('l'));
    assert_eq!(names(&b), vec!["deep", "inner"]);
    assert_eq!(b.selected(), 0);
    b.handle_key(Key::Right);
    assert_eq!(names(&b), vec!["z"]);
    assert_eq!(b.header_text(), " ncdu-rs --- root/mid/deep ");
    b.handle_key(Key::Backspace);
    b.handle_key(Key::Char('h'));
    assert_eq!(names(&b), before);
    assert_eq!(b.selected(), 0);
    assert_eq!(b.header_text(), " ncdu-rs --- root ");
}

#[test]
fn texts_of_a_directory() {
    let mut b = Browser::new(sample());
    assert_eq!(b.title_text(), "Contents (5 items, total 12.0 KiB)");
    let rows = b.rows();
    assert_eq!(rows[0], "    4.0 KiB  [###       ]  33%  big");
    assert_eq!(rows[1], "    3.5 KiB  [##        ]  29%  mid/");
    assert_eq!(rows[4], "        0 B  [          ]   0%  bad <error>");
    assert_eq!(
        b.footer_text(),
        " q quit | enter/l open | bksp/h up | j/k move | d delete | PgUp/PgDn "
    );
    b.handle_key(Key::Down);
    b.handle_key(Key::Enter);
    let rows = b.rows();
    assert_eq!(rows[0], "    2.0 KiB  [#####     ]  57%  deep/");
    assert_eq!(rows[1], "    1.0 KiB  [##        ]  28%  inner");
    b.handle_key(Key::Enter);
    assert_eq!(b.rows()[0], "    1.5 KiB  [#######   ]  75%  z@");
}

#[test]
fn markers_have_suffixes() {
    let mut s = MemSink::new();
    let mut root = s.create_root("r", &stat(EType::Dir, 0));
    root.add_special(&mut s, "1", EType::Pattern);
    root.add_special(&mut s, "2", EType::OtherFs);
    root.add_special(&mut s, "3", EType::KernFs);
    root.finalize(&mut s, None);
    let rows = Browser::new(s.into_tree()).rows();
    assert!(rows[0].ends_with("%  1 <excluded>"));
    assert!(rows[1].ends_with("%  2 <other fs>"));
    assert!(rows[2].ends_with("%  3 <kernfs>"));
}

#[test]
fn shares_beyond_the_whole_stop_at_the_whole() {
    let mut tree = sample();
    let root = tree.root;
    tree.get_mut(root).common.blocks = 1;
    let big = child(&tree, root, "big");
    tree.get_mut(big).common.blocks = u64::MAX;
    let b = Browser::new(tree);
    assert_eq!(b.rows()[0], " 16384.0 PiB  [##########] 100%  big");
}

#[test]
fn deleting_asks_first() {
    let mut b = Browser::new(sample());
    b.handle_key(Key::Char('d'));
    assert!(b.confirming());
    assert_eq!(
        b.footer_text(),
        " DELETE \"big\" (4.0 KiB)? Press y to confirm, any other key to cancel "
    );
    assert_eq!(b.handle_key(Key::Char('q')), Action::Continue);
    assert!(!b.confirming());
    assert_eq!(b.footer_text(), " delete cancelled ");
    assert_eq!(names(&b).len(), 5);
    assert!(b.deletion_path().is_none());
}

#[test]
fn deleting_prunes_once_it_is_done() {
    let mut b = Browser::new(sample());
    b.handle_key(Key::Down);
    b.handle_key(Key::Enter);
    b.handle_key(Key::Char('d'));
    assert_eq!(b.deletion_path().unwrap(), "/mid/deep");
    let deep = b.items()[0];
    assert_eq!(b.handle_key(Key::Char('Y')), Action::Delete(deep));
    b.finish_delete(None);
    assert_eq!(b.footer_text(), " deleted ");
    assert_eq!(names(&b), vec!["inner"]);
    b.handle_key(Key::Left);
    assert_eq!(b.title_text(), "Contents (5 items, total 10.0 KiB)");
    assert_eq!(b.tree().get(b.tree().root).as_dir().unwrap().items, 6);
    // The directory that was pruned lists behind those with more in it.
    assert_eq!(names(&b), vec!["big", "a", "b", "mid", "bad"]);
}

#[test]
fn a_failed_deletion_changes_nothing() {
    let mut b = Browser::new(sample());
    b.handle_key(Key::End);
    b.handle_key(Key::Char('d'));
    let bad = b.items()[4];
    assert_eq!(b.handle_key(Key::Char('y')), Action::Delete(bad));
    b.finish_delete(Some("no such file".to_string()));
    assert_eq!(b.footer_text(), " delete error: no such file ");
    assert_eq!(names(&b).len(), 5);
    assert_eq!(b.selected(), 0);
    assert!(!b.confirming());
}

#[test]
fn an_empty_directory_has_nothing_to_delete() {
    let mut s = MemSink::new();
    let root = s.create_root("r", &stat(EType::Dir, 0));
    root.finalize(&mut s, None);
    let mut b = Browser::new(s.into_tree());
    for key in [Key::Char('d'), Key::Down, Key::End, Key::PageDown, Key::Enter] {
        assert_eq!(b.handle_key(key), Action::Continue);
        assert_eq!(b.selected(), 0);
        assert!(!b.confirming());
    }
    assert_eq!(b.title_text(), "Contents (0 items, total 0 B)");
    assert!(b.rows().is_empty());
}
