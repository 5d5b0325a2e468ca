//! What the keys of the browser do, and what its lines say.

use vstd::prelude::*;
use vstd::utf8::encode_utf8;

use crate::browser::{
    disk_bytes, footer_of, kids_of, lemma_placed, names_of, percent, place_text, placed, pressed,
    row_of, shown, stands, suffix_text, Action, BrowserState, Key,
};
use crate::delete_laws::deleted_ids_leave_their_directory;
use crate::display::{bar_text, padded, size_text};
use crate::model::{EType, EntryId, Node};
use crate::order::{bytes_less, ranks};
use crate::prune::{
    at_path, cut, lemma_cut_way, lemma_linked_path, lemma_path_push, lemma_way,
};
use crate::shape::{lemma_shape_at, nexts, shape_at, step_at, tops};
use crate::text::decimal;

verus! {

/// The key `d` asks to delete the selected entry, and does nothing else: the
/// entry that then waits for confirmation is the one at the position of the
/// selection.
pub proof fn deleting_asks_for_the_selected_entry(b: BrowserState)
    requires
        b.confirm is None,
        0 <= b.selected < b.items.len(),
    ensures
        ({
            let (c, action) = pressed(b, Key::Char('d'));
            &&& c.confirm == Some(b.items[b.selected])
            &&& action == Action::Continue
            &&& c.tree == b.tree
            &&& c.dir == b.dir
            &&& c.stack == b.stack
            &&& c.items == b.items
            &&& c.selected == b.selected
            &&& c.status == b.status
        }),
{
}

/// Where nothing is listed there is nothing to delete.
pub proof fn nothing_to_delete_in_an_empty_directory(b: BrowserState)
    requires
        b.confirm is None,
        b.items.len() == 0,
        0 <= b.selected,
    ensures
        pressed(b, Key::Char('d')) == (b, Action::Continue),
        pressed(b, Key::Enter) == (b, Action::Continue),
{
}

/// The key `d` and then `y` hands out the selected entry for deletion.
pub proof fn confirming_deletes_the_selected_entry(b: BrowserState, yes: Key)
    requires
        b.confirm is None,
        0 <= b.selected < b.items.len(),
        yes == Key::Char('y') || yes == Key::Char('Y'),
    ensures
        pressed(pressed(b, Key::Char('d')).0, yes).1 == Action::Delete(b.items[b.selected]),
{
}

/// Any other key after `d` calls the deletion off, says so, and does nothing
/// else, not even what it does otherwise.
pub proof fn other_keys_call_a_deletion_off(b: BrowserState, key: Key)
    requires
        b.confirm is Some,
        key != Key::Char('y'),
        key != Key::Char('Y'),
    ensures
        ({
            let (c, action) = pressed(b, key);
            &&& c.confirm is None
            &&& action == Action::Continue
            &&& c.status == Some("delete cancelled"@)
            &&& c.tree == b.tree
            &&& c.dir == b.dir
            &&& c.stack == b.stack
            &&& c.items == b.items
            &&& c.selected == b.selected
        }),
{
}

/// Only `d` asks for a deletion.
pub proof fn only_one_key_asks_for_deletions(b: BrowserState, key: Key)
    requires
        b.confirm is None,
        key != Key::Char('d'),
    ensures
        pressed(b, key).0.confirm is None,
{
}

/// The key `q` ends the program unless a deletion waits for confirmation, and
/// no other key does.
pub proof fn only_one_key_quits(b: BrowserState, key: Key)
    ensures
        pressed(b, key).1 == Action::Quit <==> b.confirm is None && key == Key::Char('q'),
{
}

/// The arrow keys move the selection by one, the page keys by ten, and the
/// keys at the ends to the first and to the last entry. The selection stops at
/// either end.
pub proof fn moves_go_as_far_as_the_keys_say(b: BrowserState)
    requires
        b.confirm is None,
        b.items.len() > 0,
        0 <= b.selected < b.items.len(),
    ensures
        ({
            let n = b.items.len() as int;
            let down = pressed(b, Key::Down).0.selected;
            let up = pressed(b, Key::Up).0.selected;
            let page_down = pressed(b, Key::PageDown).0.selected;
            let page_up = pressed(b, Key::PageUp).0.selected;
            &&& b.selected + 1 < n ==> down == b.selected + 1
            &&& b.selected + 1 == n ==> down == b.selected
            &&& b.selected > 0 ==> up == b.selected - 1
            &&& b.selected == 0 ==> up == 0
            &&& b.selected + 10 < n ==> page_down == b.selected + 10
            &&& b.selected + 10 >= n ==> page_down == n - 1
            &&& b.selected >= 10 ==> page_up == b.selected - 10
            &&& b.selected < 10 ==> page_up == 0
            &&& pressed(b, Key::Home).0.selected == 0
            &&& pressed(b, Key::End).0.selected == n - 1
        }),
{
}

/// A key that moves the selection changes nothing but the selection, and keeps
/// it on an entry.
pub proof fn moves_change_only_the_selection(b: BrowserState, key: Key)
    requires
        b.confirm is None,
        0 <= b.selected,
        b.selected < b.items.len() || b.selected == 0,
        key == Key::Up || key == Key::Down || key == Key::PageUp || key == Key::PageDown || key
            == Key::Home || key == Key::End || key == Key::Char('j') || key == Key::Char('k'),
    ensures
        ({
            let (c, action) = pressed(b, key);
            &&& action == Action::Continue
            &&& c.tree == b.tree
            &&& c.dir == b.dir
            &&& c.stack == b.stack
            &&& c.items == b.items
            &&& c.confirm is None
            &&& c.status == b.status
            &&& 0 <= c.selected
            &&& c.selected < c.items.len() || c.selected == 0
        }),
{
}

/// Up after down, and down after up, leads back wherever the first one moved.
pub proof fn moves_undo_each_other(b: BrowserState)
    requires
        b.confirm is None,
        0 <= b.selected < b.items.len(),
    ensures
        b.selected + 1 < b.items.len() ==> pressed(pressed(b, Key::Down).0, Key::Up).0 == b,
        b.selected > 0 ==> pressed(pressed(b, Key::Up).0, Key::Down).0 == b,
        b.selected + 10 < b.items.len() ==> pressed(pressed(b, Key::PageDown).0, Key::PageUp).0
            == b,
{
}

/// The letters do what the keys with arrows do.
pub proof fn letters_stand_for_arrows(b: BrowserState)
    requires
        b.confirm is None,
    ensures
        pressed(b, Key::Char('j')) == pressed(b, Key::Down),
        pressed(b, Key::Char('k')) == pressed(b, Key::Up),
        pressed(b, Key::Char('l')) == pressed(b, Key::Enter),
        pressed(b, Key::Right) == pressed(b, Key::Enter),
        pressed(b, Key::Char('h')) == pressed(b, Key::Left),
        pressed(b, Key::Backspace) == pressed(b, Key::Left),
{
}

/// Entering shows the selected directory, with the one before on the stack and
/// its first entry selected. A file cannot be entered.
pub proof fn entering_shows_the_selected_directory(b: BrowserState)
    requires
        b.confirm is None,
        0 <= b.selected < b.items.len(),
    ensures
        ({
            let id = b.items[b.selected];
            let (c, action) = pressed(b, Key::Enter);
            &&& action == Action::Continue
            &&& c.tree == b.tree
            &&& c.confirm is None
            &&& b.tree.nodes@[id.0 as int].kind is Dir ==> {
                &&& c.dir == id
                &&& c.stack == b.stack.push(b.dir)
                &&& c.selected == 0
                &&& c.status is None
            }
            &&& !(b.tree.nodes@[id.0 as int].kind is Dir) ==> c == b
        }),
{
}

/// Going back shows the directory that was shown before, with its first entry
/// selected. From the directory that was shown first there is no way back.
pub proof fn leaving_shows_the_directory_before(b: BrowserState)
    requires
        b.confirm is None,
    ensures
        ({
            let (c, action) = pressed(b, Key::Left);
            &&& action == Action::Continue
            &&& c.tree == b.tree
            &&& c.confirm is None
            &&& b.stack.len() > 0 ==> {
                &&& c.dir == b.stack.last()
                &&& c.stack.push(c.dir) == b.stack
                &&& c.selected == 0
                &&& c.status is None
            }
            &&& b.stack.len() == 0 ==> c == b
        }),
{
    if b.stack.len() > 0 {
        assert(b.stack.drop_last().push(b.stack.last()) =~= b.stack);
    }
}

/// Keys without a meaning do nothing.
pub proof fn other_keys_do_nothing(b: BrowserState, key: Key)
    requires
        b.confirm is None,
        key == Key::Other || (key is Char && key != Key::Char('q') && key != Key::Char('k') && key
            != Key::Char('j') && key != Key::Char('l') && key != Key::Char('h') && key != Key::Char(
            'd',
        )),
    ensures
        pressed(b, key) == (b, Action::Continue),
{
}

/// Whichever directory is shown, each of its entries is listed once and
/// nothing else is. Its entries are the first child that its node refers to, and
/// then each next sibling up to the last one, whatever they are called.
pub proof fn every_child_is_listed_once(b: BrowserState)
    requires
        placed(b),
        shown(b),
    ensures
        ({
            let nodes = b.tree.nodes@;
            let kids = kids_of(nodes, b.dir);
            let n = kids.len() as int;
            &&& nodes[b.dir.0 as int].kind is Dir
            &&& n == 0 <==> nodes[b.dir.0 as int].kind->Dir_0.sub == EntryId::none()
            &&& n > 0 ==> kids[0] == nodes[b.dir.0 as int].kind->Dir_0.sub
            &&& n > 0 ==> nodes[kids[n - 1].0 as int].common.next == EntryId::none()
            &&& forall|i: int|
                0 <= i < n - 1 ==> nodes[(#[trigger] kids[i]).0 as int].common.next == kids[i + 1]
            &&& b.items.len() == n
        }),
        b.items.no_duplicates(),
        forall|id: EntryId| #[trigger]
            b.items.contains(id) <==> kids_of(b.tree.nodes@, b.dir).contains(id),
{
    let nodes = b.tree.nodes@;
    let kids = kids_of(nodes, b.dir);
    let path = choose|path: Seq<int>| #[trigger] stands(b, path);
    lemma_placed(b, path);
    assert forall|i: int| 0 <= i < kids.len() implies step_at(nexts(nodes), kids, i) by {}
    if kids.len() > 0 {
        assert(step_at(nexts(nodes), kids, kids.len() - 1));
        assert(step_at(nexts(nodes), kids, 0));
    }
    assert forall|i: int| 0 <= i < kids.len() - 1 implies nodes[(
    #[trigger] kids[i]).0 as int].common.next == kids[i + 1] by {
        assert(step_at(nexts(nodes), kids, i));
    }
    b.items.to_multiset_ensures();
    kids.to_multiset_ensures();
    kids.lemma_multiset_has_no_duplicates();
    b.items.lemma_multiset_has_no_duplicates_conv();
    assert forall|id: EntryId| #[trigger] b.items.contains(id) <==> kids.contains(id) by {
        assert(b.items.contains(id) <==> b.items.to_multiset().count(id) > 0);
        assert(kids.contains(id) <==> kids.to_multiset().count(id) > 0);
    }
}

/// What takes more space on disk is listed first, and of two entries that take
/// as much the one whose name comes first in the order of bytes. Entries that
/// are alike in both keep the order that they have in the directory.
pub proof fn largest_entries_are_listed_first(b: BrowserState, i: int, j: int)
    requires
        shown(b),
        0 <= i < j < b.items.len(),
    ensures
        ({
            let x = b.tree.nodes@[b.items[i].0 as int].common;
            let y = b.tree.nodes@[b.items[j].0 as int].common;
            &&& x.blocks >= y.blocks
            &&& x.blocks == y.blocks ==> x.name@ == y.name@ || comes_first(
                encode_utf8(x.name@),
                encode_utf8(y.name@),
            )
            &&& x.blocks == y.blocks && x.name@ == y.name@ ==> kids_of(
                b.tree.nodes@,
                b.dir,
            ).index_of(b.items[i]) < kids_of(b.tree.nodes@, b.dir).index_of(b.items[j])
        }),
{
    let x = b.tree.nodes@[b.items[i].0 as int].common;
    let y = b.tree.nodes@[b.items[j].0 as int].common;
    let kids = kids_of(b.tree.nodes@, b.dir);
    assert(ranks(b.tree.nodes@, kids, b.items[i], b.items[j]));
    let p = encode_utf8(x.name@);
    let q = encode_utf8(y.name@);
    lemma_comes_first(p, q);
    lemma_comes_first(q, p);
    if x.blocks == y.blocks && p == q {
        vstd::utf8::encode_utf8_decode_utf8(x.name@);
        vstd::utf8::encode_utf8_decode_utf8(y.name@);
    }
}

/// At the first place where the two differ `a` has the smaller byte, or `a`
/// ends there.
pub open spec fn comes_first(a: Seq<u8>, b: Seq<u8>) -> bool {
    exists|k: int|
        0 <= k <= a.len() && k < b.len() && #[trigger] a.take(k) == b.take(k) && (k == a.len()
            || a[k] < b[k])
}

proof fn lemma_comes_first(a: Seq<u8>, b: Seq<u8>)
    ensures
        !bytes_less(a, a),
        bytes_less(a, b) ==> comes_first(a, b),
        a == b || bytes_less(a, b) || bytes_less(b, a),
    decreases a.len(),
{
    if a.len() > 0 {
        lemma_comes_first(a.skip(1), a.skip(1));
    }
    if b.len() == 0 {
        if a.len() == 0 {
            assert(a =~= b);
        }
    } else if a.len() == 0 {
        assert(a.take(0) =~= b.take(0));
    } else if a[0] != b[0] {
        assert(a.take(0) =~= b.take(0));
    } else {
        let c = a.skip(1);
        let d = b.skip(1);
        lemma_comes_first(c, d);
        if bytes_less(c, d) {
            let k = choose|k: int|
                0 <= k <= c.len() && k < d.len() && #[trigger] c.take(k) == d.take(k) && (k
                    == c.len() || c[k] < d[k]);
            assert forall|i: int| 0 <= i < k + 1 implies #[trigger] a[i] == b[i] by {
                if i > 0 {
                    assert(c.take(k)[i - 1] == d.take(k)[i - 1]);
                }
            }
            assert(a.take(k + 1) =~= b.take(k + 1));
            if k < c.len() {
                assert(c[k] == a[k + 1]);
                assert(d[k] == b[k + 1]);
            }
        } else if c == d {
            assert(a =~= seq![a[0]] + c);
            assert(b =~= seq![b[0]] + d);
        }
    }
}

/// Once an entry has been deleted it is listed no more, and all others that were
/// listed still are.
pub proof fn deleted_entries_are_listed_no_more(
    b: BrowserState,
    c: BrowserState,
    path: Seq<int>,
    target: EntryId,
    other: EntryId,
)
    requires
        placed(b),
        shown(b),
        placed(c),
        shown(c),
        c.dir == b.dir,
        b.tree.leads(path, b.dir, target),
        c.tree.root == b.tree.root,
        shape_at(c.tree.nodes@, c.tree.root) == cut(
            shape_at(b.tree.nodes@, b.tree.root),
            path,
        ),
    ensures
        b.items.contains(target),
        !c.items.contains(target),
        c.items.len() == b.items.len() - 1,
        other != target ==> (c.items.contains(other) <==> b.items.contains(other)),
{
    let s = shape_at(b.tree.nodes@, b.tree.root);
    let t = cut(s, path);
    let way = path.drop_last();
    let k = path.last();
    let there = choose|p: Seq<int>| #[trigger] stands(b, p);
    let here = choose|p: Seq<int>| #[trigger] stands(c, p);
    lemma_placed(b, there);
    lemma_placed(c, here);
    every_child_is_listed_once(b);
    every_child_is_listed_once(c);
    deleted_ids_leave_their_directory(s, path);
    lemma_way(s, path);
    lemma_path_push(s, way, k);
    assert(way.push(k) =~= path);
    lemma_cut_way(s, way, k);
    lemma_linked_path(b.tree.nodes@, s, way);
    lemma_shape_at(b.tree.nodes@, at_path(s, way));
    lemma_linked_path(c.tree.nodes@, t, way);
    lemma_shape_at(c.tree.nodes@, at_path(t, way));
    let before = kids_of(b.tree.nodes@, b.dir);
    let after = kids_of(c.tree.nodes@, c.dir);
    assert(before == tops(at_path(s, way).kids));
    assert(after == tops(at_path(t, way).kids));
    assert(before[k] == target);
    assert forall|i: int| 0 <= i < after.len() implies (#[trigger] after[i]) == before[if i < k {
        i
    } else {
        i + 1
    }] by {
        if i < k {
            assert(at_path(t, way).kids[i] == at_path(s, way).kids[i]);
        } else {
            assert(at_path(t, way).kids[i + 1 - 1] == at_path(s, way).kids[i + 1]);
        }
    }
    assert(before.contains(target));
    assert(!after.contains(target)) by {
        if after.contains(target) {
            let i = choose|i: int| 0 <= i < after.len() && after[i] == target;
            let j: int = if i < k {
                i
            } else {
                i + 1
            };
            assert(before[j] == before[k]);
        }
    }
    if other != target {
        if before.contains(other) {
            let j = choose|j: int| 0 <= j < before.len() && before[j] == other;
            let i: int = if j < k {
                j
            } else {
                j - 1
            };
            assert(after[i] == other);
        }
        if after.contains(other) {
            let i = choose|i: int| 0 <= i < after.len() && after[i] == other;
            assert(before.contains(after[i]));
        }
    }
}

/// A size on disk is the number of blocks times 512 bytes.
pub proof fn disk_sizes_count_blocks(n: Node)
    ensures
        n.common.blocks * 512 <= u64::MAX ==> disk_bytes(n) == n.common.blocks * 512,
        n.common.blocks * 512 > u64::MAX ==> disk_bytes(n) == u64::MAX,
{
}

/// The share of an entry is the part of the directory's blocks that it takes,
/// in whole percent. In a directory without blocks the entry's own count.
pub proof fn shares_are_parts_of_the_directory(n: Node, dir: Node)
    ensures
        ({
            let p = percent(n, dir);
            let total = dir.common.blocks;
            let all: int = if n.common.blocks * 100 <= u64::MAX {
                n.common.blocks * 100
            } else {
                u64::MAX as int
            };
            &&& total > 0 ==> p * total <= all < (p + 1) * total
            &&& total == 0 ==> p == all
        }),
{
    let all: int = if n.common.blocks * 100 <= u64::MAX {
        n.common.blocks * 100
    } else {
        u64::MAX as int
    };
    let p = percent(n, dir) as int;
    if dir.common.blocks > 0 {
        let d = dir.common.blocks as int;
        vstd::arithmetic::div_mod::lemma_fundamental_div_mod(all, d);
        vstd::arithmetic::div_mod::lemma_mod_bound(all, d);
        assert(p == all / d);
        assert(p * d == d * p) by (nonlinear_arith);
        assert((p + 1) * d == d * p + d) by (nonlinear_arith);
    }
}

/// What stands behind a name tells directories, hardlinks and the marks of what
/// was not scanned apart, and nothing stands behind other files.
pub proof fn suffixes_tell_entries_apart(n: Node)
    ensures
        n.common.etype == EType::Dir ==> suffix_text(n) == "/"@,
        n.common.etype != EType::Dir && n.kind is Link ==> suffix_text(n) == "@"@,
        n.common.etype == EType::Pattern && !(n.kind is Link) ==> suffix_text(n) == " <excluded>"@,
        n.common.etype == EType::OtherFs && !(n.kind is Link) ==> suffix_text(n) == " <other fs>"@,
        n.common.etype == EType::KernFs && !(n.kind is Link) ==> suffix_text(n) == " <kernfs>"@,
        n.common.etype == EType::Error && !(n.kind is Link) ==> suffix_text(n) == " <error>"@,
        (n.common.etype == EType::Reg || n.common.etype == EType::NonReg) && !(n.kind is Link)
            ==> suffix_text(n).len() == 0,
{
    reveal_strlit("");
}

/// A line shows the size on disk, a bar, the share of at most a hundred
/// percent, the name and the mark, in this order.
pub proof fn rows_show_size_share_and_name(n: Node, dir: Node)
    ensures
        ({
            let p = percent(n, dir);
            let share: nat = if p > 100 {
                100
            } else {
                p as nat
            };
            row_of(n, dir) == " "@ + padded(size_text(disk_bytes(n)), 10) + "  ["@ + bar_text(
                share,
                10,
            ) + "] "@ + padded(decimal(share), 3) + "%  "@ + n.common.name@ + suffix_text(n)
        }),
{
    let p = percent(n, dir);
    if p > 100 {
        assert(bar_text(p as nat, 10) =~= bar_text(100, 10));
    }
}

/// The footer asks about the entry that waits for confirmation, by its name and
/// its size on disk. Else it shows the last message, or the keys.
pub proof fn footers_ask_about_the_waiting_entry(b: BrowserState)
    ensures
        b.confirm matches Some(id) ==> {
            let n = b.tree.nodes@[id.0 as int];
            footer_of(b) == " DELETE \""@ + n.common.name@ + "\" ("@ + size_text(disk_bytes(n))
                + ")? Press y to confirm, any other key to cancel "@
        },
        b.confirm is None ==> (b.status matches Some(text) ==> footer_of(b) == " "@ + text + " "@),
        b.confirm is None && b.status is None ==> footer_of(b)
            == " q quit | enter/l open | bksp/h up | j/k move | d delete | PgUp/PgDn "@,
{
}

/// The place of a directory is that of the one above it, a slash and its name.
/// That of the root is its name.
pub proof fn places_grow_by_names(b: BrowserState, c: BrowserState)
    requires
        c.tree == b.tree,
        c.stack == b.stack.push(b.dir),
    ensures
        place_text(c) == place_text(b) + "/"@ + c.tree.nodes@[c.dir.0 as int].common.name@,
        b.stack.len() == 0 ==> place_text(b) == b.tree.nodes@[b.dir.0 as int].common.name@,
{
    let nodes = b.tree.nodes@;
    let above = names_of(nodes, b.stack.push(b.dir));
    let all = names_of(nodes, c.stack.push(c.dir));
    assert(all.drop_last() =~= above);
    assert(all.last() == nodes[c.dir.0 as int].common.name@);
}

} // verus!
