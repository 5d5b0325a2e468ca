//! The browser for a scanned [`Tree`]: what is shown, and what a key does.
//!
//! Entries are listed by disk usage. Deleting asks for confirmation; the
//! program then deletes on disk and reports back through
//! [`Browser::finish_delete`].

use vstd::prelude::*;

use crate::arena::same_spare;
use crate::delete::{prune_entry, relative_path, slashed};
use crate::display::{bar_text, fmt_size, joined, pad_left, padded, render_bar, size_text};
use crate::model::{path_names, EType, EntryId, Node, NodeKind, Tree};
use crate::num::{capped, capped_product};
use crate::order::{in_order, lemma_member, listing, sorted};
use crate::prune::{
    amount_of, at_path, cut, entry_at, has_path, lemma_cut_way, lemma_flat_valid, lemma_kids_apart,
    lemma_linked_path, lemma_path_flat, lemma_path_push, lemma_trail_line, lemma_trail_start,
    lemma_way, pruned, trail,
};
use crate::rings::{ringed, same_ring};
use crate::shape::{
    ancestors, flat, has_shape, id_at, lemma_line_of, lemma_shape_at, linked, nexts, parent_of,
    shape_at, step_at, tops, valid_id,
};
use crate::text::{decimal, decimal_string};

verus! {

/// A key that the user pressed.
#[derive(Copy, Clone, Debug, PartialEq, Eq)]
pub enum Key {
    Char(char),
    Up,
    Down,
    PageUp,
    PageDown,
    Home,
    End,
    Enter,
    Left,
    Right,
    Backspace,
    Other,
}

/// What the program has to do after a key.
#[derive(Copy, Clone, Debug, PartialEq, Eq)]
pub enum Action {
    Continue,
    Quit,
    /// Delete this entry on disk, then call [`Browser::finish_delete`].
    Delete(EntryId),
}

pub struct Browser {
    tree: Tree,
    current_dir: EntryId,
    parent_stack: Vec<EntryId>,
    /// Sorted children of `current_dir`.
    items: Vec<EntryId>,
    selected: usize,
    confirm_delete: Option<EntryId>,
    status_msg: Option<String>,
}

/// The state of a browser.
#[verifier::ext_equal]
pub struct BrowserState {
    pub tree: Tree,
    /// The directory that is shown.
    pub dir: EntryId,
    /// The directories above it, from the root on.
    pub stack: Seq<EntryId>,
    pub items: Seq<EntryId>,
    pub selected: int,
    /// The entry that is deleted if the user confirms it.
    pub confirm: Option<EntryId>,
    pub status: Option<Seq<char>>,
}

impl View for Browser {
    type V = BrowserState;

    closed spec fn view(&self) -> BrowserState {
        BrowserState {
            tree: self.tree,
            dir: self.current_dir,
            stack: self.parent_stack@,
            items: self.items@,
            selected: self.selected as int,
            confirm: self.confirm_delete,
            status: match self.status_msg {
                Some(s) => Some(s@),
                None => None,
            },
        }
    }
}

/// The children of a directory.
pub open spec fn kids_of(nodes: Seq<Node>, dir: EntryId) -> Seq<EntryId> {
    tops(shape_at(nodes, dir).kids)
}

/// The path leads from the root to the directory that is shown, by way of
/// those on the stack.
pub open spec fn stands(b: BrowserState, path: Seq<int>) -> bool {
    let s = shape_at(b.tree.nodes@, b.tree.root);
    &&& has_path(s, path)
    &&& trail(s, path) == b.stack.push(b.dir).reverse()
}

/// The directory that is shown is one of the tree, and the stack holds those
/// above it.
pub open spec fn placed(b: BrowserState) -> bool {
    &&& b.tree.proper()
    &&& exists|path: Seq<int>| #[trigger] stands(b, path)
    &&& b.tree.nodes@[b.dir.0 as int].kind is Dir
}

/// The entries of the directory are listed in order, one of them is selected,
/// and one of them is deleted if the user confirms it.
pub open spec fn shown(b: BrowserState) -> bool {
    &&& b.items == listing(b.tree.nodes@, kids_of(b.tree.nodes@, b.dir))
    &&& in_order(b.tree.nodes@, kids_of(b.tree.nodes@, b.dir), b.items)
    &&& b.items.to_multiset() == kids_of(b.tree.nodes@, b.dir).to_multiset()
    &&& 0 <= b.selected
    &&& b.selected < b.items.len() || b.selected == 0
    &&& b.confirm matches Some(id) ==> b.items.contains(id)
}

/// The state once another directory is shown.
pub open spec fn opened(b: BrowserState, stack: Seq<EntryId>, dir: EntryId) -> BrowserState {
    BrowserState {
        dir,
        stack,
        items: listing(b.tree.nodes@, kids_of(b.tree.nodes@, dir)),
        selected: 0,
        status: None,
        ..b
    }
}

/// What holds of the directory at the end of a path.
pub proof fn lemma_placed(b: BrowserState, path: Seq<int>)
    requires
        b.tree.proper(),
        stands(b, path),
    ensures
        ({
            let s = shape_at(b.tree.nodes@, b.tree.root);
            let d = at_path(s, path);
            &&& linked(b.tree.nodes@, s)
            &&& s.id == b.tree.root
            &&& d.id == b.dir
            &&& linked(b.tree.nodes@, d)
            &&& shape_at(b.tree.nodes@, b.dir) == d
            &&& tops(d.kids) == kids_of(b.tree.nodes@, b.dir)
            &&& tops(d.kids).no_duplicates()
            &&& forall|i: int|
                0 <= i < d.kids.len() ==> valid_id(b.tree.nodes@, #[trigger] tops(d.kids)[i])
            &&& path.len() == b.stack.len()
        }),
{
    let nodes = b.tree.nodes@;
    let s = shape_at(nodes, b.tree.root);
    let d = at_path(s, path);
    assert(has_shape(nodes, b.tree.root));
    lemma_trail_start(s, path);
    assert(b.stack.push(b.dir).reverse()[0] == b.dir);
    lemma_linked_path(nodes, s, path);
    lemma_shape_at(nodes, d);
    lemma_path_flat(s, path);
    let ids = tops(d.kids);
    assert forall|i: int| 0 <= i < ids.len() implies valid_id(nodes, #[trigger] ids[i]) by {
        assert(linked(nodes, d.kids[i]));
    }
    assert forall|i: int, j: int|
        0 <= i < ids.len() && 0 <= j < ids.len() && i != j implies ids[i] != ids[j] by {
        assert(flat(d.kids[i])[0] == d.kids[i].id);
        assert(flat(d.kids[j])[0] == d.kids[j].id);
        assert(flat(d.kids[i]).contains(d.kids[i].id));
        assert(flat(d.kids[j]).contains(d.kids[j].id));
        lemma_kids_apart(d, i, j, d.kids[i].id);
    }
}

/// Entering a directory that is listed keeps the browser in place.
proof fn lemma_enter(b: BrowserState, path: Seq<int>, id: EntryId, c: BrowserState)
    requires
        b.tree.proper(),
        stands(b, path),
        kids_of(b.tree.nodes@, b.dir).contains(id),
        b.tree.nodes@[id.0 as int].kind is Dir,
        c.tree == b.tree,
        c.dir == id,
        c.stack == b.stack.push(b.dir),
    ensures
        placed(c),
{
    lemma_placed(b, path);
    let s = shape_at(b.tree.nodes@, b.tree.root);
    let d = at_path(s, path);
    let ids = tops(d.kids);
    let k = choose|k: int| 0 <= k < ids.len() && ids[k] == id;
    lemma_path_push(s, path, k);
    assert(trail(s, path.push(k)) =~= c.stack.push(c.dir).reverse());
    assert(stands(c, path.push(k)));
}

/// Going back to the directory above keeps the browser in place.
proof fn lemma_leave(b: BrowserState, path: Seq<int>, c: BrowserState)
    requires
        b.tree.proper(),
        stands(b, path),
        b.stack.len() > 0,
        c.tree == b.tree,
        c.dir == b.stack.last(),
        c.stack == b.stack.drop_last(),
    ensures
        placed(c),
{
    lemma_placed(b, path);
    let nodes = b.tree.nodes@;
    let s = shape_at(nodes, b.tree.root);
    let way = path.drop_last();
    lemma_way(s, path);
    lemma_path_push(s, way, path.last());
    assert(way.push(path.last()) =~= path);
    let t = trail(s, path);
    assert(trail(s, way) =~= t.skip(1));
    assert(b.stack.push(b.dir).reverse().skip(1) =~= c.stack.push(c.dir).reverse());
    assert(stands(c, way));
    lemma_placed(c, way);
    crate::prune::lemma_parent_is_dir(nodes, at_path(s, way), path.last());
}

impl Browser {
    /// The browser is in a directory of the tree and lists its entries.
    pub open spec fn wf(&self) -> bool {
        placed(self@) && shown(self@)
    }

    /// A browser that shows the root of a tree.
    pub fn new(tree: Tree) -> (r: Self)
        requires
            tree.proper(),
            tree.nodes@[tree.root.0 as int].kind is Dir,
        ensures
            r.wf(),
            r@ == (BrowserState {
                tree,
                dir: tree.root,
                stack: Seq::empty(),
                items: listing(tree.nodes@, kids_of(tree.nodes@, tree.root)),
                selected: 0,
                confirm: None,
                status: None,
            }),
    {
        let root = tree.root;
        let mut b = Browser {
            tree,
            current_dir: root,
            parent_stack: Vec::new(),
            items: Vec::new(),
            selected: 0,
            confirm_delete: None,
            status_msg: None,
        };
        proof {
            let s = shape_at(b.tree.nodes@, root);
            assert(has_shape(b.tree.nodes@, root));
            assert(trail(s, Seq::empty()) =~= b@.stack.push(b@.dir).reverse());
            assert(stands(b@, Seq::empty()));
        }
        b.load_dir();
        proof {
            assert(b@.stack =~= Seq::<EntryId>::empty());
        }
        b
    }

    /// Lists the entries of the directory that is shown.
    fn load_dir(&mut self)
        requires
            placed(old(self)@),
            old(self)@.confirm is None,
        ensures
            final(self).wf(),
            final(self)@ == (BrowserState {
                items: listing(
                    old(self)@.tree.nodes@,
                    kids_of(old(self)@.tree.nodes@, old(self)@.dir),
                ),
                selected: 0,
                ..old(self)@
            }),
    {
        let ghost before = self@;
        let ghost nodes = self.tree.nodes@;
        let ghost path = choose|path: Seq<int>| #[trigger] stands(self@, path);
        let ghost d = shape_at(nodes, self.current_dir);
        proof {
            lemma_placed(self@, path);
        }
        let mut items: Vec<EntryId> = Vec::new();
        let mut cur: EntryId = match &self.tree.get(self.current_dir).kind {
            NodeKind::Dir(d) => d.sub,
            _ => EntryId::none(),
        };
        while !cur.is_none()
            invariant
                nodes == self.tree.nodes@,
                linked(nodes, d),
                items@.len() <= d.kids.len(),
                items@ == tops(d.kids).take(items@.len() as int),
                cur == id_at(tops(d.kids), items@.len() as int),
            decreases d.kids.len() - items@.len(),
        {
            let ghost k = items@.len() as int;
            proof {
                assert(step_at(nexts(nodes), tops(d.kids), k));
                assert(tops(d.kids).take(k).push(cur) =~= tops(d.kids).take(k + 1));
            }
            items.push(cur);
            cur = self.tree.get(cur).common.next;
        }
        proof {
            let k = items@.len() as int;
            if k < d.kids.len() {
                assert(step_at(nexts(nodes), tops(d.kids), k));
            }
            assert(items@ =~= tops(d.kids));
            assert forall|i: int| 0 <= i < items@.len() implies (#[trigger] items@[i]).0
                < self.tree.nodes@.len() by {
                assert(valid_id(nodes, tops(d.kids)[i]));
            }
        }
        self.items = sorted(&self.tree, &items);
        self.selected = 0;
        proof {
            assert(stands(self@, path));
        }
    }
}

/// `n - 1`, or zero.
pub open spec fn one_less(n: int) -> int {
    if n > 0 {
        n - 1
    } else {
        0
    }
}

/// The state and the action that a key leads to. While a deletion waits for
/// confirmation, any key but `y` and `Y` cancels it.
pub open spec fn pressed(b: BrowserState, key: Key) -> (BrowserState, Action) {
    let last = one_less(b.items.len() as int);
    if let Some(target) = b.confirm {
        if key == Key::Char('y') || key == Key::Char('Y') {
            (b, Action::Delete(target))
        } else {
            (
                BrowserState { confirm: None, status: Some("delete cancelled"@), ..b },
                Action::Continue,
            )
        }
    } else {
        match key {
            Key::Char('q') => (b, Action::Quit),
            Key::Up | Key::Char('k') => (
                BrowserState { selected: one_less(b.selected), ..b },
                Action::Continue,
            ),
            Key::Down | Key::Char('j') => (
                BrowserState {
                    selected: if b.selected < last {
                        b.selected + 1
                    } else {
                        b.selected
                    },
                    ..b
                },
                Action::Continue,
            ),
            Key::PageUp => (
                BrowserState {
                    selected: if b.selected > 10 {
                        b.selected - 10
                    } else {
                        0
                    },
                    ..b
                },
                Action::Continue,
            ),
            Key::PageDown => (
                BrowserState {
                    selected: if b.selected + 10 < last {
                        b.selected + 10
                    } else {
                        last
                    },
                    ..b
                },
                Action::Continue,
            ),
            Key::Home => (BrowserState { selected: 0, ..b }, Action::Continue),
            Key::End => (BrowserState { selected: last, ..b }, Action::Continue),
            Key::Enter | Key::Right | Key::Char('l') => {
                let id = b.items[b.selected];
                if b.selected < b.items.len() && b.tree.nodes@[id.0 as int].kind is Dir {
                    (opened(b, b.stack.push(b.dir), id), Action::Continue)
                } else {
                    (b, Action::Continue)
                }
            },
            Key::Backspace | Key::Left | Key::Char('h') => if b.stack.len() > 0 {
                (opened(b, b.stack.drop_last(), b.stack.last()), Action::Continue)
            } else {
                (b, Action::Continue)
            },
            Key::Char('d') => if b.selected < b.items.len() {
                (BrowserState { confirm: Some(b.items[b.selected]), ..b }, Action::Continue)
            } else {
                (b, Action::Continue)
            },
            _ => (b, Action::Continue),
        }
    }
}

impl Browser {
    /// Shows the selected entry, if it is a directory.
    fn enter_selected(&mut self)
        requires
            old(self).wf(),
            old(self)@.confirm is None,
        ensures
            final(self).wf(),
            final(self)@ == pressed(old(self)@, Key::Enter).0,
    {
        if self.selected < self.items.len() {
            let id = self.items[self.selected];
            let ghost path = choose|path: Seq<int>| #[trigger] stands(self@, path);
            let ghost before = self@;
            proof {
                lemma_placed(self@, path);
                lemma_listed(self@, self.selected as int);
            }
            if self.tree.get(id).as_dir().is_some() {
                self.parent_stack.push(self.current_dir);
                self.current_dir = id;
                self.status_msg = None;
                proof {
                    lemma_enter(before, path, id, self@);
                }
                self.load_dir();
                proof {
                    assert(self@ =~= opened(before, before.stack.push(before.dir), id));
                }
            }
        }
    }

    /// Shows the directory above.
    fn leave(&mut self)
        requires
            old(self).wf(),
            old(self)@.confirm is None,
        ensures
            final(self).wf(),
            final(self)@ == pressed(old(self)@, Key::Left).0,
    {
        let ghost path = choose|path: Seq<int>| #[trigger] stands(self@, path);
        let ghost before = self@;
        if let Some(parent) = self.parent_stack.pop() {
            self.current_dir = parent;
            self.status_msg = None;
            proof {
                assert(self@.stack =~= before.stack.drop_last());
                lemma_leave(before, path, self@);
            }
            self.load_dir();
            proof {
                assert(self@ =~= opened(before, before.stack.drop_last(), before.stack.last()));
            }
        } else {
            proof {
                assert(self@ =~= before);
            }
        }
    }

    /// Handles a key.
    pub fn handle_key(&mut self, code: Key) -> (r: Action)
        requires
            old(self).wf(),
        ensures
            final(self).wf(),
            final(self)@ == pressed(old(self)@, code).0,
            r == pressed(old(self)@, code).1,
    {
        let ghost before = self@;
        let ghost path = choose|path: Seq<int>| #[trigger] stands(self@, path);
        if let Some(target) = self.confirm_delete {
            match code {
                Key::Char('y') | Key::Char('Y') => {
                    return Action::Delete(target);
                },
                _ => {
                    self.confirm_delete = None;
                    self.status_msg = Some("delete cancelled".to_owned());
                    proof {
                        assert(stands(self@, path));
                    }
                    return Action::Continue;
                },
            }
        }
        let len: usize = self.items.len();
        let last: usize = if len > 0 {
            len - 1
        } else {
            0
        };
        match code {
            Key::Char('q') => {
                return Action::Quit;
            },
            Key::Up | Key::Char('k') => {
                if self.selected > 0 {
                    self.selected = self.selected - 1;
                }
            },
            Key::Down | Key::Char('j') => {
                if self.selected < last {
                    self.selected = self.selected + 1;
                }
            },
            Key::PageUp => {
                self.selected =
                if self.selected > 10 {
                    self.selected - 10
                } else {
                    0
                };
            },
            Key::PageDown => {
                self.selected =
                if last - self.selected > 10 {
                    self.selected + 10
                } else {
                    last
                };
            },
            Key::Home => {
                self.selected = 0;
            },
            Key::End => {
                self.selected = last;
            },
            Key::Enter | Key::Right | Key::Char('l') => {
                self.enter_selected();
                return Action::Continue;
            },
            Key::Backspace | Key::Left | Key::Char('h') => {
                self.leave();
                return Action::Continue;
            },
            Key::Char('d') => {
                if self.selected < self.items.len() {
                    let id = self.items[self.selected];
                    self.confirm_delete = Some(id);
                }
            },
            _ => {},
        }
        proof {
            assert(stands(self@, path));
        }
        Action::Continue
    }
}

/// What is listed is a child of the directory that is shown.
proof fn lemma_listed(b: BrowserState, i: int)
    requires
        placed(b),
        shown(b),
        0 <= i < b.items.len(),
    ensures
        kids_of(b.tree.nodes@, b.dir).contains(b.items[i]),
        valid_id(b.tree.nodes@, b.items[i]),
{
    let path = choose|path: Seq<int>| #[trigger] stands(b, path);
    lemma_placed(b, path);
    let ids = kids_of(b.tree.nodes@, b.dir);
    lemma_member(b.items, ids, i);
    let k = choose|k: int| 0 <= k < ids.len() && ids[k] == b.items[i];
    assert(valid_id(b.tree.nodes@, ids[k]));
}

/// What is listed can be reached through the directory that is shown.
proof fn lemma_child(b: BrowserState, path: Seq<int>, id: EntryId) -> (k: int)
    requires
        placed(b),
        shown(b),
        stands(b, path),
        b.items.contains(id),
    ensures
        0 <= k < at_path(shape_at(b.tree.nodes@, b.tree.root), path).kids.len(),
        b.tree.leads(path.push(k), b.dir, id),
{
    lemma_placed(b, path);
    let i = choose|i: int| 0 <= i < b.items.len() && b.items[i] == id;
    lemma_listed(b, i);
    let s = shape_at(b.tree.nodes@, b.tree.root);
    let ids = tops(at_path(s, path).kids);
    let k = choose|k: int| 0 <= k < ids.len() && ids[k] == id;
    lemma_path_push(s, path, k);
    assert(path.push(k).drop_last() =~= path);
    k
}

impl Browser {
    /// Takes note of what came of a deletion on disk: nothing in `failure`
    /// means that the entry is gone. It then leaves the tree.
    pub fn finish_delete(&mut self, failure: Option<String>)
        requires
            old(self).wf(),
            old(self)@.confirm is Some,
        ensures
            final(self).wf(),
            ({
                let b = old(self)@;
                let c = final(self)@;
                let target = b.confirm->0;
                &&& c.dir == b.dir
                &&& c.stack == b.stack
                &&& c.selected == 0
                &&& c.confirm is None
                &&& c.status == Some(
                    match failure {
                        Some(e) => "delete error: "@ + e@,
                        None => "deleted"@,
                    },
                )
                &&& failure is Some ==> c.tree == b.tree
                &&& failure is None ==> {
                    &&& b.tree.has_child(b.dir, target)
                    &&& forall|path: Seq<int>| #[trigger]
                        b.tree.leads(path, b.dir, target) ==> {
                            &&& c.tree.entry(c.tree.root) == pruned(
                                b.tree.entry(b.tree.root),
                                path,
                                amount_of(entry_at(b.tree.entry(b.tree.root), path)),
                            )
                            &&& shape_at(c.tree.nodes@, c.tree.root) == cut(
                                shape_at(b.tree.nodes@, b.tree.root),
                                path,
                            )
                        }
                    &&& c.tree.root == b.tree.root
                    &&& c.tree.devices == b.tree.devices
                    &&& c.tree.inodes == b.tree.inodes
                    &&& b.tree.inodes_ok() ==> c.tree.inodes_ok()
                    &&& ringed(b.tree.nodes@) && b.tree.nodes@.len() <= u32::MAX ==> ringed(
                        c.tree.nodes@,
                    )
                    &&& c.tree.nodes@.len() == b.tree.nodes@.len()
                    &&& forall|i: int|
                        0 <= i < b.tree.nodes@.len() ==> {
                            &&& same_spare(b.tree.nodes@[i], #[trigger] c.tree.nodes@[i])
                            &&& same_ring(b.tree.nodes@[i], c.tree.nodes@[i])
                        }
                }
            }),
    {
        let ghost b = self@;
        let ghost path = choose|path: Seq<int>| #[trigger] stands(self@, path);
        let target = match self.confirm_delete {
            Some(target) => target,
            None => {
                return;
            },
        };
        self.confirm_delete = None;
        match failure {
            Some(e) => {
                self.status_msg = Some("delete error: ".to_owned().concat(e.as_str()));
                proof {
                    assert(stands(self@, path));
                }
            },
            None => {
                let ghost k = lemma_child(b, path, target);
                let ghost s = shape_at(b.tree.nodes@, b.tree.root);
                prune_entry(&mut self.tree, self.current_dir, target);
                self.status_msg = Some("deleted".to_owned());
                proof {
                    assert(b.tree.leads(path.push(k), b.dir, target));
                    lemma_cut_way(s, path, k);
                    assert(shape_at(self@.tree.nodes@, self@.tree.root) == cut(s, path.push(k)));
                    assert(stands(self@, path));
                    lemma_placed(b, path);
                }
            },
        }
        self.load_dir();
    }

    /// Where the entry that is to be deleted lies, below the root directory.
    pub fn deletion_path(&self) -> (r: Option<String>)
        requires
            self.wf(),
        ensures
            match r {
                Some(text) => {
                    &&& self@.confirm is Some
                    &&& text@ == slashed(
                        path_names(
                            self@.tree.nodes@,
                            self@.stack.push(self@.dir).reverse(),
                            false,
                        ).push(self@.tree.nodes@[(self@.confirm->0).0 as int].common.name@),
                    )
                },
                None => self@.confirm is None,
            },
    {
        let target = match self.confirm_delete {
            Some(target) => target,
            None => {
                return None;
            },
        };
        proof {
            let b = self@;
            let nodes = b.tree.nodes@;
            let path = choose|path: Seq<int>| #[trigger] stands(b, path);
            lemma_placed(b, path);
            let s = shape_at(nodes, b.tree.root);
            let i = choose|i: int| 0 <= i < b.items.len() && b.items[i] == target;
            lemma_listed(b, i);
            assert(ancestors(nodes, EntryId::none(), Seq::empty(), false));
            assert(parent_of(nodes[s.id.0 as int], false) == EntryId::none());
            lemma_trail_line(nodes, s, path, Seq::empty());
            assert(trail(s, path) + Seq::<EntryId>::empty() =~= trail(s, path));
            lemma_line_of(nodes, b.dir, trail(s, path), false);
        }
        Some(relative_path(&self.tree, self.current_dir, target))
    }
}

pub open spec fn names_of(nodes: Seq<Node>, ids: Seq<EntryId>) -> Seq<Seq<char>> {
    Seq::new(ids.len(), |i: int| nodes[ids[i].0 as int].common.name@)
}

/// The names of the directories from the root to the one that is shown.
pub open spec fn place_text(b: BrowserState) -> Seq<char> {
    joined(names_of(b.tree.nodes@, b.stack.push(b.dir)), "/"@)
}

/// What marks an entry behind its name.
pub open spec fn suffix_text(n: Node) -> Seq<char> {
    if n.common.etype is Dir {
        "/"@
    } else if n.kind is Link {
        "@"@
    } else {
        match n.common.etype {
            EType::Pattern => " <excluded>"@,
            EType::OtherFs => " <other fs>"@,
            EType::KernFs => " <kernfs>"@,
            EType::Error => " <error>"@,
            _ => ""@,
        }
    }
}

/// The size on disk in bytes.
pub open spec fn disk_bytes(n: Node) -> u64 {
    capped((n.common.blocks * 512) as nat)
}

/// The share of a directory that an entry takes, in percent.
pub open spec fn percent(n: Node, dir: Node) -> u64 {
    capped((n.common.blocks * 100) as nat) / (if dir.common.blocks > 0 {
        dir.common.blocks
    } else {
        1
    })
}

/// The line for an entry of a directory.
pub open spec fn row_of(n: Node, dir: Node) -> Seq<char> {
    let pct = percent(n, dir);
    let shown = if pct < 100 {
        pct
    } else {
        100
    };
    " "@ + padded(size_text(disk_bytes(n)), 10) + "  ["@ + bar_text(pct as nat, 10) + "] "@
        + padded(decimal(shown as nat), 3) + "%  "@ + n.common.name@ + suffix_text(n)
}

/// The line at the bottom: the question whether to delete, or the last
/// message, or the keys.
pub open spec fn footer_of(b: BrowserState) -> Seq<char> {
    match b.confirm {
        Some(id) => {
            let n = b.tree.nodes@[id.0 as int];
            " DELETE \""@ + n.common.name@ + "\" ("@ + size_text(disk_bytes(n))
                + ")? Press y to confirm, any other key to cancel "@
        },
        None => match b.status {
            Some(msg) => " "@ + msg + " "@,
            None =>
                " q quit | enter/l open | bksp/h up | j/k move | d delete | PgUp/PgDn "@,
        },
    }
}

fn suffix(n: &Node) -> (r: &'static str)
    ensures
        r@ == suffix_text(*n),
{
    match (n.common.etype, &n.kind) {
        (EType::Dir, _) => "/",
        (_, NodeKind::Link(_)) => "@",
        (EType::Pattern, _) => " <excluded>",
        (EType::OtherFs, _) => " <other fs>",
        (EType::KernFs, _) => " <kernfs>",
        (EType::Error, _) => " <error>",
        _ => "",
    }
}

fn row_text(n: &Node, dir: &Node) -> (r: String)
    ensures
        r@ == row_of(*n, *dir),
{
    let total: u64 = if dir.common.blocks > 0 {
        dir.common.blocks
    } else {
        1
    };
    let pct: u64 = capped_product(n.common.blocks, 100) / total;
    let shown: u64 = if pct < 100 {
        pct
    } else {
        100
    };
    proof {
        assert(bar_text(shown as nat, 10) =~= bar_text(pct as nat, 10));
    }
    let mut line = " ".to_owned();
    line.append(pad_left(fmt_size(capped_product(n.common.blocks, 512)).as_str(), 10).as_str());
    line.append("  [");
    line.append(render_bar(shown as usize, 10).as_str());
    line.append("] ");
    line.append(pad_left(decimal_string(shown).as_str(), 3).as_str());
    line.append("%  ");
    line.append(n.common.name.as_str());
    line.append(suffix(n));
    line
}

impl Browser {
    pub fn tree(&self) -> (r: &Tree)
        ensures
            *r == self@.tree,
    {
        &self.tree
    }

    /// The entries as they are listed.
    pub fn items(&self) -> (r: &Vec<EntryId>)
        ensures
            r@ == self@.items,
    {
        &self.items
    }

    /// The position of the selected entry.
    pub fn selected(&self) -> (r: usize)
        ensures
            r == self@.selected,
    {
        self.selected
    }

    /// The directory that is shown.
    pub fn current_dir(&self) -> (r: EntryId)
        ensures
            r == self@.dir,
    {
        self.current_dir
    }

    /// Whether a deletion waits for confirmation.
    pub fn confirming(&self) -> (r: bool)
        ensures
            r == (self@.confirm is Some),
    {
        self.confirm_delete.is_some()
    }

    fn current_path_display(&self) -> (r: String)
        requires
            self.wf(),
        ensures
            r@ == place_text(self@),
    {
        let ghost b = self@;
        let ghost nodes = b.tree.nodes@;
        let ghost ids = b.stack.push(b.dir);
        let ghost names = names_of(nodes, ids);
        proof {
            let path = choose|path: Seq<int>| #[trigger] stands(b, path);
            lemma_placed(b, path);
            let s = shape_at(nodes, b.tree.root);
            lemma_path_flat(s, path);
            lemma_flat_valid(nodes, s);
            assert forall|i: int| 0 <= i < ids.len() implies valid_id(nodes, #[trigger] ids[i]) by {
                let t = trail(s, path);
                assert(ids.reverse()[ids.len() - 1 - i] == ids[i]);
                assert(t[ids.len() - 1 - i] == ids[i]);
                assert(t.contains(ids[i]));
            }
            assert(names.take(0) =~= Seq::<Seq<char>>::empty());
        }
        let mut out = String::new();
        let mut i: usize = 0;
        while i < self.parent_stack.len()
            invariant
                i <= self.parent_stack@.len(),
                nodes == self.tree.nodes@,
                ids == self.parent_stack@.push(self.current_dir),
                names == names_of(nodes, ids),
                forall|k: int| 0 <= k < ids.len() ==> valid_id(nodes, #[trigger] ids[k]),
                out@ == (if i == 0 {
                    Seq::empty()
                } else {
                    joined(names.take(i as int), "/"@) + "/"@
                }),
            decreases self.parent_stack@.len() - i,
        {
            let id = self.parent_stack[i];
            proof {
                assert(ids[i as int] == id);
                assert(names.take(i + 1).drop_last() =~= names.take(i as int));
                assert(names.take(i + 1).last() == names[i as int]);
            }
            out.append(self.tree.get(id).common.name.as_str());
            proof {
                assert(out@ =~= joined(names.take(i + 1), "/"@));
            }
            out.append("/");
            i += 1;
        }
        proof {
            assert(ids[i as int] == self.current_dir);
            assert(names.take(i + 1) =~= names);
            assert(names.drop_last() =~= names.take(i as int));
            assert(names.last() == names[i as int]);
        }
        out.append(self.tree.get(self.current_dir).common.name.as_str());
        proof {
            assert(out@ =~= joined(names, "/"@));
        }
        out
    }

    /// The line at the top.
    pub fn header_text(&self) -> (r: String)
        requires
            self.wf(),
        ensures
            r@ == " ncdu-rs --- "@ + place_text(self@) + " "@,
    {
        " ncdu-rs --- ".to_owned().concat(self.current_path_display().as_str()).concat(" ")
    }

    /// The title of the list.
    pub fn title_text(&self) -> (r: String)
        requires
            self.wf(),
        ensures
            r@ == "Contents ("@ + decimal(self@.items.len()) + " items, total "@ + size_text(
                disk_bytes(self@.tree.nodes@[self@.dir.0 as int]),
            ) + ")"@,
    {
        proof {
            let path = choose|path: Seq<int>| #[trigger] stands(self@, path);
            lemma_placed(self@, path);
        }
        let blocks: u64 = self.tree.get(self.current_dir).common.blocks;
        "Contents (".to_owned().concat(decimal_string(self.items.len() as u64).as_str()).concat(
            " items, total ",
        ).concat(fmt_size(capped_product(blocks, 512)).as_str()).concat(")")
    }

    /// The lines of the list.
    pub fn rows(&self) -> (r: Vec<String>)
        requires
            self.wf(),
        ensures
            r@.len() == self@.items.len(),
            forall|i: int|
                0 <= i < r@.len() ==> (#[trigger] r@[i])@ == row_of(
                    self@.tree.nodes@[self@.items[i].0 as int],
                    self@.tree.nodes@[self@.dir.0 as int],
                ),
    {
        let ghost b = self@;
        proof {
            let path = choose|path: Seq<int>| #[trigger] stands(b, path);
            lemma_placed(b, path);
        }
        let dir = self.tree.get(self.current_dir);
        let mut rows: Vec<String> = Vec::new();
        let mut i: usize = 0;
        while i < self.items.len()
            invariant
                i <= self.items@.len(),
                b == self@,
                placed(b),
                shown(b),
                *dir == b.tree.nodes@[b.dir.0 as int],
                rows@.len() == i,
                forall|k: int|
                    0 <= k < i ==> (#[trigger] rows@[k])@ == row_of(
                        b.tree.nodes@[b.items[k].0 as int],
                        *dir,
                    ),
            decreases self.items@.len() - i,
        {
            proof {
                lemma_listed(b, i as int);
            }
            rows.push(row_text(self.tree.get(self.items[i]), dir));
            i += 1;
        }
        rows
    }

    /// The line at the bottom.
    pub fn footer_text(&self) -> (r: String)
        requires
            self.wf(),
        ensures
            r@ == footer_of(self@),
    {
        if let Some(target) = self.confirm_delete {
            proof {
                let b = self@;
                let i = choose|i: int| 0 <= i < b.items.len() && b.items[i] == target;
                lemma_listed(b, i);
            }
            let n = self.tree.get(target);
            " DELETE \"".to_owned().concat(n.common.name.as_str()).concat("\" (").concat(
                fmt_size(capped_product(n.common.blocks, 512)).as_str(),
            ).concat(")? Press y to confirm, any other key to cancel ")
        } else if let Some(msg) = &self.status_msg {
            " ".to_owned().concat(msg.as_str()).concat(" ")
        } else {
            " q quit | enter/l open | bksp/h up | j/k move | d delete | PgUp/PgDn ".to_owned()
        }
    }
}

/// Entering a directory and going back shows the directory from before, with
/// the same entries in the same order.
pub proof fn leaving_undoes_entering(b: BrowserState)
    requires
        b.confirm is None,
        b.items == listing(b.tree.nodes@, kids_of(b.tree.nodes@, b.dir)),
        0 <= b.selected < b.items.len(),
        b.tree.nodes@[b.items[b.selected].0 as int].kind is Dir,
    ensures
        ({
            let c = pressed(pressed(b, Key::Enter).0, Key::Left).0;
            &&& c.tree == b.tree
            &&& c.dir == b.dir
            &&& c.stack == b.stack
            &&& c.items == b.items
        }),
{
    let e = pressed(b, Key::Enter).0;
    assert(e.stack == b.stack.push(b.dir));
    assert(e.stack.drop_last() =~= b.stack);
}

/// No key changes the tree: only a deletion that was carried out does.
pub proof fn keys_keep_the_tree(b: BrowserState, key: Key)
    ensures
        pressed(b, key).0.tree == b.tree,
{
}

/// Nothing is deleted without confirmation: an entry is handed out for
/// deletion only where it waits for confirmation and the key is `y` or `Y`.
pub proof fn deleting_takes_confirmation(b: BrowserState, key: Key, id: EntryId)
    ensures
        pressed(b, key).1 == Action::Delete(id) <==> b.confirm == Some(id) && (key == Key::Char('y')
            || key == Key::Char('Y')),
{
}

} // verus!
