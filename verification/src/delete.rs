//! Deleting an entry: where it lies on disk, and the tree without it.

use vstd::prelude::*;

use crate::arena::{lemma_same_inodes, same_inodes, same_spare};
use crate::model::{path_names, EntryId, Node, NodeKind, Tree};
use crate::num::capped32;
use crate::prune::{
    among, amount_of, at_path, cut, cut_off, entry_at, has_path, lemma_entry_at,
    lemma_entry_size, lemma_flat_valid, lemma_kids_apart, lemma_linked_path, lemma_parent_is_dir,
    lemma_path_flat, lemma_pruned, lemma_trail_distinct, lemma_trail_line, lemma_way, less_node,
    lessened, pruned, trail, unlinked, Amount,
};
use crate::rings::{lemma_same_rings, ringed, same_ring};
use crate::shape::{
    ancestors, child_of, entry_of, first_child, flat, has_line, has_shape, id_at, lemma_shape_at,
    lemma_shape_unique, lemma_walk_unique, line_of, linked, nexts, parent_of, parents, rooted,
    shape_at, shape_size, siblings, sizes, step_at, tops, valid_id, Shape,
};

verus! {

/// Each name with a slash before it.
pub open spec fn slashed(names: Seq<Seq<char>>) -> Seq<char>
    decreases names.len(),
{
    if names.len() == 0 {
        Seq::empty()
    } else {
        slashed(names.drop_last()).push('/') + names.last()
    }
}

/// Computes a path from the tree root to `target`, joined with `/`. The root's
/// own name is omitted (callers join against the on-disk root path). `parent`
/// is required because `File` nodes do not carry parent links.
pub fn relative_path(tree: &Tree, parent: EntryId, target: EntryId) -> (r: String)
    requires
        has_line(tree.nodes@, parent, false),
        target.0 < tree.nodes@.len(),
    ensures
        r@ == slashed(
            path_names(tree.nodes@, line_of(tree.nodes@, parent, false), false).push(
                tree.nodes@[target.0 as int].common.name@,
            ),
        ),
{
    let ghost line = line_of(tree.nodes@, parent, false);
    let ghost kept: int = if line.len() == 0 {
        0
    } else {
        line.len() - 1
    };
    let mut components: Vec<EntryId> = Vec::new();
    let mut cur = parent;
    let ghost mut k: int = 0;
    proof {
        assert(ancestors(tree.nodes@, parent, line, false));
        if line.len() > 0 {
            assert(step_at(parents(tree.nodes@, false), line, 0));
        }
    }
    let mut next: EntryId = EntryId::none();
    let mut more = !cur.is_none();
    while more
        invariant
            ancestors(tree.nodes@, parent, line, false),
            0 <= k <= kept,
            kept == (if line.len() == 0 {
                0
            } else {
                line.len() - 1
            }),
            more ==> k < line.len() && cur == line[k],
            !more ==> k == kept,
            components@ == line.take(k),
        decreases line.len() - k + if more {
            1int
        } else {
            0
        },
    {
        proof {
            assert(step_at(parents(tree.nodes@, false), line, k));
            if k + 1 < line.len() {
                assert(step_at(parents(tree.nodes@, false), line, k + 1));
            }
        }
        next =
        match &tree.get(cur).kind {
            NodeKind::Dir(d) => d.parent,
            _ => EntryId::none(),
        };
        // Stop before the tree root's own name.
        if next.is_none() {
            more = false;
        } else {
            components.push(cur);
            cur = next;
            proof {
                k = k + 1;
            }
        }
    }
    let ghost names = path_names(tree.nodes@, line, false);
    let mut out = String::new();
    let mut left: usize = components.len();
    proof {
        assert(names.take(0) =~= Seq::<Seq<char>>::empty());
    }
    while left > 0
        invariant
            ancestors(tree.nodes@, parent, line, false),
            0 <= kept <= line.len(),
            components@ == line.take(kept),
            names == path_names(tree.nodes@, line, false),
            names.len() == kept,
            left <= components@.len(),
            out@ == slashed(names.take(kept - left)),
        decreases left,
    {
        left -= 1;
        proof {
            assert(step_at(parents(tree.nodes@, false), line, left as int));
            assert(components@[left as int] == line[left as int]);
            let done = names.take(kept - left);
            assert(done.drop_last() =~= names.take(kept - left - 1));
            assert(done.last() == tree.nodes@[line[left as int].0 as int].common.name@);
        }
        out.push('/');
        out.append(tree.get(components[left]).common.name.as_str());
    }
    out.push('/');
    out.append(tree.get(target).common.name.as_str());
    proof {
        let all = names.push(tree.nodes@[target.0 as int].common.name@);
        assert(names.take(kept) =~= names);
        assert(all.drop_last() =~= names);
    }
    out
}

/// Takes the child at position `i` out of the children `ids` of a directory.
fn unlink_from_parent(
    tree: &mut Tree,
    parent: EntryId,
    target: EntryId,
    Ghost(ids): Ghost<Seq<EntryId>>,
    Ghost(i): Ghost<int>,
)
    requires
        valid_id(old(tree).nodes@, parent),
        old(tree).nodes@[parent.0 as int].kind is Dir,
        siblings(old(tree).nodes@, first_child(old(tree).nodes@[parent.0 as int]), ids),
        ids.no_duplicates(),
        0 <= i < ids.len(),
        ids[i] == target,
    ensures
        final(tree).nodes@ == unlinked(old(tree).nodes@, parent, ids, i),
        final(tree).root == old(tree).root,
        final(tree).devices == old(tree).devices,
        final(tree).inodes == old(tree).inodes,
{
    let ghost nodes = tree.nodes@;
    proof {
        assert(step_at(nexts(nodes), ids, i));
        assert(step_at(nexts(nodes), ids, 0));
    }
    let head: EntryId = match &tree.get(parent).kind {
        NodeKind::Dir(d) => d.sub,
        _ => EntryId::none(),
    };
    let after: EntryId = tree.get(target).common.next;
    if head == target {
        if let Some(d) = tree.get_mut(parent).as_dir_mut() {
            d.sub = after;
        }
        proof {
            assert(i == 0);
            assert(tree.nodes@ =~= unlinked(nodes, parent, ids, i));
        }
        return;
    }
    let mut cur = head;
    let ghost mut k: int = 0;
    while !cur.is_none()
        invariant
            tree.nodes@ == nodes,
            nodes == old(tree).nodes@,
            tree.root == old(tree).root,
            tree.devices == old(tree).devices,
            tree.inodes == old(tree).inodes,
            siblings(nodes, head, ids),
            ids.no_duplicates(),
            0 <= k < i < ids.len(),
            ids[i] == target,
            cur == ids[k],
            after == id_at(ids, i + 1),
        decreases ids.len() - k,
    {
        proof {
            assert(step_at(nexts(nodes), ids, k));
        }
        let next: EntryId = tree.get(cur).common.next;
        if next == target {
            tree.get_mut(cur).common.next = after;
            proof {
                assert(k + 1 == i);
                assert(tree.nodes@ =~= unlinked(nodes, parent, ids, i));
            }
            return;
        }
        cur = next;
        proof {
            k = k + 1;
        }
    }
    proof {
        assert(step_at(nexts(nodes), ids, k));
    }
}

/// The number of entries in a subtree, itself included.
fn count_subtree(tree: &Tree, id: EntryId, Ghost(s): Ghost<Shape>) -> (r: u32)
    requires
        linked(tree.nodes@, s),
        s.id == id,
    ensures
        r == capped32(shape_size(s)),
    decreases s,
{
    let ghost nodes = tree.nodes@;
    let mut items: u32 = 1;
    let mut cur: EntryId = match &tree.get(id).kind {
        NodeKind::Dir(d) => d.sub,
        _ => EntryId::none(),
    };
    let ghost mut k: int = 0;
    while !cur.is_none()
        invariant
            nodes == tree.nodes@,
            linked(nodes, s),
            0 <= k <= s.kids.len(),
            cur == id_at(tops(s.kids), k),
            items == capped32(1 + sizes(s.kids, k as nat)),
        decreases s.kids.len() - k,
    {
        proof {
            assert(step_at(nexts(nodes), tops(s.kids), k));
            assert(linked(nodes, s.kids[k]));
        }
        items = items.saturating_add(count_subtree(tree, cur, Ghost(s.kids[k])));
        cur = tree.get(cur).common.next;
        proof {
            k = k + 1;
        }
    }
    proof {
        if k < s.kids.len() {
            assert(step_at(nexts(nodes), tops(s.kids), k));
        }
    }
    items
}

/// What a subtree contributes to the totals of the directories above it:
/// blocks, size, and the number of entries. The blocks and the size of a
/// directory cover all that is below it.
pub fn subtree_totals(tree: &Tree, id: EntryId) -> (r: (u64, u64, u32))
    requires
        tree.has_entry(id),
    ensures
        amount_of(tree.entry(id)) == (Amount { blocks: r.0, size: r.1, items: r.2 }),
{
    let ghost s = shape_at(tree.nodes@, id);
    proof {
        lemma_entry_size(tree.nodes@, tree.devices@, s);
    }
    let node = tree.get(id);
    (node.common.blocks, node.common.size, count_subtree(tree, id, Ghost(s)))
}

/// Reduces the totals of a directory and of those above it.
fn reduce_line(
    tree: &mut Tree,
    dir: EntryId,
    sub_blocks: u64,
    sub_size: u64,
    sub_items: u32,
    Ghost(line): Ghost<Seq<EntryId>>,
)
    requires
        ancestors(old(tree).nodes@, dir, line, false),
        line.no_duplicates(),
    ensures
        final(tree).nodes@ == lessened(
            old(tree).nodes@,
            line,
            Amount { blocks: sub_blocks, size: sub_size, items: sub_items },
        ),
        final(tree).root == old(tree).root,
        final(tree).devices == old(tree).devices,
        final(tree).inodes == old(tree).inodes,
{
    let ghost amount = Amount { blocks: sub_blocks, size: sub_size, items: sub_items };
    let ghost nodes = tree.nodes@;
    let ghost links = parents(nodes, false);
    let mut cur = dir;
    let ghost mut k: int = 0;
    proof {
        assert(line.take(0) =~= Seq::<EntryId>::empty());
        assert(lessened(nodes, line.take(0), amount) =~= nodes);
    }
    while !cur.is_none()
        invariant
            links == parents(nodes, false),
            ancestors(nodes, dir, line, false),
            line.no_duplicates(),
            amount == (Amount { blocks: sub_blocks, size: sub_size, items: sub_items }),
            0 <= k <= line.len(),
            cur == id_at(line, k),
            tree.nodes@ == lessened(nodes, line.take(k), amount),
            tree.root == old(tree).root,
            tree.devices == old(tree).devices,
            tree.inodes == old(tree).inodes,
        decreases line.len() - k,
    {
        proof {
            assert(step_at(links, line, k));
            let done = line.take(k);
            if among(done, cur.0 as int) {
                let j = choose|j: int| 0 <= j < done.len() && (#[trigger] done[j]).0 == cur.0;
                assert(line[j] == line[k]);
            }
            assert(tree.nodes@[cur.0 as int] == nodes[cur.0 as int]);
        }
        let ghost before = tree.nodes@;
        let node = tree.get_mut(cur);
        node.common.blocks = node.common.blocks.saturating_sub(sub_blocks);
        node.common.size = node.common.size.saturating_sub(sub_size);
        let mut next: EntryId = EntryId::none();
        if let Some(d) = node.as_dir_mut() {
            d.items = d.items.saturating_sub(sub_items);
            next = d.parent;
        }
        proof {
            let n = nodes[cur.0 as int];
            assert(tree.nodes@[cur.0 as int] == less_node(n, amount));
            let more = line.take(k + 1);
            assert forall|i: int| 0 <= i < nodes.len() implies tree.nodes@[i] == lessened(
                nodes,
                more,
                amount,
            )[i] by {
                let done = line.take(k);
                assert(more[k] == cur);
                if among(done, i) {
                    let j = choose|j: int| 0 <= j < done.len() && (#[trigger] done[j]).0 == i;
                    assert(more[j].0 == i);
                }
                if among(more, i) && i != cur.0 {
                    let j = choose|j: int| 0 <= j < more.len() && (#[trigger] more[j]).0 == i;
                    assert(done[j].0 == i);
                }
                if i != cur.0 {
                    assert(before[i] == tree.nodes@[i]);
                }
            }
            assert(tree.nodes@ =~= lessened(nodes, more, amount));
        }
        cur = next;
        proof {
            k = k + 1;
        }
    }
    proof {
        if k < line.len() {
            assert(step_at(links, line, k));
        }
        assert(line.take(line.len() as int) =~= line);
    }
}

impl Tree {
    /// The path leads from the root to `target`, by way of its parent
    /// directory `parent`.
    pub open spec fn leads(&self, path: Seq<int>, parent: EntryId, target: EntryId) -> bool {
        let s = shape_at(self.nodes@, self.root);
        &&& path.len() > 0
        &&& has_path(s, path)
        &&& at_path(s, path.drop_last()).id == parent
        &&& at_path(s, path).id == target
    }

    /// `target` is a child of the directory `parent`, somewhere in the tree.
    pub open spec fn has_child(&self, parent: EntryId, target: EntryId) -> bool {
        exists|path: Seq<int>| #[trigger] self.leads(path, parent, target)
    }
}

/// A path is determined by the child that it leads to, and so is the line of
/// directories above it.
proof fn lemma_paths_agree(
    tree: Tree,
    p: Seq<int>,
    q: Seq<int>,
    parent: EntryId,
    target: EntryId,
)
    requires
        tree.proper(),
        tree.leads(p, parent, target),
        tree.leads(q, parent, target),
    ensures
        ({
            let s = shape_at(tree.nodes@, tree.root);
            &&& at_path(s, p.drop_last()) == at_path(s, q.drop_last())
            &&& p.last() == q.last()
            &&& trail(s, p.drop_last()) == trail(s, q.drop_last())
            &&& at_path(s, p) == at_path(s, q)
        }),
{
    let s = shape_at(tree.nodes@, tree.root);
    lemma_path_facts(tree, p, parent, target);
    lemma_path_facts(tree, q, parent, target);
    let d = at_path(s, p.drop_last());
    let e = at_path(s, q.drop_last());
    lemma_shape_unique(tree.nodes@, d, e);
    assert(tops(d.kids)[p.last()] == tops(d.kids)[q.last()]);
    lemma_walk_unique(
        parents(tree.nodes@, false),
        parent,
        trail(s, p.drop_last()),
        trail(s, q.drop_last()),
    );
}

/// What holds along a path to a child.
proof fn lemma_path_facts(tree: Tree, path: Seq<int>, parent: EntryId, target: EntryId)
    requires
        tree.proper(),
        tree.leads(path, parent, target),
    ensures
        ({
            let s = shape_at(tree.nodes@, tree.root);
            let way = path.drop_last();
            let d = at_path(s, way);
            &&& s.id == tree.root
            &&& rooted(tree.nodes@, s)
            &&& has_path(s, way)
            &&& linked(tree.nodes@, d)
            &&& linked(tree.nodes@, at_path(s, path))
            &&& tree.nodes@[parent.0 as int].kind is Dir
            &&& 0 <= path.last() < d.kids.len()
            &&& d.kids[path.last()] == at_path(s, path)
            &&& tops(d.kids).no_duplicates()
            &&& trail(s, way).no_duplicates()
            &&& ancestors(tree.nodes@, parent, trail(s, way), false)
        }),
{
    let nodes = tree.nodes@;
    let s = shape_at(nodes, tree.root);
    let way = path.drop_last();
    let d = at_path(s, way);
    assert(has_shape(nodes, tree.root));
    lemma_way(s, path);
    lemma_path_flat(s, way);
    lemma_linked_path(nodes, s, way);
    lemma_parent_is_dir(nodes, d, path.last());
    assert(linked(nodes, d.kids[path.last()]));
    lemma_trail_distinct(s, way);
    assert(ancestors(nodes, EntryId::none(), Seq::empty(), false));
    lemma_root_is_dir(nodes, s, path);
    lemma_trail_line(nodes, s, way, Seq::empty());
    assert(trail(s, way) + Seq::<EntryId>::empty() =~= trail(s, way));
    let ids = tops(d.kids);
    assert forall|i: int, j: int|
        0 <= i < ids.len() && 0 <= j < ids.len() && i != j implies ids[i] != ids[j] by {
        assert(flat(d.kids[i])[0] == d.kids[i].id);
        assert(flat(d.kids[j])[0] == d.kids[j].id);
        assert(flat(d.kids[i]).contains(d.kids[i].id));
        assert(flat(d.kids[j]).contains(d.kids[j].id));
        lemma_kids_apart(d, i, j, d.kids[i].id);
    }
}

proof fn lemma_root_is_dir(nodes: Seq<Node>, s: Shape, path: Seq<int>)
    requires
        linked(nodes, s),
        path.len() > 0,
        has_path(s, path),
        child_of(nodes[s.id.0 as int], EntryId::none()),
    ensures
        parent_of(nodes[s.id.0 as int], false) == EntryId::none(),
{
    lemma_parent_is_dir(nodes, s, path[0]);
}

/// Takes `target` out of the directory `parent` that owns it, and its
/// footprint out of the totals of every directory above it.
pub fn prune_entry(tree: &mut Tree, parent: EntryId, target: EntryId)
    requires
        old(tree).proper(),
        old(tree).has_child(parent, target),
    ensures
        final(tree).proper(),
        forall|path: Seq<int>| #[trigger]
            old(tree).leads(path, parent, target) ==> {
                let before = old(tree).entry(old(tree).root);
                &&& final(tree).entry(final(tree).root) == pruned(
                    before,
                    path,
                    amount_of(entry_at(before, path)),
                )
                &&& shape_at(final(tree).nodes@, final(tree).root) == cut(
                    shape_at(old(tree).nodes@, old(tree).root),
                    path,
                )
            },
        old(tree).devices_ok() ==> final(tree).devices_ok(),
        final(tree).nodes@.len() == old(tree).nodes@.len(),
        forall|i: int|
            0 <= i < old(tree).nodes@.len() ==> {
                &&& (#[trigger] final(tree).nodes@[i]).common.name
                    == old(tree).nodes@[i].common.name
                &&& final(tree).nodes@[i].kind is Dir <==> old(tree).nodes@[i].kind is Dir
                &&& same_spare(old(tree).nodes@[i], final(tree).nodes@[i])
                &&& same_ring(old(tree).nodes@[i], final(tree).nodes@[i])
            },
        same_inodes(old(tree).nodes@, final(tree).nodes@),
        old(tree).inodes_ok() ==> final(tree).inodes_ok(),
        ringed(old(tree).nodes@) && old(tree).nodes@.len() <= u32::MAX ==> ringed(
            final(tree).nodes@,
        ),
        final(tree).root == old(tree).root,
        final(tree).devices == old(tree).devices,
        final(tree).inodes == old(tree).inodes,
{
    let ghost before = *tree;
    let ghost path = choose|path: Seq<int>| #[trigger] tree.leads(path, parent, target);
    let ghost a = tree.nodes@;
    let ghost s = shape_at(a, tree.root);
    let ghost d = at_path(s, path.drop_last());
    let ghost line = trail(s, path.drop_last());
    proof {
        lemma_path_facts(*tree, path, parent, target);
        lemma_shape_at(a, at_path(s, path));
    }
    let (sub_blocks, sub_size, sub_items) = subtree_totals(tree, target);
    let ghost amount = Amount { blocks: sub_blocks, size: sub_size, items: sub_items };
    unlink_from_parent(tree, parent, target, Ghost(tops(d.kids)), Ghost(path.last()));
    let ghost u = tree.nodes@;
    proof {
        if path.last() > 0 {
            assert(step_at(nexts(a), tops(d.kids), path.last() - 1));
        }
        lemma_unlinked_parents(a, parent, tops(d.kids), path.last());
        assert(parents(u, false) =~= parents(a, false));
    }
    reduce_line(tree, parent, sub_blocks, sub_size, sub_items, Ghost(line));
    proof {
        let b = tree.nodes@;
        assert forall|p: Seq<int>| #[trigger] before.leads(p, parent, target) implies {
            &&& linked(b, cut(s, p))
            &&& rooted(b, cut(s, p))
            &&& shape_at(b, before.root) == cut(s, p)
            &&& tree.entry(tree.root) == pruned(
                before.entry(before.root),
                p,
                amount_of(entry_at(before.entry(before.root), p)),
            )
        } by {
            lemma_paths_agree(before, path, p, parent, target);
            lemma_path_facts(before, p, parent, target);
            lemma_flat_valid(a, s);
            assert(cut_off(a, b, s, p, line, amount)) by {
                assert forall|id: EntryId|
                    #![trigger b[id.0 as int]]
                    #![trigger flat(s).contains(id)]
                    flat(s).contains(id) implies b[id.0 as int] == (if line.contains(id) {
                    less_node(u[id.0 as int], amount)
                } else {
                    u[id.0 as int]
                }) by {
                    assert(valid_id(a, id));
                    lemma_among(line, id);
                }
            }
            lemma_pruned(a, b, s, p, line, amount);
            lemma_shape_at(b, cut(s, p));
            lemma_entry_at(a, before.devices@, s, p);
            assert(entry_of(b, before.devices@, cut(s, p)) == pruned(
                entry_of(a, before.devices@, s),
                p,
                amount,
            ));
        }
        assert(before.leads(path, parent, target));
        assert forall|i: int| 0 <= i < a.len() implies {
            &&& (#[trigger] b[i]).common.name == a[i].common.name
            &&& b[i].kind is Dir <==> a[i].kind is Dir
            &&& same_spare(a[i], b[i])
            &&& same_ring(a[i], b[i])
        } by {
            assert(u[i].common.name == a[i].common.name);
        }
        assert(same_inodes(a, b)) by {
            assert forall|i: int| 0 <= i < a.len() implies match (#[trigger] b[i]).kind {
                NodeKind::Dir(d) => a[i].kind matches NodeKind::Dir(e) && d.dev == e.dev,
                NodeKind::Link(l) => a[i].kind matches NodeKind::Link(k) && l.parent == k.parent
                    && l.ino == k.ino,
                NodeKind::File => a[i].kind is File,
            } by {
                assert(same_spare(a[i], u[i]));
            }
        }
        if before.inodes_ok() {
            lemma_same_inodes(a, b, before.inodes.map@);
        }
        if ringed(a) && a.len() <= u32::MAX {
            lemma_same_rings(a, b);
        }
        if before.devices_ok() {
            assert forall|i: int| 0 <= i < b.len() implies ((#[trigger] b[i]).kind matches NodeKind::Dir(
                x,
            ) ==> x.dev < tree.devices@.len()) by {
                assert(a[i].kind matches NodeKind::Dir(x) ==> x.dev < before.devices@.len());
                assert(u[i].kind matches NodeKind::Dir(x) ==> x.dev < before.devices@.len());
            }
        }
    }
}

proof fn lemma_among(ids: Seq<EntryId>, id: EntryId)
    ensures
        among(ids, id.0 as int) <==> ids.contains(id),
{
    if ids.contains(id) {
        let j = choose|j: int| 0 <= j < ids.len() && ids[j] == id;
        assert(ids[j].0 == id.0);
    }
    if among(ids, id.0 as int) {
        let j = choose|j: int| 0 <= j < ids.len() && (#[trigger] ids[j]).0 == id.0;
        assert(ids[j] == id);
    }
}

/// Unlinking a child changes no parent, and the arena keeps its length and its
/// devices.
proof fn lemma_unlinked_parents(nodes: Seq<Node>, dir: EntryId, ids: Seq<EntryId>, i: int)
    requires
        0 <= i < ids.len(),
        dir.0 < nodes.len(),
        i > 0 ==> ids[i - 1].0 < nodes.len(),
    ensures
        ({
            let u = unlinked(nodes, dir, ids, i);
            &&& u.len() == nodes.len()
            &&& forall|j: int|
                0 <= j < nodes.len() ==> {
                    &&& parent_of(#[trigger] u[j], false) == parent_of(nodes[j], false)
                    &&& u[j].common.name == nodes[j].common.name
                    &&& u[j].kind is Dir <==> nodes[j].kind is Dir
                    &&& u[j].kind matches NodeKind::Dir(x) ==> (nodes[j].kind matches NodeKind::Dir(
                        y,
                    ) && x.dev == y.dev)
                    &&& u[j].kind matches NodeKind::Link(x) ==> nodes[j].kind == NodeKind::Link(x)
                    &&& same_spare(nodes[j], u[j])
                    &&& same_ring(nodes[j], u[j])
                }
        }),
{
}

} // verus!
