//! Arenas whose links form trees.

use vstd::prelude::*;

use crate::model::{inode_key, with_link, EntryId, Node, NodeKind, Tree};
use crate::shape::{
    ascending, chain, child_of, children, first_child, flat, flats, has_shape, lemma_chain,
    lemma_walk_unique, linked, nexts, onward, owned, rooted, siblings, step_at, tops, unshared,
    valid_id, Shape,
};

verus! {

/// Every child that a directory links to records that directory as its parent.
pub open spec fn parented(nodes: Seq<Node>) -> bool {
    forall|d: EntryId, i: int|
        #![trigger children(nodes, d)[i]]
        valid_id(nodes, d) && 0 <= i < children(nodes, d).len() ==> child_of(
            nodes[children(nodes, d)[i].0 as int],
            d,
        )
}

/// The root, if there is one, is a directory that has neither a parent nor
/// siblings.
pub open spec fn seated(nodes: Seq<Node>, root: EntryId) -> bool {
    root == EntryId::none() || {
        &&& valid_id(nodes, root)
        &&& nodes[root.0 as int].kind is Dir
        &&& child_of(nodes[root.0 as int], EntryId::none())
        &&& nodes[root.0 as int].common.next == EntryId::none()
        &&& forall|i: int|
            0 <= i < nodes.len() ==> {
                &&& (#[trigger] nodes[i]).common.next != root
                &&& first_child(nodes[i]) != root
            }
    }
}

/// Siblings come in ascending order of ids.
pub proof fn lemma_siblings_ascend(
    nodes: Seq<Node>,
    head: EntryId,
    ids: Seq<EntryId>,
    i: int,
    j: int,
)
    requires
        ascending(nodes),
        siblings(nodes, head, ids),
        0 <= i < j < ids.len(),
    ensures
        ids[i].0 < ids[j].0,
    decreases j - i,
{
    assert(step_at(nexts(nodes), ids, i));
    assert(step_at(nexts(nodes), ids, i + 1));
    assert(onward(nodes, ids[i].0 as int, nodes[ids[i].0 as int].common.next));
    if i + 1 < j {
        lemma_siblings_ascend(nodes, head, ids, i + 1, j);
    }
}

/// Two directories have no child in common.
pub proof fn lemma_no_common_child(
    nodes: Seq<Node>,
    c: EntryId,
    d: EntryId,
    a: Seq<EntryId>,
    b: Seq<EntryId>,
    i: int,
    j: int,
)
    requires
        unshared(nodes),
        valid_id(nodes, c),
        valid_id(nodes, d),
        c != d,
        siblings(nodes, first_child(nodes[c.0 as int]), a),
        siblings(nodes, first_child(nodes[d.0 as int]), b),
        0 <= i < a.len(),
        0 <= j < b.len(),
    ensures
        a[i] != b[j],
    decreases i + j,
{
    assert(step_at(nexts(nodes), a, i));
    assert(step_at(nexts(nodes), b, j));
    if a[i] == b[j] {
        if i > 0 {
            assert(step_at(nexts(nodes), a, i - 1));
        }
        if j > 0 {
            assert(step_at(nexts(nodes), b, j - 1));
        }
        if i > 0 && j > 0 {
            lemma_no_common_child(nodes, c, d, a, b, i - 1, j - 1);
            assert(nodes[a[i - 1].0 as int].common.next == nodes[b[j - 1].0 as int].common.next);
        } else if i > 0 {
            assert(first_child(nodes[d.0 as int]) == nodes[a[i - 1].0 as int].common.next);
        } else if j > 0 {
            assert(first_child(nodes[c.0 as int]) == nodes[b[j - 1].0 as int].common.next);
        } else {
            assert(first_child(nodes[c.0 as int]) == first_child(nodes[d.0 as int]));
        }
    }
}

/// The children of a node lie behind it in the arena.
proof fn lemma_children_lie_behind(nodes: Seq<Node>, id: EntryId, i: int)
    requires
        ascending(nodes),
        valid_id(nodes, id),
        0 <= i < children(nodes, id).len(),
    ensures
        siblings(nodes, first_child(nodes[id.0 as int]), children(nodes, id)),
        valid_id(nodes, children(nodes, id)[i]),
        id.0 < children(nodes, id)[i].0,
{
    let head = first_child(nodes[id.0 as int]);
    let ids = children(nodes, id);
    assert(onward(nodes, id.0 as int, head));
    lemma_chain(nodes, head);
    assert(step_at(nexts(nodes), ids, 0));
    assert(step_at(nexts(nodes), ids, i));
    if i > 0 {
        lemma_siblings_ascend(nodes, head, ids, 0, i);
    }
}

/// The subtree below a node.
spec fn grown(nodes: Seq<Node>, id: EntryId) -> Shape
    decreases nodes.len() - id.0,
{
    let ids = children(nodes, id);
    Shape {
        id,
        kids: Seq::new(
            ids.len(),
            |i: int|
                if id.0 < ids[i].0 && ids[i].0 <= nodes.len() {
                    grown(nodes, ids[i])
                } else {
                    arbitrary()
                },
        ),
    }
}

/// Below every node hangs a subtree.
pub proof fn lemma_has_shape(nodes: Seq<Node>, id: EntryId)
    requires
        ascending(nodes),
        valid_id(nodes, id),
    ensures
        has_shape(nodes, id),
{
    lemma_grown(nodes, id);
}

proof fn lemma_grown(nodes: Seq<Node>, id: EntryId)
    requires
        ascending(nodes),
        valid_id(nodes, id),
    ensures
        linked(nodes, grown(nodes, id)),
        grown(nodes, id).id == id,
    decreases nodes.len() - id.0,
{
    let ids = children(nodes, id);
    let s = grown(nodes, id);
    assert(s.kids.len() == ids.len());
    assert forall|i: int| 0 <= i < ids.len() implies linked(nodes, #[trigger] s.kids[i])
        && s.kids[i].id == ids[i] by {
        lemma_children_lie_behind(nodes, id, i);
        assert(s.kids[i] == grown(nodes, ids[i]));
        lemma_grown(nodes, ids[i]);
    }
    assert(tops(s.kids) =~= ids);
    assert(onward(nodes, id.0 as int, first_child(nodes[id.0 as int])));
    lemma_chain(nodes, first_child(nodes[id.0 as int]));
}

/// The kids of a shape stand for the children of the node.
proof fn lemma_kids_are_children(nodes: Seq<Node>, s: Shape)
    requires
        ascending(nodes),
        linked(nodes, s),
    ensures
        tops(s.kids) == children(nodes, s.id),
        siblings(nodes, first_child(nodes[s.id.0 as int]), tops(s.kids)),
{
    let head = first_child(nodes[s.id.0 as int]);
    assert(onward(nodes, s.id.0 as int, head));
    lemma_chain(nodes, head);
    lemma_walk_unique(nexts(nodes), head, chain(nodes, head), tops(s.kids));
}

proof fn lemma_owned(nodes: Seq<Node>, s: Shape)
    requires
        ascending(nodes),
        parented(nodes),
        linked(nodes, s),
    ensures
        owned(nodes, s),
    decreases s,
{
    lemma_kids_are_children(nodes, s);
    assert forall|i: int| 0 <= i < s.kids.len() implies {
        &&& child_of(nodes[(#[trigger] s.kids[i]).id.0 as int], s.id)
        &&& owned(nodes, s.kids[i])
    } by {
        assert(children(nodes, s.id)[i] == s.kids[i].id);
        assert(linked(nodes, s.kids[i]));
        lemma_owned(nodes, s.kids[i]);
    }
}

/// What is in the list of ids of some shapes is in that of one of them.
proof fn lemma_among_kids(kids: Seq<Shape>, n: nat, x: EntryId) -> (k: int)
    requires
        n <= kids.len(),
        flats(kids, n).contains(x),
    ensures
        0 <= k < n,
        flat(kids[k]).contains(x),
    decreases n,
{
    let all = flats(kids, n);
    let i = choose|i: int| 0 <= i < all.len() && all[i] == x;
    let front = flats(kids, (n - 1) as nat);
    if i < front.len() {
        assert(front[i] == x);
        lemma_among_kids(kids, (n - 1) as nat, x)
    } else {
        assert(flat(kids[n - 1])[i - front.len()] == x);
        n - 1
    }
}

proof fn lemma_kid_among(kids: Seq<Shape>, n: nat, k: int, x: EntryId)
    requires
        0 <= k < n <= kids.len(),
        flat(kids[k]).contains(x),
    ensures
        flats(kids, n).contains(x),
    decreases n,
{
    let front = flats(kids, (n - 1) as nat);
    let last = flat(kids[n - 1]);
    if k < n - 1 {
        lemma_kid_among(kids, (n - 1) as nat, k, x);
        let i = choose|i: int| 0 <= i < front.len() && front[i] == x;
        assert(flats(kids, n)[i] == x);
    } else {
        let i = choose|i: int| 0 <= i < last.len() && last[i] == x;
        assert(flats(kids, n)[front.len() + i] == x);
    }
}

/// The ids of a shape are that at its top and those of its kids.
proof fn lemma_flat_member(s: Shape, x: EntryId)
    ensures
        flat(s).contains(s.id),
        flat(s).contains(x) <==> x == s.id || flats(s.kids, s.kids.len()).contains(x),
{
    let below = flats(s.kids, s.kids.len());
    assert(flat(s)[0] == s.id);
    if flat(s).contains(x) && x != s.id {
        let i = choose|i: int| 0 <= i < flat(s).len() && flat(s)[i] == x;
        assert(below[i - 1] == x);
    }
    if below.contains(x) {
        let i = choose|i: int| 0 <= i < below.len() && below[i] == x;
        assert(flat(s)[i + 1] == x);
    }
}

/// The ids of a subtree lie behind its top.
proof fn lemma_flat_lies_behind(nodes: Seq<Node>, s: Shape, x: EntryId)
    requires
        ascending(nodes),
        linked(nodes, s),
        flat(s).contains(x),
    ensures
        s.id.0 <= x.0,
    decreases s,
{
    lemma_flat_member(s, x);
    if x != s.id {
        let k = lemma_among_kids(s.kids, s.kids.len(), x);
        lemma_kids_are_children(nodes, s);
        assert(linked(nodes, s.kids[k]));
        lemma_flat_lies_behind(nodes, s.kids[k], x);
        assert(tops(s.kids)[k] == s.kids[k].id);
        lemma_children_lie_behind(nodes, s.id, k);
    }
}

/// The directory in a subtree that a node hangs in.
proof fn lemma_holder(nodes: Seq<Node>, s: Shape, x: EntryId) -> (h: (Shape, int))
    requires
        linked(nodes, s),
        flat(s).contains(x),
        x != s.id,
    ensures
        linked(nodes, h.0),
        flat(s).contains(h.0.id),
        0 <= h.1 < h.0.kids.len(),
        h.0.kids[h.1].id == x,
    decreases s,
{
    lemma_flat_member(s, x);
    let k = lemma_among_kids(s.kids, s.kids.len(), x);
    assert(linked(nodes, s.kids[k]));
    if x == s.kids[k].id {
        (s, k)
    } else {
        let h = lemma_holder(nodes, s.kids[k], x);
        lemma_kid_among(s.kids, s.kids.len(), k, h.0.id);
        lemma_flat_member(s, h.0.id);
        h
    }
}

/// A node that hangs in two directories hangs in one.
proof fn lemma_one_holder(nodes: Seq<Node>, a: Shape, i: int, b: Shape, j: int)
    requires
        ascending(nodes),
        unshared(nodes),
        linked(nodes, a),
        linked(nodes, b),
        0 <= i < a.kids.len(),
        0 <= j < b.kids.len(),
        a.kids[i].id == b.kids[j].id,
    ensures
        a.id == b.id,
        a.id.0 < a.kids[i].id.0,
{
    lemma_kids_are_children(nodes, a);
    lemma_kids_are_children(nodes, b);
    assert(tops(a.kids)[i] == tops(b.kids)[j]);
    lemma_children_lie_behind(nodes, a.id, i);
    if a.id != b.id {
        lemma_no_common_child(nodes, a.id, b.id, tops(a.kids), tops(b.kids), i, j);
    }
}

/// Of two subtrees with a node in common one is part of the other.
proof fn lemma_meet(nodes: Seq<Node>, a: Shape, b: Shape, x: EntryId)
    requires
        ascending(nodes),
        unshared(nodes),
        linked(nodes, a),
        linked(nodes, b),
        flat(a).contains(x),
        flat(b).contains(x),
    ensures
        flat(b).contains(a.id) || flat(a).contains(b.id),
    decreases x.0,
{
    if x != a.id && x != b.id {
        let (g, i) = lemma_holder(nodes, a, x);
        let (h, j) = lemma_holder(nodes, b, x);
        lemma_one_holder(nodes, g, i, h, j);
        lemma_meet(nodes, a, b, g.id);
    }
}

/// Two children of a directory have no node in common.
proof fn lemma_kids_disjoint(nodes: Seq<Node>, s: Shape, i: int, j: int, x: EntryId)
    requires
        ascending(nodes),
        unshared(nodes),
        linked(nodes, s),
        0 <= i < s.kids.len(),
        0 <= j < s.kids.len(),
        i != j,
        flat(s.kids[i]).contains(x),
    ensures
        !flat(s.kids[j]).contains(x),
{
    let a = s.kids[i];
    let b = s.kids[j];
    let ids = tops(s.kids);
    lemma_kids_are_children(nodes, s);
    assert(linked(nodes, a) && linked(nodes, b));
    assert(ids[i] == a.id && ids[j] == b.id);
    lemma_children_lie_behind(nodes, s.id, i);
    lemma_children_lie_behind(nodes, s.id, j);
    if i < j {
        lemma_siblings_ascend(nodes, first_child(nodes[s.id.0 as int]), ids, i, j);
    } else {
        lemma_siblings_ascend(nodes, first_child(nodes[s.id.0 as int]), ids, j, i);
    }
    if flat(b).contains(x) {
        lemma_meet(nodes, a, b, x);
        if flat(b).contains(a.id) {
            let (h, k) = lemma_holder(nodes, b, a.id);
            lemma_one_holder(nodes, s, i, h, k);
            lemma_flat_lies_behind(nodes, b, h.id);
        } else {
            let (h, k) = lemma_holder(nodes, a, b.id);
            lemma_one_holder(nodes, s, j, h, k);
            lemma_flat_lies_behind(nodes, a, h.id);
        }
    }
}

proof fn lemma_flats_no_repeats(nodes: Seq<Node>, s: Shape, n: nat)
    requires
        ascending(nodes),
        unshared(nodes),
        linked(nodes, s),
        n <= s.kids.len(),
        forall|i: int| 0 <= i < n ==> flat(#[trigger] s.kids[i]).no_duplicates(),
    ensures
        flats(s.kids, n).no_duplicates(),
    decreases n,
{
    if n > 0 {
        let m = (n - 1) as nat;
        lemma_flats_no_repeats(nodes, s, m);
        let front = flats(s.kids, m);
        let last = flat(s.kids[m as int]);
        let all = flats(s.kids, n);
        assert forall|i: int, j: int| 0 <= i < front.len() && 0 <= j < last.len() implies front[i]
            != last[j] by {
            assert(front.contains(front[i]));
            let k = lemma_among_kids(s.kids, m, front[i]);
            lemma_kids_disjoint(nodes, s, k, m as int, front[i]);
            assert(last.contains(last[j]));
        }
        assert forall|i: int, j: int| 0 <= i < all.len() && 0 <= j < all.len() && i != j implies
            all[i] != all[j] by {
            if i < front.len() && j >= front.len() {
                assert(front[i] != last[j - front.len()]);
            } else if j < front.len() && i >= front.len() {
                assert(front[j] != last[i - front.len()]);
            } else if i >= front.len() {
                assert(last[i - front.len()] != last[j - front.len()]);
            } else {
                assert(front[i] != front[j]);
            }
        }
    }
}

/// Following the links visits no node twice.
pub proof fn lemma_no_repeats(nodes: Seq<Node>, s: Shape)
    requires
        ascending(nodes),
        unshared(nodes),
        linked(nodes, s),
    ensures
        flat(s).no_duplicates(),
    decreases s,
{
    assert forall|i: int| 0 <= i < s.kids.len() implies flat(
        #[trigger] s.kids[i],
    ).no_duplicates() by {
        lemma_no_repeats(nodes, s.kids[i]);
    }
    let below = flats(s.kids, s.kids.len());
    lemma_flats_no_repeats(nodes, s, s.kids.len());
    assert forall|i: int| 0 <= i < below.len() implies below[i] != s.id by {
        assert(below.contains(below[i]));
        let k = lemma_among_kids(s.kids, s.kids.len(), below[i]);
        assert(linked(nodes, s.kids[k]));
        lemma_flat_lies_behind(nodes, s.kids[k], below[i]);
        lemma_kids_are_children(nodes, s);
        assert(tops(s.kids)[k] == s.kids[k].id);
        lemma_children_lie_behind(nodes, s.id, k);
    }
    assert forall|i: int, j: int| 0 <= i < flat(s).len() && 0 <= j < flat(s).len() && i
        != j implies flat(s)[i] != flat(s)[j] by {
        if i > 0 && j > 0 {
            assert(below[i - 1] != below[j - 1]);
        } else if i > 0 {
            assert(below[i - 1] != s.id);
        } else {
            assert(below[j - 1] != s.id);
        }
    }
}

/// The links below the root of an arena form a tree.
pub proof fn lemma_rooted(nodes: Seq<Node>, root: EntryId, s: Shape)
    requires
        ascending(nodes),
        unshared(nodes),
        parented(nodes),
        seated(nodes, root),
        root != EntryId::none(),
        linked(nodes, s),
        s.id == root,
    ensures
        rooted(nodes, s),
{
    lemma_owned(nodes, s);
    lemma_no_repeats(nodes, s);
}

/// The inode that a Link stands for, by the device of the directory that it is
/// in. A Link in no directory stands for none.
pub open spec fn link_key(nodes: Seq<Node>, i: int) -> Option<u128> {
    match nodes[i].kind {
        NodeKind::Link(l) => if valid_id(nodes, l.parent) {
            match nodes[l.parent.0 as int].kind {
                NodeKind::Dir(d) => Some(inode_key(d.dev, l.ino)),
                _ => None,
            }
        } else {
            None
        },
        _ => None,
    }
}

/// A Link is in a directory of the arena, or in none.
pub open spec fn link_in_place(nodes: Seq<Node>, i: int) -> bool {
    nodes[i].kind matches NodeKind::Link(l) ==> l.parent == EntryId::none() || (valid_id(
        nodes,
        l.parent,
    ) && nodes[l.parent.0 as int].kind is Dir)
}

/// The table names the first Link of every inode that has one, and nothing
/// else. Links are in directories of the arena.
pub open spec fn registered(nodes: Seq<Node>, map: Map<u128, EntryId>) -> bool {
    &&& forall|i: int| 0 <= i < nodes.len() ==> #[trigger] link_in_place(nodes, i)
    &&& forall|i: int|
        0 <= i < nodes.len() ==> (#[trigger] link_key(nodes, i) matches Some(k)
            ==> map.contains_key(k) && map[k].0 <= i)
    &&& forall|k: u128| #[trigger]
        map.contains_key(k) ==> valid_id(nodes, map[k]) && link_key(nodes, map[k].0 as int)
            == Some(k)
}

/// The nodes have the same in them that tells inodes apart.
pub open spec fn same_inodes(a: Seq<Node>, b: Seq<Node>) -> bool {
    &&& a.len() == b.len()
    &&& forall|i: int|
        0 <= i < a.len() ==> match (#[trigger] b[i]).kind {
            NodeKind::Dir(d) => a[i].kind matches NodeKind::Dir(e) && d.dev == e.dev,
            NodeKind::Link(l) => a[i].kind matches NodeKind::Link(k) && l.parent == k.parent
                && l.ino == k.ino,
            NodeKind::File => a[i].kind is File,
        }
}

pub proof fn lemma_same_inodes(a: Seq<Node>, b: Seq<Node>, map: Map<u128, EntryId>)
    requires
        registered(a, map),
        same_inodes(a, b),
    ensures
        registered(b, map),
{
    assert forall|i: int| 0 <= i < b.len() implies link_key(b, i) == #[trigger] link_key(a, i) by {
        assert(b[i].kind is Link ==> a[i].kind is Link);
    }
    assert forall|i: int| 0 <= i < b.len() implies #[trigger] link_in_place(b, i) by {
        assert(link_in_place(a, i));
        assert(b[i].kind is Link ==> a[i].kind is Link);
    }
    assert forall|i: int| 0 <= i < b.len() implies (#[trigger] link_key(b, i) matches Some(k)
        ==> map.contains_key(k) && map[k].0 <= i) by {
        assert(link_key(b, i) == link_key(a, i));
    }
    assert forall|k: u128| #[trigger] map.contains_key(k) implies valid_id(b, map[k]) && link_key(
        b,
        map[k].0 as int,
    ) == Some(k) by {
        assert(link_key(b, map[k].0 as int) == link_key(a, map[k].0 as int));
    }
}

/// A new node that is no Link in a directory leaves the table as it is.
pub proof fn lemma_push_inode(nodes: Seq<Node>, n: Node, map: Map<u128, EntryId>)
    requires
        registered(nodes, map),
        nodes.len() < u32::MAX,
        n.kind matches NodeKind::Link(l) ==> l.parent == EntryId::none(),
    ensures
        registered(nodes.push(n), map),
{
    let more = nodes.push(n);
    assert forall|i: int| 0 <= i < nodes.len() implies link_key(more, i) == #[trigger] link_key(
        nodes,
        i,
    ) by {
        assert(link_in_place(nodes, i));
        assert(more[i] == nodes[i]);
    }
    assert forall|i: int| 0 <= i < more.len() implies (#[trigger] link_key(more, i) matches Some(k)
        ==> map.contains_key(k) && map[k].0 <= i) by {
        if i < nodes.len() {
            assert(link_key(more, i) == link_key(nodes, i));
        }
    }
    assert forall|i: int| 0 <= i < more.len() implies #[trigger] link_in_place(more, i) by {
        if i < nodes.len() {
            assert(link_in_place(nodes, i));
            assert(more[i] == nodes[i]);
        }
    }
    assert forall|k: u128| #[trigger] map.contains_key(k) implies valid_id(more, map[k])
        && link_key(more, map[k].0 as int) == Some(k) by {
        assert(link_key(more, map[k].0 as int) == link_key(nodes, map[k].0 as int));
    }
}

/// The last node of the arena becomes a Link in a directory, and is entered.
pub proof fn lemma_enter_inode(
    a: Seq<Node>,
    b: Seq<Node>,
    dir: EntryId,
    ino: u64,
    map: Map<u128, EntryId>,
)
    requires
        registered(a, map),
        a.len() == b.len(),
        0 < a.len() <= u32::MAX,
        valid_id(a, dir),
        dir.0 < a.len() - 1,
        a[dir.0 as int].kind is Dir,
        link_key(a, a.len() - 1) is None,
        same_inodes(a.drop_last(), b.drop_last()),
        b.last().kind matches NodeKind::Link(l) && l.parent == dir && l.ino == ino,
        forall|i: int|
            0 <= i < a.len() - 1 ==> ((#[trigger] a[i]).kind matches NodeKind::Link(l) ==> l.parent.0
                != a.len() - 1),
    ensures
        registered(
            b,
            with_link(
                map,
                inode_key(a[dir.0 as int].kind->Dir_0.dev, ino),
                EntryId((a.len() - 1) as u32),
            ),
        ),
{
    let last = a.len() - 1;
    let x = EntryId(last as u32);
    let key = inode_key(a[dir.0 as int].kind->Dir_0.dev, ino);
    let now = with_link(map, key, x);
    assert forall|i: int| 0 <= i < last implies match (#[trigger] b[i]).kind {
        NodeKind::Dir(d) => a[i].kind matches NodeKind::Dir(e) && d.dev == e.dev,
        NodeKind::Link(l) => a[i].kind matches NodeKind::Link(k) && l.parent == k.parent && l.ino
            == k.ino,
        NodeKind::File => a[i].kind is File,
    } by {
        assert(b.drop_last()[i] == b[i]);
        assert(a.drop_last()[i] == a[i]);
    }
    assert(b[dir.0 as int].kind is Dir);
    assert(link_key(b, last) == Some(key));
    assert forall|i: int| 0 <= i < last implies link_key(b, i) == #[trigger] link_key(a, i) by {
        assert(link_in_place(a, i));
        assert(b[i].kind is Link ==> a[i].kind is Link);
        if let NodeKind::Link(l) = a[i].kind {
            assert(l.parent.0 != last);
            if valid_id(a, l.parent) {
                assert(b[l.parent.0 as int].kind is Dir <==> a[l.parent.0 as int].kind is Dir);
            }
        }
    }
    assert forall|i: int| 0 <= i < b.len() implies #[trigger] link_in_place(b, i) by {
        if i < last {
            assert(link_in_place(a, i));
            assert(b[i].kind is Link ==> a[i].kind is Link);
            if let NodeKind::Link(l) = a[i].kind {
                assert(l.parent.0 != last);
            }
        }
    }
    assert forall|i: int| 0 <= i < b.len() implies (#[trigger] link_key(b, i) matches Some(k)
        ==> now.contains_key(k) && now[k].0 <= i) by {
        if i < last {
            assert(link_key(b, i) == link_key(a, i));
        }
    }
    assert forall|k: u128| #[trigger] now.contains_key(k) implies valid_id(b, now[k]) && link_key(
        b,
        now[k].0 as int,
    ) == Some(k) by {
        if map.contains_key(k) {
            assert(link_key(a, map[k].0 as int) == Some(k));
            assert(map[k].0 != last);
            assert(link_key(b, map[k].0 as int) == link_key(a, map[k].0 as int));
        }
    }
}

/// The fields for statistics of shared hardlinks are as in a new node.
pub open spec fn spare_unset(n: Node) -> bool {
    match n.kind {
        NodeKind::Dir(d) => d.shared_size == 0 && d.shared_blocks == 0,
        NodeKind::Link(l) => !l.counted,
        NodeKind::File => true,
    }
}

/// Two nodes agree in the fields for statistics of shared hardlinks.
pub open spec fn same_spare(a: Node, b: Node) -> bool {
    match (a.kind, b.kind) {
        (NodeKind::Dir(d), NodeKind::Dir(e)) => {
            &&& d.shared_size == e.shared_size
            &&& d.shared_blocks == e.shared_blocks
        },
        (NodeKind::Link(l), NodeKind::Link(k)) => l.counted == k.counted,
        (NodeKind::File, NodeKind::File) => true,
        _ => false,
    }
}

/// No node of the arena uses the fields for statistics of shared hardlinks.
pub open spec fn all_spare_unset(nodes: Seq<Node>) -> bool {
    forall|i: int| 0 <= i < nodes.len() ==> spare_unset(#[trigger] nodes[i])
}

impl Tree {
    /// The inode table names the first Link of every inode, and no Link waits
    /// to be counted.
    pub open spec fn inodes_ok(&self) -> bool {
        &&& registered(self.nodes@, self.inodes.map@)
        &&& self.inodes.all_counted()
    }
}

} // verus!
