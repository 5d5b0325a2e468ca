//! Subtrees by path, and what is left of a tree once one of them is cut off.

use vstd::prelude::*;

use crate::model::{DirData, EntryCommon, EntryId, Node, NodeKind};
use crate::num::capped32;
use crate::shape::{
    ancestors, body, child_of, entries_of, entry_of, entry_size, entry_sizes, first_child, flat,
    flats, head_of, id_at, linked, nexts, owned, parent_of, parents, shape_size, siblings, sizes,
    step_at, tops, valid_id, Detail, Entry, Head, Shape,
};

verus! {

/// The path names a subtree: which child to take at each step.
pub open spec fn has_path(s: Shape, path: Seq<int>) -> bool
    decreases path.len(),
{
    path.len() > 0 ==> {
        &&& 0 <= path[0] < s.kids.len()
        &&& has_path(s.kids[path[0]], path.skip(1))
    }
}

/// The subtree that a path names.
pub open spec fn at_path(s: Shape, path: Seq<int>) -> Shape
    decreases path.len(),
{
    if path.len() == 0 {
        s
    } else {
        at_path(s.kids[path[0]], path.skip(1))
    }
}

/// The ids along a path, lowest first.
pub open spec fn trail(s: Shape, path: Seq<int>) -> Seq<EntryId>
    decreases path.len(),
{
    if path.len() == 0 {
        seq![s.id]
    } else {
        trail(s.kids[path[0]], path.skip(1)).push(s.id)
    }
}

/// The shape without the subtree that a path names.
pub open spec fn cut(s: Shape, path: Seq<int>) -> Shape
    decreases path.len(),
{
    if path.len() == 0 {
        s
    } else if path.len() == 1 {
        Shape { id: s.id, kids: s.kids.remove(path[0]) }
    } else {
        Shape {
            id: s.id,
            kids: s.kids.update(path[0], cut(s.kids[path[0]], path.skip(1))),
        }
    }
}

/// `a - b`, or zero where that is negative.
pub open spec fn less(a: int, b: int) -> int {
    if a >= b {
        a - b
    } else {
        0
    }
}

/// What is taken from the totals of a directory.
pub struct Amount {
    pub blocks: u64,
    pub size: u64,
    pub items: u32,
}

/// The node with its totals reduced.
pub open spec fn less_node(n: Node, a: Amount) -> Node {
    Node {
        common: EntryCommon {
            blocks: less(n.common.blocks as int, a.blocks as int) as u64,
            size: less(n.common.size as int, a.size as int) as u64,
            ..n.common
        },
        kind: match n.kind {
            NodeKind::Dir(d) => NodeKind::Dir(
                DirData { items: less(d.items as int, a.items as int) as u32, ..d },
            ),
            kind => kind,
        },
    }
}

/// What an entry says of itself, with its totals reduced.
pub open spec fn less_head(h: Head, a: Amount) -> Head {
    Head {
        blocks: less(h.blocks as int, a.blocks as int) as u64,
        size: less(h.size as int, a.size as int) as u64,
        detail: match h.detail {
            Detail::Dir { items, dev, err, suberr } => Detail::Dir {
                items: less(items as int, a.items as int) as u32,
                dev,
                err,
                suberr,
            },
            d => d,
        },
        ..h
    }
}

/// The tree without the subtree that a path names, and with the totals of the
/// directories above it reduced.
pub open spec fn pruned(e: Entry, path: Seq<int>, a: Amount) -> Entry
    decreases path.len(),
{
    if path.len() == 0 {
        e
    } else if path.len() == 1 {
        Entry { head: less_head(e.head, a), children: e.children.remove(path[0]) }
    } else {
        Entry {
            head: less_head(e.head, a),
            children: e.children.update(
                path[0],
                pruned(e.children[path[0]], path.skip(1), a),
            ),
        }
    }
}

/// The arena once the `i`-th of the children `ids` of `dir` has been unlinked.
pub open spec fn unlinked(nodes: Seq<Node>, dir: EntryId, ids: Seq<EntryId>, i: int) -> Seq<Node> {
    let after = id_at(ids, i + 1);
    if i == 0 {
        let n = nodes[dir.0 as int];
        nodes.update(
            dir.0 as int,
            match n.kind {
                NodeKind::Dir(d) => Node {
                    kind: NodeKind::Dir(DirData { sub: after, ..d }),
                    ..n
                },
                _ => n,
            },
        )
    } else {
        let before = ids[i - 1].0 as int;
        let n = nodes[before];
        nodes.update(before, Node { common: EntryCommon { next: after, ..n.common }, ..n })
    }
}

/// One of the ids is that of the node at index `i`.
pub open spec fn among(ids: Seq<EntryId>, i: int) -> bool {
    exists|j: int| 0 <= j < ids.len() && (#[trigger] ids[j]).0 == i
}

/// The arena with the totals of some nodes reduced.
pub open spec fn lessened(nodes: Seq<Node>, ids: Seq<EntryId>, a: Amount) -> Seq<Node> {
    Seq::new(
        nodes.len(),
        |i: int|
            if among(ids, i) {
                less_node(nodes[i], a)
            } else {
                nodes[i]
            },
    )
}

/// A subtree reads only its own nodes, and of the node at its top it does not
/// read the sibling.
pub proof fn lemma_same(a: Seq<Node>, b: Seq<Node>, s: Shape)
    requires
        linked(a, s),
        owned(a, s),
        a.len() == b.len(),
        body(a[s.id.0 as int]) == body(b[s.id.0 as int]),
        forall|id: EntryId|
            flat(s).contains(id) && id != s.id ==> b[id.0 as int] == #[trigger] a[id.0 as int],
        flat(s).no_duplicates(),
    ensures
        linked(b, s),
        owned(b, s),
        forall|devices: Seq<u64>| #[trigger] entry_of(b, devices, s) == entry_of(a, devices, s),
    decreases s,
{
    let ids = tops(s.kids);
    assert forall|i: int| 0 <= i < s.kids.len() implies {
        &&& linked(b, #[trigger] s.kids[i])
        &&& owned(b, s.kids[i])
        &&& child_of(b[s.kids[i].id.0 as int], s.id)
        &&& step_at(nexts(b), ids, i)
        &&& forall|devices: Seq<u64>| #[trigger]
            entry_of(b, devices, s.kids[i]) == entry_of(a, devices, s.kids[i])
    } by {
        let k = s.kids[i];
        lemma_kid_flat(s, i);
        assert(linked(a, k));
        assert(step_at(nexts(a), ids, i));
        assert(flat(k)[0] == k.id);
        assert(flat(k).contains(k.id));
        assert(flat(s).contains(k.id) && k.id != s.id);
        assert(b[k.id.0 as int] == a[k.id.0 as int]);
        assert forall|id: EntryId| flat(k).contains(id) && id != k.id implies b[id.0 as int]
            == #[trigger] a[id.0 as int] by {
            assert(flat(s).contains(id) && id != s.id);
        }
        lemma_same(a, b, k);
    }
    assert(first_child(a[s.id.0 as int]) == first_child(body(a[s.id.0 as int])));
    assert(first_child(b[s.id.0 as int]) == first_child(body(b[s.id.0 as int])));
    assert forall|i: int| 0 <= i < ids.len() implies #[trigger] step_at(nexts(b), ids, i) by {
        assert(linked(b, s.kids[i]));
    }
    assert forall|devices: Seq<u64>| #[trigger]
        entry_of(b, devices, s) == entry_of(a, devices, s) by {
        assert forall|i: int| 0 <= i < s.kids.len() implies entries_of(b, devices, s.kids)[i]
            == entries_of(a, devices, s.kids)[i] by {
            assert(linked(b, s.kids[i]));
            assert(entry_of(b, devices, s.kids[i]) == entry_of(a, devices, s.kids[i]));
        }
        assert(entries_of(b, devices, s.kids) =~= entries_of(a, devices, s.kids));
        let i = s.id.0 as int;
        assert(head_of(a[i], devices) == head_of(body(a[i]), devices));
        assert(head_of(b[i], devices) == head_of(body(b[i]), devices));
    }
}

/// The ids of a linked shape point into the arena.
pub proof fn lemma_flat_valid(nodes: Seq<Node>, s: Shape)
    requires
        linked(nodes, s),
    ensures
        forall|id: EntryId| #[trigger] flat(s).contains(id) ==> valid_id(nodes, id),
    decreases s, 0nat,
{
    lemma_flats_valid(nodes, s, s.kids.len());
    assert forall|id: EntryId| #[trigger] flat(s).contains(id) implies valid_id(nodes, id) by {
        let i = choose|i: int| 0 <= i < flat(s).len() && flat(s)[i] == id;
        if i > 0 {
            assert(flats(s.kids, s.kids.len())[i - 1] == id);
            assert(flats(s.kids, s.kids.len()).contains(id));
        }
    }
}

proof fn lemma_flats_valid(nodes: Seq<Node>, s: Shape, n: nat)
    requires
        linked(nodes, s),
        n <= s.kids.len(),
    ensures
        forall|id: EntryId| #[trigger] flats(s.kids, n).contains(id) ==> valid_id(nodes, id),
    decreases s.kids, n,
{
    if n > 0 {
        let m = (n - 1) as nat;
        lemma_flats_valid(nodes, s, m);
        assert(linked(nodes, s.kids[n - 1]));
        lemma_flat_valid(nodes, s.kids[n - 1]);
        let all = flats(s.kids, n);
        assert forall|id: EntryId| #[trigger] all.contains(id) implies valid_id(nodes, id) by {
            let i = choose|i: int| 0 <= i < all.len() && all[i] == id;
            let front = flats(s.kids, m);
            if i < front.len() {
                assert(front[i] == id);
                assert(front.contains(id));
            } else {
                assert(flat(s.kids[n - 1])[i - front.len()] == id);
                assert(flat(s.kids[n - 1]).contains(id));
            }
        }
    }
}

/// Where the ids of a child stand among those of its parent.
proof fn lemma_kid_range(kids: Seq<Shape>, i: int, n: nat)
    requires
        0 <= i < n <= kids.len(),
    ensures
        flats(kids, i as nat).len() + flat(kids[i]).len() <= flats(kids, n).len(),
        forall|j: int|
            0 <= j < flat(kids[i]).len() ==> flats(kids, n)[flats(kids, i as nat).len() + j]
                == #[trigger] flat(kids[i])[j],
    decreases n,
{
    let m = (n - 1) as nat;
    let start = flats(kids, i as nat).len() as int;
    assert(flats(kids, n) == flats(kids, m) + flat(kids[n - 1]));
    if i < m {
        lemma_kid_range(kids, i, m);
        assert forall|j: int| 0 <= j < flat(kids[i]).len() implies flats(kids, n)[start + j]
            == #[trigger] flat(kids[i])[j] by {
            assert(flats(kids, m)[start + j] == flat(kids[i])[j]);
        }
    }
}

/// The ids of a child are ids of its parent, distinct, and other than the
/// parent's own.
pub proof fn lemma_kid_flat(s: Shape, i: int)
    requires
        0 <= i < s.kids.len(),
        flat(s).no_duplicates(),
    ensures
        flat(s.kids[i]).no_duplicates(),
        forall|id: EntryId| #[trigger]
            flat(s.kids[i]).contains(id) ==> flat(s).contains(id) && id != s.id,
{
    let k = flat(s.kids[i]);
    let all = flats(s.kids, s.kids.len());
    let start = flats(s.kids, i as nat).len() as int;
    lemma_kid_range(s.kids, i, s.kids.len());
    assert(flat(s) == seq![s.id] + all);
    assert forall|j: int| 0 <= j < k.len() implies flat(s)[1 + start + j] == #[trigger] k[j] by {
        assert(all[start + j] == k[j]);
    }
    assert forall|x: int, y: int| 0 <= x < k.len() && 0 <= y < k.len() && x != y implies k[x]
        != k[y] by {
        assert(flat(s)[1 + start + x] == k[x]);
        assert(flat(s)[1 + start + y] == k[y]);
    }
    assert forall|id: EntryId| #[trigger] k.contains(id) implies flat(s).contains(id) && id
        != s.id by {
        let j = choose|j: int| 0 <= j < k.len() && k[j] == id;
        assert(flat(s)[1 + start + j] == k[j]);
        assert(flat(s)[0] == s.id);
    }
}

/// Two children have no id in common.
pub proof fn lemma_kids_apart(s: Shape, i: int, j: int, id: EntryId)
    requires
        0 <= i < s.kids.len(),
        0 <= j < s.kids.len(),
        i != j,
        flat(s).no_duplicates(),
        flat(s.kids[i]).contains(id),
    ensures
        !flat(s.kids[j]).contains(id),
{
    let n = s.kids.len();
    let all = flats(s.kids, n);
    lemma_kid_range(s.kids, i, n);
    lemma_kid_range(s.kids, j, n);
    let x = choose|x: int| 0 <= x < flat(s.kids[i]).len() && flat(s.kids[i])[x] == id;
    if flat(s.kids[j]).contains(id) {
        let y = choose|y: int| 0 <= y < flat(s.kids[j]).len() && flat(s.kids[j])[y] == id;
        let p = flats(s.kids, i as nat).len() as int;
        let q = flats(s.kids, j as nat).len() as int;
        assert(all[p + x] == flat(s.kids[i])[x]);
        assert(all[q + y] == flat(s.kids[j])[y]);
        if i < j {
            lemma_kid_range(s.kids, i, j as nat);
        } else {
            lemma_kid_range(s.kids, j, i as nat);
        }
        assert(p + x != q + y);
        assert(flat(s)[1 + p + x] == all[p + x]);
        assert(flat(s)[1 + q + y] == all[q + y]);
    }
}

/// The subtree that a path names lies within the tree.
pub proof fn lemma_path_flat(s: Shape, path: Seq<int>)
    requires
        has_path(s, path),
        flat(s).no_duplicates(),
    ensures
        flat(at_path(s, path)).no_duplicates(),
        flat(s).contains(at_path(s, path).id),
        forall|id: EntryId| #[trigger]
            flat(at_path(s, path)).contains(id) ==> flat(s).contains(id),
        forall|id: EntryId| #[trigger] trail(s, path).contains(id) ==> flat(s).contains(id),
        trail(s, path).contains(s.id),
    decreases path.len(),
{
    assert(flat(s)[0] == s.id);
    assert(flat(s).contains(s.id));
    let t = trail(s, path);
    if path.len() > 0 {
        let kid = s.kids[path[0]];
        lemma_kid_flat(s, path[0]);
        lemma_path_flat(kid, path.skip(1));
        let below = trail(kid, path.skip(1));
        assert forall|id: EntryId| #[trigger] t.contains(id) implies flat(s).contains(id) by {
            let i = choose|i: int| 0 <= i < t.len() && t[i] == id;
            if i < below.len() {
                assert(below[i] == id);
                assert(below.contains(id));
                assert(flat(kid).contains(id));
            }
        }
        assert(t[t.len() - 1] == s.id);
    } else {
        assert(t[0] == s.id);
    }
}

pub proof fn lemma_linked_path(nodes: Seq<Node>, s: Shape, path: Seq<int>)
    requires
        has_path(s, path),
        linked(nodes, s),
        owned(nodes, s),
    ensures
        linked(nodes, at_path(s, path)),
        owned(nodes, at_path(s, path)),
    decreases path.len(),
{
    if path.len() > 0 {
        assert(linked(nodes, s.kids[path[0]]));
        lemma_linked_path(nodes, s.kids[path[0]], path.skip(1));
    }
}

/// A node with children is a directory.
pub proof fn lemma_parent_is_dir(nodes: Seq<Node>, s: Shape, i: int)
    requires
        linked(nodes, s),
        0 <= i < s.kids.len(),
    ensures
        nodes[s.id.0 as int].kind is Dir,
{
    assert(linked(nodes, s.kids[0]));
    assert(tops(s.kids)[0] == s.kids[0].id);
    assert(step_at(nexts(nodes), tops(s.kids), 0));
}

/// How the arena looks after a subtree of `s` has been cut off, as far as the
/// nodes of `s` go: the last step of the path is unlinked from the directory
/// before it, and the totals along the way there are reduced.
pub open spec fn cut_off(
    a: Seq<Node>,
    b: Seq<Node>,
    s: Shape,
    path: Seq<int>,
    line: Seq<EntryId>,
    amount: Amount,
) -> bool {
    let way = path.drop_last();
    let p = at_path(s, way);
    let u = unlinked(a, p.id, tops(p.kids), path.last());
    &&& a.len() == b.len()
    &&& forall|id: EntryId|
        #![trigger b[id.0 as int]]
        #![trigger flat(s).contains(id)]
        flat(s).contains(id) ==> {
            &&& line.contains(id) <==> trail(s, way).contains(id)
            &&& b[id.0 as int] == (if line.contains(id) {
                less_node(u[id.0 as int], amount)
            } else {
                u[id.0 as int]
            })
        }
}

/// A child that the path does not lead through stays as it is.
proof fn lemma_other_kid(
    a: Seq<Node>,
    b: Seq<Node>,
    s: Shape,
    path: Seq<int>,
    line: Seq<EntryId>,
    amount: Amount,
    j: int,
)
    requires
        linked(a, s),
        owned(a, s),
        flat(s).no_duplicates(),
        path.len() > 0,
        has_path(s, path),
        cut_off(a, b, s, path, line, amount),
        0 <= j < s.kids.len(),
        j != path[0],
    ensures
        linked(b, s.kids[j]),
        owned(b, s.kids[j]),
        b[s.kids[j].id.0 as int] == (if path.len() == 1 && j == path[0] - 1 {
            let n = a[s.kids[j].id.0 as int];
            Node {
                common: EntryCommon { next: id_at(tops(s.kids), path[0] + 1), ..n.common },
                ..n
            }
        } else {
            a[s.kids[j].id.0 as int]
        }),
        forall|devices: Seq<u64>| #[trigger]
            entry_of(b, devices, s.kids[j]) == entry_of(a, devices, s.kids[j]),
{
    let way = path.drop_last();
    let p = at_path(s, way);
    let i = path.last();
    let u = unlinked(a, p.id, tops(p.kids), i);
    let k = s.kids[j];
    lemma_kid_flat(s, j);
    lemma_way(s, path);
    lemma_path_flat(s, way);
    lemma_linked_path(a, s, way);
    lemma_flat_valid(a, s);
    if i > 0 {
        assert(linked(a, p.kids[i - 1]));
    }
    if path.len() == 1 {
        assert(way =~= Seq::empty());
        assert(path[0] == path.last());
    }
    assert(flat(k)[0] == k.id);
    assert(flat(k).contains(k.id));
    assert forall|id: EntryId| flat(k).contains(id) implies b[id.0 as int] == (if path.len() == 1
        && j == path[0] - 1 && id == k.id {
        Node {
            common: EntryCommon {
                next: id_at(tops(s.kids), path[0] + 1),
                ..a[id.0 as int].common
            },
            ..a[id.0 as int]
        }
    } else {
        #[trigger] a[id.0 as int]
    }) by {
        assert(flat(s).contains(id) && id != s.id);
        assert(b[id.0 as int] == (if line.contains(id) {
            less_node(u[id.0 as int], amount)
        } else {
            u[id.0 as int]
        }));
        if path.len() == 1 {
            assert(way =~= Seq::empty());
            assert(trail(s, way) =~= seq![s.id]);
            assert(!trail(s, way).contains(id));
            if i > 0 {
                let before = s.kids[i - 1];
                assert(tops(p.kids)[i - 1] == before.id);
                assert(flat(before)[0] == before.id);
                if j != i - 1 && id == before.id {
                    assert(flat(before).contains(id));
                    lemma_kids_apart(s, i - 1, j, id);
                }
            }
        } else {
            let kid = s.kids[path[0]];
            lemma_kid_flat(s, path[0]);
            lemma_way(kid, path.skip(1));
            let rest = path.skip(1).drop_last();
            assert(way.skip(1) =~= rest);
            assert(way[0] == path[0]);
            lemma_path_flat(kid, rest);
            assert(p == at_path(kid, rest));
            let below = trail(kid, rest);
            if trail(s, way).contains(id) {
                let x = choose|x: int| 0 <= x < trail(s, way).len() && trail(s, way)[x] == id;
                assert(trail(s, way) == below.push(s.id));
                assert(below[x] == id);
                assert(below.contains(id));
                assert(flat(kid).contains(id));
                lemma_kids_apart(s, path[0], j, id);
            }
            if id == p.id {
                lemma_kids_apart(s, path[0], j, id);
            }
            if i > 0 {
                let before = p.kids[i - 1];
                assert(tops(p.kids)[i - 1] == before.id);
                lemma_kid_flat(p, i - 1);
                assert(flat(before)[0] == before.id);
                assert(flat(before).contains(before.id));
                assert(flat(p).contains(before.id));
                assert(flat(kid).contains(before.id));
                if id == before.id {
                    lemma_kids_apart(s, path[0], j, id);
                }
            }
        }
    }
    assert(linked(a, k));
    lemma_same(a, b, k);
}

/// All steps of a path but the last are a path to a directory in which the
/// last one is a child.
pub proof fn lemma_way(s: Shape, path: Seq<int>)
    requires
        path.len() > 0,
        has_path(s, path),
    ensures
        has_path(s, path.drop_last()),
        0 <= path.last() < at_path(s, path.drop_last()).kids.len(),
        at_path(s, path) == at_path(s, path.drop_last()).kids[path.last()],
    decreases path.len(),
{
    if path.len() > 1 {
        let kid = s.kids[path[0]];
        lemma_way(kid, path.skip(1));
        assert(path.drop_last().skip(1) =~= path.skip(1).drop_last());
        assert(path.skip(1).last() == path.last());
    } else {
        assert(path.skip(1) =~= Seq::empty());
        assert(path.drop_last() =~= Seq::empty());
        assert(at_path(s.kids[path[0]], path.skip(1)) == s.kids[path[0]]);
    }
}

/// The ids of a list of shapes in which one has been replaced.
proof fn lemma_flats_update(kids: Seq<Shape>, i: int, t: Shape, n: nat)
    requires
        0 <= i < kids.len(),
        n <= kids.len(),
    ensures
        n <= i ==> flats(kids.update(i, t), n) == flats(kids, n),
        n > i ==> {
            let upto = flats(kids, i as nat).len() as int;
            let room = flat(kids[i]).len() as int;
            &&& upto + room <= flats(kids, n).len()
            &&& flats(kids.update(i, t), n) == flats(kids, i as nat) + flat(t) + flats(
                kids,
                n,
            ).skip(upto + room)
            &&& flats(kids, n).take(upto) == flats(kids, i as nat)
        },
    decreases n,
{
    let new = kids.update(i, t);
    if n > 0 {
        let m = (n - 1) as nat;
        lemma_flats_update(kids, i, t, m);
        let upto = flats(kids, i as nat).len() as int;
        let room = flat(kids[i]).len() as int;
        assert(flats(kids, n) == flats(kids, m) + flat(kids[n - 1]));
        assert(flats(new, n) == flats(new, m) + flat(new[n - 1]));
        if m == i {
            assert(flats(kids, n).skip(upto + room) =~= Seq::empty());
            assert(flats(new, n) =~= flats(kids, i as nat) + flat(t) + flats(kids, n).skip(
                upto + room,
            ));
            assert(flats(kids, n).take(upto) =~= flats(kids, i as nat));
        } else if m > i {
            assert(flats(kids, n).skip(upto + room) =~= flats(kids, m).skip(upto + room) + flat(
                kids[n - 1],
            ));
            assert(flats(new, n) =~= flats(kids, i as nat) + flat(t) + flats(kids, n).skip(
                upto + room,
            ));
            assert(flats(kids, n).take(upto) =~= flats(kids, m).take(upto));
        }
    }
}

/// The ids of a list of shapes from which one has been removed.
proof fn lemma_flats_remove(kids: Seq<Shape>, i: int, n: nat)
    requires
        0 <= i < kids.len(),
        n <= kids.len(),
    ensures
        n <= i ==> flats(kids.remove(i), n) == flats(kids, n),
        n > i ==> {
            let upto = flats(kids, i as nat).len() as int;
            let room = flat(kids[i]).len() as int;
            &&& upto + room <= flats(kids, n).len()
            &&& flats(kids.remove(i), (n - 1) as nat) == flats(kids, i as nat) + flats(
                kids,
                n,
            ).skip(upto + room)
            &&& flats(kids, n).take(upto) == flats(kids, i as nat)
        },
    decreases n,
{
    let new = kids.remove(i);
    if n > 0 {
        let m = (n - 1) as nat;
        lemma_flats_remove(kids, i, m);
        let upto = flats(kids, i as nat).len() as int;
        let room = flat(kids[i]).len() as int;
        assert(flats(kids, n) == flats(kids, m) + flat(kids[n - 1]));
        if m < i {
            assert(new[n - 1] == kids[n - 1]);
            assert(flats(new, n) == flats(new, m) + flat(new[n - 1]));
        } else if m == i {
            assert(flats(kids, n).skip(upto + room) =~= Seq::empty());
            assert(flats(new, m) =~= flats(kids, i as nat) + flats(kids, n).skip(upto + room));
            assert(flats(kids, n).take(upto) =~= flats(kids, i as nat));
        } else {
            let l = (m - 1) as nat;
            assert(new[m - 1] == kids[n - 1]);
            assert(flats(new, m) == flats(new, l) + flat(new[m - 1]));
            assert(flats(kids, n).skip(upto + room) =~= flats(kids, m).skip(upto + room) + flat(
                kids[n - 1],
            ));
            assert(flats(new, m) =~= flats(kids, i as nat) + flats(kids, n).skip(upto + room));
            assert(flats(kids, n).take(upto) =~= flats(kids, m).take(upto));
        }
    }
}

/// Cutting off a subtree takes a stretch out of the ids.
proof fn lemma_cut_flat(s: Shape, path: Seq<int>) -> (r: (int, int))
    requires
        path.len() > 0,
        has_path(s, path),
    ensures
        1 <= r.0 <= r.1 <= flat(s).len(),
        flat(cut(s, path)) == flat(s).take(r.0) + flat(s).skip(r.1),
    decreases path.len(),
{
    let i = path[0];
    let kid = s.kids[i];
    let n = s.kids.len();
    let all = flats(s.kids, n);
    let upto = flats(s.kids, i as nat).len() as int;
    let room = flat(kid).len() as int;
    assert(flat(s) == seq![s.id] + all);
    if path.len() == 1 {
        lemma_flats_remove(s.kids, i, n);
        assert(flat(cut(s, path)) =~= flat(s).take(1 + upto) + flat(s).skip(1 + upto + room)) by {
            assert(flat(s).take(1 + upto) =~= seq![s.id] + all.take(upto));
            assert(flat(s).skip(1 + upto + room) =~= all.skip(upto + room));
        }
        (1 + upto, 1 + upto + room)
    } else {
        let t = cut(kid, path.skip(1));
        let (x, y) = lemma_cut_flat(kid, path.skip(1));
        lemma_flats_update(s.kids, i, t, n);
        lemma_kid_range(s.kids, i, n);
        let from = 1 + upto;
        assert(flat(s).subrange(from, from + room) =~= flat(kid)) by {
            assert forall|j: int| 0 <= j < room implies flat(s)[from + j]
                == #[trigger] flat(kid)[j] by {
                assert(all[upto + j] == flat(kid)[j]);
            }
        }
        assert(flat(cut(s, path)) =~= flat(s).take(from + x) + flat(s).skip(from + y)) by {
            assert(flat(s).take(from + x) =~= seq![s.id] + all.take(upto) + flat(kid).take(x)) by {
                assert forall|j: int| 0 <= j < x implies flat(s)[from + j] == #[trigger] flat(
                    kid,
                )[j] by {
                    assert(flat(s).subrange(from, from + room)[j] == flat(kid)[j]);
                }
            }
            assert(flat(s).skip(from + y) =~= flat(kid).skip(y) + all.skip(upto + room)) by {
                assert forall|j: int| y <= j < room implies flat(s)[from + j] == #[trigger] flat(
                    kid,
                )[j] by {
                    assert(flat(s).subrange(from, from + room)[j] == flat(kid)[j]);
                }
            }
            assert(flat(cut(s, path)) =~= seq![s.id] + (all.take(upto) + (flat(kid).take(x) + flat(
                kid,
            ).skip(y)) + all.skip(upto + room)));
        }
        (from + x, from + y)
    }
}

/// What is left after a cut visits no node twice.
proof fn lemma_cut_distinct(s: Shape, path: Seq<int>)
    requires
        path.len() > 0,
        has_path(s, path),
        flat(s).no_duplicates(),
    ensures
        flat(cut(s, path)).no_duplicates(),
{
    let (x, y) = lemma_cut_flat(s, path);
    let f = flat(cut(s, path));
    let all = flat(s);
    assert forall|i: int, j: int| 0 <= i < f.len() && 0 <= j < f.len() && i != j implies f[i]
        != f[j] by {
        let p = if i < x {
            i
        } else {
            i - x + y
        };
        let q = if j < x {
            j
        } else {
            j - x + y
        };
        assert(f[i] == all[p]);
        assert(f[j] == all[q]);
    }
}

/// The node at the top of a tree from which a subtree has been cut off.
proof fn lemma_cut_top(
    a: Seq<Node>,
    b: Seq<Node>,
    s: Shape,
    path: Seq<int>,
    line: Seq<EntryId>,
    amount: Amount,
)
    requires
        linked(a, s),
        owned(a, s),
        flat(s).no_duplicates(),
        path.len() > 0,
        has_path(s, path),
        cut_off(a, b, s, path, line, amount),
    ensures
        ({
            let i = s.id.0 as int;
            let n = less_node(a[i], amount);
            &&& a[i].kind is Dir
            &&& b[i] == (if path.len() == 1 && path[0] == 0 {
                Node {
                    kind: NodeKind::Dir(
                        DirData { sub: id_at(tops(s.kids), 1), ..n.kind->Dir_0 },
                    ),
                    ..n
                }
            } else {
                n
            })
        }),
{
    let way = path.drop_last();
    let p = at_path(s, way);
    let i = path.last();
    let u = unlinked(a, p.id, tops(p.kids), i);
    lemma_parent_is_dir(a, s, path[0]);
    lemma_way(s, path);
    lemma_path_flat(s, way);
    lemma_linked_path(a, s, way);
    lemma_flat_valid(a, s);
    assert(flat(s)[0] == s.id);
    assert(flat(s).contains(s.id));
    assert(b[s.id.0 as int] == less_node(u[s.id.0 as int], amount));
    if i > 0 {
        let before = p.kids[i - 1];
        assert(linked(a, before));
        assert(tops(p.kids)[i - 1] == before.id);
        lemma_kid_flat(p, i - 1);
        assert(flat(before)[0] == before.id);
        assert(flat(before).contains(before.id));
    }
    if path.len() == 1 {
        assert(way =~= Seq::empty());
        assert(path[0] == path.last());
    } else {
        let kid = s.kids[path[0]];
        lemma_kid_flat(s, path[0]);
        let rest = way.skip(1);
        assert(way[0] == path[0]);
        lemma_path_flat(kid, rest);
        assert(flat(kid).contains(p.id));
        if i > 0 {
            assert(flat(p).contains(p.kids[i - 1].id));
            assert(flat(kid).contains(p.kids[i - 1].id));
        }
    }
}

/// What is left of a tree from which a subtree has been cut off.
pub proof fn lemma_pruned(
    a: Seq<Node>,
    b: Seq<Node>,
    s: Shape,
    path: Seq<int>,
    line: Seq<EntryId>,
    amount: Amount,
)
    requires
        linked(a, s),
        owned(a, s),
        flat(s).no_duplicates(),
        path.len() > 0,
        has_path(s, path),
        cut_off(a, b, s, path, line, amount),
    ensures
        linked(b, cut(s, path)),
        owned(b, cut(s, path)),
        flat(cut(s, path)).no_duplicates(),
        cut(s, path).id == s.id,
        b[s.id.0 as int].common.next == a[s.id.0 as int].common.next,
        forall|p: EntryId|
            child_of(a[s.id.0 as int], p) ==> #[trigger] child_of(b[s.id.0 as int], p),
        forall|devices: Seq<u64>| #[trigger]
            entry_of(b, devices, cut(s, path)) == pruned(
                entry_of(a, devices, s),
                path,
                amount,
            ),
    decreases path.len(),
{
    let i = path[0];
    let t = cut(s, path);
    let ids = tops(s.kids);
    let now = tops(t.kids);
    lemma_cut_top(a, b, s, path, line, amount);
    lemma_cut_distinct(s, path);
    if path.len() == 1 {
        assert(path.last() == i);
        assert(now =~= ids.remove(i));
        assert forall|j: int| 0 <= j < t.kids.len() implies {
            &&& linked(b, #[trigger] t.kids[j])
            &&& owned(b, t.kids[j])
            &&& child_of(b[t.kids[j].id.0 as int], t.id)
            &&& step_at(nexts(b), now, j)
            &&& forall|devices: Seq<u64>| #[trigger]
                entry_of(b, devices, t.kids[j]) == entry_of(a, devices, t.kids[j])
        } by {
            let k = if j < i {
                j
            } else {
                j + 1
            };
            assert(t.kids[j] == s.kids[k]);
            lemma_other_kid(a, b, s, path, line, amount, k);
            assert(linked(a, s.kids[k]));
            assert(child_of(a[s.kids[k].id.0 as int], s.id));
            assert(step_at(nexts(a), ids, k));
            assert(now[j] == ids[k]);
        }
        assert forall|j: int| 0 <= j < now.len() implies #[trigger] step_at(nexts(b), now, j) by {
            assert(linked(b, t.kids[j]));
        }
        assert(siblings(b, first_child(b[s.id.0 as int]), now));
        assert forall|devices: Seq<u64>| #[trigger]
            entry_of(b, devices, t) == pruned(entry_of(a, devices, s), path, amount) by {
            let want = entries_of(a, devices, s.kids).remove(i);
            assert forall|j: int| 0 <= j < t.kids.len() implies entries_of(
                b,
                devices,
                t.kids,
            )[j] == want[j] by {
                assert(linked(b, t.kids[j]));
                assert(entry_of(b, devices, t.kids[j]) == entry_of(a, devices, t.kids[j]));
            }
            assert(entries_of(b, devices, t.kids) =~= want);
            assert(head_of(b[s.id.0 as int], devices) == less_head(
                head_of(a[s.id.0 as int], devices),
                amount,
            ));
        }
    } else {
        let kid = s.kids[i];
        let rest = path.skip(1);
        lemma_kid_flat(s, i);
        assert(linked(a, kid));
        assert(cut_off(a, b, kid, rest, line, amount)) by {
            lemma_cut_below(a, b, s, path, line, amount);
        }
        lemma_pruned(a, b, kid, rest, line, amount);
        assert(now =~= ids);
        assert forall|j: int| 0 <= j < t.kids.len() implies {
            &&& linked(b, #[trigger] t.kids[j])
            &&& owned(b, t.kids[j])
            &&& child_of(b[t.kids[j].id.0 as int], t.id)
            &&& step_at(nexts(b), now, j)
        } by {
            assert(linked(a, s.kids[j]));
            assert(child_of(a[s.kids[j].id.0 as int], s.id));
            assert(step_at(nexts(a), ids, j));
            if j != i {
                lemma_other_kid(a, b, s, path, line, amount, j);
            }
        }
        assert forall|j: int| 0 <= j < now.len() implies #[trigger] step_at(nexts(b), now, j) by {
            assert(linked(b, t.kids[j]));
        }
        assert(siblings(b, first_child(b[s.id.0 as int]), now));
        assert forall|devices: Seq<u64>| #[trigger]
            entry_of(b, devices, t) == pruned(entry_of(a, devices, s), path, amount) by {
            let was = entries_of(a, devices, s.kids);
            let want = was.update(i, pruned(was[i], rest, amount));
            assert forall|j: int| 0 <= j < t.kids.len() implies entries_of(
                b,
                devices,
                t.kids,
            )[j] == want[j] by {
                if j != i {
                    lemma_other_kid(a, b, s, path, line, amount, j);
                    assert(entry_of(b, devices, s.kids[j]) == entry_of(a, devices, s.kids[j]));
                } else {
                    assert(entry_of(b, devices, cut(kid, rest)) == pruned(
                        entry_of(a, devices, kid),
                        rest,
                        amount,
                    ));
                }
            }
            assert(entries_of(b, devices, t.kids) =~= want);
            assert(head_of(b[s.id.0 as int], devices) == less_head(
                head_of(a[s.id.0 as int], devices),
                amount,
            ));
        }
    }
}

/// What a cut means for the child that the path leads through.
proof fn lemma_cut_below(
    a: Seq<Node>,
    b: Seq<Node>,
    s: Shape,
    path: Seq<int>,
    line: Seq<EntryId>,
    amount: Amount,
)
    requires
        flat(s).no_duplicates(),
        path.len() > 1,
        has_path(s, path),
        cut_off(a, b, s, path, line, amount),
    ensures
        cut_off(a, b, s.kids[path[0]], path.skip(1), line, amount),
{
    let kid = s.kids[path[0]];
    let rest = path.skip(1);
    let way = path.drop_last();
    assert(way.skip(1) =~= rest.drop_last());
    assert(rest.last() == path.last());
    assert(way[0] == path[0]);
    let below = trail(kid, rest.drop_last());
    assert(trail(s, way) == below.push(s.id));
    lemma_kid_flat(s, path[0]);
    assert forall|id: EntryId|
        #![trigger b[id.0 as int]]
        flat(kid).contains(id) implies (line.contains(id) <==> below.contains(id)) by {
        assert(flat(s).contains(id) && id != s.id);
        assert(line.contains(id) <==> trail(s, way).contains(id));
        if below.contains(id) {
            let x = choose|x: int| 0 <= x < below.len() && below[x] == id;
            assert(trail(s, way)[x] == id);
        }
        if trail(s, way).contains(id) {
            let x = choose|x: int| 0 <= x < trail(s, way).len() && trail(s, way)[x] == id;
            assert(below[x] == id);
        }
    }
}

/// The ids along a path are distinct.
pub proof fn lemma_trail_distinct(s: Shape, path: Seq<int>)
    requires
        has_path(s, path),
        flat(s).no_duplicates(),
    ensures
        trail(s, path).no_duplicates(),
    decreases path.len(),
{
    if path.len() > 0 {
        let kid = s.kids[path[0]];
        let below = trail(kid, path.skip(1));
        let t = trail(s, path);
        lemma_kid_flat(s, path[0]);
        lemma_trail_distinct(kid, path.skip(1));
        lemma_path_flat(kid, path.skip(1));
        assert forall|i: int, j: int| 0 <= i < t.len() && 0 <= j < t.len() && i != j implies t[i]
            != t[j] by {
            if i < below.len() {
                assert(below.contains(below[i]));
            }
            if j < below.len() {
                assert(below.contains(below[j]));
            }
        }
    }
}

/// The ids along a path are the line of ancestors of the directory at its end.
pub proof fn lemma_trail_line(nodes: Seq<Node>, s: Shape, path: Seq<int>, up: Seq<EntryId>)
    requires
        linked(nodes, s),
        owned(nodes, s),
        has_path(s, path),
        nodes[at_path(s, path).id.0 as int].kind is Dir,
        ancestors(nodes, parent_of(nodes[s.id.0 as int], false), up, false),
    ensures
        ancestors(nodes, at_path(s, path).id, trail(s, path) + up, false),
    decreases path.len(),
{
    let links = parents(nodes, false);
    let above = seq![s.id] + up;
    assert forall|i: int| 0 <= i < above.len() implies #[trigger] step_at(links, above, i) by {
        if i > 0 {
            assert(step_at(links, up, i - 1));
            assert(above[i] == up[i - 1]);
        }
    }
    if path.len() == 0 {
        assert(trail(s, path) + up =~= above);
    } else {
        let kid = s.kids[path[0]];
        let rest = path.skip(1);
        assert(linked(nodes, kid));
        assert(child_of(nodes[kid.id.0 as int], s.id));
        assert(has_path(kid, rest));
        assert(at_path(s, path) == at_path(kid, rest));
        if rest.len() > 0 {
            lemma_parent_is_dir(nodes, kid, rest[0]);
        } else {
            assert(at_path(kid, rest) == kid);
        }
        assert(parent_of(nodes[kid.id.0 as int], false) == s.id);
        assert(ancestors(nodes, s.id, above, false));
        lemma_trail_line(nodes, kid, rest, above);
        assert(trail(s, path) + up =~= trail(kid, rest) + above);
    }
}

/// The part of a tree that a path names.
pub open spec fn entry_at(e: Entry, path: Seq<int>) -> Entry
    decreases path.len(),
{
    if path.len() == 0 {
        e
    } else {
        entry_at(e.children[path[0]], path.skip(1))
    }
}

/// What a subtree contributes to the totals of the directories above it.
pub open spec fn amount_of(e: Entry) -> Amount {
    Amount { blocks: e.head.blocks, size: e.head.size, items: capped32(entry_size(e)) }
}

pub proof fn lemma_entry_at(nodes: Seq<Node>, devices: Seq<u64>, s: Shape, path: Seq<int>)
    requires
        has_path(s, path),
    ensures
        entry_at(entry_of(nodes, devices, s), path) == entry_of(
            nodes,
            devices,
            at_path(s, path),
        ),
    decreases path.len(),
{
    if path.len() > 0 {
        lemma_entry_at(nodes, devices, s.kids[path[0]], path.skip(1));
    }
}

/// A subtree has as many entries as its shape has ids.
pub proof fn lemma_entry_size(nodes: Seq<Node>, devices: Seq<u64>, s: Shape)
    ensures
        entry_size(entry_of(nodes, devices, s)) == shape_size(s),
    decreases s, 0nat,
{
    lemma_entry_sizes(nodes, devices, s.kids, s.kids.len());
}

proof fn lemma_entry_sizes(nodes: Seq<Node>, devices: Seq<u64>, kids: Seq<Shape>, n: nat)
    requires
        n <= kids.len(),
    ensures
        entry_sizes(entries_of(nodes, devices, kids), n) == sizes(kids, n),
    decreases kids, n,
{
    if n > 0 {
        lemma_entry_sizes(nodes, devices, kids, (n - 1) as nat);
        lemma_entry_size(nodes, devices, kids[n - 1]);
    }
}

/// One step more along a path.
pub proof fn lemma_path_push(s: Shape, path: Seq<int>, k: int)
    requires
        has_path(s, path),
        0 <= k < at_path(s, path).kids.len(),
    ensures
        has_path(s, path.push(k)),
        at_path(s, path.push(k)) == at_path(s, path).kids[k],
        trail(s, path.push(k)) == seq![at_path(s, path).kids[k].id] + trail(s, path),
    decreases path.len(),
{
    let more = path.push(k);
    if path.len() == 0 {
        assert(more.skip(1) =~= Seq::empty());
        assert(has_path(s.kids[k], more.skip(1)));
        assert(at_path(s.kids[k], more.skip(1)) == s.kids[k]);
        assert(trail(s.kids[k], more.skip(1)) == seq![s.kids[k].id]);
        assert(trail(s, more) =~= seq![s.kids[k].id] + trail(s, path));
    } else {
        let kid = s.kids[path[0]];
        assert(more.skip(1) =~= path.skip(1).push(k));
        lemma_path_push(kid, path.skip(1), k);
        assert(trail(s, more) =~= seq![at_path(s, path).kids[k].id] + trail(s, path));
    }
}

/// The first id along a path is that of the subtree at its end.
pub proof fn lemma_trail_start(s: Shape, path: Seq<int>)
    requires
        has_path(s, path),
    ensures
        trail(s, path).len() == path.len() + 1,
        trail(s, path)[0] == at_path(s, path).id,
        trail(s, path).last() == s.id,
    decreases path.len(),
{
    if path.len() > 0 {
        lemma_trail_start(s.kids[path[0]], path.skip(1));
    }
}

/// Cutting off a child leaves the way to its parent as it is.
pub proof fn lemma_cut_way(s: Shape, path: Seq<int>, k: int)
    requires
        has_path(s, path),
        0 <= k < at_path(s, path).kids.len(),
    ensures
        has_path(cut(s, path.push(k)), path),
        trail(cut(s, path.push(k)), path) == trail(s, path),
    decreases path.len(),
{
    let more = path.push(k);
    if path.len() > 0 {
        let kid = s.kids[path[0]];
        let rest = path.skip(1);
        assert(more.skip(1) =~= rest.push(k));
        lemma_cut_way(kid, rest, k);
        let t = cut(s, more);
        assert(t.kids[path[0]] == cut(kid, more.skip(1)));
    }
}

} // verus!
