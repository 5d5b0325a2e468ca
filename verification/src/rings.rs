//! Rings of Links: the circular list of every Link of an inode.

use vstd::prelude::*;

use crate::arena::{lemma_same_inodes, link_in_place, link_key, registered, same_inodes};
use crate::model::{EntryId, Inodes, LinkData, Node, NodeKind, Tree};
use crate::shape::{
    child_of, entries_of, entry_of, linked, nexts, owned, valid_id, Shape,
};

verus! {

/// The Links of an inode among the first `n` nodes, in ascending order.
pub open spec fn links_upto(nodes: Seq<Node>, key: u128, n: nat) -> Seq<EntryId>
    decreases n,
{
    if n == 0 || n > nodes.len() {
        Seq::empty()
    } else {
        let front = links_upto(nodes, key, (n - 1) as nat);
        if link_key(nodes, n - 1) == Some(key) {
            front.push(EntryId((n - 1) as u32))
        } else {
            front
        }
    }
}

/// The Links of an inode, in ascending order.
pub open spec fn links_of(nodes: Seq<Node>, key: u128) -> Seq<EntryId> {
    links_upto(nodes, key, nodes.len())
}

/// The Link behind the `i`-th of a ring, which closes behind the last.
pub open spec fn behind(ids: Seq<EntryId>, i: int) -> EntryId {
    if i + 1 < ids.len() {
        ids[i + 1]
    } else {
        ids[0]
    }
}

/// The Link before the `i`-th of a ring.
pub open spec fn ahead(ids: Seq<EntryId>, i: int) -> EntryId {
    if i > 0 {
        ids[i - 1]
    } else {
        ids.last()
    }
}

/// The `i`-th of the Links is linked to its neighbours.
pub open spec fn tied_at(nodes: Seq<Node>, ids: Seq<EntryId>, i: int) -> bool {
    nodes[ids[i].0 as int].kind matches NodeKind::Link(l) && l.next_link == behind(ids, i)
        && l.prev_link == ahead(ids, i)
}

/// The Links form a ring.
pub open spec fn is_ring(nodes: Seq<Node>, ids: Seq<EntryId>) -> bool {
    forall|i: int| 0 <= i < ids.len() ==> #[trigger] tied_at(nodes, ids, i)
}

/// A Link in no directory is in no ring.
pub open spec fn loose(nodes: Seq<Node>, i: int) -> bool {
    nodes[i].kind matches NodeKind::Link(l) ==> (link_key(nodes, i) is None ==> l.next_link
        == EntryId::none() && l.prev_link == EntryId::none())
}

/// The Links of every inode form a ring.
pub open spec fn ringed(nodes: Seq<Node>) -> bool {
    &&& forall|key: u128| is_ring(nodes, #[trigger] links_of(nodes, key))
    &&& forall|i: int| 0 <= i < nodes.len() ==> #[trigger] loose(nodes, i)
}

/// The node without its place in a ring.
pub open spec fn untied(n: Node) -> Node {
    match n.kind {
        NodeKind::Link(l) => Node {
            kind: NodeKind::Link(
                LinkData { next_link: EntryId::none(), prev_link: EntryId::none(), ..l },
            ),
            ..n
        },
        _ => n,
    }
}

/// The arena without the rings.
pub open spec fn bare(nodes: Seq<Node>) -> Seq<Node> {
    Seq::new(nodes.len(), |i: int| untied(nodes[i]))
}

/// No Link of the arena is in a ring.
pub open spec fn all_untied(nodes: Seq<Node>) -> bool {
    forall|i: int| 0 <= i < nodes.len() ==> untied(#[trigger] nodes[i]) == nodes[i]
}

/// Two nodes have the same place in a ring.
pub open spec fn same_ring(a: Node, b: Node) -> bool {
    match (a.kind, b.kind) {
        (NodeKind::Link(l), NodeKind::Link(k)) => l.next_link == k.next_link && l.prev_link
            == k.prev_link,
        (NodeKind::Link(_), _) => false,
        (_, NodeKind::Link(_)) => false,
        _ => true,
    }
}

/// Without the rings the arena holds the same subtrees.
pub proof fn lemma_bare_shape(nodes: Seq<Node>, devices: Seq<u64>, s: Shape)
    requires
        linked(bare(nodes), s),
        owned(bare(nodes), s),
    ensures
        linked(nodes, s),
        owned(nodes, s),
        entry_of(nodes, devices, s) == entry_of(bare(nodes), devices, s),
    decreases s,
{
    let b = bare(nodes);
    assert(s.id.0 < nodes.len());
    assert(b[s.id.0 as int] == untied(nodes[s.id.0 as int]));
    assert(nexts(b) =~= nexts(nodes));
    assert forall|i: int| 0 <= i < s.kids.len() implies {
        &&& linked(nodes, #[trigger] s.kids[i])
        &&& owned(nodes, s.kids[i])
        &&& child_of(nodes[s.kids[i].id.0 as int], s.id)
        &&& entry_of(nodes, devices, s.kids[i]) == entry_of(b, devices, s.kids[i])
    } by {
        assert(linked(b, s.kids[i]));
        assert(owned(b, s.kids[i]));
        lemma_bare_shape(nodes, devices, s.kids[i]);
        assert(b[s.kids[i].id.0 as int] == untied(nodes[s.kids[i].id.0 as int]));
    }
    assert(entries_of(nodes, devices, s.kids) =~= entries_of(b, devices, s.kids));
}

/// What is in the list of an inode's Links.
pub proof fn lemma_links(nodes: Seq<Node>, key: u128, n: nat)
    requires
        n <= nodes.len() <= u32::MAX,
    ensures
        forall|i: int|
            0 <= i < links_upto(nodes, key, n).len() ==> {
                let id = #[trigger] links_upto(nodes, key, n)[i];
                &&& id.0 < n
                &&& valid_id(nodes, id)
                &&& link_key(nodes, id.0 as int) == Some(key)
            },
        forall|i: int, j: int|
            0 <= i < j < links_upto(nodes, key, n).len() ==> (#[trigger] links_upto(
                nodes,
                key,
                n,
            )[i]).0 < (#[trigger] links_upto(nodes, key, n)[j]).0,
    decreases n,
{
    if n > 0 {
        lemma_links(nodes, key, (n - 1) as nat);
    }
}

/// A Link of an inode is in the list.
pub proof fn lemma_link_listed(nodes: Seq<Node>, key: u128, n: nat, x: int) -> (i: int)
    requires
        0 <= x < n <= nodes.len() <= u32::MAX,
        link_key(nodes, x) == Some(key),
    ensures
        0 <= i < links_upto(nodes, key, n).len(),
        links_upto(nodes, key, n)[i].0 == x,
    decreases n,
{
    if x == n - 1 {
        links_upto(nodes, key, n).len() - 1
    } else {
        lemma_link_listed(nodes, key, (n - 1) as nat, x)
    }
}

pub proof fn lemma_links_same(a: Seq<Node>, b: Seq<Node>, key: u128, n: nat)
    requires
        n <= a.len() <= b.len(),
        forall|i: int| 0 <= i < n ==> #[trigger] link_key(b, i) == link_key(a, i),
    ensures
        links_upto(b, key, n) == links_upto(a, key, n),
    decreases n,
{
    if n > 0 {
        lemma_links_same(a, b, key, (n - 1) as nat);
        assert(link_key(b, n - 1) == link_key(a, n - 1));
    }
}

/// Rings have no part in what tells inodes apart.
pub proof fn lemma_bare_inodes(a: Seq<Node>, b: Seq<Node>)
    requires
        bare(a) == bare(b),
    ensures
        same_inodes(a, b),
{
    assert(a.len() == bare(a).len() && b.len() == bare(b).len());
    assert forall|i: int| 0 <= i < a.len() implies untied(#[trigger] b[i]) == untied(a[i]) by {
        assert(bare(a)[i] == untied(a[i]));
        assert(bare(b)[i] == untied(b[i]));
    }
}

/// Inodes are told apart by the same fields.
pub proof fn lemma_same_keys(a: Seq<Node>, b: Seq<Node>, i: int)
    requires
        same_inodes(a, b),
        0 <= i < a.len(),
    ensures
        link_key(b, i) == link_key(a, i),
{
    assert(b[i].kind is Link ==> a[i].kind is Link);
    if let NodeKind::Link(l) = a[i].kind {
        assert(b[i].kind is Link);
        if valid_id(a, l.parent) {
            assert(b[l.parent.0 as int].kind is Dir <==> a[l.parent.0 as int].kind is Dir);
        }
    }
}

/// What changes neither inodes nor places in rings keeps the rings.
pub proof fn lemma_same_rings(a: Seq<Node>, b: Seq<Node>)
    requires
        ringed(a),
        a.len() <= u32::MAX,
        same_inodes(a, b),
        forall|i: int| 0 <= i < a.len() ==> same_ring(a[i], #[trigger] b[i]),
    ensures
        ringed(b),
{
    assert forall|i: int| 0 <= i < a.len() implies #[trigger] link_key(b, i) == link_key(a, i) by {
        lemma_same_keys(a, b, i);
    }
    assert forall|key: u128| is_ring(b, #[trigger] links_of(b, key)) by {
        lemma_links_same(a, b, key, a.len());
        lemma_links(a, key, a.len());
        let ids = links_of(a, key);
        assert(is_ring(a, ids));
        assert forall|i: int| 0 <= i < ids.len() implies #[trigger] tied_at(b, ids, i) by {
            assert(tied_at(a, ids, i));
            assert(valid_id(a, ids[i]));
            assert(same_ring(a[ids[i].0 as int], b[ids[i].0 as int]));
        }
    }
    assert forall|i: int| 0 <= i < b.len() implies #[trigger] loose(b, i) by {
        assert(loose(a, i));
        assert(link_key(b, i) == link_key(a, i));
        assert(same_ring(a[i], b[i]));
    }
}

/// A new node that is no Link in a directory is in no ring.
pub proof fn lemma_push_ring(nodes: Seq<Node>, n: Node, map: Map<u128, EntryId>)
    requires
        ringed(nodes),
        registered(nodes, map),
        nodes.len() < u32::MAX,
        n.kind matches NodeKind::Link(l) ==> l.parent == EntryId::none() && l.next_link
            == EntryId::none() && l.prev_link == EntryId::none(),
    ensures
        ringed(nodes.push(n)),
{
    let more = nodes.push(n);
    lemma_push_keys(nodes, n, map);
    assert(link_key(more, nodes.len() as int) is None);
    assert forall|key: u128| is_ring(more, #[trigger] links_of(more, key)) by {
        lemma_links_same(nodes, more, key, nodes.len());
        lemma_links(nodes, key, nodes.len());
        let ids = links_of(nodes, key);
        assert(links_of(more, key) == ids);
        assert(is_ring(nodes, ids));
        assert forall|i: int| 0 <= i < ids.len() implies #[trigger] tied_at(more, ids, i) by {
            assert(tied_at(nodes, ids, i));
            assert(valid_id(nodes, ids[i]));
        }
    }
    assert forall|i: int| 0 <= i < more.len() implies #[trigger] loose(more, i) by {
        if i < nodes.len() {
            assert(loose(nodes, i));
            assert(link_key(more, i) == link_key(nodes, i));
            assert(more[i] == nodes[i]);
        }
    }
}

/// A new node changes the inode of no other.
pub proof fn lemma_push_keys(nodes: Seq<Node>, n: Node, map: Map<u128, EntryId>)
    requires
        registered(nodes, map),
        nodes.len() < u32::MAX,
    ensures
        forall|i: int|
            0 <= i < nodes.len() ==> #[trigger] link_key(nodes.push(n), i) == link_key(nodes, i),
{
    let more = nodes.push(n);
    assert forall|i: int| 0 <= i < nodes.len() implies #[trigger] link_key(more, i) == link_key(
        nodes,
        i,
    ) by {
        assert(link_in_place(nodes, i));
        assert(more[i] == nodes[i]);
    }
}

/// The table names the first Link of an inode.
pub proof fn lemma_first_link(nodes: Seq<Node>, map: Map<u128, EntryId>, key: u128)
    requires
        registered(nodes, map),
        nodes.len() <= u32::MAX,
    ensures
        map.contains_key(key) <==> links_of(nodes, key).len() > 0,
        map.contains_key(key) ==> map[key] == links_of(nodes, key)[0],
{
    let ids = links_of(nodes, key);
    lemma_links(nodes, key, nodes.len());
    if map.contains_key(key) {
        let i = lemma_link_listed(nodes, key, nodes.len(), map[key].0 as int);
        assert(ids[i].0 == map[key].0);
        assert(link_key(nodes, ids[0].0 as int) == Some(key));
        if i > 0 {
            assert(ids[0].0 < ids[i].0);
        }
    }
    if ids.len() > 0 {
        assert(link_key(nodes, ids[0].0 as int) == Some(key));
    }
}

/// From `a` to `b` only places in rings have changed, and only those of `ids`.
spec fn retied(a: Seq<Node>, b: Seq<Node>, ids: Seq<EntryId>) -> bool {
    &&& a.len() == b.len()
    &&& forall|i: int|
        0 <= i < a.len() ==> {
            &&& untied(#[trigger] b[i]) == untied(a[i])
            &&& ids.contains(EntryId(i as u32)) || b[i] == a[i]
        }
}

/// A Link is the predecessor of its successor and the successor of its
/// predecessor, and all three are of the same inode.
pub proof fn neighbours_in_a_ring(nodes: Seq<Node>, x: EntryId)
    requires
        ringed(nodes),
        nodes.len() <= u32::MAX,
        valid_id(nodes, x),
        link_key(nodes, x.0 as int) is Some,
    ensures
        nodes[x.0 as int].kind matches NodeKind::Link(l) && {
            &&& valid_id(nodes, l.next_link)
            &&& valid_id(nodes, l.prev_link)
            &&& link_key(nodes, l.next_link.0 as int) == link_key(nodes, x.0 as int)
            &&& link_key(nodes, l.prev_link.0 as int) == link_key(nodes, x.0 as int)
            &&& nodes[l.next_link.0 as int].kind matches NodeKind::Link(n) && n.prev_link == x
            &&& nodes[l.prev_link.0 as int].kind matches NodeKind::Link(p) && p.next_link == x
        },
{
    let key = link_key(nodes, x.0 as int)->0;
    let ids = links_of(nodes, key);
    let n = ids.len() as int;
    lemma_links(nodes, key, nodes.len());
    let i = lemma_link_listed(nodes, key, nodes.len(), x.0 as int);
    assert(ids[i] == x);
    assert(is_ring(nodes, ids));
    let after: int = if i + 1 < n {
        i + 1
    } else {
        0
    };
    let before: int = if i > 0 {
        i - 1
    } else {
        n - 1
    };
    assert(tied_at(nodes, ids, i));
    assert(tied_at(nodes, ids, after) && behind(ids, i) == ids[after]);
    assert(tied_at(nodes, ids, before) && ahead(ids, i) == ids[before]);
}

/// Every Link of an inode is in the ring of any other: following the
/// successors from one reaches the other.
pub proof fn rings_are_whole(nodes: Seq<Node>, x: EntryId, y: EntryId) -> (steps: nat)
    requires
        ringed(nodes),
        nodes.len() <= u32::MAX,
        valid_id(nodes, x),
        valid_id(nodes, y),
        link_key(nodes, x.0 as int) is Some,
        link_key(nodes, y.0 as int) == link_key(nodes, x.0 as int),
    ensures
        along_ring(nodes, x, steps) == y,
{
    let key = link_key(nodes, x.0 as int)->0;
    let ids = links_of(nodes, key);
    let n = ids.len() as int;
    lemma_links(nodes, key, nodes.len());
    let i = lemma_link_listed(nodes, key, nodes.len(), x.0 as int);
    let j = lemma_link_listed(nodes, key, nodes.len(), y.0 as int);
    assert(ids[i] == x && ids[j] == y);
    assert(is_ring(nodes, ids));
    if i <= j {
        lemma_along(nodes, ids, i, (j - i) as nat);
        (j - i) as nat
    } else {
        lemma_along(nodes, ids, i, (n - 1 - i) as nat);
        assert(tied_at(nodes, ids, n - 1));
        assert(along_ring(nodes, x, (n - i) as nat) == ids[0]);
        lemma_along(nodes, ids, 0, j as nat);
        lemma_along_twice(nodes, x, (n - i) as nat, j as nat);
        (n - i + j) as nat
    }
}

/// The Link that is reached from `x` by as many successors.
pub open spec fn along_ring(nodes: Seq<Node>, x: EntryId, steps: nat) -> EntryId
    decreases steps,
{
    if steps == 0 {
        x
    } else {
        match nodes[along_ring(nodes, x, (steps - 1) as nat).0 as int].kind {
            NodeKind::Link(l) => l.next_link,
            _ => EntryId::none(),
        }
    }
}

proof fn lemma_along(nodes: Seq<Node>, ids: Seq<EntryId>, i: int, steps: nat)
    requires
        is_ring(nodes, ids),
        0 <= i,
        i + steps < ids.len(),
    ensures
        along_ring(nodes, ids[i], steps) == ids[i + steps],
    decreases steps,
{
    if steps > 0 {
        lemma_along(nodes, ids, i, (steps - 1) as nat);
        assert(tied_at(nodes, ids, i + steps - 1));
    }
}

proof fn lemma_along_twice(nodes: Seq<Node>, x: EntryId, a: nat, b: nat)
    ensures
        along_ring(nodes, x, a + b) == along_ring(nodes, along_ring(nodes, x, a), b),
    decreases b,
{
    if b > 0 {
        lemma_along_twice(nodes, x, a, (b - 1) as nat);
        assert((a + b - 1) as nat == a + (b - 1) as nat);
    }
}

/// Puts a Link behind the last one of a ring, or into one of its own if it is
/// the first.
fn tie(tree: &mut Tree, id: EntryId, first: EntryId, Ghost(ids): Ghost<Seq<EntryId>>)
    requires
        old(tree).nodes@.len() <= u32::MAX,
        valid_id(old(tree).nodes@, id),
        old(tree).nodes@[id.0 as int].kind is Link,
        is_ring(old(tree).nodes@, ids),
        ids.no_duplicates(),
        !ids.contains(id),
        forall|i: int| 0 <= i < ids.len() ==> valid_id(old(tree).nodes@, #[trigger] ids[i]),
        first == (if ids.len() > 0 {
            ids[0]
        } else {
            id
        }),
    ensures
        is_ring(final(tree).nodes@, ids.push(id)),
        retied(old(tree).nodes@, final(tree).nodes@, ids.push(id)),
        final(tree).root == old(tree).root,
        final(tree).devices == old(tree).devices,
        final(tree).inodes == old(tree).inodes,
{
    let ghost a = tree.nodes@;
    let ghost all = ids.push(id);
    let ghost n = ids.len() as int;
    proof {
        if n > 0 {
            assert(tied_at(a, ids, 0));
            assert(tied_at(a, ids, n - 1));
        }
    }
    let last: EntryId = if first == id {
        id
    } else {
        match &tree.get(first).kind {
            NodeKind::Link(l) => l.prev_link,
            _ => id,
        }
    };
    proof {
        assert(all[n] == id);
        assert(n > 0 ==> last == ids[n - 1]);
        assert(n == 0 ==> last == id);
    }
    if let Some(l) = tree.get_mut(id).as_link_mut() {
        l.next_link = first;
        l.prev_link = last;
    }
    let ghost b = tree.nodes@;
    if let Some(l) = tree.get_mut(last).as_link_mut() {
        l.next_link = id;
    }
    let ghost c = tree.nodes@;
    if let Some(l) = tree.get_mut(first).as_link_mut() {
        l.prev_link = id;
    }
    proof {
        let d = tree.nodes@;
        assert forall|i: int| 0 <= i < all.len() implies #[trigger] tied_at(d, all, i) by {
            if i < n {
                assert(tied_at(a, ids, i));
                assert(all[i] == ids[i]);
                assert(ids[i] != id) by {
                    assert(ids.contains(ids[i]));
                }
                if i > 0 {
                    assert(ids[i] != ids[0]);
                }
                if i < n - 1 {
                    assert(ids[i] != ids[n - 1]);
                    assert(all[i + 1] == ids[i + 1]);
                }
            } else {
                assert(n > 0 ==> ids.contains(ids[0]) && ids.contains(ids[n - 1]));
            }
        }
        assert(all.contains(id));
        if n > 0 {
            assert(all[0] == ids[0]);
            assert(all[n - 1] == ids[n - 1]);
            assert(all.contains(first));
            assert(all.contains(last));
        }
        assert forall|i: int| 0 <= i < a.len() implies untied(#[trigger] d[i]) == untied(a[i]) && (
        all.contains(EntryId(i as u32)) || d[i] == a[i]) by {
            assert(EntryId(id.0) == id && EntryId(first.0) == first && EntryId(last.0) == last);
        }
    }
}

/// Puts a Link into the ring of its inode, which so far has the Links before
/// it.
pub(crate) fn tie_next(tree: &mut Tree, id: EntryId, first: EntryId, Ghost(key): Ghost<u128>)
    requires
        old(tree).nodes@.len() <= u32::MAX,
        valid_id(old(tree).nodes@, id),
        link_key(old(tree).nodes@, id.0 as int) == Some(key),
        forall|k: u128|
            is_ring(old(tree).nodes@, #[trigger] links_upto(old(tree).nodes@, k, id.0 as nat)),
        forall|i: int|
            0 <= i < old(tree).nodes@.len() && i != id.0 ==> #[trigger] loose(
                old(tree).nodes@,
                i,
            ),
        ({
            let ids = links_upto(old(tree).nodes@, key, id.0 as nat);
            first == if ids.len() > 0 {
                ids[0]
            } else {
                id
            }
        }),
    ensures
        forall|k: u128|
            is_ring(
                final(tree).nodes@,
                #[trigger] links_upto(final(tree).nodes@, k, (id.0 + 1) as nat),
            ),
        forall|i: int|
            0 <= i < old(tree).nodes@.len() ==> #[trigger] loose(final(tree).nodes@, i),
        bare(final(tree).nodes@) == bare(old(tree).nodes@),
        same_inodes(old(tree).nodes@, final(tree).nodes@),
        final(tree).root == old(tree).root,
        final(tree).devices == old(tree).devices,
        final(tree).inodes == old(tree).inodes,
{
    let ghost a = tree.nodes@;
    let ghost m = id.0 as nat;
    let ghost ids = links_upto(a, key, m);
    proof {
        lemma_links(a, key, m);
        assert forall|i: int| 0 <= i < ids.len() implies ids[i] != id by {
            assert(ids[i].0 < m);
        }
    }
    tie(tree, id, first, Ghost(ids));
    proof {
        let b = tree.nodes@;
        let all = ids.push(id);
        assert(bare(b) =~= bare(a));
        lemma_bare_inodes(a, b);
        assert forall|i: int| 0 <= i < a.len() implies #[trigger] link_key(b, i) == link_key(
            a,
            i,
        ) by {
            lemma_same_keys(a, b, i);
        }
        assert forall|k: u128| is_ring(b, #[trigger] links_upto(b, k, (m + 1) as nat)) by {
            lemma_links_same(a, b, k, (m + 1) as nat);
            if k == key {
                assert(links_upto(b, k, (m + 1) as nat) == all);
            } else {
                let others = links_upto(a, k, m);
                assert(links_upto(b, k, (m + 1) as nat) == others);
                lemma_links(a, k, m);
                assert(is_ring(a, others));
                assert forall|i: int| 0 <= i < others.len() implies #[trigger] tied_at(
                    b,
                    others,
                    i,
                ) by {
                    assert(tied_at(a, others, i));
                    let x = others[i];
                    assert(EntryId(x.0) == x);
                    if all.contains(x) {
                        let j = choose|j: int| 0 <= j < all.len() && all[j] == x;
                        if j < ids.len() {
                            assert(ids[j] == x);
                        }
                    }
                    assert(b[x.0 as int] == a[x.0 as int]);
                }
            }
        }
        assert forall|i: int| 0 <= i < b.len() implies #[trigger] loose(b, i) by {
            let x = EntryId(i as u32);
            assert(link_key(b, i) == link_key(a, i));
            if link_key(a, i) is None {
                assert(i != m);
                assert(loose(a, i));
                if all.contains(x) {
                    let j = choose|j: int| 0 <= j < all.len() && all[j] == x;
                    if j < ids.len() {
                        assert(ids[j] == x);
                    }
                }
                assert(b[i] == a[i]);
            }
        }
    }
}

/// The Links up to a node come first among all of an inode.
proof fn lemma_links_prefix(nodes: Seq<Node>, key: u128, i: nat, n: nat)
    requires
        i <= n <= nodes.len(),
    ensures
        links_upto(nodes, key, i).is_prefix_of(links_upto(nodes, key, n)),
    decreases n,
{
    if i < n {
        lemma_links_prefix(nodes, key, i, (n - 1) as nat);
    }
    assert(links_upto(nodes, key, i) =~= links_upto(nodes, key, n).take(
        links_upto(nodes, key, i).len() as int,
    ));
}

/// The Link that the table names for the inode of a Link: the first one before
/// it, or the Link itself.
proof fn lemma_named_link(nodes: Seq<Node>, map: Map<u128, EntryId>, i: nat, key: u128)
    requires
        registered(nodes, map),
        nodes.len() <= u32::MAX,
        i < nodes.len(),
        link_key(nodes, i as int) == Some(key),
    ensures
        map.contains_key(key),
        map[key] == (if links_upto(nodes, key, i).len() > 0 {
            links_upto(nodes, key, i)[0]
        } else {
            EntryId(i as u32)
        }),
{
    lemma_first_link(nodes, map, key);
    lemma_links_prefix(nodes, key, (i + 1) as nat, nodes.len());
    let upto = links_upto(nodes, key, (i + 1) as nat);
    assert(upto == links_upto(nodes, key, i).push(EntryId(i as u32)));
    assert(upto[0] == links_of(nodes, key)[0]);
}

/// Makes the rings of an arena in which no Link is in one yet.
pub(crate) fn tie_all(tree: &mut Tree)
    requires
        old(tree).nodes@.len() <= u32::MAX,
        old(tree).inodes_ok(),
        all_untied(old(tree).nodes@),
    ensures
        ringed(final(tree).nodes@),
        bare(final(tree).nodes@) == old(tree).nodes@,
        same_inodes(old(tree).nodes@, final(tree).nodes@),
        final(tree).root == old(tree).root,
        final(tree).devices == old(tree).devices,
        final(tree).inodes == old(tree).inodes,
{
    let ghost a = tree.nodes@;
    let ghost map = tree.inodes.map@;
    let mut i: usize = 0;
    proof {
        assert forall|j: int| 0 <= j < a.len() implies #[trigger] bare(a)[j] == a[j] by {
            assert(untied(a[j]) == a[j]);
        }
        assert(bare(a) =~= a);
        assert forall|j: int| 0 <= j < a.len() implies #[trigger] loose(a, j) by {
            assert(untied(a[j]) == a[j]);
        }
    }
    while i < tree.nodes.len()
        invariant
            i <= tree.nodes@.len() <= u32::MAX,
            registered(tree.nodes@, map),
            tree.inodes.map@ == map,
            same_inodes(a, tree.nodes@),
            bare(tree.nodes@) == a,
            bare(a) == a,
            forall|k: u128|
                is_ring(tree.nodes@, #[trigger] links_upto(tree.nodes@, k, i as nat)),
            forall|j: int| 0 <= j < tree.nodes@.len() ==> #[trigger] loose(tree.nodes@, j),
            tree.root == old(tree).root,
            tree.devices == old(tree).devices,
            tree.inodes == old(tree).inodes,
        decreases tree.nodes@.len() - i,
    {
        let id = EntryId(i as u32);
        let ghost b = tree.nodes@;
        proof {
            assert(link_in_place(b, i as int));
        }
        let mut found: Option<u128> = None;
        if let NodeKind::Link(l) = &tree.get(id).kind {
            if !l.parent.is_none() {
                if let NodeKind::Dir(d) = &tree.get(l.parent).kind {
                    found = Some(Inodes::key(d.dev, l.ino));
                }
            }
        }
        proof {
            assert(found == link_key(b, i as int));
        }
        match found {
            Some(key) => {
                proof {
                    lemma_named_link(b, map, i as nat, key);
                }
                let first: EntryId = match tree.inodes.map.get(&key) {
                    Some(first) => *first,
                    None => id,
                };
                tie_next(tree, id, first, Ghost(key));
                proof {
                    lemma_same_inodes(b, tree.nodes@, map);
                    lemma_bare_inodes(a, tree.nodes@);
                }
            },
            None => {},
        }
        i += 1;
        proof {
            assert forall|k: u128|
                is_ring(tree.nodes@, #[trigger] links_upto(tree.nodes@, k, i as nat)) by {
                assert(i as nat == (id.0 + 1) as nat);
                assert(is_ring(b, links_upto(b, k, id.0 as nat)));
            }
        }
    }
    proof {
        assert forall|k: u128| is_ring(tree.nodes@, #[trigger] links_of(tree.nodes@, k)) by {
            assert(is_ring(tree.nodes@, links_upto(tree.nodes@, k, i as nat)));
        }
    }
}

} // verus!
