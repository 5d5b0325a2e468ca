//! What the links between the nodes of an arena say: sibling lists, subtrees
//! and lines of ancestors.
//!
//! The arena itself is a flat sequence. A [`Shape`] is a finite tree of ids
//! that the links spell out, so an arena whose links run in a circle has none.

use vstd::prelude::*;

use crate::model::{
    device, listed, DirData, EType, EntryCommon, EntryId, Ext, LinkData, Node, NodeKind, Tree,
};

verus! {

/// The id may be followed: it is not the null reference and points into the
/// arena.
pub open spec fn valid_id(nodes: Seq<Node>, id: EntryId) -> bool {
    &&& id != EntryId::none()
    &&& id.0 < nodes.len()
}

/// The id at position `i` of a list, or the null reference past its end.
pub open spec fn id_at(ids: Seq<EntryId>, i: int) -> EntryId {
    if 0 <= i < ids.len() {
        ids[i]
    } else {
        EntryId::none()
    }
}

/// The reference held by the node at position `i` of a list leads to the
/// position after it. `links` holds the reference of each node of the arena.
pub open spec fn step_at(links: Seq<EntryId>, ids: Seq<EntryId>, i: int) -> bool {
    &&& ids[i] != EntryId::none()
    &&& ids[i].0 < links.len()
    &&& links[ids[i].0 as int] == id_at(ids, i + 1)
}

/// Following `links` from `head` visits exactly `ids` and then ends.
pub open spec fn walk(links: Seq<EntryId>, head: EntryId, ids: Seq<EntryId>) -> bool {
    &&& head == id_at(ids, 0)
    &&& forall|i: int| 0 <= i < ids.len() ==> #[trigger] step_at(links, ids, i)
}

proof fn lemma_walk_prefix(
    links: Seq<EntryId>,
    head: EntryId,
    a: Seq<EntryId>,
    b: Seq<EntryId>,
    n: int,
)
    requires
        walk(links, head, a),
        walk(links, head, b),
        0 <= n <= a.len(),
    ensures
        n <= b.len(),
        a.take(n) =~= b.take(n),
    decreases n,
{
    if n > 0 {
        lemma_walk_prefix(links, head, a, b, n - 1);
        assert(step_at(links, a, n - 1));
        if n > 1 {
            assert(a.take(n - 1)[n - 2] == b.take(n - 1)[n - 2]);
            assert(step_at(links, a, n - 2));
            assert(step_at(links, b, n - 2));
        }
        assert forall|i: int| 0 <= i < n implies a.take(n)[i] == b.take(n)[i] by {
            if i < n - 1 {
                assert(a.take(n - 1)[i] == b.take(n - 1)[i]);
            }
        }
    }
}

/// A walk is determined by where it starts.
pub proof fn lemma_walk_unique(
    links: Seq<EntryId>,
    head: EntryId,
    a: Seq<EntryId>,
    b: Seq<EntryId>,
)
    requires
        walk(links, head, a),
        walk(links, head, b),
    ensures
        a == b,
{
    lemma_walk_prefix(links, head, a, b, a.len() as int);
    lemma_walk_prefix(links, head, b, a, b.len() as int);
    assert(a.take(a.len() as int) =~= a);
    assert(b.take(b.len() as int) =~= b);
}

/// The `next` reference of each node.
pub open spec fn nexts(nodes: Seq<Node>) -> Seq<EntryId> {
    Seq::new(nodes.len(), |i: int| nodes[i].common.next)
}

/// Following `next` from `head` visits exactly `ids` and then ends.
pub open spec fn siblings(nodes: Seq<Node>, head: EntryId, ids: Seq<EntryId>) -> bool {
    walk(nexts(nodes), head, ids)
}

/// A finite tree of ids.
pub struct Shape {
    pub id: EntryId,
    pub kids: Seq<Shape>,
}

/// The ids at the top of a list of shapes.
pub open spec fn tops(kids: Seq<Shape>) -> Seq<EntryId> {
    Seq::new(kids.len(), |i: int| kids[i].id)
}

/// The first child that a node links to.
pub open spec fn first_child(n: Node) -> EntryId {
    match n.kind {
        NodeKind::Dir(d) => d.sub,
        _ => EntryId::none(),
    }
}

/// The links below `s.id` spell out `s`.
pub open spec fn linked(nodes: Seq<Node>, s: Shape) -> bool
    decreases s,
{
    &&& valid_id(nodes, s.id)
    &&& siblings(nodes, first_child(nodes[s.id.0 as int]), tops(s.kids))
    &&& forall|i: int| 0 <= i < s.kids.len() ==> linked(nodes, #[trigger] s.kids[i])
}

/// Some shape hangs below `id`.
pub open spec fn has_shape(nodes: Seq<Node>, id: EntryId) -> bool {
    exists|s: Shape| s.id == id && #[trigger] linked(nodes, s)
}

/// The shape that hangs below `id`.
pub open spec fn shape_at(nodes: Seq<Node>, id: EntryId) -> Shape {
    choose|s: Shape| s.id == id && #[trigger] linked(nodes, s)
}

/// A subtree is determined by the id at its top.
pub proof fn lemma_shape_unique(nodes: Seq<Node>, a: Shape, b: Shape)
    requires
        linked(nodes, a),
        linked(nodes, b),
        a.id == b.id,
    ensures
        a == b,
    decreases a,
{
    lemma_walk_unique(
        nexts(nodes),
        first_child(nodes[a.id.0 as int]),
        tops(a.kids),
        tops(b.kids),
    );
    assert(a.kids.len() == tops(a.kids).len());
    assert(b.kids.len() == tops(b.kids).len());
    assert forall|i: int| 0 <= i < a.kids.len() implies a.kids[i] == b.kids[i] by {
        assert(tops(a.kids)[i] == tops(b.kids)[i]);
        lemma_shape_unique(nodes, a.kids[i], b.kids[i]);
    }
    assert(a.kids =~= b.kids);
}

pub proof fn lemma_shape_at(nodes: Seq<Node>, s: Shape)
    requires
        linked(nodes, s),
    ensures
        has_shape(nodes, s.id),
        shape_at(nodes, s.id) == s,
{
    let t = shape_at(nodes, s.id);
    assert(t.id == s.id && linked(nodes, t));
    lemma_shape_unique(nodes, s, t);
}

/// What tells directories, hardlinked files and other files apart.
pub enum Detail {
    Dir { items: u32, dev: u64, err: bool, suberr: bool },
    Link { ino: u64, nlink: u32 },
    File,
}

/// What an entry says of itself.
pub struct Head {
    pub name: Seq<char>,
    pub etype: EType,
    pub size: u64,
    pub blocks: u64,
    pub ext: Option<Ext>,
    pub detail: Detail,
}

/// A subtree as a value, without the ids that link it together.
pub struct Entry {
    pub head: Head,
    pub children: Seq<Entry>,
}

/// The device number of a directory. An id that the table lacks counts as
/// device zero.
pub open spec fn device_number(devices: Seq<u64>, id: u32) -> u64 {
    match device(devices, id) {
        Some(dev) => dev,
        None => 0,
    }
}

pub open spec fn detail_of(n: Node, devices: Seq<u64>) -> Detail {
    match n.kind {
        NodeKind::Dir(d) => Detail::Dir {
            items: d.items,
            dev: device_number(devices, d.dev),
            err: d.err,
            suberr: d.suberr,
        },
        NodeKind::Link(l) => Detail::Link { ino: l.ino, nlink: l.nlink },
        NodeKind::File => Detail::File,
    }
}

pub open spec fn head_of(n: Node, devices: Seq<u64>) -> Head {
    Head {
        name: n.common.name@,
        etype: n.common.etype,
        size: n.common.size,
        blocks: n.common.blocks,
        ext: n.common.ext,
        detail: detail_of(n, devices),
    }
}

/// The subtree that a shape picks out of an arena.
pub open spec fn entry_of(nodes: Seq<Node>, devices: Seq<u64>, s: Shape) -> Entry
    decreases s,
{
    Entry {
        head: head_of(nodes[s.id.0 as int], devices),
        children: entries_of(nodes, devices, s.kids),
    }
}

/// The subtrees that a list of shapes picks out of an arena.
pub open spec fn entries_of(nodes: Seq<Node>, devices: Seq<u64>, kids: Seq<Shape>) -> Seq<Entry>
    decreases kids,
{
    Seq::new(
        kids.len(),
        |i: int|
            if 0 <= i < kids.len() {
                entry_of(nodes, devices, kids[i])
            } else {
                arbitrary()
            },
    )
}

impl Tree {
    /// Some shape hangs below `id`.
    pub open spec fn has_entry(&self, id: EntryId) -> bool {
        has_shape(self.nodes@, id)
    }

    /// The subtree at `id`.
    pub open spec fn entry(&self, id: EntryId) -> Entry {
        entry_of(self.nodes@, self.devices@, shape_at(self.nodes@, id))
    }
}

/// The parent that a node links to. Plain files do not record theirs, and a
/// hardlink's counts only where `links` says so.
pub open spec fn parent_of(n: Node, links: bool) -> EntryId {
    match n.kind {
        NodeKind::Dir(d) => d.parent,
        NodeKind::Link(l) => if links {
            l.parent
        } else {
            EntryId::none()
        },
        NodeKind::File => EntryId::none(),
    }
}

/// The parent reference of each node.
pub open spec fn parents(nodes: Seq<Node>, links: bool) -> Seq<EntryId> {
    Seq::new(nodes.len(), |i: int| parent_of(nodes[i], links))
}

/// Following the parent links from `id` visits exactly `line` and then ends.
pub open spec fn ancestors(
    nodes: Seq<Node>,
    id: EntryId,
    line: Seq<EntryId>,
    links: bool,
) -> bool {
    walk(parents(nodes, links), id, line)
}

/// The parent links from `id` come to an end.
pub open spec fn has_line(nodes: Seq<Node>, id: EntryId, links: bool) -> bool {
    exists|line: Seq<EntryId>| #[trigger] ancestors(nodes, id, line, links)
}

/// `id`, its parent, and so on up to the topmost one.
pub open spec fn line_of(nodes: Seq<Node>, id: EntryId, links: bool) -> Seq<EntryId> {
    choose|line: Seq<EntryId>| #[trigger] ancestors(nodes, id, line, links)
}

/// A line of ancestors is determined by where it starts.
pub proof fn lemma_line_of(nodes: Seq<Node>, id: EntryId, line: Seq<EntryId>, links: bool)
    requires
        ancestors(nodes, id, line, links),
    ensures
        has_line(nodes, id, links),
        line_of(nodes, id, links) == line,
{
    let other = line_of(nodes, id, links);
    assert(ancestors(nodes, id, other, links));
    lemma_walk_unique(parents(nodes, links), id, line, other);
}

/// A node without the links to its sibling and its parent.
pub open spec fn body(n: Node) -> Node {
    Node {
        common: EntryCommon { next: EntryId::none(), ..n.common },
        kind: match n.kind {
            NodeKind::Dir(d) => NodeKind::Dir(DirData { parent: EntryId::none(), ..d }),
            NodeKind::Link(l) => NodeKind::Link(LinkData { parent: EntryId::none(), ..l }),
            NodeKind::File => NodeKind::File,
        },
    }
}

/// The number of ids in a shape.
pub open spec fn shape_size(s: Shape) -> nat
    decreases s, 0nat,
{
    1 + sizes(s.kids, s.kids.len())
}

/// The number of ids in the first `n` of a list of shapes.
pub open spec fn sizes(kids: Seq<Shape>, n: nat) -> nat
    decreases kids, n,
{
    if n == 0 || n > kids.len() {
        0
    } else {
        sizes(kids, (n - 1) as nat) + shape_size(kids[n - 1])
    }
}

/// The ids of `s` are numbered from `start` on, each directory before its
/// children and each child before the next one.
pub open spec fn preorder(s: Shape, start: int) -> bool
    decreases s,
{
    &&& s.id.0 == start
    &&& forall|i: int|
        0 <= i < s.kids.len() ==> preorder(
            #[trigger] s.kids[i],
            start + 1 + sizes(s.kids, i as nat),
        )
}

/// The node records `parent` as its parent, or has no room to record one.
pub open spec fn child_of(n: Node, parent: EntryId) -> bool {
    match n.kind {
        NodeKind::Dir(d) => d.parent == parent,
        NodeKind::Link(l) => l.parent == parent,
        NodeKind::File => true,
    }
}

/// Every node below the top of `s` records its parent.
pub open spec fn owned(nodes: Seq<Node>, s: Shape) -> bool
    decreases s,
{
    forall|i: int|
        0 <= i < s.kids.len() ==> {
            &&& child_of(nodes[(#[trigger] s.kids[i]).id.0 as int], s.id)
            &&& owned(nodes, s.kids[i])
        }
}

pub proof fn lemma_sizes_monotone(kids: Seq<Shape>, i: nat, n: nat)
    requires
        i < n <= kids.len(),
    ensures
        sizes(kids, i) + shape_size(kids[i as int]) <= sizes(kids, n),
    decreases n,
{
    if i + 1 < n {
        lemma_sizes_monotone(kids, i, (n - 1) as nat);
    }
}

/// The total of the first `n` shapes does not depend on the shapes after them.
pub proof fn lemma_sizes_prefix(a: Seq<Shape>, b: Seq<Shape>, n: nat)
    requires
        n <= a.len(),
        n <= b.len(),
        a.take(n as int) == b.take(n as int),
    ensures
        sizes(a, n) == sizes(b, n),
    decreases n,
{
    if n > 0 {
        assert(a.take(n as int)[n - 1] == b.take(n as int)[n - 1]);
        assert(a.take(n - 1) =~= a.take(n as int).take(n - 1));
        assert(b.take(n - 1) =~= b.take(n as int).take(n - 1));
        lemma_sizes_prefix(a, b, (n - 1) as nat);
        assert(a.take(n as int)[n - 1] == a[n - 1]);
        assert(b.take(n as int)[n - 1] == b[n - 1]);
        assert(sizes(a, n) == sizes(a, (n - 1) as nat) + shape_size(a[n - 1]));
        assert(sizes(b, n) == sizes(b, (n - 1) as nat) + shape_size(b[n - 1]));
    }
}

/// A subtree numbered in preorder reads only its own range of the arena, and
/// of the node at its top it does not read the sibling.
pub proof fn lemma_frame(a: Seq<Node>, b: Seq<Node>, s: Shape, start: int)
    requires
        linked(a, s),
        owned(a, s),
        preorder(s, start),
        start + shape_size(s) <= a.len(),
        start + shape_size(s) <= b.len(),
        body(a[start]) == body(b[start]),
        forall|i: int|
            start < i < start + shape_size(s) ==> b[i] == #[trigger] a[i],
    ensures
        linked(b, s),
        owned(b, s),
        forall|devices: Seq<u64>| #[trigger] entry_of(b, devices, s) == entry_of(a, devices, s),
    decreases s,
{
    let ids = tops(s.kids);
    assert forall|i: int| 0 <= i < s.kids.len() implies {
        &&& linked(b, #[trigger] s.kids[i])
        &&& owned(b, s.kids[i])
        &&& child_of(b[s.kids[i].id.0 as int], s.id)
        &&& step_at(nexts(b), ids, i)
        &&& forall|devices: Seq<u64>| #[trigger]
            entry_of(b, devices, s.kids[i]) == entry_of(a, devices, s.kids[i])
    } by {
        let at = start + 1 + sizes(s.kids, i as nat);
        lemma_sizes_monotone(s.kids, i as nat, s.kids.len());
        assert(preorder(s.kids[i], at));
        assert(linked(a, s.kids[i]));
        assert(a[at] == b[at]);
        assert(step_at(nexts(a), ids, i));
        lemma_frame(a, b, s.kids[i], at);
    }
    assert(first_child(a[start]) == first_child(b[start])) by {
        assert(first_child(a[start]) == first_child(body(a[start])));
        assert(first_child(b[start]) == first_child(body(b[start])));
    }
    assert forall|i: int| 0 <= i < ids.len() implies #[trigger] step_at(nexts(b), ids, i) by {
        assert(linked(b, s.kids[i]));
    }
    assert forall|devices: Seq<u64>| #[trigger]
        entry_of(b, devices, s) == entry_of(a, devices, s) by {
        assert forall|i: int| 0 <= i < s.kids.len() implies entries_of(b, devices, s.kids)[i]
            == entries_of(a, devices, s.kids)[i] by {
            assert(linked(b, s.kids[i]));
            assert(entry_of(b, devices, s.kids[i]) == entry_of(a, devices, s.kids[i]));
        }
        assert(entries_of(b, devices, s.kids) =~= entries_of(a, devices, s.kids));
        assert(head_of(a[start], devices) == head_of(body(a[start]), devices));
        assert(head_of(b[start], devices) == head_of(body(b[start]), devices));
    }
}

/// A node without children is a shape of its own.
pub proof fn lemma_leaf(nodes: Seq<Node>, s: Shape)
    requires
        s.kids.len() == 0,
        valid_id(nodes, s.id),
        first_child(nodes[s.id.0 as int]) == EntryId::none(),
    ensures
        linked(nodes, s),
        owned(nodes, s),
        preorder(s, s.id.0 as int),
        shape_size(s) == 1,
{
}

/// Every directory of the arena is on a device of the table.
pub open spec fn devices_known(nodes: Seq<Node>, devices: Seq<u64>) -> bool {
    forall|i: int|
        0 <= i < nodes.len() ==> ((#[trigger] nodes[i]).kind matches NodeKind::Dir(d) ==> d.dev
            < devices.len())
}

impl Tree {
    /// The device table is in order, names the device of every directory, and
    /// has no more devices than there are nodes.
    pub open spec fn devices_ok(&self) -> bool {
        &&& self.devices.wf()
        &&& self.devices@.len() <= self.nodes@.len()
        &&& devices_known(self.nodes@, self.devices@)
    }
}

/// A longer device table reads the same subtree.
pub proof fn lemma_more_devices(nodes: Seq<Node>, a: Seq<u64>, b: Seq<u64>, s: Shape)
    requires
        linked(nodes, s),
        devices_known(nodes, a),
        a.is_prefix_of(b),
    ensures
        entry_of(nodes, b, s) == entry_of(nodes, a, s),
    decreases s,
{
    assert forall|i: int| 0 <= i < s.kids.len() implies entries_of(nodes, b, s.kids)[i]
        == entries_of(nodes, a, s.kids)[i] by {
        assert(linked(nodes, s.kids[i]));
        lemma_more_devices(nodes, a, b, s.kids[i]);
    }
    assert(entries_of(nodes, b, s.kids) =~= entries_of(nodes, a, s.kids));
    let n = nodes[s.id.0 as int];
    if let NodeKind::Dir(d) = n.kind {
        assert(d.dev < a.len());
        assert(a[d.dev as int] == b[d.dev as int]);
    }
}

/// `s` with one more child at the end.
pub open spec fn with_kid(s: Shape, kid: Shape) -> Shape {
    Shape { id: s.id, kids: s.kids.push(kid) }
}

/// From `a` to `b` the subtree `kid`, which follows `s` in the arena, has been
/// linked as the last child of `s`. But for the links the nodes are the same;
/// of the node at the top of `s` only the reference to its children is read.
pub open spec fn adopted(a: Seq<Node>, b: Seq<Node>, s: Shape, kid: Shape) -> bool {
    let start = s.id.0 as int;
    let at = kid.id.0 as int;
    let n = s.kids.len();
    let last = s.kids[n - 1].id.0 as int;
    &&& at + shape_size(kid) <= b.len()
    &&& first_child(b[start]) == (if n == 0 {
        kid.id
    } else {
        first_child(a[start])
    })
    &&& n > 0 ==> body(b[last]) == body(a[last]) && b[last].common.next == kid.id && (forall|p: EntryId|
        child_of(a[last], p) ==> #[trigger] child_of(b[last], p))
    &&& body(b[at]) == body(a[at])
    &&& b[at].common.next == EntryId::none()
    &&& child_of(b[at], s.id)
    &&& forall|i: int|
        start < i < at + shape_size(kid) && i != at && (n > 0 ==> i != last) ==> b[i]
            == #[trigger] a[i]
}

/// A child that was there before the last one was linked keeps its place.
proof fn lemma_adopt_other(a: Seq<Node>, b: Seq<Node>, s: Shape, kid: Shape, i: int)
    requires
        linked(a, s),
        owned(a, s),
        preorder(s, s.id.0 as int),
        kid.id.0 == s.id.0 + shape_size(s),
        kid.id.0 + shape_size(kid) <= a.len(),
        adopted(a, b, s, kid),
        0 <= i < s.kids.len(),
    ensures
        linked(b, s.kids[i]),
        owned(b, s.kids[i]),
        child_of(b[s.kids[i].id.0 as int], s.id),
        step_at(nexts(b), tops(s.kids).push(kid.id), i),
        preorder(s.kids[i], s.id.0 + 1 + sizes(s.kids, i as nat)),
        forall|devices: Seq<u64>| #[trigger]
            entry_of(b, devices, s.kids[i]) == entry_of(a, devices, s.kids[i]),
{
    let n = s.kids.len();
    let k = s.kids[i];
    let ids = tops(s.kids);
    let from = s.id.0 + 1 + sizes(s.kids, i as nat);
    lemma_sizes_monotone(s.kids, i as nat, n);
    assert(preorder(k, from));
    assert(linked(a, k));
    assert(step_at(nexts(a), ids, i));
    assert(child_of(a[k.id.0 as int], s.id));
    if i < n - 1 {
        lemma_sizes_monotone(s.kids, i as nat, (n - 1) as nat);
        assert(preorder(s.kids[n - 1], s.id.0 + 1 + sizes(s.kids, (n - 1) as nat)));
        assert(b[from] == a[from]);
    }
    lemma_frame(a, b, k, from);
}

/// The child that was linked last, and the room that it takes.
proof fn lemma_adopt_last(a: Seq<Node>, b: Seq<Node>, s: Shape, kid: Shape)
    requires
        linked(a, s),
        preorder(s, s.id.0 as int),
        linked(a, kid),
        owned(a, kid),
        preorder(kid, kid.id.0 as int),
        kid.id.0 == s.id.0 + shape_size(s),
        kid.id.0 + shape_size(kid) <= a.len(),
        adopted(a, b, s, kid),
    ensures
        linked(b, kid),
        owned(b, kid),
        forall|devices: Seq<u64>| #[trigger]
            entry_of(b, devices, kid) == entry_of(a, devices, kid),
        shape_size(with_kid(s, kid)) == shape_size(s) + shape_size(kid),
        preorder(with_kid(s, kid), s.id.0 as int),
        tops(with_kid(s, kid).kids) == tops(s.kids).push(kid.id),
{
    let t = with_kid(s, kid);
    let start = s.id.0 as int;
    let n = s.kids.len();
    if n > 0 {
        lemma_sizes_monotone(s.kids, (n - 1) as nat, n);
        assert(preorder(s.kids[n - 1], start + 1 + sizes(s.kids, (n - 1) as nat)));
        assert(s.kids[n - 1].id.0 < kid.id.0);
    }
    lemma_frame(a, b, kid, kid.id.0 as int);
    assert(t.kids.take(n as int) =~= s.kids.take(n as int));
    lemma_sizes_prefix(s.kids, t.kids, n);
    assert(sizes(t.kids, (n + 1) as nat) == sizes(t.kids, n) + shape_size(kid));
    assert forall|i: int| 0 <= i < t.kids.len() implies preorder(
        #[trigger] t.kids[i],
        start + 1 + sizes(t.kids, i as nat),
    ) by {
        if i < n {
            assert(t.kids[i] == s.kids[i]);
            assert(t.kids.take(i) =~= s.kids.take(i));
            lemma_sizes_prefix(s.kids, t.kids, i as nat);
            assert(preorder(s.kids[i], start + 1 + sizes(s.kids, i as nat)));
        }
    }
    assert(tops(t.kids) =~= tops(s.kids).push(kid.id));
}

/// Linking a subtree as the last child gives the shape with that child.
pub proof fn lemma_adopt(a: Seq<Node>, b: Seq<Node>, s: Shape, kid: Shape)
    requires
        linked(a, s),
        owned(a, s),
        preorder(s, s.id.0 as int),
        linked(a, kid),
        owned(a, kid),
        preorder(kid, kid.id.0 as int),
        kid.id.0 == s.id.0 + shape_size(s),
        kid.id.0 + shape_size(kid) <= a.len(),
        adopted(a, b, s, kid),
    ensures
        linked(b, with_kid(s, kid)),
        owned(b, with_kid(s, kid)),
        preorder(with_kid(s, kid), s.id.0 as int),
        shape_size(with_kid(s, kid)) == shape_size(s) + shape_size(kid),
        forall|devices: Seq<u64>| #[trigger]
            entries_of(b, devices, with_kid(s, kid).kids) == entries_of(a, devices, s.kids).push(
                entry_of(a, devices, kid),
            ),
{
    let t = with_kid(s, kid);
    let start = s.id.0 as int;
    let n = s.kids.len();
    let now = tops(t.kids);
    lemma_adopt_last(a, b, s, kid);
    assert forall|i: int| 0 <= i < t.kids.len() implies {
        &&& linked(b, #[trigger] t.kids[i])
        &&& owned(b, t.kids[i])
        &&& child_of(b[t.kids[i].id.0 as int], t.id)
        &&& step_at(nexts(b), now, i)
        &&& forall|devices: Seq<u64>| #[trigger]
            entry_of(b, devices, t.kids[i]) == entry_of(a, devices, t.kids[i])
    } by {
        if i < n {
            assert(t.kids[i] == s.kids[i]);
            lemma_adopt_other(a, b, s, kid, i);
        }
    }
    assert forall|i: int| 0 <= i < now.len() implies #[trigger] step_at(nexts(b), now, i) by {
        assert(linked(b, t.kids[i]));
    }
    assert(siblings(b, first_child(b[start]), now)) by {
        assert(first_child(a[start]) == id_at(tops(s.kids), 0));
    }
    assert forall|devices: Seq<u64>| #[trigger]
        entries_of(b, devices, t.kids) == entries_of(a, devices, s.kids).push(
            entry_of(a, devices, kid),
        ) by {
        let want = entries_of(a, devices, s.kids).push(entry_of(a, devices, kid));
        assert forall|i: int| 0 <= i < t.kids.len() implies entries_of(b, devices, t.kids)[i]
            == want[i] by {
            assert(linked(b, t.kids[i]));
            assert(entry_of(b, devices, t.kids[i]) == entry_of(a, devices, t.kids[i]));
        }
        assert(entries_of(b, devices, t.kids) =~= want);
    }
}

/// The ids of a shape, each directory before its children.
pub open spec fn flat(s: Shape) -> Seq<EntryId>
    decreases s, 0nat,
{
    seq![s.id] + flats(s.kids, s.kids.len())
}

/// The ids of the first `n` of a list of shapes.
pub open spec fn flats(kids: Seq<Shape>, n: nat) -> Seq<EntryId>
    decreases kids, n,
{
    if n == 0 || n > kids.len() {
        Seq::empty()
    } else {
        flats(kids, (n - 1) as nat) + flat(kids[n - 1])
    }
}

/// Ids that are numbered in preorder are numbered without gaps.
pub proof fn lemma_flat_preorder(s: Shape, start: int)
    requires
        preorder(s, start),
    ensures
        flat(s).len() == shape_size(s),
        forall|i: int| 0 <= i < flat(s).len() ==> (#[trigger] flat(s)[i]).0 == start + i,
    decreases s, 0nat,
{
    lemma_flats_preorder(s.kids, s.kids.len(), start + 1);
    assert forall|i: int| 0 <= i < flat(s).len() implies (#[trigger] flat(s)[i]).0 == start
        + i by {
        if i > 0 {
            assert(flat(s)[i] == flats(s.kids, s.kids.len())[i - 1]);
        }
    }
}

proof fn lemma_flats_preorder(kids: Seq<Shape>, n: nat, start: int)
    requires
        n <= kids.len(),
        forall|i: int|
            0 <= i < kids.len() ==> preorder(#[trigger] kids[i], start + sizes(kids, i as nat)),
    ensures
        flats(kids, n).len() == sizes(kids, n),
        forall|i: int|
            0 <= i < flats(kids, n).len() ==> (#[trigger] flats(kids, n)[i]).0 == start + i,
    decreases kids, n,
{
    if n > 0 {
        let m = (n - 1) as nat;
        lemma_flats_preorder(kids, m, start);
        lemma_flat_preorder(kids[n - 1], start + sizes(kids, m));
        assert forall|i: int| 0 <= i < flats(kids, n).len() implies (
        #[trigger] flats(kids, n)[i]).0 == start + i by {
            if i < flats(kids, m).len() {
                assert(flats(kids, n)[i] == flats(kids, m)[i]);
            } else {
                assert(flats(kids, n)[i] == flat(kids[n - 1])[i - flats(kids, m).len()]);
            }
        }
    }
}

/// A whole tree hangs below its root: following the links visits no node
/// twice, every child records its parent, and the root has none.
pub open spec fn rooted(nodes: Seq<Node>, s: Shape) -> bool {
    &&& linked(nodes, s)
    &&& owned(nodes, s)
    &&& flat(s).no_duplicates()
    &&& child_of(nodes[s.id.0 as int], EntryId::none())
    &&& nodes[s.id.0 as int].common.next == EntryId::none()
}

impl Tree {
    /// The links below the root form a tree.
    pub open spec fn proper(&self) -> bool {
        &&& self.has_entry(self.root)
        &&& rooted(self.nodes@, shape_at(self.nodes@, self.root))
    }
}

/// Following `next` from `head` until it ends or leaves the arena. An arena in
/// which siblings come in ascending order of ids is assumed.
pub open spec fn chain(nodes: Seq<Node>, head: EntryId) -> Seq<EntryId>
    decreases u32::MAX - head.0,
{
    if head.0 < nodes.len() {
        let next = nodes[head.0 as int].common.next;
        if next.0 > head.0 {
            seq![head] + chain(nodes, next)
        } else {
            seq![head]
        }
    } else {
        Seq::empty()
    }
}

/// The children of a node, first to last.
pub open spec fn children(nodes: Seq<Node>, id: EntryId) -> Seq<EntryId> {
    chain(nodes, first_child(nodes[id.0 as int]))
}

/// The reference is null or leads from `i` to a later node of the arena.
pub open spec fn onward(nodes: Seq<Node>, i: int, id: EntryId) -> bool {
    id == EntryId::none() || i < id.0 < nodes.len()
}

/// Every link to a child or a sibling leads to a later node.
pub open spec fn ascending(nodes: Seq<Node>) -> bool {
    &&& nodes.len() <= u32::MAX
    &&& forall|i: int|
        0 <= i < nodes.len() ==> {
            &&& onward(nodes, i, (#[trigger] nodes[i]).common.next)
            &&& onward(nodes, i, first_child(nodes[i]))
        }
}

/// No node is linked to from two places.
pub open spec fn unshared(nodes: Seq<Node>) -> bool {
    &&& forall|i: int, j: int|
        0 <= i < nodes.len() && 0 <= j < nodes.len() && i != j && (
        #[trigger] nodes[i]).common.next != EntryId::none() ==> nodes[i].common.next != (
        #[trigger] nodes[j]).common.next
    &&& forall|i: int, j: int|
        0 <= i < nodes.len() && 0 <= j < nodes.len() && i != j && first_child(
            #[trigger] nodes[i],
        ) != EntryId::none() ==> first_child(nodes[i]) != first_child(#[trigger] nodes[j])
    &&& forall|i: int, j: int|
        0 <= i < nodes.len() && 0 <= j < nodes.len() && first_child(#[trigger] nodes[i])
            != EntryId::none() ==> first_child(nodes[i]) != (#[trigger] nodes[j]).common.next
}

/// In an arena with ascending links every list of siblings ends.
pub proof fn lemma_chain(nodes: Seq<Node>, head: EntryId)
    requires
        ascending(nodes),
        head == EntryId::none() || head.0 < nodes.len(),
    ensures
        siblings(nodes, head, chain(nodes, head)),
    decreases u32::MAX - head.0,
{
    let ids = chain(nodes, head);
    if head.0 < nodes.len() {
        let next = nodes[head.0 as int].common.next;
        assert(onward(nodes, head.0 as int, next));
        lemma_chain(nodes, next);
        let rest = chain(nodes, next);
        assert(ids =~= seq![head] + rest);
        assert forall|i: int| 0 <= i < ids.len() implies #[trigger] step_at(
            nexts(nodes),
            ids,
            i,
        ) by {
            if i > 0 {
                assert(step_at(nexts(nodes), rest, i - 1));
                assert(ids[i] == rest[i - 1]);
            }
        }
    }
}

/// From `a` to `b` the subtree `kid` has been appended to the arena and linked
/// as the last child of `s`. But for that link nothing else below `s` has
/// changed.
pub open spec fn grafted(a: Seq<Node>, b: Seq<Node>, s: Shape, kid: Shape) -> bool {
    let start = s.id.0 as int;
    let at = kid.id.0 as int;
    let n = s.kids.len();
    let last = s.kids[n - 1].id.0 as int;
    &&& at == a.len()
    &&& at + shape_size(kid) <= b.len()
    &&& first_child(b[start]) == (if n == 0 {
        kid.id
    } else {
        first_child(a[start])
    })
    &&& n > 0 ==> b[last] == Node {
        common: EntryCommon { next: kid.id, ..a[last].common },
        ..a[last]
    }
    &&& b[at].common.next == EntryId::none()
    &&& child_of(b[at], s.id)
    &&& forall|i: int|
        start < i < a.len() && (n > 0 ==> i != last) ==> b[i] == #[trigger] a[i]
}

/// Appending and linking a subtree gives the shape with that child.
pub proof fn lemma_graft(a: Seq<Node>, b: Seq<Node>, s: Shape, kid: Shape)
    requires
        linked(a, s),
        owned(a, s),
        preorder(s, s.id.0 as int),
        s.id.0 + shape_size(s) == a.len(),
        linked(b, kid),
        owned(b, kid),
        preorder(kid, kid.id.0 as int),
        grafted(a, b, s, kid),
    ensures
        linked(b, with_kid(s, kid)),
        owned(b, with_kid(s, kid)),
        preorder(with_kid(s, kid), s.id.0 as int),
        shape_size(with_kid(s, kid)) == shape_size(s) + shape_size(kid),
        forall|devices: Seq<u64>| #[trigger]
            entries_of(b, devices, with_kid(s, kid).kids) == entries_of(a, devices, s.kids).push(
                entry_of(b, devices, kid),
            ),
{
    let at = kid.id.0 as int;
    let m = a + b.skip(at);
    assert(m.len() == b.len());
    assert forall|i: int| 0 <= i < a.len() implies m[i] == #[trigger] a[i] by {}
    assert forall|i: int| at <= i < b.len() implies m[i] == #[trigger] b[i] by {
        assert(m[i] == b.skip(at)[i - at]);
    }
    lemma_frame(a, m, s, s.id.0 as int);
    lemma_frame(b, m, kid, at);
    let n = s.kids.len();
    if n > 0 {
        lemma_sizes_monotone(s.kids, (n - 1) as nat, n);
        assert(preorder(s.kids[n - 1], s.id.0 + 1 + sizes(s.kids, (n - 1) as nat)));
    }
    assert forall|i: int|
        s.id.0 < i < at + shape_size(kid) && i != at && (n > 0 ==> i != s.kids[n - 1].id.0)
        implies b[i] == #[trigger] m[i] by {
        if i < a.len() {
            assert(b[i] == a[i]);
        } else {
            assert(m[i] == b[i]);
        }
    }
    assert(adopted(m, b, s, kid));
    lemma_adopt(m, b, s, kid);
    assert forall|devices: Seq<u64>| #[trigger]
        entries_of(b, devices, with_kid(s, kid).kids) == entries_of(a, devices, s.kids).push(
            entry_of(b, devices, kid),
        ) by {
        assert(entry_of(m, devices, s) == entry_of(a, devices, s));
        assert(entries_of(m, devices, s.kids) == entries_of(a, devices, s.kids));
        assert(entry_of(m, devices, kid) == entry_of(b, devices, kid));
    }
}

/// Of the node at the top of a subtree the links below read only the reference
/// to its children.
pub proof fn lemma_top(a: Seq<Node>, b: Seq<Node>, s: Shape, start: int)
    requires
        linked(a, s),
        owned(a, s),
        preorder(s, start),
        start + shape_size(s) <= a.len(),
        start + shape_size(s) <= b.len(),
        first_child(a[start]) == first_child(b[start]),
        forall|i: int|
            start < i < start + shape_size(s) ==> b[i] == #[trigger] a[i],
    ensures
        linked(b, s),
        owned(b, s),
        forall|devices: Seq<u64>| #[trigger]
            entries_of(b, devices, s.kids) == entries_of(a, devices, s.kids),
{
    let ids = tops(s.kids);
    assert forall|i: int| 0 <= i < s.kids.len() implies {
        &&& linked(b, #[trigger] s.kids[i])
        &&& owned(b, s.kids[i])
        &&& child_of(b[s.kids[i].id.0 as int], s.id)
        &&& step_at(nexts(b), ids, i)
        &&& forall|devices: Seq<u64>| #[trigger]
            entry_of(b, devices, s.kids[i]) == entry_of(a, devices, s.kids[i])
    } by {
        let at = start + 1 + sizes(s.kids, i as nat);
        lemma_sizes_monotone(s.kids, i as nat, s.kids.len());
        assert(preorder(s.kids[i], at));
        assert(linked(a, s.kids[i]));
        assert(a[at] == b[at]);
        assert(step_at(nexts(a), ids, i));
        lemma_frame(a, b, s.kids[i], at);
    }
    assert forall|i: int| 0 <= i < ids.len() implies #[trigger] step_at(nexts(b), ids, i) by {
        assert(linked(b, s.kids[i]));
    }
    assert forall|devices: Seq<u64>| #[trigger]
        entries_of(b, devices, s.kids) == entries_of(a, devices, s.kids) by {
        assert forall|i: int| 0 <= i < s.kids.len() implies entries_of(b, devices, s.kids)[i]
            == entries_of(a, devices, s.kids)[i] by {
            assert(linked(b, s.kids[i]));
            assert(entry_of(b, devices, s.kids[i]) == entry_of(a, devices, s.kids[i]));
        }
        assert(entries_of(b, devices, s.kids) =~= entries_of(a, devices, s.kids));
    }
}

/// The number of entries in a subtree.
pub open spec fn entry_size(e: Entry) -> nat
    decreases e, 0nat,
{
    1 + entry_sizes(e.children, e.children.len())
}

/// The number of entries in the first `n` of a list of subtrees.
pub open spec fn entry_sizes(children: Seq<Entry>, n: nat) -> nat
    decreases children, n,
{
    if n == 0 || n > children.len() {
        0
    } else {
        entry_sizes(children, (n - 1) as nat) + entry_size(children[n - 1])
    }
}

/// One subtree more in a list.
pub proof fn lemma_entries_push(children: Seq<Entry>, e: Entry)
    ensures
        entry_sizes(children.push(e), children.len() + 1) == entry_sizes(children, children.len())
            + entry_size(e),
        any_trouble_in(children.push(e), children.len() + 1) == (any_trouble_in(
            children,
            children.len(),
        ) || trouble_in(e)),
{
    lemma_entries_prefix(children, children.push(e), children.len());
}

proof fn lemma_entries_prefix(a: Seq<Entry>, b: Seq<Entry>, n: nat)
    requires
        n <= a.len() <= b.len(),
        forall|i: int| 0 <= i < a.len() ==> b[i] == #[trigger] a[i],
    ensures
        entry_sizes(a, n) == entry_sizes(b, n),
        any_trouble_in(a, n) == any_trouble_in(b, n),
    decreases n,
{
    if n > 0 {
        lemma_entries_prefix(a, b, (n - 1) as nat);
        assert(b[n - 1] == a[n - 1]);
    }
}

/// A scan error lies on the entry or below it, as far as the entry says.
pub open spec fn trouble_in(e: Entry) -> bool {
    match e.head.detail {
        Detail::Dir { err, suberr, .. } => err || suberr,
        _ => e.head.etype is Error,
    }
}

/// A scan error lies in one of the first `n` of a list of subtrees.
pub open spec fn any_trouble_in(children: Seq<Entry>, n: nat) -> bool
    decreases n,
{
    if n == 0 || n > children.len() {
        false
    } else {
        any_trouble_in(children, (n - 1) as nat) || trouble_in(children[n - 1])
    }
}

/// The device table once the directories of a subtree have been looked up in
/// it, each before those below it.
pub open spec fn devices_of(known: Seq<u64>, e: Entry) -> Seq<u64>
    decreases e, 0nat,
{
    let own = match e.head.detail {
        Detail::Dir { dev, .. } => listed(known, dev),
        _ => known,
    };
    devices_of_all(own, e.children, e.children.len())
}

/// The device table once the first `n` of a list of subtrees have been looked
/// up in it.
pub open spec fn devices_of_all(known: Seq<u64>, children: Seq<Entry>, n: nat) -> Seq<u64>
    decreases children, n,
{
    if n == 0 || n > children.len() {
        known
    } else {
        devices_of(devices_of_all(known, children, (n - 1) as nat), children[n - 1])
    }
}

/// Looking up one subtree more.
pub proof fn lemma_devices_push(known: Seq<u64>, children: Seq<Entry>, e: Entry)
    ensures
        devices_of_all(known, children.push(e), children.len() + 1) == devices_of(
            devices_of_all(known, children, children.len()),
            e,
        ),
{
    lemma_devices_prefix(known, children, children.push(e), children.len());
}

proof fn lemma_devices_prefix(known: Seq<u64>, a: Seq<Entry>, b: Seq<Entry>, n: nat)
    requires
        n <= a.len() <= b.len(),
        forall|i: int| 0 <= i < a.len() ==> b[i] == #[trigger] a[i],
    ensures
        devices_of_all(known, a, n) == devices_of_all(known, b, n),
    decreases n,
{
    if n > 0 {
        lemma_devices_prefix(known, a, b, (n - 1) as nat);
        assert(b[n - 1] == a[n - 1]);
    }
}

impl Tree {
    /// The tree is laid out in the order of its entries: ids count up from the
    /// root, each directory before its children, and devices come in the order
    /// in which directories first are on them.
    pub open spec fn in_sequence(&self) -> bool {
        let s = shape_at(self.nodes@, self.root);
        &&& self.root == EntryId(0)
        &&& preorder(s, 0)
        &&& shape_size(s) == self.nodes@.len()
        &&& self.devices@ == devices_of(Seq::empty(), self.entry(self.root))
        &&& self.devices@.no_duplicates()
    }
}

} // verus!
