//! Sink for scan results: builds a [`Tree`] in memory.
//!
//! A directory is filled through a [`MemSinkDir`] handle, and
//! [`MemSinkDir::finalize`] flushes its totals.

use vstd::prelude::*;

use crate::arena::{
    all_spare_unset, lemma_enter_inode, lemma_has_shape, lemma_no_common_child, lemma_push_inode,
    lemma_rooted, lemma_same_inodes, lemma_siblings_ascend, link_in_place, link_key, parented,
    registered, same_inodes, same_spare, seated, spare_unset,
};
use crate::model::{
    fresh_node, inode_key, listed, with_link, DevId, DirData, EType, EntryCommon, EntryId, Ext,
    Inodes, LinkData, Node, NodeKind, Tree,
};
use crate::num::{capped, capped32, capped_sum};
use crate::rings::{
    bare, is_ring, lemma_first_link, lemma_links, lemma_links_same, lemma_push_keys,
    lemma_push_ring, lemma_same_rings, links_of, links_upto, loose, ringed, same_ring, tie_next,
    tied_at, untied,
};
use crate::shape::{
    ascending, chain, child_of, children, devices_known, first_child, id_at, lemma_chain,
    lemma_walk_unique, nexts, onward, parent_of, shape_at, siblings, step_at, unshared, valid_id,
};

verus! {

/// Stat fields captured by the scanner. `etype` selects which `NodeKind` the
/// sink will build.
#[derive(Copy, Clone, Debug)]
pub struct Stat {
    pub etype: EType,
    /// Apparent size in bytes.
    pub size: u64,
    /// 512-byte blocks.
    pub blocks: u64,
    pub dev: u64,
    pub ino: u64,
    pub nlink: u32,
    pub ext: Ext,
}

impl Default for Stat {
    fn default() -> (r: Self)
        ensures
            r.etype == EType::Reg,
            r.size == 0,
            r.blocks == 0,
            r.dev == 0,
            r.ino == 0,
            r.nlink == 0,
            r.ext.none(),
    {
        Stat {
            etype: EType::Reg,
            size: 0,
            blocks: 0,
            dev: 0,
            ino: 0,
            nlink: 0,
            ext: Ext::default(),
        }
    }
}

/// In-memory sink. Owns the [`Tree`] being built and exposes [`MemSinkDir`]
/// handles for accumulating children.
pub struct MemSink {
    /// The tree as built so far.
    pub tree: Tree,
    /// Aggregate per-dir blocks/size into ancestor totals. Disable for refresh
    /// scenarios where totals are recomputed later. Defaults to `true`.
    pub aggregate_stats: bool,
}

/// The tree as built so far.
impl View for MemSink {
    type V = Tree;

    open spec fn view(&self) -> Tree {
        self.tree
    }
}

/// Handle to an in-progress directory. The scanner accumulates child entries
/// here and calls [`MemSinkDir::finalize`] to flush totals into the parent.
pub struct MemSinkDir {
    /// Underlying tree node id.
    id: EntryId,
    /// Totals contributed by descendants, added to the parent at `finalize`.
    sub_blocks: u64,
    sub_size: u64,
    sub_items: u32,
    suberr: bool,
}

/// What a directory handle has gathered: the node it fills, the totals of the
/// descendants, and whether one of them had a scan error.
pub struct Gathered {
    pub id: EntryId,
    pub blocks: u64,
    pub size: u64,
    pub items: u32,
    pub suberr: bool,
}

impl View for MemSinkDir {
    type V = Gathered;

    closed spec fn view(&self) -> Gathered {
        Gathered {
            id: self.id,
            blocks: self.sub_blocks,
            size: self.sub_size,
            items: self.sub_items,
            suberr: self.suberr,
        }
    }
}

/// A handle to a directory that has nothing in it yet.
pub open spec fn nothing_in(id: EntryId) -> Gathered {
    Gathered { id, blocks: 0, size: 0, items: 0, suberr: false }
}

/// What a handle has gathered once one more entry has been added, if totals
/// are kept (`on`).
pub open spec fn tally(d: Gathered, on: bool, blocks: u64, size: u64, err: bool) -> Gathered {
    if on {
        Gathered {
            id: d.id,
            blocks: capped((d.blocks + blocks) as nat),
            size: capped((d.size + size) as nat),
            items: (d.items + 1) as u32,
            suberr: d.suberr || err,
        }
    } else {
        d
    }
}

/// The extended metadata to record, which is none where nothing is known.
pub open spec fn recorded_ext(ext: Ext) -> Option<Ext> {
    if ext.none() {
        None
    } else {
        Some(ext)
    }
}

/// A node with what the scanner found out about an entry.
pub open spec fn stat_node(
    n: Node,
    etype: EType,
    name: Seq<char>,
    stat: Stat,
    dev: DevId,
    parent: EntryId,
) -> bool {
    &&& n.common.name@ == name
    &&& n.common.etype == etype
    &&& n.common.size == stat.size
    &&& n.common.blocks == stat.blocks
    &&& n.common.ext == recorded_ext(stat.ext)
    &&& n.common.next == EntryId::none()
    &&& n.kind == match etype {
        EType::Dir => NodeKind::Dir(DirData { dev, parent, ..DirData::blank() }),
        EType::Link => NodeKind::Link(
            LinkData { ino: stat.ino, nlink: stat.nlink, parent, ..LinkData::blank() },
        ),
        _ => NodeKind::File,
    }
}

/// The node with another first child, if it is a directory.
pub open spec fn with_sub(n: Node, sub: EntryId) -> Node {
    match n.kind {
        NodeKind::Dir(d) => Node { kind: NodeKind::Dir(DirData { sub, ..d }), ..n },
        _ => n,
    }
}

/// The node with another next sibling.
pub open spec fn with_next(n: Node, next: EntryId) -> Node {
    Node { common: EntryCommon { next, ..n.common }, ..n }
}

/// The node with the mark of an error further down, if it is a directory.
pub open spec fn with_suberr(n: Node) -> Node {
    match n.kind {
        NodeKind::Dir(d) => Node { kind: NodeKind::Dir(DirData { suberr: true, ..d }), ..n },
        _ => n,
    }
}

/// The node with the mark of an error of its own, if it is a directory.
pub open spec fn with_err(n: Node) -> Node {
    match n.kind {
        NodeKind::Dir(d) => Node { kind: NodeKind::Dir(DirData { err: true, ..d }), ..n },
        _ => n,
    }
}

/// The id of the device that a directory is on.
pub open spec fn device_id_of(n: Node) -> DevId {
    match n.kind {
        NodeKind::Dir(d) => d.dev,
        _ => 0,
    }
}

/// The arena once `child` has been linked as the last child of `dir`.
pub open spec fn hang(nodes: Seq<Node>, dir: EntryId, child: EntryId) -> Seq<Node> {
    let kids = children(nodes, dir);
    if kids.len() == 0 {
        nodes.update(dir.0 as int, with_sub(nodes[dir.0 as int], child))
    } else {
        let last = kids.last().0 as int;
        nodes.update(last, with_next(nodes[last], child))
    }
}

impl MemSink {
    /// Links lead on in the arena, no node is linked to twice, children record
    /// their parent, nothing links to the root, the device table and the inode
    /// table are in order, and the Links of every inode form a ring. No node
    /// uses the fields for statistics of shared hardlinks.
    pub open spec fn wf(&self) -> bool {
        &&& ascending(self@.nodes@)
        &&& unshared(self@.nodes@)
        &&& parented(self@.nodes@)
        &&& seated(self@.nodes@, self@.root)
        &&& self@.devices_ok()
        &&& self@.inodes_ok()
        &&& ringed(self@.nodes@)
        &&& all_spare_unset(self@.nodes@)
    }

    /// The arena, but for the rings of Links, which `wf` settles.
    pub open spec fn plain(&self) -> Seq<Node> {
        bare(self@.nodes@)
    }

    /// Whether totals are kept.
    pub open spec fn aggregates(&self) -> bool {
        self.aggregate_stats
    }

    pub fn new() -> (r: Self)
        ensures
            r.wf(),
            r.aggregates(),
            r@.nodes@.len() == 0,
            r@.root == EntryId::none(),
            r@.devices@.len() == 0,
            r@.inodes.unused(),
    {
        Self { tree: Tree::new(), aggregate_stats: true }
    }

    pub fn tree(&self) -> (r: &Tree)
        ensures
            *r == self@,
    {
        &self.tree
    }

    /// The tree that was built. Its links form a tree below the root.
    pub fn into_tree(self) -> (r: Tree)
        ensures
            r == self@,
            self.wf() ==> forall|id: EntryId|
                valid_id(r.nodes@, id) ==> #[trigger] r.has_entry(id),
            self.wf() && r.root != EntryId::none() ==> r.proper(),
            self.wf() ==> r.devices_ok() && r.inodes_ok() && ringed(r.nodes@),
            self.wf() ==> all_spare_unset(r.nodes@),
    {
        proof {
            if self.wf() {
                let nodes = self.tree.nodes@;
                let root = self.tree.root;
                assert forall|id: EntryId| valid_id(nodes, id) implies #[trigger] self.tree.has_entry(
                    id,
                ) by {
                    lemma_has_shape(nodes, id);
                }
                if root != EntryId::none() {
                    lemma_has_shape(nodes, root);
                    lemma_rooted(nodes, root, shape_at(nodes, root));
                }
            }
        }
        self.tree
    }
}

impl Default for MemSink {
    fn default() -> (r: Self)
        ensures
            r.wf(),
            r.aggregates(),
            r@.nodes@.len() == 0,
            r@.root == EntryId::none(),
            r@.devices@.len() == 0,
            r@.inodes.unused(),
    {
        Self::new()
    }
}

impl MemSink {
    /// Appends a node with what the scanner found out about an entry.
    fn add_node(&mut self, etype: EType, name: &str, stat: &Stat, parent: EntryId) -> (id: EntryId)
        requires
            old(self).wf(),
            old(self)@.nodes@.len() < u32::MAX,
            etype is Link ==> valid_id(old(self)@.nodes@, parent)
                && old(self)@.nodes@[parent.0 as int].kind is Dir,
        ensures
            final(self).wf(),
            final(self).aggregates() == old(self).aggregates(),
            id == EntryId(old(self)@.nodes@.len() as u32),
            final(self).plain() == old(self).plain().push(final(self).plain().last()),
            !(etype is Link) ==> final(self)@.nodes@ == old(self)@.nodes@.push(
                final(self)@.nodes@.last(),
            ),
            final(self)@.devices@ == (if etype is Dir {
                listed(old(self)@.devices@, stat.dev)
            } else {
                old(self)@.devices@
            }),
            final(self)@.root == old(self)@.root,
            final(self)@.inodes.map@ == (if etype is Link {
                with_link(
                    old(self)@.inodes.map@,
                    inode_key(device_id_of(old(self)@.nodes@[parent.0 as int]), stat.ino),
                    id,
                )
            } else {
                old(self)@.inodes.map@
            }),
            stat_node(
                final(self).plain().last(),
                etype,
                name@,
                *stat,
                final(self)@.devices@.index_of(stat.dev) as u32,
                parent,
            ),
            etype is Dir ==> final(self)@.devices@.contains(stat.dev),
    {
        let ghost before = self.tree.nodes@;
        let ghost known = self.tree.devices@;
        let mut dev: DevId = 0;
        let is_dir = match etype {
            EType::Dir => true,
            _ => false,
        };
        if is_dir {
            dev = self.tree.devices.get_id(stat.dev);
        }
        let id = self.tree.create(etype, name);
        let node = self.tree.get_mut(id);
        node.common.size = stat.size;
        node.common.blocks = stat.blocks;
        if !stat.ext.is_empty() {
            node.common.ext = Some(stat.ext);
        }
        match &mut node.kind {
            NodeKind::Dir(d) => {
                d.dev = dev;
                d.parent = parent;
            },
            NodeKind::Link(l) => {
                l.ino = stat.ino;
                l.nlink = stat.nlink;
                l.parent = parent;
            },
            NodeKind::File => {},
        }
        let ghost table = self.tree.inodes.map@;
        let ghost pushed = self.tree.nodes@;
        let is_link = match etype {
            EType::Link => true,
            _ => false,
        };
        if is_link {
            let place: DevId = match &self.tree.get(parent).kind {
                NodeKind::Dir(d) => d.dev,
                _ => 0,
            };
            let key: u128 = Inodes::key(place, stat.ino);
            let first: EntryId = match self.tree.inodes.map.get(&key) {
                Some(first) => *first,
                None => id,
            };
            self.tree.inodes.enter(place, stat.ino, id);
            proof {
                let nodes = self.tree.nodes@;
                let n = nodes.last();
                assert(nodes =~= before.push(n));
                lemma_before_tying(before, n, table, key);
            }
            tie_next(&mut self.tree, id, first, Ghost(key));
        }
        proof {
            let nodes = self.tree.nodes@;
            let n = pushed.last();
            assert(pushed =~= before.push(n));
            lemma_new_inode(before, n, parent, table);
            assert(first_child(n) == EntryId::none());
            lemma_push_node(before, n);
            lemma_push_keeps(before, n, self.tree.root);
            assert forall|i: int| 0 <= i < pushed.len() implies ((
            #[trigger] pushed[i]).kind matches NodeKind::Dir(d) ==> d.dev
                < self.tree.devices@.len()) by {
                if i < before.len() {
                    assert(pushed[i] == before[i]);
                }
            }
            assert forall|i: int| 0 <= i < pushed.len() implies spare_unset(
                #[trigger] pushed[i],
            ) by {
                if i < before.len() {
                    assert(pushed[i] == before[i]);
                }
            }
            assert(bare(pushed) =~= bare(before).push(untied(n)));
            if is_link {
                lemma_bare_links(pushed, nodes);
                lemma_same_order(pushed, nodes, self.tree.root);
                lemma_same_inodes(pushed, nodes, self.tree.inodes.map@);
                assert forall|i: int| 0 <= i < nodes.len() implies ((
                #[trigger] nodes[i]).kind matches NodeKind::Dir(d) ==> d.dev
                    < self.tree.devices@.len()) && spare_unset(nodes[i]) by {
                    assert(spare_unset(pushed[i]));
                }
            } else {
                lemma_push_ring(before, n, table);
            }
        }
        id
    }

    /// Allocates the root directory. Must be called exactly once before any
    /// per-dir operations.
    pub fn create_root(&mut self, name: &str, stat: &Stat) -> (dir: MemSinkDir)
        requires
            old(self).wf(),
            old(self)@.nodes@.len() < u32::MAX,
        ensures
            final(self).wf(),
            final(self).aggregates() == old(self).aggregates(),
            dir@ == nothing_in(EntryId(old(self)@.nodes@.len() as u32)),
            open_in(dir@, final(self)@),
            final(self)@.root == dir@.id,
            final(self)@.nodes@ == old(self)@.nodes@.push(final(self)@.nodes@.last()),
            final(self)@.devices@ == listed(old(self)@.devices@, stat.dev),
            final(self)@.devices@.contains(stat.dev),
            final(self)@.inodes.map@ == old(self)@.inodes.map@,
            stat_node(
                final(self)@.nodes@.last(),
                EType::Dir,
                name@,
                *stat,
                final(self)@.devices@.index_of(stat.dev) as u32,
                EntryId::none(),
            ),
    {
        let ghost before = self.tree.nodes@;
        let id = self.add_node(EType::Dir, name, stat, EntryId::none());
        self.tree.root = id;
        proof {
            let nodes = self.tree.nodes@;
            assert forall|i: int| 0 <= i < nodes.len() implies (#[trigger] nodes[i]).common.next
                != id && first_child(nodes[i]) != id by {
                if i < before.len() {
                    assert(nodes[i] == before[i]);
                    assert(onward(before, i, before[i].common.next));
                }
            }
        }
        MemSinkDir { id, sub_blocks: 0, sub_size: 0, sub_items: 0, suberr: false }
    }
}

/// Two arenas that agree but for the rings have the same links.
proof fn lemma_bare_links(a: Seq<Node>, b: Seq<Node>)
    requires
        bare(a) == bare(b),
    ensures
        same_links(a, b),
{
    assert(a.len() == bare(a).len() && b.len() == bare(b).len());
    assert forall|i: int| 0 <= i < a.len() implies untied(#[trigger] b[i]) == untied(a[i]) by {
        assert(bare(a)[i] == untied(a[i]));
        assert(bare(b)[i] == untied(b[i]));
    }
}

/// What the rings leave out does not touch the order of the arena.
pub proof fn lemma_plain(nodes: Seq<Node>)
    requires
        ascending(nodes),
        unshared(nodes),
        parented(nodes),
    ensures
        same_links(nodes, bare(nodes)),
        ascending(bare(nodes)),
        unshared(bare(nodes)),
        parented(bare(nodes)),
        forall|devices: Seq<u64>| #[trigger]
            devices_known(nodes, devices) ==> devices_known(bare(nodes), devices),
{
    assert(bare(bare(nodes)) =~= bare(nodes));
    lemma_bare_links(nodes, bare(nodes));
    lemma_same_order(nodes, bare(nodes), EntryId::none());
}

/// Linking a new child does not touch the rings.
proof fn lemma_hang_bare(nodes: Seq<Node>, n: Node, dir: EntryId)
    requires
        ascending(nodes),
        unshared(nodes),
        nodes.len() < u32::MAX,
        n.common.next == EntryId::none(),
        first_child(n) == EntryId::none(),
        valid_id(nodes, dir),
        nodes[dir.0 as int].kind is Dir,
    ensures
        ({
            let id = EntryId(nodes.len() as u32);
            let all = hang(nodes.push(n), dir, id);
            &&& bare(all) == hang(bare(nodes).push(untied(n)), dir, id)
            &&& bare(all)[id.0 as int] == untied(n)
            &&& all.len() == nodes.len() + 1
            &&& all[dir.0 as int].kind is Dir
            &&& all[id.0 as int] == n
        }),
{
    let id = EntryId(nodes.len() as u32);
    let more = nodes.push(n);
    lemma_hang(nodes, n, dir);
    assert(bare(more) =~= bare(nodes).push(untied(n)));
    assert(bare(bare(more)) =~= bare(more));
    lemma_bare_links(more, bare(more));
    assert(first_child(bare(more)[dir.0 as int]) == first_child(more[dir.0 as int]));
    lemma_same_chain(more, bare(more), first_child(more[dir.0 as int]));
    let kids = children(nodes, dir);
    if kids.len() > 0 {
        assert(step_at(nexts(nodes), kids, kids.len() - 1));
    }
    assert(bare(hang(more, dir, id)) =~= hang(bare(more), dir, id));
}

/// The arena before a new node, whatever became of its rings.
proof fn lemma_bare_front(before: Seq<Node>, nodes: Seq<Node>, root: EntryId)
    requires
        bare(nodes) == bare(before).push(bare(nodes).last()),
        ascending(before),
        unshared(before),
        parented(before),
        seated(before, root),
    ensures
        nodes.len() == before.len() + 1,
        bare(nodes.drop_last()) == bare(before),
        bare(nodes).last() == untied(nodes.last()),
        same_links(before, nodes.drop_last()),
        ascending(nodes.drop_last()),
        unshared(nodes.drop_last()),
        parented(nodes.drop_last()),
        seated(nodes.drop_last(), root),
{
    let front = nodes.drop_last();
    assert(nodes.len() == bare(nodes).len());
    assert(bare(before).len() == before.len());
    assert forall|i: int| 0 <= i < front.len() implies #[trigger] bare(front)[i] == bare(
        before,
    )[i] by {
        assert(bare(nodes)[i] == untied(nodes[i]));
    }
    assert(bare(front) =~= bare(before));
    lemma_bare_links(before, front);
    lemma_same_order(before, front, root);
}

/// The rings as they are when a Link has been added and not been tied yet.
proof fn lemma_before_tying(nodes: Seq<Node>, n: Node, map: Map<u128, EntryId>, key: u128)
    requires
        registered(nodes, map),
        ringed(nodes),
        nodes.len() < u32::MAX,
    ensures
        forall|k: u128|
            is_ring(nodes.push(n), #[trigger] links_upto(nodes.push(n), k, nodes.len())),
        forall|i: int| 0 <= i < nodes.len() ==> #[trigger] loose(nodes.push(n), i),
        links_upto(nodes.push(n), key, nodes.len()) == links_of(nodes, key),
        map.contains_key(key) <==> links_of(nodes, key).len() > 0,
        map.contains_key(key) ==> map[key] == links_of(nodes, key)[0],
{
    let more = nodes.push(n);
    lemma_push_keys(nodes, n, map);
    lemma_first_link(nodes, map, key);
    assert forall|k: u128| is_ring(more, #[trigger] links_upto(more, k, nodes.len())) by {
        lemma_links_same(nodes, more, k, nodes.len());
        lemma_links(nodes, k, nodes.len());
        let ids = links_of(nodes, k);
        assert(is_ring(nodes, ids));
        assert forall|i: int| 0 <= i < ids.len() implies #[trigger] tied_at(more, ids, i) by {
            assert(tied_at(nodes, ids, i));
            assert(valid_id(nodes, ids[i]));
        }
    }
    lemma_links_same(nodes, more, key, nodes.len());
    assert forall|i: int| 0 <= i < nodes.len() implies #[trigger] loose(more, i) by {
        assert(loose(nodes, i));
        assert(link_key(more, i) == link_key(nodes, i));
        assert(more[i] == nodes[i]);
    }
}

/// A new node keeps the inode table in order, if a Link is entered.
proof fn lemma_new_inode(nodes: Seq<Node>, n: Node, parent: EntryId, map: Map<u128, EntryId>)
    requires
        registered(nodes, map),
        nodes.len() < u32::MAX,
        n.kind matches NodeKind::Link(l) ==> {
            &&& l.parent == parent
            &&& valid_id(nodes, parent)
            &&& nodes[parent.0 as int].kind is Dir
        },
    ensures
        ({
            let id = EntryId(nodes.len() as u32);
            registered(
                nodes.push(n),
                match n.kind {
                    NodeKind::Link(l) => with_link(
                        map,
                        inode_key(device_id_of(nodes[parent.0 as int]), l.ino),
                        id,
                    ),
                    _ => map,
                },
            )
        }),
{
    match n.kind {
        NodeKind::Link(l) => {
            let blank = Node { kind: NodeKind::File, ..n };
            let a = nodes.push(blank);
            let b = nodes.push(n);
            lemma_push_inode(nodes, blank, map);
            assert(a.drop_last() =~= nodes);
            assert(b.drop_last() =~= nodes);
            assert(link_key(a, a.len() - 1) is None);
            assert forall|i: int| 0 <= i < a.len() - 1 implies ((
            #[trigger] a[i]).kind matches NodeKind::Link(l) ==> l.parent.0 != a.len() - 1) by {
                assert(link_in_place(nodes, i));
                assert(a[i] == nodes[i]);
            }
            lemma_enter_inode(a, b, parent, l.ino, map);
        },
        _ => {
            lemma_push_inode(nodes, n, map);
        },
    }
}

/// A new node that nothing links to keeps the links in order.
proof fn lemma_push_node(nodes: Seq<Node>, n: Node)
    requires
        ascending(nodes),
        unshared(nodes),
        nodes.len() < u32::MAX,
        n.common.next == EntryId::none(),
        first_child(n) == EntryId::none(),
    ensures
        ascending(nodes.push(n)),
        unshared(nodes.push(n)),
{
    let more = nodes.push(n);
    assert forall|i: int| 0 <= i < more.len() implies {
        &&& onward(more, i, (#[trigger] more[i]).common.next)
        &&& onward(more, i, first_child(more[i]))
    } by {
        if i < nodes.len() {
            assert(more[i] == nodes[i]);
            assert(onward(nodes, i, nodes[i].common.next));
        }
    }
}

/// A node at the end of the arena changes no list of siblings.
proof fn lemma_chain_push(nodes: Seq<Node>, n: Node, head: EntryId)
    requires
        ascending(nodes),
        nodes.len() < u32::MAX,
        head == EntryId::none() || head.0 < nodes.len(),
    ensures
        chain(nodes.push(n), head) == chain(nodes, head),
    decreases u32::MAX - head.0,
{
    if head.0 < nodes.len() {
        let next = nodes[head.0 as int].common.next;
        assert(onward(nodes, head.0 as int, next));
        assert(nodes.push(n)[head.0 as int] == nodes[head.0 as int]);
        if next.0 > head.0 {
            lemma_chain_push(nodes, n, next);
        }
    }
}

/// A new node that nothing links to changes nothing for the others.
proof fn lemma_push_keeps(nodes: Seq<Node>, n: Node, root: EntryId)
    requires
        ascending(nodes),
        parented(nodes),
        seated(nodes, root),
        nodes.len() < u32::MAX,
        n.common.next == EntryId::none(),
        first_child(n) == EntryId::none(),
    ensures
        parented(nodes.push(n)),
        seated(nodes.push(n), root),
{
    let more = nodes.push(n);
    assert forall|d: EntryId, i: int|
        #![trigger children(more, d)[i]]
        valid_id(more, d) && 0 <= i < children(more, d).len() implies child_of(
        more[children(more, d)[i].0 as int],
        d,
    ) by {
        if d.0 < nodes.len() {
            let head = first_child(nodes[d.0 as int]);
            assert(more[d.0 as int] == nodes[d.0 as int]);
            assert(onward(nodes, d.0 as int, head));
            lemma_chain_push(nodes, n, head);
            lemma_chain(nodes, head);
            assert(step_at(nexts(nodes), children(nodes, d), i));
            assert(child_of(nodes[children(nodes, d)[i].0 as int], d));
        }
    }
    if root != EntryId::none() {
        assert forall|i: int| 0 <= i < more.len() implies (#[trigger] more[i]).common.next != root
            && first_child(more[i]) != root by {
            if i < nodes.len() {
                assert(more[i] == nodes[i]);
            }
        }
    }
}

/// Linking the node at the end of the arena keeps the links in order.
pub proof fn lemma_hang(nodes: Seq<Node>, n: Node, dir: EntryId)
    requires
        ascending(nodes),
        unshared(nodes),
        nodes.len() < u32::MAX,
        n.common.next == EntryId::none(),
        first_child(n) == EntryId::none(),
        valid_id(nodes, dir),
        nodes[dir.0 as int].kind is Dir,
    ensures
        ascending(hang(nodes.push(n), dir, EntryId(nodes.len() as u32))),
        unshared(hang(nodes.push(n), dir, EntryId(nodes.len() as u32))),
        children(nodes.push(n), dir) == children(nodes, dir),
        siblings(nodes, first_child(nodes[dir.0 as int]), children(nodes, dir)),
        hang(nodes.push(n), dir, EntryId(nodes.len() as u32)).len() == nodes.len() + 1,
        hang(nodes.push(n), dir, EntryId(nodes.len() as u32))[nodes.len() as int] == n,
        hang(nodes.push(n), dir, EntryId(nodes.len() as u32))[dir.0 as int].kind is Dir,
{
    let more = nodes.push(n);
    let child = EntryId(nodes.len() as u32);
    let after = hang(more, dir, child);
    lemma_push_node(nodes, n);
    assert(more[dir.0 as int] == nodes[dir.0 as int]);
    let head = first_child(nodes[dir.0 as int]);
    assert(onward(nodes, dir.0 as int, head));
    lemma_chain(nodes, head);
    lemma_chain_push(nodes, n, head);
    let kids = children(nodes, dir);
    let at: int = if kids.len() == 0 {
        dir.0 as int
    } else {
        kids.last().0 as int
    };
    if kids.len() > 0 {
        assert(step_at(nexts(nodes), kids, kids.len() - 1));
        assert(nodes[at].common.next == EntryId::none());
    }
    assert(0 <= at < nodes.len());
    assert(more[at] == nodes[at]);
    assert forall|i: int| 0 <= i < after.len() && i != at implies after[i] == #[trigger] more[i] by {}
    assert forall|i: int| 0 <= i < after.len() implies {
        &&& onward(after, i, (#[trigger] after[i]).common.next)
        &&& onward(after, i, first_child(after[i]))
    } by {
        assert(onward(more, i, more[i].common.next));
    }
    assert forall|i: int| 0 <= i < more.len() implies (#[trigger] more[i]).common.next != child
        && first_child(more[i]) != child by {
        if i < nodes.len() {
            assert(more[i] == nodes[i]);
            assert(onward(nodes, i, nodes[i].common.next));
        }
    }
    assert(unshared(after)) by {
        assert forall|i: int, j: int|
            0 <= i < after.len() && 0 <= j < after.len() && i != j && (
            #[trigger] after[i]).common.next != EntryId::none() implies after[i].common.next != (
        #[trigger] after[j]).common.next by {
            assert(more[i].common.next != EntryId::none() ==> more[i].common.next
                != more[j].common.next);
        }
        assert forall|i: int, j: int|
            0 <= i < after.len() && 0 <= j < after.len() && i != j && first_child(
                #[trigger] after[i],
            ) != EntryId::none() implies first_child(after[i]) != first_child(
            #[trigger] after[j],
        ) by {
            assert(first_child(more[i]) != EntryId::none() ==> first_child(more[i])
                != first_child(more[j]));
        }
        assert forall|i: int, j: int|
            0 <= i < after.len() && 0 <= j < after.len() && first_child(#[trigger] after[i])
                != EntryId::none() implies first_child(after[i]) != (
        #[trigger] after[j]).common.next by {
            assert(first_child(more[i]) != EntryId::none() ==> first_child(more[i])
                != more[j].common.next);
        }
    }
}

/// Linking a new node that records its parent keeps the other links as they
/// were meant.
pub proof fn lemma_hang_keeps(nodes: Seq<Node>, n: Node, dir: EntryId, root: EntryId)
    requires
        ascending(nodes),
        unshared(nodes),
        parented(nodes),
        seated(nodes, root),
        nodes.len() < u32::MAX,
        n.common.next == EntryId::none(),
        first_child(n) == EntryId::none(),
        valid_id(nodes, dir),
        nodes[dir.0 as int].kind is Dir,
        child_of(n, dir),
    ensures
        parented(hang(nodes.push(n), dir, EntryId(nodes.len() as u32))),
        seated(hang(nodes.push(n), dir, EntryId(nodes.len() as u32)), root),
{
    let id = EntryId(nodes.len() as u32);
    let more = nodes.push(n);
    let after = hang(more, dir, id);
    let kids = children(nodes, dir);
    lemma_hang(nodes, n, dir);
    lemma_push_keeps(nodes, n, root);
    children_keep_scan_order(nodes, n, dir);
    if kids.len() > 0 {
        assert(step_at(nexts(nodes), kids, kids.len() - 1));
        if kids.len() > 1 {
            assert(step_at(nexts(nodes), kids, kids.len() - 2));
        } else {
            assert(step_at(nexts(nodes), kids, 0));
        }
    }
    assert forall|i: int, p: EntryId| 0 <= i < more.len() && child_of(more[i], p) implies
        #[trigger] child_of(after[i], p) by {}
    assert forall|d: EntryId, i: int|
        #![trigger children(after, d)[i]]
        valid_id(after, d) && 0 <= i < children(after, d).len() implies child_of(
        after[children(after, d)[i].0 as int],
        d,
    ) by {
        if d != id {
            let c = children(after, d)[i];
            if d == dir && i == kids.len() {
                assert(c == id);
                assert(child_of(more[c.0 as int], d));
            } else {
                let others = children(nodes, d);
                assert(others[i] == c);
                assert(onward(nodes, d.0 as int, first_child(nodes[d.0 as int])));
                lemma_chain(nodes, first_child(nodes[d.0 as int]));
                assert(step_at(nexts(nodes), others, i));
                assert(child_of(nodes[c.0 as int], d));
                assert(more[c.0 as int] == nodes[c.0 as int]);
            }
        }
    }
    if root != EntryId::none() {
        assert forall|i: int| 0 <= i < after.len() implies (#[trigger] after[i]).common.next != root
            && first_child(after[i]) != root by {
            assert(more[i].common.next != root);
        }
        if kids.len() > 0 {
            let last = kids.last();
            if kids.len() > 1 {
                let prev = kids[kids.len() - 2];
                assert(nodes[prev.0 as int].common.next == last);
            } else {
                assert(first_child(nodes[dir.0 as int]) == last);
            }
            assert(last != root);
        }
        assert(more[root.0 as int] == nodes[root.0 as int]);
    }
}

/// Appends `child`, the node at the end of the arena, to the children of a
/// directory.
fn link_child(tree: &mut Tree, dir: EntryId, child: EntryId)
    requires
        old(tree).nodes@.len() > 0,
        ascending(old(tree).nodes@.drop_last()),
        unshared(old(tree).nodes@.drop_last()),
        parented(old(tree).nodes@.drop_last()),
        seated(old(tree).nodes@.drop_last(), old(tree).root),
        child_of(old(tree).nodes@.last(), dir),
        old(tree).inodes_ok(),
        ringed(old(tree).nodes@),
        all_spare_unset(old(tree).nodes@),
        old(tree).nodes@.len() <= u32::MAX,
        old(tree).nodes@.last().common.next == EntryId::none(),
        first_child(old(tree).nodes@.last()) == EntryId::none(),
        child == EntryId((old(tree).nodes@.len() - 1) as u32),
        valid_id(old(tree).nodes@.drop_last(), dir),
        old(tree).nodes@[dir.0 as int].kind is Dir,
        old(tree).devices_ok(),
    ensures
        final(tree).nodes@ == hang(old(tree).nodes@, dir, child),
        ascending(final(tree).nodes@),
        unshared(final(tree).nodes@),
        parented(final(tree).nodes@),
        seated(final(tree).nodes@, final(tree).root),
        forall|d: Gathered| open_in(d, *old(tree)) ==> #[trigger] open_in(d, *final(tree)),
        final(tree).devices_ok(),
        final(tree).inodes_ok(),
        ringed(final(tree).nodes@),
        all_spare_unset(final(tree).nodes@),
        final(tree).devices == old(tree).devices,
        final(tree).root == old(tree).root,
        final(tree).inodes == old(tree).inodes,
{
    let ghost nodes = tree.nodes@;
    let ghost front = nodes.drop_last();
    let ghost kids = children(nodes, dir);
    proof {
        assert(nodes =~= front.push(nodes.last()));
        lemma_hang(front, nodes.last(), dir);
        lemma_hang_keeps(front, nodes.last(), dir, tree.root);
        assert(front[dir.0 as int] == nodes[dir.0 as int]);
    }
    let head: EntryId = match &tree.get(dir).kind {
        NodeKind::Dir(d) => d.sub,
        _ => EntryId::none(),
    };
    if head.is_none() {
        if let Some(d) = tree.get_mut(dir).as_dir_mut() {
            d.sub = child;
        }
        proof {
            if kids.len() > 0 {
                assert(step_at(nexts(front), kids, 0));
            }
            assert(tree.nodes@ =~= hang(nodes, dir, child));
        }
    } else {
        let mut cur = head;
        let ghost mut k: int = 0;
        let mut next: EntryId = tree.get(cur).common.next;
        proof {
            assert(step_at(nexts(front), kids, 0));
            assert(front[cur.0 as int] == nodes[cur.0 as int]);
        }
        while !next.is_none()
            invariant
                tree.nodes@ == nodes,
                nodes.len() > 0,
                front == nodes.drop_last(),
                siblings(front, head, kids),
                0 <= k < kids.len(),
                cur == kids[k],
                next == id_at(kids, k + 1),
            decreases kids.len() - k,
        {
            cur = next;
            proof {
                k = k + 1;
                assert(step_at(nexts(front), kids, k));
                assert(front[cur.0 as int] == nodes[cur.0 as int]);
            }
            next = tree.get(cur).common.next;
        }
        proof {
            if k + 1 < kids.len() {
                assert(step_at(nexts(front), kids, k + 1));
            }
            assert(step_at(nexts(front), kids, k));
        }
        tree.get_mut(cur).common.next = child;
        proof {
            assert(tree.nodes@ =~= hang(nodes, dir, child));
        }
    }
    proof {
        assert forall|i: int| 0 <= i < tree.nodes@.len() implies ((
        #[trigger] tree.nodes@[i]).kind matches NodeKind::Dir(d) ==> d.dev
            < tree.devices@.len()) by {
            assert(nodes[i].kind matches NodeKind::Dir(d) ==> d.dev < tree.devices@.len());
        }
        assert(same_inodes(nodes, tree.nodes@));
        lemma_same_inodes(nodes, tree.nodes@, tree.inodes.map@);
        lemma_same_rings(nodes, tree.nodes@);
        assert forall|i: int| 0 <= i < tree.nodes@.len() implies spare_unset(
            #[trigger] tree.nodes@[i],
        ) by {
            assert(spare_unset(nodes[i]));
        }
    }
}

/// The directory that the handle fills is one of the tree.
pub open spec fn open_in(d: Gathered, tree: Tree) -> bool {
    &&& valid_id(tree.nodes@, d.id)
    &&& tree.nodes@[d.id.0 as int].kind is Dir
}

/// The directory with the totals of its descendants added.
pub open spec fn with_totals(n: Node, d: Gathered) -> Node {
    Node {
        common: EntryCommon {
            blocks: capped((n.common.blocks + d.blocks) as nat),
            size: capped((n.common.size + d.size) as nat),
            ..n.common
        },
        kind: match n.kind {
            NodeKind::Dir(dir) => NodeKind::Dir(
                DirData { items: capped32((dir.items + d.items) as nat), ..dir },
            ),
            kind => kind,
        },
    }
}

/// The totals of the parent once those of a directory below it are added.
pub open spec fn with_child_totals(p: Gathered, d: Gathered, err: bool) -> Gathered {
    Gathered {
        id: p.id,
        blocks: capped((p.blocks + d.blocks) as nat),
        size: capped((p.size + d.size) as nat),
        items: capped32((p.items + d.items) as nat),
        suberr: p.suberr || err,
    }
}

/// Whether a scan error lies on a directory or below it.
pub open spec fn has_trouble(n: Node, d: Gathered) -> bool {
    d.suberr || (n.kind matches NodeKind::Dir(dir) && dir.err)
}

/// The arena once a directory has been finalized into `parent`.
pub open spec fn flushed(nodes: Seq<Node>, d: Gathered, parent: Option<Gathered>) -> Seq<Node> {
    let i = d.id.0 as int;
    let after = nodes.update(i, with_totals(nodes[i], d));
    match parent {
        Some(p) if has_trouble(nodes[i], d) => after.update(
            p.id.0 as int,
            with_suberr(after[p.id.0 as int]),
        ),
        _ => after,
    }
}

impl MemSinkDir {
    pub fn id(&self) -> (r: EntryId)
        ensures
            r == self@.id,
    {
        self.id
    }

    pub fn set_read_error(&mut self, sink: &mut MemSink)
        requires
            old(sink).wf(),
            open_in(old(self)@, old(sink)@),
        ensures
            final(self)@ == old(self)@,
            final(sink).wf(),
            final(sink)@.nodes@.len() == old(sink)@.nodes@.len(),
            forall|d: Gathered| open_in(d, old(sink)@) ==> #[trigger] open_in(d, final(sink)@),
            final(sink).aggregates() == old(sink).aggregates(),
            final(sink).plain() == old(sink).plain().update(
                old(self)@.id.0 as int,
                with_err(old(sink).plain()[old(self)@.id.0 as int]),
            ),
            final(sink)@.devices == old(sink)@.devices,
            final(sink)@.root == old(sink)@.root,
            final(sink)@.inodes == old(sink)@.inodes,
    {
        let ghost before = sink.tree.nodes@;
        if let Some(d) = sink.tree.get_mut(self.id).as_dir_mut() {
            d.err = true;
        }
        proof {
            lemma_same_links(before, sink.tree);
            assert(sink.plain() =~= bare(before).update(
                self.id.0 as int,
                with_err(bare(before)[self.id.0 as int]),
            ));
        }
    }

    /// Adds a special marker entry: error / excluded-by-pattern / otherfs / kernfs.
    pub fn add_special(&mut self, sink: &mut MemSink, name: &str, sp: EType)
        requires
            old(sink).wf(),
            open_in(old(self)@, old(sink)@),
            old(sink)@.nodes@.len() < u32::MAX,
            old(self)@.items < u32::MAX,
            sp.is_special(),
        ensures
            final(sink).wf(),
            final(sink)@.nodes@.len() == old(sink)@.nodes@.len() + 1,
            forall|d: Gathered| open_in(d, old(sink)@) ==> #[trigger] open_in(d, final(sink)@),
            final(sink).aggregates() == old(sink).aggregates(),
            final(self)@ == tally(old(self)@, old(sink).aggregates(), 0, 0, sp is Error),
            ({
                let id = EntryId(old(sink)@.nodes@.len() as u32);
                let dir = old(self)@.id;
                let n = final(sink).plain()[id.0 as int];
                let nodes = hang(old(sink).plain().push(n), dir, id);
                &&& fresh_node(n, sp, name@)
                &&& final(sink).plain() == (if old(sink).aggregates() && sp is Error {
                    nodes.update(dir.0 as int, with_suberr(nodes[dir.0 as int]))
                } else {
                    nodes
                })
            }),
            final(sink)@.devices == old(sink)@.devices,
            final(sink)@.root == old(sink)@.root,
            final(sink)@.inodes == old(sink)@.inodes,
    {
        let ghost before = sink.tree.nodes@;
        let id = sink.tree.create(sp, name);
        let ghost n = sink.tree.nodes@.last();
        proof {
            assert(sink.tree.nodes@.drop_last() =~= before);
            assert(devices_known(sink.tree.nodes@, sink.tree.devices@)) by {
                assert forall|i: int| 0 <= i < sink.tree.nodes@.len() implies ((
                #[trigger] sink.tree.nodes@[i]).kind matches NodeKind::Dir(d) ==> d.dev
                    < sink.tree.devices@.len()) by {
                    if i < before.len() {
                        assert(sink.tree.nodes@[i] == before[i]);
                    }
                }
            }
            lemma_hang(before, n, self.id);
            lemma_push_inode(before, n, sink.tree.inodes.map@);
            lemma_push_ring(before, n, sink.tree.inodes.map@);
            lemma_hang_bare(before, n, self.id);
        }
        let ghost created = sink.tree;
        link_child(&mut sink.tree, self.id, id);
        let ghost hung = sink.tree;
        let ghost linked = sink.tree.nodes@;
        proof {
            assert forall|d: Gathered| open_in(d, old(sink)@) implies #[trigger] open_in(d, hung) by {
                assert(open_in(d, created));
            }
        }
        if sink.aggregate_stats {
            self.sub_items = self.sub_items + 1;
            if sp == EType::Error {
                self.suberr = true;
                if let Some(d) = sink.tree.get_mut(self.id).as_dir_mut() {
                    d.suberr = true;
                }
                proof {
                    lemma_same_links(linked, sink.tree);
                    assert(sink.plain() =~= bare(linked).update(
                        self.id.0 as int,
                        with_suberr(bare(linked)[self.id.0 as int]),
                    ));
                    assert forall|d: Gathered| open_in(d, old(sink)@) implies #[trigger] open_in(
                        d,
                        sink@,
                    ) by {
                        assert(open_in(d, hung));
                    }
                }
            }
        }
    }

    /// Adds a regular / non-regular / link file entry. Every link to a file
    /// counts towards the totals, is entered into the inode table and joins
    /// the ring of its inode.
    pub fn add_stat(&mut self, sink: &mut MemSink, name: &str, stat: &Stat) -> (id: EntryId)
        requires
            old(sink).wf(),
            open_in(old(self)@, old(sink)@),
            old(sink)@.nodes@.len() < u32::MAX,
            old(self)@.items < u32::MAX,
            !(stat.etype is Dir),
        ensures
            final(sink).wf(),
            final(sink)@.nodes@.len() == old(sink)@.nodes@.len() + 1,
            forall|d: Gathered| open_in(d, old(sink)@) ==> #[trigger] open_in(d, final(sink)@),
            final(sink).aggregates() == old(sink).aggregates(),
            final(self)@ == tally(
                old(self)@,
                old(sink).aggregates(),
                stat.blocks,
                stat.size,
                false,
            ),
            id == EntryId(old(sink)@.nodes@.len() as u32),
            ({
                let n = final(sink).plain()[id.0 as int];
                &&& stat_node(n, stat.etype, name@, *stat, 0, old(self)@.id)
                &&& final(sink).plain() == hang(old(sink).plain().push(n), old(self)@.id, id)
            }),
            final(sink)@.devices@ == old(sink)@.devices@,
            final(sink)@.root == old(sink)@.root,
            final(sink)@.inodes.map@ == (if stat.etype is Link {
                with_link(
                    old(sink)@.inodes.map@,
                    inode_key(
                        device_id_of(old(sink)@.nodes@[old(self)@.id.0 as int]),
                        stat.ino,
                    ),
                    id,
                )
            } else {
                old(sink)@.inodes.map@
            }),
    {
        let ghost before = sink.tree.nodes@;
        let id = sink.add_node(stat.etype, name, stat, self.id);
        proof {
            let nodes = sink.tree.nodes@;
            lemma_bare_front(before, nodes, sink.tree.root);
            lemma_hang_bare(nodes.drop_last(), nodes.last(), self.id);
            assert(nodes.drop_last().push(nodes.last()) =~= nodes);
        }
        link_child(&mut sink.tree, self.id, id);
        if sink.aggregate_stats {
            self.sub_items = self.sub_items + 1;
            self.sub_blocks = capped_sum(self.sub_blocks, stat.blocks);
            self.sub_size = capped_sum(self.sub_size, stat.size);
        }
        id
    }

    /// Creates a subdirectory and returns a handle for filling it. Caller must
    /// invoke `finalize` on the returned handle before this one finalizes.
    pub fn add_dir(&mut self, sink: &mut MemSink, name: &str, stat: &Stat) -> (dir: MemSinkDir)
        requires
            old(sink).wf(),
            open_in(old(self)@, old(sink)@),
            old(sink)@.nodes@.len() < u32::MAX,
            old(self)@.items < u32::MAX,
            stat.etype is Dir,
        ensures
            final(sink).wf(),
            final(sink)@.nodes@.len() == old(sink)@.nodes@.len() + 1,
            forall|d: Gathered| open_in(d, old(sink)@) ==> #[trigger] open_in(d, final(sink)@),
            final(sink).aggregates() == old(sink).aggregates(),
            final(self)@ == tally(
                old(self)@,
                old(sink).aggregates(),
                stat.blocks,
                stat.size,
                false,
            ),
            dir@ == nothing_in(EntryId(old(sink)@.nodes@.len() as u32)),
            open_in(dir@, final(sink)@),
            ({
                let n = final(sink).plain()[dir@.id.0 as int];
                &&& stat_node(
                    n,
                    EType::Dir,
                    name@,
                    *stat,
                    final(sink)@.devices@.index_of(stat.dev) as u32,
                    old(self)@.id,
                )
                &&& final(sink).plain() == hang(
                    old(sink).plain().push(n),
                    old(self)@.id,
                    dir@.id,
                )
            }),
            final(sink)@.devices@ == listed(old(sink)@.devices@, stat.dev),
            final(sink)@.devices@.contains(stat.dev),
            final(sink)@.root == old(sink)@.root,
            final(sink)@.inodes.map@ == old(sink)@.inodes.map@,
    {
        let ghost before = sink.tree.nodes@;
        let id = sink.add_node(EType::Dir, name, stat, self.id);
        proof {
            let nodes = sink.tree.nodes@;
            lemma_bare_front(before, nodes, sink.tree.root);
            lemma_hang_bare(nodes.drop_last(), nodes.last(), self.id);
            assert(nodes.drop_last().push(nodes.last()) =~= nodes);
        }
        link_child(&mut sink.tree, self.id, id);
        if sink.aggregate_stats {
            self.sub_items = self.sub_items + 1;
            self.sub_blocks = capped_sum(self.sub_blocks, stat.blocks);
            self.sub_size = capped_sum(self.sub_size, stat.size);
        }
        MemSinkDir { id, sub_blocks: 0, sub_size: 0, sub_items: 0, suberr: false }
    }

    /// Flushes accumulated descendant totals into the directory node, and
    /// (if `parent` provided) into the parent's sub-totals. A scan error on
    /// the directory or below it marks the parent.
    pub fn finalize(self, sink: &mut MemSink, parent: Option<&mut MemSinkDir>)
        requires
            old(sink).wf(),
            open_in(self@, old(sink)@),
            parent matches Some(p) ==> open_in(p@, old(sink)@),
        ensures
            final(sink).wf(),
            final(sink)@.nodes@.len() == old(sink)@.nodes@.len(),
            forall|d: Gathered| open_in(d, old(sink)@) ==> #[trigger] open_in(d, final(sink)@),
            final(sink).aggregates() == old(sink).aggregates(),
            parent matches Some(p) ==> final(p)@ == (if old(sink).aggregates() {
                with_child_totals(
                    p@,
                    self@,
                    has_trouble(old(sink).plain()[self@.id.0 as int], self@),
                )
            } else {
                p@
            }),
            final(sink).plain() == (if old(sink).aggregates() {
                flushed(
                    old(sink).plain(),
                    self@,
                    match parent {
                        Some(p) => Some(p@),
                        None => None,
                    },
                )
            } else {
                old(sink).plain()
            }),
            final(sink)@.devices == old(sink)@.devices,
            final(sink)@.root == old(sink)@.root,
            final(sink)@.inodes == old(sink)@.inodes,
    {
        if !sink.aggregate_stats {
            return;
        }
        let ghost before = sink.tree.nodes@;
        let mut trouble = self.suberr;
        let node = sink.tree.get_mut(self.id);
        node.common.blocks = capped_sum(node.common.blocks, self.sub_blocks);
        node.common.size = capped_sum(node.common.size, self.sub_size);
        if let Some(d) = node.as_dir_mut() {
            d.items = d.items.saturating_add(self.sub_items);
            trouble = trouble || d.err;
        }
        if let Some(p) = parent {
            p.sub_blocks = capped_sum(p.sub_blocks, self.sub_blocks);
            p.sub_size = capped_sum(p.sub_size, self.sub_size);
            p.sub_items = p.sub_items.saturating_add(self.sub_items);
            if trouble {
                p.suberr = true;
                if let Some(d) = sink.tree.get_mut(p.id).as_dir_mut() {
                    d.suberr = true;
                }
            }
        }
        proof {
            lemma_same_links(before, sink.tree);
        }
    }
}

/// Whether two arenas have the same links and the same devices.
pub open spec fn same_links(a: Seq<Node>, b: Seq<Node>) -> bool {
    &&& a.len() == b.len()
    &&& forall|i: int|
        0 <= i < a.len() ==> {
            &&& (#[trigger] b[i]).common.next == a[i].common.next
            &&& first_child(b[i]) == first_child(a[i])
            &&& b[i].kind matches NodeKind::Dir(d) ==> (a[i].kind matches NodeKind::Dir(e) && e.dev
                == d.dev)
            &&& b[i].kind is Dir <==> a[i].kind is Dir
            &&& b[i].kind is Link <==> a[i].kind is Link
            &&& parent_of(b[i], true) == parent_of(a[i], true)
            &&& b[i].kind matches NodeKind::Link(l) ==> (a[i].kind matches NodeKind::Link(k)
                && l.ino == k.ino)
            &&& same_spare(a[i], b[i])
        }
}

proof fn lemma_same_chain(a: Seq<Node>, b: Seq<Node>, head: EntryId)
    requires
        same_links(a, b),
    ensures
        chain(b, head) == chain(a, head),
    decreases u32::MAX - head.0,
{
    if head.0 < a.len() {
        let next = a[head.0 as int].common.next;
        assert(b[head.0 as int].common.next == next);
        if next.0 > head.0 {
            lemma_same_chain(a, b, next);
        }
    }
}

/// With the same links the arena is as much in order as before.
pub proof fn lemma_same_order(a: Seq<Node>, b: Seq<Node>, root: EntryId)
    requires
        ascending(a),
        unshared(a),
        parented(a),
        seated(a, root),
        same_links(a, b),
    ensures
        ascending(b),
        unshared(b),
        parented(b),
        seated(b, root),
        forall|d: EntryId| valid_id(a, d) ==> #[trigger] children(b, d) == children(a, d),
{
    assert forall|d: EntryId| valid_id(a, d) implies #[trigger] children(b, d) == children(a, d) by {
        assert(first_child(b[d.0 as int]) == first_child(a[d.0 as int]));
        lemma_same_chain(a, b, first_child(a[d.0 as int]));
    }
    assert forall|d: EntryId, i: int|
        #![trigger children(b, d)[i]]
        valid_id(b, d) && 0 <= i < children(b, d).len() implies child_of(
        b[children(b, d)[i].0 as int],
        d,
    ) by {
        let head = first_child(a[d.0 as int]);
        assert(onward(a, d.0 as int, head));
        lemma_chain(a, head);
        assert(step_at(nexts(a), children(a, d), i));
        let c = children(a, d)[i];
        assert(child_of(a[c.0 as int], d));
        assert(parent_of(b[c.0 as int], true) == parent_of(a[c.0 as int], true));
    }
    if root != EntryId::none() {
        assert(parent_of(b[root.0 as int], true) == parent_of(a[root.0 as int], true));
    }
    assert forall|i: int| 0 <= i < b.len() implies {
        &&& onward(b, i, (#[trigger] b[i]).common.next)
        &&& onward(b, i, first_child(b[i]))
    } by {
        assert(onward(a, i, a[i].common.next));
    }
    assert forall|i: int, j: int|
        0 <= i < b.len() && 0 <= j < b.len() && i != j && (#[trigger] b[i]).common.next
            != EntryId::none() implies b[i].common.next != (#[trigger] b[j]).common.next by {
        assert(a[i].common.next != a[j].common.next);
    }
    assert forall|i: int, j: int|
        0 <= i < b.len() && 0 <= j < b.len() && i != j && first_child(#[trigger] b[i])
            != EntryId::none() implies first_child(b[i]) != first_child(#[trigger] b[j]) by {
        assert(first_child(a[i]) != first_child(a[j]));
    }
    assert forall|i: int, j: int|
        0 <= i < b.len() && 0 <= j < b.len() && first_child(#[trigger] b[i])
            != EntryId::none() implies first_child(b[i]) != (#[trigger] b[j]).common.next by {
        assert(first_child(a[i]) != a[j].common.next);
    }
}

proof fn lemma_same_links(a: Seq<Node>, t: Tree)
    requires
        ascending(a),
        unshared(a),
        parented(a),
        seated(a, t.root),
        devices_known(a, t.devices@),
        registered(a, t.inodes.map@),
        ringed(a),
        all_spare_unset(a),
        same_links(a, t.nodes@),
        forall|i: int| 0 <= i < a.len() ==> same_ring(a[i], #[trigger] t.nodes@[i]),
    ensures
        ascending(t.nodes@),
        unshared(t.nodes@),
        parented(t.nodes@),
        seated(t.nodes@, t.root),
        devices_known(t.nodes@, t.devices@),
        registered(t.nodes@, t.inodes.map@),
        ringed(t.nodes@),
        all_spare_unset(t.nodes@),
{
    let b = t.nodes@;
    let devices = t.devices@;
    lemma_same_order(a, b, t.root);
    assert(same_inodes(a, b));
    lemma_same_inodes(a, b, t.inodes.map@);
    lemma_same_rings(a, b);
    assert forall|i: int| 0 <= i < b.len() implies spare_unset(#[trigger] b[i]) by {
        assert(spare_unset(a[i]));
    }
    assert forall|i: int| 0 <= i < b.len() implies ((#[trigger] b[i]).kind matches NodeKind::Dir(
        d,
    ) ==> d.dev < devices.len()) by {
        assert(a[i].kind matches NodeKind::Dir(d) ==> d.dev < devices.len());
    }
}

/// Entries are linked in the order in which they were added: a new entry
/// becomes the last child of its directory, and the children of every other
/// directory stay as they are.
pub proof fn children_keep_scan_order(nodes: Seq<Node>, n: Node, dir: EntryId)
    requires
        ascending(nodes),
        unshared(nodes),
        nodes.len() < u32::MAX,
        n.common.next == EntryId::none(),
        first_child(n) == EntryId::none(),
        valid_id(nodes, dir),
        nodes[dir.0 as int].kind is Dir,
    ensures
        ({
            let id = EntryId(nodes.len() as u32);
            let after = hang(nodes.push(n), dir, id);
            &&& children(after, dir) == children(nodes, dir).push(id)
            &&& children(after, id) == Seq::<EntryId>::empty()
            &&& forall|d: EntryId|
                valid_id(nodes, d) && d != dir ==> #[trigger] children(after, d) == children(
                    nodes,
                    d,
                )
        }),
{
    let id = EntryId(nodes.len() as u32);
    let after = hang(nodes.push(n), dir, id);
    lemma_hang(nodes, n, dir);
    let kids = children(nodes, dir);
    let all = kids.push(id);
    let head = first_child(after[dir.0 as int]);
    let at: int = if kids.len() == 0 {
        dir.0 as int
    } else {
        kids.last().0 as int
    };
    if kids.len() > 0 {
        assert(step_at(nexts(nodes), kids, kids.len() - 1));
        assert(step_at(nexts(nodes), kids, 0));
    }
    assert forall|i: int| 0 <= i < nodes.len() && i != at implies after[i] == #[trigger] nodes[i] by {
        assert(nodes.push(n)[i] == nodes[i]);
    }
    assert forall|i: int| 0 <= i < all.len() implies #[trigger] step_at(
        nexts(after),
        all,
        i,
    ) by {
        if i < kids.len() {
            assert(step_at(nexts(nodes), kids, i));
            if i < kids.len() - 1 {
                lemma_siblings_ascend(
                    nodes,
                    first_child(nodes[dir.0 as int]),
                    kids,
                    i,
                    kids.len() - 1,
                );
            }
        }
    }
    assert(onward(after, dir.0 as int, head));
    lemma_chain(after, head);
    lemma_walk_unique(nexts(after), head, chain(after, head), all);
    assert forall|d: EntryId| valid_id(nodes, d) && d != dir implies #[trigger] children(after, d)
        == children(nodes, d) by {
        let first = first_child(nodes[d.0 as int]);
        let others = children(nodes, d);
        assert(onward(nodes, d.0 as int, first));
        lemma_chain(nodes, first);
        assert(first_child(after[d.0 as int]) == first);
        assert forall|i: int| 0 <= i < others.len() implies #[trigger] step_at(
            nexts(after),
            others,
            i,
        ) by {
            assert(step_at(nexts(nodes), others, i));
            if kids.len() > 0 {
                lemma_no_common_child(nodes, d, dir, others, kids, i, kids.len() - 1);
            }
        }
        assert(onward(after, d.0 as int, first));
        lemma_chain(after, first);
        lemma_walk_unique(nexts(after), first, chain(after, first), others);
    }
}

} // verus!
