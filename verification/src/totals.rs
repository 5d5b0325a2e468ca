//! Totals of a tree that is filled through several handles by turns.

use vstd::prelude::*;
use vstd::set_lib::{lemma_int_range, lemma_len_subset, set_int_range};

use crate::arena::{lemma_has_shape, lemma_no_repeats, lemma_siblings_ascend, parented};
use crate::model::{fresh_node, EType, EntryId, Node, NodeKind};
use crate::num::capped;
use crate::prune::lemma_flat_valid;
use crate::shape::{
    ascending, child_of, children, first_child, flat, flats, has_shape, lemma_chain,
    lemma_walk_unique, linked, nexts, onward, shape_at, step_at, tops, unshared, valid_id, Shape,
};
use crate::sink::{
    children_keep_scan_order, flushed, hang, has_trouble, lemma_hang, lemma_hang_keeps,
    lemma_same_order, nothing_in, same_links, stat_node, tally, with_child_totals, with_err,
    with_suberr, with_totals, Gathered, Stat,
};

verus! {

/// What an entry takes up by itself, without what is below it.
pub struct Own {
    pub blocks: u64,
    pub size: u64,
}

/// A sink with its open handles, and what each entry was added with.
pub struct Books {
    /// The arena, as [`MemSink::plain`] has it.
    ///
    /// [`MemSink::plain`]: crate::sink::MemSink::plain
    pub nodes: Seq<Node>,
    /// What the handles that are not finalized yet have gathered.
    pub open: Map<EntryId, Gathered>,
    pub own: Seq<Own>,
}

/// The sink right after [`MemSink::create_root`].
///
/// [`MemSink::create_root`]: crate::sink::MemSink::create_root
pub open spec fn begun(b: Books, name: Seq<char>, stat: Stat, dev: u32) -> bool {
    let id = EntryId(0);
    &&& b.nodes.len() == 1
    &&& stat_node(b.nodes[0], EType::Dir, name, stat, dev, EntryId::none())
    &&& b.open == Map::<EntryId, Gathered>::empty().insert(id, nothing_in(id))
    &&& b.own == seq![Own { blocks: stat.blocks, size: stat.size }]
}

/// There is room for one more entry in the directory.
pub open spec fn has_room(a: Books, dir: EntryId) -> bool {
    &&& a.open.contains_key(dir)
    &&& a.nodes.len() < u32::MAX
    &&& a.open[dir].items < u32::MAX
}

/// A file was added: what [`MemSinkDir::add_stat`] does.
///
/// [`MemSinkDir::add_stat`]: crate::sink::MemSinkDir::add_stat
pub open spec fn file_added(
    a: Books,
    b: Books,
    dir: EntryId,
    name: Seq<char>,
    stat: Stat,
) -> bool {
    let id = EntryId(a.nodes.len() as u32);
    let n = b.nodes[id.0 as int];
    &&& has_room(a, dir)
    &&& !(stat.etype is Dir)
    &&& stat_node(n, stat.etype, name, stat, 0, dir)
    &&& b.nodes == hang(a.nodes.push(n), dir, id)
    &&& b.open == a.open.insert(dir, tally(a.open[dir], true, stat.blocks, stat.size, false))
    &&& b.own == a.own.push(Own { blocks: stat.blocks, size: stat.size })
}

/// A marker was added: what [`MemSinkDir::add_special`] does.
///
/// [`MemSinkDir::add_special`]: crate::sink::MemSinkDir::add_special
pub open spec fn special_added(
    a: Books,
    b: Books,
    dir: EntryId,
    name: Seq<char>,
    sp: EType,
) -> bool {
    let id = EntryId(a.nodes.len() as u32);
    let n = b.nodes[id.0 as int];
    let nodes = hang(a.nodes.push(n), dir, id);
    &&& has_room(a, dir)
    &&& sp.is_special()
    &&& fresh_node(n, sp, name)
    &&& b.nodes == (if sp is Error {
        nodes.update(dir.0 as int, with_suberr(nodes[dir.0 as int]))
    } else {
        nodes
    })
    &&& b.open == a.open.insert(dir, tally(a.open[dir], true, 0, 0, sp is Error))
    &&& b.own == a.own.push(Own { blocks: 0, size: 0 })
}

/// A directory was added: what [`MemSinkDir::add_dir`] does.
///
/// [`MemSinkDir::add_dir`]: crate::sink::MemSinkDir::add_dir
pub open spec fn dir_added(
    a: Books,
    b: Books,
    dir: EntryId,
    name: Seq<char>,
    stat: Stat,
    dev: u32,
) -> bool {
    let id = EntryId(a.nodes.len() as u32);
    let n = b.nodes[id.0 as int];
    &&& has_room(a, dir)
    &&& stat_node(n, EType::Dir, name, stat, dev, dir)
    &&& b.nodes == hang(a.nodes.push(n), dir, id)
    &&& b.open == a.open.insert(
        dir,
        tally(a.open[dir], true, stat.blocks, stat.size, false),
    ).insert(id, nothing_in(id))
    &&& b.own == a.own.push(Own { blocks: stat.blocks, size: stat.size })
}

/// A directory was marked: what [`MemSinkDir::set_read_error`] does.
///
/// [`MemSinkDir::set_read_error`]: crate::sink::MemSinkDir::set_read_error
pub open spec fn dir_marked(a: Books, b: Books, dir: EntryId) -> bool {
    &&& a.open.contains_key(dir)
    &&& b.nodes == a.nodes.update(dir.0 as int, with_err(a.nodes[dir.0 as int]))
    &&& b.open == a.open
    &&& b.own == a.own
}

/// A directory was finalized into its parent, or without one if it has none:
/// what [`MemSinkDir::finalize`] does. No directory in it is still open.
///
/// [`MemSinkDir::finalize`]: crate::sink::MemSinkDir::finalize
pub open spec fn dir_closed(a: Books, b: Books, dir: EntryId, parent: Option<EntryId>) -> bool {
    let g = a.open[dir];
    let rest = a.open.remove(dir);
    &&& a.open.contains_key(dir)
    &&& forall|k: EntryId| #[trigger]
        a.open.contains_key(k) ==> !children(a.nodes, dir).contains(k)
    &&& b.own == a.own
    &&& match parent {
        Some(p) => {
            &&& rest.contains_key(p)
            &&& children(a.nodes, p).contains(dir)
            &&& b.nodes == flushed(a.nodes, g, Some(a.open[p]))
            &&& b.open == rest.insert(
                p,
                with_child_totals(a.open[p], g, has_trouble(a.nodes[dir.0 as int], g)),
            )
        },
        None => {
            &&& forall|d: EntryId| valid_id(a.nodes, d) ==> !#[trigger] children(
                a.nodes,
                d,
            ).contains(dir)
            &&& b.nodes == flushed(a.nodes, g, None)
            &&& b.open == rest
        },
    }
}

/// One call of a handle's method.
pub open spec fn proceeds(a: Books, b: Books) -> bool {
    ||| exists|dir: EntryId, name: Seq<char>, stat: Stat| #[trigger]
        file_added(a, b, dir, name, stat)
    ||| exists|dir: EntryId, name: Seq<char>, sp: EType| #[trigger]
        special_added(a, b, dir, name, sp)
    ||| exists|dir: EntryId, name: Seq<char>, stat: Stat, dev: u32| #[trigger]
        dir_added(a, b, dir, name, stat, dev)
    ||| exists|dir: EntryId| #[trigger] dir_marked(a, b, dir)
    ||| exists|dir: EntryId, parent: Option<EntryId>| #[trigger] dir_closed(a, b, dir, parent)
}

/// What is counted up.
enum Measure {
    Blocks,
    Size,
    Items,
}

/// What a node has in its own fields.
spec fn value(n: Node, m: Measure) -> nat {
    match m {
        Measure::Blocks => n.common.blocks as nat,
        Measure::Size => n.common.size as nat,
        Measure::Items => match n.kind {
            NodeKind::Dir(d) => d.items as nat,
            _ => 0,
        },
    }
}

spec fn gathered(g: Gathered, m: Measure) -> nat {
    match m {
        Measure::Blocks => g.blocks as nat,
        Measure::Size => g.size as nat,
        Measure::Items => g.items as nat,
    }
}

spec fn own_value(o: Own, m: Measure) -> nat {
    match m {
        Measure::Blocks => o.blocks as nat,
        Measure::Size => o.size as nat,
        Measure::Items => 0,
    }
}

/// What a child adds to its directory besides what it has itself.
spec fn extra(m: Measure) -> nat {
    match m {
        Measure::Items => 1,
        _ => 0,
    }
}

spec fn limit(m: Measure) -> nat {
    match m {
        Measure::Items => u32::MAX as nat,
        _ => u64::MAX as nat,
    }
}

spec fn cap(x: nat, m: Measure) -> nat {
    if x <= limit(m) {
        x
    } else {
        limit(m)
    }
}

/// What a list of children adds to its directory.
spec fn sum(nodes: Seq<Node>, ids: Seq<EntryId>, m: Measure) -> nat
    decreases ids.len(),
{
    if ids.len() == 0 {
        0
    } else {
        sum(nodes, ids.drop_last(), m) + value(nodes[ids.last().0 as int], m) + extra(m)
    }
}

/// What the books say of a node is so: an open directory holds what it was
/// added with and its handle the sum of its children, a closed one both.
spec fn entry_balanced(b: Books, i: int, m: Measure) -> bool {
    let id = EntryId(i as u32);
    let n = b.nodes[i];
    let own = own_value(b.own[i], m);
    let below = sum(b.nodes, children(b.nodes, id), m);
    if !(n.kind is Dir) {
        value(n, m) == own
    } else if b.open.contains_key(id) {
        &&& value(n, m) == own
        &&& gathered(b.open[id], m) == cap(below, m)
    } else {
        value(n, m) == cap(own + below, m)
    }
}

spec fn balanced(b: Books) -> bool {
    &&& ascending(b.nodes)
    &&& unshared(b.nodes)
    &&& parented(b.nodes)
    &&& b.own.len() == b.nodes.len()
    &&& forall|k: EntryId| #[trigger]
        b.open.contains_key(k) ==> valid_id(b.nodes, k) && b.nodes[k.0 as int].kind is Dir
            && b.open[k].id == k
    &&& forall|d: EntryId, k: EntryId|
        valid_id(b.nodes, d) && !b.open.contains_key(d) && #[trigger] b.open.contains_key(k)
            ==> !#[trigger] children(b.nodes, d).contains(k)
    &&& forall|i: int, m: Measure|
        0 <= i < b.nodes.len() ==> #[trigger] entry_balanced(b, i, m)
}

/// Children of a node are nodes, and none is listed twice.
proof fn lemma_children(nodes: Seq<Node>, d: EntryId)
    requires
        ascending(nodes),
        valid_id(nodes, d),
    ensures
        forall|i: int|
            0 <= i < children(nodes, d).len() ==> valid_id(nodes, #[trigger] children(nodes, d)[i]),
        children(nodes, d).no_duplicates(),
{
    let head = first_child(nodes[d.0 as int]);
    let ids = children(nodes, d);
    assert(onward(nodes, d.0 as int, head));
    lemma_chain(nodes, head);
    assert forall|i: int| 0 <= i < ids.len() implies valid_id(nodes, #[trigger] ids[i]) by {
        assert(step_at(nexts(nodes), ids, i));
    }
    assert forall|i: int, j: int| 0 <= i < ids.len() && 0 <= j < ids.len() && i != j implies ids[i]
        != ids[j] by {
        if i < j {
            lemma_siblings_ascend(nodes, head, ids, i, j);
        } else {
            lemma_siblings_ascend(nodes, head, ids, j, i);
        }
    }
}

/// A sum depends on what is summed up alone.
proof fn lemma_same_sum(a: Seq<Node>, b: Seq<Node>, ids: Seq<EntryId>, m: Measure)
    requires
        forall|i: int|
            0 <= i < ids.len() ==> value(b[(#[trigger] ids[i]).0 as int], m) == value(
                a[ids[i].0 as int],
                m,
            ),
    ensures
        sum(b, ids, m) == sum(a, ids, m),
    decreases ids.len(),
{
    if ids.len() > 0 {
        let front = ids.drop_last();
        assert forall|i: int| 0 <= i < front.len() implies value(
            b[(#[trigger] front[i]).0 as int],
            m,
        ) == value(a[front[i].0 as int], m) by {
            assert(front[i] == ids[i]);
        }
        lemma_same_sum(a, b, front, m);
        assert(ids[ids.len() - 1] == ids.last());
    }
}

/// A sum in which one part has changed.
proof fn lemma_changed_sum(a: Seq<Node>, b: Seq<Node>, ids: Seq<EntryId>, k: int, m: Measure)
    requires
        0 <= k < ids.len(),
        forall|i: int|
            0 <= i < ids.len() && i != k ==> value(b[(#[trigger] ids[i]).0 as int], m) == value(
                a[ids[i].0 as int],
                m,
            ),
    ensures
        sum(b, ids, m) + value(a[ids[k].0 as int], m) == sum(a, ids, m) + value(
            b[ids[k].0 as int],
            m,
        ),
        value(a[ids[k].0 as int], m) <= sum(a, ids, m),
    decreases ids.len(),
{
    let front = ids.drop_last();
    if k == ids.len() - 1 {
        assert forall|i: int| 0 <= i < front.len() implies value(
            b[(#[trigger] front[i]).0 as int],
            m,
        ) == value(a[front[i].0 as int], m) by {
            assert(front[i] == ids[i]);
        }
        lemma_same_sum(a, b, front, m);
    } else {
        assert forall|i: int| 0 <= i < front.len() && i != k implies value(
            b[(#[trigger] front[i]).0 as int],
            m,
        ) == value(a[front[i].0 as int], m) by {
            assert(front[i] == ids[i]);
        }
        lemma_changed_sum(a, b, front, k, m);
        assert(ids[ids.len() - 1] == ids.last());
    }
}

/// Nodes that differ in nothing that is counted, nor in their links, keep the
/// books balanced.
proof fn lemma_relabeled(a: Books, b: Books)
    requires
        balanced(a),
        same_links(a.nodes, b.nodes),
        forall|i: int, m: Measure|
            0 <= i < a.nodes.len() ==> #[trigger] value(b.nodes[i], m) == value(a.nodes[i], m),
        b.open == a.open,
        b.own == a.own,
    ensures
        balanced(b),
{
    lemma_same_order(a.nodes, b.nodes, EntryId::none());
    assert forall|i: int, m: Measure| 0 <= i < b.nodes.len() implies #[trigger] entry_balanced(
        b,
        i,
        m,
    ) by {
        let id = EntryId(i as u32);
        assert(entry_balanced(a, i, m));
        lemma_children(a.nodes, id);
        assert(children(b.nodes, id) == children(a.nodes, id));
        assert(value(b.nodes[i], m) == value(a.nodes[i], m));
        lemma_same_sum(a.nodes, b.nodes, children(a.nodes, id), m);
    }
}

/// Linking a new entry and counting it in the handle of its directory keeps
/// the books balanced.
proof fn lemma_added(a: Books, b: Books, dir: EntryId, n: Node, o: Own, err: bool)
    requires
        balanced(a),
        has_room(a, dir),
        n.common.next == EntryId::none(),
        first_child(n) == EntryId::none(),
        child_of(n, dir),
        forall|m: Measure| #[trigger] value(n, m) == own_value(o, m),
        b.nodes == hang(a.nodes.push(n), dir, EntryId(a.nodes.len() as u32)),
        b.own == a.own.push(o),
        ({
            let id = EntryId(a.nodes.len() as u32);
            let open = a.open.insert(dir, tally(a.open[dir], true, o.blocks, o.size, err));
            b.open == if n.kind is Dir {
                open.insert(id, nothing_in(id))
            } else {
                open
            }
        }),
    ensures
        balanced(b),
{
    let id = EntryId(a.nodes.len() as u32);
    let kids = children(a.nodes, dir);
    lemma_hang(a.nodes, n, dir);
    lemma_hang_keeps(a.nodes, n, dir, EntryId::none());
    children_keep_scan_order(a.nodes, n, dir);
    lemma_children(a.nodes, dir);
    assert forall|i: int, m: Measure| 0 <= i < a.nodes.len() implies #[trigger] value(
        b.nodes[i],
        m,
    ) == value(a.nodes[i], m) && (b.nodes[i].kind is Dir <==> a.nodes[i].kind is Dir) by {
        assert(a.nodes.push(n)[i] == a.nodes[i]);
    }
    assert(b.nodes[id.0 as int] == n);
    assert forall|k: EntryId| #[trigger] b.open.contains_key(k) implies valid_id(b.nodes, k)
        && b.nodes[k.0 as int].kind is Dir && b.open[k].id == k by {
        if k != id {
            assert(a.open.contains_key(k));
            assert(value(b.nodes[k.0 as int], Measure::Size) == value(
                a.nodes[k.0 as int],
                Measure::Size,
            ));
        }
    }
    assert forall|d: EntryId, k: EntryId|
        valid_id(b.nodes, d) && !b.open.contains_key(d) && #[trigger] b.open.contains_key(
            k,
        ) implies !#[trigger] children(b.nodes, d).contains(k) by {
        if d != id {
            assert(d != dir);
            lemma_children(a.nodes, d);
            assert(children(b.nodes, d) == children(a.nodes, d));
            if k == id {
                if children(a.nodes, d).contains(k) {
                    let j = choose|j: int|
                        0 <= j < children(a.nodes, d).len() && children(a.nodes, d)[j] == k;
                    assert(valid_id(a.nodes, children(a.nodes, d)[j]));
                }
            } else {
                assert(a.open.contains_key(k));
            }
        }
    }
    assert forall|i: int, m: Measure| 0 <= i < b.nodes.len() implies #[trigger] entry_balanced(
        b,
        i,
        m,
    ) by {
        let d = EntryId(i as u32);
        if i == id.0 {
            assert(value(n, m) == own_value(o, m));
            assert(sum(b.nodes, children(b.nodes, d), m) == 0);
        } else {
            let ids = children(a.nodes, d);
            assert(entry_balanced(a, i, m));
            assert(value(b.nodes[i], m) == value(a.nodes[i], m));
            lemma_children(a.nodes, d);
            assert forall|j: int| 0 <= j < ids.len() implies value(
                b.nodes[(#[trigger] ids[j]).0 as int],
                m,
            ) == value(a.nodes[ids[j].0 as int], m) by {
                assert(valid_id(a.nodes, ids[j]));
            }
            lemma_same_sum(a.nodes, b.nodes, ids, m);
            if d == dir {
                assert(children(b.nodes, d) == kids.push(id));
                assert(kids.push(id).drop_last() =~= kids);
                assert(value(n, m) == own_value(o, m));
            }
        }
    }
}

/// Finalizing a directory keeps the books balanced.
proof fn lemma_closed(a: Books, b: Books, dir: EntryId, parent: Option<EntryId>)
    requires
        balanced(a),
        dir_closed(a, b, dir, parent),
    ensures
        balanced(b),
{
    let g = a.open[dir];
    let at = dir.0 as int;
    assert(valid_id(a.nodes, dir) && a.nodes[at].kind is Dir && g.id == dir);
    let mid = Books {
        nodes: a.nodes.update(at, with_totals(a.nodes[at], g)),
        open: b.open,
        own: a.own,
    };
    assert(same_links(a.nodes, mid.nodes));
    lemma_same_order(a.nodes, mid.nodes, EntryId::none());
    assert forall|k: EntryId| #[trigger] mid.open.contains_key(k) implies valid_id(mid.nodes, k)
        && mid.nodes[k.0 as int].kind is Dir && mid.open[k].id == k by {
        assert(a.open.contains_key(k));
    }
    assert forall|d: EntryId, k: EntryId|
        valid_id(mid.nodes, d) && !mid.open.contains_key(d) && #[trigger] mid.open.contains_key(
            k,
        ) implies !#[trigger] children(mid.nodes, d).contains(k) by {
        assert(a.open.contains_key(k));
        assert(children(mid.nodes, d) == children(a.nodes, d));
    }
    assert forall|i: int, m: Measure| 0 <= i < mid.nodes.len() implies #[trigger] entry_balanced(
        mid,
        i,
        m,
    ) by {
        let d = EntryId(i as u32);
        let ids = children(a.nodes, d);
        assert(children(mid.nodes, d) == ids);
        assert(entry_balanced(a, i, m));
        assert(entry_balanced(a, at, m));
        lemma_children(a.nodes, d);
        if ids.contains(dir) {
            let k = choose|k: int| 0 <= k < ids.len() && ids[k] == dir;
            assert(child_of(a.nodes[ids[k].0 as int], d));
            assert(parent is Some) by {
                assert(valid_id(a.nodes, d));
            }
            let p = parent->0;
            lemma_only_parent(a.nodes, d, p, dir);
            assert forall|j: int| 0 <= j < ids.len() && j != k implies value(
                mid.nodes[(#[trigger] ids[j]).0 as int],
                m,
            ) == value(a.nodes[ids[j].0 as int], m) by {
                assert(ids[j] != ids[k]);
                assert(valid_id(a.nodes, ids[j]));
            }
            lemma_changed_sum(a.nodes, mid.nodes, ids, k, m);
            assert(i != at) by {
                assert(a.open.contains_key(dir));
            }
        } else {
            assert forall|j: int| 0 <= j < ids.len() implies value(
                mid.nodes[(#[trigger] ids[j]).0 as int],
                m,
            ) == value(a.nodes[ids[j].0 as int], m) by {
                assert(ids.contains(ids[j]));
                assert(valid_id(a.nodes, ids[j]));
            }
            lemma_same_sum(a.nodes, mid.nodes, ids, m);
        }
    }
    assert(balanced(mid));
    assert(same_links(mid.nodes, b.nodes));
    assert forall|i: int, m: Measure| 0 <= i < mid.nodes.len() implies #[trigger] value(
        b.nodes[i],
        m,
    ) == value(mid.nodes[i], m) by {}
    lemma_relabeled(mid, b);
}

/// A directory is in one other directory at most.
proof fn lemma_only_parent(nodes: Seq<Node>, d: EntryId, p: EntryId, x: EntryId)
    requires
        parented(nodes),
        valid_id(nodes, d),
        valid_id(nodes, p),
        children(nodes, d).contains(x),
        children(nodes, p).contains(x),
        nodes[x.0 as int].kind is Dir,
    ensures
        d == p,
{
    let i = choose|i: int| 0 <= i < children(nodes, d).len() && children(nodes, d)[i] == x;
    let j = choose|j: int| 0 <= j < children(nodes, p).len() && children(nodes, p)[j] == x;
    assert(child_of(nodes[children(nodes, d)[i].0 as int], d));
    assert(child_of(nodes[children(nodes, p)[j].0 as int], p));
}

proof fn lemma_begun(b: Books, name: Seq<char>, stat: Stat, dev: u32)
    requires
        begun(b, name, stat, dev),
    ensures
        balanced(b),
{
    let id = EntryId(0);
    let nodes = b.nodes;
    assert(first_child(nodes[0]) == EntryId::none());
    assert(children(nodes, id) =~= Seq::<EntryId>::empty());
    assert forall|d: EntryId, i: int|
        #![trigger children(nodes, d)[i]]
        valid_id(nodes, d) && 0 <= i < children(nodes, d).len() implies child_of(
        nodes[children(nodes, d)[i].0 as int],
        d,
    ) by {
        assert(d == id);
    }
    assert forall|i: int, m: Measure| 0 <= i < nodes.len() implies #[trigger] entry_balanced(
        b,
        i,
        m,
    ) by {
        assert(EntryId(i as u32) == id);
        assert(sum(nodes, children(nodes, id), m) == 0);
    }
}

proof fn lemma_proceeds(a: Books, b: Books)
    requires
        balanced(a),
        proceeds(a, b),
    ensures
        balanced(b),
{
    let id = EntryId(a.nodes.len() as u32);
    let n = b.nodes[id.0 as int];
    if exists|dir: EntryId, name: Seq<char>, stat: Stat| #[trigger]
        file_added(a, b, dir, name, stat) {
        let (dir, name, stat) = choose|dir: EntryId, name: Seq<char>, stat: Stat| #[trigger]
            file_added(a, b, dir, name, stat);
        lemma_added(a, b, dir, n, Own { blocks: stat.blocks, size: stat.size }, false);
    } else if exists|dir: EntryId, name: Seq<char>, sp: EType| #[trigger]
        special_added(a, b, dir, name, sp) {
        let (dir, name, sp) = choose|dir: EntryId, name: Seq<char>, sp: EType| #[trigger]
            special_added(a, b, dir, name, sp);
        let mid = Books { nodes: hang(a.nodes.push(n), dir, id), open: b.open, own: b.own };
        lemma_added(a, mid, dir, n, Own { blocks: 0, size: 0 }, sp is Error);
        lemma_hang(a.nodes, n, dir);
        assert(same_links(mid.nodes, b.nodes));
        lemma_relabeled(mid, b);
    } else if exists|dir: EntryId, name: Seq<char>, stat: Stat, dev: u32| #[trigger]
        dir_added(a, b, dir, name, stat, dev) {
        let (dir, name, stat, dev) = choose|dir: EntryId, name: Seq<char>, stat: Stat, dev: u32|
         #[trigger]
            dir_added(a, b, dir, name, stat, dev);
        lemma_added(a, b, dir, n, Own { blocks: stat.blocks, size: stat.size }, false);
    } else if exists|dir: EntryId| #[trigger] dir_marked(a, b, dir) {
        let dir = choose|dir: EntryId| #[trigger] dir_marked(a, b, dir);
        assert(valid_id(a.nodes, dir));
        assert(same_links(a.nodes, b.nodes));
        lemma_relabeled(a, b);
    } else {
        let (dir, parent) = choose|dir: EntryId, parent: Option<EntryId>| #[trigger]
            dir_closed(a, b, dir, parent);
        lemma_closed(a, b, dir, parent);
    }
}

proof fn lemma_history(states: Seq<Books>, n: int, name: Seq<char>, stat: Stat, dev: u32)
    requires
        0 <= n < states.len(),
        begun(states[0], name, stat, dev),
        forall|i: int| 0 <= i < states.len() - 1 ==> proceeds(#[trigger] states[i], states[i + 1]),
    ensures
        balanced(states[n]),
    decreases n,
{
    if n == 0 {
        lemma_begun(states[0], name, stat, dev);
    } else {
        lemma_history(states, n - 1, name, stat, dev);
        assert(proceeds(states[n - 1], states[n - 1 + 1]));
        lemma_proceeds(states[n - 1], states[n]);
    }
}

/// The blocks that the entries take up by themselves.
pub open spec fn own_blocks(own: Seq<Own>, ids: Seq<EntryId>) -> nat
    decreases ids.len(),
{
    if ids.len() == 0 {
        0
    } else {
        own_blocks(own, ids.drop_last()) + own[ids.last().0 as int].blocks as nat
    }
}

/// The apparent sizes of the entries by themselves.
pub open spec fn own_bytes(own: Seq<Own>, ids: Seq<EntryId>) -> nat
    decreases ids.len(),
{
    if ids.len() == 0 {
        0
    } else {
        own_bytes(own, ids.drop_last()) + own[ids.last().0 as int].size as nat
    }
}

spec fn own_sum(own: Seq<Own>, ids: Seq<EntryId>, m: Measure) -> nat
    decreases ids.len(),
{
    if ids.len() == 0 {
        0
    } else {
        own_sum(own, ids.drop_last(), m) + own_value(own[ids.last().0 as int], m) + extra(m)
    }
}

proof fn lemma_own_sum(own: Seq<Own>, ids: Seq<EntryId>)
    ensures
        own_sum(own, ids, Measure::Blocks) == own_blocks(own, ids),
        own_sum(own, ids, Measure::Size) == own_bytes(own, ids),
        own_sum(own, ids, Measure::Items) == ids.len(),
    decreases ids.len(),
{
    if ids.len() > 0 {
        lemma_own_sum(own, ids.drop_last());
    }
}

proof fn lemma_own_concat(own: Seq<Own>, a: Seq<EntryId>, b: Seq<EntryId>, m: Measure)
    ensures
        own_sum(own, a + b, m) == own_sum(own, a, m) + own_sum(own, b, m),
    decreases b.len(),
{
    if b.len() == 0 {
        assert(a + b =~= a);
    } else {
        assert((a + b).drop_last() =~= a + b.drop_last());
        assert((a + b).last() == b.last());
        lemma_own_concat(own, a, b.drop_last(), m);
    }
}

/// With every handle finalized, a node has what it and all below it take up.
proof fn lemma_whole(b: Books, s: Shape, m: Measure)
    requires
        balanced(b),
        b.open.dom() =~= Set::empty(),
        linked(b.nodes, s),
    ensures
        own_sum(b.own, flat(s), m) >= extra(m),
        value(b.nodes[s.id.0 as int], m) == cap(
            (own_sum(b.own, flat(s), m) - extra(m)) as nat,
            m,
        ),
    decreases s, 0nat, 0nat,
{
    let i = s.id.0 as int;
    let below = flats(s.kids, s.kids.len());
    let own = own_value(b.own[i], m);
    assert(EntryId(i as u32) == s.id);
    assert(entry_balanced(b, i, m));
    assert(!b.open.contains_key(s.id));
    let head = first_child(b.nodes[i]);
    assert(onward(b.nodes, i, head));
    lemma_chain(b.nodes, head);
    lemma_walk_unique(nexts(b.nodes), head, children(b.nodes, s.id), tops(s.kids));
    lemma_whole_kids(b, s, s.kids.len(), own, m);
    assert(tops(s.kids).take(s.kids.len() as int) =~= tops(s.kids));
    lemma_own_concat(b.own, seq![s.id], below, m);
    assert(seq![s.id].drop_last() =~= Seq::<EntryId>::empty());
    assert(own_sum(b.own, seq![s.id].drop_last(), m) == 0);
    assert(seq![s.id].last() == s.id);
    assert(own_sum(b.own, seq![s.id], m) == own + extra(m));
    if !(b.nodes[i].kind is Dir) {
        assert(head == EntryId::none());
        if s.kids.len() > 0 {
            assert(step_at(nexts(b.nodes), tops(s.kids), 0));
        }
        assert(own_sum(b.own, below, m) == 0);
    }
}

proof fn lemma_whole_kids(b: Books, s: Shape, n: nat, more: nat, m: Measure)
    requires
        balanced(b),
        b.open.dom() =~= Set::empty(),
        linked(b.nodes, s),
        n <= s.kids.len(),
    ensures
        cap(more + sum(b.nodes, tops(s.kids).take(n as int), m), m) == cap(
            more + own_sum(b.own, flats(s.kids, n), m),
            m,
        ),
    decreases s.kids, 1nat, n,
{
    if n > 0 {
        let k = s.kids[n - 1];
        let ids = tops(s.kids).take(n as int);
        let front = flats(s.kids, (n - 1) as nat);
        assert(linked(b.nodes, k));
        lemma_whole(b, k, m);
        assert(ids.drop_last() =~= tops(s.kids).take(n - 1));
        assert(ids.last() == k.id);
        let v = value(b.nodes[k.id.0 as int], m);
        lemma_whole_kids(b, s, (n - 1) as nat, more + v + extra(m), m);
        lemma_own_concat(b.own, front, flat(k), m);
    }
}

/// Ids that are all different and below a bound are no more than the bound.
proof fn lemma_few_ids(ids: Seq<EntryId>, n: nat)
    requires
        ids.no_duplicates(),
        forall|i: int| 0 <= i < ids.len() ==> (#[trigger] ids[i]).0 < n,
    ensures
        ids.len() <= n,
{
    let numbers = Seq::new(ids.len(), |i: int| ids[i].0 as int);
    let range = set_int_range(0, n as int);
    assert forall|i: int, j: int|
        0 <= i < numbers.len() && 0 <= j < numbers.len() && i != j implies numbers[i]
        != numbers[j] by {
        assert(ids[i] != ids[j]);
    }
    numbers.unique_seq_to_set();
    lemma_int_range(0, n as int);
    assert forall|x: int| numbers.to_set().contains(x) implies range.contains(x) by {
        assert(numbers.contains(x));
        let i = choose|i: int| 0 <= i < numbers.len() && numbers[i] == x;
        assert(ids[i].0 < n);
    }
    lemma_len_subset(numbers.to_set(), range);
}

/// Totals add up, in whatever turns the directories were filled: once every
/// handle has been finalized into that of its parent, and none before those
/// below it, every directory has the blocks and the size of itself and of all
/// that is below it, and counts all that is below it. Any other entry keeps
/// what it was added with.
pub proof fn totals_add_up(states: Seq<Books>, name: Seq<char>, stat: Stat, dev: u32, id: EntryId)
    requires
        states.len() > 0,
        begun(states[0], name, stat, dev),
        forall|i: int| 0 <= i < states.len() - 1 ==> proceeds(#[trigger] states[i], states[i + 1]),
        states.last().open.dom() =~= Set::empty(),
        valid_id(states.last().nodes, id),
    ensures
        ({
            let b = states.last();
            let n = b.nodes[id.0 as int];
            let ids = flat(shape_at(b.nodes, id));
            &&& has_shape(b.nodes, id)
            &&& match n.kind {
                NodeKind::Dir(d) => {
                    &&& d.items == ids.len() - 1
                    &&& n.common.blocks == capped(own_blocks(b.own, ids))
                    &&& n.common.size == capped(own_bytes(b.own, ids))
                },
                _ => {
                    &&& n.common.blocks == b.own[id.0 as int].blocks
                    &&& n.common.size == b.own[id.0 as int].size
                },
            }
        }),
{
    let b = states.last();
    let n = b.nodes[id.0 as int];
    lemma_history(states, states.len() - 1, name, stat, dev);
    lemma_has_shape(b.nodes, id);
    let s = shape_at(b.nodes, id);
    let ids = flat(s);
    lemma_whole(b, s, Measure::Blocks);
    lemma_whole(b, s, Measure::Size);
    lemma_whole(b, s, Measure::Items);
    lemma_own_sum(b.own, ids);
    lemma_no_repeats(b.nodes, s);
    lemma_flat_valid(b.nodes, s);
    assert forall|i: int| 0 <= i < ids.len() implies (#[trigger] ids[i]).0 < b.nodes.len() by {
        assert(ids.contains(ids[i]));
    }
    lemma_few_ids(ids, b.nodes.len());
    assert(EntryId(id.0) == id);
    assert(entry_balanced(b, id.0 as int, Measure::Blocks));
    assert(entry_balanced(b, id.0 as int, Measure::Size));
}

} // verus!
