//! The two phases of a scan.
//!
//! 1. **Walk**: each directory is listed and each of its entries looked up.
//!    What came of that is a [`WalkedDir`]; this module decides what to record
//!    of each entry.
//! 2. **Build**: the [`WalkedDir`] is folded into a [`Tree`] through a
//!    [`MemSink`], in order.

use vstd::prelude::*;

use crate::arena::all_spare_unset;
use crate::model::{DirData, EType, EntryId, Node, Tree};
use crate::num::{capped, capped_sum};
use crate::rings::{bare, lemma_bare_shape, ringed};
use crate::scan::{stat_from_metadata, stat_of, Metadata};
use crate::shape::{
    ascending, child_of, children, devices_known, devices_of, devices_of_all, entries_of, entry_of,
    first_child, grafted, head_of, lemma_devices_push, lemma_flat_preorder, lemma_graft, lemma_leaf,
    lemma_more_devices, lemma_shape_at, lemma_sizes_monotone, lemma_top, lemma_walk_unique, linked,
    nexts, owned, preorder, shape_size, sizes, tops, unshared, with_kid, Detail, Entry, Head, Shape,
};
use crate::sink::{
    flushed, hang, has_trouble, lemma_hang, lemma_plain, recorded_ext, with_totals, Gathered,
    MemSink, MemSinkDir, Stat,
};

verus! {

/// What the walk found at one place of a directory.
pub enum Walked {
    File { name: String, stat: Stat },
    Special { name: String, etype: EType },
    Dir(Box<WalkedDir>),
}

/// What the walk found in a directory.
pub struct WalkedDir {
    pub name: String,
    pub stat: Stat,
    pub children: Vec<Walked>,
    pub read_error: bool,
}

/// What the walk found, as a value.
pub enum Find {
    File { name: Seq<char>, stat: Stat },
    Special { name: Seq<char>, etype: EType },
    Dir { name: Seq<char>, stat: Stat, children: Seq<Find>, read_error: bool },
}

pub open spec fn find_of(w: Walked) -> Find
    decreases w,
{
    match w {
        Walked::File { name, stat } => Find::File { name: name@, stat },
        Walked::Special { name, etype } => Find::Special { name: name@, etype },
        Walked::Dir(d) => find_of_dir(*d),
    }
}

pub open spec fn find_of_dir(d: WalkedDir) -> Find
    decreases d,
{
    Find::Dir {
        name: d.name@,
        stat: d.stat,
        children: finds(d.children@),
        read_error: d.read_error,
    }
}

pub open spec fn finds(ws: Seq<Walked>) -> Seq<Find>
    decreases ws,
{
    Seq::new(
        ws.len(),
        |i: int|
            if 0 <= i < ws.len() {
                find_of(ws[i])
            } else {
                arbitrary()
            },
    )
}

impl View for Walked {
    type V = Find;

    open spec fn view(&self) -> Find {
        find_of(*self)
    }
}

impl View for WalkedDir {
    type V = Find;

    open spec fn view(&self) -> Find {
        find_of_dir(*self)
    }
}

/// Every find has the type that goes with it.
pub open spec fn well_typed(f: Find) -> bool
    decreases f,
{
    match f {
        Find::File { stat, .. } => !(stat.etype is Dir),
        Find::Special { etype, .. } => etype.is_special(),
        Find::Dir { stat, children, .. } => {
            &&& stat.etype is Dir
            &&& forall|i: int| 0 <= i < children.len() ==> well_typed(#[trigger] children[i])
        },
    }
}

/// The number of entries in a find.
pub open spec fn count(f: Find) -> nat
    decreases f, 0nat,
{
    match f {
        Find::Dir { children, .. } => 1 + counts(children, children.len()),
        _ => 1,
    }
}

/// The number of entries in the first `n` finds.
pub open spec fn counts(fs: Seq<Find>, n: nat) -> nat
    decreases fs, n,
{
    if n == 0 || n > fs.len() {
        0
    } else {
        counts(fs, (n - 1) as nat) + count(fs[n - 1])
    }
}

/// The blocks of all entries in a find.
pub open spec fn blocks(f: Find) -> nat
    decreases f, 0nat,
{
    match f {
        Find::File { stat, .. } => stat.blocks as nat,
        Find::Special { .. } => 0,
        Find::Dir { stat, children, .. } => stat.blocks as nat + all_blocks(
            children,
            children.len(),
        ),
    }
}

/// The blocks of all entries in the first `n` finds.
pub open spec fn all_blocks(fs: Seq<Find>, n: nat) -> nat
    decreases fs, n,
{
    if n == 0 || n > fs.len() {
        0
    } else {
        all_blocks(fs, (n - 1) as nat) + blocks(fs[n - 1])
    }
}

/// The apparent sizes of all entries in a find.
pub open spec fn bytes(f: Find) -> nat
    decreases f, 0nat,
{
    match f {
        Find::File { stat, .. } => stat.size as nat,
        Find::Special { .. } => 0,
        Find::Dir { stat, children, .. } => stat.size as nat + all_bytes(children, children.len()),
    }
}

/// The apparent sizes of all entries in the first `n` finds.
pub open spec fn all_bytes(fs: Seq<Find>, n: nat) -> nat
    decreases fs, n,
{
    if n == 0 || n > fs.len() {
        0
    } else {
        all_bytes(fs, (n - 1) as nat) + bytes(fs[n - 1])
    }
}

/// A scan error was met in the find.
pub open spec fn troubled(f: Find) -> bool
    decreases f, 0nat,
{
    match f {
        Find::File { .. } => false,
        Find::Special { etype, .. } => etype is Error,
        Find::Dir { children, read_error, .. } => read_error || any_troubled(
            children,
            children.len(),
        ),
    }
}

/// A scan error was met in one of the first `n` finds.
pub open spec fn any_troubled(fs: Seq<Find>, n: nat) -> bool
    decreases fs, n,
{
    if n == 0 || n > fs.len() {
        false
    } else {
        any_troubled(fs, (n - 1) as nat) || troubled(fs[n - 1])
    }
}

/// The entry to record for a find. The totals of a directory are those of
/// itself and all that is below it.
pub open spec fn recorded(f: Find) -> Entry
    decreases f,
{
    match f {
        Find::File { name, stat } => Entry {
            head: Head {
                name,
                etype: stat.etype,
                size: stat.size,
                blocks: stat.blocks,
                ext: recorded_ext(stat.ext),
                detail: if stat.etype is Link {
                    Detail::Link { ino: stat.ino, nlink: stat.nlink }
                } else {
                    Detail::File
                },
            },
            children: Seq::empty(),
        },
        Find::Special { name, etype } => Entry {
            head: Head { name, etype, size: 0, blocks: 0, ext: None, detail: Detail::File },
            children: Seq::empty(),
        },
        Find::Dir { name, stat, children, read_error } => Entry {
            head: Head {
                name,
                etype: EType::Dir,
                size: capped(stat.size as nat + all_bytes(children, children.len())),
                blocks: capped(stat.blocks as nat + all_blocks(children, children.len())),
                ext: recorded_ext(stat.ext),
                detail: Detail::Dir {
                    items: counts(children, children.len()) as u32,
                    dev: stat.dev,
                    err: read_error,
                    suberr: any_troubled(children, children.len()),
                },
            },
            children: recorded_all(children),
        },
    }
}

/// The entries to record for a list of finds.
pub open spec fn recorded_all(fs: Seq<Find>) -> Seq<Entry>
    decreases fs,
{
    Seq::new(
        fs.len(),
        |i: int|
            if 0 <= i < fs.len() {
                recorded(fs[i])
            } else {
                arbitrary()
            },
    )
}

/// The directory `dir` is the last subtree of the arena, has the shape `s`,
/// and holds what is to be recorded for `done`. Its own totals are not flushed
/// yet.
spec fn filling(sink: MemSink, dir: Gathered, s: Shape, done: Seq<Find>) -> bool {
    let nodes = sink.plain();
    let n = done.len();
    &&& sink.wf()
    &&& sink.aggregates()
    &&& s.id == dir.id
    &&& linked(nodes, s)
    &&& owned(nodes, s)
    &&& preorder(s, s.id.0 as int)
    &&& s.id.0 + shape_size(s) == nodes.len()
    &&& shape_size(s) == 1 + counts(done, n)
    &&& entries_of(nodes, sink@.devices@, s.kids) == recorded_all(done)
    &&& dir.blocks == capped(all_blocks(done, n))
    &&& dir.size == capped(all_bytes(done, n))
    &&& dir.items == counts(done, n)
    &&& dir.suberr == any_troubled(done, n)
    &&& nodes[s.id.0 as int].kind is Dir
    &&& nodes[s.id.0 as int].kind->Dir_0.suberr == dir.suberr
    &&& nodes[s.id.0 as int].common.next == EntryId::none()
}

/// The two directory nodes differ at most in the link to the children and in
/// the mark of an error further down.
spec fn same_dir(a: Node, b: Node) -> bool {
    &&& a.common == b.common
    &&& a.kind is Dir
    &&& b.kind is Dir
    &&& b.kind->Dir_0 == DirData {
        sub: b.kind->Dir_0.sub,
        suberr: b.kind->Dir_0.suberr,
        ..a.kind->Dir_0
    }
}

/// From one arena to the other nothing but the subtree at `id` and the rings
/// have changed, and of the node at `id` only what [`same_dir`] leaves open.
spec fn only_below(a: Tree, b: Tree, id: EntryId) -> bool {
    &&& forall|i: int| 0 <= i < id.0 ==> bare(b.nodes@)[i] == #[trigger] bare(a.nodes@)[i]
    &&& same_dir(bare(a.nodes@)[id.0 as int], bare(b.nodes@)[id.0 as int])
    &&& a.devices@.is_prefix_of(b.devices@)
    &&& b.root == a.root
}

/// A subtree that was hung up and filled has been grafted.
proof fn lemma_hung(a: Seq<Node>, n: Node, b: Seq<Node>, s: Shape, kid: Shape)
    requires
        ascending(a),
        unshared(a),
        a.len() < u32::MAX,
        linked(a, s),
        owned(a, s),
        preorder(s, s.id.0 as int),
        s.id.0 + shape_size(s) == a.len(),
        a[s.id.0 as int].kind is Dir,
        n.common.next == EntryId::none(),
        first_child(n) == EntryId::none(),
        kid.id.0 == a.len(),
        a.len() + shape_size(kid) <= b.len(),
        ({
            let h = hang(a.push(n), s.id, kid.id);
            &&& forall|i: int| 0 <= i < a.len() && i != s.id.0 ==> b[i] == #[trigger] h[i]
            &&& first_child(b[s.id.0 as int]) == first_child(h[s.id.0 as int])
        }),
        b[a.len() as int].common.next == EntryId::none(),
        child_of(b[a.len() as int], s.id),
    ensures
        grafted(a, b, s, kid),
{
    lemma_hang(a, n, s.id);
    let h = hang(a.push(n), s.id, kid.id);
    let ids = tops(s.kids);
    let head = first_child(a[s.id.0 as int]);
    lemma_walk_unique(nexts(a), head, children(a, s.id), ids);
    let k = s.kids.len();
    assert(a.push(n)[s.id.0 as int] == a[s.id.0 as int]);
    if k > 0 {
        assert(ids.last() == s.kids[k - 1].id);
        lemma_sizes_monotone(s.kids, (k - 1) as nat, k);
        assert(preorder(s.kids[k - 1], s.id.0 + 1 + sizes(s.kids, (k - 1) as nat)));
        let last = s.kids[k - 1].id.0 as int;
        assert(a.push(n)[last] == a[last]);
        assert(b[last] == h[last]);
    }
    assert forall|i: int|
        s.id.0 < i < a.len() && (k > 0 ==> i != s.kids[k - 1].id.0) implies b[i]
        == #[trigger] a[i] by {
        assert(b[i] == h[i]);
        assert(a.push(n)[i] == a[i]);
    }
}

/// Sums over one find more.
proof fn lemma_push_find(done: Seq<Find>, f: Find)
    ensures
        counts(done.push(f), (done.len() + 1) as nat) == counts(done, done.len()) + count(f),
        all_blocks(done.push(f), (done.len() + 1) as nat) == all_blocks(done, done.len()) + blocks(
            f,
        ),
        all_bytes(done.push(f), (done.len() + 1) as nat) == all_bytes(done, done.len()) + bytes(f),
        any_troubled(done.push(f), (done.len() + 1) as nat) == (any_troubled(done, done.len())
            || troubled(f)),
        recorded_all(done.push(f)) == recorded_all(done).push(recorded(f)),
{
    lemma_prefix_sums(done, done.push(f), done.len());
    assert(recorded_all(done.push(f)) =~= recorded_all(done).push(recorded(f)));
}

proof fn lemma_prefix_sums(a: Seq<Find>, b: Seq<Find>, n: nat)
    requires
        n <= a.len() <= b.len(),
        forall|i: int| 0 <= i < a.len() ==> b[i] == #[trigger] a[i],
    ensures
        counts(a, n) == counts(b, n),
        all_blocks(a, n) == all_blocks(b, n),
        all_bytes(a, n) == all_bytes(b, n),
        any_troubled(a, n) == any_troubled(b, n),
    decreases n,
{
    if n > 0 {
        lemma_prefix_sums(a, b, (n - 1) as nat);
        assert(b[n - 1] == a[n - 1]);
    }
}

/// What hanging up a node changes before it in the arena.
proof fn lemma_hang_frame(a: Seq<Node>, n: Node, s: Shape)
    requires
        ascending(a),
        unshared(a),
        a.len() < u32::MAX,
        linked(a, s),
        preorder(s, s.id.0 as int),
        s.id.0 + shape_size(s) == a.len(),
        a[s.id.0 as int].kind is Dir,
        n.common.next == EntryId::none(),
        first_child(n) == EntryId::none(),
    ensures
        ({
            let h = hang(a.push(n), s.id, EntryId(a.len() as u32));
            &&& h.len() == a.len() + 1
            &&& h[a.len() as int] == n
            &&& forall|i: int| 0 <= i < s.id.0 ==> h[i] == #[trigger] a[i]
            &&& same_dir(a[s.id.0 as int], h[s.id.0 as int])
            &&& h[s.id.0 as int].kind->Dir_0.suberr == a[s.id.0 as int].kind->Dir_0.suberr
        }),
{
    lemma_hang(a, n, s.id);
    let ids = tops(s.kids);
    lemma_walk_unique(nexts(a), first_child(a[s.id.0 as int]), children(a, s.id), ids);
    let k = s.kids.len();
    assert(a.push(n)[s.id.0 as int] == a[s.id.0 as int]);
    if k > 0 {
        assert(ids.last() == s.kids[k - 1].id);
        lemma_sizes_monotone(s.kids, (k - 1) as nat, k);
        assert(preorder(s.kids[k - 1], s.id.0 + 1 + sizes(s.kids, (k - 1) as nat)));
    }
    assert forall|i: int| 0 <= i < s.id.0 implies hang(
        a.push(n),
        s.id,
        EntryId(a.len() as u32),
    )[i] == #[trigger] a[i] by {
        assert(a.push(n)[i] == a[i]);
    }
}

/// Records a file.
fn emit_file(
    sink: &mut MemSink,
    parent: &mut MemSinkDir,
    name: &str,
    stat: &Stat,
    Ghost(s): Ghost<Shape>,
    Ghost(done): Ghost<Seq<Find>>,
) -> (r: Ghost<Shape>)
    requires
        filling(*old(sink), old(parent)@, s, done),
        !(stat.etype is Dir),
        old(sink)@.nodes@.len() < u32::MAX,
    ensures
        filling(
            *final(sink),
            final(parent)@,
            r@,
            done.push(Find::File { name: name@, stat: *stat }),
        ),
        final(sink)@.devices@ == devices_of(
            old(sink)@.devices@,
            recorded(Find::File { name: name@, stat: *stat }),
        ),
        only_below(old(sink)@, final(sink)@, s.id),
        final(parent)@.id == s.id,
{
    let ghost a = sink.plain();
    proof {
        lemma_plain(sink@.nodes@);
    }
    let ghost devices = sink@.devices@;
    let id = parent.add_stat(sink, name, stat);
    let ghost f = Find::File { name: name@, stat: *stat };
    let ghost kid = Shape { id, kids: Seq::empty() };
    proof {
        let b = sink.plain();
        let n = b[id.0 as int];
        lemma_hang_frame(a, n, s);
        lemma_leaf(b, kid);
        lemma_hung(a, n, b, s, kid);
        lemma_graft(a, b, s, kid);
        lemma_push_find(done, f);
        assert(entries_of(b, devices, kid.kids) =~= Seq::<Entry>::empty());
        assert(entry_of(b, devices, kid) == recorded(f));
        assert(entries_of(b, devices, with_kid(s, kid).kids) == entries_of(
            a,
            devices,
            s.kids,
        ).push(entry_of(b, devices, kid)));
    }
    Ghost(with_kid(s, kid))
}

/// Records a marker.
fn emit_special(
    sink: &mut MemSink,
    parent: &mut MemSinkDir,
    name: &str,
    etype: EType,
    Ghost(s): Ghost<Shape>,
    Ghost(done): Ghost<Seq<Find>>,
) -> (r: Ghost<Shape>)
    requires
        filling(*old(sink), old(parent)@, s, done),
        etype.is_special(),
        old(sink)@.nodes@.len() < u32::MAX,
    ensures
        filling(
            *final(sink),
            final(parent)@,
            r@,
            done.push(Find::Special { name: name@, etype }),
        ),
        final(sink)@.devices@ == devices_of(
            old(sink)@.devices@,
            recorded(Find::Special { name: name@, etype }),
        ),
        only_below(old(sink)@, final(sink)@, s.id),
        final(parent)@.id == s.id,
{
    let ghost a = sink.plain();
    proof {
        lemma_plain(sink@.nodes@);
    }
    let ghost devices = sink@.devices@;
    let ghost id = EntryId(a.len() as u32);
    parent.add_special(sink, name, etype);
    let ghost f = Find::Special { name: name@, etype };
    let ghost kid = Shape { id, kids: Seq::empty() };
    proof {
        let b = sink.plain();
        let n = b[id.0 as int];
        lemma_hang_frame(a, n, s);
        lemma_leaf(b, kid);
        lemma_hung(a, n, b, s, kid);
        lemma_graft(a, b, s, kid);
        lemma_push_find(done, f);
        assert(entries_of(b, devices, kid.kids) =~= Seq::<Entry>::empty());
        assert(entry_of(b, devices, kid) == recorded(f));
        assert(entries_of(b, devices, with_kid(s, kid).kids) == entries_of(
            a,
            devices,
            s.kids,
        ).push(entry_of(b, devices, kid)));
    }
    Ghost(with_kid(s, kid))
}

proof fn lemma_only_below(a: Tree, b: Tree, c: Tree, id: EntryId)
    requires
        only_below(a, b, id),
        only_below(b, c, id),
    ensures
        only_below(a, c, id),
{
    assert forall|i: int| 0 <= i < id.0 implies bare(c.nodes@)[i] == #[trigger] bare(
        a.nodes@,
    )[i] by {
        assert(bare(b.nodes@)[i] == bare(a.nodes@)[i]);
    }
    assert forall|i: int| 0 <= i < a.devices@.len() implies c.devices@[i]
        == #[trigger] a.devices@[i] by {
        assert(b.devices@[i] == a.devices@[i]);
    }
    assert(a.devices@ =~= c.devices@.take(a.devices@.len() as int));
}

proof fn lemma_counts_monotone(fs: Seq<Find>, i: nat, n: nat)
    requires
        i < n <= fs.len(),
    ensures
        counts(fs, i) + count(fs[i as int]) <= counts(fs, n),
    decreases n,
{
    if i + 1 < n {
        lemma_counts_monotone(fs, i, (n - 1) as nat);
    }
}

/// Records what was found in a directory.
fn emit_all(
    sink: &mut MemSink,
    dir: &mut MemSinkDir,
    ws: &Vec<Walked>,
    Ghost(s): Ghost<Shape>,
) -> (r: Ghost<Shape>)
    requires
        filling(*old(sink), old(dir)@, s, Seq::empty()),
        forall|i: int| 0 <= i < ws@.len() ==> well_typed(#[trigger] finds(ws@)[i]),
        old(sink)@.nodes@.len() + counts(finds(ws@), ws@.len()) <= u32::MAX,
    ensures
        filling(*final(sink), final(dir)@, r@, finds(ws@)),
        final(sink)@.devices@ == devices_of_all(
            old(sink)@.devices@,
            recorded_all(finds(ws@)),
            ws@.len(),
        ),
        only_below(old(sink)@, final(sink)@, s.id),
        final(dir)@.id == s.id,
    decreases ws, 1nat,
{
    let ghost all = finds(ws@);
    let ghost mut t = s;
    let ghost start = sink@;
    let mut i: usize = 0;
    proof {
        assert(all.take(0) =~= Seq::<Find>::empty());
    }
    while i < ws.len()
        invariant
            i <= ws@.len(),
            all == finds(ws@),
            forall|j: int| 0 <= j < ws@.len() ==> well_typed(#[trigger] all[j]),
            start.nodes@.len() + counts(all, all.len()) <= u32::MAX,
            sink@.nodes@.len() == start.nodes@.len() + counts(all, i as nat),
            filling(*sink, dir@, t, all.take(i as int)),
            sink@.devices@ == devices_of_all(
                start.devices@,
                recorded_all(all.take(i as int)),
                i as nat,
            ),
            t.id == s.id,
            dir@.id == s.id,
            only_below(start, sink@, s.id),
        decreases ws@.len() - i,
    {
        let ghost before = sink@;
        proof {
            assert(decreases_to!(ws => ws@));
            assert(decreases_to!(ws@ => ws@[i as int]));
            assert(all[i as int] == ws@[i as int]@);
            lemma_counts_monotone(all, i as nat, all.len());
        }
        let Ghost(u) = emit(sink, dir, &ws[i], Ghost(t), Ghost(all.take(i as int)));
        proof {
            assert(all.take(i as int).push(all[i as int]) =~= all.take(i + 1));
            lemma_push_find(all.take(i as int), all[i as int]);
            lemma_devices_push(
                start.devices@,
                recorded_all(all.take(i as int)),
                recorded(all[i as int]),
            );
            lemma_prefix_sums(all.take(i as int), all, i as nat);
            lemma_prefix_sums(all.take(i + 1), all, (i + 1) as nat);
            lemma_only_below(start, before, sink@, s.id);
            t = u;
        }
        i += 1;
    }
    proof {
        assert(all.take(all.len() as int) =~= all);
    }
    Ghost(t)
}

/// What is below a directory once a directory below it has been filled and
/// finalized: `hung` is the tree with the new directory linked, `filled` the
/// one with all that is in it, and `after` the one with the totals.
proof fn lemma_emitted(
    before: Tree,
    hung: Tree,
    filled: Tree,
    after: Tree,
    n: Node,
    f: Find,
    s: Shape,
    kid: Shape,
    sub: Gathered,
    parent: Gathered,
    done: Seq<Find>,
)
    requires
        f is Dir,
        ascending(bare(before.nodes@)),
        unshared(bare(before.nodes@)),
        devices_known(bare(before.nodes@), before.devices@),
        linked(bare(before.nodes@), s),
        owned(bare(before.nodes@), s),
        preorder(s, s.id.0 as int),
        s.id.0 + shape_size(s) == bare(before.nodes@).len(),
        bare(before.nodes@).len() < u32::MAX,
        bare(before.nodes@)[s.id.0 as int].kind is Dir,
        entries_of(bare(before.nodes@), before.devices@, s.kids) == recorded_all(done),
        n.common.next == EntryId::none(),
        first_child(n) == EntryId::none(),
        bare(hung.nodes@) == hang(bare(before.nodes@).push(n), s.id, kid.id),
        kid.id.0 == bare(before.nodes@).len(),
        forall|i: int|
            0 <= i < kid.id.0 ==> bare(filled.nodes@)[i] == #[trigger] bare(hung.nodes@)[i],
        linked(bare(filled.nodes@), kid),
        owned(bare(filled.nodes@), kid),
        preorder(kid, kid.id.0 as int),
        kid.id.0 + shape_size(kid) == bare(filled.nodes@).len(),
        entries_of(bare(filled.nodes@), filled.devices@, kid.kids) == recorded_all(f->children),
        before.devices@.is_prefix_of(filled.devices@),
        after.devices == filled.devices,
        after.root == before.root,
        sub.id == kid.id,
        parent.id == s.id,
        bare(after.nodes@) == flushed(bare(filled.nodes@), sub, Some(parent)),
        has_trouble(bare(filled.nodes@)[kid.id.0 as int], sub) == troubled(f),
        child_of(bare(filled.nodes@)[kid.id.0 as int], s.id),
        bare(filled.nodes@)[kid.id.0 as int].common.next == EntryId::none(),
        head_of(
            with_totals(bare(filled.nodes@)[kid.id.0 as int], sub),
            filled.devices@,
        ) == recorded(f).head,
    ensures
        linked(bare(after.nodes@), with_kid(s, kid)),
        owned(bare(after.nodes@), with_kid(s, kid)),
        preorder(with_kid(s, kid), s.id.0 as int),
        shape_size(with_kid(s, kid)) == shape_size(s) + shape_size(kid),
        s.id.0 + shape_size(with_kid(s, kid)) == bare(after.nodes@).len(),
        entries_of(bare(after.nodes@), after.devices@, with_kid(s, kid).kids) == recorded_all(
            done.push(f),
        ),
        only_below(before, after, s.id),
        bare(after.nodes@)[s.id.0 as int].kind->Dir_0.suberr == (
        bare(before.nodes@)[s.id.0 as int].kind->Dir_0.suberr || troubled(f)),
        bare(after.nodes@)[s.id.0 as int].common.next == bare(
            before.nodes@,
        )[s.id.0 as int].common.next,
{
    let a = bare(before.nodes@);
    let b = bare(after.nodes@);
    let m = bare(filled.nodes@);
    let at = kid.id.0 as int;
    let start = s.id.0 as int;
    let devices = after.devices@;
    lemma_hang_frame(a, n, s);
    assert forall|i: int| at < i < at + shape_size(kid) implies b[i] == #[trigger] m[i] by {}
    assert(b[at] == with_totals(m[at], sub));
    lemma_top(m, b, kid, at);
    assert(entries_of(b, devices, kid.kids) == entries_of(m, devices, kid.kids));
    assert(entry_of(b, devices, kid) == recorded(f));
    assert(first_child(b[start]) == first_child(bare(hung.nodes@)[start]));
    lemma_hung(a, n, b, s, kid);
    lemma_graft(a, b, s, kid);
    lemma_more_devices(a, before.devices@, devices, s);
    assert(entry_of(a, devices, s) == entry_of(a, before.devices@, s));
    lemma_push_find(done, f);
    assert(entries_of(b, devices, with_kid(s, kid).kids) == entries_of(a, devices, s.kids).push(
        entry_of(b, devices, kid),
    ));
    assert forall|i: int| 0 <= i < start implies b[i] == #[trigger] a[i] by {
        assert(m[i] == bare(hung.nodes@)[i]);
    }
}

/// Records one find as the next child of a directory.
fn emit(
    sink: &mut MemSink,
    parent: &mut MemSinkDir,
    w: &Walked,
    Ghost(s): Ghost<Shape>,
    Ghost(done): Ghost<Seq<Find>>,
) -> (r: Ghost<Shape>)
    requires
        filling(*old(sink), old(parent)@, s, done),
        well_typed(w@),
        old(sink)@.nodes@.len() + count(w@) <= u32::MAX,
    ensures
        filling(*final(sink), final(parent)@, r@, done.push(w@)),
        final(sink)@.devices@ == devices_of(old(sink)@.devices@, recorded(w@)),
        only_below(old(sink)@, final(sink)@, s.id),
        final(parent)@.id == s.id,
        r@.id == s.id,
    decreases w, 0nat,
{
    match w {
        Walked::File { name, stat } => {
            emit_file(sink, parent, name.as_str(), stat, Ghost(s), Ghost(done))
        },
        Walked::Special { name, etype } => {
            emit_special(sink, parent, name.as_str(), *etype, Ghost(s), Ghost(done))
        },
        Walked::Dir(d) => {
            let ghost f = w@;
            let ghost fs = finds(d.children@);
            let ghost old_tree = sink@;
            proof {
                assert(f == find_of_dir(**d));
                assert(decreases_to!(w => w->Dir_0));
                assert(decreases_to!(w->Dir_0 => w->Dir_0.children));
            }
            let mut sub = parent.add_dir(sink, d.name.as_str(), &d.stat);
            let ghost id = sub@.id;
            let ghost n = sink.plain()[id.0 as int];
            let ghost hung = sink@;
            let ghost leaf = Shape { id, kids: Seq::empty() };
            proof {
                lemma_plain(old_tree.nodes@);
                lemma_hang_frame(bare(old_tree.nodes@), n, s);
            }
            if d.read_error {
                sub.set_read_error(sink);
            }
            let ghost opened = sink@;
            proof {
                lemma_leaf(sink.plain(), leaf);
                assert(entries_of(sink.plain(), sink@.devices@, leaf.kids) =~= recorded_all(
                    Seq::empty(),
                ));
                assert(filling(*sink, sub@, leaf, Seq::empty()));
                assert forall|i: int| 0 <= i < fs.len() implies well_typed(
                    #[trigger] fs[i],
                ) by {
                    assert(f->children[i] == fs[i]);
                }
            }
            let Ghost(kid) = emit_all(sink, &mut sub, &d.children, Ghost(leaf));
            let ghost filled = sink@;
            let ghost sub_gathered = sub@;
            let ghost parent_gathered = parent@;
            proof {
                assert forall|i: int| 0 <= i < id.0 implies bare(filled.nodes@)[i]
                    == #[trigger] bare(hung.nodes@)[i] by {
                    assert(bare(opened.nodes@)[i] == bare(hung.nodes@)[i]);
                }
                assert(bare(filled.nodes@)[s.id.0 as int] == bare(hung.nodes@)[s.id.0 as int]);
            }
            sub.finalize(sink, Some(parent));
            proof {
                let dev = hung.devices@.index_of(d.stat.dev);
                assert(opened.devices@[dev] == d.stat.dev);
                assert(filled.devices@[dev] == opened.devices@[dev]);
                assert(old_tree.devices@.is_prefix_of(filled.devices@)) by {
                    assert forall|i: int| 0 <= i < old_tree.devices@.len() implies filled.devices@[i]
                        == #[trigger] old_tree.devices@[i] by {
                        assert(opened.devices@[i] == old_tree.devices@[i]);
                    }
                    assert(old_tree.devices@ =~= filled.devices@.take(
                        old_tree.devices@.len() as int,
                    ));
                }
                lemma_emitted(
                    old_tree,
                    hung,
                    filled,
                    sink@,
                    n,
                    f,
                    s,
                    kid,
                    sub_gathered,
                    parent_gathered,
                    done,
                );
                lemma_push_find(done, f);
            }
            Ghost(with_kid(s, kid))
        },
    }
}

/// The tree of a walked directory.
pub fn build_tree(root: WalkedDir) -> (tree: Tree)
    requires
        forall|i: int|
            0 <= i < root.children@.len() ==> well_typed(#[trigger] finds(root.children@)[i]),
        count(root@) <= u32::MAX,
    ensures
        tree.proper(),
        tree.devices_ok(),
        tree.entry(tree.root) == recorded(root@),
        tree.in_sequence(),
        tree.inodes_ok(),
        ringed(tree.nodes@),
        all_spare_unset(tree.nodes@),
{
    let ghost fs = finds(root.children@);
    let mut sink = MemSink::new();
    proof {
        assert(sink@.devices@ =~= Seq::<u64>::empty());
    }
    let mut dir = sink.create_root(root.name.as_str(), &root.stat);
    let ghost id = dir@.id;
    let ghost leaf = Shape { id, kids: Seq::empty() };
    let ghost dev = sink@.devices@.index_of(root.stat.dev);
    if root.read_error {
        dir.set_read_error(&mut sink);
    }
    let ghost opened = sink@;
    proof {
        lemma_leaf(sink.plain(), leaf);
        assert(entries_of(sink.plain(), sink@.devices@, leaf.kids) =~= recorded_all(Seq::empty()));
        assert(opened.devices@[dev] == root.stat.dev);
    }
    let Ghost(s) = emit_all(&mut sink, &mut dir, &root.children, Ghost(leaf));
    let ghost filled = sink@;
    dir.finalize(&mut sink, None);
    let tree = sink.into_tree();
    proof {
        assert(filled.devices@[dev] == opened.devices@[dev]);
        lemma_top(bare(filled.nodes@), bare(tree.nodes@), s, 0);
        lemma_bare_shape(tree.nodes@, tree.devices@, s);
        assert(entries_of(bare(tree.nodes@), tree.devices@, s.kids) == recorded_all(fs));
        assert(entry_of(tree.nodes@, tree.devices@, s) == recorded(root@));
        lemma_shape_at(tree.nodes@, s);
        lemma_flat_preorder(s, 0);
    }
    tree
}

/// The number of entries in a walked directory, itself included.
pub fn entries_in(dir: &WalkedDir) -> (r: u64)
    ensures
        r == capped(count(dir@)),
    decreases dir, 0nat,
{
    let ghost fs = finds(dir.children@);
    let mut n: u64 = 1;
    let mut i: usize = 0;
    while i < dir.children.len()
        invariant
            i <= dir.children@.len(),
            fs == finds(dir.children@),
            n == capped(1 + counts(fs, i as nat)),
        decreases dir.children@.len() - i,
    {
        proof {
            assert(decreases_to!(dir => dir.children));
            assert(decreases_to!(dir.children => dir.children@));
            assert(decreases_to!(dir.children@ => dir.children@[i as int]));
            assert(fs[i as int] == dir.children@[i as int]@);
        }
        let inside: u64 = match &dir.children[i] {
            Walked::Dir(sub) => {
                proof {
                    let w = dir.children@[i as int];
                    assert(decreases_to!(w => w->Dir_0));
                }
                entries_in(sub)
            },
            _ => 1,
        };
        proof {
            assert(inside == capped(count(fs[i as int])));
            assert(counts(fs, (i + 1) as nat) == counts(fs, i as nat) + count(fs[i as int]));
        }
        n = capped_sum(n, inside);
        i += 1;
    }
    n
}

/// The name of a directory entry.
pub enum EntryName {
    Text(String),
    /// A name that is not UTF-8, with replacement characters in it.
    Garbled(String),
}

/// What to do about an entry before it is looked up.
pub enum Lookup {
    /// Record this and do not look it up.
    Skip(Walked),
    /// Look up the entry of this name.
    Needed(String),
}

/// Decides by the name of an entry and by what the exclude patterns say of it
/// whether it has to be looked up: an entry without a readable name is
/// recorded as an error, and one that is excluded whatever it is as excluded.
pub fn before_lookup(name: EntryName, excluded: Option<bool>) -> (r: Lookup)
    ensures
        match name {
            EntryName::Garbled(s) => r matches Lookup::Skip(w) && w@ == (Find::Special {
                name: s@,
                etype: EType::Error,
            }),
            EntryName::Text(s) => if excluded == Some(false) {
                r matches Lookup::Skip(w) && w@ == (Find::Special {
                    name: s@,
                    etype: EType::Pattern,
                })
            } else {
                r matches Lookup::Needed(t) && t@ == s@
            },
        },
{
    match name {
        EntryName::Garbled(s) => Lookup::Skip(Walked::Special { name: s, etype: EType::Error }),
        EntryName::Text(s) => if let Some(false) = excluded {
            Lookup::Skip(Walked::Special { name: s, etype: EType::Pattern })
        } else {
            Lookup::Needed(s)
        },
    }
}

/// What to do about an entry once it has been looked up.
pub enum Step {
    /// Record this.
    Record(Walked),
    /// Walk the directory of this name.
    Descend(String, Stat),
}

/// Decides what to record of an entry that was looked up. One that could not
/// be looked up is recorded as an error, and a directory that is excluded as
/// a directory as excluded.
pub fn after_lookup(
    name: String,
    excluded: Option<bool>,
    metadata: Option<Metadata>,
    extended: bool,
) -> (r: Step)
    ensures
        match metadata {
            None => r matches Step::Record(w) && w@ == (Find::Special {
                name: name@,
                etype: EType::Error,
            }),
            Some(m) => if m.is_dir && excluded == Some(true) {
                r matches Step::Record(w) && w@ == (Find::Special {
                    name: name@,
                    etype: EType::Pattern,
                })
            } else if m.is_dir {
                r matches Step::Descend(s, stat) && s@ == name@ && stat_of(stat, m, extended)
            } else {
                r matches Step::Record(w) && (w@ matches Find::File { name: s, stat } && s == name@
                    && stat_of(stat, m, extended))
            },
        },
        r matches Step::Descend(_, stat) ==> {
            let m = metadata->0;
            &&& stat.etype is Dir
            &&& stat.size == m.size
            &&& stat.blocks == m.blocks
            &&& stat.dev == m.dev
            &&& stat.ino == m.ino
            &&& stat.nlink == m.nlink % 0x1_0000_0000
        },
        r matches Step::Record(w) ==> (w@ matches Find::File { stat, .. } ==> {
            let m = metadata->0;
            &&& stat.etype is Link <==> m.is_file && m.nlink > 1
            &&& stat.etype is NonReg <==> !m.is_file
            &&& stat.size == m.size
            &&& stat.blocks == m.blocks
            &&& stat.dev == m.dev
            &&& stat.ino == m.ino
            &&& stat.nlink == m.nlink % 0x1_0000_0000
        }),
{
    let m = match metadata {
        Some(m) => m,
        None => {
            return Step::Record(Walked::Special { name, etype: EType::Error });
        },
    };
    let stat = stat_from_metadata(&m, extended);
    if m.is_dir {
        if let Some(true) = excluded {
            return Step::Record(Walked::Special { name, etype: EType::Pattern });
        }
        Step::Descend(name, stat)
    } else {
        Step::Record(Walked::File { name, stat })
    }
}

/// A directory that could not be listed.
pub fn unreadable(name: String, stat: Stat) -> (r: WalkedDir)
    ensures
        r@ == (Find::Dir { name: name@, stat, children: Seq::empty(), read_error: true }),
{
    let r = WalkedDir { name, stat, children: Vec::new(), read_error: true };
    proof {
        assert(finds(r.children@) =~= Seq::<Find>::empty());
    }
    r
}

/// One of the places is `i`.
pub open spec fn is_place(places: Seq<usize>, i: int) -> bool {
    exists|k: int| 0 <= k < places.len() && #[trigger] places[k] == i
}

/// The directory with what was found in the directories below it put in place:
/// `subs[k]` replaces the placeholder at `places[k]`.
pub fn patch(
    name: String,
    stat: Stat,
    children: Vec<Walked>,
    places: &Vec<usize>,
    subs: Vec<WalkedDir>,
) -> (r: WalkedDir)
    requires
        places@.len() == subs@.len(),
        forall|i: int, j: int| 0 <= i < j < places@.len() ==> places@[i] < places@[j],
        forall|i: int| 0 <= i < places@.len() ==> (#[trigger] places@[i]) < children@.len(),
    ensures
        r.name@ == name@,
        r.stat == stat,
        !r.read_error,
        r.children@.len() == children@.len(),
        forall|k: int|
            0 <= k < subs@.len() ==> r.children@[(#[trigger] places@[k]) as int]@ == subs@[k]@,
        forall|i: int|
            0 <= i < children@.len() && !is_place(places@, i) ==> (#[trigger] r.children@[i])
                == children@[i],
{
    let ghost all = children@;
    let ghost dirs = subs@;
    let n: usize = places.len();
    let mut children = children;
    let mut k: usize = 0;
    for sub in it: subs
        invariant
            it.seq() == dirs,
            k == it.index(),
            places@.len() == dirs.len(),
            forall|i: int, j: int| 0 <= i < j < places@.len() ==> places@[i] < places@[j],
            forall|i: int| 0 <= i < places@.len() ==> (#[trigger] places@[i]) < all.len(),
            children@.len() == all.len(),
            forall|j: int|
                0 <= j < k ==> children@[(#[trigger] places@[j]) as int]@ == dirs[j]@,
            forall|i: int|
                0 <= i < all.len() && !is_place(places@, i) ==> (#[trigger] children@[i])
                    == all[i],
            n == places@.len(),
    {
        proof {
            assert(is_place(places@, places@[k as int] as int));
        }
        children.set(places[k], Walked::Dir(Box::new(sub)));
        k += 1;
    }
    WalkedDir { name, stat, children, read_error: false }
}

/// The entries of a directory as far as they have been read: one record for
/// each, in the order of the listing.
pub struct Listing {
    pub children: Vec<Walked>,
    /// Where directories stand that are still to be walked.
    pub places: Vec<usize>,
}

impl Listing {
    /// Places are those of records, in ascending order.
    pub open spec fn wf(&self) -> bool {
        &&& forall|i: int, j: int|
            0 <= i < j < self.places@.len() ==> self.places@[i] < self.places@[j]
        &&& forall|i: int|
            0 <= i < self.places@.len() ==> (#[trigger] self.places@[i]) < self.children@.len()
    }

    /// A listing of which nothing has been read.
    pub fn new() -> (r: Self)
        ensures
            r.wf(),
            r.children@.len() == 0,
            r.places@.len() == 0,
    {
        Listing { children: Vec::new(), places: Vec::new() }
    }

    /// Records an entry.
    pub fn record(&mut self, w: Walked)
        requires
            old(self).wf(),
        ensures
            final(self).wf(),
            final(self).children@ == old(self).children@.push(w),
            final(self).places@ == old(self).places@,
    {
        self.children.push(w);
    }

    /// Keeps a place for a directory that is still to be walked. Until then an
    /// error marker stands there.
    pub fn descend(&mut self, name: &str)
        requires
            old(self).wf(),
        ensures
            final(self).wf(),
            final(self).children@ == old(self).children@.push(final(self).children@.last()),
            final(self).children@.last()@ == (Find::Special { name: name@, etype: EType::Error }),
            final(self).places@ == old(self).places@.push(final(self).places@.last()),
            final(self).places@.last() == old(self).children@.len(),
    {
        self.places.push(self.children.len());
        self.children.push(Walked::Special { name: name.to_owned(), etype: EType::Error });
    }

    /// The directory, with what was found in the directories below it in their
    /// places.
    pub fn finish(self, name: String, stat: Stat, subs: Vec<WalkedDir>) -> (r: WalkedDir)
        requires
            self.wf(),
            self.places@.len() == subs@.len(),
        ensures
            r.name@ == name@,
            r.stat == stat,
            !r.read_error,
            r.children@.len() == self.children@.len(),
            forall|k: int|
                0 <= k < subs@.len() ==> r.children@[(#[trigger] self.places@[k]) as int]@
                    == subs@[k]@,
            forall|i: int|
                0 <= i < self.children@.len() && !is_place(self.places@, i) ==> (
                #[trigger] r.children@[i]) == self.children@[i],
    {
        patch(name, stat, self.children, &self.places, subs)
    }
}

} // verus!
