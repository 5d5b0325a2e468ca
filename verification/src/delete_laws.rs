//! What a deletion takes out of a tree, and how entries are named.

use vstd::prelude::*;

use crate::delete::slashed;
use crate::model::{path_names, path_text, EntryId, Node, NodeKind};
use crate::prune::{amount_of, at_path, cut, entry_at, has_path, pruned, Amount};
use crate::shape::{
    ancestors, entry_size, entry_sizes, has_line, lemma_entries_push, line_of, parents, step_at,
    Entry, Head, Shape,
};

verus! {

/// The path names an entry: which child to take at each step.
pub open spec fn has_entry_at(e: Entry, path: Seq<int>) -> bool
    decreases path.len(),
{
    path.len() > 0 ==> {
        &&& 0 <= path[0] < e.children.len()
        &&& has_entry_at(e.children[path[0]], path.skip(1))
    }
}

/// What is left of a total.
pub open spec fn left(total: int, taken: int) -> int {
    if total > taken {
        total - taken
    } else {
        0
    }
}

/// The directory says the same of itself, but for totals that are smaller by
/// what was taken.
pub open spec fn reduced(a: Head, b: Head, taken: Amount) -> bool {
    &&& b.blocks == left(a.blocks as int, taken.blocks as int)
    &&& b.size == left(a.size as int, taken.size as int)
    &&& b.name == a.name
    &&& b.etype == a.etype
    &&& b.ext == a.ext
    &&& a.detail is Dir <==> b.detail is Dir
    &&& !(a.detail is Dir) ==> b.detail == a.detail
    &&& a.detail is Dir ==> {
        &&& b.detail->items == left(a.detail->items as int, taken.items as int)
        &&& b.detail->dev == a.detail->dev
        &&& b.detail->err == a.detail->err
        &&& b.detail->suberr == a.detail->suberr
    }
}

proof fn lemma_take_skip(path: Seq<int>, n: int)
    requires
        0 < n <= path.len(),
    ensures
        path.take(n).skip(1) == path.skip(1).take(n - 1),
        path.take(n)[0] == path[0],
{
    assert(path.take(n).skip(1) =~= path.skip(1).take(n - 1));
}

/// Every directory on the way to a deleted entry, from the root on, has its
/// totals reduced by what the entry took, and says the same as before of all
/// else.
pub proof fn directories_above_lose_what_was_deleted(
    e: Entry,
    path: Seq<int>,
    taken: Amount,
    n: int,
)
    requires
        has_entry_at(e, path),
        0 <= n < path.len(),
    ensures
        reduced(
            entry_at(e, path.take(n)).head,
            entry_at(pruned(e, path, taken), path.take(n)).head,
            taken,
        ),
    decreases path.len(),
{
    if n == 0 {
        assert(path.take(0).len() == 0);
    } else {
        lemma_take_skip(path, n);
        directories_above_lose_what_was_deleted(e.children[path[0]], path.skip(1), taken, n - 1);
    }
}

/// The directory of a deleted entry has the same entries as before, without the
/// deleted one, in the same order.
pub proof fn deleted_entries_leave_their_directory(e: Entry, path: Seq<int>, taken: Amount)
    requires
        has_entry_at(e, path),
        path.len() > 0,
    ensures
        ({
            let way = path.drop_last();
            let before = entry_at(e, way).children;
            let after = entry_at(pruned(e, path, taken), way).children;
            let k = path.last();
            &&& 0 <= k < before.len()
            &&& after.len() == before.len() - 1
            &&& forall|i: int| 0 <= i < k ==> after[i] == #[trigger] before[i]
            &&& forall|i: int| k < i < before.len() ==> after[i - 1] == #[trigger] before[i]
        }),
    decreases path.len(),
{
    let way = path.drop_last();
    if path.len() == 1 {
        assert(way.len() == 0);
    } else {
        let rest = path.skip(1);
        assert(way.skip(1) =~= rest.drop_last());
        assert(way[0] == path[0]);
        assert(rest.last() == path.last());
        deleted_entries_leave_their_directory(e.children[path[0]], rest, taken);
    }
}

/// What does not lie on the way to a deleted entry stays as it is, with all that
/// is below it.
pub proof fn other_entries_stay_as_they_are(
    e: Entry,
    path: Seq<int>,
    taken: Amount,
    n: int,
    j: int,
)
    requires
        has_entry_at(e, path),
        0 <= n < path.len() - 1,
        0 <= j < entry_at(e, path.take(n)).children.len(),
        j != path[n],
    ensures
        ({
            let before = entry_at(e, path.take(n)).children;
            let after = entry_at(pruned(e, path, taken), path.take(n)).children;
            &&& after.len() == before.len()
            &&& after[j] == before[j]
        }),
    decreases path.len(),
{
    if n == 0 {
        assert(path.take(0).len() == 0);
    } else {
        lemma_take_skip(path, n);
        assert(path.skip(1)[n - 1] == path[n]);
        other_entries_stay_as_they_are(e.children[path[0]], path.skip(1), taken, n - 1, j);
    }
}

/// The ids of the entries that stay are those from before: the directory of the
/// deleted entry keeps its other children, in their order.
pub proof fn deleted_ids_leave_their_directory(s: Shape, path: Seq<int>)
    requires
        has_path(s, path),
        path.len() > 0,
    ensures
        ({
            let way = path.drop_last();
            let before = at_path(s, way);
            let after = at_path(cut(s, path), way);
            let k = path.last();
            &&& 0 <= k < before.kids.len()
            &&& after.id == before.id
            &&& after.kids.len() == before.kids.len() - 1
            &&& forall|i: int| 0 <= i < k ==> after.kids[i] == #[trigger] before.kids[i]
            &&& forall|i: int|
                k < i < before.kids.len() ==> after.kids[i - 1] == #[trigger] before.kids[i]
        }),
    decreases path.len(),
{
    let way = path.drop_last();
    if path.len() == 1 {
        assert(way.len() == 0);
    } else {
        let rest = path.skip(1);
        assert(way.skip(1) =~= rest.drop_last());
        assert(way[0] == path[0]);
        assert(rest.last() == path.last());
        deleted_ids_leave_their_directory(s.kids[path[0]], rest);
    }
}

/// What an entry takes is what it says that it takes, blocks and size, and as
/// many entries as there are in it.
pub proof fn entries_take_what_they_say(e: Entry)
    ensures
        amount_of(e).blocks == e.head.blocks,
        amount_of(e).size == e.head.size,
        entry_size(e) <= u32::MAX ==> amount_of(e).items == entry_size(e),
        entry_size(e) > u32::MAX ==> amount_of(e).items == u32::MAX,
{
}

/// An entry counts itself and all that is below it.
pub proof fn entries_count_what_is_below(head: Head, children: Seq<Entry>, more: Entry)
    ensures
        entry_size(Entry { head, children: Seq::empty() }) == 1,
        entry_size(Entry { head, children: children.push(more) }) == entry_size(
            Entry { head, children },
        ) + entry_size(more),
{
    lemma_entries_push(children, more);
    assert(entry_sizes(Seq::<Entry>::empty(), 0) == 0);
}

/// A path on disk has a slash before each of its names.
pub proof fn names_follow_slashes(names: Seq<Seq<char>>, name: Seq<char>)
    ensures
        slashed(Seq::<Seq<char>>::empty()).len() == 0,
        slashed(names.push(name)) == slashed(names) + seq!['/'] + name,
{
    assert(names.push(name).drop_last() =~= names);
    assert(slashed(names.push(name)) =~= slashed(names) + seq!['/'] + name);
}

/// A line goes from an entry to the directory above it, and so on up to one
/// that has none above it.
pub proof fn lines_follow_parents(nodes: Seq<Node>, id: EntryId, links: bool)
    requires
        has_line(nodes, id, links),
    ensures
        ({
            let line = line_of(nodes, id, links);
            &&& id == EntryId::none() <==> line.len() == 0
            &&& line.len() > 0 ==> line[0] == id
            &&& forall|i: int|
                0 <= i < line.len() ==> {
                    let above = if i + 1 < line.len() {
                        line[i + 1]
                    } else {
                        EntryId::none()
                    };
                    match nodes[(#[trigger] line[i]).0 as int].kind {
                        NodeKind::Dir(d) => d.parent == above,
                        NodeKind::Link(l) if links => l.parent == above,
                        _ => above == EntryId::none(),
                    }
                }
        }),
{
    let line = line_of(nodes, id, links);
    assert(ancestors(nodes, id, line, links));
    if line.len() > 0 {
        assert(step_at(parents(nodes, links), line, 0));
    }
    assert forall|i: int| 0 <= i < line.len() implies {
        let above = if i + 1 < line.len() {
            line[i + 1]
        } else {
            EntryId::none()
        };
        match nodes[(#[trigger] line[i]).0 as int].kind {
            NodeKind::Dir(d) => d.parent == above,
            NodeKind::Link(l) if links => l.parent == above,
            _ => above == EntryId::none(),
        }
    } by {
        assert(step_at(parents(nodes, links), line, i));
    }
}

/// The names along a line of directories come from the top down, and the name
/// of the one at the top is left out unless it is asked for.
pub proof fn names_come_from_the_top(nodes: Seq<Node>, line: Seq<EntryId>)
    requires
        line.len() > 0,
    ensures
        ({
            let n = line.len() as int;
            let all = path_names(nodes, line, true);
            let below = path_names(nodes, line, false);
            &&& all.len() == n
            &&& below.len() == n - 1
            &&& forall|i: int|
                0 <= i < n ==> #[trigger] all[i] == nodes[line[n - 1 - i].0 as int].common.name@
            &&& forall|i: int|
                0 <= i < n - 1 ==> #[trigger] below[i] == nodes[line[n - 2
                    - i].0 as int].common.name@
        }),
{
}

/// A path starts with the first name, and each further name follows a slash.
/// After a name that ends in a slash no other slash is put.
pub proof fn paths_have_one_slash_between_names(
    start: Seq<char>,
    names: Seq<Seq<char>>,
    name: Seq<char>,
)
    ensures
        path_text(start, Seq::empty()) == start,
        path_text(start, seq![name]) == start + name,
        names.len() > 0 ==> {
            let front = path_text(start, names);
            let all = path_text(start, names.push(name));
            &&& front.len() > 0 && front.last() == '/' ==> all == front + name
            &&& front.len() == 0 || front.last() != '/' ==> all == front + seq!['/'] + name
        },
{
    assert(seq![name].drop_last() =~= Seq::<Seq<char>>::empty());
    assert(path_text(start, seq![name].drop_last()) == start);
    assert(seq![name].last() == name);
    assert(names.push(name).drop_last() =~= names);
    if names.len() > 0 {
        let front = path_text(start, names);
        assert(front.push('/') + name =~= front + seq!['/'] + name);
    }
}

} // verus!
