//! Deleting an entry against scanning without it.

use vstd::prelude::*;

use crate::prune::{amount_of, entry_at, pruned, Amount};
use crate::scan_parallel::{
    all_blocks, all_bytes, blocks, bytes, count, counts, recorded, recorded_all, Find,
};
use crate::shape::{entry_size, entry_sizes, Detail, Entry, Head};

verus! {

/// The path names one of the finds below `f`.
pub open spec fn has_find(f: Find, path: Seq<int>) -> bool
    decreases path.len(),
{
    path.len() > 0 ==> {
        &&& f is Dir
        &&& 0 <= path[0] < f->children.len()
        &&& has_find(f->children[path[0]], path.skip(1))
    }
}

/// The find that a path names.
pub open spec fn find_at(f: Find, path: Seq<int>) -> Find
    decreases path.len(),
{
    if path.len() == 0 {
        f
    } else {
        find_at(f->children[path[0]], path.skip(1))
    }
}

/// What a scan finds where the entry that a path names is gone.
pub open spec fn without(f: Find, path: Seq<int>) -> Find
    decreases path.len(),
{
    match f {
        Find::Dir { name, stat, children, read_error } if path.len() == 1 => Find::Dir {
            name,
            stat,
            children: children.remove(path[0]),
            read_error,
        },
        Find::Dir { name, stat, children, read_error } if path.len() > 1 => Find::Dir {
            name,
            stat,
            children: children.update(path[0], without(children[path[0]], path.skip(1))),
            read_error,
        },
        _ => f,
    }
}

/// The entry without the marks of errors further down.
pub open spec fn calm(e: Entry) -> Entry
    decreases e,
{
    Entry {
        head: Head {
            detail: match e.head.detail {
                Detail::Dir { items, dev, err, .. } => Detail::Dir {
                    items,
                    dev,
                    err,
                    suberr: false,
                },
                d => d,
            },
            ..e.head
        },
        children: calm_all(e.children),
    }
}

pub open spec fn calm_all(es: Seq<Entry>) -> Seq<Entry>
    decreases es,
{
    Seq::new(
        es.len(),
        |i: int|
            if 0 <= i < es.len() {
                calm(es[i])
            } else {
                arbitrary()
            },
    )
}

/// What a find contributes to the totals above it.
spec fn footprint(f: Find) -> Amount {
    Amount { blocks: blocks(f) as u64, size: bytes(f) as u64, items: count(f) as u32 }
}

/// The totals of a find fit.
pub open spec fn fits(f: Find) -> bool {
    &&& blocks(f) <= u64::MAX
    &&& bytes(f) <= u64::MAX
    &&& count(f) <= u32::MAX
}

proof fn lemma_sums_update(fs: Seq<Find>, i: int, x: Find, n: nat)
    requires
        0 <= i < fs.len(),
        n <= fs.len(),
    ensures
        n <= i ==> {
            &&& all_blocks(fs.update(i, x), n) == all_blocks(fs, n)
            &&& all_bytes(fs.update(i, x), n) == all_bytes(fs, n)
            &&& counts(fs.update(i, x), n) == counts(fs, n)
        },
        n > i ==> {
            &&& all_blocks(fs.update(i, x), n) + blocks(fs[i]) == all_blocks(fs, n) + blocks(x)
            &&& all_bytes(fs.update(i, x), n) + bytes(fs[i]) == all_bytes(fs, n) + bytes(x)
            &&& counts(fs.update(i, x), n) + count(fs[i]) == counts(fs, n) + count(x)
        },
    decreases n,
{
    if n > 0 {
        lemma_sums_update(fs, i, x, (n - 1) as nat);
    }
}

proof fn lemma_sums_remove(fs: Seq<Find>, i: int, n: nat)
    requires
        0 <= i < fs.len(),
        n <= fs.len(),
    ensures
        n <= i ==> {
            &&& all_blocks(fs.remove(i), n) == all_blocks(fs, n)
            &&& all_bytes(fs.remove(i), n) == all_bytes(fs, n)
            &&& counts(fs.remove(i), n) == counts(fs, n)
        },
        n > i ==> {
            let m = (n - 1) as nat;
            &&& all_blocks(fs.remove(i), m) + blocks(fs[i]) == all_blocks(fs, n)
            &&& all_bytes(fs.remove(i), m) + bytes(fs[i]) == all_bytes(fs, n)
            &&& counts(fs.remove(i), m) + count(fs[i]) == counts(fs, n)
        },
    decreases n,
{
    if n > 0 {
        let m = (n - 1) as nat;
        lemma_sums_remove(fs, i, m);
        if m < i {
            assert(fs.remove(i)[n - 1] == fs[n - 1]);
        } else if m > i {
            assert(fs.remove(i)[m - 1] == fs[n - 1]);
        }
    }
}

proof fn lemma_sums_member(fs: Seq<Find>, i: int, n: nat)
    requires
        0 <= i < n <= fs.len(),
    ensures
        blocks(fs[i]) <= all_blocks(fs, n),
        bytes(fs[i]) <= all_bytes(fs, n),
        count(fs[i]) <= counts(fs, n),
    decreases n,
{
    if i < n - 1 {
        lemma_sums_member(fs, i, (n - 1) as nat);
    }
}

/// An entry that was recorded counts as much as what was found.
proof fn lemma_recorded_totals(f: Find)
    requires
        fits(f),
    ensures
        amount_of(recorded(f)) == footprint(f),
        entry_size(recorded(f)) == count(f),
    decreases f, 0nat,
{
    if let Find::Dir { children, .. } = f {
        lemma_recorded_sizes(children, children.len());
    } else {
        assert(entry_sizes(recorded(f).children, 0) == 0);
    }
}

proof fn lemma_recorded_sizes(fs: Seq<Find>, n: nat)
    requires
        n <= fs.len(),
        all_blocks(fs, n) <= u64::MAX,
        all_bytes(fs, n) <= u64::MAX,
        counts(fs, n) <= u32::MAX,
    ensures
        entry_sizes(recorded_all(fs), n) == counts(fs, n),
    decreases fs, n,
{
    if n > 0 {
        lemma_recorded_sizes(fs, (n - 1) as nat);
        lemma_recorded_totals(fs[n - 1]);
    }
}

/// A find below another one fits where that one does.
proof fn lemma_find_fits(f: Find, path: Seq<int>)
    requires
        has_find(f, path),
        fits(f),
    ensures
        fits(find_at(f, path)),
        blocks(find_at(f, path)) <= blocks(f),
        bytes(find_at(f, path)) <= bytes(f),
        count(find_at(f, path)) <= count(f),
        path.len() > 0 ==> count(find_at(f, path)) < count(f),
    decreases path.len(),
{
    if path.len() > 0 {
        let fs = f->children;
        lemma_sums_member(fs, path[0], fs.len());
        lemma_find_fits(fs[path[0]], path.skip(1));
    }
}

proof fn lemma_recorded_at(f: Find, path: Seq<int>)
    requires
        has_find(f, path),
    ensures
        entry_at(recorded(f), path) == recorded(find_at(f, path)),
    decreases path.len(),
{
    if path.len() > 0 {
        lemma_recorded_at(f->children[path[0]], path.skip(1));
    }
}

proof fn lemma_rescan(f: Find, path: Seq<int>)
    requires
        path.len() > 0,
        has_find(f, path),
        fits(f),
    ensures
        calm(pruned(recorded(f), path, footprint(find_at(f, path)))) == calm(
            recorded(without(f, path)),
        ),
        blocks(without(f, path)) + blocks(find_at(f, path)) == blocks(f),
        bytes(without(f, path)) + bytes(find_at(f, path)) == bytes(f),
        count(without(f, path)) + count(find_at(f, path)) == count(f),
    decreases path.len(),
{
    let g = find_at(f, path);
    let fs = f->children;
    let i = path[0];
    let amount = footprint(g);
    let w = without(f, path);
    let p = pruned(recorded(f), path, amount);
    lemma_find_fits(f, path);
    if path.len() == 1 {
        assert(path.skip(1) =~= Seq::empty());
        assert(find_at(fs[i], path.skip(1)) == fs[i]);
        lemma_sums_remove(fs, i, fs.len());
        assert(p.children =~= recorded_all(fs).remove(i));
        assert(recorded_all(fs.remove(i)) =~= recorded_all(fs).remove(i));
        assert(p.children == recorded(w).children);
    } else {
        let x = without(fs[i], path.skip(1));
        lemma_sums_member(fs, i, fs.len());
        lemma_rescan(fs[i], path.skip(1));
        lemma_sums_update(fs, i, x, fs.len());
        let es = p.children;
        let want = recorded_all(fs.update(i, x));
        assert forall|j: int| 0 <= j < es.len() implies calm_all(es)[j] == calm_all(want)[j] by {
            if j != i {
                assert(es[j] == recorded(fs[j]));
                assert(want[j] == recorded(fs[j]));
            } else {
                assert(es[i] == pruned(recorded(fs[i]), path.skip(1), amount));
                assert(want[i] == recorded(x));
            }
        }
        assert(calm_all(es) =~= calm_all(want));
    }
}

/// Pruning a deleted entry gives the totals that a scan without the entry
/// would give, for every directory. Only the marks of errors further down may
/// differ: pruning leaves them as they are. It holds of every scan whose
/// totals fit.
pub proof fn pruning_matches_a_rescan(f: Find, path: Seq<int>)
    requires
        path.len() > 0,
        has_find(f, path),
        fits(f),
    ensures
        calm(pruned(recorded(f), path, amount_of(entry_at(recorded(f), path)))) == calm(
            recorded(without(f, path)),
        ),
{
    lemma_recorded_at(f, path);
    lemma_find_fits(f, path);
    lemma_recorded_totals(find_at(f, path));
    lemma_rescan(f, path);
}

} // verus!
