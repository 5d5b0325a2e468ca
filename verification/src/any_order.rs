//! What a scan records whatever the order in which entries are found.

use vstd::prelude::*;
use vstd::seq_lib::seq_to_set_is_finite;
use vstd::set_lib::{lemma_int_range, lemma_subset_equality, set_int_range};

use crate::scan_parallel::{
    all_blocks, all_bytes, any_troubled, blocks, bytes, count, counts, recorded, troubled, Find,
};
use crate::shape::{Entry, Head};

verus! {

/// The same was found, though entries of a directory may come in another
/// order, at every level.
pub open spec fn rearranged(f: Find, g: Find) -> bool
    decreases f,
{
    match f {
        Find::Dir { name, stat, children, read_error } => {
            &&& g is Dir
            &&& g->Dir_name == name
            &&& g->Dir_stat == stat
            &&& g->read_error == read_error
            &&& exists|places: Seq<int>| #[trigger]
                reorders(places, children.len(), g->children.len()) && forall|i: int|
                    0 <= i < children.len() ==> rearranged(
                        #[trigger] children[i],
                        g->children[places[i]],
                    )
        },
        _ => g == f,
    }
}

/// The places name each of `m` positions once, for `n` things.
pub open spec fn reorders(places: Seq<int>, n: nat, m: nat) -> bool {
    &&& places.len() == n
    &&& n == m
    &&& places.no_duplicates()
    &&& forall|i: int| 0 <= i < n ==> 0 <= #[trigger] places[i] < m
}

spec fn total(v: Seq<nat>) -> nat
    decreases v.len(),
{
    if v.len() == 0 {
        0
    } else {
        total(v.drop_last()) + v.last()
    }
}

proof fn lemma_total_without(v: Seq<nat>, k: int)
    requires
        0 <= k < v.len(),
    ensures
        total(v) == total(v.remove(k)) + v[k],
    decreases v.len(),
{
    if k == v.len() - 1 {
        assert(v.remove(k) =~= v.drop_last());
    } else {
        lemma_total_without(v.drop_last(), k);
        assert(v.remove(k).drop_last() =~= v.drop_last().remove(k));
    }
}

proof fn lemma_total_reordered(a: Seq<nat>, b: Seq<nat>, places: Seq<int>)
    requires
        reorders(places, a.len(), b.len()),
        forall|i: int| 0 <= i < a.len() ==> a[i] == b[#[trigger] places[i]],
    ensures
        total(a) == total(b),
    decreases a.len(),
{
    if a.len() > 0 {
        let k = places.last();
        let n = (a.len() - 1) as nat;
        let rest = Seq::new(
            n,
            |i: int|
                if places[i] > k {
                    places[i] - 1
                } else {
                    places[i]
                },
        );
        assert forall|i: int| 0 <= i < n implies 0 <= #[trigger] rest[i] < n && a.drop_last()[i]
            == b.remove(k)[rest[i]] by {
            assert(places[i] != places[n as int]);
            assert(a[i] == b[places[i]]);
        }
        assert forall|i: int, j: int| 0 <= i < n && 0 <= j < n && i != j implies rest[i]
            != rest[j] by {
            assert(places[i] != places[j]);
            assert(places[i] != places[n as int]);
            assert(places[j] != places[n as int]);
        }
        lemma_total_reordered(a.drop_last(), b.remove(k), rest);
        lemma_total_without(b, k);
        assert(a[n as int] == b[places[n as int]]);
    }
}

/// Whether there was trouble, as a number.
spec fn trouble(f: Find) -> nat {
    if troubled(f) {
        1
    } else {
        0
    }
}

proof fn lemma_totals(fs: Seq<Find>, n: nat)
    requires
        n <= fs.len(),
    ensures
        all_blocks(fs, n) == total(Seq::new(n, |i: int| blocks(fs[i]))),
        all_bytes(fs, n) == total(Seq::new(n, |i: int| bytes(fs[i]))),
        counts(fs, n) == total(Seq::new(n, |i: int| count(fs[i]))),
        any_troubled(fs, n) <==> total(Seq::new(n, |i: int| trouble(fs[i]))) > 0,
    decreases n,
{
    if n > 0 {
        let m = (n - 1) as nat;
        lemma_totals(fs, m);
        assert(Seq::new(n, |i: int| blocks(fs[i])).drop_last() =~= Seq::new(
            m,
            |i: int| blocks(fs[i]),
        ));
        assert(Seq::new(n, |i: int| bytes(fs[i])).drop_last() =~= Seq::new(
            m,
            |i: int| bytes(fs[i]),
        ));
        assert(Seq::new(n, |i: int| count(fs[i])).drop_last() =~= Seq::new(
            m,
            |i: int| count(fs[i]),
        ));
        assert(Seq::new(n, |i: int| trouble(fs[i])).drop_last() =~= Seq::new(
            m,
            |i: int| trouble(fs[i]),
        ));
    }
}

/// The totals of a directory, and what is recorded of the directory itself, do
/// not depend on the order in which entries were found in it or further down:
/// a parallel walk and a sequential one agree on them.
pub proof fn totals_ignore_the_order(f: Find, g: Find)
    requires
        rearranged(f, g),
    ensures
        blocks(f) == blocks(g),
        bytes(f) == bytes(g),
        count(f) == count(g),
        troubled(f) == troubled(g),
        recorded(f).head == recorded(g).head,
    decreases f,
{
    if let Find::Dir { children, .. } = f {
        let others = g->children;
        let n = children.len();
        let places = choose|places: Seq<int>| #[trigger]
            reorders(places, n, others.len()) && forall|i: int|
                0 <= i < n ==> rearranged(#[trigger] children[i], others[places[i]]);
        assert forall|i: int| 0 <= i < n implies {
            &&& blocks(#[trigger] children[i]) == blocks(others[places[i]])
            &&& bytes(children[i]) == bytes(others[places[i]])
            &&& count(children[i]) == count(others[places[i]])
            &&& trouble(children[i]) == trouble(others[places[i]])
        } by {
            totals_ignore_the_order(children[i], others[places[i]]);
        }
        lemma_totals(children, n);
        lemma_totals(others, n);
        lemma_total_reordered(
            Seq::new(n, |i: int| blocks(children[i])),
            Seq::new(n, |i: int| blocks(others[i])),
            places,
        );
        lemma_total_reordered(
            Seq::new(n, |i: int| bytes(children[i])),
            Seq::new(n, |i: int| bytes(others[i])),
            places,
        );
        lemma_total_reordered(
            Seq::new(n, |i: int| count(children[i])),
            Seq::new(n, |i: int| count(others[i])),
            places,
        );
        lemma_total_reordered(
            Seq::new(n, |i: int| trouble(children[i])),
            Seq::new(n, |i: int| trouble(others[i])),
            places,
        );
    }
}

/// The entry, or one below it that the names lead to, says this of itself.
pub open spec fn holds(e: Entry, names: Seq<Seq<char>>, h: Head) -> bool
    decreases names.len(),
{
    if names.len() == 0 {
        e.head == h
    } else {
        exists|i: int|
            0 <= i < e.children.len() && (#[trigger] e.children[i]).head.name == names[0]
                && holds(e.children[i], names.skip(1), h)
    }
}

/// No position is left out.
proof fn lemma_each_place(places: Seq<int>, n: nat, j: int) -> (i: int)
    requires
        reorders(places, n, n),
        0 <= j < n,
    ensures
        0 <= i < n,
        places[i] == j,
{
    places.unique_seq_to_set();
    seq_to_set_is_finite(places);
    lemma_int_range(0, n as int);
    let range = set_int_range(0, n as int);
    assert forall|x: int| places.to_set().contains(x) implies range.contains(x) by {
        assert(places.contains(x));
        let k = choose|k: int| 0 <= k < places.len() && places[k] == x;
        assert(0 <= places[k] < n);
    }
    lemma_subset_equality(places.to_set(), range);
    assert(range.contains(j));
    assert(places.to_set().contains(j));
    choose|i: int| 0 <= i < places.len() && places[i] == j
}

/// Whatever the order in which entries were found, the tree holds the same
/// paths, and of the entry at each path it records the same: its type, its
/// size and blocks, and all else.
pub proof fn paths_ignore_the_order(f: Find, g: Find, names: Seq<Seq<char>>, h: Head)
    requires
        rearranged(f, g),
    ensures
        holds(recorded(f), names, h) <==> holds(recorded(g), names, h),
    decreases names.len(),
{
    totals_ignore_the_order(f, g);
    if names.len() > 0 && f is Dir {
        let a = f->children;
        let b = g->children;
        let n = a.len();
        let d = recorded(f).children;
        let e = recorded(g).children;
        let rest = names.skip(1);
        let places = choose|places: Seq<int>| #[trigger]
            reorders(places, n, b.len()) && forall|i: int|
                0 <= i < n ==> rearranged(#[trigger] a[i], b[places[i]]);
        assert forall|i: int| 0 <= i < n implies {
            &&& (#[trigger] d[i]).head == e[places[i]].head
            &&& holds(d[i], rest, h) <==> holds(e[places[i]], rest, h)
        } by {
            assert(rearranged(a[i], b[places[i]]));
            assert(0 <= places[i] < b.len());
            totals_ignore_the_order(a[i], b[places[i]]);
            paths_ignore_the_order(a[i], b[places[i]], rest, h);
        }
        if holds(recorded(f), names, h) {
            let i = choose|i: int|
                0 <= i < d.len() && (#[trigger] d[i]).head.name == names[0] && holds(d[i], rest, h);
            assert(0 <= places[i] < b.len());
            assert(e[places[i]].head.name == names[0]);
        }
        if holds(recorded(g), names, h) {
            let j = choose|j: int|
                0 <= j < e.len() && (#[trigger] e[j]).head.name == names[0] && holds(e[j], rest, h);
            let i = lemma_each_place(places, n, j);
            assert(d[i].head.name == names[0]);
        }
    }
}

} // verus!
