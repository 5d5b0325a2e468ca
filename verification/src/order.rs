//! The order in which the browser lists entries.

use vstd::prelude::*;
use vstd::utf8::encode_utf8;

use crate::model::{EntryId, Node, Tree};

verus! {

/// `a` comes before `b` in the order of bytes.
pub open spec fn bytes_less(a: Seq<u8>, b: Seq<u8>) -> bool
    decreases a.len(),
{
    if b.len() == 0 {
        false
    } else if a.len() == 0 {
        true
    } else if a[0] != b[0] {
        a[0] < b[0]
    } else {
        bytes_less(a.skip(1), b.skip(1))
    }
}

proof fn lemma_bytes_less(a: Seq<u8>, b: Seq<u8>, c: Seq<u8>)
    ensures
        !bytes_less(a, a),
        bytes_less(a, b) ==> !bytes_less(b, a),
        a == b || bytes_less(a, b) || bytes_less(b, a),
        bytes_less(a, b) && bytes_less(b, c) ==> bytes_less(a, c),
    decreases a.len() + b.len() + c.len(),
{
    if a.len() > 0 {
        lemma_bytes_less(
            a.skip(1),
            if b.len() > 0 {
                b.skip(1)
            } else {
                b
            },
            if c.len() > 0 {
                c.skip(1)
            } else {
                c
            },
        );
        if b.len() > 0 && a[0] == b[0] && a.skip(1) == b.skip(1) {
            assert forall|i: int| 0 <= i < a.len() implies a[i] == b[i] by {
                if i > 0 {
                    assert(a.skip(1)[i - 1] == b.skip(1)[i - 1]);
                }
            }
            assert(a.skip(1).len() == b.skip(1).len());
            assert(a =~= b);
        }
    } else if b.len() == 0 {
        assert(a =~= b);
    }
}

/// Whether `a` comes before `b` in the order of bytes.
fn is_bytes_less(a: &[u8], b: &[u8]) -> (r: bool)
    ensures
        r == bytes_less(a@, b@),
{
    let mut i: usize = 0;
    proof {
        assert(a@.skip(0) =~= a@);
        assert(b@.skip(0) =~= b@);
    }
    while i < a.len() && i < b.len() && a[i] == b[i]
        invariant
            i <= a@.len(),
            i <= b@.len(),
            bytes_less(a@, b@) == bytes_less(a@.skip(i as int), b@.skip(i as int)),
        decreases a@.len() - i,
    {
        proof {
            assert(a@.skip(i as int).skip(1) =~= a@.skip(i + 1));
            assert(b@.skip(i as int).skip(1) =~= b@.skip(i + 1));
            assert(a@.skip(i as int)[0] == a@[i as int]);
            assert(b@.skip(i as int)[0] == b@[i as int]);
        }
        i += 1;
    }
    proof {
        if i < a@.len() {
            assert(a@.skip(i as int)[0] == a@[i as int]);
        }
        if i < b@.len() {
            assert(b@.skip(i as int)[0] == b@[i as int]);
        }
    }
    if i == b.len() {
        false
    } else if i == a.len() {
        true
    } else {
        a[i] < b[i]
    }
}

/// `x` is listed before `y`: it takes more blocks, or as many and its name
/// comes first.
pub open spec fn before(nodes: Seq<Node>, x: EntryId, y: EntryId) -> bool {
    let a = nodes[x.0 as int].common;
    let b = nodes[y.0 as int].common;
    ||| a.blocks > b.blocks
    ||| a.blocks == b.blocks && bytes_less(encode_utf8(a.name@), encode_utf8(b.name@))
}

/// `x` is listed before `y`, where entries that are alike keep the order that
/// they have in `all`.
pub open spec fn ranks(nodes: Seq<Node>, all: Seq<EntryId>, x: EntryId, y: EntryId) -> bool {
    ||| before(nodes, x, y)
    ||| !before(nodes, y, x) && all.index_of(x) < all.index_of(y)
}

/// The ids are listed in order.
pub open spec fn in_order(nodes: Seq<Node>, all: Seq<EntryId>, ids: Seq<EntryId>) -> bool {
    forall|i: int, j: int|
        0 <= i < j < ids.len() ==> ranks(nodes, all, #[trigger] ids[i], #[trigger] ids[j])
}

proof fn lemma_ranks(nodes: Seq<Node>, all: Seq<EntryId>, x: EntryId, y: EntryId, z: EntryId)
    ensures
        before(nodes, x, y) ==> !before(nodes, y, x),
        ranks(nodes, all, x, y) && ranks(nodes, all, y, z) ==> ranks(nodes, all, x, z),
{
    let a = encode_utf8(nodes[x.0 as int].common.name@);
    let b = encode_utf8(nodes[y.0 as int].common.name@);
    let c = encode_utf8(nodes[z.0 as int].common.name@);
    lemma_bytes_less(a, b, c);
    lemma_bytes_less(b, c, a);
    lemma_bytes_less(c, a, b);
    lemma_bytes_less(a, c, b);
    lemma_bytes_less(c, b, a);
}

fn is_before(tree: &Tree, x: EntryId, y: EntryId) -> (r: bool)
    requires
        x.0 < tree.nodes@.len(),
        y.0 < tree.nodes@.len(),
    ensures
        r == before(tree.nodes@, x, y),
{
    let a = &tree.get(x).common;
    let b = &tree.get(y).common;
    if a.blocks != b.blocks {
        a.blocks > b.blocks
    } else {
        is_bytes_less(a.name.as_str().as_bytes(), b.name.as_str().as_bytes())
    }
}

/// Merges two lists. What is in the first one stands before what is in the
/// second one in `all`.
fn merge(
    tree: &Tree,
    a: &Vec<EntryId>,
    b: &Vec<EntryId>,
    Ghost(all): Ghost<Seq<EntryId>>,
) -> (r: Vec<EntryId>)
    requires
        forall|i: int| 0 <= i < a@.len() ==> (#[trigger] a@[i]).0 < tree.nodes@.len(),
        forall|i: int| 0 <= i < b@.len() ==> (#[trigger] b@[i]).0 < tree.nodes@.len(),
        in_order(tree.nodes@, all, a@),
        in_order(tree.nodes@, all, b@),
        forall|i: int, j: int|
            0 <= i < a@.len() && 0 <= j < b@.len() ==> all.index_of(#[trigger] a@[i])
                < all.index_of(#[trigger] b@[j]),
    ensures
        in_order(tree.nodes@, all, r@),
        r@.to_multiset() == a@.to_multiset().add(b@.to_multiset()),
{
    let ghost nodes = tree.nodes@;
    let mut r: Vec<EntryId> = Vec::new();
    let mut i: usize = 0;
    let mut j: usize = 0;
    proof {
        a@.to_multiset_ensures();
        b@.to_multiset_ensures();
        r@.to_multiset_ensures();
        assert(a@.take(0) =~= Seq::<EntryId>::empty());
        assert(b@.take(0) =~= Seq::<EntryId>::empty());
        assert(r@ =~= Seq::<EntryId>::empty());
        assert(r@.to_multiset() =~= a@.take(0).to_multiset().add(b@.take(0).to_multiset()));
    }
    while i < a.len() || j < b.len()
        invariant
            i <= a@.len(),
            j <= b@.len(),
            nodes == tree.nodes@,
            forall|k: int| 0 <= k < a@.len() ==> (#[trigger] a@[k]).0 < nodes.len(),
            forall|k: int| 0 <= k < b@.len() ==> (#[trigger] b@[k]).0 < nodes.len(),
            in_order(nodes, all, a@),
            in_order(nodes, all, b@),
            forall|x: int, y: int|
                0 <= x < a@.len() && 0 <= y < b@.len() ==> all.index_of(#[trigger] a@[x])
                    < all.index_of(#[trigger] b@[y]),
            in_order(nodes, all, r@),
            forall|k: int, x: int|
                0 <= k < r@.len() && i <= x < a@.len() ==> ranks(
                    nodes,
                    all,
                    #[trigger] r@[k],
                    #[trigger] a@[x],
                ),
            forall|k: int, y: int|
                0 <= k < r@.len() && j <= y < b@.len() ==> ranks(
                    nodes,
                    all,
                    #[trigger] r@[k],
                    #[trigger] b@[y],
                ),
            r@.to_multiset() == a@.take(i as int).to_multiset().add(
                b@.take(j as int).to_multiset(),
            ),
        decreases a@.len() - i + b@.len() - j,
    {
        let ghost done = r@;
        proof {
            done.to_multiset_ensures();
            a@.take(i as int).to_multiset_ensures();
            b@.take(j as int).to_multiset_ensures();
        }
        if j < b.len() && (i == a.len() || is_before(tree, b[j], a[i])) {
            let x = b[j];
            proof {
                assert forall|k: int| i <= k < a@.len() implies ranks(
                    nodes,
                    all,
                    x,
                    #[trigger] a@[k],
                ) by {
                    if k > i {
                        assert(ranks(nodes, all, a@[i as int], a@[k]));
                        lemma_ranks(nodes, all, x, a@[i as int], a@[k]);
                    }
                }
                assert(b@.take(j + 1) =~= b@.take(j as int).push(x));
                b@.take(j as int).to_multiset_ensures();
            }
            r.push(x);
            j += 1;
            proof {
                assert(r@.to_multiset() =~= a@.take(i as int).to_multiset().add(
                    b@.take(j as int).to_multiset(),
                ));
            }
        } else {
            let x = a[i];
            proof {
                assert forall|k: int| j <= k < b@.len() implies ranks(
                    nodes,
                    all,
                    x,
                    #[trigger] b@[k],
                ) by {
                    let y = b@[j as int];
                    assert(all.index_of(a@[i as int]) < all.index_of(b@[j as int]));
                    assert(ranks(nodes, all, x, y));
                    if k > j {
                        assert(ranks(nodes, all, b@[j as int], b@[k]));
                        lemma_ranks(nodes, all, x, y, b@[k]);
                    }
                }
                assert(a@.take(i + 1) =~= a@.take(i as int).push(x));
                a@.take(i as int).to_multiset_ensures();
            }
            r.push(x);
            i += 1;
            proof {
                assert(r@.to_multiset() =~= a@.take(i as int).to_multiset().add(
                    b@.take(j as int).to_multiset(),
                ));
            }
        }
    }
    proof {
        assert(a@.take(a@.len() as int) =~= a@);
        assert(b@.take(b@.len() as int) =~= b@);
    }
    r
}

/// A stretch of a list, in order.
fn sort_between(tree: &Tree, ids: &Vec<EntryId>, from: usize, to: usize) -> (r: Vec<EntryId>)
    requires
        from <= to <= ids@.len(),
        ids@.no_duplicates(),
        forall|i: int| 0 <= i < ids@.len() ==> (#[trigger] ids@[i]).0 < tree.nodes@.len(),
    ensures
        in_order(tree.nodes@, ids@, r@),
        r@.to_multiset() == ids@.subrange(from as int, to as int).to_multiset(),
    decreases to - from,
{
    let ghost part = ids@.subrange(from as int, to as int);
    let mut r: Vec<EntryId> = Vec::new();
    if to - from == 0 {
        proof {
            assert(r@ =~= part);
        }
        return r;
    }
    if to - from == 1 {
        r.push(ids[from]);
        proof {
            assert(r@ =~= part);
        }
        return r;
    }
    let mid: usize = from + (to - from) / 2;
    let a = sort_between(tree, ids, from, mid);
    let b = sort_between(tree, ids, mid, to);
    let ghost left = ids@.subrange(from as int, mid as int);
    let ghost right = ids@.subrange(mid as int, to as int);
    proof {
        assert forall|i: int| 0 <= i < a@.len() implies from <= ids@.index_of(#[trigger] a@[i]) < mid
            && a@[i].0 < tree.nodes@.len() by {
            lemma_member(a@, left, i);
            let k = choose|k: int| 0 <= k < left.len() && left[k] == a@[i];
            assert(ids@[from + k] == a@[i]);
            assert(ids@.contains(a@[i]));
        }
        assert forall|i: int| 0 <= i < b@.len() implies mid <= ids@.index_of(#[trigger] b@[i]) < to
            && b@[i].0 < tree.nodes@.len() by {
            lemma_member(b@, right, i);
            let k = choose|k: int| 0 <= k < right.len() && right[k] == b@[i];
            assert(ids@[mid + k] == b@[i]);
            assert(ids@.contains(b@[i]));
        }
    }
    let r = merge(tree, &a, &b, Ghost(ids@));
    proof {
        assert(part =~= left + right);
        vstd::seq_lib::lemma_multiset_commutative(left, right);
    }
    r
}

/// What one of two lists with the same members holds, the other holds too.
pub proof fn lemma_member(a: Seq<EntryId>, b: Seq<EntryId>, i: int)
    requires
        a.to_multiset() == b.to_multiset(),
        0 <= i < a.len(),
    ensures
        b.contains(a[i]),
{
    a.to_multiset_ensures();
    b.to_multiset_ensures();
    assert(a.contains(a[i]));
    assert(a.to_multiset().count(a[i]) > 0);
    assert(b.to_multiset().count(a[i]) > 0);
}

/// The ids in the order in which they are listed: most blocks first, then by
/// name. Entries that are alike keep their order.
pub fn sorted(tree: &Tree, ids: &Vec<EntryId>) -> (r: Vec<EntryId>)
    requires
        ids@.no_duplicates(),
        forall|i: int| 0 <= i < ids@.len() ==> (#[trigger] ids@[i]).0 < tree.nodes@.len(),
    ensures
        in_order(tree.nodes@, ids@, r@),
        r@.to_multiset() == ids@.to_multiset(),
        r@ == listing(tree.nodes@, ids@),
{
    proof {
        assert(ids@.subrange(0, ids@.len() as int) =~= ids@);
    }
    let r = sort_between(tree, ids, 0, ids.len());
    proof {
        lemma_listing(tree.nodes@, ids@, r@);
    }
    r
}

/// There is only one order in which to list ids.
pub proof fn lemma_one_order(
    nodes: Seq<Node>,
    all: Seq<EntryId>,
    a: Seq<EntryId>,
    b: Seq<EntryId>,
)
    requires
        in_order(nodes, all, a),
        in_order(nodes, all, b),
        a.to_multiset() == b.to_multiset(),
    ensures
        a == b,
    decreases a.len(),
{
    a.to_multiset_ensures();
    b.to_multiset_ensures();
    assert(a.len() == b.len());
    if a.len() > 0 {
        let x = a[0];
        let y = b[0];
        if x != y {
            lemma_member(a, b, 0);
            lemma_member(b, a, 0);
            let i = choose|i: int| 0 <= i < b.len() && b[i] == x;
            let j = choose|j: int| 0 <= j < a.len() && a[j] == y;
            assert(ranks(nodes, all, b[0], b[i]));
            assert(ranks(nodes, all, a[0], a[j]));
            lemma_ranks(nodes, all, x, y, x);
        }
        let c = a.remove(0);
        let d = b.remove(0);
        assert forall|i: int, j: int| 0 <= i < j < c.len() implies ranks(
            nodes,
            all,
            #[trigger] c[i],
            #[trigger] c[j],
        ) by {
            assert(ranks(nodes, all, a[i + 1], a[j + 1]));
        }
        assert forall|i: int, j: int| 0 <= i < j < d.len() implies ranks(
            nodes,
            all,
            #[trigger] d[i],
            #[trigger] d[j],
        ) by {
            assert(ranks(nodes, all, b[i + 1], b[j + 1]));
        }
        lemma_one_order(nodes, all, c, d);
        assert(a =~= seq![x] + c);
        assert(b =~= seq![y] + d);
    }
}

/// The ids in the order in which they are listed.
pub open spec fn listing(nodes: Seq<Node>, ids: Seq<EntryId>) -> Seq<EntryId> {
    choose|r: Seq<EntryId>| #[trigger] in_order(nodes, ids, r) && r.to_multiset() == ids.to_multiset()
}

pub proof fn lemma_listing(nodes: Seq<Node>, ids: Seq<EntryId>, r: Seq<EntryId>)
    requires
        in_order(nodes, ids, r),
        r.to_multiset() == ids.to_multiset(),
    ensures
        listing(nodes, ids) == r,
{
    let other = listing(nodes, ids);
    assert(in_order(nodes, ids, other) && other.to_multiset() == ids.to_multiset());
    lemma_one_order(nodes, ids, r, other);
}

} // verus!
