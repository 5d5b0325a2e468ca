//! What exclude patterns mean for whole paths.

use vstd::prelude::*;

use crate::exclude::{
    all_slashes, enter_level, entered, leading_slashes, level_at, part_matches, path_components,
    sorted_out, split_path, trimmed, verdict, Level, Part,
};
use crate::text::{lemma_place_cut, place_of};

verus! {

/// The components match the names one by one.
pub open spec fn covers(
    c: Seq<Part>,
    names: Seq<Seq<char>>,
    hits: Seq<(Seq<char>, Seq<char>)>,
) -> bool {
    &&& c.len() == names.len()
    &&& forall|i: int| 0 <= i < c.len() ==> part_matches(#[trigger] c[i], names[i], hits)
}

/// The pattern is one of the level's.
pub open spec fn in_level(l: Level, c: Seq<Part>) -> bool {
    l.leaf.contains(c) || l.branch.contains(c)
}

/// The last `n` names of a path.
pub open spec fn last_names(names: Seq<Seq<char>>, n: nat) -> Seq<Seq<char>> {
    names.skip(names.len() - n)
}

/// Some pattern excludes the path: one that is anchored matches all of it, or
/// one that is not matches the end of it. `isdir` tells dir-only patterns from
/// the others.
pub open spec fn path_excluded(
    root: Level,
    everywhere: Level,
    path: Seq<Seq<char>>,
    hits: Seq<(Seq<char>, Seq<char>)>,
    isdir: bool,
) -> bool {
    ||| exists|c: Seq<Part>|
        in_level(root, c) && c.last().isdir == isdir && #[trigger] covers(c, path, hits)
    ||| exists|c: Seq<Part>|
        #![trigger c.last()]
        in_level(everywhere, c) && c.last().isdir == isdir && c.len() <= path.len() && covers(
            c,
            last_names(path, c.len()),
            hits,
        )
}

/// `rest` is what is left of a pattern behind `names`.
spec fn left_of(
    c: Seq<Part>,
    names: Seq<Seq<char>>,
    rest: Seq<Part>,
    hits: Seq<(Seq<char>, Seq<char>)>,
) -> bool {
    &&& c.len() > names.len()
    &&& covers(c.take(names.len() as int), names, hits)
    &&& rest == c.skip(names.len() as int)
}

/// `rest` is what is left of an anchored pattern behind `names`.
spec fn from_root(
    root: Level,
    names: Seq<Seq<char>>,
    rest: Seq<Part>,
    hits: Seq<(Seq<char>, Seq<char>)>,
) -> bool {
    exists|c: Seq<Part>| in_level(root, c) && #[trigger] left_of(c, names, rest, hits)
}

/// `rest` is what is left of an unanchored pattern behind the last `k` names.
spec fn from_last(
    everywhere: Level,
    names: Seq<Seq<char>>,
    k: nat,
    rest: Seq<Part>,
    hits: Seq<(Seq<char>, Seq<char>)>,
) -> bool {
    exists|c: Seq<Part>|
        in_level(everywhere, c) && #[trigger] left_of(c, last_names(names, k), rest, hits)
}

/// `rest` is what is left of an unanchored pattern behind some of the last
/// names.
spec fn from_anywhere(
    everywhere: Level,
    names: Seq<Seq<char>>,
    rest: Seq<Part>,
    hits: Seq<(Seq<char>, Seq<char>)>,
) -> bool {
    exists|k: nat| 1 <= k <= names.len() && #[trigger] from_last(everywhere, names, k, rest, hits)
}

proof fn lemma_entered(
    list: Seq<Seq<Part>>,
    name: Seq<char>,
    hits: Seq<(Seq<char>, Seq<char>)>,
    deep: bool,
    rest: Seq<Part>,
)
    ensures
        entered(list, name, hits, deep).contains(rest) <==> exists|c: Seq<Part>| #[trigger]
            list.contains(c) && part_matches(c[0], name, hits) && c.len() > 1 && deep == (c.len()
                > 2) && rest == c.skip(1),
    decreases list.len(),
{
    if list.len() > 0 {
        let front = list.drop_last();
        let c = list.last();
        lemma_entered(front, name, hits, deep, rest);
        assert(list[list.len() - 1] == c);
        assert forall|x: Seq<Part>| #[trigger] list.contains(x) <==> front.contains(x) || x == c by {
            if front.contains(x) {
                let i = choose|i: int| 0 <= i < front.len() && front[i] == x;
                assert(list[i] == x);
            }
            if list.contains(x) {
                let i = choose|i: int| 0 <= i < list.len() && list[i] == x;
                if i < front.len() {
                    assert(front[i] == x);
                }
            }
        }
        let got = entered(front, name, hits, deep);
        let more = got.push(c.skip(1));
        assert(more.contains(rest) <==> got.contains(rest) || rest == c.skip(1)) by {
            assert(more[got.len() as int] == c.skip(1));
            if got.contains(rest) {
                let i = choose|i: int| 0 <= i < got.len() && got[i] == rest;
                assert(more[i] == rest);
            }
        }
        if entered(list, name, hits, deep).contains(rest) && !got.contains(rest) {
            assert(list.contains(c));
        }
        if got.contains(rest) {
            let x = choose|x: Seq<Part>| #[trigger]
                front.contains(x) && part_matches(x[0], name, hits) && x.len() > 1 && deep == (
                x.len() > 2) && rest == x.skip(1);
            assert(list.contains(x));
        }
    }
}

/// What a pattern leaves behind one name more.
proof fn lemma_left_push(
    c: Seq<Part>,
    names: Seq<Seq<char>>,
    name: Seq<char>,
    rest: Seq<Part>,
    hits: Seq<(Seq<char>, Seq<char>)>,
)
    ensures
        left_of(c, names.push(name), rest, hits) <==> {
            let t = c.skip(names.len() as int);
            &&& left_of(c, names, t, hits)
            &&& t.len() > 1
            &&& part_matches(t[0], name, hits)
            &&& rest == t.skip(1)
        },
{
    let n = names.len() as int;
    let more = names.push(name);
    if c.len() > n {
        let t = c.skip(n);
        assert(t[0] == c[n]);
        if t.len() > 1 {
            assert(t.skip(1) =~= c.skip(n + 1));
            let a = c.take(n);
            let b = c.take(n + 1);
            assert(b =~= a.push(c[n]));
            if covers(b, more, hits) {
                assert forall|i: int| 0 <= i < n implies part_matches(
                    #[trigger] a[i],
                    names[i],
                    hits,
                ) by {
                    assert(part_matches(b[i], more[i], hits));
                }
                assert(part_matches(b[n], more[n], hits));
            }
            if covers(a, names, hits) && part_matches(c[n], name, hits) {
                assert forall|i: int| 0 <= i < n + 1 implies part_matches(
                    #[trigger] b[i],
                    more[i],
                    hits,
                ) by {
                    if i < n {
                        assert(part_matches(a[i], names[i], hits));
                    }
                }
            }
        }
    }
}

proof fn lemma_left_none(c: Seq<Part>, hits: Seq<(Seq<char>, Seq<char>)>)
    requires
        c.len() > 0,
    ensures
        left_of(c, Seq::empty(), c, hits),
{
    assert(c.skip(0) =~= c);
    assert(c.take(0) =~= Seq::<Part>::empty());
}

/// What is left of an anchored pattern behind one name more.
proof fn lemma_from_root_push(
    root: Level,
    names: Seq<Seq<char>>,
    name: Seq<char>,
    rest: Seq<Part>,
    hits: Seq<(Seq<char>, Seq<char>)>,
)
    ensures
        from_root(root, names.push(name), rest, hits) <==> exists|t: Seq<Part>| #[trigger]
            from_root(root, names, t, hits) && t.len() > 1 && part_matches(t[0], name, hits)
                && rest == t.skip(1),
{
    let more = names.push(name);
    if from_root(root, more, rest, hits) {
        let c = choose|c: Seq<Part>| in_level(root, c) && #[trigger] left_of(c, more, rest, hits);
        lemma_left_push(c, names, name, rest, hits);
        assert(from_root(root, names, c.skip(names.len() as int), hits));
    }
    if exists|t: Seq<Part>| #[trigger]
        from_root(root, names, t, hits) && t.len() > 1 && part_matches(t[0], name, hits) && rest
            == t.skip(1) {
        let t = choose|t: Seq<Part>| #[trigger]
            from_root(root, names, t, hits) && t.len() > 1 && part_matches(t[0], name, hits)
                && rest == t.skip(1);
        let c = choose|c: Seq<Part>| in_level(root, c) && #[trigger] left_of(c, names, t, hits);
        lemma_left_push(c, names, name, rest, hits);
        assert(left_of(c, more, rest, hits));
    }
}

proof fn lemma_last_push(names: Seq<Seq<char>>, name: Seq<char>, k: nat)
    requires
        k <= names.len(),
    ensures
        last_names(names.push(name), (k + 1) as nat) == last_names(names, k).push(name),
{
    assert(last_names(names.push(name), (k + 1) as nat) =~= last_names(names, k).push(name));
}

/// What is left of an unanchored pattern behind one name more: the pattern
/// may have begun before, or with that name.
proof fn lemma_from_anywhere_push(
    everywhere: Level,
    names: Seq<Seq<char>>,
    name: Seq<char>,
    rest: Seq<Part>,
    hits: Seq<(Seq<char>, Seq<char>)>,
)
    requires
        sorted_out(everywhere),
    ensures
        from_anywhere(everywhere, names.push(name), rest, hits) <==> exists|t: Seq<Part>|
            #![trigger in_level(everywhere, t)]
            #![trigger from_anywhere(everywhere, names, t, hits)]
            (from_anywhere(everywhere, names, t, hits) || in_level(everywhere, t)) && t.len() > 1
                && part_matches(t[0], name, hits) && rest == t.skip(1),
{
    let more = names.push(name);
    if from_anywhere(everywhere, more, rest, hits) {
        let k = choose|k: nat|
            1 <= k <= more.len() && #[trigger] from_last(everywhere, more, k, rest, hits);
        let c = choose|c: Seq<Part>|
            in_level(everywhere, c) && #[trigger] left_of(c, last_names(more, k), rest, hits);
        let j = (k - 1) as nat;
        lemma_last_push(names, name, j);
        lemma_left_push(c, last_names(names, j), name, rest, hits);
        let t = c.skip(j as int);
        if j == 0 {
            assert(t =~= c);
            assert(in_level(everywhere, t));
        } else {
            assert(left_of(c, last_names(names, j), t, hits));
            assert(from_last(everywhere, names, j, t, hits));
            assert(from_anywhere(everywhere, names, t, hits));
        }
    }
    if exists|t: Seq<Part>|
        #![trigger in_level(everywhere, t)]
        #![trigger from_anywhere(everywhere, names, t, hits)]
        (from_anywhere(everywhere, names, t, hits) || in_level(everywhere, t)) && t.len() > 1
            && part_matches(t[0], name, hits) && rest == t.skip(1) {
        let t = choose|t: Seq<Part>|
            #![trigger in_level(everywhere, t)]
            #![trigger from_anywhere(everywhere, names, t, hits)]
            (from_anywhere(everywhere, names, t, hits) || in_level(everywhere, t)) && t.len() > 1
                && part_matches(t[0], name, hits) && rest == t.skip(1);
        if from_anywhere(everywhere, names, t, hits) {
            let k = choose|k: nat|
                1 <= k <= names.len() && #[trigger] from_last(everywhere, names, k, t, hits);
            let c = choose|c: Seq<Part>|
                in_level(everywhere, c) && #[trigger] left_of(c, last_names(names, k), t, hits);
            lemma_last_push(names, name, k);
            lemma_left_push(c, last_names(names, k), name, rest, hits);
            assert(left_of(c, last_names(more, (k + 1) as nat), rest, hits));
            assert(from_last(everywhere, more, (k + 1) as nat, rest, hits));
        } else {
            assert(last_names(names, 0) =~= Seq::<Seq<char>>::empty());
            lemma_left_none(t, hits);
            lemma_last_push(names, name, 0);
            lemma_left_push(t, Seq::empty(), name, rest, hits);
            assert(t.skip(0) =~= t);
            assert(left_of(t, last_names(more, 1), rest, hits));
            assert(from_last(everywhere, more, 1, rest, hits));
        }
    }
}

/// What applies in a directory: what is left of anchored patterns behind the
/// names on the way to it, and of unanchored ones behind some of the last.
proof fn lemma_level(
    root: Level,
    everywhere: Level,
    names: Seq<Seq<char>>,
    rest: Seq<Part>,
    hits: Seq<(Seq<char>, Seq<char>)>,
)
    requires
        sorted_out(root),
        sorted_out(everywhere),
    ensures
        sorted_out(level_at(root, everywhere, names, hits)),
        in_level(level_at(root, everywhere, names, hits), rest) <==> from_root(
            root,
            names,
            rest,
            hits,
        ) || from_anywhere(everywhere, names, rest, hits),
    decreases names.len(),
{
    let l = level_at(root, everywhere, names, hits);
    if names.len() == 0 {
        assert(names =~= Seq::empty());
        if in_level(root, rest) {
            lemma_level_nonempty(root, rest);
            lemma_left_none(rest, hits);
            assert(left_of(rest, names, rest, hits));
        }
        if from_root(root, names, rest, hits) {
            let c = choose|c: Seq<Part>|
                in_level(root, c) && #[trigger] left_of(c, names, rest, hits);
            assert(c.skip(0) =~= c);
        }
    } else {
        let before = names.drop_last();
        let name = names.last();
        assert(names =~= before.push(name));
        let up = level_at(root, everywhere, before, hits);
        let list = up.branch + everywhere.branch;
        lemma_level(root, everywhere, before, rest, hits);
        lemma_entered(list, name, hits, false, rest);
        lemma_entered(list, name, hits, true, rest);
        lemma_from_root_push(root, before, name, rest, hits);
        lemma_from_anywhere_push(everywhere, before, name, rest, hits);
        lemma_entered_lengths(list, name, hits);
        assert forall|t: Seq<Part>| t.len() > 1 implies (#[trigger] list.contains(t) <==> from_root(
            root,
            before,
            t,
            hits,
        ) || from_anywhere(everywhere, before, t, hits) || in_level(everywhere, t)) by {
            lemma_level(root, everywhere, before, t, hits);
            lemma_concat_contains(up.branch, everywhere.branch, t);
            lemma_long_is_branch(up, t);
            lemma_long_is_branch(everywhere, t);
        }
        if in_level(l, rest) {
            let t = choose|t: Seq<Part>| #[trigger]
                list.contains(t) && part_matches(t[0], name, hits) && t.len() > 1 && rest == t.skip(
                    1,
                );
            assert(list.contains(t));
            assert(from_root(root, before, t, hits) || from_anywhere(everywhere, before, t, hits)
                || in_level(everywhere, t));
        }
        if from_root(root, names, rest, hits) {
            let t = choose|t: Seq<Part>| #[trigger]
                from_root(root, before, t, hits) && t.len() > 1 && part_matches(t[0], name, hits)
                    && rest == t.skip(1);
            assert(list.contains(t));
        }
        if from_anywhere(everywhere, names, rest, hits) {
            let t = choose|t: Seq<Part>|
                #![trigger in_level(everywhere, t)]
                #![trigger from_anywhere(everywhere, before, t, hits)]
                (from_anywhere(everywhere, before, t, hits) || in_level(everywhere, t)) && t.len()
                    > 1 && part_matches(t[0], name, hits) && rest == t.skip(1);
            assert(list.contains(t));
        }
    }
}

proof fn lemma_level_nonempty(l: Level, c: Seq<Part>)
    requires
        sorted_out(l),
        in_level(l, c),
    ensures
        c.len() > 0,
{
    if l.leaf.contains(c) {
        let i = choose|i: int| 0 <= i < l.leaf.len() && l.leaf[i] == c;
        assert(l.leaf[i].len() == 1);
    } else {
        let i = choose|i: int| 0 <= i < l.branch.len() && l.branch[i] == c;
        assert(l.branch[i].len() > 1);
    }
}

proof fn lemma_long_is_branch(l: Level, c: Seq<Part>)
    requires
        sorted_out(l),
    ensures
        c.len() > 1 ==> (in_level(l, c) <==> l.branch.contains(c)),
        c.len() == 1 ==> (in_level(l, c) <==> l.leaf.contains(c)),
{
    if l.leaf.contains(c) {
        let i = choose|i: int| 0 <= i < l.leaf.len() && l.leaf[i] == c;
        assert(l.leaf[i].len() == 1);
    }
    if l.branch.contains(c) {
        let i = choose|i: int| 0 <= i < l.branch.len() && l.branch[i] == c;
        assert(l.branch[i].len() > 1);
    }
}

proof fn lemma_concat_contains(a: Seq<Seq<Part>>, b: Seq<Seq<Part>>, c: Seq<Part>)
    ensures
        (a + b).contains(c) <==> a.contains(c) || b.contains(c),
{
    let all = a + b;
    if a.contains(c) {
        let i = choose|i: int| 0 <= i < a.len() && a[i] == c;
        assert(all[i] == c);
    }
    if b.contains(c) {
        let i = choose|i: int| 0 <= i < b.len() && b[i] == c;
        assert(all[a.len() + i] == c);
    }
    if all.contains(c) {
        let i = choose|i: int| 0 <= i < all.len() && all[i] == c;
        if i < a.len() {
            assert(a[i] == c);
        } else {
            assert(b[i - a.len()] == c);
        }
    }
}

proof fn lemma_entered_lengths(
    list: Seq<Seq<Part>>,
    name: Seq<char>,
    hits: Seq<(Seq<char>, Seq<char>)>,
)
    ensures
        forall|i: int|
            0 <= i < entered(list, name, hits, false).len() ==> (#[trigger] entered(
                list,
                name,
                hits,
                false,
            )[i]).len() == 1,
        forall|i: int|
            0 <= i < entered(list, name, hits, true).len() ==> (#[trigger] entered(
                list,
                name,
                hits,
                true,
            )[i]).len() > 1,
    decreases list.len(),
{
    if list.len() > 0 {
        let front = list.drop_last();
        lemma_entered_lengths(front, name, hits);
        assert forall|i: int| 0 <= i < entered(list, name, hits, false).len() implies (
        #[trigger] entered(list, name, hits, false)[i]).len() == 1 by {
            if i < entered(front, name, hits, false).len() {
                assert(entered(list, name, hits, false)[i] == entered(front, name, hits, false)[i]);
            }
        }
        assert forall|i: int| 0 <= i < entered(list, name, hits, true).len() implies (
        #[trigger] entered(list, name, hits, true)[i]).len() > 1 by {
            if i < entered(front, name, hits, true).len() {
                assert(entered(list, name, hits, true)[i] == entered(front, name, hits, true)[i]);
            }
        }
    }
}

/// A pattern with nothing left but its last component behind all names but
/// the last covers them all, if that component matches.
proof fn lemma_covers_last(
    c: Seq<Part>,
    names: Seq<Seq<char>>,
    name: Seq<char>,
    hits: Seq<(Seq<char>, Seq<char>)>,
)
    ensures
        covers(c, names.push(name), hits) <==> c.len() == names.len() + 1 && left_of(
            c,
            names,
            seq![c.last()],
            hits,
        ) && part_matches(c.last(), name, hits),
{
    let full = names.push(name);
    let n = names.len() as int;
    if c.len() == n + 1 {
        assert(c.skip(n) =~= seq![c.last()]);
        let a = c.take(n);
        if covers(c, full, hits) {
            assert forall|i: int| 0 <= i < n implies part_matches(
                #[trigger] a[i],
                names[i],
                hits,
            ) by {
                assert(part_matches(c[i], full[i], hits));
            }
            assert(part_matches(c[n], full[n], hits));
        }
        if covers(a, names, hits) && part_matches(c.last(), name, hits) {
            assert forall|i: int| 0 <= i < c.len() implies part_matches(
                #[trigger] c[i],
                full[i],
                hits,
            ) by {
                if i < n {
                    assert(part_matches(a[i], names[i], hits));
                }
            }
        }
    }
}

/// A component that is matched against the entries of a directory and matches
/// `name` ends a pattern that excludes the path to `name`.
proof fn lemma_leaf_excludes(
    root: Level,
    everywhere: Level,
    names: Seq<Seq<char>>,
    name: Seq<char>,
    hits: Seq<(Seq<char>, Seq<char>)>,
    leaf: Seq<Part>,
)
    requires
        sorted_out(root),
        sorted_out(everywhere),
        leaf.len() == 1,
        level_at(root, everywhere, names, hits).leaf.contains(leaf) || everywhere.leaf.contains(
            leaf,
        ),
        part_matches(leaf[0], name, hits),
    ensures
        path_excluded(root, everywhere, names.push(name), hits, leaf[0].isdir),
{
    let full = names.push(name);
    lemma_level(root, everywhere, names, leaf, hits);
    lemma_long_is_branch(level_at(root, everywhere, names, hits), leaf);
    if everywhere.leaf.contains(leaf) {
        let last = last_names(full, 1);
        assert(last =~= seq![name]);
        assert(covers(leaf, last, hits));
        assert(leaf.last() == leaf[0]);
    } else if from_root(root, names, leaf, hits) {
        let c = choose|c: Seq<Part>| in_level(root, c) && #[trigger] left_of(c, names, leaf, hits);
        assert(c.len() == names.len() + 1);
        assert(c.last() == leaf[0]);
        assert(leaf =~= seq![c.last()]);
        lemma_covers_last(c, names, name, hits);
        assert(covers(c, full, hits));
    } else {
        let k = choose|k: nat|
            1 <= k <= names.len() && #[trigger] from_last(everywhere, names, k, leaf, hits);
        let some = last_names(names, k);
        let c = choose|c: Seq<Part>|
            in_level(everywhere, c) && #[trigger] left_of(c, some, leaf, hits);
        assert(c.len() == k + 1);
        assert(c.last() == leaf[0]);
        assert(leaf =~= seq![c.last()]);
        lemma_last_push(names, name, k);
        lemma_covers_last(c, some, name, hits);
        assert(covers(c, last_names(full, c.len()), hits));
    }
}

/// A pattern that excludes the path to `name` ends in a component that is
/// matched against the entries of the directory and matches `name`.
proof fn lemma_excludes_leaf(
    root: Level,
    everywhere: Level,
    names: Seq<Seq<char>>,
    name: Seq<char>,
    hits: Seq<(Seq<char>, Seq<char>)>,
    isdir: bool,
) -> (leaf: Seq<Part>)
    requires
        sorted_out(root),
        sorted_out(everywhere),
        path_excluded(root, everywhere, names.push(name), hits, isdir),
    ensures
        leaf.len() == 1,
        level_at(root, everywhere, names, hits).leaf.contains(leaf) || everywhere.leaf.contains(
            leaf,
        ),
        part_matches(leaf[0], name, hits),
        leaf[0].isdir == isdir,
{
    let full = names.push(name);
    let l = level_at(root, everywhere, names, hits);
    if exists|c: Seq<Part>|
        in_level(root, c) && c.last().isdir == isdir && #[trigger] covers(c, full, hits) {
        let c = choose|c: Seq<Part>|
            in_level(root, c) && c.last().isdir == isdir && #[trigger] covers(c, full, hits);
        let leaf = seq![c.last()];
        lemma_covers_last(c, names, name, hits);
        assert(from_root(root, names, leaf, hits));
        lemma_level(root, everywhere, names, leaf, hits);
        lemma_long_is_branch(l, leaf);
        leaf
    } else {
        let c = choose|c: Seq<Part>|
            #![trigger c.last()]
            in_level(everywhere, c) && c.last().isdir == isdir && c.len() <= full.len() && covers(
                c,
                last_names(full, c.len()),
                hits,
            );
        lemma_level_nonempty(everywhere, c);
        let k = (c.len() - 1) as nat;
        let leaf = seq![c.last()];
        lemma_last_push(names, name, k);
        lemma_covers_last(c, last_names(names, k), name, hits);
        if k == 0 {
            assert(leaf =~= c);
            lemma_long_is_branch(everywhere, c);
        } else {
            assert(left_of(c, last_names(names, k), leaf, hits));
            assert(from_last(everywhere, names, k, leaf, hits));
            assert(from_anywhere(everywhere, names, leaf, hits));
            lemma_level(root, everywhere, names, leaf, hits);
            lemma_long_is_branch(l, leaf);
        }
        leaf
    }
}

/// What excluding comes to for a path as a whole: an entry `name` in the
/// directory behind `names` is excluded whatever it is if some pattern that is
/// not dir-only matches the whole path (anchored patterns) or the end of it
/// (unanchored ones), as a directory if only dir-only patterns do, and not at
/// all if no pattern does.
pub proof fn patterns_exclude_paths(
    root: Level,
    everywhere: Level,
    names: Seq<Seq<char>>,
    name: Seq<char>,
    hits: Seq<(Seq<char>, Seq<char>)>,
)
    requires
        sorted_out(root),
        sorted_out(everywhere),
    ensures
        verdict(level_at(root, everywhere, names, hits).leaf + everywhere.leaf, name, hits) == (
        if path_excluded(root, everywhere, names.push(name), hits, false) {
            Some(false)
        } else if path_excluded(root, everywhere, names.push(name), hits, true) {
            Some(true)
        } else {
            None
        }),
{
    let full = names.push(name);
    let l = level_at(root, everywhere, names, hits);
    let list = l.leaf + everywhere.leaf;
    lemma_level(root, everywhere, names, Seq::empty(), hits);
    assert forall|i: int|
        0 <= i < list.len() && part_matches((#[trigger] list[i])[0], name, hits) implies path_excluded(
        root,
        everywhere,
        full,
        hits,
        list[i][0].isdir,
    ) by {
        let leaf = list[i];
        lemma_concat_contains(l.leaf, everywhere.leaf, leaf);
        assert(list.contains(leaf));
        if i < l.leaf.len() {
            assert(l.leaf[i] == leaf);
        } else {
            assert(everywhere.leaf[i - l.leaf.len()] == leaf);
        }
        lemma_leaf_excludes(root, everywhere, names, name, hits, leaf);
    }
    if path_excluded(root, everywhere, full, hits, false) {
        let leaf = lemma_excludes_leaf(root, everywhere, names, name, hits, false);
        lemma_concat_contains(l.leaf, everywhere.leaf, leaf);
        let i = choose|i: int| 0 <= i < list.len() && list[i] == leaf;
        assert(part_matches(list[i][0], name, hits) && !list[i][0].isdir);
    }
    if path_excluded(root, everywhere, full, hits, true) {
        let leaf = lemma_excludes_leaf(root, everywhere, names, name, hits, true);
        lemma_concat_contains(l.leaf, everywhere.leaf, leaf);
        let i = choose|i: int| 0 <= i < list.len() && list[i] == leaf;
        assert(part_matches(list[i][0], name, hits));
    }
}

/// Unanchored patterns apply at every level: one with a single component that
/// matches the name excludes it wherever it is.
pub proof fn unanchored_patterns_apply_everywhere(
    root: Level,
    everywhere: Level,
    names: Seq<Seq<char>>,
    name: Seq<char>,
    hits: Seq<(Seq<char>, Seq<char>)>,
    c: Seq<Part>,
)
    requires
        everywhere.leaf.contains(c),
        part_matches(c[0], name, hits),
    ensures
        ({
            let v = verdict(
                level_at(root, everywhere, names, hits).leaf + everywhere.leaf,
                name,
                hits,
            );
            &&& v is Some
            &&& !c[0].isdir ==> v == Some(false)
        }),
{
    let l = level_at(root, everywhere, names, hits);
    let list = l.leaf + everywhere.leaf;
    let i = choose|i: int| 0 <= i < everywhere.leaf.len() && everywhere.leaf[i] == c;
    assert(list[l.leaf.len() + i] == c);
}

proof fn lemma_split_push(s: Seq<char>, name: Seq<char>)
    requires
        !name.contains('/'),
    ensures
        split_path(s + seq!['/'] + name) == split_path(s).push(name),
    decreases s.len(),
{
    let full = s + seq!['/'] + name;
    lemma_place_cut(s, '/', 0, s.len() as int);
    lemma_place_cut(full, '/', 0, s.len() as int);
    assert(s.subrange(0, s.len() as int) =~= s);
    assert(full.subrange(0, s.len() as int) =~= s);
    let i = place_of(s, '/', 0);
    if i < s.len() {
        assert(place_of(full, '/', 0) == i);
        assert(full.skip(i + 1) =~= s.skip(i + 1) + seq!['/'] + name);
        assert(full.take(i) =~= s.take(i));
        lemma_split_push(s.skip(i + 1), name);
        assert(split_path(full) =~= split_path(s).push(name));
    } else {
        lemma_place_cut(full, '/', 0, s.len() as int + 1);
        let upto = full.subrange(0, s.len() as int + 1);
        assert(upto =~= s.push('/'));
        lemma_no_slash(s);
        lemma_place_found(full, s.len() as int);
        assert(full.take(s.len() as int) =~= s);
        assert(full.skip(s.len() as int + 1) =~= name);
        assert(split_path(name) =~= seq![name]) by {
            lemma_absent(name, 0);
        }
        assert(split_path(s) =~= seq![s]);
        assert(split_path(full) =~= split_path(s).push(name));
    }
}

proof fn lemma_no_slash(s: Seq<char>)
    requires
        place_of(s, '/', 0) >= s.len(),
    ensures
        forall|i: int| 0 <= i < s.len() ==> s[i] != '/',
{
    lemma_before_place(s, 0);
}

/// Before the place of a character there is no such character.
proof fn lemma_before_place(s: Seq<char>, from: int)
    requires
        0 <= from <= s.len(),
    ensures
        place_of(s, '/', from) <= s.len(),
        forall|i: int| from <= i < place_of(s, '/', from) ==> s[i] != '/',
    decreases s.len() - from,
{
    if from < s.len() && s[from] != '/' {
        lemma_before_place(s, from + 1);
    }
}

proof fn lemma_place_found(s: Seq<char>, at: int)
    requires
        0 <= at < s.len(),
        s[at] == '/',
        forall|i: int| 0 <= i < at ==> s[i] != '/',
    ensures
        place_of(s, '/', 0) == at,
{
    lemma_before_place(s, 0);
    lemma_place_cut(s, '/', 0, s.len() as int);
    let p = place_of(s, '/', 0);
    if p < at {
        lemma_place_is(s, 0);
    }
}

/// At the place of a character, if it is not the end, stands the character.
proof fn lemma_place_is(s: Seq<char>, from: int)
    requires
        0 <= from <= s.len(),
    ensures
        place_of(s, '/', from) < s.len() ==> s[place_of(s, '/', from)] == '/',
        from <= place_of(s, '/', from) <= s.len(),
    decreases s.len() - from,
{
    if from < s.len() && s[from] != '/' {
        lemma_place_is(s, from + 1);
    }
}

proof fn lemma_absent(s: Seq<char>, from: int)
    requires
        !s.contains('/'),
        0 <= from <= s.len(),
    ensures
        place_of(s, '/', from) == s.len(),
    decreases s.len() - from,
{
    if from < s.len() {
        assert(s.contains(s[from]));
        lemma_absent(s, from + 1);
    }
}

/// Descending into a directory gives what its path gives: entering `name` from
/// the level of a path is the level of that path with `name` behind it. The
/// path is the root directory, or does not end in a slash.
pub proof fn entering_follows_the_path(
    root: Level,
    everywhere: Level,
    path: Seq<char>,
    name: Seq<char>,
    hits: Seq<(Seq<char>, Seq<char>)>,
)
    requires
        all_slashes(path) || path.last() != '/',
        name.len() > 0,
        !name.contains('/'),
    ensures
        level_at(root, everywhere, path_components(path + seq!['/'] + name), hits) == enter_level(
            level_at(root, everywhere, path_components(path), hits),
            everywhere,
            name,
            hits,
        ),
{
    let full = path + seq!['/'] + name;
    assert(name.contains(name[0]));
    assert(name.contains(name.last()));
    assert(full.last() == name.last());
    let names = path_components(full);
    if all_slashes(path) {
        lemma_all_leading(path, name);
        assert(full.skip(path.len() + 1 as int) =~= name);
        assert(name.take(name.len() as int) =~= name);
        assert(trimmed(full) == name);
        lemma_absent(name, 0);
        assert(names =~= seq![name]);
        lemma_all_slashes_leading(path);
        assert(trimmed(path).len() == 0);
    } else {
        let n = leading_slashes(path);
        lemma_some_leading(path, name);
        let t = path.skip(n);
        let u = t + seq!['/'] + name;
        assert(full.skip(n) =~= u);
        assert(u.last() == name.last());
        assert(u.take(u.len() as int) =~= u);
        assert(t.last() == path.last());
        assert(t.take(t.len() as int) =~= t);
        assert(trimmed(full) == u);
        assert(trimmed(path) == t);
        lemma_split_push(t, name);
    }
    assert(names.drop_last() =~= path_components(path));
    assert(names.last() == name);
}

proof fn lemma_all_slashes_leading(s: Seq<char>)
    requires
        all_slashes(s),
    ensures
        leading_slashes(s) == s.len(),
    decreases s.len(),
{
    if s.len() > 0 {
        assert(s[0] == '/');
        assert forall|i: int| 0 <= i < s.skip(1).len() implies #[trigger] s.skip(1)[i] == '/' by {
            assert(s.skip(1)[i] == s[i + 1]);
        }
        lemma_all_slashes_leading(s.skip(1));
    }
}

proof fn lemma_all_leading(path: Seq<char>, name: Seq<char>)
    requires
        all_slashes(path),
        name.len() > 0,
        name[0] != '/',
    ensures
        leading_slashes(path + seq!['/'] + name) == path.len() + 1,
    decreases path.len(),
{
    let full = path + seq!['/'] + name;
    if path.len() == 0 {
        assert(full.skip(1) =~= name);
        assert(leading_slashes(name) == 0);
    } else {
        assert(path[0] == '/');
        assert forall|i: int| 0 <= i < path.skip(1).len() implies #[trigger] path.skip(1)[i]
            == '/' by {
            assert(path.skip(1)[i] == path[i + 1]);
        }
        assert(full.skip(1) =~= path.skip(1) + seq!['/'] + name);
        lemma_all_leading(path.skip(1), name);
    }
}

proof fn lemma_some_leading(path: Seq<char>, name: Seq<char>)
    requires
        !all_slashes(path),
    ensures
        leading_slashes(path + seq!['/'] + name) == leading_slashes(path),
        0 <= leading_slashes(path) < path.len(),
    decreases path.len(),
{
    let full = path + seq!['/'] + name;
    if path[0] == '/' {
        let rest = path.skip(1);
        let i = choose|i: int| 0 <= i < path.len() && #[trigger] path[i] != '/';
        assert(rest[i - 1] != '/');
        assert(full.skip(1) =~= rest + seq!['/'] + name);
        lemma_some_leading(rest, name);
    }
}

} // verus!
