//! What exclude patterns mean, from the text of the pattern to the entry.

use vstd::prelude::*;

use crate::exclude::{
    all_slashes, leading_slashes, level_at, list_uses, literal, part, part_matches, parts,
    path_components, pattern_parts, sorted_out, split_path, trailing_slashes, trimmed, uses_glob,
    verdict, with_pattern, Level, Part,
};
use crate::exclude_laws::{
    covers, in_level, last_names, path_excluded, patterns_exclude_paths,
};
use crate::text::place_of;

verus! {

/// The names hold no slashes, and neither the first nor the last one is empty.
pub open spec fn all_components(names: Seq<Seq<char>>) -> bool {
    &&& forall|i: int| 0 <= i < names.len() ==> !(#[trigger] names[i]).contains('/')
    &&& names.len() > 0 ==> names[0].len() > 0 && names.last().len() > 0
}

/// The names hold no slashes, and the last one is not empty.
spec fn rest_components(names: Seq<Seq<char>>) -> bool {
    &&& forall|i: int| 0 <= i < names.len() ==> !(#[trigger] names[i]).contains('/')
    &&& names.len() > 0 ==> names.last().len() > 0
}

/// The names with a slash between any two.
pub open spec fn with_slashes(names: Seq<Seq<char>>) -> Seq<char>
    decreases names.len(),
{
    if names.len() == 0 {
        Seq::empty()
    } else if names.len() == 1 {
        names[0]
    } else {
        names[0] + seq!['/'] + with_slashes(names.skip(1))
    }
}

pub open spec fn slashes(n: nat) -> Seq<char> {
    Seq::new(n, |i: int| '/')
}

/// A star, a question mark, a bracket or a backslash makes a glob.
pub open spec fn has_wildcard(s: Seq<char>) -> bool {
    s.contains('*') || s.contains('?') || s.contains('[') || s.contains('\\')
}

/// What the C library makes of a text: nothing if there is a NUL in it.
pub open spec fn without_nul(s: Seq<char>) -> Seq<char> {
    if s.contains('\0') {
        Seq::empty()
    } else {
        s
    }
}

/// A component of a pattern matches a name: a glob exactly if `fnmatch` says so
/// of the two, and any other text exactly if it is the name. No name with a NUL
/// in it is matched.
pub open spec fn fits(
    glob: Seq<char>,
    name: Seq<char>,
    hits: Seq<(Seq<char>, Seq<char>)>,
) -> bool {
    &&& !name.contains('\0')
    &&& has_wildcard(glob) ==> hits.contains((without_nul(glob), name))
    &&& !has_wildcard(glob) ==> without_nul(glob) == name
}

/// The components match the last names of a path, one by one.
pub open spec fn fits_end(
    globs: Seq<Seq<char>>,
    path: Seq<Seq<char>>,
    hits: Seq<(Seq<char>, Seq<char>)>,
) -> bool {
    &&& globs.len() <= path.len()
    &&& forall|i: int|
        0 <= i < globs.len() ==> fits(
            #[trigger] globs[i],
            path[path.len() - globs.len() + i],
            hits,
        )
}

/// The components of a pattern, each a directory but for the last.
spec fn parts_of(globs: Seq<Seq<char>>, dir_only: bool) -> Seq<Part> {
    Seq::new(globs.len(), |i: int| part(globs[i], dir_only || i < globs.len() - 1))
}

proof fn lemma_place(s: Seq<char>, from: int, at: int)
    requires
        0 <= from <= at <= s.len(),
        at < s.len() ==> s[at] == '/',
        forall|i: int| from <= i < at ==> s[i] != '/',
    ensures
        place_of(s, '/', from) == at,
    decreases at - from,
{
    if from < at {
        lemma_place(s, from + 1, at);
    }
}

proof fn lemma_no_slash(s: Seq<char>)
    requires
        !s.contains('/'),
    ensures
        forall|i: int| 0 <= i < s.len() ==> s[i] != '/',
{
    assert forall|i: int| 0 <= i < s.len() implies s[i] != '/' by {
        assert(s.contains(s[i]));
    }
}

proof fn lemma_skip_components(names: Seq<Seq<char>>)
    requires
        rest_components(names),
        names.len() > 1,
    ensures
        rest_components(names.skip(1)),
{
    assert forall|i: int| 0 <= i < names.skip(1).len() implies !(
    #[trigger] names.skip(1)[i]).contains('/') by {
        assert(names.skip(1)[i] == names[i + 1]);
    }
    assert(names.skip(1).last() == names.last());
}

/// The text ends in a character of the last name.
proof fn lemma_ends(names: Seq<Seq<char>>)
    requires
        rest_components(names),
        names.len() > 0,
    ensures
        with_slashes(names).len() > 0,
        with_slashes(names).last() != '/',
    decreases names.len(),
{
    assert(!names[names.len() - 1].contains('/'));
    lemma_no_slash(names.last());
    if names.len() > 1 {
        lemma_skip_components(names);
        lemma_ends(names.skip(1));
        let rest = with_slashes(names.skip(1));
        assert(with_slashes(names).last() == rest.last());
    }
}

/// The text starts with a character of the first name.
proof fn lemma_starts(names: Seq<Seq<char>>)
    requires
        all_components(names),
        names.len() > 0,
    ensures
        with_slashes(names).len() > 0,
        with_slashes(names)[0] != '/',
        with_slashes(names).last() != '/',
        rest_components(names),
{
    assert(!names[0].contains('/'));
    lemma_no_slash(names[0]);
    lemma_ends(names);
    assert(with_slashes(names)[0] == names[0][0]);
}

proof fn lemma_parts(globs: Seq<Seq<char>>, trail: nat)
    requires
        rest_components(globs),
        globs.len() > 0,
    ensures
        parts(with_slashes(globs) + slashes(trail)) == parts_of(globs, trail > 0),
    decreases globs.len(),
{
    let s = with_slashes(globs) + slashes(trail);
    let first = globs[0];
    assert(!first.contains('/'));
    lemma_no_slash(first);
    let n = first.len() as int;
    assert forall|i: int| 0 <= i < n implies s[i] == first[i] by {}
    lemma_place(s, 0, n);
    assert(s.take(n) =~= first);
    if globs.len() == 1 {
        if trail > 0 {
            assert(s.skip(n + 1) =~= slashes((trail - 1) as nat));
            assert(all_slashes(s.skip(n + 1)));
        } else {
            assert(s =~= first);
        }
        assert(parts(s) =~= parts_of(globs, trail > 0));
    } else {
        let rest = globs.skip(1);
        lemma_skip_components(globs);
        lemma_ends(rest);
        let below = with_slashes(rest) + slashes(trail);
        assert(s.skip(n + 1) =~= below);
        assert(!all_slashes(below)) by {
            let last = with_slashes(rest).len() - 1;
            assert(below[last] == with_slashes(rest)[last]);
        }
        lemma_parts(rest, trail);
        assert(parts(s) =~= seq![part(first, true)] + parts_of(rest, trail > 0));
        assert(seq![part(first, true)] + parts_of(rest, trail > 0) =~= parts_of(globs, trail > 0));
    }
}

proof fn lemma_leading(n: nat, s: Seq<char>)
    requires
        s.len() > 0 ==> s[0] != '/',
    ensures
        leading_slashes(slashes(n) + s) == n,
        (slashes(n) + s).skip(n as int) == s,
    decreases n,
{
    let all = slashes(n) + s;
    assert(all.skip(n as int) =~= s);
    if n > 0 {
        assert(all[0] == '/');
        assert(all.skip(1) =~= slashes((n - 1) as nat) + s);
        lemma_leading((n - 1) as nat, s);
    } else {
        assert(all =~= s);
    }
}

proof fn lemma_trailing(s: Seq<char>, n: nat)
    requires
        s.len() > 0 ==> s.last() != '/',
    ensures
        trailing_slashes(s + slashes(n)) == n,
    decreases n,
{
    let all = s + slashes(n);
    if n > 0 {
        assert(all.last() == '/');
        assert(all.drop_last() =~= s + slashes((n - 1) as nat));
        lemma_trailing(s, (n - 1) as nat);
    } else {
        assert(all =~= s);
    }
}

proof fn lemma_pattern_parts(lead: nat, globs: Seq<Seq<char>>, trail: nat)
    requires
        all_components(globs),
        globs.len() > 0,
    ensures
        pattern_parts(slashes(lead) + with_slashes(globs) + slashes(trail)) == parts_of(
            globs,
            trail > 0,
        ),
{
    let body = with_slashes(globs) + slashes(trail);
    lemma_starts(globs);
    assert(slashes(lead) + with_slashes(globs) + slashes(trail) =~= slashes(lead) + body);
    assert(body[0] == with_slashes(globs)[0]);
    lemma_leading(lead, body);
    lemma_parts(globs, trail);
}

proof fn lemma_literal(s: Seq<char>)
    ensures
        literal(s) <==> !has_wildcard(s),
{
    if has_wildcard(s) {
        let i = choose|i: int|
            0 <= i < s.len() && (s[i] == '*' || s[i] == '?' || s[i] == '[' || s[i] == '\\');
        assert(crate::exclude::is_wildcard(s[i]));
    }
    if !literal(s) {
        let i = choose|i: int| 0 <= i < s.len() && crate::exclude::is_wildcard(#[trigger] s[i]);
        assert(s.contains(s[i]));
    }
}

proof fn lemma_fits(
    glob: Seq<char>,
    isdir: bool,
    name: Seq<char>,
    hits: Seq<(Seq<char>, Seq<char>)>,
)
    ensures
        part_matches(part(glob, isdir), name, hits) <==> fits(glob, name, hits),
{
    lemma_literal(glob);
}

proof fn lemma_covers(
    globs: Seq<Seq<char>>,
    dir_only: bool,
    names: Seq<Seq<char>>,
    hits: Seq<(Seq<char>, Seq<char>)>,
)
    requires
        globs.len() == names.len(),
    ensures
        covers(parts_of(globs, dir_only), names, hits) <==> fits_end(globs, names, hits),
{
    let c = parts_of(globs, dir_only);
    if covers(c, names, hits) {
        assert forall|i: int| 0 <= i < globs.len() implies fits(
            #[trigger] globs[i],
            names[names.len() - globs.len() + i],
            hits,
        ) by {
            assert(part_matches(c[i], names[i], hits));
            lemma_fits(globs[i], dir_only || i < globs.len() - 1, names[i], hits);
        }
    }
    if fits_end(globs, names, hits) {
        assert forall|i: int| 0 <= i < c.len() implies part_matches(
            #[trigger] c[i],
            names[i],
            hits,
        ) by {
            assert(fits(globs[i], names[names.len() - globs.len() + i], hits));
            lemma_fits(globs[i], dir_only || i < globs.len() - 1, names[i], hits);
        }
    }
}

proof fn lemma_with_pattern(l: Level, c: Seq<Part>)
    requires
        sorted_out(l),
        c.len() > 0,
    ensures
        sorted_out(with_pattern(l, c)),
        forall|x: Seq<Part>| #[trigger]
            in_level(with_pattern(l, c), x) <==> in_level(l, x) || x == c,
{
    let m = with_pattern(l, c);
    assert forall|x: Seq<Part>| #[trigger] in_level(m, x) <==> in_level(l, x) || x == c by {
        lemma_push_contains(l.leaf, c, x);
        lemma_push_contains(l.branch, c, x);
    }
}

proof fn lemma_push_contains(list: Seq<Seq<Part>>, c: Seq<Part>, x: Seq<Part>)
    ensures
        list.push(c).contains(x) <==> list.contains(x) || x == c,
{
    let more = list.push(c);
    assert(more[list.len() as int] == c);
    if list.contains(x) {
        let i = choose|i: int| 0 <= i < list.len() && list[i] == x;
        assert(more[i] == x);
    }
    if more.contains(x) {
        let i = choose|i: int| 0 <= i < more.len() && more[i] == x;
        if i < list.len() {
            assert(list[i] == x);
        }
    }
}

/// What the patterns say of the entry `name` of the directory behind `names`.
pub open spec fn says(
    root: Level,
    everywhere: Level,
    names: Seq<Seq<char>>,
    name: Seq<char>,
    hits: Seq<(Seq<char>, Seq<char>)>,
) -> Option<bool> {
    verdict(level_at(root, everywhere, names, hits).leaf + everywhere.leaf, name, hits)
}

/// What one more pattern adds: an entry is excluded whatever it is if the
/// pattern does not end in a slash, and as a directory if it does, and nothing
/// changes for what the pattern does not match.
pub open spec fn with_match(old: Option<bool>, matched: bool, dir_only: bool) -> Option<bool> {
    if !matched {
        old
    } else if !dir_only {
        Some(false)
    } else if old is None {
        Some(true)
    } else {
        old
    }
}

/// An unanchored pattern excludes exactly the entries whose paths end in names
/// that its components match, one by one, at any depth. A single component with
/// a wildcard thus excludes a name exactly if `fnmatch` says that it matches,
/// whatever the name starts with.
pub proof fn unanchored_patterns_match_the_end_of_paths(
    root: Level,
    everywhere: Level,
    globs: Seq<Seq<char>>,
    trail: nat,
    names: Seq<Seq<char>>,
    name: Seq<char>,
    hits: Seq<(Seq<char>, Seq<char>)>,
)
    requires
        sorted_out(root),
        sorted_out(everywhere),
        all_components(globs),
        globs.len() > 0,
    ensures
        ({
            let text = with_slashes(globs) + slashes(trail);
            let more = with_pattern(everywhere, pattern_parts(text));
            &&& text.len() > 0
            &&& text[0] != '/'
            &&& says(root, more, names, name, hits) == with_match(
                says(root, everywhere, names, name, hits),
                fits_end(globs, names.push(name), hits),
                trail > 0,
            )
        }),
{
    let text = with_slashes(globs) + slashes(trail);
    let c = parts_of(globs, trail > 0);
    let more = with_pattern(everywhere, pattern_parts(text));
    let full = names.push(name);
    lemma_starts(globs);
    lemma_pattern_parts(0, globs, trail);
    assert(slashes(0) + with_slashes(globs) + slashes(trail) =~= text);
    lemma_with_pattern(everywhere, c);
    patterns_exclude_paths(root, everywhere, names, name, hits);
    patterns_exclude_paths(root, more, names, name, hits);
    assert(c.last().isdir == (trail > 0));
    if c.len() <= full.len() {
        let last = last_names(full, c.len());
        lemma_covers(globs, trail > 0, last, hits);
        assert(fits_end(globs, last, hits) <==> fits_end(globs, full, hits)) by {
            if fits_end(globs, last, hits) {
                assert forall|i: int| 0 <= i < globs.len() implies fits(
                    #[trigger] globs[i],
                    full[full.len() - globs.len() + i],
                    hits,
                ) by {
                    assert(last[i] == full[full.len() - globs.len() + i]);
                    assert(fits(globs[i], last[last.len() - globs.len() + i], hits));
                }
            }
            if fits_end(globs, full, hits) {
                assert forall|i: int| 0 <= i < globs.len() implies fits(
                    #[trigger] globs[i],
                    last[last.len() - globs.len() + i],
                    hits,
                ) by {
                    assert(last[i] == full[full.len() - globs.len() + i]);
                }
            }
        }
    }
    let matched = fits_end(globs, full, hits);
    assert forall|isdir: bool| #[trigger]
        path_excluded(root, more, full, hits, isdir) <==> path_excluded(
            root,
            everywhere,
            full,
            hits,
            isdir,
        ) || (matched && isdir == (trail > 0)) by {
        if path_excluded(root, everywhere, full, hits, isdir) && !(exists|x: Seq<Part>|
            in_level(root, x) && x.last().isdir == isdir && #[trigger] covers(x, full, hits)) {
            let x = choose|x: Seq<Part>|
                #![trigger x.last()]
                in_level(everywhere, x) && x.last().isdir == isdir && x.len() <= full.len()
                    && covers(x, last_names(full, x.len()), hits);
            assert(in_level(more, x));
            assert(x.last().isdir == isdir);
        }
        if matched && isdir == (trail > 0) {
            assert(in_level(more, c));
            assert(c.last().isdir == isdir);
        }
        if path_excluded(root, more, full, hits, isdir) && !(exists|x: Seq<Part>|
            in_level(root, x) && x.last().isdir == isdir && #[trigger] covers(x, full, hits)) {
            let x = choose|x: Seq<Part>|
                #![trigger x.last()]
                in_level(more, x) && x.last().isdir == isdir && x.len() <= full.len() && covers(
                    x,
                    last_names(full, x.len()),
                    hits,
                );
            if x != c {
                assert(in_level(everywhere, x));
                assert(x.last().isdir == isdir);
            }
        }
    }
    assert(path_excluded(root, more, full, hits, false) || true);
    assert(path_excluded(root, more, full, hits, true) || true);
}

/// A pattern that starts with a slash excludes exactly the entries whose whole
/// paths, from the root directory on, its components match, one by one.
pub proof fn anchored_patterns_match_whole_paths(
    root: Level,
    everywhere: Level,
    lead: nat,
    globs: Seq<Seq<char>>,
    trail: nat,
    names: Seq<Seq<char>>,
    name: Seq<char>,
    hits: Seq<(Seq<char>, Seq<char>)>,
)
    requires
        sorted_out(root),
        sorted_out(everywhere),
        lead > 0,
        all_components(globs),
        globs.len() > 0,
    ensures
        ({
            let text = slashes(lead) + with_slashes(globs) + slashes(trail);
            let more = with_pattern(root, pattern_parts(text));
            &&& text.len() > 0
            &&& text[0] == '/'
            &&& says(more, everywhere, names, name, hits) == with_match(
                says(root, everywhere, names, name, hits),
                globs.len() == names.len() + 1 && fits_end(globs, names.push(name), hits),
                trail > 0,
            )
        }),
{
    let text = slashes(lead) + with_slashes(globs) + slashes(trail);
    let c = parts_of(globs, trail > 0);
    let more = with_pattern(root, pattern_parts(text));
    let full = names.push(name);
    lemma_pattern_parts(lead, globs, trail);
    lemma_with_pattern(root, c);
    patterns_exclude_paths(root, everywhere, names, name, hits);
    patterns_exclude_paths(more, everywhere, names, name, hits);
    assert(c.last().isdir == (trail > 0));
    assert(text[0] == slashes(lead)[0]);
    if globs.len() == full.len() {
        lemma_covers(globs, trail > 0, full, hits);
    }
    let matched = globs.len() == full.len() && fits_end(globs, full, hits);
    assert(matched <==> covers(c, full, hits));
    assert forall|isdir: bool| #[trigger]
        path_excluded(more, everywhere, full, hits, isdir) <==> path_excluded(
            root,
            everywhere,
            full,
            hits,
            isdir,
        ) || (matched && isdir == (trail > 0)) by {
        if exists|x: Seq<Part>|
            in_level(root, x) && x.last().isdir == isdir && #[trigger] covers(x, full, hits) {
            let x = choose|x: Seq<Part>|
                in_level(root, x) && x.last().isdir == isdir && #[trigger] covers(x, full, hits);
            assert(in_level(more, x));
        }
        if matched && isdir == (trail > 0) {
            assert(in_level(more, c));
            assert(covers(c, full, hits));
        }
        if exists|x: Seq<Part>|
            in_level(more, x) && x.last().isdir == isdir && #[trigger] covers(x, full, hits) {
            let x = choose|x: Seq<Part>|
                in_level(more, x) && x.last().isdir == isdir && #[trigger] covers(x, full, hits);
            if x != c {
                assert(in_level(root, x));
            }
        }
    }
    assert(path_excluded(more, everywhere, full, hits, false) || true);
    assert(path_excluded(more, everywhere, full, hits, true) || true);
}

/// Without patterns nothing is excluded.
pub proof fn nothing_is_excluded_without_patterns(
    names: Seq<Seq<char>>,
    name: Seq<char>,
    hits: Seq<(Seq<char>, Seq<char>)>,
)
    ensures
        ({
            let none = Level { leaf: Seq::empty(), branch: Seq::empty() };
            says(none, none, names, name, hits) is None
        }),
{
    let none = Level { leaf: Seq::empty(), branch: Seq::empty() };
    let full = names.push(name);
    patterns_exclude_paths(none, none, names, name, hits);
    assert forall|c: Seq<Part>| !in_level(none, c) by {}
    assert forall|isdir: bool| !#[trigger] path_excluded(none, none, full, hits, isdir) by {}
    assert(!path_excluded(none, none, full, hits, false));
    assert(!path_excluded(none, none, full, hits, true));
}

proof fn lemma_split(names: Seq<Seq<char>>)
    requires
        rest_components(names),
        names.len() > 0,
    ensures
        split_path(with_slashes(names)) == names,
    decreases names.len(),
{
    let s = with_slashes(names);
    let first = names[0];
    assert(!first.contains('/'));
    lemma_no_slash(first);
    let n = first.len() as int;
    assert forall|i: int| 0 <= i < n implies s[i] == first[i] by {}
    lemma_place(s, 0, n);
    assert(s.take(n) =~= first);
    if names.len() == 1 {
        assert(split_path(s) =~= names);
    } else {
        lemma_skip_components(names);
        assert(s.skip(n + 1) =~= with_slashes(names.skip(1)));
        lemma_split(names.skip(1));
        assert(split_path(s) =~= names);
    }
}

/// A path goes through the names between its slashes. Slashes at either end do
/// not count.
pub proof fn paths_go_through_their_names(lead: nat, names: Seq<Seq<char>>, trail: nat)
    requires
        all_components(names),
    ensures
        names.len() > 0 ==> path_components(slashes(lead) + with_slashes(names) + slashes(trail))
            == names,
        path_components(slashes(lead)).len() == 0,
{
    if names.len() > 0 {
        let path = slashes(lead) + with_slashes(names) + slashes(trail);
        let body = with_slashes(names) + slashes(trail);
        lemma_starts(names);
        assert(path =~= slashes(lead) + body);
        assert(body[0] == with_slashes(names)[0]);
        lemma_leading(lead, body);
        lemma_trailing(with_slashes(names), trail);
        assert(trimmed(path) =~= with_slashes(names));
        lemma_split(names);
    }
    let none = Seq::<char>::empty();
    lemma_leading(lead, none);
    assert(slashes(lead) + none =~= slashes(lead));
    assert(trimmed(slashes(lead)).len() == 0);
}

/// A set with no other pattern than one without slashes says of a name what the
/// pattern says, wherever the name stands: a pattern with a wildcard excludes it
/// exactly if `fnmatch` says that the two match, and any other exactly if it is
/// the name.
pub proof fn single_patterns_match_names(
    pattern: Seq<char>,
    names: Seq<Seq<char>>,
    name: Seq<char>,
    hits: Seq<(Seq<char>, Seq<char>)>,
)
    requires
        pattern.len() > 0,
        !pattern.contains('/'),
        !pattern.contains('\0'),
        !name.contains('\0'),
    ensures
        ({
            let none = Level { leaf: Seq::empty(), branch: Seq::empty() };
            let only = with_pattern(none, pattern_parts(pattern));
            let wild = pattern.contains('*') || pattern.contains('?') || pattern.contains('[')
                || pattern.contains('\\');
            let r = verdict(level_at(none, only, names, hits).leaf + only.leaf, name, hits);
            &&& wild && hits.contains((pattern, name)) ==> r == Some(false)
            &&& wild && !hits.contains((pattern, name)) ==> r is None
            &&& !wild && name == pattern ==> r == Some(false)
            &&& !wild && name != pattern ==> r is None
        }),
{
    let none = Level { leaf: Seq::empty(), branch: Seq::empty() };
    let globs = seq![pattern];
    let full = names.push(name);
    assert(globs[0] == pattern);
    assert(all_components(globs));
    assert(with_slashes(globs) + slashes(0) =~= pattern);
    unanchored_patterns_match_the_end_of_paths(none, none, globs, 0, names, name, hits);
    nothing_is_excluded_without_patterns(names, name, hits);
    assert(full[full.len() - 1] == name);
    assert(fits_end(globs, full, hits) <==> fits(pattern, name, hits)) by {
        if fits_end(globs, full, hits) {
            assert(fits(globs[0], full[full.len() - globs.len() + 0], hits));
        }
    }
}

/// The globs of a set are the components with a wildcard of the patterns that
/// were added to it.
pub proof fn globs_are_components_with_wildcards(
    l: Level,
    lead: nat,
    globs: Seq<Seq<char>>,
    trail: nat,
    g: Seq<char>,
)
    requires
        all_components(globs),
        globs.len() > 0,
        forall|i: int| 0 <= i < globs.len() ==> !(#[trigger] globs[i]).contains('\0'),
    ensures
        ({
            let text = slashes(lead) + with_slashes(globs) + slashes(trail);
            let more = with_pattern(l, pattern_parts(text));
            list_uses(more.leaf, g) || list_uses(more.branch, g) <==> list_uses(l.leaf, g)
                || list_uses(l.branch, g) || (globs.contains(g) && has_wildcard(g))
        }),
{
    let text = slashes(lead) + with_slashes(globs) + slashes(trail);
    let c = parts_of(globs, trail > 0);
    lemma_pattern_parts(lead, globs, trail);
    lemma_uses_push(l.leaf, c, g);
    lemma_uses_push(l.branch, c, g);
    if globs.contains(g) && has_wildcard(g) {
        let i = choose|i: int| 0 <= i < globs.len() && globs[i] == g;
        lemma_literal(g);
        assert(!globs[i].contains('\0'));
        assert(!c[i].literal && c[i].text == g);
    }
    if uses_glob(c, g) {
        let i = choose|i: int| 0 <= i < c.len() && !(#[trigger] c[i]).literal && c[i].text == g;
        lemma_literal(globs[i]);
        assert(!globs[i].contains('\0'));
        assert(globs.contains(globs[i]));
    }
}

proof fn lemma_uses_push(list: Seq<Seq<Part>>, c: Seq<Part>, g: Seq<char>)
    ensures
        list_uses(list.push(c), g) <==> list_uses(list, g) || uses_glob(c, g),
{
    let more = list.push(c);
    assert(more[list.len() as int] == c);
    if list_uses(list, g) {
        let i = choose|i: int| 0 <= i < list.len() && uses_glob(#[trigger] list[i], g);
        assert(more[i] == list[i]);
    }
    if list_uses(more, g) {
        let i = choose|i: int| 0 <= i < more.len() && uses_glob(#[trigger] more[i], g);
        if i < list.len() {
            assert(list[i] == more[i]);
        }
    }
}

} // verus!
