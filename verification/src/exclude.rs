//! Exclude-pattern matcher.
//!
//! - `*`, `?`, `[abc]`, `[a-c]`, `[!abc]` match within one path component
//! - Anchored patterns start with `/` and are matched against absolute paths
//! - Unanchored patterns can match at any path level
//! - Trailing `/` makes a pattern dir-only
//!
//! Whether a glob matches a name is asked of the C library by the program.
//! Its answers come in as [`GlobHits`].

use vstd::prelude::*;

use crate::text::{
    chars_of, find_char, lemma_place_cut, lemma_place_skip, place_of, same_text, text_between,
};

verus! {

/// One path component of a pattern. Multi-component patterns ("a/b/c") form
/// a singly-linked chain via `sub`.
#[derive(Debug)]
pub struct Pattern {
    pub pattern: String,
    pub isdir: bool,
    pub isliteral: bool,
    pub sub: Option<Box<Pattern>>,
}

/// One path component of a pattern.
pub struct Part {
    pub text: Seq<char>,
    /// Only directories match.
    pub isdir: bool,
    /// Only the text itself matches.
    pub literal: bool,
}

/// The components of a pattern, outermost first.
pub open spec fn components(p: Pattern) -> Seq<Part>
    decreases p,
{
    let first = Part { text: p.pattern@, isdir: p.isdir, literal: p.isliteral };
    match p.sub {
        Some(sub) => seq![first] + components(*sub),
        None => seq![first],
    }
}

proof fn lemma_components(p: Pattern)
    ensures
        components(p).len() >= 1,
        p.sub is Some <==> components(p).len() > 1,
{
    if let Some(sub) = p.sub {
        assert(components(*sub).len() >= 1);
    }
}

impl View for Pattern {
    type V = Seq<Part>;

    open spec fn view(&self) -> Seq<Part> {
        components(*self)
    }
}

pub open spec fn is_wildcard(c: char) -> bool {
    c == '[' || c == '*' || c == '?' || c == '\\'
}

/// No character has a special meaning.
pub open spec fn literal(s: Seq<char>) -> bool {
    forall|i: int| 0 <= i < s.len() ==> !is_wildcard(#[trigger] s[i])
}

/// C strings end at the first NUL, so a component with one in it counts as
/// empty.
pub open spec fn as_c_string(s: Seq<char>) -> Seq<char> {
    if s.contains('\0') {
        Seq::empty()
    } else {
        s
    }
}

pub open spec fn part(text: Seq<char>, isdir: bool) -> Part {
    Part { text: as_c_string(text), isdir, literal: literal(text) }
}

pub open spec fn all_slashes(s: Seq<char>) -> bool {
    forall|i: int| 0 <= i < s.len() ==> #[trigger] s[i] == '/'
}

/// The components of a pattern that does not start with a slash. A slash after
/// a component makes it dir-only, and slashes at the end name no component.
pub open spec fn parts(s: Seq<char>) -> Seq<Part>
    decreases s.len(),
{
    let i = place_of(s, '/', 0);
    if 0 <= i < s.len() {
        let rest = s.skip(i + 1);
        if all_slashes(rest) {
            seq![part(s.take(i), true)]
        } else {
            seq![part(s.take(i), true)] + parts(rest)
        }
    } else {
        seq![part(s, false)]
    }
}

/// The number of slashes that the text starts with.
pub open spec fn leading_slashes(s: Seq<char>) -> int
    decreases s.len(),
{
    if s.len() > 0 && s[0] == '/' {
        1 + leading_slashes(s.skip(1))
    } else {
        0
    }
}

/// The components of a pattern.
pub open spec fn pattern_parts(s: Seq<char>) -> Seq<Part> {
    parts(s.skip(leading_slashes(s)))
}

fn has_char(chars: &Vec<char>, from: usize, to: usize, c: char) -> (r: bool)
    requires
        from <= to <= chars@.len(),
    ensures
        r == chars@.subrange(from as int, to as int).contains(c),
{
    let ghost s = chars@.subrange(from as int, to as int);
    let mut i: usize = from;
    while i < to
        invariant
            from <= i <= to <= chars@.len(),
            s == chars@.subrange(from as int, to as int),
            forall|j: int| 0 <= j < i - from ==> s[j] != c,
        decreases to - i,
    {
        if chars[i] == c {
            proof {
                assert(s[i - from] == c);
            }
            return true;
        }
        i += 1;
    }
    false
}

fn count_slashes(chars: &Vec<char>) -> (r: usize)
    ensures
        r == leading_slashes(chars@),
        r <= chars@.len(),
{
    let mut i: usize = 0;
    proof {
        assert(chars@.skip(0) =~= chars@);
    }
    while i < chars.len() && chars[i] == '/'
        invariant
            i <= chars@.len(),
            leading_slashes(chars@) == i + leading_slashes(chars@.skip(i as int)),
        decreases chars@.len() - i,
    {
        proof {
            assert(chars@.skip(i as int).skip(1) =~= chars@.skip(i + 1));
        }
        i += 1;
    }
    i
}

impl Pattern {
    /// Whether no character has a special meaning.
    fn is_literal(chars: &Vec<char>, from: usize, to: usize) -> (r: bool)
        requires
            from <= to <= chars@.len(),
        ensures
            r == literal(chars@.subrange(from as int, to as int)),
    {
        let ghost s = chars@.subrange(from as int, to as int);
        let mut i: usize = from;
        while i < to
            invariant
                from <= i <= to <= chars@.len(),
                s == chars@.subrange(from as int, to as int),
                forall|j: int| 0 <= j < i - from ==> !is_wildcard(#[trigger] s[j]),
            decreases to - i,
        {
            let c = chars[i];
            if c == '[' || c == '*' || c == '?' || c == '\\' {
                proof {
                    assert(is_wildcard(s[i - from]));
                }
                return false;
            }
            i += 1;
        }
        true
    }

    fn single(chars: &Vec<char>, from: usize, to: usize, isdir: bool) -> (r: Pattern)
        requires
            from <= to <= chars@.len(),
        ensures
            r@ == seq![part(chars@.subrange(from as int, to as int), isdir)],
            r.sub is None,
    {
        let pattern = if has_char(chars, from, to, '\0') {
            String::new()
        } else {
            text_between(chars, from, to)
        };
        let r = Pattern { pattern, isdir, isliteral: Self::is_literal(chars, from, to), sub: None };
        proof {
            assert(r@ =~= seq![part(chars@.subrange(from as int, to as int), isdir)]);
        }
        r
    }

    fn parse_from(chars: &Vec<char>, from: usize) -> (r: Pattern)
        requires
            from <= chars@.len(),
        ensures
            r@ == parts(chars@.skip(from as int)),
        decreases chars@.len() - from,
    {
        let ghost s = chars@.skip(from as int);
        let slash = find_char(chars, '/', from);
        proof {
            lemma_place_skip(chars@, '/', from as int, from as int);
        }
        if slash < chars.len() {
            let mut head = Self::single(chars, from, slash, true);
            let ghost rest = chars@.skip(slash + 1);
            proof {
                assert(s.take(slash - from) =~= chars@.subrange(from as int, slash as int));
                assert(s.skip(slash - from + 1) =~= rest);
            }
            let mut i: usize = slash + 1;
            while i < chars.len() && chars[i] == '/'
                invariant
                    slash < i <= chars@.len(),
                    forall|j: int| slash < j < i ==> chars@[j] == '/',
                decreases chars@.len() - i,
            {
                i += 1;
            }
            proof {
                if i < chars@.len() {
                    assert(rest[i - slash - 1] != '/');
                } else {
                    assert forall|j: int| 0 <= j < rest.len() implies #[trigger] rest[j] == '/' by {
                        assert(rest[j] == chars@[slash + 1 + j]);
                    }
                }
            }
            if i < chars.len() {
                let sub = Self::parse_from(chars, slash + 1);
                let ghost below = sub@;
                head.sub = Some(Box::new(sub));
                proof {
                    assert(head@ =~= seq![part(s.take(slash - from), true)] + below);
                }
            }
            head
        } else {
            proof {
                assert(s =~= chars@.subrange(from as int, chars@.len() as int));
            }
            Self::single(chars, from, chars.len(), false)
        }
    }

    /// Reads a pattern.
    pub fn parse(pat: &str) -> (r: Pattern)
        ensures
            r@ == pattern_parts(pat@),
    {
        let chars = chars_of(pat);
        // Leading slashes only; a trailing slash conveys dir-only and stays.
        let from = count_slashes(&chars);
        Self::parse_from(&chars, from)
    }
}

/// The pairs of a glob and a name that match, as told by the C library's
/// `fnmatch`. Names without an entry do not match.
#[derive(Debug)]
pub struct GlobHits {
    pub pairs: Vec<(String, String)>,
}

impl View for GlobHits {
    type V = Seq<(Seq<char>, Seq<char>)>;

    open spec fn view(&self) -> Seq<(Seq<char>, Seq<char>)> {
        Seq::new(self.pairs@.len(), |i: int| (self.pairs@[i].0@, self.pairs@[i].1@))
    }
}

impl GlobHits {
    pub fn new() -> (r: Self)
        ensures
            r@ == Seq::<(Seq<char>, Seq<char>)>::empty(),
    {
        let r = GlobHits { pairs: Vec::new() };
        proof {
            assert(r@ =~= Seq::<(Seq<char>, Seq<char>)>::empty());
        }
        r
    }

    /// Records that the glob matches the name.
    pub fn add(&mut self, glob: &str, name: &str)
        ensures
            final(self)@ == old(self)@.push((glob@, name@)),
    {
        let ghost before = self@;
        self.pairs.push((glob.to_owned(), name.to_owned()));
        proof {
            assert(self@ =~= before.push((glob@, name@)));
        }
    }

    fn has(&self, glob: &String, name: &str) -> (r: bool)
        ensures
            r == self@.contains((glob@, name@)),
    {
        let mut i: usize = 0;
        while i < self.pairs.len()
            invariant
                i <= self.pairs@.len(),
                forall|j: int| 0 <= j < i ==> self@[j] != (glob@, name@),
            decreases self.pairs@.len() - i,
        {
            let pair = &self.pairs[i];
            if pair.0 == *glob && same_text(&pair.1, name) {
                proof {
                    assert(self@[i as int] == (glob@, name@));
                }
                return true;
            }
            i += 1;
        }
        false
    }
}

/// The component matches a name. A name with a NUL in it matches nothing.
pub open spec fn part_matches(
    p: Part,
    name: Seq<char>,
    hits: Seq<(Seq<char>, Seq<char>)>,
) -> bool {
    &&& !name.contains('\0')
    &&& if p.literal {
        p.text == name
    } else {
        hits.contains((p.text, name))
    }
}

/// What single-component patterns say of a name: `None` if none matches,
/// `Some(false)` if one matches whatever the entry is, and `Some(true)` if
/// only dir-only ones match.
pub open spec fn verdict(
    list: Seq<Seq<Part>>,
    name: Seq<char>,
    hits: Seq<(Seq<char>, Seq<char>)>,
) -> Option<bool> {
    if exists|i: int|
        0 <= i < list.len() && part_matches((#[trigger] list[i])[0], name, hits)
            && !list[i][0].isdir {
        Some(false)
    } else if exists|i: int|
        0 <= i < list.len() && part_matches((#[trigger] list[i])[0], name, hits) {
        Some(true)
    } else {
        None
    }
}

proof fn lemma_verdict_push(
    list: Seq<Seq<Part>>,
    c: Seq<Part>,
    name: Seq<char>,
    hits: Seq<(Seq<char>, Seq<char>)>,
)
    ensures
        verdict(list.push(c), name, hits) == (if verdict(list, name, hits) == Some(false)
            || !part_matches(c[0], name, hits) {
            verdict(list, name, hits)
        } else {
            Some(c[0].isdir)
        }),
{
    let more = list.push(c);
    assert(more[list.len() as int] == c);
    assert forall|i: int| 0 <= i < list.len() implies more[i] == #[trigger] list[i] by {}
    if verdict(list, name, hits) == Some(false) {
        let i = choose|i: int|
            0 <= i < list.len() && part_matches((#[trigger] list[i])[0], name, hits)
                && !list[i][0].isdir;
        assert(more[i] == list[i]);
    } else if verdict(list, name, hits) == Some(true) {
        let i = choose|i: int|
            0 <= i < list.len() && part_matches((#[trigger] list[i])[0], name, hits);
        assert(more[i] == list[i]);
    }
}

/// Nothing outweighs a match whatever the entry is.
proof fn lemma_verdict_stays(
    list: Seq<Seq<Part>>,
    n: int,
    name: Seq<char>,
    hits: Seq<(Seq<char>, Seq<char>)>,
)
    requires
        0 <= n <= list.len(),
        verdict(list.take(n), name, hits) == Some(false),
    ensures
        verdict(list, name, hits) == Some(false),
{
    let front = list.take(n);
    let i = choose|i: int|
        0 <= i < front.len() && part_matches((#[trigger] front[i])[0], name, hits)
            && !front[i][0].isdir;
    assert(list[i] == front[i]);
}

proof fn lemma_verdict_concat(
    a: Seq<Seq<Part>>,
    b: Seq<Seq<Part>>,
    name: Seq<char>,
    hits: Seq<(Seq<char>, Seq<char>)>,
)
    ensures
        verdict(a + b, name, hits) == (if verdict(a, name, hits) == Some(false) || verdict(
            b,
            name,
            hits,
        ) is None {
            verdict(a, name, hits)
        } else if verdict(b, name, hits) == Some(false) || verdict(a, name, hits) is None {
            verdict(b, name, hits)
        } else {
            Some(true)
        }),
    decreases b.len(),
{
    if b.len() == 0 {
        assert(a + b =~= a);
    } else {
        lemma_verdict_concat(a, b.drop_last(), name, hits);
        lemma_verdict_push(a + b.drop_last(), b.last(), name, hits);
        lemma_verdict_push(b.drop_last(), b.last(), name, hits);
        assert((a + b.drop_last()).push(b.last()) =~= a + b);
        assert(b.drop_last().push(b.last()) =~= b);
    }
}

/// What is left of the patterns whose first component matches `name`, once
/// `name` has been entered: those with one component left, or, if `deep`,
/// those with more.
pub open spec fn entered(
    list: Seq<Seq<Part>>,
    name: Seq<char>,
    hits: Seq<(Seq<char>, Seq<char>)>,
    deep: bool,
) -> Seq<Seq<Part>>
    decreases list.len(),
{
    if list.len() == 0 {
        Seq::empty()
    } else {
        let front = entered(list.drop_last(), name, hits, deep);
        let c = list.last();
        if part_matches(c[0], name, hits) && c.len() > 1 && deep == (c.len() > 2) {
            front.push(c.skip(1))
        } else {
            front
        }
    }
}

/// The patterns that apply in one directory.
pub struct Level {
    /// Patterns whose last component is matched against the entries.
    pub leaf: Seq<Seq<Part>>,
    /// Patterns whose first component must match a directory to enter.
    pub branch: Seq<Seq<Part>>,
}

pub open spec fn pattern_views(list: Seq<&Pattern>) -> Seq<Seq<Part>> {
    Seq::new(list.len(), |i: int| list[i]@)
}

pub open spec fn owned_views(list: Seq<Pattern>) -> Seq<Seq<Part>> {
    Seq::new(list.len(), |i: int| list[i]@)
}

/// Set of patterns matched at one directory level. Two kinds:
/// - `leaf`: patterns whose match terminates here (file or dir to exclude)
/// - `branch`: patterns that must descend into a matching subdir before applying
#[derive(Debug)]
pub struct Patterns<'a> {
    pub leaf: Vec<&'a Pattern>,
    pub branch: Vec<&'a Pattern>,
    pub isroot: bool,
}

impl<'a> View for Patterns<'a> {
    type V = Level;

    open spec fn view(&self) -> Level {
        Level { leaf: pattern_views(self.leaf@), branch: pattern_views(self.branch@) }
    }
}

/// Patterns that apply from one directory on.
#[derive(Debug)]
pub struct RootPatterns {
    pub leaf: Vec<Pattern>,
    pub branch: Vec<Pattern>,
}

impl View for RootPatterns {
    type V = Level;

    open spec fn view(&self) -> Level {
        Level { leaf: owned_views(self.leaf@), branch: owned_views(self.branch@) }
    }
}

/// Owns all parsed patterns: those that apply from the root directory on, and
/// those that apply at any level.
#[derive(Debug)]
pub struct ExcludeSet {
    pub root: RootPatterns,
    pub root_unanchored: RootPatterns,
}

/// The patterns have as many components as their list says.
pub open spec fn sorted_out(l: Level) -> bool {
    &&& forall|i: int| 0 <= i < l.leaf.len() ==> (#[trigger] l.leaf[i]).len() == 1
    &&& forall|i: int| 0 <= i < l.branch.len() ==> (#[trigger] l.branch[i]).len() > 1
}

/// Whether the first component of a pattern matches the name.
fn first_matches(p: &Pattern, name: &str, hits: &GlobHits) -> (r: bool)
    requires
        !name@.contains('\0'),
    ensures
        r == part_matches(p@[0], name@, hits@),
{
    if p.isliteral {
        same_text(&p.pattern, name)
    } else {
        hits.has(&p.pattern, name)
    }
}

/// Whether the text holds a NUL.
fn has_nul(name: &str) -> (r: bool)
    ensures
        r == name@.contains('\0'),
{
    let chars = chars_of(name);
    let r = has_char(&chars, 0, chars.len(), '\0');
    proof {
        assert(chars@.subrange(0, chars@.len() as int) =~= name@);
    }
    r
}

/// What the patterns of a list say of a name.
fn match_list(list: &Vec<&Pattern>, name: &str, hits: &GlobHits) -> (r: Option<bool>)
    ensures
        r == verdict(pattern_views(list@), name@, hits@),
{
    if has_nul(name) {
        return None;
    }
    let ghost all = pattern_views(list@);
    let mut ret: Option<bool> = None;
    let mut i: usize = 0;
    while i < list.len()
        invariant
            i <= list@.len(),
            all == pattern_views(list@),
            !name@.contains('\0'),
            ret == verdict(all.take(i as int), name@, hits@),
        decreases list@.len() - i,
    {
        proof {
            lemma_verdict_push(all.take(i as int), list@[i as int]@, name@, hits@);
            assert(all.take(i as int).push(list@[i as int]@) =~= all.take(i + 1));
            assert(all.take(all.len() as int) =~= all);
        }
        // A match whatever the entry is outweighs dir-only ones.
        if let Some(false) = ret {
            proof {
                lemma_verdict_stays(all, i as int, name@, hits@);
            }
            return ret;
        }
        if first_matches(list[i], name, hits) {
            ret = Some(list[i].isdir);
        }
        i += 1;
    }
    proof {
        assert(all.take(all.len() as int) =~= all);
    }
    ret
}

/// Borrows the patterns of a list.
fn borrowed<'a>(list: &'a Vec<Pattern>) -> (r: Vec<&'a Pattern>)
    ensures
        pattern_views(r@) == owned_views(list@),
{
    let mut r: Vec<&'a Pattern> = Vec::new();
    let mut i: usize = 0;
    while i < list.len()
        invariant
            i <= list@.len(),
            r@.len() == i,
            forall|j: int| 0 <= j < i ==> (#[trigger] r@[j])@ == list@[j]@,
        decreases list@.len() - i,
    {
        r.push(&list[i]);
        i += 1;
    }
    proof {
        assert(pattern_views(r@) =~= owned_views(list@));
    }
    r
}

/// The patterns that apply in the directory `name` of a directory in which
/// those of `l` apply. Those of `everywhere` apply at every level.
pub open spec fn enter_level(
    l: Level,
    everywhere: Level,
    name: Seq<char>,
    hits: Seq<(Seq<char>, Seq<char>)>,
) -> Level {
    let list = l.branch + everywhere.branch;
    Level { leaf: entered(list, name, hits, false), branch: entered(list, name, hits, true) }
}

proof fn lemma_entered_push(
    list: Seq<Seq<Part>>,
    c: Seq<Part>,
    name: Seq<char>,
    hits: Seq<(Seq<char>, Seq<char>)>,
    deep: bool,
)
    ensures
        entered(list.push(c), name, hits, deep) == (if part_matches(c[0], name, hits) && c.len() > 1
            && deep == (c.len() > 2) {
            entered(list, name, hits, deep).push(c.skip(1))
        } else {
            entered(list, name, hits, deep)
        }),
{
    assert(list.push(c).drop_last() =~= list);
}

proof fn lemma_entered_nul(
    list: Seq<Seq<Part>>,
    name: Seq<char>,
    hits: Seq<(Seq<char>, Seq<char>)>,
    deep: bool,
)
    requires
        name.contains('\0'),
    ensures
        entered(list, name, hits, deep) == Seq::<Seq<Part>>::empty(),
    decreases list.len(),
{
    if list.len() > 0 {
        lemma_entered_nul(list.drop_last(), name, hits, deep);
    }
}

/// Adds to `out` what is left of the patterns of a list below `name`. Those
/// in `before` have been added already.
fn enter_into<'a>(
    list: &Vec<&'a Pattern>,
    name: &str,
    hits: &GlobHits,
    out: &mut Patterns<'a>,
    Ghost(before): Ghost<Seq<Seq<Part>>>,
)
    requires
        old(out)@.leaf == entered(before, name@, hits@, false),
        old(out)@.branch == entered(before, name@, hits@, true),
    ensures
        final(out)@.leaf == entered(before + pattern_views(list@), name@, hits@, false),
        final(out)@.branch == entered(before + pattern_views(list@), name@, hits@, true),
        final(out).isroot == old(out).isroot,
{
    let ghost all = pattern_views(list@);
    if has_nul(name) {
        proof {
            lemma_entered_nul(before, name@, hits@, false);
            lemma_entered_nul(before, name@, hits@, true);
            lemma_entered_nul(before + all, name@, hits@, false);
            lemma_entered_nul(before + all, name@, hits@, true);
        }
        return;
    }
    let ghost isroot = out.isroot;
    let mut i: usize = 0;
    proof {
        assert(before + all.take(0) =~= before);
    }
    while i < list.len()
        invariant
            i <= list@.len(),
            all == pattern_views(list@),
            !name@.contains('\0'),
            out@.leaf == entered(before + all.take(i as int), name@, hits@, false),
            out@.branch == entered(before + all.take(i as int), name@, hits@, true),
            out.isroot == isroot,
        decreases list@.len() - i,
    {
        let p: &'a Pattern = list[i];
        let ghost leaf = out.leaf@;
        let ghost branch = out.branch@;
        proof {
            let done = before + all.take(i as int);
            lemma_entered_push(done, p@, name@, hits@, false);
            lemma_entered_push(done, p@, name@, hits@, true);
            assert(done.push(p@) =~= before + all.take(i + 1));
        }
        if first_matches(p, name, hits) {
            if let Some(sub) = &p.sub {
                proof {
                    lemma_components(*p);
                    lemma_components(**sub);
                    assert(p@.skip(1) =~= sub@);
                }
                if sub.sub.is_none() {
                    out.leaf.push(sub);
                    proof {
                        assert(sub@.len() == 1);
                        assert(pattern_views(out.leaf@) =~= pattern_views(leaf).push(sub@));
                    }
                } else {
                    out.branch.push(sub);
                    proof {
                        assert(sub@.len() > 1);
                        assert(pattern_views(out.branch@) =~= pattern_views(branch).push(sub@));
                    }
                }
            }
        }
        i += 1;
    }
    proof {
        assert(all.take(all.len() as int) =~= all);
    }
}

impl<'a> Patterns<'a> {
    /// Match `name` against patterns at this level + unanchored patterns.
    /// Returns `None` if no match, `Some(false)` if file/dir must be excluded
    /// regardless of type, `Some(true)` if only dir version excluded.
    pub fn matches(&self, set: &ExcludeSet, name: &str, hits: &GlobHits) -> (r: Option<bool>)
        ensures
            r == verdict(self@.leaf + set.root_unanchored@.leaf, name@, hits@),
    {
        proof {
            lemma_verdict_concat(self@.leaf, set.root_unanchored@.leaf, name@, hits@);
        }
        let a = match_list(&self.leaf, name, hits);
        if let Some(false) = a {
            return a;
        }
        let b = match_list(&borrowed(&set.root_unanchored.leaf), name, hits);
        if let Some(false) = b {
            return b;
        }
        if a.is_some() {
            a
        } else {
            b
        }
    }

    /// Build the [`Patterns`] for a subdirectory `name` under this level.
    pub fn enter(&self, set: &'a ExcludeSet, name: &str, hits: &GlobHits) -> (r: Patterns<'a>)
        ensures
            r@ == enter_level(self@, set.root_unanchored@, name@, hits@),
            !r.isroot,
    {
        let mut out = Patterns { leaf: Vec::new(), branch: Vec::new(), isroot: false };
        let ghost none = Seq::<Seq<Part>>::empty();
        proof {
            assert(out@.leaf =~= none);
            assert(out@.branch =~= none);
            assert(none + self@.branch =~= self@.branch);
        }
        enter_into(&self.branch, name, hits, &mut out, Ghost(none));
        enter_into(
            &borrowed(&set.root_unanchored.branch),
            name,
            hits,
            &mut out,
            Ghost(self@.branch),
        );
        out
    }
}

impl RootPatterns {
    fn new() -> (r: Self)
        ensures
            r@ == (Level { leaf: Seq::empty(), branch: Seq::empty() }),
    {
        let r = RootPatterns { leaf: Vec::new(), branch: Vec::new() };
        proof {
            assert(r@.leaf =~= Seq::<Seq<Part>>::empty());
            assert(r@.branch =~= Seq::<Seq<Part>>::empty());
        }
        r
    }

    fn add(&mut self, p: Pattern)
        ensures
            final(self)@ == with_pattern(old(self)@, p@),
    {
        let ghost before = self@;
        proof {
            lemma_components(p);
        }
        if p.sub.is_some() {
            self.branch.push(p);
            proof {
                assert(p@.len() > 1);
                assert(self@.branch =~= before.branch.push(p@));
            }
        } else {
            self.leaf.push(p);
            proof {
                assert(p@.len() == 1);
                assert(self@.leaf =~= before.leaf.push(p@));
            }
        }
    }
}

/// The level with one more pattern.
pub open spec fn with_pattern(l: Level, c: Seq<Part>) -> Level {
    if c.len() > 1 {
        Level { leaf: l.leaf, branch: l.branch.push(c) }
    } else {
        Level { leaf: l.leaf.push(c), branch: l.branch }
    }
}

/// The names that a path goes through: what stands between slashes.
pub open spec fn split_path(s: Seq<char>) -> Seq<Seq<char>>
    decreases s.len(),
{
    let i = place_of(s, '/', 0);
    if 0 <= i < s.len() {
        seq![s.take(i)] + split_path(s.skip(i + 1))
    } else {
        seq![s]
    }
}

/// The number of slashes that the text ends with.
pub open spec fn trailing_slashes(s: Seq<char>) -> int
    decreases s.len(),
{
    if s.len() > 0 && s.last() == '/' {
        1 + trailing_slashes(s.drop_last())
    } else {
        0
    }
}

/// The path without slashes at either end.
pub open spec fn trimmed(s: Seq<char>) -> Seq<char> {
    let t = s.skip(leading_slashes(s));
    t.take(t.len() - trailing_slashes(t))
}

/// The names that a path goes through, from the root directory on.
pub open spec fn path_components(s: Seq<char>) -> Seq<Seq<char>> {
    if trimmed(s).len() == 0 {
        Seq::empty()
    } else {
        split_path(trimmed(s))
    }
}

/// The patterns that apply in a directory, by the names on the way to it.
pub open spec fn level_at(
    root: Level,
    everywhere: Level,
    names: Seq<Seq<char>>,
    hits: Seq<(Seq<char>, Seq<char>)>,
) -> Level
    decreases names.len(),
{
    if names.len() == 0 {
        root
    } else {
        enter_level(
            level_at(root, everywhere, names.drop_last(), hits),
            everywhere,
            names.last(),
            hits,
        )
    }
}

/// The names that a path goes through, from the root directory on.
pub fn split_components(path: &str) -> (r: Vec<String>)
    ensures
        r@.len() == path_components(path@).len(),
        forall|i: int| 0 <= i < r@.len() ==> (#[trigger] r@[i])@ == path_components(path@)[i],
{
    let chars = chars_of(path);
    let from = count_slashes(&chars);
    let ghost t = chars@.skip(from as int);
    let mut end: usize = chars.len();
    proof {
        assert(t.take(t.len() as int) =~= t);
    }
    while end > from && chars[end - 1] == '/'
        invariant
            from <= end <= chars@.len(),
            t == chars@.skip(from as int),
            trailing_slashes(t) == t.len() - (end - from) + trailing_slashes(t.take(end - from)),
        decreases end,
    {
        proof {
            let u = t.take(end - from);
            assert(u.last() == chars@[end - 1]);
            assert(u.drop_last() =~= t.take(end - from - 1));
        }
        end -= 1;
    }
    let ghost body = t.take(end - from);
    proof {
        if end > from {
            assert(body.last() == chars@[end - 1]);
        }
        assert(body == trimmed(path@));
    }
    let mut r: Vec<String> = Vec::new();
    if from == end {
        return r;
    }
    let ghost all = split_path(body);
    let mut at: usize = from;
    proof {
        assert(body =~= chars@.subrange(from as int, end as int));
        assert(body.skip(0) =~= body);
        assert(all.skip(0) =~= all);
        lemma_place_cut(chars@, '/', at as int, end as int);
    }
    let mut slash = find_char(&chars, '/', at);
    while slash < end
        invariant
            from <= at <= slash <= chars@.len(),
            at <= end <= chars@.len(),
            slash == place_of(chars@, '/', at as int),
            body == chars@.subrange(from as int, end as int),
            all == split_path(body),
            r@.len() <= all.len(),
            forall|i: int| 0 <= i < r@.len() ==> (#[trigger] r@[i])@ == all[i],
            all.skip(r@.len() as int) == split_path(body.skip(at - from)),
        decreases end - at,
    {
        let ghost rest = body.skip(at - from);
        let ghost left = all.skip(r@.len() as int);
        proof {
            lemma_place_cut(chars@, '/', at as int, end as int);
            assert(rest =~= chars@.subrange(at as int, end as int));
            assert(left.len() > 0);
            assert(left[0] == all[r@.len() as int]);
        }
        r.push(text_between(&chars, at, slash));
        proof {
            assert(rest.take(slash - at) =~= chars@.subrange(at as int, slash as int));
            assert(rest.skip(slash - at + 1) =~= body.skip(slash + 1 - from));
            assert(all.skip(r@.len() as int) =~= left.skip(1));
            assert(left.skip(1) =~= split_path(rest.skip(slash - at + 1)));
        }
        at = slash + 1;
        slash = find_char(&chars, '/', at);
    }
    proof {
        let rest = body.skip(at - from);
        lemma_place_cut(chars@, '/', at as int, end as int);
        assert(rest =~= chars@.subrange(at as int, end as int));
        assert(all.skip(r@.len() as int) =~= seq![rest]);
        assert(all.skip(r@.len() as int)[0] == all[r@.len() as int]);
    }
    r.push(text_between(&chars, at, end));
    r
}

/// Some component of the pattern is this glob.
pub open spec fn uses_glob(c: Seq<Part>, glob: Seq<char>) -> bool {
    exists|i: int| 0 <= i < c.len() && !(#[trigger] c[i]).literal && c[i].text == glob
}

/// Some pattern of the list uses the glob.
pub open spec fn list_uses(list: Seq<Seq<Part>>, glob: Seq<char>) -> bool {
    exists|i: int| 0 <= i < list.len() && uses_glob(#[trigger] list[i], glob)
}

pub open spec fn texts(list: Seq<String>) -> Seq<Seq<char>> {
    Seq::new(list.len(), |i: int| list[i]@)
}

/// Adds the globs of a pattern to a list.
fn add_globs(p: &Pattern, out: &mut Vec<String>)
    ensures
        forall|g: Seq<char>| #[trigger]
            texts(final(out)@).contains(g) <==> texts(old(out)@).contains(g) || uses_glob(p@, g),
    decreases p,
{
    let ghost before = texts(out@);
    let ghost c = p@;
    if !p.isliteral {
        out.push(p.pattern.clone());
        proof {
            assert(texts(out@) =~= before.push(p.pattern@));
        }
    }
    let ghost now = texts(out@);
    proof {
        assert forall|g: Seq<char>| #[trigger] now.contains(g) <==> before.contains(g) || (
        !p.isliteral && g == p.pattern@) by {
            lemma_push_contains(before, p.pattern@, g);
        }
    }
    if let Some(sub) = &p.sub {
        add_globs(sub, out);
        proof {
            assert(c =~= seq![c[0]] + sub@);
            assert forall|g: Seq<char>| uses_glob(c, g) <==> (!c[0].literal && c[0].text == g)
                || #[trigger] uses_glob(sub@, g) by {
                if uses_glob(sub@, g) {
                    let i = choose|i: int|
                        0 <= i < sub@.len() && !(#[trigger] sub@[i]).literal && sub@[i].text == g;
                    assert(c[i + 1] == sub@[i]);
                }
                if uses_glob(c, g) {
                    let i = choose|i: int|
                        0 <= i < c.len() && !(#[trigger] c[i]).literal && c[i].text == g;
                    if i > 0 {
                        assert(c[i] == sub@[i - 1]);
                    }
                }
            }
        }
    }
    proof {
        assert forall|g: Seq<char>| #[trigger] texts(out@).contains(g) <==> before.contains(g)
            || uses_glob(c, g) by {
            assert(now.contains(g) <==> before.contains(g) || (!p.isliteral && g == p.pattern@));
            if p.sub is Some {
                assert(uses_glob(c, g) <==> (!c[0].literal && c[0].text == g) || uses_glob(
                    components(*p.sub->0),
                    g,
                ));
            } else {
                assert(c.len() == 1);
                if !c[0].literal && c[0].text == g {
                    assert(uses_glob(c, g));
                }
            }
        }
    }
}

proof fn lemma_push_contains(list: Seq<Seq<char>>, x: Seq<char>, g: Seq<char>)
    ensures
        list.push(x).contains(g) <==> list.contains(g) || g == x,
{
    let more = list.push(x);
    assert(more[list.len() as int] == x);
    if list.contains(g) {
        let i = choose|i: int| 0 <= i < list.len() && list[i] == g;
        assert(more[i] == g);
    }
    if more.contains(g) {
        let i = choose|i: int| 0 <= i < more.len() && more[i] == g;
        if i < list.len() {
            assert(list[i] == g);
        }
    }
}

/// Adds the globs of the patterns of a list.
fn add_all_globs(list: &Vec<Pattern>, out: &mut Vec<String>)
    ensures
        forall|g: Seq<char>| #[trigger]
            texts(final(out)@).contains(g) <==> texts(old(out)@).contains(g) || list_uses(
                owned_views(list@),
                g,
            ),
{
    let ghost before = texts(out@);
    let ghost all = owned_views(list@);
    let mut i: usize = 0;
    while i < list.len()
        invariant
            i <= list@.len(),
            all == owned_views(list@),
            forall|g: Seq<char>| #[trigger]
                texts(out@).contains(g) <==> before.contains(g) || list_uses(
                    all.take(i as int),
                    g,
                ),
        decreases list@.len() - i,
    {
        let ghost now = texts(out@);
        add_globs(&list[i], out);
        proof {
            assert forall|g: Seq<char>| #[trigger] texts(out@).contains(g) <==> before.contains(g)
                || list_uses(all.take(i + 1), g) by {
                let a = all.take(i as int);
                let b = all.take(i + 1);
                assert(b =~= a.push(all[i as int]));
                assert(now.contains(g) <==> before.contains(g) || list_uses(a, g));
                if list_uses(a, g) {
                    let j = choose|j: int| 0 <= j < a.len() && uses_glob(#[trigger] a[j], g);
                    assert(b[j] == a[j]);
                }
                if uses_glob(all[i as int], g) {
                    assert(b[i as int] == all[i as int]);
                }
                if list_uses(b, g) {
                    let j = choose|j: int| 0 <= j < b.len() && uses_glob(#[trigger] b[j], g);
                    if j < i {
                        assert(a[j] == b[j]);
                    }
                }
            }
        }
        i += 1;
    }
    proof {
        assert(all.take(all.len() as int) =~= all);
    }
}

impl ExcludeSet {
    /// The patterns have as many components as their lists say.
    pub open spec fn wf(&self) -> bool {
        sorted_out(self.root@) && sorted_out(self.root_unanchored@)
    }

    pub fn new() -> (r: Self)
        ensures
            r.wf(),
            r.root@ == (Level { leaf: Seq::empty(), branch: Seq::empty() }),
            r.root_unanchored@ == (Level { leaf: Seq::empty(), branch: Seq::empty() }),
    {
        ExcludeSet { root: RootPatterns::new(), root_unanchored: RootPatterns::new() }
    }

    /// Adds a pattern, which applies from the root directory on if it starts
    /// with a slash, and at any level otherwise. An empty pattern is skipped.
    pub fn add(&mut self, pattern: &str)
        requires
            old(self).wf(),
        ensures
            final(self).wf(),
            final(self).root@ == (if pattern@.len() > 0 && pattern@[0] == '/' {
                with_pattern(old(self).root@, pattern_parts(pattern@))
            } else {
                old(self).root@
            }),
            final(self).root_unanchored@ == (if pattern@.len() > 0 && pattern@[0] != '/' {
                with_pattern(old(self).root_unanchored@, pattern_parts(pattern@))
            } else {
                old(self).root_unanchored@
            }),
    {
        let chars = chars_of(pattern);
        if chars.len() == 0 {
            return;
        }
        let parsed = Pattern::parse(pattern);
        proof {
            lemma_components(parsed);
        }
        if chars[0] == '/' {
            self.root.add(parsed);
        } else {
            self.root_unanchored.add(parsed);
        }
    }

    /// Every glob that a pattern uses. The answer of `fnmatch` for each of them
    /// is what [`GlobHits`] has to hold.
    pub fn globs(&self) -> (r: Vec<String>)
        ensures
            forall|g: Seq<char>| #[trigger]
                texts(r@).contains(g) <==> {
                    ||| list_uses(self.root@.leaf, g)
                    ||| list_uses(self.root@.branch, g)
                    ||| list_uses(self.root_unanchored@.leaf, g)
                    ||| list_uses(self.root_unanchored@.branch, g)
                },
    {
        let mut r: Vec<String> = Vec::new();
        add_all_globs(&self.root.leaf, &mut r);
        add_all_globs(&self.root.branch, &mut r);
        add_all_globs(&self.root_unanchored.leaf, &mut r);
        add_all_globs(&self.root_unanchored.branch, &mut r);
        r
    }

    /// Patterns for the absolute path's level. Slow: call once per scan root,
    /// not per file. Subdirectory descent should use [`Patterns::enter`].
    pub fn for_path<'a>(&'a self, path: &str, hits: &GlobHits) -> (r: Patterns<'a>)
        ensures
            r@ == level_at(self.root@, self.root_unanchored@, path_components(path@), hits@),
            r.isroot == (path_components(path@).len() == 0),
    {
        let names = split_components(path);
        let ghost all = path_components(path@);
        let mut cur = Patterns {
            leaf: borrowed(&self.root.leaf),
            branch: borrowed(&self.root.branch),
            isroot: true,
        };
        proof {
            assert(all.take(0) =~= Seq::<Seq<char>>::empty());
        }
        let mut i: usize = 0;
        while i < names.len()
            invariant
                i <= names@.len(),
                names@.len() == all.len(),
                forall|j: int| 0 <= j < names@.len() ==> (#[trigger] names@[j])@ == all[j],
                cur@ == level_at(self.root@, self.root_unanchored@, all.take(i as int), hits@),
                cur.isroot == (i == 0),
            decreases names@.len() - i,
        {
            cur = cur.enter(self, names[i].as_str(), hits);
            proof {
                assert(all.take(i + 1).drop_last() =~= all.take(i as int));
                assert(all.take(i + 1).last() == all[i as int]);
            }
            i += 1;
        }
        proof {
            assert(all.take(all.len() as int) =~= all);
        }
        cur
    }
}

impl Default for ExcludeSet {
    fn default() -> (r: Self)
        ensures
            r.wf(),
            r.root@ == (Level { leaf: Seq::empty(), branch: Seq::empty() }),
            r.root_unanchored@ == (Level { leaf: Seq::empty(), branch: Seq::empty() }),
    {
        Self::new()
    }
}

} // verus!
