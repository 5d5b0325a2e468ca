use ncdu_core::exclude::{split_components, ExcludeSet, GlobHits, Pattern, Patterns};

/// Matches `*`, `?` and one-character sets, as the C library does for names
/// without a slash.
fn glob_matches(glob: &[u8], name: &[u8]) -> bool {
    match (glob, name) {
        ([], _) => name.is_empty(),
        ([b'*', rest @ ..], _) => {
            glob_matches(rest, name) || (!name.is_empty() && glob_matches(glob, &name[1..]))
        }
        ([b'?', rest @ ..], [_, tail @ ..]) => glob_matches(rest, tail),
        ([b'[', c, b']', rest @ ..], [d, tail @ ..]) => c == d && glob_matches(rest, tail),
        ([c, rest @ ..], [d, tail @ ..]) => c == d && glob_matches(rest, tail),
        _ => false,
    }
}

/// The answers for every glob of the set and every name of the tests.
fn hits(set: &ExcludeSet) -> GlobHits {
    let mut h = GlobHits::new();
    for glob in set.globs() {
        for name in [
            "a", "bar", "excluded", "foo", "notokay", "okay", "other", "qoo", "root", "somedir",
            "somefile", "somewhere", "xyz", "z",
        ] {
            if glob_matches(glob.as_bytes(), name.as_bytes()) {
                h.add(&glob, name);
            }
        }
    }
    h
}

fn assert_test_foo(set: &ExcludeSet, p: &Patterns) {
    let h = hits(set);
    assert_eq!(p.matches(set, "root", &h), None);
    assert_eq!(p.matches(set, "bar", &h), Some(false));
    assert_eq!(p.matches(set, "qoo", &h), Some(false));
    assert_eq!(p.matches(set, "xyz", &h), Some(false));
    assert_eq!(p.matches(set, "okay", &h), None);
    assert_eq!(p.matches(set, "somefile", &h), Some(false));
    let s = p.enter(set, "okay", &h);
    assert_eq!(s.matches(set, "bar", &h), None);
    assert_eq!(s.matches(set, "xyz", &h), None);
    assert_eq!(s.matches(set, "notokay", &h), Some(false));
}

#[test]
fn parse_empty_pattern_skipped() {
    let mut set = ExcludeSet::new();
    set.add("");
    assert!(set.root.leaf.is_empty());
    assert!(set.root.branch.is_empty());
}

#[test]
fn parse_anchored_dir_pattern() {
    // "//a//" → trim leading; "a/" — dir-only top component, no sub.
    let p = Pattern::parse("//a//");
    assert_eq!(p.pattern.as_bytes(), b"a");
    assert!(p.isdir);
    assert!(p.isliteral);
    assert!(p.sub.is_none());
}

#[test]
fn parse_chained_pattern() {
    let p = Pattern::parse("foo*/bar.zig");
    assert_eq!(p.pattern.as_bytes(), b"foo*");
    assert!(p.isdir);
    assert!(!p.isliteral);
    let s = p.sub.as_deref().unwrap();
    assert_eq!(s.pattern.as_bytes(), b"bar.zig");
    assert!(!s.isdir);
    assert!(s.isliteral);
    assert!(s.sub.is_none());
}

#[test]
fn matches_upstream_battery() {
    let mut set = ExcludeSet::new();
    for pat in [
        "/foo/bar",
        "/foo/qoo/",
        "/foo/qoo",
        "/foo/qoo/",
        "/f??/xyz",
        "/f??/xyz/",
        "/*o/somefile",
        "/a??/okay",
        "/roo?",
        "/root/",
        "excluded",
        "somefile/",
        "o*y/not[o]kay",
    ] {
        set.add(pat);
    }
    let h = hits(&set);

    let a0 = set.for_path("/", &h);
    assert_eq!(a0.matches(&set, "a", &h), None);
    assert_eq!(a0.matches(&set, "excluded", &h), Some(false));
    assert_eq!(a0.matches(&set, "somefile", &h), Some(true));
    assert_eq!(a0.matches(&set, "root", &h), Some(false));
    let a1 = a0.enter(&set, "foo", &h);
    assert_test_foo(&set, &a1);

    let b0 = set.for_path("/somedir/somewhere", &h);
    assert_eq!(b0.matches(&set, "a", &h), None);
    assert_eq!(b0.matches(&set, "excluded", &h), Some(false));
    assert_eq!(b0.matches(&set, "root", &h), None);
    assert_eq!(b0.matches(&set, "okay", &h), None);
    let b1 = b0.enter(&set, "okay", &h);
    assert_eq!(b1.matches(&set, "excluded", &h), Some(false));
    assert_eq!(b1.matches(&set, "okay", &h), None);
    assert_eq!(b1.matches(&set, "notokay", &h), Some(false));

    let c0 = set.for_path("/foo/", &h);
    assert_test_foo(&set, &c0);
}

#[test]
fn parts_of_a_pattern() {
    let p = Pattern::parse("a//b/");
    assert_eq!((p.pattern.as_str(), p.isdir), ("a", true));
    let q = p.sub.as_deref().unwrap();
    assert_eq!((q.pattern.as_str(), q.isdir), ("", true));
    let r = q.sub.as_deref().unwrap();
    assert_eq!((r.pattern.as_str(), r.isdir), ("b", true));
    assert!(r.sub.is_none());
    // A lone slash is an anchored, empty component.
    let p = Pattern::parse("/");
    assert_eq!((p.pattern.as_str(), p.isdir, p.isliteral), ("", false, true));
    // C strings end at a NUL.
    let p = Pattern::parse("a\0*");
    assert_eq!((p.pattern.as_str(), p.isliteral), ("", false));
    for glob in ["[a", "a*", "?", "a\\b"] {
        assert!(!Pattern::parse(glob).isliteral, "{glob}");
    }
}

#[test]
fn names_with_nul_never_match() {
    let mut set = ExcludeSet::new();
    set.add("a*");
    set.add("a*/b");
    let mut h = GlobHits::new();
    h.add("a*", "a\0");
    let top = set.for_path("", &h);
    assert!(top.isroot);
    assert_eq!(top.matches(&set, "a\0", &h), None);
    assert!(top.enter(&set, "a\0", &h).leaf.is_empty());
    h.add("a*", "ab");
    assert_eq!(top.matches(&set, "ab", &h), Some(false));
    let below = top.enter(&set, "ab", &h);
    assert!(!below.isroot);
    assert_eq!(below.matches(&set, "b", &h), Some(false));
}

#[test]
fn a_match_of_any_type_outweighs_a_dir_only_one() {
    let h = GlobHits::new();
    let mut set = ExcludeSet::new();
    set.add("x/");
    assert_eq!(set.for_path("/p/q", &h).matches(&set, "x", &h), Some(true));
    set.add("x");
    assert_eq!(set.for_path("/p/q", &h).matches(&set, "x", &h), Some(false));
    let mut set = ExcludeSet::new();
    set.add("/x/");
    set.add("x");
    assert_eq!(set.for_path("/", &h).matches(&set, "x", &h), Some(false));
    let mut set = ExcludeSet::new();
    set.add("/x");
    set.add("x/");
    assert_eq!(set.for_path("/", &h).matches(&set, "x", &h), Some(false));
    assert_eq!(set.for_path("/p", &h).matches(&set, "x", &h), Some(true));
}

#[test]
fn anchored_patterns_match_whole_paths_and_others_their_ends() {
    let h = GlobHits::new();
    let mut set = ExcludeSet::new();
    set.add("/a/b");
    set.add("c/d");
    assert_eq!(set.for_path("/a", &h).matches(&set, "b", &h), Some(false));
    assert_eq!(set.for_path("/x/a", &h).matches(&set, "b", &h), None);
    assert_eq!(set.for_path("/c", &h).matches(&set, "d", &h), Some(false));
    assert_eq!(set.for_path("/x/y/c", &h).matches(&set, "d", &h), Some(false));
    assert_eq!(set.for_path("/c/x", &h).matches(&set, "d", &h), None);
}

#[test]
fn entering_gives_what_the_path_gives() {
    let mut set = ExcludeSet::new();
    set.add("/foo/o*y/z");
    set.add("okay/z");
    let h = hits(&set);
    for name in ["okay", "other"] {
        let entered = set.for_path("/foo", &h).enter(&set, name, &h);
        let direct = set.for_path(&format!("/foo/{name}"), &h);
        assert_eq!(entered.leaf.len(), direct.leaf.len());
        assert_eq!(entered.branch.len(), direct.branch.len());
        assert_eq!(entered.matches(&set, "z", &h), direct.matches(&set, "z", &h));
    }
}

#[test]
fn globs_that_have_to_be_asked_about() {
    let mut set = ExcludeSet::default();
    for pat in ["/a*/b/c?", "plain", "[x]", "p/q*"] {
        set.add(pat);
    }
    let mut globs = set.globs();
    globs.sort();
    assert_eq!(globs, vec!["[x]", "a*", "c?", "q*"]);
}

#[test]
fn components_of_a_path() {
    assert!(split_components("").is_empty());
    assert!(split_components("///").is_empty());
    assert_eq!(split_components("a"), vec!["a"]);
    assert_eq!(split_components("//a/b//c/"), vec!["a", "b", "", "c"]);
}
