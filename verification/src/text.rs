//! Text helpers shared by the exporter, the browser and the report readers.

use vstd::prelude::*;
use vstd::utf8::encode_utf8;

verus! {

/// `String::push`: the character becomes the last one of the string, and what
/// was there before stays.
pub assume_specification[ String::push ](s: &mut String, c: char)
    ensures
        final(s)@ == old(s)@.push(c),
;

/// Whether the last character of `s` is `c`.
pub open spec fn ends_in(s: Seq<char>, c: char) -> bool {
    s.len() > 0 && s.last() == c
}

/// Whether the last character of `s` is `c`.
pub fn ends_with(s: &str, c: char) -> (r: bool)
    ensures
        r == ends_in(s@, c),
{
    let mut r = false;
    for x in it: s.chars()
        invariant
            it.seq() == s@,
            r == ends_in(s@.take(it.index() as int), c),
    {
        r = x == c;
        proof {
            assert(s@.take(it.index() + 1).last() == x);
        }
    }
    proof {
        assert(s@.take(s@.len() as int) == s@);
    }
    r
}

/// Whether the two strings hold the same characters.
pub fn same_text(a: &String, b: &str) -> (r: bool)
    ensures
        r == (a@ == b@),
{
    *a == b.to_owned()
}

/// The character of a decimal digit.
pub open spec fn digit(d: nat) -> char {
    (48 + d) as char
}

/// The decimal notation of `n`, without leading zeros.
pub open spec fn decimal(n: nat) -> Seq<char>
    decreases n,
{
    if n < 10 {
        seq![digit(n)]
    } else {
        decimal(n / 10).push(digit(n % 10))
    }
}

/// The decimal notation of `n`.
pub fn decimal_string(n: u64) -> (r: String)
    ensures
        r@ == decimal(n as nat),
    decreases n,
{
    let mut r = if n < 10 {
        String::new()
    } else {
        decimal_string(n / 10)
    };
    let d: u8 = (n % 10) as u8;
    r.push((48 + d) as char);
    proof {
        assert(r@ =~= decimal(n as nat));
    }
    r
}

/// Appends the bytes of `s`.
pub fn put(out: &mut Vec<u8>, s: &str)
    ensures
        final(out)@ == old(out)@ + encode_utf8(s@),
{
    let ghost before = out@;
    out.extend_from_slice(s.as_bytes());
    proof {
        assert(out@ =~= before + encode_utf8(s@));
    }
}

/// The characters of `s`.
pub fn chars_of(s: &str) -> (r: Vec<char>)
    ensures
        r@ == s@,
{
    let mut r: Vec<char> = Vec::new();
    for c in it: s.chars()
        invariant
            it.seq() == s@,
            r@ == s@.take(it.index() as int),
    {
        r.push(c);
        proof {
            assert(r@ =~= s@.take(it.index() + 1));
        }
    }
    proof {
        assert(s@.take(s@.len() as int) =~= s@);
    }
    r
}

/// The characters from `from` up to `to`.
pub fn text_between(chars: &Vec<char>, from: usize, to: usize) -> (r: String)
    requires
        from <= to <= chars@.len(),
    ensures
        r@ == chars@.subrange(from as int, to as int),
{
    let mut r = String::new();
    let mut i: usize = from;
    while i < to
        invariant
            from <= i <= to <= chars@.len(),
            r@ == chars@.subrange(from as int, i as int),
        decreases to - i,
    {
        r.push(chars[i]);
        i += 1;
        proof {
            assert(r@ =~= chars@.subrange(from as int, i as int));
        }
    }
    r
}

/// The place of the first `c` at or after `from`, or the end.
pub open spec fn place_of(s: Seq<char>, c: char, from: int) -> int
    decreases s.len() - from,
{
    if 0 <= from < s.len() && s[from] != c {
        place_of(s, c, from + 1)
    } else {
        from
    }
}

/// The place of the first `c` at or after `from`, or the end.
pub fn find_char(chars: &Vec<char>, c: char, from: usize) -> (r: usize)
    requires
        from <= chars@.len(),
    ensures
        r == place_of(chars@, c, from as int),
        from <= r <= chars@.len(),
        r < chars@.len() ==> chars@[r as int] == c,
        forall|i: int| from <= i < r ==> chars@[i] != c,
{
    let mut i: usize = from;
    while i < chars.len() && chars[i] != c
        invariant
            from <= i <= chars@.len(),
            place_of(chars@, c, i as int) == place_of(chars@, c, from as int),
            forall|j: int| from <= j < i ==> chars@[j] != c,
        decreases chars@.len() - i,
    {
        i += 1;
    }
    i
}

/// Where a character stands does not depend on what is cut off before.
pub proof fn lemma_place_skip(s: Seq<char>, c: char, from: int, n: int)
    requires
        0 <= n <= from <= s.len(),
    ensures
        place_of(s, c, from) == n + place_of(s.skip(n), c, from - n),
        from <= place_of(s, c, from) <= s.len(),
    decreases s.len() - from,
{
    if from < s.len() && s[from] != c {
        assert(s.skip(n)[from - n] == s[from]);
        lemma_place_skip(s, c, from + 1, n);
    } else if from < s.len() {
        assert(s.skip(n)[from - n] == s[from]);
    }
}

/// Where a character stands in a part of a text.
pub proof fn lemma_place_cut(s: Seq<char>, c: char, from: int, to: int)
    requires
        0 <= from <= to <= s.len(),
    ensures
        place_of(s.subrange(from, to), c, 0) == (if place_of(s, c, from) < to {
            place_of(s, c, from) - from
        } else {
            to - from
        }),
        from <= place_of(s, c, from) <= s.len(),
{
    lemma_place_from(s, c, from, to, from);
}

proof fn lemma_place_from(s: Seq<char>, c: char, from: int, to: int, at: int)
    requires
        0 <= from <= at <= to <= s.len(),
    ensures
        place_of(s.subrange(from, to), c, at - from) == (if place_of(s, c, at) < to {
            place_of(s, c, at) - from
        } else {
            to - from
        }),
        at <= place_of(s, c, at) <= s.len(),
    decreases to - at,
{
    lemma_place_skip(s, c, at, 0);
    if at < to {
        assert(s.subrange(from, to)[at - from] == s[at]);
        if s[at] != c {
            lemma_place_from(s, c, from, to, at + 1);
        }
    }
}

} // verus!
