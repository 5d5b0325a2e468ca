//! What the texts of the browser show.

use vstd::arithmetic::div_mod::{lemma_fundamental_div_mod, lemma_mod_bound};
use vstd::prelude::*;

use crate::display::{
    bar_filled, bar_text, joined, lemma_ulp, padded, round53, round_even, size_text, ulp, unit_for,
    unit_name, unit_size,
};
use crate::num::{capped, capped32, low16, low32};
use crate::text::{decimal, digit, ends_in, place_of};

verus! {

/// Sums and products stop at the largest value.
pub proof fn capping_keeps_what_fits(n: nat)
    ensures
        n <= u64::MAX ==> capped(n) == n,
        n > u64::MAX ==> capped(n) == u64::MAX,
        n <= u32::MAX ==> capped32(n) == n,
        n > u32::MAX ==> capped32(n) == u32::MAX,
{
}

/// The low bits of a number are what is left when multiples of the next power
/// of two are taken off.
pub proof fn low_bits_are_remainders(n: u64)
    ensures
        n <= u32::MAX ==> low32(n) == n,
        low32(n) == n % 0x1_0000_0000,
        n <= u16::MAX ==> low16(n) == n,
        low16(n) == n % 0x1_0000,
{
}

/// The place of a character is that of its first occurrence, or the end.
pub proof fn places_are_first_occurrences(s: Seq<char>, c: char, from: int)
    requires
        0 <= from <= s.len(),
    ensures
        from <= place_of(s, c, from) <= s.len(),
        place_of(s, c, from) < s.len() ==> s[place_of(s, c, from)] == c,
        forall|i: int| from <= i < place_of(s, c, from) ==> s[i] != c,
    decreases s.len() - from,
{
    if from < s.len() && s[from] != c {
        places_are_first_occurrences(s, c, from + 1);
    }
}

/// A text ends in a character exactly if it is the last one.
pub proof fn texts_end_in_their_last_character(s: Seq<char>, c: char, d: char)
    ensures
        ends_in(s.push(c), d) <==> c == d,
        !ends_in(Seq::<char>::empty(), d),
{
}

/// Rounding goes to the nearest multiple, and to the even one of two that are
/// equally near.
pub proof fn rounding_goes_to_the_nearest(n: nat, d: nat)
    requires
        d > 0,
    ensures
        ({
            let q = round_even(n, d);
            &&& 2 * n <= 2 * (q * d) + d
            &&& 2 * (q * d) <= 2 * n + d
            &&& 2 * n == 2 * (q * d) + d || 2 * (q * d) == 2 * n + d ==> q % 2 == 0
        }),
{
    let q = n / d;
    let r = n % d;
    lemma_fundamental_div_mod(n as int, d as int);
    lemma_mod_bound(n as int, d as int);
    assert(d * q == q * d) by (nonlinear_arith);
    assert((q + 1) * d == q * d + d) by (nonlinear_arith);
}

/// Sizes below one KiB are shown in bytes.
pub proof fn small_sizes_are_shown_in_bytes(bytes: u64)
    requires
        bytes < 1024,
    ensures
        size_text(bytes) == decimal(bytes as nat) + " B"@,
{
}

proof fn lemma_units()
    ensures
        unit_size(0) == 1,
        unit_size(1) == 0x400,
        unit_size(2) == 0x10_0000,
        unit_size(3) == 0x4000_0000,
        unit_size(4) == 0x100_0000_0000,
        unit_size(5) == 0x4_0000_0000_0000,
{
    reveal_with_fuel(unit_size, 6);
}

proof fn lemma_unit_for(n: nat)
    ensures
        n < 0x400 ==> unit_for(n, 0) == 0,
        0x400 <= n < 0x10_0000 ==> unit_for(n, 0) == 1,
        0x10_0000 <= n < 0x4000_0000 ==> unit_for(n, 0) == 2,
        0x4000_0000 <= n < 0x100_0000_0000 ==> unit_for(n, 0) == 3,
        0x100_0000_0000 <= n < 0x4_0000_0000_0000 ==> unit_for(n, 0) == 4,
        0x4_0000_0000_0000 <= n ==> unit_for(n, 0) == 5,
{
    lemma_units();
    reveal_with_fuel(unit_for, 6);
}

/// The size that a text shows: so many tenths of a unit of so many bytes.
pub open spec fn shows(text: Seq<char>, tenths: nat, unit: Seq<char>) -> bool {
    text == decimal(tenths / 10) + seq!['.'] + decimal(tenths % 10) + seq![' '] + unit
}

/// The tenths come as near to the size as any number of tenths does.
pub open spec fn nearest_tenths(bytes: int, tenths: int, unit: int) -> bool {
    &&& 2 * (10 * bytes) <= 2 * (tenths * unit) + unit
    &&& 2 * (tenths * unit) <= 2 * (10 * bytes) + unit
}

/// Larger sizes are shown in the largest unit of which there is at least one,
/// with one digit behind the point, which is as near to the size as one digit
/// can be. Units are powers of 1024 bytes.
pub proof fn sizes_are_shown_in_the_largest_unit(bytes: u64) -> (tenths: nat)
    requires
        1024 <= bytes < 0x20_0000_0000_0000,
    ensures
        bytes < 0x10_0000 ==> shows(size_text(bytes), tenths, "KiB"@) && nearest_tenths(
            bytes as int,
            tenths as int,
            0x400,
        ),
        0x10_0000 <= bytes < 0x4000_0000 ==> shows(size_text(bytes), tenths, "MiB"@)
            && nearest_tenths(bytes as int, tenths as int, 0x10_0000),
        0x4000_0000 <= bytes < 0x100_0000_0000 ==> shows(size_text(bytes), tenths, "GiB"@)
            && nearest_tenths(bytes as int, tenths as int, 0x4000_0000),
        0x100_0000_0000 <= bytes < 0x4_0000_0000_0000 ==> shows(size_text(bytes), tenths, "TiB"@)
            && nearest_tenths(bytes as int, tenths as int, 0x100_0000_0000),
        0x4_0000_0000_0000 <= bytes ==> shows(size_text(bytes), tenths, "PiB"@) && nearest_tenths(
            bytes as int,
            tenths as int,
            0x4_0000_0000_0000,
        ),
{
    let n = bytes as nat;
    assert(ulp(n) == 1);
    assert(n / 1 == n && n % 1 == 0);
    assert(round_even(n, 1) == n);
    assert(round53(n) == n) by {
        assert(n * 1 == n);
    }
    lemma_units();
    lemma_unit_for(n);
    let i = unit_for(n, 0);
    let u = unit_size(i);
    let t = round_even(n * 10, u);
    rounding_goes_to_the_nearest(n * 10, u);
    reveal_strlit(" ");
    assert(decimal(t % 10) =~= seq![digit(t % 10)]);
    assert(" "@ =~= seq![' ']);
    assert(size_text(bytes) =~= decimal(t / 10) + seq!['.'] + decimal(t % 10) + seq![' ']
        + unit_name(i));
    assert(nearest_tenths(bytes as int, t as int, u as int));
    t
}

/// Sizes too large for 53 bits are rounded to 53 bits first, so what is shown
/// may be off by another 1024 bytes.
pub proof fn very_large_sizes_are_nearly_exact(bytes: u64) -> (tenths: nat)
    requires
        bytes >= 0x20_0000_0000_0000,
    ensures
        shows(size_text(bytes), tenths, "PiB"@),
        2 * (10 * bytes) <= 2 * (tenths * 0x4_0000_0000_0000) + 0x4_0000_0000_0000 + 20 * 1024,
        2 * (tenths * 0x4_0000_0000_0000) <= 2 * (10 * bytes) + 0x4_0000_0000_0000 + 20 * 1024,
{
    let n = bytes as nat;
    let m = round53(n);
    lemma_ulp(n);
    rounding_goes_to_the_nearest(n, ulp(n));
    lemma_units();
    lemma_unit_for(m);
    let t = round_even(m * 10, 0x4_0000_0000_0000);
    rounding_goes_to_the_nearest(m * 10, 0x4_0000_0000_0000);
    reveal_strlit(" ");
    assert(decimal(t % 10) =~= seq![digit(t % 10)]);
    assert(" "@ =~= seq![' ']);
    assert(size_text(bytes) =~= decimal(t / 10) + seq!['.'] + decimal(t % 10) + seq![' ']
        + unit_name(5));
    t
}

/// A whole number of units is shown as that number, with a zero behind the
/// point.
pub proof fn whole_units_are_shown_as_they_are(q: u64)
    requires
        1 <= q < 1024,
    ensures
        size_text((q * 0x400) as u64) == decimal(q as nat) + ".0 KiB"@,
        size_text((q * 0x10_0000) as u64) == decimal(q as nat) + ".0 MiB"@,
        size_text((q * 0x4000_0000) as u64) == decimal(q as nat) + ".0 GiB"@,
        size_text((q * 0x100_0000_0000) as u64) == decimal(q as nat) + ".0 TiB"@,
{
    reveal_strlit(".0 KiB");
    reveal_strlit(".0 MiB");
    reveal_strlit(".0 GiB");
    reveal_strlit(".0 TiB");
    reveal_strlit("KiB");
    reveal_strlit("MiB");
    reveal_strlit("GiB");
    reveal_strlit("TiB");
    lemma_whole((q * 0x400) as u64, q, 0x400);
    lemma_whole((q * 0x10_0000) as u64, q, 0x10_0000);
    lemma_whole((q * 0x4000_0000) as u64, q, 0x4000_0000);
    lemma_whole((q * 0x100_0000_0000) as u64, q, 0x100_0000_0000);
    assert(size_text((q * 0x400) as u64) =~= decimal(q as nat) + ".0 KiB"@);
    assert(size_text((q * 0x10_0000) as u64) =~= decimal(q as nat) + ".0 MiB"@);
    assert(size_text((q * 0x4000_0000) as u64) =~= decimal(q as nat) + ".0 GiB"@);
    assert(size_text((q * 0x100_0000_0000) as u64) =~= decimal(q as nat) + ".0 TiB"@);
}

proof fn lemma_whole(bytes: u64, q: u64, u: int)
    requires
        1 <= q < 1024,
        u == 0x400 || u == 0x10_0000 || u == 0x4000_0000 || u == 0x100_0000_0000,
        bytes == q * u,
    ensures
        u == 0x400 ==> shows(size_text(bytes), (10 * q) as nat, "KiB"@),
        u == 0x10_0000 ==> shows(size_text(bytes), (10 * q) as nat, "MiB"@),
        u == 0x4000_0000 ==> shows(size_text(bytes), (10 * q) as nat, "GiB"@),
        u == 0x100_0000_0000 ==> shows(size_text(bytes), (10 * q) as nat, "TiB"@),
        (10 * q) as nat / 10 == q,
        (10 * q) as nat % 10 == 0,
        decimal(0) == seq!['0'],
{
    let t = sizes_are_shown_in_the_largest_unit(bytes);
    assert(nearest_tenths(bytes as int, t as int, u));
    assert(10 * (q * u) == (10 * q) * u) by (nonlinear_arith);
    let k = 10 * q as int;
    assert(t == k) by (nonlinear_arith)
        requires
            2 * (k * u) <= 2 * (t * u) + u,
            2 * (t * u) <= 2 * (k * u) + u,
            u > 1,
            t >= 0,
    ;
}

/// A bar has as many places as it is wide, filled from the left: as many of
/// them as the share of the width says, without what is left over.
pub proof fn bars_are_filled_by_the_share(pct: nat, width: nat)
    ensures
        bar_text(pct, width).len() == width,
        pct >= 100 ==> bar_filled(pct, width) == width,
        pct < 100 ==> 100 * bar_filled(pct, width) <= pct * width < 100 * (bar_filled(pct, width)
            + 1),
        bar_filled(pct, width) <= width,
        forall|i: int|
            0 <= i < width ==> (#[trigger] bar_text(pct, width)[i]) == (if i < bar_filled(
                pct,
                width,
            ) {
                '#'
            } else {
                ' '
            }),
{
    let all = pct * width;
    let q = all / 100;
    if pct >= 100 {
        assert(q >= width) by (nonlinear_arith)
            requires
                pct >= 100,
                q == pct * width / 100,
        ;
    } else {
        assert(pct * width <= 99 * width) by (nonlinear_arith)
            requires
                pct <= 99,
        ;
        assert(q <= width);
        assert(bar_filled(pct, width) == q || width == 0 || q == width);
    }
}

/// Padding puts spaces before a text that is too short and changes nothing else.
pub proof fn padding_adds_spaces_in_front(s: Seq<char>, width: nat)
    ensures
        s.len() >= width ==> padded(s, width) == s,
        s.len() < width ==> {
            &&& padded(s, width).len() == width
            &&& padded(s, width).skip(width - s.len()) == s
            &&& forall|i: int| 0 <= i < width - s.len() ==> #[trigger] padded(s, width)[i] == ' '
        },
{
    if s.len() < width {
        assert(padded(s, width).skip(width - s.len()) =~= s);
    }
}

/// Joining puts the separator between any two texts, and nowhere else.
pub proof fn joining_separates_texts(parts: Seq<Seq<char>>, more: Seq<char>, sep: Seq<char>)
    ensures
        joined(Seq::<Seq<char>>::empty(), sep).len() == 0,
        joined(seq![more], sep) == more,
        parts.len() > 0 ==> joined(parts.push(more), sep) == joined(parts, sep) + sep + more,
{
    assert(parts.push(more).drop_last() =~= parts);
}

} // verus!
