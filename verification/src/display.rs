//! Texts of the browser: sizes, bars and rows.

use vstd::prelude::*;

use crate::text::{chars_of, decimal, decimal_string, digit};

verus! {

/// `n / d`, rounded to the nearest integer, and to the even one of two that
/// are equally near.
pub open spec fn round_even(n: nat, d: nat) -> nat {
    let q = n / d;
    let r = n % d;
    if 2 * r > d || (2 * r == d && q % 2 == 1) {
        q + 1
    } else {
        q
    }
}

/// The distance of the numbers with 53 significant bits around `n`.
pub open spec fn ulp(n: nat) -> nat
    decreases n,
{
    if n < 0x20_0000_0000_0000 {
        1
    } else {
        2 * ulp(n / 2)
    }
}

/// The number with 53 significant bits that is nearest to `n`.
pub open spec fn round53(n: nat) -> nat {
    round_even(n, ulp(n)) * ulp(n)
}

/// The size of the `i`-th unit.
pub open spec fn unit_size(i: nat) -> nat
    decreases i,
{
    if i == 0 {
        1
    } else {
        1024 * unit_size((i - 1) as nat)
    }
}

/// The largest unit, from the `i`-th on, of which there is at least one in
/// `n`. The fifth is the last one.
pub open spec fn unit_for(n: nat, i: nat) -> nat
    decreases 5 - i,
{
    if i < 5 && n >= unit_size(i + 1) {
        unit_for(n, i + 1)
    } else {
        i
    }
}

pub open spec fn unit_name(i: nat) -> Seq<char> {
    if i == 0 {
        "B"@
    } else if i == 1 {
        "KiB"@
    } else if i == 2 {
        "MiB"@
    } else if i == 3 {
        "GiB"@
    } else if i == 4 {
        "TiB"@
    } else {
        "PiB"@
    }
}

/// A number of tenths, with one digit after the point.
pub open spec fn tenths_text(n: nat) -> Seq<char> {
    decimal(n / 10) + seq!['.', digit(n % 10)]
}

/// The notation of a size: in bytes below one KiB, and else in the largest
/// unit that fits, rounded to one digit after the point.
pub open spec fn size_text(bytes: u64) -> Seq<char> {
    if bytes < 1024 {
        decimal(bytes as nat) + " B"@
    } else {
        let n = round53(bytes as nat);
        let i = unit_for(n, 0);
        tenths_text(round_even(n * 10, unit_size(i))) + " "@ + unit_name(i)
    }
}

proof fn lemma_unit_sizes()
    ensures
        unit_size(0) == 1,
        unit_size(1) == 0x400,
        unit_size(2) == 0x10_0000,
        unit_size(3) == 0x4000_0000,
        unit_size(4) == 0x100_0000_0000,
        unit_size(5) == 0x4_0000_0000_0000,
{
    reveal_with_fuel(unit_size, 6);
}

fn rounded(n: u128, d: u128) -> (r: u128)
    requires
        0 < d,
        n < 0x1_0000_0000_0000_0000_0000,
        d <= 0x1_0000_0000_0000_0000,
    ensures
        r == round_even(n as nat, d as nat),
{
    let q: u128 = n / d;
    let r: u128 = n % d;
    proof {
        assert(q <= n) by (nonlinear_arith)
            requires
                q == n / d,
                d > 0,
        ;
    }
    if 2 * r > d || (2 * r == d && q % 2 == 1) {
        q + 1
    } else {
        q
    }
}

/// The distance of the numbers around a `u64` is at most 2048.
pub proof fn lemma_ulp(n: nat)
    requires
        n <= 0xffff_ffff_ffff_ffff,
    ensures
        1 <= ulp(n) <= 2048,
        n / ulp(n) < 0x20_0000_0000_0000,
    decreases n,
{
    if n >= 0x20_0000_0000_0000 {
        lemma_ulp_bound(n, 0x20_0000_0000_0000, 2048);
    } else {
        assert(n / 1 == n);
    }
}

/// Halving `n` at most eleven times brings it below 2 to the 53rd.
proof fn lemma_ulp_bound(n: nat, limit: nat, most: nat)
    requires
        limit == 0x20_0000_0000_0000,
        most >= 1,
        n < limit * most,
        most == 1 || most == 2 || most == 4 || most == 8 || most == 16 || most == 32 || most == 64
            || most == 128 || most == 256 || most == 512 || most == 1024 || most == 2048,
    ensures
        1 <= ulp(n) <= most,
        n / ulp(n) < limit,
    decreases most,
{
    if n >= limit {
        assert(most >= 2);
        let half = most / 2;
        lemma_ulp_bound(n / 2, limit, half);
        let u = ulp(n / 2);
        assert(n / (2 * u) == (n / 2) / u) by {
            vstd::arithmetic::div_mod::lemma_div_denominator(n as int, 2, u as int);
        }
    } else {
        assert(n / 1 == n);
    }
}

/// The notation of a size.
pub fn fmt_size(bytes: u64) -> (r: String)
    ensures
        r@ == size_text(bytes),
{
    if bytes < 1024 {
        return decimal_string(bytes).concat(" B");
    }
    let mut step: u128 = 1;
    let mut left: u64 = bytes;
    proof {
        lemma_ulp(bytes as nat);
        assert(step * ulp(left as nat) == ulp(bytes as nat)) by (nonlinear_arith)
            requires
                step == 1,
                left == bytes,
        ;
    }
    while left >= 0x20_0000_0000_0000
        invariant
            1 <= step <= 2048,
            ulp(bytes as nat) <= 2048,
            step * ulp(left as nat) == ulp(bytes as nat),
            bytes > 0,
        decreases left,
    {
        proof {
            let u = ulp((left / 2) as nat);
            assert(ulp(left as nat) == 2 * u);
            assert(step * (2 * u) == (2 * step) * u) by (nonlinear_arith);
            lemma_ulp((left / 2) as nat);
            assert(2 * step <= (2 * step) * u) by (nonlinear_arith)
                requires
                    u >= 1,
                    step >= 1,
            ;
        }
        step = 2 * step;
        left = left / 2;
    }
    proof {
        assert(step * 1 == ulp(bytes as nat));
    }
    let q: u128 = rounded(bytes as u128, step);
    proof {
        lemma_ulp(bytes as nat);
        assert(q <= 0x20_0000_0000_0000);
        assert(q * step <= 0x20_0000_0000_0000 * 2048) by (nonlinear_arith)
            requires
                q <= 0x20_0000_0000_0000,
                step <= 2048,
        ;
    }
    let n: u128 = q * step;
    let mut size: u128 = 1;
    let mut i: usize = 0;
    proof {
        lemma_unit_sizes();
    }
    while i < 5 && n >= 1024 * size
        invariant
            i <= 5,
            size == unit_size(i as nat),
            n == round53(bytes as nat),
            unit_for(n as nat, 0) == unit_for(n as nat, i as nat),
            size <= 0x4_0000_0000_0000,
            unit_size(0) == 1,
            unit_size(1) == 0x400,
            unit_size(2) == 0x10_0000,
            unit_size(3) == 0x4000_0000,
            unit_size(4) == 0x100_0000_0000,
            unit_size(5) == 0x4_0000_0000_0000,
        decreases 5 - i,
    {
        proof {
            assert(unit_size((i + 1) as nat) == 1024 * unit_size(i as nat));
        }
        size = 1024 * size;
        i += 1;
    }
    proof {
        assert(unit_size((i + 1) as nat) == 1024 * unit_size(i as nat));
        assert(unit_for(n as nat, 0) == i);
        assert(size > 0);
    }
    let tenths: u128 = rounded(n * 10, size);
    proof {
        assert(tenths <= n * 10) by {
            lemma_rounded_bound((n * 10) as nat, size as nat);
        }
        assert(tenths / 10 <= u64::MAX);
    }
    let mut r = decimal_string((tenths / 10) as u64);
    r.push('.');
    r.append(decimal_string((tenths % 10) as u64).as_str());
    r.append(" ");
    let unit = if i == 0 {
        "B"
    } else if i == 1 {
        "KiB"
    } else if i == 2 {
        "MiB"
    } else if i == 3 {
        "GiB"
    } else if i == 4 {
        "TiB"
    } else {
        "PiB"
    };
    r.append(unit);
    proof {
        let t = tenths as nat;
        assert(decimal(t % 10) == seq![digit(t % 10)]);
        assert(r@ =~= tenths_text(t) + " "@ + unit_name(i as nat));
    }
    r
}

proof fn lemma_rounded_bound(n: nat, d: nat)
    requires
        d > 0,
    ensures
        round_even(n, d) <= n || n == 0,
{
    let q = n / d;
    let r = n % d;
    assert(q * d + r == n) by {
        vstd::arithmetic::div_mod::lemma_fundamental_div_mod(n as int, d as int);
        assert(d * q == q * d) by (nonlinear_arith);
    }
    assert(q <= q * d) by (nonlinear_arith)
        requires
            d >= 1,
    ;
    if d == 1 {
        assert(r == 0);
    }
}

/// `n` times the same character.
pub open spec fn repeated(c: char, n: nat) -> Seq<char> {
    Seq::new(n, |i: int| c)
}

fn push_repeated(s: &mut String, c: char, n: usize)
    ensures
        final(s)@ == old(s)@ + repeated(c, n as nat),
{
    let ghost before = s@;
    let mut i: usize = 0;
    proof {
        assert(s@ =~= before + repeated(c, 0));
    }
    while i < n
        invariant
            i <= n,
            s@ == before + repeated(c, i as nat),
        decreases n - i,
    {
        s.push(c);
        i += 1;
        proof {
            assert(s@ =~= before + repeated(c, i as nat));
        }
    }
}

/// The number of filled places of a bar.
pub open spec fn bar_filled(pct: nat, width: nat) -> nat {
    let n = pct * width / 100;
    if n < width {
        n
    } else {
        width
    }
}

/// A bar of `width` places that is filled up to a percentage.
pub open spec fn bar_text(pct: nat, width: nat) -> Seq<char> {
    repeated('#', bar_filled(pct, width)) + repeated(
        ' ',
        (width - bar_filled(pct, width)) as nat,
    )
}

/// A bar of `width` places that is filled up to a percentage.
pub fn render_bar(pct: usize, width: usize) -> (r: String)
    ensures
        r@ == bar_text(pct as nat, width as nat),
{
    let filled: usize = if pct >= 100 {
        proof {
            assert(pct * width / 100 >= width) by (nonlinear_arith)
                requires
                    pct >= 100,
                    width >= 0,
            ;
        }
        width
    } else {
        proof {
            assert(pct * width <= 99 * width) by (nonlinear_arith)
                requires
                    pct <= 99,
                    width >= 0,
            ;
            assert(pct * width >= 0) by (nonlinear_arith)
                requires
                    pct >= 0,
                    width >= 0,
            ;
        }
        ((pct as u128 * width as u128) / 100) as usize
    };
    let mut s = String::new();
    push_repeated(&mut s, '#', filled);
    push_repeated(&mut s, ' ', width - filled);
    proof {
        assert(s@ =~= bar_text(pct as nat, width as nat));
    }
    s
}

/// The text with spaces before it, so that it has at least `width` characters.
pub open spec fn padded(s: Seq<char>, width: nat) -> Seq<char> {
    if s.len() < width {
        repeated(' ', (width - s.len()) as nat) + s
    } else {
        s
    }
}

/// The text with spaces before it, so that it has at least `width` characters.
pub fn pad_left(s: &str, width: usize) -> (r: String)
    ensures
        r@ == padded(s@, width as nat),
{
    let len: usize = chars_of(s).len();
    let mut r = String::new();
    if len < width {
        push_repeated(&mut r, ' ', width - len);
    }
    r.append(s);
    proof {
        assert(r@ =~= padded(s@, width as nat));
    }
    r
}

/// The texts with `sep` between them.
pub open spec fn joined(parts: Seq<Seq<char>>, sep: Seq<char>) -> Seq<char>
    decreases parts.len(),
{
    if parts.len() == 0 {
        Seq::empty()
    } else if parts.len() == 1 {
        parts[0]
    } else {
        joined(parts.drop_last(), sep) + sep + parts.last()
    }
}

} // verus!
