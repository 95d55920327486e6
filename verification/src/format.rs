//! Human-readable sizes, clock times and middle-truncated labels.
use vstd::prelude::*;
use crate::text::{
    all_digits, chars_of, decimal_value, digit_char, digits, digits_pad2, law_digits_read_back,
    push_decimal, push_decimal_pad2, string_from_chars,
};

verus! {

/// Bytes in a kibibyte.
pub const KB: u64 = 1024;
/// Bytes in a mebibyte.
pub const MB: u64 = 1048576;
/// Bytes in a gibibyte.
pub const GB: u64 = 1073741824;
/// Bytes in a tebibyte.
pub const TB: u64 = 1099511627776;

/// 2^53: below it every integer is exactly representable as an `f64`.
pub const F64_EXACT_LIMIT: u64 = 9007199254740992;

/// `a / b` rounded to the nearest integer, ties going to the even neighbour
/// (how a decimal rendering with a fixed number of places rounds an exact
/// binary value).
pub open spec fn round_half_even(a: nat, b: nat) -> nat {
    let q = a / b;
    let r = a % b;
    if 2 * r > b {
        q + 1
    } else if 2 * r < b {
        q
    } else if q % 2 == 0 {
        q
    } else {
        q + 1
    }
}

/// The power of two by which an integer must be divided to fit in the 53-bit
/// significand of an `f64`.
pub open spec fn f64_scale(n: nat) -> nat
    decreases n,
{
    if n < F64_EXACT_LIMIT {
        1
    } else {
        2 * f64_scale(n / 2)
    }
}

/// The value of `n as f64`: `n` rounded to the nearest representable double,
/// ties to even.
pub open spec fn f64_nearest(n: nat) -> nat {
    round_half_even(n, f64_scale(n)) * f64_scale(n)
}

/// A count of hundredths (`places == 2`), tenths (`places == 1`) or units
/// (`places == 0`) rendered with that many decimal places.
pub open spec fn fixed_text(q: nat, places: nat) -> Seq<char> {
    if places == 0 {
        digits(q)
    } else if places == 1 {
        digits(q / 10) + seq!['.', digit_char(q % 10)]
    } else {
        digits(q / 100) + seq!['.', digit_char((q / 10) % 10), digit_char(q % 10)]
    }
}

/// The text shown for a byte count: the largest binary unit that the count
/// reaches, with two decimals for TB and GB, one for MB and none for KB.
pub open spec fn size_text(n: nat) -> Seq<char> {
    if n >= TB {
        fixed_text(round_half_even(f64_nearest(n) * 100, TB as nat), 2) + seq![' ', 'T', 'B']
    } else if n >= GB {
        fixed_text(round_half_even(n * 100, GB as nat), 2) + seq![' ', 'G', 'B']
    } else if n >= MB {
        fixed_text(round_half_even(n * 10, MB as nat), 1) + seq![' ', 'M', 'B']
    } else if n >= KB {
        fixed_text(round_half_even(n, KB as nat), 0) + seq![' ', 'K', 'B']
    } else {
        digits(n) + seq![' ', 'B']
    }
}

fn div_round_half_even(a: u128, b: u128) -> (r: u128)
    requires
        b > 0,
        b <= 0x1_0000_0000_0000_0000,
        a <= 0x1_0000_0000_0000_0000_0000_0000,
    ensures
        r == round_half_even(a as nat, b as nat),
{
    let q = a / b;
    let rem = a % b;
    let twice = rem * 2;
    if twice > b {
        q + 1
    } else if twice < b {
        q
    } else if q % 2 == 0 {
        q
    } else {
        q + 1
    }
}

proof fn lemma_round_half_even_bound(a: nat, b: nat)
    requires
        b > 0,
    ensures
        round_half_even(a, b) <= a / b + 1,
        round_half_even(a, b) * b <= a + b,
{
    let q = a / b;
    vstd::arithmetic::div_mod::lemma_fundamental_div_mod(a as int, b as int);
    assert(q * b <= a) by (nonlinear_arith)
        requires
            a == b * q + a % b,
            a % b >= 0,
    ;
    assert((q + 1) * b <= a + b) by (nonlinear_arith)
        requires
            q * b <= a,
    ;
}

/// `n as f64`, as an exact integer.
fn nearest_f64_value(n: u64) -> (v: u128)
    ensures
        v == f64_nearest(n as nat),
        v <= n as nat + 4096,
{
    let mut m: u64 = n;
    let mut p: u128 = 1;
    while m >= F64_EXACT_LIMIT
        invariant
            p >= 1,
            p <= 4096,
            m as nat == (n as nat) / (p as nat),
            f64_scale(n as nat) == p * f64_scale(m as nat),
            p * (m as nat) <= n,
        decreases m,
    {
        let ghost old_p = p;
        let ghost old_m = m;
        proof {
            vstd::arithmetic::div_mod::lemma_div_denominator(n as int, p as int, 2);
            assert(p * F64_EXACT_LIMIT <= n) by (nonlinear_arith)
                requires
                    p * (m as nat) <= n,
                    m >= F64_EXACT_LIMIT,
                    p >= 1,
            ;
            assert(f64_scale(m as nat) == 2 * f64_scale((m / 2) as nat));
            let fm = f64_scale((m / 2) as nat);
            assert(p * (2 * fm) == (p * 2) * fm) by (nonlinear_arith);
        }
        m = m / 2;
        p = p * 2;
        proof {
            assert(p * (m as nat) <= n) by (nonlinear_arith)
                requires
                    old_p * (old_m as nat) <= n,
                    m == old_m / 2,
                    p == old_p * 2,
            ;
        }
    }
    assert(f64_scale(n as nat) == p) by {
        assert(f64_scale(m as nat) == 1);
        let fm = f64_scale(m as nat);
        assert(p * fm == p) by (nonlinear_arith)
            requires
                fm == 1,
        ;
    }
    proof {
        lemma_round_half_even_bound(n as nat, p as nat);
    }
    let r = div_round_half_even(n as u128, p);
    r * p
}

fn push_fixed(out: &mut Vec<char>, q: u64, places: u64)
    requires
        places <= 2,
    ensures
        final(out)@ == old(out)@ + fixed_text(q as nat, places as nat),
{
    if places == 0 {
        push_decimal(out, q);
    } else if places == 1 {
        push_decimal(out, q / 10);
        out.push('.');
        push_decimal(out, q % 10);
        assert(digits((q % 10) as nat) == seq![digit_char((q % 10) as nat)]);
        assert(final(out)@ =~= old(out)@ + fixed_text(q as nat, places as nat));
    } else {
        push_decimal(out, q / 100);
        out.push('.');
        push_decimal(out, (q / 10) % 10);
        push_decimal(out, q % 10);
        assert(digits(((q / 10) % 10) as nat) == seq![digit_char(((q / 10) % 10) as nat)]);
        assert(digits((q % 10) as nat) == seq![digit_char((q % 10) as nat)]);
        assert(final(out)@ =~= old(out)@ + fixed_text(q as nat, places as nat));
    }
}

fn push_unit(out: &mut Vec<char>, first: char, second: char)
    ensures
        final(out)@ == old(out)@ + seq![' ', first, second],
{
    out.push(' ');
    out.push(first);
    out.push(second);
    assert(final(out)@ =~= old(out)@ + seq![' ', first, second]);
}

/// Formats a byte count as the app shows it: `"512 B"`, `"3 KB"`, `"1.5 MB"`,
/// `"2.25 GB"`, `"1.00 TB"`.
pub fn fmt_size(n: u64) -> (s: String)
    ensures
        s@ == size_text(n as nat),
{
    let mut out: Vec<char> = Vec::new();
    if n >= TB {
        let v = nearest_f64_value(n);
        proof {
            lemma_round_half_even_bound((v * 100) as nat, TB as nat);
            assert((v * 100) as nat / (TB as nat) <= 0x1_0000_0000) by (nonlinear_arith)
                requires
                    v <= 0x1_0000_0000_0000_0000 + 4096,
            ;
        }
        let q = div_round_half_even(v * 100, TB as u128);
        push_fixed(&mut out, q as u64, 2);
        push_unit(&mut out, 'T', 'B');
    } else if n >= GB {
        proof {
            lemma_round_half_even_bound((n as nat) * 100, GB as nat);
        }
        let q = div_round_half_even((n as u128) * 100, GB as u128);
        push_fixed(&mut out, q as u64, 2);
        push_unit(&mut out, 'G', 'B');
    } else if n >= MB {
        proof {
            lemma_round_half_even_bound((n as nat) * 10, MB as nat);
        }
        let q = div_round_half_even((n as u128) * 10, MB as u128);
        push_fixed(&mut out, q as u64, 1);
        push_unit(&mut out, 'M', 'B');
    } else if n >= KB {
        proof {
            lemma_round_half_even_bound(n as nat, KB as nat);
        }
        let q = div_round_half_even(n as u128, KB as u128);
        push_fixed(&mut out, q as u64, 0);
        push_unit(&mut out, 'K', 'B');
    } else {
        push_decimal(&mut out, n);
        out.push(' ');
        out.push('B');
        assert(out@ =~= size_text(n as nat));
    }
    string_from_chars(&out)
}

/// The text shown for a whole number of seconds: `"mm:ss"` below an hour,
/// `"hh:mm:ss"` from an hour on (hours keep all their digits).
pub open spec fn clock_text(total: nat) -> Seq<char> {
    let h = total / 3600;
    let m = (total % 3600) / 60;
    let s = total % 60;
    if h > 0 {
        digits_pad2(h) + seq![':'] + digits_pad2(m) + seq![':'] + digits_pad2(s)
    } else {
        digits_pad2(m) + seq![':'] + digits_pad2(s)
    }
}

/// Formats a whole number of seconds as a clock reading: `"01:05"`,
/// `"02:00:09"`.
pub fn fmt_clock(total: u64) -> (s: String)
    ensures
        s@ == clock_text(total as nat),
{
    let h = total / 3600;
    let m = (total % 3600) / 60;
    let sec = total % 60;
    let mut out: Vec<char> = Vec::new();
    if h > 0 {
        push_decimal_pad2(&mut out, h);
        out.push(':');
    }
    push_decimal_pad2(&mut out, m);
    out.push(':');
    push_decimal_pad2(&mut out, sec);
    assert(out@ =~= clock_text(total as nat));
    string_from_chars(&out)
}

/// A clock reading splits the seconds without losing any: hours, minutes
/// and seconds add back up to the total, with minutes and seconds below 60.
pub proof fn law_clock_parts(total: nat)
    ensures
        (total / 3600) * 3600 + ((total % 3600) / 60) * 60 + total % 60 == total,
        (total % 3600) / 60 < 60,
        total % 60 < 60,
{
    assert((total / 3600) * 3600 + total % 3600 == total) by (nonlinear_arith);
    assert(((total % 3600) / 60) * 60 + (total % 3600) % 60 == total % 3600) by (nonlinear_arith);
    assert((total % 3600) % 60 == total % 60) by {
        vstd::arithmetic::div_mod::lemma_mod_mod(total as int, 60, 60);
    }
}

proof fn lemma_pad2_two_places(n: nat)
    requires
        n < 100,
    ensures
        digits_pad2(n).len() == 2,
{
    if n >= 10 {
        assert(digits(n / 10).len() == 1);
    }
}

/// A clock reading reads back as the seconds it shows: the fields between
/// the colons are digits, minutes and seconds take two places each and stay
/// below 60, the hours field appears from an hour on, and hours * 3600 +
/// minutes * 60 + seconds is the total.
pub proof fn law_clock_reads_back(total: nat)
    ensures
        ({
            let t = clock_text(total);
            total >= 3600 ==> {
                &&& t.len() >= 8
                &&& t[t.len() - 6] == ':' && t[t.len() - 3] == ':'
                &&& all_digits(t.take(t.len() - 6)) && all_digits(t.subrange(
                    t.len() - 5,
                    t.len() - 3,
                )) && all_digits(t.skip(t.len() - 2))
                &&& decimal_value(t.take(t.len() - 6)) * 3600 + decimal_value(
                    t.subrange(t.len() - 5, t.len() - 3),
                ) * 60 + decimal_value(t.skip(t.len() - 2)) == total
                &&& decimal_value(t.subrange(t.len() - 5, t.len() - 3)) < 60
                &&& decimal_value(t.skip(t.len() - 2)) < 60
            }
        }),
        ({
            let t = clock_text(total);
            total < 3600 ==> {
                &&& t.len() == 5
                &&& t[2] == ':'
                &&& all_digits(t.take(2)) && all_digits(t.skip(3))
                &&& decimal_value(t.take(2)) * 60 + decimal_value(t.skip(3)) == total
                &&& decimal_value(t.skip(3)) < 60
            }
        }),
{
    law_clock_parts(total);
    let h = total / 3600;
    let m = (total % 3600) / 60;
    let sec = total % 60;
    law_digits_read_back(h);
    law_digits_read_back(m);
    law_digits_read_back(sec);
    lemma_pad2_two_places(m);
    lemma_pad2_two_places(sec);
    let t = clock_text(total);
    let ph = digits_pad2(h);
    let pm = digits_pad2(m);
    let ps = digits_pad2(sec);
    if total >= 3600 {
        assert(h > 0);
        assert(t == ph + seq![':'] + pm + seq![':'] + ps);
        assert(t.take(t.len() - 6) =~= ph);
        assert(t.subrange(t.len() - 5, t.len() - 3) =~= pm);
        assert(t.skip(t.len() - 2) =~= ps);
    } else {
        assert(h == 0) by (nonlinear_arith)
            requires
                total < 3600,
                h == total / 3600,
        ;
        assert(t == pm + seq![':'] + ps);
        assert(t.take(2) =~= pm);
        assert(t.skip(3) =~= ps);
    }
}

/// A label shortened to at most `max_chars` characters by replacing its
/// middle with an ellipsis, keeping equally many characters from both ends.
pub open spec fn truncated(s: Seq<char>, max_chars: nat) -> Seq<char> {
    if s.len() <= max_chars {
        s
    } else {
        let half = (max_chars / 2 - 1) as nat;
        s.take(half as int) + seq!['\u{2026}'] + s.skip(s.len() - half)
    }
}

/// Shortens a label for display: unchanged when it has at most `max_chars`
/// characters, otherwise its first and last `max_chars / 2 - 1` characters
/// around an ellipsis.
pub fn truncate_str(s: &str, max_chars: usize) -> (r: String)
    requires
        s@.len() <= max_chars || max_chars >= 2,
    ensures
        r@ == truncated(s@, max_chars as nat),
{
    let chars = chars_of(s);
    let n = chars.len();
    if n <= max_chars {
        return string_from_chars(&chars);
    }
    let half = max_chars / 2 - 1;
    let mut out: Vec<char> = Vec::new();
    let mut i: usize = 0;
    while i < half
        invariant
            half < n,
            n == chars@.len(),
            i <= half,
            out@ == chars@.take(i as int),
        decreases half - i,
    {
        out.push(chars[i]);
        i = i + 1;
        assert(out@ =~= chars@.take(i as int));
    }
    out.push('\u{2026}');
    let start = n - half;
    let mut j: usize = start;
    while j < n
        invariant
            start <= j <= n,
            n == chars@.len(),
            out@ == chars@.take(half as int) + seq!['\u{2026}'] + chars@.subrange(start as int, j as int),
        decreases n - j,
    {
        out.push(chars[j]);
        j = j + 1;
        assert(out@ =~= chars@.take(half as int) + seq!['\u{2026}'] + chars@.subrange(start as int, j as int));
    }
    assert(chars@.subrange(start as int, n as int) =~= chars@.skip(start as int));
    string_from_chars(&out)
}

/// A shortened label never exceeds the limit (for a limit of at least two),
/// is unchanged when it already fits, and keeps the label's own first and last
/// characters.
pub proof fn law_truncated_fits(s: Seq<char>, max_chars: nat)
    requires
        max_chars >= 2,
    ensures
        truncated(s, max_chars).len() <= max_chars,
        s.len() <= max_chars ==> truncated(s, max_chars) == s,
        s.len() > max_chars ==> ({
            let half = (max_chars / 2 - 1) as int;
            &&& truncated(s, max_chars).take(half) == s.take(half)
            &&& truncated(s, max_chars).skip(half + 1) == s.skip(s.len() - half)
        }),
{
    if s.len() > max_chars {
        let half = (max_chars / 2 - 1) as int;
        let t = truncated(s, max_chars);
        assert(t.take(half) =~= s.take(half));
        assert(t.skip(half + 1) =~= s.skip(s.len() - half));
    }
}

} // verus!
