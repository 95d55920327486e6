//! Character-level building blocks: decimal digits, zero padding, and the
//! conversions between `String`/`&str` and vectors of characters.
use vstd::prelude::*;

verus! {

/// The ASCII character of a decimal digit.
pub open spec fn digit_char(d: nat) -> char {
    if d == 0 {
        '0'
    } else if d == 1 {
        '1'
    } else if d == 2 {
        '2'
    } else if d == 3 {
        '3'
    } else if d == 4 {
        '4'
    } else if d == 5 {
        '5'
    } else if d == 6 {
        '6'
    } else if d == 7 {
        '7'
    } else if d == 8 {
        '8'
    } else {
        '9'
    }
}

/// The decimal rendering of a natural number, without sign or leading zeros
/// (what `{}` prints for an unsigned integer).
pub open spec fn digits(n: nat) -> Seq<char>
    decreases n,
{
    if n < 10 {
        seq![digit_char(n)]
    } else {
        digits(n / 10).push(digit_char(n % 10))
    }
}

/// The decimal rendering padded with zeros to at least two characters
/// (what `{:02}` prints for an unsigned integer).
pub open spec fn digits_pad2(n: nat) -> Seq<char> {
    if n < 10 {
        seq!['0', digit_char(n)]
    } else {
        digits(n)
    }
}

/// The character is one of the ASCII digits `0` to `9`.
pub open spec fn is_digit(c: char) -> bool {
    '0' <= c && c <= '9'
}

/// Every character is an ASCII digit.
pub open spec fn all_digits(s: Seq<char>) -> bool {
    forall|i: int| 0 <= i < s.len() ==> is_digit(#[trigger] s[i])
}

/// The number a string of decimal digits reads as (most significant first).
pub open spec fn decimal_value(s: Seq<char>) -> nat
    decreases s.len(),
{
    if s.len() == 0 {
        0
    } else {
        decimal_value(s.drop_last()) * 10 + ((s.last() as int) - ('0' as int)) as nat
    }
}

proof fn lemma_digit_char_reads(d: nat)
    requires
        d < 10,
    ensures
        is_digit(digit_char(d)),
        (digit_char(d) as int) - ('0' as int) == d,
{
}

/// The decimal rendering reads back as the number: it is a non-empty string
/// of digits whose value is `n`, and padding to two places keeps the value.
pub proof fn law_digits_read_back(n: nat)
    ensures
        digits(n).len() >= 1,
        all_digits(digits(n)),
        decimal_value(digits(n)) == n,
        digits_pad2(n).len() >= 2,
        all_digits(digits_pad2(n)),
        decimal_value(digits_pad2(n)) == n,
    decreases n,
{
    if n < 10 {
        lemma_digit_char_reads(n);
        lemma_digit_char_reads(0);
        let d = digits(n);
        assert(d.drop_last() =~= Seq::<char>::empty());
        assert(decimal_value(Seq::<char>::empty()) == 0);
        assert(d.last() == digit_char(n));
        assert(decimal_value(d) == decimal_value(d.drop_last()) * 10 + ((d.last() as int) - ('0'
            as int)) as nat);
        let p = digits_pad2(n);
        assert(p.drop_last() =~= seq!['0']);
        assert(seq!['0'].drop_last() =~= Seq::<char>::empty());
        assert(decimal_value(seq!['0']) == decimal_value(seq!['0'].drop_last()) * 10 + ((seq![
            '0',
        ].last() as int) - ('0' as int)) as nat);
        assert(decimal_value(seq!['0']) == 0);
        assert(p.last() == digit_char(n));
        assert(decimal_value(p) == decimal_value(p.drop_last()) * 10 + ((p.last() as int) - ('0'
            as int)) as nat);
    } else {
        law_digits_read_back(n / 10);
        lemma_digit_char_reads(n % 10);
        let d = digits(n);
        assert(d.drop_last() =~= digits(n / 10));
        assert(all_digits(d)) by {
            assert forall|i: int| 0 <= i < d.len() implies is_digit(#[trigger] d[i]) by {
                if i < d.len() - 1 {
                    assert(d[i] == digits(n / 10)[i]);
                }
            }
        }
        assert((n / 10) * 10 + n % 10 == n);
        assert(d.last() == digit_char(n % 10));
        assert(decimal_value(d) == decimal_value(d.drop_last()) * 10 + ((d.last() as int) - ('0'
            as int)) as nat);
    }
}

fn digit_of(d: u64) -> (c: char)
    requires
        d < 10,
    ensures
        c == digit_char(d as nat),
{
    if d == 0 {
        '0'
    } else if d == 1 {
        '1'
    } else if d == 2 {
        '2'
    } else if d == 3 {
        '3'
    } else if d == 4 {
        '4'
    } else if d == 5 {
        '5'
    } else if d == 6 {
        '6'
    } else if d == 7 {
        '7'
    } else if d == 8 {
        '8'
    } else {
        '9'
    }
}

/// Appends the decimal digits of `n`.
pub fn push_decimal(out: &mut Vec<char>, n: u64)
    ensures
        final(out)@ == old(out)@ + digits(n as nat),
    decreases n,
{
    if n >= 10 {
        push_decimal(out, n / 10);
    }
    let c = digit_of(n % 10);
    out.push(c);
    proof {
        if n < 10 {
            assert(n % 10 == n);
        }
        assert(final(out)@ =~= old(out)@ + digits(n as nat));
    }
}

/// Appends the decimal digits of `n`, padded with a zero to two characters.
pub fn push_decimal_pad2(out: &mut Vec<char>, n: u64)
    ensures
        final(out)@ == old(out)@ + digits_pad2(n as nat),
{
    if n < 10 {
        out.push('0');
        let c = digit_of(n);
        out.push(c);
        assert(final(out)@ =~= old(out)@ + digits_pad2(n as nat));
    } else {
        push_decimal(out, n);
    }
}

/// Appends every character of `s`.
pub fn push_seq(out: &mut Vec<char>, s: &Vec<char>)
    ensures
        final(out)@ == old(out)@ + s@,
{
    let mut i: usize = 0;
    while i < s.len()
        invariant
            i <= s.len(),
            out@ == old(out)@ + s@.take(i as int),
        decreases s.len() - i,
    {
        out.push(s[i]);
        i = i + 1;
        assert(out@ =~= old(out)@ + s@.take(i as int));
    }
    assert(s@.take(s.len() as int) =~= s@);
}

/// The characters of a string slice, in order.
pub fn chars_of(s: &str) -> (v: Vec<char>)
    ensures
        v@ == s@,
{
    let mut v: Vec<char> = Vec::new();
    for c in it: s.chars()
        invariant
            v@ == it.seq().take(it.index() as int),
            it.seq() == s@,
    {
        v.push(c);
        assert(v@ =~= it.seq().take(it.index() + 1));
    }
    v
}

/// `w` occurs in `s` at position `i`.
pub open spec fn occurs_at(s: Seq<char>, w: Seq<char>, i: int) -> bool {
    0 <= i && i + w.len() <= s.len() && s.subrange(i, i + w.len()) == w
}

/// Whether `w` occurs at position `i` of `s`.
pub fn matches_at(s: &Vec<char>, w: &Vec<char>, i: usize) -> (b: bool)
    ensures
        b == occurs_at(s@, w@, i as int),
{
    if i > s.len() || w.len() > s.len() - i {
        return false;
    }
    let mut k: usize = 0;
    while k < w.len()
        invariant
            i + w.len() <= s.len(),
            k <= w.len(),
            forall|m: int| 0 <= m < k ==> s@[i + m] == w@[m],
        decreases w.len() - k,
    {
        if s[i + k] != w[k] {
            assert(s@.subrange(i as int, i + w.len())[k as int] != w@[k as int]);
            return false;
        }
        k = k + 1;
    }
    assert(s@.subrange(i as int, i + w.len()) =~= w@);
    true
}

/// Whether `w` occurs anywhere in `s`.
pub fn contains_chars(s: &Vec<char>, w: &Vec<char>) -> (b: bool)
    ensures
        b == (exists|i: int| #[trigger] occurs_at(s@, w@, i)),
{
    if w.len() > s.len() {
        assert forall|i: int| !#[trigger] occurs_at(s@, w@, i) by {}
        return false;
    }
    let last = s.len() - w.len();
    let mut i: usize = 0;
    loop
        invariant
            last == s.len() - w.len(),
            i <= last,
            forall|j: int| 0 <= j < i ==> !#[trigger] occurs_at(s@, w@, j),
        decreases last - i,
    {
        if matches_at(s, w, i) {
            return true;
        }
        if i == last {
            assert forall|j: int| !#[trigger] occurs_at(s@, w@, j) by {
                if 0 <= j <= i {
                }
            }
            return false;
        }
        i = i + 1;
    }
}

/// Builds a `String` from a sequence of characters.
///
/// Trusted: wraps `<String as FromIterator<&char>>::from_iter`, which std
/// documents as building the string from the characters in iteration order
/// (a `Vec` iterates from first to last).
#[verifier::external_body]
pub fn string_from_chars(chars: &Vec<char>) -> (s: String)
    ensures
        s@ == chars@,
{
    String::from_iter(chars)
}

} // verus!
