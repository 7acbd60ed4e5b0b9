//! Character-level helpers shared by the rest of the crate: conversion
//! between strings and character vectors, prefix tests, trimming and decimal
//! rendering of integers.

use vstd::prelude::*;

verus! {

/// `String::push` appends exactly one character.
pub assume_specification[ String::push ](s: &mut String, c: char)
    ensures
        final(s)@ == old(s)@.push(c),
;

/// The characters of `s`, in order.
pub fn chars_of(s: &str) -> (v: Vec<char>)
    ensures
        v@ == s@,
{
    let n = s.unicode_len();
    let mut v: Vec<char> = Vec::new();
    let mut i: usize = 0;
    while i < n
        invariant
            n == s@.len(),
            i <= n,
            v@ == s@.take(i as int),
        decreases n - i,
    {
        v.push(s.get_char(i));
        assert(s@.take(i as int).push(s@[i as int]) =~= s@.take(i + 1));
        i = i + 1;
    }
    assert(s@.take(n as int) =~= s@);
    v
}

/// The string made of the characters of `v`, in order.
pub fn text_of(v: &Vec<char>) -> (s: String)
    ensures
        s@ == v@,
{
    let mut s = String::new();
    let mut i: usize = 0;
    while i < v.len()
        invariant
            i <= v.len(),
            s@ == v@.take(i as int),
        decreases v.len() - i,
    {
        s.push(v[i]);
        assert(v@.take(i as int).push(v@[i as int]) =~= v@.take(i + 1));
        i = i + 1;
    }
    assert(v@.take(v.len() as int) =~= v@);
    s
}

/// Appends the characters of `tail` to `out`.
pub fn push_all(out: &mut Vec<char>, tail: &Vec<char>)
    ensures
        final(out)@ == old(out)@ + tail@,
{
    let mut i: usize = 0;
    while i < tail.len()
        invariant
            i <= tail.len(),
            out@ == old(out)@ + tail@.take(i as int),
        decreases tail.len() - i,
    {
        out.push(tail[i]);
        assert(tail@.take(i as int).push(tail@[i as int]) =~= tail@.take(i + 1));
        assert(out@ =~= old(out)@ + tail@.take(i + 1));
        i = i + 1;
    }
    assert(tail@.take(tail.len() as int) =~= tail@);
}

/// Whether `s` begins with `prefix`.
pub open spec fn starts_with(s: Seq<char>, prefix: Seq<char>) -> bool {
    prefix.len() <= s.len() && s.take(prefix.len() as int) == prefix
}

/// A text that begins with a prefix still begins with it when more follows.
pub proof fn lemma_starts_with_more(s: Seq<char>, prefix: Seq<char>, more: Seq<char>)
    requires
        starts_with(s, prefix),
    ensures
        starts_with(s + more, prefix),
{
    assert((s + more).take(prefix.len() as int) =~= s.take(prefix.len() as int));
}

/// Tests whether the characters `s` begin with `prefix`.
pub fn has_prefix(s: &Vec<char>, prefix: &Vec<char>) -> (r: bool)
    ensures
        r == starts_with(s@, prefix@),
{
    if prefix.len() > s.len() {
        return false;
    }
    let mut i: usize = 0;
    while i < prefix.len()
        invariant
            i <= prefix.len() <= s.len(),
            s@.take(i as int) == prefix@.take(i as int),
        decreases prefix.len() - i,
    {
        if s[i] != prefix[i] {
            proof {
                if s@.take(prefix.len() as int) == prefix@ {
                    assert(s@.take(prefix.len() as int)[i as int] == prefix@[i as int]);
                }
            }
            return false;
        }
        assert(s@.take(i + 1) =~= s@.take(i as int).push(s@[i as int]));
        assert(prefix@.take(i + 1) =~= prefix@.take(i as int).push(prefix@[i as int]));
        i = i + 1;
    }
    assert(prefix@.take(prefix.len() as int) =~= prefix@);
    true
}

/// The decimal digit for `d`, which is below ten.
pub open spec fn digit_char(d: int) -> char {
    if d == 0 {
        '0'
    } else if d == 1 {
        '1'
    } else if d == 2 {
        '2'
    } else if d == 3 {
        '3'
    } else if d == 4 {
        '4'
    } else if d == 5 {
        '5'
    } else if d == 6 {
        '6'
    } else if d == 7 {
        '7'
    } else if d == 8 {
        '8'
    } else {
        '9'
    }
}

/// The shortest decimal numeral of `n`.
pub open spec fn decimal(n: nat) -> Seq<char>
    decreases n,
{
    if n < 10 {
        seq![digit_char(n as int)]
    } else {
        decimal(n / 10).push(digit_char((n % 10) as int))
    }
}

/// `count` zeros.
pub open spec fn zeros(count: int) -> Seq<char> {
    Seq::new(
        if count > 0 {
            count as nat
        } else {
            0
        },
        |i: int| '0',
    )
}

/// The decimal numeral of `n`, with zeros in front up to `width` characters.
pub open spec fn zero_padded(n: nat, width: int) -> Seq<char> {
    zeros(width - decimal(n).len()) + decimal(n)
}

/// The decimal numeral of `n` with a minus sign where it is negative.
pub open spec fn signed_decimal(n: int) -> Seq<char> {
    if n < 0 {
        seq!['-'] + decimal((-n) as nat)
    } else {
        decimal(n as nat)
    }
}

/// The numeral of `n` filled with zeros to `width` characters, the sign
/// included in the count.
pub open spec fn signed_padded(n: int, width: int) -> Seq<char> {
    if n < 0 {
        seq!['-'] + zero_padded((-n) as nat, width - 1)
    } else {
        zero_padded(n as nat, width)
    }
}

/// The character of one decimal digit.
fn digit(d: u8) -> (c: char)
    requires
        d < 10,
    ensures
        c == digit_char(d as int),
{
    if d == 0 {
        '0'
    } else if d == 1 {
        '1'
    } else if d == 2 {
        '2'
    } else if d == 3 {
        '3'
    } else if d == 4 {
        '4'
    } else if d == 5 {
        '5'
    } else if d == 6 {
        '6'
    } else if d == 7 {
        '7'
    } else if d == 8 {
        '8'
    } else {
        '9'
    }
}

/// The digits of `n`, most significant first.
pub fn decimal_digits(n: u64) -> (v: Vec<char>)
    ensures
        v@ == decimal(n as nat),
{
    let mut v: Vec<char> = Vec::new();
    let mut rest: u64 = n;
    while rest >= 10
        invariant
            decimal(n as nat) == decimal(rest as nat) + v@,
        decreases rest,
    {
        let d: u8 = (rest % 10) as u8;
        let c = digit(d);
        let ghost before = v@;
        v.insert(0, c);
        proof {
            assert(decimal(rest as nat) == decimal((rest / 10) as nat).push(c));
            assert(decimal((rest / 10) as nat).push(c) + before =~= decimal((rest / 10) as nat)
                + v@);
        }
        rest = rest / 10;
    }
    let c = digit(rest as u8);
    let ghost before = v@;
    v.insert(0, c);
    assert(decimal(rest as nat) + before =~= v@);
    v
}

/// Appends the numeral of `n`, filled with zeros to `width` characters.
pub fn push_padded(out: &mut Vec<char>, n: u64, width: usize)
    ensures
        final(out)@ == old(out)@ + zero_padded(n as nat, width as int),
{
    let digits = decimal_digits(n);
    let mut k: usize = digits.len();
    assert(out@ =~= old(out)@ + zeros(0));
    while k < width
        invariant
            digits.len() <= k,
            k <= width || k == digits.len(),
            out@ == old(out)@ + zeros(k - digits.len()),
        decreases width - k,
    {
        out.push('0');
        assert(out@ =~= old(out)@ + zeros(k + 1 - digits.len()));
        k = k + 1;
    }
    push_all(out, &digits);
    proof {
        assert(zeros(k - digits.len()) =~= zeros(width - digits.len()));
        assert(out@ =~= old(out)@ + (zeros(width - digits.len()) + digits@));
    }
}

/// The magnitude of `n`.
pub fn magnitude(n: i64) -> (m: u64)
    ensures
        m == if n < 0 {
            -(n as int)
        } else {
            n as int
        },
{
    if n >= 0 {
        n as u64
    } else if n == i64::MIN {
        9_223_372_036_854_775_808u64
    } else {
        (-n) as u64
    }
}

/// Appends the numeral of `n`, sign first, filled with zeros to `width`
/// characters.
pub fn push_signed_padded(out: &mut Vec<char>, n: i64, width: usize)
    ensures
        final(out)@ == old(out)@ + signed_padded(n as int, width as int),
{
    let m = magnitude(n);
    if n < 0 {
        out.push('-');
        let rest: usize = if width > 0 {
            width - 1
        } else {
            0
        };
        push_padded(out, m, rest);
        proof {
            if width == 0 {
                assert(zeros(0 - decimal(m as nat).len()) =~= zeros(-1 - decimal(m as nat).len()));
            }
            assert(out@ =~= old(out)@ + (seq!['-'] + zero_padded(m as nat, width - 1)));
        }
    } else {
        push_padded(out, m, width);
    }
}

/// The numeral of `n` as a string, with a minus sign where it is negative.
pub fn integer_text(n: i64) -> (s: String)
    ensures
        s@ == signed_decimal(n as int),
{
    let mut out: Vec<char> = Vec::new();
    let m = magnitude(n);
    if n < 0 {
        out.push('-');
    }
    let digits = decimal_digits(m);
    push_all(&mut out, &digits);
    assert(out@ =~= signed_decimal(n as int));
    text_of(&out)
}

/// `s` without the zeros at its end.
pub open spec fn strip_zeros(s: Seq<char>) -> Seq<char>
    decreases s.len(),
{
    if s.len() > 0 && s.last() == '0' {
        strip_zeros(s.drop_last())
    } else {
        s
    }
}

/// Removes the zeros at the end of the digits.
pub fn strip_trailing_zeros(digits: Vec<char>) -> (r: Vec<char>)
    ensures
        r@ == strip_zeros(digits@),
{
    let mut digits = digits;
    let ghost all = digits@;
    while digits.len() > 0 && digits[digits.len() - 1] == '0'
        invariant
            strip_zeros(digits@) == strip_zeros(all),
        decreases digits.len(),
    {
        let ghost before = digits@;
        digits.pop();
        assert(digits@ =~= before.drop_last());
    }
    digits
}

/// The character of a decimal digit; nine stands for what is beyond it.
pub fn digit_of(d: u64) -> (c: char)
    ensures
        c == digit_char(d as int),
{
    if d >= 9 {
        '9'
    } else {
        digit(d as u8)
    }
}

} // verus!
