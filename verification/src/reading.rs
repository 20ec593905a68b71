//! Reading text: what it takes to get back what was written.

use crate::text::{decimal, digit, hex};
use vstd::arithmetic::div_mod::{lemma_mod_breakdown, lemma_small_mod};
use vstd::prelude::*;

verus! {

/// The value of a digit, for bases up to sixteen.
pub open spec fn digit_value(c: char) -> Option<nat> {
    if '0' <= c <= '9' {
        Some((c as int - '0' as int) as nat)
    } else if 'a' <= c <= 'f' {
        Some((c as int - 'a' as int + 10) as nat)
    } else {
        None
    }
}

/// `s` is made of digits of the given base.
pub open spec fn is_numeral(s: Seq<char>, base: nat) -> bool {
    forall|i: int|
        0 <= i < s.len() ==> (digit_value(#[trigger] s[i]) matches Some(d) && d < base)
}

/// The number that digits stand for, the last one with the weight 1.
pub open spec fn numeral(s: Seq<char>, base: nat) -> nat
    decreases s.len(),
{
    if s.len() == 0 {
        0
    } else {
        numeral(s.drop_last(), base) * base + digit_value(s.last())->0
    }
}

/// Sixteen to the power of `n`.
pub open spec fn power_of_sixteen(n: nat) -> nat
    decreases n,
{
    if n == 0 {
        1
    } else {
        16 * power_of_sixteen((n - 1) as nat)
    }
}

/// Hexadecimal digits denote the number that they were written for, as far as it
/// fits: there are as many as asked for, and they are the lowest ones.
pub proof fn hex_reads_back(n: nat, width: nat)
    ensures
        hex(n, width).len() == width,
        is_numeral(hex(n, width), 16),
        numeral(hex(n, width), 16) == n % power_of_sixteen(width),
        power_of_sixteen(width) > 0,
    decreases width,
{
    if width > 0 {
        let rest = hex(n / 16, (width - 1) as nat);
        let p = power_of_sixteen((width - 1) as nat);
        hex_reads_back(n / 16, (width - 1) as nat);
        assert(hex(n, width).drop_last() =~= rest);
        assert(digit_value(digit(n % 16)) == Some(n % 16));
        lemma_mod_breakdown(n as int, 16, p as int);
    }
}

/// Every number of 32 bits is denoted by eight hexadecimal digits.
pub proof fn word_reads_back(bits: u32)
    ensures
        hex(bits as nat, 8).len() == 8,
        is_numeral(hex(bits as nat, 8), 16),
        numeral(hex(bits as nat, 8), 16) == bits,
{
    reveal_with_fuel(power_of_sixteen, 9);
    hex_reads_back(bits as nat, 8);
    lemma_small_mod(bits as nat, power_of_sixteen(8));
}

/// Decimal digits denote the number that they were written for, and there is no
/// needless zero at the front.
pub proof fn decimal_reads_back(n: nat)
    ensures
        decimal(n).len() > 0,
        is_numeral(decimal(n), 10),
        numeral(decimal(n), 10) == n,
        decimal(n)[0] == '0' ==> n == 0 && decimal(n).len() == 1,
    decreases n,
{
    assert(digit_value(digit(n % 10)) == Some(n % 10));
    if n >= 10 {
        decimal_reads_back(n / 10);
        assert(decimal(n).drop_last() =~= decimal(n / 10));
        assert(decimal(n)[0] == decimal(n / 10)[0]);
    } else {
        assert(seq![digit(n)].drop_last() =~= Seq::<char>::empty());
        assert(numeral(Seq::<char>::empty(), 10) == 0);
    }
}

/// `s` are the decimal digits of `n`, without a needless zero at the front.
pub open spec fn denotes(s: Seq<char>, n: int) -> bool {
    s.len() > 0 && is_numeral(s, 10) && numeral(s, 10) == n && (s[0] == '0' ==> s.len() == 1)
}

/// What follows `piece`, if the text starts with it.
pub open spec fn after(s: Seq<char>, piece: Seq<char>) -> Option<Seq<char>> {
    if piece.len() <= s.len() && s.take(piece.len() as int) == piece {
        Some(s.skip(piece.len() as int))
    } else {
        None
    }
}

/// A piece that was written is found again.
pub proof fn after_reads(piece: Seq<char>, rest: Seq<char>)
    ensures
        after(piece + rest, piece) == Some(rest),
{
    assert((piece + rest).take(piece.len() as int) =~= piece);
    assert((piece + rest).skip(piece.len() as int) =~= rest);
}

/// A text that starts differently does not start with `piece`.
pub proof fn after_fails(s: Seq<char>, piece: Seq<char>, i: int)
    requires
        0 <= i < s.len(),
        i < piece.len(),
        s[i] != piece[i],
    ensures
        after(s, piece) is None,
{
    if piece.len() <= s.len() {
        assert(s.take(piece.len() as int)[i] == s[i]);
    }
}

/// The text up to the first `c`, and what is left from there on.
pub open spec fn until(s: Seq<char>, c: char) -> (Seq<char>, Seq<char>)
    decreases s.len(),
{
    if s.len() == 0 || s[0] == c {
        (Seq::empty(), s)
    } else {
        let (front, rest) = until(s.drop_first(), c);
        (seq![s[0]] + front, rest)
    }
}

/// A piece without `c` is found again where `c` follows.
pub proof fn until_reads(piece: Seq<char>, c: char, rest: Seq<char>)
    requires
        !piece.contains(c),
        rest.len() > 0,
        rest[0] == c,
    ensures
        until(piece + rest, c) == (piece, rest),
    decreases piece.len(),
{
    let s = piece + rest;
    if piece.len() == 0 {
        assert(s =~= rest);
    } else {
        let tail = piece.drop_first();
        assert(piece.contains(piece[0]));
        assert(s.drop_first() =~= tail + rest);
        assert(!tail.contains(c)) by {
            if tail.contains(c) {
                let i = choose|i: int| 0 <= i < tail.len() && tail[i] == c;
                assert(piece[i + 1] == c);
            }
        }
        until_reads(tail, c, rest);
        assert(seq![piece[0]] + tail =~= piece);
    }
}

/// The length of the run of decimal digits that a text starts with.
pub open spec fn run_of_digits(s: Seq<char>) -> nat
    decreases s.len(),
{
    if s.len() > 0 && '0' <= s[0] <= '9' {
        1 + run_of_digits(s.drop_first())
    } else {
        0
    }
}

/// The decimal number that a text starts with, and what follows it.  A number has
/// no needless zero at the front.
pub open spec fn read_number(s: Seq<char>) -> Option<(nat, Seq<char>)> {
    let n = run_of_digits(s);
    if n > 0 && (s[0] == '0' ==> n == 1) {
        Some((numeral(s.take(n as int), 10), s.skip(n as int)))
    } else {
        None
    }
}

/// A text that does not start with a decimal digit.
pub open spec fn starts_otherwise(s: Seq<char>) -> bool {
    s.len() == 0 || !('0' <= s[0] <= '9')
}

proof fn run_stops(piece: Seq<char>, rest: Seq<char>)
    requires
        is_numeral(piece, 10),
        starts_otherwise(rest),
    ensures
        run_of_digits(piece + rest) == piece.len(),
    decreases piece.len(),
{
    let s = piece + rest;
    if piece.len() == 0 {
        assert(s =~= rest);
    } else {
        let tail = piece.drop_first();
        assert(s.drop_first() =~= tail + rest);
        assert(digit_value(piece[0]) is Some);
        assert forall|i: int| 0 <= i < tail.len() implies (digit_value(#[trigger] tail[i]) matches Some(
            d,
        ) && d < 10) by {
            assert(tail[i] == piece[i + 1]);
        }
        run_stops(tail, rest);
    }
}

/// A number that was written in decimal is found again.
pub proof fn number_reads(n: nat, rest: Seq<char>)
    requires
        starts_otherwise(rest),
    ensures
        read_number(decimal(n) + rest) == Some((n, rest)),
{
    let s = decimal(n) + rest;
    decimal_reads_back(n);
    run_stops(decimal(n), rest);
    assert(s.take(decimal(n).len() as int) =~= decimal(n));
    assert(s.skip(decimal(n).len() as int) =~= rest);
}

/// The number of 32 bits that eight hexadecimal digits denote, and what follows
/// them.
pub open spec fn read_word(s: Seq<char>) -> Option<(u32, Seq<char>)> {
    if s.len() >= 8 && is_numeral(s.take(8), 16) {
        Some((numeral(s.take(8), 16) as u32, s.skip(8)))
    } else {
        None
    }
}

/// A number of 32 bits that was written in hexadecimal is found again.
pub proof fn word_reads(bits: u32, rest: Seq<char>)
    ensures
        read_word(hex(bits as nat, 8) + rest) == Some((bits, rest)),
{
    let s = hex(bits as nat, 8) + rest;
    word_reads_back(bits);
    assert(s.take(8) =~= hex(bits as nat, 8));
    assert(s.skip(8) =~= rest);
}

} // verus!
