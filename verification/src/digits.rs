//! Decimal digit strings: what a number looks like in the persistence
//! format and in the timer display, and why reading such a string back
//! gives the number that was written.

use vstd::prelude::*;

verus! {

/// The character for one decimal digit value.
pub open spec fn digit_char(d: int) -> char {
    if d == 0 { '0' }
    else if d == 1 { '1' }
    else if d == 2 { '2' }
    else if d == 3 { '3' }
    else if d == 4 { '4' }
    else if d == 5 { '5' }
    else if d == 6 { '6' }
    else if d == 7 { '7' }
    else if d == 8 { '8' }
    else { '9' }
}

/// Whether a character is a decimal digit.
pub open spec fn is_digit_char(c: char) -> bool {
    48 <= c as int <= 57
}

/// The numeric value of a digit character.
pub open spec fn digit_val(c: char) -> int {
    c as int - 48
}

/// The canonical decimal form of a natural number: no sign, no leading zeros.
pub open spec fn dec_digits(n: nat) -> Seq<char>
    decreases n,
{
    if n < 10 {
        seq![digit_char(n as int)]
    } else {
        dec_digits(n / 10) + seq![digit_char((n % 10) as int)]
    }
}

/// Reading a digit string left to right into an accumulator.
pub open spec fn dec_fold(s: Seq<char>, acc: int) -> int
    decreases s.len(),
{
    if s.len() == 0 {
        acc
    } else {
        dec_fold(s.drop_first(), acc * 10 + digit_val(s.first()))
    }
}

/// The value of a digit string.
pub open spec fn dec_value(s: Seq<char>) -> int {
    dec_fold(s, 0)
}

/// Every character of a digit string is a digit.
pub open spec fn all_digits(s: Seq<char>) -> bool {
    forall|i: int| 0 <= i < s.len() ==> is_digit_char(#[trigger] s[i])
}

pub proof fn lemma_dec_digits_are_digits(n: nat)
    ensures
        dec_digits(n).len() >= 1,
        all_digits(dec_digits(n)),
    decreases n,
{
    if n >= 10 {
        lemma_dec_digits_are_digits(n / 10);
        assert forall|i: int| 0 <= i < dec_digits(n).len() implies is_digit_char(
            #[trigger] dec_digits(n)[i],
        ) by {
            if i < dec_digits(n / 10).len() {
                assert(dec_digits(n)[i] == dec_digits(n / 10)[i]);
            }
        }
    }
}

/// Folding distributes over concatenation.
pub proof fn lemma_dec_fold_append(a: Seq<char>, b: Seq<char>, acc: int)
    ensures
        dec_fold(a + b, acc) == dec_fold(b, dec_fold(a, acc)),
    decreases a.len(),
{
    if a.len() == 0 {
        assert(a + b =~= b);
    } else {
        assert((a + b).drop_first() =~= a.drop_first() + b);
        lemma_dec_fold_append(a.drop_first(), b, acc * 10 + digit_val(a.first()));
    }
}

pub proof fn lemma_dec_fold_singleton(c: char, acc: int)
    ensures
        dec_fold(seq![c], acc) == acc * 10 + digit_val(c),
{
    reveal_with_fuel(dec_fold, 2);
    assert(seq![c].drop_first() =~= Seq::<char>::empty());
}

/// Reading back the canonical decimal form of `n` yields `n`.
pub proof fn lemma_dec_digits_round_trip(n: nat)
    ensures
        dec_value(dec_digits(n)) == n,
    decreases n,
{
    if n < 10 {
        lemma_dec_fold_singleton(digit_char(n as int), 0);
    } else {
        let q: int = (n as int) / 10;
        let r: int = (n as int) % 10;
        lemma_dec_digits_round_trip((n / 10) as nat);
        let a = dec_digits((n / 10) as nat);
        let b = seq![digit_char(r)];
        lemma_dec_fold_append(a, b, 0);
        assert(digit_val(digit_char(r)) == r);
        lemma_dec_fold_singleton(digit_char(r), q);
    }
}

/// Appends the canonical decimal form of `n` to `out`.
pub fn push_dec_digits(out: &mut Vec<char>, n: u64)
    ensures
        final(out)@ == old(out)@ + dec_digits(n as nat),
    decreases n,
{
    if n < 10 {
        out.push(digit_char_exec(n as u8));
        assert(final(out)@ =~= old(out)@ + dec_digits(n as nat));
    } else {
        push_dec_digits(out, n / 10);
        out.push(digit_char_exec((n % 10) as u8));
        assert(final(out)@ =~= old(out)@ + dec_digits(n as nat));
    }
}

/// The digit character for a value below ten.
pub fn digit_char_exec(d: u8) -> (c: char)
    requires
        d < 10,
    ensures
        c == digit_char(d as int),
{
    if d == 0 { '0' }
    else if d == 1 { '1' }
    else if d == 2 { '2' }
    else if d == 3 { '3' }
    else if d == 4 { '4' }
    else if d == 5 { '5' }
    else if d == 6 { '6' }
    else if d == 7 { '7' }
    else if d == 8 { '8' }
    else { '9' }
}

/// The numeric value of a digit character, or `None` for any other character.
pub fn digit_val_exec(c: char) -> (r: Option<u8>)
    ensures
        r is Some <==> is_digit_char(c),
        r is Some ==> r->0 == digit_val(c) && r->0 < 10,
{
    let v = c as u32;
    if 48 <= v && v <= 57 {
        Some((v - 48) as u8)
    } else {
        None
    }
}

} // verus!
