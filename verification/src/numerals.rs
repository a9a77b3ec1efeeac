//! Decimal numerals over character sequences: the value denoted by a
//! sequence of digit characters, and the shortest numeral of a number.

use vstd::prelude::*;

verus! {

/// `c` is a decimal digit character.
pub open spec fn is_digit(c: char) -> bool {
    ('0' as u32) <= (c as u32) && (c as u32) <= ('9' as u32)
}

/// The numeric value of one digit character.
pub open spec fn digit_val(c: char) -> int {
    (c as u32) - ('0' as u32)
}

/// Every character of `s` is a decimal digit.
pub open spec fn all_digits(s: Seq<char>) -> bool {
    forall|i: int| 0 <= i < s.len() ==> is_digit(s[i])
}

/// The number denoted by a sequence of digit characters, most
/// significant digit first.
pub open spec fn dec_val(s: Seq<char>) -> int
    decreases s.len(),
{
    if s.len() == 0 {
        0
    } else {
        10 * dec_val(s.drop_last()) + digit_val(s.last())
    }
}

/// The digit character of a value below ten.
pub open spec fn digit_char(d: int) -> char {
    if d == 0 {
        '0'
    } else if d == 1 {
        '1'
    } else if d == 2 {
        '2'
    } else if d == 3 {
        '3'
    } else if d == 4 {
        '4'
    } else if d == 5 {
        '5'
    } else if d == 6 {
        '6'
    } else if d == 7 {
        '7'
    } else if d == 8 {
        '8'
    } else {
        '9'
    }
}

/// The shortest decimal numeral of `n`: no leading zero, except that
/// zero itself is written `"0"`.
pub open spec fn dec_rep(n: nat) -> Seq<char>
    decreases n,
{
    if n <= 9 {
        seq![digit_char(n as int)]
    } else {
        dec_rep(n / 10).push(digit_char((n % 10) as int))
    }
}

/// A numeral of digits only denotes a nonnegative number.
pub proof fn lemma_dec_val_nonneg(s: Seq<char>)
    requires
        all_digits(s),
    ensures
        dec_val(s) >= 0,
    decreases s.len(),
{
    if s.len() > 0 {
        assert(all_digits(s.drop_last()));
        lemma_dec_val_nonneg(s.drop_last());
    }
}

/// Dropping trailing digits never increases the value: the value of a
/// prefix of a digit string is at most the value of the whole.
pub proof fn lemma_dec_val_take_le(s: Seq<char>, k: int)
    requires
        all_digits(s),
        0 <= k <= s.len(),
    ensures
        dec_val(s.take(k)) <= dec_val(s),
    decreases s.len(),
{
    if k == s.len() {
        assert(s.take(k) =~= s);
    } else {
        let head = s.drop_last();
        assert(all_digits(head));
        assert(head.take(k) =~= s.take(k));
        lemma_dec_val_take_le(head, k);
        lemma_dec_val_nonneg(head);
    }
}

/// The defining facts of `dec_rep`: it is a digit string with no
/// leading zero that denotes `n`, and small numbers get short numerals.
pub proof fn lemma_dec_rep_correct(n: nat)
    ensures
        all_digits(dec_rep(n)),
        1 <= dec_rep(n).len(),
        dec_val(dec_rep(n)) == n,
        n <= 9 <==> dec_rep(n).len() == 1,
        n >= 1 ==> dec_rep(n).first() != '0',
        n <= 99 ==> dec_rep(n).len() <= 2,
        n <= 999 ==> dec_rep(n).len() <= 3,
    decreases n,
{
    if n <= 9 {
        let s = dec_rep(n);
        assert(s =~= seq![digit_char(n as int)]);
        assert(is_digit(digit_char(n as int)));
        assert(digit_val(digit_char(n as int)) == n);
        assert(s.len() == 1);
        assert(s.last() == digit_char(n as int));
        assert(s.drop_last() =~= Seq::<char>::empty());
        assert(dec_val(s.drop_last()) == 0);
        assert(dec_val(s) == 10 * dec_val(s.drop_last()) + digit_val(s.last()));
    } else {
        let q = n / 10;
        let d = (n % 10) as int;
        assert(1 <= q < n);
        lemma_dec_rep_correct(q);
        let head = dec_rep(q);
        let whole = dec_rep(n);
        assert(whole =~= head.push(digit_char(d)));
        assert(whole.drop_last() =~= head);
        assert(whole.last() == digit_char(d));
        assert(0 <= d <= 9);
        assert(is_digit(digit_char(d)));
        assert forall|i: int| 0 <= i < whole.len() implies is_digit(whole[i]) by {
            if i < head.len() {
                assert(whole[i] == head[i]);
            }
        }
        assert(digit_val(digit_char(d)) == d);
        assert(dec_val(whole) == 10 * dec_val(head) + d);
        assert(10 * (n / 10) + n % 10 == n) by {
            vstd::arithmetic::div_mod::lemma_fundamental_div_mod(n as int, 10);
        }
        assert(whole.first() == head.first());
        assert(n <= 99 ==> q <= 9);
        assert(n <= 999 ==> q <= 99);
    }
}

} // verus!
