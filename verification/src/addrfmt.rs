//! Rendering a 32-bit address as dotted-quad text, and the proof that
//! the text parses back to the same address.

use vstd::prelude::*;
use vstd::arithmetic::div_mod::{lemma_fundamental_div_mod, lemma_div_denominator,
    lemma_mod_division_less_than_divisor, lemma_div_is_ordered};
use crate::numerals::{dec_rep, dec_val, digit_char, is_digit, lemma_dec_rep_correct};
use crate::cidr::{valid_quad, quad_val, valid_octet};
use crate::text::{split_on, lemma_split_on_no_sep, lemma_split_on_concat};

verus! {

/// The most significant byte of an address.
pub open spec fn octet0(a: u32) -> nat {
    (a / 0x1000000) as nat
}

/// The second byte of an address.
pub open spec fn octet1(a: u32) -> nat {
    ((a / 0x10000) % 0x100) as nat
}

/// The third byte of an address.
pub open spec fn octet2(a: u32) -> nat {
    ((a / 0x100) % 0x100) as nat
}

/// The least significant byte of an address.
pub open spec fn octet3(a: u32) -> nat {
    (a % 0x100) as nat
}

/// The dotted-quad text of an address.
pub open spec fn quad_str(a: u32) -> Seq<char> {
    dec_rep(octet0(a)) + seq!['.'] + dec_rep(octet1(a)) + seq!['.'] + dec_rep(octet2(a))
        + seq!['.'] + dec_rep(octet3(a))
}

/// The four bytes lie below 256 and reassemble to the address.
proof fn lemma_octet_decomposition(a: u32)
    ensures
        octet0(a) <= 255,
        octet1(a) <= 255,
        octet2(a) <= 255,
        octet3(a) <= 255,
        octet0(a) * 0x1000000 + octet1(a) * 0x10000 + octet2(a) * 0x100 + octet3(a) == a,
{
    let x = a as int;
    lemma_mod_division_less_than_divisor(x, 0x100);
    lemma_mod_division_less_than_divisor(x / 0x10000, 0x100);
    lemma_mod_division_less_than_divisor(x / 0x100, 0x100);
    lemma_div_is_ordered(x, 0xFFFF_FFFF, 0x1000000);
    assert(0xFFFF_FFFFint / 0x1000000int == 255) by {
        lemma_fundamental_div_mod(0xFFFF_FFFFint, 0x1000000int);
        vstd::arithmetic::div_mod::lemma_remainder_lower(0xFFFF_FFFFint, 0x1000000int);
        vstd::arithmetic::div_mod::lemma_remainder_upper(0xFFFF_FFFFint, 0x1000000int);
    }
    vstd::arithmetic::div_mod::lemma_div_pos_is_pos(x, 0x1000000);
    lemma_fundamental_div_mod(x, 0x100);
    lemma_fundamental_div_mod(x / 0x100, 0x100);
    lemma_fundamental_div_mod(x / 0x10000, 0x100);
    lemma_div_denominator(x, 0x100, 0x100);
    assert((x / 0x100) / 0x100 == x / 0x10000);
    lemma_div_denominator(x, 0x10000, 0x100);
    assert((x / 0x10000) / 0x100 == x / 0x1000000);
    vstd::arithmetic::div_mod::lemma_div_pos_is_pos(x, 0x100);
    vstd::arithmetic::div_mod::lemma_div_pos_is_pos(x, 0x10000);
}

/// Append one digit character to `out`.
fn push_digit(out: &mut String, d: u32)
    requires
        d <= 9,
    ensures
        final(out)@ == old(out)@ + seq![digit_char(d as int)],
{
    if d == 0 {
        out.append("0");
        proof {
            reveal_strlit("0");
            assert("0"@ =~= seq![digit_char(0)]);
        }
    } else if d == 1 {
        out.append("1");
        proof {
            reveal_strlit("1");
            assert("1"@ =~= seq![digit_char(1)]);
        }
    } else if d == 2 {
        out.append("2");
        proof {
            reveal_strlit("2");
            assert("2"@ =~= seq![digit_char(2)]);
        }
    } else if d == 3 {
        out.append("3");
        proof {
            reveal_strlit("3");
            assert("3"@ =~= seq![digit_char(3)]);
        }
    } else if d == 4 {
        out.append("4");
        proof {
            reveal_strlit("4");
            assert("4"@ =~= seq![digit_char(4)]);
        }
    } else if d == 5 {
        out.append("5");
        proof {
            reveal_strlit("5");
            assert("5"@ =~= seq![digit_char(5)]);
        }
    } else if d == 6 {
        out.append("6");
        proof {
            reveal_strlit("6");
            assert("6"@ =~= seq![digit_char(6)]);
        }
    } else if d == 7 {
        out.append("7");
        proof {
            reveal_strlit("7");
            assert("7"@ =~= seq![digit_char(7)]);
        }
    } else if d == 8 {
        out.append("8");
        proof {
            reveal_strlit("8");
            assert("8"@ =~= seq![digit_char(8)]);
        }
    } else {
        out.append("9");
        proof {
            reveal_strlit("9");
            assert("9"@ =~= seq![digit_char(9)]);
        }
    }
}

/// The numeral of a three-digit value, digit by digit.
proof fn lemma_dec_rep_digits(v: u32)
    requires
        v <= 999,
    ensures
        v <= 9 ==> dec_rep(v as nat) == seq![digit_char(v as int)],
        10 <= v <= 99 ==> dec_rep(v as nat) == seq![
            digit_char(v as int / 10),
            digit_char(v as int % 10),
        ],
        100 <= v ==> dec_rep(v as nat) == seq![
            digit_char(v as int / 100),
            digit_char((v as int / 10) % 10),
            digit_char(v as int % 10),
        ],
{
    let n = v as nat;
    if v <= 9 {
        assert(dec_rep(n) =~= seq![digit_char(n as int)]);
    } else if v <= 99 {
        assert(dec_rep(n) == dec_rep(n / 10).push(digit_char((n % 10) as int)));
        assert(n / 10 <= 9);
        assert(dec_rep(n / 10) =~= seq![digit_char((n / 10) as int)]);
        assert(dec_rep(n) =~= seq![digit_char((n / 10) as int), digit_char((n % 10) as int)]);
    } else {
        assert(dec_rep(n) == dec_rep(n / 10).push(digit_char((n % 10) as int)));
        assert(10 <= n / 10 <= 99);
        assert(dec_rep(n / 10) == dec_rep((n / 10) / 10).push(digit_char(((n / 10) % 10) as int)));
        lemma_div_denominator(n as int, 10, 10);
        assert((n / 10) / 10 == n / 100);
        assert(n / 100 <= 9);
        assert(dec_rep(n / 100) =~= seq![digit_char((n / 100) as int)]);
        assert(dec_rep(n) =~= seq![
            digit_char((n / 100) as int),
            digit_char(((n / 10) % 10) as int),
            digit_char((n % 10) as int),
        ]);
    }
}

/// Append the numeral of an octet value to `out`.
fn push_octet(out: &mut String, v: u32)
    requires
        v <= 255,
    ensures
        final(out)@ == old(out)@ + dec_rep(v as nat),
{
    proof {
        lemma_dec_rep_digits(v);
    }
    if v >= 100 {
        push_digit(out, v / 100);
        push_digit(out, (v / 10) % 10);
        push_digit(out, v % 10);
        proof {
            assert(out@ =~= old(out)@ + dec_rep(v as nat));
        }
    } else if v >= 10 {
        push_digit(out, v / 10);
        push_digit(out, v % 10);
        proof {
            assert(out@ =~= old(out)@ + dec_rep(v as nat));
        }
    } else {
        push_digit(out, v);
        proof {
            assert(out@ =~= old(out)@ + dec_rep(v as nat));
        }
    }
}

/// Render an address as dotted-quad text.
pub fn format_addr(a: u32) -> (r: String)
    ensures
        r@ == quad_str(a),
{
    proof {
        lemma_octet_decomposition(a);
    }
    let o0 = a / 0x1000000;
    let o1 = (a / 0x10000) % 0x100;
    let o2 = (a / 0x100) % 0x100;
    let o3 = a % 0x100;
    let mut out = String::new();
    push_octet(&mut out, o0);
    out.append(".");
    push_octet(&mut out, o1);
    out.append(".");
    push_octet(&mut out, o2);
    out.append(".");
    push_octet(&mut out, o3);
    proof {
        reveal_strlit(".");
        assert("."@ =~= seq!['.']);
        assert(out@ =~= quad_str(a));
    }
    out
}

/// The dotted-quad text of any address is a valid quad and denotes
/// that address again: rendering and parsing round-trip.
pub proof fn lemma_quad_str_round_trip(a: u32)
    ensures
        valid_quad(quad_str(a)),
        quad_val(quad_str(a)) == a,
{
    lemma_octet_decomposition(a);
    let r0 = dec_rep(octet0(a));
    let r1 = dec_rep(octet1(a));
    let r2 = dec_rep(octet2(a));
    let r3 = dec_rep(octet3(a));
    lemma_dec_rep_correct(octet0(a));
    lemma_dec_rep_correct(octet1(a));
    lemma_dec_rep_correct(octet2(a));
    lemma_dec_rep_correct(octet3(a));
    let s = quad_str(a);
    let tail1 = r1 + seq!['.'] + r2 + seq!['.'] + r3;
    let tail2 = r2 + seq!['.'] + r3;
    assert(forall|i: int| 0 <= i < r0.len() ==> is_digit(r0[i]) && r0[i] != '.');
    assert(forall|i: int| 0 <= i < r1.len() ==> is_digit(r1[i]) && r1[i] != '.');
    assert(forall|i: int| 0 <= i < r2.len() ==> is_digit(r2[i]) && r2[i] != '.');
    assert(forall|i: int| 0 <= i < r3.len() ==> is_digit(r3[i]) && r3[i] != '.');
    assert(s =~= r0 + seq!['.'] + tail1);
    lemma_split_on_concat(r0, tail1, '.');
    assert(tail1 =~= r1 + seq!['.'] + tail2);
    lemma_split_on_concat(r1, tail2, '.');
    lemma_split_on_concat(r2, r3, '.');
    lemma_split_on_no_sep(r3, '.');
    let parts = split_on(s, '.');
    assert(parts =~~= seq![r0, r1, r2, r3]);
    assert(valid_octet(r0));
    assert(valid_octet(r1));
    assert(valid_octet(r2));
    assert(valid_octet(r3));
    assert(quad_val(s) == dec_val(r0) * 0x1000000 + dec_val(r1) * 0x10000 + dec_val(r2) * 0x100
        + dec_val(r3));
}

} // verus!
