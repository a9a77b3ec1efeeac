//! CIDR notation: the grammar of `"A.B.C.D/N"`, the address range a
//! block denotes, and the verified parser.

use vstd::prelude::*;
use vstd::arithmetic::power2::pow2;
use crate::errors::ParseError;
use crate::numerals::{is_digit, digit_val, all_digits, dec_val, lemma_dec_val_take_le,
    lemma_dec_val_nonneg};
use crate::text::{split_on, find_char, lemma_split_on_no_sep, lemma_split_on_first_sep,
    lemma_split_on_has_sep};

verus! {

/// A valid octet: one to three digits, no leading zero unless the
/// octet is exactly `"0"`, denoting a value of at most 255.
pub open spec fn valid_octet(s: Seq<char>) -> bool {
    &&& s.len() >= 1
    &&& all_digits(s)
    &&& (s.len() == 1 || s.first() != '0')
    &&& dec_val(s) <= 255
}

/// A valid dotted-quad address: four valid octets joined by `.`.
pub open spec fn valid_quad(s: Seq<char>) -> bool {
    let parts = split_on(s, '.');
    parts.len() == 4 && (forall|i: int| 0 <= i < 4 ==> valid_octet(parts[i]))
}

/// The address a valid dotted quad denotes.
pub open spec fn quad_val(s: Seq<char>) -> int {
    let parts = split_on(s, '.');
    dec_val(parts[0]) * 0x1000000 + dec_val(parts[1]) * 0x10000 + dec_val(parts[2]) * 0x100
        + dec_val(parts[3])
}

/// A valid prefix length: digits denoting a value of at most 32.
pub open spec fn valid_prefix(s: Seq<char>) -> bool {
    &&& s.len() >= 1
    &&& all_digits(s)
    &&& dec_val(s) <= 32
}

/// A valid CIDR: a dotted quad and a prefix joined by one `/`.
pub open spec fn cidr_ok(s: Seq<char>) -> bool {
    let parts = split_on(s, '/');
    parts.len() == 2 && valid_quad(parts[0]) && valid_prefix(parts[1])
}

/// The base address written in a valid CIDR.
pub open spec fn cidr_base(s: Seq<char>) -> u32 {
    quad_val(split_on(s, '/')[0]) as u32
}

/// The prefix length written in a valid CIDR.
pub open spec fn cidr_prefix(s: Seq<char>) -> u32 {
    dec_val(split_on(s, '/')[1]) as u32
}

/// The network mask of a prefix length: the top `p` bits set.
pub open spec fn mask_of(p: u32) -> u32 {
    if p == 0 {
        0u32
    } else {
        0xFFFF_FFFFu32 << ((32 - p) as u32)
    }
}

/// The first address of the block of `base` with prefix `p`.
pub open spec fn start_of(base: u32, p: u32) -> u32 {
    base & mask_of(p)
}

/// The last address of the block of `base` with prefix `p`.
pub open spec fn end_of(base: u32, p: u32) -> u32 {
    start_of(base, p) | !mask_of(p)
}

/// The first address of the block a valid CIDR denotes.
pub open spec fn cidr_start(s: Seq<char>) -> u32 {
    start_of(cidr_base(s), cidr_prefix(s))
}

/// The last address of the block a valid CIDR denotes.
pub open spec fn cidr_end(s: Seq<char>) -> u32 {
    end_of(cidr_base(s), cidr_prefix(s))
}

/// The number of addresses between `start` and `end`, inclusive.
pub open spec fn span_len(start: u32, end: u32) -> int {
    end - start + 1
}

/// The block of a CIDR always has its start at or before its end.
pub proof fn lemma_start_le_end(base: u32, p: u32)
    ensures
        start_of(base, p) <= end_of(base, p),
{
    let m = mask_of(p);
    assert((base & m) <= ((base & m) | !m)) by (bit_vector);
}

/// Recomputing a block from its own start address gives the block
/// back unchanged: deriving the range from a parsed CIDR is
/// idempotent.
pub proof fn lemma_range_recompute_idempotent(base: u32, p: u32)
    ensures
        start_of(start_of(base, p), p) == start_of(base, p),
        end_of(start_of(base, p), p) == end_of(base, p),
{
    let m = mask_of(p);
    assert(((base & m) & m) == (base & m)) by (bit_vector);
}

/// The size of the block of prefix `p` is exactly two to the power
/// `32 - p`.
pub proof fn lemma_range_size_pow2(base: u32, p: u32)
    requires
        p <= 32,
    ensures
        span_len(start_of(base, p), end_of(base, p)) == vstd::arithmetic::power2::pow2(
            (32 - p) as nat,
        ),
{
    let m = mask_of(p);
    if p == 0 {
        assert((base & 0u32) == 0u32) by (bit_vector);
        assert((0u32 | !0u32) == 0xFFFF_FFFFu32) by (bit_vector);
        vstd::arithmetic::power2::lemma2_to64();
    } else {
        let k = (32 - p) as u32;
        assert(((base & m) | !m) - (base & m) + 1 == (1u32 << k)) by (bit_vector)
            requires
                1 <= p <= 32,
                k == (32 - p) as u32,
                m == 0xFFFF_FFFFu32 << ((32 - p) as u32),
        ;
        vstd::arithmetic::power2::lemma2_to64();
        if (k as nat) < 31 {
            vstd::arithmetic::power2::lemma_pow2_strictly_increases(k as nat, 31);
        }
        assert(pow2(k as nat) <= u32::MAX);
        vstd::bits::lemma_u32_shl_is_mul(1u32, k);
    }
}

/// The block of a valid CIDR with prefix `P` holds exactly two to
/// the power `32 - P` addresses.
pub proof fn lemma_cidr_range_size(s: Seq<char>)
    requires
        cidr_ok(s),
    ensures
        span_len(cidr_start(s), cidr_end(s)) == pow2((32 - cidr_prefix(s)) as nat),
{
    lemma_dec_val_nonneg(split_on(s, '/')[1]);
    assert(cidr_prefix(s) <= 32);
    lemma_range_size_pow2(cidr_base(s), cidr_prefix(s));
}

/// Parse an octet.  Returns its value exactly when the text is a
/// valid octet.
fn parse_octet(s: &str) -> (r: Option<u8>)
    ensures
        match r {
            Some(v) => valid_octet(s@) && v == dec_val(s@),
            None => !valid_octet(s@),
        },
{
    let n = s.unicode_len();
    if n == 0 {
        return None;
    }
    if n >= 2 && s.get_char(0) == '0' {
        return None;
    }
    let mut val: u32 = 0;
    let mut i: usize = 0;
    while i < n
        invariant
            0 <= i <= n,
            n == s@.len(),
            forall|j: int| 0 <= j < i ==> is_digit(s@[j]),
            val == dec_val(s@.take(i as int)),
            val <= 255,
        decreases n - i,
    {
        let c = s.get_char(i);
        let u = c as u32;
        if u < 48 || u > 57 {
            return None;
        }
        proof {
            let pre = s@.take(i + 1);
            assert(pre.drop_last() =~= s@.take(i as int));
            assert(pre.last() == s@[i as int]);
            assert(digit_val(s@[i as int]) == u - 48);
        }
        val = val * 10 + (u - 48);
        if val > 255 {
            proof {
                if all_digits(s@) {
                    lemma_dec_val_take_le(s@, i + 1);
                }
            }
            return None;
        }
        i += 1;
    }
    proof {
        assert(s@.take(n as int) =~= s@);
    }
    Some(val as u8)
}

/// Parse a prefix length.  Returns its value exactly when the text is
/// a valid prefix.
fn parse_prefix(s: &str) -> (r: Option<u32>)
    ensures
        match r {
            Some(v) => valid_prefix(s@) && v == dec_val(s@),
            None => !valid_prefix(s@),
        },
{
    let n = s.unicode_len();
    if n == 0 {
        return None;
    }
    let mut val: u32 = 0;
    let mut i: usize = 0;
    while i < n
        invariant
            0 <= i <= n,
            n == s@.len(),
            forall|j: int| 0 <= j < i ==> is_digit(s@[j]),
            val == dec_val(s@.take(i as int)),
            val <= 32,
        decreases n - i,
    {
        let c = s.get_char(i);
        let u = c as u32;
        if u < 48 || u > 57 {
            return None;
        }
        proof {
            let pre = s@.take(i + 1);
            assert(pre.drop_last() =~= s@.take(i as int));
            assert(pre.last() == s@[i as int]);
            assert(digit_val(s@[i as int]) == u - 48);
        }
        val = val * 10 + (u - 48);
        if val > 32 {
            proof {
                if all_digits(s@) {
                    lemma_dec_val_take_le(s@, i + 1);
                }
            }
            return None;
        }
        i += 1;
    }
    proof {
        assert(s@.take(n as int) =~= s@);
    }
    Some(val)
}

/// Parse a dotted-quad IPv4 address.  Returns the 32-bit address
/// exactly when the text is a valid dotted quad.
pub fn parse_quad(s: &str) -> (r: Option<u32>)
    ensures
        match r {
            Some(v) => valid_quad(s@) && v == quad_val(s@),
            None => !valid_quad(s@),
        },
{
    let n = s.unicode_len();
    let i1 = match find_char(s, 0, '.') {
        Some(i) => i,
        None => {
            proof {
                lemma_split_on_no_sep(s@, '.');
            }
            return None;
        },
    };
    proof {
        lemma_split_on_first_sep(s@, '.', i1 as int);
    }
    let ghost rest1 = s@.subrange(i1 + 1, n as int);
    let i2 = match find_char(s, i1 + 1, '.') {
        Some(i) => i,
        None => {
            proof {
                assert(forall|j: int| 0 <= j < rest1.len() ==> rest1[j] == s@[i1 + 1 + j]);
                lemma_split_on_no_sep(rest1, '.');
            }
            return None;
        },
    };
    proof {
        assert(forall|j: int| 0 <= j < i2 - i1 - 1 ==> rest1[j] == s@[i1 + 1 + j]);
        assert(rest1[i2 - i1 - 1] == s@[i2 as int]);
        lemma_split_on_first_sep(rest1, '.', i2 - i1 - 1);
        assert(rest1.take(i2 - i1 - 1) =~= s@.subrange(i1 + 1, i2 as int));
        assert(rest1.subrange(i2 - i1, rest1.len() as int) =~= s@.subrange(i2 + 1, n as int));
    }
    let ghost rest2 = s@.subrange(i2 + 1, n as int);
    let i3 = match find_char(s, i2 + 1, '.') {
        Some(i) => i,
        None => {
            proof {
                assert(forall|j: int| 0 <= j < rest2.len() ==> rest2[j] == s@[i2 + 1 + j]);
                lemma_split_on_no_sep(rest2, '.');
            }
            return None;
        },
    };
    proof {
        assert(forall|j: int| 0 <= j < i3 - i2 - 1 ==> rest2[j] == s@[i2 + 1 + j]);
        assert(rest2[i3 - i2 - 1] == s@[i3 as int]);
        lemma_split_on_first_sep(rest2, '.', i3 - i2 - 1);
        assert(rest2.take(i3 - i2 - 1) =~= s@.subrange(i2 + 1, i3 as int));
        assert(rest2.subrange(i3 - i2, rest2.len() as int) =~= s@.subrange(i3 + 1, n as int));
    }
    let ghost rest3 = s@.subrange(i3 + 1, n as int);
    match find_char(s, i3 + 1, '.') {
        Some(i4) => {
            proof {
                assert(rest3[i4 - i3 - 1] == s@[i4 as int]);
                lemma_split_on_has_sep(rest3, '.', i4 - i3 - 1);
            }
            return None;
        },
        None => {},
    }
    proof {
        assert(forall|j: int| 0 <= j < rest3.len() ==> rest3[j] == s@[i3 + 1 + j]);
        lemma_split_on_no_sep(rest3, '.');
        assert(split_on(s@, '.') =~= seq![
            s@.take(i1 as int),
            s@.subrange(i1 + 1, i2 as int),
            s@.subrange(i2 + 1, i3 as int),
            rest3,
        ]);
    }
    let p0 = s.substring_char(0, i1);
    let p1 = s.substring_char(i1 + 1, i2);
    let p2 = s.substring_char(i2 + 1, i3);
    let p3 = s.substring_char(i3 + 1, n);
    proof {
        assert(p0@ =~= s@.take(i1 as int));
    }
    let o0 = match parse_octet(p0) {
        Some(v) => v,
        None => {
            return None;
        },
    };
    let o1 = match parse_octet(p1) {
        Some(v) => v,
        None => {
            return None;
        },
    };
    let o2 = match parse_octet(p2) {
        Some(v) => v,
        None => {
            return None;
        },
    };
    let o3 = match parse_octet(p3) {
        Some(v) => v,
        None => {
            return None;
        },
    };
    proof {
        lemma_dec_val_nonneg(p0@);
        lemma_dec_val_nonneg(p1@);
        lemma_dec_val_nonneg(p2@);
        lemma_dec_val_nonneg(p3@);
    }
    let v = (o0 as u32) * 0x1000000 + (o1 as u32) * 0x10000 + (o2 as u32) * 0x100 + (o3 as u32);
    Some(v)
}

/// Parse a CIDR block into the inclusive address range it denotes.
/// Succeeds exactly on valid CIDR text; each failure names the first
/// part of the grammar that the text breaks.
pub fn parse_cidr(text: &str) -> (r: Result<(u32, u32), ParseError>)
    ensures
        match r {
            Ok(se) => {
                &&& cidr_ok(text@)
                &&& se.0 == cidr_start(text@)
                &&& se.1 == cidr_end(text@)
                &&& se.0 <= se.1
            },
            Err(e) => match e {
                ParseError::MalformedCidr => split_on(text@, '/').len() != 2,
                ParseError::InvalidAddress => split_on(text@, '/').len() == 2 && !valid_quad(
                    split_on(text@, '/')[0],
                ),
                ParseError::InvalidPrefix => split_on(text@, '/').len() == 2 && valid_quad(
                    split_on(text@, '/')[0],
                ) && !valid_prefix(split_on(text@, '/')[1]),
                ParseError::InsufficientRange => false,
            },
        },
{
    let n = text.unicode_len();
    let i = match find_char(text, 0, '/') {
        Some(i) => i,
        None => {
            proof {
                lemma_split_on_no_sep(text@, '/');
            }
            return Err(ParseError::MalformedCidr);
        },
    };
    proof {
        lemma_split_on_first_sep(text@, '/', i as int);
    }
    let ghost rest = text@.subrange(i + 1, n as int);
    match find_char(text, i + 1, '/') {
        Some(i2) => {
            proof {
                assert(rest[i2 - i - 1] == text@[i2 as int]);
                lemma_split_on_has_sep(rest, '/', i2 - i - 1);
            }
            return Err(ParseError::MalformedCidr);
        },
        None => {},
    }
    proof {
        assert(forall|j: int| 0 <= j < rest.len() ==> rest[j] == text@[i + 1 + j]);
        lemma_split_on_no_sep(rest, '/');
        assert(split_on(text@, '/') =~= seq![text@.take(i as int), rest]);
    }
    let addr_part = text.substring_char(0, i);
    let prefix_part = text.substring_char(i + 1, n);
    proof {
        assert(addr_part@ =~= text@.take(i as int));
    }
    let base = match parse_quad(addr_part) {
        Some(v) => v,
        None => {
            return Err(ParseError::InvalidAddress);
        },
    };
    let p = match parse_prefix(prefix_part) {
        Some(v) => v,
        None => {
            return Err(ParseError::InvalidPrefix);
        },
    };
    let mask: u32 = if p == 0 {
        0
    } else {
        0xFFFF_FFFFu32 << ((32 - p) as u32)
    };
    let start = base & mask;
    let end = start | !mask;
    proof {
        assert(mask == mask_of(p));
        lemma_start_le_end(base, p);
    }
    Ok((start, end))
}

} // verus!
