//! The full generation pass: parse every CIDR of a list, sample each
//! usable block, shuffle the combined addresses, and render them as
//! dotted-quad lines.

use vstd::prelude::*;
use rand::seq::SliceRandom;
use crate::cidr::{cidr_ok, cidr_start, cidr_end, span_len, valid_quad, quad_val, parse_cidr};
use crate::sampler::sample;
use crate::addrfmt::{format_addr, quad_str, lemma_quad_str_round_trip};
use crate::lines::line_views;

verus! {

/// A CIDR text from whose block `count` addresses can be drawn.
pub open spec fn cidr_usable(s: Seq<char>, count: int) -> bool {
    cidr_ok(s) && count <= span_len(cidr_start(s), cidr_end(s))
}

/// How many of `lines` are usable CIDR texts.
pub open spec fn usable_count(lines: Seq<Seq<char>>, count: int) -> int
    decreases lines.len(),
{
    if lines.len() == 0 {
        0
    } else {
        usable_count(lines.drop_last(), count) + if cidr_usable(lines.last(), count) {
            1int
        } else {
            0int
        }
    }
}

/// The address `a` lies in the block of one of `cidrs`.
pub open spec fn addr_from_some_cidr(cidrs: Seq<String>, a: int) -> bool {
    exists|j: int|
        0 <= j < cidrs.len() && cidr_ok((#[trigger] cidrs[j])@) && cidr_start(cidrs[j]@) <= a
            <= cidr_end(cidrs[j]@)
}

/// Relies on rand::seq::SliceRandom::shuffle: reorders the slice in
/// place, keeping exactly the same elements.
#[verifier::external_body]
fn shuffle_addrs(v: &mut Vec<u32>)
    ensures
        final(v)@.to_multiset() == old(v)@.to_multiset(),
{
    v.shuffle(&mut rand::thread_rng());
}

/// Generate `count` random distinct addresses from every usable CIDR
/// of the list, shuffle them together, and render each as dotted-quad
/// text.  A line that is not a usable CIDR contributes nothing and
/// aborts nothing.
pub fn generate_for_cidrs(cidrs: &Vec<String>, count: usize) -> (r: Vec<String>)
    requires
        1 <= count,
    ensures
        r@.len() == count * usable_count(line_views(cidrs@), count as int),
        forall|i: int|
            0 <= i < r@.len() ==> valid_quad((#[trigger] r@[i])@) && addr_from_some_cidr(
                cidrs@,
                quad_val(r@[i]@),
            ),
{
    let mut addrs: Vec<u32> = Vec::new();
    let mut idx: usize = 0;
    while idx < cidrs.len()
        invariant
            1 <= count,
            0 <= idx <= cidrs@.len(),
            addrs@.len() == count * usable_count(line_views(cidrs@).take(idx as int), count as int),
            forall|k: int|
                0 <= k < addrs@.len() ==> addr_from_some_cidr(cidrs@, #[trigger] addrs@[k] as int),
        decreases cidrs@.len() - idx,
    {
        let ghost pre = line_views(cidrs@).take(idx as int);
        let ghost cur = line_views(cidrs@).take(idx + 1);
        let ghost u = usable_count(pre, count as int);
        proof {
            assert(cur.drop_last() =~= pre);
            assert(cur.last() == cidrs@[idx as int]@);
            assert(usable_count(cur, count as int) == u + if cidr_usable(
                cidrs@[idx as int]@,
                count as int,
            ) {
                1int
            } else {
                0int
            });
            assert(count * (u + 1) == count * u + count) by (nonlinear_arith);
        }
        match parse_cidr(cidrs[idx].as_str()) {
            Ok(se) => {
                match sample(se.0, se.1, count) {
                    Ok(picks) => {
                        proof {
                            assert(cidr_usable(cidrs@[idx as int]@, count as int));
                        }
                        let ghost old_addrs = addrs@;
                        let mut k: usize = 0;
                        while k < picks.len()
                            invariant
                                0 <= k <= picks@.len(),
                                addrs@.len() == old_addrs.len() + k,
                                forall|m: int| 0 <= m < old_addrs.len() ==> addrs@[m] == old_addrs[m],
                                forall|m: int|
                                    old_addrs.len() <= m < addrs@.len() ==> addrs@[m] == picks@[m
                                        - old_addrs.len()],
                                forall|m: int|
                                    0 <= m < picks@.len() ==> se.0 <= #[trigger] picks@[m] <= se.1,
                                forall|m: int|
                                    0 <= m < old_addrs.len() ==> addr_from_some_cidr(
                                        cidrs@,
                                        #[trigger] old_addrs[m] as int,
                                    ),
                            decreases picks@.len() - k,
                        {
                            addrs.push(picks[k]);
                            k += 1;
                        }
                        proof {
                            assert(se.0 == cidr_start(cidrs@[idx as int]@));
                            assert(se.1 == cidr_end(cidrs@[idx as int]@));
                            assert forall|m: int| 0 <= m < addrs@.len() implies addr_from_some_cidr(
                                cidrs@,
                                #[trigger] addrs@[m] as int,
                            ) by {
                                if m < old_addrs.len() {
                                    assert(addrs@[m] == old_addrs[m]);
                                    assert(addr_from_some_cidr(cidrs@, old_addrs[m] as int));
                                } else {
                                    assert(addrs@[m] == picks@[m - old_addrs.len()]);
                                    assert(cidr_ok((cidrs@[idx as int])@));
                                    assert(cidr_start(cidrs@[idx as int]@) <= addrs@[m]
                                        <= cidr_end(cidrs@[idx as int]@));
                                }
                            }
                        }
                    },
                    Err(_) => {
                        proof {
                            assert(!cidr_usable(cidrs@[idx as int]@, count as int));
                        }
                    },
                }
            },
            Err(_) => {
                proof {
                    assert(!cidr_ok(cidrs@[idx as int]@));
                }
            },
        }
        idx += 1;
    }
    proof {
        assert(line_views(cidrs@).take(cidrs@.len() as int) =~= line_views(cidrs@));
    }
    let ghost unshuffled = addrs@;
    shuffle_addrs(&mut addrs);
    proof {
        unshuffled.to_multiset_ensures();
        addrs@.to_multiset_ensures();
        assert(addrs@.len() == unshuffled.len());
        assert forall|k: int| 0 <= k < addrs@.len() implies addr_from_some_cidr(
            cidrs@,
            #[trigger] addrs@[k] as int,
        ) by {
            assert(addrs@.contains(addrs@[k]));
            assert(addrs@.to_multiset().count(addrs@[k]) > 0);
            assert(unshuffled.contains(addrs@[k]));
            let m = choose|m: int| 0 <= m < unshuffled.len() && unshuffled[m] == addrs@[k];
            assert(addr_from_some_cidr(cidrs@, unshuffled[m] as int));
        }
    }
    let mut out: Vec<String> = Vec::new();
    let mut k: usize = 0;
    while k < addrs.len()
        invariant
            0 <= k <= addrs@.len(),
            out@.len() == k,
            forall|i: int| 0 <= i < k ==> (#[trigger] out@[i])@ == quad_str(addrs@[i]),
            forall|i: int|
                0 <= i < addrs@.len() ==> addr_from_some_cidr(cidrs@, #[trigger] addrs@[i] as int),
        decreases addrs@.len() - k,
    {
        let line = format_addr(addrs[k]);
        out.push(line);
        k += 1;
    }
    proof {
        assert forall|i: int| 0 <= i < out@.len() implies valid_quad((#[trigger] out@[i])@)
            && addr_from_some_cidr(cidrs@, quad_val(out@[i]@)) by {
            lemma_quad_str_round_trip(addrs@[i]);
            assert(out@[i]@ == quad_str(addrs@[i]));
            assert(quad_val(out@[i]@) == addrs@[i] as int);
        }
    }
    out
}

} // verus!
