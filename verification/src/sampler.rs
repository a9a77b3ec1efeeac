//! Drawing a requested number of distinct addresses from an inclusive
//! address range, using a fresh random source.

use vstd::prelude::*;
use rand::Rng;
use crate::errors::ParseError;
use crate::cidr::span_len;

verus! {

/// Relies on rand::Rng::gen_range over the range `0..n`: a uniformly
/// random value below `n`.  The call panics on an empty range, which
/// `n >= 1` rules out.
#[verifier::external_body]
fn random_below(n: u64) -> (r: u64)
    requires
        1 <= n,
    ensures
        r < n,
{
    rand::thread_rng().gen_range(0..n)
}

/// Whether the address `a` was already picked.
fn contains_addr(v: &Vec<u32>, a: u32) -> (r: bool)
    ensures
        r == v@.contains(a),
{
    let mut i: usize = 0;
    while i < v.len()
        invariant
            0 <= i <= v@.len(),
            forall|j: int| 0 <= j < i ==> v@[j] != a,
        decreases v@.len() - i,
    {
        if v[i] == a {
            return true;
        }
        i += 1;
    }
    false
}

/// Draw `count` distinct addresses from `[start, end]`, uniformly at
/// random.  Succeeds exactly when the range holds at least `count`
/// addresses; the one failure is `InsufficientRange`.
///
/// Each round draws a random value below a growing bound and falls
/// back to the bound itself on a collision, so every round adds one
/// fresh address and every size-`count` subset of the range is
/// equally likely.
pub fn sample(start: u32, end: u32, count: usize) -> (r: Result<Vec<u32>, ParseError>)
    requires
        start <= end,
        1 <= count,
    ensures
        match r {
            Ok(picks) => {
                &&& count <= span_len(start, end)
                &&& picks@.len() == count
                &&& picks@.no_duplicates()
                &&& forall|k: int| 0 <= k < picks@.len() ==> start <= #[trigger] picks@[k] <= end
            },
            Err(e) => {
                &&& e == ParseError::InsufficientRange
                &&& count > span_len(start, end)
            },
        },
{
    let size: u64 = (end - start) as u64 + 1;
    if count as u64 > size {
        return Err(ParseError::InsufficientRange);
    }
    let lo: u64 = size - count as u64;
    let mut picks: Vec<u32> = Vec::new();
    let mut j: u64 = lo;
    while j < size
        invariant
            size == span_len(start, end),
            start <= end,
            lo == size - count,
            lo <= j <= size,
            picks@.len() == j - lo,
            picks@.no_duplicates(),
            forall|k: int| 0 <= k < picks@.len() ==> start <= #[trigger] picks@[k] && picks@[k] - start < j,
        decreases size - j,
    {
        let t = random_below(j + 1);
        let cand: u32 = start + t as u32;
        let chosen: u32 = if contains_addr(&picks, cand) {
            start + j as u32
        } else {
            cand
        };
        proof {
            assert(!picks@.contains(chosen));
            assert forall|a: int, b: int|
                0 <= a < picks@.push(chosen).len() && 0 <= b < picks@.push(chosen).len() && a != b
                implies picks@.push(chosen)[a] != picks@.push(chosen)[b] by {
                if a < picks@.len() && b < picks@.len() {
                } else if a == picks@.len() {
                    assert(picks@.push(chosen)[b] == picks@[b]);
                } else {
                    assert(picks@.push(chosen)[a] == picks@[a]);
                }
            }
        }
        picks.push(chosen);
        j += 1;
    }
    Ok(picks)
}

} // verus!
