//! Normalizing the lines of a CIDR list: trimming, dropping blanks,
//! and collapsing duplicates.

use vstd::prelude::*;
use crate::text::{trimmed, trim_str};

verus! {

/// The character sequences of a vector of strings.
pub open spec fn line_views(v: Seq<String>) -> Seq<Seq<char>> {
    v.map_values(|s: String| s@)
}

/// Some string of `v` holds the text `tv`.
pub open spec fn present(v: Seq<String>, tv: Seq<char>) -> bool {
    exists|i: int| 0 <= i < v.len() && (#[trigger] v[i])@ == tv
}

/// `tv` is the trimmed text of some line of `lines`.
pub open spec fn from_some_line(lines: Seq<String>, tv: Seq<char>) -> bool {
    exists|j: int| 0 <= j < lines.len() && tv == trimmed((#[trigger] lines[j])@)
}

/// A text stays present when the vector grows at the end.
proof fn lemma_present_extend(before: Seq<String>, after: Seq<String>, tv: Seq<char>)
    requires
        present(before, tv),
        before.len() <= after.len(),
        forall|i: int| 0 <= i < before.len() ==> after[i] == before[i],
    ensures
        present(after, tv),
{
    let i = choose|i: int| 0 <= i < before.len() && (#[trigger] before[i])@ == tv;
    assert(after[i]@ == tv);
}

/// Whether `v` already holds a string with the text of `s`.
fn contains_line(v: &Vec<String>, s: &String) -> (r: bool)
    ensures
        r == present(v@, s@),
{
    let mut i: usize = 0;
    while i < v.len()
        invariant
            0 <= i <= v@.len(),
            forall|k: int| 0 <= k < i ==> (#[trigger] v@[k])@ != s@,
        decreases v@.len() - i,
    {
        if v[i].eq(s) {
            return true;
        }
        i += 1;
    }
    false
}

/// The distinct nonempty trimmed lines of `lines`: exactly one copy
/// of each trimmed line that is not blank, and nothing else.
#[verifier::rlimit(30)]
pub fn dedup_lines(lines: &Vec<String>) -> (r: Vec<String>)
    ensures
        line_views(r@).no_duplicates(),
        forall|i: int| 0 <= i < r@.len() ==> (#[trigger] r@[i])@.len() > 0,
        forall|i: int| 0 <= i < r@.len() ==> from_some_line(lines@, (#[trigger] r@[i])@),
        forall|j: int|
            0 <= j < lines@.len() ==> trimmed((#[trigger] lines@[j])@).len() == 0 || present(
                r@,
                trimmed(lines@[j]@),
            ),
{
    let mut out: Vec<String> = Vec::new();
    let mut idx: usize = 0;
    while idx < lines.len()
        invariant
            0 <= idx <= lines@.len(),
            line_views(out@).no_duplicates(),
            forall|i: int| 0 <= i < out@.len() ==> (#[trigger] out@[i])@.len() > 0,
            forall|i: int|
                0 <= i < out@.len() ==> from_some_line(
                    lines@.take(idx as int),
                    (#[trigger] out@[i])@,
                ),
            forall|j: int|
                0 <= j < idx ==> trimmed((#[trigger] lines@[j])@).len() == 0 || present(
                    out@,
                    trimmed(lines@[j]@),
                ),
        decreases lines@.len() - idx,
    {
        let t = trim_str(lines[idx].as_str());
        let ghost tv = t@;
        let ghost old_out = out@;
        if !t.as_str().is_empty() && !contains_line(&out, &t) {
            out.push(t);
            proof {
                assert(out@.len() == old_out.len() + 1);
                assert(forall|i: int| 0 <= i < old_out.len() ==> out@[i] == old_out[i]);
                assert(out@[old_out.len() as int]@ == tv);
                let views = line_views(out@);
                assert forall|a: int, b: int|
                    0 <= a < views.len() && 0 <= b < views.len() && a != b implies views[a]
                    != views[b] by {
                    assert(forall|i: int|
                        0 <= i < out@.len() ==> views[i] == (#[trigger] out@[i])@);
                    if a == old_out.len() {
                        assert(!present(old_out, tv));
                        assert(views[b] != tv);
                    } else if b == old_out.len() {
                        assert(!present(old_out, tv));
                        assert(views[a] != tv);
                    } else {
                        assert(line_views(old_out)[a] != line_views(old_out)[b]);
                    }
                }
            }
        }
        proof {
            let taken = lines@.take(idx as int);
            let taken1 = lines@.take(idx + 1);
            assert(forall|j: int| 0 <= j < idx + 1 ==> taken1[j] == lines@[j]);
            assert(forall|i: int| 0 <= i < old_out.len() ==> out@[i] == old_out[i]);
            assert(tv == trimmed(lines@[idx as int]@));
            assert forall|j: int|
                0 <= j < idx + 1 && trimmed((#[trigger] lines@[j])@).len() > 0 implies present(
                out@,
                trimmed(lines@[j]@),
            ) by {
                if j < idx {
                    lemma_present_extend(old_out, out@, trimmed(lines@[j]@));
                } else {
                    if present(old_out, tv) {
                        lemma_present_extend(old_out, out@, tv);
                    } else {
                        assert(out@[old_out.len() as int]@ == tv);
                    }
                }
            }
            assert forall|i: int| 0 <= i < out@.len() implies from_some_line(
                taken1,
                (#[trigger] out@[i])@,
            ) by {
                if i < old_out.len() {
                    let j = choose|j: int|
                        0 <= j < taken.len() && old_out[i]@ == trimmed((#[trigger] taken[j])@);
                    assert(out@[i]@ == trimmed(taken1[j]@));
                } else {
                    assert(out@[i]@ == trimmed(taken1[idx as int]@));
                }
            }
        }
        idx += 1;
    }
    proof {
        assert(lines@.take(lines@.len() as int) =~= lines@);
    }
    out
}

} // verus!
