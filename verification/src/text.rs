//! Splitting a character sequence on a separator, and trimming
//! whitespace, together with the executable helpers that realize them.

use vstd::prelude::*;

verus! {

/// The parts of `s` between occurrences of `sep`, in order.  A string
/// without the separator is one part; each separator adds a part.
pub open spec fn split_on(s: Seq<char>, sep: char) -> Seq<Seq<char>>
    decreases s.len(),
{
    if s.len() == 0 {
        seq![s]
    } else {
        let rest = split_on(s.drop_first(), sep);
        if s[0] == sep {
            seq![Seq::<char>::empty()] + rest
        } else {
            seq![seq![s[0]] + rest[0]] + rest.drop_first()
        }
    }
}

/// Splitting always yields at least one part.
pub proof fn lemma_split_on_len(s: Seq<char>, sep: char)
    ensures
        split_on(s, sep).len() >= 1,
    decreases s.len(),
{
    if s.len() > 0 {
        lemma_split_on_len(s.drop_first(), sep);
    }
}

/// A string free of the separator is a single part.
pub proof fn lemma_split_on_no_sep(s: Seq<char>, sep: char)
    requires
        forall|i: int| 0 <= i < s.len() ==> s[i] != sep,
    ensures
        split_on(s, sep) == seq![s],
    decreases s.len(),
{
    if s.len() == 0 {
    } else {
        let tail = s.drop_first();
        lemma_split_on_no_sep(tail, sep);
        let rest = split_on(tail, sep);
        assert(rest == seq![tail]);
        assert(rest[0] == tail);
        assert(seq![s[0]] + tail =~= s);
        assert(rest.drop_first() =~= Seq::<Seq<char>>::empty());
        assert(split_on(s, sep) =~= seq![s]);
    }
}

/// If the first separator of `s` stands at `i`, the parts of `s` are
/// the text before `i` followed by the parts of the text after `i`.
pub proof fn lemma_split_on_first_sep(s: Seq<char>, sep: char, i: int)
    requires
        0 <= i < s.len(),
        s[i] == sep,
        forall|j: int| 0 <= j < i ==> s[j] != sep,
    ensures
        split_on(s, sep) == seq![s.take(i)] + split_on(s.subrange(i + 1, s.len() as int), sep),
    decreases i,
{
    if i == 0 {
        assert(s.take(0) =~= Seq::<char>::empty());
        assert(s.subrange(1, s.len() as int) =~= s.drop_first());
        assert(split_on(s, sep) =~= seq![s.take(0)] + split_on(s.drop_first(), sep));
    } else {
        let tail = s.drop_first();
        assert(tail[i - 1] == sep);
        assert(forall|j: int| 0 <= j < i - 1 ==> tail[j] != sep);
        lemma_split_on_first_sep(tail, sep, i - 1);
        let rest = split_on(tail, sep);
        let after_tail = tail.subrange(i as int, tail.len() as int);
        assert(rest == seq![tail.take(i - 1)] + split_on(after_tail, sep));
        lemma_split_on_len(after_tail, sep);
        assert(rest[0] == tail.take(i - 1));
        assert(seq![s[0]] + tail.take(i - 1) =~= s.take(i));
        assert(rest.drop_first() =~= split_on(after_tail, sep));
        assert(after_tail =~= s.subrange(i + 1, s.len() as int));
        assert(split_on(s, sep) =~= seq![s.take(i)] + split_on(
            s.subrange(i + 1, s.len() as int),
            sep,
        ));
    }
}

/// The parts of a separator-free prefix, one separator, and a rest.
pub proof fn lemma_split_on_concat(a: Seq<char>, b: Seq<char>, sep: char)
    requires
        forall|i: int| 0 <= i < a.len() ==> a[i] != sep,
    ensures
        split_on(a + seq![sep] + b, sep) == seq![a] + split_on(b, sep),
{
    let s = a + seq![sep] + b;
    let i = a.len() as int;
    assert(s[i] == sep);
    assert(forall|j: int| 0 <= j < i ==> s[j] == a[j] && s[j] != sep);
    lemma_split_on_first_sep(s, sep, i);
    assert(s.take(i) =~= a);
    assert(s.subrange(i + 1, s.len() as int) =~= b);
}

/// A string that contains the separator has at least two parts.
pub proof fn lemma_split_on_has_sep(s: Seq<char>, sep: char, i: int)
    requires
        0 <= i < s.len(),
        s[i] == sep,
    ensures
        split_on(s, sep).len() >= 2,
    decreases i,
{
    if i == 0 || s[0] == sep {
        lemma_split_on_len(s.drop_first(), sep);
    } else {
        let tail = s.drop_first();
        assert(tail[i - 1] == sep);
        lemma_split_on_has_sep(tail, sep, i - 1);
    }
}

/// `c` counts as whitespace for trimming: the ASCII blank characters.
pub open spec fn is_space(c: char) -> bool {
    c == ' ' || c == '\t' || c == '\n' || c == '\r' || (c as u32) == 11 || (c as u32) == 12
}

/// `s` with its leading whitespace removed.
pub open spec fn trim_front(s: Seq<char>) -> Seq<char>
    decreases s.len(),
{
    if s.len() > 0 && is_space(s.first()) {
        trim_front(s.drop_first())
    } else {
        s
    }
}

/// `s` with its trailing whitespace removed.
pub open spec fn trim_back(s: Seq<char>) -> Seq<char>
    decreases s.len(),
{
    if s.len() > 0 && is_space(s.last()) {
        trim_back(s.drop_last())
    } else {
        s
    }
}

/// `s` with whitespace removed from both ends.
pub open spec fn trimmed(s: Seq<char>) -> Seq<char> {
    trim_back(trim_front(s))
}

/// The first occurrence of `c` in `s` at or after `from`, if any.
pub fn find_char(s: &str, from: usize, c: char) -> (r: Option<usize>)
    requires
        from <= s@.len(),
    ensures
        match r {
            Some(i) => {
                &&& from <= i < s@.len()
                &&& s@[i as int] == c
                &&& forall|j: int| from <= j < i ==> s@[j] != c
            },
            None => forall|j: int| from <= j < s@.len() ==> s@[j] != c,
        },
{
    let n = s.unicode_len();
    let mut i: usize = from;
    while i < n
        invariant
            from <= i <= n,
            n == s@.len(),
            forall|j: int| from <= j < i ==> s@[j] != c,
        decreases n - i,
    {
        if s.get_char(i) == c {
            return Some(i);
        }
        i += 1;
    }
    None
}

/// Whether `c` is trim-whitespace, decided executably.
fn space_char(c: char) -> (r: bool)
    ensures
        r == is_space(c),
{
    c == ' ' || c == '\t' || c == '\n' || c == '\r' || (c as u32) == 11 || (c as u32) == 12
}

/// A copy of `s` with whitespace removed from both ends.
pub fn trim_str(s: &str) -> (r: String)
    ensures
        r@ == trimmed(s@),
{
    let n = s.unicode_len();
    let mut i: usize = 0;
    proof {
        assert(s@.subrange(0, n as int) =~= s@);
    }
    while i < n && space_char(s.get_char(i))
        invariant
            0 <= i <= n,
            n == s@.len(),
            trim_front(s@) == trim_front(s@.subrange(i as int, n as int)),
        decreases n - i,
    {
        proof {
            let cur = s@.subrange(i as int, n as int);
            assert(cur.first() == s@[i as int]);
            assert(cur.drop_first() =~= s@.subrange(i + 1, n as int));
        }
        i += 1;
    }
    if i == n {
        proof {
            assert(s@.subrange(i as int, n as int) =~= Seq::<char>::empty());
            assert(trim_back(trim_front(s@)) =~= Seq::<char>::empty());
        }
        return String::new();
    }
    proof {
        let cur = s@.subrange(i as int, n as int);
        assert(cur.first() == s@[i as int]);
        assert(trim_front(s@) == cur);
    }
    let mut j: usize = n;
    while space_char(s.get_char(j - 1))
        invariant
            i < j <= n,
            n == s@.len(),
            trim_front(s@) == s@.subrange(i as int, n as int),
            !is_space(s@[i as int]),
            trim_back(s@.subrange(i as int, n as int)) == trim_back(
                s@.subrange(i as int, j as int),
            ),
        decreases j,
    {
        proof {
            let cur = s@.subrange(i as int, j as int);
            assert(cur.last() == s@[j - 1]);
            assert(cur.drop_last() =~= s@.subrange(i as int, j - 1));
            assert(cur.len() > 1) by {
                if cur.len() == 1 {
                    assert(s@[i as int] == cur.last());
                }
            }
        }
        j -= 1;
    }
    proof {
        let cur = s@.subrange(i as int, j as int);
        assert(cur.last() == s@[j - 1]);
        assert(trimmed(s@) == cur);
    }
    let part = s.substring_char(i, j);
    part.to_owned()
}

} // verus!
