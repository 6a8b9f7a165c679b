use vstd::prelude::*;

verus! {

// ---------------------------------------------------------------------------
// Character search in a sequence
// ---------------------------------------------------------------------------

/// Index of the first occurrence of `c` in `s`, or `-1` when `c` is absent.
pub open spec fn first_index(s: Seq<char>, c: char) -> int
    decreases s.len(),
{
    if s.len() == 0 {
        -1
    } else if s[0] == c {
        0
    } else {
        let r = first_index(s.skip(1), c);
        if r < 0 {
            -1
        } else {
            r + 1
        }
    }
}

/// What `first_index` returns: the first hit when there is one, `-1` otherwise.
pub proof fn lemma_first_index(s: Seq<char>, c: char)
    ensures
        first_index(s, c) >= 0 ==> {
            &&& first_index(s, c) < s.len()
            &&& s[first_index(s, c)] == c
            &&& forall|j: int| 0 <= j < first_index(s, c) ==> s[j] != c
        },
        first_index(s, c) < 0 ==> forall|j: int| 0 <= j < s.len() ==> s[j] != c,
    decreases s.len(),
{
    if s.len() == 0 {
    } else if s[0] == c {
    } else {
        lemma_first_index(s.skip(1), c);
        let r = first_index(s.skip(1), c);
        if r < 0 {
            assert forall|j: int| 0 <= j < s.len() implies s[j] != c by {
                if j > 0 {
                    assert(s[j] == s.skip(1)[j - 1]);
                }
            }
        } else {
            assert(s[r + 1] == s.skip(1)[r]);
            assert forall|j: int| 0 <= j < r + 1 implies s[j] != c by {
                if j > 0 {
                    assert(s[j] == s.skip(1)[j - 1]);
                }
            }
        }
    }
}

/// `first_index` is pinned down by any witness of a first occurrence.
pub proof fn lemma_first_index_is(s: Seq<char>, c: char, i: int)
    requires
        0 <= i < s.len(),
        s[i] == c,
        forall|j: int| 0 <= j < i ==> s[j] != c,
    ensures
        first_index(s, c) == i,
    decreases s.len(),
{
    if i == 0 {
    } else {
        assert(forall|j: int| 0 <= j < s.len() - 1 ==> s.skip(1)[j] == s[j + 1]);
        lemma_first_index_is(s.skip(1), c, i - 1);
    }
}

/// `first_index` of a sequence that lacks `c` is `-1`.
pub proof fn lemma_first_index_none(s: Seq<char>, c: char)
    requires
        !s.contains(c),
    ensures
        first_index(s, c) == -1,
{
    lemma_first_index(s, c);
    if first_index(s, c) >= 0 {
        assert(s.contains(c));
    }
}

// ---------------------------------------------------------------------------
// Splitting off one separated segment
// ---------------------------------------------------------------------------

/// Splits `s` at the first occurrence of `sep`: the part before it and the
/// part after it, or `None` when `sep` does not occur.
pub open spec fn take_seg(s: Seq<char>, sep: char) -> Option<(Seq<char>, Seq<char>)> {
    let i = first_index(s, sep);
    if i >= 0 {
        Some((s.take(i), s.skip(i + 1)))
    } else {
        None
    }
}

/// Splitting `a + sep + b` at `sep` yields `(a, b)` when `a` lacks `sep`.
pub proof fn lemma_take_seg_concat(a: Seq<char>, b: Seq<char>, sep: char)
    requires
        !a.contains(sep),
    ensures
        take_seg(a + seq![sep] + b, sep) == Some((a, b)),
{
    let s = a + seq![sep] + b;
    assert forall|j: int| 0 <= j < a.len() implies s[j] != sep by {
        assert(s[j] == a[j]);
        if a[j] == sep {
            assert(a.contains(sep));
        }
    }
    assert(s[a.len() as int] == sep);
    lemma_first_index_is(s, sep, a.len() as int);
    assert(s.take(a.len() as int) =~= a);
    assert(s.skip(a.len() as int + 1) =~= b);
}

/// A sequence without `sep` yields no segment.
pub proof fn lemma_take_seg_none(s: Seq<char>, sep: char)
    requires
        !s.contains(sep),
    ensures
        take_seg(s, sep) is None,
{
    lemma_first_index_none(s, sep);
}

/// Concatenation holds `c` exactly when one of its parts does.
pub proof fn lemma_concat_contains(a: Seq<char>, b: Seq<char>, c: char)
    ensures
        (a + b).contains(c) <==> a.contains(c) || b.contains(c),
{
    if (a + b).contains(c) {
        let i = choose|i: int| 0 <= i < (a + b).len() && (a + b)[i] == c;
        if i < a.len() {
            assert(a[i] == c);
        } else {
            assert(b[i - a.len()] == c);
        }
    }
    if a.contains(c) {
        let i = choose|i: int| 0 <= i < a.len() && a[i] == c;
        assert((a + b)[i] == c);
    }
    if b.contains(c) {
        let i = choose|i: int| 0 <= i < b.len() && b[i] == c;
        assert((a + b)[a.len() + i] == c);
    }
}

// ---------------------------------------------------------------------------
// Executable scanning
// ---------------------------------------------------------------------------

/// Finds the next occurrence of `sep` in `s` at or after `start`.
pub fn find_from(s: &str, start: usize, sep: char) -> (r: Option<usize>)
    requires
        start <= s@.len(),
    ensures
        match r {
            Some(i) => {
                &&& start <= i < s@.len()
                &&& s@[i as int] == sep
                &&& forall|j: int| start <= j < i ==> s@[j] != sep
            },
            None => forall|j: int| start <= j < s@.len() ==> s@[j] != sep,
        },
{
    let n = s.unicode_len();
    let mut i: usize = start;
    while i < n
        invariant
            start <= i <= n,
            n == s@.len(),
            forall|j: int| start <= j < i ==> s@[j] != sep,
        decreases n - i,
    {
        if s.get_char(i) == sep {
            return Some(i);
        }
        i = i + 1;
    }
    None
}

/// Splits off the segment of `s` that begins at `start` and ends at the next
/// `sep`; returns the segment and the index just past the separator.
pub fn next_seg(s: &str, start: usize, sep: char) -> (r: Option<(String, usize)>)
    requires
        start <= s@.len(),
    ensures
        match r {
            Some(pair) => {
                &&& take_seg(s@.skip(start as int), sep) == Some(
                    (pair.0@, s@.skip(pair.1 as int)),
                )
                &&& start <= pair.1 <= s@.len()
                &&& pair.1 == start + pair.0@.len() + 1
            },
            None => take_seg(s@.skip(start as int), sep) is None,
        },
{
    let ghost sub = s@.skip(start as int);
    let n = s.unicode_len();
    match find_from(s, start, sep) {
        Some(i) => {
            let seg = s.substring_char(start, i);
            let out = String::from_str(seg);
            proof {
                assert(sub[i - start] == sep);
                assert(forall|j: int| 0 <= j < i - start ==> sub[j] == s@[j + start]);
                lemma_first_index_is(sub, sep, i - start);
                assert(sub.take(i - start) =~= out@);
                assert(sub.skip(i - start + 1) =~= s@.skip(i + 1));
            }
            Some((out, i + 1))
        },
        None => {
            proof {
                assert forall|j: int| 0 <= j < sub.len() implies sub[j] != sep by {
                    assert(sub[j] == s@[j + start]);
                }
                lemma_take_seg_none(sub, sep);
            }
            None
        },
    }
}

/// Strips `p` from the front of `s`, returning the remainder.
pub fn strip_prefix(s: &str, p: &str) -> (r: Option<String>)
    ensures
        match r {
            Some(rest) => {
                &&& p@.is_prefix_of(s@)
                &&& rest@ == s@.skip(p@.len() as int)
            },
            None => !p@.is_prefix_of(s@),
        },
{
    let ns = s.unicode_len();
    let np = p.unicode_len();
    if np > ns {
        return None;
    }
    let mut i: usize = 0;
    while i < np
        invariant
            0 <= i <= np,
            np <= ns,
            ns == s@.len(),
            np == p@.len(),
            forall|j: int| 0 <= j < i ==> s@[j] == p@[j],
        decreases np - i,
    {
        if s.get_char(i) != p.get_char(i) {
            proof {
                assert(s@.subrange(0, np as int)[i as int] != p@[i as int]);
            }
            return None;
        }
        i = i + 1;
    }
    let rest = s.substring_char(np, ns);
    proof {
        assert(p@ =~= s@.subrange(0, np as int));
    }
    Some(String::from_str(rest))
}

} // verus!
