use vstd::prelude::*;

verus! {

/// `c` occurs somewhere in `s`.
pub open spec fn has_char(s: Seq<char>, c: char) -> bool {
    exists|i: int| 0 <= i < s.len() && s[i] == c
}

/// Index of the first occurrence of `c` in `s`, or `s.len()` when absent.
pub open spec fn first_occ(s: Seq<char>, c: char) -> int
    decreases s.len(),
{
    if s.len() == 0 {
        0
    } else if s[0] == c {
        0
    } else {
        1 + first_occ(s.drop_first(), c)
    }
}

pub proof fn lemma_first_occ(s: Seq<char>, c: char)
    ensures
        0 <= first_occ(s, c) <= s.len(),
        first_occ(s, c) < s.len() ==> s[first_occ(s, c)] == c,
        forall|j: int| 0 <= j < first_occ(s, c) ==> s[j] != c,
        first_occ(s, c) == s.len() ==> !has_char(s, c),
    decreases s.len(),
{
    if s.len() != 0 && s[0] != c {
        lemma_first_occ(s.drop_first(), c);
        let fd = first_occ(s.drop_first(), c);
        if fd < s.drop_first().len() {
            assert(s[1 + fd] == s.drop_first()[fd]);
        }
        assert forall|j: int| 0 <= j < 1 + fd implies s[j] != c by {
            if j > 0 {
                assert(s.drop_first()[j - 1] == s[j]);
            }
        }
    }
}

/// Index of the first position where `c` is found, scanning left to right;
/// `s.len()` when `c` is absent.
#[verifier::loop_isolation(false)]
pub fn find_char(s: &str, c: char) -> (r: usize)
    ensures
        r as int == first_occ(s@, c),
{
    proof {
        lemma_first_occ(s@, c);
    }
    let n = s.unicode_len();
    let mut i: usize = 0;
    while i < n
        invariant
            i <= n,
            forall|j: int| 0 <= j < i ==> s@[j] != c,
        decreases n - i,
    {
        if s.get_char(i) == c {
            return i;
        }
        i += 1;
    }
    n
}

pub fn contains_char(s: &str, c: char) -> (r: bool)
    ensures
        r == has_char(s@, c),
{
    proof {
        lemma_first_occ(s@, c);
    }
    let n = s.unicode_len();
    let r = find_char(s, c);
    r < n
}

/// `p` occurs in `s` starting at index `i`.
pub open spec fn match_at(s: Seq<char>, p: Seq<char>, i: int) -> bool {
    0 <= i && i + p.len() <= s.len() && s.subrange(i, i + p.len()) == p
}

/// Start of the leftmost occurrence of `p` in `s`; `s.len()` when `p` does
/// not occur.
pub open spec fn first_match(s: Seq<char>, p: Seq<char>) -> int
    decreases s.len(),
{
    if match_at(s, p, 0) {
        0
    } else if s.len() == 0 {
        0
    } else {
        1 + first_match(s.drop_first(), p)
    }
}

proof fn lemma_match_at_shift(s: Seq<char>, p: Seq<char>, j: int)
    requires
        s.len() > 0,
        0 <= j,
    ensures
        match_at(s.drop_first(), p, j) == match_at(s, p, j + 1),
{
    if j + 1 + p.len() <= s.len() {
        assert(s.drop_first().subrange(j, j + p.len() as int) =~= s.subrange(
            j + 1,
            j + 1 + p.len() as int,
        ));
    }
}

pub proof fn lemma_first_match(s: Seq<char>, p: Seq<char>)
    ensures
        0 <= first_match(s, p) <= s.len(),
        first_match(s, p) < s.len() ==> match_at(s, p, first_match(s, p)),
        forall|j: int| 0 <= j < first_match(s, p) ==> !match_at(s, p, j),
    decreases s.len(),
{
    if !match_at(s, p, 0) && s.len() != 0 {
        lemma_first_match(s.drop_first(), p);
        let fd = first_match(s.drop_first(), p);
        if fd < s.drop_first().len() {
            lemma_match_at_shift(s, p, fd);
        }
        assert forall|j: int| 0 <= j < 1 + fd implies !match_at(s, p, j) by {
            if j > 0 {
                lemma_match_at_shift(s, p, j - 1);
            }
        }
    }
}

/// Whether `p` occurs in `s` starting exactly at `i`.
#[verifier::loop_isolation(false)]
fn match_here(s: &str, p: &str, i: usize) -> (r: bool)
    requires
        i + p@.len() <= s@.len(),
    ensures
        r == match_at(s@, p@, i as int),
{
    let n = s.unicode_len();
    let m = p.unicode_len();
    let mut j: usize = 0;
    while j < m
        invariant
            j <= m,
            forall|k: int| 0 <= k < j ==> s@[i + k] == p@[k],
        decreases m - j,
    {
        if s.get_char(i + j) != p.get_char(j) {
            assert(s@.subrange(i as int, i + m) != p@) by {
                assert(s@.subrange(i as int, i + m)[j as int] == s@[i + j]);
            }
            return false;
        }
        j += 1;
    }
    assert(s@.subrange(i as int, i + m) =~= p@);
    true
}

/// Start of the leftmost occurrence of `p` in `s`, or the length of `s` when
/// `p` does not occur.
#[verifier::loop_isolation(false)]
pub fn find_sub(s: &str, p: &str) -> (r: usize)
    ensures
        r as int == first_match(s@, p@),
{
    proof {
        lemma_first_match(s@, p@);
    }
    let n = s.unicode_len();
    let m = p.unicode_len();
    if m == 0 {
        assert(s@.subrange(0, 0) =~= p@);
        assert(match_at(s@, p@, 0));
        return 0;
    }
    if m > n {
        assert(forall|j: int| 0 <= j < s@.len() ==> !match_at(s@, p@, j));
        return n;
    }
    let mut i: usize = 0;
    while i <= n - m
        invariant
            i <= n - m + 1,
            forall|j: int| 0 <= j < i ==> !match_at(s@, p@, j),
        decreases n - i,
    {
        if match_here(s, p, i) {
            return i;
        }
        i += 1;
    }
    assert(forall|j: int| 0 <= j < s@.len() ==> !match_at(s@, p@, j));
    n
}


/// Index of the last occurrence of `c` in `s`, or `-1` when absent.
pub open spec fn last_occ(s: Seq<char>, c: char) -> int
    decreases s.len(),
{
    if s.len() == 0 {
        -1
    } else if s.last() == c {
        s.len() - 1
    } else {
        last_occ(s.drop_last(), c)
    }
}

pub proof fn lemma_last_occ(s: Seq<char>, c: char)
    ensures
        -1 <= last_occ(s, c) < s.len(),
        last_occ(s, c) >= 0 ==> s[last_occ(s, c)] == c,
        forall|j: int| last_occ(s, c) < j < s.len() ==> s[j] != c,
    decreases s.len(),
{
    if s.len() != 0 && s.last() != c {
        lemma_last_occ(s.drop_last(), c);
        assert forall|j: int| last_occ(s, c) < j < s.len() implies s[j] != c by {
            if j < s.len() - 1 {
                assert(s.drop_last()[j] == s[j]);
            }
        }
    }
}

/// The index just after the last occurrence of `c` in `s`: `0` when `c` is
/// absent, so the suffix starting there is everything after the last `c`.
#[verifier::loop_isolation(false)]
pub fn after_last_occ(s: &str, c: char) -> (r: usize)
    ensures
        r as int == last_occ(s@, c) + 1,
{
    proof {
        lemma_last_occ(s@, c);
    }
    let n = s.unicode_len();
    let mut i: usize = n;
    while i > 0
        invariant
            i <= n,
            forall|j: int| i <= j < n ==> s@[j] != c,
        decreases i,
    {
        if s.get_char(i - 1) == c {
            return i;
        }
        i -= 1;
    }
    0
}

} // verus!
