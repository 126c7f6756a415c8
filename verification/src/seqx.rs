use vstd::prelude::*;

verus! {

/// Index of the first element of `s` satisfying `p`, or `s.len()` when none
/// does.
pub open spec fn find_index<T>(s: Seq<T>, p: spec_fn(T) -> bool) -> int
    decreases s.len(),
{
    if s.len() == 0 {
        0
    } else if p(s[0]) {
        0
    } else {
        1 + find_index(s.drop_first(), p)
    }
}

pub proof fn lemma_find_index<T>(s: Seq<T>, p: spec_fn(T) -> bool)
    ensures
        0 <= find_index(s, p) <= s.len(),
        find_index(s, p) < s.len() ==> p(s[find_index(s, p)]),
        forall|j: int| 0 <= j < find_index(s, p) ==> !p(s[j]),
    decreases s.len(),
{
    if s.len() != 0 && !p(s[0]) {
        lemma_find_index(s.drop_first(), p);
        let fd = find_index(s.drop_first(), p);
        if fd < s.drop_first().len() {
            assert(s[1 + fd] == s.drop_first()[fd]);
        }
        assert forall|j: int| 0 <= j < 1 + fd implies !p(s[j]) by {
            if j > 0 {
                assert(s.drop_first()[j - 1] == s[j]);
            }
        }
    }
}

/// `p` holds of some element of `s`.
pub open spec fn contains_where<T>(s: Seq<T>, p: spec_fn(T) -> bool) -> bool {
    exists|i: int| 0 <= i < s.len() && p(s[i])
}

pub proof fn lemma_find_index_contains<T>(s: Seq<T>, p: spec_fn(T) -> bool)
    ensures
        contains_where(s, p) <==> find_index(s, p) < s.len(),
{
    lemma_find_index(s, p);
    if find_index(s, p) == s.len() && contains_where(s, p) {
        let i = choose|i: int| 0 <= i < s.len() && p(s[i]);
        assert(!p(s[i]));
    }
}

} // verus!
