//! Case-sensitive substring matching: how the symbol filter selects which
//! symbols a matcher processes. Callers that want case-insensitive filtering
//! normalize case on both sides before calling; the matcher itself never
//! changes case.

use vstd::prelude::*;

verus! {

/// `needle` occurs somewhere in `hay` as a contiguous run of characters.
pub open spec fn contains_substring(hay: Seq<char>, needle: Seq<char>) -> bool {
    exists|i: int|
        0 <= i && i + needle.len() <= hay.len() && #[trigger] hay.subrange(i, i + needle.len())
            == needle
}

/// Decides whether `needle` is a case-sensitive substring of `hay`.
/// The empty needle matches every haystack.
pub fn contains_substr(hay: &str, needle: &str) -> (r: bool)
    ensures
        r == contains_substring(hay@, needle@),
{
    let n = hay.unicode_len();
    let m = needle.unicode_len();
    if m > n {
        return false;
    }
    let mut i: usize = 0;
    while i <= n - m
        invariant
            m <= n,
            n == hay@.len(),
            m == needle@.len(),
            i <= n - m + 1,
            forall|k: int| 0 <= k < i ==> #[trigger] hay@.subrange(k, k + m) != needle@,
        decreases n - m + 1 - i,
    {
        let mut is_match = true;
        let mut j: usize = 0;
        while j < m
            invariant_except_break
                is_match,
                forall|k: int| 0 <= k < j ==> hay@[i + k] == needle@[k],
            invariant
                i + m <= n,
                n == hay@.len(),
                m == needle@.len(),
                j <= m,
            ensures
                is_match ==> forall|k: int| 0 <= k < m ==> hay@[i + k] == needle@[k],
                !is_match ==> exists|k: int| 0 <= k < m && hay@[i + k] != needle@[k],
            decreases m - j,
        {
            if hay.get_char(i + j) != needle.get_char(j) {
                is_match = false;
                break ;
            }
            j = j + 1;
        }
        if is_match {
            proof {
                assert(hay@.subrange(i as int, i + m) =~= needle@);
            }
            return true;
        }
        proof {
            assert(hay@.subrange(i as int, i + m) != needle@) by {
                let k = choose|k: int| 0 <= k < m && hay@[i + k] != needle@[k];
                assert(hay@.subrange(i as int, i + m)[k] == hay@[i + k]);
            }
        }
        i = i + 1;
    }
    proof {
        assert forall|k: int| 0 <= k && k + needle@.len() <= hay@.len() implies #[trigger] hay@
            .subrange(k, k + needle@.len()) != needle@ by {
            assert(k < i);
        }
    }
    false
}

} // verus!
