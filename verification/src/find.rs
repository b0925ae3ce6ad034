//! Byte-level substring containment.

use vstd::prelude::*;

verus! {

/// True when `pat` occurs as a contiguous subrange of `sub`.  The empty
/// pattern occurs in every sequence, the empty one included.
pub open spec fn is_substring_of(pat: Seq<u8>, sub: Seq<u8>) -> bool {
    exists|k: int|
        0 <= k && k + pat.len() <= sub.len() && #[trigger] sub.subrange(k, k + pat.len()) == pat
}

fn matches_at(pattern: &[u8], subject: &[u8], k: usize) -> (r: bool)
    requires
        k + pattern@.len() <= subject@.len(),
    ensures
        r == (subject@.subrange(k as int, k as int + pattern@.len()) == pattern@),
{
    let m = pattern.len();
    let n = subject.len();
    let mut j: usize = 0;
    while j < m
        invariant
            0 <= j <= m,
            m == pattern@.len(),
            n == subject@.len(),
            k + m <= n,
            forall|t: int| 0 <= t < j ==> subject@[k + t] == pattern@[t],
        decreases m - j,
    {
        if subject[k + j] != pattern[j] {
            proof {
                assert(subject@.subrange(k as int, k as int + m) != pattern@) by {
                    assert(subject@.subrange(k as int, k as int + m)[j as int] == subject@[k + j]);
                }
            }
            return false;
        }
        j = j + 1;
    }
    proof {
        assert(subject@.subrange(k as int, k as int + m) =~= pattern@);
    }
    true
}

/// Whether the pattern occurs in the subject, byte for byte, whatever
/// either holds: neither needs to be well-formed text.  An empty pattern is
/// contained in every subject.
pub fn contains(pattern: &[u8], subject: &[u8]) -> (r: bool)
    ensures
        r == is_substring_of(pattern@, subject@),
{
    let m = pattern.len();
    let n = subject.len();
    if m > n {
        proof {
            assert(!is_substring_of(pattern@, subject@));
        }
        return false;
    }
    if m == 0 {
        proof {
            assert(is_substring_of(pattern@, subject@)) by {
                assert(subject@.subrange(0, 0 + pattern@.len() as int) =~= pattern@);
            }
        }
        return true;
    }
    let mut k: usize = 0;
    while k < n - m + 1
        invariant
            0 <= k <= n - m + 1,
            1 <= m <= n,
            m == pattern@.len(),
            n == subject@.len(),
            forall|t: int|
                0 <= t < k ==> #[trigger] subject@.subrange(t, t + pattern@.len()) != pattern@,
        decreases n - m + 1 - k,
    {
        if matches_at(pattern, subject, k) {
            proof {
                assert(is_substring_of(pattern@, subject@));
            }
            return true;
        }
        k = k + 1;
    }
    proof {
        assert(!is_substring_of(pattern@, subject@));
    }
    false
}

} // verus!

