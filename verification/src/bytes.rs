//! Byte-sequence search shared by the frame and event filters.

use vstd::prelude::*;

verus! {

/// `needle` occurs in `hay` starting at offset `k`.
pub open spec fn occurs_at(hay: Seq<u8>, needle: Seq<u8>, k: int) -> bool {
    0 <= k && k + needle.len() <= hay.len() && hay.subrange(k, k + needle.len()) == needle
}

/// `needle` occurs somewhere in `hay` as a contiguous run.
pub open spec fn contains_run(hay: Seq<u8>, needle: Seq<u8>) -> bool {
    exists|k: int| occurs_at(hay, needle, k)
}

/// Whether `needle` occurs contiguously in `hay` (an empty needle always occurs).
pub fn contains_subslice(hay: &[u8], needle: &[u8]) -> (r: bool)
    ensures
        r == contains_run(hay@, needle@),
{
    if needle.len() == 0 {
        assert(occurs_at(hay@, needle@, 0)) by {
            assert(hay@.subrange(0, 0) =~= needle@);
        }
        return true;
    }
    if needle.len() > hay.len() {
        return false;
    }
    let last = hay.len() - needle.len();
    let mut k: usize = 0;
    while k <= last
        invariant
            last == hay.len() - needle.len(),
            needle.len() <= hay.len(),
            k <= last + 1,
            forall|j: int| 0 <= j < k ==> !occurs_at(hay@, needle@, j),
        decreases last + 1 - k,
    {
        let mut m: usize = 0;
        let mut same = true;
        while m < needle.len()
            invariant
                k <= last,
                last == hay.len() - needle.len(),
                m <= needle.len(),
                same == (forall|t: int| 0 <= t < m ==> hay@[k + t] == needle@[t]),
            decreases needle.len() - m,
        {
            if hay[k + m] != needle[m] {
                same = false;
            }
            m = m + 1;
        }
        if same {
            assert(hay@.subrange(k as int, k + needle.len()) =~= needle@);
            assert(occurs_at(hay@, needle@, k as int));
            return true;
        }
        assert(!occurs_at(hay@, needle@, k as int)) by {
            if hay@.subrange(k as int, k + needle@.len()) == needle@ {
                assert forall|t: int| 0 <= t < needle.len() implies hay@[k + t] == needle@[t] by {
                    assert(hay@.subrange(k as int, k + needle@.len())[t] == hay@[k + t]);
                }
            }
        }
        k = k + 1;
    }
    false
}

} // verus!
