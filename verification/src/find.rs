//! Substring search with a proper error taxonomy.

use vstd::prelude::*;
use vstd::string::StringSliceAdditionalSpecFns;

verus! {

#[derive(Debug, Clone, Copy, PartialEq, Eq, Structural)]
pub enum FindError {
    EmptyNeedle,
    EmptyHaystack,
    NotFound,
}

/// The needle bytes occur in the haystack bytes at offset `i`.
pub open spec fn match_at(h: Seq<u8>, n: Seq<u8>, i: int) -> bool {
    0 <= i && i + n.len() <= h.len() && h.subrange(i, i + n.len()) == n
}

/// Finds a needle in a haystack: the byte offset of the first
/// occurrence, or the error saying which input made the search
/// impossible.
pub fn best_find(needle: &str, haystack: &str) -> (r: Result<usize, FindError>)
    ensures
        ({
            let h = haystack.spec_bytes();
            let n = needle.spec_bytes();
            if n.len() == 0 {
                r == Err::<usize, FindError>(FindError::EmptyNeedle)
            } else if h.len() == 0 {
                r == Err::<usize, FindError>(FindError::EmptyHaystack)
            } else {
                match r {
                    Ok(i) => match_at(h, n, i as int) && (forall|j: int|
                        0 <= j < i ==> !match_at(h, n, j)),
                    Err(e) => e == FindError::NotFound && (forall|j: int| !match_at(h, n, j)),
                }
            }
        }),
{
    let nb = needle.as_bytes();
    let hb = haystack.as_bytes();
    let ghost n = needle.spec_bytes();
    let ghost h = haystack.spec_bytes();
    if nb.len() == 0 {
        return Err(FindError::EmptyNeedle);
    }
    if hb.len() == 0 {
        return Err(FindError::EmptyHaystack);
    }
    if nb.len() > hb.len() {
        return Err(FindError::NotFound);
    }
    let last = hb.len() - nb.len();
    let mut i: usize = 0;
    while i <= last
        invariant
            n == needle.spec_bytes(),
            h == haystack.spec_bytes(),
            nb@ == n,
            hb@ == h,
            1 <= n.len() <= h.len(),
            h.len() <= usize::MAX,
            last == h.len() - n.len(),
            i <= last + 1,
            forall|j: int| 0 <= j < i ==> !match_at(h, n, j),
        decreases last + 1 - i,
    {
        let mut k: usize = 0;
        while k < nb.len() && hb[i + k] == nb[k]
            invariant
                n == needle.spec_bytes(),
                h == haystack.spec_bytes(),
                nb@ == n,
                hb@ == h,
                1 <= n.len() <= h.len(),
                h.len() <= usize::MAX,
                i + n.len() <= h.len(),
                k <= n.len(),
                forall|t: int| 0 <= t < k ==> h[i + t] == n[t],
                forall|j: int| 0 <= j < i ==> !match_at(h, n, j),
            decreases n.len() - k,
        {
            k = k + 1;
        }
        if k == nb.len() {
            proof {
                assert(h.subrange(i as int, i + n.len()) =~= n);
            }
            return Ok(i);
        }
        proof {
            assert(!match_at(h, n, i as int)) by {
                if match_at(h, n, i as int) {
                    assert(h.subrange(i as int, i + n.len())[k as int] == n[k as int]);
                }
            }
        }
        i = i + 1;
    }
    Err(FindError::NotFound)
}

} // verus!
