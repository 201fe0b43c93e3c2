//! Origin admission for cross-origin requests.
//!
//! A request origin is acceptable when it mentions one of the service's own
//! hosts — a local development server or one of its public domains.

use vstd::prelude::*;
use vstd::string::*;

verus! {

/// `needle` occurs in `haystack` starting at position `i`.
pub open spec fn occurs_at(haystack: Seq<char>, needle: Seq<char>, i: int) -> bool {
    0 <= i && i + needle.len() <= haystack.len() && haystack.subrange(i, i + needle.len())
        == needle
}

/// `needle` occurs somewhere in `haystack`.
pub open spec fn contains_seq(haystack: Seq<char>, needle: Seq<char>) -> bool {
    exists|i: int| occurs_at(haystack, needle, i)
}

/// Whether `needle` occurs in `haystack` starting at position `i`.
fn match_at(haystack: &str, needle: &str, i: usize) -> (r: bool)
    requires
        i + needle@.len() <= haystack@.len(),
        haystack@.len() <= usize::MAX,
    ensures
        r == occurs_at(haystack@, needle@, i as int),
{
    let n = needle.unicode_len();
    let mut j: usize = 0;
    while j < n
        invariant
            j <= n,
            n == needle@.len(),
            i + n <= haystack@.len(),
            haystack@.len() <= usize::MAX,
            forall|q: int| 0 <= q < j ==> haystack@[i + q] == needle@[q],
        decreases n - j,
    {
        if haystack.get_char(i + j) != needle.get_char(j) {
            proof {
                if occurs_at(haystack@, needle@, i as int) {
                    assert(haystack@.subrange(i as int, i + needle@.len())[j as int]
                        == needle@[j as int]);
                }
            }
            return false;
        }
        j = j + 1;
    }
    proof {
        assert(haystack@.subrange(i as int, i + n as int) =~= needle@);
    }
    true
}

/// Whether `needle` occurs anywhere in `haystack`.
pub fn contains_str(haystack: &str, needle: &str) -> (r: bool)
    ensures
        r == contains_seq(haystack@, needle@),
{
    let h = haystack.unicode_len();
    let n = needle.unicode_len();
    if n == 0 {
        proof {
            assert(haystack@.subrange(0, 0) =~= needle@);
            assert(occurs_at(haystack@, needle@, 0));
        }
        return true;
    }
    if n > h {
        proof {
            if exists|i: int| occurs_at(haystack@, needle@, i) {
                let i = choose|i: int| occurs_at(haystack@, needle@, i);
                assert(i + needle@.len() <= haystack@.len());
            }
        }
        return false;
    }
    let mut i: usize = 0;
    while i <= h - n
        invariant
            1 <= n <= h,
            h == haystack@.len(),
            n == needle@.len(),
            i <= h - n + 1,
            forall|p: int| 0 <= p < i ==> !occurs_at(haystack@, needle@, p),
        decreases h - n - i + 1,
    {
        if match_at(haystack, needle, i) {
            return true;
        }
        i = i + 1;
    }
    proof {
        if exists|p: int| occurs_at(haystack@, needle@, p) {
            let p = choose|p: int| occurs_at(haystack@, needle@, p);
            assert(p + needle@.len() <= haystack@.len());
            assert(p < i);
        }
    }
    false
}

/// Decide whether a request origin may call the service across origins: it
/// must mention one of the service's own hosts.
pub fn is_allowed_origin(origin: &str) -> (r: bool)
    ensures
        r == (contains_seq(origin@, "localhost"@) || contains_seq(origin@, "peregin.com"@)
            || contains_seq(origin@, "velocorner.com"@)),
{
    contains_str(origin, "localhost") || contains_str(origin, "peregin.com") || contains_str(
        origin,
        "velocorner.com",
    )
}

} // verus!
