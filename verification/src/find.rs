//! Finding a pattern in a text, on the UTF-8 bytes of both, as `str::find`
//! does; and the lower-casing of a text that a case-insensitive search runs on.

use vstd::prelude::*;
use vstd::string::*;

verus! {

/// `p` occurs in `hay` at byte `i`.
pub open spec fn occurs_at(hay: Seq<u8>, p: Seq<u8>, i: int) -> bool {
    &&& 0 <= i
    &&& i + p.len() <= hay.len()
    &&& hay.subrange(i, i + p.len()) == p
}

/// The first byte at or after `i` at which `p` occurs in `hay`.
pub open spec fn find_from(hay: Seq<u8>, p: Seq<u8>, i: int) -> Option<int>
    decreases hay.len() + 1 - i,
{
    if i < 0 || i + p.len() > hay.len() {
        None
    } else if occurs_at(hay, p, i) {
        Some(i)
    } else {
        find_from(hay, p, i + 1)
    }
}

/// The first byte at which `p` occurs in `hay`, which is what `str::find`
/// returns for a string pattern.
pub open spec fn find_first(hay: Seq<u8>, p: Seq<u8>) -> Option<int> {
    find_from(hay, p, 0)
}

/// What `find_from` returns is the first occurrence at or after `i`, and
/// `None` means that there is none.
pub proof fn lemma_find_from(hay: Seq<u8>, p: Seq<u8>, i: int)
    requires
        0 <= i,
    ensures
        find_from(hay, p, i) matches Some(k) ==> i <= k && k + p.len() <= hay.len() && occurs_at(
            hay,
            p,
            k,
        ) && forall|j: int| i <= j < k ==> !#[trigger] occurs_at(hay, p, j),
        find_from(hay, p, i) is None ==> forall|j: int| i <= j ==> !#[trigger] occurs_at(hay, p, j),
    decreases hay.len() + 1 - i,
{
    if i + p.len() > hay.len() {
    } else if occurs_at(hay, p, i) {
    } else {
        lemma_find_from(hay, p, i + 1);
    }
}

/// `find_first` returns the first occurrence of `p` in `hay`, and `None` means
/// that `p` does not occur in `hay`.
pub proof fn lemma_find_first(hay: Seq<u8>, p: Seq<u8>)
    ensures
        find_first(hay, p) matches Some(k) ==> 0 <= k && k + p.len() <= hay.len() && occurs_at(
            hay,
            p,
            k,
        ) && forall|j: int| 0 <= j < k ==> !#[trigger] occurs_at(hay, p, j),
        find_first(hay, p) is None ==> forall|j: int| !#[trigger] occurs_at(hay, p, j),
{
    lemma_find_from(hay, p, 0);
}

/// The first byte at which `p` occurs in `hay`, if it occurs.
pub fn find_bytes(hay: &[u8], p: &[u8]) -> (r: Option<usize>)
    ensures
        match r {
            Some(k) => find_first(hay@, p@) == Some(k as int),
            None => find_first(hay@, p@) is None,
        },
{
    let n = hay.len();
    let m = p.len();
    if m > n {
        assert(find_first(hay@, p@) is None);
        return None;
    }
    let mut i: usize = 0;
    while i <= n - m
        invariant
            n == hay@.len(),
            m == p@.len(),
            m <= n,
            find_first(hay@, p@) == find_from(hay@, p@, i as int),
        decreases n - m + 1 - i,
    {
        let mut j: usize = 0;
        while j < m && hay[i + j] == p[j]
            invariant
                n == hay@.len(),
                m == p@.len(),
                i + m <= n,
                j <= m,
                forall|k: int| 0 <= k < j ==> hay@[i + k] == p@[k],
            decreases m - j,
        {
            j += 1;
        }
        if j == m {
            assert(hay@.subrange(i as int, i + m) =~= p@);
            return Some(i);
        }
        assert(hay@.subrange(i as int, i + m)[j as int] != p@[j as int]);
        assert(!occurs_at(hay@, p@, i as int));
        i += 1;
    }
    None
}

/// Names the characters that `str::to_lowercase` returns for the characters
/// `s`: the lowercase mapping of the Unicode Derived Core Property
/// `Lowercase`, which takes pages to state.
pub uninterp spec fn lowercase(s: Seq<char>) -> Seq<char>;

/// `str::to_lowercase`: the lowercase equivalent of `s`, a function of the
/// characters of `s` alone.
#[verifier::external_body]
pub(crate) fn to_lowercase(s: &str) -> (r: String)
    ensures
        r@ == lowercase(s@),
{
    s.to_lowercase()
}

/// `str::len`: the length of `s` in bytes. No value in Rust, a `str` among
/// them, spans more than `isize::MAX` bytes (the limit that the standard
/// library documents for every allocation and slice).
#[verifier::external_body]
pub(crate) fn str_len(s: &str) -> (n: usize)
    ensures
        n == s.spec_bytes().len(),
        n <= isize::MAX,
{
    s.len()
}

} // verus!
