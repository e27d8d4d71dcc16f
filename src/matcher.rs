//! Case-insensitive search of a short pattern in a sequence, where the
//! wildcard symbol on either side matches any symbol.
use vstd::prelude::*;
use vstd::string::StringSliceAdditionalSpecFns;

verus! {

/// The wildcard symbol `N`, compared after upper-casing.
pub const WILDCARD: u8 = 0x4e;

/// ASCII upper-casing of one byte; other bytes are left as they are.
pub open spec fn upper(b: u8) -> u8 {
    if 0x61 <= b && b <= 0x7a {
        (b - 0x20) as u8
    } else {
        b
    }
}

/// Two symbols agree when they are equal up to case, or either is the wildcard.
pub open spec fn symbols_agree(h: u8, n: u8) -> bool {
    upper(h) == upper(n) || upper(h) == WILDCARD || upper(n) == WILDCARD
}

/// `needle` occurs in `haystack` starting at offset `i`.
pub open spec fn matches_at(haystack: Seq<u8>, needle: Seq<u8>, i: int) -> bool {
    &&& 0 <= i
    &&& i + needle.len() <= haystack.len()
    &&& forall|j: int| 0 <= j < needle.len() ==> symbols_agree(haystack[i + j], #[trigger] needle[j])
}

/// `i` is the smallest offset at which `needle` occurs in `haystack`.
pub open spec fn is_first_match(haystack: Seq<u8>, needle: Seq<u8>, i: int) -> bool {
    &&& matches_at(haystack, needle, i)
    &&& forall|k: int| 0 <= k < i ==> !#[trigger] matches_at(haystack, needle, k)
}

/// The smallest offset at which `needle` occurs in `haystack`, if any.
pub open spec fn first_match(haystack: Seq<u8>, needle: Seq<u8>) -> Option<int> {
    if exists|i: int| is_first_match(haystack, needle, i) {
        Some(choose|i: int| is_first_match(haystack, needle, i))
    } else {
        None
    }
}

/// An offset as a mathematical integer.
pub open spec fn offset_int(r: Option<usize>) -> Option<int> {
    match r {
        Some(i) => Some(i as int),
        None => None,
    }
}

/// Any first match is the one that `first_match` picks.
pub proof fn lemma_first_match_unique(haystack: Seq<u8>, needle: Seq<u8>, i: int)
    requires
        is_first_match(haystack, needle, i),
    ensures
        first_match(haystack, needle) == Some(i),
{
    let c = choose|c: int| is_first_match(haystack, needle, c);
    assert(is_first_match(haystack, needle, c));
    if c < i {
        assert(!matches_at(haystack, needle, c));
    } else if i < c {
        assert(!matches_at(haystack, needle, i));
    }
}

/// Without any occurrence there is no first one.
pub proof fn lemma_no_match(haystack: Seq<u8>, needle: Seq<u8>)
    requires
        forall|i: int| !#[trigger] matches_at(haystack, needle, i),
    ensures
        first_match(haystack, needle) is None,
{
}

/// ASCII upper-casing of one byte.
pub fn ascii_upper(b: u8) -> (r: u8)
    ensures
        r == upper(b),
{
    if 0x61 <= b && b <= 0x7a {
        b - 0x20
    } else {
        b
    }
}

/// The smallest offset at which `needle` occurs in `haystack`, comparing
/// symbols case-insensitively and letting the wildcard match anything.
pub fn find_bytes(haystack: &[u8], needle: &[u8]) -> (r: Option<usize>)
    ensures
        offset_int(r) == first_match(haystack@, needle@),
        r matches Some(i) ==> is_first_match(haystack@, needle@, i as int),
        r is None <==> forall|i: int| !#[trigger] matches_at(haystack@, needle@, i),
{
    if needle.len() > haystack.len() {
        assert forall|i: int| !#[trigger] matches_at(haystack@, needle@, i) by {}
        proof { lemma_no_match(haystack@, needle@); }
        return None;
    }
    let hlen: usize = haystack.len();
    let last: usize = hlen - needle.len();
    let mut i: usize = 0;
    loop
        invariant
            hlen == haystack@.len(),
            needle@.len() <= haystack@.len(),
            last == haystack@.len() - needle@.len(),
            i <= last,
            forall|k: int| 0 <= k < i ==> !#[trigger] matches_at(haystack@, needle@, k),
        ensures
            forall|k: int| 0 <= k <= last ==> !#[trigger] matches_at(haystack@, needle@, k),
        decreases last - i,
    {
        let mut found = true;
        let mut j: usize = 0;
        while j < needle.len() && found
            invariant
                i <= last,
                hlen == haystack@.len(),
                last == haystack@.len() - needle@.len(),
                j <= needle@.len(),
                found ==> forall|m: int|
                    0 <= m < j ==> symbols_agree(haystack@[i + m], #[trigger] needle@[m]),
                !found ==> !matches_at(haystack@, needle@, i as int),
            decreases needle@.len() - j,
        {
            let h = ascii_upper(haystack[i + j]);
            let n = ascii_upper(needle[j]);
            if h != n && h != WILDCARD && n != WILDCARD {
                assert(!symbols_agree(haystack@[i + j as int], needle@[j as int]));
                found = false;
            }
            j = j + 1;
        }
        if found {
            assert(matches_at(haystack@, needle@, i as int));
            proof { lemma_first_match_unique(haystack@, needle@, i as int); }
            return Some(i);
        }
        if i == last {
            break;
        }
        i = i + 1;
    }
    assert forall|k: int| !#[trigger] matches_at(haystack@, needle@, k) by {

    }
    proof { lemma_no_match(haystack@, needle@); }
    None
}

/// The smallest byte offset at which `needle` occurs in `haystack`, comparing
/// symbols case-insensitively and letting the wildcard `N` match anything.
pub fn find_with_wildcard(haystack: &str, needle: &str) -> (r: Option<usize>)
    ensures
        offset_int(r) == first_match(haystack.spec_bytes(), needle.spec_bytes()),
        r matches Some(i) ==> is_first_match(haystack.spec_bytes(), needle.spec_bytes(), i as int),
        r is None <==> forall|i: int|
            !#[trigger] matches_at(haystack.spec_bytes(), needle.spec_bytes(), i),
{
    find_bytes(haystack.as_bytes(), needle.as_bytes())
}

} // verus!
