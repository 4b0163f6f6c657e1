//! Character-level helpers for the text the formats carry (names, tags).

use vstd::prelude::*;
use vstd::std_specs::iter::IteratorSpec;

verus! {

broadcast use vstd::string::axiom_spec_iter, vstd::string::next_postcondition;

/// The characters of `s`, in order.
pub fn chars_of(s: &str) -> (v: Vec<char>)
    ensures
        v@ == s@,
{
    let mut it = s.chars();
    let mut v: Vec<char> = Vec::new();
    loop
        invariant
            v@ + it.remaining() == s@,
            it.decrease() is Some,
        ensures
            v@ == s@,
        decreases it.decrease()->0,
    {
        let ghost before = it.remaining();
        match it.next() {
            Some(c) => {
                assert(v@.push(c) + before.drop_first() =~= v@ + before);
                v.push(c);
            },
            None => {
                assert(v@ + before =~= v@);
                break;
            },
        }
    }
    v
}

/// Collects characters into a `String` (`FromIterator<&char>` for `String`);
/// the contract claims the string holds exactly those characters.
#[verifier::external_body]
pub(crate) fn string_from_chars(cs: &[char]) -> (s: String)
    ensures
        s@ == cs@,
{
    cs.iter().collect()
}


/// Whether `needle` occurs in `hay` at position `i`.
pub open spec fn matches_at(hay: Seq<char>, needle: Seq<char>, i: int) -> bool {
    0 <= i && i + needle.len() <= hay.len() && hay.subrange(i, i + needle.len()) == needle
}

/// The first position at or after `i` where `needle` occurs in `hay`.
pub open spec fn find_from(hay: Seq<char>, needle: Seq<char>, i: int) -> Option<int>
    decreases hay.len() - i,
{
    if i < 0 || i + needle.len() > hay.len() {
        None
    } else if needle.len() == 0 || hay.subrange(i, i + needle.len()) == needle {
        Some(i)
    } else {
        find_from(hay, needle, i + 1)
    }
}

/// The first position where `needle` occurs in `hay`.
pub open spec fn find_first(hay: Seq<char>, needle: Seq<char>) -> Option<int> {
    find_from(hay, needle, 0)
}

pub proof fn lemma_find_from(hay: Seq<char>, needle: Seq<char>, i: int)
    requires
        i >= 0,
    ensures
        find_from(hay, needle, i) matches Some(k) ==> i <= k && matches_at(hay, needle, k) && forall|j: int|
            i <= j < k ==> !matches_at(hay, needle, j),
        find_from(hay, needle, i) is None ==> forall|j: int| i <= j ==> !matches_at(hay, needle, j),
    decreases hay.len() - i,
{
    if i + needle.len() <= hay.len() && needle.len() != 0 && hay.subrange(i, i + needle.len()) != needle {
        lemma_find_from(hay, needle, i + 1);
    }
    if needle.len() == 0 && i <= hay.len() {
        assert(hay.subrange(i, i) =~= needle);
    }
}

/// Characterization of [`find_first`]: a match, with none before it.
pub proof fn lemma_find_first(hay: Seq<char>, needle: Seq<char>)
    ensures
        find_first(hay, needle) matches Some(k) ==> 0 <= k && k + needle.len() <= hay.len(),
        find_first(hay, needle) matches Some(k) ==> matches_at(hay, needle, k),
        find_first(hay, needle) matches Some(k) ==> forall|j: int| 0 <= j < k ==> !matches_at(hay, needle, j),
        find_first(hay, needle) is None ==> forall|j: int| 0 <= j ==> !matches_at(hay, needle, j),
{
    lemma_find_from(hay, needle, 0);
}

/// The first position where `needle` occurs in `hay` (as `str::find`, over
/// characters).
pub fn find(hay: &[char], needle: &[char]) -> (r: Option<usize>)
    ensures
        match r {
            Some(k) => find_first(hay@, needle@) == Some(k as int),
            None => find_first(hay@, needle@) is None,
        },
{
    let n = needle.len();
    if n > hay.len() {
        return None;
    }
    if n == 0 {
        return Some(0);
    }
    let mut i: usize = 0;
    while i <= hay.len() - n
        invariant
            n == needle@.len(),
            0 < n <= hay.len(),
            i <= hay.len() - n + 1,
            find_first(hay@, needle@) == find_from(hay@, needle@, i as int),
        decreases hay@.len() - i,
    {
        let mut j: usize = 0;
        let mut same = true;
        assert(hay@.subrange(i as int, i as int) =~= needle@.subrange(0, 0));
        while j < n
            invariant
                j <= n,
                n == needle@.len(),
                i + n <= hay.len(),
                same == (hay@.subrange(i as int, i + j) == needle@.subrange(0, j as int)),
            decreases n - j,
        {
            if same {
                if hay[i + j] != needle[j] {
                    same = false;
                    assert(hay@.subrange(i as int, i + j + 1)[j as int] != needle@.subrange(0, j + 1)[j as int]);
                } else {
                    assert(hay@.subrange(i as int, i + j + 1) =~= needle@.subrange(0, j + 1));
                }
            } else {
                assert(hay@.subrange(i as int, i + j + 1) != needle@.subrange(0, j + 1)) by {
                    if hay@.subrange(i as int, i + j + 1) == needle@.subrange(0, j + 1) {
                        assert(hay@.subrange(i as int, i + j) =~= needle@.subrange(0, j as int)) by {
                            assert forall|q: int| 0 <= q < j implies hay@.subrange(i as int, i + j)[q] == needle@.subrange(0, j as int)[q] by {
                                assert(hay@.subrange(i as int, i + j + 1)[q] == needle@.subrange(0, j + 1)[q]);
                            }
                        }
                    }
                }
            }
            j += 1;
        }
        assert(needle@.subrange(0, n as int) =~= needle@);
        if same {
            return Some(i);
        }
        i += 1;
    }
    None
}

/// `s[from..]` as a new vector.
pub fn tail(s: &[char], from: usize) -> (r: Vec<char>)
    requires
        from <= s@.len(),
    ensures
        r@ == s@.subrange(from as int, s@.len() as int),
{
    let mut r: Vec<char> = Vec::new();
    let mut i = from;
    while i < s.len()
        invariant
            from <= i <= s@.len(),
            r@ == s@.subrange(from as int, i as int),
        decreases s@.len() - i,
    {
        r.push(s[i]);
        i += 1;
        assert(r@ =~= s@.subrange(from as int, i as int));
    }
    r
}

/// `s[..to]` as a new vector.
pub fn head(s: &[char], to: usize) -> (r: Vec<char>)
    requires
        to <= s@.len(),
    ensures
        r@ == s@.subrange(0, to as int),
{
    let mut r: Vec<char> = Vec::new();
    let mut i: usize = 0;
    while i < to
        invariant
            i <= to <= s@.len(),
            r@ == s@.subrange(0, i as int),
        decreases to - i,
    {
        r.push(s[i]);
        i += 1;
        assert(r@ =~= s@.subrange(0, i as int));
    }
    r
}

/// `a` followed by `b`.
pub fn concat(a: &[char], b: &[char]) -> (r: Vec<char>)
    ensures
        r@ == a@ + b@,
{
    let mut r = head(a, a.len());
    let mut i: usize = 0;
    while i < b.len()
        invariant
            i <= b@.len(),
            r@ == a@ + b@.subrange(0, i as int),
        decreases b@.len() - i,
    {
        r.push(b[i]);
        i += 1;
        assert(r@ =~= a@ + b@.subrange(0, i as int));
    }
    assert(a@.subrange(0, a@.len() as int) =~= a@);
    assert(b@.subrange(0, b@.len() as int) =~= b@);
    r
}

} // verus!
