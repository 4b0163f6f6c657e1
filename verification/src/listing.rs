//! The file listing of an archive: the names that pass a filter, in order.

use vstd::prelude::*;
use crate::archive::{lowercase, name_has, FileEntry};
use crate::text::{chars_of, find_first, string_from_chars};

verus! {

/// Whether `a` comes no later than `b` in code-point order, the order of
/// `str`'s `Ord` (which compares UTF-8 bytes, and so the code points they
/// encode).
pub open spec fn chars_le(a: Seq<char>, b: Seq<char>) -> bool
    decreases a.len(),
{
    if a.len() == 0 {
        true
    } else if b.len() == 0 {
        false
    } else if a[0] != b[0] {
        (a[0] as u32) < (b[0] as u32)
    } else {
        chars_le(a.drop_first(), b.drop_first())
    }
}

/// Whether `s` is in code-point order.
pub open spec fn in_order(s: Seq<Seq<char>>) -> bool {
    forall|i: int, j: int| 0 <= i < j < s.len() ==> chars_le(#[trigger] s[i], #[trigger] s[j])
}

/// Whether a name passes the listing's filter: every name passes no filter;
/// a filter passes the names that hold it, both in lower case.
pub open spec fn passes(name: Seq<char>, filter: Option<Seq<char>>) -> bool {
    match filter {
        None => true,
        Some(f) => find_first(lowercase(name), lowercase(f)) is Some,
    }
}

/// The names of `files` that pass `filter`, in archive order.
pub open spec fn kept_names(files: Seq<FileEntry>, filter: Option<Seq<char>>) -> Seq<Seq<char>>
    decreases files.len(),
{
    if files.len() == 0 {
        Seq::empty()
    } else {
        let prev = kept_names(files.drop_last(), filter);
        if passes(files.last().name@, filter) {
            prev.push(files.last().name@)
        } else {
            prev
        }
    }
}

/// A filter as plain characters.
pub open spec fn filter_view(filter: Option<&str>) -> Option<Seq<char>> {
    match filter {
        Some(f) => Some(f@),
        None => None,
    }
}

pub open spec fn char_views(v: Seq<Vec<char>>) -> Seq<Seq<char>> {
    v.map_values(|x: Vec<char>| x@)
}

pub open spec fn string_views(v: Seq<String>) -> Seq<Seq<char>> {
    v.map_values(|x: String| x@)
}

proof fn lemma_char_eq(a: char, b: char)
    requires
        a as u32 == b as u32,
    ensures
        a == b,
{
    vstd::utf8::char_u32_cast(a, a as u32);
    vstd::utf8::char_u32_cast(b, b as u32);
}

/// Any two names are ordered one way or the other.
pub proof fn chars_le_total(a: Seq<char>, b: Seq<char>)
    ensures
        chars_le(a, b) || chars_le(b, a),
    decreases a.len(),
{
    if a.len() > 0 && b.len() > 0 {
        if a[0] != b[0] {
            if a[0] as u32 == b[0] as u32 {
                lemma_char_eq(a[0], b[0]);
            }
        } else {
            chars_le_total(a.drop_first(), b.drop_first());
        }
    }
}

/// Code-point order is transitive.
pub proof fn chars_le_trans(a: Seq<char>, b: Seq<char>, c: Seq<char>)
    requires
        chars_le(a, b),
        chars_le(b, c),
    ensures
        chars_le(a, c),
    decreases a.len(),
{
    if a.len() > 0 && b.len() > 0 && c.len() > 0 {
        if a[0] == b[0] && b[0] == c[0] {
            chars_le_trans(a.drop_first(), b.drop_first(), c.drop_first());
        } else if a[0] == c[0] {
            if a[0] != b[0] {
                assert((a[0] as u32) < (b[0] as u32));
                assert((b[0] as u32) < (c[0] as u32));
            }
        }
    }
}

/// Whether `a` comes no later than `b` in code-point order.
fn name_le(a: &[char], b: &[char]) -> (r: bool)
    ensures
        r == chars_le(a@, b@),
{
    let mut i: usize = 0;
    assert(a@.skip(0) =~= a@);
    assert(b@.skip(0) =~= b@);
    while i < a.len() && i < b.len() && a[i] == b[i]
        invariant
            i <= a.len(),
            i <= b.len(),
            chars_le(a@, b@) == chars_le(a@.skip(i as int), b@.skip(i as int)),
        decreases a.len() - i,
    {
        assert(a@.skip(i as int).drop_first() =~= a@.skip(i + 1));
        assert(b@.skip(i as int).drop_first() =~= b@.skip(i + 1));
        i = i + 1;
    }
    if i == a.len() {
        assert(a@.skip(i as int).len() == 0);
        true
    } else if i == b.len() {
        assert(b@.skip(i as int).len() == 0);
        false
    } else {
        assert(a@.skip(i as int)[0] == a@[i as int]);
        assert(b@.skip(i as int)[0] == b@[i as int]);
        (a[i] as u32) < (b[i] as u32)
    }
}

/// The names of the files that pass `filter` (see `name_has`), in code-point
/// order: the archive listing.
pub fn listing(files: &[FileEntry], filter: Option<&str>) -> (r: Vec<String>)
    ensures
        in_order(string_views(r@)),
        string_views(r@).to_multiset() == kept_names(files@, filter_view(filter)).to_multiset(),
{
    let ghost fv = filter_view(filter);
    let mut out: Vec<Vec<char>> = Vec::new();
    let mut i: usize = 0;
    assert(char_views(out@) =~= Seq::<Seq<char>>::empty());
    assert(files@.take(0) =~= Seq::<FileEntry>::empty());
    while i < files.len()
        invariant
            i <= files@.len(),
            fv == filter_view(filter),
            in_order(char_views(out@)),
            char_views(out@).to_multiset() == kept_names(files@.take(i as int), fv).to_multiset(),
        decreases files.len() - i,
    {
        let f = &files[i];
        assert(files@.take(i + 1).drop_last() =~= files@.take(i as int));
        assert(files@.take(i + 1).last() == files@[i as int]);
        let keep = match filter {
            None => true,
            Some(flt) => name_has(f.name.as_str(), flt),
        };
        if keep {
            let nc = chars_of(f.name.as_str());
            let ghost s = char_views(out@);
            let mut p: usize = 0;
            while p < out.len() && name_le(out[p].as_slice(), nc.as_slice())
                invariant
                    p <= out@.len(),
                    s == char_views(out@),
                    forall|q: int| 0 <= q < p ==> chars_le(#[trigger] s[q], nc@),
                decreases out.len() - p,
            {
                p = p + 1;
            }
            proof {
                if p < s.len() {
                    chars_le_total(s[p as int], nc@);
                }
                assert forall|q: int| p <= q < s.len() implies chars_le(nc@, #[trigger] s[q]) by {
                    if q > p {
                        chars_le_trans(nc@, s[p as int], s[q]);
                    }
                }
            }
            out.insert(p, nc);
            proof {
                let t = s.insert(p as int, nc@);
                assert(char_views(out@) =~= t);
                assert forall|a: int, b: int| 0 <= a < b < t.len() implies chars_le(#[trigger] t[a], #[trigger] t[b]) by {
                    if b < p {
                    } else if a < p && b == p {
                    } else if a < p {
                        assert(t[b] == s[b - 1]);
                    } else if a == p {
                        assert(t[b] == s[b - 1]);
                    } else {
                        assert(t[a] == s[a - 1]);
                        assert(t[b] == s[b - 1]);
                    }
                }
                vstd::seq_lib::to_multiset_insert(s, p as int, nc@);
                assert(nc@ == files@[i as int].name@);
                kept_names(files@.take(i as int), fv).to_multiset_ensures();
            }
        }
        i = i + 1;
    }
    assert(files@.take(files.len() as int) =~= files@);
    let mut r: Vec<String> = Vec::new();
    let mut k: usize = 0;
    while k < out.len()
        invariant
            k <= out@.len(),
            string_views(r@) == char_views(out@).take(k as int),
        decreases out.len() - k,
    {
        let s = string_from_chars(out[k].as_slice());
        let ghost before = r@;
        r.push(s);
        assert(string_views(r@) =~= string_views(before).push(out@[k as int]@));
        assert(char_views(out@).take(k + 1) =~= char_views(out@).take(k as int).push(out@[k as int]@));
        k = k + 1;
    }
    assert(char_views(out@).take(out.len() as int) =~= char_views(out@));
    r
}

} // verus!
