//! Small byte-sequence helpers shared by the parser, renderer, and CLI layers.
use vstd::prelude::*;

verus! {

/// Appends all of `src` to `out`.
pub fn extend_bytes(out: &mut Vec<u8>, src: &[u8])
    ensures
        final(out)@ == old(out)@ + src@,
{
    let mut i: usize = 0;
    let ghost start = out@;
    while i < src.len()
        invariant
            i <= src.len(),
            out@ == start + src@.subrange(0, i as int),
        decreases src.len() - i,
    {
        out.push(src[i]);
        proof {
            assert(src@.subrange(0, i + 1) =~= src@.subrange(0, i as int).push(src@[i as int]));
        }
        i = i + 1;
    }
    proof {
        assert(src@.subrange(0, i as int) =~= src@);
    }
}

/// Copies `text[start..end]` into a new vector.
pub fn copy_range(text: &[u8], start: usize, end: usize) -> (r: Vec<u8>)
    requires
        start <= end <= text@.len(),
    ensures
        r@ == text@.subrange(start as int, end as int),
{
    let mut r: Vec<u8> = Vec::with_capacity(end - start);
    let mut i: usize = start;
    while i < end
        invariant
            start <= i <= end,
            end <= text@.len(),
            r@ == text@.subrange(start as int, i as int),
        decreases end - i,
    {
        r.push(text[i]);
        proof {
            assert(text@.subrange(start as int, i + 1) =~= text@.subrange(start as int, i as int).push(
                text@[i as int],
            ));
        }
        i = i + 1;
    }
    r
}

/// Copies a whole slice into a new vector.
pub fn slice_to_vec(text: &[u8]) -> (r: Vec<u8>)
    ensures
        r@ == text@,
{
    let r = copy_range(text, 0, text.len());
    proof {
        assert(text@.subrange(0, text@.len() as int) =~= text@);
    }
    r
}

/// The byte views of a list of byte vectors.
pub open spec fn bytes_list(v: Seq<Vec<u8>>) -> Seq<Seq<u8>> {
    v.map_values(|b: Vec<u8>| b@)
}

/// Copies `v[start..end]` into a new list.
pub fn copy_list(v: &[Vec<u8>], start: usize, end: usize) -> (r: Vec<Vec<u8>>)
    requires
        start <= end <= v@.len(),
    ensures
        bytes_list(r@) == bytes_list(v@).subrange(start as int, end as int),
{
    let mut r: Vec<Vec<u8>> = Vec::new();
    let mut i: usize = start;
    while i < end
        invariant
            start <= i <= end,
            end <= v@.len(),
            bytes_list(r@) == bytes_list(v@).subrange(start as int, i as int),
        decreases end - i,
    {
        let ghost before = r@;
        r.push(slice_to_vec(v[i].as_slice()));
        proof {
            assert(bytes_list(r@) =~= bytes_list(before).push(v@[i as int]@));
            assert(bytes_list(v@).subrange(start as int, i + 1) =~= bytes_list(v@).subrange(
                start as int,
                i as int,
            ).push(v@[i as int]@));
        }
        i = i + 1;
    }
    r
}

/// Whether two byte slices hold the same bytes.
pub fn bytes_eq(a: &[u8], b: &[u8]) -> (r: bool)
    ensures
        r == (a@ == b@),
{
    if a.len() != b.len() {
        return false;
    }
    let mut i: usize = 0;
    while i < a.len()
        invariant
            i <= a.len(),
            a.len() == b.len(),
            a@.subrange(0, i as int) == b@.subrange(0, i as int),
        decreases a.len() - i,
    {
        if a[i] != b[i] {
            return false;
        }
        proof {
            assert(a@.subrange(0, i + 1) =~= a@.subrange(0, i as int).push(a@[i as int]));
            assert(b@.subrange(0, i + 1) =~= b@.subrange(0, i as int).push(b@[i as int]));
        }
        i = i + 1;
    }
    proof {
        assert(a@.subrange(0, i as int) =~= a@);
        assert(b@.subrange(0, i as int) =~= b@);
    }
    true
}

/// Whether two strings hold the same characters.
pub fn str_eq(a: &str, b: &str) -> (r: bool)
    ensures
        r == (a@ == b@),
{
    let r = bytes_eq(a.as_bytes(), b.as_bytes());
    proof {
        vstd::utf8::encode_utf8_decode_utf8(a@);
        vstd::utf8::encode_utf8_decode_utf8(b@);
    }
    r
}

/// Whether `needle` occurs in `haystack` at position `i`.
pub open spec fn occurs_at(haystack: Seq<u8>, needle: Seq<u8>, i: int) -> bool {
    0 <= i && i + needle.len() <= haystack.len() && haystack.subrange(i, i + needle.len())
        == needle
}

/// Checks whether `needle` occurs in `haystack` at position `at`.
pub fn bytes_occur_at(haystack: &[u8], needle: &[u8], at: usize) -> (r: bool)
    ensures
        r == occurs_at(haystack@, needle@, at as int),
{
    if at > haystack.len() || needle.len() > haystack.len() - at {
        return false;
    }
    let mut i: usize = 0;
    while i < needle.len()
        invariant
            i <= needle.len(),
            at + needle.len() <= haystack.len(),
            haystack@.subrange(at as int, at + i) == needle@.subrange(0, i as int),
        decreases needle.len() - i,
    {
        if haystack[at + i] != needle[i] {
            proof {
                assert(haystack@.subrange(at as int, at + needle.len())[i as int] == haystack@[at
                    + i]);
            }
            return false;
        }
        proof {
            assert(haystack@.subrange(at as int, at + i + 1) =~= haystack@.subrange(
                at as int,
                at + i,
            ).push(haystack@[at + i]));
            assert(needle@.subrange(0, i + 1) =~= needle@.subrange(0, i as int).push(
                needle@[i as int],
            ));
        }
        i = i + 1;
    }
    proof {
        assert(needle@.subrange(0, i as int) =~= needle@);
    }
    true
}

/// A found occurrence lies at or after `from`, inside the haystack.
pub proof fn lemma_find_from_found(haystack: Seq<u8>, needle: Seq<u8>, from: int)
    ensures
        find_from(haystack, needle, from) matches Some(i) ==> from <= i && occurs_at(
            haystack,
            needle,
            i,
        ),
    decreases haystack.len() + 1 - from,
{
    if from < 0 || from + needle.len() > haystack.len() {
    } else if occurs_at(haystack, needle, from) {
    } else {
        lemma_find_from_found(haystack, needle, from + 1);
    }
}

/// The index of the first occurrence of `needle` at or after `from`, if any.
pub open spec fn find_from(haystack: Seq<u8>, needle: Seq<u8>, from: int) -> Option<int>
    decreases haystack.len() + 1 - from,
{
    if from < 0 || from + needle.len() > haystack.len() {
        None
    } else if occurs_at(haystack, needle, from) {
        Some(from)
    } else {
        find_from(haystack, needle, from + 1)
    }
}

/// Finds the first occurrence of `needle` at or after `from`.
pub fn find_bytes_from(haystack: &[u8], needle: &[u8], from: usize) -> (r: Option<usize>)
    ensures
        match r {
            Some(i) => find_from(haystack@, needle@, from as int) == Some(i as int),
            None => find_from(haystack@, needle@, from as int) is None,
        },
{
    let mut i = from;
    while i <= haystack.len() && needle.len() <= haystack.len() - i
        invariant
            from <= i,
            find_from(haystack@, needle@, from as int) == find_from(haystack@, needle@, i as int),
        decreases haystack.len() + 1 - i,
    {
        if bytes_occur_at(haystack, needle, i) {
            return Some(i);
        }
        if i == haystack.len() {
            assert(find_from(haystack@, needle@, i + 1) is None);
            return None;
        }
        i = i + 1;
    }
    None
}

} // verus!
