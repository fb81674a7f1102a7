//! Physical line splitting with separate line terminators.
use vstd::prelude::*;

use crate::bytes::copy_range;
use crate::model::copy_bytes;
use crate::std_support::main_separator;

verus! {

/// Carriage return or line feed.
pub open spec fn is_line_break(b: u8) -> bool {
    b == 13 || b == 10
}

/// The first index at or after `i` that holds a line break, or the length.
pub open spec fn line_end(t: Seq<u8>, i: int) -> int
    decreases t.len() - i,
{
    if 0 <= i < t.len() && !is_line_break(t[i]) {
        line_end(t, i + 1)
    } else {
        i
    }
}

/// The terminator that starts at the line break at `j`: CRLF, CR, or LF.
pub open spec fn terminator_at(t: Seq<u8>, j: int) -> Seq<u8> {
    if t[j] == 13 {
        if j + 1 < t.len() && t[j + 1] == 10 {
            seq![13u8, 10u8]
        } else {
            seq![13u8]
        }
    } else {
        seq![10u8]
    }
}

pub proof fn lemma_line_end(t: Seq<u8>, i: int)
    requires
        0 <= i <= t.len(),
    ensures
        i <= line_end(t, i) <= t.len(),
        line_end(t, i) < t.len() ==> is_line_break(t[line_end(t, i)]),
        forall|k: int| i <= k < line_end(t, i) ==> !is_line_break(#[trigger] t[k]),
    decreases t.len() - i,
{
    if i < t.len() && !is_line_break(t[i]) {
        lemma_line_end(t, i + 1);
    }
}

/// The physical lines of `t` from `start` on: each body with its terminator.
pub open spec fn split_from(t: Seq<u8>, start: int) -> Seq<(Seq<u8>, Seq<u8>)>
    decreases t.len() - start,
{
    if start < 0 || start >= t.len() {
        Seq::empty()
    } else {
        let j = line_end(t, start);
        if j < start || j >= t.len() {
            seq![(t.subrange(start, t.len() as int), Seq::empty())]
        } else {
            let nl = terminator_at(t, j);
            seq![(t.subrange(start, j), nl)] + split_from(t, j + nl.len())
        }
    }
}

/// The physical lines of a file.
pub open spec fn physical_lines(t: Seq<u8>) -> Seq<(Seq<u8>, Seq<u8>)> {
    split_from(t, 0)
}

/// Joining the physical lines from `start` gives back the bytes from `start`.
pub open spec fn join_segments(segs: Seq<(Seq<u8>, Seq<u8>)>) -> Seq<u8>
    decreases segs.len(),
{
    if segs.len() == 0 {
        Seq::empty()
    } else {
        segs[0].0 + segs[0].1 + join_segments(segs.drop_first())
    }
}

pub proof fn lemma_split_join(t: Seq<u8>, start: int)
    requires
        0 <= start <= t.len(),
    ensures
        join_segments(split_from(t, start)) == t.subrange(start, t.len() as int),
    decreases t.len() - start,
{
    if start < t.len() {
        lemma_line_end(t, start);
        let j = line_end(t, start);
        let segs = split_from(t, start);
        if j >= t.len() {
            assert(segs.drop_first() =~= Seq::<(Seq<u8>, Seq<u8>)>::empty());
            assert(join_segments(segs.drop_first()) =~= Seq::<u8>::empty());
            assert(join_segments(segs) == segs[0].0 + segs[0].1 + join_segments(segs.drop_first()));
            assert(t.subrange(start, t.len() as int) + Seq::<u8>::empty() + Seq::<u8>::empty()
                =~= t.subrange(start, t.len() as int));
        } else {
            let nl = terminator_at(t, j);
            lemma_split_join(t, j + nl.len());
            assert(segs.drop_first() =~= split_from(t, j + nl.len()));
            assert(join_segments(segs) == segs[0].0 + segs[0].1 + join_segments(segs.drop_first()));
            assert(nl =~= t.subrange(j, j + nl.len()));
            assert(t.subrange(start, j) + nl + t.subrange(j + nl.len(), t.len() as int) =~= t.subrange(
                start,
                t.len() as int,
            ));
        }
    } else {
        assert(t.subrange(start, t.len() as int) =~= Seq::<u8>::empty());
    }
}

/// Every physical line body is free of line breaks and every terminator is one of
/// LF, CRLF or CR, except that the last line may have none.
pub open spec fn well_formed_segment(seg: (Seq<u8>, Seq<u8>)) -> bool {
    &&& forall|k: int| 0 <= k < seg.0.len() ==> !is_line_break(#[trigger] seg.0[k])
    &&& (seg.1 == seq![10u8] || seg.1 == seq![13u8, 10u8] || seg.1 == seq![13u8] || seg.1.len() == 0)
}

pub proof fn lemma_split_well_formed(t: Seq<u8>, start: int)
    requires
        0 <= start <= t.len(),
    ensures
        forall|i: int|
            0 <= i < split_from(t, start).len() ==> well_formed_segment(
                #[trigger] split_from(t, start)[i],
            ),
        forall|i: int|
            0 <= i < split_from(t, start).len() - 1 ==> (#[trigger] split_from(t, start)[i]).1.len()
                > 0,
        forall|i: int|
            0 <= i < split_from(t, start).len() ==> (#[trigger] split_from(t, start)[i]).1.len() > 0
                || split_from(t, start)[i].0.len() > 0,
    decreases t.len() - start,
{
    if start < t.len() {
        lemma_line_end(t, start);
        let j = line_end(t, start);
        if j < t.len() {
            let nl = terminator_at(t, j);
            lemma_split_well_formed(t, j + nl.len());
            let segs = split_from(t, start);
            assert forall|i: int| 0 <= i < segs.len() implies well_formed_segment(
                #[trigger] segs[i],
            ) by {
                if i > 0 {
                    assert(segs[i] == split_from(t, j + nl.len())[i - 1]);
                }
            }
            assert forall|i: int| 0 <= i < segs.len() - 1 implies (#[trigger] segs[i]).1.len() > 0 by {
                if i > 0 {
                    assert(segs[i] == split_from(t, j + nl.len())[i - 1]);
                }
            }
            assert forall|i: int| 0 <= i < segs.len() implies (#[trigger] segs[i]).1.len() > 0
                || segs[i].0.len() > 0 by {
                if i > 0 {
                    assert(segs[i] == split_from(t, j + nl.len())[i - 1]);
                }
            }
        }
    }
}

/// The view of a list of exec segments.
pub open spec fn segments_view(segs: Seq<(Vec<u8>, Vec<u8>)>) -> Seq<(Seq<u8>, Seq<u8>)> {
    segs.map_values(|p: (Vec<u8>, Vec<u8>)| (p.0@, p.1@))
}

/// Splits bytes into physical lines while keeping each line terminator separate.
pub fn split_physical_lines(text: &[u8]) -> (r: Vec<(Vec<u8>, Vec<u8>)>)
    ensures
        segments_view(r@) == physical_lines(text@),
{
    let mut segments: Vec<(Vec<u8>, Vec<u8>)> = Vec::new();
    let mut start: usize = 0;
    let mut index: usize = 0;
    let ghost t = text@;

    while index < text.len()
        invariant
            t == text@,
            start <= index <= t.len(),
            line_end(t, start as int) == line_end(t, index as int),
            segments_view(segments@) + split_from(t, start as int) == physical_lines(t),
        decreases t.len() - index,
    {
        let byte = text[index];
        if byte == 13 || byte == 10 {
            let body = copy_range(text, start, index);
            let nl: Vec<u8>;
            let next: usize;
            if byte == 13 {
                if index + 1 < text.len() && text[index + 1] == 10 {
                    nl = vec![13u8, 10u8];
                    next = index + 2;
                } else {
                    nl = vec![13u8];
                    next = index + 1;
                }
            } else {
                nl = vec![10u8];
                next = index + 1;
            }
            proof {
                assert(nl@ =~= terminator_at(t, index as int));
                assert(split_from(t, start as int) =~= seq![(body@, nl@)] + split_from(t, next as int));
            }
            let ghost old_segments = segments@;
            segments.push((body, nl));
            proof {
                assert(segments_view(segments@) =~= segments_view(old_segments).push((body@, nl@)));
                assert(segments_view(segments@) + split_from(t, next as int) =~= segments_view(
                    old_segments,
                ) + split_from(t, start as int));
            }
            start = next;
            index = next;
        } else {
            index = index + 1;
        }
    }

    if start < text.len() {
        let body = copy_range(text, start, text.len());
        proof {
            assert(split_from(t, start as int) =~= seq![(body@, Seq::<u8>::empty())]);
        }
        let ghost old_segments = segments@;
        segments.push((body, Vec::new()));
        proof {
            assert(segments_view(segments@) =~= segments_view(old_segments).push(
                (body@, Seq::<u8>::empty()),
            ));
        }
    } else {
        proof {
            assert(segments_view(segments@) =~= segments_view(segments@) + split_from(t, start as int));
        }
    }
    segments
}

/// The first non-empty terminator among `segs`, if any.
pub open spec fn first_terminator(segs: Seq<(Seq<u8>, Seq<u8>)>) -> Option<Seq<u8>>
    decreases segs.len(),
{
    if segs.len() == 0 {
        None
    } else if segs[0].1.len() > 0 {
        Some(segs[0].1)
    } else {
        first_terminator(segs.drop_first())
    }
}

/// The platform default terminators: LF, or CRLF on Windows.
pub open spec fn is_platform_newline(nl: Seq<u8>) -> bool {
    nl == seq![10u8] || nl == seq![13u8, 10u8]
}

/// The newline style a file without any terminator falls back to.
pub open spec fn preferred_newline_of(segs: Seq<(Seq<u8>, Seq<u8>)>, nl: Seq<u8>) -> bool {
    match first_terminator(segs) {
        Some(first) => nl == first,
        None => is_platform_newline(nl),
    }
}

/// Chooses the newline style used for appended or repaired terminal lines.
pub fn preferred_newline(segments: &Vec<(Vec<u8>, Vec<u8>)>) -> (r: Vec<u8>)
    ensures
        preferred_newline_of(segments_view(segments@), r@),
{
    let mut i: usize = 0;
    assert(segments_view(segments@).subrange(0, segments@.len() as int) =~= segments_view(segments@));
    while i < segments.len()
        invariant
            i <= segments@.len(),
            first_terminator(segments_view(segments@)) == first_terminator(
                segments_view(segments@).subrange(i as int, segments@.len() as int),
            ),
        decreases segments.len() - i,
    {
        let ghost rest = segments_view(segments@).subrange(i as int, segments@.len() as int);
        if segments[i].1.len() > 0 {
            return copy_bytes(&segments[i].1);
        }
        proof {
            assert(rest.drop_first() =~= segments_view(segments@).subrange(
                i + 1,
                segments@.len() as int,
            ));
        }
        i = i + 1;
    }
    platform_newline()
}

/// The platform's default line terminator: CRLF on Windows, LF elsewhere.
pub fn platform_newline() -> (r: Vec<u8>)
    ensures
        is_platform_newline(r@),
{
    if main_separator() == '\\' {
        let r = vec![13u8, 10u8];
        assert(r@ =~= seq![13u8, 10u8]);
        r
    } else {
        let r = vec![10u8];
        assert(r@ =~= seq![10u8]);
        r
    }
}

} // verus!
