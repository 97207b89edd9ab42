use vstd::prelude::*;
use vstd::utf8::*;
use vstd::string::StringSliceAdditionalSpecFns;

verus! {

broadcast use {
    vstd::utf8::encode_utf8_valid_utf8,
    vstd::utf8::is_char_boundary_start_end_of_seq,
    vstd::seq::group_seq_axioms,
};

/// Whether a katakana middle dot starts at byte `i`: `・` (U+30FB, bytes
/// E3 83 BB) or the half-width `･` (U+FF65, bytes EF BD A5).
pub open spec fn is_middle_dot_at(b: Seq<u8>, i: int) -> bool {
    &&& 0 <= i
    &&& i + 3 <= b.len()
    &&& {
        ||| (b[i] == 0xE3u8 && b[i + 1] == 0x83u8 && b[i + 2] == 0xBBu8)
        ||| (b[i] == 0xEFu8 && b[i + 1] == 0xBDu8 && b[i + 2] == 0xA5u8)
    }
}

/// Byte position of the first middle dot at or after `start`, or `b.len()`.
pub open spec fn first_middle_dot_from(b: Seq<u8>, start: int) -> int
    decreases b.len() - start,
{
    if start < 0 || start >= b.len() {
        b.len() as int
    } else if is_middle_dot_at(b, start) {
        start
    } else {
        first_middle_dot_from(b, start + 1)
    }
}

/// The first middle dot at or after `start` lies between `start` and the end.
pub proof fn lemma_first_middle_dot_bounds(b: Seq<u8>, start: int)
    requires
        0 <= start <= b.len(),
    ensures
        start <= first_middle_dot_from(b, start) <= b.len(),
        first_middle_dot_from(b, start) < b.len() ==> is_middle_dot_at(
            b,
            first_middle_dot_from(b, start),
        ),
        forall|k: int| start <= k < first_middle_dot_from(b, start) ==> !is_middle_dot_at(b, k),
    decreases b.len() - start,
{
    if start < b.len() && !is_middle_dot_at(b, start) {
        lemma_first_middle_dot_bounds(b, start + 1);
    }
}

/// Byte ranges of the pieces of `b[start..]` between middle dots, empty pieces dropped.
pub open spec fn dot_pieces_from(b: Seq<u8>, start: int) -> Seq<(int, int)>
    decreases b.len() - start,
{
    if start < 0 || start >= b.len() {
        Seq::empty()
    } else {
        let d = first_middle_dot_from(b, start);
        proof {
            lemma_first_middle_dot_bounds(b, start);
        }
        let head: Seq<(int, int)> = if d > start {
            seq![(start, d)]
        } else {
            Seq::empty()
        };
        if d >= b.len() {
            head
        } else {
            head + dot_pieces_from(b, d + 3)
        }
    }
}

/// Whether `b` holds a middle dot anywhere.
pub open spec fn has_middle_dot(b: Seq<u8>) -> bool {
    first_middle_dot_from(b, 0) < b.len()
}

/// Byte ranges of the sub-tokens of a surface whose UTF-8 bytes are `b`:
/// without a middle dot the whole surface, otherwise the non-empty pieces
/// between middle dots.
pub open spec fn middle_dot_segments(b: Seq<u8>) -> Seq<(int, int)> {
    if !has_middle_dot(b) {
        seq![(0int, b.len() as int)]
    } else {
        dot_pieces_from(b, 0)
    }
}

/// The pieces between middle dots lie in `b[start..]`, are non-empty, hold no
/// middle dot, and come in order with at least a dot's width between them.
proof fn lemma_dot_pieces_shape(b: Seq<u8>, start: int)
    requires
        0 <= start <= b.len(),
    ensures
        forall|j: int|
            #![trigger dot_pieces_from(b, start)[j]]
            0 <= j < dot_pieces_from(b, start).len() ==> {
                let p = dot_pieces_from(b, start)[j];
                &&& start <= p.0 < p.1 <= b.len()
                &&& forall|k: int| p.0 <= k < p.1 ==> !is_middle_dot_at(b, k)
                &&& (p.0 == start || is_middle_dot_at(b, p.0 - 3))
                &&& (p.1 == b.len() || is_middle_dot_at(b, p.1))
            },
        forall|j: int|
            #![trigger dot_pieces_from(b, start)[j]]
            0 <= j < dot_pieces_from(b, start).len() - 1 ==> dot_pieces_from(b, start)[j].1 + 3
                <= dot_pieces_from(b, start)[j + 1].0,
    decreases b.len() - start,
{
    if start < b.len() {
        let d = first_middle_dot_from(b, start);
        lemma_first_middle_dot_bounds(b, start);
        let head: Seq<(int, int)> = if d > start {
            seq![(start, d)]
        } else {
            Seq::empty()
        };
        if d < b.len() {
            lemma_dot_pieces_shape(b, d + 3);
            let rest = dot_pieces_from(b, d + 3);
            let all = dot_pieces_from(b, start);
            assert(all == head + rest);
            assert forall|j: int| 0 <= j < all.len() - 1 implies #[trigger] all[j].1 + 3
                <= all[j + 1].0 by {
                if j >= head.len() {
                    assert(all[j] == rest[j - head.len()]);
                    assert(all[j + 1] == rest[j + 1 - head.len()]);
                } else {
                    assert(all[j] == (start, d));
                    assert(all[j + 1] == rest[0]);
                }
            }
            assert forall|j: int| 0 <= j < all.len() implies {
                let p = #[trigger] all[j];
                &&& start <= p.0 < p.1 <= b.len()
                &&& forall|k: int| p.0 <= k < p.1 ==> !is_middle_dot_at(b, k)
                &&& (p.0 == start || is_middle_dot_at(b, p.0 - 3))
                &&& (p.1 == b.len() || is_middle_dot_at(b, p.1))
            } by {
                if j >= head.len() {
                    assert(all[j] == rest[j - head.len()]);
                }
            }
        }
    }
}

/// Shape of the sub-token ranges of a surface: each lies inside the surface
/// and they come in increasing order, separated at least by a middle dot.
/// When the surface holds a middle dot, every range is non-empty and holds
/// no middle dot; otherwise the single range is the whole surface.
pub proof fn law_middle_dot_segments_shape(b: Seq<u8>)
    ensures
        forall|j: int|
            #![trigger middle_dot_segments(b)[j]]
            0 <= j < middle_dot_segments(b).len() ==> 0 <= middle_dot_segments(b)[j].0
                <= middle_dot_segments(b)[j].1 <= b.len(),
        forall|j: int|
            #![trigger middle_dot_segments(b)[j]]
            0 <= j < middle_dot_segments(b).len() - 1 ==> middle_dot_segments(b)[j].1 + 3
                <= middle_dot_segments(b)[j + 1].0,
        has_middle_dot(b) ==> forall|j: int|
            #![trigger middle_dot_segments(b)[j]]
            0 <= j < middle_dot_segments(b).len() ==> {
                let p = middle_dot_segments(b)[j];
                &&& p.0 < p.1
                &&& forall|k: int| p.0 <= k < p.1 ==> !is_middle_dot_at(b, k)
            },
        !has_middle_dot(b) ==> middle_dot_segments(b) == seq![(0int, b.len() as int)],
{
    lemma_dot_pieces_shape(b, 0);
}

/// Whether byte `k` of `b` belongs to a middle dot.
pub open spec fn in_middle_dot(b: Seq<u8>, k: int) -> bool {
    exists|i: int| i <= k < i + 3 && #[trigger] is_middle_dot_at(b, i)
}

/// Whether byte `k` lies in one of the ranges `segs`.
pub open spec fn covered_by(segs: Seq<(int, int)>, k: int) -> bool {
    exists|j: int| 0 <= j < segs.len() && (#[trigger] segs[j]).0 <= k < segs[j].1
}

proof fn lemma_dot_pieces_cover(b: Seq<u8>, start: int)
    requires
        0 <= start <= b.len(),
    ensures
        forall|k: int|
            start <= k < b.len() ==> in_middle_dot(b, k) || #[trigger] covered_by(
                dot_pieces_from(b, start),
                k,
            ),
    decreases b.len() - start,
{
    if start < b.len() {
        let d = first_middle_dot_from(b, start);
        lemma_first_middle_dot_bounds(b, start);
        let head: Seq<(int, int)> = if d > start {
            seq![(start, d)]
        } else {
            Seq::empty()
        };
        let all = dot_pieces_from(b, start);
        if d < b.len() {
            lemma_dot_pieces_cover(b, d + 3);
            let rest = dot_pieces_from(b, d + 3);
            assert(all == head + rest);
            assert forall|k: int| start <= k < b.len() implies in_middle_dot(b, k)
                || #[trigger] covered_by(all, k) by {
                if k < d {
                    assert(all[0] == (start, d));
                } else if k < d + 3 {
                    assert(is_middle_dot_at(b, d));
                } else if covered_by(rest, k) {
                    let j = choose|j: int| 0 <= j < rest.len() && (#[trigger] rest[j]).0 <= k
                        < rest[j].1;
                    assert(all[j + head.len()] == rest[j]);
                }
            }
        } else {
            assert(all == head);
            assert forall|k: int| start <= k < b.len() implies in_middle_dot(b, k)
                || #[trigger] covered_by(all, k) by {
                assert(all[0] == (start, d));
            }
        }
    }
}

/// Nothing of a surface is lost: every byte that is not part of a middle dot
/// lies in one of its sub-token ranges.
pub proof fn law_middle_dot_segments_cover_surface(b: Seq<u8>)
    ensures
        forall|k: int|
            0 <= k < b.len() && !in_middle_dot(b, k) ==> #[trigger] covered_by(
                middle_dot_segments(b),
                k,
            ),
{
    lemma_dot_pieces_cover(b, 0);
    if !has_middle_dot(b) {
        let segs = middle_dot_segments(b);
        assert forall|k: int| 0 <= k < b.len() && !in_middle_dot(b, k) implies #[trigger] covered_by(
            segs,
            k,
        ) by {
            assert(segs[0] == (0int, b.len() as int));
        }
    }
}

/// In valid UTF-8 every sub-token range starts and ends on a character boundary.
pub proof fn law_middle_dot_segments_on_char_boundaries(b: Seq<u8>)
    requires
        valid_utf8(b),
    ensures
        forall|j: int|
            #![trigger middle_dot_segments(b)[j]]
            0 <= j < middle_dot_segments(b).len() ==> is_char_boundary(b, middle_dot_segments(b)[j].0)
                && is_char_boundary(b, middle_dot_segments(b)[j].1),
{
    lemma_dot_pieces_shape(b, 0);
    is_char_boundary_start_end_of_seq(b);
    let segs = middle_dot_segments(b);
    assert forall|j: int| 0 <= j < segs.len() implies is_char_boundary(b, #[trigger] segs[j].0)
        && is_char_boundary(b, segs[j].1) by {
        if has_middle_dot(b) {
            let p = segs[j];
            if p.0 != 0 {
                lemma_middle_dot_boundaries(b, p.0 - 3);
            }
            if p.1 != b.len() {
                lemma_middle_dot_boundaries(b, p.1);
            }
        }
    }
}

/// The bytes between two character boundaries of valid UTF-8 are valid UTF-8.
pub proof fn lemma_valid_utf8_between_boundaries(b: Seq<u8>, a: int, e: int)
    requires
        valid_utf8(b),
        0 <= a <= e <= b.len(),
        is_char_boundary(b, a),
        is_char_boundary(b, e),
    ensures
        valid_utf8(b.subrange(a, e)),
{
    lemma_suffix_boundary(b, a, e);
    let tail = b.subrange(a, b.len() as int);
    valid_utf8_split(tail, e - a);
    assert(tail.subrange(0, e - a) =~= b.subrange(a, e));
}

/// In valid UTF-8 a middle dot is a whole character: both of its ends are
/// character boundaries.
pub proof fn lemma_middle_dot_boundaries(b: Seq<u8>, i: int)
    requires
        valid_utf8(b),
        is_middle_dot_at(b, i),
    ensures
        is_char_boundary(b, i),
        is_char_boundary(b, i + 3),
{
    is_char_boundary_iff_not_is_continuation_byte(b, i);
    assert(is_char_boundary(b, i));
    if i + 3 < b.len() {
        valid_utf8_split(b, i);
        let tail = b.subrange(i, b.len() as int);
        assert(tail[0] == b[i]);
        assert(valid_first_scalar(tail));
        assert(length_of_first_scalar(tail) == 3);
        let rest = pop_first_scalar(tail);
        assert(rest =~= b.subrange(i + 3, b.len() as int));
        assert(valid_utf8(rest));
        assert(rest.len() > 0);
        assert(valid_first_scalar(rest));
        assert(rest[0] == b[i + 3]);
        is_char_boundary_iff_not_is_continuation_byte(b, i + 3);
    }
}

/// A boundary of `b` at or after `a` is a boundary of the suffix starting at boundary `a`.
proof fn lemma_suffix_boundary(b: Seq<u8>, a: int, e: int)
    requires
        valid_utf8(b),
        0 <= a <= e <= b.len(),
        is_char_boundary(b, a),
        is_char_boundary(b, e),
    ensures
        valid_utf8(b.subrange(a, b.len() as int)),
        is_char_boundary(b.subrange(a, b.len() as int), e - a),
{
    valid_utf8_split(b, a);
    let tail = b.subrange(a, b.len() as int);
    if e < b.len() {
        is_char_boundary_iff_not_is_continuation_byte(b, e);
        assert(tail[e - a] == b[e]);
        is_char_boundary_iff_not_is_continuation_byte(tail, e - a);
    } else {
        assert(e - a == tail.len());
    }
}

/// The part of `s` between the character boundaries at bytes `a` and `e`.
pub fn byte_range<'a>(s: &'a str, a: usize, e: usize) -> (r: &'a str)
    requires
        a <= e <= s.spec_bytes().len(),
        is_char_boundary(s.spec_bytes(), a as int),
        is_char_boundary(s.spec_bytes(), e as int),
    ensures
        r.spec_bytes() == s.spec_bytes().subrange(a as int, e as int),
{
    proof {
        lemma_suffix_boundary(s.spec_bytes(), a as int, e as int);
    }
    let (_, tail) = s.split_at(a);
    proof {
        assert(tail.spec_bytes() =~= s.spec_bytes().subrange(a as int, s.spec_bytes().len() as int));
    }
    let (piece, _) = tail.split_at(e - a);
    assert(piece.spec_bytes() =~= s.spec_bytes().subrange(a as int, e as int));
    piece
}

/// Splits a surface at katakana middle dots (`・`, half-width `･`) into
/// sub-tokens, dropping empty pieces (leading, trailing or doubled dots). A
/// surface without a middle dot is returned whole. Offsets are shifted by
/// `base`, so a surface found at byte `base` of a text yields sub-tokens
/// found at their own offsets of that text.
pub fn split_middle_dot<'a>(surface: &'a str, base: usize) -> (r: Vec<(&'a str, usize, usize)>)
    requires
        base + surface.spec_bytes().len() <= usize::MAX,
    ensures
        r@.len() == middle_dot_segments(surface.spec_bytes()).len(),
        forall|j: int|
            #![trigger r@[j]]
            0 <= j < r@.len() ==> {
                let seg = middle_dot_segments(surface.spec_bytes())[j];
                &&& r@[j].0.spec_bytes() == surface.spec_bytes().subrange(seg.0, seg.1)
                &&& r@[j].1 == base + seg.0
                &&& r@[j].2 == base + seg.1
            },
{
    let b = surface.as_bytes();
    let n = b.len();
    let ghost bytes = surface.spec_bytes();
    let ghost mut done: Seq<(int, int)> = Seq::empty();
    let mut out: Vec<(&'a str, usize, usize)> = Vec::new();
    let mut seg: usize = 0;
    let mut i: usize = 0;
    proof {
        assert(valid_utf8(bytes));
        assert(done + dot_pieces_from(bytes, 0) =~= dot_pieces_from(bytes, 0));
    }
    while i < n
        invariant
            b@ == bytes,
            bytes == surface.spec_bytes(),
            valid_utf8(bytes),
            n == bytes.len(),
            base + n <= usize::MAX,
            seg <= i <= n,
            seg == 0 || (seg >= 3 && is_middle_dot_at(bytes, seg - 3)),
            first_middle_dot_from(bytes, seg as int) == first_middle_dot_from(bytes, i as int),
            dot_pieces_from(bytes, 0) == done + dot_pieces_from(bytes, seg as int),
            out@.len() == done.len(),
            forall|j: int|
                #![trigger out@[j]]
                0 <= j < done.len() ==> {
                    &&& out@[j].0.spec_bytes() == bytes.subrange(done[j].0, done[j].1)
                    &&& out@[j].1 == base + done[j].0
                    &&& out@[j].2 == base + done[j].1
                },
        decreases n - i,
    {
        let dot = n - i >= 3 && ((b[i] == 0xE3u8 && b[i + 1] == 0x83u8 && b[i + 2] == 0xBBu8) || (
        b[i] == 0xEFu8 && b[i + 1] == 0xBDu8 && b[i + 2] == 0xA5u8));
        if dot {
            proof {
                assert(is_middle_dot_at(bytes, i as int));
                assert(first_middle_dot_from(bytes, i as int) == i);
                lemma_middle_dot_boundaries(bytes, i as int);
                if seg > 0 {
                    lemma_middle_dot_boundaries(bytes, seg - 3);
                }
                lemma_first_middle_dot_bounds(bytes, seg as int);
            }
            let ghost old_done = done;
            if i > seg {
                let piece = byte_range(surface, seg, i);
                out.push((piece, base + seg, base + i));
                proof {
                    done = done.push((seg as int, i as int));
                }
            }
            proof {
                let head: Seq<(int, int)> = if i > seg {
                    seq![(seg as int, i as int)]
                } else {
                    Seq::empty()
                };
                assert(dot_pieces_from(bytes, seg as int) == head + dot_pieces_from(
                    bytes,
                    i + 3,
                ));
                assert(done =~= old_done + head);
                assert(old_done + (head + dot_pieces_from(bytes, i + 3)) =~= done
                    + dot_pieces_from(bytes, i + 3));
            }
            seg = i + 3;
            i = i + 3;
        } else {
            proof {
                assert(!is_middle_dot_at(bytes, i as int));
                assert(first_middle_dot_from(bytes, i as int) == first_middle_dot_from(
                    bytes,
                    i + 1,
                ));
            }
            i = i + 1;
        }
    }
    proof {
        assert(first_middle_dot_from(bytes, n as int) == n);
        if seg > 0 {
            lemma_middle_dot_boundaries(bytes, seg - 3);
        }
        lemma_first_middle_dot_bounds(bytes, 0);
    }
    if seg == 0 {
        proof {
            assert(!has_middle_dot(bytes));
            assert(bytes.subrange(0, n as int) =~= bytes);
        }
        let mut whole: Vec<(&'a str, usize, usize)> = Vec::new();
        whole.push((surface, base, base + n));
        return whole;
    }
    let ghost old_done = done;
    if n > seg {
        let piece = byte_range(surface, seg, n);
        out.push((piece, base + seg, base + n));
        proof {
            done = done.push((seg as int, n as int));
        }
    }
    proof {
        assert(has_middle_dot(bytes));
        if n > seg {
            assert(dot_pieces_from(bytes, seg as int) =~= seq![(seg as int, n as int)]);
        } else {
            assert(dot_pieces_from(bytes, seg as int) =~= Seq::<(int, int)>::empty());
        }
        assert(dot_pieces_from(bytes, 0) =~= done);
    }
    out
}

} // verus!
