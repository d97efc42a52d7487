//! The overlapping windows in which a long text is scanned.
use vstd::prelude::*;
use vstd::utf8::*;

use crate::text::slice;

verus! {

/// How far a window reaches. Inference is about quadratic in the length of its
/// input, so a long text is scanned window by window.
pub const WINDOW_BYTES: usize = 1500;

/// How far the next window reaches back into the one before it: more than the
/// longest single entity.
pub const OVERLAP_BYTES: usize = 300;

/// The largest text that is scanned at all.
pub const MAX_TEXT_BYTES: usize = 40_000;

/// The first character boundary of the text at byte `i` or after it.
pub open spec fn next_boundary(bytes: Seq<u8>, i: int) -> int
    decreases bytes.len() - i,
{
    if i < bytes.len() && !is_char_boundary(bytes, i) {
        next_boundary(bytes, i + 1)
    } else {
        i
    }
}

/// Where the window that begins at `start` ends.
pub open spec fn window_end(bytes: Seq<u8>, start: int) -> int {
    next_boundary(
        bytes,
        if start + WINDOW_BYTES < bytes.len() {
            start + WINDOW_BYTES
        } else {
            bytes.len() as int
        },
    )
}

/// Where the window after the one that begins at `start` begins.
pub open spec fn next_start(bytes: Seq<u8>, start: int) -> int {
    next_boundary(bytes, start + (WINDOW_BYTES - OVERLAP_BYTES))
}

/// The byte ranges of the windows from `start` on: each ends at `window_end`, the
/// last one is the first that reaches the end of the text.
pub open spec fn ranges_from(bytes: Seq<u8>, start: int) -> Seq<(int, int)>
    decreases bytes.len() - start,
{
    let end = window_end(bytes, start);
    if end >= bytes.len() {
        seq![(start, end)]
    } else {
        proof {
            lemma_next_boundary(bytes, start + WINDOW_BYTES);
            lemma_next_boundary(bytes, start + (WINDOW_BYTES - OVERLAP_BYTES));
        }
        seq![(start, end)] + ranges_from(bytes, next_start(bytes, start))
    }
}

/// The byte ranges of the windows in which a text with these bytes is scanned.
pub open spec fn window_ranges(bytes: Seq<u8>) -> Seq<(int, int)> {
    ranges_from(bytes, 0)
}

/// The next boundary lies at or after `i`, within the text where `i` does, and no
/// boundary lies between.
pub proof fn lemma_next_boundary(bytes: Seq<u8>, i: int)
    ensures
        i <= next_boundary(bytes, i),
        i <= bytes.len() ==> next_boundary(bytes, i) <= bytes.len(),
        next_boundary(bytes, i) < bytes.len() ==> is_char_boundary(bytes, next_boundary(bytes, i)),
        forall|j: int| i <= j < next_boundary(bytes, i) ==> !is_char_boundary(bytes, j),
    decreases bytes.len() - i,
{
    if i < bytes.len() && !is_char_boundary(bytes, i) {
        lemma_next_boundary(bytes, i + 1);
    }
}

/// The first character boundary of `text` at byte `i` or after it.
fn bump(text: &str, i: usize) -> (r: usize)
    requires
        i <= encode_utf8(text@).len(),
    ensures
        r == next_boundary(encode_utf8(text@), i as int),
        r <= encode_utf8(text@).len(),
        is_char_boundary(encode_utf8(text@), r as int),
{
    let n = text.as_bytes().len();
    let mut r: usize = i;
    while r < n && !text.is_char_boundary(r)
        invariant
            n == encode_utf8(text@).len(),
            r <= n,
            next_boundary(encode_utf8(text@), r as int) == next_boundary(
                encode_utf8(text@),
                i as int,
            ),
        decreases n - r,
    {
        r += 1;
    }
    proof {
        encode_utf8_valid_utf8(text@);
        is_char_boundary_start_end_of_seq(encode_utf8(text@));
    }
    r
}

/// The windows of `text`, each with the byte at which it begins.
pub fn windows(text: &str) -> (out: Vec<(usize, &str)>)
    ensures
        out@.len() == window_ranges(encode_utf8(text@)).len(),
        forall|k: int|
            #![trigger out@[k]]
            0 <= k < out@.len() ==> {
                let range = window_ranges(encode_utf8(text@))[k];
                &&& out@[k].0 == range.0
                &&& encode_utf8(out@[k].1@) == encode_utf8(text@).subrange(range.0, range.1)
            },
{
    let n = text.as_bytes().len();
    let ghost bytes = encode_utf8(text@);
    let step: usize = WINDOW_BYTES - OVERLAP_BYTES;
    let mut out: Vec<(usize, &str)> = Vec::new();
    let mut start: usize = 0;
    proof {
        encode_utf8_valid_utf8(text@);
        is_char_boundary_start_end_of_seq(bytes);
        assert(Seq::<(int, int)>::empty() + ranges_from(bytes, 0) =~= window_ranges(bytes));
    }
    let ghost mut done = Seq::<(int, int)>::empty();
    loop
        invariant
            bytes == encode_utf8(text@),
            n == bytes.len(),
            step == WINDOW_BYTES - OVERLAP_BYTES,
            start <= n,
            is_char_boundary(bytes, start as int),
            done + ranges_from(bytes, start as int) == window_ranges(bytes),
            out@.len() == done.len(),
            forall|k: int|
                #![trigger out@[k]]
                0 <= k < out@.len() ==> {
                    &&& out@[k].0 == done[k].0
                    &&& encode_utf8(out@[k].1@) == bytes.subrange(done[k].0, done[k].1)
                },
        decreases n - start,
    {
        let reach: usize = if n - start > WINDOW_BYTES {
            start + WINDOW_BYTES
        } else {
            n
        };
        let end = bump(text, reach);
        proof {
            lemma_next_boundary(bytes, reach as int);
        }
        out.push((start, slice(text, start, end)));
        let ghost before = done;
        proof {
            done = done.push((start as int, end as int));
        }
        if end >= n {
            assert(before + ranges_from(bytes, start as int) =~= done);
            return out;
        }
        proof {
            lemma_next_boundary(bytes, start + step);
            assert(before + ranges_from(bytes, start as int) =~= done + ranges_from(
                bytes,
                next_start(bytes, start as int),
            ));
        }
        start = bump(text, start + step);
    }
}

/// The windows from `start` on, as `law_windows_tile` states them of a whole text.
proof fn lemma_ranges_tile(bytes: Seq<u8>, start: int)
    requires
        valid_utf8(bytes),
        0 <= start <= bytes.len(),
        is_char_boundary(bytes, start),
    ensures
        ({
            let w = ranges_from(bytes, start);
            &&& w.len() > 0
            &&& w[0].0 == start
            &&& w.last().1 == bytes.len()
            &&& forall|k: int|
                #![trigger w[k]]
                0 <= k < w.len() ==> {
                    &&& start <= w[k].0 <= w[k].1 <= bytes.len()
                    &&& is_char_boundary(bytes, w[k].0)
                    &&& is_char_boundary(bytes, w[k].1)
                }
            &&& forall|k: int|
                #![trigger w[k]]
                0 <= k < w.len() - 1 ==> w[k].0 + (WINDOW_BYTES - OVERLAP_BYTES) <= w[k + 1].0
                    < w[k].1
            &&& (w.len() - 1) * (WINDOW_BYTES - OVERLAP_BYTES) <= bytes.len() - start
        }),
    decreases bytes.len() - start,
{
    let end = window_end(bytes, start);
    let reach = if start + WINDOW_BYTES < bytes.len() {
        start + WINDOW_BYTES
    } else {
        bytes.len() as int
    };
    lemma_next_boundary(bytes, reach);
    is_char_boundary_start_end_of_seq(bytes);
    if end < bytes.len() {
        let next = next_start(bytes, start);
        lemma_next_boundary(bytes, start + (WINDOW_BYTES - OVERLAP_BYTES));
        lemma_boundary_near(bytes, start + (WINDOW_BYTES - OVERLAP_BYTES));
        lemma_ranges_tile(bytes, next);
        let rest = ranges_from(bytes, next);
        let w = ranges_from(bytes, start);
        assert(w =~= seq![(start, end)] + rest);
        assert forall|k: int| #![trigger w[k]] 0 <= k < w.len() implies {
            &&& start <= w[k].0 <= w[k].1 <= bytes.len()
            &&& is_char_boundary(bytes, w[k].0)
            &&& is_char_boundary(bytes, w[k].1)
        } by {
            if k > 0 {
                assert(w[k] == rest[k - 1]);
            }
        }
        assert forall|k: int| #![trigger w[k]] 0 <= k < w.len() - 1 implies w[k].0 + (WINDOW_BYTES
            - OVERLAP_BYTES) <= w[k + 1].0 < w[k].1 by {
            if k > 0 {
                assert(w[k] == rest[k - 1]);
                assert(w[k + 1] == rest[k]);
            } else {
                assert(w[1] == rest[0]);
            }
        }
        assert(w.last() == rest.last());
    }
}

/// A character is at most four bytes long: a boundary is never four bytes away.
proof fn lemma_boundary_near(bytes: Seq<u8>, i: int)
    requires
        valid_utf8(bytes),
        0 <= i <= bytes.len(),
    ensures
        next_boundary(bytes, i) <= i + 3,
    decreases bytes.len(),
{
    lemma_next_boundary(bytes, i);
    is_char_boundary_start_end_of_seq(bytes);
    if bytes.len() > 0 && i > 0 {
        let width = length_of_first_scalar(bytes);
        let rest = pop_first_scalar(bytes);
        if i <= width {
            is_char_boundary_start_end_of_seq(rest);
            assert(is_char_boundary(bytes, width));
        } else {
            lemma_boundary_near(rest, i - width);
            lemma_next_boundary(rest, i - width);
            is_char_boundary_start_end_of_seq(rest);
            let there = next_boundary(rest, i - width);
            assert(is_char_boundary(rest, there));
            assert(is_char_boundary(bytes, there + width));
        }
    }
}

/// The windows tile the text: the first begins at its start, the last ends at its
/// end, every window begins and ends at a character boundary within the text, and
/// each next window begins a step further on, before the one before it ends. So
/// there is at most one window more than there are steps in the text.
pub proof fn law_windows_tile(bytes: Seq<u8>)
    requires
        valid_utf8(bytes),
    ensures
        ({
            let w = window_ranges(bytes);
            &&& w.len() > 0
            &&& w[0].0 == 0
            &&& w.last().1 == bytes.len()
            &&& forall|k: int|
                #![trigger w[k]]
                0 <= k < w.len() ==> {
                    &&& 0 <= w[k].0 <= w[k].1 <= bytes.len()
                    &&& is_char_boundary(bytes, w[k].0)
                    &&& is_char_boundary(bytes, w[k].1)
                }
            &&& forall|k: int|
                #![trigger w[k]]
                0 <= k < w.len() - 1 ==> w[k].0 + (WINDOW_BYTES - OVERLAP_BYTES) <= w[k + 1].0
                    < w[k].1
            &&& (w.len() - 1) * (WINDOW_BYTES - OVERLAP_BYTES) <= bytes.len()
        }),
{
    is_char_boundary_start_end_of_seq(bytes);
    lemma_ranges_tile(bytes, 0);
}

/// A text that fits in one pass is one window.
pub proof fn law_short_text_is_one_window(bytes: Seq<u8>)
    requires
        bytes.len() <= WINDOW_BYTES,
    ensures
        window_ranges(bytes) == seq![(0int, bytes.len() as int)],
{
}

/// A short span is inside one of the windows from `start` on.
proof fn lemma_span_in_range(bytes: Seq<u8>, start: int, a: int, b: int) -> (k: int)
    requires
        valid_utf8(bytes),
        0 <= start <= a <= b <= bytes.len(),
        is_char_boundary(bytes, a),
        b - a <= OVERLAP_BYTES,
    ensures
        0 <= k < ranges_from(bytes, start).len(),
        ranges_from(bytes, start)[k].0 <= a,
        b <= ranges_from(bytes, start)[k].1,
    decreases bytes.len() - start,
{
    let end = window_end(bytes, start);
    let reach = if start + WINDOW_BYTES < bytes.len() {
        start + WINDOW_BYTES
    } else {
        bytes.len() as int
    };
    lemma_next_boundary(bytes, reach);
    if b <= end {
        0
    } else {
        let next = next_start(bytes, start);
        lemma_next_boundary(bytes, start + (WINDOW_BYTES - OVERLAP_BYTES));
        let k = lemma_span_in_range(bytes, next, a, b);
        assert(ranges_from(bytes, start)[k + 1] == ranges_from(bytes, next)[k]);
        k + 1
    }
}

/// Nothing is lost at the edge of a window: every span of at most `OVERLAP_BYTES`
/// bytes that begins at a character boundary lies whole in one window.
pub proof fn law_short_span_is_in_one_window(bytes: Seq<u8>, a: int, b: int)
    requires
        valid_utf8(bytes),
        0 <= a <= b <= bytes.len(),
        is_char_boundary(bytes, a),
        b - a <= OVERLAP_BYTES,
    ensures
        exists|k: int|
            #![trigger window_ranges(bytes)[k]]
            0 <= k < window_ranges(bytes).len() && window_ranges(bytes)[k].0 <= a && b
                <= window_ranges(bytes)[k].1,
{
    let k = lemma_span_in_range(bytes, 0, a, b);
    assert(window_ranges(bytes)[k].0 <= a);
}

/// The windows from `start` on, as `law_windows_reach_as_far_as_they_should` states them
/// of a whole text.
proof fn lemma_ranges_reach(bytes: Seq<u8>, start: int)
    requires
        valid_utf8(bytes),
        0 <= start <= bytes.len(),
        is_char_boundary(bytes, start),
    ensures
        ({
            let w = ranges_from(bytes, start);
            &&& w.len() > 0
            &&& w[0].0 == start
            &&& w.last().1 == bytes.len()
            &&& w.last().0 + 1503 >= bytes.len()
            &&& forall|k: int|
                #![trigger w[k]]
                0 <= k < w.len() - 1 ==> {
                    &&& w[k].1 < bytes.len()
                    &&& w[k].0 + 1500 <= w[k].1 <= w[k].0 + 1503
                    &&& w[k].0 + 1200 <= w[k + 1].0 <= w[k].0 + 1203
                }
            &&& forall|k: int, j: int|
                #![trigger w[k], is_char_boundary(bytes, j)]
                0 <= k < w.len() && w[k].0 + 1500 <= j < w[k].1 ==> !is_char_boundary(bytes, j)
            &&& forall|k: int, j: int|
                #![trigger w[k], is_char_boundary(bytes, j)]
                0 <= k < w.len() - 1 && w[k].0 + 1200 <= j < w[k + 1].0 ==> !is_char_boundary(
                    bytes,
                    j,
                )
        }),
    decreases bytes.len() - start,
{
    let end = window_end(bytes, start);
    let reach = if start + WINDOW_BYTES < bytes.len() {
        start + WINDOW_BYTES
    } else {
        bytes.len() as int
    };
    lemma_next_boundary(bytes, reach);
    lemma_boundary_near(bytes, reach);
    is_char_boundary_start_end_of_seq(bytes);
    let w = ranges_from(bytes, start);
    if end < bytes.len() {
        let next = next_start(bytes, start);
        lemma_next_boundary(bytes, start + (WINDOW_BYTES - OVERLAP_BYTES));
        lemma_boundary_near(bytes, start + (WINDOW_BYTES - OVERLAP_BYTES));
        lemma_ranges_reach(bytes, next);
        let rest = ranges_from(bytes, next);
        assert(w =~= seq![(start, end)] + rest);
        assert forall|k: int| #![trigger w[k]] 0 <= k < w.len() - 1 implies {
            &&& w[k].1 < bytes.len()
            &&& w[k].0 + 1500 <= w[k].1 <= w[k].0 + 1503
            &&& w[k].0 + 1200 <= w[k + 1].0 <= w[k].0 + 1203
        } by {
            if k > 0 {
                assert(w[k] == rest[k - 1]);
                assert(w[k + 1] == rest[k]);
            } else {
                assert(w[1] == rest[0]);
            }
        }
        assert forall|k: int, j: int|
            #![trigger w[k], is_char_boundary(bytes, j)]
            0 <= k < w.len() && w[k].0 + 1500 <= j < w[k].1 implies !is_char_boundary(bytes, j) by {
            if k > 0 {
                assert(w[k] == rest[k - 1]);
            }
        }
        assert forall|k: int, j: int|
            #![trigger w[k], is_char_boundary(bytes, j)]
            0 <= k < w.len() - 1 && w[k].0 + 1200 <= j < w[k + 1].0 implies !is_char_boundary(
            bytes,
            j,
        ) by {
            if k > 0 {
                assert(w[k] == rest[k - 1]);
                assert(w[k + 1] == rest[k]);
            } else {
                assert(w[1] == rest[0]);
            }
        }
        assert(w.last() == rest.last());
    } else {
        assert(w =~= seq![(start, end)]);
    }
}

/// A window reaches 1500 bytes, to the first character boundary at or after them, and the
/// next one begins 1200 bytes after it does, again at the first boundary; the first that
/// reaches the end of the text is the last one.
pub proof fn law_windows_reach_as_far_as_they_should(bytes: Seq<u8>)
    requires
        valid_utf8(bytes),
    ensures
        ({
            let w = window_ranges(bytes);
            &&& w.len() > 0
            &&& w[0].0 == 0
            &&& w.last().1 == bytes.len()
            &&& w.last().0 + 1503 >= bytes.len()
            &&& forall|k: int|
                #![trigger w[k]]
                0 <= k < w.len() - 1 ==> {
                    &&& w[k].1 < bytes.len()
                    &&& w[k].0 + 1500 <= w[k].1 <= w[k].0 + 1503
                    &&& w[k].0 + 1200 <= w[k + 1].0 <= w[k].0 + 1203
                }
            &&& forall|k: int, j: int|
                #![trigger w[k], is_char_boundary(bytes, j)]
                0 <= k < w.len() && w[k].0 + 1500 <= j < w[k].1 ==> !is_char_boundary(bytes, j)
            &&& forall|k: int, j: int|
                #![trigger w[k], is_char_boundary(bytes, j)]
                0 <= k < w.len() - 1 && w[k].0 + 1200 <= j < w[k + 1].0 ==> !is_char_boundary(
                    bytes,
                    j,
                )
        }),
{
    is_char_boundary_start_end_of_seq(bytes);
    lemma_ranges_reach(bytes, 0);
}

} // verus!
