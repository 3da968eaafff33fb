//! Laws of the segmenter: properties of `split_spec` that hold for every
//! text and every cap, each stated as a public proof function.

use vstd::prelude::*;

use crate::chars::{find_first, find_last, matches_at, trim, trim_end, trim_start};
use crate::segment::{
    fence, raw_policy, spec_min, split_from, split_spec, step, tick, toggle_ticks, window_end,
};

verus! {

/// Trimming never lengthens a sequence.
pub proof fn lemma_trim_len(s: Seq<char>)
    ensures
        trim(s).len() <= s.len(),
{
    lemma_trim_start_len(s);
    lemma_trim_end_len(trim_start(s));
}

proof fn lemma_trim_start_len(s: Seq<char>)
    ensures
        trim_start(s).len() <= s.len(),
    decreases s.len(),
{
    if s.len() > 0 && crate::chars::is_ws(s[0]) {
        lemma_trim_start_len(s.drop_first());
    }
}

proof fn lemma_trim_end_len(s: Seq<char>)
    ensures
        trim_end(s).len() <= s.len(),
    decreases s.len(),
{
    if s.len() > 0 && crate::chars::is_ws(s.last()) {
        lemma_trim_end_len(s.drop_last());
    }
}

/// Every step of the splitter advances the cursor and stays within the
/// candidate window.
pub proof fn lemma_step_bounds(text: Seq<char>, max: int, start: int, in_code: bool)
    requires
        1 <= max,
        0 <= start < text.len(),
    ensures
        start < step(text, max, start, in_code).0 <= window_end(text, max, start),
        window_end(text, max, start) - start <= max,
{
}

/// Law: a text no longer than the cap is returned as the single,
/// untouched chunk.
pub proof fn lemma_short_circuit(text: Seq<char>, max: int)
    requires
        1 <= max,
        text.len() <= max,
    ensures
        split_spec(text, max) == seq![text],
{
}

/// Law: every chunk of a split is no longer than the cap.
pub proof fn lemma_length_bound(text: Seq<char>, max: int)
    requires
        1 <= max,
        text.len() > max,
    ensures
        forall|i: int|
            0 <= i < split_spec(text, max).len() ==> #[trigger] split_spec(text, max)[i].len()
                <= max,
{
    lemma_split_from_length_bound(text, max, 0, false);
}

proof fn lemma_split_from_length_bound(text: Seq<char>, max: int, start: int, in_code: bool)
    requires
        1 <= max,
        0 <= start,
    ensures
        forall|i: int|
            0 <= i < split_from(text, max, start, in_code).len() ==> #[trigger] split_from(
                text,
                max,
                start,
                in_code,
            )[i].len() <= max,
    decreases text.len() - start,
{
    let chunks = split_from(text, max, start, in_code);
    if start >= text.len() {
    } else {
        let wend = window_end(text, max, start);
        if wend >= text.len() {
            lemma_trim_len(text.subrange(start, text.len() as int));
        } else {
            let e = step(text, max, start, in_code);
            lemma_trim_len(text.subrange(start, e.0));
            lemma_split_from_length_bound(text, max, e.0, e.1);
            let rest = split_from(text, max, e.0, e.1);
            assert forall|i: int| 0 <= i < chunks.len() implies #[trigger] chunks[i].len()
                <= max by {
                if i == 0 {
                    assert(chunks[0] == trim(text.subrange(start, e.0)));
                } else {
                    assert(chunks[i] == rest[i - 1]);
                }
            }
        }
    }
}

/// Law: splitting terminates with at least one chunk, and with no more
/// chunks than the text has characters; in particular the cursor's
/// strict advance bounds the number of steps by the text's length.
pub proof fn lemma_progress_bound(text: Seq<char>, max: int)
    requires
        1 <= max,
    ensures
        split_spec(text, max).len() >= 1,
        text.len() > max ==> 2 <= split_spec(text, max).len() <= text.len(),
{
    if text.len() > max {
        lemma_split_from_count(text, max, 0, false);
        let e = step(text, max, 0, false);
        lemma_split_from_count(text, max, e.0, e.1);
    }
}

proof fn lemma_split_from_count(text: Seq<char>, max: int, start: int, in_code: bool)
    requires
        1 <= max,
        0 <= start < text.len(),
    ensures
        1 <= split_from(text, max, start, in_code).len() <= text.len() - start,
    decreases text.len() - start,
{
    let wend = window_end(text, max, start);
    if wend >= text.len() {
    } else {
        let e = step(text, max, start, in_code);
        lemma_split_from_count(text, max, e.0, e.1);
    }
}

/// The cursor positions that a split visits: the start, each chosen
/// chunk boundary in order, and the text's end.
pub open spec fn cuts_from(text: Seq<char>, max: int, start: int, in_code: bool) -> Seq<int>
    decreases text.len() - start,
    when 0 <= start && 1 <= max
{
    if start >= text.len() {
        seq![start]
    } else {
        let wend = window_end(text, max, start);
        if wend >= text.len() {
            seq![start, text.len() as int]
        } else {
            let e = step(text, max, start, in_code);
            seq![start] + cuts_from(text, max, e.0, e.1)
        }
    }
}

/// The cursor positions of a full split.
pub open spec fn split_cuts(text: Seq<char>, max: int) -> Seq<int> {
    cuts_from(text, max, 0, false)
}

/// Law: when a text is split, its chunks are the trimmed copies of
/// consecutive stretches of the input text: the cut positions rise
/// strictly from the start of the text to its end, and chunk `i` is
/// exactly the stretch between cut `i` and cut `i + 1` with its edge
/// whitespace removed. Nothing is dropped, duplicated or reordered
/// beyond that trimming.
pub proof fn lemma_reconstruction(text: Seq<char>, max: int)
    requires
        1 <= max,
        text.len() > max,
    ensures
        split_cuts(text, max).len() == split_spec(text, max).len() + 1,
        split_cuts(text, max)[0] == 0,
        split_cuts(text, max).last() == text.len(),
        forall|i: int|
            0 <= i < split_spec(text, max).len() ==> #[trigger] split_cuts(text, max)[i]
                < split_cuts(text, max)[i + 1] <= text.len(),
        forall|i: int|
            0 <= i < split_spec(text, max).len() ==> #[trigger] split_spec(text, max)[i] == trim(
                text.subrange(split_cuts(text, max)[i], split_cuts(text, max)[i + 1]),
            ),
{
    lemma_split_from_reconstruction(text, max, 0, false);
}

proof fn lemma_split_from_reconstruction(text: Seq<char>, max: int, start: int, in_code: bool)
    requires
        1 <= max,
        0 <= start < text.len(),
    ensures
        cuts_from(text, max, start, in_code).len() == split_from(text, max, start, in_code).len()
            + 1,
        cuts_from(text, max, start, in_code)[0] == start,
        cuts_from(text, max, start, in_code).last() == text.len(),
        forall|i: int|
            0 <= i < split_from(text, max, start, in_code).len() ==> #[trigger] cuts_from(
                text,
                max,
                start,
                in_code,
            )[i] < cuts_from(text, max, start, in_code)[i + 1] <= text.len(),
        forall|i: int|
            0 <= i < split_from(text, max, start, in_code).len() ==> #[trigger] split_from(
                text,
                max,
                start,
                in_code,
            )[i] == trim(
                text.subrange(
                    cuts_from(text, max, start, in_code)[i],
                    cuts_from(text, max, start, in_code)[i + 1],
                ),
            ),
    decreases text.len() - start,
{
    let chunks = split_from(text, max, start, in_code);
    let cuts = cuts_from(text, max, start, in_code);
    let wend = window_end(text, max, start);
    if wend >= text.len() {
        assert(chunks == seq![trim(text.subrange(start, text.len() as int))]);
        assert(cuts == seq![start, text.len() as int]);
        assert(cuts[0] == start);
        assert(cuts.last() == text.len());
    } else {
        let e = step(text, max, start, in_code);
        lemma_split_from_reconstruction(text, max, e.0, e.1);
        let chunks_r = split_from(text, max, e.0, e.1);
        let cuts_r = cuts_from(text, max, e.0, e.1);
        assert(chunks == seq![trim(text.subrange(start, e.0))] + chunks_r);
        assert(cuts == seq![start] + cuts_r);
        assert(cuts.last() == cuts_r.last());
        assert forall|i: int| 0 <= i < chunks.len() implies #[trigger] cuts[i] < cuts[i + 1]
            <= text.len() by {
            if i == 0 {
                assert(cuts[0] == start);
                assert(cuts[1] == cuts_r[0]);
            } else {
                assert(cuts[i] == cuts_r[i - 1]);
                assert(cuts[i + 1] == cuts_r[i]);
            }
        }
        assert forall|i: int| 0 <= i < chunks.len() implies #[trigger] chunks[i] == trim(
            text.subrange(cuts[i], cuts[i + 1]),
        ) by {
            if i == 0 {
                assert(chunks[0] == trim(text.subrange(start, e.0)));
                assert(cuts[0] == start);
                assert(cuts[1] == cuts_r[0]);
            } else {
                assert(chunks[i] == chunks_r[i - 1]);
                assert(cuts[i] == cuts_r[i - 1]);
                assert(cuts[i + 1] == cuts_r[i]);
            }
        }
    }
}

/// Law: a trimmed chunk never starts or ends with whitespace.
pub proof fn lemma_trim_no_edge_whitespace(s: Seq<char>)
    ensures
        trim(s).len() > 0 ==> !crate::chars::is_ws(trim(s)[0]),
        trim(s).len() > 0 ==> !crate::chars::is_ws(trim(s).last()),
{
    lemma_trim_start_first(s);
    lemma_trim_end_last(trim_start(s));
    lemma_trim_end_keeps_first(trim_start(s));
}

proof fn lemma_trim_start_first(s: Seq<char>)
    ensures
        trim_start(s).len() > 0 ==> !crate::chars::is_ws(trim_start(s)[0]),
    decreases s.len(),
{
    if s.len() > 0 && crate::chars::is_ws(s[0]) {
        lemma_trim_start_first(s.drop_first());
    }
}

proof fn lemma_trim_end_last(s: Seq<char>)
    ensures
        trim_end(s).len() > 0 ==> !crate::chars::is_ws(trim_end(s).last()),
    decreases s.len(),
{
    if s.len() > 0 && crate::chars::is_ws(s.last()) {
        lemma_trim_end_last(s.drop_last());
    }
}

proof fn lemma_trim_end_keeps_first(s: Seq<char>)
    ensures
        trim_end(s).len() > 0 ==> trim_end(s)[0] == s[0],
    decreases s.len(),
{
    if s.len() > 0 && crate::chars::is_ws(s.last()) {
        lemma_trim_end_keeps_first(s.drop_last());
    }
}

/// Law, one direction of code-span integrity: when the window's end
/// falls inside a code span, the last fenced marker in the window does
/// not stand at the cursor itself, and the span's closing marker lies
/// within one cap length of its opening, the step breaks exactly at the
/// opening marker: the whole fenced span is deferred to the next chunk
/// rather than split.
pub proof fn lemma_fenced_span_deferred(text: Seq<char>, max: int, start: int, in_code: bool)
    requires
        1 <= max,
        0 <= start < text.len(),
        window_end(text, max, start) < text.len(),
        toggle_ticks(text.subrange(start, window_end(text, max, start)), in_code),
        ({
            let wend = window_end(text, max, start);
            let win = text.subrange(start, wend);
            match find_last(win, fence()) {
                Some(rel) => rel > 0 && find_first(
                    text.subrange(start + rel + 3, spec_min(start + rel + max, text.len() as int)),
                    fence(),
                ) is Some,
                None => false,
            }
        }),
    ensures
        ({
            let wend = window_end(text, max, start);
            let win = text.subrange(start, wend);
            let rel = find_last(win, fence())->0;
            step(text, max, start, in_code) == (start + rel, false)
        }),
{
    let wend = window_end(text, max, start);
    let win = text.subrange(start, wend);
    let rel = find_last(win, fence())->0;
    crate::chars::lemma_find_last_characterization(win, fence());
    assert(matches_at(win, fence(), rel));
    assert(rel + 3 <= win.len());
    assert(raw_policy(text, max, start, toggle_ticks(win, in_code)) == (start + rel, false));
}

/// Law, one direction of code-span integrity: when the window's end
/// does not fall inside a code span, the window opens with a fenced
/// marker, and the span's closing marker lies within the window, the
/// step ends the chunk exactly at the close: a fenced span that fits in
/// one window stays whole in one chunk.
pub proof fn lemma_fenced_span_kept_whole(text: Seq<char>, max: int, start: int, in_code: bool)
    requires
        1 <= max,
        0 <= start < text.len(),
        window_end(text, max, start) < text.len(),
        !toggle_ticks(text.subrange(start, window_end(text, max, start)), in_code),
        matches_at(text.subrange(start, window_end(text, max, start)), fence(), 0),
        find_first(
            text.subrange(start + 3, window_end(text, max, start)),
            fence(),
        ) is Some,
    ensures
        ({
            let wend = window_end(text, max, start);
            let q = find_first(text.subrange(start + 3, wend), fence())->0;
            step(text, max, start, in_code) == (start + 3 + q + 3, false)
        }),
{
    let wend = window_end(text, max, start);
    let win = text.subrange(start, wend);
    let q = find_first(text.subrange(start + 3, wend), fence())->0;
    crate::chars::lemma_find_first_characterization(text.subrange(start + 3, wend), fence());
    assert(matches_at(text.subrange(start + 3, wend), fence(), q));
    assert(raw_policy(text, max, start, false) == (start + 3 + q + 3, false));
}

/// Law, one direction of code-span integrity: when the window's end
/// falls inside an inline code span, no fenced marker stands in the
/// window, the last backtick in the window does not stand at the cursor
/// itself, and the span's closing backtick lies within one cap length
/// of its opening, the step breaks exactly at the opening backtick: the
/// whole inline span is deferred to the next chunk rather than split.
pub proof fn lemma_inline_span_deferred(text: Seq<char>, max: int, start: int, in_code: bool)
    requires
        1 <= max,
        0 <= start < text.len(),
        window_end(text, max, start) < text.len(),
        toggle_ticks(text.subrange(start, window_end(text, max, start)), in_code),
        find_last(text.subrange(start, window_end(text, max, start)), fence()) is None,
        ({
            let wend = window_end(text, max, start);
            let win = text.subrange(start, wend);
            match find_last(win, tick()) {
                Some(rel) => rel > 0 && find_first(
                    text.subrange(start + rel + 1, spec_min(start + rel + max, text.len() as int)),
                    tick(),
                ) is Some,
                None => false,
            }
        }),
    ensures
        ({
            let wend = window_end(text, max, start);
            let win = text.subrange(start, wend);
            let rel = find_last(win, tick())->0;
            step(text, max, start, in_code) == (start + rel, false)
        }),
{
    let wend = window_end(text, max, start);
    let win = text.subrange(start, wend);
    let rel = find_last(win, tick())->0;
    crate::chars::lemma_find_last_characterization(win, tick());
    assert(matches_at(win, tick(), rel));
    assert(rel + 1 <= win.len());
    assert(raw_policy(text, max, start, toggle_ticks(win, in_code)) == (start + rel, false));
}

/// Law, one direction of code-span integrity: when the window's end
/// does not fall inside a code span, the window opens with a backtick
/// but not with a fenced marker, and the span's closing backtick lies
/// within the window, the step ends the chunk exactly after the close:
/// an inline span that fits in one window stays whole in one chunk.
pub proof fn lemma_inline_span_kept_whole(text: Seq<char>, max: int, start: int, in_code: bool)
    requires
        1 <= max,
        0 <= start < text.len(),
        window_end(text, max, start) < text.len(),
        !toggle_ticks(text.subrange(start, window_end(text, max, start)), in_code),
        !matches_at(text.subrange(start, window_end(text, max, start)), fence(), 0),
        matches_at(text.subrange(start, window_end(text, max, start)), tick(), 0),
        find_first(
            text.subrange(start + 1, window_end(text, max, start)),
            tick(),
        ) is Some,
    ensures
        ({
            let wend = window_end(text, max, start);
            let q = find_first(text.subrange(start + 1, wend), tick())->0;
            step(text, max, start, in_code) == (start + 1 + q + 1, false)
        }),
{
    let wend = window_end(text, max, start);
    let win = text.subrange(start, wend);
    let q = find_first(text.subrange(start + 1, wend), tick())->0;
    crate::chars::lemma_find_first_characterization(text.subrange(start + 1, wend), tick());
    assert(matches_at(text.subrange(start + 1, wend), tick(), q));
    assert(raw_policy(text, max, start, false) == (start + 1 + q + 1, false));
}

} // verus!

