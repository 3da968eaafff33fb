//! The outbound message segmenter.
//!
//! `split_message` carves a text into an ordered sequence of chunks, each
//! no longer than a caller-supplied cap, choosing boundaries that keep
//! fenced and inline code spans whole where a span fits inside one window,
//! and otherwise breaking at line, sentence, word or punctuation limits.
//!
//! The whole boundary policy is written down as the specification
//! functions below; the executable splitter is proved to return exactly
//! the chunk sequence those functions describe.

use vstd::prelude::*;

use crate::chars::{
    chars_to_string, eq_at, find_first, find_first_in, find_last, find_last_in, find_last_of,
    find_last_pos_of_first, matches_at, str_to_chars, subvec, trim, trim_chars,
};

verus! {

/// The marker that delimits a fenced code span.
pub open spec fn fence() -> Seq<char> {
    seq!['`', '`', '`']
}

/// The marker that delimits an inline code span.
pub open spec fn tick() -> Seq<char> {
    seq!['`']
}

/// Break markers tried, in order of preference, inside a code span:
/// line break, statement end, word gap, comma.
pub open spec fn code_breaks() -> Seq<Seq<char>> {
    seq![seq!['\n'], seq![';'], seq![' '], seq![',']]
}

/// Break markers tried, in order of preference, in plain text:
/// line break, sentence end, word gap, period, comma.
pub open spec fn text_breaks() -> Seq<Seq<char>> {
    seq![seq!['\n'], seq!['.', ' '], seq![' '], seq!['.'], seq![',']]
}

pub open spec fn spec_min(a: int, b: int) -> int {
    if a <= b {
        a
    } else {
        b
    }
}

/// End of the candidate window that starts at `start`: one cap length
/// onward, clipped to the end of the text.
pub open spec fn window_end(text: Seq<char>, max: int, start: int) -> int {
    spec_min(start + max, text.len() as int)
}

/// The code-span state after scanning a stretch of text: every backtick
/// toggles the carried flag once.
pub open spec fn toggle_ticks(s: Seq<char>, state: bool) -> bool
    decreases s.len(),
{
    if s.len() == 0 {
        state
    } else {
        toggle_ticks(s.drop_first(), if s[0] == '`' {
            !state
        } else {
            state
        })
    }
}

/// The boundary decision policy: given the window `[start, wend)` of a
/// text whose end falls short of the text's end, and the code-span state
/// `ic` at the window's end, the chosen chunk end and the state carried
/// to the next chunk. The end may degenerate to `start` when a span
/// marker stands at the window's very start; `step` guards against that.
pub open spec fn raw_policy(text: Seq<char>, max: int, start: int, ic: bool) -> (int, bool) {
    let wend = window_end(text, max, start);
    let win = text.subrange(start, wend);
    if ic {
        match find_last(win, fence()) {
            Some(rel) => {
                let p = start + rel;
                let reach = text.subrange(p + 3, spec_min(p + max, text.len() as int));
                if find_first(reach, fence()) is Some {
                    // the fenced span fits in one window: push it whole
                    // into the next chunk by breaking just before it
                    (p, false)
                } else {
                    // the fenced span is longer than one window: break
                    // inside it at the best delimiter, or right after
                    // the opening marker
                    match find_last_of(win, code_breaks()) {
                        Some(pi) => (start + pi.0 + code_breaks()[pi.1].len(), ic),
                        None => (p + 3, ic),
                    }
                }
            },
            None => match find_last(win, tick()) {
                Some(rel) => {
                    let p = start + rel;
                    let reach = text.subrange(p + 1, spec_min(p + max, text.len() as int));
                    if find_first(reach, tick()) is Some {
                        (p, false)
                    } else {
                        (p + 1, ic)
                    }
                },
                None => {
                    // the span opened in an earlier chunk and no marker
                    // stands in this window at all
                    match find_last_of(win, code_breaks()) {
                        Some(pi) => (start + pi.0 + code_breaks()[pi.1].len(), ic),
                        None => (wend, ic),
                    }
                },
            },
        }
    } else {
        if matches_at(win, fence(), 0) {
            // a fenced span opens the window: keep the whole span in
            // this chunk if it closes within the window
            match find_first(text.subrange(start + 3, wend), fence()) {
                Some(q) => (start + 3 + q + 3, false),
                None => (wend, false),
            }
        } else if matches_at(win, tick(), 0) {
            match find_first(text.subrange(start + 1, wend), tick()) {
                Some(q) => (start + 1 + q + 1, false),
                None => (wend, false),
            }
        } else {
            match find_last_of(win, text_breaks()) {
                Some(pi) => (start + pi.0 + text_breaks()[pi.1].len(), false),
                None => (wend, false),
            }
        }
    }
}

/// One step of the splitter: the policy's choice, clamped to the raw
/// window end whenever it would fail to advance the cursor, so that
/// progress is guaranteed on every step.
pub open spec fn step(text: Seq<char>, max: int, start: int, in_code: bool) -> (int, bool) {
    let wend = window_end(text, max, start);
    let win = text.subrange(start, wend);
    let ic = toggle_ticks(win, in_code);
    let r = raw_policy(text, max, start, ic);
    if start < r.0 && r.0 <= wend {
        r
    } else {
        (wend, ic)
    }
}

/// The chunk sequence carved from `text` starting at `start` with carried
/// code-span state `in_code`: each chunk is the trimmed stretch between
/// one cursor position and the next, and the final window is taken whole.
pub open spec fn split_from(text: Seq<char>, max: int, start: int, in_code: bool) -> Seq<Seq<char>>
    decreases text.len() - start,
    when 0 <= start && 1 <= max
{
    if start >= text.len() {
        Seq::empty()
    } else {
        let wend = window_end(text, max, start);
        if wend >= text.len() {
            seq![trim(text.subrange(start, text.len() as int))]
        } else {
            let e = step(text, max, start, in_code);
            seq![trim(text.subrange(start, e.0))] + split_from(text, max, e.0, e.1)
        }
    }
}

/// What segmentation returns: the text itself, untouched, as the only
/// chunk when it fits under the cap; otherwise the carved chunk sequence.
pub open spec fn split_spec(text: Seq<char>, max: int) -> Seq<Seq<char>> {
    if text.len() <= max {
        seq![text]
    } else {
        split_from(text, max, 0, false)
    }
}

fn fence_pattern() -> (r: Vec<char>)
    ensures
        r@ == fence(),
{
    let mut r: Vec<char> = Vec::new();
    r.push('`');
    r.push('`');
    r.push('`');
    proof {
        assert(r@ =~= fence());
    }
    r
}

fn tick_pattern() -> (r: Vec<char>)
    ensures
        r@ == tick(),
{
    let mut r: Vec<char> = Vec::new();
    r.push('`');
    proof {
        assert(r@ =~= tick());
    }
    r
}

fn one_char_pattern(c: char) -> (r: Vec<char>)
    ensures
        r@ == seq![c],
{
    let mut r: Vec<char> = Vec::new();
    r.push(c);
    proof {
        assert(r@ =~= seq![c]);
    }
    r
}

fn code_break_patterns() -> (r: Vec<Vec<char>>)
    ensures
        r.deep_view() == code_breaks(),
        forall|k: int| 0 <= k < r@.len() ==> (#[trigger] r@[k])@.len() >= 1,
{
    let mut r: Vec<Vec<char>> = Vec::new();
    r.push(one_char_pattern('\n'));
    r.push(one_char_pattern(';'));
    r.push(one_char_pattern(' '));
    r.push(one_char_pattern(','));
    proof {
        assert(r.deep_view() =~~= code_breaks());
    }
    r
}

fn text_break_patterns() -> (r: Vec<Vec<char>>)
    ensures
        r.deep_view() == text_breaks(),
        forall|k: int| 0 <= k < r@.len() ==> (#[trigger] r@[k])@.len() >= 1,
{
    let mut r: Vec<Vec<char>> = Vec::new();
    r.push(one_char_pattern('\n'));
    let mut sentence: Vec<char> = Vec::new();
    sentence.push('.');
    sentence.push(' ');
    proof {
        assert(sentence@ =~= seq!['.', ' ']);
    }
    r.push(sentence);
    r.push(one_char_pattern(' '));
    r.push(one_char_pattern('.'));
    r.push(one_char_pattern(','));
    proof {
        assert(r.deep_view() =~~= text_breaks());
    }
    r
}

/// Applies the boundary decision policy to one window: `win` is the
/// window `[start, wend)` of `text`, and `ic` the code-span state at its
/// end. Returns the policy's chunk end and carried state.
#[verifier::rlimit(60)]
fn decide_break(
    text: &Vec<char>,
    max_length: usize,
    start: usize,
    wend: usize,
    win: &Vec<char>,
    ic: bool,
    fence_v: &Vec<char>,
    tick_v: &Vec<char>,
    code_breaks_v: &Vec<Vec<char>>,
    text_breaks_v: &Vec<Vec<char>>,
) -> (r: (usize, bool))
    requires
        max_length >= 1,
        start < wend <= text.len(),
        wend as int == window_end(text@, max_length as int, start as int),
        win@ == text@.subrange(start as int, wend as int),
        fence_v@ == fence(),
        tick_v@ == tick(),
        code_breaks_v.deep_view() == code_breaks(),
        forall|k: int|
            0 <= k < code_breaks_v@.len() ==> (#[trigger] code_breaks_v@[k])@.len() >= 1,
        text_breaks_v.deep_view() == text_breaks(),
        forall|k: int|
            0 <= k < text_breaks_v@.len() ==> (#[trigger] text_breaks_v@[k])@.len() >= 1,
    ensures
        (r.0 as int, r.1) == raw_policy(text@, max_length as int, start as int, ic),
{
    let ghost t = text@;
    let ghost max = max_length as int;
    let ghost start0 = start as int;
    let e0: usize;
    let nxt: bool;
    if ic {
        match find_last_in(win, fence_v) {
            Some(rel) => {
                let p = start + rel;
                proof {
                    assert(rel + 3 <= win@.len());
                    assert(p + 3 <= wend);
                }
                let reach_hi: usize = if text.len() - p <= max_length {
                    text.len()
                } else {
                    p + max_length
                };
                proof {
                    assert(win@.len() <= max);
                    assert(p + 3 <= reach_hi);
                    assert(reach_hi as int == spec_min(p + max, t.len() as int));
                }
                let reach = subvec(text, p + 3, reach_hi);
                match find_first_in(&reach, fence_v) {
                    Some(_) => {
                        e0 = p;
                        nxt = false;
                    },
                    None => {
                        match find_last_pos_of_first(win, code_breaks_v) {
                            Some((pos, idx)) => {
                                let elen = code_breaks_v[idx].len();
                                proof {
                                    assert(code_breaks_v@[idx as int]@ == code_breaks()[
                                        idx as int]);
                                    assert(pos + elen <= win@.len());
                                }
                                e0 = start + pos + elen;
                                nxt = ic;
                            },
                            None => {
                                e0 = p + 3;
                                nxt = ic;
                            },
                        }
                    },
                }
            },
            None => {
                match find_last_in(win, tick_v) {
                    Some(rel) => {
                        let p = start + rel;
                        proof {
                            assert(rel + 1 <= win@.len());
                            assert(p + 1 <= wend);
                        }
                        let reach_hi: usize = if text.len() - p <= max_length {
                            text.len()
                        } else {
                            p + max_length
                        };
                        proof {
                            assert(p + 1 <= reach_hi);
                            assert(reach_hi as int == spec_min(p + max, t.len() as int));
                        }
                        let reach = subvec(text, p + 1, reach_hi);
                        match find_first_in(&reach, tick_v) {
                            Some(_) => {
                                e0 = p;
                                nxt = false;
                            },
                            None => {
                                e0 = p + 1;
                                nxt = ic;
                            },
                        }
                    },
                    None => {
                        match find_last_pos_of_first(win, code_breaks_v) {
                            Some((pos, idx)) => {
                                let elen = code_breaks_v[idx].len();
                                proof {
                                    assert(code_breaks_v@[idx as int]@ == code_breaks()[
                                        idx as int]);
                                    assert(pos + elen <= win@.len());
                                }
                                e0 = start + pos + elen;
                                nxt = ic;
                            },
                            None => {
                                e0 = wend;
                                nxt = ic;
                            },
                        }
                    },
                }
            },
        }
    } else {
        if win.len() >= 3 && eq_at(win, 0, fence_v) {
            let inner = subvec(text, start + 3, wend);
            match find_first_in(&inner, fence_v) {
                Some(q) => {
                    proof {
                        assert(q + 3 <= inner@.len());
                    }
                    e0 = start + 3 + q + 3;
                    nxt = false;
                },
                None => {
                    e0 = wend;
                    nxt = false;
                },
            }
        } else if win.len() >= 1 && eq_at(win, 0, tick_v) {
            let inner = subvec(text, start + 1, wend);
            match find_first_in(&inner, tick_v) {
                Some(q) => {
                    proof {
                        assert(q + 1 <= inner@.len());
                    }
                    e0 = start + 1 + q + 1;
                    nxt = false;
                },
                None => {
                    e0 = wend;
                    nxt = false;
                },
            }
        } else {
            match find_last_pos_of_first(win, text_breaks_v) {
                Some((pos, idx)) => {
                    let elen = text_breaks_v[idx].len();
                    proof {
                        assert(text_breaks_v@[idx as int]@ == text_breaks()[idx as int]);
                        assert(pos + elen <= win@.len());
                    }
                    e0 = start + pos + elen;
                    nxt = false;
                },
                None => {
                    e0 = wend;
                    nxt = false;
                },
            }
        }
    }
    (e0, nxt)
}

/// The code-span state after scanning `win` starting from `state`.
fn scan_ticks(win: &Vec<char>, state: bool) -> (r: bool)
    ensures
        r == toggle_ticks(win@, state),
{
    let ghost n = win@.len() as int;
    let mut cur = state;
    let mut i: usize = 0;
    proof {
        assert(win@.subrange(0, n) =~= win@);
    }
    while i < win.len()
        invariant
            i <= win.len(),
            n == win@.len(),
            toggle_ticks(win@, state) == toggle_ticks(win@.subrange(i as int, n), cur),
        decreases win.len() - i,
    {
        proof {
            let rest = win@.subrange(i as int, n);
            assert(rest[0] == win@[i as int]);
            assert(rest.drop_first() =~= win@.subrange(i + 1, n));
        }
        if win[i] == '`' {
            cur = !cur;
        }
        i += 1;
    }
    cur
}

/// Splits a text, given as its characters, into trimmed chunks of at
/// most `max_length` characters each, by the boundary decision policy of
/// `split_spec`. A text that fits under the cap comes back whole.
#[verifier::rlimit(80)]
pub fn split_chars(text: &Vec<char>, max_length: usize) -> (chunks: Vec<Vec<char>>)
    requires
        max_length >= 1,
    ensures
        chunks.deep_view() == split_spec(text@, max_length as int),
{
    let ghost t = text@;
    let ghost max = max_length as int;
    if text.len() <= max_length {
        let mut chunks: Vec<Vec<char>> = Vec::new();
        let whole = subvec(text, 0, text.len());
        proof {
            assert(whole@ =~= t);
        }
        chunks.push(whole);
        proof {
            assert(chunks.deep_view() =~~= split_spec(t, max));
        }
        return chunks;
    }
    let fence_v = fence_pattern();
    let tick_v = tick_pattern();
    let code_breaks_v = code_break_patterns();
    let text_breaks_v = text_break_patterns();
    let mut chunks: Vec<Vec<char>> = Vec::new();
    let mut start: usize = 0;
    let mut in_code: bool = false;
    while start < text.len()
        invariant
            max_length >= 1,
            start <= text.len(),
            t == text@,
            max == max_length as int,
            fence_v@ == fence(),
            tick_v@ == tick(),
            code_breaks_v.deep_view() == code_breaks(),
            forall|k: int|
                0 <= k < code_breaks_v@.len() ==> (#[trigger] code_breaks_v@[k])@.len() >= 1,
            text_breaks_v.deep_view() == text_breaks(),
            forall|k: int|
                0 <= k < text_breaks_v@.len() ==> (#[trigger] text_breaks_v@[k])@.len() >= 1,
            split_from(t, max, 0, false) == chunks.deep_view() + split_from(
                t,
                max,
                start as int,
                in_code,
            ),
        decreases text.len() - start,
    {
        let ghost start0 = start as int;
        let ghost ic0 = in_code;
        let ghost old_dv = chunks.deep_view();
        let wend: usize = if text.len() - start <= max_length {
            text.len()
        } else {
            start + max_length
        };
        proof {
            assert(wend as int == window_end(t, max, start0));
        }
        if wend == text.len() {
            let w = subvec(text, start, wend);
            let c = trim_chars(&w);
            chunks.push(c);
            proof {
                assert(chunks.deep_view() =~~= old_dv.push(trim(t.subrange(start0, t.len() as int))));
                assert(split_from(t, max, start0, ic0) == seq![
                    trim(t.subrange(start0, t.len() as int)),
                ]);
                assert(split_from(t, max, t.len() as int, ic0) == Seq::<Seq<char>>::empty());
                assert(chunks.deep_view() + split_from(t, max, t.len() as int, ic0)
                    =~~= old_dv + split_from(t, max, start0, ic0));
            }
            start = wend;
        } else {
            let win = subvec(text, start, wend);
            proof {
                assert(win@ == t.subrange(start0, wend as int));
            }
            let ic = scan_ticks(&win, in_code);
            let (e0, nxt) = decide_break(
                text,
                max_length,
                start,
                wend,
                &win,
                ic,
                &fence_v,
                &tick_v,
                &code_breaks_v,
                &text_breaks_v,
            );
            let end: usize;
            let nstate: bool;
            if start < e0 && e0 <= wend {
                end = e0;
                nstate = nxt;
            } else {
                end = wend;
                nstate = ic;
            }
            proof {
                assert((end as int, nstate) == step(t, max, start0, ic0));
            }
            let w = subvec(text, start, end);
            let c = trim_chars(&w);
            chunks.push(c);
            proof {
                assert(chunks.deep_view() =~~= old_dv.push(trim(t.subrange(start0, end as int))));
                assert(split_from(t, max, start0, ic0) == seq![
                    trim(t.subrange(start0, end as int)),
                ] + split_from(t, max, end as int, nstate));
                assert(chunks.deep_view() + split_from(t, max, end as int, nstate) =~~= old_dv
                    + split_from(t, max, start0, ic0));
            }
            start = end;
            in_code = nstate;
        }
    }
    proof {
        assert(split_from(t, max, text@.len() as int, in_code) == Seq::<Seq<char>>::empty());
        assert(chunks.deep_view() =~~= split_from(t, max, 0, false));
    }
    chunks
}

/// Splits `message` into chunks of at most `max_length` characters each,
/// exactly as `split_spec` describes: a message that fits under the cap
/// comes back whole and untouched as the single chunk; a longer one is
/// carved at the policy's boundaries and each chunk is trimmed.
pub fn split_message(message: &str, max_length: usize) -> (chunks: Vec<String>)
    requires
        max_length >= 1,
    ensures
        chunks.deep_view() == split_spec(message@, max_length as int),
        message@.len() <= max_length ==> chunks.deep_view() == seq![message@],
        chunks@.len() >= 1,
        forall|i: int| 0 <= i < chunks@.len() ==> (#[trigger] chunks@[i])@.len() <= max_length,
{
    let cs = str_to_chars(message);
    let parts = split_chars(&cs, max_length);
    let mut chunks: Vec<String> = Vec::new();
    let mut i: usize = 0;
    while i < parts.len()
        invariant
            i <= parts.len(),
            chunks.deep_view() == parts.deep_view().subrange(0, i as int),
        decreases parts.len() - i,
    {
        let ghost old_dv = chunks.deep_view();
        proof {
            assert(old_dv.len() == chunks@.len());
        }
        let s = chars_to_string(&parts[i]);
        let ghost sv = s@;
        chunks.push(s);
        proof {
            assert(chunks.deep_view().len() == chunks@.len());
            assert(parts.deep_view().len() == parts@.len());
            assert forall|j: int| 0 <= j < chunks@.len() implies chunks.deep_view()[j]
                == parts.deep_view().subrange(0, i + 1)[j] by {
                if j < i {
                    assert(chunks.deep_view()[j] == old_dv[j]);
                } else {
                    assert(chunks.deep_view()[j] == sv);
                    assert(parts.deep_view()[j] == parts@[j].deep_view());
                    assert(parts@[j].deep_view() =~= parts@[j]@);
                }
            }
            assert(chunks.deep_view() =~= parts.deep_view().subrange(0, i + 1));
        }
        i += 1;
    }
    proof {
        assert(parts.deep_view().subrange(0, parts@.len() as int) =~= parts.deep_view());
        crate::laws::lemma_progress_bound(message@, max_length as int);
        if message@.len() > max_length {
            crate::laws::lemma_length_bound(message@, max_length as int);
        }
        assert(chunks.deep_view().len() == chunks@.len());
        assert forall|i: int| 0 <= i < chunks@.len() implies (#[trigger] chunks@[i])@.len()
            <= max_length by {
            assert(chunks.deep_view()[i] == chunks@[i]@);
            assert(chunks.deep_view()[i] == split_spec(message@, max_length as int)[i]);
        }
    }
    chunks
}

} // verus!
