//! Character-sequence utilities: whitespace trimming and substring search.
//!
//! The segmenter works on texts as vectors of characters, so that every
//! offset is a character offset and slicing can never land inside an
//! encoded character. This module gives the searching and trimming
//! primitives together with their mathematical definitions.

use vstd::prelude::*;

verus! {

/// The whitespace characters that trimming removes from chunk edges.
pub open spec fn is_ws(c: char) -> bool {
    c == ' ' || c == '\n' || c == '\t' || c == '\r'
}

fn is_ws_char(c: char) -> (r: bool)
    ensures
        r == is_ws(c),
{
    c == ' ' || c == '\n' || c == '\t' || c == '\r'
}

/// The sequence with leading whitespace removed.
pub open spec fn trim_start(s: Seq<char>) -> Seq<char>
    decreases s.len(),
{
    if s.len() > 0 && is_ws(s[0]) {
        trim_start(s.drop_first())
    } else {
        s
    }
}

/// The sequence with trailing whitespace removed.
pub open spec fn trim_end(s: Seq<char>) -> Seq<char>
    decreases s.len(),
{
    if s.len() > 0 && is_ws(s.last()) {
        trim_end(s.drop_last())
    } else {
        s
    }
}

/// The sequence with both leading and trailing whitespace removed.
pub open spec fn trim(s: Seq<char>) -> Seq<char> {
    trim_end(trim_start(s))
}

/// Copy of the characters of `s` between `lo` (inclusive) and `hi` (exclusive).
pub fn subvec(s: &Vec<char>, lo: usize, hi: usize) -> (r: Vec<char>)
    requires
        lo <= hi <= s.len(),
    ensures
        r@ == s@.subrange(lo as int, hi as int),
{
    let mut r: Vec<char> = Vec::new();
    let mut i: usize = lo;
    while i < hi
        invariant
            lo <= i <= hi <= s.len(),
            r@ == s@.subrange(lo as int, i as int),
        decreases hi - i,
    {
        r.push(s[i]);
        proof {
            assert(s@.subrange(lo as int, i as int).push(s@[i as int]) =~= s@.subrange(
                lo as int,
                i + 1,
            ));
        }
        i += 1;
    }
    r
}

/// Trimmed copy of `s`: its characters with leading and trailing
/// whitespace removed.
pub fn trim_chars(s: &Vec<char>) -> (r: Vec<char>)
    ensures
        r@ == trim(s@),
{
    let ghost n = s@.len() as int;
    proof {
        assert(s@.subrange(0, n) =~= s@);
    }
    let mut lo: usize = 0;
    while lo < s.len() && is_ws_char(s[lo])
        invariant
            lo <= s.len(),
            trim_start(s@) == trim_start(s@.subrange(lo as int, n)),
            n == s@.len(),
        decreases s.len() - lo,
    {
        proof {
            let cur = s@.subrange(lo as int, n);
            assert(cur[0] == s@[lo as int]);
            assert(cur.drop_first() =~= s@.subrange(lo + 1, n));
        }
        lo += 1;
    }
    proof {
        let cur = s@.subrange(lo as int, n);
        if lo < s.len() {
            assert(cur[0] == s@[lo as int]);
        }
        assert(trim_start(s@) == cur);
    }
    let mut hi: usize = s.len();
    while hi > lo && is_ws_char(s[hi - 1])
        invariant
            lo <= hi <= s.len(),
            trim_start(s@) == s@.subrange(lo as int, n),
            trim_end(s@.subrange(lo as int, n)) == trim_end(s@.subrange(lo as int, hi as int)),
            n == s@.len(),
        decreases hi,
    {
        proof {
            let cur = s@.subrange(lo as int, hi as int);
            assert(cur.last() == s@[hi - 1]);
            assert(cur.drop_last() =~= s@.subrange(lo as int, hi - 1));
        }
        hi -= 1;
    }
    proof {
        let cur = s@.subrange(lo as int, hi as int);
        if hi > lo {
            assert(cur.last() == s@[hi - 1]);
        }
        assert(trim_end(cur) == cur);
    }
    subvec(s, lo, hi)
}

/// The characters of `s`, one vector element per character.
pub fn str_to_chars(s: &str) -> (r: Vec<char>)
    ensures
        r@ == s@,
{
    let n = s.unicode_len();
    let mut r: Vec<char> = Vec::new();
    let mut i: usize = 0;
    while i < n
        invariant
            i <= n,
            n == s@.len(),
            r@ == s@.subrange(0, i as int),
        decreases n - i,
    {
        r.push(s.get_char(i));
        proof {
            assert(s@.subrange(0, i as int).push(s@[i as int]) =~= s@.subrange(0, i + 1));
        }
        i += 1;
    }
    proof {
        assert(s@.subrange(0, n as int) =~= s@);
    }
    r
}

/// Relies on String::push: appends the character to the string.
#[verifier::external_body]
fn push_char(s: &mut String, c: char)
    ensures
        final(s)@ == old(s)@.push(c),
{
    s.push(c)
}

/// The string holding exactly the characters of `v`.
pub fn chars_to_string(v: &Vec<char>) -> (r: String)
    ensures
        r@ == v@,
{
    let mut r = String::new();
    let mut i: usize = 0;
    while i < v.len()
        invariant
            i <= v.len(),
            r@ == v@.subrange(0, i as int),
        decreases v.len() - i,
    {
        push_char(&mut r, v[i]);
        proof {
            assert(v@.subrange(0, i as int).push(v@[i as int]) =~= v@.subrange(0, i + 1));
        }
        i += 1;
    }
    proof {
        assert(v@.subrange(0, v@.len() as int) =~= v@);
    }
    r
}

/// The pattern `pat` occurs in `hay` starting at position `i`.
pub open spec fn matches_at(hay: Seq<char>, pat: Seq<char>, i: int) -> bool {
    0 <= i && i + pat.len() <= hay.len() && hay.subrange(i, i + pat.len()) == pat
}

/// Position of the first occurrence of `pat` in `hay`, if any.
/// A search for an empty pattern finds nothing.
pub open spec fn find_first(hay: Seq<char>, pat: Seq<char>) -> Option<int>
    decreases hay.len(),
{
    if pat.len() == 0 || hay.len() < pat.len() {
        None
    } else if hay.subrange(0, pat.len() as int) == pat {
        Some(0)
    } else {
        match find_first(hay.drop_first(), pat) {
            Some(i) => Some(i + 1),
            None => None,
        }
    }
}

/// Position of the last occurrence of `pat` in `hay`, if any.
/// A search for an empty pattern finds nothing.
pub open spec fn find_last(hay: Seq<char>, pat: Seq<char>) -> Option<int>
    decreases hay.len(),
{
    if pat.len() == 0 || hay.len() < pat.len() {
        None
    } else if hay.subrange(hay.len() - pat.len(), hay.len() as int) == pat {
        Some(hay.len() - pat.len())
    } else {
        find_last(hay.drop_last(), pat)
    }
}

/// `find_first` answers with the earliest match: what it returns matches,
/// and nothing matches before it; `None` means nothing matches at all.
pub proof fn lemma_find_first_characterization(hay: Seq<char>, pat: Seq<char>)
    requires
        pat.len() >= 1,
    ensures
        match find_first(hay, pat) {
            Some(i) => matches_at(hay, pat, i) && forall|j: int|
                0 <= j < i ==> !matches_at(hay, pat, j),
            None => forall|j: int| !matches_at(hay, pat, j),
        },
    decreases hay.len(),
{
    if hay.len() < pat.len() {
        assert(forall|j: int| !matches_at(hay, pat, j));
    } else if hay.subrange(0, pat.len() as int) == pat {
        assert(matches_at(hay, pat, 0));
    } else {
        lemma_find_first_characterization(hay.drop_first(), pat);
        assert forall|k: int| 0 <= k implies matches_at(hay.drop_first(), pat, k) == matches_at(
            hay,
            pat,
            k + 1,
        ) by {
            if k + 1 + pat.len() <= hay.len() {
                assert(hay.drop_first().subrange(k, k + pat.len()) =~= hay.subrange(
                    k + 1,
                    k + 1 + pat.len(),
                ));
            }
        }
        assert(!matches_at(hay, pat, 0));
        match find_first(hay.drop_first(), pat) {
            Some(i) => {
                assert(matches_at(hay.drop_first(), pat, i));
                assert(matches_at(hay, pat, i + 1));
                assert forall|j: int| 0 <= j < i + 1 implies !matches_at(hay, pat, j) by {
                    if j > 0 {
                        assert(!matches_at(hay.drop_first(), pat, j - 1));
                    }
                }
            },
            None => {
                assert forall|j: int| !matches_at(hay, pat, j) by {
                    if j > 0 {
                        assert(!matches_at(hay.drop_first(), pat, j - 1));
                    }
                }
            },
        }
    }
}

/// `find_last` answers with the latest match: what it returns matches,
/// and nothing matches after it; `None` means nothing matches at all.
pub proof fn lemma_find_last_characterization(hay: Seq<char>, pat: Seq<char>)
    requires
        pat.len() >= 1,
    ensures
        match find_last(hay, pat) {
            Some(i) => matches_at(hay, pat, i) && forall|j: int|
                j > i ==> !matches_at(hay, pat, j),
            None => forall|j: int| !matches_at(hay, pat, j),
        },
    decreases hay.len(),
{
    if hay.len() < pat.len() {
        assert(forall|j: int| !matches_at(hay, pat, j));
    } else if hay.subrange(hay.len() - pat.len(), hay.len() as int) == pat {
        assert(matches_at(hay, pat, hay.len() - pat.len()));
    } else {
        lemma_find_last_characterization(hay.drop_last(), pat);
        assert forall|k: int|
            0 <= k && k + pat.len() <= hay.len() - 1 implies matches_at(hay.drop_last(), pat, k)
            == matches_at(hay, pat, k) by {
            assert(hay.drop_last().subrange(k, k + pat.len()) =~= hay.subrange(k, k + pat.len()));
        }
        assert(!matches_at(hay, pat, hay.len() - pat.len()));
        match find_last(hay.drop_last(), pat) {
            Some(i) => {
                assert(matches_at(hay.drop_last(), pat, i));
                assert(matches_at(hay, pat, i));
                assert forall|j: int| j > i implies !matches_at(hay, pat, j) by {
                    if j + pat.len() <= hay.len() - 1 {
                        assert(!matches_at(hay.drop_last(), pat, j));
                    }
                }
            },
            None => {
                assert forall|j: int| !matches_at(hay, pat, j) by {
                    if 0 <= j && j + pat.len() <= hay.len() - 1 {
                        assert(!matches_at(hay.drop_last(), pat, j));
                    }
                }
            },
        }
    }
}

/// Whether `pat` occurs in `hay` starting exactly at position `i`.
pub(crate) fn eq_at(hay: &Vec<char>, i: usize, pat: &Vec<char>) -> (r: bool)
    requires
        i + pat.len() <= hay.len(),
    ensures
        r == matches_at(hay@, pat@, i as int),
{
    let mut j: usize = 0;
    while j < pat.len()
        invariant
            j <= pat.len(),
            i + pat.len() <= hay.len(),
            forall|k: int| 0 <= k < j ==> hay@[i + k] == pat@[k],
        decreases pat.len() - j,
    {
        if hay[i + j] != pat[j] {
            proof {
                assert(hay@.subrange(i as int, i + pat@.len())[j as int] == hay@[i + j]);
            }
            return false;
        }
        j += 1;
    }
    proof {
        assert(hay@.subrange(i as int, i + pat@.len()) =~= pat@);
    }
    true
}

/// Position of the first occurrence of `pat` in `hay`, scanning forward.
pub fn find_first_in(hay: &Vec<char>, pat: &Vec<char>) -> (r: Option<usize>)
    requires
        pat.len() >= 1,
    ensures
        match r {
            Some(i) => find_first(hay@, pat@) == Some(i as int) && i + pat.len() <= hay.len(),
            None => find_first(hay@, pat@) is None,
        },
{
    proof {
        lemma_find_first_characterization(hay@, pat@);
    }
    if hay.len() < pat.len() {
        return None;
    }
    let mut i: usize = 0;
    while i <= hay.len() - pat.len()
        invariant
            1 <= pat.len() <= hay.len(),
            i <= hay.len(),
            forall|k: int| 0 <= k < i ==> !matches_at(hay@, pat@, k),
        decreases hay.len() - i,
    {
        if eq_at(hay, i, pat) {
            proof {
                lemma_find_first_characterization(hay@, pat@);
            }
            return Some(i);
        }
        i += 1;
    }
    proof {
        lemma_find_first_characterization(hay@, pat@);
    }
    None
}

/// Position of the last occurrence of `pat` in `hay`, scanning backward.
pub fn find_last_in(hay: &Vec<char>, pat: &Vec<char>) -> (r: Option<usize>)
    requires
        pat.len() >= 1,
    ensures
        match r {
            Some(i) => find_last(hay@, pat@) == Some(i as int) && i + pat.len() <= hay.len(),
            None => find_last(hay@, pat@) is None,
        },
{
    if hay.len() < pat.len() {
        proof {
            lemma_find_last_characterization(hay@, pat@);
        }
        return None;
    }
    let mut i: usize = hay.len() - pat.len() + 1;
    while i > 0
        invariant
            i <= hay.len() - pat.len() + 1,
            pat.len() >= 1 && pat.len() <= hay.len(),
            forall|k: int| k >= i ==> !matches_at(hay@, pat@, k),
        decreases i,
    {
        i -= 1;
        if eq_at(hay, i, pat) {
            proof {
                lemma_find_last_characterization(hay@, pat@);
            }
            return Some(i);
        }
    }
    proof {
        lemma_find_last_characterization(hay@, pat@);
    }
    None
}

/// Position of the last occurrence of the first element of `elems` that
/// occurs in `hay` at all, paired with that element's index.
pub open spec fn find_last_of(hay: Seq<char>, elems: Seq<Seq<char>>) -> Option<(int, int)>
    decreases elems.len(),
{
    if elems.len() == 0 {
        None
    } else {
        match find_last(hay, elems[0]) {
            Some(p) => Some((p, 0)),
            None => match find_last_of(hay, elems.drop_first()) {
                Some(pi) => Some((pi.0, pi.1 + 1)),
                None => None,
            },
        }
    }
}

proof fn lemma_find_last_of_step(hay: Seq<char>, elems: Seq<Seq<char>>, idx: int)
    requires
        0 <= idx <= elems.len(),
        forall|k: int| 0 <= k < idx ==> find_last(hay, #[trigger] elems[k]) is None,
    ensures
        find_last_of(hay, elems) == match find_last_of(hay, elems.subrange(idx, elems.len() as int)) {
            Some(pi) => Some((pi.0, pi.1 + idx)),
            None => None::<(int, int)>,
        },
    decreases idx,
{
    if idx == 0 {
        assert(elems.subrange(0, elems.len() as int) =~= elems);
    } else {
        lemma_find_last_of_step(hay, elems, idx - 1);
        let rest = elems.subrange(idx - 1, elems.len() as int);
        assert(rest[0] == elems[idx - 1]);
        assert(rest.drop_first() =~= elems.subrange(idx, elems.len() as int));
    }
}

/// Searches `string` for each of `elements` in turn and returns, for the
/// first element that occurs at all, the position of its last occurrence
/// together with the element's index.
pub fn find_last_pos_of_first(string: &Vec<char>, elements: &Vec<Vec<char>>) -> (r: Option<
    (usize, usize),
>)
    requires
        forall|k: int| 0 <= k < elements@.len() ==> (#[trigger] elements@[k])@.len() >= 1,
    ensures
        match r {
            Some(pi) => {
                &&& find_last_of(string@, elements.deep_view()) == Some(
                    (pi.0 as int, pi.1 as int),
                )
                &&& pi.1 < elements.len()
                &&& pi.0 + elements@[pi.1 as int]@.len() <= string.len()
            },
            None => find_last_of(string@, elements.deep_view()) is None,
        },
{
    let ghost dv = elements.deep_view();
    proof {
        assert forall|k: int| 0 <= k < dv.len() implies #[trigger] dv[k] == elements@[k]@ by {
            assert(elements@[k].deep_view() =~= elements@[k]@);
        }
    }
    let mut idx: usize = 0;
    while idx < elements.len()
        invariant
            idx <= elements.len(),
            dv == elements.deep_view(),
            forall|k: int| 0 <= k < elements@.len() ==> (#[trigger] elements@[k])@.len() >= 1,
            forall|k: int| 0 <= k < idx ==> find_last(string@, #[trigger] dv[k]) is None,
        decreases elements.len() - idx,
    {
        let found = find_last_in(string, &elements[idx]);
        proof {
            assert(dv[idx as int] == elements@[idx as int]@);
        }
        match found {
            Some(p) => {
                proof {
                    lemma_find_last_of_step(string@, dv, idx as int);
                    let rest = dv.subrange(idx as int, dv.len() as int);
                    assert(rest[0] == dv[idx as int]);
                    assert(find_last(string@, rest[0]) == Some(p as int));
                    assert(find_last_of(string@, rest) == Some((p as int, 0int)));
                }
                return Some((p, idx));
            },
            None => {
                proof {
                    assert(find_last(string@, dv[idx as int]) is None);
                }
                idx += 1;
            },
        }
    }
    proof {
        lemma_find_last_of_step(string@, dv, idx as int);
        assert(dv.subrange(idx as int, dv.len() as int) =~= Seq::<Seq<char>>::empty());
    }
    None
}

} // verus!
