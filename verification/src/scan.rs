//! Position-level scanning over the characters of a source text. Positions
//! count characters.

use vstd::prelude::*;
use crate::text::{is_ws, is_ident, is_whitespace, is_identifier_char, trim_end};
use crate::tracker::{StringTracker, tracker_step, tracker_start, tracker_run};

verus! {

/// The first position at or after `pos` that holds `target`.
pub open spec fn next_index_of(s: Seq<char>, pos: int, target: char) -> Option<int>
    decreases s.len() - pos,
{
    if pos < 0 || pos >= s.len() {
        None
    } else if s[pos] == target {
        Some(pos)
    } else {
        next_index_of(s, pos + 1, target)
    }
}

/// The first position at or after `pos` that holds no white space (or the end).
pub open spec fn skip_ws(s: Seq<char>, pos: int) -> int
    decreases s.len() - pos,
{
    if 0 <= pos < s.len() && is_ws(s[pos]) {
        skip_ws(s, pos + 1)
    } else {
        pos
    }
}

/// The first position at or after `pos` that holds no identifier character (or the end).
pub open spec fn ident_end(s: Seq<char>, pos: int) -> int
    decreases s.len() - pos,
{
    if 0 <= pos < s.len() && is_ident(s[pos]) {
        ident_end(s, pos + 1)
    } else {
        pos
    }
}

/// Scanning from `pos` with `depth` unmatched openers and literal state `t`:
/// the position of the closer that brings the depth to zero. Delimiters
/// inside literals do not count.
pub open spec fn matching_close(
    s: Seq<char>,
    pos: int,
    depth: int,
    t: StringTracker,
    open: char,
    close: char,
) -> Option<int>
    decreases s.len() - pos,
{
    if pos < 0 || pos >= s.len() {
        None
    } else {
        let ch = s[pos];
        let t2 = tracker_step(t, ch);
        if !t.inside() && ch == open {
            matching_close(s, pos + 1, depth + 1, t2, open, close)
        } else if !t.inside() && ch == close {
            if depth - 1 == 0 {
                Some(pos)
            } else {
                matching_close(s, pos + 1, depth - 1, t2, open, close)
            }
        } else {
            matching_close(s, pos + 1, depth, t2, open, close)
        }
    }
}

/// The delimiter that closes the one at `open_index`.
pub open spec fn matching_delimiter(s: Seq<char>, open_index: int, open: char, close: char) -> Option<int> {
    matching_close(s, open_index, 0, tracker_start(), open, close)
}

/// Whether the characters of `word` stand in `s` from `pos` on.
pub open spec fn occurs_at(s: Seq<char>, pos: int, word: Seq<char>) -> bool {
    0 <= pos && pos + word.len() <= s.len() && s.subrange(pos, pos + word.len()) == word
}

/// The last run of non-white-space characters at the end of `s`.
pub open spec fn last_word(s: Seq<char>) -> Seq<char>
    decreases s.len(),
{
    if s.len() == 0 || is_ws(s.last()) {
        Seq::empty()
    } else {
        last_word(s.drop_last()).push(s.last())
    }
}

/// The word before `pos`, skipping white space, is `abstract`.
pub open spec fn abstract_before(s: Seq<char>, pos: int) -> bool {
    last_word(trim_end(s.subrange(0, pos))) == "abstract"@
}

/// Neither neighbour of `s[start..end]` is an identifier character.
pub open spec fn ident_boundary(s: Seq<char>, start: int, end: int) -> bool {
    &&& (start == 0 || !is_ident(s[start - 1]))
    &&& (end >= s.len() || !is_ident(s[end]))
}

/// Whether the characters of `word` stand in `s` from `pos` on.
pub fn starts_with_at(s: &[char], pos: usize, word: &[char]) -> (b: bool)
    ensures
        b == occurs_at(s@, pos as int, word@),
{
    if pos > s.len() || word.len() > s.len() - pos {
        return false;
    }
    let mut i: usize = 0;
    while i < word.len()
        invariant
            pos + word@.len() <= s@.len(),
            pos + word.len() <= s.len(),
            0 <= i <= word@.len(),
            forall|j: int| 0 <= j < i ==> s@[pos + j] == word@[j],
        decreases word.len() - i,
    {
        if s[pos + i] != word[i] {
            assert(s@.subrange(pos as int, pos + word@.len())[i as int] != word@[i as int]);
            return false;
        }
        i = i + 1;
    }
    assert(s@.subrange(pos as int, pos + word@.len()) =~= word@);
    true
}

/// The first position at or after `pos` that holds `target`.
pub fn find_next_char(source: &[char], pos: usize, target: char) -> (r: Option<usize>)
    ensures
        r matches Some(i) ==> next_index_of(source@, pos as int, target) == Some(i as int),
        r is None ==> next_index_of(source@, pos as int, target) is None,
{
    let mut p = pos;
    while p < source.len()
        invariant
            pos <= p,
            next_index_of(source@, pos as int, target) == next_index_of(source@, p as int, target),
        decreases source.len() - p,
    {
        if source[p] == target {
            return Some(p);
        }
        p = p + 1;
    }
    None
}

/// The closer `close` that matches the opener at `open_index`.
pub fn find_matching_delimiter(source: &[char], open_index: usize, open: char, close: char) -> (r:
    Option<usize>)
    ensures
        r matches Some(i) ==> matching_delimiter(source@, open_index as int, open, close) == Some(
            i as int,
        ),
        r is None ==> matching_delimiter(source@, open_index as int, open, close) is None,
{
    let mut opened: usize = 0;
    let mut closed: usize = 0;
    let mut pos = open_index;
    let mut tracker = StringTracker::new();
    while pos < source.len()
        invariant
            open_index <= pos,
            opened + closed <= pos - open_index,
            matching_delimiter(source@, open_index as int, open, close) == matching_close(
                source@,
                pos as int,
                opened - closed,
                tracker,
                open,
                close,
            ),
        decreases source.len() - pos,
    {
        let ch = source[pos];
        if !tracker.in_string() {
            if ch == open {
                opened = opened + 1;
            } else if ch == close {
                closed = closed + 1;
                if opened == closed {
                    return Some(pos);
                }
            }
        }
        tracker.consume(ch);
        pos = pos + 1;
    }
    None
}

/// The `}` that closes the `{` at `open_index`.
pub fn find_matching_brace(source: &[char], open_index: usize) -> (r: Option<usize>)
    ensures
        r matches Some(i) ==> matching_delimiter(source@, open_index as int, '{', '}') == Some(
            i as int,
        ),
        r is None ==> matching_delimiter(source@, open_index as int, '{', '}') is None,
{
    find_matching_delimiter(source, open_index, '{', '}')
}

/// The `)` that closes the `(` at `open_index`.
pub fn find_matching_paren(source: &[char], open_index: usize) -> (r: Option<usize>)
    ensures
        r matches Some(i) ==> matching_delimiter(source@, open_index as int, '(', ')') == Some(
            i as int,
        ),
        r is None ==> matching_delimiter(source@, open_index as int, '(', ')') is None,
{
    find_matching_delimiter(source, open_index, '(', ')')
}

/// The first position at or after `index` that holds no white space.
pub fn skip_whitespace(source: &[char], index: usize) -> (r: usize)
    ensures
        r == skip_ws(source@, index as int),
{
    let mut i = index;
    while i < source.len() && is_whitespace(source[i])
        invariant
            index <= i,
            skip_ws(source@, index as int) == skip_ws(source@, i as int),
        decreases source.len() - i,
    {
        i = i + 1;
    }
    i
}

/// The first position at or after `index` that holds no identifier character.
pub fn identifier_end(source: &[char], index: usize) -> (r: usize)
    ensures
        r == ident_end(source@, index as int),
{
    let mut i = index;
    while i < source.len() && is_identifier_char(source[i])
        invariant
            index <= i,
            ident_end(source@, index as int) == ident_end(source@, i as int),
        decreases source.len() - i,
    {
        i = i + 1;
    }
    i
}

/// Whether neither neighbour of `source[start..end]` is an identifier character.
pub fn is_identifier_boundary(source: &[char], start: usize, end: usize) -> (b: bool)
    requires
        start <= source@.len(),
        end <= source@.len(),
    ensures
        b == ident_boundary(source@, start as int, end as int),
{
    let before_ok = start == 0 || !is_identifier_char(source[start - 1]);
    let after_ok = end >= source.len() || !is_identifier_char(source[end]);
    before_ok && after_ok
}

/// Whether the character before `start` is an identifier character.
pub fn is_identifier_char_before(source: &[char], start: usize) -> (b: bool)
    requires
        start <= source@.len(),
    ensures
        b == (start > 0 && is_ident(source@[start - 1])),
{
    if start == 0 {
        return false;
    }
    is_identifier_char(source[start - 1])
}

/// Whether the character at `index` is an identifier character.
pub fn is_identifier_char_after(source: &[char], index: usize) -> (b: bool)
    requires
        index <= source@.len(),
    ensures
        b == (index < source@.len() && is_ident(source@[index as int])),
{
    index < source.len() && is_identifier_char(source[index])
}

/// Whether the last word before `position` is `abstract`.
pub fn is_abstract_contract(source: &[char], position: usize) -> (b: bool)
    requires
        position <= source@.len(),
    ensures
        b == abstract_before(source@, position as int),
{
    let (_, end) = trim_end_bound(source, position);
    let mut start = end;
    while start > 0 && !is_whitespace(source[start - 1])
        invariant
            start <= end <= position <= source@.len(),
            last_word(source@.subrange(0, end as int)) == last_word(
                source@.subrange(0, start as int),
            ) + source@.subrange(start as int, end as int),
        decreases start,
    {
        proof {
            let s0 = source@.subrange(0, start as int);
            assert(s0.drop_last() =~= source@.subrange(0, start - 1));
            assert(source@.subrange(start - 1, end as int) =~= seq![s0.last()]
                + source@.subrange(start as int, end as int));
            assert(last_word(s0) == last_word(s0.drop_last()).push(s0.last()));
            assert(last_word(s0.drop_last()).push(s0.last()) + source@.subrange(
                start as int,
                end as int,
            ) =~= last_word(s0.drop_last()) + source@.subrange(start - 1, end as int));
        }
        start = start - 1;
    }
    proof {
        let s0 = source@.subrange(0, start as int);
        assert(last_word(s0) =~= Seq::<char>::empty());
        assert(last_word(source@.subrange(0, end as int)) =~= source@.subrange(
            start as int,
            end as int,
        ));
    }
    let word: [char; 8] = ['a', 'b', 's', 't', 'r', 'a', 'c', 't'];
    proof {
        reveal_strlit("abstract");
        assert(word@ =~= "abstract"@);
    }
    if end - start != 8 {
        return false;
    }
    let mut i: usize = 0;
    while i < 8
        invariant
            end - start == 8,
            start <= end <= source@.len(),
            word@ == "abstract"@,
            abstract_before(source@, position as int) == (source@.subrange(start as int, end as int)
                == "abstract"@),
            0 <= i <= 8,
            forall|j: int| 0 <= j < i ==> source@[start + j] == word@[j],
        decreases 8 - i,
    {
        if source[start + i] != word[i] {
            assert(source@.subrange(start as int, end as int)[i as int] != word@[i as int]);
            return false;
        }
        i = i + 1;
    }
    assert(source@.subrange(start as int, end as int) =~= "abstract"@);
    true
}

/// `source[0..e]` is `source[0..position]` with its trailing white space removed.
fn trim_end_bound(source: &[char], position: usize) -> (r: (usize, usize))
    requires
        position <= source@.len(),
    ensures
        r.0 == 0,
        r.1 <= position,
        source@.subrange(0, r.1 as int) == trim_end(source@.subrange(0, position as int)),
{
    let mut b = position;
    while b > 0 && is_whitespace(source[b - 1])
        invariant
            b <= position <= source@.len(),
            trim_end(source@.subrange(0, position as int)) == trim_end(
                source@.subrange(0, b as int),
            ),
        decreases b,
    {
        assert(source@.subrange(0, b as int).drop_last() =~= source@.subrange(0, b - 1));
        b = b - 1;
    }
    (0, b)
}

} // verus!
verus! {

/// A position that `next_index_of` finds lies at or after the start and
/// holds the target.
pub proof fn lemma_next_index_bounds(s: Seq<char>, pos: int, target: char)
    ensures
        next_index_of(s, pos, target) matches Some(i) ==> pos <= i < s.len() && s[i] == target,
    decreases s.len() - pos,
{
    if 0 <= pos < s.len() && s[pos] != target {
        lemma_next_index_bounds(s, pos + 1, target);
    }
}

proof fn lemma_matching_close_bounds(
    s: Seq<char>,
    pos: int,
    depth: int,
    t: StringTracker,
    open: char,
    close: char,
)
    ensures
        matching_close(s, pos, depth, t, open, close) matches Some(i) ==> pos <= i < s.len()
            && s[i] == close,
    decreases s.len() - pos,
{
    if 0 <= pos < s.len() {
        let ch = s[pos];
        let t2 = tracker_step(t, ch);
        if !t.inside() && ch == open {
            lemma_matching_close_bounds(s, pos + 1, depth + 1, t2, open, close);
        } else if !t.inside() && ch == close {
            lemma_matching_close_bounds(s, pos + 1, depth - 1, t2, open, close);
        } else {
            lemma_matching_close_bounds(s, pos + 1, depth, t2, open, close);
        }
    }
}

/// A matching closer lies at or after the opener and is the closer character.
pub proof fn lemma_matching_bounds(s: Seq<char>, open_index: int, open: char, close: char)
    ensures
        matching_delimiter(s, open_index, open, close) matches Some(i) ==> open_index <= i < s.len()
            && s[i] == close,
{
    lemma_matching_close_bounds(s, open_index, 0, tracker_start(), open, close);
}

/// What `ch` adds to the nesting count when the scan stands in literal
/// state `t`: one for an opener and minus one for a closer outside literals.
pub open spec fn delimiter_delta(t: StringTracker, ch: char, open: char, close: char) -> int {
    if !t.inside() && ch == open {
        1
    } else if !t.inside() && ch == close {
        -1
    } else {
        0
    }
}

/// Openers minus closers outside literals in `s[a..=p]`, the literal state
/// being tracked from `a`.
pub open spec fn delimiter_count(s: Seq<char>, a: int, p: int, open: char, close: char) -> int
    decreases p - a + 1,
{
    if p < a {
        0
    } else {
        delimiter_count(s, a, p - 1, open, close) + delimiter_delta(
            tracker_run(tracker_start(), s.subrange(a, p)),
            s[p],
            open,
            close,
        )
    }
}

proof fn lemma_matching_close_counts(
    s: Seq<char>,
    a: int,
    pos: int,
    depth: int,
    t: StringTracker,
    open: char,
    close: char,
)
    requires
        0 <= a < s.len(),
        s[a] == open,
        a <= pos <= s.len(),
        depth == delimiter_count(s, a, pos - 1, open, close),
        t == tracker_run(tracker_start(), s.subrange(a, pos)),
        pos == a || depth > 0,
    ensures
        matching_close(s, pos, depth, t, open, close) matches Some(p) ==> {
            &&& pos <= p < s.len()
            &&& s[p] == close
            &&& delimiter_count(s, a, p, open, close) == 0
            &&& forall|q: int| pos <= q < p ==> delimiter_count(s, a, q, open, close) > 0
        },
        matching_close(s, pos, depth, t, open, close) is None ==> forall|q: int|
            pos <= q < s.len() ==> delimiter_count(s, a, q, open, close) > 0,
    decreases s.len() - pos,
{
    if pos < s.len() {
        let ch = s[pos];
        let t2 = tracker_step(t, ch);
        assert(s.subrange(a, pos + 1).drop_last() =~= s.subrange(a, pos));
        assert(s.subrange(a, pos + 1).last() == ch);
        assert(t2 == tracker_run(tracker_start(), s.subrange(a, pos + 1)));
        if pos == a {
            assert(s.subrange(a, a) =~= Seq::<char>::empty());
            assert(delimiter_count(s, a, a - 1, open, close) == 0);
        }
        let d = delimiter_count(s, a, pos, open, close);
        assert(d == depth + delimiter_delta(t, ch, open, close));
        if !t.inside() && ch == open {
            lemma_matching_close_counts(s, a, pos + 1, depth + 1, t2, open, close);
        } else if !t.inside() && ch == close {
            if depth - 1 != 0 {
                lemma_matching_close_counts(s, a, pos + 1, depth - 1, t2, open, close);
            }
        } else {
            lemma_matching_close_counts(s, a, pos + 1, depth, t2, open, close);
        }
    }
}

/// The delimiter that matches the opener at `open_index` is the first
/// position at which openers minus closers outside literals, counted from
/// the opener on, come to zero; where they never do, there is none.
pub proof fn lemma_matching_delimiter_counts(s: Seq<char>, open_index: int, open: char, close: char)
    requires
        0 <= open_index < s.len(),
        s[open_index] == open,
    ensures
        matching_delimiter(s, open_index, open, close) matches Some(p) ==> {
            &&& open_index < p < s.len()
            &&& s[p] == close
            &&& delimiter_count(s, open_index, p, open, close) == 0
            &&& forall|q: int|
                open_index <= q < p ==> delimiter_count(s, open_index, q, open, close) > 0
        },
        matching_delimiter(s, open_index, open, close) is None ==> forall|q: int|
            open_index <= q < s.len() ==> delimiter_count(s, open_index, q, open, close) > 0,
{
    assert(s.subrange(open_index, open_index) =~= Seq::<char>::empty());
    lemma_matching_close_counts(s, open_index, open_index, 0, tracker_start(), open, close);
    let r = matching_delimiter(s, open_index, open, close);
    if r is Some {
        let p = r->Some_0;
        assert(p != open_index) by {
            if p == open_index {
                assert(s.subrange(open_index, open_index) =~= Seq::<char>::empty());
                assert(tracker_run(tracker_start(), s.subrange(open_index, open_index)) == tracker_start());
                assert(delimiter_count(s, open_index, open_index - 1, open, close) == 0);
                assert(delimiter_count(s, open_index, open_index, open, close) == 1);
            }
        }
    }
}

/// The first position at or after `j` that holds white space (or the end).
pub open spec fn word_end(s: Seq<char>, j: int) -> int
    decreases s.len() - j,
{
    if 0 <= j < s.len() && !is_ws(s[j]) {
        word_end(s, j + 1)
    } else {
        j
    }
}

/// Skipping white space stops at or after `i`, within the text, on a
/// character that is not white space, having passed only white space.
pub proof fn lemma_skip_ws_facts(s: Seq<char>, i: int)
    requires
        0 <= i <= s.len(),
    ensures
        i <= skip_ws(s, i) <= s.len(),
        forall|k: int| i <= k < skip_ws(s, i) ==> is_ws(#[trigger] s[k]),
        skip_ws(s, i) < s.len() ==> !is_ws(s[skip_ws(s, i)]),
    decreases s.len() - i,
{
    if i < s.len() && is_ws(s[i]) {
        lemma_skip_ws_facts(s, i + 1);
    }
}

/// A word ends at or after `j`, within the text, on white space, having
/// passed only characters that are not white space.
pub proof fn lemma_word_end_facts(s: Seq<char>, j: int)
    requires
        0 <= j <= s.len(),
    ensures
        j <= word_end(s, j) <= s.len(),
        forall|k: int| j <= k < word_end(s, j) ==> !is_ws(#[trigger] s[k]),
        word_end(s, j) < s.len() ==> is_ws(s[word_end(s, j)]),
    decreases s.len() - j,
{
    if j < s.len() && !is_ws(s[j]) {
        lemma_word_end_facts(s, j + 1);
    }
}

/// The words of `s[i..]`, read from the left: the maximal runs of
/// characters other than white space, as `str::split_whitespace` gives them.
pub open spec fn words_from(s: Seq<char>, i: int) -> Seq<Seq<char>>
    decreases s.len() - i,
{
    if i < 0 || i >= s.len() {
        Seq::empty()
    } else {
        let j = skip_ws(s, i);
        proof {
            lemma_skip_ws_facts(s, i);
        }
        if j >= s.len() {
            Seq::empty()
        } else {
            let e = word_end(s, j);
            proof {
                lemma_word_end_facts(s, j);
            }
            seq![s.subrange(j, e)] + words_from(s, e)
        }
    }
}

proof fn lemma_trim_end_at(x: Seq<char>, m: int)
    requires
        -1 <= m < x.len(),
        m >= 0 ==> !is_ws(x[m]),
        forall|k: int| m < k < x.len() ==> is_ws(#[trigger] x[k]),
    ensures
        trim_end(x) == x.subrange(0, m + 1),
    decreases x.len(),
{
    if x.len() > 0 && m + 1 < x.len() {
        let d = x.drop_last();
        assert(is_ws(x[x.len() - 1]));
        assert forall|k: int| m < k < d.len() implies is_ws(#[trigger] d[k]) by {
            assert(d[k] == x[k]);
        }
        lemma_trim_end_at(d, m);
        assert(d.subrange(0, m + 1) =~= x.subrange(0, m + 1));
    } else {
        assert(x.subrange(0, m + 1) =~= x);
    }
}

proof fn lemma_last_word_run(y: Seq<char>, k: int)
    requires
        0 <= k <= y.len(),
        forall|j: int| k <= j < y.len() ==> !is_ws(#[trigger] y[j]),
        k == 0 || is_ws(y[k - 1]),
    ensures
        last_word(y) == y.subrange(k, y.len() as int),
    decreases y.len(),
{
    if y.len() > k {
        let d = y.drop_last();
        assert forall|j: int| k <= j < d.len() implies !is_ws(#[trigger] d[j]) by {
            assert(d[j] == y[j]);
        }
        if k > 0 {
            assert(d[k - 1] == y[k - 1]);
        }
        lemma_last_word_run(d, k);
        assert(d.subrange(k, d.len() as int).push(y.last()) =~= y.subrange(k, y.len() as int));
    } else {
        if y.len() > 0 {
            assert(is_ws(y.last()));
        }
        assert(y.subrange(k, y.len() as int) =~= Seq::<char>::empty());
    }
}

proof fn lemma_words_last(x: Seq<char>, i: int)
    requires
        0 <= i <= x.len(),
        i == 0 || i == x.len() || is_ws(x[i]) || is_ws(x[i - 1]),
    ensures
        (forall|k: int| i <= k < x.len() ==> is_ws(#[trigger] x[k])) ==> words_from(x, i).len()
            == 0,
        (exists|k: int| i <= k < x.len() && !is_ws(#[trigger] x[k])) ==> words_from(x, i).len() > 0
            && words_from(x, i).last() == last_word(trim_end(x)),
    decreases x.len() - i,
{
    if i < x.len() {
        lemma_skip_ws_facts(x, i);
        let j = skip_ws(x, i);
        if j < x.len() {
            lemma_word_end_facts(x, j);
            let e = word_end(x, j);
            let rest = words_from(x, e);
            lemma_words_last(x, e);
            let w = words_from(x, i);
            assert(w == seq![x.subrange(j, e)] + rest);
            if exists|k: int| e <= k < x.len() && !is_ws(#[trigger] x[k]) {
                assert(w.last() == rest.last());
            } else {
                assert forall|k: int| e - 1 < k < x.len() implies is_ws(#[trigger] x[k]) by {
                    if k >= e && !is_ws(x[k]) {
                        assert(e <= k < x.len() && !is_ws(x[k]));
                    }
                }
                lemma_trim_end_at(x, e - 1);
                let y = x.subrange(0, e);
                assert forall|q: int| j <= q < y.len() implies !is_ws(#[trigger] y[q]) by {
                    assert(y[q] == x[q]);
                }
                if j > 0 {
                    assert(y[j - 1] == x[j - 1]);
                }
                lemma_last_word_run(y, j);
                assert(y.subrange(j, y.len() as int) =~= x.subrange(j, e));
                assert(rest.len() == 0);
                assert(w.last() == x.subrange(j, e));
            }
        } else {
            assert forall|k: int| i <= k < x.len() implies is_ws(#[trigger] x[k]) by {}
        }
    }
}

/// A contract is abstract when the last word before it, as
/// `str::split_whitespace` reads the words, is `abstract`.
pub proof fn lemma_abstract_last_word(s: Seq<char>, pos: int)
    requires
        0 <= pos <= s.len(),
    ensures
        ({
            let ws = words_from(s.subrange(0, pos), 0);
            abstract_before(s, pos) <==> (ws.len() > 0 && ws.last() == "abstract"@)
        }),
{
    let x = s.subrange(0, pos);
    reveal_strlit("abstract");
    lemma_words_last(x, 0);
    if forall|k: int| 0 <= k < x.len() ==> is_ws(#[trigger] x[k]) {
        lemma_trim_end_at(x, -1);
        assert(x.subrange(0, 0) =~= Seq::<char>::empty());
    }
}

} // verus!
