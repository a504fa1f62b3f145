//! Removal of `//` and `/* */` comments from Solidity source, outside
//! string literals, keeping every line break.

use vstd::prelude::*;
use crate::text::{chars_of, string_of};
use crate::tracker::{StringTracker, tracker_step, tracker_start, lemma_step_keeps_wf};

verus! {

/// Where the comment scan stands.
pub enum CommentMode {
    /// In code (possibly inside a literal).
    Code,
    /// Inside a `//` comment.
    Line,
    /// Inside a `/* */` comment; whether the previous character of the
    /// comment was `*`.
    Block(bool),
}

/// What the comment scan outputs for `s[i..]`, in mode `mode` and
/// literal state `t`.
pub open spec fn strip_run(s: Seq<char>, i: int, mode: CommentMode, t: StringTracker) -> Seq<char>
    decreases s.len() - i,
{
    if i < 0 || i >= s.len() {
        Seq::empty()
    } else {
        let c = s[i];
        match mode {
            CommentMode::Code => {
                if t.inside() {
                    seq![c] + strip_run(s, i + 1, CommentMode::Code, tracker_step(t, c))
                } else if c == '/' && i + 1 < s.len() && s[i + 1] == '/' {
                    strip_run(s, i + 2, CommentMode::Line, t)
                } else if c == '/' && i + 1 < s.len() && s[i + 1] == '*' {
                    strip_run(s, i + 2, CommentMode::Block(false), t)
                } else {
                    seq![c] + strip_run(s, i + 1, CommentMode::Code, tracker_step(t, c))
                }
            },
            CommentMode::Line => {
                if c == '\n' {
                    seq!['\n'] + strip_run(s, i + 1, CommentMode::Code, tracker_start())
                } else {
                    strip_run(s, i + 1, CommentMode::Line, t)
                }
            },
            CommentMode::Block(after_star) => {
                if after_star && c == '/' {
                    line_break_of(c) + strip_run(s, i + 1, CommentMode::Code, tracker_start())
                } else {
                    line_break_of(c) + strip_run(s, i + 1, CommentMode::Block(c == '*'), t)
                }
            },
        }
    }
}

/// The line break `c`, or nothing for any other character.
pub open spec fn line_break_of(c: char) -> Seq<char> {
    if c == '\n' {
        seq!['\n']
    } else {
        Seq::empty()
    }
}

/// `s` without its comments: a `//` comment up to (not including) its line
/// break, a `/* */` comment except for the line breaks inside it; text in
/// string literals is kept as it is.
pub open spec fn stripped(s: Seq<char>) -> Seq<char> {
    strip_run(s, 0, CommentMode::Code, tracker_start())
}

/// How many times `c` occurs in `s`.
pub open spec fn count_char(s: Seq<char>, c: char) -> nat
    decreases s.len(),
{
    if s.len() == 0 {
        0
    } else {
        (if s[0] == c {
            1nat
        } else {
            0nat
        }) + count_char(s.drop_first(), c)
    }
}

proof fn lemma_count_concat(a: Seq<char>, b: Seq<char>, c: char)
    ensures
        count_char(a + b, c) == count_char(a, c) + count_char(b, c),
    decreases a.len(),
{
    if a.len() > 0 {
        assert((a + b).drop_first() =~= a.drop_first() + b);
        lemma_count_concat(a.drop_first(), b, c);
    } else {
        assert(a + b =~= b);
    }
}

proof fn lemma_count_step(s: Seq<char>, i: int, c: char)
    requires
        0 <= i < s.len(),
    ensures
        count_char(s.subrange(i, s.len() as int), c) == (if s[i] == c {
            1nat
        } else {
            0nat
        }) + count_char(s.subrange(i + 1, s.len() as int), c),
{
    assert(s.subrange(i, s.len() as int).drop_first() =~= s.subrange(i + 1, s.len() as int));
}

proof fn lemma_strip_run_newlines(s: Seq<char>, i: int, mode: CommentMode, t: StringTracker)
    requires
        0 <= i <= s.len(),
    ensures
        count_char(strip_run(s, i, mode, t), '\n') == count_char(
            s.subrange(i, s.len() as int),
            '\n',
        ),
    decreases s.len() - i,
{
    if i == s.len() {
        assert(s.subrange(i, s.len() as int) =~= Seq::<char>::empty());
    } else {
        let c = s[i];
        lemma_count_step(s, i, '\n');
        match mode {
            CommentMode::Code => {
                if t.inside() || !(c == '/' && i + 1 < s.len() && (s[i + 1] == '/' || s[i + 1]
                    == '*')) {
                    lemma_strip_run_newlines(s, i + 1, CommentMode::Code, tracker_step(t, c));
                    lemma_count_concat(
                        seq![c],
                        strip_run(s, i + 1, CommentMode::Code, tracker_step(t, c)),
                        '\n',
                    );
                    assert(count_char(seq![c], '\n') == (if c == '\n' {
                        1nat
                    } else {
                        0nat
                    })) by {
                        reveal_with_fuel(count_char, 2);
                        assert(seq![c].drop_first() =~= Seq::<char>::empty());
                    }
                } else {
                    lemma_count_step(s, i + 1, '\n');
                    if s[i + 1] == '/' {
                        lemma_strip_run_newlines(s, i + 2, CommentMode::Line, t);
                    } else {
                        lemma_strip_run_newlines(s, i + 2, CommentMode::Block(false), t);
                    }
                }
            },
            CommentMode::Line => {
                if c == '\n' {
                    lemma_strip_run_newlines(s, i + 1, CommentMode::Code, tracker_start());
                    lemma_count_concat(
                        seq!['\n'],
                        strip_run(s, i + 1, CommentMode::Code, tracker_start()),
                        '\n',
                    );
                    assert(count_char(seq!['\n'], '\n') == 1) by {
                        reveal_with_fuel(count_char, 2);
                        assert(seq!['\n'].drop_first() =~= Seq::<char>::empty());
                    }
                } else {
                    lemma_strip_run_newlines(s, i + 1, CommentMode::Line, t);
                }
            },
            CommentMode::Block(after_star) => {
                let kept = line_break_of(c);
                assert(count_char(kept, '\n') == (if c == '\n' {
                    1nat
                } else {
                    0nat
                })) by {
                    reveal_with_fuel(count_char, 2);
                    if c == '\n' {
                        assert(kept.drop_first() =~= Seq::<char>::empty());
                    }
                }
                if after_star && c == '/' {
                    lemma_strip_run_newlines(s, i + 1, CommentMode::Code, tracker_start());
                    lemma_count_concat(
                        kept,
                        strip_run(s, i + 1, CommentMode::Code, tracker_start()),
                        '\n',
                    );
                } else {
                    lemma_strip_run_newlines(s, i + 1, CommentMode::Block(c == '*'), t);
                    lemma_count_concat(kept, strip_run(s, i + 1, CommentMode::Block(c == '*'), t), '\n');
                }
            },
        }
    }
}

/// `a` is `b` with some of its characters left out.
pub open spec fn is_subsequence(a: Seq<char>, b: Seq<char>) -> bool
    decreases b.len(),
{
    if a.len() == 0 {
        true
    } else if b.len() == 0 {
        false
    } else if a[0] == b[0] {
        is_subsequence(a.drop_first(), b.drop_first())
    } else {
        is_subsequence(a, b.drop_first())
    }
}

proof fn lemma_subsequence_skip(a: Seq<char>, b: Seq<char>)
    requires
        b.len() > 0,
        is_subsequence(a, b.drop_first()),
    ensures
        is_subsequence(a, b),
    decreases b.len(), 0int,
{
    if a.len() > 0 && a[0] == b[0] {
        lemma_subsequence_drop(a, b.drop_first());
    }
}

proof fn lemma_subsequence_drop(a: Seq<char>, b: Seq<char>)
    requires
        a.len() > 0,
        is_subsequence(a, b),
    ensures
        is_subsequence(a.drop_first(), b),
    decreases b.len(), 1int,
{
    if a.drop_first().len() > 0 {
        if a[0] == b[0] {
            lemma_subsequence_skip(a.drop_first(), b);
        } else {
            lemma_subsequence_drop(a, b.drop_first());
            lemma_subsequence_skip(a.drop_first(), b);
        }
    }
}

proof fn lemma_strip_run_subsequence(s: Seq<char>, i: int, mode: CommentMode, t: StringTracker)
    requires
        0 <= i <= s.len(),
    ensures
        is_subsequence(strip_run(s, i, mode, t), s.subrange(i, s.len() as int)),
    decreases s.len() - i,
{
    if i < s.len() {
        let c = s[i];
        let here = s.subrange(i, s.len() as int);
        let next = s.subrange(i + 1, s.len() as int);
        assert(here.drop_first() =~= next);
        assert(here[0] == c);
        match mode {
            CommentMode::Code => {
                if t.inside() || !(c == '/' && i + 1 < s.len() && (s[i + 1] == '/' || s[i + 1]
                    == '*')) {
                    let r = strip_run(s, i + 1, CommentMode::Code, tracker_step(t, c));
                    lemma_strip_run_subsequence(s, i + 1, CommentMode::Code, tracker_step(t, c));
                    assert((seq![c] + r).drop_first() =~= r);
                } else {
                    let m = if s[i + 1] == '/' {
                        CommentMode::Line
                    } else {
                        CommentMode::Block(false)
                    };
                    lemma_strip_run_subsequence(s, i + 2, m, t);
                    assert(next.drop_first() =~= s.subrange(i + 2, s.len() as int));
                    lemma_subsequence_skip(strip_run(s, i + 2, m, t), next);
                    lemma_subsequence_skip(strip_run(s, i + 2, m, t), here);
                }
            },
            CommentMode::Line => {
                if c == '\n' {
                    let r = strip_run(s, i + 1, CommentMode::Code, tracker_start());
                    lemma_strip_run_subsequence(s, i + 1, CommentMode::Code, tracker_start());
                    assert((seq!['\n'] + r).drop_first() =~= r);
                } else {
                    lemma_strip_run_subsequence(s, i + 1, CommentMode::Line, t);
                    lemma_subsequence_skip(strip_run(s, i + 1, CommentMode::Line, t), here);
                }
            },
            CommentMode::Block(after_star) => {
                let m = if after_star && c == '/' {
                    CommentMode::Code
                } else {
                    CommentMode::Block(c == '*')
                };
                let t2 = if after_star && c == '/' {
                    tracker_start()
                } else {
                    t
                };
                let r = strip_run(s, i + 1, m, t2);
                lemma_strip_run_subsequence(s, i + 1, m, t2);
                if c == '\n' {
                    assert((line_break_of(c) + r).drop_first() =~= r);
                } else {
                    assert(line_break_of(c) + r =~= r);
                    lemma_subsequence_skip(r, here);
                }
            },
        }
    }
}

/// Removing comments only leaves characters out: what remains is the
/// source with some characters deleted, in their order.
pub proof fn lemma_strip_is_subsequence(s: Seq<char>)
    ensures
        is_subsequence(stripped(s), s),
{
    lemma_strip_run_subsequence(s, 0, CommentMode::Code, tracker_start());
    assert(s.subrange(0, s.len() as int) =~= s);
}

proof fn lemma_strip_run_shift(p: Seq<char>, r: Seq<char>, k: int, mode: CommentMode, t: StringTracker)
    requires
        0 <= k,
    ensures
        strip_run(p + r, p.len() + k, mode, t) == strip_run(r, k, mode, t),
    decreases r.len() - k,
{
    let s = p + r;
    let i = p.len() + k;
    if k < r.len() {
        assert(s[i] == r[k]);
        if k + 1 < r.len() {
            assert(s[i + 1] == r[k + 1]);
        }
        lemma_strip_run_shift(p, r, k + 1, mode, t);
        lemma_strip_run_shift(p, r, k + 1, CommentMode::Code, t);
        lemma_strip_run_shift(p, r, k + 1, CommentMode::Code, tracker_step(t, r[k]));
        lemma_strip_run_shift(p, r, k + 1, CommentMode::Code, tracker_start());
        lemma_strip_run_shift(p, r, k + 1, CommentMode::Line, t);
        lemma_strip_run_shift(p, r, k + 1, CommentMode::Block(r[k] == '*'), t);
        if k + 2 <= r.len() {
            lemma_strip_run_shift(p, r, k + 2, CommentMode::Line, t);
            lemma_strip_run_shift(p, r, k + 2, CommentMode::Block(false), t);
        }
    }
}

/// The second pass over what one character `c` and then `rest` give, where
/// `c` is passed on as it stands: `c`, then the second pass over `rest`.
proof fn lemma_second_pass_step(c: char, rest: Seq<char>, u: StringTracker)
    requires
        u.inside() || c != '/' || rest.len() == 0 || (rest[0] != '/' && rest[0] != '*'),
    ensures
        strip_run(seq![c] + rest, 0, CommentMode::Code, u) == seq![c] + strip_run(
            rest,
            0,
            CommentMode::Code,
            tracker_step(u, c),
        ),
{
    let out = seq![c] + rest;
    assert(out[0] == c);
    if rest.len() > 0 {
        assert(out[1] == rest[0]);
    }
    lemma_strip_run_shift(seq![c], rest, 0, CommentMode::Code, tracker_step(u, c));
}

proof fn lemma_strip_run_idempotent(s: Seq<char>, i: int, mode: CommentMode, t: StringTracker)
    requires
        0 <= i <= s.len(),
        mode is Code ==> t.wf(),
    ensures
        strip_run(strip_run(s, i, mode, t), 0, CommentMode::Code, if mode is Code {
            t
        } else {
            tracker_start()
        }) == strip_run(s, i, mode, t),
    decreases s.len() - i,
{
    if i < s.len() {
        let c = s[i];
        match mode {
            CommentMode::Code => {
                if t.inside() || !(c == '/' && i + 1 < s.len() && (s[i + 1] == '/' || s[i + 1]
                    == '*')) {
                    let t2 = tracker_step(t, c);
                    lemma_step_keeps_wf(t, c);
                    let r = strip_run(s, i + 1, CommentMode::Code, t2);
                    lemma_strip_run_idempotent(s, i + 1, CommentMode::Code, t2);
                    if !t.inside() && c == '/' && i + 1 < s.len() {
                        assert(!t2.inside());
                        assert(r == seq![s[i + 1]] + strip_run(
                            s,
                            i + 2,
                            CommentMode::Code,
                            tracker_step(t2, s[i + 1]),
                        ));
                        assert(r[0] == s[i + 1]);
                    }
                    lemma_second_pass_step(c, r, t);
                } else {
                    assert(t == tracker_start());
                    if s[i + 1] == '/' {
                        lemma_strip_run_idempotent(s, i + 2, CommentMode::Line, t);
                    } else {
                        lemma_strip_run_idempotent(s, i + 2, CommentMode::Block(false), t);
                    }
                }
            },
            CommentMode::Line => {
                if c == '\n' {
                    let r = strip_run(s, i + 1, CommentMode::Code, tracker_start());
                    lemma_strip_run_idempotent(s, i + 1, CommentMode::Code, tracker_start());
                    lemma_second_pass_step('\n', r, tracker_start());
                    assert(tracker_step(tracker_start(), '\n') == tracker_start());
                } else {
                    lemma_strip_run_idempotent(s, i + 1, CommentMode::Line, t);
                }
            },
            CommentMode::Block(after_star) => {
                let m = if after_star && c == '/' {
                    CommentMode::Code
                } else {
                    CommentMode::Block(c == '*')
                };
                let t2 = if after_star && c == '/' {
                    tracker_start()
                } else {
                    t
                };
                let r = strip_run(s, i + 1, m, t2);
                lemma_strip_run_idempotent(s, i + 1, m, t2);
                if c == '\n' {
                    lemma_second_pass_step('\n', r, tracker_start());
                    assert(tracker_step(tracker_start(), '\n') == tracker_start());
                } else {
                    assert(line_break_of(c) + r =~= r);
                }
            },
        }
    }
}

/// Removing comments a second time changes nothing.
pub proof fn lemma_strip_idempotent(s: Seq<char>)
    ensures
        stripped(stripped(s)) == stripped(s),
{
    lemma_strip_run_idempotent(s, 0, CommentMode::Code, tracker_start());
}

/// The line breaks of `x`, in order.
pub open spec fn line_breaks(x: Seq<char>) -> Seq<char>
    decreases x.len(),
{
    if x.len() == 0 {
        Seq::empty()
    } else if x[0] == '\n' {
        seq!['\n'] + line_breaks(x.drop_first())
    } else {
        line_breaks(x.drop_first())
    }
}

/// `*/` stands at `k` in `s`.
pub open spec fn closer_at(s: Seq<char>, k: int) -> bool {
    0 <= k && k + 1 < s.len() && s[k] == '*' && s[k + 1] == '/'
}

proof fn lemma_block_to_closer(s: Seq<char>, k: int, j: int, after: bool, t: StringTracker)
    requires
        0 <= k <= j,
        closer_at(s, j),
        forall|m: int| k <= m < j ==> !#[trigger] closer_at(s, m),
        after ==> s[k] != '/',
    ensures
        strip_run(s, k, CommentMode::Block(after), t) == line_breaks(s.subrange(k, j)) + strip_run(
            s,
            j + 2,
            CommentMode::Code,
            tracker_start(),
        ),
    decreases j - k,
{
    let rest = strip_run(s, j + 2, CommentMode::Code, tracker_start());
    if k == j {
        assert(s.subrange(k, j) =~= Seq::<char>::empty());
        assert(strip_run(s, j + 1, CommentMode::Block(true), t) == line_break_of('/') + rest);
        assert(line_break_of('/') + rest =~= rest);
        assert(line_break_of('*') + rest =~= rest);
    } else {
        let c = s[k];
        assert(!closer_at(s, k));
        lemma_block_to_closer(s, k + 1, j, c == '*', t);
        let lb = line_breaks(s.subrange(k + 1, j));
        assert(s.subrange(k, j).drop_first() =~= s.subrange(k + 1, j));
        assert(s.subrange(k, j)[0] == c);
        if c == '\n' {
            assert(line_break_of(c) + (lb + rest) =~= (seq!['\n'] + lb) + rest);
        } else {
            assert(line_break_of(c) + (lb + rest) =~= lb + rest);
        }
    }
}

/// A block comment ends at the first `*/` after its `/*`, and of its text
/// only the line breaks remain: where the scan stands in code outside any
/// literal at a `/*` at `i`, and the first `*/` after it is at `j`, what is
/// kept is the line breaks of `s[i+2..j]`, then the code after the `*/`,
/// read afresh.
pub proof fn lemma_block_comment_ends_at_first_closer(s: Seq<char>, i: int, j: int, t: StringTracker)
    requires
        0 <= i,
        i + 2 <= j,
        s[i] == '/',
        s[i + 1] == '*',
        closer_at(s, j),
        forall|m: int| i + 2 <= m < j ==> !#[trigger] closer_at(s, m),
        !t.inside(),
    ensures
        strip_run(s, i, CommentMode::Code, t) == line_breaks(s.subrange(i + 2, j)) + strip_run(
            s,
            j + 2,
            CommentMode::Code,
            tracker_start(),
        ),
{
    lemma_block_to_closer(s, i + 2, j, false, t);
}

/// A source that begins with a block comment `/*b*/`, where `b` holds no
/// `*/`, reads as the line breaks of `b` followed by the rest `q` with its
/// own comments removed.
pub proof fn lemma_leading_block_comment(b: Seq<char>, q: Seq<char>)
    requires
        forall|m: int| 0 <= m < b.len() ==> !#[trigger] closer_at(b, m),
    ensures
        stripped(seq!['/', '*'] + b + seq!['*', '/'] + q) == line_breaks(b) + stripped(q),
{
    let head = seq!['/', '*'] + b + seq!['*', '/'];
    let s = head + q;
    let j: int = b.len() as int + 2;
    assert(s[0] == '/');
    assert(s[1] == '*');
    assert(s[j] == '*');
    assert(s[j + 1] == '/');
    assert forall|m: int| 2 <= m < j implies !#[trigger] closer_at(s, m) by {
        assert(s[m] == b[m - 2]);
        if m + 1 < j {
            assert(s[m + 1] == b[m - 1]);
            assert(!closer_at(b, m - 2));
        } else {
            assert(s[m + 1] == '*');
        }
    }
    lemma_block_comment_ends_at_first_closer(s, 0, j, tracker_start());
    assert(s.subrange(2, j) =~= b);
    assert(head.len() == j + 2);
    lemma_strip_run_shift(head, q, 0, CommentMode::Code, tracker_start());
}

/// Removing comments keeps every line break, so each remaining line of
/// code stands on the line where it stood.
pub proof fn lemma_strip_keeps_line_breaks(s: Seq<char>)
    ensures
        count_char(stripped(s), '\n') == count_char(s, '\n'),
{
    lemma_strip_run_newlines(s, 0, CommentMode::Code, tracker_start());
    assert(s.subrange(0, s.len() as int) =~= s);
}

proof fn lemma_no_slash_unchanged(s: Seq<char>, i: int, t: StringTracker)
    requires
        0 <= i <= s.len(),
        forall|k: int| 0 <= k < s.len() ==> s[k] != '/',
    ensures
        strip_run(s, i, CommentMode::Code, t) == s.subrange(i, s.len() as int),
    decreases s.len() - i,
{
    if i == s.len() {
        assert(s.subrange(i, s.len() as int) =~= Seq::<char>::empty());
    } else {
        lemma_no_slash_unchanged(s, i + 1, tracker_step(t, s[i]));
        assert(seq![s[i]] + s.subrange(i + 1, s.len() as int) =~= s.subrange(i, s.len() as int));
    }
}

/// Source without any `/` has no comment, and is left as it is.
pub proof fn lemma_strip_without_slash(s: Seq<char>)
    requires
        forall|k: int| 0 <= k < s.len() ==> s[k] != '/',
    ensures
        stripped(s) == s,
{
    lemma_no_slash_unchanged(s, 0, tracker_start());
    assert(s.subrange(0, s.len() as int) =~= s);
}

/// The comment scan over characters.
pub fn strip_comment_chars(s: &[char]) -> (out: Vec<char>)
    ensures
        out@ == stripped(s@),
{
    let mut out: Vec<char> = Vec::new();
    let mut mode = CommentMode::Code;
    let mut tracker = StringTracker::new();
    let mut i: usize = 0;
    while i < s.len()
        invariant
            i <= s@.len(),
            out@ + strip_run(s@, i as int, mode, tracker) == stripped(s@),
        decreases s.len() - i,
    {
        let c = s[i];
        let ghost rest = strip_run(s@, i as int, mode, tracker);
        match mode {
            CommentMode::Code => {
                if tracker.in_string() {
                    out.push(c);
                    tracker.consume(c);
                    i = i + 1;
                    assert(out@ + strip_run(s@, i as int, mode, tracker) =~= stripped(s@));
                } else if c == '/' && i + 1 < s.len() && s[i + 1] == '/' {
                    mode = CommentMode::Line;
                    i = i + 2;
                } else if c == '/' && i + 1 < s.len() && s[i + 1] == '*' {
                    mode = CommentMode::Block(false);
                    i = i + 2;
                } else {
                    out.push(c);
                    tracker.consume(c);
                    i = i + 1;
                    assert(out@ + strip_run(s@, i as int, mode, tracker) =~= stripped(s@));
                }
            },
            CommentMode::Line => {
                if c == '\n' {
                    out.push('\n');
                    mode = CommentMode::Code;
                    tracker.reset();
                    i = i + 1;
                    assert(out@ + strip_run(s@, i as int, mode, tracker) =~= stripped(s@));
                } else {
                    i = i + 1;
                }
            },
            CommentMode::Block(after_star) => {
                let ghost before = out@;
                if c == '\n' {
                    out.push('\n');
                }
                assert(out@ == before + (if c == '\n' {
                    seq!['\n']
                } else {
                    Seq::<char>::empty()
                })) by {
                    if c != '\n' {
                        assert(before + Seq::<char>::empty() =~= before);
                    }
                }
                if after_star && c == '/' {
                    mode = CommentMode::Code;
                    tracker.reset();
                } else {
                    mode = CommentMode::Block(c == '*');
                }
                i = i + 1;
                assert(out@ + strip_run(s@, i as int, mode, tracker) =~= stripped(s@));
            },
        }
    }
    assert(out@ =~= stripped(s@));
    out
}

/// `source` without its comments (see `stripped`).
pub fn strip_comments(source: &str) -> (r: String)
    ensures
        r@ == stripped(source@),
{
    let chars = chars_of(source);
    let out = strip_comment_chars(&chars);
    string_of(&out)
}

} // verus!
