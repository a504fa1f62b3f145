//! The two state machines that the scanners carry along: `StringTracker`
//! knows whether the scan stands inside a quoted literal, and
//! `BracketTracker` adds the nesting depth of brackets outside literals.

use vstd::prelude::*;

verus! {

/// Whether the scan stands inside a `'...'` or `"..."` literal, and whether
/// the previous character inside it was an escaping backslash.
#[derive(Clone, Copy, Debug, PartialEq, Eq, Structural)]
pub struct StringTracker {
    pub in_single_quote: bool,
    pub in_double_quote: bool,
    pub escape: bool,
}

/// The state outside any literal.
pub open spec fn tracker_start() -> StringTracker {
    StringTracker { in_single_quote: false, in_double_quote: false, escape: false }
}

/// The state after one more character `ch`.
pub open spec fn tracker_step(t: StringTracker, ch: char) -> StringTracker {
    if t.in_single_quote {
        if t.escape {
            StringTracker { escape: false, ..t }
        } else if ch == '\\' {
            StringTracker { escape: true, ..t }
        } else if ch == '\'' {
            StringTracker { in_single_quote: false, ..t }
        } else {
            t
        }
    } else if t.in_double_quote {
        if t.escape {
            StringTracker { escape: false, ..t }
        } else if ch == '\\' {
            StringTracker { escape: true, ..t }
        } else if ch == '"' {
            StringTracker { in_double_quote: false, ..t }
        } else {
            t
        }
    } else if ch == '\'' {
        StringTracker { in_single_quote: true, escape: false, ..t }
    } else if ch == '"' {
        StringTracker { in_double_quote: true, escape: false, ..t }
    } else {
        StringTracker { escape: false, ..t }
    }
}

/// The state after the characters `s`, from `t`.
pub open spec fn tracker_run(t: StringTracker, s: Seq<char>) -> StringTracker
    decreases s.len(),
{
    if s.len() == 0 {
        t
    } else {
        tracker_step(tracker_run(t, s.drop_last()), s.last())
    }
}

impl StringTracker {
    /// Inside a literal of either kind.
    pub open spec fn inside(self) -> bool {
        self.in_single_quote || self.in_double_quote
    }

    /// The states that a scan from `tracker_start()` can reach: never
    /// inside both kinds of literal, and escaping only inside one.
    pub open spec fn wf(self) -> bool {
        &&& !(self.in_single_quote && self.in_double_quote)
        &&& self.escape ==> self.inside()
    }

    /// A tracker outside any literal.
    pub fn new() -> (t: Self)
        ensures
            t == tracker_start(),
    {
        StringTracker { in_single_quote: false, in_double_quote: false, escape: false }
    }

    /// Moves the tracker past `ch`.
    pub fn consume(&mut self, ch: char)
        ensures
            *final(self) == tracker_step(*old(self), ch),
    {
        if self.in_single_quote {
            if self.escape {
                self.escape = false;
            } else {
                if ch == '\\' {
                    self.escape = true;
                } else if ch == '\'' {
                    self.in_single_quote = false;
                }
            }
            return ;
        }
        if self.in_double_quote {
            if self.escape {
                self.escape = false;
            } else {
                if ch == '\\' {
                    self.escape = true;
                } else if ch == '"' {
                    self.in_double_quote = false;
                }
            }
            return ;
        }
        if ch == '\'' {
            self.in_single_quote = true;
            self.escape = false;
        } else if ch == '"' {
            self.in_double_quote = true;
            self.escape = false;
        } else {
            self.escape = false;
        }
    }

    /// Whether the tracker stands inside a literal.
    pub fn in_string(&self) -> (b: bool)
        ensures
            b == self.inside(),
    {
        self.in_single_quote || self.in_double_quote
    }

    /// Moves the tracker outside any literal.
    pub fn reset(&mut self)
        ensures
            *final(self) == tracker_start(),
    {
        self.in_single_quote = false;
        self.in_double_quote = false;
        self.escape = false;
    }
}

impl Default for StringTracker {
    fn default() -> (t: Self)
        ensures
            t == tracker_start(),
    {
        StringTracker::new()
    }
}

/// Every step keeps a reachable state reachable: a scan never stands in
/// both kinds of literal, and a backslash escapes only inside a literal.
pub proof fn lemma_step_keeps_wf(t: StringTracker, ch: char)
    requires
        t.wf(),
    ensures
        tracker_step(t, ch).wf(),
{
}

/// Any run of characters from the start state reaches a well-formed state.
pub proof fn lemma_run_wf(s: Seq<char>)
    ensures
        tracker_run(tracker_start(), s).wf(),
    decreases s.len(),
{
    if s.len() > 0 {
        lemma_run_wf(s.drop_last());
    }
}

/// Outside a literal, a character other than a quote leaves the scan outside.
pub proof fn lemma_plain_char_stays_outside(t: StringTracker, ch: char)
    requires
        !t.inside(),
        ch != '\'',
        ch != '"',
    ensures
        tracker_step(t, ch) == tracker_start(),
{
}

/// A quote opens a literal of its kind, and the same quote, unescaped,
/// closes it again.
pub proof fn lemma_quote_opens_and_closes(t: StringTracker, q: char)
    requires
        !t.inside(),
        q == '\'' || q == '"',
    ensures
        tracker_step(t, q).inside(),
        tracker_step(tracker_step(t, q), q) == tracker_start(),
{
}

/// Depths of the three kinds of bracket outside literals, and the literal
/// state beside them.
#[derive(Clone, Copy, Debug, PartialEq, Eq, Structural)]
pub struct BracketTracker {
    pub paren_depth: usize,
    pub bracket_depth: usize,
    pub brace_depth: usize,
    pub string_tracker: StringTracker,
}

/// The nesting state before any character.
pub open spec fn bracket_start() -> BracketTracker {
    BracketTracker {
        paren_depth: 0,
        bracket_depth: 0,
        brace_depth: 0,
        string_tracker: tracker_start(),
    }
}

/// `d - 1`, or 0 where `d` is 0.
pub open spec fn dec(d: usize) -> usize {
    if d == 0 {
        0
    } else {
        (d - 1) as usize
    }
}

/// The nesting state after one more character `ch`. Depths grow without
/// bound in this model; `BracketTracker::consume` asks for room.
pub open spec fn bracket_step(b: BracketTracker, ch: char) -> BracketTracker {
    let st = tracker_step(b.string_tracker, ch);
    let b1 = BracketTracker { string_tracker: st, ..b };
    if b.string_tracker.inside() || st.inside() {
        b1
    } else if ch == '(' {
        BracketTracker { paren_depth: (b.paren_depth + 1) as usize, ..b1 }
    } else if ch == ')' {
        BracketTracker { paren_depth: dec(b.paren_depth), ..b1 }
    } else if ch == '[' {
        BracketTracker { bracket_depth: (b.bracket_depth + 1) as usize, ..b1 }
    } else if ch == ']' {
        BracketTracker { bracket_depth: dec(b.bracket_depth), ..b1 }
    } else if ch == '{' {
        BracketTracker { brace_depth: (b.brace_depth + 1) as usize, ..b1 }
    } else if ch == '}' {
        BracketTracker { brace_depth: dec(b.brace_depth), ..b1 }
    } else {
        b1
    }
}

/// A comma splits a parameter list where it stands outside literals and
/// outside every bracket.
pub open spec fn splits_on(b: BracketTracker, ch: char) -> bool {
    ch == ',' && !b.string_tracker.inside() && b.paren_depth == 0 && b.bracket_depth == 0
        && b.brace_depth == 0
}

impl BracketTracker {
    /// Every depth is at most `n`.
    pub open spec fn depths_at_most(self, n: int) -> bool {
        self.paren_depth <= n && self.bracket_depth <= n && self.brace_depth <= n
    }

    /// A tracker before any character.
    pub fn new() -> (b: Self)
        ensures
            b == bracket_start(),
    {
        BracketTracker {
            paren_depth: 0,
            bracket_depth: 0,
            brace_depth: 0,
            string_tracker: StringTracker::new(),
        }
    }

    /// Moves the tracker past `ch`.
    pub fn consume(&mut self, ch: char)
        requires
            old(self).depths_at_most(usize::MAX - 1),
        ensures
            *final(self) == bracket_step(*old(self), ch),
    {
        let was_in_string = self.string_tracker.in_string();
        self.string_tracker.consume(ch);
        if was_in_string || self.string_tracker.in_string() {
            return ;
        }
        if ch == '(' {
            self.paren_depth = self.paren_depth + 1;
        } else if ch == ')' {
            self.paren_depth = self.paren_depth.saturating_sub(1);
        } else if ch == '[' {
            self.bracket_depth = self.bracket_depth + 1;
        } else if ch == ']' {
            self.bracket_depth = self.bracket_depth.saturating_sub(1);
        } else if ch == '{' {
            self.brace_depth = self.brace_depth + 1;
        } else if ch == '}' {
            self.brace_depth = self.brace_depth.saturating_sub(1);
        }
    }

    /// Whether a comma `ch` here separates two parameters.
    pub fn should_split_on_comma(&self, ch: char) -> (b: bool)
        ensures
            b == splits_on(*self, ch),
    {
        if ch == ',' && !self.string_tracker.in_string() && self.paren_depth == 0
            && self.bracket_depth == 0 && self.brace_depth == 0 {
            return true;
        }
        false
    }
}

impl Default for BracketTracker {
    fn default() -> (b: Self)
        ensures
            b == bracket_start(),
    {
        BracketTracker::new()
    }
}

/// One step raises a depth by at most one.
pub proof fn lemma_bracket_step_bound(b: BracketTracker, ch: char, n: int)
    requires
        b.depths_at_most(n),
        n + 1 <= usize::MAX,
    ensures
        bracket_step(b, ch).depths_at_most(n + 1),
{
}

} // verus!
