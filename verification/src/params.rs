//! Constructor parameter lists: finding the constructor in a contract
//! body, splitting its parameter list at top-level commas, and picking
//! the name out of each parameter.

use vstd::prelude::*;
use crate::text::{
    is_ws, is_ident, trim, trim_start, trim_end, has_ws, views, lower, chars_of, string_of,
    lemma_trim_idempotent,
    string_of_range, trim_bounds, is_whitespace, is_identifier_char, to_ascii_lower, same_chars,
    copy_range,
};
use crate::tracker::{
    BracketTracker, StringTracker, bracket_step, bracket_start, splits_on, tracker_step,
    tracker_start, lemma_bracket_step_bound,
};
use crate::scan::{
    occurs_at, next_index_of, matching_delimiter, starts_with_at, find_next_char,
    find_matching_paren, is_identifier_char_before, is_identifier_char_after, lemma_next_index_bounds,
    lemma_matching_bounds,
};

verus! {

/// One constructor parameter: its text, and the name found in it.
#[derive(Clone, Debug)]
pub struct ConstructorParam {
    pub raw: String,
    pub name: Option<String>,
}

/// A constructor parameter as plain character sequences.
pub struct ParamView {
    pub raw: Seq<char>,
    pub name: Option<Seq<char>>,
}

/// The character sequence in an optional string.
pub open spec fn opt_view(o: Option<String>) -> Option<Seq<char>> {
    match o {
        Some(s) => Some(s@),
        None => None,
    }
}

impl View for ConstructorParam {
    type V = ParamView;

    open spec fn view(&self) -> ParamView {
        ParamView { raw: self.raw@, name: opt_view(self.name) }
    }
}

/// The views of a sequence of parameters.
pub open spec fn param_views(v: Seq<ConstructorParam>) -> Seq<ParamView> {
    v.map_values(|p: ConstructorParam| p@)
}

/// `p` as one piece, or no piece where it is empty.
pub open spec fn piece(p: Seq<char>) -> Seq<Seq<char>> {
    if p.len() == 0 {
        Seq::empty()
    } else {
        seq![p]
    }
}

/// The trimmed, non-empty pieces of `s[start..]` scanned from `pos` with
/// nesting state `b`; a piece ends at a comma outside literals and brackets.
pub open spec fn split_run(s: Seq<char>, pos: int, start: int, b: BracketTracker) -> Seq<Seq<char>>
    decreases s.len() - pos,
{
    if pos < 0 || pos >= s.len() {
        piece(trim(s.subrange(start, s.len() as int)))
    } else if splits_on(b, s[pos]) {
        piece(trim(s.subrange(start, pos))) + split_run(s, pos + 1, pos + 1, bracket_step(b, s[pos]))
    } else {
        split_run(s, pos + 1, start, bracket_step(b, s[pos]))
    }
}

/// The parameters of the list `s`, split at its top-level commas.
pub open spec fn split_params(s: Seq<char>) -> Seq<Seq<char>> {
    split_run(s, 0, 0, bracket_start())
}

/// Where the run of identifier characters that ends at `i` begins.
pub open spec fn run_start(t: Seq<char>, i: int) -> int
    decreases i,
{
    if 0 < i <= t.len() && is_ident(t[i - 1]) {
        run_start(t, i - 1)
    } else {
        i
    }
}

/// The identifier run that ends at `i` starts at or before `i`, holds only
/// identifier characters, and cannot be extended to the left.
pub proof fn lemma_run_start(t: Seq<char>, i: int)
    requires
        0 <= i <= t.len(),
    ensures
        0 <= run_start(t, i) <= i,
        i > 0 && is_ident(t[i - 1]) ==> run_start(t, i) < i,
        forall|j: int| run_start(t, i) <= j < i ==> is_ident(#[trigger] t[j]),
        run_start(t, i) == 0 || !is_ident(t[run_start(t, i) - 1]),
    decreases i,
{
    if i > 0 && is_ident(t[i - 1]) {
        lemma_run_start(t, i - 1);
    }
}

/// The seven words that may end a parameter after its name
/// (data locations and modifiers), compared in ASCII lower case.
pub open spec fn reserved(w: Seq<char>) -> bool {
    let l = w.map_values(|c: char| lower(c));
    ||| l == "memory"@
    ||| l == "calldata"@
    ||| l == "storage"@
    ||| l == "payable"@
    ||| l == "indexed"@
    ||| l == "virtual"@
    ||| l == "override"@
}

/// Scanning `t[..i]` from the right: the last run of identifier
/// characters that is not a reserved word.
pub open spec fn name_from_right(t: Seq<char>, i: int) -> Option<Seq<char>>
    decreases i,
{
    if i <= 0 || i > t.len() {
        None
    } else if !is_ident(t[i - 1]) {
        name_from_right(t, i - 1)
    } else {
        let k = run_start(t, i);
        proof {
            lemma_run_start(t, i);
        }
        if reserved(t.subrange(k, i)) {
            name_from_right(t, k)
        } else {
            Some(t.subrange(k, i))
        }
    }
}

/// The name of the parameter `p`: none where `p`, trimmed, is empty or a
/// single word; else the last identifier in it that is not a reserved word.
pub open spec fn param_name(p: Seq<char>) -> Option<Seq<char>> {
    let t = trim(p);
    if t.len() == 0 || !has_ws(t) {
        None
    } else {
        name_from_right(t, t.len() as int)
    }
}

/// Where the parameter list of the constructor in `s` lies, scanning from
/// `pos` with literal state `t`: the first `constructor` keyword outside
/// literals, standing as a word, with a `(` after it that is matched by a `)`.
pub open spec fn ctor_list(s: Seq<char>, pos: int, t: StringTracker) -> Option<(int, int)>
    decreases s.len() - pos,
{
    if pos < 0 || pos >= s.len() {
        None
    } else {
        let after = pos + 11;
        let found: Option<(int, int)> = if !t.inside() && occurs_at(s, pos, "constructor"@) && !(
        pos > 0 && is_ident(s[pos - 1])) && !(after < s.len() && is_ident(s[after])) {
            match next_index_of(s, after, '(') {
                Some(open) => match matching_delimiter(s, open, '(', ')') {
                    Some(close) => Some((open + 1, close)),
                    None => None,
                },
                None => None,
            }
        } else {
            None
        };
        match found {
            Some(r) => Some(r),
            None => ctor_list(s, pos + 1, tracker_step(t, s[pos])),
        }
    }
}

/// A parameter with the name found in it.
pub open spec fn param_of(raw: Seq<char>) -> ParamView {
    ParamView { raw, name: param_name(raw) }
}

/// The constructor parameters declared in the contract body `s`.
pub open spec fn ctor_params(s: Seq<char>) -> Seq<ParamView> {
    match ctor_list(s, 0, tracker_start()) {
        Some((a, b)) => split_params(s.subrange(a, b)).map_values(|raw: Seq<char>| param_of(raw)),
        None => Seq::empty(),
    }
}

/// A piece of a parameter list: not empty, and trimmed.
pub open spec fn is_trimmed_piece(p: Seq<char>) -> bool {
    p.len() > 0 && trim(p) == p
}

proof fn lemma_piece_trimmed(x: Seq<char>)
    ensures
        forall|i: int| 0 <= i < piece(trim(x)).len() ==> is_trimmed_piece(#[trigger] piece(trim(x))[i]),
{
    lemma_trim_idempotent(x);
}

proof fn lemma_split_run_trimmed(s: Seq<char>, pos: int, start: int, b: BracketTracker)
    ensures
        forall|i: int|
            0 <= i < split_run(s, pos, start, b).len() ==> is_trimmed_piece(
                #[trigger] split_run(s, pos, start, b)[i],
            ),
    decreases s.len() - pos,
{
    if pos < 0 || pos >= s.len() {
        lemma_piece_trimmed(s.subrange(start, s.len() as int));
    } else if splits_on(b, s[pos]) {
        let head = piece(trim(s.subrange(start, pos)));
        let rest = split_run(s, pos + 1, pos + 1, bracket_step(b, s[pos]));
        lemma_piece_trimmed(s.subrange(start, pos));
        lemma_split_run_trimmed(s, pos + 1, pos + 1, bracket_step(b, s[pos]));
        assert(split_run(s, pos, start, b) == head + rest);
        assert forall|i: int| 0 <= i < (head + rest).len() implies is_trimmed_piece(
            #[trigger] (head + rest)[i],
        ) by {
            if i >= head.len() {
                assert((head + rest)[i] == rest[i - head.len()]);
            }
        }
    } else {
        lemma_split_run_trimmed(s, pos + 1, start, bracket_step(b, s[pos]));
        assert(split_run(s, pos, start, b) == split_run(s, pos + 1, start, bracket_step(b, s[pos])));
    }
}

/// Every parameter that splitting gives is non-empty and has no white
/// space at either end.
pub proof fn lemma_split_pieces_trimmed(s: Seq<char>)
    ensures
        forall|i: int| 0 <= i < split_params(s).len() ==> is_trimmed_piece(#[trigger] split_params(s)[i]),
{
    lemma_split_run_trimmed(s, 0, 0, bracket_start());
}

/// A character that opens or closes a bracket or a literal.
pub open spec fn is_nesting_char(c: char) -> bool {
    c == '(' || c == ')' || c == '[' || c == ']' || c == '{' || c == '}' || c == '\'' || c == '"'
}

/// The trimmed, non-empty fields of `s[start..]` between plain commas,
/// scanned from `pos`.
pub open spec fn comma_split(s: Seq<char>, pos: int, start: int) -> Seq<Seq<char>>
    decreases s.len() - pos,
{
    if pos < 0 || pos >= s.len() {
        piece(trim(s.subrange(start, s.len() as int)))
    } else if s[pos] == ',' {
        piece(trim(s.subrange(start, pos))) + comma_split(s, pos + 1, pos + 1)
    } else {
        comma_split(s, pos + 1, start)
    }
}

proof fn lemma_split_run_plain(s: Seq<char>, pos: int, start: int)
    requires
        forall|k: int| 0 <= k < s.len() ==> !is_nesting_char(#[trigger] s[k]),
    ensures
        split_run(s, pos, start, bracket_start()) == comma_split(s, pos, start),
    decreases s.len() - pos,
{
    if 0 <= pos < s.len() {
        let c = s[pos];
        assert(!is_nesting_char(c));
        assert(bracket_step(bracket_start(), c) == bracket_start());
        lemma_split_run_plain(s, pos + 1, pos + 1);
        lemma_split_run_plain(s, pos + 1, start);
    }
}

/// On text without brackets, braces, parentheses or quotes, splitting a
/// parameter list is the plain split at every comma, each field trimmed
/// and the empty ones dropped.
pub proof fn lemma_split_plain_commas(s: Seq<char>)
    requires
        forall|k: int| 0 <= k < s.len() ==> !is_nesting_char(#[trigger] s[k]),
    ensures
        split_params(s) == comma_split(s, 0, 0),
{
    lemma_split_run_plain(s, 0, 0);
}

/// A non-empty run of identifier characters that is not a reserved word.
pub open spec fn is_param_identifier(n: Seq<char>) -> bool {
    &&& n.len() > 0
    &&& forall|k: int| 0 <= k < n.len() ==> is_ident(#[trigger] n[k])
    &&& !reserved(n)
}

proof fn lemma_name_from_right(t: Seq<char>, i: int)
    ensures
        name_from_right(t, i) matches Some(n) ==> is_param_identifier(n),
    decreases i,
{
    if 0 < i <= t.len() {
        if !is_ident(t[i - 1]) {
            lemma_name_from_right(t, i - 1);
        } else {
            let k = run_start(t, i);
            lemma_run_start(t, i);
            if reserved(t.subrange(k, i)) {
                lemma_name_from_right(t, k);
            } else {
                let n = t.subrange(k, i);
                assert forall|j: int| 0 <= j < n.len() implies is_ident(#[trigger] n[j]) by {
                    assert(n[j] == t[k + j]);
                }
            }
        }
    }
}

/// The name found in a parameter is always an identifier, and never one
/// of the reserved words (data locations and modifiers).
pub proof fn lemma_param_name_is_identifier(p: Seq<char>)
    ensures
        param_name(p) matches Some(n) ==> is_param_identifier(n),
{
    let t = trim(p);
    lemma_name_from_right(t, t.len() as int);
}

/// `t[k..e]` is a maximal run of identifier characters: not empty, and
/// neither neighbour is an identifier character.
pub open spec fn maximal_run(t: Seq<char>, k: int, e: int) -> bool {
    &&& 0 <= k < e <= t.len()
    &&& forall|j: int| k <= j < e ==> is_ident(#[trigger] t[j])
    &&& (k == 0 || !is_ident(t[k - 1]))
    &&& (e == t.len() || !is_ident(t[e]))
}

proof fn lemma_name_from_right_runs(t: Seq<char>, i: int)
    requires
        0 <= i <= t.len(),
        i == 0 || i == t.len() || !is_ident(t[i]) || !is_ident(t[i - 1]),
    ensures
        name_from_right(t, i) matches Some(w) ==> exists|k: int, e: int|
            #![trigger maximal_run(t, k, e)]
            {
                &&& e <= i
                &&& maximal_run(t, k, e)
                &&& w == t.subrange(k, e)
                &&& !reserved(w)
                &&& forall|k2: int, e2: int|
                    maximal_run(t, k2, e2) && e < e2 <= i ==> reserved(t.subrange(k2, e2))
            },
        name_from_right(t, i) is None ==> forall|k2: int, e2: int|
            maximal_run(t, k2, e2) && e2 <= i ==> reserved(t.subrange(k2, e2)),
    decreases i,
{
    if i > 0 {
        if !is_ident(t[i - 1]) {
            lemma_name_from_right_runs(t, i - 1);
            assert forall|k2: int, e2: int| maximal_run(t, k2, e2) && e2 <= i implies e2 <= i - 1 by {
                if e2 == i {
                    assert(is_ident(t[e2 - 1]));
                }
            }
        } else {
            let k = run_start(t, i);
            lemma_run_start(t, i);
            assert(maximal_run(t, k, i));
            assert forall|k2: int, e2: int| maximal_run(t, k2, e2) && k < e2 <= i implies k2 == k
                && e2 == i by {
                if e2 < i {
                    assert(is_ident(t[e2]));
                }
                if k2 < k {
                    assert(is_ident(t[k - 1]));
                }
                if k2 > k {
                    assert(is_ident(t[k2 - 1]));
                }
            }
            if reserved(t.subrange(k, i)) {
                lemma_name_from_right_runs(t, k);
            }
        }
    }
}

/// The name of a parameter is its last run of identifier characters that
/// is not a reserved word: every later run is reserved, and where no name
/// is found (for a parameter of two words or more) every run is reserved.
pub proof fn lemma_param_name_rightmost(p: Seq<char>)
    ensures
        ({
            let t = trim(p);
            &&& (t.len() == 0 || !has_ws(t)) ==> param_name(p) is None
            &&& param_name(p) matches Some(w) ==> exists|k: int, e: int|
                #![trigger maximal_run(t, k, e)]
                {
                    &&& maximal_run(t, k, e)
                    &&& w == t.subrange(k, e)
                    &&& !reserved(w)
                    &&& forall|k2: int, e2: int| maximal_run(t, k2, e2) && e < e2 ==> reserved(
                        t.subrange(k2, e2),
                    )
                }
            &&& (t.len() > 0 && has_ws(t) && param_name(p) is None) ==> forall|k2: int, e2: int|
                maximal_run(t, k2, e2) ==> reserved(t.subrange(k2, e2))
        }),
{
    let t = trim(p);
    lemma_name_from_right_runs(t, t.len() as int);
}

proof fn lemma_ctor_list_bounds(s: Seq<char>, pos: int, t: StringTracker)
    ensures
        ctor_list(s, pos, t) matches Some((a, b)) ==> 0 <= a <= b <= s.len(),
    decreases s.len() - pos,
{
    if 0 <= pos < s.len() {
        let after = pos + 11;
        lemma_next_index_bounds(s, after, '(');
        if let Some(open) = next_index_of(s, after, '(') {
            lemma_matching_bounds(s, open, '(', ')');
        }
        lemma_ctor_list_bounds(s, pos + 1, tracker_step(t, s[pos]));
    }
}

/// Every piece of the constructor's parameter list is a parameter, in
/// order and none left out: where the list stands at `s[a..b]`, there are
/// as many parameters as pieces, the `i`-th written as the `i`-th piece and
/// named from it; where there is no constructor list, there are none.
pub proof fn lemma_params_are_the_list_pieces(s: Seq<char>)
    ensures
        ctor_list(s, 0, tracker_start()) matches Some((a, b)) ==> {
            let pieces = split_params(s.subrange(a, b));
            &&& ctor_params(s).len() == pieces.len()
            &&& forall|i: int|
                0 <= i < pieces.len() ==> (#[trigger] ctor_params(s)[i]).raw == pieces[i]
                    && ctor_params(s)[i].name == param_name(pieces[i])
        },
        ctor_list(s, 0, tracker_start()) is None ==> ctor_params(s).len() == 0,
{
}

/// On a parameter list without brackets or quotes, each comma starts a new
/// parameter: the parameters are the trimmed, non-empty comma fields.
pub proof fn lemma_plain_list_params(s: Seq<char>)
    requires
        ctor_list(s, 0, tracker_start()) matches Some((a, b)) && forall|k: int|
            a <= k < b ==> !is_nesting_char(#[trigger] s[k]),
    ensures
        ctor_list(s, 0, tracker_start()) matches Some((a, b)) && ctor_params(s).map_values(
            |p: ParamView| p.raw,
        ) == comma_split(s.subrange(a, b), 0, 0),
{
    let (a, b) = ctor_list(s, 0, tracker_start())->Some_0;
    lemma_ctor_list_bounds(s, 0, tracker_start());
    let list = s.subrange(a, b);
    assert forall|k: int| 0 <= k < list.len() implies !is_nesting_char(#[trigger] list[k]) by {
        assert(list[k] == s[a + k]);
    }
    lemma_split_plain_commas(list);
    assert(ctor_params(s).map_values(|p: ParamView| p.raw) =~= split_params(list));
}

/// The pieces of `input`, as character sequences.
pub fn split_parameter_chars(input: &[char]) -> (parts: Vec<String>)
    ensures
        views(parts@) == split_params(input@),
{
    let mut parts: Vec<String> = Vec::new();
    let mut start: usize = 0;
    let mut pos: usize = 0;
    let mut tracker = BracketTracker::new();
    while pos < input.len()
        invariant
            start <= pos <= input@.len(),
            tracker.depths_at_most(pos as int),
            views(parts@) + split_run(input@, pos as int, start as int, tracker) == split_params(
                input@,
            ),
        decreases input.len() - pos,
    {
        let ch = input[pos];
        proof {
            lemma_bracket_step_bound(tracker, ch, pos as int);
        }
        if tracker.should_split_on_comma(ch) {
            let (a, b) = trim_bounds(input, start, pos);
            let ghost before = views(parts@);
            if a < b {
                let fragment = string_of_range(input, a, b);
                parts.push(fragment);
                assert(views(parts@) =~= before + piece(trim(input@.subrange(start as int, pos as int))));
            } else {
                assert(views(parts@) =~= before + piece(trim(input@.subrange(start as int, pos as int))));
            }
            start = pos + 1;
            tracker.consume(ch);
            pos = pos + 1;
        } else {
            tracker.consume(ch);
            pos = pos + 1;
        }
    }
    let ghost before = views(parts@);
    let (a, b) = trim_bounds(input, start, input.len());
    if a < b {
        let tail = string_of_range(input, a, b);
        parts.push(tail);
    }
    assert(views(parts@) =~= before + piece(trim(input@.subrange(start as int, input@.len() as int))));
    parts
}

/// Splits a parameter list at its top-level commas (outside literals and
/// brackets), trimming each piece and dropping empty ones.
pub fn split_parameters(input: &str) -> (parts: Vec<String>)
    ensures
        views(parts@) == split_params(input@),
{
    let chars = chars_of(input);
    split_parameter_chars(&chars)
}

/// Whether `w` is one of the reserved words, in any ASCII case.
pub fn is_reserved_chars(w: &[char]) -> (b: bool)
    ensures
        b == reserved(w@),
{
    let mut l: Vec<char> = Vec::new();
    let mut i: usize = 0;
    while i < w.len()
        invariant
            0 <= i <= w@.len(),
            l@ == w@.subrange(0, i as int).map_values(|c: char| lower(c)),
        decreases w.len() - i,
    {
        l.push(to_ascii_lower(w[i]));
        assert(w@.subrange(0, i + 1).map_values(|c: char| lower(c)) =~= w@.subrange(
            0,
            i as int,
        ).map_values(|c: char| lower(c)).push(lower(w@[i as int])));
        i = i + 1;
    }
    assert(w@.subrange(0, w@.len() as int) =~= w@);
    same_chars(&l, &chars_of("memory")) || same_chars(&l, &chars_of("calldata")) || same_chars(
        &l,
        &chars_of("storage"),
    ) || same_chars(&l, &chars_of("payable")) || same_chars(&l, &chars_of("indexed"))
        || same_chars(&l, &chars_of("virtual")) || same_chars(&l, &chars_of("override"))
}

/// Whether `name` is a data location or modifier word, in any ASCII case.
pub fn is_reserved_suffix(name: &str) -> (b: bool)
    ensures
        b == reserved(name@),
{
    let chars = chars_of(name);
    is_reserved_chars(&chars)
}

/// The name in the parameter `param` (see `param_name`).
pub fn extract_param_name(param: &str) -> (r: Option<String>)
    ensures
        opt_view(r) == param_name(param@),
{
    let chars = chars_of(param);
    let (a, b) = trim_bounds(&chars, 0, chars.len());
    let t = copy_range(&chars, a, b);
    proof {
        assert(chars@.subrange(0, chars@.len() as int) =~= chars@);
    }
    if t.len() == 0 {
        return None;
    }
    let mut has_space = false;
    let mut j: usize = 0;
    while j < t.len()
        invariant
            0 <= j <= t@.len(),
            has_space == exists|k: int| 0 <= k < j && is_ws(#[trigger] t@[k]),
        decreases t.len() - j,
    {
        if is_whitespace(t[j]) {
            has_space = true;
        }
        j = j + 1;
    }
    if !has_space {
        return None;
    }
    assert(t@ == trim(param@));
    assert(has_ws(t@));
    let mut i = t.len();
    while i > 0
        invariant
            i <= t@.len(),
            param_name(param@) == name_from_right(t@, t@.len() as int),
            name_from_right(t@, t@.len() as int) == name_from_right(t@, i as int),
        decreases i,
    {
        if !is_identifier_char(t[i - 1]) {
            i = i - 1;
        } else {
            let mut k = i;
            while k > 0 && is_identifier_char(t[k - 1])
                invariant
                    k <= i <= t@.len(),
                    run_start(t@, i as int) == run_start(t@, k as int),
                decreases k,
            {
                k = k - 1;
            }
            proof {
                lemma_run_start(t@, i as int);
            }
            let word = copy_range(&t, k, i);
            if is_reserved_chars(&word) {
                i = k;
            } else {
                return Some(string_of(&word));
            }
        }
    }
    None
}

/// The constructor parameters declared in the contract body `body`.
pub fn parse_constructor_param_chars(body: &[char]) -> (params: Vec<ConstructorParam>)
    ensures
        param_views(params@) == ctor_params(body@),
{
    let keyword = chars_of("constructor");
    proof {
        reveal_strlit("constructor");
    }
    let mut pos: usize = 0;
    let mut tracker = StringTracker::new();
    while pos < body.len()
        invariant
            pos <= body@.len(),
            keyword@ == "constructor"@,
            keyword@.len() == 11,
            ctor_list(body@, 0, tracker_start()) == ctor_list(body@, pos as int, tracker),
        decreases body.len() - pos,
    {
        let ch = body[pos];
        if !tracker.in_string() && starts_with_at(body, pos, &keyword) {
            let after = pos + 11;
            if !is_identifier_char_before(body, pos) && !is_identifier_char_after(body, after) {
                if let Some(open_paren) = find_next_char(body, after, '(') {
                    if let Some(close_paren) = find_matching_paren(body, open_paren) {
                        proof {
                            lemma_next_index_bounds(body@, after as int, '(');
                            lemma_matching_bounds(body@, open_paren as int, '(', ')');
                        }
                        let params_text = copy_range(body, open_paren + 1, close_paren);
                        let raws = split_parameter_chars(&params_text);
                        let mut params: Vec<ConstructorParam> = Vec::new();
                        let mut i: usize = 0;
                        while i < raws.len()
                            invariant
                                0 <= i <= raws@.len(),
                                param_views(params@) == views(raws@).subrange(0, i as int).map_values(
                                    |raw: Seq<char>| param_of(raw),
                                ),
                            decreases raws.len() - i,
                        {
                            let raw = raws[i].clone();
                            let name = extract_param_name(raw.as_str());
                            assert(param_views(params@).len() == i);
                            assert(params@.len() == i);
                            assert(raw == raws@[i as int]);
                            assert(opt_view(name) == param_name(raws@[i as int]@));
                            let ghost prev = params@;
                            params.push(ConstructorParam { raw, name });
                            assert(params@[i as int]@ == param_of(raws@[i as int]@));
                            assert(views(raws@)[i as int] == raws@[i as int]@);
                            assert(param_views(params@) =~= param_views(prev).push(
                                param_of(views(raws@)[i as int]),
                            ));
                            assert(views(raws@).subrange(0, i + 1).map_values(
                                |raw: Seq<char>| param_of(raw),
                            ) =~= views(raws@).subrange(0, i as int).map_values(
                                |raw: Seq<char>| param_of(raw),
                            ).push(param_of(views(raws@)[i as int])));
                            assert(param_views(params@) =~= views(raws@).subrange(0, i + 1).map_values(
                                |raw: Seq<char>| param_of(raw),
                            ));
                            i = i + 1;
                        }
                        assert(views(raws@).subrange(0, raws@.len() as int) =~= views(raws@));
                        return params;
                    }
                }
            }
        }
        tracker.consume(ch);
        pos = pos + 1;
    }
    Vec::new()
}

/// The constructor parameters declared in the contract body `body`: the
/// list after the first `constructor` keyword outside literals, split at
/// top-level commas, each with the name found in it; none where the body
/// has no such constructor.
pub fn parse_constructor_params(body: &str) -> (params: Vec<ConstructorParam>)
    ensures
        param_views(params@) == ctor_params(body@),
{
    let chars = chars_of(body);
    parse_constructor_param_chars(&chars)
}

} // verus!
