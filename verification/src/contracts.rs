//! Discovery of deployable contracts in Solidity source: the string-walking
//! parser, the parser backends, and the metadata kept per contract.

use vstd::prelude::*;
use crate::text::{
    is_ident, is_ws, trim, join, views, chars_of, string_of_range, copy_range, append_str,
    join_strings, trim_bounds,
};
use crate::tracker::{StringTracker, tracker_step, tracker_start};
use crate::scan::{
    occurs_at, next_index_of, matching_delimiter, skip_ws, ident_end, ident_boundary,
    abstract_before, starts_with_at, is_identifier_boundary, is_abstract_contract,
    skip_whitespace, identifier_end, find_next_char, find_matching_brace, lemma_next_index_bounds,
    lemma_matching_bounds, lemma_skip_ws_facts,
};
use crate::comments::{stripped, strip_comment_chars};
use crate::params::{
    ConstructorParam, ParamView, param_views, ctor_params, parse_constructor_param_chars,
};

verus! {

/// A contract found in source: its name and its constructor parameters.
#[derive(Clone, Debug)]
pub struct ParsedContract {
    pub name: String,
    pub constructor_params: Vec<ConstructorParam>,
}

/// A found contract as plain values.
pub struct ContractView {
    pub name: Seq<char>,
    pub params: Seq<ParamView>,
}

impl View for ParsedContract {
    type V = ContractView;

    open spec fn view(&self) -> ContractView {
        ContractView { name: self.name@, params: param_views(self.constructor_params@) }
    }
}

/// The views of a sequence of found contracts.
pub open spec fn contract_views(v: Seq<ParsedContract>) -> Seq<ContractView> {
    v.map_values(|c: ParsedContract| c@)
}

/// The keyword `contract`.
pub open spec fn contract_kw() -> Seq<char> {
    seq!['c', 'o', 'n', 't', 'r', 'a', 'c', 't']
}

/// Skipping white space moves forward and, from inside the text, stays inside it.
pub proof fn lemma_skip_ws_bounds(s: Seq<char>, pos: int)
    ensures
        pos <= skip_ws(s, pos),
        0 <= pos <= s.len() ==> skip_ws(s, pos) <= s.len(),
    decreases s.len() - pos,
{
    if 0 <= pos < s.len() && is_ws(s[pos]) {
        lemma_skip_ws_bounds(s, pos + 1);
    }
}

/// The end of an identifier lies between its start and the end of the text,
/// and every character before it is an identifier character.
pub proof fn lemma_ident_end_bounds(s: Seq<char>, pos: int)
    ensures
        pos <= ident_end(s, pos),
        0 <= pos <= s.len() ==> ident_end(s, pos) <= s.len(),
        forall|k: int| pos <= k < ident_end(s, pos) ==> is_ident(#[trigger] s[k]),
    decreases s.len() - pos,
{
    if 0 <= pos < s.len() && is_ident(s[pos]) {
        lemma_ident_end_bounds(s, pos + 1);
    }
}

/// The contracts found in the comment-free text `s` from `pos` on, with
/// literal state `t`. At each `contract` keyword outside literals that
/// stands as a word: an `abstract` one, or one without a name, is passed
/// over; otherwise the body between the next `{` and its matching `}` gives
/// the constructor parameters, and the scan goes on after the body.
pub open spec fn walk(s: Seq<char>, pos: int, t: StringTracker) -> Seq<ContractView>
    decreases s.len() - pos,
{
    if pos < 0 || pos >= s.len() {
        Seq::empty()
    } else {
        let cur = s[pos];
        let next = walk(s, pos + 1, tracker_step(t, cur));
        if !t.inside() && occurs_at(s, pos, contract_kw()) && ident_boundary(s, pos, pos + 8) {
            let cursor = skip_ws(s, pos + 8);
            let name_end = ident_end(s, cursor);
            proof {
                lemma_skip_ws_bounds(s, pos + 8);
                lemma_ident_end_bounds(s, cursor);
            }
            if abstract_before(s, pos) || name_end == cursor {
                walk(s, pos + 8, tracker_step(t, cur))
            } else {
                match next_index_of(s, name_end, '{') {
                    Some(open) => {
                        proof {
                            lemma_next_index_bounds(s, name_end, '{');
                            lemma_matching_bounds(s, open, '{', '}');
                        }
                        match matching_delimiter(s, open, '{', '}') {
                            Some(close) => seq![
                                ContractView {
                                    name: s.subrange(cursor, name_end),
                                    params: ctor_params(s.subrange(open + 1, close)),
                                },
                            ] + walk(s, close + 1, tracker_start()),
                            None => next,
                        }
                    },
                    None => next,
                }
            }
        } else {
            next
        }
    }
}

/// The contracts that the string walker finds in `source`: the scan of
/// `walk` over the source without its comments.
pub open spec fn found_contracts(source: Seq<char>) -> Seq<ContractView> {
    walk(stripped(source), 0, tracker_start())
}

/// The contracts in the comment-free characters `s`.
fn walk_chars(s: &[char]) -> (r: Vec<ParsedContract>)
    ensures
        contract_views(r@) == walk(s@, 0, tracker_start()),
{
    let keyword = chars_of("contract");
    proof {
        reveal_strlit("contract");
        assert(keyword@ =~= contract_kw());
    }
    let mut contracts: Vec<ParsedContract> = Vec::new();
    let mut pos: usize = 0;
    let mut tracker = StringTracker::new();
    while pos < s.len()
        invariant
            pos <= s@.len(),
            keyword@ == contract_kw(),
            contract_views(contracts@) + walk(s@, pos as int, tracker) == walk(
                s@,
                0,
                tracker_start(),
            ),
        decreases s.len() - pos,
    {
        let current = s[pos];
        if !tracker.in_string() && starts_with_at(s, pos, &keyword) {
            let end = pos + 8;
            if is_identifier_boundary(s, pos, end) {
                let cursor = skip_whitespace(s, end);
                let name_end = identifier_end(s, cursor);
                proof {
                    lemma_skip_ws_bounds(s@, end as int);
                    lemma_ident_end_bounds(s@, cursor as int);
                }
                if is_abstract_contract(s, pos) || name_end == cursor {
                    tracker.consume(current);
                    pos = pos + 8;
                    continue;
                }
                if let Some(open_brace) = find_next_char(s, name_end, '{') {
                    if let Some(close_brace) = find_matching_brace(s, open_brace) {
                        proof {
                            lemma_next_index_bounds(s@, name_end as int, '{');
                            lemma_matching_bounds(s@, open_brace as int, '{', '}');
                        }
                        let name = string_of_range(s, cursor, name_end);
                        let body = copy_range(s, open_brace + 1, close_brace);
                        let constructor_params = parse_constructor_param_chars(&body);
                        let ghost prev = contracts@;
                        contracts.push(ParsedContract { name, constructor_params });
                        assert(contract_views(contracts@) =~= contract_views(prev).push(
                            contracts@.last()@,
                        ));
                        pos = close_brace + 1;
                        tracker.reset();
                        continue;
                    }
                }
            }
        }
        tracker.consume(current);
        pos = pos + 1;
    }
    assert(contract_views(contracts@) =~= contract_views(contracts@) + Seq::<ContractView>::empty());
    contracts
}

/// The contracts that the string walker finds in `source` (see
/// `found_contracts`): comments are removed first, so a `contract` in a
/// comment is never found, and one in a string literal is passed over.
pub fn parse_contracts_with_string_walker(source: &str) -> (r: Vec<ParsedContract>)
    ensures
        contract_views(r@) == found_contracts(source@),
{
    let chars = chars_of(source);
    let clean = strip_comment_chars(&chars);
    walk_chars(&clean)
}

/// A non-empty run of identifier characters.
pub open spec fn is_identifier_name(n: Seq<char>) -> bool {
    n.len() > 0 && forall|k: int| 0 <= k < n.len() ==> is_ident(#[trigger] n[k])
}

/// Every contract in `v` has an identifier for a name.
pub open spec fn names_are_identifiers(v: Seq<ContractView>) -> bool {
    forall|i: int| 0 <= i < v.len() ==> is_identifier_name(#[trigger] v[i].name)
}

proof fn lemma_walk_names(s: Seq<char>, pos: int, t: StringTracker)
    ensures
        names_are_identifiers(walk(s, pos, t)),
    decreases s.len() - pos,
{
    if 0 <= pos < s.len() {
        let cur = s[pos];
        lemma_walk_names(s, pos + 1, tracker_step(t, cur));
        if !t.inside() && occurs_at(s, pos, contract_kw()) && ident_boundary(s, pos, pos + 8) {
            let cursor = skip_ws(s, pos + 8);
            let name_end = ident_end(s, cursor);
            lemma_skip_ws_bounds(s, pos + 8);
            lemma_ident_end_bounds(s, cursor);
            if abstract_before(s, pos) || name_end == cursor {
                lemma_walk_names(s, pos + 8, tracker_step(t, cur));
            } else {
                match next_index_of(s, name_end, '{') {
                    Some(open) => {
                        lemma_next_index_bounds(s, name_end, '{');
                        lemma_matching_bounds(s, open, '{', '}');
                        match matching_delimiter(s, open, '{', '}') {
                            Some(close) => {
                                lemma_walk_names(s, close + 1, tracker_start());
                                let head = ContractView {
                                    name: s.subrange(cursor, name_end),
                                    params: ctor_params(s.subrange(open + 1, close)),
                                };
                                let rest = walk(s, close + 1, tracker_start());
                                assert(is_identifier_name(head.name)) by {
                                    assert forall|k: int| 0 <= k < head.name.len() implies is_ident(
                                        #[trigger] head.name[k],
                                    ) by {
                                        assert(head.name[k] == s[cursor + k]);
                                    }
                                }
                                assert(walk(s, pos, t) == seq![head] + rest);
                                assert forall|i: int| 0 <= i < walk(s, pos, t).len() implies is_identifier_name(
                                    #[trigger] walk(s, pos, t)[i].name,
                                ) by {
                                    if i > 0 {
                                        assert(walk(s, pos, t)[i] == rest[i - 1]);
                                    }
                                }
                            },
                            None => {},
                        }
                    },
                    None => {},
                }
            }
        }
    }
}

/// Every contract that the string walker finds has a non-empty name made
/// of identifier characters.
pub proof fn lemma_found_names_are_identifiers(source: Seq<char>)
    ensures
        names_are_identifiers(found_contracts(source)),
{
    lemma_walk_names(stripped(source), 0, tracker_start());
}

/// The available parser backends.
#[derive(Clone, Copy, Debug, PartialEq, Eq, Structural)]
pub enum ParserBackend {
    StringWalker,
}

impl Default for ParserBackend {
    fn default() -> (b: Self)
        ensures
            b == ParserBackend::StringWalker,
    {
        ParserBackend::StringWalker
    }
}

/// The message for an unknown backend name.
pub open spec fn unknown_backend_message(value: Seq<char>) -> Seq<char> {
    "Unknown parser backend '"@ + value + "'. Available backends: string-walker"@
}

impl ParserBackend {
    /// The backend named `value`: `string-walker` is the only one.
    pub fn parse(value: &str) -> (r: Result<Self, String>)
        ensures
            value@ == "string-walker"@ ==> r == Ok::<Self, String>(ParserBackend::StringWalker),
            value@ != "string-walker"@ ==> (r matches Err(e) && e@ == unknown_backend_message(
                value@,
            )),
    {
        let v = chars_of(value);
        let known = chars_of("string-walker");
        if crate::text::same_chars(&v, &known) {
            Ok(ParserBackend::StringWalker)
        } else {
            let mut msg = String::from_str("Unknown parser backend '");
            append_str(&mut msg, value);
            append_str(&mut msg, "'. Available backends: string-walker");
            Err(msg)
        }
    }
}

/// A way to find the contracts in a Solidity source text.
pub trait ContractParser {
    fn parse(&self, source: &str) -> Result<Vec<ParsedContract>, String>;
}

/// The parser that walks the source text (see `found_contracts`).
#[derive(Clone, Copy, Debug)]
pub struct StringWalkerParser;

impl ContractParser for StringWalkerParser {
    fn parse(&self, source: &str) -> (r: Result<Vec<ParsedContract>, String>)
        ensures
            r matches Ok(v) && contract_views(v@) == found_contracts(source@),
    {
        Ok(parse_contracts_with_string_walker(source))
    }
}

/// The parser of a backend.
pub fn parser_for_backend(backend: ParserBackend) -> (p: StringWalkerParser)
    ensures
        backend == ParserBackend::StringWalker,
{
    match backend {
        ParserBackend::StringWalker => StringWalkerParser,
    }
}

/// A deployable contract with where it was found and the pragma of its file.
#[derive(Clone, Debug)]
pub struct ContractInfo {
    pub name: String,
    pub absolute_path: String,
    pub relative_path: String,
    pub constructor_params: Vec<ConstructorParam>,
    pub pragma: Option<String>,
}

/// The texts of a sequence of parameters.
pub open spec fn raw_texts(params: Seq<ConstructorParam>) -> Seq<Seq<char>> {
    params.map_values(|p: ConstructorParam| p.raw@)
}

/// `constructor(` and the parameter texts joined by `, `, then `)`.
pub open spec fn signature_of(params: Seq<ConstructorParam>) -> Seq<char> {
    "constructor("@ + join(raw_texts(params), ", "@) + ")"@
}

/// The texts of `params`, in order.
pub fn raw_strings(params: &[ConstructorParam]) -> (r: Vec<String>)
    ensures
        views(r@) == raw_texts(params@),
{
    let mut out: Vec<String> = Vec::new();
    let mut i: usize = 0;
    while i < params.len()
        invariant
            0 <= i <= params@.len(),
            views(out@) == raw_texts(params@.subrange(0, i as int)),
        decreases params.len() - i,
    {
        let ghost prev = out@;
        out.push(params[i].raw.clone());
        assert(views(out@) =~= views(prev).push(params@[i as int].raw@));
        assert(raw_texts(params@.subrange(0, i + 1)) =~= raw_texts(params@.subrange(0, i as int)).push(
            params@[i as int].raw@,
        ));
        i = i + 1;
    }
    assert(params@.subrange(0, params@.len() as int) =~= params@);
    out
}

impl ContractInfo {
    /// The constructor's signature as written: `constructor(...)` with the
    /// parameter texts separated by `, `; `constructor()` where there are none.
    pub fn constructor_signature(&self) -> (r: String)
        ensures
            r@ == signature_of(self.constructor_params@),
    {
        let raws = raw_strings(self.constructor_params.as_slice());
        let joined = join_strings(raws.as_slice(), ", ");
        let mut out = String::from_str("constructor(");
        append_str(&mut out, joined.as_str());
        append_str(&mut out, ")");
        out
    }
}

/// Whether `line`, trimmed, begins with `pragma solidity`.
pub open spec fn is_pragma_line(line: Seq<char>) -> bool {
    let t = trim(line);
    t.len() >= 15 && t.subrange(0, 15) == "pragma solidity"@
}

/// `s` without the `;` characters at its end.
pub open spec fn trim_semicolons(s: Seq<char>) -> Seq<char>
    decreases s.len(),
{
    if s.len() > 0 && s.last() == ';' {
        trim_semicolons(s.drop_last())
    } else {
        s
    }
}

/// Where the line that begins at `start` ends.
pub open spec fn line_end(s: Seq<char>, start: int) -> int {
    match next_index_of(s, start, '\n') {
        Some(e) => e,
        None => s.len() as int,
    }
}

/// The first pragma line in `s` from line start `start` on, trimmed and
/// without its trailing `;`.
pub open spec fn pragma_from(s: Seq<char>, start: int) -> Option<Seq<char>>
    decreases s.len() - start,
{
    if start < 0 || start >= s.len() {
        None
    } else {
        let e = line_end(s, start);
        proof {
            lemma_next_index_bounds(s, start, '\n');
        }
        let line = s.subrange(start, e);
        if is_pragma_line(line) {
            Some(trim_semicolons(trim(line)))
        } else if e < s.len() {
            pragma_from(s, e + 1)
        } else {
            None
        }
    }
}

/// The `pragma solidity` line of `source`: the first line that, trimmed,
/// begins with it, trimmed and without trailing `;`.
pub open spec fn pragma_of(source: Seq<char>) -> Option<Seq<char>> {
    pragma_from(source, 0)
}

/// `e` with `s[a..e]` being `s[a..b]` without its trailing `;` characters.
fn semicolon_end(s: &[char], a: usize, b: usize) -> (e: usize)
    requires
        a <= b <= s@.len(),
    ensures
        a <= e <= b,
        s@.subrange(a as int, e as int) == trim_semicolons(s@.subrange(a as int, b as int)),
{
    let mut c = b;
    while c > a && s[c - 1] == ';'
        invariant
            a <= c <= b <= s@.len(),
            trim_semicolons(s@.subrange(a as int, b as int)) == trim_semicolons(
                s@.subrange(a as int, c as int),
            ),
        decreases c,
    {
        assert(s@.subrange(a as int, c as int).drop_last() =~= s@.subrange(a as int, c - 1));
        c = c - 1;
    }
    c
}

/// The `pragma solidity` line of `source` (see `pragma_of`).
pub fn extract_pragma(source: &str) -> (r: Option<String>)
    ensures
        crate::params::opt_view(r) == pragma_of(source@),
{
    let s = chars_of(source);
    let prefix = chars_of("pragma solidity");
    proof {
        reveal_strlit("pragma solidity");
    }
    let mut start: usize = 0;
    while start < s.len()
        invariant
            start <= s@.len(),
            prefix@ == "pragma solidity"@,
            prefix@.len() == 15,
            s@ == source@,
            pragma_of(s@) == pragma_from(s@, start as int),
        decreases s.len() - start,
    {
        let e = match find_next_char(&s, start, '\n') {
            Some(e) => e,
            None => s.len(),
        };
        proof {
            lemma_next_index_bounds(s@, start as int, '\n');
        }
        assert(e == line_end(s@, start as int));
        let (a, b) = trim_bounds(&s, start, e);
        if b - a >= 15 && starts_with_at(&s, a, &prefix) {
            proof {
                assert(s@.subrange(a as int, b as int).subrange(0, 15) =~= s@.subrange(
                    a as int,
                    a + 15,
                ));
            }
            let c = semicolon_end(&s, a, b);
            assert(is_pragma_line(s@.subrange(start as int, e as int)));
            let found = string_of_range(&s, a, c);
            return Some(found);
        }
        proof {
            if b - a >= 15 {
                assert(s@.subrange(a as int, b as int).subrange(0, 15) =~= s@.subrange(
                    a as int,
                    a + 15,
                ));
            }
        }
        if e == s.len() {
            return None;
        }
        start = e + 1;
    }
    None
}

/// The lines of `s` from line start `start` on, split at `\n` (a last
/// empty line after a final `\n` is not a line).
pub open spec fn lines_from(s: Seq<char>, start: int) -> Seq<Seq<char>>
    decreases s.len() - start,
{
    if start < 0 || start >= s.len() {
        Seq::empty()
    } else {
        let e = line_end(s, start);
        proof {
            lemma_next_index_bounds(s, start, '\n');
        }
        if e < s.len() {
            seq![s.subrange(start, e)] + lines_from(s, e + 1)
        } else {
            seq![s.subrange(start, e)]
        }
    }
}

/// The first of `lines` that, trimmed, begins with `pragma solidity`,
/// trimmed and without its trailing `;` characters.
pub open spec fn first_pragma(lines: Seq<Seq<char>>) -> Option<Seq<char>>
    decreases lines.len(),
{
    if lines.len() == 0 {
        None
    } else if is_pragma_line(lines[0]) {
        Some(trim_semicolons(trim(lines[0])))
    } else {
        first_pragma(lines.drop_first())
    }
}

proof fn lemma_pragma_from_lines(s: Seq<char>, start: int)
    requires
        0 <= start,
    ensures
        pragma_from(s, start) == first_pragma(lines_from(s, start)),
    decreases s.len() - start,
{
    if start < s.len() {
        lemma_next_index_bounds(s, start, '\n');
        let e = line_end(s, start);
        let ls = lines_from(s, start);
        if e < s.len() {
            lemma_pragma_from_lines(s, e + 1);
            assert(ls.drop_first() =~= lines_from(s, e + 1));
        } else {
            assert(ls.drop_first() =~= Seq::<Seq<char>>::empty());
        }
    }
}

/// The pragma of a file is read line by line: the first line that, trimmed,
/// begins with `pragma solidity`, trimmed and without trailing `;`.
pub proof fn lemma_pragma_by_lines(source: Seq<char>)
    ensures
        pragma_of(source) == first_pragma(lines_from(source, 0)),
{
    lemma_pragma_from_lines(source, 0);
}

/// Where a found contract stands in the comment-free text `s`: its name at
/// `s[ns..ne]`, a whole identifier; its body opened by the first `{` after
/// the name, at `open`, and closed by the matching `}`, at `close`; and its
/// parameters those of the constructor inside that body.
pub open spec fn contract_at(s: Seq<char>, c: ContractView, ns: int, ne: int, open: int, close: int) -> bool {
    &&& 0 <= ns < ne <= open < close < s.len()
    &&& s.subrange(ns, ne) == c.name
    &&& forall|j: int| ns <= j < ne ==> is_ident(#[trigger] s[j])
    &&& (ns == 0 || !is_ident(s[ns - 1]))
    &&& !is_ident(s[ne])
    &&& forall|j: int| ne <= j < open ==> #[trigger] s[j] != '{'
    &&& s[open] == '{'
    &&& matching_delimiter(s, open, '{', '}') == Some(close)
    &&& c.params == ctor_params(s.subrange(open + 1, close))
}

/// The four positions of each contract, in order (see `contract_at`).
pub open spec fn bodies_in_order(
    s: Seq<char>,
    cs: Seq<ContractView>,
    w: Seq<(int, int, int, int)>,
    from: int,
) -> bool {
    &&& w.len() == cs.len()
    &&& forall|k: int|
        #![trigger w[k]]
        0 <= k < cs.len() ==> contract_at(s, cs[k], w[k].0, w[k].1, w[k].2, w[k].3) && from
            <= w[k].0
    &&& forall|k: int| 0 <= k < cs.len() - 1 ==> #[trigger] w[k].3 < w[k + 1].0
}

proof fn lemma_next_index_first(s: Seq<char>, pos: int, target: char)
    ensures
        next_index_of(s, pos, target) matches Some(i) ==> forall|j: int|
            pos <= j < i ==> #[trigger] s[j] != target,
    decreases s.len() - pos,
{
    if 0 <= pos < s.len() && s[pos] != target {
        lemma_next_index_first(s, pos + 1, target);
    }
}

proof fn lemma_ident_end_stops(s: Seq<char>, pos: int)
    ensures
        0 <= ident_end(s, pos) < s.len() ==> !is_ident(s[ident_end(s, pos)]),
    decreases s.len() - pos,
{
    if 0 <= pos < s.len() && is_ident(s[pos]) {
        lemma_ident_end_stops(s, pos + 1);
    }
}

proof fn lemma_walk_bodies(s: Seq<char>, pos: int, t: StringTracker) -> (w: Seq<(int, int, int, int)>)
    requires
        0 <= pos,
    ensures
        bodies_in_order(s, walk(s, pos, t), w, pos),
    decreases s.len() - pos,
{
    if pos >= s.len() {
        Seq::empty()
    } else {
        let cur = s[pos];
        let next = walk(s, pos + 1, tracker_step(t, cur));
        if !t.inside() && occurs_at(s, pos, contract_kw()) && ident_boundary(s, pos, pos + 8) {
            let cursor = skip_ws(s, pos + 8);
            let name_end = ident_end(s, cursor);
            lemma_skip_ws_bounds(s, pos + 8);
            lemma_ident_end_bounds(s, cursor);
            lemma_skip_ws_facts(s, pos + 8);
            lemma_ident_end_stops(s, cursor);
            if abstract_before(s, pos) || name_end == cursor {
                lemma_walk_bodies(s, pos + 8, tracker_step(t, cur))
            } else {
                match next_index_of(s, name_end, '{') {
                    Some(open) => {
                        lemma_next_index_bounds(s, name_end, '{');
                        lemma_next_index_first(s, name_end, '{');
                        lemma_matching_bounds(s, open, '{', '}');
                        match matching_delimiter(s, open, '{', '}') {
                            Some(close) => {
                                let rest = lemma_walk_bodies(s, close + 1, tracker_start());
                                let c = ContractView {
                                    name: s.subrange(cursor, name_end),
                                    params: ctor_params(s.subrange(open + 1, close)),
                                };
                                let all = seq![c] + walk(s, close + 1, tracker_start());
                                assert(walk(s, pos, t) == all);
                                assert(cursor > pos + 8 ==> is_ws(s[cursor - 1]));
                                if cursor == pos + 8 {
                                    assert(!is_ident(s[pos + 8]));
                                    assert(false);
                                }
                                assert(name_end < s.len());
                                assert(!is_ident(s[name_end]));
                                assert(contract_at(s, c, cursor, name_end, open, close));
                                let w = seq![(cursor, name_end, open, close)] + rest;
                                assert forall|k: int| 0 <= k < all.len() implies contract_at(
                                    s,
                                    all[k],
                                    w[k].0,
                                    w[k].1,
                                    w[k].2,
                                    w[k].3,
                                ) && pos <= w[k].0 by {
                                    if k > 0 {
                                        assert(all[k] == walk(s, close + 1, tracker_start())[k - 1]);
                                        assert(w[k] == rest[k - 1]);
                                    }
                                }
                                assert forall|k: int| 0 <= k < all.len() - 1 implies #[trigger] w[k].3
                                    < w[k + 1].0 by {
                                    let r = walk(s, close + 1, tracker_start());
                                    if k > 0 {
                                        assert(w[k] == rest[k - 1]);
                                        assert(w[k + 1] == rest[k]);
                                        assert(rest[k - 1].3 < rest[k].0);
                                    } else {
                                        assert(w[1] == rest[0]);
                                        assert(contract_at(s, r[0], rest[0].0, rest[0].1, rest[0].2, rest[0].3)
                                            && close + 1 <= rest[0].0);
                                    }
                                }
                                w
                            },
                            None => lemma_walk_bodies(s, pos + 1, tracker_step(t, cur)),
                        }
                    },
                    None => lemma_walk_bodies(s, pos + 1, tracker_step(t, cur)),
                }
            }
        } else {
            lemma_walk_bodies(s, pos + 1, tracker_step(t, cur))
        }
    }
}

/// Each contract found takes its parameters from its own body: its name
/// stands in the comment-free source as a whole identifier, the first `{`
/// after the name opens its body and the matching `}` closes it, its
/// parameters are those of the constructor inside that body (none where
/// the body holds none), and each body closes before the next contract's
/// name. The positions are returned, contract by contract.
pub proof fn lemma_contracts_take_their_own_body(source: Seq<char>) -> (w: Seq<(int, int, int, int)>)
    ensures
        bodies_in_order(stripped(source), found_contracts(source), w, 0),
{
    lemma_walk_bodies(stripped(source), 0, tracker_start())
}

} // verus!
