//! Constructor arguments given as a JSON array: each item becomes the
//! Solidity literal that the script passes to the constructor.

use vstd::prelude::*;
use crate::text::{trim, views, chars_of, append_str, trim_bounds, same_chars};
use crate::params::opt_view;

verus! {

/// One item of the JSON array, as far as the arguments need it.
#[derive(Clone, Debug)]
pub enum JsonArg {
    /// `null`.
    Null,
    /// A boolean, number, string or array, in its compact JSON text.
    Literal(String),
    /// An object, as its members: each key with its value where that is a
    /// string (`Some(..)`), or `None` for a value of another kind.
    Object(Vec<(String, Option<String>)>),
}

/// An item of the JSON array as plain values.
pub enum JsonArgView {
    Null,
    Literal(Seq<char>),
    Object(Seq<(Seq<char>, Option<Seq<char>>)>),
}

/// The view of a looked-up member: absent (`None`), a string
/// (`Some(Some(..))`), or a value of another kind (`Some(None)`).
pub open spec fn member_view(m: Option<Option<String>>) -> Option<Option<Seq<char>>> {
    match m {
        Some(v) => Some(opt_view(v)),
        None => None,
    }
}

/// The plain values of the members of an object.
pub open spec fn member_views(ms: Seq<(String, Option<String>)>) -> Seq<(Seq<char>, Option<Seq<char>>)> {
    ms.map_values(|m: (String, Option<String>)| (m.0@, opt_view(m.1)))
}

/// The value of the first member of `ms` whose key is `key`, if any.
pub open spec fn member(ms: Seq<(Seq<char>, Option<Seq<char>>)>, key: Seq<char>) -> Option<Option<Seq<char>>>
    decreases ms.len(),
{
    if ms.len() == 0 {
        None
    } else if ms[0].0 == key {
        Some(ms[0].1)
    } else {
        member(ms.drop_first(), key)
    }
}

/// The member that carries a Solidity literal: `raw`, or `solidity` where
/// the object has no `raw` member.
pub open spec fn literal_member(ms: Seq<(Seq<char>, Option<Seq<char>>)>) -> Option<Option<Seq<char>>> {
    match member(ms, "raw"@) {
        Some(v) => Some(v),
        None => member(ms, "solidity"@),
    }
}

impl View for JsonArg {
    type V = JsonArgView;

    open spec fn view(&self) -> JsonArgView {
        match self {
            JsonArg::Null => JsonArgView::Null,
            JsonArg::Literal(t) => JsonArgView::Literal(t@),
            JsonArg::Object(ms) => JsonArgView::Object(member_views(ms@)),
        }
    }
}

/// A parsed `--args` value: the error text of the JSON parser, or the
/// items where the value is an array (`None` where it is not).
pub open spec fn doc_view(doc: Result<Option<Vec<JsonArg>>, String>) -> Result<Option<Seq<JsonArgView>>, Seq<char>> {
    match doc {
        Ok(Some(items)) => Ok(Some(items@.map_values(|a: JsonArg| a@))),
        Ok(None) => Ok(None),
        Err(e) => Err(e@),
    }
}

/// What `serde_json` makes of the text `text` as a `serde_json::Value`:
/// its error message, or the items of the array, or `None` for a value
/// that is not an array.
pub uninterp spec fn json_args_of(text: Seq<char>) -> Result<Option<Seq<JsonArgView>>, Seq<char>>;

/// Parses `input` with `serde_json::from_str` into a `serde_json::Value`
/// and converts the items of a top-level array one for one: `null` as
/// `Null`, an object as its members in the map's order (each key, with the
/// value's text where `Value::as_str` gives one), any other item as its
/// compact text (`Display` of `Value`). The result is claimed to be a
/// function of the text alone; what that function is, is left unsaid.
#[verifier::external_body]
fn json_args_from_text(input: &str) -> (doc: Result<Option<Vec<JsonArg>>, String>)
    ensures
        doc_view(doc) == json_args_of(input@),
{
    let items = match serde_json::from_str::<serde_json::Value>(input) {
        Ok(serde_json::Value::Array(items)) => items,
        Ok(_) => return Ok(None),
        Err(e) => return Err(e.to_string()),
    };
    Ok(Some(items.into_iter().map(|item| match item {
        serde_json::Value::Null => JsonArg::Null,
        serde_json::Value::Object(m) => JsonArg::Object(
            m.into_iter().map(|(k, v)| (k, v.as_str().map(String::from))).collect(),
        ),
        other => JsonArg::Literal(other.to_string()),
    }).collect()))
}

/// The message for a `null` item.
pub open spec fn null_message() -> Seq<char> {
    "Null is not a valid Solidity constructor argument. Use a Solidity literal instead."@
}

/// The message for a blank raw literal.
pub open spec fn empty_raw_message() -> Seq<char> {
    "Raw Solidity literal cannot be empty."@
}

/// The message for an object without a string `raw` or `solidity` member.
pub open spec fn object_message() -> Seq<char> {
    "JSON objects are only supported as raw Solidity literals, e.g. {\"raw\":\"Foo({bar: 1})\"}."@
}

/// The Solidity literal for one item: a literal as its JSON text; an
/// object by its `raw` member, or by its `solidity` member where it has no
/// `raw` one, which must be a string that is not blank; `null` is refused.
pub open spec fn arg_value(v: JsonArgView) -> Result<Seq<char>, Seq<char>> {
    match v {
        JsonArgView::Null => Err(null_message()),
        JsonArgView::Literal(t) => Ok(t),
        JsonArgView::Object(ms) => {
            match literal_member(ms) {
                Some(Some(text)) => if trim(text).len() == 0 {
                    Err(empty_raw_message())
                } else {
                    Ok(text)
                },
                _ => Err(object_message()),
            }
        },
    }
}

/// The literals of all items, or the error of the first item refused.
pub open spec fn args_of_items(items: Seq<JsonArgView>) -> Result<Seq<Seq<char>>, Seq<char>>
    decreases items.len(),
{
    if items.len() == 0 {
        Ok(Seq::empty())
    } else {
        match arg_value(items[0]) {
            Err(e) => Err(e),
            Ok(v) => match args_of_items(items.drop_first()) {
                Ok(vs) => Ok(seq![v] + vs),
                Err(e) => Err(e),
            },
        }
    }
}

/// The message for a value that is not an array.
pub open spec fn not_array_message() -> Seq<char> {
    "--args expects a JSON array, e.g. '[42, \"0xdead\"]'"@
}

/// The arguments that a parsed `--args` value gives.
pub open spec fn args_of_doc(doc: Result<Option<Seq<JsonArgView>>, Seq<char>>) -> Result<Seq<Seq<char>>, Seq<char>> {
    match doc {
        Err(e) => Err("Failed to parse --args JSON array: "@ + e),
        Ok(None) => Err(not_array_message()),
        Ok(Some(items)) => args_of_items(items),
    }
}

/// The character sequences in a result of strings.
pub open spec fn result_views(r: Result<Vec<String>, String>) -> Result<Seq<Seq<char>>, Seq<char>> {
    match r {
        Ok(v) => Ok(views(v@)),
        Err(e) => Err(e@),
    }
}

/// The value of the first member of `members` whose key is `key` (see
/// `member`).
pub fn find_member(members: &Vec<(String, Option<String>)>, key: &str) -> (r: Option<Option<String>>)
    ensures
        member_view(r) == member(member_views(members@), key@),
{
    let ghost mv = member_views(members@);
    let k = chars_of(key);
    let mut i: usize = 0;
    assert(mv.subrange(0, mv.len() as int) =~= mv);
    while i < members.len()
        invariant
            i <= members@.len(),
            mv == member_views(members@),
            k@ == key@,
            member(mv, key@) == member(mv.subrange(i as int, mv.len() as int), key@),
        decreases members.len() - i,
    {
        let ghost rest = mv.subrange(i as int, mv.len() as int);
        assert(rest[0] == mv[i as int]);
        assert(rest.drop_first() =~= mv.subrange(i + 1, mv.len() as int));
        let c = chars_of(members[i].0.as_str());
        if same_chars(&c, &k) {
            let v = match &members[i].1 {
                Some(t) => Some(t.clone()),
                None => None,
            };
            return Some(v);
        }
        i = i + 1;
    }
    assert(mv.subrange(i as int, mv.len() as int) =~= Seq::<(Seq<char>, Option<Seq<char>>)>::empty());
    None
}

/// The Solidity literal for one item (see `arg_value`).
pub fn parse_json_arg_value(value: &JsonArg) -> (r: Result<String, String>)
    ensures
        match r {
            Ok(s) => arg_value(value@) == Ok::<Seq<char>, Seq<char>>(s@),
            Err(e) => arg_value(value@) == Err::<Seq<char>, Seq<char>>(e@),
        },
{
    match value {
        JsonArg::Null => Err(String::from_str(
            "Null is not a valid Solidity constructor argument. Use a Solidity literal instead.",
        )),
        JsonArg::Literal(t) => Ok(t.clone()),
        JsonArg::Object(ms) => {
            let chosen = match find_member(ms, "raw") {
                Some(v) => Some(v),
                None => find_member(ms, "solidity"),
            };
            proof {
                reveal_strlit("raw");
                reveal_strlit("solidity");
            }
            match chosen {
                Some(Some(text)) => {
                    let c = chars_of(text.as_str());
                    let (a, b) = trim_bounds(&c, 0, c.len());
                    assert(c@.subrange(0, c@.len() as int) =~= c@);
                    if a == b {
                        Err(String::from_str("Raw Solidity literal cannot be empty."))
                    } else {
                        Ok(text.clone())
                    }
                },
                _ => Err(String::from_str(
                    "JSON objects are only supported as raw Solidity literals, e.g. {\"raw\":\"Foo({bar: 1})\"}.",
                )),
            }
        },
    }
}

/// The arguments that a parsed `--args` value gives (see `args_of_doc`).
pub fn args_from_json(doc: Result<Option<Vec<JsonArg>>, String>) -> (r: Result<Vec<String>, String>)
    ensures
        result_views(r) == args_of_doc(doc_view(doc)),
{
    match doc {
        Err(e) => {
            let mut m = String::from_str("Failed to parse --args JSON array: ");
            append_str(&mut m, e.as_str());
            Err(m)
        },
        Ok(None) => Err(String::from_str("--args expects a JSON array, e.g. '[42, \"0xdead\"]'")),
        Ok(Some(items)) => {
            let ghost all = items@.map_values(|a: JsonArg| a@);
            let mut out: Vec<String> = Vec::new();
            let mut i: usize = 0;
            assert(all.subrange(0, all.len() as int) =~= all);
            assert forall|vs: Seq<Seq<char>>| #![auto] views(out@) + vs == vs by {
                assert(views(out@) + vs =~= vs);
            }
            assert(args_of_doc(doc_view(doc)) == args_of_items(all));
            while i < items.len()
                invariant
                    0 <= i <= items@.len(),
                    all == items@.map_values(|a: JsonArg| a@),
                    args_of_doc(doc_view(doc)) == args_of_items(all),
                    args_of_items(all) == match args_of_items(all.subrange(i as int, all.len() as int)) {
                        Ok(vs) => Ok(views(out@) + vs),
                        Err(e) => Err(e),
                    },
                decreases items.len() - i,
            {
                assert(all.subrange(i as int, all.len() as int).drop_first() =~= all.subrange(
                    i + 1,
                    all.len() as int,
                ));
                assert(all.subrange(i as int, all.len() as int)[0] == items@[i as int]@);
                match parse_json_arg_value(&items[i]) {
                    Ok(v) => {
                        let ghost before = views(out@);
                        out.push(v);
                        assert(views(out@) =~= before.push(v@));
                        assert forall|vs: Seq<Seq<char>>| #![auto] before + (seq![v@] + vs) == views(out@) + vs by {
                            assert(before + (seq![v@] + vs) =~= views(out@) + vs);
                        }
                    },
                    Err(e) => {
                        assert(args_of_items(all.subrange(i as int, all.len() as int)) == Err::<Seq<Seq<char>>, Seq<char>>(e@));
                        return Err(e);
                    },
                }
                i = i + 1;
            }
            assert(all.subrange(i as int, all.len() as int) =~= Seq::<JsonArgView>::empty());
            assert(views(out@) + Seq::<Seq<char>>::empty() =~= views(out@));
            Ok(out)
        },
    }
}

/// The arguments given as the JSON array `input` (see `args_of_doc`): the
/// text is parsed by `serde_json`, whose reading `json_args_of` names.
pub fn parse_args_json(input: &str) -> (r: Result<Vec<String>, String>)
    ensures
        result_views(r) == args_of_doc(json_args_of(input@)),
{
    let doc = json_args_from_text(input);
    args_from_json(doc)
}

} // verus!
verus! {

/// A `raw` member that is a string with something besides white space
/// reaches the constructor exactly as written, whatever other members the
/// object has; so does a `solidity` member where there is no `raw` one.
pub proof fn lemma_raw_literal_verbatim(ms: Seq<(Seq<char>, Option<Seq<char>>)>, text: Seq<char>)
    requires
        trim(text).len() > 0,
    ensures
        member(ms, "raw"@) == Some(Some(text)) ==> arg_value(JsonArgView::Object(ms)) == Ok::<
            Seq<char>,
            Seq<char>,
        >(text),
        member(ms, "raw"@) is None && member(ms, "solidity"@) == Some(Some(text)) ==> arg_value(
            JsonArgView::Object(ms),
        ) == Ok::<Seq<char>, Seq<char>>(text),
{
}

/// Where every item is accepted, there is one argument per item, in the
/// order of the items, each the literal of its item.
pub proof fn lemma_args_follow_items(items: Seq<JsonArgView>)
    ensures
        args_of_items(items) matches Ok(vs) ==> {
            &&& vs.len() == items.len()
            &&& forall|i: int|
                0 <= i < items.len() ==> arg_value(#[trigger] items[i]) == Ok::<
                    Seq<char>,
                    Seq<char>,
                >(vs[i])
        },
    decreases items.len(),
{
    if items.len() > 0 {
        let rest = items.drop_first();
        lemma_args_follow_items(rest);
        if let Ok(vs) = args_of_items(items) {
            let v = arg_value(items[0])->Ok_0;
            let ws = args_of_items(rest)->Ok_0;
            assert(vs == seq![v] + ws);
            assert forall|i: int| 0 <= i < items.len() implies arg_value(#[trigger] items[i])
                == Ok::<Seq<char>, Seq<char>>(vs[i]) by {
                if i > 0 {
                    assert(items[i] == rest[i - 1]);
                }
            }
        }
    }
}

} // verus!
