//! Command-line arguments: the options that the generator takes, and the
//! help text.

use vstd::prelude::*;
use crate::text::{trim, chars_of, string_of, append_str, same_chars, trim_bounds};
use crate::contracts::{ParserBackend, unknown_backend_message};
use crate::params::opt_view;
use crate::scan::{occurs_at, starts_with_at};

verus! {

/// The options of one run of the generator.
#[derive(Clone, Debug)]
pub struct Options {
    pub contracts_dir: String,
    pub output_dir: String,
    pub parser_backend: ParserBackend,
    pub selection: Option<String>,
    pub args_json: Option<String>,
    pub list: bool,
    pub help: bool,
    pub force: bool,
    pub private_key: Option<String>,
}

/// The options as plain values.
pub struct OptionsView {
    pub contracts_dir: Seq<char>,
    pub output_dir: Seq<char>,
    pub parser_backend: ParserBackend,
    pub selection: Option<Seq<char>>,
    pub args_json: Option<Seq<char>>,
    pub list: bool,
    pub help: bool,
    pub force: bool,
    pub private_key: Option<Seq<char>>,
}

impl View for Options {
    type V = OptionsView;

    open spec fn view(&self) -> OptionsView {
        OptionsView {
            contracts_dir: self.contracts_dir@,
            output_dir: self.output_dir@,
            parser_backend: self.parser_backend,
            selection: opt_view(self.selection),
            args_json: opt_view(self.args_json),
            list: self.list,
            help: self.help,
            force: self.force,
            private_key: opt_view(self.private_key),
        }
    }
}

/// The options before any argument: sources under `src`, scripts into
/// `script`, the string walker, nothing selected.
pub open spec fn default_options() -> OptionsView {
    OptionsView {
        contracts_dir: "src"@,
        output_dir: "script"@,
        parser_backend: ParserBackend::StringWalker,
        selection: None,
        args_json: None,
        list: false,
        help: false,
        force: false,
        private_key: None,
    }
}

/// `a` begins with `p`.
pub open spec fn has_prefix(a: Seq<char>, p: Seq<char>) -> bool {
    occurs_at(a, 0, p)
}

/// What follows the prefix `p` in `a`.
pub open spec fn after_prefix(a: Seq<char>, p: Seq<char>) -> Seq<char> {
    a.subrange(p.len() as int, a.len() as int)
}

/// The message for an option given without its value.
pub open spec fn requires_value(option: Seq<char>) -> Seq<char> {
    option + " requires a value"@
}

/// The message for `--args` without its JSON array.
pub open spec fn args_requires_array() -> Seq<char> {
    "--args requires a JSON array"@
}

/// The options after `args[i..]`, from `o`. Each of `--contracts-dir`,
/// `--output-dir`, `--parser`, `--args` and `--private-key` takes its value
/// from the next argument or after `=`; a later occurrence replaces an
/// earlier one. `--` makes the next argument the selection and ends the
/// options. Any other argument that begins with `--` is refused; any other
/// argument is the selection, of which there may be only one.
pub open spec fn options_run(args: Seq<Seq<char>>, i: int, o: OptionsView) -> Result<OptionsView, Seq<char>>
    decreases args.len() - i,
{
    if i < 0 || i >= args.len() {
        Ok(o)
    } else {
        let a = args[i];
        let has_next = i + 1 < args.len();
        if a == "-h"@ || a == "--help"@ {
            options_run(args, i + 1, OptionsView { help: true, ..o })
        } else if a == "--list"@ {
            options_run(args, i + 1, OptionsView { list: true, ..o })
        } else if a == "--force"@ {
            options_run(args, i + 1, OptionsView { force: true, ..o })
        } else if a == "--contracts-dir"@ {
            if has_next {
                options_run(args, i + 2, OptionsView { contracts_dir: args[i + 1], ..o })
            } else {
                Err(requires_value("--contracts-dir"@))
            }
        } else if has_prefix(a, "--contracts-dir="@) {
            let v = after_prefix(a, "--contracts-dir="@);
            if v.len() == 0 {
                Err(requires_value("--contracts-dir"@))
            } else {
                options_run(args, i + 1, OptionsView { contracts_dir: v, ..o })
            }
        } else if a == "--output-dir"@ {
            if has_next {
                options_run(args, i + 2, OptionsView { output_dir: args[i + 1], ..o })
            } else {
                Err(requires_value("--output-dir"@))
            }
        } else if has_prefix(a, "--output-dir="@) {
            let v = after_prefix(a, "--output-dir="@);
            if v.len() == 0 {
                Err(requires_value("--output-dir"@))
            } else {
                options_run(args, i + 1, OptionsView { output_dir: v, ..o })
            }
        } else if a == "--parser"@ {
            if !has_next {
                Err(requires_value("--parser"@))
            } else if args[i + 1] == "string-walker"@ {
                options_run(
                    args,
                    i + 2,
                    OptionsView { parser_backend: ParserBackend::StringWalker, ..o },
                )
            } else {
                Err(unknown_backend_message(args[i + 1]))
            }
        } else if has_prefix(a, "--parser="@) {
            let v = after_prefix(a, "--parser="@);
            if v.len() == 0 {
                Err(requires_value("--parser"@))
            } else if v == "string-walker"@ {
                options_run(
                    args,
                    i + 1,
                    OptionsView { parser_backend: ParserBackend::StringWalker, ..o },
                )
            } else {
                Err(unknown_backend_message(v))
            }
        } else if a == "--args"@ {
            if has_next {
                options_run(args, i + 2, OptionsView { args_json: Some(args[i + 1]), ..o })
            } else {
                Err(args_requires_array())
            }
        } else if has_prefix(a, "--args="@) {
            let v = after_prefix(a, "--args="@);
            if v.len() == 0 {
                Err(args_requires_array())
            } else {
                options_run(args, i + 1, OptionsView { args_json: Some(v), ..o })
            }
        } else if a == "--private-key"@ {
            if !has_next || trim(args[i + 1]).len() == 0 {
                Err(requires_value("--private-key"@))
            } else {
                options_run(args, i + 2, OptionsView { private_key: Some(args[i + 1]), ..o })
            }
        } else if has_prefix(a, "--private-key="@) {
            let v = after_prefix(a, "--private-key="@);
            if trim(v).len() == 0 {
                Err(requires_value("--private-key"@))
            } else {
                options_run(args, i + 1, OptionsView { private_key: Some(v), ..o })
            }
        } else if a == "--"@ {
            if has_next {
                Ok(OptionsView { selection: Some(args[i + 1]), ..o })
            } else {
                Ok(o)
            }
        } else if has_prefix(a, "--"@) {
            Err("Unknown option: "@ + a)
        } else if o.selection is Some {
            Err("Only one contract selection can be provided"@)
        } else {
            options_run(args, i + 1, OptionsView { selection: Some(a), ..o })
        }
    }
}

/// The options that the command line `args` gives; `args[0]` is the
/// program and is passed over.
pub open spec fn options_of(args: Seq<Seq<char>>) -> Result<OptionsView, Seq<char>> {
    options_run(args, 1, default_options())
}

/// Whether the characters of `a` are those of `w`.
fn is_word(a: &[char], w: &str) -> (b: bool)
    ensures
        b == (a@ == w@),
{
    let wc = chars_of(w);
    same_chars(a, &wc)
}

/// What follows the prefix `p` in `a`, where `a` begins with it.
fn value_after(a: &[char], p: &str) -> (r: Option<String>)
    ensures
        r is Some <==> has_prefix(a@, p@),
        r matches Some(v) ==> v@ == after_prefix(a@, p@),
{
    let pc = chars_of(p);
    if starts_with_at(a, 0, &pc) {
        Some(crate::text::string_of_range(a, pc.len(), a.len()))
    } else {
        None
    }
}

/// A string holding `s`.
fn owned(s: &str) -> (r: String)
    ensures
        r@ == s@,
{
    String::from_str(s)
}

/// `option` followed by ` requires a value`.
fn requires_value_message(option: &str) -> (r: String)
    ensures
        r@ == requires_value(option@),
{
    let mut m = owned(option);
    append_str(&mut m, " requires a value");
    m
}

/// Whether `s` is empty once trimmed.
fn is_blank(s: &[char]) -> (b: bool)
    ensures
        b == (trim(s@).len() == 0),
{
    let (a, b) = trim_bounds(s, 0, s.len());
    assert(s@.subrange(0, s@.len() as int) =~= s@);
    a == b
}

/// The backend named by `value`, as `ParserBackend::parse` reads it.
fn backend_of(value: &String) -> (r: Result<ParserBackend, String>)
    ensures
        value@ == "string-walker"@ ==> r == Ok::<ParserBackend, String>(ParserBackend::StringWalker),
        value@ != "string-walker"@ ==> (r matches Err(e) && e@ == unknown_backend_message(value@)),
{
    ParserBackend::parse(value.as_str())
}

/// Reads the command line `args` (see `options_run`); `args[0]` is the program.
pub fn parse_args(args: &[String]) -> (r: Result<Options, String>)
    ensures
        match r {
            Ok(o) => options_of(views_of(args@)) == Ok::<OptionsView, Seq<char>>(o@),
            Err(e) => options_of(views_of(args@)) == Err::<OptionsView, Seq<char>>(e@),
        },
{
    let mut options = Options {
        contracts_dir: owned("src"),
        output_dir: owned("script"),
        parser_backend: ParserBackend::StringWalker,
        selection: None,
        args_json: None,
        list: false,
        help: false,
        force: false,
        private_key: None,
    };
    let ghost all = views_of(args@);
    let mut i: usize = 1;
    assert(options@ == default_options());
    while i < args.len()
        invariant
            1 <= i,
            all == views_of(args@),
            options_of(all) == options_run(all, i as int, options@),
        decreases args.len() - i,
    {
        let a = chars_of(args[i].as_str());
        let has_next = i + 1 < args.len();
        assert(a@ == all[i as int]);
        if is_word(&a, "-h") || is_word(&a, "--help") {
            options.help = true;
            i = i + 1;
        } else if is_word(&a, "--list") {
            options.list = true;
            i = i + 1;
        } else if is_word(&a, "--force") {
            options.force = true;
            i = i + 1;
        } else if is_word(&a, "--contracts-dir") {
            if !has_next {
                return Err(requires_value_message("--contracts-dir"));
            }
            options.contracts_dir = args[i + 1].clone();
            i = i + 2;
        } else if let Some(v) = value_after(&a, "--contracts-dir=") {
            if v.as_str().unicode_len() == 0 {
                return Err(requires_value_message("--contracts-dir"));
            }
            options.contracts_dir = v;
            i = i + 1;
        } else if is_word(&a, "--output-dir") {
            if !has_next {
                return Err(requires_value_message("--output-dir"));
            }
            options.output_dir = args[i + 1].clone();
            i = i + 2;
        } else if let Some(v) = value_after(&a, "--output-dir=") {
            if v.as_str().unicode_len() == 0 {
                return Err(requires_value_message("--output-dir"));
            }
            options.output_dir = v;
            i = i + 1;
        } else if is_word(&a, "--parser") {
            if !has_next {
                return Err(requires_value_message("--parser"));
            }
            match backend_of(&args[i + 1]) {
                Ok(b) => {
                    options.parser_backend = b;
                },
                Err(e) => {
                    return Err(e);
                },
            }
            i = i + 2;
        } else if let Some(v) = value_after(&a, "--parser=") {
            if v.as_str().unicode_len() == 0 {
                return Err(requires_value_message("--parser"));
            }
            match backend_of(&v) {
                Ok(b) => {
                    options.parser_backend = b;
                },
                Err(e) => {
                    return Err(e);
                },
            }
            i = i + 1;
        } else if is_word(&a, "--args") {
            if !has_next {
                return Err(owned("--args requires a JSON array"));
            }
            options.args_json = Some(args[i + 1].clone());
            i = i + 2;
        } else if let Some(v) = value_after(&a, "--args=") {
            if v.as_str().unicode_len() == 0 {
                return Err(owned("--args requires a JSON array"));
            }
            options.args_json = Some(v);
            i = i + 1;
        } else if is_word(&a, "--private-key") {
            if !has_next {
                return Err(requires_value_message("--private-key"));
            }
            let value = chars_of(args[i + 1].as_str());
            if is_blank(&value) {
                return Err(requires_value_message("--private-key"));
            }
            options.private_key = Some(args[i + 1].clone());
            i = i + 2;
        } else if let Some(v) = value_after(&a, "--private-key=") {
            let value = chars_of(v.as_str());
            if is_blank(&value) {
                return Err(requires_value_message("--private-key"));
            }
            options.private_key = Some(v);
            i = i + 1;
        } else if is_word(&a, "--") {
            if has_next {
                options.selection = Some(args[i + 1].clone());
            }
            return Ok(options);
        } else if value_after(&a, "--").is_some() {
            let mut m = owned("Unknown option: ");
            append_str(&mut m, args[i].as_str());
            return Err(m);
        } else {
            if options.selection.is_some() {
                return Err(owned("Only one contract selection can be provided"));
            }
            options.selection = Some(args[i].clone());
            i = i + 1;
        }
    }
    Ok(options)
}

/// The character sequences of the arguments.
pub open spec fn views_of(args: Seq<String>) -> Seq<Seq<char>> {
    args.map_values(|a: String| a@)
}

proof fn lemma_options_run_tail(a: Seq<Seq<char>>, i: int, b: Seq<Seq<char>>, j: int, o: OptionsView)
    requires
        0 <= i <= a.len(),
        0 <= j <= b.len(),
        a.skip(i) == b.skip(j),
    ensures
        options_run(a, i, o) == options_run(b, j, o),
    decreases a.len() - i,
{
    assert(a.subrange(i, a.len() as int).len() == a.len() - i);
    assert(b.subrange(j, b.len() as int).len() == b.len() - j);
    assert(a.len() - i == b.len() - j);
    if i < a.len() {
        assert(a[i] == a.skip(i)[0]);
        assert(b[j] == b.skip(j)[0]);
        if i + 1 < a.len() {
            assert(a[i + 1] == a.skip(i)[1]);
            assert(b[j + 1] == b.skip(j)[1]);
        }
        assert(a.skip(i + 1) =~= a.skip(i).drop_first());
        assert(b.skip(j + 1) =~= b.skip(j).drop_first());
        if i + 2 <= a.len() {
            assert(a.skip(i + 2) =~= a.skip(i + 1).drop_first());
            assert(b.skip(j + 2) =~= b.skip(j + 1).drop_first());
        }
        let a0 = a[i];
        let o_help = OptionsView { help: true, ..o };
        let o_list = OptionsView { list: true, ..o };
        let o_force = OptionsView { force: true, ..o };
        lemma_options_run_tail(a, i + 1, b, j + 1, o_help);
        lemma_options_run_tail(a, i + 1, b, j + 1, o_list);
        lemma_options_run_tail(a, i + 1, b, j + 1, o_force);
        lemma_options_run_tail(a, i + 1, b, j + 1, OptionsView { selection: Some(a0), ..o });
        if i + 1 < a.len() {
            let a1 = a[i + 1];
            lemma_options_run_tail(a, i + 2, b, j + 2, OptionsView { contracts_dir: a1, ..o });
            lemma_options_run_tail(a, i + 2, b, j + 2, OptionsView { output_dir: a1, ..o });
            lemma_options_run_tail(a, i + 2, b, j + 2, OptionsView { parser_backend: ParserBackend::StringWalker, ..o });
            lemma_options_run_tail(a, i + 2, b, j + 2, OptionsView { args_json: Some(a1), ..o });
            lemma_options_run_tail(a, i + 2, b, j + 2, OptionsView { private_key: Some(a1), ..o });
        }
        let v1 = after_prefix(a0, "--contracts-dir="@);
        let v2 = after_prefix(a0, "--output-dir="@);
        let v4 = after_prefix(a0, "--args="@);
        let v5 = after_prefix(a0, "--private-key="@);
        lemma_options_run_tail(a, i + 1, b, j + 1, OptionsView { contracts_dir: v1, ..o });
        lemma_options_run_tail(a, i + 1, b, j + 1, OptionsView { output_dir: v2, ..o });
        lemma_options_run_tail(a, i + 1, b, j + 1, OptionsView { args_json: Some(v4), ..o });
        lemma_options_run_tail(a, i + 1, b, j + 1, OptionsView { private_key: Some(v5), ..o });
        lemma_options_run_tail(
            a,
            i + 1,
            b,
            j + 1,
            OptionsView { parser_backend: ParserBackend::StringWalker, ..o },
        );
    }
}

/// One of the options that take a value.
pub open spec fn takes_value(opt: Seq<char>) -> bool {
    ||| opt == "--contracts-dir"@
    ||| opt == "--output-dir"@
    ||| opt == "--parser"@
    ||| opt == "--args"@
    ||| opt == "--private-key"@
}

proof fn lemma_prefix_heads(x: Seq<char>, w: Seq<char>)
    requires
        w.len() >= 4,
    ensures
        has_prefix(x, w) ==> x[1] == w[1] && x[2] == w[2] && x[3] == w[3],
{
    if has_prefix(x, w) {
        assert(x.subrange(0, w.len() as int)[1] == x[1]);
        assert(x.subrange(0, w.len() as int)[2] == x[2]);
        assert(x.subrange(0, w.len() as int)[3] == x[3]);
    }
}

/// An option that takes a value reads the same whether the value follows
/// it after `=` or as the next argument: from where the option stands,
/// `opt=v` and `opt v`, followed by the same arguments, give the same
/// options or the same error.
pub proof fn lemma_option_value_forms_agree(
    p: Seq<Seq<char>>,
    opt: Seq<char>,
    v: Seq<char>,
    q: Seq<Seq<char>>,
    o: OptionsView,
)
    requires
        takes_value(opt),
        v.len() > 0,
    ensures
        options_run(p + seq![opt + "="@ + v] + q, p.len() as int, o) == options_run(
            p + seq![opt, v] + q,
            p.len() as int,
            o,
        ),
{
    let a1 = p + seq![opt + "="@ + v] + q;
    let a2 = p + seq![opt, v] + q;
    let i = p.len() as int;
    let x = opt + "="@ + v;
    assert(a1[i] == x);
    assert(a2[i] == opt);
    assert(a2[i + 1] == v);
    assert(a1.skip(i + 1) =~= q);
    assert(a2.skip(i + 2) =~= q);
    reveal_strlit("-h");
    reveal_strlit("--help");
    reveal_strlit("--list");
    reveal_strlit("--force");
    reveal_strlit("--contracts-dir");
    reveal_strlit("--contracts-dir=");
    reveal_strlit("--output-dir");
    reveal_strlit("--output-dir=");
    reveal_strlit("--parser");
    reveal_strlit("--parser=");
    reveal_strlit("--args");
    reveal_strlit("--args=");
    reveal_strlit("--private-key");
    reveal_strlit("--private-key=");
    reveal_strlit("--");
    reveal_strlit("=");
    let w = opt + "="@;
    assert(x =~= w + v);
    assert(x.subrange(0, w.len() as int) =~= w);
    assert(after_prefix(x, w) =~= v);
    assert(x.len() > opt.len() + 1);
    assert(x[2] == opt[2]);
    assert(x[3] == opt[3]);
    assert(x[opt.len() as int] == '=');
    assert(x[1] == opt[1]);
    assert(x != opt);
    lemma_prefix_heads(x, "--contracts-dir="@);
    lemma_prefix_heads(x, "--output-dir="@);
    lemma_prefix_heads(x, "--parser="@);
    lemma_prefix_heads(x, "--args="@);
    lemma_prefix_heads(x, "--private-key="@);
    assert(has_prefix(x, w));
    lemma_prefix_heads(opt, "--contracts-dir="@);
    lemma_prefix_heads(opt, "--output-dir="@);
    lemma_prefix_heads(opt, "--parser="@);
    lemma_prefix_heads(opt, "--args="@);
    let o1 = if opt == "--contracts-dir"@ {
        OptionsView { contracts_dir: v, ..o }
    } else if opt == "--output-dir"@ {
        OptionsView { output_dir: v, ..o }
    } else if opt == "--parser"@ {
        OptionsView { parser_backend: ParserBackend::StringWalker, ..o }
    } else if opt == "--args"@ {
        OptionsView { args_json: Some(v), ..o }
    } else {
        OptionsView { private_key: Some(v), ..o }
    };
    lemma_options_run_tail(a1, i + 1, a2, i + 2, o1);
    if opt == "--contracts-dir"@ {
        assert(w =~= "--contracts-dir="@);
    } else if opt == "--output-dir"@ {
        assert(w =~= "--output-dir="@);
    } else if opt == "--parser"@ {
        assert(w =~= "--parser="@);
    } else if opt == "--args"@ {
        assert(w =~= "--args="@);
    } else {
        assert(w =~= "--private-key="@);
    }
    if opt == "--private-key"@ && trim(v).len() == 0 {
        assert(options_run(a1, i, o) == Err::<OptionsView, Seq<char>>(requires_value("--private-key"@)));
        assert(options_run(a2, i, o) == Err::<OptionsView, Seq<char>>(requires_value("--private-key"@)));
    } else if opt == "--parser"@ && v != "string-walker"@ {
        assert(options_run(a1, i, o) == Err::<OptionsView, Seq<char>>(unknown_backend_message(v)));
        assert(options_run(a2, i, o) == Err::<OptionsView, Seq<char>>(unknown_backend_message(v)));
    } else if opt == "--contracts-dir"@ {
        assert(options_run(a1, i, o) == options_run(a1, i + 1, o1));
        assert(options_run(a2, i, o) == options_run(a2, i + 2, o1));
    } else if opt == "--output-dir"@ {
        assert(options_run(a1, i, o) == options_run(a1, i + 1, o1));
        assert(options_run(a2, i, o) == options_run(a2, i + 2, o1));
    } else if opt == "--parser"@ {
        assert(options_run(a1, i, o) == options_run(a1, i + 1, o1));
        assert(options_run(a2, i, o) == options_run(a2, i + 2, o1));
    } else if opt == "--args"@ {
        assert(options_run(a1, i, o) == options_run(a1, i + 1, o1));
        assert(options_run(a2, i, o) == options_run(a2, i + 2, o1));
    } else {
        assert(options_run(a1, i, o) == options_run(a1, i + 1, o1));
        assert(options_run(a2, i, o) == options_run(a2, i + 2, o1));
    }
}

/// Reading the arguments `p` from `i` on ends exactly at the end of `p`:
/// none of them is `--`, and each option that takes its value from the
/// next argument has that value inside `p`.
pub open spec fn settles(p: Seq<Seq<char>>, i: int) -> bool
    decreases p.len() - i,
{
    if i < 0 || i > p.len() {
        false
    } else if i == p.len() {
        true
    } else if p[i] == "--"@ {
        false
    } else if takes_value(p[i]) {
        i + 2 <= p.len() && settles(p, i + 2)
    } else {
        settles(p, i + 1)
    }
}

proof fn lemma_option_forms_after(
    p: Seq<Seq<char>>,
    i: int,
    opt: Seq<char>,
    v: Seq<char>,
    q: Seq<Seq<char>>,
    o: OptionsView,
)
    requires
        settles(p, i),
        takes_value(opt),
        v.len() > 0,
    ensures
        options_run(p + seq![opt + "="@ + v] + q, i, o) == options_run(p + seq![opt, v] + q, i, o),
    decreases p.len() - i,
{
    let a1 = p + seq![opt + "="@ + v] + q;
    let a2 = p + seq![opt, v] + q;
    reveal_strlit("-h");
    reveal_strlit("--help");
    reveal_strlit("--list");
    reveal_strlit("--force");
    reveal_strlit("--contracts-dir");
    reveal_strlit("--output-dir");
    reveal_strlit("--parser");
    reveal_strlit("--args");
    reveal_strlit("--private-key");
    reveal_strlit("--");
    reveal_strlit("--contracts-dir=");
    reveal_strlit("--output-dir=");
    reveal_strlit("--parser=");
    reveal_strlit("--args=");
    reveal_strlit("--private-key=");
    if i == p.len() {
        lemma_option_value_forms_agree(p, opt, v, q, o);
    } else {
        let a = p[i];
        assert(a1[i] == a);
        assert(a2[i] == a);
        assert(i + 1 < a1.len() && i + 1 < a2.len());
        if takes_value(a) {
            assert(a1[i + 1] == p[i + 1]);
            assert(a2[i + 1] == p[i + 1]);
            let n = p[i + 1];
            lemma_prefix_heads(a, "--contracts-dir="@);
            lemma_prefix_heads(a, "--output-dir="@);
            lemma_prefix_heads(a, "--parser="@);
            lemma_prefix_heads(a, "--args="@);
            lemma_prefix_heads(a, "--private-key="@);
            lemma_option_forms_after(p, i + 2, opt, v, q, OptionsView { contracts_dir: n, ..o });
            lemma_option_forms_after(p, i + 2, opt, v, q, OptionsView { output_dir: n, ..o });
            lemma_option_forms_after(
                p,
                i + 2,
                opt,
                v,
                q,
                OptionsView { parser_backend: ParserBackend::StringWalker, ..o },
            );
            lemma_option_forms_after(p, i + 2, opt, v, q, OptionsView { args_json: Some(n), ..o });
            lemma_option_forms_after(p, i + 2, opt, v, q, OptionsView { private_key: Some(n), ..o });
            if a == "--contracts-dir"@ {
                assert(options_run(a1, i, o) == options_run(a1, i + 2, OptionsView { contracts_dir: n, ..o }));
                assert(options_run(a2, i, o) == options_run(a2, i + 2, OptionsView { contracts_dir: n, ..o }));
            } else if a == "--output-dir"@ {
                assert(options_run(a1, i, o) == options_run(a2, i, o));
            } else if a == "--parser"@ {
                assert(options_run(a1, i, o) == options_run(a2, i, o));
            } else if a == "--args"@ {
                assert(!has_prefix(a, "--contracts-dir="@));
                assert(!has_prefix(a, "--output-dir="@));
                assert(!has_prefix(a, "--parser="@));
                assert(a != "--parser"@);
                assert(options_run(a1, i, o) == options_run(a1, i + 2, OptionsView { args_json: Some(n), ..o }));
                assert(options_run(a2, i, o) == options_run(a2, i + 2, OptionsView { args_json: Some(n), ..o }));
            } else {
                assert(!has_prefix(a, "--contracts-dir="@));
                assert(!has_prefix(a, "--output-dir="@));
                assert(!has_prefix(a, "--parser="@));
                assert(!has_prefix(a, "--args="@));
                assert(options_run(a1, i, o) == options_run(a2, i, o));
            }
        } else {
            lemma_option_forms_after(p, i + 1, opt, v, q, OptionsView { help: true, ..o });
            lemma_option_forms_after(p, i + 1, opt, v, q, OptionsView { list: true, ..o });
            lemma_option_forms_after(p, i + 1, opt, v, q, OptionsView { force: true, ..o });
            lemma_option_forms_after(p, i + 1, opt, v, q, OptionsView { selection: Some(a), ..o });
            lemma_option_forms_after(
                p,
                i + 1,
                opt,
                v,
                q,
                OptionsView { contracts_dir: after_prefix(a, "--contracts-dir="@), ..o },
            );
            lemma_option_forms_after(
                p,
                i + 1,
                opt,
                v,
                q,
                OptionsView { output_dir: after_prefix(a, "--output-dir="@), ..o },
            );
            lemma_option_forms_after(
                p,
                i + 1,
                opt,
                v,
                q,
                OptionsView { parser_backend: ParserBackend::StringWalker, ..o },
            );
            lemma_option_forms_after(
                p,
                i + 1,
                opt,
                v,
                q,
                OptionsView { args_json: Some(after_prefix(a, "--args="@)), ..o },
            );
            lemma_option_forms_after(
                p,
                i + 1,
                opt,
                v,
                q,
                OptionsView { private_key: Some(after_prefix(a, "--private-key="@)), ..o },
            );
            assert(options_run(a1, i, o) == options_run(a2, i, o));
        }
    }
}

/// On a whole command line `p`, then the option, then `q`: where reading
/// `p` past the program name ends at the end of `p` (see `settles`),
/// `opt=v` and `opt v` give the same options or the same error.
pub proof fn lemma_option_forms_agree_on_command_line(
    p: Seq<Seq<char>>,
    opt: Seq<char>,
    v: Seq<char>,
    q: Seq<Seq<char>>,
)
    requires
        p.len() >= 1,
        settles(p, 1),
        takes_value(opt),
        v.len() > 0,
    ensures
        options_of(p + seq![opt + "="@ + v] + q) == options_of(p + seq![opt, v] + q),
{
    lemma_option_forms_after(p, 1, opt, v, q, default_options());
}

proof fn lemma_help_forms_after(
    p: Seq<Seq<char>>,
    i: int,
    q: Seq<Seq<char>>,
    o: OptionsView,
)
    requires
        settles(p, i),
    ensures
        options_run(p + seq!["-h"@] + q, i, o) == options_run(p + seq!["--help"@] + q, i, o),
    decreases p.len() - i,
{
    let a1 = p + seq!["-h"@] + q;
    let a2 = p + seq!["--help"@] + q;
    reveal_strlit("-h");
    reveal_strlit("--help");
    reveal_strlit("--list");
    reveal_strlit("--force");
    reveal_strlit("--contracts-dir");
    reveal_strlit("--output-dir");
    reveal_strlit("--parser");
    reveal_strlit("--args");
    reveal_strlit("--private-key");
    reveal_strlit("--");
    reveal_strlit("--contracts-dir=");
    reveal_strlit("--output-dir=");
    reveal_strlit("--parser=");
    reveal_strlit("--args=");
    reveal_strlit("--private-key=");
    if i == p.len() {
        assert(a1[i] == "-h"@);
        assert(a2[i] == "--help"@);
        assert(a1.skip(i + 1) =~= q);
        assert(a2.skip(i + 1) =~= q);
        lemma_options_run_tail(a1, i + 1, a2, i + 1, OptionsView { help: true, ..o });
    } else {
        let a = p[i];
        assert(a1[i] == a);
        assert(a2[i] == a);
        assert(i + 1 < a1.len() && i + 1 < a2.len());
        if takes_value(a) {
            assert(a1[i + 1] == p[i + 1]);
            assert(a2[i + 1] == p[i + 1]);
            let n = p[i + 1];
            lemma_prefix_heads(a, "--contracts-dir="@);
            lemma_prefix_heads(a, "--output-dir="@);
            lemma_prefix_heads(a, "--parser="@);
            lemma_prefix_heads(a, "--args="@);
            lemma_prefix_heads(a, "--private-key="@);
            lemma_help_forms_after(p, i + 2, q, OptionsView { contracts_dir: n, ..o });
            lemma_help_forms_after(p, i + 2, q, OptionsView { output_dir: n, ..o });
            lemma_help_forms_after(
                p,
                i + 2,
                q,
                OptionsView { parser_backend: ParserBackend::StringWalker, ..o },
            );
            lemma_help_forms_after(p, i + 2, q, OptionsView { args_json: Some(n), ..o });
            lemma_help_forms_after(p, i + 2, q, OptionsView { private_key: Some(n), ..o });
            if a == "--contracts-dir"@ {
                assert(options_run(a1, i, o) == options_run(a1, i + 2, OptionsView { contracts_dir: n, ..o }));
                assert(options_run(a2, i, o) == options_run(a2, i + 2, OptionsView { contracts_dir: n, ..o }));
            } else if a == "--output-dir"@ {
                assert(options_run(a1, i, o) == options_run(a2, i, o));
            } else if a == "--parser"@ {
                assert(options_run(a1, i, o) == options_run(a2, i, o));
            } else if a == "--args"@ {
                assert(!has_prefix(a, "--contracts-dir="@));
                assert(!has_prefix(a, "--output-dir="@));
                assert(!has_prefix(a, "--parser="@));
                assert(a != "--parser"@);
                assert(options_run(a1, i, o) == options_run(a1, i + 2, OptionsView { args_json: Some(n), ..o }));
                assert(options_run(a2, i, o) == options_run(a2, i + 2, OptionsView { args_json: Some(n), ..o }));
            } else {
                assert(!has_prefix(a, "--contracts-dir="@));
                assert(!has_prefix(a, "--output-dir="@));
                assert(!has_prefix(a, "--parser="@));
                assert(!has_prefix(a, "--args="@));
                assert(options_run(a1, i, o) == options_run(a2, i, o));
            }
        } else {
            lemma_help_forms_after(p, i + 1, q, OptionsView { help: true, ..o });
            lemma_help_forms_after(p, i + 1, q, OptionsView { list: true, ..o });
            lemma_help_forms_after(p, i + 1, q, OptionsView { force: true, ..o });
            lemma_help_forms_after(p, i + 1, q, OptionsView { selection: Some(a), ..o });
            lemma_help_forms_after(
                p,
                i + 1,
                q,
                OptionsView { contracts_dir: after_prefix(a, "--contracts-dir="@), ..o },
            );
            lemma_help_forms_after(
                p,
                i + 1,
                q,
                OptionsView { output_dir: after_prefix(a, "--output-dir="@), ..o },
            );
            lemma_help_forms_after(
                p,
                i + 1,
                q,
                OptionsView { parser_backend: ParserBackend::StringWalker, ..o },
            );
            lemma_help_forms_after(
                p,
                i + 1,
                q,
                OptionsView { args_json: Some(after_prefix(a, "--args="@)), ..o },
            );
            lemma_help_forms_after(
                p,
                i + 1,
                q,
                OptionsView { private_key: Some(after_prefix(a, "--private-key="@)), ..o },
            );
            assert(options_run(a1, i, o) == options_run(a2, i, o));
        }
    }
}

/// `--help` is read as `-h` is: on a command line `p`, then either
/// spelling, then `q`, where reading `p` past the program name ends at the
/// end of `p` (see `settles`), both give the same options or the same
/// error; and `--help` alone asks for help and leaves every other option
/// at its default.
pub proof fn lemma_help_spellings_agree(p: Seq<Seq<char>>, q: Seq<Seq<char>>, program: Seq<char>)
    requires
        p.len() >= 1,
        settles(p, 1),
    ensures
        options_of(p + seq!["-h"@] + q) == options_of(p + seq!["--help"@] + q),
        options_of(seq![program, "--help"@]) == Ok::<OptionsView, Seq<char>>(
            OptionsView { help: true, ..default_options() },
        ),
{
    reveal_strlit("-h");
    reveal_strlit("--help");
    lemma_help_forms_after(p, 1, q, default_options());
    let h = seq![program, "--help"@];
    assert(options_run(h, 2, OptionsView { help: true, ..default_options() }) == Ok::<
        OptionsView,
        Seq<char>,
    >(OptionsView { help: true, ..default_options() }));
}

} // verus!
