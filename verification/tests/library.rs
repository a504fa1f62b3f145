use forge_scriptgen::cli::parse_args;
use forge_scriptgen::comments::strip_comments;
use forge_scriptgen::contracts::{
    extract_pragma, parse_contracts_with_string_walker, ContractInfo, ContractParser,
    ParserBackend, StringWalkerParser,
};
use forge_scriptgen::discover::{discover_contracts_with_parser, is_solidity_file, SourceFile};
use forge_scriptgen::input::{accept_input, get_private_key};
use forge_scriptgen::json::{args_from_json, parse_args_json, parse_json_arg_value, JsonArg};
use forge_scriptgen::params::{
    extract_param_name, is_reserved_suffix, parse_constructor_params, split_parameters,
    ConstructorParam,
};
use forge_scriptgen::paths::{
    anchor, compute_import_path, relative_from_parts, relative_path_between, replace_backslashes,
    PathPart,
};
use forge_scriptgen::render::{
    argument_prompt, check_argument_count, check_overwrite, contract_list_text, decimal_string,
    help_text, parameters_heading, render_script, script_file_name,
};
use forge_scriptgen::scan::{
    find_matching_brace, find_matching_paren, find_next_char, identifier_end,
    is_abstract_contract, is_identifier_boundary, skip_whitespace,
};
use forge_scriptgen::plan::{plan_run, script_location, ArgSource, RunStep};
use forge_scriptgen::select::{select_contract, selects_by_parts, sort_paths};
use forge_scriptgen::text::{chars_of, is_identifier_char, is_whitespace};
use forge_scriptgen::tracker::{BracketTracker, StringTracker};

fn args(list: &[&str]) -> Vec<String> {
    list.iter().map(|s| s.to_string()).collect()
}

fn param(raw: &str, name: Option<&str>) -> ConstructorParam {
    ConstructorParam { raw: raw.to_string(), name: name.map(|n| n.to_string()) }
}

fn info(name: &str, rel: &str, params: Vec<ConstructorParam>, pragma: Option<&str>) -> ContractInfo {
    ContractInfo {
        name: name.to_string(),
        absolute_path: format!("/p/{rel}"),
        relative_path: rel.to_string(),
        constructor_params: params,
        pragma: pragma.map(|p| p.to_string()),
    }
}

// ---- characters and trackers

#[test]
fn whitespace_and_identifier_classes() {
    assert!(is_whitespace(' '));
    assert!(is_whitespace('\t'));
    assert!(is_whitespace('\u{a0}'));
    assert!(is_whitespace('\u{3000}'));
    assert!(!is_whitespace('a'));
    assert!(is_identifier_char('_'));
    assert!(is_identifier_char('Z'));
    assert!(is_identifier_char('7'));
    assert!(!is_identifier_char('$'));
    assert!(!is_identifier_char('é'));
}

#[test]
fn string_tracker_opens_escapes_and_closes() {
    let mut t = StringTracker::new();
    assert!(!t.in_string());
    t.consume('"');
    assert!(t.in_string());
    t.consume('\\');
    t.consume('"');
    assert!(t.in_string());
    t.consume('"');
    assert!(!t.in_string());
    t.consume('\'');
    assert!(t.in_string());
    t.reset();
    assert!(!t.in_string());
    assert_eq!(t, StringTracker::default());
}

#[test]
fn bracket_tracker_splits_only_at_top_level() {
    let mut b = BracketTracker::new();
    assert!(b.should_split_on_comma(','));
    assert!(!b.should_split_on_comma(';'));
    b.consume('(');
    assert!(!b.should_split_on_comma(','));
    b.consume(')');
    b.consume(')');
    assert_eq!(b.paren_depth, 0);
    b.consume('"');
    assert!(!b.should_split_on_comma(','));
    b.consume('(');
    assert_eq!(b.paren_depth, 0);
}

// ---- scanning

#[test]
fn scanning_positions() {
    let s = chars_of("  ab_1 (x) {y}");
    assert_eq!(skip_whitespace(&s, 0), 2);
    assert_eq!(identifier_end(&s, 2), 6);
    assert_eq!(find_next_char(&s, 0, '('), Some(7));
    assert_eq!(find_next_char(&s, 8, '('), None);
    assert_eq!(find_matching_paren(&s, 7), Some(9));
    assert_eq!(find_matching_brace(&s, 11), Some(13));
    let q = chars_of("{ \"}\" { } }");
    assert_eq!(find_matching_brace(&q, 0), Some(10));
    assert!(is_identifier_boundary(&s, 2, 6));
    assert!(!is_identifier_boundary(&s, 3, 6));
    let a = chars_of("abstract   contract X");
    assert!(is_abstract_contract(&a, 11));
    let b = chars_of("notabstract contract X");
    assert!(!is_abstract_contract(&b, 12));
}

// ---- comments

#[test]
fn strip_comments_keeps_every_line_break() {
    let source = "a // one\nb /* two\nthree */ c\n";
    let stripped = strip_comments(source);
    assert_eq!(stripped, "a \nb \n c\n");
    assert_eq!(stripped.matches('\n').count(), source.matches('\n').count());
}

#[test]
fn strip_comments_without_slash_is_identity() {
    let source = "contract A { uint x = 1 * 2; }";
    assert_eq!(strip_comments(source), source);
}

#[test]
fn strip_comments_unterminated_block_and_quotes() {
    assert_eq!(strip_comments("x /* open\nstill"), "x \n");
    assert_eq!(strip_comments("'//' done"), "'//' done");
    assert_eq!(strip_comments("a/*/b*/c"), "ac");
}

// ---- parameters

#[test]
fn split_parameters_edge_cases() {
    assert!(split_parameters("").is_empty());
    assert!(split_parameters(" , ,").is_empty());
    assert_eq!(split_parameters(" string s = \"a,b\" , uint[2] x"), vec![
        "string s = \"a,b\"".to_string(),
        "uint[2] x".to_string()
    ]);
    assert_eq!(split_parameters("mapping(a => b) m, c"), vec!["mapping(a => b) m", "c"]);
}

#[test]
fn split_parameters_pieces_are_trimmed_and_non_empty() {
    for part in split_parameters("  a b ,\t, c  ,(d, e)  ") {
        assert!(!part.is_empty());
        assert_eq!(part.trim(), part);
    }
}

#[test]
fn extract_param_name_cases() {
    assert_eq!(extract_param_name("uint256"), None);
    assert_eq!(extract_param_name("   "), None);
    assert_eq!(extract_param_name("string memory"), Some("string".to_string()));
    assert_eq!(extract_param_name("address payable Owner_1"), Some("Owner_1".to_string()));
    assert_eq!(extract_param_name("bytes CALLDATA"), Some("bytes".to_string()));
    assert_eq!(extract_param_name("uint[] memory values;"), Some("values".to_string()));
}

#[test]
fn reserved_suffixes_in_any_case() {
    assert!(is_reserved_suffix("memory"));
    assert!(is_reserved_suffix("Override"));
    assert!(is_reserved_suffix("STORAGE"));
    assert!(!is_reserved_suffix("memoryx"));
    assert!(!is_reserved_suffix("owner"));
}

#[test]
fn constructor_params_skip_literals_and_longer_words() {
    let body = "string s = \"constructor(uint a)\"; function constructorX(uint b) {} constructor(uint c) {}";
    let params = parse_constructor_params(body);
    assert_eq!(params.len(), 1);
    assert_eq!(params[0].raw, "uint c");
    assert_eq!(params[0].name.as_deref(), Some("c"));
    assert!(parse_constructor_params("function f() {}").is_empty());
    assert!(parse_constructor_params("constructor(uint a").is_empty());
}

// ---- contracts

#[test]
fn contracts_in_comments_and_strings_are_not_found() {
    let source = r#"
        // contract Hidden {}
        /* contract AlsoHidden {} */
        string constant s = "contract InString {}";
        contract Visible { constructor(uint x) {} }
    "#;
    let contracts = parse_contracts_with_string_walker(source);
    assert_eq!(contracts.len(), 1);
    assert_eq!(contracts[0].name, "Visible");
    assert_eq!(contracts[0].constructor_params.len(), 1);
}

#[test]
fn contract_without_name_or_body_is_skipped() {
    assert!(parse_contracts_with_string_walker("contract {").is_empty());
    assert!(parse_contracts_with_string_walker("contract A").is_empty());
    assert!(parse_contracts_with_string_walker("mycontract A {}").is_empty());
    let c = parse_contracts_with_string_walker("contract A is B, C {}");
    assert_eq!(c.len(), 1);
    assert_eq!(c[0].name, "A");
    assert!(c[0].constructor_params.is_empty());
}

#[test]
fn found_names_are_identifiers() {
    let source = "contract A_1 {} contract\n  B2 { } abstract contract C {}";
    for c in parse_contracts_with_string_walker(source) {
        assert!(!c.name.is_empty());
        assert!(c.name.chars().all(|ch| ch.is_ascii_alphanumeric() || ch == '_'));
    }
}

#[test]
fn string_walker_parser_never_fails() {
    let parsed = StringWalkerParser.parse("contract Z {}").unwrap();
    assert_eq!(parsed[0].name, "Z");
}

#[test]
fn parser_backend_rejects_unknown_value() {
    assert_eq!(
        ParserBackend::parse("ast").unwrap_err(),
        "Unknown parser backend 'ast'. Available backends: string-walker"
    );
    assert_eq!(ParserBackend::default(), ParserBackend::StringWalker);
}

#[test]
fn extract_pragma_cases() {
    assert_eq!(
        extract_pragma("// x\n   pragma solidity ^0.8.20;;  \r\ncontract A {}"),
        Some("pragma solidity ^0.8.20".to_string())
    );
    assert_eq!(extract_pragma("pragma abicoder v2;\n"), None);
    assert_eq!(extract_pragma(""), None);
    assert_eq!(extract_pragma("pragma solidity >=0.8"), Some("pragma solidity >=0.8".to_string()));
}

#[test]
fn constructor_signature_forms() {
    let none = info("A", "src/A.sol", vec![], None);
    assert_eq!(none.constructor_signature(), "constructor()");
    let two = info("B", "src/B.sol", vec![param("uint a", Some("a")), param("bool b", Some("b"))], None);
    assert_eq!(two.constructor_signature(), "constructor(uint a, bool b)");
}

// ---- command line

#[test]
fn parse_args_defaults_and_flags() {
    let o = parse_args(&args(&["prog"])).unwrap();
    assert_eq!(o.contracts_dir, "src");
    assert_eq!(o.output_dir, "script");
    assert_eq!(o.parser_backend, ParserBackend::StringWalker);
    assert!(o.selection.is_none() && !o.list && !o.help && !o.force);

    let o = parse_args(&args(&[
        "prog", "--list", "--force", "-h", "--contracts-dir", "contracts", "--output-dir=out",
        "--parser=string-walker", "--args=[1]", "--private-key", " 0xab ", "Counter",
    ]))
    .unwrap();
    assert!(o.list && o.force && o.help);
    assert_eq!(o.contracts_dir, "contracts");
    assert_eq!(o.output_dir, "out");
    assert_eq!(o.args_json.as_deref(), Some("[1]"));
    assert_eq!(o.private_key.as_deref(), Some(" 0xab "));
    assert_eq!(o.selection.as_deref(), Some("Counter"));
}

#[test]
fn parse_args_double_dash_ends_options() {
    let o = parse_args(&args(&["prog", "--", "--weird", "ignored"])).unwrap();
    assert_eq!(o.selection.as_deref(), Some("--weird"));
    let o = parse_args(&args(&["prog", "A", "--"])).unwrap();
    assert_eq!(o.selection.as_deref(), Some("A"));
}

#[test]
fn parse_args_errors() {
    assert_eq!(parse_args(&args(&["p", "--contracts-dir"])).unwrap_err(), "--contracts-dir requires a value");
    assert_eq!(parse_args(&args(&["p", "--contracts-dir="])).unwrap_err(), "--contracts-dir requires a value");
    assert_eq!(parse_args(&args(&["p", "--output-dir"])).unwrap_err(), "--output-dir requires a value");
    assert_eq!(parse_args(&args(&["p", "--parser"])).unwrap_err(), "--parser requires a value");
    assert_eq!(
        parse_args(&args(&["p", "--parser", "ast"])).unwrap_err(),
        "Unknown parser backend 'ast'. Available backends: string-walker"
    );
    assert_eq!(parse_args(&args(&["p", "--args"])).unwrap_err(), "--args requires a JSON array");
    assert_eq!(parse_args(&args(&["p", "--args="])).unwrap_err(), "--args requires a JSON array");
    assert_eq!(parse_args(&args(&["p", "--private-key", "  "])).unwrap_err(), "--private-key requires a value");
    assert_eq!(parse_args(&args(&["p", "--private-key= "])).unwrap_err(), "--private-key requires a value");
    assert_eq!(parse_args(&args(&["p", "--nope"])).unwrap_err(), "Unknown option: --nope");
    assert_eq!(
        parse_args(&args(&["p", "A", "B"])).unwrap_err(),
        "Only one contract selection can be provided"
    );
}

#[test]
fn help_text_names_the_program() {
    let h = help_text("fsg");
    assert!(h.starts_with("forge-scriptgen - Generate Foundry deployment scripts\n\nUsage: fsg [OPTIONS] <CONTRACT>\n"));
    assert!(h.contains("  --args <JSON>           Constructor arguments as JSON array; use {\"raw\":\"...\"} for Solidity literals\n"));
    assert!(h.contains("  fsg Counter\n"));
    assert!(h.ends_with("{\"raw\":\"hex\\\"1234\\\"\"}]' --private-key 0xabc123 ComplexDeployment\n"));
}

// ---- JSON arguments

#[test]
fn json_arguments_keep_json_text_for_plain_values() {
    let a = parse_args_json(r#"[true, 1.5, -3, "x\"y", [1, "a"]]"#).unwrap();
    assert_eq!(a, vec!["true", "1.5", "-3", "\"x\\\"y\"", "[1,\"a\"]"]);
    assert!(parse_args_json("[]").unwrap().is_empty());
}

#[test]
fn json_argument_errors() {
    assert!(parse_args_json("[1,").unwrap_err().starts_with("Failed to parse --args JSON array: "));
    assert_eq!(parse_args_json("{}").unwrap_err(), "--args expects a JSON array, e.g. '[42, \"0xdead\"]'");
    assert_eq!(
        parse_args_json("[1, null]").unwrap_err(),
        "Null is not a valid Solidity constructor argument. Use a Solidity literal instead."
    );
    assert_eq!(parse_args_json(r#"[{"raw":"  "}]"#).unwrap_err(), "Raw Solidity literal cannot be empty.");
    assert_eq!(
        parse_args_json(r#"[{"other":"x"}]"#).unwrap_err(),
        "JSON objects are only supported as raw Solidity literals, e.g. {\"raw\":\"Foo({bar: 1})\"}."
    );
    assert_eq!(
        parse_args_json(r#"[{"raw":5,"solidity":"s"}]"#).unwrap_err(),
        "JSON objects are only supported as raw Solidity literals, e.g. {\"raw\":\"Foo({bar: 1})\"}."
    );
}

#[test]
fn raw_literal_is_passed_verbatim() {
    let v = JsonArg::Object(vec![("raw".to_string(), Some(" Foo({a: 1}) ".to_string()))]);
    assert_eq!(parse_json_arg_value(&v).unwrap(), " Foo({a: 1}) ");
    let w = JsonArg::Object(vec![("solidity".to_string(), Some("cb".to_string()))]);
    assert_eq!(parse_json_arg_value(&w).unwrap(), "cb");
    assert!(parse_json_arg_value(&JsonArg::Null).is_err());
    assert_eq!(parse_json_arg_value(&JsonArg::Literal("7".to_string())).unwrap(), "7");
}

#[test]
fn raw_member_comes_before_solidity_member() {
    let both = JsonArg::Object(vec![
        ("raw".to_string(), Some("r".to_string())),
        ("solidity".to_string(), Some("s".to_string())),
    ]);
    assert_eq!(parse_json_arg_value(&both).unwrap(), "r");
    let other_key = JsonArg::Object(vec![("rawx".to_string(), Some("r".to_string()))]);
    assert!(parse_json_arg_value(&other_key).is_err());
    assert_eq!(parse_args_json(r#"[{"solidity":"s","raw":"r"}]"#).unwrap(), vec!["r".to_string()]);
    assert_eq!(parse_args_json(r#"[{"solidity":"s","x":"r"}]"#).unwrap(), vec!["s".to_string()]);
}

#[test]
fn args_from_json_stops_at_first_refused_item() {
    let doc = Ok(Some(vec![
        JsonArg::Literal("1".to_string()),
        JsonArg::Null,
        JsonArg::Object(vec![]),
    ]));
    assert_eq!(
        args_from_json(doc).unwrap_err(),
        "Null is not a valid Solidity constructor argument. Use a Solidity literal instead."
    );
    assert_eq!(args_from_json(Err("bad".to_string())).unwrap_err(), "Failed to parse --args JSON array: bad");
    assert!(args_from_json(Ok(None)).is_err());
}

// ---- inputs

#[test]
fn private_key_and_typed_values() {
    assert_eq!(get_private_key(Some("  0xabc \n")).unwrap(), Some("0xabc".to_string()));
    assert_eq!(get_private_key(Some("   ")).unwrap_err(), "Private key cannot be empty.");
    assert_eq!(get_private_key(None).unwrap(), None);
    assert_eq!(accept_input("  42\n"), Some("42".to_string()));
    assert_eq!(accept_input("\n"), None);
}

// ---- rendering

#[test]
fn decimal_string_values() {
    assert_eq!(decimal_string(0), "0");
    assert_eq!(decimal_string(7), "7");
    assert_eq!(decimal_string(10), "10");
    assert_eq!(decimal_string(1203), "1203");
    assert_eq!(decimal_string(usize::MAX), usize::MAX.to_string());
}

#[test]
fn render_script_exact_text() {
    let c = info("Counter", "src/Counter.sol", vec![param("uint a", Some("a"))], Some("pragma solidity ^0.8.18"));
    let s = render_script(&c, "../src/Counter.sol", &["42".to_string(), "\"x\"".to_string()], "0x01");
    assert_eq!(
        s,
        "// SPDX-License-Identifier: UNLICENSED\n// Generated by forge-scriptgen.\npragma solidity ^0.8.18;\n\nimport \"forge-std/Script.sol\";\nimport \"../src/Counter.sol\";\n\ncontract CounterScript is Script {\n    function run() public {\n        uint256 deployerPrivateKey = 0x01;\n        vm.startBroadcast(deployerPrivateKey);\n\n        Counter instance = new Counter(42, \"x\");\n        vm.stopBroadcast();\n    }\n}\n"
    );
}

#[test]
fn render_script_default_pragma_and_no_args() {
    let c = info("A", "src/A.sol", vec![], Some("pragma abicoder v2"));
    let s = render_script(&c, "x", &[], "k");
    assert!(s.contains("\npragma solidity ^0.8.23;\n"));
    assert!(s.contains("        A instance = new A();\n"));
    let d = info("A", "src/A.sol", vec![], None);
    assert!(render_script(&d, "x", &[], "k").contains("\npragma solidity ^0.8.23;\n"));
}

#[test]
fn listing_and_prompts() {
    let cs = vec![
        info("A", "src/A.sol", vec![], None),
        info("B", "src/B.sol", vec![param("uint x", Some("x")), param("(a, b) memory", None)], None),
    ];
    assert_eq!(
        contract_list_text(&cs),
        "- A (src/A.sol)\n  constructor(): no parameters\n- B (src/B.sol)\n  constructor(uint x, (a, b) memory)\n    [0] uint x\n    [1] (a, b) memory\n"
    );
    assert_eq!(argument_prompt(0, &cs[1].constructor_params[0]), "  [0] x (uint x)");
    assert_eq!(argument_prompt(11, &cs[1].constructor_params[1]), "  [11] (a, b) memory");
    assert_eq!(parameters_heading(&cs[1]), "Constructor parameters for 'B': constructor(uint x, (a, b) memory)");
}

#[test]
fn argument_count_and_overwrite_checks() {
    let c = info("B", "src/B.sol", vec![param("uint x", Some("x"))], None);
    assert!(check_argument_count(&c, 1).is_ok());
    assert_eq!(
        check_argument_count(&c, 3).unwrap_err(),
        "Constructor for 'B' expects 1 argument(s) but 3 provided."
    );
    assert!(check_overwrite(false, false, "script/B.s.sol").is_ok());
    assert!(check_overwrite(true, true, "script/B.s.sol").is_ok());
    assert_eq!(
        check_overwrite(true, false, "script/B.s.sol").unwrap_err(),
        "Script 'script/B.s.sol' already exists. Use --force to overwrite."
    );
    assert_eq!(script_file_name("B"), "B.s.sol");
}

// ---- paths

#[test]
fn path_components_read_by_std() {
    assert_eq!(relative_path_between("/a//b/./c/", "/a/b/c/d.sol").as_deref(), Some("d.sol"));
    assert_eq!(relative_path_between("/a/b/c", "/a//b/./c/").as_deref(), Some("."));
    assert_eq!(relative_path_between("/a/b", "/a/b/./e/").as_deref(), Some("e"));
}

#[test]
fn relative_paths() {
    assert_eq!(relative_path_between("/p/script", "/p/src/A.sol").as_deref(), Some("../src/A.sol"));
    assert_eq!(relative_path_between("/p/a/b", "/p/a/b").as_deref(), Some("."));
    assert_eq!(relative_path_between("/p/a/b", "/p").as_deref(), Some("../.."));
    assert_eq!(relative_path_between("/p", "/p/x/y.sol").as_deref(), Some("x/y.sol"));
    assert_eq!(relative_path_between("rel/dir", "rel/dir/z").as_deref(), Some("z"));
}

#[test]
fn import_paths() {
    assert_eq!(
        compute_import_path("/p/script/A.s.sol", "/p/src/A.sol", "/p").as_deref(),
        Some("../src/A.sol")
    );
    assert_eq!(
        compute_import_path("script/A.s.sol", "src/deep/A.sol", "/p").as_deref(),
        Some("../src/deep/A.sol")
    );
    assert_eq!(compute_import_path("/", "/p/src/A.sol", "/p"), None);
    assert_eq!(replace_backslashes("a\\b\\c"), "a/b/c");
    assert_eq!(anchor("src", "/p"), "/p/src");
    assert_eq!(anchor("/abs", "/p"), "/abs");
}

#[test]
fn sorting_paths_by_components() {
    let sorted = sort_paths(&args(&["/p/src/a.b", "/p/src/a/b", "/p/src/B.sol", "/p/src/a/b"]));
    assert_eq!(sorted, args(&["/p/src/B.sol", "/p/src/a/b", "/p/src/a/b", "/p/src/a.b"]));
}

#[test]
fn solidity_file_names() {
    assert!(is_solidity_file("A.sol"));
    assert!(is_solidity_file("a.b.SOL"));
    assert!(!is_solidity_file(".sol"));
    assert!(!is_solidity_file("sol"));
    assert!(!is_solidity_file("A.sol.bak"));
    assert!(!is_solidity_file("A.so"));
}

// ---- discovery and selection

#[test]
fn discovery_relative_paths_and_pragmas() {
    let files = vec![
        SourceFile { path: "/p/src/A.sol".to_string(), source: "pragma solidity 0.8.1;\ncontract A {} contract B {}".to_string() },
        SourceFile { path: "/elsewhere/C.sol".to_string(), source: "contract C { constructor(uint z) {} }".to_string() },
    ];
    let cs = discover_contracts_with_parser("/p", &files, &StringWalkerParser).unwrap();
    assert_eq!(cs.len(), 3);
    assert_eq!(cs[0].relative_path, "src/A.sol");
    assert_eq!(cs[1].name, "B");
    assert_eq!(cs[1].pragma.as_deref(), Some("pragma solidity 0.8.1"));
    assert_eq!(cs[2].relative_path, "/elsewhere/C.sol");
    assert_eq!(cs[2].absolute_path, "/elsewhere/C.sol");
    assert_eq!(cs[2].pragma, None);
    assert_eq!(cs[2].constructor_params[0].name.as_deref(), Some("z"));
}

#[test]
fn selection_by_name_path_and_file_name() {
    let cs = vec![
        info("Token", "src/Token.sol", vec![], None),
        info("Vault", "src/vaults/Vault.sol", vec![], None),
    ];
    assert_eq!(select_contract(&cs, "Vault").unwrap().name, "Vault");
    assert_eq!(select_contract(&cs, "src\\vaults\\Vault.sol").unwrap().name, "Vault");
    assert_eq!(select_contract(&cs, "Token.sol").unwrap().name, "Token");
    assert_eq!(select_contract(&cs, "Nothing").unwrap_err(), "No contract matching 'Nothing' was found");
}

#[test]
fn selection_ambiguity_lists_candidates_in_path_order() {
    let cs = vec![
        info("Same", "src/z/Same.sol", vec![], None),
        info("Same", "src/a/Same.sol", vec![], None),
    ];
    assert_eq!(
        select_contract(&cs, "Same").unwrap_err(),
        "Multiple contracts matched 'Same'. Be more specific: Same (src/a/Same.sol), Same (src/z/Same.sol)"
    );
}

#[test]
fn selection_of_repeated_entry_takes_first() {
    let cs = vec![
        info("Dup", "src/Dup.sol", vec![param("uint a", Some("a"))], None),
        info("Dup", "src//Dup.sol", vec![], None),
    ];
    let c = select_contract(&cs, "Dup").unwrap();
    assert_eq!(c.constructor_params.len(), 1);
}

// ---- the step after discovery

fn options_from(words: &[&str]) -> forge_scriptgen::cli::Options {
    let args: Vec<String> = words.iter().map(|w| w.to_string()).collect();
    parse_args(&args).unwrap()
}

#[test]
fn plan_reports_no_contracts_with_the_directory() {
    let o = options_from(&["forge-scriptgen", "--contracts-dir", "contracts", "A"]);
    match plan_run(&[], &o).unwrap() {
        RunStep::NoContracts(m) => assert_eq!(m, "No deployable contracts found under contracts"),
        _ => panic!("expected the message for no contracts"),
    }
}

#[test]
fn plan_lists_or_asks_for_a_selection() {
    let cs = vec![info("A", "src/A.sol", vec![], None)];
    assert!(matches!(plan_run(&cs, &options_from(&["p", "--list"])).unwrap(), RunStep::ShowList));
    assert_eq!(
        plan_run(&cs, &options_from(&["p"])).err().unwrap(),
        "Missing contract selection. Provide a contract name or path."
    );
    assert_eq!(
        plan_run(&cs, &options_from(&["p", "Nope"])).err().unwrap(),
        "No contract matching 'Nope' was found"
    );
}

#[test]
fn plan_picks_where_arguments_come_from() {
    let p = ConstructorParam { raw: "uint256 x".to_string(), name: Some("x".to_string()) };
    let cs = vec![info("A", "src/A.sol", vec![], None), info("B", "src/B.sol", vec![p], None)];
    match plan_run(&cs, &options_from(&["p", "A"])).unwrap() {
        RunStep::Deploy(c, ArgSource::NoArgs) => assert_eq!(c.name, "A"),
        _ => panic!("expected A with no arguments"),
    }
    match plan_run(&cs, &options_from(&["p", "B"])).unwrap() {
        RunStep::Deploy(c, ArgSource::Prompt) => assert_eq!(c.name, "B"),
        _ => panic!("expected B with prompts"),
    }
    match plan_run(&cs, &options_from(&["p", "B", "--args", "[1]"])).unwrap() {
        RunStep::Deploy(c, ArgSource::Json(j)) => {
            assert_eq!(c.name, "B");
            assert_eq!(j, "[1]");
        }
        _ => panic!("expected B with JSON arguments"),
    }
}

// ---- laws on concrete values

#[test]
fn law_comment_stripping_is_idempotent_and_deletes_only() {
    let src = "a /* x\n y */ b // c\n'//' \"/*\" d/e";
    let once = strip_comments(src);
    assert_eq!(strip_comments(&once), once);
    let mut rest = src.chars();
    for ch in once.chars() {
        assert!(rest.any(|c| c == ch), "stripped text is a subsequence of the source");
    }
}

#[test]
fn law_option_value_forms_agree() {
    for (opt, v) in [
        ("--contracts-dir", "c"),
        ("--output-dir", "o"),
        ("--parser", "string-walker"),
        ("--parser", "bogus"),
        ("--args", "[1]"),
        ("--private-key", "0xabc"),
        ("--private-key", "  "),
    ] {
        let joined = format!("{opt}={v}");
        let a1 = args(&["p", "X", &joined, "--force"]);
        let a2 = args(&["p", "X", opt, v, "--force"]);
        match (parse_args(&a1), parse_args(&a2)) {
            (Ok(o1), Ok(o2)) => {
                assert_eq!(o1.contracts_dir, o2.contracts_dir);
                assert_eq!(o1.output_dir, o2.output_dir);
                assert_eq!(o1.args_json, o2.args_json);
                assert_eq!(o1.private_key, o2.private_key);
                assert_eq!(o1.selection, o2.selection);
                assert_eq!(o1.force, o2.force);
            }
            (Err(e1), Err(e2)) => assert_eq!(e1, e2),
            _ => panic!("{opt}: the two forms disagree"),
        }
    }
}

#[test]
fn law_plain_lists_split_at_every_comma() {
    let s = " a b , , c d,e ";
    let plain: Vec<String> =
        s.split(',').map(str::trim).filter(|p| !p.is_empty()).map(String::from).collect();
    assert_eq!(split_parameters(s), plain);
}

#[test]
fn law_param_name_is_last_non_reserved_word() {
    assert_eq!(extract_param_name("address payable owner_2 memory").as_deref(), Some("owner_2"));
    assert_eq!(extract_param_name("uint256[] calldata").as_deref(), Some("uint256"));
    assert_eq!(extract_param_name("string memory").as_deref(), Some("string"));
    assert_eq!(extract_param_name("memory storage"), None);
}

#[test]
fn law_matching_paren_is_where_the_count_returns_to_zero() {
    let s = chars_of("f(a, (b), \")\", c) x");
    assert_eq!(find_matching_paren(&s, 1), Some(16));
}

#[test]
fn law_abstract_is_the_last_word_before() {
    let s = chars_of("x abstract \n contract A {}");
    let pos = 13;
    let before: String = s[..pos].iter().collect();
    assert_eq!(before.split_whitespace().last(), Some("abstract"));
    assert!(is_abstract_contract(&s, pos));
    let t = chars_of("abstractx contract A {}");
    assert!(!is_abstract_contract(&t, 10));
}

#[test]
fn law_pragma_is_read_line_by_line() {
    let src = "// SPDX-License-Identifier: MIT\r\n  pragma solidity ^0.8.18;;\npragma solidity 0.7.0;\n";
    let by_lines = src
        .lines()
        .map(str::trim)
        .find(|l| l.starts_with("pragma solidity"))
        .map(|l| l.trim_end_matches(';').to_string());
    assert_eq!(extract_pragma(src), by_lines);
    assert_eq!(extract_pragma(src).as_deref(), Some("pragma solidity ^0.8.18"));
}

#[test]
fn law_relative_path_climbs_then_descends() {
    assert_eq!(relative_path_between("/r/a/b/c", "/r/a/x/y.sol").as_deref(), Some("../../x/y.sol"));
}

#[test]
fn law_script_holds_its_pieces() {
    let c = info("Token", "src/Token.sol", vec![param("uint256 x", Some("x"))], Some("pragma solidity ^0.8.20;"));
    let s = render_script(&c, "../src/Token.sol", &args(&["1", "2"]), "0xk");
    assert!(s.contains("\npragma solidity ^0.8.20;\n"));
    assert!(s.contains("import \"../src/Token.sol\";"));
    assert!(s.contains("contract TokenScript is Script {"));
    assert!(s.contains("uint256 deployerPrivateKey = 0xk;"));
    assert!(s.contains("Token instance = new Token(1, 2);"));
}

#[test]
fn law_selection_succeeds_on_one_entry_and_gives_the_first() {
    let cs = vec![
        info("Other", "src/O.sol", vec![], None),
        info("A", "src/A.sol", vec![], Some("first")),
        info("A", "src/A.sol", vec![], Some("second")),
    ];
    let c = select_contract(&cs, "A").unwrap();
    assert_eq!(c.pragma.as_deref(), Some("first"));
    let two = vec![info("A", "src/x/A.sol", vec![], None), info("A", "src/y/A.sol", vec![], None)];
    assert!(select_contract(&two, "A")
        .err()
        .unwrap()
        .starts_with("Multiple contracts matched 'A'. Be more specific: "));
}

// ---- logic after the path calls, on given components

#[test]
fn relative_path_from_given_components() {
    let n = |s: &str| PathPart::Normal(s.to_string());
    let from = vec![PathPart::RootDir, n("r"), n("a"), n("b")];
    let to = vec![PathPart::RootDir, n("r"), n("x"), n("y.sol")];
    assert_eq!(relative_from_parts(&from, &to).as_deref(), Some("../../x/y.sol"));
    assert_eq!(relative_from_parts(&from, &from).as_deref(), Some("."));
    let c = vec![PathPart::Prefix("C:".to_string()), PathPart::RootDir, n("a")];
    let d = vec![PathPart::Prefix("D:".to_string()), PathPart::RootDir, n("a")];
    assert_eq!(relative_from_parts(&c, &d), None);
}

#[test]
fn selection_by_given_components() {
    let c = info("Token", "src/tokens/Token.sol", vec![], None);
    let comps = vec![
        PathPart::Normal("src".to_string()),
        PathPart::Normal("tokens".to_string()),
        PathPart::Normal("Token.sol".to_string()),
    ];
    assert!(selects_by_parts(&c, &comps, "Token"));
    assert!(selects_by_parts(&c, &comps, "Token.sol"));
    assert!(selects_by_parts(&c, &comps, "src\\tokens\\Token.sol"));
    assert!(!selects_by_parts(&c, &comps, "Other.sol"));
    let dir_last = vec![PathPart::Normal("src".to_string()), PathPart::ParentDir];
    assert!(!selects_by_parts(&c, &dir_last, "Token.sol"));
}

#[test]
fn script_location_under_the_output_directory() {
    let (path, shown) = script_location("/p/script", "Token", "/p");
    assert_eq!(path, "/p/script/Token.s.sol");
    assert_eq!(shown, "script/Token.s.sol");
    let (path, shown) = script_location("/elsewhere", "T", "/p");
    assert_eq!(path, "/elsewhere/T.s.sol");
    assert_eq!(shown, "/elsewhere/T.s.sol");
}

#[test]
fn law_option_forms_agree_on_whole_command_lines() {
    let lines: [&[&str]; 3] = [
        &["p", "--force", "--args", "[1]", "X"],
        &["p", "--output-dir=o", "--list"],
        &["p"],
    ];
    for p in lines {
        for (opt, v) in [("--contracts-dir", "c"), ("--parser", "nope"), ("--private-key", "k")] {
            let joined = format!("{opt}={v}");
            let mut a1: Vec<&str> = p.to_vec();
            a1.extend([joined.as_str(), "--list"]);
            let mut a2: Vec<&str> = p.to_vec();
            a2.extend([opt, v, "--list"]);
            match (parse_args(&args(&a1)), parse_args(&args(&a2))) {
                (Ok(o1), Ok(o2)) => {
                    assert_eq!(o1.contracts_dir, o2.contracts_dir);
                    assert_eq!(o1.output_dir, o2.output_dir);
                    assert_eq!(o1.args_json, o2.args_json);
                    assert_eq!(o1.private_key, o2.private_key);
                    assert_eq!(o1.selection, o2.selection);
                    assert_eq!(o1.list, o2.list);
                    assert_eq!(o1.force, o2.force);
                }
                (Err(e1), Err(e2)) => assert_eq!(e1, e2),
                _ => panic!("the two forms disagree"),
            }
        }
    }
}
