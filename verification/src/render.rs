//! The texts that the generator writes: the deployment script, the help
//! text, the contract listing, prompts and messages with numbers in them.

use vstd::prelude::*;
use crate::text::{join, views, chars_of, append_str, join_strings, string_of, push_char};
use crate::contracts::{ContractInfo, signature_of, trim_semicolons, raw_strings};
use crate::params::{ConstructorParam, opt_view};
use crate::scan::{occurs_at, starts_with_at};

verus! {

/// The decimal digits of `n`.
pub open spec fn decimal(n: nat) -> Seq<char>
    decreases n,
{
    if n < 10 {
        seq![(n + 48) as char]
    } else {
        decimal(n / 10).push(((n % 10) + 48) as char)
    }
}

/// The decimal digits of `n`.
pub fn decimal_string(n: usize) -> (r: String)
    ensures
        r@ == decimal(n as nat),
{
    let mut digits: Vec<char> = Vec::new();
    let mut m = n;
    let ghost mut rest: Seq<char> = Seq::empty();
    while m >= 10
        invariant
            decimal(n as nat) == decimal(m as nat) + digits@.reverse(),
        decreases m,
    {
        let d = (m % 10) as u8;
        let c = (48u8 + d) as char;
        assert(c == ((m % 10) + 48) as char);
        let ghost before = digits@;
        digits.push(c);
        assert(decimal(m as nat) == decimal((m / 10) as nat).push(c));
        assert(digits@.reverse() =~= seq![c] + before.reverse());
        assert(decimal((m / 10) as nat).push(c) + before.reverse() =~= decimal((m / 10) as nat)
            + digits@.reverse());
        m = m / 10;
    }
    let last = (48u8 + (m as u8)) as char;
    assert(decimal(m as nat) == seq![last]);
    let mut out = String::new();
    push_char(&mut out, last);
    let mut i = digits.len();
    while i > 0
        invariant
            i <= digits@.len(),
            decimal(n as nat) == out@ + digits@.subrange(0, i as int).reverse(),
        decreases i,
    {
        let ghost before = out@;
        push_char(&mut out, digits[i - 1]);
        assert(digits@.subrange(0, i as int).reverse() =~= seq![digits@[i - 1]] + digits@.subrange(
            0,
            i - 1,
        ).reverse());
        assert(out@ + digits@.subrange(0, i - 1).reverse() =~= before + digits@.subrange(
            0,
            i as int,
        ).reverse());
        i = i - 1;
    }
    assert(digits@.subrange(0, 0).reverse() =~= Seq::<char>::empty());
    assert(out@ + Seq::<char>::empty() =~= out@);
    out
}

/// The pragma line that a script for a contract with file pragma `p`
/// declares: the file's own when it begins with `pragma solidity` (without
/// trailing `;`), else `pragma solidity ^0.8.23`.
pub open spec fn script_pragma(p: Option<Seq<char>>) -> Seq<char> {
    match p {
        Some(line) => if occurs_at(line, 0, "pragma solidity"@) {
            trim_semicolons(line)
        } else {
            "pragma solidity ^0.8.23"@
        },
        None => "pragma solidity ^0.8.23"@,
    }
}

/// The statement that deploys `name` with the argument texts `args`.
pub open spec fn constructor_call(name: Seq<char>, args: Seq<Seq<char>>) -> Seq<char> {
    "        "@ + name + " instance = new "@ + name + "("@ + join(args, ", "@) + ");\n"@
}

/// The deployment script for the contract `name` of file pragma `pragma`,
/// imported from `import_path`, deployed with the argument texts `args` and
/// broadcast with the key `key`.
pub open spec fn script_text(
    name: Seq<char>,
    pragma: Option<Seq<char>>,
    import_path: Seq<char>,
    args: Seq<Seq<char>>,
    key: Seq<char>,
) -> Seq<char> {
    "// SPDX-License-Identifier: UNLICENSED\n// Generated by forge-scriptgen.\n"@ + script_pragma(
        pragma,
    ) + ";\n\nimport \"forge-std/Script.sol\";\nimport \""@ + import_path + "\";\n\ncontract "@
        + name + "Script is Script {\n    function run() public {\n        uint256 deployerPrivateKey = "@
        + key + ";\n        vm.startBroadcast(deployerPrivateKey);\n\n"@ + constructor_call(name, args)
        + "        vm.stopBroadcast();\n    }\n}\n"@
}

/// `line` without its trailing `;` characters.
fn without_semicolons(line: &String) -> (r: String)
    ensures
        r@ == trim_semicolons(line@),
{
    let c = chars_of(line.as_str());
    let mut e = c.len();
    assert(c@.subrange(0, c@.len() as int) =~= c@);
    while e > 0 && c[e - 1] == ';'
        invariant
            e <= c@.len(),
            trim_semicolons(c@) == trim_semicolons(c@.subrange(0, e as int)),
        decreases e,
    {
        assert(c@.subrange(0, e as int).drop_last() =~= c@.subrange(0, e - 1));
        e = e - 1;
    }
    crate::text::string_of_range(&c, 0, e)
}

/// The pragma line of a generated script (see `script_pragma`).
fn pragma_line(p: &Option<String>) -> (r: String)
    ensures
        r@ == script_pragma(opt_view(*p)),
{
    match p {
        Some(line) => {
            let c = chars_of(line.as_str());
            let prefix = chars_of("pragma solidity");
            if starts_with_at(&c, 0, &prefix) {
                without_semicolons(line)
            } else {
                String::from_str("pragma solidity ^0.8.23")
            }
        },
        None => String::from_str("pragma solidity ^0.8.23"),
    }
}

/// The deployment script for `contract` (see `script_text`).
pub fn render_script(
    contract: &ContractInfo,
    import_path: &str,
    args: &[String],
    private_key_literal: &str,
) -> (r: String)
    ensures
        r@ == script_text(
            contract.name@,
            opt_view(contract.pragma),
            import_path@,
            views(args@),
            private_key_literal@,
        ),
{
    let pragma = pragma_line(&contract.pragma);
    let name = contract.name.as_str();
    let joined = join_strings(args, ", ");
    let mut out = String::from_str(
        "// SPDX-License-Identifier: UNLICENSED\n// Generated by forge-scriptgen.\n",
    );
    append_str(&mut out, pragma.as_str());
    append_str(&mut out, ";\n\nimport \"forge-std/Script.sol\";\nimport \"");
    append_str(&mut out, import_path);
    append_str(&mut out, "\";\n\ncontract ");
    append_str(&mut out, name);
    append_str(
        &mut out,
        "Script is Script {\n    function run() public {\n        uint256 deployerPrivateKey = ",
    );
    append_str(&mut out, private_key_literal);
    append_str(&mut out, ";\n        vm.startBroadcast(deployerPrivateKey);\n\n");
    append_str(&mut out, "        ");
    append_str(&mut out, name);
    append_str(&mut out, " instance = new ");
    append_str(&mut out, name);
    append_str(&mut out, "(");
    append_str(&mut out, joined.as_str());
    append_str(&mut out, ");\n");
    append_str(&mut out, "        vm.stopBroadcast();\n    }\n}\n");
    out
}

/// The help text, for the program called `program`.
pub open spec fn help_message(program: Seq<char>) -> Seq<char> {
    "forge-scriptgen - Generate Foundry deployment scripts\n\nUsage: "@ + program
        + " [OPTIONS] <CONTRACT>\n\nOptions:\n  --contracts-dir <DIR>   Directory containing Solidity sources (default: src)\n  --output-dir <DIR>      Directory for generated scripts (default: script)\n  --parser <NAME>         Contract parser backend (default: string-walker)\n  --args <JSON>           Constructor arguments as JSON array; use {\"raw\":\"...\"} for Solidity literals\n  --private-key <KEY>     Private key literal to embed in the script\n  --list                  List discoverable contracts and exit\n  --force                 Overwrite existing script when it already exists\n  -h, --help              Show this help message\n\nExamples:\n  "@
        + program + " --parser string-walker --list\n  "@ + program + " Counter\n  "@ + program
        + " --args '[\"hello\", 10]' --private-key 0xabc src/Counter.sol\n  "@ + program
        + " --parser string-walker --args '[{\"raw\":\"Config({owner: msg.sender, limits: [1, 2, 3]})\"},{\"raw\":\"callback\"},\"primary\",{\"raw\":\"hex\\\"1234\\\"\"}]' --private-key 0xabc123 ComplexDeployment\n"@
}

/// The help text, for the program called `program` (see `help_message`).
pub fn help_text(program: &str) -> (r: String)
    ensures
        r@ == help_message(program@),
{
    let mut out = String::from_str("forge-scriptgen - Generate Foundry deployment scripts\n\nUsage: ");
    append_str(&mut out, program);
    append_str(
        &mut out,
        " [OPTIONS] <CONTRACT>\n\nOptions:\n  --contracts-dir <DIR>   Directory containing Solidity sources (default: src)\n  --output-dir <DIR>      Directory for generated scripts (default: script)\n  --parser <NAME>         Contract parser backend (default: string-walker)\n  --args <JSON>           Constructor arguments as JSON array; use {\"raw\":\"...\"} for Solidity literals\n  --private-key <KEY>     Private key literal to embed in the script\n  --list                  List discoverable contracts and exit\n  --force                 Overwrite existing script when it already exists\n  -h, --help              Show this help message\n\nExamples:\n  ",
    );
    append_str(&mut out, program);
    append_str(&mut out, " --parser string-walker --list\n  ");
    append_str(&mut out, program);
    append_str(&mut out, " Counter\n  ");
    append_str(&mut out, program);
    append_str(&mut out, " --args '[\"hello\", 10]' --private-key 0xabc src/Counter.sol\n  ");
    append_str(&mut out, program);
    append_str(
        &mut out,
        " --parser string-walker --args '[{\"raw\":\"Config({owner: msg.sender, limits: [1, 2, 3]})\"},{\"raw\":\"callback\"},\"primary\",{\"raw\":\"hex\\\"1234\\\"\"}]' --private-key 0xabc123 ComplexDeployment\n",
    );
    out
}

/// The listing line of parameter `k` with text `raw`.
pub open spec fn param_line(k: nat, raw: Seq<char>) -> Seq<char> {
    "    ["@ + decimal(k) + "] "@ + raw + "\n"@
}

/// The listing lines of the parameters `ps`, numbered from 0.
pub open spec fn param_lines(ps: Seq<ConstructorParam>) -> Seq<char>
    decreases ps.len(),
{
    if ps.len() == 0 {
        Seq::empty()
    } else {
        param_lines(ps.drop_last()) + param_line((ps.len() - 1) as nat, ps.last().raw@)
    }
}

/// The listing of one contract: its name and file, then its constructor
/// signature and one numbered line per parameter, or a note that the
/// constructor takes none.
pub open spec fn contract_entry(c: ContractInfo) -> Seq<char> {
    "- "@ + c.name@ + " ("@ + c.relative_path@ + ")\n"@ + if c.constructor_params@.len() == 0 {
        "  constructor(): no parameters\n"@
    } else {
        "  "@ + signature_of(c.constructor_params@) + "\n"@ + param_lines(c.constructor_params@)
    }
}

/// The listing of the contracts `cs`, in order.
pub open spec fn contract_listing(cs: Seq<ContractInfo>) -> Seq<char>
    decreases cs.len(),
{
    if cs.len() == 0 {
        Seq::empty()
    } else {
        contract_listing(cs.drop_last()) + contract_entry(cs.last())
    }
}

/// The listing of the contracts (see `contract_listing`).
pub fn contract_list_text(contracts: &[ContractInfo]) -> (r: String)
    ensures
        r@ == contract_listing(contracts@),
{
    let mut out = String::new();
    let mut i: usize = 0;
    while i < contracts.len()
        invariant
            0 <= i <= contracts@.len(),
            out@ == contract_listing(contracts@.subrange(0, i as int)),
        decreases contracts.len() - i,
    {
        let c = &contracts[i];
        let ghost before = out@;
        append_str(&mut out, "- ");
        append_str(&mut out, c.name.as_str());
        append_str(&mut out, " (");
        append_str(&mut out, c.relative_path.as_str());
        append_str(&mut out, ")\n");
        if c.constructor_params.len() == 0 {
            append_str(&mut out, "  constructor(): no parameters\n");
        } else {
            let sig = c.constructor_signature();
            append_str(&mut out, "  ");
            append_str(&mut out, sig.as_str());
            append_str(&mut out, "\n");
            let ghost mid = out@;
            let ps = &c.constructor_params;
            let mut k: usize = 0;
            while k < ps.len()
                invariant
                    0 <= k <= ps@.len(),
                    out@ == mid + param_lines(ps@.subrange(0, k as int)),
                decreases ps.len() - k,
            {
                append_str(&mut out, "    [");
                let num = decimal_string(k);
                append_str(&mut out, num.as_str());
                append_str(&mut out, "] ");
                append_str(&mut out, ps[k].raw.as_str());
                append_str(&mut out, "\n");
                assert(ps@.subrange(0, k + 1).drop_last() =~= ps@.subrange(0, k as int));
                k = k + 1;
            }
            assert(ps@.subrange(0, ps@.len() as int) =~= ps@);
        }
        assert(contracts@.subrange(0, i + 1).drop_last() =~= contracts@.subrange(0, i as int));
        assert(out@ =~= before + contract_entry(contracts@[i as int]));
        i = i + 1;
    }
    assert(contracts@.subrange(0, contracts@.len() as int) =~= contracts@);
    out
}

/// The message for a number of arguments that differs from the number of
/// constructor parameters.
pub open spec fn count_mismatch_message(name: Seq<char>, expected: nat, given: nat) -> Seq<char> {
    "Constructor for '"@ + name + "' expects "@ + decimal(expected) + " argument(s) but "@ + decimal(
        given,
    ) + " provided."@
}

/// Checks that `given` arguments fit the constructor of `contract`.
pub fn check_argument_count(contract: &ContractInfo, given: usize) -> (r: Result<(), String>)
    ensures
        given == contract.constructor_params@.len() <==> r is Ok,
        r matches Err(e) ==> e@ == count_mismatch_message(
            contract.name@,
            contract.constructor_params@.len(),
            given as nat,
        ),
{
    let expected = contract.constructor_params.len();
    if given == expected {
        return Ok(());
    }
    let mut m = String::from_str("Constructor for '");
    append_str(&mut m, contract.name.as_str());
    append_str(&mut m, "' expects ");
    let e = decimal_string(expected);
    append_str(&mut m, e.as_str());
    append_str(&mut m, " argument(s) but ");
    let g = decimal_string(given);
    append_str(&mut m, g.as_str());
    append_str(&mut m, " provided.");
    Err(m)
}

/// The prompt for parameter `index`: its number, its name where it has one,
/// and its text.
pub open spec fn prompt_of(index: nat, p: ConstructorParam) -> Seq<char> {
    match p.name {
        Some(name) => "  ["@ + decimal(index) + "] "@ + name@ + " ("@ + p.raw@ + ")"@,
        None => "  ["@ + decimal(index) + "] "@ + p.raw@,
    }
}

/// The prompt for parameter `index` (see `prompt_of`).
pub fn argument_prompt(index: usize, param: &ConstructorParam) -> (r: String)
    ensures
        r@ == prompt_of(index as nat, *param),
{
    let mut m = String::from_str("  [");
    let num = decimal_string(index);
    append_str(&mut m, num.as_str());
    append_str(&mut m, "] ");
    match &param.name {
        Some(name) => {
            append_str(&mut m, name.as_str());
            append_str(&mut m, " (");
            append_str(&mut m, param.raw.as_str());
            append_str(&mut m, ")");
        },
        None => {
            append_str(&mut m, param.raw.as_str());
        },
    }
    m
}

/// The heading before the parameter prompts of `contract`.
pub fn parameters_heading(contract: &ContractInfo) -> (r: String)
    ensures
        r@ == "Constructor parameters for '"@ + contract.name@ + "': "@ + signature_of(
            contract.constructor_params@,
        ),
{
    let mut m = String::from_str("Constructor parameters for '");
    append_str(&mut m, contract.name.as_str());
    append_str(&mut m, "': ");
    let sig = contract.constructor_signature();
    append_str(&mut m, sig.as_str());
    m
}

/// The file name of the script for the contract `name`.
pub fn script_file_name(name: &str) -> (r: String)
    ensures
        r@ == name@ + ".s.sol"@,
{
    let mut r = String::from_str(name);
    append_str(&mut r, ".s.sol");
    r
}

/// The message that refuses to replace the existing script shown as `shown`.
pub open spec fn exists_message(shown: Seq<char>) -> Seq<char> {
    "Script '"@ + shown + "' already exists. Use --force to overwrite."@
}

/// Whether the script may be written: an existing script (shown as
/// `shown`) is replaced only with `--force`.
pub fn check_overwrite(exists: bool, force: bool, shown: &str) -> (r: Result<(), String>)
    ensures
        r is Err <==> (exists && !force),
        r matches Err(e) ==> e@ == exists_message(shown@),
{
    if exists && !force {
        let mut m = String::from_str("Script '");
        append_str(&mut m, shown);
        append_str(&mut m, "' already exists. Use --force to overwrite.");
        return Err(m);
    }
    Ok(())
}

/// `piece` stands somewhere in `text`.
pub open spec fn contains_piece(text: Seq<char>, piece: Seq<char>) -> bool {
    exists|i: int| 0 <= i && i + piece.len() <= text.len() && #[trigger] text.subrange(i, i + piece.len()) == piece
}

proof fn lemma_piece_between(a: Seq<char>, piece: Seq<char>, b: Seq<char>)
    ensures
        contains_piece(a + piece + b, piece),
{
    assert((a + piece + b).subrange(a.len() as int, (a.len() + piece.len()) as int) =~= piece);
}

proof fn lemma_split_head()
    ensures
        "// SPDX-License-Identifier: UNLICENSED\n// Generated by forge-scriptgen.\n"@ == "// SPDX-License-Identifier: UNLICENSED\n// Generated by forge-scriptgen."@ + "\n"@,
{
    reveal_strlit("// SPDX-License-Identifier: UNLICENSED\n// Generated by forge-scriptgen.\n");
    reveal_strlit("// SPDX-License-Identifier: UNLICENSED\n// Generated by forge-scriptgen.");
    reveal_strlit("\n");
    assert("// SPDX-License-Identifier: UNLICENSED\n// Generated by forge-scriptgen.\n"@ =~= "// SPDX-License-Identifier: UNLICENSED\n// Generated by forge-scriptgen."@ + "\n"@);
}

proof fn lemma_split_import_a()
    ensures
        ";\n\nimport \"forge-std/Script.sol\";\nimport \""@ == ";\n"@ + "\nimport \"forge-std/Script.sol\";\nimport \""@,
{
    reveal_strlit(";\n\nimport \"forge-std/Script.sol\";\nimport \"");
    reveal_strlit(";\n");
    reveal_strlit("\nimport \"forge-std/Script.sol\";\nimport \"");
    assert(";\n\nimport \"forge-std/Script.sol\";\nimport \""@ =~= ";\n"@ + "\nimport \"forge-std/Script.sol\";\nimport \""@);
}

proof fn lemma_split_import_b()
    ensures
        ";\n\nimport \"forge-std/Script.sol\";\nimport \""@ == ";\n\nimport \"forge-std/Script.sol\";\n"@ + "import \""@,
{
    reveal_strlit(";\n\nimport \"forge-std/Script.sol\";\nimport \"");
    reveal_strlit(";\n\nimport \"forge-std/Script.sol\";\n");
    reveal_strlit("import \"");
    assert(";\n\nimport \"forge-std/Script.sol\";\nimport \""@ =~= ";\n\nimport \"forge-std/Script.sol\";\n"@ + "import \""@);
}

proof fn lemma_split_contract_a()
    ensures
        "\";\n\ncontract "@ == "\";"@ + "\n\ncontract "@,
{
    reveal_strlit("\";\n\ncontract ");
    reveal_strlit("\";");
    reveal_strlit("\n\ncontract ");
    assert("\";\n\ncontract "@ =~= "\";"@ + "\n\ncontract "@);
}

proof fn lemma_split_contract_b()
    ensures
        "\";\n\ncontract "@ == "\";\n\n"@ + "contract "@,
{
    reveal_strlit("\";\n\ncontract ");
    reveal_strlit("\";\n\n");
    reveal_strlit("contract ");
    assert("\";\n\ncontract "@ =~= "\";\n\n"@ + "contract "@);
}

proof fn lemma_split_run_a()
    ensures
        "Script is Script {\n    function run() public {\n        uint256 deployerPrivateKey = "@ == "Script is Script {"@ + "\n    function run() public {\n        uint256 deployerPrivateKey = "@,
{
    reveal_strlit("Script is Script {\n    function run() public {\n        uint256 deployerPrivateKey = ");
    reveal_strlit("Script is Script {");
    reveal_strlit("\n    function run() public {\n        uint256 deployerPrivateKey = ");
    assert("Script is Script {\n    function run() public {\n        uint256 deployerPrivateKey = "@ =~= "Script is Script {"@ + "\n    function run() public {\n        uint256 deployerPrivateKey = "@);
}

proof fn lemma_split_run_b()
    ensures
        "Script is Script {\n    function run() public {\n        uint256 deployerPrivateKey = "@ == "Script is Script {\n    function run() public {\n        "@ + "uint256 deployerPrivateKey = "@,
{
    reveal_strlit("Script is Script {\n    function run() public {\n        uint256 deployerPrivateKey = ");
    reveal_strlit("Script is Script {\n    function run() public {\n        ");
    reveal_strlit("uint256 deployerPrivateKey = ");
    assert("Script is Script {\n    function run() public {\n        uint256 deployerPrivateKey = "@ =~= "Script is Script {\n    function run() public {\n        "@ + "uint256 deployerPrivateKey = "@);
}

proof fn lemma_split_broadcast()
    ensures
        ";\n        vm.startBroadcast(deployerPrivateKey);\n\n"@ == ";"@ + "\n        vm.startBroadcast(deployerPrivateKey);\n\n"@,
{
    reveal_strlit(";\n        vm.startBroadcast(deployerPrivateKey);\n\n");
    reveal_strlit(";");
    reveal_strlit("\n        vm.startBroadcast(deployerPrivateKey);\n\n");
    assert(";\n        vm.startBroadcast(deployerPrivateKey);\n\n"@ =~= ";"@ + "\n        vm.startBroadcast(deployerPrivateKey);\n\n"@);
}

proof fn lemma_split_call_end()
    ensures
        ");\n"@ == ");"@ + "\n"@,
{
    reveal_strlit(");\n");
    reveal_strlit(");");
    reveal_strlit("\n");
    assert(");\n"@ =~= ");"@ + "\n"@);
}

/// The script holds the pragma line, the import of the contract, the script
/// contract named after it, the key and the deployment with the arguments
/// separated by `, `.
#[verifier::spinoff_prover]
#[verifier::rlimit(40)]
pub proof fn lemma_script_holds_pieces(
    name: Seq<char>,
    pragma: Option<Seq<char>>,
    import_path: Seq<char>,
    args: Seq<Seq<char>>,
    key: Seq<char>,
)
    ensures
        ({
            let text = script_text(name, pragma, import_path, args, key);
            &&& contains_piece(text, "\n"@ + script_pragma(pragma) + ";\n"@)
            &&& contains_piece(text, "import \""@ + import_path + "\";"@)
            &&& contains_piece(text, "contract "@ + name + "Script is Script {"@)
            &&& contains_piece(text, "uint256 deployerPrivateKey = "@ + key + ";"@)
            &&& contains_piece(
                text,
                name + " instance = new "@ + name + "("@ + join(args, ", "@) + ");"@,
            )
        }),
{
    let text = script_text(name, pragma, import_path, args, key);
    let p = script_pragma(pragma);
    let ja = join(args, ", "@);
    let l0 = "// SPDX-License-Identifier: UNLICENSED\n// Generated by forge-scriptgen.\n"@;
    let l1 = ";\n\nimport \"forge-std/Script.sol\";\nimport \""@;
    let l2 = "\";\n\ncontract "@;
    let l3 = "Script is Script {\n    function run() public {\n        uint256 deployerPrivateKey = "@;
    let l4 = ";\n        vm.startBroadcast(deployerPrivateKey);\n\n"@;
    let l5 = "        vm.stopBroadcast();\n    }\n}\n"@;
    let sp = "        "@;
    let inst = " instance = new "@;
    let open = "("@;
    let close = ");\n"@;
    assert(text == l0 + p + l1 + import_path + l2 + name + l3 + key + l4 + (sp + name + inst + name
        + open + ja + close) + l5);
    lemma_split_head();
    lemma_split_import_a();
    lemma_split_import_b();
    lemma_split_contract_a();
    lemma_split_contract_b();
    lemma_split_run_a();
    lemma_split_run_b();
    lemma_split_broadcast();
    lemma_split_call_end();
    assert(contains_piece(text, "\n"@ + p + ";\n"@)) by {
        assert(text =~= ("// SPDX-License-Identifier: UNLICENSED\n// Generated by forge-scriptgen."@) + ("\n"@ + p + ";\n"@) + ("\nimport \"forge-std/Script.sol\";\nimport \""@ + import_path + l2 + name + l3 + key + l4 + (sp + name + inst + name + open + ja + close) + l5));
        lemma_piece_between("// SPDX-License-Identifier: UNLICENSED\n// Generated by forge-scriptgen."@, "\n"@ + p + ";\n"@, "\nimport \"forge-std/Script.sol\";\nimport \""@ + import_path + l2 + name + l3 + key + l4 + (sp + name + inst + name + open + ja + close) + l5);
    }
    assert(contains_piece(text, "import \""@ + import_path + "\";"@)) by {
        assert(text =~= (l0 + p + ";\n\nimport \"forge-std/Script.sol\";\n"@) + ("import \""@ + import_path + "\";"@) + ("\n\ncontract "@ + name + l3 + key + l4 + (sp + name + inst + name + open + ja + close) + l5));
        lemma_piece_between(l0 + p + ";\n\nimport \"forge-std/Script.sol\";\n"@, "import \""@ + import_path + "\";"@, "\n\ncontract "@ + name + l3 + key + l4 + (sp + name + inst + name + open + ja + close) + l5);
    }
    assert(contains_piece(text, "contract "@ + name + "Script is Script {"@)) by {
        assert(text =~= (l0 + p + l1 + import_path + "\";\n\n"@) + ("contract "@ + name + "Script is Script {"@) + ("\n    function run() public {\n        uint256 deployerPrivateKey = "@ + key + l4 + (sp + name + inst + name + open + ja + close) + l5));
        lemma_piece_between(l0 + p + l1 + import_path + "\";\n\n"@, "contract "@ + name + "Script is Script {"@, "\n    function run() public {\n        uint256 deployerPrivateKey = "@ + key + l4 + (sp + name + inst + name + open + ja + close) + l5);
    }
    assert(contains_piece(text, "uint256 deployerPrivateKey = "@ + key + ";"@)) by {
        assert(text =~= (l0 + p + l1 + import_path + l2 + name + "Script is Script {\n    function run() public {\n        "@) + ("uint256 deployerPrivateKey = "@ + key + ";"@) + ("\n        vm.startBroadcast(deployerPrivateKey);\n\n"@ + (sp + name + inst + name + open + ja + close) + l5));
        lemma_piece_between(l0 + p + l1 + import_path + l2 + name + "Script is Script {\n    function run() public {\n        "@, "uint256 deployerPrivateKey = "@ + key + ";"@, "\n        vm.startBroadcast(deployerPrivateKey);\n\n"@ + (sp + name + inst + name + open + ja + close) + l5);
    }
    assert(contains_piece(text, name + inst + name + open + ja + ");"@)) by {
        assert(text =~= (l0 + p + l1 + import_path + l2 + name + l3 + key + l4 + sp) + (name + inst + name + open + ja + ");"@) + ("\n"@ + l5));
        lemma_piece_between(l0 + p + l1 + import_path + l2 + name + l3 + key + l4 + sp, name + inst + name + open + ja + ");"@, "\n"@ + l5);
    }
}

} // verus!
