use forge_scriptgen::contracts::{parser_for_backend, ParserBackend};
use forge_scriptgen::discover::{discover_contracts_with_parser, SourceFile};
use forge_scriptgen::json::parse_args_json;
use forge_scriptgen::paths::compute_import_path;
use forge_scriptgen::render::{contract_list_text, render_script};
use forge_scriptgen::select::select_contract;

fn project(root: &str, name: &str, source: &str) -> Vec<forge_scriptgen::contracts::ContractInfo> {
    let files = vec![SourceFile {
        path: format!("{root}/src/{name}"),
        source: source.to_string(),
    }];
    let parser = parser_for_backend(ParserBackend::StringWalker);
    discover_contracts_with_parser(root, &files, &parser).unwrap()
}

#[test]
fn lists_discovered_contracts() {
    let contracts = project(
        "/work/project",
        "Vault.sol",
        r#"// SPDX-License-Identifier: MIT
pragma solidity ^0.8.20;

contract Vault {
    constructor(address owner, uint256 timelock) {}
}

contract Helper {
    constructor() {}
}
"#,
    );
    let listing = contract_list_text(&contracts);
    assert!(listing.contains("Vault (src/Vault.sol)"));
    assert!(listing.contains("constructor(address owner, uint256 timelock)"));
    assert!(listing.contains("Helper (src/Vault.sol)"));
    assert!(listing.contains("constructor(): no parameters"));
}

#[test]
fn generates_script_with_args() {
    let root = "/work/project";
    let contracts = project(
        root,
        "Counter.sol",
        r#"// SPDX-License-Identifier: MIT
pragma solidity ^0.8.18;

contract Counter {
    uint256 public value;

    constructor(uint256 initialValue, string memory label) {
        value = initialValue;
    }
}
"#,
    );
    let contract = select_contract(&contracts, "Counter").unwrap();
    let args = parse_args_json(r#"[42,"Counter One"]"#).unwrap();
    let import_path =
        compute_import_path("/work/project/script/Counter.s.sol", &contract.absolute_path, root)
            .unwrap();
    let contents = render_script(contract, &import_path, &args, "0x0123");

    assert!(contents.contains("pragma solidity ^0.8.18"));
    assert!(contents.contains("import \"../src/Counter.sol\";"));
    assert!(contents.contains("uint256 deployerPrivateKey = 0x0123;"));
    assert!(contents.contains("new Counter(42, \"Counter One\");"));
}

#[test]
fn generates_script_for_complex_constructor_signatures() {
    let root = "/work/project";
    let contracts = project(
        root,
        "AdvancedCounter.sol",
        r#"// SPDX-License-Identifier: MIT
pragma solidity ^0.8.24;

abstract contract BaseDeployer {
    constructor(address admin) {}
}

contract AdvancedCounter is BaseDeployer {
    struct Config {
        address owner;
        uint256[] limits;
    }

    constructor(
        Config memory config,
        function(address, uint256[] memory) external returns (bytes32) callback,
        string memory label
    ) BaseDeployer(config.owner) payable {}
}
"#,
    );
    let listing = contract_list_text(&contracts);
    assert!(listing.contains("AdvancedCounter (src/AdvancedCounter.sol)"));
    assert!(listing.contains("Config memory config"));
    assert!(listing.contains("callback"));
    assert!(listing.contains("string memory label"));

    let contract = select_contract(&contracts, "AdvancedCounter").unwrap();
    let args =
        parse_args_json(r#"[{"raw":"configLiteral"},{"raw":"callbackLiteral"},"primary"]"#)
            .unwrap();
    let import_path = compute_import_path(
        "/work/project/script/AdvancedCounter.s.sol",
        &contract.absolute_path,
        root,
    )
    .unwrap();
    let contents = render_script(contract, &import_path, &args, "0x9999");
    assert!(contents.contains("new AdvancedCounter(configLiteral, callbackLiteral, \"primary\");"));
}
