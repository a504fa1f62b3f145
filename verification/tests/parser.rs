use forge_scriptgen::comments::strip_comments;
use forge_scriptgen::contracts::{parse_contracts_with_string_walker, ParserBackend};
use forge_scriptgen::params::{extract_param_name, parse_constructor_params, split_parameters};

#[test]
fn splits_parameters_with_nested_tuples() {
    let input = "uint256 amount, (uint256, address) memory pair, string memory name";
    let parts = split_parameters(input);
    assert_eq!(parts.len(), 3);
    assert_eq!(parts[0], "uint256 amount");
    assert_eq!(parts[1], "(uint256, address) memory pair");
    assert_eq!(parts[2], "string memory name");
}

#[test]
fn parses_constructor_params() {
    let body = "constructor(address owner, uint256 initialSupply) public { }";
    let params = parse_constructor_params(body);
    assert_eq!(params.len(), 2);
    assert_eq!(params[0].name.as_deref(), Some("owner"));
    assert_eq!(params[1].name.as_deref(), Some("initialSupply"));
}

#[test]
fn ignores_abstract_contracts() {
    let source = r#"
            abstract contract AbstractExample { }
            contract Concrete {
                constructor() {}
            }
        "#;
    let contracts = parse_contracts_with_string_walker(source);
    assert_eq!(contracts.len(), 1);
    assert_eq!(contracts[0].name, "Concrete");
}

#[test]
fn parses_multiple_contracts_in_one_file() {
    let source = r#"
            contract First {
                constructor(uint256 value) {}
            }
            contract Second {
                constructor() {}
            }
        "#;
    let contracts = parse_contracts_with_string_walker(source);
    assert_eq!(contracts.len(), 2);
    assert_eq!(contracts[0].name, "First");
    assert_eq!(contracts[1].name, "Second");
}

#[test]
fn parses_complex_contract_with_modifiers_structs_and_assembly() {
    let source = r#"
            pragma solidity ^0.8.24;

            interface ICounter {
                function increment() external;
            }

            library MathLib {
                function scale(uint256 value) internal pure returns (uint256) {
                    return value * 2;
                }
            }

            abstract contract BaseDeployer {
                constructor(address admin) {}
            }

            contract AdvancedCounter is BaseDeployer {
                struct Config {
                    address owner;
                    uint256[] limits;
                }

                error InvalidConfig(string reason);

                constructor(
                    Config memory config,
                    function(address, uint256[] memory) external returns (bytes32) callback,
                    string memory label
                )
                    BaseDeployer(config.owner)
                    payable
                {
                    if (bytes(label).length == 0) {
                        revert InvalidConfig("missing label");
                    }

                    assembly {
                        let slot := mload(0x40)
                        mstore(slot, 1)
                    }
                }
            }
        "#;

    let contracts = parse_contracts_with_string_walker(source);
    assert_eq!(contracts.len(), 1);
    assert_eq!(contracts[0].name, "AdvancedCounter");
    assert_eq!(contracts[0].constructor_params.len(), 3);
    assert_eq!(
        contracts[0].constructor_params[0].raw,
        "Config memory config"
    );
    assert_eq!(
        contracts[0].constructor_params[1].name.as_deref(),
        Some("callback")
    );
    assert_eq!(
        contracts[0].constructor_params[2].name.as_deref(),
        Some("label")
    );
}

#[test]
fn extracts_param_name_with_symbols() {
    assert_eq!(
        extract_param_name("uint256 indexed amount"),
        Some("amount".to_string())
    );
    assert_eq!(
        extract_param_name("tuple(uint256 a, uint256 b) memory pair"),
        Some("pair".to_string())
    );
}

#[test]
fn strip_comments_preserves_strings() {
    let source = r#"
            // comment
            string constant sample = "http://example"; /* block comment */
            contract Test { string constant with_comment = "value // not comment"; }
        "#;
    let stripped = strip_comments(source);
    assert!(stripped.contains("http://example"));
    assert!(stripped.contains("// not comment"));
    assert!(!stripped.contains("// comment"));
    assert!(!stripped.contains("block comment"));
}

#[test]
fn parser_backend_accepts_known_value() {
    assert_eq!(
        ParserBackend::parse("string-walker").unwrap(),
        ParserBackend::StringWalker
    );
}

#[test]
fn parse_args_json_supports_raw_solidity_literals() {
    let args = forge_scriptgen::json::parse_args_json(
        r#"[{"raw":"Config({owner: msg.sender, limits: [1, 2]})"},{"solidity":"callback"},"label"]"#,
    )
    .unwrap();

    assert_eq!(args[0], "Config({owner: msg.sender, limits: [1, 2]})");
    assert_eq!(args[1], "callback");
    assert_eq!(args[2], "\"label\"");
}
