use abi2human::abi::{AbiInput, AbiItem, AbiOutput};
use abi2human::converter::Converter;
use abi2human::json_parser::JsonParser;
use abi2human::options::{matches_pattern, ConvertOptions};

fn plain_input(name: Option<&str>, ty: &str) -> AbiInput {
    AbiInput {
        name: name.map(|s| s.to_string()),
        type_str: ty.to_string(),
        indexed: None,
        internal_type: None,
        components: None,
    }
}

fn indexed_input(name: &str, ty: &str, indexed: bool) -> AbiInput {
    AbiInput {
        name: Some(name.to_string()),
        type_str: ty.to_string(),
        indexed: Some(indexed),
        internal_type: None,
        components: None,
    }
}

fn plain_output(name: Option<&str>, ty: &str) -> AbiOutput {
    AbiOutput {
        name: name.map(|s| s.to_string()),
        type_str: ty.to_string(),
        internal_type: None,
        components: None,
    }
}

fn item(kind: &str) -> AbiItem {
    AbiItem {
        kind: kind.to_string(),
        name: None,
        inputs: None,
        outputs: None,
        state_mutability: None,
        anonymous: None,
        payable: None,
        constant: None,
    }
}

#[test]
fn test_parse_simple_function() {
    let json = r#"[{
        "type": "function",
        "name": "transfer",
        "inputs": [
            {"name": "to", "type": "address"},
            {"name": "amount", "type": "uint256"}
        ],
        "outputs": [{"type": "bool"}],
        "stateMutability": "nonpayable"
    }]"#;

    let mut parser = JsonParser::new(json);
    let result = parser.parse_abi();
    assert!(result.is_ok());

    let items = result.unwrap();
    assert_eq!(items.len(), 1);
    assert_eq!(items[0].name.as_ref().unwrap(), "transfer");
}

#[test]
fn test_format_function() {
    let item = AbiItem {
        kind: "function".to_string(),
        name: Some("transfer".to_string()),
        inputs: Some(vec![
            plain_input(Some("to"), "address"),
            plain_input(Some("amount"), "uint256"),
        ]),
        outputs: Some(vec![plain_output(None, "bool")]),
        state_mutability: Some("nonpayable".to_string()),
        anonymous: None,
        payable: None,
        constant: None,
    };

    let formatted = item.format_signature();
    assert_eq!(
        formatted,
        "function transfer(address to, uint256 amount) returns (bool)"
    );
}

#[test]
fn test_format_event() {
    let item = AbiItem {
        kind: "event".to_string(),
        name: Some("Transfer".to_string()),
        inputs: Some(vec![
            indexed_input("from", "address", true),
            indexed_input("to", "address", true),
            indexed_input("value", "uint256", false),
        ]),
        outputs: None,
        state_mutability: None,
        anonymous: None,
        payable: None,
        constant: None,
    };

    let formatted = item.format_signature();
    assert_eq!(
        formatted,
        "event Transfer(address indexed from, address indexed to, uint256 value)"
    );
}

#[test]
fn test_format_constructor() {
    let item = AbiItem {
        kind: "constructor".to_string(),
        name: None,
        inputs: Some(vec![plain_input(Some("initialSupply"), "uint256")]),
        outputs: None,
        state_mutability: None,
        anonymous: None,
        payable: None,
        constant: None,
    };

    let formatted = item.format_signature();
    assert_eq!(formatted, "constructor(uint256 initialSupply)");
}

#[test]
fn test_format_fallback() {
    let item = AbiItem {
        kind: "fallback".to_string(),
        name: None,
        inputs: None,
        outputs: None,
        state_mutability: Some("payable".to_string()),
        anonymous: None,
        payable: None,
        constant: None,
    };

    let formatted = item.format_signature();
    assert_eq!(formatted, "fallback() external payable");
}

#[test]
fn test_format_receive() {
    let item = AbiItem {
        kind: "receive".to_string(),
        name: None,
        inputs: None,
        outputs: None,
        state_mutability: None,
        anonymous: None,
        payable: None,
        constant: None,
    };

    let formatted = item.format_signature();
    assert_eq!(formatted, "receive() external payable");
}

#[test]
fn test_parse_with_abi_wrapper() {
    let json = r#"{
        "abi": [
            {
                "type": "function",
                "name": "balanceOf",
                "inputs": [{"name": "account", "type": "address"}],
                "outputs": [{"type": "uint256"}],
                "stateMutability": "view"
            }
        ]
    }"#;

    let mut parser = JsonParser::new(json);
    let result = parser.parse_abi();
    assert!(result.is_ok());

    let items = result.unwrap();
    assert_eq!(items.len(), 1);
    assert_eq!(items[0].name.as_ref().unwrap(), "balanceOf");
}

#[test]
fn test_convert_to_human_readable() {
    let items = vec![AbiItem {
        kind: "function".to_string(),
        name: Some("approve".to_string()),
        inputs: Some(vec![
            plain_input(Some("spender"), "address"),
            plain_input(Some("value"), "uint256"),
        ]),
        outputs: Some(vec![plain_output(None, "bool")]),
        state_mutability: Some("nonpayable".to_string()),
        anonymous: None,
        payable: None,
        constant: None,
    }];

    let readable = Converter::convert_to_human_readable(&items);
    assert_eq!(readable.len(), 1);
    assert_eq!(
        readable[0],
        "function approve(address spender, uint256 value) returns (bool)"
    );
}

#[test]
fn test_format_json_array() {
    let items = vec![
        "function transfer(address to, uint256 amount) returns (bool)".to_string(),
        "event Transfer(address indexed from, address indexed to, uint256 value)".to_string(),
    ];

    let formatted = Converter::format_as_json_array(&items, false);
    assert_eq!(
        formatted,
        r#"["function transfer(address to, uint256 amount) returns (bool)","event Transfer(address indexed from, address indexed to, uint256 value)"]"#
    );
}

#[test]
fn test_view_function() {
    let item = AbiItem {
        kind: "function".to_string(),
        name: Some("balanceOf".to_string()),
        inputs: Some(vec![plain_input(Some("account"), "address")]),
        outputs: Some(vec![plain_output(None, "uint256")]),
        state_mutability: Some("view".to_string()),
        anonymous: None,
        payable: None,
        constant: None,
    };

    let formatted = item.format_signature();
    assert_eq!(
        formatted,
        "function balanceOf(address account) view returns (uint256)"
    );
}

#[test]
fn test_payable_function() {
    let item = AbiItem {
        kind: "function".to_string(),
        name: Some("deposit".to_string()),
        inputs: Some(vec![]),
        outputs: None,
        state_mutability: Some("payable".to_string()),
        anonymous: None,
        payable: None,
        constant: None,
    };

    let formatted = item.format_signature();
    assert_eq!(formatted, "function deposit() payable");
}

#[test]
fn test_round_trip_through_text() {
    // A well-formed entry, serialized as input text, parsed back and
    // rendered, formats identically to formatting the entry directly.
    let entry = AbiItem {
        kind: "function".to_string(),
        name: Some("transfer".to_string()),
        inputs: Some(vec![
            plain_input(Some("to"), "address"),
            plain_input(Some("amount"), "uint256"),
        ]),
        outputs: Some(vec![plain_output(None, "bool")]),
        state_mutability: Some("view".to_string()),
        anonymous: None,
        payable: None,
        constant: None,
    };
    let direct = entry.format_signature();

    let json = r#"[{
        "type": "function",
        "name": "transfer",
        "inputs": [
            {"name": "to", "type": "address"},
            {"name": "amount", "type": "uint256"}
        ],
        "outputs": [{"type": "bool"}],
        "stateMutability": "view"
    }]"#;
    let parsed = Converter::parse_abi_content(json).unwrap();
    let rendered = Converter::convert_to_human_readable(&parsed);
    assert_eq!(rendered, vec![direct]);
}

#[test]
fn test_format_is_deterministic() {
    let make = || AbiItem {
        kind: "event".to_string(),
        name: Some("Ping".to_string()),
        inputs: Some(vec![indexed_input("who", "address", true)]),
        outputs: None,
        state_mutability: None,
        anonymous: Some(true),
        payable: None,
        constant: None,
    };
    let first = make().format_signature();
    let again = make().format_signature();
    let other = item("receive").format_signature();
    let third = make().format_signature();
    assert_eq!(first, again);
    assert_eq!(first, third);
    assert_eq!(other, "receive() external payable");
}

#[test]
fn test_empty_list_serialization() {
    let empty: Vec<String> = Vec::new();
    assert_eq!(Converter::format_as_json_array(&empty, false), "[]");
    assert_eq!(Converter::format_as_json_array(&empty, true), "[]");
}

#[test]
fn test_escaping_round_trip() {
    // A string holding a quote, a backslash and a control character is
    // escaped into the envelope and recovered exactly by the JSON reader.
    let tricky = "a\"b\\c\td\u{1}e";
    let items = vec![tricky.to_string()];
    let compact = Converter::format_as_json_array(&items, false);
    assert_eq!(compact, "[\"a\\\"b\\\\c\\td\\u0001e\"]");

    // Read it back through the crate's own JSON string reader.
    let wrapped = format!("[{{\"type\": {}}}]", &compact[1..compact.len() - 1]);
    let parsed = Converter::parse_abi_content(&wrapped).unwrap();
    assert_eq!(parsed.len(), 1);
    assert_eq!(parsed[0].kind, tricky);
}

#[test]
fn test_pretty_serialization_shape() {
    let items = vec!["one".to_string(), "two".to_string()];
    let pretty = Converter::format_as_json_array(&items, true);
    assert_eq!(pretty, "[\n  \"one\",\n  \"two\"\n]");
}

#[test]
fn test_string_escapes_in_input() {
    let json = "[{\"type\": \"function\", \"name\": \"a\\\"b\\\\c\\u0009d\\u0041\"}]";
    let items = Converter::parse_abi_content(json).unwrap();
    assert_eq!(items.len(), 1);
    assert_eq!(items[0].name.as_ref().unwrap(), "a\"b\\c\tdA");
}

#[test]
fn test_invalid_unicode_escape_is_silent() {
    // Invalid hex digits and surrogate code points contribute no character.
    let json = "[{\"type\": \"function\", \"name\": \"a\\uZZZZb\\uD800c\"}]";
    let items = Converter::parse_abi_content(json).unwrap();
    assert_eq!(items[0].name.as_ref().unwrap(), "abc");
}

#[test]
fn test_malformed_entries_are_dropped() {
    // Elements that are not objects, or lack a string "type", vanish
    // silently without aborting extraction of their siblings.
    let json = r#"[
        7,
        "text",
        {"name": "noType"},
        {"type": 5},
        {"type": "receive"}
    ]"#;
    let items = Converter::parse_abi_content(json).unwrap();
    assert_eq!(items.len(), 1);
    assert_eq!(items[0].kind, "receive");
}

#[test]
fn test_unknown_entries_are_filtered() {
    let json = r#"[
        {"type": "unknown"},
        {"type": "receive"}
    ]"#;
    let items = Converter::parse_abi_content(json).unwrap();
    assert_eq!(items.len(), 2);
    let readable = Converter::convert_to_human_readable(&items);
    assert_eq!(readable, vec!["receive() external payable".to_string()]);
}

#[test]
fn test_wrapper_and_bare_array_agree() {
    let inner = r#"{"type": "function", "name": "f", "inputs": [], "outputs": []}"#;
    let bare = format!("[{}]", inner);
    let wrapped = format!("{{\"abi\": [{}]}}", inner);
    let from_bare = Converter::parse_abi_content(&bare).unwrap();
    let from_wrapped = Converter::parse_abi_content(&wrapped).unwrap();
    assert_eq!(
        Converter::convert_to_human_readable(&from_bare),
        Converter::convert_to_human_readable(&from_wrapped)
    );
}

#[test]
fn test_structural_errors() {
    assert!(Converter::parse_abi_content("").is_err());
    assert!(Converter::parse_abi_content("true").is_err());
    assert!(Converter::parse_abi_content("[\"unterminated").is_err());
    assert!(Converter::parse_abi_content("[1 2]").is_err());
    assert!(Converter::parse_abi_content("[{\"a\" 1}]").is_err());
    assert!(Converter::parse_abi_content("[--1]").is_err());
    assert!(Converter::parse_abi_content("[1.2.3]").is_err());
    assert!(Converter::parse_abi_content("{\"notabi\": []}").is_err());
    assert!(Converter::parse_abi_content("{\"abi\": 5}").is_err());
}

#[test]
fn test_numbers_in_entries() {
    // Integers and floats are tolerated inside entries; an integer beyond
    // the signed 64-bit range is a structural error.
    let json = r#"[{"type": "receive", "gas": 30000, "ratio": 1.5e3}]"#;
    let items = Converter::parse_abi_content(json).unwrap();
    assert_eq!(items.len(), 1);
    assert!(Converter::parse_abi_content("[{\"gas\": 9223372036854775808}]").is_ok() == false);
    assert!(Converter::parse_abi_content("[{\"gas\": 9223372036854775807}]").is_ok());
    assert!(Converter::parse_abi_content("[{\"gas\": -9223372036854775808}]").is_ok());
}

#[test]
fn test_trailing_content_is_ignored() {
    let items = Converter::parse_abi_content("[] garbage").unwrap();
    assert_eq!(items.len(), 0);
    let readable = Converter::convert_to_human_readable(&items);
    assert_eq!(Converter::format_as_json_array(&readable, true), "[]");
}

#[test]
fn test_duplicate_keys_last_wins() {
    let json = r#"[{"type": "function", "name": "first", "name": "second"}]"#;
    let items = Converter::parse_abi_content(json).unwrap();
    assert_eq!(items[0].name.as_ref().unwrap(), "second");
}

#[test]
fn test_tuple_components_nesting() {
    let json = r#"[{
        "type": "function",
        "name": "submit",
        "inputs": [{
            "name": "order",
            "type": "tuple",
            "components": [
                {"name": "id", "type": "uint256"},
                {"name": "inner", "type": "tuple", "components": [
                    {"name": "flag", "type": "bool"}
                ]}
            ]
        }]
    }]"#;
    let items = Converter::parse_abi_content(json).unwrap();
    let order = &items[0].inputs.as_ref().unwrap()[0];
    let comps = order.components.as_ref().unwrap();
    assert_eq!(comps.len(), 2);
    let inner = comps[1].components.as_ref().unwrap();
    assert_eq!(inner[0].name.as_ref().unwrap(), "flag");
    assert_eq!(
        items[0].format_signature(),
        "function submit(tuple order)"
    );
}

#[test]
fn test_matches_pattern() {
    assert!(matches_pattern("token.json", "*.json"));
    assert!(matches_pattern("token.json", "token*"));
    assert!(matches_pattern("token.json", "*oke*"));
    assert!(matches_pattern("token.json", "token.json"));
    assert!(!matches_pattern("token.json", "*.sol"));
    assert!(!matches_pattern("token.json", "coin*"));
    assert!(!matches_pattern("token.json", "token"));
    assert!(matches_pattern("anything", "*"));
}

#[test]
fn test_default_options() {
    let options = ConvertOptions::default();
    assert_eq!(options.suffix, ".readable");
    assert!(options.pretty);
    assert!(options.pattern.is_none());
}

#[test]
fn test_whitespace_tolerance() {
    let json = " \t\r\n [ \n{ \"type\" : \"receive\" } \t ] ";
    let items = Converter::parse_abi_content(json).unwrap();
    assert_eq!(items.len(), 1);
    assert_eq!(items[0].kind, "receive");
}
