use json2struct::json2struct;
use json2struct::sanitize_identifier;
use json2struct::ElementType;
use json2struct::JsonValue;
use json2struct::ParseError;
use json2struct::RenameStyle;
use json2struct::TypeReference;

fn expect_ok(input: &str) -> json2struct::MacroOutput {
    match json2struct(input) {
        Ok(out) => out,
        Err(_) => panic!("expected the invocation to be accepted"),
    }
}

#[test]
fn sanitize_replaces_and_lowercases() {
    assert_eq!(sanitize_identifier("Hello-World!"), "hello_world_");
    assert_eq!(sanitize_identifier("first_name"), "first_name");
    assert_eq!(sanitize_identifier("A1 b2"), "a1_b2");
}

#[test]
fn sanitize_is_idempotent_on_samples() {
    for s in ["Hello-World!", "already_clean", "98 Degrees", "Mixed-CASE key", ""] {
        let once = sanitize_identifier(s);
        let twice = sanitize_identifier(&once);
        assert_eq!(once, twice);
    }
}

#[test]
fn sanitize_keeps_unicode_alphanumerics() {
    assert_eq!(sanitize_identifier("\u{c9}"), "\u{e9}");
    assert_eq!(sanitize_identifier("Caf\u{e9} Menu"), "caf\u{e9}_menu");
}

#[test]
fn alias_equals_source_key_under_rename() {
    let out = expect_ok("User @camel { \"jobs_list\": [\"a\"], \"Display-Name\": \"x\" }");
    let fields = &out.main_struct.fields;
    assert_eq!(fields.len(), 2);
    assert_eq!(fields[0].alias.as_deref(), Some("jobs_list"));
    assert_eq!(fields[1].alias.as_deref(), Some("Display-Name"));
    assert_eq!(fields[1].field_name, "display_name");
    assert_eq!(out.main_struct.rename_style, Some(RenameStyle::Camel));
}

#[test]
fn no_alias_flag_suppresses_aliases() {
    let out = expect_ok("User @no_alias { \"jobs_list\": [\"a\"] }");
    assert!(out.main_struct.fields[0].alias.is_none());
}

#[test]
fn array_inference_is_determined_by_first_element() {
    let out = expect_ok("T { \"a\": [\"a\", \"b\"], \"b\": [], \"c\": [1, \"x\"] }");
    let fields = &out.main_struct.fields;
    assert!(matches!(
        fields[0].type_reference,
        TypeReference::Sequence(ElementType::StringElem)
    ));
    assert!(matches!(
        fields[1].type_reference,
        TypeReference::Sequence(ElementType::AnyElem)
    ));
    assert!(matches!(
        fields[2].type_reference,
        TypeReference::Sequence(ElementType::NumberElem)
    ));
}

#[test]
fn nested_object_names_auxiliary_type() {
    let out = expect_ok("User { \"addr\": { \"city\": \"X\" } }");
    assert_eq!(out.all_structs.len(), 1);
    assert_eq!(out.all_structs[0].name, "UserAddr");
    match &out.main_struct.fields[0].type_reference {
        TypeReference::Reference(n) => assert_eq!(n, "UserAddr"),
        _ => panic!("addr should reference the auxiliary type"),
    }
    assert_eq!(out.all_structs[0].fields[0].field_name, "city");
}

#[test]
fn embedded_constant_round_trips_through_decoding() {
    let out = expect_ok("Conf @store_json { \"name\": \"a\\\"b\", \"n\": 7.25, \"ok\": true }");
    let constant = out.json_constant.expect("@store_json emits a constant");
    assert_eq!(constant.name, "CONF_JSON_VALUE");
    let decoded: serde_json::Value =
        serde_json::from_str(&constant.text).expect("the canonical text is valid JSON");
    let expected: serde_json::Value =
        serde_json::from_str("{\"name\":\"a\\\"b\",\"n\":7.25,\"ok\":true}").unwrap();
    assert_eq!(decoded, expected);
}

#[test]
fn embedded_constant_matches_to_serde_value() {
    let input = "Conf @store_json { \"xs\": [1, 2.50], \"inner\": { \"k\": \"v\" } }";
    let out = expect_ok(input);
    let constant = out.json_constant.expect("@store_json emits a constant");
    let decoded: serde_json::Value = serde_json::from_str(&constant.text).unwrap();

    let parsed = json2struct::JsonMacroInput::parse(input).unwrap();
    let root = JsonValue::Object(parsed.content.entries);
    let direct = root.to_serde_value().expect("canonical text decodes");
    assert_eq!(decoded, direct);
}

#[test]
fn unknown_flag_is_rejected_and_yields_no_definitions() {
    match json2struct("User @bogus { \"a\": 1 }") {
        Err(ParseError::UnknownFlag { flag, .. }) => assert_eq!(flag, "bogus"),
        _ => panic!("an unrecognized flag must fail with the unknown-flag error"),
    }
}

#[test]
fn unknown_flag_message_enumerates_the_valid_set() {
    match json2struct("User @bogus { \"a\": 1 }") {
        Err(e) => assert_eq!(
            e.message(),
            "Unknown flag: bogus Supported flags: @debug @camel @snake @pascal @store_json @no_alias @derive(...)"
        ),
        Ok(_) => panic!("an unrecognized flag must be rejected"),
    }
}

#[test]
fn end_to_end_example() {
    let out = expect_ok(
        "User @camel @store_json @debug { \"ainfo\": 0, \"arr\": [\"sd\"], \"asas\": { \"s\": { \"d\": \"23\" } }, \"extra\": \"r\" }",
    );

    let main = &out.main_struct;
    assert_eq!(main.name, "User");
    assert_eq!(main.fields.len(), 4);
    assert_eq!(main.fields[0].field_name, "ainfo");
    assert!(matches!(main.fields[0].type_reference, TypeReference::NumberType));
    assert_eq!(main.fields[1].field_name, "arr");
    assert!(matches!(
        main.fields[1].type_reference,
        TypeReference::Sequence(ElementType::StringElem)
    ));
    assert_eq!(main.fields[2].field_name, "asas");
    match &main.fields[2].type_reference {
        TypeReference::Reference(n) => assert_eq!(n, "UserAsas"),
        _ => panic!("asas should reference UserAsas"),
    }
    assert_eq!(main.fields[3].field_name, "extra");
    assert!(matches!(main.fields[3].type_reference, TypeReference::StringType));

    // Deeper auxiliary types come before their ancestors.
    assert_eq!(out.all_structs.len(), 2);
    assert_eq!(out.all_structs[0].name, "UserAsasS");
    assert_eq!(out.all_structs[1].name, "UserAsas");
    match &out.all_structs[1].fields[0].type_reference {
        TypeReference::Reference(n) => assert_eq!(n, "UserAsasS"),
        _ => panic!("s should reference UserAsasS"),
    }
    assert!(matches!(
        out.all_structs[0].fields[0].type_reference,
        TypeReference::StringType
    ));

    // Every type carries the debug capability and the camelCase convention.
    for t in std::iter::once(main).chain(out.all_structs.iter()) {
        assert!(t.capabilities.iter().any(|c| c == "Debug"));
        assert_eq!(t.capabilities[0], "Clone");
        assert_eq!(t.rename_style, Some(RenameStyle::Camel));
    }

    let constant = out.json_constant.expect("@store_json emits a constant");
    assert_eq!(constant.name, "USER_JSON_VALUE");
    assert_eq!(
        constant.text,
        "{\"ainfo\":0.0,\"arr\":[\"sd\"],\"asas\":{\"s\":{\"d\":\"23\"}},\"extra\":\"r\"}"
    );
    let decoded: serde_json::Value = serde_json::from_str(&constant.text).unwrap();
    let expected: serde_json::Value = serde_json::from_str(
        "{\"ainfo\":0.0,\"arr\":[\"sd\"],\"asas\":{\"s\":{\"d\":\"23\"}},\"extra\":\"r\"}",
    )
    .unwrap();
    assert_eq!(decoded, expected);
}

#[test]
fn capabilities_are_deduplicated_with_clone_first() {
    let out = expect_ok("T @debug @derive(PartialEq, Clone, Debug, PartialEq) { \"a\": 1 }");
    let caps: Vec<&str> = out.main_struct.capabilities.iter().map(|c| c.as_str()).collect();
    assert_eq!(caps, vec!["Clone", "Debug", "PartialEq"]);
}

#[test]
fn derive_without_list_is_malformed() {
    assert!(matches!(
        json2struct("T @derive { \"a\": 1 }"),
        Err(ParseError::MalformedDerive { .. })
    ));
}

#[test]
fn last_rename_flag_wins() {
    let out = expect_ok("T @camel @snake { \"a\": 1 }");
    assert_eq!(out.main_struct.rename_style, Some(RenameStyle::Snake));
}

#[test]
fn unsupported_literal_is_rejected() {
    assert!(matches!(
        json2struct("T { \"a\": null }"),
        Err(ParseError::UnsupportedLiteral { .. })
    ));
    assert!(matches!(
        json2struct("T { \"a\": 'c' }"),
        Err(ParseError::UnsupportedLiteral { .. })
    ));
}

#[test]
fn non_object_root_is_rejected() {
    assert!(matches!(
        json2struct("T @debug \"just a string\""),
        Err(ParseError::NonObjectRoot { .. })
    ));
    assert!(matches!(
        json2struct("T [1, 2]"),
        Err(ParseError::NonObjectRoot { .. })
    ));
}

#[test]
fn syntax_errors_are_rejected() {
    assert!(matches!(json2struct("T { \"a\" 1 }"), Err(ParseError::Syntax { .. })));
    assert!(matches!(json2struct("T { \"a\": 1"), Err(ParseError::Syntax { .. })));
    assert!(matches!(json2struct("{ \"a\": 1 }"), Err(ParseError::Syntax { .. })));
    assert!(matches!(json2struct("T { a: 1 }"), Err(ParseError::Syntax { .. })));
}

#[test]
fn trailing_commas_are_permitted() {
    let out = expect_ok("T { \"a\": [1, 2,], \"b\": 2, }");
    assert_eq!(out.main_struct.fields.len(), 2);
}

#[test]
fn numbers_are_canonicalized() {
    let out = expect_ok("T @store_json { \"a\": 0, \"b\": 007.500, \"c\": 3.14 }");
    let constant = out.json_constant.unwrap();
    assert_eq!(constant.text, "{\"a\":0.0,\"b\":7.5,\"c\":3.14}");
}

#[test]
fn rename_style_tokens() {
    assert_eq!(RenameStyle::Camel.text(), "camelCase");
    assert_eq!(RenameStyle::Snake.text(), "snake_case");
    assert_eq!(RenameStyle::Pascal.text(), "PascalCase");
}

#[test]
fn empty_object_generates_empty_type() {
    let out = expect_ok("Empty { }");
    assert!(out.main_struct.fields.is_empty());
    assert!(out.all_structs.is_empty());
    assert!(out.json_constant.is_none());
}

#[test]
fn value_accessors_expose_payloads() {
    let parsed = json2struct::JsonMacroInput::parse(
        "T { \"s\": \"x\", \"n\": 4.5, \"b\": true, \"a\": [1], \"o\": { \"k\": 1 } }",
    )
    .unwrap();
    let entries = &parsed.content.entries;
    assert_eq!(entries[0].1.as_str(), Some("x"));
    assert_eq!(entries[1].1.as_number(), Some("4.5"));
    assert_eq!(entries[2].1.as_bool(), Some(true));
    assert_eq!(entries[3].1.as_array().map(|a| a.len()), Some(1));
    assert_eq!(entries[4].1.as_object().map(|o| o.len()), Some(1));
    assert!(entries[0].1.as_bool().is_none());
    assert!(entries[2].1.as_str().is_none());
}

#[test]
fn string_escapes_round_trip() {
    let out = expect_ok("T @store_json { \"k\": \"line\\nbreak\\tand \\\"quote\\\" and \\\\slash\" }");
    let constant = out.json_constant.unwrap();
    let decoded: serde_json::Value = serde_json::from_str(&constant.text).unwrap();
    assert_eq!(
        decoded.get("k").and_then(|v| v.as_str()),
        Some("line\nbreak\tand \"quote\" and \\slash")
    );
}
