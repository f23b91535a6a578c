//! Sources and settings as texts: reading them, hashing them, and writing into them.

use strata::codec::{canonical_json, content_hash};
use strata::hash::source_hash;
use strata::json::{JsonValue, Number, Settings};
use strata::parse::{parse_settings, parse_source, parse_source_or, source_of};
use strata::tokens::{scan_tokens, tokens_fit, Token};
use strata::patch::{patch_source, PatchError};
use strata::registry::read_json;
use strata::source::{CoreError, ProfileDelta, Source};
use strata::table::{Names, Table};

fn json(text: &str) -> JsonValue {
    read_json(text.as_bytes()).unwrap()
}

fn settings(items: &[(&str, &str)]) -> Settings {
    let mut table = Table::new();
    for (name, value) in items {
        table.insert((*name).to_owned(), json(value));
    }
    table
}

fn hex(bytes: &[u8]) -> String {
    blake3::hash(bytes).to_hex().to_string()
}

#[test]
fn source_mutation_preserves_unrelated_comments() {
    let text = "{\n  // shared settings\n  \"version\": 1,\n  \"base\": {\n    // keep this comment\n    \"x\": 1,\n  },\n  \"profiles\": { \"Default\": {} },\n}\n";
    let mut source = parse_source(text).unwrap();
    source.base.insert("x".into(), json("2"));
    source.base.insert("y".into(), json("3"));
    let patched = patch_source(text, &source).unwrap();
    assert!(patched.contains("// shared settings"));
    assert!(patched.contains("// keep this comment"));
    assert_eq!(parse_source(&patched).unwrap(), source);
}

#[test]
fn an_unchanged_source_leaves_the_text_alone() {
    let text = "{ // c\n \"version\": 1, \"base\": {\"x\": 1.50,}, \"profiles\": {\"Default\": {}, \"b\": {\"uninherit\": [\"x\"]}} }\n";
    let source = parse_source(text).unwrap();
    assert_eq!(patch_source(text, &source).unwrap(), text);
}

#[test]
fn profiles_come_and_go_in_the_text() {
    let text = "{\n  \"version\": 1,\n  \"base\": { \"x\": 1 },\n  \"profiles\": {\n    \"Default\": {},\n    // left behind\n    \"old\": { \"y\": 2 },\n    \"cpp\": { \"uninherit\": [\"x\"], \"z\": { \"a\": [true, null] } }\n  }\n}\n";
    let mut source = parse_source(text).unwrap();
    source.profiles.remove("old");
    let mut fresh = ProfileDelta::default();
    fresh.uninherit.insert("x".to_owned());
    fresh.settings.insert("q".to_owned(), json(r#"{"b":[1,-2,2.5],"a":"t"}"#));
    source.profiles.insert("new".to_owned(), fresh);
    let mut cpp = ProfileDelta::default();
    cpp.settings.insert("x".to_owned(), json("5"));
    source.profiles.insert("cpp".to_owned(), cpp);
    source.base.remove("x");
    let patched = patch_source(text, &source).unwrap();
    assert_eq!(parse_source(&patched).unwrap(), source);
    assert!(!patched.contains("old"));
    assert!(!patched.contains("uninherit\": [\"x\"], \"z\""));
}

#[test]
fn uninherit_lists_are_replaced_and_added() {
    let text = "{\"version\":1,\"base\":{\"a\":1,\"b\":2},\"profiles\":{\"p\":{\"uninherit\":[\"a\"]},\"q\":{}}}";
    let mut source = parse_source(text).unwrap();
    for name in ["p", "q"] {
        let mut delta = ProfileDelta::default();
        delta.uninherit.insert("b".to_owned());
        delta.uninherit.insert("a".to_owned());
        source.profiles.insert(name.to_owned(), delta);
    }
    let patched = patch_source(text, &source).unwrap();
    assert_eq!(parse_source(&patched).unwrap(), source);
}

#[test]
fn missing_sections_are_made() {
    let mut source = parse_source("{}").unwrap();
    assert_eq!(source, Source::default());
    source.base.insert("x".to_owned(), json("1"));
    source.profiles.insert("Default".to_owned(), ProfileDelta::default());
    let patched = patch_source("{}", &source).unwrap();
    assert_eq!(parse_source(&patched).unwrap(), source);
}

#[test]
fn a_text_that_is_no_source_is_not_written_into() {
    let source = Source::default();
    assert!(matches!(
        patch_source("{", &source),
        Err(PatchError::Source(CoreError::Jsonc(_)))
    ));
    let error = patch_source("{\"version\": 3}", &source).unwrap_err();
    assert!(matches!(error, PatchError::Source(CoreError::Version(3))));
    assert_eq!(error.message(), "unsupported source version 3; supported version is 1");
    assert_eq!(PatchError::Document("m".to_owned()).message(), "m");
}

#[test]
fn sources_have_their_own_fields_only() {
    let source = parse_source(
        "{\"$schema\":\"s\",\"version\":1,\"base\":{\"a\":1},\"profiles\":{\"p\":{\"uninherit\":[\"b\"],\"c\":2}}}",
    )
    .unwrap();
    assert_eq!(source.schema, Some("s".to_owned()));
    assert_eq!(source.base, settings(&[("a", "1")]));
    let mut uninherit = Names::new();
    uninherit.insert("b".to_owned());
    assert_eq!(
        source.profiles.get("p"),
        Some(&ProfileDelta { uninherit, settings: settings(&[("c", "2")]) })
    );
    for text in [
        "",
        "[",
        "1",
        "{\"other\": 1}",
        "{\"version\": \"1\"}",
        "{\"version\": -1}",
        "{\"version\": 1.0}",
        "{\"$schema\": 1}",
        "{\"base\": []}",
        "{\"profiles\": {\"p\": 1}}",
        "{\"profiles\": {\"p\": {\"uninherit\": \"x\"}}}",
        "{\"profiles\": {\"p\": {\"uninherit\": [1]}}}",
        "{\"base\": {}, \"base\": {}}",
    ] {
        assert!(
            matches!(parse_source(text), Err(CoreError::Jsonc(_))),
            "{text}"
        );
    }
    assert_eq!(parse_source("{\"$schema\": null}").unwrap().schema, None);
    assert_eq!(
        CoreError::Jsonc("m".to_owned()).message(),
        "invalid JSONC: m"
    );
}

#[test]
fn a_source_comes_from_what_was_read() {
    let value = json("{\"base\":{\"a\":1}}");
    assert_eq!(source_of(Ok(value), true, None).unwrap().base, settings(&[("a", "1")]));
    let value = json("{\"base\":{\"a\":1}}");
    assert!(matches!(source_of(Ok(value), false, None), Err(CoreError::Jsonc(_))));
    match source_of(Err("said".to_owned()), true, None) {
        Err(CoreError::Jsonc(message)) => assert_eq!(message, "said"),
        other => panic!("{other:?}"),
    }
    for read in [Err("said".to_owned()), Ok(json("[1]")), Ok(json("{\"x\":1}"))] {
        match source_of(read, true, Some("a complaint".to_owned())) {
            Err(CoreError::Jsonc(message)) => assert_eq!(message, "a complaint"),
            other => panic!("{other:?}"),
        }
    }
}

#[test]
fn a_complaint_is_said_of_what_is_no_source_alone() {
    let said = |text: &str| match parse_source_or(text, Some("why".to_owned())) {
        Ok(source) => format!("{:?}", source.base),
        Err(error) => error.message(),
    };
    assert_eq!(said("{"), "invalid JSONC: why");
    assert_eq!(said("{\"base\":[]}"), "invalid JSONC: why");
    assert_eq!(said("{\"version\":7}"), CoreError::Version(7).message());
    let base = settings(&[("a", "1")]);
    assert_eq!(said("{\"base\":{\"a\":1}}"), format!("{base:?}"));
    match parse_source("{\"base\":[]}") {
        Err(CoreError::Jsonc(message)) => assert_eq!(
            message,
            "the fields of a source are $schema, version, base and profiles, each at most once"
        ),
        other => panic!("{other:?}"),
    }
}

#[test]
fn tokens_are_taken_without_comments() {
    let text = |text: &str| Token::Text(text.to_owned());
    let word = |text: &str| Token::Word(text.to_owned());
    assert_eq!(
        scan_tokens("{ // c\n a: -1.5, 'b\\n' /* d */ : [true, null] }"),
        vec![
            Token::OpenBrace,
            word("a"),
            Token::Colon,
            word("-1.5"),
            Token::Comma,
            text("b\n"),
            Token::Colon,
            Token::OpenBracket,
            word("true"),
            Token::Comma,
            word("null"),
            Token::CloseBracket,
            Token::CloseBrace,
        ]
    );
    assert_eq!(scan_tokens("{ /* open"), vec![Token::OpenBrace]);
    assert!(tokens_fit(&scan_tokens("{base: {}, profiles: {}}")));
    assert!(!tokens_fit(&scan_tokens("{base: {}, 'base': {}}")));
}

/// A text with a value that holds `levels` objects in each other.
fn deep_source(levels: usize, members: &str) -> String {
    format!(
        "{{ // deep\n \"base\": {{\"d\": {}1{}}}, {members} }}",
        "{\"x\":".repeat(levels),
        "}".repeat(levels)
    )
}

#[test]
fn a_field_stands_once_in_a_text_of_any_depth() {
    for levels in [1, 250, 300, 500] {
        for members in [
            "\"profiles\": {\"Default\": {\"uninherit\": [\"d\"], \"k\": {\"uninherit\": 1, \"uninherit\": 2}}}",
            "profiles: {cpp: {'uninherit': [], /* c */ a: 1, a: 2}}, \"version\": 1,",
            "",
        ] {
            let text = deep_source(levels, members);
            assert!(parse_source(&text).is_ok(), "{levels} {members}");
        }
        for members in [
            "\"base\": {}",
            "base: {}",
            "\"version\": 1, 'version': 1",
            "\"profiles\": {\"cpp\": {\"uninherit\": [], \"a\": [{}], \"uninherit\": []}}",
            "\"profiles\": {\"cpp\": {\"uninherit\": 1, \"uninherit\": []}}",
            "\"profiles\": {\"cpp\": 1, \"cpp\": {}}",
        ] {
            let text = deep_source(levels, members);
            assert!(
                matches!(parse_source(&text), Err(CoreError::Jsonc(_))),
                "{levels} {members}"
            );
        }
    }
    let listed = |levels: usize, profiles: &str| {
        format!(
            "[null, 1, {{\"d\": {}1{}}}, {profiles}]",
            "{\"x\":".repeat(levels),
            "}".repeat(levels)
        )
    };
    for levels in [1, 300] {
        assert!(parse_source(&listed(levels, "{\"cpp\": {}}")).is_ok());
        assert!(parse_source(&listed(levels, "{\"cpp\": {uninherit: [], uninherit: []}}")).is_err());
    }
}

#[test]
fn settings_are_read_with_comments() {
    assert_eq!(
        parse_settings("{ // c\n \"y\": 2, }").unwrap(),
        settings(&[("y", "2")])
    );
    for (text, message) in [
        ("[]", "invalid type: sequence, expected a map on line 1 column 1"),
        ("", "invalid type: unit value, expected a map on line 1 column 1"),
        ("{", "Unterminated object on line 1 column 2"),
    ] {
        assert_eq!(parse_settings(text), Err(message.to_owned()));
    }
}

#[test]
fn settings_are_written_with_white_space() {
    assert_eq!(canonical_json(&Settings::new()), "{}\n");
    assert_eq!(
        canonical_json(&settings(&[("b", "{}"), ("a", "[1,\"x\"]"), ("c", "-2.50")])),
        "{\n  \"a\": [\n    1,\n    \"x\"\n  ],\n  \"b\": {},\n  \"c\": -2.5\n}\n"
    );
    let written = settings(&[("b", "{\"x\":null}"), ("a", "1e300")]);
    assert_eq!(parse_settings(&canonical_json(&written)).unwrap(), written);
}

#[test]
fn settings_are_hashed_by_their_text() {
    assert_eq!(content_hash(&Settings::new()), hex(b"{}"));
    assert_eq!(
        content_hash(&settings(&[("b", "[1, 2]"), ("a", "{\"y\":-1, \"x\":0.5}")])),
        hex(b"{\"a\":{\"x\":0.5,\"y\":-1},\"b\":[1,2]}")
    );
}

#[test]
fn a_number_that_is_none_is_written_as_null() {
    let mut table = Settings::new();
    table.insert(
        "a".to_owned(),
        JsonValue::Number(Number::Float("nan".to_owned())),
    );
    assert_eq!(canonical_json(&table), "{\n  \"a\": null\n}\n");
}

#[test]
fn sources_are_hashed_by_their_text() {
    assert_eq!(
        source_hash(&Source::default()),
        hex(b"{\"version\":1,\"base\":{},\"profiles\":{}}")
    );
    let mut delta = ProfileDelta {
        uninherit: Names::new(),
        settings: settings(&[("z", "1"), ("a", "{\"k\":\"\\n\"}")]),
    };
    delta.uninherit.insert("u\"1".to_owned());
    delta.uninherit.insert("b".to_owned());
    let mut source = Source {
        schema: Some("https://example.invalid/s".to_owned()),
        base: settings(&[("x", "true")]),
        ..Source::default()
    };
    source.profiles.insert("p".to_owned(), delta);
    source.profiles.insert("Default".to_owned(), ProfileDelta::default());
    assert_eq!(
        source_hash(&source),
        hex(b"{\"$schema\":\"https://example.invalid/s\",\"version\":1,\"base\":{\"x\":true},\"profiles\":{\"Default\":{},\"p\":{\"uninherit\":[\"b\",\"u\\\"1\"],\"a\":{\"k\":\"\\n\"},\"z\":1}}}")
    );
}

#[test]
fn numbers_read_back_as_they_were_written() {
    let written = settings(&[
        ("a", "1e300"),
        ("b", "0.1"),
        ("c", "-0.0"),
        ("d", "5e-324"),
        ("e", "18446744073709551615"),
        ("f", "-9223372036854775808"),
        ("g", "1.0"),
        ("h", "123456789.123456789"),
    ]);
    let text = canonical_json(&written);
    assert_eq!(parse_settings(&text).unwrap(), written);
    assert_eq!(canonical_json(&parse_settings(&text).unwrap()), text);
    assert_eq!(
        content_hash(&parse_settings(&text).unwrap()),
        content_hash(&written)
    );
}

#[test]
fn texts_read_back_as_they_were_written() {
    let mut written = Settings::new();
    let said = "\u{0}\u{1f}\"\\/\n\r\t\u{7f}\u{2028}\u{fffd}\u{10ffff} // no comment";
    written.insert(said.to_owned(), JsonValue::String(said.to_owned()));
    assert_eq!(parse_settings(&canonical_json(&written)).unwrap(), written);
}

fn nested(depth: usize) -> JsonValue {
    let mut value = JsonValue::Null;
    for _ in 0..depth {
        value = JsonValue::Array(vec![value]);
    }
    value
}

#[test]
fn settings_read_back_up_to_the_limit_of_nesting() {
    let mut written = Settings::new();
    written.insert("a".to_owned(), nested(511));
    assert_eq!(parse_settings(&canonical_json(&written)).unwrap(), written);
    written.insert("a".to_owned(), nested(512));
    assert!(parse_settings(&canonical_json(&written)).is_err());
}

#[test]
fn only_what_changes_is_edited() {
    let text = "{\n  // top\n  \"version\": 1, /* v */\n  \"base\": {\n    \"a\": 1, // one\n    \"b\": [1,  2], // two\n    'c': 0x10 // three\n  },\n  \"profiles\": {\n    \"Default\": { /* empty */ },\n    \"p\": {\n      // mine\n      \"uninherit\": [ \"a\" ],\n      \"d\": {\"x\" : 1}\n    }\n  }\n}\n";
    let mut source = parse_source(text).unwrap();
    source.base.insert("a".to_owned(), json("3"));
    let patched = patch_source(text, &source).unwrap();
    assert_eq!(patched, text.replace("\"a\": 1, // one", "\"a\": 3, // one"));
    let mut source = parse_source(text).unwrap();
    let mut delta = source.profiles.remove("p").unwrap();
    delta.settings.insert("d".to_owned(), json("[true]"));
    source.profiles.insert("p".to_owned(), delta);
    let patched = patch_source(text, &source).unwrap();
    assert_eq!(patched, text.replace("{\"x\" : 1}", "[true]"));
}

#[test]
fn equal_values_are_left_as_they_stand() {
    let text = "{\"base\": {\"a\": 0.0, \"b\": 1e2}, \"profiles\": {}}";
    let mut source = parse_source(text).unwrap();
    source.base.insert("a".to_owned(), json("-0.0"));
    source.base.insert("b".to_owned(), json("100.0"));
    assert_eq!(patch_source(text, &source).unwrap(), text);
}
