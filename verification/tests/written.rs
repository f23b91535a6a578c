//! Sources that are written into texts and read from them again.

use jsonc_parser::cst::{CstContainerNode, CstNode, CstObjectProp, CstRootNode};
use jsonc_parser::tokens::Token;
use jsonc_parser::Scanner;
use serde::ser::{Serialize, SerializeMap, SerializeStruct, Serializer};
use std::collections::BTreeMap;
use strata::codec::export_value;
use strata::draft::fresh_text;
use strata::inherit::compile;
use strata::json::{JsonValue, Settings};
use strata::parse::{parse_settings, parse_source};
use strata::patch::{keeps_names_apart, patch_source};
use strata::registry::read_json;
use strata::service::{compile_all, reconcile_all, Reconciliation};
use strata::source::{ProfileDelta, Source, StateSnapshot};
use strata::table::{Names, Table};

fn json(text: &str) -> JsonValue {
    read_json(text.as_bytes()).unwrap()
}

/// Numbers that look random and are always the same. `commas` says that no comma is left out
/// and that names may stand without quotes.
struct Dice {
    state: u64,
    commas: bool,
}

impl Dice {
    fn roll(&mut self, sides: u64) -> u64 {
        self.state = self
            .state
            .wrapping_mul(6364136223846793005)
            .wrapping_add(1442695040888963407);
        (self.state >> 33) % sides
    }

    fn pick<'a>(&mut self, items: &[&'a str]) -> &'a str {
        items[self.roll(items.len() as u64) as usize]
    }

    /// White space and comments, which may stand between any two tokens.
    fn gap(&mut self) -> String {
        let parts = [
            "", "", "", " ", "  ", "\t", "\n", "\n  ", "\r\n", "\r", "\n\n", "/* c */", " /**/ ",
            "// c\n", " // , \" {\r\n", "//\r", "\u{a0}", "\u{b}",
        ];
        let mut gap = String::new();
        for _ in 0..self.roll(3) {
            gap.push_str(self.pick(&parts));
        }
        gap
    }

    fn value(&mut self, depth: u64) -> String {
        let plain = [
            "1", "-2", "0", "1.5", "1.50", "0x1F", "+3", ".5", "5.", "1e3", "-1E-2", "true",
            "false", "null", "\"t\"", "'s'", "\"\\u0041\\n\"", "\"a // b\"", "\"\"",
            "18446744073709551615", "-9223372036854775808",
        ];
        if depth == 0 || self.roll(4) > 0 {
            return self.pick(&plain).to_owned();
        }
        let (open, close) = if self.roll(2) == 0 { ('[', ']') } else { ('{', '}') };
        let mut text = open.to_string();
        let count = self.roll(3);
        for i in 0..count {
            text.push_str(&self.gap());
            if open == '{' {
                text.push_str(self.pick(&["\"a\"", "\"b\"", "'c'"]));
                text.push_str(&self.gap());
                text.push(':');
                text.push_str(&self.gap());
            }
            text.push_str(&self.value(depth - 1));
            text.push_str(&self.gap());
            if i + 1 < count || self.roll(3) == 0 {
                text.push(',');
            }
        }
        text.push_str(&self.gap());
        text.push(close);
        text
    }

    /// An object with some of the names, each once: a comma may be left out.
    fn object(&mut self, names: &[&str], inner: fn(&mut Dice) -> String) -> String {
        let mut text = "{".to_owned();
        for name in names {
            if self.roll(3) == 0 {
                continue;
            }
            text.push_str(&self.gap());
            let quote = if self.commas {
                self.pick(&["", "", "\""])
            } else {
                self.pick(&["\"", "\"", "'"])
            };
            text.push_str(quote);
            text.push_str(name);
            text.push_str(quote);
            text.push_str(&self.gap());
            text.push(':');
            text.push_str(&self.gap());
            text.push_str(&inner(self));
            text.push_str(&self.gap());
            if self.commas || self.roll(4) > 0 {
                text.push(',');
            }
        }
        text.push_str(&self.gap());
        text.push('}');
        text
    }

    fn settings_text(&mut self) -> String {
        self.object(&["x", "y", "z", "w"], |dice| dice.value(2))
    }

    fn source_text(&mut self) -> String {
        let base = self.settings_text();
        let profiles = self.object(&["Default", "cpp", "rust"], |dice| dice.settings_text());
        let mut text = self.gap();
        text.push('{');
        text.push_str(&self.gap());
        if self.roll(2) == 0 {
            text.push_str("\"version\": 1");
            let ends: &[&str] = if self.commas { &[",", " ,"] } else { &[",", " ", "\n"] };
            text.push_str(self.pick(ends));
        }
        if self.roll(4) > 0 {
            text.push_str("\"base\":");
            text.push_str(&self.gap());
            text.push_str(&base);
            let ends: &[&str] =
                if self.commas { &[",", ", // base\n"] } else { &[",", " ", ", // base\n"] };
            text.push_str(self.pick(ends));
        }
        if self.roll(4) > 0 {
            text.push_str("\"profiles\":");
            text.push_str(&self.gap());
            text.push_str(&profiles);
            text.push_str(&self.gap());
        }
        text.push('}');
        text.push_str(&self.gap());
        text
    }

    fn change(&mut self, settings: &mut Settings) {
        for name in ["x", "y", "z", "w", "v \"\\\n"] {
            match self.roll(4) {
                0 => {
                    settings.remove(name);
                }
                1 => {
                    let values = [
                        "1", "-7", "2.25", "1e100", "\"\u{7f}\\\"t\\\\\\u0001\"", "[]", "{}",
                        "[1,[2],{}]", "{\"a\":{\"b\":[null]},\"\":0.1}", "true", "null",
                    ];
                    settings.insert(name.to_owned(), json(self.pick(&values)));
                }
                _ => {}
            }
        }
    }

    fn changed(&mut self, source: &Source) -> Source {
        let mut changed = source.clone();
        self.change(&mut changed.base);
        for name in ["Default", "cpp", "rust", "new"] {
            match self.roll(4) {
                0 => {
                    changed.profiles.remove(name);
                }
                1 => {
                    let mut delta = match changed.profiles.remove(name) {
                        Some(delta) => delta,
                        None => ProfileDelta::default(),
                    };
                    self.change(&mut delta.settings);
                    if self.roll(2) == 0 {
                        delta.uninherit = Names::new();
                        delta.uninherit.insert("u".to_owned());
                    }
                    changed.profiles.insert(name.to_owned(), delta);
                }
                _ => {}
            }
        }
        changed
    }
}

fn write_and_read(mut dice: Dice) {
    let mut read = 0;
    for _ in 0..4000 {
        let text = dice.source_text();
        let Ok(source) = parse_source(&text) else {
            continue;
        };
        assert!(keeps_names_apart(&text), "{text:?}");
        let changed = dice.changed(&source);
        let written = patch_source(&text, &changed).unwrap();
        match parse_source(&written) {
            Ok(found) => assert_eq!(found, changed, "{text:?} {written:?}"),
            Err(error) => panic!("{error:?} {text:?} {written:?}"),
        }
        assert!(keeps_names_apart(&written), "{written:?}");
        read += 1;
    }
    assert!(read > 1000, "{read}");
}

#[test]
fn what_is_written_between_quoted_names_is_read_again() {
    write_and_read(Dice { state: 7, commas: false });
}

#[test]
fn what_is_written_between_commas_is_read_again() {
    write_and_read(Dice { state: 8, commas: true });
}

/// A comment and where it stands.
struct Remark {
    text: String,
    within: Vec<String>,
    beside: Vec<String>,
}

fn name_of(prop: &CstObjectProp) -> String {
    prop.name().unwrap().decoded_value().unwrap()
}

/// The comments under a node of a document.
fn remarks(node: &CstContainerNode, within: &[String], found: &mut Vec<Remark>) {
    let children = node.children();
    let names: Vec<Option<String>> = children
        .iter()
        .map(|child| child.as_object_prop().map(|prop| name_of(&prop)))
        .collect();
    for (i, child) in children.iter().enumerate() {
        if child.is_comment() {
            let before = names[..i].iter().rev().flatten().next();
            let behind = names[i..].iter().flatten().next();
            found.push(Remark {
                text: child.to_string(),
                within: within.to_vec(),
                beside: before.into_iter().chain(behind).cloned().collect(),
            });
        } else if let CstNode::Container(container) = child {
            let mut path = within.to_vec();
            path.extend(names[i].clone());
            remarks(container, &path, found);
        }
    }
}

/// What a source has under a name in the object that a path reaches.
fn held(source: &Source, path: &[String], name: &str) -> Option<String> {
    let path: Vec<&str> = path.iter().map(|name| name.as_str()).collect();
    match path.as_slice() {
        ["base"] => source.base.get(name).map(|value| format!("{value:?}")),
        ["profiles"] => source.profiles.get(name).map(|_| "profile".to_owned()),
        ["profiles", profile] => {
            let delta = source.profiles.get(profile)?;
            match name {
                "uninherit" if !delta.uninherit.is_empty() => Some(format!("{:?}", delta.uninherit)),
                _ => delta.settings.get(name).map(|value| format!("{value:?}")),
            }
        }
        _ => None,
    }
}

/// Numbers the comments of a text, so that no two of them are alike.
fn numbered(text: &str) -> String {
    let mut out = String::new();
    let mut rest = text;
    let mut count = 0;
    while let Some(at) = rest.find("/*") {
        let end = at + rest[at..].find("*/").unwrap();
        out.push_str(&rest[..end]);
        out.push_str(&format!("#{count}*/"));
        rest = &rest[end + 2..];
        count += 1;
    }
    out + rest
}

/// The comments among the tokens of a text.
fn comments(text: &str) -> Vec<String> {
    let mut scanner = Scanner::new(text, &Default::default());
    let mut found = Vec::new();
    while let Some(token) = scanner.scan().unwrap() {
        match token {
            Token::CommentLine(text) => found.push(format!("//{text}")),
            Token::CommentBlock(text) => found.push(format!("/*{text}*/")),
            _ => {}
        }
    }
    found
}

#[test]
fn comments_away_from_what_changes_stay_in_their_order() {
    let mut dice = Dice { state: 10, commas: true };
    let mut stayed = 0;
    for _ in 0..6000 {
        dice.commas = !dice.commas;
        let text = numbered(&dice.source_text().replace("// c\n", "/* l */\n"));
        let Ok(source) = parse_source(&text) else {
            continue;
        };
        let changed = dice.changed(&source);
        let written = patch_source(&text, &changed).unwrap();
        let root = CstRootNode::parse(&text, &Default::default()).unwrap();
        let mut found = Vec::new();
        remarks(&root.into(), &[], &mut found);
        let texts: Vec<&str> = found.iter().map(|remark| remark.text.as_str()).collect();
        assert_eq!(texts, comments(&text), "{text:?}");
        let mut rest = written.as_str();
        for remark in found {
            let path = &remark.within;
            let touched = (0..path.len()).any(|i| {
                held(&source, &path[..i], &path[i]) != held(&changed, &path[..i], &path[i])
            });
            let loses = remark.beside.iter().any(|name| {
                held(&source, path, name).is_some() && held(&changed, path, name).is_none()
            });
            if !touched && !loses {
                let at = rest.find(&remark.text);
                let at = at.unwrap_or_else(|| panic!("{:?} {text:?} {written:?}", remark.text));
                rest = &rest[at + remark.text.len()..];
                stayed += 1;
            }
        }
    }
    assert!(stayed > 4000, "{stayed}");
}

#[test]
fn a_comment_on_the_line_of_what_is_taken_away_goes_with_it() {
    let text = "{\"base\": {\n  \"a\": 1, // of a\n  \"b\": 2, // of b\n  \"c\": 3 // of c\n}}";
    let mut source = parse_source(text).unwrap();
    source.base.remove("b");
    let written = patch_source(text, &source).unwrap();
    assert!(written.contains("// of a"));
    assert!(!written.contains("// of b"));
    assert!(written.contains("// of c"));
}

/// A source as serde writes it.
struct Out<'a>(&'a Source);

struct DeltaOut<'a>(&'a ProfileDelta);

fn settings_out(settings: &Settings) -> BTreeMap<String, serde_json::Value> {
    (0..settings.len())
        .map(|i| (settings.name(i).to_owned(), export_value(settings.value(i))))
        .collect()
}

impl Serialize for DeltaOut<'_> {
    fn serialize<S: Serializer>(&self, serializer: S) -> Result<S::Ok, S::Error> {
        let mut map = serializer.serialize_map(None)?;
        let names = &self.0.uninherit;
        if !names.is_empty() {
            let list: Vec<&str> = (0..names.len()).map(|i| names.name(i)).collect();
            map.serialize_entry("uninherit", &list)?;
        }
        for (name, value) in settings_out(&self.0.settings) {
            map.serialize_entry(&name, &value)?;
        }
        map.end()
    }
}

impl Serialize for Out<'_> {
    fn serialize<S: Serializer>(&self, serializer: S) -> Result<S::Ok, S::Error> {
        let mut fields = serializer.serialize_struct("Source", 4)?;
        if let Some(schema) = &self.0.schema {
            fields.serialize_field("$schema", schema)?;
        }
        fields.serialize_field("version", &self.0.version)?;
        fields.serialize_field("base", &settings_out(&self.0.base))?;
        let profiles: BTreeMap<&str, DeltaOut> = (0..self.0.profiles.len())
            .map(|i| (self.0.profiles.name(i), DeltaOut(self.0.profiles.value(i))))
            .collect();
        fields.serialize_field("profiles", &profiles)?;
        fields.end()
    }
}

#[test]
fn a_source_is_written_anew_as_serde_writes_it_and_read_again() {
    let mut dice = Dice { state: 9, commas: true };
    for _ in 0..2000 {
        let Ok(source) = parse_source(&dice.source_text()) else {
            continue;
        };
        let mut source = dice.changed(&source);
        if dice.roll(2) == 0 {
            source.schema = Some(dice.pick(&["", "file:///s.json", "\"\\\n\u{1}\u{2028}"]).to_owned());
        }
        let text = fresh_text(&source);
        assert_eq!(text, serde_json::to_string_pretty(&Out(&source)).unwrap() + "\n");
        assert_eq!(parse_source(&text).unwrap(), source, "{text}");
    }
}

#[test]
fn a_source_written_anew_has_its_fields_in_order() {
    let source = parse_source(
        r#"{"profiles":{"cpp":{"b":[1,{}],"uninherit":["y","x"],"a":{"k":null}},"Default":{}},
            "base":{},"$schema":"s"}"#,
    )
    .unwrap();
    assert_eq!(
        fresh_text(&source),
        r#"{
  "$schema": "s",
  "version": 1,
  "base": {},
  "profiles": {
    "Default": {},
    "cpp": {
      "uninherit": [
        "x",
        "y"
      ],
      "a": {
        "k": null
      },
      "b": [
        1,
        {}
      ]
    }
  }
}
"#
    );
    assert_eq!(
        fresh_text(&Source::default()),
        "{\n  \"version\": 1,\n  \"base\": {},\n  \"profiles\": {}\n}\n"
    );
}

#[test]
fn a_source_written_anew_is_read_again_up_to_the_limit_of_nesting() {
    for (levels, readable) in [(1, true), (253, true), (256, true), (400, true), (509, true), (510, false)] {
        let value = |levels: usize| {
            let mut value = JsonValue::Null;
            for _ in 0..levels {
                let mut table = Table::new();
                table.insert("x".to_owned(), value);
                value = JsonValue::Object(table);
            }
            value
        };
        let mut source = Source::default();
        let mut delta = ProfileDelta::default();
        delta.settings.insert("d".to_owned(), value(levels));
        delta.uninherit.insert("e".to_owned());
        source.profiles.insert("cpp".to_owned(), delta);
        let text = fresh_text(&source);
        match parse_source(&text) {
            Ok(found) => {
                assert!(readable, "{levels}");
                assert_eq!(found, source);
            }
            Err(_) => assert!(!readable, "{levels}"),
        }
    }
}

#[test]
fn a_name_without_quotes_may_run_into_what_stands_in_front_of_it() {
    let text = r#"{"base":{"a":true,"b":2/**/c:3}}"#;
    assert!(!keeps_names_apart(text));
    let mut source = parse_source(text).unwrap();
    source.base.remove("b");
    let written = patch_source(text, &source).unwrap();
    assert!(parse_source(&written).is_err());
    for apart in [
        r#"{"base":{"a":true,"b":2/**/"c":3}}"#,
        r#"{"base":{"a":true,"b":2/**/,c:3}}"#,
    ] {
        assert!(keeps_names_apart(apart));
        let written = patch_source(apart, &source).unwrap();
        assert_eq!(parse_source(&written).unwrap(), source);
    }
}

#[test]
fn reconciling_again_after_writing_is_unchanged() {
    let text = "{\n  // c\n  \"base\": { \"editor.x\": 1 },\n  \"profiles\": { \"Default\": {}, \"cpp\": {} }\n}\n";
    let source = parse_source(text).unwrap();
    let state = compile_all(&source, &StateSnapshot::default(), &Table::new()).state;
    let mut actual = compile(&source);
    actual.insert("cpp".to_owned(), parse_settings("{\"editor.x\":1,\"k\":[1]}").unwrap());
    match reconcile_all(&source, &state, &actual) {
        Reconciliation::Merged { source: merged, changed_source, plan } => {
            assert!(changed_source);
            let written = patch_source(text, &merged).unwrap();
            assert!(written.contains("// c"));
            let again = parse_source(&written).unwrap();
            assert_eq!(
                reconcile_all(&again, &plan.state, &plan.outputs),
                Reconciliation::Unchanged { revision: plan.state.revision }
            );
        }
        other => panic!("{other:?}"),
    }
}
