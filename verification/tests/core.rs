//! Inheritance, reconciliation and migration on concrete settings.

use strata::inherit::{compile, origin_of, overlay_value, resolve};
use strata::json::{JsonValue, Number, Settings};
use strata::migrate::migration_preview;
use strata::mutation::{
    apply_actual_mutation, inherit_setting, keep_profile_override, set_base, uninherit_setting,
};
use strata::parse::parse_source;
use strata::reconcile::reconcile;
use strata::registry::read_json;
use strata::source::{validate_source, CoreError, Origin, ProfileDelta, Source, StateSnapshot};
use strata::table::{Names, Table};

fn json(text: &str) -> JsonValue {
    read_json(text.as_bytes()).unwrap()
}

fn settings(items: &[(&str, &str)]) -> Settings {
    let mut table = Table::new();
    for (name, value) in items {
        table.insert((*name).to_owned(), json(value));
    }
    table
}

fn names(items: &[&str]) -> Names {
    let mut names = Names::new();
    for item in items {
        names.insert((*item).to_owned());
    }
    names
}

fn profiles(items: Vec<(&str, Settings)>) -> Table<Settings> {
    let mut table = Table::new();
    for (name, settings) in items {
        table.insert(name.to_owned(), settings);
    }
    table
}

fn source(base: Settings, deltas: Vec<(&str, ProfileDelta)>) -> Source {
    let mut profiles = Table::new();
    for (name, delta) in deltas {
        profiles.insert(name.to_owned(), delta);
    }
    Source { base, profiles, ..Source::default() }
}

fn delta(uninherit: &[&str], own: &[(&str, &str)]) -> ProfileDelta {
    ProfileDelta { uninherit: names(uninherit), settings: settings(own) }
}

fn state(materialized: Table<Settings>) -> StateSnapshot {
    StateSnapshot { materialized, ..StateSnapshot::default() }
}

#[test]
fn resolves_inheritance_object_merge_array_replace_and_uninherit() {
    let base = settings(&[
        ("editor.fontSize", "15"),
        (
            "[typescript]",
            r#"{"editor.defaultFormatter":"a", "editor.tabSize":2}"#,
        ),
        ("list", "[1, 2]"),
        ("gone", "true"),
    ]);
    let delta = ProfileDelta {
        uninherit: names(&["gone"]),
        settings: settings(&[
            ("[typescript]", r#"{"editor.tabSize":4}"#),
            ("list", "[3]"),
        ]),
    };
    let got = resolve(&base, &delta);
    assert_eq!(
        got.settings.get("[typescript]"),
        Some(&json(r#"{"editor.defaultFormatter":"a", "editor.tabSize":4}"#))
    );
    assert_eq!(got.settings.get("list"), Some(&json("[3]")));
    assert!(!got.settings.contains_key("gone"));
    assert_eq!(got.provenance.get("gone"), Some(&Origin::Uninherit));
    assert_eq!(got.settings.get("editor.fontSize"), Some(&json("15")));
    assert_eq!(got.provenance.get("editor.fontSize"), Some(&Origin::Base));
    assert_eq!(got.provenance.get("list"), Some(&Origin::ProfileOverride));
}

#[test]
fn parses_comments_and_trailing_commas() {
    let source = parse_source(
        "{ // hi\n \"version\": 1, \"base\": {\"x\": 1,}, \"profiles\": {\"Default\": {},}, }",
    )
    .unwrap();
    assert_eq!(source.base.get("x"), Some(&json("1")));
}

#[test]
fn rejects_obsolete_unset_field() {
    let error =
        parse_source("{\"version\":1,\"base\":{},\"profiles\":{\"Default\":{\"$unset\":[]}}}")
            .unwrap_err();
    assert!(matches!(error, CoreError::ObsoleteUnset { .. }));
    assert_eq!(
        error.message(),
        "profile 'Default' uses obsolete '$unset'; run Build to regenerate the source"
    );
}

#[test]
fn reconcile_merges_independent_changes_and_detects_same_key_conflict() {
    let mut source = Source {
        base: settings(&[("x", "2"), ("y", "1")]),
        ..Source::default()
    };
    source
        .profiles
        .insert("Default".into(), ProfileDelta::default());
    let previous = StateSnapshot {
        revision: 1,
        source_hash: String::new(),
        materialized: profiles(vec![("Default", settings(&[("x", "1"), ("y", "1")]))]),
        materialized_hashes: Table::new(),
        known_setting_prefixes: Names::new(),
    };
    let actual = profiles(vec![("Default", settings(&[("x", "1"), ("y", "3")]))]);
    let got = reconcile(&source, &previous, &actual, |_: &str| true);
    assert!(got.conflicts.is_empty());
    assert_eq!(got.source.base.get("x"), Some(&json("2")));
    assert_eq!(got.source.base.get("y"), Some(&json("3")));
    let actual_conflict = profiles(vec![("Default", settings(&[("x", "4"), ("y", "1")]))]);
    assert_eq!(
        reconcile(&source, &previous, &actual_conflict, |_: &str| true)
            .conflicts
            .len(),
        1
    );
}

#[test]
fn migration_preserves_absence_with_uninherit() {
    let actual = profiles(vec![
        ("Default", settings(&[("x", "1")])),
        ("cpp", Settings::new()),
    ]);
    let preview = migration_preview(&actual, |_: &str| true);
    assert!(preview.source.profiles.get("cpp").unwrap().uninherit.contains("x"));
    assert!(compile(&preview.source).get("cpp").unwrap().is_empty());
    assert_eq!(preview.newly_inherited.len(), 1);
}

#[test]
fn migration_keeps_non_base_default_settings_in_default_profile() {
    let actual = profiles(vec![
        (
            "Default",
            settings(&[("editor.fontSize", "16"), ("cmake.configureOnOpen", "true")]),
        ),
        ("cpp", Settings::new()),
    ]);
    let preview = migration_preview(&actual, |key: &str| key.starts_with("editor."));
    assert_eq!(preview.source.base, settings(&[("editor.fontSize", "16")]));
    assert_eq!(
        preview.source.profiles.get("Default").unwrap().settings,
        settings(&[("cmake.configureOnOpen", "true")])
    );
    assert!(preview
        .source
        .profiles
        .get("cpp")
        .unwrap()
        .uninherit
        .contains("editor.fontSize"));
    assert!(!preview
        .source
        .profiles
        .get("cpp")
        .unwrap()
        .uninherit
        .contains("cmake.configureOnOpen"));
    assert_eq!(compile(&preview.source).get("Default"), actual.get("Default"));
    assert!(compile(&preview.source).get("cpp").unwrap().is_empty());
}

#[test]
fn reconcile_keeps_non_base_default_changes_local() {
    let mut source = Source::default();
    source
        .profiles
        .insert("Default".into(), ProfileDelta::default());
    let previous = state(profiles(vec![("Default", Settings::new())]));
    let actual = profiles(vec![(
        "Default",
        settings(&[("cmake.configureOnOpen", "true")]),
    )]);
    let result = reconcile(&source, &previous, &actual, |key: &str| {
        key.starts_with("editor.")
    });
    assert!(!result.source.base.contains_key("cmake.configureOnOpen"));
    assert_eq!(
        result
            .source
            .profiles
            .get("Default")
            .unwrap()
            .settings
            .get("cmake.configureOnOpen"),
        Some(&json("true"))
    );
}

#[test]
fn numbers_are_equal_by_their_kind() {
    assert_eq!(json("1"), JsonValue::Number(Number::PosInt(1)));
    assert_eq!(json("-1"), JsonValue::Number(Number::NegInt(-1)));
    assert_eq!(json("1.50"), JsonValue::Number(Number::Float("1.5".to_owned())));
    assert_ne!(json("1"), json("1.0"));
    assert_eq!(json("0.0"), json("-0.0"));
    assert_ne!(json("1"), json("\"1\""));
    assert_ne!(json("[1]"), json("[1,1]"));
    assert_eq!(json(r#"{"a":1,"b":2}"#), json(r#"{"b":2,"a":1}"#));
    assert_ne!(json(r#"{"a":1}"#), json(r#"{"a":1,"b":null}"#));
}

#[test]
fn tables_keep_their_names_in_order() {
    let mut table = settings(&[("b", "1"), ("a", "2"), ("c", "3")]);
    assert_eq!((table.name(0), table.name(1), table.name(2)), ("a", "b", "c"));
    table.insert("b".to_owned(), json("4"));
    assert_eq!(table.len(), 3);
    assert_eq!(table.get("b"), Some(&json("4")));
    assert_eq!(table.remove("a"), Some(json("2")));
    assert_eq!(table.remove("a"), None);
    assert_eq!(table.name(0), "b");
}

#[test]
fn overlay_merges_objects_only() {
    let base = json(r#"{"a":{"x":1,"y":2},"b":[1,2],"c":3}"#);
    let over = json(r#"{"a":{"y":5},"b":[9],"d":4}"#);
    let merged = overlay_value(&base, &over);
    assert_eq!(merged, json(r#"{"a":{"x":1,"y":5},"b":[9],"c":3,"d":4}"#));
    assert_eq!(overlay_value(&merged, &over), merged);
    assert_eq!(overlay_value(&json("1"), &over), over);
    assert_eq!(overlay_value(&base, &json("null")), json("null"));
    assert_eq!(overlay_value(&base, &base), base);
}

#[test]
fn validation_names_the_first_flaw() {
    let sound = source(settings(&[("x", "1")]), vec![("Default", delta(&[], &[]))]);
    assert!(validate_source(&sound).is_ok());
    let version = Source { version: 2, ..Source::default() };
    let error = validate_source(&version).unwrap_err();
    assert!(matches!(error, CoreError::Version(2)));
    assert_eq!(error.message(), "unsupported source version 2; supported version is 1");
    let blank = source(Settings::new(), vec![(" \t", delta(&[], &[]))]);
    let error = validate_source(&blank).unwrap_err();
    assert!(matches!(error, CoreError::EmptyProfile));
    assert_eq!(error.message(), "profile name must not be empty");
    let both = source(
        Settings::new(),
        vec![
            ("a", delta(&["z", "q"], &[("z", "1"), ("q", "2"), ("b", "3")])),
            ("b", delta(&[], &[("$unset", "[]")])),
        ],
    );
    match validate_source(&both).unwrap_err() {
        CoreError::ValueAndUninherit { profile, setting } => {
            assert_eq!((profile.as_str(), setting.as_str()), ("a", "q"));
        }
        error => panic!("{error:?}"),
    }
    assert_eq!(
        validate_source(&both).unwrap_err().message(),
        "profile 'a' contains both a value and uninherit for 'q'"
    );
}

#[test]
fn origins_tell_where_a_value_comes_from() {
    let source = source(
        settings(&[("x", "1"), ("y", "2"), ("z", "3")]),
        vec![("cpp", delta(&["y"], &[("z", "4"), ("w", "5")]))],
    );
    assert_eq!(origin_of(&source, "cpp", "x"), Some(Origin::Base));
    assert_eq!(origin_of(&source, "cpp", "y"), Some(Origin::Uninherit));
    assert_eq!(origin_of(&source, "cpp", "z"), Some(Origin::ProfileOverride));
    assert_eq!(origin_of(&source, "cpp", "w"), Some(Origin::ProfileOverride));
    assert_eq!(origin_of(&source, "cpp", "v"), Some(Origin::VscodeDefault));
    assert_eq!(origin_of(&source, "rust", "x"), None);
    let outputs = compile(&source);
    assert_eq!(
        outputs.get("cpp"),
        Some(&settings(&[("w", "5"), ("x", "1"), ("z", "4")]))
    );
}

#[test]
fn a_change_of_a_base_setting_in_default_goes_to_the_base() {
    let mut edited = source(
        settings(&[("x", "1")]),
        vec![("Default", delta(&["x"], &[])), ("cpp", delta(&[], &[]))],
    );
    apply_actual_mutation(&mut edited, "Default", "x", Some(json("2")), true);
    assert_eq!(edited.base, settings(&[("x", "2")]));
    assert_eq!(edited.profiles.get("Default"), Some(&delta(&[], &[])));
    assert_eq!(compile(&edited).get("cpp"), Some(&settings(&[("x", "2")])));
    apply_actual_mutation(&mut edited, "Default", "x", None, true);
    assert!(edited.base.is_empty());
    let mut fresh = Source::default();
    apply_actual_mutation(&mut fresh, "Default", "y", Some(json("1")), true);
    assert!(fresh.profiles.contains_key("Default"));
}

#[test]
fn a_change_in_a_profile_becomes_its_override() {
    let mut edited = source(settings(&[("x", "1")]), vec![("cpp", delta(&[], &[]))]);
    apply_actual_mutation(&mut edited, "cpp", "x", Some(json("2")), true);
    assert_eq!(edited.profiles.get("cpp"), Some(&delta(&[], &[("x", "2")])));
    assert_eq!(compile(&edited).get("cpp"), Some(&settings(&[("x", "2")])));
    apply_actual_mutation(&mut edited, "cpp", "x", Some(json("1")), true);
    assert_eq!(edited.profiles.get("cpp"), Some(&delta(&[], &[])));
    apply_actual_mutation(&mut edited, "cpp", "x", None, false);
    assert_eq!(edited.profiles.get("cpp"), Some(&delta(&["x"], &[])));
    assert!(compile(&edited).get("cpp").unwrap().is_empty());
    apply_actual_mutation(&mut edited, "cpp", "y", None, false);
    assert_eq!(edited.profiles.get("cpp"), Some(&delta(&["x"], &[])));
}

#[test]
fn taking_away_an_override_lets_the_base_show_through() {
    let mut edited = source(
        settings(&[("x", "1")]),
        vec![("cpp", delta(&[], &[("x", "2")]))],
    );
    apply_actual_mutation(&mut edited, "cpp", "x", None, false);
    assert_eq!(edited.profiles.get("cpp"), Some(&delta(&[], &[])));
    assert_eq!(compile(&edited).get("cpp"), Some(&settings(&[("x", "1")])));
}

#[test]
fn a_base_object_shows_through_a_smaller_one() {
    let mut edited = source(
        settings(&[("[ts]", r#"{"a":1}"#)]),
        vec![("cpp", delta(&[], &[]))],
    );
    apply_actual_mutation(&mut edited, "cpp", "[ts]", Some(json(r#"{"b":2}"#)), false);
    assert_eq!(
        compile(&edited).get("cpp"),
        Some(&settings(&[("[ts]", r#"{"a":1,"b":2}"#)]))
    );
}

#[test]
fn edits_change_one_setting() {
    let mut edited = source(
        settings(&[("x", "1")]),
        vec![("cpp", delta(&[], &[("x", "2"), ("y", "3")]))],
    );
    inherit_setting(&mut edited, "cpp", "x");
    assert_eq!(
        compile(&edited).get("cpp"),
        Some(&settings(&[("x", "1"), ("y", "3")]))
    );
    uninherit_setting(&mut edited, "cpp", "x");
    assert_eq!(compile(&edited).get("cpp"), Some(&settings(&[("y", "3")])));
    inherit_setting(&mut edited, "cpp", "x");
    set_base(&mut edited, "x", json("7"));
    assert_eq!(
        compile(&edited).get("cpp"),
        Some(&settings(&[("x", "7"), ("y", "3")]))
    );
    uninherit_setting(&mut edited, "rust", "x");
    assert_eq!(edited.profiles.get("rust"), Some(&delta(&["x"], &[])));
}

#[test]
fn kept_values_do_not_depend_on_the_base() {
    let mut edited = source(
        settings(&[("x", "1")]),
        vec![("Default", delta(&[], &[]))],
    );
    keep_profile_override(&mut edited, "Default", "x", Some(json("1")));
    assert_eq!(edited.profiles.get("Default"), Some(&delta(&[], &[("x", "1")])));
    keep_profile_override(&mut edited, "Default", "x", None);
    assert_eq!(edited.profiles.get("Default"), Some(&delta(&["x"], &[])));
    assert!(compile(&edited).get("Default").unwrap().is_empty());
}

#[test]
fn reconciling_without_changes_changes_nothing() {
    let unchanged = source(
        settings(&[("x", "1")]),
        vec![("Default", delta(&[], &[])), ("cpp", delta(&["x"], &[("y", "2")]))],
    );
    let outputs = compile(&unchanged);
    let result = reconcile(&unchanged, &state(compile(&unchanged)), &outputs, |_: &str| true);
    assert_eq!(result.source, unchanged);
    assert_eq!(result.outputs, outputs);
    assert!(result.conflicts.is_empty());
    assert!(!result.changed_source);
}

#[test]
fn conflicts_tell_all_three_values_in_order() {
    let changed = source(
        settings(&[("b", "2"), ("c", "2")]),
        vec![("Default", delta(&[], &[])), ("cpp", delta(&["b"], &[]))],
    );
    let previous = state(profiles(vec![
        ("Default", settings(&[("a", "1"), ("b", "1"), ("c", "1")])),
        ("cpp", settings(&[("b", "1"), ("c", "1")])),
    ]));
    let actual = profiles(vec![
        ("Default", settings(&[("a", "3"), ("b", "3"), ("c", "2")])),
        ("cpp", settings(&[("b", "4"), ("c", "1")])),
    ]);
    let result = reconcile(&changed, &previous, &actual, |_: &str| true);
    let told: Vec<(&str, &str)> = result
        .conflicts
        .iter()
        .map(|conflict| (conflict.profile.as_str(), conflict.setting.as_str()))
        .collect();
    assert_eq!(told, vec![("Default", "a"), ("Default", "b"), ("cpp", "b")]);
    assert_eq!(result.conflicts[0].previous, Some(json("1")));
    assert_eq!(result.conflicts[0].source, None);
    assert_eq!(result.conflicts[0].actual, Some(json("3")));
    assert_eq!(result.conflicts[2].source, None);
    assert!(!result.changed_source);
}

#[test]
fn the_predicate_is_asked_about_the_setting_that_drifted() {
    let before = source(
        settings(&[("editor.x", "1")]),
        vec![("Default", delta(&[], &[("cmake.y", "1")]))],
    );
    let actual = profiles(vec![(
        "Default",
        settings(&[("cmake.y", "2"), ("editor.x", "2")]),
    )]);
    let result = reconcile(&before, &state(compile(&before)), &actual, |key: &str| {
        key.starts_with("editor.")
    });
    assert_eq!(result.source.base, settings(&[("editor.x", "2")]));
    assert_eq!(
        result.source.profiles.get("Default"),
        Some(&delta(&[], &[("cmake.y", "2")]))
    );
    assert!(result.changed_source);
    assert_eq!(result.outputs, actual);
}

#[test]
fn migration_compiles_back_to_what_was_there() {
    let actual = profiles(vec![
        ("Default", settings(&[("a", "1"), ("b", "[1]"), ("c", "null")])),
        ("cpp", settings(&[("a", "1"), ("b", "[2]"), ("d", "4")])),
        ("rust", settings(&[("c", "null")])),
    ]);
    let preview = migration_preview(&actual, |key: &str| key != "c");
    assert_eq!(compile(&preview.source), actual);
    assert!(validate_source(&preview.source).is_ok());
    let told: Vec<(&str, &str, &JsonValue)> = preview
        .newly_inherited
        .iter()
        .map(|change| {
            (change.profile.as_str(), change.setting.as_str(), &change.inherited_value)
        })
        .collect();
    assert_eq!(
        told,
        vec![("rust", "a", &json("1")), ("rust", "b", &json("[1]"))]
    );
}

#[test]
fn migration_always_has_default() {
    let preview = migration_preview(&Table::new(), |_: &str| true);
    assert_eq!(preview.source.profiles.len(), 1);
    assert_eq!(preview.source.profiles.get("Default"), Some(&delta(&[], &[])));
    assert!(preview.newly_inherited.is_empty());
}

#[test]
fn a_change_of_the_base_reaches_the_profiles_that_inherit_it() {
    let before = source(
        settings(&[("x", "1"), ("y", "1")]),
        vec![
            ("Apps", delta(&[], &[("x", "2")])),
            ("Default", delta(&[], &[])),
            ("cpp", delta(&[], &[])),
            ("go", delta(&["x"], &[])),
            ("rust", delta(&[], &[("x", "5")])),
        ],
    );
    let written = compile(&before);
    let mut actual = compile(&before);
    actual.insert("Default".to_owned(), settings(&[("x", "3"), ("y", "1")]));
    actual.insert("rust".to_owned(), settings(&[("x", "6"), ("y", "1")]));
    let result = reconcile(&before, &state(written), &actual, |_: &str| true);
    assert!(result.conflicts.is_empty());
    assert_eq!(result.source.base, settings(&[("x", "3"), ("y", "1")]));
    assert_eq!(
        result.outputs.get("Apps"),
        Some(&settings(&[("x", "2"), ("y", "1")]))
    );
    assert_eq!(
        result.outputs.get("cpp"),
        Some(&settings(&[("x", "3"), ("y", "1")]))
    );
    assert_eq!(result.outputs.get("go"), Some(&settings(&[("y", "1")])));
    assert_eq!(
        result.outputs.get("rust"),
        Some(&settings(&[("x", "6"), ("y", "1")]))
    );
    assert!(validate_source(&result.source).is_ok());
}

#[test]
fn a_profile_before_default_takes_its_change_over_the_old_base() {
    let before = source(
        settings(&[("x", "1")]),
        vec![("Apps", delta(&[], &[("x", "2")])), ("Default", delta(&[], &[]))],
    );
    let actual = profiles(vec![
        ("Apps", settings(&[("x", "1")])),
        ("Default", settings(&[("x", "3")])),
    ]);
    let result = reconcile(&before, &state(compile(&before)), &actual, |_: &str| true);
    assert_eq!(result.outputs.get("Apps"), Some(&settings(&[("x", "3")])));
}

#[test]
fn edits_keep_a_source_sound() {
    let mut edited = source(
        settings(&[("x", "1")]),
        vec![("cpp", delta(&["x"], &[("y", "2")]))],
    );
    keep_profile_override(&mut edited, "cpp", "x", Some(json("4")));
    assert!(validate_source(&edited).is_ok());
    uninherit_setting(&mut edited, "cpp", "y");
    assert!(validate_source(&edited).is_ok());
    inherit_setting(&mut edited, "cpp", "y");
    assert!(validate_source(&edited).is_ok());
    apply_actual_mutation(&mut edited, "cpp", "$unset", Some(json("1")), false);
    assert!(matches!(
        validate_source(&edited),
        Err(CoreError::ObsoleteUnset { .. })
    ));
}
