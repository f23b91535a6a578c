//! What the service does with sources, states, requests and conflicts.

use strata::answers::{
    answer_built, answer_conflicts, answer_edited, answer_imported, answer_origin, answer_path,
    answer_reconciled, answer_resolved, answer_status, answer_unchanged, diff, doctor, origin,
    SourceHealth,
};
use strata::backend::{FileBackend, Profile, RegistryRead};
use strata::codec::content_hash;
use strata::decimal::{decimal_text, read_numeral, signed_decimal_text};
use strata::edits::{mutate, resolve_conflicts, resolve_current, EditError};
use strata::hash::source_hash;
use strata::inherit::compile;
use strata::json::{JsonValue, Settings};
use strata::location::{Location, Platform, Root};
use strata::parse::{parse_settings, parse_source};
use strata::protocol::{
    archive_path, decide_reply, frame_header, has_known_prefix, known_setting_prefixes,
    read_header_line, route, sanitize_prefixes, HeaderStep, ParamError, Reply, Route,
};
use strata::reconcile::Conflict;
use strata::registry::{decode_profiles, read_json};
use strata::service::{
    build_preview, compile_all, hash_profiles, mapped_profiles, reconcile_all, same_texts,
    state_after_build, MappingError, Reconciliation,
};
use strata::source::{Source, StateSnapshot};
use strata::table::{Names, Table};

fn json(text: &str) -> JsonValue {
    read_json(text.as_bytes()).unwrap()
}

fn names(items: &[&str]) -> Names {
    let mut names = Names::new();
    for item in items {
        names.insert((*item).to_owned());
    }
    names
}

fn profiles(items: &[(&str, &str)]) -> Table<Settings> {
    let mut table = Table::new();
    for (name, text) in items {
        table.insert((*name).to_owned(), parse_settings(text).unwrap());
    }
    table
}

fn listed(items: &str) -> Vec<Profile> {
    FileBackend::at(Location::new(Root::Given), String::new(), String::new())
        .list_profiles(
            Platform::Other,
            &RegistryRead::Profiles(decode_profiles(&json(items))),
        )
        .unwrap()
}

fn written(source: &Source, prefixes: &[&str]) -> StateSnapshot {
    let before = StateSnapshot {
        revision: 4,
        known_setting_prefixes: names(prefixes),
        ..StateSnapshot::default()
    };
    compile_all(source, &before, &Table::new()).state
}

#[test]
fn compiling_writes_what_differs() {
    let source = parse_source(
        r#"{"base":{"x":1},"profiles":{"Default":{},"cpp":{"y":2},"rust":{}}}"#,
    )
    .unwrap();
    let actual = profiles(&[("Default", "{\"x\":1}"), ("cpp", "{\"x\":1}")]);
    let before = StateSnapshot {
        revision: 6,
        known_setting_prefixes: names(&["editor"]),
        ..StateSnapshot::default()
    };
    let plan = compile_all(&source, &before, &actual);
    assert_eq!(plan.outputs, compile(&source));
    assert_eq!(plan.writes, names(&["cpp", "rust"]));
    assert_eq!(plan.state.revision, 7);
    assert_eq!(plan.state.source_hash, source_hash(&source));
    assert_eq!(plan.state.materialized, plan.outputs);
    assert_eq!(
        plan.state.materialized_hashes.get("cpp").unwrap().as_str(),
        content_hash(plan.outputs.get("cpp").unwrap()).as_str()
    );
    assert_eq!(plan.state.known_setting_prefixes, names(&["editor"]));
    assert_eq!(
        reconcile_all(&source, &plan.state, &plan.outputs),
        Reconciliation::Unchanged { revision: 7 }
    );
    assert!(compile_all(&source, &plan.state, &plan.outputs).writes.is_empty());
}

#[test]
fn reconciling_needs_a_state() {
    let source = parse_source("{}").unwrap();
    let fresh = state_after_build(names(&["a"]));
    assert_eq!(fresh.revision, 0);
    assert_eq!(fresh.known_setting_prefixes, names(&["a"]));
    assert_eq!(
        reconcile_all(&source, &fresh, &Table::new()),
        Reconciliation::NoState
    );
}

#[test]
fn reconciling_takes_changes_over() {
    let source = parse_source(
        r#"{"base":{"editor.x":1},"profiles":{"Default":{},"cpp":{}}}"#,
    )
    .unwrap();
    let state = written(&source, &["editor"]);
    let actual = profiles(&[
        ("Default", "{\"editor.x\":2,\"cmake.y\":3}"),
        ("cpp", "{\"editor.x\":1}"),
    ]);
    match reconcile_all(&source, &state, &actual) {
        Reconciliation::Merged { source: merged, changed_source, plan } => {
            assert!(changed_source);
            assert_eq!(
                merged,
                parse_source(
                    r#"{"base":{"editor.x":2},"profiles":{"Default":{"cmake.y":3},"cpp":{}}}"#
                )
                .unwrap()
            );
            assert_eq!(plan.writes, names(&["cpp"]));
            assert_eq!(plan.state.revision, state.revision + 1);
        }
        other => panic!("{other:?}"),
    }
}

fn clash() -> (Source, StateSnapshot, Table<Settings>) {
    let before = parse_source(
        r#"{"base":{"editor.x":1,"b":1},"profiles":{"Default":{},"cpp":{}}}"#,
    )
    .unwrap();
    let state = written(&before, &["editor"]);
    let after = parse_source(
        r#"{"base":{"editor.x":2,"b":1},"profiles":{"Default":{},"cpp":{}}}"#,
    )
    .unwrap();
    let actual = profiles(&[
        ("Default", "{\"editor.x\":3,\"b\":1}"),
        ("cpp", "{\"b\":1}"),
    ]);
    (after, state, actual)
}

#[test]
fn conflicts_are_told_instead_of_settled() {
    let (source, state, actual) = clash();
    match reconcile_all(&source, &state, &actual) {
        Reconciliation::Conflict(conflicts) => {
            assert_eq!(conflicts.len(), 2);
            assert_eq!(
                answer_conflicts(&conflicts),
                json(
                    r#"{"status":"conflict","conflicts":[
                    {"profile":"Default","setting":"editor.x","previous":1,"source":2,"actual":3},
                    {"profile":"cpp","setting":"editor.x","previous":1,"source":2,"actual":null}]}"#
                )
            );
        }
        other => panic!("{other:?}"),
    }
}

#[test]
fn conflicts_are_resolved_as_asked() {
    let (source, state, actual) = clash();
    let ask = |first: &str, second: &str| {
        let params = json(&format!(
            r#"{{"resolutions":[{{"profile":"Default","setting":"editor.x","action":"{first}"}},
               {{"profile":"cpp","setting":"editor.x","action":"{second}"}}]}}"#
        ));
        resolve_current(source.clone(), &state, &actual, &params)
    };
    let kept = ask("useSource", "useSource").unwrap();
    assert!(!kept.changed_source);
    assert_eq!(kept.source, source);
    let taken = ask("useVscode", "useVscode").unwrap();
    assert!(taken.changed_source);
    assert_eq!(compile(&taken.source), actual);
    assert_eq!(taken.source.base.get("editor.x"), Some(&json("3")));
    let own = ask("keepProfileOverride", "keepProfileOverride").unwrap();
    assert_eq!(compile(&own.source), actual);
    assert_eq!(own.source.base.get("editor.x"), Some(&json("2")));
    assert_eq!(
        ask("useSource", "other").unwrap_err(),
        EditError::UnknownAction("other".to_owned())
    );
}

#[test]
fn resolutions_have_to_fit_the_conflicts() {
    let (source, state, actual) = clash();
    let refused =
        |text: &str| resolve_current(source.clone(), &state, &actual, &json(text)).unwrap_err();
    assert_eq!(refused("{}"), EditError::Required("resolutions".to_owned()));
    assert_eq!(refused(r#"{"resolutions":[]}"#), EditError::ResolutionCount);
    assert_eq!(
        refused(r#"{"resolutions":[{},{}]}"#),
        EditError::Required("profile".to_owned())
    );
    assert_eq!(
        refused(r#"{"resolutions":[{"profile":"p"},{}]}"#),
        EditError::Required("setting".to_owned())
    );
    assert_eq!(
        refused(r#"{"resolutions":[{"profile":"p","setting":"s"},{}]}"#),
        EditError::Required("action".to_owned())
    );
    assert_eq!(
        refused(r#"{"resolutions":[{"profile":"p","setting":"s","action":"nothing"},{}]}"#),
        EditError::NotCurrent
    );
    let said: Vec<String> = vec![
        EditError::Required("resolutions".to_owned()).message(),
        EditError::Required("profile".to_owned()).message(),
        EditError::UnknownMutation.message(),
        EditError::ResolutionCount.message(),
        EditError::NotCurrent.message(),
        EditError::UnknownAction("a".to_owned()).message(),
    ];
    assert_eq!(
        said,
        vec![
            "resolutions are required",
            "profile is required",
            "unknown mutation method",
            "every current conflict must have exactly one resolution",
            "conflict is no longer current",
            "unknown conflict action 'a'",
        ]
    );
}

#[test]
fn a_conflict_has_exactly_one_resolution() {
    let conflicts = vec![
        Conflict {
            profile: "a".to_owned(),
            setting: "x".to_owned(),
            previous: None,
            source: Some(json("1")),
            actual: Some(json("2")),
        },
        Conflict {
            profile: "b".to_owned(),
            setting: "x".to_owned(),
            previous: None,
            source: Some(json("1")),
            actual: Some(json("2")),
        },
    ];
    let params = json(
        r#"{"resolutions":[{"profile":"a","setting":"x","action":"useVscode"},
            {"profile":"a","setting":"x","action":"useVscode"}]}"#,
    );
    let resolve =
        |params: &JsonValue| resolve_conflicts(Source::default(), &conflicts, &Names::new(), params);
    assert_eq!(resolve(&params).unwrap_err(), EditError::ResolutionCount);
    let params = json(
        r#"{"resolutions":[{"profile":"a","setting":"x"},
            {"profile":"a","setting":"x","action":"useVscode"}]}"#,
    );
    assert_eq!(resolve(&params).unwrap_err(), EditError::ResolutionCount);
    let params = json(
        r#"{"resolutions":[{"profile":"b","setting":"x","action":"useSource"},
            {"profile":"a","setting":"x","action":"useVscode"}]}"#,
    );
    let resolved = resolve(&params).unwrap();
    assert!(resolved.source.profiles.contains_key("a"));
    assert!(!resolved.source.profiles.contains_key("b"));
}

#[test]
fn what_changed_in_vscode_alone_is_kept_when_conflicts_are_resolved() {
    let before =
        parse_source(r#"{"base":{"x":1,"y":1},"profiles":{"Default":{},"cpp":{}}}"#).unwrap();
    let state = written(&before, &["x", "y"]);
    let source =
        parse_source(r#"{"base":{"x":2,"y":1},"profiles":{"Default":{},"cpp":{}}}"#).unwrap();
    let actual = profiles(&[
        ("Default", "{\"x\":4,\"y\":5}"),
        ("cpp", "{\"x\":1,\"y\":1,\"z\":6}"),
    ]);
    let ask = |action: &str| {
        let params = json(&format!(
            r#"{{"resolutions":[{{"profile":"Default","setting":"x","action":"{action}"}}]}}"#
        ));
        resolve_current(source.clone(), &state, &actual, &params).unwrap()
    };
    let kept = ask("useSource");
    assert!(kept.changed_source);
    assert_eq!(
        kept.source,
        parse_source(r#"{"base":{"x":2,"y":5},"profiles":{"Default":{},"cpp":{"z":6}}}"#).unwrap()
    );
    assert_eq!(
        compile(&kept.source).get("Default"),
        profiles(&[("Default", "{\"x\":2,\"y\":5}")]).get("Default")
    );
    let taken = ask("useVscode");
    assert!(taken.changed_source);
    assert_eq!(
        compile(&taken.source),
        profiles(&[
            ("Default", "{\"x\":4,\"y\":5}"),
            ("cpp", "{\"x\":4,\"y\":5,\"z\":6}"),
        ])
    );
    let plan = compile_all(&taken.source, &state, &actual);
    assert_eq!(plan.writes, names(&["cpp"]));
    assert_eq!(
        diff(&taken.source, &plan.outputs),
        json(r#"{"clean":true,"changes":[]}"#)
    );
    assert_eq!(
        reconcile_all(&taken.source, &plan.state, &plan.outputs),
        Reconciliation::Unchanged { revision: state.revision + 1 }
    );
}

#[test]
fn the_last_revision_is_told_only_where_it_is_counted_on() {
    let (source, state, actual) = clash();
    let last = StateSnapshot { revision: u64::MAX, ..state.clone() };
    match reconcile_all(&source, &last, &actual) {
        Reconciliation::Conflict(conflicts) => assert_eq!(conflicts.len(), 2),
        other => panic!("{other:?}"),
    }
    assert_eq!(
        reconcile_all(&source, &last, &state.materialized),
        Reconciliation::LastRevision
    );
    let empty = StateSnapshot { revision: u64::MAX, ..StateSnapshot::default() };
    assert_eq!(reconcile_all(&source, &empty, &actual), Reconciliation::NoState);
    let outputs = compile(&source);
    let mut settled = compile_all(&source, &state, &outputs).state;
    settled.revision = u64::MAX;
    assert_eq!(
        reconcile_all(&source, &settled, &outputs),
        Reconciliation::Unchanged { revision: u64::MAX }
    );
}

#[test]
fn edits_are_named_by_their_method() {
    let source = || {
        parse_source(r#"{"base":{"x":1},"profiles":{"cpp":{"x":2}}}"#).unwrap()
    };
    let edit = |method: &str, params: &str| mutate(source(), method, &json(params));
    assert_eq!(
        edit("settings/setBase", r#"{"setting":"y","value":null}"#).unwrap().base.get("y"),
        Some(&json("null"))
    );
    assert_eq!(
        compile(&edit("settings/inherit", r#"{"setting":"x","profile":"cpp"}"#).unwrap()),
        profiles(&[("cpp", "{\"x\":1}")])
    );
    assert_eq!(
        compile(&edit("settings/uninherit", r#"{"setting":"x","profile":"cpp"}"#).unwrap()),
        profiles(&[("cpp", "{}")])
    );
    assert_eq!(
        edit("settings/other", r#"{"setting":"x","profile":"cpp"}"#),
        Err(EditError::UnknownMutation)
    );
    assert_eq!(
        edit("settings/setBase", r#"{"setting":"x"}"#),
        Err(EditError::Required("value".to_owned()))
    );
    assert_eq!(
        edit("settings/inherit", r#"{"setting":"x"}"#),
        Err(EditError::Required("profile".to_owned()))
    );
    assert_eq!(
        edit("settings/inherit", r#"{"setting":1}"#),
        Err(EditError::Required("setting".to_owned()))
    );
}

#[test]
fn builds_take_the_known_prefixes_into_the_base() {
    let actual = profiles(&[
        ("Default", "{\"editor.x\":1,\"editorial.y\":2,\"editor\":3}"),
        ("cpp", "{}"),
    ]);
    let preview = build_preview(&actual, &names(&["editor"]));
    assert_eq!(
        preview.source,
        parse_source(
            r#"{"base":{"editor":3,"editor.x":1},"profiles":{"Default":{"editorial.y":2},
                "cpp":{"uninherit":["editor","editor.x"]}}}"#
        )
        .unwrap()
    );
    assert_eq!(compile(&preview.source), actual);
    assert_eq!(preview.newly_inherited.len(), 2);
}

#[test]
fn the_profiles_of_both_sides_have_to_be_the_same() {
    let source = parse_source(r#"{"profiles":{"Default":{},"cpp":{}}}"#).unwrap();
    let mapped = mapped_profiles(listed(r#"[{"id":"a","name":"cpp"}]"#), &source).unwrap();
    assert_eq!(mapped.len(), 2);
    assert_eq!(mapped.get("cpp").unwrap().opaque_id, Some("a".to_owned()));
    let missing = mapped_profiles(listed("[]"), &source).unwrap_err();
    assert_eq!(missing, MappingError::Missing("cpp".to_owned()));
    assert_eq!(missing.message(), "source profile 'cpp' does not exist in VS Code");
    let extra = mapped_profiles(
        listed(r#"[{"id":"a","name":"cpp"},{"id":"c","name":"z"},{"id":"b","name":"y"}]"#),
        &source,
    )
    .unwrap_err();
    assert_eq!(extra, MappingError::NotAdopted("y".to_owned()));
    assert_eq!(
        extra.message(),
        "VS Code profile 'y' is not adopted in the source; run build"
    );
}

#[test]
fn hashes_are_compared_as_a_whole() {
    let a = hash_profiles(&profiles(&[("a", "{}"), ("b", "{\"x\":1}")]));
    let b = hash_profiles(&profiles(&[("a", "{}")]));
    assert!(same_texts(&a, &a));
    assert!(!same_texts(&a, &b));
    assert!(!same_texts(&b, &a));
}

#[test]
fn differences_are_told_in_order() {
    let source = parse_source(
        r#"{"base":{"x":1,"y":2},"profiles":{"b":{"z":{"k":1}},"a":{"uninherit":["x"]}}}"#,
    )
    .unwrap();
    let clean = diff(&source, &compile(&source));
    assert_eq!(clean, json(r#"{"clean":true,"changes":[]}"#));
    let actual = profiles(&[("a", "{\"x\":1,\"y\":2}"), ("b", "{\"x\":1,\"y\":3}"), ("c", "{\"q\":null}")]);
    assert_eq!(
        diff(&source, &actual),
        json(
            r#"{"clean":false,"changes":[
                {"profile":"a","setting":"x","expected":null,"actual":1},
                {"profile":"b","setting":"y","expected":2,"actual":3},
                {"profile":"b","setting":"z","expected":{"k":1},"actual":null},
                {"profile":"c","setting":"q","expected":null,"actual":null}]}"#
        )
    );
}

#[test]
fn origins_are_told() {
    let source = parse_source(
        r#"{"base":{"x":1,"y":2},"profiles":{"p":{"uninherit":["y"],"z":3}}}"#,
    )
    .unwrap();
    for (setting, told) in [
        ("x", "base"),
        ("y", "uninherit"),
        ("z", "profileOverride"),
        ("w", "vscodeDefault"),
    ] {
        assert_eq!(
            origin(&source, "p", setting),
            json(&format!(
                r#"{{"profile":"p","setting":"{setting}","origin":"{told}"}}"#
            ))
        );
    }
    assert_eq!(origin(&source, "q", "x"), json(r#"{"origin":"unknownProfile"}"#));
    assert_eq!(
        answer_origin(&source, &json(r#"{"profile":"p","setting":"x"}"#)),
        Ok(origin(&source, "p", "x"))
    );
    let error = answer_origin(&source, &json(r#"{"setting":"x"}"#)).unwrap_err();
    assert_eq!(error, ParamError::Missing("profile".to_owned()));
    assert_eq!(error.message(), "profile required");
    assert_eq!(
        answer_origin(&source, &json(r#"{"profile":"p","setting":1}"#)),
        Err(ParamError::Missing("setting".to_owned()))
    );
}

#[test]
fn the_doctor_tells_issues_in_order() {
    let well = doctor(
        Ok(json("{\"product\":\"p\"}")),
        Ok(listed("[]")),
        SourceHealth::Sound("/h/profiles.jsonc".to_owned()),
    );
    assert!(well.ok);
    assert_eq!(
        well.answer(),
        json(
            r#"{"ok":true,"backend":{"product":"p"},"source":"/h/profiles.jsonc","issues":[]}"#
        )
    );
    let shared = listed(
        r#"[{"id":"a","name":"one","useDefaultSettings":true},{"id":"b","name":"two"}]"#,
    );
    let ill = doctor(Err("no probe".to_owned()), Ok(shared), SourceHealth::Missing);
    assert!(!ill.ok);
    assert_eq!(ill.backend, None);
    assert_eq!(ill.source, None);
    assert_eq!(
        ill.issues,
        vec![
            "no probe",
            "profile 'one' reuses Default settings and must be adopted explicitly",
            "Strata is not initialized",
        ]
    );
    let broken = doctor(
        Ok(json("null")),
        Err("no list".to_owned()),
        SourceHealth::Broken("bad source".to_owned()),
    );
    assert_eq!(broken.issues, vec!["no list", "bad source"]);
    assert_eq!(
        broken.answer(),
        json(r#"{"ok":false,"backend":null,"source":null,"issues":["no list","bad source"]}"#)
    );
}

#[test]
fn answers_have_their_fields() {
    assert_eq!(
        answer_status(true, false, "/h/s"),
        json(r#"{"initialized":true,"hasState":false,"sourcePath":"/h/s"}"#)
    );
    assert_eq!(answer_path("/p"), json(r#"{"path":"/p"}"#));
    assert_eq!(answer_imported(3), json(r#"{"profiles":3}"#));
    assert_eq!(answer_edited(), json(r#"{"ok":true}"#));
    assert_eq!(
        answer_built("/h/s", 2),
        json(r#"{"status":"built","sourcePath":"/h/s","newlyInherited":2}"#)
    );
    assert_eq!(answer_unchanged(9), json(r#"{"status":"unchanged","revision":9}"#));
    assert_eq!(
        answer_reconciled(9, true),
        json(r#"{"status":"ok","revision":9,"sourceChanged":true}"#)
    );
    assert_eq!(answer_resolved(9), json(r#"{"status":"resolved","revision":9}"#));
}

#[test]
fn frames_tell_their_length() {
    assert_eq!(frame_header(0), "Content-Length: 0\r\n\r\n");
    assert_eq!(frame_header(1234), "Content-Length: 1234\r\n\r\n");
    assert_eq!(
        read_header_line(None, "Content-Length: 1234\r\n"),
        HeaderStep::More(Some(1234))
    );
    assert_eq!(
        read_header_line(Some(1), "content-length:\t+7 \n"),
        HeaderStep::More(Some(7))
    );
    assert_eq!(
        read_header_line(Some(1), "Content-Type: x\r\n"),
        HeaderStep::More(Some(1))
    );
    assert_eq!(
        read_header_line(None, "CONTENT-LENGTH: 1\r\n"),
        HeaderStep::More(None)
    );
    assert_eq!(read_header_line(None, "\r\n"), HeaderStep::End);
    assert_eq!(read_header_line(Some(3), "\n"), HeaderStep::End);
    assert_eq!(read_header_line(None, "Content-Length: x\r\n"), HeaderStep::BadLength);
    assert_eq!(read_header_line(None, "Content-Length:\r\n"), HeaderStep::BadLength);
    assert_eq!(read_header_line(None, "Content-Length: -1\r\n"), HeaderStep::BadLength);
    assert_eq!(
        read_header_line(None, "Content-Length: 99999999999999999999999\r\n"),
        HeaderStep::BadLength
    );
}

#[test]
fn numerals_read_back() {
    for n in [0u128, 9, 10, 4096, 18446744073709551615] {
        assert_eq!(decimal_text(n), n.to_string());
        assert_eq!(read_numeral(&decimal_text(n)), Some(n as usize));
    }
    assert_eq!(signed_decimal_text(i64::MIN), "-9223372036854775808");
    assert_eq!(signed_decimal_text(5), "5");
    assert_eq!(read_numeral(""), None);
    assert_eq!(read_numeral("+"), None);
    assert_eq!(read_numeral("1 "), None);
}

#[test]
fn messages_are_answered_or_passed_over() {
    assert_eq!(decide_reply("1.0", true, "status"), Reply::Ignore);
    assert_eq!(decide_reply("2.0", false, "status"), Reply::Ignore);
    assert_eq!(decide_reply("2.0", false, "exit"), Reply::Stop);
    assert_eq!(decide_reply("2.0", true, "exit"), Reply::Answer);
    assert_eq!(decide_reply("2.0", true, "shutdown"), Reply::AnswerAndStop);
}

#[test]
fn requests_lead_to_what_they_ask_for() {
    let ask = |method: &str, params: &str| route(method, &json(params), 1);
    for (method, wanted) in [
        ("profiles/list", Route::ListProfiles),
        ("status", Route::Status),
        ("compile", Route::Compile),
        ("reconcile", Route::Reconcile),
        ("diff", Route::Diff),
        ("doctor", Route::Doctor),
        ("settings/origin", Route::Origin),
        ("conflicts/resolveAll", Route::ResolveConflicts),
        ("settings/setBase", Route::Mutate),
        ("settings/", Route::Mutate),
        ("source/path", Route::SourcePath),
        ("shutdown", Route::Shutdown),
    ] {
        assert_eq!(ask(method, "null"), Ok(wanted), "{method}");
    }
    assert_eq!(ask("initialize", r#"{"protocolVersion":1}"#), Ok(Route::Initialize));
    assert_eq!(
        ask("initialize", r#"{"protocolVersion":2}"#),
        Err(ParamError::IncompatibleVersion(2))
    );
    assert_eq!(
        ask("initialize", r#"{"protocolVersion":"1"}"#),
        Err(ParamError::Required("protocolVersion".to_owned()))
    );
    assert_eq!(
        ask("profiles/export", r#"{"destination":"/d"}"#),
        Ok(Route::Export { destination: "/d".to_owned() })
    );
    assert_eq!(
        ask("profiles/import", r#"{"archive":"/a"}"#),
        Ok(Route::Import { archive: "/a".to_owned() })
    );
    assert_eq!(
        ask("profiles/import", r#"{"archive":""}"#),
        Err(ParamError::Required("archive".to_owned()))
    );
    assert_eq!(
        ask("build/preview", r#"{"knownSettingPrefixes":[" editor ","a.b",""]}"#),
        Ok(Route::BuildPreview(names(&["editor"])))
    );
    assert_eq!(
        ask("build/apply", r#"{"knownSettingPrefixes":[]}"#),
        Ok(Route::BuildApply(Names::new()))
    );
    assert_eq!(
        ask("build/apply", r#"{"knownSettingPrefixes":[1]}"#),
        Err(ParamError::PrefixesNotTexts)
    );
    assert_eq!(
        ask("nothing", "null"),
        Err(ParamError::MethodNotFound("nothing".to_owned()))
    );
    let said: Vec<String> = vec![
        ParamError::Required("archive".to_owned()).message(),
        ParamError::PrefixesNotTexts.message(),
        ParamError::IncompatibleVersion(2).message(),
        ParamError::MethodNotFound("nothing".to_owned()).message(),
    ];
    assert_eq!(
        said,
        vec![
            "archive is required",
            "knownSettingPrefixes must contain only strings",
            "incompatible protocol version 2",
            "method not found: nothing",
        ]
    );
}

#[test]
fn parameters_are_taken_as_texts() {
    assert_eq!(
        archive_path(&json(r#"{"archive":"x"}"#), "archive"),
        Ok("x".to_owned())
    );
    assert_eq!(
        archive_path(&json("[]"), "archive"),
        Err(ParamError::Required("archive".to_owned()))
    );
    assert_eq!(
        known_setting_prefixes(&json(r#"{"knownSettingPrefixes":["b","a\t","\u00a0c"]}"#)),
        Ok(names(&["a", "b", "c"]))
    );
    assert_eq!(
        known_setting_prefixes(&json(r#"{"knownSettingPrefixes":"a"}"#)),
        Err(ParamError::Required("knownSettingPrefixes".to_owned()))
    );
}

#[test]
fn prefixes_end_at_the_first_dot() {
    let prefixes = sanitize_prefixes(&vec![
        " editor\n".to_owned(),
        "a.b".to_owned(),
        "  ".to_owned(),
        "editor".to_owned(),
    ]);
    assert_eq!(prefixes, names(&["editor"]));
    assert!(has_known_prefix(&prefixes, "editor"));
    assert!(has_known_prefix(&prefixes, "editor.font.size"));
    assert!(!has_known_prefix(&prefixes, "editorial.x"));
    assert!(!has_known_prefix(&prefixes, ".editor"));
    assert!(!has_known_prefix(&prefixes, ""));
}
