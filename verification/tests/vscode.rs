//! VS Code's profiles: where they lie, their registry, and their settings.

use strata::backend::{
    archive_name, read_settings, registry_place, settings_to_write, snapshot, validate_profile_id, BackendError,
    FileBackend, Profile, RegistryPlace, RegistryRead, SettingsError,
};
use strata::json::JsonValue;
use strata::location::{
    candidate_user_data_dirs, is_safe_id, is_under, user_facing_path, Home, Location, Platform,
    Root,
};
use strata::parse::parse_settings;
use strata::registry::{
    check_manifest, decode_profiles, get_member, merge_storage, profile_registry, read_json,
    read_stored_profiles, registry_file, validate_archive_registry, write_profile_registry,
    RegistryError, RegistryFile, RegistryProfile,
};

fn json(text: &str) -> JsonValue {
    read_json(text.as_bytes()).unwrap()
}

fn backend() -> FileBackend {
    FileBackend::at(Location::new(Root::Given), "test".to_owned(), "test".to_owned())
}

fn listed(text: &str) -> Option<Vec<RegistryProfile>> {
    decode_profiles(get_member(&json(text), "profiles").unwrap())
}

fn parts(location: &Location) -> Vec<&str> {
    location.parts.iter().map(|part| part.as_str()).collect()
}

fn names(profiles: &[Profile]) -> Vec<&str> {
    profiles.iter().map(|profile| profile.name.as_str()).collect()
}

#[test]
fn hides_windows_verbatim_prefix_in_reported_paths() {
    assert_eq!(
        user_facing_path(Platform::Windows, r"\\?\C:\Users\strata\AppData\Roaming\Code"),
        r"C:\Users\strata\AppData\Roaming\Code",
    );
    assert_eq!(
        user_facing_path(Platform::Windows, r"\\?\UNC\server\share\Code"),
        r"\\server\share\Code",
    );
}

#[test]
fn other_platforms_report_paths_as_they_are() {
    assert_eq!(user_facing_path(Platform::Other, r"\\?\C:\Code"), r"\\?\C:\Code");
    assert_eq!(user_facing_path(Platform::MacOs, "/Users/x"), "/Users/x");
    assert_eq!(user_facing_path(Platform::Windows, r"C:\Code"), r"C:\Code");
}

#[test]
fn fixture_discovery_and_snapshot() {
    let registry = RegistryRead::Profiles(listed(
        r#"{"profiles":[{"id":"p1","name":"cpp"},{"id":"builtin/agents","name":"Agents","useDefaultSettings":true}]}"#,
    ));
    let profiles = backend().list_profiles(Platform::Other, &registry).unwrap();
    let texts = profiles
        .iter()
        .map(|profile| match parts(&profile.settings_path).join("/").as_str() {
            "User/settings.json" => Some("{\"x\":1}".to_owned()),
            "User/profiles/p1/settings.json" => Some("{ // c\n \"y\": 2, }".to_owned()),
            _ => None,
        })
        .collect();
    let snapshot = snapshot(&profiles, &texts).unwrap();
    assert_eq!(snapshot.get("Default").unwrap().get("x"), Some(&json("1")));
    assert_eq!(snapshot.get("cpp").unwrap().get("y"), Some(&json("2")));
    assert!(!snapshot.contains_key("Agents"));
}

#[test]
fn profiles_are_listed_behind_default() {
    let backend = backend();
    let alone = backend.list_profiles(Platform::Other, &RegistryRead::Absent).unwrap();
    assert_eq!(names(&alone), vec!["Default"]);
    assert_eq!(parts(&alone[0].settings_path), vec!["User", "settings.json"]);
    assert_eq!(alone[0].settings_path.root, Root::UserData);
    assert_eq!(alone[0].opaque_id, None);
    let registry = RegistryRead::Storage(read_stored_profiles(
        br#"{"userDataProfiles":[
            {"location":"builtin\\x","name":"B"},
            {"location":"a1","name":"shared","useDefaultFlags":{"settings":true}},
            {"id":"b2","name":"own","useDefaultSettings":false,"useDefaultFlags":{"keys":true}}],
            "other":1}"#,
    ));
    let profiles = backend.list_profiles(Platform::Other, &registry).unwrap();
    assert_eq!(names(&profiles), vec!["Default", "shared", "own"]);
    assert!(profiles[1].uses_default_settings);
    assert_eq!(parts(&profiles[1].settings_path), vec!["User", "settings.json"]);
    assert_eq!(profiles[2].opaque_id, Some("b2".to_owned()));
    assert_eq!(
        parts(&profiles[2].settings_path),
        vec!["User", "profiles", "b2", "settings.json"]
    );
}

#[test]
fn the_global_storage_comes_before_the_list_of_profiles() {
    assert_eq!(registry_place(false, true), RegistryPlace::Nowhere);
    assert_eq!(registry_place(false, false), RegistryPlace::Nowhere);
    assert_eq!(registry_place(true, true), RegistryPlace::Storage);
    assert_eq!(registry_place(true, false), RegistryPlace::Profiles);
    let backend = backend();
    assert_eq!(parts(&backend.storage_path()), vec!["User", "globalStorage", "storage.json"]);
    assert_eq!(parts(&backend.profile_list_path()), vec!["User", "profiles", "profiles.json"]);
}

#[test]
fn registries_of_an_unknown_format_are_refused() {
    let backend = backend();
    assert_eq!(read_stored_profiles(b"{"), None);
    assert_eq!(read_stored_profiles(b"{}"), None);
    assert_eq!(read_stored_profiles(br#"{"userDataProfiles":[{"name":"x"}]}"#), None);
    assert_eq!(read_stored_profiles(br#"{"userDataProfiles":[{"id":1,"name":"x"}]}"#), None);
    match backend.list_profiles(Platform::Other, &RegistryRead::Storage(None)) {
        Err(BackendError::UnknownRegistry(path)) => {
            assert_eq!(parts(&path), vec!["User", "globalStorage", "storage.json"]);
        }
        other => panic!("{other:?}"),
    }
    let error = backend
        .list_profiles(Platform::Other, &RegistryRead::Profiles(None))
        .unwrap_err();
    assert_eq!(
        error.message("/d/User/profiles/profiles.json"),
        "profile registry is missing or has an unknown format at /d/User/profiles/profiles.json; refusing to guess"
    );
    let unsafe_list = RegistryRead::Profiles(listed(
        r#"{"profiles":[{"id":"ok","name":"a"},{"id":"../up","name":"b"}]}"#,
    ));
    let error = backend.list_profiles(Platform::Other, &unsafe_list).unwrap_err();
    assert_eq!(error, BackendError::UnsafePath("../up".to_owned()));
    assert_eq!(
        error.message(""),
        "profile path escapes VS Code User directory: ../up"
    );
}

#[test]
fn ids_stay_within_the_directory_of_profiles() {
    for id in ["p1", "a/b", "..a", "a..", "a/..b", ".", "a\\..\\b", "c:x"] {
        assert!(is_safe_id(Platform::Other, id), "{id}");
    }
    for id in ["", "/", "/a", "..", "../a", "a/..", "a/../b", "a//.."] {
        assert!(!is_safe_id(Platform::Other, id), "{id}");
        assert!(!is_safe_id(Platform::Windows, id), "{id}");
        assert_eq!(
            validate_profile_id(Platform::MacOs, id),
            Err(BackendError::UnsafePath(id.to_owned()))
        );
    }
    for id in ["\\a", "a\\..\\b", "c:x", "C:\\x", "..\\a"] {
        assert!(!is_safe_id(Platform::Windows, id), "{id}");
    }
    assert!(validate_profile_id(Platform::Windows, "a\\b").is_ok());
}

#[test]
fn paths_lie_under_a_root_by_their_names() {
    let path = |names: &[&str]| -> Vec<Vec<u8>> {
        names.iter().map(|name| name.as_bytes().to_vec()).collect()
    };
    assert!(is_under(&path(&["/", "a", "b"]), &path(&["/", "a"])));
    assert!(is_under(&path(&["/", "a"]), &path(&["/", "a"])));
    assert!(!is_under(&path(&["/", "ab"]), &path(&["/", "a"])));
    assert!(!is_under(&path(&["/"]), &path(&["/", "a"])));
}

#[test]
fn settings_are_read_of_profiles_with_their_own() {
    let profiles = backend()
        .list_profiles(
            Platform::Other,
            &RegistryRead::Profiles(listed(
                r#"{"profiles":[{"id":"p","name":"s","useDefaultSettings":true}]}"#,
            )),
        )
        .unwrap();
    assert!(read_settings(&profiles[0], None).unwrap().is_empty());
    assert_eq!(
        read_settings(&profiles[0], Some("{\"x\":[1,]}")).unwrap().get("x"),
        Some(&json("[1]"))
    );
    let error = read_settings(&profiles[0], Some("{")).unwrap_err();
    assert!(error.message().starts_with("invalid settings JSONC for 'Default': "));
    let shared = read_settings(&profiles[1], Some("{}")).unwrap_err();
    assert_eq!(shared, SettingsError::SharedDefault("s".to_owned()));
    assert_eq!(
        shared.message(),
        "profile 's' reuses Default settings; explicit storage adoption is required"
    );
    assert_eq!(
        BackendError::SharedDefault("s".to_owned()).message(""),
        shared.message()
    );
    assert!(snapshot(&profiles, &vec![None, None]).is_err());
}

#[test]
fn settings_are_written_of_profiles_with_their_own() {
    let profiles = backend().list_profiles(Platform::Other, &RegistryRead::Absent).unwrap();
    let settings = parse_settings("{\"b\":1,\"a\":2}").unwrap();
    assert_eq!(
        settings_to_write(&profiles[0], &settings),
        Ok("{\n  \"a\": 2,\n  \"b\": 1\n}\n".to_owned())
    );
    let shared = Profile {
        name: "s".to_owned(),
        opaque_id: Some("p".to_owned()),
        settings_path: Location::new(Root::UserData),
        uses_default_settings: true,
    };
    assert_eq!(
        settings_to_write(&shared, &settings),
        Err(SettingsError::SharedDefault("s".to_owned()))
    );
}

#[test]
fn of_two_profiles_of_one_name_the_later_counts() {
    let profiles = backend()
        .list_profiles(
            Platform::Other,
            &RegistryRead::Profiles(listed(
                r#"{"profiles":[{"id":"a","name":"n"},{"id":"b","name":"n"}]}"#,
            )),
        )
        .unwrap();
    let texts = vec![None, Some("{\"x\":1}".to_owned()), Some("{\"x\":2}".to_owned())];
    let settings = snapshot(&profiles, &texts).unwrap();
    assert_eq!(settings.len(), 2);
    assert_eq!(settings.get("n").unwrap().get("x"), Some(&json("2")));
}

#[test]
fn the_user_data_directory_is_searched_in_order() {
    let linux = candidate_user_data_dirs(Platform::Other, true, true, true);
    assert_eq!(linux.len(), 2);
    assert_eq!(linux[0].path.root, Root::ConfigHome);
    assert_eq!(parts(&linux[0].path), vec!["Code"]);
    assert_eq!((linux[0].product.as_str(), linux[0].channel.as_str()), ("Visual Studio Code", "stable"));
    assert_eq!(parts(&linux[1].path), vec!["Code - Insiders"]);
    assert_eq!(
        (linux[1].product.as_str(), linux[1].channel.as_str()),
        ("Visual Studio Code Insiders", "insiders")
    );
    let plain = candidate_user_data_dirs(Platform::Other, true, true, false);
    assert_eq!(parts(&plain[0].path), vec![".config", "Code"]);
    assert!(candidate_user_data_dirs(Platform::Other, true, false, false).is_empty());
    let mac = candidate_user_data_dirs(Platform::MacOs, false, true, true);
    assert_eq!(parts(&mac[0].path), vec!["Library", "Application Support", "Code"]);
    assert_eq!(mac[0].path.root, Root::UserHome);
    assert!(candidate_user_data_dirs(Platform::MacOs, true, false, true).is_empty());
    let windows = candidate_user_data_dirs(Platform::Windows, true, false, false);
    assert_eq!(windows[1].path.root, Root::AppData);
    assert!(candidate_user_data_dirs(Platform::Windows, false, true, true).is_empty());

    let second = |path: &Location| path.parts.last().unwrap() == "Code - Insiders";
    let found = FileBackend::discover(false, &linux, second).unwrap();
    assert_eq!(found.user_data_dir(), linux[1].path);
    let info = found.probe(Platform::Other, "linux", "/c/Code - Insiders");
    assert_eq!(info.product, "Visual Studio Code Insiders");
    assert_eq!(info.channel, "insiders");
    assert_eq!(info.platform, "linux");
    assert_eq!(info.user_data_dir, "/c/Code - Insiders");
    assert_eq!((info.backend_version, info.writable), (1, true));
    let nowhere = FileBackend::discover(false, &linux, |_: &Location| false).unwrap_err();
    assert_eq!(nowhere, BackendError::NotFound);
    assert_eq!(
        nowhere.message(""),
        "VS Code user-data directory was not found; pass --user-data-dir"
    );
    let given = FileBackend::discover(true, &linux, |_: &Location| false).unwrap();
    assert_eq!(given.user_data_dir(), Location::new(Root::Given));
    assert_eq!(given.probe(Platform::Other, "", "").channel, "custom");
    assert_eq!(parts(&given.user_dir()), vec!["User"]);
}

#[test]
fn the_home_is_the_nearest_that_is_known() {
    assert_eq!(Home::discover(true, true, true), Some(Home { root: Root::Given }));
    assert_eq!(Home::discover(false, true, true), Some(Home { root: Root::StrataHome }));
    assert_eq!(Home::discover(false, false, true), Some(Home { root: Root::ProjectConfig }));
    assert_eq!(Home::discover(false, false, false), None);
    let home = Home { root: Root::StrataHome };
    assert_eq!(parts(&home.source_path()), vec!["profiles.jsonc"]);
    assert_eq!(parts(&home.state_path()), vec!["state.json"]);
    assert_eq!(parts(&home.lock_path()), vec!["state.lock"]);
}

#[test]
fn registries_are_archived_and_restored() {
    let storage = br#"{"theme":"dark","userDataProfiles":[{"location":"p1","name":"cpp","icon":"x"}]}"#;
    let archived = profile_registry(Platform::Other, true, storage).unwrap();
    assert_eq!(archived.kind, "storage");
    assert_eq!(
        archived.registry,
        json(r#"[{"location":"p1","name":"cpp","icon":"x"}]"#)
    );
    assert!(check_manifest(Platform::Other, 1, &archived.kind, &archived.registry).is_ok());
    let target = read_json(br#"{"a":1,"userDataProfiles":[]}"#);
    let text = write_profile_registry(
        registry_file(&archived.kind).unwrap(),
        Some(target),
        archived.registry,
    )
    .unwrap();
    assert_eq!(
        text,
        "{\n  \"a\": 1,\n  \"userDataProfiles\": [\n    {\n      \"icon\": \"x\",\n      \"location\": \"p1\",\n      \"name\": \"cpp\"\n    }\n  ]\n}"
    );
    assert_eq!(
        read_stored_profiles(text.as_bytes()),
        read_stored_profiles(storage)
    );
}

#[test]
fn lists_in_the_directory_of_profiles_are_archived_whole() {
    let bytes = br#"{"profiles":[{"id":"p1","name":"cpp"}],"more":true}"#;
    let archived = profile_registry(Platform::Other, false, bytes).unwrap();
    assert_eq!(archived.kind, "profiles");
    assert_eq!(archived.registry, read_json(bytes).unwrap());
    assert_eq!(registry_file("profiles"), Ok(RegistryFile::Profiles));
    assert_eq!(
        write_profile_registry(RegistryFile::Profiles, None, json("[1]")),
        Ok("[\n  1\n]".to_owned())
    );
}

#[test]
fn registries_that_are_none_are_not_archived() {
    let refused = |stored: bool, text: &str| {
        profile_registry(Platform::Other, stored, text.as_bytes()).unwrap_err()
    };
    assert_eq!(refused(true, "{"), RegistryError::UnknownRegistry);
    assert_eq!(refused(true, "{}"), RegistryError::UnknownRegistry);
    assert_eq!(refused(true, r#"{"userDataProfiles":{}}"#), RegistryError::UnknownFormat);
    assert_eq!(refused(false, "{}"), RegistryError::NoProfiles);
    assert_eq!(
        refused(false, r#"{"profiles":[{"id":"/a","name":"x"}]}"#),
        RegistryError::UnsafePath("/a".to_owned())
    );
    assert_eq!(
        validate_archive_registry(Platform::Other, "other", &json("[]")),
        Err(RegistryError::UnknownKind("other".to_owned()))
    );
    assert_eq!(
        registry_file("other"),
        Err(RegistryError::UnknownKind("other".to_owned()))
    );
    assert_eq!(
        check_manifest(Platform::Other, 2, "storage", &json("[]")),
        Err(RegistryError::UnsupportedVersion(2))
    );
    assert_eq!(
        merge_storage(Some(json("[]")), json("[]")),
        Err(RegistryError::NotAnObject)
    );
    assert_eq!(
        write_profile_registry(RegistryFile::Storage, Some(None), json("[]")),
        Err(RegistryError::UnknownRegistry)
    );
    assert_eq!(
        write_profile_registry(RegistryFile::Storage, None, json("[]")),
        Ok("{\n  \"userDataProfiles\": []\n}".to_owned())
    );
    let said: Vec<String> = vec![
        RegistryError::UnknownRegistry.message("/r"),
        RegistryError::UnknownFormat.message("/r"),
        RegistryError::UnsupportedVersion(2).message("/r"),
        RegistryError::NoProfiles.message("/r"),
        RegistryError::UnknownKind("k".to_owned()).message("/r"),
        RegistryError::UnsafePath("/a".to_owned()).message("/r"),
        RegistryError::NotAnObject.message("/r"),
    ];
    assert_eq!(
        said,
        vec![
            "profile registry is missing or has an unknown format at /r; refusing to guess",
            "profile archive registry has an unknown format",
            "unsupported Strata profile archive version 2",
            "profile archive registry has no profiles field",
            "unknown profile archive registry kind 'k'",
            "profile path escapes VS Code User directory: /a",
            "VS Code storage registry must be an object",
        ]
    );
}

#[test]
fn archives_are_named_by_their_time() {
    assert_eq!(archive_name(0), "strata-profiles-0");
    assert_eq!(
        archive_name(1700000000123456789),
        "strata-profiles-1700000000123456789"
    );
}
