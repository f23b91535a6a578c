//! What is answered: the results of the service as JSON values.

use vstd::prelude::*;
use crate::backend::{profile_views, Profile, ProfileView};
use crate::inherit::{compile, compiled, origin_in, origin_of};
use crate::json::{
    at, jsons, lemma_array_json, lemma_object_json, same_option, Json, JsonValue, Num, Number,
    Settings,
};
use crate::node::texts;
use crate::place::{lemma_pass, lemma_pass_ends, lemma_pass_profile, passed, ranked, Place};
use crate::protocol::{get_text, text_param, ParamError};
use crate::reconcile::{
    conflict_views, get_setting, same_values, setting_at, Conflict, ConflictView, ProfilesMap,
};
use crate::source::{Origin, Source, SourceView};
use crate::table::{lists, Names, Table};

verus! {

/// The members of an object, and one more.
fn with_field(members: Table<JsonValue>, name: &str, value: JsonValue) -> (more: Table<JsonValue>)
    ensures
        more.deep_view() == members.deep_view().insert(name@, value@),
{
    let ghost before = members.deep_view();
    let mut more = members;
    more.insert(name.to_owned(), value);
    assert(more.deep_view() =~= before.insert(name@, value@));
    more
}

fn no_fields() -> (members: Table<JsonValue>)
    ensures
        members.deep_view() == Map::<Seq<char>, Json>::empty(),
{
    let members: Table<JsonValue> = Table::new();
    assert(members.deep_view() =~= Map::<Seq<char>, Json>::empty());
    members
}

fn object(members: Table<JsonValue>) -> (value: JsonValue)
    ensures
        value@ == Json::Object(members.deep_view()),
{
    proof {
        lemma_object_json(members);
    }
    JsonValue::Object(members)
}

fn text_value(text: &str) -> (value: JsonValue)
    ensures
        value@ == Json::Text(text@),
{
    JsonValue::String(text.to_owned())
}

fn number(n: u64) -> (value: JsonValue)
    ensures
        value@ == Json::Number(Num::PosInt(n)),
{
    JsonValue::Number(Number::PosInt(n))
}

/// A value, or null where there is none.
pub open spec fn or_null(value: Option<Json>) -> Json {
    match value {
        Some(value) => value,
        None => Json::Null,
    }
}

fn value_or_null(value: Option<&JsonValue>) -> (copy: JsonValue)
    ensures
        copy@ == or_null(
            match value {
                Some(value) => Some(value@),
                None => None,
            },
        ),
{
    match value {
        Some(value) => value.clone(),
        None => JsonValue::Null,
    }
}

/// The settings that differ between what a source gives and what VS Code has.
pub open spec fn differing(expected: ProfilesMap, actual: ProfilesMap) -> Set<Place> {
    Set::new(
        |place: Place|
            !same_option(setting_at(expected, place), setting_at(actual, place)),
    )
}

/// What is told of a setting that differs.
pub open spec fn difference_json(
    expected: ProfilesMap,
    actual: ProfilesMap,
    place: Place,
) -> Json {
    Json::Object(
        map![
            "profile"@ => Json::Text(place.profile),
            "setting"@ => Json::Text(place.setting),
            "expected"@ => or_null(setting_at(expected, place)),
            "actual"@ => or_null(setting_at(actual, place)),
        ],
    )
}

/// What is told of settings that differ.
pub open spec fn differences_json(
    expected: ProfilesMap,
    actual: ProfilesMap,
    places: Seq<Place>,
) -> Seq<Json> {
    Seq::new(places.len(), |i: int| difference_json(expected, actual, places[i]))
}

/// What is told of the differences between what a source gives and what VS Code has: all
/// of them, in their order.
pub open spec fn diff_answer(expected: ProfilesMap, actual: ProfilesMap, answer: Json) -> bool {
    exists|places: Seq<Place>|
        #![trigger ranked(places, differing(expected, actual))]
        ranked(places, differing(expected, actual)) && answer == Json::Object(
            map![
                "clean"@ => Json::Bool(places.len() == 0),
                "changes"@ => Json::List(differences_json(expected, actual, places)),
            ],
        )
}

/// Tells the differences between what a source gives and what VS Code has.
pub fn diff(source: &Source, actual: &Table<Settings>) -> (answer: JsonValue)
    ensures
        diff_answer(compiled(source@), actual.deep_view(), answer@),
{
    let expected = compile(source);
    let ghost e = expected.deep_view();
    let ghost a = actual.deep_view();
    let ghost set = differing(e, a);
    let mut changes: Vec<JsonValue> = Vec::new();
    let mut profiles = Names::new();
    profiles.insert_names_of(&expected);
    profiles.insert_names_of(actual);
    let profiles_len = profiles.len();
    let ghost names = profiles.names();
    let ghost mut places: Seq<Place> = Seq::empty();
    let ghost none: Seq<Seq<char>> = Seq::empty();
    proof {
        assert forall|place: Place| #[trigger] set.contains(place) implies profiles@.contains(
            place.profile,
        ) by {}
        lemma_pass_ends(set, names, profiles@, none);
        assert(jsons(changes@) =~= differences_json(e, a, places));
    }
    let mut i: usize = 0;
    while i < profiles_len
        invariant
            i <= profiles_len,
            profiles_len == names.len(),
            names == profiles.names(),
            lists(names, profiles@),
            e == expected.deep_view(),
            a == actual.deep_view(),
            set == differing(e, a),
            ranked(places, set.intersect(passed(names, i as int, none, 0))),
            jsons(changes@) == differences_json(e, a, places),
        decreases profiles_len - i,
    {
        let profile = profiles.name(i);
        let left = expected.get(profile);
        let right = actual.get(profile);
        let mut keys = Names::new();
        if let Some(settings) = left {
            keys.insert_names_of(settings);
        }
        if let Some(settings) = right {
            keys.insert_names_of(settings);
        }
        let keys_len = keys.len();
        let ghost settings = keys.names();
        proof {
            assert(set.intersect(passed(names, i as int, none, 0)) =~= set.intersect(
                passed(names, i as int, settings, 0),
            ));
        }
        let mut j: usize = 0;
        while j < keys_len
            invariant
                i < profiles_len,
                profiles_len == names.len(),
                names == profiles.names(),
                lists(names, profiles@),
                profile@ == names[i as int],
                j <= keys_len,
                keys_len == settings.len(),
                settings == keys.names(),
                lists(settings, keys@),
                e == expected.deep_view(),
                a == actual.deep_view(),
                set == differing(e, a),
                left is Some <==> expected@.contains_key(profile@),
                left is Some ==> *left->0 == expected@[profile@],
                right is Some <==> actual@.contains_key(profile@),
                right is Some ==> *right->0 == actual@[profile@],
                ranked(places, set.intersect(passed(names, i as int, settings, j as int))),
                jsons(changes@) == differences_json(e, a, places),
            decreases keys_len - j,
        {
            let setting = keys.name(j);
            let ghost place = Place { profile: profile@, setting: setting@ };
            proof {
                lemma_pass(places, set, names, i as int, settings, j as int);
            }
            let wanted = get_setting(left, setting);
            let found = get_setting(right, setting);
            if !same_values(wanted, found) {
                let members = with_field(no_fields(), "profile", text_value(profile));
                let members = with_field(members, "setting", text_value(setting));
                let members = with_field(members, "expected", value_or_null(wanted));
                let members = with_field(members, "actual", value_or_null(found));
                let change = object(members);
                proof {
                    assert(change@ == difference_json(e, a, place));
                    assert(jsons(changes@.push(change)) =~= jsons(changes@).push(change@));
                    assert(differences_json(e, a, places.push(place)) =~= differences_json(
                        e,
                        a,
                        places,
                    ).push(change@));
                    places = places.push(place);
                }
                changes.push(change);
            }
            j += 1;
        }
        proof {
            assert forall|place: Place| #[trigger]
                set.contains(place) && place.profile == names[i as int] implies keys@.contains(
                place.setting,
            ) by {}
            lemma_pass_profile(set, names, i as int, settings, keys@, none);
        }
        i += 1;
    }
    proof {
        assert forall|place: Place| #[trigger] set.contains(place) implies profiles@.contains(
            place.profile,
        ) by {}
        lemma_pass_ends(set, names, profiles@, none);
        assert(ranked(places, differing(e, a)));
        lemma_array_json(changes);
    }
    let clean = changes.len() == 0;
    let members = with_field(no_fields(), "clean", JsonValue::Bool(clean));
    let members = with_field(members, "changes", JsonValue::Array(changes));
    object(members)
}

/// The differences are none exactly when VS Code has what the source gives.
pub proof fn law_clean_means_same(expected: ProfilesMap, actual: ProfilesMap, answer: Json)
    requires
        diff_answer(expected, actual, answer),
    ensures
        answer is Object,
        at(answer->Object_0, "clean"@) == Some(
            Json::Bool(
                forall|place: Place|
                    same_option(
                        #[trigger] setting_at(expected, place),
                        setting_at(actual, place),
                    ),
            ),
        ),
{
    reveal_strlit("clean");
    reveal_strlit("changes");
    assert("clean"@.len() != "changes"@.len());
    let set = differing(expected, actual);
    let places = choose|places: Seq<Place>|
        #![trigger ranked(places, set)]
        ranked(places, set) && answer == Json::Object(
            map![
                "clean"@ => Json::Bool(places.len() == 0),
                "changes"@ => Json::List(differences_json(expected, actual, places)),
            ],
        );
    if places.len() > 0 {
        assert(places.contains(places[0]));
        assert(set.contains(places[0]));
        assert(!same_option(setting_at(expected, places[0]), setting_at(actual, places[0])));
    } else {
        assert forall|place: Place|
            same_option(#[trigger] setting_at(expected, place), setting_at(actual, place)) by {
            assert(set.contains(place) == places.contains(place));
        }
    }
}

/// The name of where a value comes from.
pub open spec fn origin_name(origin: Origin) -> Seq<char> {
    match origin {
        Origin::Base => "base"@,
        Origin::ProfileOverride => "profileOverride"@,
        Origin::Uninherit => "uninherit"@,
        Origin::VscodeDefault => "vscodeDefault"@,
    }
}

/// What is told of where the value of a setting in a profile comes from.
pub open spec fn origin_json(source: SourceView, profile: Seq<char>, setting: Seq<char>) -> Json {
    Json::Object(
        match origin_in(source, profile, setting) {
            None => map!["origin"@ => Json::Text("unknownProfile"@)],
            Some(origin) => map![
                "profile"@ => Json::Text(profile),
                "setting"@ => Json::Text(setting),
                "origin"@ => Json::Text(origin_name(origin)),
            ],
        },
    )
}

/// Tells where the value of a setting in a profile comes from.
pub fn origin(source: &Source, profile: &str, setting: &str) -> (answer: JsonValue)
    ensures
        answer@ == origin_json(source@, profile@, setting@),
{
    match origin_of(source, profile, setting) {
        None => object(with_field(no_fields(), "origin", text_value("unknownProfile"))),
        Some(origin) => {
            let name = match origin {
                Origin::Base => "base",
                Origin::ProfileOverride => "profileOverride",
                Origin::Uninherit => "uninherit",
                Origin::VscodeDefault => "vscodeDefault",
            };
            let members = with_field(no_fields(), "profile", text_value(profile));
            let members = with_field(members, "setting", text_value(setting));
            object(with_field(members, "origin", text_value(name)))
        },
    }
}

/// Answers the request that asks where the value of a setting comes from.
pub fn answer_origin(source: &Source, params: &JsonValue) -> (result: Result<
    JsonValue,
    ParamError,
>)
    ensures
        match (text_param(params@, "profile"@), text_param(params@, "setting"@)) {
            (Some(profile), Some(setting)) => result matches Ok(answer) && answer@
                == origin_json(source@, profile, setting),
            (None, _) => result matches Err(ParamError::Missing(name)) && name@ == "profile"@,
            (Some(_), None) => result matches Err(ParamError::Missing(name)) && name@
                == "setting"@,
        },
{
    match get_text(params, "profile") {
        None => Err(ParamError::Missing("profile".to_owned())),
        Some(profile) => match get_text(params, "setting") {
            None => Err(ParamError::Missing("setting".to_owned())),
            Some(setting) => Ok(origin(source, profile.as_str(), setting.as_str())),
        },
    }
}

/// What the doctor finds.
#[derive(Debug, PartialEq)]
pub struct Doctor {
    pub ok: bool,
    pub backend: Option<JsonValue>,
    pub source: Option<String>,
    pub issues: Vec<String>,
}

/// The state of the source.
#[derive(Debug, PartialEq)]
pub enum SourceHealth {
    /// There is none.
    Missing,
    /// It may stand as it is: its path.
    Sound(String),
    /// It may not: what is said of it.
    Broken(String),
}

/// What is said of a profile that has the settings of Default.
pub open spec fn shared_issue(name: Seq<char>) -> Seq<char> {
    "profile '"@ + name + "' reuses Default settings and must be adopted explicitly"@
}

/// What is said of the profiles that have the settings of Default.
pub open spec fn shared_issues(profiles: Seq<ProfileView>) -> Seq<Seq<char>>
    decreases profiles.len(),
{
    if profiles.len() == 0 {
        Seq::empty()
    } else {
        let before = shared_issues(profiles.drop_last());
        if profiles.last().uses_default_settings {
            before.push(shared_issue(profiles.last().name))
        } else {
            before
        }
    }
}

/// What is said where VS Code's data cannot be told of.
pub open spec fn failure(backend: Result<JsonValue, String>) -> Seq<Seq<char>> {
    match backend {
        Ok(_) => Seq::empty(),
        Err(message) => seq![message@],
    }
}

/// The issues that the doctor finds, in their order.
pub open spec fn doctor_issues(
    backend: Result<JsonValue, String>,
    profiles: Result<Vec<Profile>, String>,
    source: SourceHealth,
) -> Seq<Seq<char>> {
    failure(backend) + (match profiles {
        Ok(profiles) => shared_issues(profile_views(profiles@)),
        Err(message) => seq![message@],
    }) + (match source {
        SourceHealth::Missing => seq!["Strata is not initialized"@],
        SourceHealth::Sound(_) => Seq::empty(),
        SourceHealth::Broken(message) => seq![message@],
    })
}

/// Finds what is wrong with VS Code's data and with the source.
pub fn doctor(
    backend: Result<JsonValue, String>,
    profiles: Result<Vec<Profile>, String>,
    source: SourceHealth,
) -> (doctor: Doctor)
    ensures
        texts(doctor.issues@) == doctor_issues(backend, profiles, source),
        doctor.ok == (doctor.issues@.len() == 0),
        doctor.backend == (match backend {
            Ok(value) => Some(value),
            Err(_) => None,
        }),
        doctor.source == (match source {
            SourceHealth::Sound(path) => Some(path),
            _ => None,
        }),
{
    let ghost first = failure(backend);
    let mut issues: Vec<String> = Vec::new();
    let backend_info = match backend {
        Ok(value) => Some(value),
        Err(message) => {
            issues.push(message);
            None
        },
    };
    assert(texts(issues@) =~= first);
    match &profiles {
        Ok(list) => {
            let ghost views = profile_views(list@);
            let mut i: usize = 0;
            assert(views.take(0) =~= Seq::<ProfileView>::empty());
            assert(first + shared_issues(views.take(0)) =~= first);
            while i < list.len()
                invariant
                    i <= list@.len(),
                    views == profile_views(list@),
                    texts(issues@) == first + shared_issues(views.take(i as int)),
                decreases list@.len() - i,
            {
                let profile = &list[i];
                let ghost sofar = issues@;
                proof {
                    assert(views.take(i + 1).drop_last() =~= views.take(i as int));
                    assert(views.take(i + 1).last() == profile@);
                }
                if profile.uses_default_settings {
                    let mut issue = "profile '".to_owned();
                    issue.append(profile.name.as_str());
                    issue.append("' reuses Default settings and must be adopted explicitly");
                    assert(issue@ =~= shared_issue(profile@.name));
                    issues.push(issue);
                    assert(texts(issues@) =~= texts(sofar).push(issue@));
                    assert(texts(issues@) =~= first + shared_issues(views.take(i + 1)));
                }
                i += 1;
            }
            assert(views.take(list@.len() as int) =~= views);
        },
        Err(message) => {
            let ghost sofar = issues@;
            issues.push(message.clone());
            assert(texts(issues@) =~= texts(sofar).push(message@));
            assert(texts(issues@) =~= first + seq![message@]);
        },
    }
    let ghost second = texts(issues@);
    let found = match source {
        SourceHealth::Missing => {
            let issue = "Strata is not initialized".to_owned();
            issues.push(issue);
            assert(texts(issues@) =~= second + seq!["Strata is not initialized"@]);
            None
        },
        SourceHealth::Sound(path) => {
            assert(texts(issues@) =~= second + Seq::<Seq<char>>::empty());
            Some(path)
        },
        SourceHealth::Broken(message) => {
            issues.push(message);
            assert(texts(issues@) =~= second + seq![message@]);
            None
        },
    };
    let ok = issues.len() == 0;
    Doctor { ok, backend: backend_info, source: found, issues }
}

/// Texts as a JSON list.
pub open spec fn text_list(list: Seq<Seq<char>>) -> Json {
    Json::List(Seq::new(list.len(), |i: int| Json::Text(list[i])))
}

fn texts_value(list: &Vec<String>) -> (value: JsonValue)
    ensures
        value@ == text_list(texts(list@)),
{
    let mut items: Vec<JsonValue> = Vec::new();
    let mut i: usize = 0;
    while i < list.len()
        invariant
            i <= list@.len(),
            items@.len() == i,
            forall|j: int| 0 <= j < i ==> (#[trigger] items@[j])@ == Json::Text(list@[j]@),
        decreases list@.len() - i,
    {
        items.push(text_value(list[i].as_str()));
        i += 1;
    }
    proof {
        lemma_array_json(items);
        assert(jsons(items@) =~= text_list(texts(list@))->List_0);
    }
    JsonValue::Array(items)
}

/// What the doctor finds as a JSON value.
pub open spec fn doctor_json(doctor: Doctor) -> Json {
    Json::Object(
        map![
            "ok"@ => Json::Bool(doctor.ok),
            "backend"@ => or_null(doctor.backend.deep_view()),
            "source"@ => or_null(
                match doctor.source {
                    Some(path) => Some(Json::Text(path@)),
                    None => None,
                },
            ),
            "issues"@ => text_list(texts(doctor.issues@)),
        ],
    )
}

impl Doctor {
    /// What the doctor finds as a JSON value.
    pub fn answer(&self) -> (answer: JsonValue)
        ensures
            answer@ == doctor_json(*self),
    {
        let backend = match &self.backend {
            Some(value) => value.clone(),
            None => JsonValue::Null,
        };
        let source = match &self.source {
            Some(path) => text_value(path.as_str()),
            None => JsonValue::Null,
        };
        let members = with_field(no_fields(), "ok", JsonValue::Bool(self.ok));
        let members = with_field(members, "backend", backend);
        let members = with_field(members, "source", source);
        object(with_field(members, "issues", texts_value(&self.issues)))
    }
}

/// Tells whether there is a source and a state, and where the source lies.
pub fn answer_status(initialized: bool, has_state: bool, source_path: &str) -> (answer: JsonValue)
    ensures
        answer@ == Json::Object(
            map![
                "initialized"@ => Json::Bool(initialized),
                "hasState"@ => Json::Bool(has_state),
                "sourcePath"@ => Json::Text(source_path@),
            ],
        ),
{
    let members = with_field(no_fields(), "initialized", JsonValue::Bool(initialized));
    let members = with_field(members, "hasState", JsonValue::Bool(has_state));
    object(with_field(members, "sourcePath", text_value(source_path)))
}

/// Tells a path.
pub fn answer_path(path: &str) -> (answer: JsonValue)
    ensures
        answer@ == Json::Object(map!["path"@ => Json::Text(path@)]),
{
    object(with_field(no_fields(), "path", text_value(path)))
}

/// Tells how many profiles there are after an import.
pub fn answer_imported(profiles: u64) -> (answer: JsonValue)
    ensures
        answer@ == Json::Object(map!["profiles"@ => Json::Number(Num::PosInt(profiles))]),
{
    object(with_field(no_fields(), "profiles", number(profiles)))
}

/// Tells that an edit was made.
pub fn answer_edited() -> (answer: JsonValue)
    ensures
        answer@ == Json::Object(map!["ok"@ => Json::Bool(true)]),
{
    object(with_field(no_fields(), "ok", JsonValue::Bool(true)))
}

/// Tells that a source was built, and how many settings the profiles did not have before.
pub fn answer_built(source_path: &str, newly_inherited: u64) -> (answer: JsonValue)
    ensures
        answer@ == Json::Object(
            map![
                "status"@ => Json::Text("built"@),
                "sourcePath"@ => Json::Text(source_path@),
                "newlyInherited"@ => Json::Number(Num::PosInt(newly_inherited)),
            ],
        ),
{
    let members = with_field(no_fields(), "status", text_value("built"));
    let members = with_field(members, "sourcePath", text_value(source_path));
    object(with_field(members, "newlyInherited", number(newly_inherited)))
}

/// Tells that nothing has changed.
pub fn answer_unchanged(revision: u64) -> (answer: JsonValue)
    ensures
        answer@ == Json::Object(
            map![
                "status"@ => Json::Text("unchanged"@),
                "revision"@ => Json::Number(Num::PosInt(revision)),
            ],
        ),
{
    let members = with_field(no_fields(), "status", text_value("unchanged"));
    object(with_field(members, "revision", number(revision)))
}

/// Tells that a source was reconciled.
pub fn answer_reconciled(revision: u64, changed_source: bool) -> (answer: JsonValue)
    ensures
        answer@ == Json::Object(
            map![
                "status"@ => Json::Text("ok"@),
                "revision"@ => Json::Number(Num::PosInt(revision)),
                "sourceChanged"@ => Json::Bool(changed_source),
            ],
        ),
{
    let members = with_field(no_fields(), "status", text_value("ok"));
    let members = with_field(members, "revision", number(revision));
    object(with_field(members, "sourceChanged", JsonValue::Bool(changed_source)))
}

/// Tells that conflicts were resolved.
pub fn answer_resolved(revision: u64) -> (answer: JsonValue)
    ensures
        answer@ == Json::Object(
            map![
                "status"@ => Json::Text("resolved"@),
                "revision"@ => Json::Number(Num::PosInt(revision)),
            ],
        ),
{
    let members = with_field(no_fields(), "status", text_value("resolved"));
    object(with_field(members, "revision", number(revision)))
}

/// A conflict as a JSON value.
pub open spec fn conflict_json(conflict: ConflictView) -> Json {
    Json::Object(
        map![
            "profile"@ => Json::Text(conflict.place.profile),
            "setting"@ => Json::Text(conflict.place.setting),
            "previous"@ => or_null(conflict.previous),
            "source"@ => or_null(conflict.source),
            "actual"@ => or_null(conflict.actual),
        ],
    )
}

/// Conflicts as JSON values.
pub open spec fn conflicts_json(conflicts: Seq<ConflictView>) -> Seq<Json> {
    Seq::new(conflicts.len(), |i: int| conflict_json(conflicts[i]))
}

fn option_value(value: &Option<JsonValue>) -> (copy: JsonValue)
    ensures
        copy@ == or_null(value.deep_view()),
{
    match value {
        Some(value) => value.clone(),
        None => JsonValue::Null,
    }
}

/// Tells the conflicts.
pub fn answer_conflicts(conflicts: &Vec<Conflict>) -> (answer: JsonValue)
    ensures
        answer@ == Json::Object(
            map![
                "status"@ => Json::Text("conflict"@),
                "conflicts"@ => Json::List(conflicts_json(conflict_views(conflicts@))),
            ],
        ),
{
    let mut items: Vec<JsonValue> = Vec::new();
    let mut i: usize = 0;
    while i < conflicts.len()
        invariant
            i <= conflicts@.len(),
            items@.len() == i,
            forall|j: int|
                0 <= j < i ==> (#[trigger] items@[j])@ == conflict_json(conflicts@[j]@),
        decreases conflicts@.len() - i,
    {
        let conflict = &conflicts[i];
        let members = with_field(no_fields(), "profile", text_value(conflict.profile.as_str()));
        let members = with_field(members, "setting", text_value(conflict.setting.as_str()));
        let members = with_field(members, "previous", option_value(&conflict.previous));
        let members = with_field(members, "source", option_value(&conflict.source));
        let members = with_field(members, "actual", option_value(&conflict.actual));
        items.push(object(members));
        i += 1;
    }
    proof {
        lemma_array_json(items);
        assert(jsons(items@) =~= conflicts_json(conflict_views(conflicts@)));
    }
    let members = with_field(no_fields(), "status", text_value("conflict"));
    object(with_field(members, "conflicts", JsonValue::Array(items)))
}

} // verus!
