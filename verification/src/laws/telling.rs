//! Laws of what is told: differences, origins, conflicts, and what is wrong.

use vstd::prelude::*;
use crate::answers::{
    answer_built, answer_conflicts, answer_edited, answer_imported, answer_origin, answer_path,
    answer_reconciled, answer_resolved, answer_status, answer_unchanged, diff, differences_json,
    differing, doctor, origin, shared_issue, shared_issues, Doctor, SourceHealth,
};
use crate::backend::{profile_views, Profile};
use crate::inherit::compiled;
use crate::json::{same_option, whole_numbers, Json, JsonValue, Num, Settings};
use crate::laws::changes::{based, held, option_view, own, refused};
use crate::laws::edits::{says, says_no_text};
use crate::laws::values::law_equal_values_are_one;
use crate::node::texts;
use crate::place::{before, ranked, Place};
use crate::protocol::ParamError;
use crate::reconcile::{conflict_views, setting_at, Conflict, ProfilesMap};
use crate::source::Source;
use crate::table::Table;
use crate::text::precedes;

verus! {

/// A JSON value is an object that has a value under each of these names and no others.
pub open spec fn fields(value: Json, names: Set<Seq<char>>) -> bool {
    value is Object && value->Object_0.dom() == names
}

/// The JSON of a value that may be missing: null, where it is.
pub open spec fn or_nothing(value: Option<Json>) -> Json {
    if value is Some {
        value->0
    } else {
        Json::Null
    }
}

/// One change that a difference tells of.
pub open spec fn tells_change(
    item: Json,
    profile: Seq<char>,
    setting: Seq<char>,
    expected: Option<Json>,
    actual: Option<Json>,
) -> bool {
    &&& fields(item, set!["profile"@, "setting"@, "expected"@, "actual"@])
    &&& says(item, "profile"@, Json::Text(profile))
    &&& says(item, "setting"@, Json::Text(setting))
    &&& says(item, "expected"@, or_nothing(expected))
    &&& says(item, "actual"@, or_nothing(actual))
}

/// A change tells of a setting what it is on both sides.
pub open spec fn change_of(
    expected: ProfilesMap,
    actual: ProfilesMap,
    item: Json,
    profile: Seq<char>,
    setting: Seq<char>,
) -> bool {
    tells_change(
        item,
        profile,
        setting,
        held(expected, profile, setting),
        held(actual, profile, setting),
    )
}

/// An item tells of some setting what it is on both sides.
pub open spec fn is_change(expected: ProfilesMap, actual: ProfilesMap, item: Json) -> bool {
    exists|profile: Seq<char>, setting: Seq<char>| #[trigger]
        change_of(expected, actual, item, profile, setting)
}

/// Each change tells of a setting what it is on both sides, and they stand in the order of the
/// names.
pub open spec fn in_order(expected: ProfilesMap, actual: ProfilesMap, changes: Seq<Json>) -> bool {
    &&& forall|i: int|
        0 <= i < changes.len() ==> is_change(expected, actual, #[trigger] changes[i])
    &&& forall|i: int, j: int, p: Seq<char>, k: Seq<char>, q: Seq<char>, l: Seq<char>|
        #![trigger change_of(expected, actual, changes[i], p, k), change_of(expected, actual, changes[j], q, l)]
        0 <= i < j < changes.len() && change_of(expected, actual, changes[i], p, k) && change_of(
            expected,
            actual,
            changes[j],
            q,
            l,
        ) ==> precedes(p, q) || (p == q && precedes(k, l))
}

/// The difference between what a source gives and what VS Code has is told of every setting that
/// differs, a missing value included, and of no other: each once, in the order of the names, with
/// both values. It is clean where nothing differs. Where the numbers of the source's values are
/// integers, a clean difference means that every setting is one on both sides.
pub proof fn law_telling_differences(
    source: &Source,
    actual: &Table<Settings>,
    answer: JsonValue,
    profile: Seq<char>,
    setting: Seq<char>,
) -> (changes: Seq<Json>)
    requires
        call_ensures(diff, (source, actual), answer),
    ensures
        ({
            let wanted = held(compiled(source@), profile, setting);
            let there = held(actual.deep_view(), profile, setting);
            &&& fields(answer@, set!["clean"@, "changes"@])
            &&& says(answer@, "changes"@, Json::List(changes))
            &&& says(answer@, "clean"@, Json::Bool(changes.len() == 0))
            &&& !same_option(wanted, there) <==> exists|i: int|
                0 <= i < changes.len() && tells_change(
                    #[trigger] changes[i],
                    profile,
                    setting,
                    wanted,
                    there,
                )
            &&& changes.len() == 0 && wanted is Some && whole_numbers(wanted->0) ==> there
                == wanted
            &&& changes.len() == 0 && wanted is None ==> there is None
            &&& in_order(compiled(source@), actual.deep_view(), changes)
        }),
{
    let e = compiled(source@);
    let a = actual.deep_view();
    let set = differing(e, a);
    lemma_field_names();
    let places = choose|places: Seq<Place>|
        #![trigger ranked(places, differing(e, a))]
        ranked(places, differing(e, a)) && answer@ == Json::Object(
            map![
                "clean"@ => Json::Bool(places.len() == 0),
                "changes"@ => Json::List(differences_json(e, a, places)),
            ],
        );
    let changes = differences_json(e, a, places);
    assert(answer@->Object_0.dom() =~= set!["clean"@, "changes"@]);
    assert forall|i: int, p: Seq<char>, k: Seq<char>, x: Option<Json>, y: Option<Json>|
        #![trigger tells_change(changes[i], p, k, x, y)]
        0 <= i < changes.len() implies (tells_change(changes[i], p, k, x, y) ==> places[i]
        == (Place { profile: p, setting: k })) by {
        assert(changes[i] == crate::answers::difference_json(e, a, places[i]));
    }
    assert forall|i: int| 0 <= i < changes.len() implies tells_change(
        #[trigger] changes[i],
        places[i].profile,
        places[i].setting,
        held(e, places[i].profile, places[i].setting),
        held(a, places[i].profile, places[i].setting),
    ) by {
        assert(changes[i] == crate::answers::difference_json(e, a, places[i]));
        assert(changes[i]->Object_0.dom() =~= set!["profile"@, "setting"@, "expected"@, "actual"@]);
    }
    let here = Place { profile, setting };
    let wanted = held(e, profile, setting);
    let there = held(a, profile, setting);
    assert(setting_at(e, here) == wanted && setting_at(a, here) == there);
    assert(set.contains(here) <==> places.contains(here));
    if !same_option(wanted, there) {
        assert(set.contains(here));
        let i = choose|i: int| 0 <= i < places.len() && places[i] == here;
        assert(tells_change(changes[i], profile, setting, wanted, there));
    }
    if exists|i: int|
        0 <= i < changes.len() && tells_change(
            #[trigger] changes[i],
            profile,
            setting,
            wanted,
            there,
        ) {
        let i = choose|i: int|
            0 <= i < changes.len() && tells_change(
                #[trigger] changes[i],
                profile,
                setting,
                wanted,
                there,
            );
        assert(places[i] == here);
        assert(places.contains(here));
    }
    if changes.len() == 0 {
        assert(!places.contains(here));
        assert(same_option(wanted, there));
        if wanted is Some {
            law_equal_values_are_one(wanted->0, there->0);
        }
    }
    assert forall|i: int| 0 <= i < changes.len() implies is_change(
        e,
        a,
        #[trigger] changes[i],
    ) by {
        assert(change_of(e, a, changes[i], places[i].profile, places[i].setting));
    }
    assert forall|i: int, j: int, p: Seq<char>, k: Seq<char>, q: Seq<char>, l: Seq<char>|
        #![trigger change_of(e, a, changes[i], p, k), change_of(e, a, changes[j], q, l)]
        0 <= i < j < changes.len() && change_of(e, a, changes[i], p, k) && change_of(
            e,
            a,
            changes[j],
            q,
            l,
        ) implies precedes(p, q) || (p == q && precedes(k, l)) by {
        assert(before(places[i], places[j]));
    }
    changes
}

/// The names of the fields that are told are different names.
proof fn lemma_field_names()
    ensures
        "clean"@ != "changes"@,
        "profile"@ != "setting"@,
        "profile"@ != "expected"@,
        "profile"@ != "actual"@,
        "setting"@ != "expected"@,
        "setting"@ != "actual"@,
        "expected"@ != "actual"@,
        "profile"@ != "origin"@,
        "setting"@ != "origin"@,
        "profile"@ != "previous"@,
        "profile"@ != "source"@,
        "setting"@ != "previous"@,
        "setting"@ != "source"@,
        "previous"@ != "source"@,
        "previous"@ != "actual"@,
        "source"@ != "actual"@,
        "status"@ != "conflicts"@,
        "status"@ != "revision"@,
        "status"@ != "sourceChanged"@,
        "revision"@ != "sourceChanged"@,
        "status"@ != "sourcePath"@,
        "status"@ != "newlyInherited"@,
        "sourcePath"@ != "newlyInherited"@,
        "initialized"@ != "hasState"@,
        "initialized"@ != "sourcePath"@,
        "hasState"@ != "sourcePath"@,
        "ok"@ != "backend"@,
        "ok"@ != "source"@,
        "ok"@ != "issues"@,
        "backend"@ != "source"@,
        "backend"@ != "issues"@,
        "source"@ != "issues"@,
{
    reveal_strlit("clean");
    reveal_strlit("changes");
    reveal_strlit("profile");
    reveal_strlit("setting");
    reveal_strlit("expected");
    reveal_strlit("actual");
    reveal_strlit("origin");
    reveal_strlit("previous");
    reveal_strlit("source");
    reveal_strlit("status");
    reveal_strlit("conflicts");
    reveal_strlit("revision");
    reveal_strlit("sourceChanged");
    reveal_strlit("sourcePath");
    reveal_strlit("newlyInherited");
    reveal_strlit("initialized");
    reveal_strlit("hasState");
    reveal_strlit("ok");
    reveal_strlit("backend");
    reveal_strlit("issues");
    assert("clean"@[1] == 'l' && "changes"@[1] == 'h');
    assert("profile"@[0] == 'p' && "setting"@[0] == 's' && "expected"@[0] == 'e');
    assert("actual"@[0] == 'a' && "origin"@[0] == 'o' && "source"@[0] == 's');
    assert("setting"@[1] == 'e' && "source"@[1] == 'o' && "status"@[1] == 't');
    assert("previous"@[2] == 'e' && "profile"@[2] == 'o' && "previous"@[0] == 'p');
    assert("conflicts"@[0] == 'c' && "revision"@[0] == 'r' && "status"@[0] == 's');
    assert("sourceChanged"@[1] == 'o' && "sourcePath"@[1] == 'o');
    assert("sourceChanged"@[0] == 's' && "newlyInherited"@[0] == 'n');
    assert("initialized"@[0] == 'i' && "hasState"@[0] == 'h' && "sourcePath"@[0] == 's');
    assert("ok"@[0] == 'o' && "backend"@[0] == 'b' && "issues"@[0] == 'i');
}

/// Where a value comes from is told by name: `unknownProfile` for a profile that the source does
/// not have, `uninherit` for a setting that the profile refuses, `profileOverride` for one of its
/// own, `base` for one of the base, and `vscodeDefault` for any other.
pub proof fn law_telling_origins(
    source: &Source,
    profile: &str,
    setting: &str,
    answer: JsonValue,
)
    requires
        call_ensures(origin, (source, profile, setting), answer),
    ensures
        tells_origin(source, profile@, setting@, answer@),
{
    lemma_field_names();
    lemma_tells_origin(source, profile@, setting@);
}

/// What is told of where a value comes from.
pub open spec fn tells_origin(
    source: &Source,
    profile: Seq<char>,
    setting: Seq<char>,
    answer: Json,
) -> bool {
    if !source@.profiles.contains_key(profile) {
        &&& fields(answer, set!["origin"@])
        &&& says(answer, "origin"@, Json::Text("unknownProfile"@))
    } else {
        &&& fields(answer, set!["profile"@, "setting"@, "origin"@])
        &&& says(answer, "profile"@, Json::Text(profile))
        &&& says(answer, "setting"@, Json::Text(setting))
        &&& says(
            answer,
            "origin"@,
            Json::Text(
                if refused(source@, profile, setting) {
                    "uninherit"@
                } else if own(source@, profile, setting) is Some {
                    "profileOverride"@
                } else if based(source@, setting) is Some {
                    "base"@
                } else {
                    "vscodeDefault"@
                },
            ),
        )
    }
}

proof fn lemma_tells_origin(source: &Source, profile: Seq<char>, setting: Seq<char>)
    ensures
        tells_origin(
            source,
            profile,
            setting,
            crate::answers::origin_json(source@, profile, setting),
        ),
{
    lemma_field_names();
    let answer = crate::answers::origin_json(source@, profile, setting);
    if source@.profiles.contains_key(profile) {
        assert(answer->Object_0.dom() =~= set!["profile"@, "setting"@, "origin"@]);
    } else {
        assert(answer->Object_0.dom() =~= set!["origin"@]);
    }
}

/// A request for an origin is answered so, and refused by the name of the parameter that it lacks.
pub proof fn law_answering_origins(
    source: &Source,
    params: &JsonValue,
    result: Result<JsonValue, ParamError>,
    profile: Seq<char>,
    setting: Seq<char>,
)
    requires
        call_ensures(answer_origin, (source, params), result),
    ensures
        says(params@, "profile"@, Json::Text(profile)) && says(
            params@,
            "setting"@,
            Json::Text(setting),
        ) ==> (result matches Ok(answer) && tells_origin(source, profile, setting, answer@)),
        says_no_text(params@, "profile"@) ==> (result matches Err(ParamError::Missing(name))
            && name@ == "profile"@),
        says(params@, "profile"@, Json::Text(profile)) && says_no_text(params@, "setting"@) ==> (
        result matches Err(ParamError::Missing(name)) && name@ == "setting"@),
{
    lemma_tells_origin(source, profile, setting);
    if let Some(text) = crate::protocol::text_param(params@, "profile"@) {
        assert(says(params@, "profile"@, Json::Text(text)));
    }
    if let Some(text) = crate::protocol::text_param(params@, "setting"@) {
        assert(says(params@, "setting"@, Json::Text(text)));
    }
}

/// Conflicts are told one by one, each with its three values, of which a missing one is null.
pub proof fn law_telling_conflicts(
    conflicts: &Vec<Conflict>,
    answer: JsonValue,
    i: int,
) -> (items: Seq<Json>)
    requires
        call_ensures(answer_conflicts, (conflicts,), answer),
    ensures
        fields(answer@, set!["status"@, "conflicts"@]),
        says(answer@, "status"@, Json::Text("conflict"@)),
        says(answer@, "conflicts"@, Json::List(items)),
        items.len() == conflicts@.len(),
        0 <= i < conflicts@.len() ==> {
            let conflict = conflicts@[i];
            &&& fields(items[i], set!["profile"@, "setting"@, "previous"@, "source"@, "actual"@])
            &&& says(items[i], "profile"@, Json::Text(conflict.profile@))
            &&& says(items[i], "setting"@, Json::Text(conflict.setting@))
            &&& says(items[i], "previous"@, or_nothing(option_view(conflict.previous)))
            &&& says(items[i], "source"@, or_nothing(option_view(conflict.source)))
            &&& says(items[i], "actual"@, or_nothing(option_view(conflict.actual)))
        },
{
    lemma_field_names();
    let items = crate::answers::conflicts_json(conflict_views(conflicts@));
    assert(answer@->Object_0.dom() =~= set!["status"@, "conflicts"@]);
    if 0 <= i < conflicts@.len() {
        assert(conflict_views(conflicts@)[i] == conflicts@[i]@);
        assert(items[i]->Object_0.dom()
            =~= set!["profile"@, "setting"@, "previous"@, "source"@, "actual"@]);
    }
    items
}

/// What is told of a state of affairs has these fields with these values, and no others.
pub proof fn law_telling_what_was_done(
    a: bool,
    b: bool,
    path: &str,
    n: u64,
    status: JsonValue,
    lies: JsonValue,
    imported: JsonValue,
    edited: JsonValue,
    built: JsonValue,
    unchanged: JsonValue,
    reconciled: JsonValue,
    resolved: JsonValue,
)
    requires
        call_ensures(answer_status, (a, b, path), status),
        call_ensures(answer_path, (path,), lies),
        call_ensures(answer_imported, (n,), imported),
        call_ensures(answer_edited, (), edited),
        call_ensures(answer_built, (path, n), built),
        call_ensures(answer_unchanged, (n,), unchanged),
        call_ensures(answer_reconciled, (n, a), reconciled),
        call_ensures(answer_resolved, (n,), resolved),
    ensures
        fields(status@, set!["initialized"@, "hasState"@, "sourcePath"@]),
        says(status@, "initialized"@, Json::Bool(a)),
        says(status@, "hasState"@, Json::Bool(b)),
        says(status@, "sourcePath"@, Json::Text(path@)),
        fields(lies@, set!["path"@]),
        says(lies@, "path"@, Json::Text(path@)),
        fields(imported@, set!["profiles"@]),
        says(imported@, "profiles"@, Json::Number(Num::PosInt(n))),
        fields(edited@, set!["ok"@]),
        says(edited@, "ok"@, Json::Bool(true)),
        fields(built@, set!["status"@, "sourcePath"@, "newlyInherited"@]),
        says(built@, "status"@, Json::Text("built"@)),
        says(built@, "sourcePath"@, Json::Text(path@)),
        says(built@, "newlyInherited"@, Json::Number(Num::PosInt(n))),
        fields(unchanged@, set!["status"@, "revision"@]),
        says(unchanged@, "status"@, Json::Text("unchanged"@)),
        says(unchanged@, "revision"@, Json::Number(Num::PosInt(n))),
        fields(reconciled@, set!["status"@, "revision"@, "sourceChanged"@]),
        says(reconciled@, "status"@, Json::Text("ok"@)),
        says(reconciled@, "revision"@, Json::Number(Num::PosInt(n))),
        says(reconciled@, "sourceChanged"@, Json::Bool(a)),
        fields(resolved@, set!["status"@, "revision"@]),
        says(resolved@, "status"@, Json::Text("resolved"@)),
        says(resolved@, "revision"@, Json::Number(Num::PosInt(n))),
{
    lemma_field_names();
    assert(status@->Object_0.dom() =~= set!["initialized"@, "hasState"@, "sourcePath"@]);
    assert(lies@->Object_0.dom() =~= set!["path"@]);
    assert(imported@->Object_0.dom() =~= set!["profiles"@]);
    assert(edited@->Object_0.dom() =~= set!["ok"@]);
    assert(built@->Object_0.dom() =~= set!["status"@, "sourcePath"@, "newlyInherited"@]);
    assert(unchanged@->Object_0.dom() =~= set!["status"@, "revision"@]);
    assert(reconciled@->Object_0.dom() =~= set!["status"@, "revision"@, "sourceChanged"@]);
    assert(resolved@->Object_0.dom() =~= set!["status"@, "revision"@]);
}

/// The doctor finds what is wrong and nothing else: what was said of VS Code's data, what was said
/// of its profiles or, where they could be listed, one issue for each that has the settings of
/// Default, and that the source is not there or what was said of it. All is well where there is
/// no issue. What can be told of VS Code's data and of the source is told.
pub proof fn law_finding_what_is_wrong(
    backend: Result<JsonValue, String>,
    profiles: Result<Vec<Profile>, String>,
    source: SourceHealth,
    found: Doctor,
    n: int,
)
    requires
        call_ensures(doctor, (backend, profiles, source), found),
    ensures
        found.ok <==> found.issues@.len() == 0,
        found.ok <==> backend is Ok && profiles is Ok && source is Sound && forall|i: int|
            0 <= i < profiles->Ok_0@.len() ==> !(
            #[trigger] profiles->Ok_0@[i]).uses_default_settings,
        found.backend is Some <==> backend is Ok,
        backend is Ok ==> found.backend->0@ == backend->Ok_0@,
        found.source is Some <==> source is Sound,
        source is Sound ==> found.source->0@ == source->Sound_0@,
        backend is Err ==> texts(found.issues@).contains(backend->Err_0@),
        profiles is Err ==> texts(found.issues@).contains(profiles->Err_0@),
        source is Missing ==> texts(found.issues@).contains("Strata is not initialized"@),
        source is Broken ==> texts(found.issues@).contains(source->Broken_0@),
        profiles is Ok && 0 <= n < profiles->Ok_0@.len()
            && profiles->Ok_0@[n].uses_default_settings ==> texts(found.issues@).contains(
            "profile '"@ + profiles->Ok_0@[n].name@
                + "' reuses Default settings and must be adopted explicitly"@,
        ),
        found.issues@.len() == (if backend is Ok {
            0int
        } else {
            1
        }) + (if profiles is Ok {
            shared(profiles->Ok_0@, profiles->Ok_0@.len() as int)
        } else {
            1
        }) + (if source is Sound {
            0int
        } else {
            1
        }),
{
    let first = crate::answers::failure(backend);
    let third: Seq<Seq<char>> = match source {
        SourceHealth::Missing => seq!["Strata is not initialized"@],
        SourceHealth::Sound(_) => Seq::empty(),
        SourceHealth::Broken(message) => seq![message@],
    };
    let second: Seq<Seq<char>> = match profiles {
        Ok(profiles) => shared_issues(profile_views(profiles@)),
        Err(message) => seq![message@],
    };
    let all = texts(found.issues@);
    assert(all == first + second + third);
    assert(all.len() == found.issues@.len());
    assert forall|i: int| 0 <= i < first.len() implies all.contains(#[trigger] first[i]) by {
        assert(all[i] == first[i]);
    }
    assert forall|i: int| 0 <= i < second.len() implies all.contains(#[trigger] second[i]) by {
        assert(all[first.len() + i] == second[i]);
    }
    assert forall|i: int| 0 <= i < third.len() implies all.contains(#[trigger] third[i]) by {
        assert(all[first.len() + second.len() + i] == third[i]);
    }
    if backend is Err {
        assert(first[0] == backend->Err_0@);
    }
    if !(source is Sound) {
        assert(all.contains(third[0]));
    }
    match profiles {
        Ok(list) => {
            lemma_shared(list@, list@.len() as int);
            let views = profile_views(list@);
            assert(views.take(list@.len() as int) =~= views);
            if 0 <= n < list@.len() && list@[n].uses_default_settings {
                lemma_shared_issue(list@, list@.len() as int, n);
                let issue = shared_issue(list@[n].name@);
                let i = choose|i: int| 0 <= i < second.len() && second[i] == issue;
                assert(all.contains(second[i]));
            }
        },
        Err(message) => {
            assert(second[0] == message@);
        },
    }
}

/// How many of the first profiles have the settings of Default.
pub open spec fn shared(profiles: Seq<Profile>, n: int) -> int
    decreases n,
{
    if n <= 0 {
        0
    } else {
        shared(profiles, n - 1) + if profiles[n - 1].uses_default_settings {
            1int
        } else {
            0
        }
    }
}

proof fn lemma_shared(profiles: Seq<Profile>, n: int)
    requires
        0 <= n <= profiles.len(),
    ensures
        shared_issues(profile_views(profiles).take(n)).len() == shared(profiles, n),
        shared(profiles, n) >= 0,
        shared(profiles, n) == 0 <==> forall|i: int|
            0 <= i < n ==> !(#[trigger] profiles[i]).uses_default_settings,
    decreases n,
{
    let views = profile_views(profiles);
    if n > 0 {
        lemma_shared(profiles, n - 1);
        assert(views.take(n).drop_last() =~= views.take(n - 1));
        assert(views.take(n).last() == profiles[n - 1]@);
    }
}

proof fn lemma_shared_issue(profiles: Seq<Profile>, n: int, i: int)
    requires
        0 <= i < n <= profiles.len(),
        profiles[i].uses_default_settings,
    ensures
        shared_issues(profile_views(profiles).take(n)).contains(shared_issue(profiles[i].name@)),
    decreases n,
{
    let views = profile_views(profiles);
    let issue = shared_issue(profiles[i].name@);
    assert(views.take(n).drop_last() =~= views.take(n - 1));
    assert(views.take(n).last() == profiles[n - 1]@);
    let all = shared_issues(views.take(n));
    let fewer = shared_issues(views.take(n - 1));
    if i < n - 1 {
        lemma_shared_issue(profiles, n - 1, i);
        let j = choose|j: int| 0 <= j < fewer.len() && fewer[j] == issue;
        assert(all[j] == issue);
    } else {
        assert(all[fewer.len() as int] == issue);
    }
}

/// What the doctor finds is told as it is.
pub proof fn law_telling_what_is_wrong(found: &Doctor, answer: JsonValue, i: int)
    requires
        call_ensures(Doctor::answer, (found,), answer),
    ensures
        fields(answer@, set!["ok"@, "backend"@, "source"@, "issues"@]),
        says(answer@, "ok"@, Json::Bool(found.ok)),
        says(answer@, "backend"@, or_nothing(option_view(found.backend))),
        found.source is Some ==> says(answer@, "source"@, Json::Text(found.source->0@)),
        found.source is None ==> says(answer@, "source"@, Json::Null),
        answer@->Object_0["issues"@] is List,
        answer@->Object_0["issues"@]->List_0.len() == found.issues@.len(),
        0 <= i < found.issues@.len() ==> answer@->Object_0["issues"@]->List_0[i] == Json::Text(
            found.issues@[i]@,
        ),
{
    lemma_field_names();
    assert(answer@->Object_0.dom() =~= set!["ok"@, "backend"@, "source"@, "issues"@]);
}

} // verus!
