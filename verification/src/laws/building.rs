//! Laws of building: a source is made of the settings that the profiles have.

use vstd::prelude::*;
use crate::inherit::compiled;
use crate::json::{same_json, Json, JsonValue, Settings};
use crate::laws::changes::{based, held, own, refused};
use crate::laws::edits::says;
use crate::laws::texts::law_cut_before_the_first;
use crate::migrate::{
    change_views, changes_at, migration_preview, newly_inherited, ChangeView, MigrationChange,
    MigrationPreview,
};
use crate::node::texts;
use crate::place::{before, ranked, Place};
use crate::protocol::{
    has_known_prefix, known_prefix, known_setting_prefixes, prefixes_of, sanitize_prefixes,
    ParamError,
};
use crate::reconcile::{answers, ProfilesMap};
use crate::service::{build_preview, state_after_build};
use crate::source::{SourceView, StateSnapshot};
use crate::table::{Names, Table};
use crate::text::{precedes, trimmed};

verus! {

/// A setting has a known prefix where what stands before the first dot of its name is known, or
/// the whole name, where it has no dot.
pub proof fn law_known_prefixes(prefixes: Set<Seq<char>>, prefix: Seq<char>, rest: Seq<char>)
    requires
        !prefix.contains('.'),
    ensures
        known_prefix(prefixes, prefix) <==> prefixes.contains(prefix),
        known_prefix(prefixes, prefix + "."@ + rest) <==> prefixes.contains(prefix),
{
    reveal_strlit(".");
    law_cut_before_the_first(prefix, '.', rest);
    assert(prefix + "."@ + rest =~= prefix.push('.') + rest);
}

/// Asking whether a setting has a known prefix is answered so.
pub proof fn law_asking_for_a_prefix(
    prefixes: &Names,
    setting: &str,
    known: bool,
    prefix: Seq<char>,
    rest: Seq<char>,
)
    requires
        call_ensures(has_known_prefix, (prefixes, setting), known),
        !prefix.contains('.'),
    ensures
        setting@ == prefix ==> known == prefixes@.contains(prefix),
        setting@ == prefix + "."@ + rest ==> known == prefixes@.contains(prefix),
        known == known_prefix(prefixes@, setting@),
{
    law_known_prefixes(prefixes@, prefix, rest);
}

/// The prefixes among texts are the texts without the white space around them, but for those of
/// which nothing is left and those with a dot.
pub proof fn law_prefixes_among_texts(values: &Vec<String>, prefixes: Names, prefix: Seq<char>)
    requires
        call_ensures(sanitize_prefixes, (values,), prefixes),
    ensures
        prefixes@.contains(prefix) <==> prefix.len() > 0 && !prefix.contains('.') && exists|i: int|
            0 <= i < values@.len() && trimmed((#[trigger] values@[i])@) == prefix,
{
    let row = texts(values@);
    assert forall|i: int| 0 <= i < row.len() implies #[trigger] row[i] == values@[i]@ by {}
    if prefixes@.contains(prefix) {
        let i = choose|i: int|
            0 <= i < row.len() && crate::protocol::is_prefix_text(#[trigger] row[i]) && trimmed(
                row[i],
            ) == prefix;
        assert(trimmed(values@[i]@) == prefix);
    }
    if prefix.len() > 0 && !prefix.contains('.') && exists|i: int|
        0 <= i < values@.len() && trimmed((#[trigger] values@[i])@) == prefix {
        let i = choose|i: int|
            0 <= i < values@.len() && trimmed((#[trigger] values@[i])@) == prefix;
        assert(row[i] == values@[i]@);
    }
}

/// The known prefixes of a request are those among the texts of a list. A request without the
/// list is refused, and so is one whose list holds anything but texts.
pub proof fn law_prefixes_of_a_request(
    params: &JsonValue,
    result: Result<Names, ParamError>,
    items: Seq<Json>,
    prefix: Seq<char>,
)
    requires
        call_ensures(known_setting_prefixes, (params,), result),
    ensures
        (forall|list: Seq<Json>| !(#[trigger] says(
            params@,
            "knownSettingPrefixes"@,
            Json::List(list),
        ))) ==> (result matches Err(ParamError::Required(name)) && name@
            == "knownSettingPrefixes"@),
        says(params@, "knownSettingPrefixes"@, Json::List(items)) && (exists|i: int|
            0 <= i < items.len() && !(#[trigger] items[i] is Text)) ==> result matches Err(
            ParamError::PrefixesNotTexts,
        ),
        says(params@, "knownSettingPrefixes"@, Json::List(items)) && (forall|i: int|
            0 <= i < items.len() ==> #[trigger] items[i] is Text) ==> (result matches Ok(prefixes)
            && (prefixes@.contains(prefix) <==> prefix.len() > 0 && !prefix.contains('.')
            && exists|i: int|
            0 <= i < items.len() && trimmed((#[trigger] items[i])->Text_0) == prefix)),
{
    let name = "knownSettingPrefixes"@;
    if forall|list: Seq<Json>| !(#[trigger] says(params@, name, Json::List(list))) {
        if let Some(Json::List(list)) = crate::registry::member_of(params@, name) {
            assert(says(params@, name, Json::List(list)));
        }
    }
    if says(params@, name, Json::List(items)) {
        let list = Json::List(items);
        assert(crate::registry::member_of(params@, name) == Some(list));
        if exists|i: int| 0 <= i < items.len() && !(#[trigger] items[i] is Text) {
            let i = choose|i: int| 0 <= i < items.len() && !(#[trigger] items[i] is Text);
            assert(!(list->List_0[i] is Text));
        } else {
            let row = crate::protocol::list_texts(list);
            assert forall|i: int| 0 <= i < row.len() implies #[trigger] row[i]
                == items[i]->Text_0 by {}
            let found = prefixes_of(row);
            if found.contains(prefix) {
                let i = choose|i: int|
                    0 <= i < row.len() && crate::protocol::is_prefix_text(#[trigger] row[i])
                        && trimmed(row[i]) == prefix;
                assert(trimmed(items[i]->Text_0) == prefix);
            }
            if prefix.len() > 0 && !prefix.contains('.') && exists|i: int|
                0 <= i < items.len() && trimmed((#[trigger] items[i])->Text_0) == prefix {
                let i = choose|i: int|
                    0 <= i < items.len() && trimmed((#[trigger] items[i])->Text_0) == prefix;
                assert(row[i] == items[i]->Text_0);
            }
        }
    }
}

/// What a source is made of: `in_base` says whether a setting of Default belongs to the base.
/// The base has what Default has of the settings that belong to it. A profile is there where VS
/// Code has it, and Default always. Default has the rest of its settings as its own. Any other
/// profile has as its own what the base does not have or has otherwise, and refuses what the base
/// has and it does not.
pub open spec fn builds(
    actual: ProfilesMap,
    in_base: bool,
    source: SourceView,
    profile: Seq<char>,
    setting: Seq<char>,
) -> bool {
    let there = held(actual, profile, setting);
    let base = if in_base {
        held(actual, "Default"@, setting)
    } else {
        None
    };
    &&& source.schema is None
    &&& source.version == 1
    &&& based(source, setting) == base
    &&& source.profiles.contains_key(profile) <==> actual.contains_key(profile) || profile
        == "Default"@
    &&& own(source, profile, setting) == if there is None || (base is Some && (profile
        == "Default"@ || same_json(there->0, base->0))) {
        None
    } else {
        there
    }
    &&& refused(source, profile, setting) <==> actual.contains_key(profile) && profile
        != "Default"@ && base is Some && there is None
}

/// What a build tells of: each setting of the base that a profile other than Default does not
/// have, with the value of the base, once and in the order of the names.
pub open spec fn tells_new(
    actual: ProfilesMap,
    source: SourceView,
    changes: Seq<MigrationChange>,
) -> bool {
    &&& forall|profile: Seq<char>, setting: Seq<char>|
        #![trigger refused(source, profile, setting)]
        refused(source, profile, setting) <==> exists|i: int|
            0 <= i < changes.len() && (#[trigger] changes[i]).profile@ == profile
                && changes[i].setting@ == setting
    &&& forall|i: int|
        #![trigger changes[i]]
        0 <= i < changes.len() ==> based(source, changes[i].setting@) == Some(
            changes[i].inherited_value@,
        )
    &&& forall|i: int, j: int|
        #![trigger changes[i], changes[j]]
        0 <= i < j < changes.len() ==> precedes(changes[i].profile@, changes[j].profile@) || (
        changes[i].profile@ == changes[j].profile@ && precedes(
            changes[i].setting@,
            changes[j].setting@,
        ))
}

proof fn lemma_tells_new(
    actual: ProfilesMap,
    source: SourceView,
    changes: Seq<MigrationChange>,
    places: Seq<Place>,
)
    requires
        ranked(places, newly_inherited(actual, source.base)),
        change_views(changes) == changes_at(source.base, places),
        forall|profile: Seq<char>, setting: Seq<char>| #[trigger]
            refused(source, profile, setting) <==> actual.contains_key(profile) && profile
                != "Default"@ && source.base.contains_key(setting) && held(
                actual,
                profile,
                setting,
            ) is None,
    ensures
        tells_new(actual, source, changes),
{
    let set = newly_inherited(actual, source.base);
    assert(change_views(changes).len() == changes.len());
    assert forall|i: int|
        #![trigger changes[i]]
        0 <= i < changes.len() implies changes[i]@ == (ChangeView {
        place: places[i],
        inherited_value: source.base[places[i].setting],
    }) && changes[i].profile@ == places[i].profile && changes[i].setting@ == places[i].setting
        && places.contains(places[i]) && set.contains(places[i]) by {
        assert(change_views(changes)[i] == changes[i]@);
        assert(changes_at(source.base, places)[i] == change_views(changes)[i]);
        assert(places.contains(places[i]));
    }
    assert forall|profile: Seq<char>, setting: Seq<char>|
        #![trigger refused(source, profile, setting)]
        refused(source, profile, setting) <==> exists|i: int|
            0 <= i < changes.len() && (#[trigger] changes[i]).profile@ == profile
                && changes[i].setting@ == setting by {
        let place = Place { profile, setting };
        assert(set.contains(place) <==> places.contains(place));
        if refused(source, profile, setting) {
            assert(set.contains(place));
            let i = choose|i: int| 0 <= i < places.len() && places[i] == place;
            assert(changes[i].profile@ == profile);
        }
        if exists|i: int|
            0 <= i < changes.len() && (#[trigger] changes[i]).profile@ == profile
                && changes[i].setting@ == setting {
            let i = choose|i: int|
                0 <= i < changes.len() && (#[trigger] changes[i]).profile@ == profile
                    && changes[i].setting@ == setting;
            assert(places[i] == place);
        }
    }
    assert forall|i: int, j: int|
        #![trigger changes[i], changes[j]]
        0 <= i < j < changes.len() implies precedes(changes[i].profile@, changes[j].profile@) || (
    changes[i].profile@ == changes[j].profile@ && precedes(
        changes[i].setting@,
        changes[j].setting@,
    )) by {
        assert(before(places[i], places[j]));
    }
}

/// Building by the known prefixes makes the source of the settings that the profiles have, where
/// the base has the settings of Default with a known prefix.
pub proof fn law_building(
    actual: &Table<Settings>,
    prefixes: &Names,
    preview: MigrationPreview,
    profile: Seq<char>,
    setting: Seq<char>,
)
    requires
        call_ensures(build_preview, (actual, prefixes), preview),
    ensures
        builds(
            actual.deep_view(),
            known_prefix(prefixes@, setting),
            preview.source@,
            profile,
            setting,
        ),
        tells_new(actual.deep_view(), preview.source@, preview.newly_inherited@),
{
    let there = actual.deep_view();
    let source = preview.source@;
    let places = choose|places: Seq<Place>|
        #![trigger ranked(places, newly_inherited(there, source.base))]
        ranked(places, newly_inherited(there, source.base)) && change_views(
            preview.newly_inherited@,
        ) == changes_at(source.base, places);
    lemma_tells_new(there, source, preview.newly_inherited@, places);
}

/// A preview makes the source of the settings that the profiles have, where `in_base` is an
/// answer on whether a setting of Default belongs to the base.
pub proof fn law_previewing<F: Fn(&str) -> bool>(
    actual: &Table<Settings>,
    is_base_setting: F,
    preview: MigrationPreview,
    profile: Seq<char>,
    setting: Seq<char>,
) -> (in_base: bool)
    requires
        call_ensures(migration_preview::<F>, (actual, is_base_setting), preview),
    ensures
        held(actual.deep_view(), "Default"@, setting) is Some ==> exists|name: &str|
            name@ == setting && #[trigger] call_ensures(is_base_setting, (name,), in_base),
        builds(actual.deep_view(), in_base, preview.source@, profile, setting),
        tells_new(actual.deep_view(), preview.source@, preview.newly_inherited@),
{
    let there = actual.deep_view();
    let source = preview.source@;
    let places = choose|places: Seq<Place>|
        #![trigger ranked(places, newly_inherited(there, source.base))]
        ranked(places, newly_inherited(there, source.base)) && change_views(
            preview.newly_inherited@,
        ) == changes_at(source.base, places);
    lemma_tells_new(there, source, preview.newly_inherited@, places);
    let in_base = source.base.contains_key(setting);
    if held(there, "Default"@, setting) is Some {
        assert(crate::migrate::default_settings(there).contains_key(setting));
        assert(answers(is_base_setting, setting, in_base));
    }
    in_base
}

/// A source that was built gives every profile what it had, but for objects that are laid over an
/// object of the base. What a profile had of a value that is no object it has again, and what it
/// did not have it does not get.
pub proof fn law_built_source_gives_back(
    actual: ProfilesMap,
    in_base: bool,
    source: SourceView,
    profile: Seq<char>,
    setting: Seq<char>,
)
    requires
        builds(actual, in_base, source, profile, setting),
        actual.contains_key(profile),
    ensures
        held(actual, profile, setting) is None ==> held(compiled(source), profile, setting) is None,
        held(actual, profile, setting) is Some && !(held(actual, profile, setting)->0 is Object)
            ==> held(compiled(source), profile, setting) is Some && same_json(
            held(compiled(source), profile, setting)->0,
            held(actual, profile, setting)->0,
        ),
        profile == "Default"@ ==> held(compiled(source), profile, setting) == held(
            actual,
            profile,
            setting,
        ),
{
    if let Some(value) = held(actual, profile, setting) {
        crate::json::law_same_json_reflexive(value);
        if let Some(base) = based(source, setting) {
            if same_json(value, base) {
                crate::json::law_same_json_symmetric(value, base);
            }
        }
    }
}

/// After a build nothing counts as written, and the known prefixes are remembered.
pub proof fn law_state_after_a_build(prefixes: Names, state: StateSnapshot)
    requires
        call_ensures(state_after_build, (prefixes,), state),
    ensures
        state.revision == 0,
        state.source_hash@.len() == 0,
        state.materialized@.dom() == Set::<Seq<char>>::empty(),
        state.materialized_hashes@.dom() == Set::<Seq<char>>::empty(),
        state.known_setting_prefixes@ == prefixes@,
{
    assert(state@.materialized.dom() =~= state.materialized@.dom());
    assert(state@.materialized_hashes.dom() =~= state.materialized_hashes@.dom());
}

} // verus!
