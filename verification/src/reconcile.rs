//! Reconciling: what changed in VS Code since the settings were last written
//! is taken over into the source, and what changed on both sides is reported.

use vstd::prelude::*;
use crate::inherit::{compile, compiled};
use crate::json::{at, law_same_json_reflexive, same_option, Json, JsonValue, Settings, SettingsMap};
use crate::mutation::{
    agree, apply_actual_mutation, default_profile, goes_to_base, law_mutation_keeps_sound,
    law_mutation_keeps_the_rest, law_mutation_reads_back, lemma_agree_resolved, mutated,
    resolved_at, shadowed, with_base,
};
use crate::place::{
    before, lemma_pass, lemma_pass_ends, lemma_pass_profile, lemma_ranked_distinct, passed, ranked,
    Place,
};
use crate::source::{obsolete_unset, sound_source, Source, SourceView, StateSnapshot};
use crate::table::{lists, Names, Table};
use crate::text::{blank, lemma_precedes_asymmetric, precedes};

verus! {

/// A setting that changed on both sides.
#[derive(Clone, Debug, PartialEq)]
pub struct Conflict {
    pub profile: String,
    pub setting: String,
    pub previous: Option<JsonValue>,
    pub source: Option<JsonValue>,
    pub actual: Option<JsonValue>,
}

/// A setting that changed on both sides.
#[verifier::ext_equal]
pub struct ConflictView {
    pub place: Place,
    pub previous: Option<Json>,
    pub source: Option<Json>,
    pub actual: Option<Json>,
}

/// What reconciling gives.
#[derive(Clone, Debug, PartialEq)]
pub struct ReconcileResult {
    pub source: Source,
    pub outputs: Table<Settings>,
    pub conflicts: Vec<Conflict>,
    pub changed_source: bool,
}

impl View for Conflict {
    type V = ConflictView;

    open spec fn view(&self) -> ConflictView {
        ConflictView {
            place: Place { profile: self.profile@, setting: self.setting@ },
            previous: self.previous.deep_view(),
            source: self.source.deep_view(),
            actual: self.actual.deep_view(),
        }
    }
}

/// The settings of every profile.
pub type ProfilesMap = Map<Seq<char>, SettingsMap>;

/// What a setting is in a profile.
pub open spec fn setting_at(profiles: ProfilesMap, place: Place) -> Option<Json> {
    match at(profiles, place.profile) {
        Some(settings) => at(settings, place.setting),
        None => None,
    }
}

/// The three sides that are held against each other: what was last written,
/// what the source gives now, and what VS Code has now.
#[verifier::ext_equal]
pub struct Sides {
    pub previous: ProfilesMap,
    pub source: ProfilesMap,
    pub actual: ProfilesMap,
}

/// Whether a setting changed in the source.
pub open spec fn source_changed(sides: Sides, place: Place) -> bool {
    !same_option(setting_at(sides.source, place), setting_at(sides.previous, place))
}

/// Whether a setting changed in VS Code.
pub open spec fn actual_changed(sides: Sides, place: Place) -> bool {
    !same_option(setting_at(sides.actual, place), setting_at(sides.previous, place))
}

/// Whether a setting changed on both sides, and not to the same value.
pub open spec fn clashes(sides: Sides, place: Place) -> bool {
    &&& source_changed(sides, place)
    &&& actual_changed(sides, place)
    &&& !same_option(setting_at(sides.source, place), setting_at(sides.actual, place))
}

/// Whether a setting changed in VS Code alone.
pub open spec fn drifts(sides: Sides, place: Place) -> bool {
    actual_changed(sides, place) && !source_changed(sides, place)
}

/// The settings that changed on both sides.
pub open spec fn clashing(sides: Sides) -> Set<Place> {
    Set::new(|place: Place| clashes(sides, place))
}

/// The settings that changed in VS Code alone.
pub open spec fn drifting(sides: Sides) -> Set<Place> {
    Set::new(|place: Place| drifts(sides, place))
}

/// The conflict that is reported of a setting.
pub open spec fn conflict_at(sides: Sides, place: Place) -> ConflictView {
    ConflictView {
        place,
        previous: setting_at(sides.previous, place),
        source: setting_at(sides.source, place),
        actual: setting_at(sides.actual, place),
    }
}

/// The conflicts of a row of settings.
pub open spec fn conflicts_at(sides: Sides, places: Seq<Place>) -> Seq<ConflictView> {
    Seq::new(places.len(), |i: int| conflict_at(sides, places[i]))
}

/// What conflicts are.
pub open spec fn conflict_views(conflicts: Seq<Conflict>) -> Seq<ConflictView> {
    Seq::new(conflicts.len(), |i: int| conflicts[i]@)
}

/// `answer` is an answer that `asked` may give on a setting.
pub open spec fn answers<F: Fn(&str) -> bool>(
    asked: F,
    setting: Seq<char>,
    answer: bool,
) -> bool {
    exists|name: &str| name@ == setting && #[trigger] call_ensures(asked, (name,), answer)
}

/// Each of the answers is one that `asked` may give on the setting of its place.
pub open spec fn answered<F: Fn(&str) -> bool>(
    asked: F,
    places: Seq<Place>,
    given: Seq<bool>,
) -> bool {
    &&& given.len() == places.len()
    &&& forall|i: int|
        #![trigger given[i]]
        0 <= i < places.len() ==> answers(asked, places[i].setting, given[i])
}

/// What becomes of a source when the changes of a row of settings are taken
/// over, one after the other.
pub open spec fn absorbed(
    source: SourceView,
    actual: ProfilesMap,
    places: Seq<Place>,
    given: Seq<bool>,
) -> SourceView
    decreases places.len(),
{
    if places.len() == 0 {
        source
    } else {
        let place = places.last();
        mutated(
            absorbed(source, actual, places.drop_last(), given.drop_last()),
            place.profile,
            place.setting,
            setting_at(actual, place),
            given.last(),
        )
    }
}

/// The sides of a source, a state and the settings of VS Code.
pub open spec fn sides_of(
    source: SourceView,
    previous: ProfilesMap,
    actual: ProfilesMap,
) -> Sides {
    Sides { previous, source: compiled(source), actual }
}

/// What reconciling gives when the changes of `places` are taken over with the
/// answers `given`.
pub open spec fn reconciled(
    source: SourceView,
    sides: Sides,
    places: Seq<Place>,
    given: Seq<bool>,
    after: SourceView,
) -> bool {
    &&& ranked(places, drifting(sides))
    &&& given.len() == places.len()
    &&& after == absorbed(source, sides.actual, places, given)
}

/// Takes a setting from the settings of a profile, which may not be there.
pub fn get_setting<'a>(settings: Option<&'a Settings>, setting: &str) -> (value: Option<&'a JsonValue>)
    ensures
        value is Some <==> settings is Some && settings->0@.contains_key(setting@),
        value is Some ==> *value->0 == settings->0@[setting@],
{
    match settings {
        Some(settings) => settings.get(setting),
        None => None,
    }
}

fn copy_value(value: Option<&JsonValue>) -> (copy: Option<JsonValue>)
    ensures
        copy.deep_view() == (match value {
            Some(value) => Some(value@),
            None => None,
        }),
{
    match value {
        Some(value) => Some(value.clone()),
        None => None,
    }
}

/// Whether two optional values are equal.
pub fn same_values(a: Option<&JsonValue>, b: Option<&JsonValue>) -> (same: bool)
    ensures
        same == same_option(
            match a {
                Some(value) => Some(value@),
                None => None,
            },
            match b {
                Some(value) => Some(value@),
                None => None,
            },
        ),
{
    match (a, b) {
        (Some(x), Some(y)) => x.same(y),
        (None, None) => true,
        _ => false,
    }
}

fn insert_names(names: &mut Names, settings: Option<&Settings>)
    ensures
        final(names)@ == old(names)@.union(
            match settings {
                Some(settings) => settings@.dom(),
                None => Set::empty(),
            },
        ),
{
    match settings {
        Some(settings) => {
            names.insert_names_of(settings);
        },
        None => {
            assert(names@ =~= names@.union(Set::empty()));
        },
    }
}

/// Reconciles a source with what VS Code has now: a setting that changed in
/// VS Code alone is taken over, one that changed on both sides is reported.
pub fn reconcile<F: Fn(&str) -> bool>(
    source: &Source,
    previous: &StateSnapshot,
    actual: &Table<Settings>,
    is_base_setting: F,
) -> (result: ReconcileResult)
    requires
        forall|name: &str| call_requires(is_base_setting, (name,)),
    ensures
        ({
            let sides = sides_of(
                source@,
                previous.materialized.deep_view(),
                actual.deep_view(),
            );
            &&& exists|places: Seq<Place>|
                #![trigger ranked(places, clashing(sides))]
                ranked(places, clashing(sides)) && conflict_views(result.conflicts@)
                    == conflicts_at(sides, places)
            &&& exists|places: Seq<Place>, given: Seq<bool>|
                #![trigger reconciled(source@, sides, places, given, result.source@)]
                reconciled(source@, sides, places, given, result.source@) && answered(
                    is_base_setting,
                    places,
                    given,
                )
            &&& result.changed_source == (drifting(sides) != Set::<Place>::empty())
        }),
        result.outputs.deep_view() == compiled(result.source@),
{
    let expected = compile(source);
    let mut next = source.clone();
    let mut conflicts: Vec<Conflict> = Vec::new();
    let mut changed_source = false;
    let mut profiles = Names::new();
    profiles.insert_names_of(&expected);
    profiles.insert_names_of(actual);
    profiles.insert_names_of(&previous.materialized);
    let profiles_len = profiles.len();
    let ghost names = profiles.names();
    let ghost sides = sides_of(source@, previous.materialized.deep_view(), actual.deep_view());
    let ghost mut clash: Seq<Place> = Seq::empty();
    let ghost mut drift: Seq<Place> = Seq::empty();
    let ghost mut given: Seq<bool> = Seq::empty();
    let ghost none: Seq<Seq<char>> = Seq::empty();
    proof {
        lemma_known_profiles(sides, profiles@);
        lemma_pass_ends(clashing(sides), names, profiles@, none);
        lemma_pass_ends(drifting(sides), names, profiles@, none);
        assert(conflict_views(conflicts@) =~= conflicts_at(sides, clash));
        assert(expected.deep_view() == sides.source);
    }
    let mut i: usize = 0;
    while i < profiles_len
        invariant
            i <= profiles_len,
            profiles_len == names.len(),
            names == profiles.names(),
            lists(names, profiles@),
            expected.deep_view() == sides.source,
            actual.deep_view() == sides.actual,
            previous.materialized.deep_view() == sides.previous,
            forall|name: &str| call_requires(is_base_setting, (name,)),
            ranked(clash, clashing(sides).intersect(passed(names, i as int, none, 0))),
            ranked(drift, drifting(sides).intersect(passed(names, i as int, none, 0))),
            conflict_views(conflicts@) == conflicts_at(sides, clash),
            answered(is_base_setting, drift, given),
            next@ == absorbed(source@, sides.actual, drift, given),
            changed_source == (drift.len() > 0),
        decreases profiles_len - i,
    {
        let profile = profiles.name(i);
        let old = previous.materialized.get(profile);
        let wanted = expected.get(profile);
        let observed = actual.get(profile);
        let mut keys = Names::new();
        insert_names(&mut keys, old);
        insert_names(&mut keys, wanted);
        insert_names(&mut keys, observed);
        let keys_len = keys.len();
        let ghost settings = keys.names();
        proof {
            assert(clashing(sides).intersect(passed(names, i as int, none, 0)) =~= clashing(
                sides,
            ).intersect(passed(names, i as int, settings, 0)));
            assert(drifting(sides).intersect(passed(names, i as int, none, 0)) =~= drifting(
                sides,
            ).intersect(passed(names, i as int, settings, 0)));
        }
        let mut j: usize = 0;
        while j < keys_len
            invariant
                i < profiles_len,
                profiles_len == names.len(),
                names == profiles.names(),
                lists(names, profiles@),
                profile@ == names[i as int],
                j <= keys_len,
                keys_len == settings.len(),
                settings == keys.names(),
                lists(settings, keys@),
                sides.previous == previous.materialized.deep_view(),
                sides.source == expected.deep_view(),
                sides.actual == actual.deep_view(),
                old is Some <==> previous.materialized@.contains_key(profile@),
                old is Some ==> *old->0 == previous.materialized@[profile@],
                wanted is Some <==> expected@.contains_key(profile@),
                wanted is Some ==> *wanted->0 == expected@[profile@],
                observed is Some <==> actual@.contains_key(profile@),
                observed is Some ==> *observed->0 == actual@[profile@],
                forall|name: &str| call_requires(is_base_setting, (name,)),
                ranked(clash, clashing(sides).intersect(passed(names, i as int, settings, j as int))),
                ranked(drift, drifting(sides).intersect(passed(names, i as int, settings, j as int))),
                conflict_views(conflicts@) == conflicts_at(sides, clash),
                answered(is_base_setting, drift, given),
                next@ == absorbed(source@, sides.actual, drift, given),
                changed_source == (drift.len() > 0),
            decreases keys_len - j,
        {
            let key = keys.name(j);
            let ghost place = Place { profile: profile@, setting: key@ };
            proof {
                lemma_pass(clash, clashing(sides), names, i as int, settings, j as int);
                lemma_pass(drift, drifting(sides), names, i as int, settings, j as int);
            }
            let before = get_setting(old, key);
            let source_value = get_setting(wanted, key);
            let actual_value = get_setting(observed, key);
            let source_differs = !same_values(source_value, before);
            let actual_differs = !same_values(actual_value, before);
            assert(source_differs == source_changed(sides, place));
            assert(actual_differs == actual_changed(sides, place));
            if source_differs && actual_differs && !same_values(source_value, actual_value) {
                let conflict = Conflict {
                    profile: profile.to_owned(),
                    setting: key.to_owned(),
                    previous: copy_value(before),
                    source: copy_value(source_value),
                    actual: copy_value(actual_value),
                };
                assert(conflict@ == conflict_at(sides, place));
                proof {
                    assert(conflict_views(conflicts@.push(conflict)) =~= conflict_views(
                        conflicts@,
                    ).push(conflict@));
                    assert(conflicts_at(sides, clash.push(place)) =~= conflicts_at(
                        sides,
                        clash,
                    ).push(conflict_at(sides, place)));
                    clash = clash.push(place);
                }
                conflicts.push(conflict);
            } else if actual_differs && !source_differs {
                let is_base = is_base_setting(key);
                apply_actual_mutation(
                    &mut next,
                    profile,
                    key,
                    copy_value(actual_value),
                    is_base,
                );
                changed_source = true;
                proof {
                    assert(answers(is_base_setting, place.setting, is_base));
                    lemma_absorbed_push(source@, sides.actual, drift, given, place, is_base);
                    let more = given.push(is_base);
                    assert forall|n: int|
                        #![trigger more[n]]
                        0 <= n < drift.push(place).len() implies answers(
                        is_base_setting,
                        drift.push(place)[n].setting,
                        more[n],
                    ) by {
                        if n < drift.len() {
                            assert(more[n] == given[n]);
                        }
                    }
                    drift = drift.push(place);
                    given = more;
                }
            }
            j += 1;
        }
        proof {
            lemma_known_settings(sides, names[i as int], keys@);
            lemma_pass_profile(clashing(sides), names, i as int, settings, keys@, none);
            lemma_pass_profile(drifting(sides), names, i as int, settings, keys@, none);
        }
        i += 1;
    }
    let outputs = compile(&next);
    proof {
        lemma_known_profiles(sides, profiles@);
        lemma_pass_ends(clashing(sides), names, profiles@, none);
        lemma_pass_ends(drifting(sides), names, profiles@, none);
        assert(ranked(clash, clashing(sides)));
        assert(reconciled(source@, sides, drift, given, next@));
        if drift.len() > 0 {
            assert(drift.contains(drift[0]));
            assert(drifting(sides).contains(drift[0]));
        } else {
            assert(drifting(sides) =~= Set::<Place>::empty());
        }
    }
    ReconcileResult { source: next, outputs, conflicts, changed_source }
}

proof fn lemma_known_profiles(sides: Sides, names: Set<Seq<char>>)
    requires
        sides.source.dom().union(sides.actual.dom()).union(sides.previous.dom()).subset_of(names),
    ensures
        forall|place: Place| #[trigger]
            clashing(sides).contains(place) ==> names.contains(place.profile),
        forall|place: Place| #[trigger]
            drifting(sides).contains(place) ==> names.contains(place.profile),
{
    assert forall|place: Place|
        clashes(sides, place) || drifts(sides, place) implies #[trigger] names.contains(
        place.profile,
    ) by {
        if !names.contains(place.profile) {
            let all = sides.source.dom().union(sides.actual.dom()).union(sides.previous.dom());
            assert(!all.contains(place.profile));
        }
    }
}

proof fn lemma_known_settings(sides: Sides, profile: Seq<char>, names: Set<Seq<char>>)
    requires
        forall|setting: Seq<char>|
            !(#[trigger] names.contains(setting)) ==> {
                let place = Place { profile, setting };
                &&& setting_at(sides.previous, place) is None
                &&& setting_at(sides.source, place) is None
                &&& setting_at(sides.actual, place) is None
            },
    ensures
        forall|place: Place| #[trigger]
            clashing(sides).contains(place) && place.profile == profile ==> names.contains(
                place.setting,
            ),
        forall|place: Place| #[trigger]
            drifting(sides).contains(place) && place.profile == profile ==> names.contains(
                place.setting,
            ),
{
    assert forall|place: Place|
        (clashes(sides, place) || drifts(sides, place)) && place.profile
            == profile implies #[trigger] names.contains(place.setting) by {
        if !names.contains(place.setting) {
            assert(place == Place { profile, setting: place.setting });
        }
    }
}

proof fn lemma_absorbed_push(
    source: SourceView,
    actual: ProfilesMap,
    places: Seq<Place>,
    given: Seq<bool>,
    place: Place,
    answer: bool,
)
    ensures
        absorbed(source, actual, places.push(place), given.push(answer)) == mutated(
            absorbed(source, actual, places, given),
            place.profile,
            place.setting,
            setting_at(actual, place),
            answer,
        ),
{
    assert(places.push(place).drop_last() =~= places);
    assert(given.push(answer).drop_last() =~= given);
}

/// Where nothing changed in VS Code, nothing is taken over and nothing is
/// reported: the source stays as it is.
pub proof fn law_quiet_without_changes(
    source: SourceView,
    sides: Sides,
    places: Seq<Place>,
    given: Seq<bool>,
    after: SourceView,
)
    requires
        forall|place: Place| !(#[trigger] actual_changed(sides, place)),
        reconciled(source, sides, places, given, after),
    ensures
        clashing(sides) == Set::<Place>::empty(),
        drifting(sides) == Set::<Place>::empty(),
        after == source,
{
    assert(clashing(sides) =~= Set::<Place>::empty());
    assert(drifting(sides) =~= Set::<Place>::empty());
    if places.len() > 0 {
        assert(places.contains(places[0]));
        assert(drifting(sides).contains(places[0]));
    }
}

/// The source counts as changed where some setting changed in VS Code alone, and stays as it is
/// otherwise. An answer is taken for each such setting, and for no other.
pub proof fn law_source_changes_by_drift(
    source: SourceView,
    sides: Sides,
    places: Seq<Place>,
    given: Seq<bool>,
    after: SourceView,
    changed_source: bool,
)
    requires
        reconciled(source, sides, places, given, after),
        changed_source == (drifting(sides) != Set::<Place>::empty()),
    ensures
        changed_source <==> exists|place: Place| #[trigger] drifts(sides, place),
        !changed_source ==> after == source && given.len() == 0,
        forall|place: Place| #[trigger] drifts(sides, place) <==> places.contains(place),
        given.len() == places.len(),
{
    let set = drifting(sides);
    assert forall|place: Place| #[trigger] drifts(sides, place) <==> places.contains(place) by {
        assert(set.contains(place) == drifts(sides, place));
    }
    if changed_source {
        assert(!(set =~= Set::<Place>::empty()));
        let place = choose|place: Place| set.contains(place);
        assert(drifts(sides, place));
    } else {
        assert forall|place: Place| !(#[trigger] drifts(sides, place)) by {
            assert(!set.contains(place));
        }
        if places.len() > 0 {
            assert(places.contains(places[0]));
            assert(drifts(sides, places[0]));
        }
    }
}

/// When VS Code has what the source gives, and that is what was last written,
/// then reconciling changes nothing.
pub proof fn law_fresh_outputs_are_quiet(
    source: SourceView,
    places: Seq<Place>,
    given: Seq<bool>,
    after: SourceView,
)
    requires
        reconciled(
            source,
            sides_of(source, compiled(source), compiled(source)),
            places,
            given,
            after,
        ),
    ensures
        clashing(sides_of(source, compiled(source), compiled(source))) == Set::<Place>::empty(),
        after == source,
{
    let sides = sides_of(source, compiled(source), compiled(source));
    assert forall|place: Place| !(#[trigger] actual_changed(sides, place)) by {
        if let Some(value) = setting_at(compiled(source), place) {
            law_same_json_reflexive(value);
        }
    }
    law_quiet_without_changes(source, sides, places, given, after);
}

/// A setting that changed on both sides is either reported, or it has the same
/// value on both; in neither case is it taken over.
pub proof fn law_conflicts_are_reported(sides: Sides, place: Place)
    requires
        source_changed(sides, place),
        actual_changed(sides, place),
    ensures
        clashing(sides).contains(place) <==> !same_option(
            setting_at(sides.source, place),
            setting_at(sides.actual, place),
        ),
        !drifting(sides).contains(place),
{
}

/// A setting that changed on one side only is not reported. It is taken over
/// exactly when the side is VS Code.
pub proof fn law_one_sided_changes_do_not_clash(sides: Sides, place: Place)
    requires
        source_changed(sides, place) != actual_changed(sides, place),
    ensures
        !clashing(sides).contains(place),
        drifting(sides).contains(place) <==> actual_changed(sides, place),
{
}

/// Whether the changes of a row of settings leave the base's value of a setting
/// to a profile as it was: the profile is Default, or no change of the setting
/// in Default goes to the base.
pub open spec fn settled(places: Seq<Place>, given: Seq<bool>, place: Place) -> bool {
    place.profile == default_profile() || forall|i: int|
        0 <= i < places.len() && places[i].profile == default_profile() && places[i].setting
            == place.setting ==> !(#[trigger] given[i])
}

/// Reconciling merges changes that do not touch each other. A setting that was
/// not taken over keeps the value that the source gave it; one that was has the
/// value of VS Code, unless the base shadows the change. What goes to the base
/// is for the other profiles the base's business: those are left out.
pub proof fn law_reconciled_value(
    source: SourceView,
    sides: Sides,
    places: Seq<Place>,
    given: Seq<bool>,
    after: SourceView,
    place: Place,
)
    requires
        reconciled(source, sides, places, given, after),
        settled(places, given, place),
    ensures
        !drifting(sides).contains(place) ==> at(
            resolved_at(after, place.profile),
            place.setting,
        ) == at(resolved_at(source, place.profile), place.setting),
        forall|i: int|
            #![trigger places[i]]
            0 <= i < places.len() && places[i] == place && !shadowed(
                source,
                place.profile,
                place.setting,
                setting_at(sides.actual, place),
                given[i],
            ) ==> same_option(
                at(resolved_at(after, place.profile), place.setting),
                setting_at(sides.actual, place),
            ),
{
    if !drifting(sides).contains(place) {
        assert forall|i: int| 0 <= i < places.len() implies #[trigger] places[i] != place by {
            assert(places.contains(places[i]));
        }
        lemma_absorbed_elsewhere(source, sides.actual, places, given, place);
        lemma_agree_resolved(source, after, place.profile, place.setting);
    }
    assert forall|i: int|
        #![trigger places[i]]
        0 <= i < places.len() && places[i] == place && !shadowed(
            source,
            place.profile,
            place.setting,
            setting_at(sides.actual, place),
            given[i],
        ) implies same_option(
        at(resolved_at(after, place.profile), place.setting),
        setting_at(sides.actual, place),
    ) by {
        assert forall|j: int| 0 <= j < places.len() && j != i implies #[trigger] places[j]
            != place by {
            if places[j] == place {
                lemma_ranked_distinct(places, drifting(sides), i, j);
            }
        }
        lemma_absorbed_at(source, sides.actual, places, given, place, i);
    }
}

/// A sound source stays sound when changes are taken over, where no profile among them has a
/// blank name and no setting is `$unset`.
pub proof fn law_absorbed_is_sound(
    source: SourceView,
    actual: ProfilesMap,
    places: Seq<Place>,
    given: Seq<bool>,
)
    requires
        sound_source(source),
        forall|i: int|
            0 <= i < places.len() ==> !blank((#[trigger] places[i]).profile) && places[i].setting
                != obsolete_unset(),
    ensures
        sound_source(absorbed(source, actual, places, given)),
    decreases places.len(),
{
    if places.len() > 0 {
        let fewer = places.drop_last();
        let last = places.last();
        assert forall|i: int| 0 <= i < fewer.len() implies !blank((#[trigger] fewer[i]).profile)
            && fewer[i].setting != obsolete_unset() by {
            assert(fewer[i] == places[i]);
        }
        law_absorbed_is_sound(source, actual, fewer, given.drop_last());
        assert(places[places.len() - 1] == last);
        law_mutation_keeps_sound(
            absorbed(source, actual, fewer, given.drop_last()),
            last.profile,
            last.setting,
            setting_at(actual, last),
            given.last(),
        );
    }
}

/// A source whose base has a setting as VS Code has it.
pub open spec fn rebased(source: SourceView, setting: Seq<char>, value: Option<Json>) -> SourceView {
    SourceView { base: with_base(source.base, setting, value), ..source }
}

/// Where a change in Default went to the base, every other profile has the setting as its own
/// part of the source gives it over the new base, if it was not taken over there. If it was,
/// and the profile comes after Default, it has the value of VS Code, unless the new base
/// shadows it. Of a profile that comes before Default nothing is said where both changed: its
/// change is taken over while the base is still the old one.
pub proof fn law_reconciled_over_new_base(
    source: SourceView,
    sides: Sides,
    places: Seq<Place>,
    given: Seq<bool>,
    after: SourceView,
    place: Place,
    i: int,
)
    requires
        reconciled(source, sides, places, given, after),
        place.profile != default_profile(),
        0 <= i < places.len(),
        places[i] == (Place { profile: default_profile(), setting: place.setting }),
        given[i],
    ensures
        ({
            let new = rebased(source, place.setting, setting_at(sides.actual, places[i]));
            &&& !drifting(sides).contains(place) ==> at(
                resolved_at(after, place.profile),
                place.setting,
            ) == at(resolved_at(new, place.profile), place.setting)
            &&& forall|j: int|
                #![trigger places[j]]
                0 <= j < places.len() && places[j] == place && precedes(
                    default_profile(),
                    place.profile,
                ) && !shadowed(
                    new,
                    place.profile,
                    place.setting,
                    setting_at(sides.actual, place),
                    given[j],
                ) ==> same_option(
                    at(resolved_at(after, place.profile), place.setting),
                    setting_at(sides.actual, place),
                )
        }),
{
    let base_place = places[i];
    let new = rebased(source, place.setting, setting_at(sides.actual, base_place));
    assert forall|k: int| 0 <= k < places.len() && k != i implies #[trigger] places[k]
        != base_place by {
        if places[k] == base_place {
            lemma_ranked_distinct(places, drifting(sides), i, k);
        }
    }
    if !drifting(sides).contains(place) {
        assert forall|k: int| 0 <= k < places.len() implies #[trigger] places[k] != place by {
            assert(places.contains(places[k]));
        }
        lemma_absorbed_rebased(source, sides.actual, places, given, place, i);
        lemma_agree_resolved(new, after, place.profile, place.setting);
    }
    assert forall|j: int|
        #![trigger places[j]]
        0 <= j < places.len() && places[j] == place && precedes(
            default_profile(),
            place.profile,
        ) && !shadowed(
            new,
            place.profile,
            place.setting,
            setting_at(sides.actual, place),
            given[j],
        ) implies same_option(
        at(resolved_at(after, place.profile), place.setting),
        setting_at(sides.actual, place),
    ) by {
        assert forall|k: int| 0 <= k < places.len() && k != j implies #[trigger] places[k]
            != place by {
            if places[k] == place {
                lemma_ranked_distinct(places, drifting(sides), j, k);
            }
        }
        assert(i < j) by {
            if j < i {
                assert(before(places[j], places[i]));
                lemma_precedes_asymmetric(default_profile(), place.profile);
            }
        }
        lemma_absorbed_after_base(source, sides.actual, places, given, place, i, j);
    }
}

/// A setting that was not taken over in a profile is as if the base had always had the value
/// that was taken over into it.
proof fn lemma_absorbed_rebased(
    source: SourceView,
    actual: ProfilesMap,
    places: Seq<Place>,
    given: Seq<bool>,
    place: Place,
    i: int,
)
    requires
        given.len() == places.len(),
        place.profile != default_profile(),
        0 <= i < places.len(),
        places[i] == (Place { profile: default_profile(), setting: place.setting }),
        given[i],
        forall|k: int| 0 <= k < places.len() ==> #[trigger] places[k] != place,
        forall|k: int| 0 <= k < places.len() && k != i ==> #[trigger] places[k] != places[i],
    ensures
        agree(
            rebased(source, place.setting, setting_at(actual, places[i])),
            absorbed(source, actual, places, given),
            place.profile,
            place.setting,
        ),
    decreases places.len(),
{
    let fewer = places.drop_last();
    let earlier = given.drop_last();
    let last = places.last();
    let middle = absorbed(source, actual, fewer, earlier);
    assert forall|k: int| 0 <= k < fewer.len() implies #[trigger] fewer[k] != place by {
        assert(places[k] != place);
    }
    if i == places.len() - 1 {
        assert(settled(fewer, earlier, place)) by {
            assert forall|k: int|
                0 <= k < fewer.len() && fewer[k].profile == default_profile() && fewer[k].setting
                    == place.setting implies !(#[trigger] earlier[k]) by {
                assert(places[k] != places[i]);
                assert(fewer[k] == places[k]);
            }
        }
        lemma_absorbed_elsewhere(source, actual, fewer, earlier, place);
    } else {
        assert(fewer[i] == places[i]);
        assert(earlier[i] == given[i]);
        assert forall|k: int| 0 <= k < fewer.len() && k != i implies #[trigger] fewer[k]
            != fewer[i] by {
            assert(places[k] != places[i]);
        }
        lemma_absorbed_rebased(source, actual, fewer, earlier, place, i);
        assert(places[places.len() - 1] != place);
        assert(places[places.len() - 1] != places[i]);
        assert(!(goes_to_base(last.profile, given.last()) && last.setting == place.setting));
        law_mutation_keeps_the_rest(
            middle,
            last.profile,
            last.setting,
            setting_at(actual, last),
            given.last(),
            place.profile,
            place.setting,
        );
    }
}

/// A setting that is taken over in a profile after the base got its value has the value of VS
/// Code.
proof fn lemma_absorbed_after_base(
    source: SourceView,
    actual: ProfilesMap,
    places: Seq<Place>,
    given: Seq<bool>,
    place: Place,
    i: int,
    j: int,
)
    requires
        given.len() == places.len(),
        place.profile != default_profile(),
        0 <= i < j < places.len(),
        places[i] == (Place { profile: default_profile(), setting: place.setting }),
        given[i],
        places[j] == place,
        forall|k: int| 0 <= k < places.len() && k != j ==> #[trigger] places[k] != place,
        forall|k: int| 0 <= k < places.len() && k != i ==> #[trigger] places[k] != places[i],
        !shadowed(
            rebased(source, place.setting, setting_at(actual, places[i])),
            place.profile,
            place.setting,
            setting_at(actual, place),
            given[j],
        ),
    ensures
        same_option(
            at(
                resolved_at(absorbed(source, actual, places, given), place.profile),
                place.setting,
            ),
            setting_at(actual, place),
        ),
    decreases places.len(),
{
    let fewer = places.drop_last();
    let earlier = given.drop_last();
    let last = places.last();
    let middle = absorbed(source, actual, fewer, earlier);
    assert(fewer[i] == places[i]);
    assert(earlier[i] == given[i]);
    assert forall|k: int| 0 <= k < fewer.len() && k != i implies #[trigger] fewer[k]
        != fewer[i] by {
        assert(places[k] != places[i]);
    }
    if j == places.len() - 1 {
        assert forall|k: int| 0 <= k < fewer.len() implies #[trigger] fewer[k] != place by {
            assert(places[k] != place);
        }
        lemma_absorbed_rebased(source, actual, fewer, earlier, place, i);
        let new = rebased(source, place.setting, setting_at(actual, places[i]));
        assert(agree(new, middle, place.profile, place.setting));
        assert(new.base.contains_key(place.setting) == middle.base.contains_key(place.setting));
        law_mutation_reads_back(
            middle,
            place.profile,
            place.setting,
            setting_at(actual, place),
            given.last(),
        );
    } else {
        assert(fewer[j] == place);
        assert(earlier[j] == given[j]);
        assert forall|k: int| 0 <= k < fewer.len() && k != j implies #[trigger] fewer[k]
            != place by {
            assert(places[k] != place);
        }
        lemma_absorbed_after_base(source, actual, fewer, earlier, place, i, j);
        assert(places[places.len() - 1] != place);
        assert(places[places.len() - 1] != places[i]);
        law_mutation_keeps_the_rest(
            middle,
            last.profile,
            last.setting,
            setting_at(actual, last),
            given.last(),
            place.profile,
            place.setting,
        );
    }
}

/// Taking a change over makes its profile one of the source.
pub proof fn lemma_absorbed_profiles(
    source: SourceView,
    actual: ProfilesMap,
    places: Seq<Place>,
    given: Seq<bool>,
    i: int,
)
    requires
        0 <= i < places.len(),
    ensures
        absorbed(source, actual, places, given).profiles.contains_key(places[i].profile),
    decreases places.len(),
{
    if i < places.len() - 1 {
        assert(places.drop_last()[i] == places[i]);
        lemma_absorbed_profiles(source, actual, places.drop_last(), given.drop_last(), i);
    }
}

/// A setting that is not taken over stays as it was.
pub proof fn lemma_absorbed_elsewhere(
    source: SourceView,
    actual: ProfilesMap,
    places: Seq<Place>,
    given: Seq<bool>,
    place: Place,
)
    requires
        given.len() == places.len(),
        settled(places, given, place),
        forall|i: int| 0 <= i < places.len() ==> #[trigger] places[i] != place,
    ensures
        agree(source, absorbed(source, actual, places, given), place.profile, place.setting),
    decreases places.len(),
{
    if places.len() > 0 {
        let fewer = places.drop_last();
        let earlier = given.drop_last();
        let last = places.last();
        lemma_settled_prefix(places, given, place);
        assert forall|i: int| 0 <= i < fewer.len() implies #[trigger] fewer[i] != place by {
            assert(places[i] != place);
        }
        lemma_absorbed_elsewhere(source, actual, fewer, earlier, place);
        assert(places[places.len() - 1] != place);
        assert(goes_to_base(last.profile, given.last()) && last.setting == place.setting
            ==> false) by {
            if goes_to_base(last.profile, given.last()) && last.setting == place.setting {
                assert(given[places.len() - 1]);
                assert(places[places.len() - 1].profile == default_profile());
                assert(place.profile == default_profile());
                assert(last == place);
            }
        }
        law_mutation_keeps_the_rest(
            absorbed(source, actual, fewer, earlier),
            last.profile,
            last.setting,
            setting_at(actual, last),
            given.last(),
            place.profile,
            place.setting,
        );
    }
}

proof fn lemma_settled_prefix(places: Seq<Place>, given: Seq<bool>, place: Place)
    requires
        given.len() == places.len(),
        places.len() > 0,
        settled(places, given, place),
    ensures
        settled(places.drop_last(), given.drop_last(), place),
{
    if place.profile != default_profile() {
        assert forall|i: int|
            0 <= i < places.drop_last().len() && places.drop_last()[i].profile == default_profile()
                && places.drop_last()[i].setting == place.setting implies !(
        #[trigger] given.drop_last()[i]) by {
            assert(places.drop_last()[i] == places[i]);
            assert(given.drop_last()[i] == given[i]);
        }
    }
}

proof fn lemma_absorbed_at(
    source: SourceView,
    actual: ProfilesMap,
    places: Seq<Place>,
    given: Seq<bool>,
    place: Place,
    at_index: int,
)
    requires
        given.len() == places.len(),
        settled(places, given, place),
        0 <= at_index < places.len(),
        places[at_index] == place,
        forall|i: int| 0 <= i < places.len() && i != at_index ==> #[trigger] places[i] != place,
        !shadowed(
            source,
            place.profile,
            place.setting,
            setting_at(actual, place),
            given[at_index],
        ),
    ensures
        same_option(
            at(
                resolved_at(absorbed(source, actual, places, given), place.profile),
                place.setting,
            ),
            setting_at(actual, place),
        ),
    decreases places.len(),
{
    let fewer = places.drop_last();
    let earlier = given.drop_last();
    let last = places.last();
    let middle = absorbed(source, actual, fewer, earlier);
    lemma_settled_prefix(places, given, place);
    if at_index == places.len() - 1 {
        assert forall|i: int| 0 <= i < fewer.len() implies #[trigger] fewer[i] != place by {
            assert(places[i] != place);
        }
        lemma_absorbed_elsewhere(source, actual, fewer, earlier, place);
        assert(agree(source, middle, place.profile, place.setting));
        assert(source.base.contains_key(place.setting) == middle.base.contains_key(place.setting));
        law_mutation_reads_back(
            middle,
            place.profile,
            place.setting,
            setting_at(actual, place),
            given.last(),
        );
    } else {
        assert(fewer[at_index] == place);
        assert(earlier[at_index] == given[at_index]);
        assert forall|i: int| 0 <= i < fewer.len() && i != at_index implies #[trigger] fewer[i]
            != place by {
            assert(places[i] != place);
        }
        lemma_absorbed_at(source, actual, fewer, earlier, place, at_index);
        assert(places[places.len() - 1] != place);
        assert(!(goes_to_base(last.profile, given.last()) && last.setting == place.setting)) by {
            if goes_to_base(last.profile, given.last()) && last.setting == place.setting {
                assert(given[places.len() - 1]);
                assert(last == place);
            }
        }
        law_mutation_keeps_the_rest(
            middle,
            last.profile,
            last.setting,
            setting_at(actual, last),
            given.last(),
            place.profile,
            place.setting,
        );
    }
}

} // verus!
