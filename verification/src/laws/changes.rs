//! Laws of reconciling: what changed in VS Code is taken over, and what changed on both sides is
//! reported.

use vstd::prelude::*;
use crate::inherit::compiled;
use crate::json::{same_json, same_option, Json, JsonValue, Settings};
use crate::mutation::{apply_actual_mutation, keep_profile_override, mutated};
use crate::place::{before, lemma_before_asymmetric, lemma_before_irreflexive, ranked, Place};
use crate::protocol::known_prefix;
use crate::reconcile::{
    absorbed, answered, answers, clashing, conflict_at, conflict_views, conflicts_at, drifting,
    reconcile, reconciled, setting_at, sides_of, Conflict, ProfilesMap, ReconcileResult, Sides,
};
use crate::service::{merged_by_prefix, prefix_answers, reconcile_by_prefix};
use crate::source::{Source, SourceView, StateSnapshot};
use crate::table::Table;
use crate::text::precedes;

verus! {

/// The value that a profile has of its own of a setting.
pub open spec fn own(source: SourceView, profile: Seq<char>, setting: Seq<char>) -> Option<Json> {
    if source.profiles.contains_key(profile) && source.profiles[profile].settings.contains_key(
        setting,
    ) {
        Some(source.profiles[profile].settings[setting])
    } else {
        None
    }
}

/// Whether a profile refuses to inherit a setting.
pub open spec fn refused(source: SourceView, profile: Seq<char>, setting: Seq<char>) -> bool {
    source.profiles.contains_key(profile) && source.profiles[profile].uninherit.contains(setting)
}

/// The value that the base has of a setting.
pub open spec fn based(source: SourceView, setting: Seq<char>) -> Option<Json> {
    if source.base.contains_key(setting) {
        Some(source.base[setting])
    } else {
        None
    }
}

/// The value that a profile has of a setting.
pub open spec fn held(profiles: ProfilesMap, profile: Seq<char>, setting: Seq<char>) -> Option<
    Json,
> {
    if profiles.contains_key(profile) && profiles[profile].contains_key(setting) {
        Some(profiles[profile][setting])
    } else {
        None
    }
}

/// What a profile says of a setting after a change of it was taken over that does not go to the
/// base. A value that the base has too is inherited, and another is the profile's own. A value
/// that is gone is refused where it was the base's, and was the profile's own otherwise.
pub open spec fn takes_over(
    own_before: Option<Json>,
    base: Option<Json>,
    value: Option<Json>,
    own_after: Option<Json>,
    refused_after: bool,
) -> bool {
    match value {
        Some(value) => if base is Some && same_json(base->0, value) {
            own_after is None && !refused_after
        } else {
            own_after == Some(value) && !refused_after
        },
        None => own_after is None && (refused_after <==> base is Some && own_before is None),
    }
}

/// A setting changed in VS Code alone: what the source gives is what was last written, and what
/// VS Code has is not.
pub open spec fn changed_there(
    source: SourceView,
    previous: ProfilesMap,
    actual: ProfilesMap,
    profile: Seq<char>,
    setting: Seq<char>,
) -> bool {
    &&& same_option(held(compiled(source), profile, setting), held(previous, profile, setting))
    &&& !same_option(held(actual, profile, setting), held(previous, profile, setting))
}

/// A setting changed on both sides, and not to the same value.
pub open spec fn changed_apart(
    source: SourceView,
    previous: ProfilesMap,
    actual: ProfilesMap,
    profile: Seq<char>,
    setting: Seq<char>,
) -> bool {
    &&& !same_option(held(compiled(source), profile, setting), held(previous, profile, setting))
    &&& !same_option(held(actual, profile, setting), held(previous, profile, setting))
    &&& !same_option(held(compiled(source), profile, setting), held(actual, profile, setting))
}

/// What is taken over is what changed in VS Code alone, a value that is gone there among it, and
/// what is reported is what changed on both sides to two values. Whatever else is neither.
pub proof fn law_what_is_taken_over(sides: Sides, place: Place)
    ensures
        drifting(sides).contains(place) <==> same_option(
            setting_at(sides.source, place),
            setting_at(sides.previous, place),
        ) && !same_option(setting_at(sides.actual, place), setting_at(sides.previous, place)),
        clashing(sides).contains(place) <==> !same_option(
            setting_at(sides.source, place),
            setting_at(sides.previous, place),
        ) && !same_option(setting_at(sides.actual, place), setting_at(sides.previous, place))
            && !same_option(setting_at(sides.source, place), setting_at(sides.actual, place)),
        setting_at(sides.actual, place) is None && setting_at(sides.previous, place) is Some
            && setting_at(sides.source, place) == setting_at(sides.previous, place)
            ==> drifting(sides).contains(place),
        setting_at(sides.actual, place) is Some && setting_at(sides.previous, place) is None
            && setting_at(sides.source, place) is None ==> drifting(sides).contains(place),
{
    if setting_at(sides.previous, place) is Some {
        crate::json::law_same_json_reflexive(setting_at(sides.previous, place)->0);
    }
}

/// One change that is taken over. In Default a setting that belongs to the base goes to the base,
/// and Default inherits it. Everything that is not the setting of the profile, and the base's
/// otherwise, stays as it was.
pub open spec fn takes_one(
    first: SourceView,
    profile: Seq<char>,
    setting: Seq<char>,
    value: Option<Json>,
    is_base_setting: bool,
    last: SourceView,
) -> bool {
    let to_base = profile == "Default"@ && is_base_setting;
    &&& last.schema == first.schema
    &&& last.version == first.version
    &&& forall|p: Seq<char>| #[trigger]
        last.profiles.contains_key(p) <==> first.profiles.contains_key(p) || p == profile
    &&& forall|p: Seq<char>, k: Seq<char>|
        #![trigger own(last, p, k)]
        p != profile || k != setting ==> own(last, p, k) == own(first, p, k)
    &&& forall|p: Seq<char>, k: Seq<char>|
        #![trigger refused(last, p, k)]
        p != profile || k != setting ==> refused(last, p, k) == refused(first, p, k)
    &&& forall|k: Seq<char>|
        #![trigger based(last, k)]
        k != setting || !to_base ==> based(last, k) == based(first, k)
    &&& if to_base {
        &&& based(last, setting) == value
        &&& own(last, profile, setting) is None
        &&& !refused(last, profile, setting)
    } else {
        takes_over(
            own(first, profile, setting),
            based(first, setting),
            value,
            own(last, profile, setting),
            refused(last, profile, setting),
        )
    }
}

/// Taking over a change does what one change does, whatever the source was.
pub proof fn law_taking_over_a_change(
    source: &mut Source,
    profile: &str,
    key: &str,
    actual: Option<JsonValue>,
    is_base_setting: bool,
)
    requires
        call_ensures(
            apply_actual_mutation,
            (source, profile, key, actual, is_base_setting),
            (),
        ),
    ensures
        takes_one(
            old(source)@,
            profile@,
            key@,
            match actual {
                Some(value) => Some(value@),
                None => None,
            },
            is_base_setting,
            final(source)@,
        ),
{
    lemma_mutated(old(source)@, profile@, key@, actual.deep_view(), is_base_setting);
}

/// A change is taken over as one change is.
pub proof fn lemma_mutated(
    source: SourceView,
    profile: Seq<char>,
    setting: Seq<char>,
    value: Option<Json>,
    is_base_setting: bool,
)
    ensures
        takes_one(
            source,
            profile,
            setting,
            value,
            is_base_setting,
            mutated(source, profile, setting, value, is_base_setting),
        ),
{
}

/// A profile keeps what it has of a setting: a value becomes its own, and a setting that it does
/// not have is refused. Everything else of the source stays as it was.
pub open spec fn keeps_one(
    first: SourceView,
    profile: Seq<char>,
    setting: Seq<char>,
    value: Option<Json>,
    last: SourceView,
) -> bool {
    &&& last.schema == first.schema
    &&& last.version == first.version
    &&& forall|p: Seq<char>| #[trigger]
        last.profiles.contains_key(p) <==> first.profiles.contains_key(p) || p == profile
    &&& forall|p: Seq<char>, k: Seq<char>|
        #![trigger own(last, p, k)]
        p != profile || k != setting ==> own(last, p, k) == own(first, p, k)
    &&& forall|p: Seq<char>, k: Seq<char>|
        #![trigger refused(last, p, k)]
        p != profile || k != setting ==> refused(last, p, k) == refused(first, p, k)
    &&& forall|k: Seq<char>| #[trigger] based(last, k) == based(first, k)
    &&& own(last, profile, setting) == value
    &&& refused(last, profile, setting) == (value is None)
}

/// Keeping what a profile has of a setting does so, whatever the source was.
pub proof fn law_keeping_an_override(
    source: &mut Source,
    profile: &str,
    setting: &str,
    actual: Option<JsonValue>,
)
    requires
        call_ensures(keep_profile_override, (source, profile, setting, actual), ()),
    ensures
        keeps_one(
            old(source)@,
            profile@,
            setting@,
            match actual {
                Some(value) => Some(value@),
                None => None,
            },
            final(source)@,
        ),
{
}

/// What becomes of one setting of a source when changes are taken over one after the other. The
/// base has what Default has of it where that goes to the base. A profile in which the setting is
/// not changed says of it what it said. A profile in which it is says what taking over says, by
/// the base as it then is.
spec fn absorbs(
    first: SourceView,
    actual: ProfilesMap,
    places: Seq<Place>,
    given: Seq<bool>,
    last: SourceView,
    profile: Seq<char>,
    setting: Seq<char>,
) -> bool {
    let n = places.len() as int;
    &&& last.schema == first.schema
    &&& last.version == first.version
    &&& last.profiles.contains_key(profile) <==> first.profiles.contains_key(profile) || exists|
        i: int,
    |
        0 <= i < n && (#[trigger] places[i]).profile == profile
    &&& based(last, setting) == base_at(first, actual, places, given, setting, n)
    &&& (forall|j: int|
        0 <= j < n ==> #[trigger] places[j] != (Place { profile, setting })) ==> own(
        last,
        profile,
        setting,
    ) == own(first, profile, setting) && refused(last, profile, setting) == refused(
        first,
        profile,
        setting,
    )
    &&& forall|j: int|
        #![trigger places[j]]
        0 <= j < n && places[j] == (Place { profile, setting }) ==> if profile == "Default"@
            && given[j] {
            own(last, profile, setting) is None && !refused(last, profile, setting)
        } else {
            takes_over(
                own(first, profile, setting),
                base_at(first, actual, places, given, setting, j),
                held(actual, profile, setting),
                own(last, profile, setting),
                refused(last, profile, setting),
            )
        }
}

/// Whether a change of a setting in Default is among the first changes, and goes to the base.
spec fn moved(places: Seq<Place>, given: Seq<bool>, setting: Seq<char>, n: int) -> bool {
    exists|i: int|
        0 <= i < n && #[trigger] places[i] == (Place { profile: "Default"@, setting }) && given[i]
}

/// What the base has of a setting after the first changes.
spec fn base_at(
    first: SourceView,
    actual: ProfilesMap,
    places: Seq<Place>,
    given: Seq<bool>,
    setting: Seq<char>,
    n: int,
) -> Option<Json> {
    if moved(places, given, setting, n) {
        held(actual, "Default"@, setting)
    } else {
        based(first, setting)
    }
}

proof fn lemma_moved(places: Seq<Place>, given: Seq<bool>, setting: Seq<char>, n: int)
    requires
        places.len() > 0,
        given.len() == places.len(),
    ensures
        0 <= n < places.len() ==> moved(places, given, setting, n) == moved(
            places.drop_last(),
            given.drop_last(),
            setting,
            n,
        ),
        moved(places, given, setting, places.len() as int) <==> moved(
            places,
            given,
            setting,
            places.len() - 1,
        ) || (places.last() == (Place { profile: "Default"@, setting }) && given.last()),
{
    let fewer = places.drop_last();
    let earlier = given.drop_last();
    let base_place = Place { profile: "Default"@, setting };
    if 0 <= n < places.len() {
        if moved(places, given, setting, n) {
            let i = choose|i: int| 0 <= i < n && #[trigger] places[i] == base_place && given[i];
            assert(fewer[i] == base_place && earlier[i]);
        }
        if moved(fewer, earlier, setting, n) {
            let i = choose|i: int| 0 <= i < n && #[trigger] fewer[i] == base_place && earlier[i];
            assert(places[i] == base_place && given[i]);
        }
    }
    let m = places.len() as int;
    if moved(places, given, setting, m) {
        let i = choose|i: int| 0 <= i < m && #[trigger] places[i] == base_place && given[i];
        assert(places[i] == base_place);
    }
    if moved(places, given, setting, m - 1) {
        let i = choose|i: int| 0 <= i < m - 1 && #[trigger] places[i] == base_place && given[i];
        assert(places[i] == base_place);
    }
    if places.last() == base_place && given.last() {
        assert(places[m - 1] == base_place && given[m - 1]);
    }
}

/// Changes that are taken over one after the other become what each of them says.
proof fn lemma_absorbs(
    source: SourceView,
    actual: ProfilesMap,
    places: Seq<Place>,
    given: Seq<bool>,
    profile: Seq<char>,
    setting: Seq<char>,
)
    requires
        given.len() == places.len(),
        forall|i: int, j: int|
            #![trigger places[i], places[j]]
            0 <= i < j < places.len() ==> places[i] != places[j],
    ensures
        absorbs(
            source,
            actual,
            places,
            given,
            absorbed(source, actual, places, given),
            profile,
            setting,
        ),
    decreases places.len(),
{
    if places.len() > 0 {
        let fewer = places.drop_last();
        let earlier = given.drop_last();
        let place = places.last();
        let m = places.len() - 1;
        let here = Place { profile, setting };
        let middle = absorbed(source, actual, fewer, earlier);
        let last = absorbed(source, actual, places, given);
        assert forall|i: int, j: int|
            #![trigger fewer[i], fewer[j]]
            0 <= i < j < fewer.len() implies fewer[i] != fewer[j] by {
            assert(places[i] != places[j]);
        }
        lemma_absorbs(source, actual, fewer, earlier, profile, setting);
        lemma_mutated(
            middle,
            place.profile,
            place.setting,
            setting_at(actual, place),
            given.last(),
        );
        assert(takes_one(
            middle,
            place.profile,
            place.setting,
            held(actual, place.profile, place.setting),
            given.last(),
            last,
        ));
        assert(places[m] == place);
        lemma_moved(places, given, setting, m);
        assert(base_at(source, actual, places, given, setting, m) == base_at(
            source,
            actual,
            fewer,
            earlier,
            setting,
            m,
        ));
        assert(based(last, setting) == base_at(source, actual, places, given, setting, m + 1));
        assert(last.profiles.contains_key(profile) <==> source.profiles.contains_key(profile)
            || exists|i: int| 0 <= i < places.len() && (#[trigger] places[i]).profile == profile) by {
            if exists|i: int| 0 <= i < fewer.len() && (#[trigger] fewer[i]).profile == profile {
                let i = choose|i: int|
                    0 <= i < fewer.len() && (#[trigger] fewer[i]).profile == profile;
                assert(places[i].profile == profile);
            }
            if exists|i: int| 0 <= i < places.len() && (#[trigger] places[i]).profile == profile {
                let i = choose|i: int|
                    0 <= i < places.len() && (#[trigger] places[i]).profile == profile;
                if i < m {
                    assert(fewer[i].profile == profile);
                }
            }
        }
        if forall|j: int| 0 <= j < places.len() ==> #[trigger] places[j] != here {
            assert forall|j: int| 0 <= j < fewer.len() implies #[trigger] fewer[j] != here by {
                assert(places[j] != here);
            }
            assert(place != here);
        }
        assert forall|j: int|
            #![trigger places[j]]
            0 <= j < places.len() && places[j] == here implies if profile == "Default"@
            && given[j] {
            own(last, profile, setting) is None && !refused(last, profile, setting)
        } else {
            takes_over(
                own(source, profile, setting),
                base_at(source, actual, places, given, setting, j),
                held(actual, profile, setting),
                own(last, profile, setting),
                refused(last, profile, setting),
            )
        } by {
            if j < m {
                assert(fewer[j] == here && earlier[j] == given[j]);
                assert(places[j] != places[m]);
                lemma_moved(places, given, setting, j);
                assert(own(last, profile, setting) == own(middle, profile, setting));
                assert(refused(last, profile, setting) == refused(middle, profile, setting));
            } else {
                assert forall|i: int| 0 <= i < fewer.len() implies #[trigger] fewer[i] != here by {
                    assert(places[i] != places[m]);
                }
            }
        }
    }
}

/// What becomes of one setting of a source when it is reconciled, where `toward` says whether the
/// setting belongs to the base.
pub open spec fn reconciles(
    first: SourceView,
    previous: ProfilesMap,
    actual: ProfilesMap,
    toward: bool,
    last: SourceView,
    profile: Seq<char>,
    setting: Seq<char>,
) -> bool {
    let base_moves = changed_there(first, previous, actual, "Default"@, setting) && toward;
    let base_then = if base_moves && precedes("Default"@, profile) {
        held(actual, "Default"@, setting)
    } else {
        based(first, setting)
    };
    &&& last.schema == first.schema
    &&& last.version == first.version
    &&& last.profiles.contains_key(profile) <==> first.profiles.contains_key(profile) || exists|
        k: Seq<char>,
    | #[trigger]
        changed_there(first, previous, actual, profile, k)
    &&& based(last, setting) == if base_moves {
        held(actual, "Default"@, setting)
    } else {
        based(first, setting)
    }
    &&& if !changed_there(first, previous, actual, profile, setting) {
        &&& own(last, profile, setting) == own(first, profile, setting)
        &&& refused(last, profile, setting) == refused(first, profile, setting)
    } else if profile == "Default"@ && toward {
        &&& own(last, profile, setting) is None
        &&& !refused(last, profile, setting)
    } else {
        takes_over(
            own(first, profile, setting),
            base_then,
            held(actual, profile, setting),
            own(last, profile, setting),
            refused(last, profile, setting),
        )
    }
}

proof fn lemma_reconciles(
    source: SourceView,
    previous: ProfilesMap,
    actual: ProfilesMap,
    places: Seq<Place>,
    given: Seq<bool>,
    toward: bool,
    profile: Seq<char>,
    setting: Seq<char>,
)
    requires
        ranked(places, drifting(sides_of(source, previous, actual))),
        given.len() == places.len(),
        forall|i: int|
            #![trigger places[i]]
            0 <= i < places.len() && places[i] == (Place { profile: "Default"@, setting })
                ==> given[i] == toward,
    ensures
        reconciles(
            source,
            previous,
            actual,
            toward,
            absorbed(source, actual, places, given),
            profile,
            setting,
        ),
{
    let sides = sides_of(source, previous, actual);
    let set = drifting(sides);
    let here = Place { profile, setting };
    let base_place = Place { profile: "Default"@, setting };
    let last = absorbed(source, actual, places, given);
    assert forall|i: int, j: int|
        #![trigger places[i], places[j]]
        0 <= i < j < places.len() implies places[i] != places[j] by {
        lemma_before_irreflexive(places[i]);
    }
    lemma_absorbs(source, actual, places, given, profile, setting);
    assert forall|place: Place| #[trigger]
        places.contains(place) <==> changed_there(
            source,
            previous,
            actual,
            place.profile,
            place.setting,
        ) by {
        assert(set.contains(place) <==> places.contains(place));
        law_what_is_taken_over(sides, place);
    }
    assert(moved(places, given, setting, places.len() as int) <==> changed_there(
        source,
        previous,
        actual,
        "Default"@,
        setting,
    ) && toward) by {
        assert(places.contains(base_place) <==> changed_there(
            source,
            previous,
            actual,
            "Default"@,
            setting,
        ));
        if moved(places, given, setting, places.len() as int) {
            let i = choose|i: int|
                0 <= i < places.len() && #[trigger] places[i] == base_place && given[i];
            assert(places.contains(places[i]));
        }
        if places.contains(base_place) && toward {
            let i = choose|i: int| 0 <= i < places.len() && places[i] == base_place;
            assert(places[i] == base_place && given[i]);
        }
    }
    assert(places.contains(here) <==> changed_there(source, previous, actual, profile, setting));
    if places.contains(here) {
        let j = choose|j: int| 0 <= j < places.len() && places[j] == here;
        assert(places[j] == here);
        if profile != "Default"@ {
            assert(moved(places, given, setting, j) <==> moved(
                places,
                given,
                setting,
                places.len() as int,
            ) && precedes("Default"@, profile)) by {
                if moved(places, given, setting, j) {
                    let i = choose|i: int|
                        0 <= i < j && #[trigger] places[i] == base_place && given[i];
                    assert(before(places[i], places[j]));
                    assert(places[i] == base_place);
                }
                if moved(places, given, setting, places.len() as int) && precedes(
                    "Default"@,
                    profile,
                ) {
                    let i = choose|i: int|
                        0 <= i < places.len() && #[trigger] places[i] == base_place && given[i];
                    if j < i {
                        assert(before(places[j], places[i]));
                        lemma_before_asymmetric(places[j], places[i]);
                        assert(before(places[i], places[j]));
                    }
                    assert(places[i] == base_place);
                }
            }
        } else {
            assert(here == base_place);
            assert(given[j] == toward);
            if !toward {
                assert(!moved(places, given, setting, j)) by {
                    if moved(places, given, setting, j) {
                        let i = choose|i: int|
                            0 <= i < j && #[trigger] places[i] == base_place && given[i];
                        assert(places[i] != places[j]);
                    }
                }
            }
        }
    } else {
        assert forall|j: int| 0 <= j < places.len() implies #[trigger] places[j] != here by {
            assert(places.contains(places[j]));
        }
    }
    assert(last.profiles.contains_key(profile) <==> source.profiles.contains_key(profile)
        || exists|k: Seq<char>| #[trigger] changed_there(source, previous, actual, profile, k)) by {
        if exists|i: int| 0 <= i < places.len() && (#[trigger] places[i]).profile == profile {
            let i = choose|i: int|
                0 <= i < places.len() && (#[trigger] places[i]).profile == profile;
            assert(places.contains(places[i]));
            assert(changed_there(source, previous, actual, profile, places[i].setting));
        }
        if exists|k: Seq<char>| #[trigger] changed_there(source, previous, actual, profile, k) {
            let k = choose|k: Seq<char>| #[trigger]
                changed_there(source, previous, actual, profile, k);
            assert(places.contains(Place { profile, setting: k }));
            let i = choose|i: int|
                0 <= i < places.len() && places[i] == (Place { profile, setting: k });
            assert(places[i].profile == profile);
        }
    }
}

/// What reconciling reports: every setting that changed on both sides to two values, with the
/// three values, each once and in the order of the names, and no other.
pub open spec fn reports(
    source: SourceView,
    previous: ProfilesMap,
    actual: ProfilesMap,
    conflicts: Seq<Conflict>,
) -> bool {
    &&& forall|profile: Seq<char>, setting: Seq<char>|
        #![trigger changed_apart(source, previous, actual, profile, setting)]
        changed_apart(source, previous, actual, profile, setting) <==> exists|i: int|
            0 <= i < conflicts.len() && (#[trigger] conflicts[i]).profile@ == profile
                && conflicts[i].setting@ == setting
    &&& forall|i: int|
        #![trigger conflicts[i]]
        0 <= i < conflicts.len() ==> {
            let conflict = conflicts[i];
            &&& option_view(conflict.previous) == held(
                previous,
                conflict.profile@,
                conflict.setting@,
            )
            &&& option_view(conflict.source) == held(
                compiled(source),
                conflict.profile@,
                conflict.setting@,
            )
            &&& option_view(conflict.actual) == held(actual, conflict.profile@, conflict.setting@)
        }
    &&& forall|i: int, j: int|
        #![trigger conflicts[i], conflicts[j]]
        0 <= i < j < conflicts.len() ==> precedes(conflicts[i].profile@, conflicts[j].profile@) || (
        conflicts[i].profile@ == conflicts[j].profile@ && precedes(
            conflicts[i].setting@,
            conflicts[j].setting@,
        ))
}

/// The view of a value that may be missing.
pub open spec fn option_view(value: Option<JsonValue>) -> Option<Json> {
    match value {
        Some(value) => Some(value@),
        None => None,
    }
}

proof fn lemma_reports(
    source: SourceView,
    previous: ProfilesMap,
    actual: ProfilesMap,
    conflicts: Seq<Conflict>,
    places: Seq<Place>,
)
    requires
        ranked(places, clashing(sides_of(source, previous, actual))),
        conflict_views(conflicts) == conflicts_at(sides_of(source, previous, actual), places),
    ensures
        reports(source, previous, actual, conflicts),
{
    let sides = sides_of(source, previous, actual);
    let set = clashing(sides);
    assert(conflict_views(conflicts).len() == conflicts.len());
    assert forall|i: int|
        #![trigger conflicts[i]]
        0 <= i < conflicts.len() implies conflicts[i]@ == conflict_at(sides, places[i])
        && conflicts[i].profile@ == places[i].profile && conflicts[i].setting@
        == places[i].setting by {
        assert(conflict_views(conflicts)[i] == conflicts[i]@);
        assert(conflicts_at(sides, places)[i] == conflict_at(sides, places[i]));
    }
    assert forall|profile: Seq<char>, setting: Seq<char>|
        #![trigger changed_apart(source, previous, actual, profile, setting)]
        changed_apart(source, previous, actual, profile, setting) <==> exists|i: int|
            0 <= i < conflicts.len() && (#[trigger] conflicts[i]).profile@ == profile
                && conflicts[i].setting@ == setting by {
        let place = Place { profile, setting };
        law_what_is_taken_over(sides, place);
        assert(set.contains(place) <==> places.contains(place));
        if places.contains(place) {
            let i = choose|i: int| 0 <= i < places.len() && places[i] == place;
            assert(conflicts[i].profile@ == profile);
        }
        if exists|i: int|
            0 <= i < conflicts.len() && (#[trigger] conflicts[i]).profile@ == profile
                && conflicts[i].setting@ == setting {
            let i = choose|i: int|
                0 <= i < conflicts.len() && (#[trigger] conflicts[i]).profile@ == profile
                    && conflicts[i].setting@ == setting;
            assert(places[i] == place);
        }
    }
    assert forall|i: int, j: int|
        #![trigger conflicts[i], conflicts[j]]
        0 <= i < j < conflicts.len() implies precedes(
        conflicts[i].profile@,
        conflicts[j].profile@,
    ) || (conflicts[i].profile@ == conflicts[j].profile@ && precedes(
        conflicts[i].setting@,
        conflicts[j].setting@,
    )) by {
        assert(before(places[i], places[j]));
    }
}

/// Reconciling takes over what changed in VS Code alone and reports what changed on both sides to
/// two values. The source counts as changed where something was taken over, and stays as it is
/// otherwise. The settings that are given are those of the source afterwards. `toward` is an
/// answer on whether the setting belongs to the base.
pub proof fn law_reconciling<F: Fn(&str) -> bool>(
    source: &Source,
    previous: &StateSnapshot,
    actual: &Table<Settings>,
    is_base_setting: F,
    result: ReconcileResult,
    profile: Seq<char>,
    setting: Seq<char>,
) -> (toward: bool)
    requires
        call_ensures(reconcile::<F>, (source, previous, actual, is_base_setting), result),
    ensures
        ({
            let before = previous.materialized.deep_view();
            let there = actual.deep_view();
            &&& changed_there(source@, before, there, "Default"@, setting) ==> exists|
                name: &str,
            |
                name@ == setting && #[trigger] call_ensures(is_base_setting, (name,), toward)
            &&& reconciles(source@, before, there, toward, result.source@, profile, setting)
            &&& reports(source@, before, there, result.conflicts@)
            &&& result.changed_source <==> exists|p: Seq<char>, k: Seq<char>| #[trigger]
                changed_there(source@, before, there, p, k)
            &&& !result.changed_source ==> result.source@ == source@
            &&& result.outputs.deep_view() == compiled(result.source@)
        }),
{
    let before = previous.materialized.deep_view();
    let there = actual.deep_view();
    let sides = sides_of(source@, before, there);
    let clashes = choose|places: Seq<Place>|
        #![trigger ranked(places, clashing(sides))]
        ranked(places, clashing(sides)) && conflict_views(result.conflicts@) == conflicts_at(
            sides,
            places,
        );
    lemma_reports(source@, before, there, result.conflicts@, clashes);
    let (places, given) = choose|places: Seq<Place>, given: Seq<bool>|
        #![trigger reconciled(source@, sides, places, given, result.source@)]
        reconciled(source@, sides, places, given, result.source@) && answered(
            is_base_setting,
            places,
            given,
        );
    let base_place = Place { profile: "Default"@, setting };
    let toward = if places.contains(base_place) {
        given[choose|i: int| 0 <= i < places.len() && places[i] == base_place]
    } else {
        false
    };
    assert forall|i: int|
        #![trigger places[i]]
        0 <= i < places.len() && places[i] == base_place implies given[i] == toward by {
        assert(places.contains(places[i]));
        let j = choose|j: int| 0 <= j < places.len() && places[j] == base_place;
        lemma_before_irreflexive(base_place);
        if i < j {
            assert(crate::place::before(places[i], places[j]));
        }
        if j < i {
            assert(crate::place::before(places[j], places[i]));
        }
    }
    lemma_reconciles(source@, before, there, places, given, toward, profile, setting);
    lemma_changed(source@, before, there, places, given);
    if changed_there(source@, before, there, "Default"@, setting) {
        law_what_is_taken_over(sides, base_place);
        assert(drifting(sides).contains(base_place));
        let j = choose|j: int| 0 <= j < places.len() && places[j] == base_place;
        assert(given[j] == toward);
        assert(answers(is_base_setting, setting, toward));
    }
    toward
}

proof fn lemma_changed(
    source: SourceView,
    previous: ProfilesMap,
    actual: ProfilesMap,
    places: Seq<Place>,
    given: Seq<bool>,
)
    requires
        ranked(places, drifting(sides_of(source, previous, actual))),
    ensures
        drifting(sides_of(source, previous, actual)) != Set::<Place>::empty() <==> exists|
            p: Seq<char>,
            k: Seq<char>,
        | #[trigger]
            changed_there(source, previous, actual, p, k),
        drifting(sides_of(source, previous, actual)) == Set::<Place>::empty() ==> absorbed(
            source,
            actual,
            places,
            given,
        ) == source,
{
    let sides = sides_of(source, previous, actual);
    let set = drifting(sides);
    if exists|p: Seq<char>, k: Seq<char>| #[trigger] changed_there(source, previous, actual, p, k) {
        let (p, k) = choose|p: Seq<char>, k: Seq<char>| #[trigger]
            changed_there(source, previous, actual, p, k);
        law_what_is_taken_over(sides, Place { profile: p, setting: k });
        assert(set.contains(Place { profile: p, setting: k }));
    }
    if set != Set::<Place>::empty() {
        assert(!(set =~= Set::<Place>::empty()));
        let place = choose|place: Place| set.contains(place);
        law_what_is_taken_over(sides, place);
        assert(changed_there(source, previous, actual, place.profile, place.setting));
    } else if places.len() > 0 {
        assert(places.contains(places[0]));
        assert(set.contains(places[0]));
    }
}

/// Reconciling by the known prefixes does what reconciling does, and a setting belongs to the
/// base where what stands before its first dot is one of them.
pub proof fn law_reconciling_by_prefix(
    source: &Source,
    previous: &StateSnapshot,
    actual: &Table<Settings>,
    result: ReconcileResult,
    profile: Seq<char>,
    setting: Seq<char>,
)
    requires
        call_ensures(reconcile_by_prefix, (source, previous, actual), result),
    ensures
        ({
            let before = previous.materialized.deep_view();
            let there = actual.deep_view();
            let known = known_prefix(previous.known_setting_prefixes@, setting);
            &&& reconciles(source@, before, there, known, result.source@, profile, setting)
            &&& reports(source@, before, there, result.conflicts@)
            &&& result.changed_source <==> exists|p: Seq<char>, k: Seq<char>| #[trigger]
                changed_there(source@, before, there, p, k)
            &&& !result.changed_source ==> result.source@ == source@
            &&& result.outputs.deep_view() == compiled(result.source@)
        }),
{
    lemma_merged_effect(source@, previous@, actual.deep_view(), result, profile, setting);
}

/// What reconciling by the known prefixes gives is what reconciling gives.
pub proof fn lemma_merged_effect(
    source: SourceView,
    previous: crate::service::StateView,
    actual: ProfilesMap,
    result: ReconcileResult,
    profile: Seq<char>,
    setting: Seq<char>,
)
    requires
        merged_by_prefix(source, previous, actual, result),
    ensures
        reconciles(
            source,
            previous.materialized,
            actual,
            known_prefix(previous.known_setting_prefixes, setting),
            result.source@,
            profile,
            setting,
        ),
        reports(source, previous.materialized, actual, result.conflicts@),
        result.changed_source <==> exists|p: Seq<char>, k: Seq<char>| #[trigger]
            changed_there(source, previous.materialized, actual, p, k),
        !result.changed_source ==> result.source@ == source,
        result.outputs.deep_view() == compiled(result.source@),
{
    let before = previous.materialized;
    let sides = sides_of(source, before, actual);
    let clashes = choose|places: Seq<Place>|
        #![trigger ranked(places, clashing(sides))]
        ranked(places, clashing(sides)) && conflict_views(result.conflicts@) == conflicts_at(
            sides,
            places,
        );
    lemma_reports(source, before, actual, result.conflicts@, clashes);
    let places = choose|places: Seq<Place>|
        #![trigger ranked(places, drifting(sides))]
        ranked(places, drifting(sides)) && result.source@ == absorbed(
            source,
            actual,
            places,
            prefix_answers(previous.known_setting_prefixes, places),
        );
    let given = prefix_answers(previous.known_setting_prefixes, places);
    let known = known_prefix(previous.known_setting_prefixes, setting);
    lemma_reconciles(source, before, actual, places, given, known, profile, setting);
    lemma_changed(source, before, actual, places, given);
}

} // verus!
