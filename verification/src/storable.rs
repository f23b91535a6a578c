//! What can be written and read again: settings that were read, and all that becomes of
//! them.

use vstd::prelude::*;
use crate::codec::{canonical, storable, storable_settings};
use crate::edits::{resolved_all, ResolutionView};
use crate::inherit::{compiled, overlaid, resolved_value};
use crate::json::{at, nests_within, Json};
use crate::migrate::{default_settings, migrated};
use crate::mutation::{delta_at, kept, mutated};
use crate::outside::nesting_limit;
use crate::parse::{decoded, decoded_base, decoded_delta, decoded_profiles, item_at};
use crate::place::Place;
use crate::protocol::known_prefix;
use crate::reconcile::{absorbed, setting_at, ProfilesMap};
use crate::source::SourceView;

verus! {

/// A source whose settings are read again as they were written.
pub open spec fn storable_source(source: SourceView) -> bool {
    &&& storable_settings(source.base)
    &&& forall|name: Seq<char>| #[trigger]
        source.profiles.contains_key(name) ==> storable_settings(source.profiles[name].settings)
}

/// Settings of profiles that are read again as they were written.
pub open spec fn storable_profiles(profiles: ProfilesMap) -> bool {
    forall|name: Seq<char>| #[trigger]
        profiles.contains_key(name) ==> storable_settings(profiles[name])
}

/// Where at most so many lists and objects stand in each other, no more do.
proof fn lemma_nests_more(json: Json, n: nat, m: nat)
    requires
        nests_within(json, n),
        n <= m,
    ensures
        nests_within(json, m),
    decreases n,
{
    match json {
        Json::List(items) => {
            assert forall|i: int| 0 <= i < items.len() implies nests_within(
                #[trigger] items[i],
                (m - 1) as nat,
            ) by {
                assert(nests_within(items[i], (n - 1) as nat));
                lemma_nests_more(items[i], (n - 1) as nat, (m - 1) as nat);
            }
        },
        Json::Object(members) => {
            assert forall|name: Seq<char>| members.contains_key(name) implies nests_within(
                #[trigger] members[name],
                (m - 1) as nat,
            ) by {
                assert(nests_within(members[name], (n - 1) as nat));
                lemma_nests_more(members[name], (n - 1) as nat, (m - 1) as nat);
            }
        },
        _ => {},
    }
}

/// The members of an object that is read are storable.
proof fn lemma_members_storable(json: Json, n: nat)
    requires
        canonical(json),
        nests_within(json, n),
        json is Object,
        n <= nesting_limit(),
    ensures
        storable_settings(json->Object_0),
{
    let members = json->Object_0;
    assert forall|name: Seq<char>| members.contains_key(name) implies storable(
        #[trigger] members[name],
    ) by {
        assert(nests_within(members[name], (n - 1) as nat));
        lemma_nests_more(members[name], (n - 1) as nat, (nesting_limit() - 1) as nat);
    }
}

/// The settings of a source that is read are storable.
proof fn lemma_fields_storable(base: Option<Json>, profiles: Option<Json>, source: SourceView)
    requires
        base matches Some(json) ==> canonical(json) && nests_within(
            json,
            (nesting_limit() - 1) as nat,
        ),
        profiles matches Some(json) ==> canonical(json) && nests_within(
            json,
            (nesting_limit() - 1) as nat,
        ),
        decoded_base(base) == Some(source.base),
        decoded_profiles(profiles) == Some(source.profiles),
    ensures
        storable_source(source),
{
    if let Some(json) = base {
        lemma_members_storable(json, (nesting_limit() - 1) as nat);
    }
    if let Some(json) = profiles {
        let map = json->Object_0;
        assert forall|name: Seq<char>| #[trigger]
            source.profiles.contains_key(name) implies storable_settings(
            source.profiles[name].settings,
        ) by {
            assert(map.contains_key(name));
            assert(canonical(map[name]));
            assert(nests_within(map[name], (nesting_limit() - 2) as nat));
            assert(decoded_delta(map[name]) == Some(source.profiles[name]));
            lemma_members_storable(map[name], (nesting_limit() - 2) as nat);
            let all = map[name]->Object_0;
            let own = source.profiles[name].settings;
            assert forall|key: Seq<char>| own.contains_key(key) implies storable(
                #[trigger] own[key],
            ) by {
                assert(all.contains_key(key) && own[key] == all[key]);
            }
        }
    }
}

/// A source that is read can be written and read again.
pub proof fn lemma_decoded_storable(json: Json)
    requires
        canonical(json),
        nests_within(json, nesting_limit()),
        decoded(json) is Some,
    ensures
        storable_source(decoded(json)->0),
{
    let source = decoded(json)->0;
    match json {
        Json::Object(members) => {
            lemma_fields_storable(at(members, "base"@), at(members, "profiles"@), source);
        },
        Json::List(items) => {
            lemma_fields_storable(
                item_at(items, 2),
                item_at(items, 3),
                source,
            );
        },
        _ => {},
    }
}

/// A value that is read can be written as settings and read again, where it is an object.
pub proof fn lemma_read_storable(json: Json)
    requires
        canonical(json),
        nests_within(json, nesting_limit()),
        json is Object,
    ensures
        storable_settings(json->Object_0),
{
    lemma_members_storable(json, nesting_limit());
}

/// Laying values over each other does not make lists and objects stand deeper in each other.
proof fn lemma_overlaid_nests(base: Json, over: Json, n: nat)
    requires
        nests_within(base, n),
        nests_within(over, n),
    ensures
        nests_within(overlaid(base, over), n),
    decreases n,
{
    match (base, over) {
        (Json::Object(under), Json::Object(upper)) => {
            let merged = overlaid(base, over)->Object_0;
            assert forall|name: Seq<char>| merged.contains_key(name) implies nests_within(
                #[trigger] merged[name],
                (n - 1) as nat,
            ) by {
                if under.contains_key(name) {
                    assert(nests_within(under[name], (n - 1) as nat));
                }
                if upper.contains_key(name) {
                    assert(nests_within(upper[name], (n - 1) as nat));
                }
                if under.contains_key(name) && upper.contains_key(name) {
                    lemma_overlaid_nests(under[name], upper[name], (n - 1) as nat);
                }
            }
        },
        _ => {},
    }
}

proof fn lemma_overlaid_canonical(base: Json, over: Json)
    requires
        canonical(base),
        canonical(over),
    ensures
        canonical(overlaid(base, over)),
    decreases over,
{
    match (base, over) {
        (Json::Object(under), Json::Object(upper)) => {
            let merged = overlaid(base, over)->Object_0;
            assert forall|name: Seq<char>| merged.contains_key(name) implies canonical(
                #[trigger] merged[name],
            ) by {
                if under.contains_key(name) {
                    assert(canonical(under[name]));
                }
                if upper.contains_key(name) {
                    assert(canonical(upper[name]));
                }
                if under.contains_key(name) && upper.contains_key(name) {
                    lemma_overlaid_canonical(under[name], upper[name]);
                }
            }
        },
        _ => {},
    }
}

/// The settings that a storable source gives can be written and read again.
pub proof fn law_compiled_is_storable(source: SourceView)
    requires
        storable_source(source),
    ensures
        storable_profiles(compiled(source)),
{
    assert forall|profile: Seq<char>| #[trigger]
        compiled(source).contains_key(profile) implies storable_settings(
        compiled(source)[profile],
    ) by {
        assert(source.profiles.contains_key(profile));
        let delta = source.profiles[profile];
        let settings = compiled(source)[profile];
        assert forall|name: Seq<char>| settings.contains_key(name) implies storable(
            #[trigger] settings[name],
        ) by {
            assert(resolved_value(source.base, delta, name) == Some(settings[name]));
            if source.base.contains_key(name) {
                assert(storable(source.base[name]));
            }
            if delta.settings.contains_key(name) {
                assert(storable(delta.settings[name]));
            }
            if source.base.contains_key(name) && delta.settings.contains_key(name) {
                lemma_overlaid_canonical(source.base[name], delta.settings[name]);
                lemma_overlaid_nests(
                    source.base[name],
                    delta.settings[name],
                    (nesting_limit() - 1) as nat,
                );
            }
        }
    }
}

/// A change of a storable value leaves a source storable.
pub proof fn law_mutation_keeps_storable(
    source: SourceView,
    profile: Seq<char>,
    setting: Seq<char>,
    actual: Option<Json>,
    is_base_setting: bool,
)
    requires
        storable_source(source),
        actual matches Some(value) ==> storable(value),
    ensures
        storable_source(mutated(source, profile, setting, actual, is_base_setting)),
        storable_source(kept(source, profile, setting, actual)),
{
    let delta = delta_at(source, profile);
    assert(storable_settings(delta.settings));
    let after = mutated(source, profile, setting, actual, is_base_setting);
    assert(storable_settings(after.base)) by {
        assert forall|name: Seq<char>| after.base.contains_key(name) implies storable(
            #[trigger] after.base[name],
        ) by {
            if source.base.contains_key(name) {
                assert(storable(source.base[name]));
            }
        }
    }
    lemma_delta_storable(source, after, profile, setting, actual);
    lemma_delta_storable(
        source,
        kept(source, profile, setting, actual),
        profile,
        setting,
        actual,
    );
}

/// A source in which one setting of one profile changed has storable profiles.
proof fn lemma_delta_storable(
    source: SourceView,
    after: SourceView,
    profile: Seq<char>,
    setting: Seq<char>,
    actual: Option<Json>,
)
    requires
        storable_source(source),
        storable_settings(after.base),
        actual matches Some(value) ==> storable(value),
        after.profiles.dom() == source.profiles.dom().insert(profile),
        forall|name: Seq<char>| #[trigger]
            source.profiles.contains_key(name) && name != profile ==> after.profiles[name]
                == source.profiles[name],
        ({
            let own = delta_at(source, profile).settings;
            let new = after.profiles[profile].settings;
            new == own.remove(setting) || (actual is Some && new == own.insert(
                setting,
                actual->0,
            ))
        }),
    ensures
        storable_source(after),
{
    assert forall|name: Seq<char>| #[trigger]
        after.profiles.contains_key(name) implies storable_settings(
        after.profiles[name].settings,
    ) by {
        let own = delta_at(source, name).settings;
        assert(storable_settings(own));
        if name == profile {
            let new = after.profiles[profile].settings;
            assert forall|key: Seq<char>| new.contains_key(key) implies storable(
                #[trigger] new[key],
            ) by {
                if own.contains_key(key) {
                    assert(storable(own[key]));
                }
            }
        } else {
            assert(source.profiles.dom().contains(name));
            assert(source.profiles.contains_key(name));
        }
    }
}

/// A source that is migrated from storable settings is storable.
pub proof fn law_migration_is_storable(actual: ProfilesMap, base: Map<Seq<char>, Json>)
    requires
        storable_profiles(actual),
        base.dom().subset_of(default_settings(actual).dom()),
        base == default_settings(actual).restrict(base.dom()),
    ensures
        storable_source(migrated(actual, base)),
{
    let source = migrated(actual, base);
    let defaults = default_settings(actual);
    assert(storable_settings(defaults));
    assert forall|name: Seq<char>| base.contains_key(name) implies storable(
        #[trigger] base[name],
    ) by {
        assert(defaults.dom().contains(name));
        assert(base[name] == defaults.restrict(base.dom())[name]);
        assert(storable(defaults[name]));
    }
    assert forall|profile: Seq<char>| #[trigger]
        source.profiles.contains_key(profile) implies storable_settings(
        source.profiles[profile].settings,
    ) by {
        if actual.contains_key(profile) {
            let own = source.profiles[profile].settings;
            assert(storable_settings(actual[profile]));
            assert forall|name: Seq<char>| own.contains_key(name) implies storable(
                #[trigger] own[name],
            ) by {
                assert(actual[profile].contains_key(name) && own[name] == actual[profile][name]);
                assert(storable(actual[profile][name]));
            }
        }
    }
}

/// What VS Code has of a setting is storable where all that it has is.
proof fn lemma_setting_storable(actual: ProfilesMap, place: Place)
    requires
        storable_profiles(actual),
    ensures
        setting_at(actual, place) matches Some(value) ==> storable(value),
{
    if actual.contains_key(place.profile) {
        assert(storable_settings(actual[place.profile]));
        if actual[place.profile].contains_key(place.setting) {
            assert(storable(actual[place.profile][place.setting]));
        }
    }
}

/// Taking over storable changes leaves a source storable.
pub proof fn law_absorbed_is_storable(
    source: SourceView,
    actual: ProfilesMap,
    places: Seq<Place>,
    given: Seq<bool>,
)
    requires
        storable_source(source),
        storable_profiles(actual),
    ensures
        storable_source(absorbed(source, actual, places, given)),
    decreases places.len(),
{
    if places.len() > 0 {
        let place = places.last();
        let before = absorbed(source, actual, places.drop_last(), given.drop_last());
        law_absorbed_is_storable(source, actual, places.drop_last(), given.drop_last());
        lemma_setting_storable(actual, place);
        law_mutation_keeps_storable(
            before,
            place.profile,
            place.setting,
            setting_at(actual, place),
            given.last(),
        );
    }
}

/// Resolving conflicts by storable values leaves a source storable.
pub proof fn law_resolved_is_storable(
    source: SourceView,
    resolutions: Seq<ResolutionView>,
    prefixes: Set<Seq<char>>,
)
    requires
        storable_source(source),
        forall|i: int|
            0 <= i < resolutions.len() ==> ((#[trigger] resolutions[i]).actual matches Some(value)
                ==> storable(value)),
    ensures
        storable_source(resolved_all(source, resolutions, prefixes)),
    decreases resolutions.len(),
{
    if resolutions.len() > 0 {
        let fewer = resolutions.drop_last();
        let last = resolutions.last();
        assert forall|i: int| 0 <= i < fewer.len() implies ((#[trigger] fewer[i]).actual matches Some(
            value,
        ) ==> storable(value)) by {
            assert(fewer[i] == resolutions[i]);
        }
        law_resolved_is_storable(source, fewer, prefixes);
        assert(resolutions[resolutions.len() - 1] == last);
        law_mutation_keeps_storable(
            resolved_all(source, fewer, prefixes),
            last.place.profile,
            last.place.setting,
            last.actual,
            known_prefix(prefixes, last.place.setting),
        );
    }
}

} // verus!
