//! Laws of carrying out: what is written to VS Code, what is remembered of it, and what is found
//! when the source and VS Code are held against each other.

use vstd::prelude::*;
use crate::backend::Profile;
use crate::codec::{canonical, content_hash, exported, lemma_canonical_exported};
use crate::hash::{hash_of_source, source_hash};
use crate::inherit::compiled;
use crate::json::{Json, Num, Settings};
use crate::laws::changes::{
    changed_apart, changed_there, lemma_merged_effect, reconciles, reports,
};
use crate::outside::{blake3_hex, compact};
use crate::protocol::known_prefix;
use crate::reconcile::{conflict_views, Conflict, ProfilesMap, ReconcileResult};
use crate::service::{
    by_name, compile_all, hash_profiles, hashes_of, mapped_profiles, merged_by_prefix, plan_for,
    profiles_to_write, reconcile_all, same_texts, state_for, unchanged, MappingError, Plan,
    Reconciliation,
};
use crate::source::{
    flawed, is_first, overlap, sound_profile, sound_source, validate_source, CoreError, Source,
    SourceView, StateSnapshot,
};
use crate::table::{Names, Table};
use crate::text::{blank, precedes};

verus! {

/// A value is handed over as it is, but for numbers that are not held as they are read.
pub proof fn law_handing_over(value: Json)
    ensures
        value is Null || value is Bool || value is Text ==> exported(value) == value,
        value matches Json::Number(Num::PosInt(_)) ==> exported(value) == value,
        value matches Json::Number(Num::NegInt(n)) ==> (n < 0 ==> exported(value) == value),
        value matches Json::List(items) ==> exported(value) is List && exported(
            value,
        )->List_0.len() == items.len() && forall|i: int|
            0 <= i < items.len() ==> #[trigger] exported(value)->List_0[i] == exported(items[i]),
        value matches Json::Object(members) ==> exported(value) is Object && exported(
            value,
        )->Object_0.dom() == members.dom() && forall|name: Seq<char>|
            members.contains_key(name) ==> #[trigger] exported(value)->Object_0[name] == exported(
                members[name],
            ),
        canonical(value) ==> exported(value) == value,
{
    if canonical(value) {
        lemma_canonical_exported(value);
    }
    if let Json::Object(members) = value {
        assert(exported(value)->Object_0.dom() =~= members.dom());
    }
}

/// The hash of settings is the one of their JSON, with all their settings.
pub proof fn law_hashing_settings(settings: &Settings, hash: String)
    requires
        call_ensures(content_hash, (settings,), hash),
    ensures
        hash@ == blake3_hex(compact(exported(Json::Object(settings.deep_view())))),
        canonical(Json::Object(settings.deep_view())) ==> hash@ == blake3_hex(
            compact(Json::Object(settings.deep_view())),
        ),
{
    law_handing_over(Json::Object(settings.deep_view()));
}

/// The settings of every profile are hashed, each by itself.
pub proof fn law_hashing_profiles(
    profiles: &Table<Settings>,
    hashes: Table<String>,
    name: Seq<char>,
    settings: &Settings,
    hash: String,
)
    requires
        call_ensures(hash_profiles, (profiles,), hashes),
        call_ensures(content_hash, (settings,), hash),
    ensures
        hashes@.contains_key(name) <==> profiles@.contains_key(name),
        profiles@.contains_key(name) && profiles@[name].deep_view() == settings.deep_view()
            ==> hashes@[name]@ == hash@,
{
    assert(hashes.deep_view().contains_key(name) <==> hashes@.contains_key(name));
    assert(profiles.deep_view().contains_key(name) <==> profiles@.contains_key(name));
    if hashes@.contains_key(name) {
        assert(hashes.deep_view()[name] == hashes@[name]@);
    }
}

/// Two tables of texts are the same where they have the same names with the same texts.
pub proof fn law_comparing_tables(a: &Table<String>, b: &Table<String>, same: bool)
    requires
        call_ensures(same_texts, (a, b), same),
    ensures
        same <==> forall|name: Seq<char>|
            (#[trigger] a@.contains_key(name) <==> b@.contains_key(name)) && (a@.contains_key(name)
                ==> a@[name]@ == b@[name]@),
{
    let x = a.deep_view();
    let y = b.deep_view();
    assert forall|name: Seq<char>| #[trigger] a@.contains_key(name) implies x.contains_key(name)
        && x[name] == a@[name]@ by {}
    if same {
        assert forall|name: Seq<char>|
            (#[trigger] a@.contains_key(name) <==> b@.contains_key(name)) && (a@.contains_key(name)
                ==> a@[name]@ == b@[name]@) by {
            assert(x.contains_key(name) <==> a@.contains_key(name));
            assert(y.contains_key(name) <==> b@.contains_key(name));
        }
    }
    if forall|name: Seq<char>|
        (#[trigger] a@.contains_key(name) <==> b@.contains_key(name)) && (a@.contains_key(name)
            ==> a@[name]@ == b@[name]@) {
        assert(x =~= y) by {
            assert forall|name: Seq<char>|
                #![trigger x.dom().contains(name)]
                x.dom().contains(name) == y.dom().contains(name) && (x.dom().contains(name)
                    ==> x[name] == y[name]) by {
                assert(a@.contains_key(name) <==> b@.contains_key(name));
            }
        }
    }
}

/// The settings of a profile are written where VS Code does not have the profile, or has it with
/// settings of another hash. No other profile is written.
pub proof fn law_what_is_written(
    actual: &Table<Settings>,
    outputs: &Table<Settings>,
    names: Names,
    name: Seq<char>,
    given: String,
    there: String,
)
    requires
        call_ensures(profiles_to_write, (actual, outputs), names),
        outputs@.contains_key(name) ==> call_ensures(content_hash, (&outputs@[name],), given),
        actual@.contains_key(name) ==> call_ensures(content_hash, (&actual@[name],), there),
    ensures
        !outputs@.contains_key(name) ==> !names@.contains(name),
        outputs@.contains_key(name) && !actual@.contains_key(name) ==> names@.contains(name),
        outputs@.contains_key(name) && actual@.contains_key(name) ==> (names@.contains(name)
            <==> given@ != there@),
{
    assert(outputs.deep_view().contains_key(name) <==> outputs@.contains_key(name));
    assert(actual.deep_view().contains_key(name) <==> actual@.contains_key(name));
}

/// A plan brings VS Code to what the source says: it has the settings of every profile, writes
/// those that differ by their hash, and its state remembers what was given, one revision on.
pub open spec fn plans(
    source: SourceView,
    previous: &StateSnapshot,
    actual: ProfilesMap,
    plan: Plan,
    name: Seq<char>,
) -> bool {
    &&& plan.outputs.deep_view() == compiled(source)
    &&& plan.state.revision == previous.revision + 1
    &&& plan.state.materialized.deep_view() == compiled(source)
    &&& plan.state.known_setting_prefixes@ == previous.known_setting_prefixes@
    &&& plan.state.source_hash@ == hash_of_source(source)
    &&& plan.state.materialized_hashes@.contains_key(name) <==> compiled(source).contains_key(name)
    &&& compiled(source).contains_key(name) ==> plan.state.materialized_hashes@[name]@
        == blake3_hex(compact(exported(Json::Object(compiled(source)[name]))))
    &&& plan.writes@.contains(name) <==> compiled(source).contains_key(name) && !(
    actual.contains_key(name) && blake3_hex(compact(exported(Json::Object(actual[name]))))
        == blake3_hex(compact(exported(Json::Object(compiled(source)[name])))))
}

/// Planning does so.
pub proof fn law_planning(
    source: &Source,
    previous: &StateSnapshot,
    actual: &Table<Settings>,
    plan: Plan,
    name: Seq<char>,
    hash: String,
)
    requires
        previous.revision < u64::MAX,
        call_ensures(compile_all, (source, previous, actual), plan),
        call_ensures(source_hash, (source,), hash),
    ensures
        plans(source@, previous, actual.deep_view(), plan, name),
        plan.state.source_hash@ == hash@,
{
    lemma_plans(source@, previous, actual.deep_view(), plan, name);
}

proof fn lemma_plans(
    source: SourceView,
    previous: &StateSnapshot,
    actual: ProfilesMap,
    plan: Plan,
    name: Seq<char>,
)
    requires
        previous.revision < u64::MAX,
        plan_for(source, previous@, actual, plan),
    ensures
        plans(source, previous, actual, plan, name),
{
    let hashes = plan.state@.materialized_hashes;
    assert(hashes.contains_key(name) <==> plan.state.materialized_hashes@.contains_key(name));
    assert(hashes == hashes_of(compiled(source)));
    if hashes.contains_key(name) {
        assert(hashes[name] == plan.state.materialized_hashes@[name]@);
    }
}

/// The state after settings were written remembers what it is given.
pub proof fn law_remembering(
    source: &Source,
    revision: u64,
    outputs: &Table<Settings>,
    prefixes: Names,
    state: StateSnapshot,
    hash: String,
    name: Seq<char>,
)
    requires
        call_ensures(state_for, (source, revision, outputs, prefixes), state),
        call_ensures(source_hash, (source,), hash),
    ensures
        state.revision == revision,
        state.source_hash@ == hash@,
        state.materialized.deep_view() == outputs.deep_view(),
        state.known_setting_prefixes@ == prefixes@,
        state.materialized_hashes@.contains_key(name) <==> outputs@.contains_key(name),
        outputs@.contains_key(name) ==> state.materialized_hashes@[name]@ == blake3_hex(
            compact(exported(Json::Object(outputs@[name].deep_view()))),
        ),
{
    let hashes = state@.materialized_hashes;
    assert(hashes.contains_key(name) <==> state.materialized_hashes@.contains_key(name));
    if hashes.contains_key(name) {
        assert(hashes[name] == state.materialized_hashes@[name]@);
    }
    assert(outputs.deep_view().contains_key(name) <==> outputs@.contains_key(name));
}

/// Nothing has changed since the settings were last written: the source has the hash that is
/// remembered, and the profiles of VS Code are those that are remembered, with their hashes.
pub open spec fn as_remembered(
    source: SourceView,
    previous: &StateSnapshot,
    actual: ProfilesMap,
) -> bool {
    &&& previous.source_hash@ == hash_of_source(source)
    &&& forall|name: Seq<char>|
        (#[trigger] previous.materialized_hashes@.contains_key(name) <==> actual.contains_key(name))
            && (actual.contains_key(name) ==> previous.materialized_hashes@[name]@ == blake3_hex(
            compact(exported(Json::Object(actual[name]))),
        ))
}

proof fn lemma_as_remembered(source: SourceView, previous: &StateSnapshot, actual: ProfilesMap)
    ensures
        unchanged(source, previous@, actual) <==> as_remembered(source, previous, actual),
{
    let hashes = previous@.materialized_hashes;
    let there = hashes_of(actual);
    if unchanged(source, previous@, actual) {
        assert forall|name: Seq<char>|
            (#[trigger] previous.materialized_hashes@.contains_key(name) <==> actual.contains_key(
                name,
            )) && (actual.contains_key(name) ==> previous.materialized_hashes@[name]@
                == blake3_hex(compact(exported(Json::Object(actual[name]))))) by {
            assert(hashes.contains_key(name) <==> there.contains_key(name));
            assert(hashes.contains_key(name) <==> previous.materialized_hashes@.contains_key(name));
            if hashes.contains_key(name) {
                assert(hashes[name] == previous.materialized_hashes@[name]@);
            }
        }
    }
    if as_remembered(source, previous, actual) {
        assert(hashes =~= there) by {
            assert forall|name: Seq<char>|
                #![trigger hashes.dom().contains(name)]
                hashes.dom().contains(name) == there.dom().contains(name) && (hashes.dom().contains(
                    name,
                ) ==> hashes[name] == there[name]) by {
                assert(previous.materialized_hashes@.contains_key(name) <==> actual.contains_key(
                    name,
                ));
            }
        }
    }
}

/// What is found when a source is reconciled with VS Code. Where nothing was ever written there is
/// no state, and where all is as remembered it is unchanged. Otherwise settings that changed on
/// both sides to two values are a conflict, and nothing is merged. Without any, what changed in VS
/// Code alone is taken over, and a plan is made for the source that this gives.
pub proof fn law_finding_changes(
    source: &Source,
    previous: &StateSnapshot,
    actual: &Table<Settings>,
    found: Reconciliation,
    profile: Seq<char>,
    setting: Seq<char>,
)
    requires
        call_ensures(reconcile_all, (source, previous, actual), found),
    ensures
        ({
            let before = previous.materialized.deep_view();
            let there = actual.deep_view();
            let none = forall|name: Seq<char>| !(#[trigger] previous.materialized@.contains_key(
                name,
            ));
            let same = as_remembered(source@, previous, there);
            let apart = exists|p: Seq<char>, k: Seq<char>| #[trigger]
                changed_apart(source@, before, there, p, k);
            let last = previous.revision == u64::MAX;
            &&& found is NoState <==> none
            &&& found is Unchanged <==> !none && same
            &&& found is Conflict <==> !none && !same && apart
            &&& found is LastRevision <==> !none && !same && !apart && last
            &&& found is Merged <==> !none && !same && !apart && !last
            &&& found matches Reconciliation::Unchanged { revision } ==> revision
                == previous.revision
            &&& found matches Reconciliation::Conflict(conflicts) ==> reports(
                source@,
                before,
                there,
                conflicts@,
            )
            &&& found matches Reconciliation::Merged { source: merged, changed_source, plan } ==> {
                &&& reconciles(
                    source@,
                    before,
                    there,
                    known_prefix(previous.known_setting_prefixes@, setting),
                    merged@,
                    profile,
                    setting,
                )
                &&& changed_source <==> exists|p: Seq<char>, k: Seq<char>| #[trigger]
                    changed_there(source@, before, there, p, k)
                &&& !changed_source ==> merged@ == source@
                &&& plans(merged@, previous, there, plan, profile)
            }
        }),
{
    let before = previous.materialized.deep_view();
    let there = actual.deep_view();
    assert(previous@.materialized.dom() == Set::<Seq<char>>::empty() <==> forall|name: Seq<char>|
        !(#[trigger] previous.materialized@.contains_key(name))) by {
        if forall|name: Seq<char>| !(#[trigger] previous.materialized@.contains_key(name)) {
            assert(previous@.materialized.dom() =~= Set::<Seq<char>>::empty());
        } else {
            let name = choose|name: Seq<char>| previous.materialized@.contains_key(name);
            assert(previous@.materialized.dom().contains(name));
        }
    }
    lemma_as_remembered(source@, previous, there);
    if !(previous@.materialized.dom() == Set::<Seq<char>>::empty()) && !unchanged(
        source@,
        previous@,
        there,
    ) {
        let result = choose|result: ReconcileResult| #[trigger]
            merged_by_prefix(source@, previous@, there, result) && if result.conflicts@.len() > 0 {
                found matches Reconciliation::Conflict(conflicts) && conflict_views(conflicts@)
                    == conflict_views(result.conflicts@)
            } else if previous.revision == u64::MAX {
                found == Reconciliation::LastRevision
            } else {
                found matches Reconciliation::Merged { source: merged, changed_source, plan }
                    && merged@ == result.source@ && changed_source == result.changed_source
                    && plan_for(merged@, previous@, there, plan)
            };
        lemma_merged_effect(source@, previous@, there, result, profile, setting);
        assert(result.conflicts@.len() > 0 <==> exists|p: Seq<char>, k: Seq<char>| #[trigger]
            changed_apart(source@, before, there, p, k)) by {
            if result.conflicts@.len() > 0 {
                let conflict = result.conflicts@[0];
                assert(changed_apart(
                    source@,
                    before,
                    there,
                    conflict.profile@,
                    conflict.setting@,
                ));
            }
            if exists|p: Seq<char>, k: Seq<char>| #[trigger]
                changed_apart(source@, before, there, p, k) {
                let (p, k) = choose|p: Seq<char>, k: Seq<char>| #[trigger]
                    changed_apart(source@, before, there, p, k);
                let i = choose|i: int|
                    0 <= i < result.conflicts@.len() && (
                    #[trigger] result.conflicts@[i]).profile@ == p && result.conflicts@[i].setting@
                        == k;
            }
        }
        match found {
            Reconciliation::Conflict(conflicts) => {
                lemma_same_reports(source@, before, there, result.conflicts@, conflicts@);
            },
            Reconciliation::Merged { source: merged, changed_source, plan } => {
                lemma_plans(merged@, previous, there, plan, profile);
            },
            _ => {},
        }
    }
}

/// Conflicts that are the same report the same.
proof fn lemma_same_reports(
    source: SourceView,
    previous: ProfilesMap,
    actual: ProfilesMap,
    first: Seq<Conflict>,
    second: Seq<Conflict>,
)
    requires
        reports(source, previous, actual, first),
        conflict_views(first) == conflict_views(second),
    ensures
        reports(source, previous, actual, second),
{
    assert(conflict_views(first).len() == first.len());
    assert(conflict_views(second).len() == second.len());
    assert forall|i: int|
        #![trigger first[i]]
        #![trigger second[i]]
        0 <= i < first.len() implies first[i]@ == second[i]@ && first[i].profile@
        == second[i].profile@ && first[i].setting@ == second[i].setting@ by {
        assert(conflict_views(first)[i] == first[i]@);
        assert(conflict_views(second)[i] == second[i]@);
        assert(first[i]@.place == second[i]@.place);
    }
    assert forall|p: Seq<char>, k: Seq<char>|
        #![trigger changed_apart(source, previous, actual, p, k)]
        changed_apart(source, previous, actual, p, k) <==> exists|i: int|
            0 <= i < second.len() && (#[trigger] second[i]).profile@ == p && second[i].setting@
                == k by {
        if changed_apart(source, previous, actual, p, k) {
            let i = choose|i: int|
                0 <= i < first.len() && (#[trigger] first[i]).profile@ == p && first[i].setting@
                    == k;
            assert(second[i].profile@ == p);
        }
        if exists|i: int|
            0 <= i < second.len() && (#[trigger] second[i]).profile@ == p && second[i].setting@
                == k {
            let i = choose|i: int|
                0 <= i < second.len() && (#[trigger] second[i]).profile@ == p && second[i].setting@
                    == k;
            assert(first[i].profile@ == p);
        }
    }
    assert forall|i: int|
        #![trigger second[i]]
        0 <= i < second.len() implies crate::laws::changes::option_view(second[i].previous)
        == crate::laws::changes::option_view(first[i].previous)
        && crate::laws::changes::option_view(second[i].source)
        == crate::laws::changes::option_view(first[i].source) && crate::laws::changes::option_view(
        second[i].actual,
    ) == crate::laws::changes::option_view(first[i].actual) by {
        assert(first[i]@ == second[i]@);
    }
    assert forall|i: int, j: int|
        #![trigger second[i], second[j]]
        0 <= i < j < second.len() implies precedes(second[i].profile@, second[j].profile@) || (
    second[i].profile@ == second[j].profile@ && precedes(
        second[i].setting@,
        second[j].setting@,
    )) by {
        assert(first[i]@ == second[i]@);
        assert(first[j]@ == second[j]@);
    }
}

/// The profiles of VS Code and those of a source are brought together where both have the same
/// names: each name then has the last profile of VS Code of that name. Otherwise the first name
/// that VS Code does not have is told, or, where it has them all, the first that the source does
/// not have.
pub proof fn law_mapping_profiles(
    profiles: Vec<Profile>,
    source: &Source,
    result: Result<Table<Profile>, MappingError>,
    i: int,
)
    requires
        call_ensures(mapped_profiles, (profiles, source), result),
    ensures
        ({
            let row = profiles@;
            let wanted = source@.profiles;
            &&& result is Ok <==> forall|name: Seq<char>|
                #[trigger] wanted.contains_key(name) <==> is_named(row, name)
            &&& result is Ok && last_named(row, i) ==> result->Ok_0@.contains_key(row[i].name@)
                && result->Ok_0@[row[i].name@] == row[i]
            &&& result matches Ok(mapped) ==> forall|name: Seq<char>| #[trigger]
                mapped@.contains_key(name) <==> wanted.contains_key(name)
            &&& result matches Err(MappingError::Missing(name)) ==> wanted.contains_key(name@)
                && !is_named(row, name@) && forall|other: Seq<char>| #[trigger]
                wanted.contains_key(other) && !is_named(row, other) ==> other == name@ || precedes(
                    name@,
                    other,
                )
            &&& result matches Err(MappingError::NotAdopted(name)) ==> !wanted.contains_key(name@)
                && is_named(row, name@) && (forall|other: Seq<char>| #[trigger]
                wanted.contains_key(other) ==> is_named(row, other)) && forall|other: Seq<char>|
                 #[trigger]
                is_named(row, other) && !wanted.contains_key(other) ==> other == name@ || precedes(
                    name@,
                    other,
                )
        }),
{
    let row = profiles@;
    let wanted = source@.profiles;
    let available = by_name(row);
    assert forall|name: Seq<char>| #[trigger]
        available.contains_key(name) <==> is_named(row, name) by {
        lemma_by_name(row, name, i);
    }
    let missing = wanted.dom().difference(available.dom());
    let extra = available.dom().difference(wanted.dom());
    if 0 <= i < row.len() {
        lemma_by_name(row, row[i].name@, i);
    }
    match result {
        Ok(_) => {
            assert forall|name: Seq<char>|
                #[trigger] wanted.contains_key(name) <==> is_named(row, name) by {
                assert(available.dom().contains(name) == wanted.dom().contains(name));
                assert(available.contains_key(name) <==> is_named(row, name));
            }
        },
        Err(MappingError::Missing(name)) => {
            assert(missing.contains(name@));
            assert(available.contains_key(name@) <==> is_named(row, name@));
            assert forall|other: Seq<char>| #[trigger]
                wanted.contains_key(other) && !is_named(row, other) implies other == name@
                || precedes(name@, other) by {
                assert(available.contains_key(other) <==> is_named(row, other));
                assert(missing.contains(other));
            }
        },
        Err(MappingError::NotAdopted(name)) => {
            assert(extra.contains(name@));
            assert(available.contains_key(name@) <==> is_named(row, name@));
            assert forall|other: Seq<char>| #[trigger] wanted.contains_key(other) implies is_named(
                row,
                other,
            ) by {
                assert(!missing.contains(other));
                assert(available.contains_key(other) <==> is_named(row, other));
            }
            assert forall|other: Seq<char>| #[trigger]
                is_named(row, other) && !wanted.contains_key(other) implies other == name@
                || precedes(name@, other) by {
                assert(available.contains_key(other) <==> is_named(row, other));
                assert(extra.contains(other));
            }
        },
    }
}

/// The profile at a place is the last of its name.
pub open spec fn last_named(profiles: Seq<Profile>, i: int) -> bool {
    0 <= i < profiles.len() && forall|j: int|
        i < j < profiles.len() ==> (#[trigger] profiles[j]).name@ != profiles[i].name@
}

/// One of the profiles has a name.
pub open spec fn is_named(profiles: Seq<Profile>, name: Seq<char>) -> bool {
    exists|i: int| 0 <= i < profiles.len() && (#[trigger] profiles[i]).name@ == name
}

proof fn lemma_by_name(profiles: Seq<Profile>, name: Seq<char>, i: int)
    ensures
        by_name(profiles).contains_key(name) <==> is_named(profiles, name),
        0 <= i < profiles.len() && profiles[i].name@ == name && (forall|j: int|
            i < j < profiles.len() ==> (#[trigger] profiles[j]).name@ != name) ==> by_name(
            profiles,
        )[name] == profiles[i],
    decreases profiles.len(),
{
    if profiles.len() > 0 {
        let fewer = profiles.drop_last();
        let n = profiles.len() - 1;
        lemma_by_name(fewer, name, i);
        if is_named(fewer, name) {
            let k = choose|k: int| 0 <= k < fewer.len() && (#[trigger] fewer[k]).name@ == name;
            assert(profiles[k].name@ == name);
        }
        if is_named(profiles, name) {
            let k = choose|k: int| 0 <= k < profiles.len() && (#[trigger] profiles[k]).name@ == name;
            if k < n {
                assert(fewer[k].name@ == name);
            }
        }
        if profiles.last().name@ == name {
            assert(profiles[n].name@ == name);
        }
        if 0 <= i < n && profiles[i].name@ == name && (forall|j: int|
            i < j < profiles.len() ==> (#[trigger] profiles[j]).name@ != name) {
            assert(profiles[n].name@ != name);
            assert forall|j: int| i < j < fewer.len() implies (#[trigger] fewer[j]).name@
                != name by {
                assert(profiles[j].name@ != name);
            }
            assert(fewer[i] == profiles[i]);
        }
    }
}

/// A profile of a source may not stand: its name is blank, it has `$unset` among its settings, or
/// it both has a setting and refuses it.
pub open spec fn may_not_stand(source: SourceView, name: Seq<char>) -> bool {
    &&& source.profiles.contains_key(name)
    &&& {
        ||| blank(name)
        ||| source.profiles[name].settings.contains_key("$unset"@)
        ||| exists|setting: Seq<char>|
            source.profiles[name].uninherit.contains(setting)
                && #[trigger] source.profiles[name].settings.contains_key(setting)
    }
}

/// A source stands where its version is the one there is and each of its profiles may stand.
/// Otherwise the version is told, or what is wrong with the first profile that may not stand: a
/// blank name, `$unset`, or the first setting that it has and refuses, in this order.
pub proof fn law_validating(source: &Source, result: Result<(), CoreError>)
    requires
        call_ensures(validate_source, (source,), result),
    ensures
        ({
            let flawless = forall|name: Seq<char>| !(#[trigger] may_not_stand(source@, name));
            &&& result is Ok <==> source.version == 1 && flawless
            &&& source.version != 1 <==> (result matches Err(CoreError::Version(_)))
            &&& result matches Err(CoreError::Version(version)) ==> version == source.version
            &&& !(result matches Err(CoreError::Jsonc(_)))
            &&& result matches Err(CoreError::EmptyProfile) ==> exists|name: Seq<char>| #[trigger]
                first_flaw(source@, name) && blank(name)
            &&& result matches Err(CoreError::ObsoleteUnset { profile }) ==> first_flaw(
                source@,
                profile@,
            ) && !blank(profile@) && source@.profiles[profile@].settings.contains_key("$unset"@)
            &&& result matches Err(CoreError::ValueAndUninherit { profile, setting }) ==> {
                let delta = source@.profiles[profile@];
                &&& first_flaw(source@, profile@)
                &&& !blank(profile@)
                &&& !delta.settings.contains_key("$unset"@)
                &&& delta.settings.contains_key(setting@)
                &&& delta.uninherit.contains(setting@)
                &&& forall|other: Seq<char>| #[trigger]
                    delta.settings.contains_key(other) && delta.uninherit.contains(other) ==> other
                        == setting@ || precedes(setting@, other)
            }
        }),
{
    assert forall|name: Seq<char>| #[trigger]
        may_not_stand(source@, name) <==> flawed(source@).contains(name) by {
        if source@.profiles.contains_key(name) {
            let delta = source@.profiles[name];
            if overlap(delta) != Set::<Seq<char>>::empty() {
                assert(!(overlap(delta) =~= Set::<Seq<char>>::empty()));
                let setting = choose|setting: Seq<char>| overlap(delta).contains(setting);
                assert(delta.settings.contains_key(setting));
            }
            if exists|setting: Seq<char>|
                delta.uninherit.contains(setting) && #[trigger] delta.settings.contains_key(
                    setting,
                ) {
                let setting = choose|setting: Seq<char>|
                    delta.uninherit.contains(setting) && #[trigger] delta.settings.contains_key(
                        setting,
                    );
                assert(overlap(delta).contains(setting));
            }
        }
    }
    assert(sound_source(source@) <==> source.version == 1 && forall|name: Seq<char>| !(
    #[trigger] may_not_stand(source@, name))) by {
        if sound_source(source@) {
            assert forall|name: Seq<char>| !(#[trigger] may_not_stand(source@, name)) by {
                assert(may_not_stand(source@, name) <==> flawed(source@).contains(name));
                if source@.profiles.contains_key(name) {
                    assert(sound_profile(name, source@.profiles[name]));
                }
            }
        }
        if source.version == 1 && forall|name: Seq<char>| !(
        #[trigger] may_not_stand(source@, name)) {
            assert forall|name: Seq<char>|
                #![trigger source@.profiles[name]]
                source@.profiles.contains_key(name) implies sound_profile(
                name,
                source@.profiles[name],
            ) by {
                assert(!may_not_stand(source@, name));
                assert(may_not_stand(source@, name) <==> flawed(source@).contains(name));
            }
        }
    }
    assert forall|name: Seq<char>| is_first(name, flawed(source@)) implies first_flaw(
        source@,
        name,
    ) by {
        assert(may_not_stand(source@, name) <==> flawed(source@).contains(name));
        assert forall|other: Seq<char>| #[trigger] may_not_stand(source@, other) implies other
            == name || precedes(name, other) by {
            assert(flawed(source@).contains(other));
        }
    }
    match result {
        Err(CoreError::EmptyProfile) => {
            let name = choose|name: Seq<char>|
                #![trigger flawed(source@).contains(name)]
                is_first(name, flawed(source@)) && blank(name);
            assert(first_flaw(source@, name));
        },
        Err(CoreError::ValueAndUninherit { profile, setting }) => {
            let delta = source@.profiles[profile@];
            assert(overlap(delta).contains(setting@));
            assert forall|other: Seq<char>| #[trigger]
                delta.settings.contains_key(other) && delta.uninherit.contains(other) implies other
                == setting@ || precedes(setting@, other) by {
                assert(overlap(delta).contains(other));
            }
        },
        _ => {},
    }
}

/// A profile is the first of those that may not stand, in the order of the names.
pub open spec fn first_flaw(source: SourceView, name: Seq<char>) -> bool {
    &&& may_not_stand(source, name)
    &&& forall|other: Seq<char>| #[trigger]
        may_not_stand(source, other) ==> other == name || precedes(name, other)
}

} // verus!
