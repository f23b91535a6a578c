//! What the service does with a source, a state and the settings of VS Code: which
//! settings are written, what the next state is, and what is answered.

use vstd::prelude::*;
use crate::answers::{diff_answer, law_clean_means_same};
use crate::backend::Profile;
use crate::codec::{content_hash, settings_hash};
use crate::hash::{hash_of_source, source_hash};
use crate::inherit::{compile, compiled};
use crate::json::{
    at, law_same_json_reflexive, same_json, same_option, same_settings, Json, Settings, SettingsMap,
};
use crate::migrate::{
    change_views, changes_at, default_settings, migrated, migration_preview, newly_inherited,
    MigrationPreview,
};
use crate::place::{ranked, Place};
use crate::protocol::{has_known_prefix, known_prefix};
use crate::reconcile::{
    absorbed, answered, answers, clashing, conflict_views, conflicts_at, drifting, reconcile,
    reconciled, setting_at, sides_of, Conflict, ProfilesMap, ReconcileResult,
};
use crate::source::{copy_profiles, is_first, Source, SourceView, StateSnapshot};
use crate::table::{first_of, lemma_first_of, lemma_first_of_ends, lists, Names, Table};
use crate::text::{precedes, same_text};

verus! {

/// What is known of the settings that were last written.
#[verifier::ext_equal]
pub struct StateView {
    pub revision: u64,
    pub source_hash: Seq<char>,
    pub materialized: ProfilesMap,
    pub materialized_hashes: Map<Seq<char>, Seq<char>>,
    pub known_setting_prefixes: Set<Seq<char>>,
}

impl View for StateSnapshot {
    type V = StateView;

    open spec fn view(&self) -> StateView {
        StateView {
            revision: self.revision,
            source_hash: self.source_hash@,
            materialized: self.materialized.deep_view(),
            materialized_hashes: self.materialized_hashes.deep_view(),
            known_setting_prefixes: self.known_setting_prefixes@,
        }
    }
}

/// The hashes of the settings of every profile.
pub open spec fn hashes_of(profiles: ProfilesMap) -> Map<Seq<char>, Seq<char>> {
    Map::new(
        |name: Seq<char>| profiles.contains_key(name),
        |name: Seq<char>| settings_hash(profiles[name]),
    )
}

/// Hashes the settings of every profile.
pub fn hash_profiles(profiles: &Table<Settings>) -> (hashes: Table<String>)
    ensures
        hashes.deep_view() == hashes_of(profiles.deep_view()),
{
    let mut hashes: Table<String> = Table::new();
    let len = profiles.len();
    let ghost names = profiles.names();
    let mut i: usize = 0;
    proof {
        lemma_first_of_ends(names, profiles@.dom());
        assert(hashes@.dom() =~= first_of(names, 0));
    }
    while i < len
        invariant
            i <= len,
            len == names.len(),
            names == profiles.names(),
            lists(names, profiles@.dom()),
            hashes@.dom() == first_of(names, i as int),
            forall|name: Seq<char>| #[trigger]
                hashes@.contains_key(name) ==> hashes@[name]@ == settings_hash(
                    profiles@[name].deep_view(),
                ),
        decreases len - i,
    {
        proof {
            lemma_first_of(names, i as int);
        }
        let settings = profiles.value(i);
        hashes.insert(profiles.name(i).to_owned(), content_hash(settings));
        assert(hashes@.dom() =~= first_of(names, i + 1));
        i += 1;
    }
    proof {
        lemma_first_of_ends(names, profiles@.dom());
        assert(hashes.deep_view() =~= hashes_of(profiles.deep_view())) by {
            assert forall|name: Seq<char>|
                #![trigger hashes.deep_view().dom().contains(name)]
                hashes.deep_view().dom().contains(name) implies hashes.deep_view()[name]
                == hashes_of(profiles.deep_view())[name] by {
                assert(hashes@.contains_key(name));
            }
        }
    }
    hashes
}

/// Whether every name of one table has the same text in another.
fn texts_in(a: &Table<String>, b: &Table<String>) -> (all: bool)
    ensures
        all == forall|name: Seq<char>|
            a.deep_view().contains_key(name) ==> at(b.deep_view(), name) == Some(
                #[trigger] a.deep_view()[name],
            ),
{
    let len = a.len();
    let ghost names = a.names();
    let ghost x = a.deep_view();
    let ghost y = b.deep_view();
    let mut i: usize = 0;
    proof {
        lemma_first_of_ends(names, a@.dom());
    }
    while i < len
        invariant
            i <= len,
            len == names.len(),
            names == a.names(),
            lists(names, a@.dom()),
            x == a.deep_view(),
            y == b.deep_view(),
            forall|name: Seq<char>| #[trigger]
                first_of(names, i as int).contains(name) ==> at(y, name) == Some(x[name]),
        decreases len - i,
    {
        proof {
            lemma_first_of(names, i as int);
        }
        let ghost name = names[i as int];
        let here = a.value(i);
        assert(x.contains_key(name) && x[name] == here@);
        let same = match b.get(a.name(i)) {
            Some(there) => same_text(here.as_str(), there.as_str()),
            None => false,
        };
        if !same {
            assert(at(y, name) != Some(x[name]));
            return false;
        }
        i += 1;
    }
    proof {
        lemma_first_of_ends(names, a@.dom());
        assert forall|name: Seq<char>| x.contains_key(name) implies at(y, name) == Some(
            #[trigger] x[name],
        ) by {
            assert(first_of(names, len as int).contains(name));
        }
    }
    true
}

/// Whether two tables of texts are equal.
pub fn same_texts(a: &Table<String>, b: &Table<String>) -> (same: bool)
    ensures
        same == (a.deep_view() == b.deep_view()),
{
    let same = texts_in(a, b) && texts_in(b, a);
    proof {
        let x = a.deep_view();
        let y = b.deep_view();
        if same {
            assert(x =~= y) by {
                assert forall|name: Seq<char>|
                    #![trigger x.dom().contains(name)]
                    x.dom().contains(name) == y.dom().contains(name) && (x.dom().contains(name)
                        ==> x[name] == y[name]) by {
                    if x.contains_key(name) {
                        assert(at(y, name) == Some(x[name]));
                    }
                    if y.contains_key(name) {
                        assert(at(x, name) == Some(y[name]));
                    }
                }
            }
        }
    }
    same
}

/// The state after the settings of a source were written.
pub open spec fn state_after(
    source: SourceView,
    revision: u64,
    outputs: ProfilesMap,
    prefixes: Set<Seq<char>>,
) -> StateView {
    StateView {
        revision,
        source_hash: hash_of_source(source),
        materialized: outputs,
        materialized_hashes: hashes_of(outputs),
        known_setting_prefixes: prefixes,
    }
}

/// The state after the settings of a source were written.
pub fn state_for(
    source: &Source,
    revision: u64,
    outputs: &Table<Settings>,
    known_setting_prefixes: Names,
) -> (state: StateSnapshot)
    ensures
        state@ == state_after(
            source@,
            revision,
            outputs.deep_view(),
            known_setting_prefixes@,
        ),
{
    StateSnapshot {
        revision,
        source_hash: source_hash(source),
        materialized: copy_profiles(outputs),
        materialized_hashes: hash_profiles(outputs),
        known_setting_prefixes,
    }
}

/// The profiles whose settings are not what VS Code has, by their hashes.
pub open spec fn stale(actual: ProfilesMap, outputs: ProfilesMap) -> Set<Seq<char>> {
    Set::new(
        |name: Seq<char>|
            outputs.contains_key(name) && at(hashes_of(actual), name) != Some(
                settings_hash(outputs[name]),
            ),
    )
}

/// Finds the profiles whose settings have to be written.
pub fn profiles_to_write(actual: &Table<Settings>, outputs: &Table<Settings>) -> (names: Names)
    ensures
        names@ == stale(actual.deep_view(), outputs.deep_view()),
{
    let ghost a = actual.deep_view();
    let ghost o = outputs.deep_view();
    let mut stale_names = Names::new();
    let len = outputs.len();
    let ghost names = outputs.names();
    let mut i: usize = 0;
    proof {
        lemma_first_of_ends(names, outputs@.dom());
        assert(stale_names@ =~= stale(a, o).intersect(first_of(names, 0)));
    }
    while i < len
        invariant
            i <= len,
            len == names.len(),
            names == outputs.names(),
            lists(names, outputs@.dom()),
            a == actual.deep_view(),
            o == outputs.deep_view(),
            stale_names@ == stale(a, o).intersect(first_of(names, i as int)),
        decreases len - i,
    {
        proof {
            lemma_first_of(names, i as int);
        }
        let settings = outputs.value(i);
        let name = outputs.name(i);
        assert(o.contains_key(name@) && o[name@] == settings.deep_view());
        let same = match actual.get(name) {
            Some(there) => same_text(
                content_hash(there).as_str(),
                content_hash(settings).as_str(),
            ),
            None => false,
        };
        assert(same == (at(hashes_of(a), name@) == Some(settings_hash(o[name@]))));
        if !same {
            stale_names.insert(name.to_owned());
        }
        assert(stale_names@ =~= stale(a, o).intersect(first_of(names, i + 1)));
        i += 1;
    }
    proof {
        lemma_first_of_ends(names, outputs@.dom());
        assert(stale(a, o).intersect(outputs@.dom()) =~= stale(a, o));
    }
    stale_names
}

/// What is done to bring VS Code to what a source says.
#[derive(Debug, PartialEq)]
pub struct Plan {
    /// The settings of every profile.
    pub outputs: Table<Settings>,
    /// The profiles whose settings are written.
    pub writes: Names,
    /// The state that is written then.
    pub state: StateSnapshot,
}

/// A plan brings VS Code to what a source says.
pub open spec fn plan_for(
    source: SourceView,
    previous: StateView,
    actual: ProfilesMap,
    plan: Plan,
) -> bool {
    &&& plan.outputs.deep_view() == compiled(source)
    &&& plan.writes@ == stale(actual, compiled(source))
    &&& plan.state@ == state_after(
        source,
        (previous.revision + 1) as u64,
        compiled(source),
        previous.known_setting_prefixes,
    )
}

/// Plans how VS Code is brought to what a source says.
pub fn compile_all(
    source: &Source,
    previous: &StateSnapshot,
    actual: &Table<Settings>,
) -> (plan: Plan)
    requires
        previous.revision < u64::MAX,
    ensures
        plan_for(source@, previous@, actual.deep_view(), plan),
{
    let outputs = compile(source);
    let writes = profiles_to_write(actual, &outputs);
    let state = state_for(
        source,
        previous.revision + 1,
        &outputs,
        previous.known_setting_prefixes.clone(),
    );
    Plan { outputs, writes, state }
}

/// What was found when a source was reconciled with VS Code.
#[derive(Debug, PartialEq)]
pub enum Reconciliation {
    /// Nothing was ever written: the source has to be compiled first.
    NoState,
    /// Neither the source nor VS Code has changed since.
    Unchanged { revision: u64 },
    /// Settings changed on both sides.
    Conflict(Vec<Conflict>),
    /// The changes of VS Code were taken over.
    Merged { source: Source, changed_source: bool, plan: Plan },
    /// The changes of VS Code could be taken over, but the revision of the state is the last
    /// one there is.
    LastRevision,
}

/// The answers that the known prefixes give on a row of settings.
pub open spec fn prefix_answers(prefixes: Set<Seq<char>>, places: Seq<Place>) -> Seq<bool> {
    Seq::new(places.len(), |i: int| known_prefix(prefixes, places[i].setting))
}

/// What reconciling gives when the base may hold the settings of the known prefixes.
pub open spec fn merged_by_prefix(
    source: SourceView,
    previous: StateView,
    actual: ProfilesMap,
    result: ReconcileResult,
) -> bool {
    let sides = sides_of(source, previous.materialized, actual);
    &&& exists|places: Seq<Place>|
        #![trigger ranked(places, clashing(sides))]
        ranked(places, clashing(sides)) && conflict_views(result.conflicts@) == conflicts_at(
            sides,
            places,
        )
    &&& exists|places: Seq<Place>|
        #![trigger ranked(places, drifting(sides))]
        ranked(places, drifting(sides)) && result.source@ == absorbed(
            source,
            actual,
            places,
            prefix_answers(previous.known_setting_prefixes, places),
        )
    &&& result.changed_source == (drifting(sides) != Set::<Place>::empty())
    &&& result.outputs.deep_view() == compiled(result.source@)
}

/// Reconciles a source with VS Code: the base may hold the settings of the known prefixes.
pub fn reconcile_by_prefix(
    source: &Source,
    previous: &StateSnapshot,
    actual: &Table<Settings>,
) -> (result: ReconcileResult)
    ensures
        merged_by_prefix(source@, previous@, actual.deep_view(), result),
{
    let prefixes = &previous.known_setting_prefixes;
    let is_base = |setting: &str| -> (known: bool)
        ensures
            known == known_prefix(prefixes@, setting@),
        { has_known_prefix(prefixes, setting) };
    let result = reconcile(source, previous, actual, is_base);
    proof {
        let sides = sides_of(source@, previous@.materialized, actual.deep_view());
        let (places, given) = choose|places: Seq<Place>, given: Seq<bool>|
            #![trigger reconciled(source@, sides, places, given, result.source@)]
            reconciled(source@, sides, places, given, result.source@) && answered(
                is_base,
                places,
                given,
            );
        assert(given =~= prefix_answers(prefixes@, places)) by {
            assert forall|i: int| 0 <= i < places.len() implies given[i] == known_prefix(
                prefixes@,
                places[i].setting,
            ) by {
                assert(answers(is_base, places[i].setting, given[i]));
            }
        }
        assert(ranked(places, drifting(sides)));
    }
    result
}

/// Whether nothing has changed since the settings were last written, by the hashes.
pub open spec fn unchanged(source: SourceView, previous: StateView, actual: ProfilesMap) -> bool {
    previous.source_hash == hash_of_source(source) && previous.materialized_hashes == hashes_of(
        actual,
    )
}

/// What is found when a source is reconciled with VS Code.
pub open spec fn reconciliation(
    source: SourceView,
    previous: StateView,
    actual: ProfilesMap,
    found: Reconciliation,
) -> bool {
    if previous.materialized.dom() == Set::<Seq<char>>::empty() {
        found == Reconciliation::NoState
    } else if unchanged(source, previous, actual) {
        found == (Reconciliation::Unchanged { revision: previous.revision })
    } else {
        exists|result: ReconcileResult| #[trigger]
            merged_by_prefix(source, previous, actual, result) && if result.conflicts@.len() > 0 {
                found matches Reconciliation::Conflict(conflicts) && conflict_views(conflicts@)
                    == conflict_views(result.conflicts@)
            } else if previous.revision == u64::MAX {
                found == Reconciliation::LastRevision
            } else {
                found matches Reconciliation::Merged { source: merged, changed_source, plan }
                    && merged@ == result.source@ && changed_source == result.changed_source
                    && plan_for(merged@, previous, actual, plan)
            }
    }
}

/// Reconciles a source with VS Code.
pub fn reconcile_all(
    source: &Source,
    previous: &StateSnapshot,
    actual: &Table<Settings>,
) -> (found: Reconciliation)
    ensures
        reconciliation(source@, previous@, actual.deep_view(), found),
{
    let empty = previous.materialized.is_empty();
    assert(previous@.materialized.dom() =~= previous.materialized@.dom());
    if empty {
        return Reconciliation::NoState;
    }
    let hashes = hash_profiles(actual);
    if same_text(previous.source_hash.as_str(), source_hash(source).as_str()) && same_texts(
        &previous.materialized_hashes,
        &hashes,
    ) {
        return Reconciliation::Unchanged { revision: previous.revision };
    }
    let result = reconcile_by_prefix(source, previous, actual);
    let ghost whole = result;
    assert(merged_by_prefix(source@, previous@, actual.deep_view(), whole));
    if result.conflicts.len() > 0 {
        return Reconciliation::Conflict(result.conflicts);
    }
    if previous.revision == u64::MAX {
        return Reconciliation::LastRevision;
    }
    let plan = compile_all(&result.source, previous, actual);
    Reconciliation::Merged {
        source: result.source,
        changed_source: result.changed_source,
        plan,
    }
}

/// The settings of Default that the base holds by the known prefixes.
pub open spec fn base_by_prefix(actual: ProfilesMap, prefixes: Set<Seq<char>>) -> SettingsMap {
    default_settings(actual).restrict(
        Set::new(
            |setting: Seq<char>|
                default_settings(actual).contains_key(setting) && known_prefix(prefixes, setting),
        ),
    )
}

/// What a migration gives when the base holds the settings of the known prefixes.
pub open spec fn migrated_by_prefix(
    actual: ProfilesMap,
    prefixes: Set<Seq<char>>,
    preview: MigrationPreview,
) -> bool {
    let base = base_by_prefix(actual, prefixes);
    &&& preview.source@ == migrated(actual, base)
    &&& exists|places: Seq<Place>|
        #![trigger ranked(places, newly_inherited(actual, base))]
        ranked(places, newly_inherited(actual, base)) && change_views(preview.newly_inherited@)
            == changes_at(base, places)
}

/// The source that a migration would write: the base holds the settings of the known
/// prefixes.
pub fn build_preview(actual: &Table<Settings>, prefixes: &Names) -> (preview: MigrationPreview)
    ensures
        migrated_by_prefix(actual.deep_view(), prefixes@, preview),
{
    let is_base = |setting: &str| -> (known: bool)
        ensures
            known == known_prefix(prefixes@, setting@),
        { has_known_prefix(prefixes, setting) };
    let preview = migration_preview(actual, is_base);
    proof {
        let settings = default_settings(actual.deep_view());
        let base = base_by_prefix(actual.deep_view(), prefixes@);
        assert(preview.source@.base =~= base) by {
            assert forall|setting: Seq<char>|
                #![trigger base.dom().contains(setting)]
                preview.source@.base.dom().contains(setting) == base.dom().contains(setting) by {
                if settings.contains_key(setting) {
                    assert(answers(
                        is_base,
                        setting,
                        preview.source@.base.contains_key(setting),
                    ));
                }
            }
        }
    }
    preview
}

/// The state after a migration: nothing was written yet.
pub fn state_after_build(prefixes: Names) -> (state: StateSnapshot)
    ensures
        state@ == (StateView {
            revision: 0,
            source_hash: Seq::empty(),
            materialized: Map::empty(),
            materialized_hashes: Map::empty(),
            known_setting_prefixes: prefixes@,
        }),
{
    let fresh = StateSnapshot::default();
    let state = StateSnapshot {
        revision: fresh.revision,
        source_hash: fresh.source_hash,
        materialized: fresh.materialized,
        materialized_hashes: fresh.materialized_hashes,
        known_setting_prefixes: prefixes,
    };
    assert(state@.materialized =~= Map::<Seq<char>, SettingsMap>::empty());
    assert(state@.materialized_hashes =~= Map::<Seq<char>, Seq<char>>::empty());
    state
}

/// Which profiles the source and VS Code do not have in common.
#[derive(Debug, PartialEq)]
pub enum MappingError {
    /// A profile of the source that VS Code does not have.
    Missing(String),
    /// A profile of VS Code that the source does not have.
    NotAdopted(String),
}

/// The profiles by their names: of two of one name the later counts.
pub open spec fn by_name(profiles: Seq<Profile>) -> Map<Seq<char>, Profile>
    decreases profiles.len(),
{
    if profiles.len() == 0 {
        Map::empty()
    } else {
        by_name(profiles.drop_last()).insert(profiles.last().name@, profiles.last())
    }
}

/// What [`mapped_profiles`] gives.
pub open spec fn mapping_verdict(
    available: Map<Seq<char>, Profile>,
    source: SourceView,
    result: Result<Table<Profile>, MappingError>,
) -> bool {
    let missing = source.profiles.dom().difference(available.dom());
    let extra = available.dom().difference(source.profiles.dom());
    match result {
        Ok(profiles) => profiles@ == available && available.dom() == source.profiles.dom(),
        Err(MappingError::Missing(name)) => is_first(name@, missing),
        Err(MappingError::NotAdopted(name)) => missing == Set::<Seq<char>>::empty() && is_first(
            name@,
            extra,
        ),
    }
}

/// The first name of one table that another does not have.
fn first_absent<S, T>(table: &Table<S>, other: &Table<T>) -> (name: Option<String>)
    ensures
        match name {
            Some(name) => is_first(name@, table@.dom().difference(other@.dom())),
            None => table@.dom().difference(other@.dom()) == Set::<Seq<char>>::empty(),
        },
{
    let len = table.len();
    let ghost names = table.names();
    let ghost rest = table@.dom().difference(other@.dom());
    let mut i: usize = 0;
    while i < len
        invariant
            i <= len,
            len == names.len(),
            names == table.names(),
            lists(names, table@.dom()),
            rest == table@.dom().difference(other@.dom()),
            forall|j: int| 0 <= j < i ==> !rest.contains(#[trigger] names[j]),
        decreases len - i,
    {
        let name = table.name(i);
        if !other.contains_key(name) {
            assert forall|found: Seq<char>| #[trigger] rest.contains(found) implies found == name@
                || precedes(name@, found) by {
                assert(names.contains(found));
                let j = choose|j: int| 0 <= j < names.len() && names[j] == found;
                assert(!(j < i));
            }
            assert(rest.contains(name@));
            return Some(name.to_owned());
        }
        i += 1;
    }
    assert(rest =~= Set::<Seq<char>>::empty()) by {
        assert forall|found: Seq<char>| !rest.contains(found) by {
            if rest.contains(found) {
                assert(names.contains(found));
                let j = choose|j: int| 0 <= j < names.len() && names[j] == found;
                assert(!rest.contains(names[j]));
            }
        }
    }
    None
}

/// Finds the profile of VS Code for every profile of a source: both have to have the same.
pub fn mapped_profiles(profiles: Vec<Profile>, source: &Source) -> (result: Result<
    Table<Profile>,
    MappingError,
>)
    ensures
        mapping_verdict(by_name(profiles@), source@, result),
{
    let ghost row = profiles@;
    let mut available: Table<Profile> = Table::new();
    assert(row.take(0) =~= Seq::<Profile>::empty());
    for profile in it: profiles
        invariant
            it.seq() == row,
            available@ == by_name(row.take(it.index() as int)),
    {
        let ghost n = it.index() as int;
        proof {
            assert(row.take(n + 1).drop_last() =~= row.take(n));
            assert(row.take(n + 1).last() == profile);
        }
        available.insert(profile.name.clone(), profile);
    }
    assert(row.take(row.len() as int) =~= row);
    assert(source@.profiles.dom() =~= source.profiles@.dom());
    if let Some(name) = first_absent(&source.profiles, &available) {
        return Err(MappingError::Missing(name));
    }
    if let Some(name) = first_absent(&available, &source.profiles) {
        return Err(MappingError::NotAdopted(name));
    }
    proof {
        assert(available@.dom() =~= source@.profiles.dom()) by {
            assert forall|name: Seq<char>|
                #![trigger available@.dom().contains(name)]
                available@.dom().contains(name) == source@.profiles.dom().contains(name) by {
                assert(!source@.profiles.dom().difference(available@.dom()).contains(name));
                assert(!available@.dom().difference(source@.profiles.dom()).contains(name));
            }
        }
    }
    Ok(available)
}

/// The settings of VS Code after a plan was carried out: a profile that is written has the
/// settings of the plan, and any other keeps its own.
pub open spec fn carried_out(plan: Plan, actual: ProfilesMap, after: ProfilesMap) -> bool {
    &&& after.dom() == plan.outputs.deep_view().dom()
    &&& forall|name: Seq<char>| #[trigger]
        after.contains_key(name) ==> after[name] == if plan.writes@.contains(name) {
            plan.outputs.deep_view()[name]
        } else {
            actual[name]
        }
}

/// Whether a profile that is not written has the settings of the plan, and not only their
/// hash.
pub open spec fn skips_only_equals(plan: Plan, actual: ProfilesMap) -> bool {
    forall|name: Seq<char>|
        #![trigger actual[name]]
        plan.outputs.deep_view().contains_key(name) && !plan.writes@.contains(name)
            ==> same_settings(plan.outputs.deep_view()[name], actual[name])
}

/// Once a plan is carried out, nothing has changed by its state, and nothing is left to
/// write.
pub proof fn law_carried_out_plan_is_unchanged(
    source: SourceView,
    previous: StateView,
    actual: ProfilesMap,
    plan: Plan,
    after: ProfilesMap,
)
    requires
        plan_for(source, previous, actual, plan),
        carried_out(plan, actual, after),
    ensures
        unchanged(source, plan.state@, after),
        stale(after, plan.outputs.deep_view()) == Set::<Seq<char>>::empty(),
{
    let outputs = plan.outputs.deep_view();
    assert forall|name: Seq<char>| #[trigger] after.contains_key(name) implies settings_hash(
        after[name],
    ) == settings_hash(outputs[name]) by {
        assert(outputs.dom().contains(name));
        if !plan.writes@.contains(name) {
            assert(!stale(actual, outputs).contains(name));
            assert(at(hashes_of(actual), name) == Some(settings_hash(outputs[name])));
            assert(hashes_of(actual).contains_key(name));
        }
    }
    assert(hashes_of(after) =~= hashes_of(outputs));
    assert(stale(after, outputs) =~= Set::<Seq<char>>::empty());
}

/// Once a plan is carried out, VS Code has every setting as the source gives it, which is how
/// the state remembers it, and the difference that is told is none. A profile that was not
/// written has to have had the settings of the plan: that its settings have the same hash is
/// all that is tested of them.
pub proof fn law_carried_out_plan_is_clean(
    source: SourceView,
    previous: StateView,
    actual: ProfilesMap,
    plan: Plan,
    after: ProfilesMap,
    answer: Json,
)
    requires
        plan_for(source, previous, actual, plan),
        carried_out(plan, actual, after),
        skips_only_equals(plan, actual),
        diff_answer(compiled(source), after, answer),
    ensures
        plan.state@.materialized == compiled(source),
        after.dom() == compiled(source).dom(),
        forall|name: Seq<char>|
            #![trigger after[name]]
            after.contains_key(name) ==> same_settings(compiled(source)[name], after[name]),
        answer is Object,
        at(answer->Object_0, "clean"@) == Some(Json::Bool(true)),
{
    let outputs = compiled(source);
    assert forall|name: Seq<char>|
        #![trigger after[name]]
        after.contains_key(name) implies same_settings(outputs[name], after[name]) by {
        assert(outputs.dom().contains(name));
        if plan.writes@.contains(name) {
            assert forall|setting: Seq<char>|
                #![trigger outputs[name][setting]]
                outputs[name].contains_key(setting) implies same_json(
                outputs[name][setting],
                after[name][setting],
            ) by {
                law_same_json_reflexive(outputs[name][setting]);
            }
        } else {
            assert(same_settings(outputs[name], actual[name]));
        }
    }
    assert forall|place: Place|
        same_option(#[trigger] setting_at(outputs, place), setting_at(after, place)) by {
        assert(outputs.contains_key(place.profile) == after.contains_key(place.profile)) by {
            assert(outputs.dom().contains(place.profile) == after.dom().contains(place.profile));
        }
        if outputs.contains_key(place.profile) {
            assert(same_settings(outputs[place.profile], after[place.profile]));
            assert(outputs[place.profile].dom().contains(place.setting)
                == after[place.profile].dom().contains(place.setting));
        }
    }
    law_clean_means_same(outputs, after, answer);
}

/// Reconciling after a plan was carried out finds nothing to do.
pub proof fn law_reconciling_again_is_unchanged(
    source: SourceView,
    previous: StateView,
    actual: ProfilesMap,
    plan: Plan,
    after: ProfilesMap,
    found: Reconciliation,
)
    requires
        plan_for(source, previous, actual, plan),
        source.profiles.dom() != Set::<Seq<char>>::empty(),
        carried_out(plan, actual, after),
        reconciliation(source, plan.state@, after, found),
    ensures
        found == (Reconciliation::Unchanged { revision: plan.state.revision }),
{
    law_carried_out_plan_is_unchanged(source, previous, actual, plan, after);
    assert(compiled(source).dom() =~= source.profiles.dom());
}

/// Every profile whose settings are written is one of the source, and so one that VS Code
/// has where the profiles of both were found to be the same.
pub proof fn law_writes_are_mapped(
    source: SourceView,
    previous: StateView,
    actual: ProfilesMap,
    plan: Plan,
    available: Map<Seq<char>, Profile>,
    profiles: Table<Profile>,
)
    requires
        plan_for(source, previous, actual, plan),
        mapping_verdict(available, source, Ok(profiles)),
    ensures
        plan.writes@.subset_of(profiles@.dom()),
{
}

} // verus!
