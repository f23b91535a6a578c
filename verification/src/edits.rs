//! Edits of a source on request: single settings, and the resolution of conflicts.

use vstd::prelude::*;
use crate::answers::diff_answer;
use crate::inherit::{compiled, overlaid};
use crate::json::{
    at, jsons, lemma_array_json, same_json, same_option, same_settings, Json, JsonValue,
    Settings,
};
use crate::mutation::{
    agree, apply_actual_mutation, base_set, default_profile, delta_at, goes_to_base,
    inherit_setting, inheriting, keep_profile_override, kept, law_kept_reads_back,
    law_mutation_keeps_the_rest, law_mutation_reads_back, lemma_agree_resolved, mutated,
    resolved_at, set_base, shadowed, uninherit_setting, uninheriting, with_delta,
};
use crate::place::{ranked, Place};
use crate::protocol::{get_text, has_known_prefix, known_prefix, text_param};
use crate::reconcile::{
    absorbed, clashes, clashing, conflict_at, conflict_views, conflicts_at, drifting, drifts,
    law_reconciled_value, lemma_absorbed_elsewhere, lemma_absorbed_profiles, rebased, reconciled,
    setting_at, settled, sides_of, Conflict, ConflictView, ProfilesMap, ReconcileResult, Sides,
};
use crate::registry::{get_member, member_of};
use crate::service::{
    carried_out, law_carried_out_plan_is_clean, law_reconciling_again_is_unchanged,
    merged_by_prefix, plan_for, prefix_answers, reconcile_by_prefix, reconciliation,
    skips_only_equals, Plan, Reconciliation, StateView,
};
use crate::source::{Source, SourceView, StateSnapshot};
use crate::table::{Names, Table};
use crate::text::same_text;

verus! {

/// What is wrong with a request to edit a source.
#[derive(Debug, PartialEq)]
pub enum EditError {
    /// A parameter is not there, or is not of its type.
    Required(String),
    /// There is no such edit.
    UnknownMutation,
    /// The resolutions are not one for every conflict: there are more or fewer, or two are for
    /// one setting.
    ResolutionCount,
    /// There is no such conflict.
    NotCurrent,
    /// There is no such way to resolve a conflict.
    UnknownAction(String),
}

/// The error for a parameter that is not there.
pub open spec fn is_required<T>(result: Result<T, EditError>, name: Seq<char>) -> bool {
    result matches Err(EditError::Required(found)) && found@ == name
}

/// What [`mutate`] gives.
pub open spec fn mutation_verdict(
    source: SourceView,
    method: Seq<char>,
    params: Json,
    result: Result<Source, EditError>,
) -> bool {
    match text_param(params, "setting"@) {
        None => is_required(result, "setting"@),
        Some(setting) => if method == "settings/setBase"@ {
            match member_of(params, "value"@) {
                None => is_required(result, "value"@),
                Some(value) => result matches Ok(after) && after@ == base_set(
                    source,
                    setting,
                    value,
                ),
            }
        } else {
            match text_param(params, "profile"@) {
                None => is_required(result, "profile"@),
                Some(profile) => if method == "settings/inherit"@ {
                    result matches Ok(after) && after@ == with_delta(
                        source,
                        profile,
                        inheriting(delta_at(source, profile), setting),
                    )
                } else if method == "settings/uninherit"@ {
                    result matches Ok(after) && after@ == with_delta(
                        source,
                        profile,
                        uninheriting(delta_at(source, profile), setting),
                    )
                } else {
                    result matches Err(EditError::UnknownMutation)
                },
            }
        },
    }
}

/// Edits one setting of a source: puts it into the base, lets a profile inherit it, or
/// keeps it out of a profile.
pub fn mutate(source: Source, method: &str, params: &JsonValue) -> (result: Result<
    Source,
    EditError,
>)
    ensures
        mutation_verdict(source@, method@, params@, result),
{
    let mut source = source;
    let setting = match get_text(params, "setting") {
        Some(setting) => setting,
        None => {
            return Err(EditError::Required("setting".to_owned()));
        },
    };
    if same_text(method, "settings/setBase") {
        return match get_member(params, "value") {
            Some(value) => {
                set_base(&mut source, setting.as_str(), value.clone());
                Ok(source)
            },
            None => Err(EditError::Required("value".to_owned())),
        };
    }
    let profile = match get_text(params, "profile") {
        Some(profile) => profile,
        None => {
            return Err(EditError::Required("profile".to_owned()));
        },
    };
    if same_text(method, "settings/inherit") {
        inherit_setting(&mut source, profile.as_str(), setting.as_str());
        Ok(source)
    } else if same_text(method, "settings/uninherit") {
        uninherit_setting(&mut source, profile.as_str(), setting.as_str());
        Ok(source)
    } else {
        Err(EditError::UnknownMutation)
    }
}

/// A way to resolve a conflict.
#[derive(Clone, Copy, Debug, PartialEq, Eq, Structural)]
pub enum Action {
    /// What the source says stays.
    UseSource,
    /// What VS Code has is taken over.
    UseVscode,
    /// What VS Code has is kept for the profile, whatever the base says.
    KeepProfileOverride,
}

/// A way to resolve a conflict by its name.
pub open spec fn action_of(name: Seq<char>) -> Option<Action> {
    if name == "useSource"@ {
        Some(Action::UseSource)
    } else if name == "useVscode"@ {
        Some(Action::UseVscode)
    } else if name == "keepProfileOverride"@ {
        Some(Action::KeepProfileOverride)
    } else {
        None
    }
}

/// How one conflict is to be resolved.
#[derive(Debug, PartialEq)]
pub struct Resolution {
    pub profile: String,
    pub setting: String,
    pub action: Action,
    /// The value of the setting in VS Code, if it has one.
    pub actual: Option<JsonValue>,
}

/// How one conflict is to be resolved.
#[verifier::ext_equal]
pub struct ResolutionView {
    pub place: Place,
    pub action: Action,
    pub actual: Option<Json>,
}

impl View for Resolution {
    type V = ResolutionView;

    open spec fn view(&self) -> ResolutionView {
        ResolutionView {
            place: Place { profile: self.profile@, setting: self.setting@ },
            action: self.action,
            actual: self.actual.deep_view(),
        }
    }
}

/// The conflict at a place is the first of a setting.
pub open spec fn first_conflict(conflicts: Seq<ConflictView>, place: Place, i: int) -> bool {
    &&& 0 <= i < conflicts.len()
    &&& conflicts[i].place == place
    &&& forall|j: int| 0 <= j < i ==> (#[trigger] conflicts[j]).place != place
}

/// What is read of one resolution among the parameters.
pub open spec fn resolution_verdict(
    conflicts: Seq<ConflictView>,
    json: Json,
    result: Result<Resolution, EditError>,
) -> bool {
    match (text_param(json, "profile"@), text_param(json, "setting"@), text_param(json, "action"@)) {
        (None, _, _) => is_required(result, "profile"@),
        (Some(_), None, _) => is_required(result, "setting"@),
        (Some(_), Some(_), None) => is_required(result, "action"@),
        (Some(profile), Some(setting), Some(action)) => {
            let place = Place { profile, setting };
            if forall|i: int|
                0 <= i < conflicts.len() ==> (#[trigger] conflicts[i]).place != place {
                result matches Err(EditError::NotCurrent)
            } else {
                match action_of(action) {
                    None => result matches Err(EditError::UnknownAction(found)) && found@
                        == action,
                    Some(action) => result matches Ok(resolution) && exists|i: int| #[trigger]
                        first_conflict(conflicts, place, i) && resolution@ == (ResolutionView {
                            place,
                            action,
                            actual: conflicts[i].actual,
                        }),
                }
            }
        },
    }
}

fn decode_action(name: &str) -> (action: Option<Action>)
    ensures
        action == action_of(name@),
{
    if same_text(name, "useSource") {
        Some(Action::UseSource)
    } else if same_text(name, "useVscode") {
        Some(Action::UseVscode)
    } else if same_text(name, "keepProfileOverride") {
        Some(Action::KeepProfileOverride)
    } else {
        None
    }
}

fn copy_option(value: &Option<JsonValue>) -> (copy: Option<JsonValue>)
    ensures
        copy.deep_view() == value.deep_view(),
{
    match value {
        Some(value) => Some(value.clone()),
        None => None,
    }
}

/// Reads one resolution.
pub fn read_resolution(conflicts: &Vec<Conflict>, value: &JsonValue) -> (result: Result<
    Resolution,
    EditError,
>)
    ensures
        resolution_verdict(conflict_views(conflicts@), value@, result),
{
    let profile = match get_text(value, "profile") {
        Some(profile) => profile,
        None => {
            return Err(EditError::Required("profile".to_owned()));
        },
    };
    let setting = match get_text(value, "setting") {
        Some(setting) => setting,
        None => {
            return Err(EditError::Required("setting".to_owned()));
        },
    };
    let action = match get_text(value, "action") {
        Some(action) => action,
        None => {
            return Err(EditError::Required("action".to_owned()));
        },
    };
    let ghost views = conflict_views(conflicts@);
    let ghost place = Place { profile: profile@, setting: setting@ };
    let mut i: usize = 0;
    while i < conflicts.len()
        invariant
            i <= conflicts@.len(),
            views == conflict_views(conflicts@),
            place == (Place { profile: profile@, setting: setting@ }),
            text_param(value@, "profile"@) == Some(profile@),
            text_param(value@, "setting"@) == Some(setting@),
            text_param(value@, "action"@) == Some(action@),
            forall|j: int| 0 <= j < i ==> (#[trigger] views[j]).place != place,
        decreases conflicts@.len() - i,
    {
        let conflict = &conflicts[i];
        assert(views[i as int] == conflict@);
        if same_text(conflict.profile.as_str(), profile.as_str()) && same_text(
            conflict.setting.as_str(),
            setting.as_str(),
        ) {
            assert(views[i as int].place == place);
            assert(first_conflict(views, place, i as int));
            return match decode_action(action.as_str()) {
                Some(action) => {
                    let resolution = Resolution {
                        profile,
                        setting,
                        action,
                        actual: copy_option(&conflict.actual),
                    };
                    assert(resolution@ == (ResolutionView {
                        place,
                        action,
                        actual: views[i as int].actual,
                    }));
                    Ok(resolution)
                },
                None => Err(EditError::UnknownAction(action)),
            };
        }
        i += 1;
    }
    Err(EditError::NotCurrent)
}

/// The source after one conflict was resolved.
pub open spec fn resolved_one(
    source: SourceView,
    resolution: ResolutionView,
    prefixes: Set<Seq<char>>,
) -> SourceView {
    match resolution.action {
        Action::UseSource => source,
        Action::UseVscode => mutated(
            source,
            resolution.place.profile,
            resolution.place.setting,
            resolution.actual,
            known_prefix(prefixes, resolution.place.setting),
        ),
        Action::KeepProfileOverride => kept(
            source,
            resolution.place.profile,
            resolution.place.setting,
            resolution.actual,
        ),
    }
}

/// The source after conflicts were resolved, one after the other.
pub open spec fn resolved_all(
    source: SourceView,
    resolutions: Seq<ResolutionView>,
    prefixes: Set<Seq<char>>,
) -> SourceView
    decreases resolutions.len(),
{
    if resolutions.len() == 0 {
        source
    } else {
        resolved_one(
            resolved_all(source, resolutions.drop_last(), prefixes),
            resolutions.last(),
            prefixes,
        )
    }
}

/// Whether a resolution edits the source.
pub open spec fn edits(resolution: ResolutionView) -> bool {
    resolution.action != Action::UseSource
}

/// Whether one of the resolutions edits the source.
pub open spec fn any_edits(resolutions: Seq<ResolutionView>) -> bool {
    exists|i: int| 0 <= i < resolutions.len() && edits(#[trigger] resolutions[i])
}

/// What is read of resolutions.
pub open spec fn resolution_views(resolutions: Seq<Resolution>) -> Seq<ResolutionView> {
    Seq::new(resolutions.len(), |i: int| resolutions[i]@)
}

/// The resolutions are what is read of the items.
pub open spec fn reads_resolutions(
    conflicts: Seq<ConflictView>,
    items: Seq<Json>,
    resolutions: Seq<Resolution>,
) -> bool {
    &&& resolutions.len() == items.len()
    &&& forall|i: int|
        0 <= i < items.len() ==> resolution_verdict(
            conflicts,
            #[trigger] items[i],
            Ok(resolutions[i]),
        )
}

/// Whether an item is a resolution.
pub open spec fn readable(conflicts: Seq<ConflictView>, json: Json) -> bool {
    exists|resolution: Resolution| resolution_verdict(conflicts, json, Ok(resolution))
}

/// The item at a place is the first that is no resolution.
pub open spec fn first_unread(
    conflicts: Seq<ConflictView>,
    items: Seq<Json>,
    i: int,
    error: EditError,
) -> bool {
    &&& 0 <= i < items.len()
    &&& resolution_verdict(conflicts, items[i], Err(error))
    &&& forall|j: int| 0 <= j < i ==> readable(conflicts, #[trigger] items[j])
}

/// A source whose conflicts are resolved.
#[derive(Debug, PartialEq)]
pub struct Resolved {
    pub source: Source,
    pub changed_source: bool,
}

/// The setting that an item is for: `None`, where it names none.
pub open spec fn named_place(json: Json) -> Option<Place> {
    match (text_param(json, "profile"@), text_param(json, "setting"@)) {
        (Some(profile), Some(setting)) => Some(Place { profile, setting }),
        _ => None,
    }
}

/// Whether two of the items are for one setting.
pub open spec fn repeats(items: Seq<Json>) -> bool {
    exists|i: int, j: int|
        #![trigger items[i], items[j]]
        0 <= i < j < items.len() && named_place(items[i]) is Some && named_place(items[i])
            == named_place(items[j])
}

/// Whether two items are for one setting.
fn same_place(a: &JsonValue, b: &JsonValue) -> (same: bool)
    ensures
        same == (named_place(a@) is Some && named_place(a@) == named_place(b@)),
{
    match (
        get_text(a, "profile"),
        get_text(a, "setting"),
        get_text(b, "profile"),
        get_text(b, "setting"),
    ) {
        (Some(profile), Some(setting), Some(other_profile), Some(other_setting)) => {
            same_text(profile.as_str(), other_profile.as_str()) && same_text(
                setting.as_str(),
                other_setting.as_str(),
            )
        },
        _ => false,
    }
}

/// Whether two of the items are for one setting.
fn has_repeats(items: &Vec<JsonValue>) -> (found: bool)
    ensures
        found == repeats(jsons(items@)),
{
    let ghost row = jsons(items@);
    let mut i: usize = 0;
    while i < items.len()
        invariant
            i <= items@.len(),
            row == jsons(items@),
            forall|a: int, b: int|
                #![trigger row[a], row[b]]
                0 <= a < i && a < b < row.len() ==> !(named_place(row[a]) is Some && named_place(
                    row[a],
                ) == named_place(row[b])),
        decreases items@.len() - i,
    {
        assert(row[i as int] == items@[i as int]@);
        let mut j: usize = i + 1;
        while j < items.len()
            invariant
                i < items@.len(),
                i < j <= items@.len(),
                row == jsons(items@),
                row[i as int] == items@[i as int]@,
                forall|b: int|
                    #![trigger row[b]]
                    i < b < j ==> !(named_place(row[i as int]) is Some && named_place(row[i as int])
                        == named_place(row[b])),
            decreases items@.len() - j,
        {
            assert(row[j as int] == items@[j as int]@);
            if same_place(&items[i], &items[j]) {
                return true;
            }
            j += 1;
        }
        i += 1;
    }
    false
}

/// What [`resolve_conflicts`] gives for a source that was changed already, or not.
pub open spec fn conflicts_verdict(
    source: SourceView,
    changed: bool,
    conflicts: Seq<ConflictView>,
    prefixes: Set<Seq<char>>,
    params: Json,
    result: Result<Resolved, EditError>,
) -> bool {
    match member_of(params, "resolutions"@) {
        Some(Json::List(items)) => if items.len() != conflicts.len() || repeats(items) {
            result matches Err(EditError::ResolutionCount)
        } else {
            match result {
                Ok(resolved) => exists|resolutions: Seq<Resolution>| #[trigger]
                    reads_resolutions(conflicts, items, resolutions) && resolved.source@
                        == resolved_all(source, resolution_views(resolutions), prefixes)
                        && resolved.changed_source == (changed || any_edits(
                        resolution_views(resolutions),
                    )),
                Err(error) => exists|i: int| #[trigger] first_unread(conflicts, items, i, error),
            }
        },
        _ => is_required(result, "resolutions"@),
    }
}

/// Resolves the conflicts of a source: every one has to have exactly one resolution among
/// the parameters.
pub fn resolve_conflicts(
    source: Source,
    conflicts: &Vec<Conflict>,
    prefixes: &Names,
    params: &JsonValue,
) -> (result: Result<Resolved, EditError>)
    ensures
        conflicts_verdict(
            source@,
            false,
            conflict_views(conflicts@),
            prefixes@,
            params@,
            result,
        ),
{
    let ghost before = source@;
    let ghost views = conflict_views(conflicts@);
    let mut source = source;
    match get_member(params, "resolutions") {
        Some(JsonValue::Array(items)) => {
            proof {
                lemma_array_json(*items);
            }
            let ghost row = jsons(items@);
            if items.len() != conflicts.len() || has_repeats(items) {
                return Err(EditError::ResolutionCount);
            }
            let mut changed_source = false;
            let ghost mut done: Seq<Resolution> = Seq::empty();
            assert(resolution_views(done) =~= Seq::<ResolutionView>::empty());
            let mut i: usize = 0;
            while i < items.len()
                invariant
                    i <= items@.len(),
                    items@.len() == conflicts@.len(),
                    row == jsons(items@),
                    !repeats(row),
                    member_of(params@, "resolutions"@) == Some(Json::List(row)),
                    views == conflict_views(conflicts@),
                    reads_resolutions(views, row.take(i as int), done),
                    source@ == resolved_all(before, resolution_views(done), prefixes@),
                    changed_source == any_edits(resolution_views(done)),
                decreases items@.len() - i,
            {
                assert(row[i as int] == items@[i as int]@);
                let resolution = match read_resolution(conflicts, &items[i]) {
                    Ok(resolution) => resolution,
                    Err(error) => {
                        proof {
                            assert forall|j: int| 0 <= j < i implies readable(
                                views,
                                #[trigger] row[j],
                            ) by {
                                assert(row.take(i as int)[j] == row[j]);
                                assert(resolution_verdict(
                                    views,
                                    row.take(i as int)[j],
                                    Ok(done[j]),
                                ));
                            }
                            assert(first_unread(views, row, i as int, error));
                        }
                        return Err(error);
                    },
                };
                let ghost view = resolution@;
                let ghost whole = resolution;
                match resolution.action {
                    Action::UseSource => {},
                    Action::UseVscode => {
                        let known = has_known_prefix(prefixes, resolution.setting.as_str());
                        apply_actual_mutation(
                            &mut source,
                            resolution.profile.as_str(),
                            resolution.setting.as_str(),
                            resolution.actual,
                            known,
                        );
                        changed_source = true;
                    },
                    Action::KeepProfileOverride => {
                        keep_profile_override(
                            &mut source,
                            resolution.profile.as_str(),
                            resolution.setting.as_str(),
                            resolution.actual,
                        );
                        changed_source = true;
                    },
                }
                proof {
                    let more = done.push(whole);
                    assert(resolution_views(more) =~= resolution_views(done).push(view));
                    assert(resolution_views(more).drop_last() =~= resolution_views(done));
                    assert forall|j: int| 0 <= j < row.take(i + 1).len() implies resolution_verdict(
                        views,
                        #[trigger] row.take(i + 1)[j],
                        Ok(more[j]),
                    ) by {
                        if j < i {
                            assert(row.take(i as int)[j] == row.take(i + 1)[j]);
                            assert(resolution_verdict(
                                views,
                                row.take(i as int)[j],
                                Ok(done[j]),
                            ));
                        }
                    }
                    lemma_any_edits(resolution_views(done), view);
                    done = more;
                }
                i += 1;
            }
            assert(row.take(row.len() as int) =~= row);
            Ok(Resolved { source, changed_source })
        },
        _ => Err(EditError::Required("resolutions".to_owned())),
    }
}

proof fn lemma_any_edits(resolutions: Seq<ResolutionView>, resolution: ResolutionView)
    ensures
        any_edits(resolutions.push(resolution)) == (any_edits(resolutions) || edits(resolution)),
{
    let more = resolutions.push(resolution);
    if any_edits(resolutions) {
        let i = choose|i: int| 0 <= i < resolutions.len() && edits(#[trigger] resolutions[i]);
        assert(more[i] == resolutions[i]);
    }
    if edits(resolution) {
        assert(more[resolutions.len() as int] == resolution);
    }
    if any_edits(more) {
        let i = choose|i: int| 0 <= i < more.len() && edits(#[trigger] more[i]);
        if i < resolutions.len() {
            assert(resolutions[i] == more[i]);
        }
    }
}

/// Resolves what is in conflict between a source and VS Code now. What changed in VS Code
/// alone is taken over as reconciling does.
pub fn resolve_current(
    source: Source,
    previous: &StateSnapshot,
    actual: &Table<Settings>,
    params: &JsonValue,
) -> (result: Result<Resolved, EditError>)
    ensures
        exists|found: ReconcileResult| #[trigger]
            merged_by_prefix(source@, previous@, actual.deep_view(), found) && conflicts_verdict(
                found.source@,
                found.changed_source,
                conflict_views(found.conflicts@),
                previous@.known_setting_prefixes,
                params@,
                result,
            ),
{
    let found = reconcile_by_prefix(&source, previous, actual);
    let ghost whole = found;
    assert(merged_by_prefix(source@, previous@, actual.deep_view(), whole));
    match resolve_conflicts(
        found.source,
        &found.conflicts,
        &previous.known_setting_prefixes,
        params,
    ) {
        Ok(resolved) => Ok(
            Resolved {
                source: resolved.source,
                changed_source: found.changed_source || resolved.changed_source,
            },
        ),
        Err(error) => Err(error),
    }
}

/// A resolution that takes over what VS Code has does what taking over a change does.
pub proof fn law_use_vscode_reads_back(
    source: SourceView,
    resolution: ResolutionView,
    prefixes: Set<Seq<char>>,
)
    requires
        resolution.action == Action::UseVscode,
    ensures
        same_option(
            at(
                resolved_at(
                    resolved_one(source, resolution, prefixes),
                    resolution.place.profile,
                ),
                resolution.place.setting,
            ),
            resolution.actual,
        ) <==> !shadowed(
            source,
            resolution.place.profile,
            resolution.place.setting,
            resolution.actual,
            known_prefix(prefixes, resolution.place.setting),
        ),
{
    law_mutation_reads_back(
        source,
        resolution.place.profile,
        resolution.place.setting,
        resolution.actual,
        known_prefix(prefixes, resolution.place.setting),
    );
}

/// The settings that are resolved.
pub open spec fn resolved_places(resolutions: Seq<ResolutionView>) -> Seq<Place> {
    Seq::new(resolutions.len(), |i: int| resolutions[i].place)
}

/// The settings in conflict.
pub open spec fn conflict_places(conflicts: Seq<ConflictView>) -> Seq<Place> {
    Seq::new(conflicts.len(), |i: int| conflicts[i].place)
}

/// Where conflicts are resolved, every conflict has exactly one resolution.
pub proof fn law_resolutions_cover(
    source: SourceView,
    changed: bool,
    conflicts: Seq<ConflictView>,
    prefixes: Set<Seq<char>>,
    params: Json,
    resolved: Resolved,
    items: Seq<Json>,
)
    requires
        conflicts_verdict(source, changed, conflicts, prefixes, params, Ok(resolved)),
        member_of(params, "resolutions"@) == Some(Json::List(items)),
    ensures
        exists|resolutions: Seq<Resolution>| #[trigger]
            reads_resolutions(conflicts, items, resolutions) && resolved.source@ == resolved_all(
                source,
                resolution_views(resolutions),
                prefixes,
            ) && resolved_places(resolution_views(resolutions)).no_duplicates()
                && resolved_places(resolution_views(resolutions)).to_set()
                == conflict_places(conflicts).to_set(),
{
    let resolutions = choose|resolutions: Seq<Resolution>| #[trigger]
        reads_resolutions(conflicts, items, resolutions) && resolved.source@ == resolved_all(
            source,
            resolution_views(resolutions),
            prefixes,
        ) && resolved.changed_source == (changed || any_edits(resolution_views(resolutions)));
    lemma_read_once(conflicts, items, resolutions);
    let mine = resolved_places(resolution_views(resolutions));
    let theirs = conflict_places(conflicts);
    assert forall|place: Place| mine.to_set().contains(place) implies theirs.to_set().contains(
        place,
    ) by {
        let k = choose|k: int| 0 <= k < mine.len() && mine[k] == place;
        assert(resolution_verdict(conflicts, items[k], Ok(resolutions[k])));
        assert(exists|n: int| first_conflict(conflicts, place, n));
        let n = choose|n: int| first_conflict(conflicts, place, n);
        assert(theirs[n] == place);
    }
    vstd::seq_lib::seq_to_set_is_finite(mine);
    vstd::seq_lib::seq_to_set_is_finite(theirs);
    mine.unique_seq_to_set();
    theirs.lemma_cardinality_of_set();
    vstd::set_lib::lemma_len_subset(mine.to_set(), theirs.to_set());
    vstd::set_lib::lemma_subset_equality(mine.to_set(), theirs.to_set());
}

/// What is read of items that are for different settings is for different settings.
proof fn lemma_read_once(
    conflicts: Seq<ConflictView>,
    items: Seq<Json>,
    resolutions: Seq<Resolution>,
)
    requires
        reads_resolutions(conflicts, items, resolutions),
        !repeats(items),
    ensures
        resolved_places(resolution_views(resolutions)).no_duplicates(),
{
    let mine = resolved_places(resolution_views(resolutions));
    assert forall|i: int, j: int| 0 <= i < j < mine.len() implies mine[i] != mine[j] by {
        assert(resolution_verdict(conflicts, items[i], Ok(resolutions[i])));
        assert(resolution_verdict(conflicts, items[j], Ok(resolutions[j])));
        assert(named_place(items[i]) == Some(mine[i]));
        assert(named_place(items[j]) == Some(mine[j]));
    }
}

/// Whether a resolution is asked for that puts a setting of Default into the base.
pub open spec fn asks_for_base(
    params: Json,
    prefixes: Set<Seq<char>>,
    setting: Seq<char>,
) -> bool {
    &&& known_prefix(prefixes, setting)
    &&& member_of(params, "resolutions"@) matches Some(Json::List(items))
    &&& exists|i: int|
        #![trigger items[i]]
        0 <= i < items.len() && named_place(items[i]) == Some(
            Place { profile: default_profile(), setting },
        ) && text_param(items[i], "action"@) == Some("useVscode"@)
}

/// Whether resolving changes what the base has of a setting for a profile that is not Default:
/// what VS Code has of it in Default goes to the base.
pub open spec fn base_moves(
    sides: Sides,
    prefixes: Set<Seq<char>>,
    params: Json,
    place: Place,
) -> bool {
    &&& place.profile != default_profile()
    &&& (known_prefix(prefixes, place.setting) && drifts(
        sides,
        Place { profile: default_profile(), setting: place.setting },
    )) || asks_for_base(params, prefixes, place.setting)
}

/// What conflicts of a source, a state and the settings of VS Code are resolved to.
pub open spec fn resolved_now(
    source: SourceView,
    previous: StateView,
    actual: ProfilesMap,
    found: ReconcileResult,
    params: Json,
    resolved: Resolved,
) -> bool {
    &&& merged_by_prefix(source, previous, actual, found)
    &&& conflicts_verdict(
        found.source@,
        found.changed_source,
        conflict_views(found.conflicts@),
        previous.known_setting_prefixes,
        params,
        Ok(resolved),
    )
}

/// Where conflicts are resolved, a setting that changed in VS Code alone compiles to what VS
/// Code has, unless the base shadows the change. What goes to the base is for the other
/// profiles the base's business: those are left out.
pub proof fn law_resolving_takes_changes_over(
    source: SourceView,
    previous: StateView,
    actual: ProfilesMap,
    found: ReconcileResult,
    params: Json,
    resolved: Resolved,
    place: Place,
)
    requires
        resolved_now(source, previous, actual, found, params, resolved),
        drifts(sides_of(source, previous.materialized, actual), place),
        !base_moves(
            sides_of(source, previous.materialized, actual),
            previous.known_setting_prefixes,
            params,
            place,
        ),
        !shadowed(
            source,
            place.profile,
            place.setting,
            setting_at(actual, place),
            known_prefix(previous.known_setting_prefixes, place.setting),
        ),
    ensures
        same_option(
            setting_at(compiled(resolved.source@), place),
            setting_at(actual, place),
        ),
{
    let prefixes = previous.known_setting_prefixes;
    let sides = sides_of(source, previous.materialized, actual);
    let places = lemma_merged(source, previous, actual, found, params, place);
    let given = prefix_answers(prefixes, places);
    assert(drifting(sides).contains(place));
    let n = choose|n: int| 0 <= n < places.len() && places[n] == place;
    assert(given[n] == known_prefix(prefixes, place.setting));
    law_reconciled_value(source, sides, places, given, found.source@, place);
    lemma_absorbed_profiles(source, actual, places, given, n);
    let resolutions = lemma_resolutions(found, prefixes, params, resolved, place);
    let views = resolution_views(resolutions);
    assert forall|k: int| 0 <= k < views.len() implies (#[trigger] views[k]).place != place by {
        if views[k].place == place {
            lemma_resolution_clashes(source, previous, actual, found, params, resolutions, k);
        }
    }
    lemma_resolved_elsewhere(found.source@, views, prefixes, place);
    lemma_agree_resolved(found.source@, resolved.source@, place.profile, place.setting);
    lemma_resolved_profiles(found.source@, views, prefixes, place.profile);
}

/// Where conflicts are resolved, a conflict has the value that its resolution says: the one of
/// the source, or the one of VS Code, unless the base shadows it. What goes to the base is for
/// the other profiles the base's business: those are left out.
pub proof fn law_resolved_conflict_value(
    source: SourceView,
    previous: StateView,
    actual: ProfilesMap,
    found: ReconcileResult,
    params: Json,
    resolved: Resolved,
    items: Seq<Json>,
    i: int,
    place: Place,
)
    requires
        resolved_now(source, previous, actual, found, params, resolved),
        member_of(params, "resolutions"@) == Some(Json::List(items)),
        0 <= i < items.len(),
        named_place(items[i]) == Some(place),
        !base_moves(
            sides_of(source, previous.materialized, actual),
            previous.known_setting_prefixes,
            params,
            place,
        ),
    ensures
        clashes(sides_of(source, previous.materialized, actual), place),
        ({
            let value = at(resolved_at(resolved.source@, place.profile), place.setting);
            let there = setting_at(actual, place);
            match text_param(items[i], "action"@) {
                None => false,
                Some(name) => match action_of(name) {
                    None => false,
                    Some(Action::UseSource) => value == at(
                        resolved_at(source, place.profile),
                        place.setting,
                    ),
                    Some(Action::UseVscode) => same_option(value, there) <==> !shadowed(
                        source,
                        place.profile,
                        place.setting,
                        there,
                        known_prefix(previous.known_setting_prefixes, place.setting),
                    ),
                    Some(Action::KeepProfileOverride) => same_option(value, there) <==> !(
                    there is Some && source.base.contains_key(place.setting) && !same_json(
                        overlaid(source.base[place.setting], there->0),
                        there->0,
                    )),
                },
            }
        }),
{
    let prefixes = previous.known_setting_prefixes;
    let sides = sides_of(source, previous.materialized, actual);
    let places = lemma_merged(source, previous, actual, found, params, place);
    let given = prefix_answers(prefixes, places);
    let resolutions = lemma_resolutions(found, prefixes, params, resolved, place);
    let views = resolution_views(resolutions);
    lemma_resolution_clashes(source, previous, actual, found, params, resolutions, i);
    let view = views[i];
    assert(!drifting(sides).contains(place));
    assert forall|n: int| 0 <= n < places.len() implies #[trigger] places[n] != place by {
        assert(places.contains(places[n]));
    }
    lemma_absorbed_elsewhere(source, actual, places, given, place);
    lemma_one_agrees(source, found.source@, view, prefixes);
    lemma_resolved_at(found.source@, views, prefixes, i);
    lemma_agree_resolved(
        resolved_one(source, view, prefixes),
        resolved.source@,
        place.profile,
        place.setting,
    );
    law_mutation_reads_back(
        source,
        place.profile,
        place.setting,
        view.actual,
        known_prefix(prefixes, place.setting),
    );
    law_kept_reads_back(source, place.profile, place.setting, view.actual);
}

/// Where conflicts are resolved, a setting that did not change in VS Code alone and is in no
/// conflict keeps the value that the source gives it. What goes to the base is for the other
/// profiles the base's business: those are left out.
pub proof fn law_resolving_keeps_the_rest(
    source: SourceView,
    previous: StateView,
    actual: ProfilesMap,
    found: ReconcileResult,
    params: Json,
    resolved: Resolved,
    place: Place,
)
    requires
        resolved_now(source, previous, actual, found, params, resolved),
        !drifts(sides_of(source, previous.materialized, actual), place),
        !clashes(sides_of(source, previous.materialized, actual), place),
        !base_moves(
            sides_of(source, previous.materialized, actual),
            previous.known_setting_prefixes,
            params,
            place,
        ),
    ensures
        at(resolved_at(resolved.source@, place.profile), place.setting) == at(
            resolved_at(source, place.profile),
            place.setting,
        ),
{
    let prefixes = previous.known_setting_prefixes;
    let sides = sides_of(source, previous.materialized, actual);
    let places = lemma_merged(source, previous, actual, found, params, place);
    law_reconciled_value(
        source,
        sides,
        places,
        prefix_answers(prefixes, places),
        found.source@,
        place,
    );
    let resolutions = lemma_resolutions(found, prefixes, params, resolved, place);
    let views = resolution_views(resolutions);
    assert forall|k: int| 0 <= k < views.len() implies (#[trigger] views[k]).place != place by {
        if views[k].place == place {
            lemma_resolution_clashes(source, previous, actual, found, params, resolutions, k);
        }
    }
    lemma_resolved_elsewhere(found.source@, views, prefixes, place);
    lemma_agree_resolved(found.source@, resolved.source@, place.profile, place.setting);
}

/// Once conflicts are resolved and the plan for the source is carried out, VS Code has every
/// setting as the source gives it, the state remembers it so, the difference that is told is
/// none, and reconciling finds nothing to do.
pub proof fn law_resolved_and_carried_out(
    source: SourceView,
    previous: StateView,
    actual: ProfilesMap,
    found: ReconcileResult,
    params: Json,
    resolved: Resolved,
    plan: Plan,
    after: ProfilesMap,
    answer: Json,
    next: Reconciliation,
)
    requires
        resolved_now(source, previous, actual, found, params, resolved),
        resolved.source@.profiles.dom() != Set::<Seq<char>>::empty(),
        previous.revision < u64::MAX,
        plan_for(resolved.source@, previous, actual, plan),
        carried_out(plan, actual, after),
        skips_only_equals(plan, actual),
        diff_answer(compiled(resolved.source@), after, answer),
        reconciliation(resolved.source@, plan.state@, after, next),
    ensures
        plan.state@.revision == previous.revision + 1,
        plan.state@.materialized == compiled(resolved.source@),
        after.dom() == plan.state@.materialized.dom(),
        forall|name: Seq<char>|
            #![trigger after[name]]
            after.contains_key(name) ==> same_settings(
                plan.state@.materialized[name],
                after[name],
            ),
        answer is Object,
        at(answer->Object_0, "clean"@) == Some(Json::Bool(true)),
        next == (Reconciliation::Unchanged { revision: plan.state.revision }),
{
    law_carried_out_plan_is_clean(resolved.source@, previous, actual, plan, after, answer);
    law_reconciling_again_is_unchanged(resolved.source@, previous, actual, plan, after, next);
}

/// Where a resolution puts what VS Code has of a setting in Default into the base, every other
/// profile that has no resolution of the setting has it as its own part of the merged source
/// gives it over the new base.
pub proof fn law_resolved_over_new_base(
    source: SourceView,
    previous: StateView,
    actual: ProfilesMap,
    found: ReconcileResult,
    params: Json,
    resolved: Resolved,
    items: Seq<Json>,
    profile: Seq<char>,
    setting: Seq<char>,
)
    requires
        resolved_now(source, previous, actual, found, params, resolved),
        member_of(params, "resolutions"@) == Some(Json::List(items)),
        asks_for_base(params, previous.known_setting_prefixes, setting),
        profile != default_profile(),
        !clashes(
            sides_of(source, previous.materialized, actual),
            Place { profile, setting },
        ),
    ensures
        at(resolved_at(resolved.source@, profile), setting) == at(
            resolved_at(
                rebased(
                    found.source@,
                    setting,
                    setting_at(actual, Place { profile: default_profile(), setting }),
                ),
                profile,
            ),
            setting,
        ),
{
    let prefixes = previous.known_setting_prefixes;
    let base_place = Place { profile: default_profile(), setting };
    let place = Place { profile, setting };
    let i = choose|i: int|
        #![trigger items[i]]
        0 <= i < items.len() && named_place(items[i]) == Some(base_place) && text_param(
            items[i],
            "action"@,
        ) == Some("useVscode"@);
    let resolutions = lemma_resolutions(found, prefixes, params, resolved, base_place);
    let views = resolution_views(resolutions);
    lemma_resolution_clashes(source, previous, actual, found, params, resolutions, i);
    reveal_strlit("useSource");
    reveal_strlit("useVscode");
    assert("useVscode"@ != "useSource"@) by {
        assert("useVscode"@[3] == 'V' && "useSource"@[3] == 'S');
    }
    assert(views[i].action == Action::UseVscode);
    assert forall|k: int| 0 <= k < views.len() implies (#[trigger] views[k]).place != place by {
        if views[k].place == place {
            lemma_resolution_clashes(source, previous, actual, found, params, resolutions, k);
        }
    }
    lemma_resolved_rebased(found.source@, views, prefixes, place, i);
    lemma_agree_resolved(
        rebased(found.source@, setting, setting_at(actual, base_place)),
        resolved.source@,
        profile,
        setting,
    );
}

/// A setting that no resolution is for in a profile is as if the base had always had the value
/// that a resolution puts into it.
proof fn lemma_resolved_rebased(
    source: SourceView,
    resolutions: Seq<ResolutionView>,
    prefixes: Set<Seq<char>>,
    place: Place,
    i: int,
)
    requires
        place.profile != default_profile(),
        0 <= i < resolutions.len(),
        moves_base(resolutions[i], prefixes),
        resolutions[i].place.setting == place.setting,
        resolved_places(resolutions).no_duplicates(),
        forall|k: int| 0 <= k < resolutions.len() ==> (#[trigger] resolutions[k]).place != place,
    ensures
        agree(
            rebased(source, place.setting, resolutions[i].actual),
            resolved_all(source, resolutions, prefixes),
            place.profile,
            place.setting,
        ),
    decreases resolutions.len(),
{
    let fewer = resolutions.drop_last();
    let last = resolutions.last();
    let mine = resolved_places(resolutions);
    assert forall|k: int| 0 <= k < fewer.len() implies (#[trigger] fewer[k]).place != place by {
        assert(fewer[k] == resolutions[k]);
    }
    assert(resolutions[resolutions.len() - 1] == last);
    assert(mine[i] == resolutions[i].place);
    if i == resolutions.len() - 1 {
        assert forall|k: int|
            0 <= k < fewer.len() && fewer[k].place.setting == place.setting implies !moves_base(
            #[trigger] fewer[k],
            prefixes,
        ) by {
            assert(mine[k] == fewer[k].place);
        }
        lemma_resolved_elsewhere(source, fewer, prefixes, place);
    } else {
        assert(fewer[i] == resolutions[i]);
        assert(resolved_places(fewer) =~= mine.drop_last());
        lemma_resolved_rebased(source, fewer, prefixes, place, i);
        assert(mine[resolutions.len() - 1] == last.place);
        lemma_one_elsewhere(resolved_all(source, fewer, prefixes), last, prefixes, place);
    }
}

/// The changes of VS Code that are taken over before conflicts are resolved.
proof fn lemma_merged(
    source: SourceView,
    previous: StateView,
    actual: ProfilesMap,
    found: ReconcileResult,
    params: Json,
    place: Place,
) -> (places: Seq<Place>)
    requires
        merged_by_prefix(source, previous, actual, found),
        !base_moves(
            sides_of(source, previous.materialized, actual),
            previous.known_setting_prefixes,
            params,
            place,
        ),
    ensures
        reconciled(
            source,
            sides_of(source, previous.materialized, actual),
            places,
            prefix_answers(previous.known_setting_prefixes, places),
            found.source@,
        ),
        settled(places, prefix_answers(previous.known_setting_prefixes, places), place),
{
    let prefixes = previous.known_setting_prefixes;
    let sides = sides_of(source, previous.materialized, actual);
    let places = choose|places: Seq<Place>|
        #![trigger ranked(places, drifting(sides))]
        ranked(places, drifting(sides)) && found.source@ == absorbed(
            source,
            actual,
            places,
            prefix_answers(prefixes, places),
        );
    let given = prefix_answers(prefixes, places);
    if place.profile != default_profile() {
        assert forall|n: int|
            0 <= n < places.len() && places[n].profile == default_profile() && places[n].setting
                == place.setting implies !(#[trigger] given[n]) by {
            assert(places.contains(places[n]));
            assert(drifting(sides).contains(places[n]));
            assert(places[n] == (Place { profile: default_profile(), setting: place.setting }));
        }
    }
    places
}

/// The resolutions that were read, which leave the base's value of a setting to a profile as
/// it was.
proof fn lemma_resolutions(
    found: ReconcileResult,
    prefixes: Set<Seq<char>>,
    params: Json,
    resolved: Resolved,
    place: Place,
) -> (resolutions: Seq<Resolution>)
    requires
        conflicts_verdict(
            found.source@,
            found.changed_source,
            conflict_views(found.conflicts@),
            prefixes,
            params,
            Ok(resolved),
        ),
        place.profile == default_profile() || !asks_for_base(params, prefixes, place.setting),
    ensures
        member_of(params, "resolutions"@) matches Some(Json::List(items)) && reads_resolutions(
            conflict_views(found.conflicts@),
            items,
            resolutions,
        ),
        resolved.source@ == resolved_all(
            found.source@,
            resolution_views(resolutions),
            prefixes,
        ),
        resolved_places(resolution_views(resolutions)).no_duplicates(),
        leaves_base(resolution_views(resolutions), prefixes, place),
{
    let conflicts = conflict_views(found.conflicts@);
    let items = member_of(params, "resolutions"@)->0->List_0;
    let resolutions = choose|resolutions: Seq<Resolution>| #[trigger]
        reads_resolutions(conflicts, items, resolutions) && resolved.source@ == resolved_all(
            found.source@,
            resolution_views(resolutions),
            prefixes,
        ) && resolved.changed_source == (found.changed_source || any_edits(
            resolution_views(resolutions),
        ));
    lemma_read_once(conflicts, items, resolutions);
    let views = resolution_views(resolutions);
    if place.profile != default_profile() {
        assert forall|k: int|
            0 <= k < views.len() && views[k].place.setting == place.setting implies !moves_base(
            #[trigger] views[k],
            prefixes,
        ) by {
            assert(resolution_verdict(conflicts, items[k], Ok(resolutions[k])));
            if moves_base(views[k], prefixes) {
                reveal_strlit("useSource");
                reveal_strlit("useVscode");
                reveal_strlit("keepProfileOverride");
                assert(named_place(items[k]) == Some(views[k].place));
                assert(views[k].place == (Place {
                    profile: default_profile(),
                    setting: place.setting,
                }));
            }
        }
    }
    resolutions
}

/// A setting that has a resolution is in conflict, and the resolution holds what VS Code has.
proof fn lemma_resolution_clashes(
    source: SourceView,
    previous: StateView,
    actual: ProfilesMap,
    found: ReconcileResult,
    params: Json,
    resolutions: Seq<Resolution>,
    k: int,
)
    requires
        merged_by_prefix(source, previous, actual, found),
        member_of(params, "resolutions"@) matches Some(Json::List(items)) && reads_resolutions(
            conflict_views(found.conflicts@),
            items,
            resolutions,
        ),
        0 <= k < resolutions.len(),
    ensures
        ({
            let view = resolution_views(resolutions)[k];
            let item = member_of(params, "resolutions"@)->0->List_0[k];
            &&& clashes(sides_of(source, previous.materialized, actual), view.place)
            &&& view.actual == setting_at(actual, view.place)
            &&& named_place(item) == Some(view.place)
            &&& text_param(item, "action"@) matches Some(name) && action_of(name) == Some(
                view.action,
            )
        }),
{
    let sides = sides_of(source, previous.materialized, actual);
    let conflicts = conflict_views(found.conflicts@);
    let items = member_of(params, "resolutions"@)->0->List_0;
    assert(resolution_verdict(conflicts, items[k], Ok(resolutions[k])));
    let view = resolutions[k]@;
    let n = choose|n: int| #[trigger]
        first_conflict(conflicts, view.place, n) && view.actual == conflicts[n].actual;
    let places = choose|places: Seq<Place>|
        #![trigger ranked(places, clashing(sides))]
        ranked(places, clashing(sides)) && conflicts == conflicts_at(sides, places);
    assert(conflicts[n] == conflict_at(sides, places[n]));
    assert(places.contains(places[n]));
    assert(clashing(sides).contains(places[n]));
}

/// Whether a resolution changes the base.
pub open spec fn moves_base(resolution: ResolutionView, prefixes: Set<Seq<char>>) -> bool {
    resolution.action == Action::UseVscode && goes_to_base(
        resolution.place.profile,
        known_prefix(prefixes, resolution.place.setting),
    )
}

/// Whether resolutions leave the base's value of a setting to a profile as it was.
pub open spec fn leaves_base(
    resolutions: Seq<ResolutionView>,
    prefixes: Set<Seq<char>>,
    place: Place,
) -> bool {
    place.profile == default_profile() || forall|k: int|
        0 <= k < resolutions.len() && resolutions[k].place.setting == place.setting ==> !moves_base(
            #[trigger] resolutions[k],
            prefixes,
        )
}

/// A resolution leaves every setting that it is not for as it was.
proof fn lemma_one_elsewhere(
    source: SourceView,
    resolution: ResolutionView,
    prefixes: Set<Seq<char>>,
    place: Place,
)
    requires
        resolution.place != place,
        moves_base(resolution, prefixes) ==> resolution.place.setting != place.setting,
    ensures
        agree(source, resolved_one(source, resolution, prefixes), place.profile, place.setting),
{
    if resolution.action == Action::UseVscode {
        law_mutation_keeps_the_rest(
            source,
            resolution.place.profile,
            resolution.place.setting,
            resolution.actual,
            known_prefix(prefixes, resolution.place.setting),
            place.profile,
            place.setting,
        );
    }
}

/// What a resolution makes of its setting depends on that setting alone.
proof fn lemma_one_agrees(
    a: SourceView,
    b: SourceView,
    resolution: ResolutionView,
    prefixes: Set<Seq<char>>,
)
    requires
        agree(a, b, resolution.place.profile, resolution.place.setting),
    ensures
        agree(
            resolved_one(a, resolution, prefixes),
            resolved_one(b, resolution, prefixes),
            resolution.place.profile,
            resolution.place.setting,
        ),
{
    let setting = resolution.place.setting;
    assert(a.base.contains_key(setting) == b.base.contains_key(setting));
    assert(delta_at(a, resolution.place.profile).settings.contains_key(setting) == delta_at(
        b,
        resolution.place.profile,
    ).settings.contains_key(setting));
}

/// A setting that no resolution is for stays as it was.
proof fn lemma_resolved_elsewhere(
    source: SourceView,
    resolutions: Seq<ResolutionView>,
    prefixes: Set<Seq<char>>,
    place: Place,
)
    requires
        leaves_base(resolutions, prefixes, place),
        forall|k: int| 0 <= k < resolutions.len() ==> (#[trigger] resolutions[k]).place != place,
    ensures
        agree(
            source,
            resolved_all(source, resolutions, prefixes),
            place.profile,
            place.setting,
        ),
    decreases resolutions.len(),
{
    if resolutions.len() > 0 {
        let fewer = resolutions.drop_last();
        let last = resolutions.last();
        lemma_leaves_base_prefix(resolutions, prefixes, place);
        assert forall|k: int| 0 <= k < fewer.len() implies (#[trigger] fewer[k]).place
            != place by {
            assert(fewer[k] == resolutions[k]);
        }
        lemma_resolved_elsewhere(source, fewer, prefixes, place);
        assert(resolutions[resolutions.len() - 1] == last);
        lemma_one_elsewhere(resolved_all(source, fewer, prefixes), last, prefixes, place);
    }
}

proof fn lemma_leaves_base_prefix(
    resolutions: Seq<ResolutionView>,
    prefixes: Set<Seq<char>>,
    place: Place,
)
    requires
        resolutions.len() > 0,
        leaves_base(resolutions, prefixes, place),
    ensures
        leaves_base(resolutions.drop_last(), prefixes, place),
{
    let fewer = resolutions.drop_last();
    if place.profile != default_profile() {
        assert forall|k: int|
            0 <= k < fewer.len() && fewer[k].place.setting == place.setting implies !moves_base(
            #[trigger] fewer[k],
            prefixes,
        ) by {
            assert(fewer[k] == resolutions[k]);
        }
    }
}

/// A setting is what its one resolution makes of it.
proof fn lemma_resolved_at(
    source: SourceView,
    resolutions: Seq<ResolutionView>,
    prefixes: Set<Seq<char>>,
    i: int,
)
    requires
        0 <= i < resolutions.len(),
        resolved_places(resolutions).no_duplicates(),
        leaves_base(resolutions, prefixes, resolutions[i].place),
    ensures
        agree(
            resolved_one(source, resolutions[i], prefixes),
            resolved_all(source, resolutions, prefixes),
            resolutions[i].place.profile,
            resolutions[i].place.setting,
        ),
    decreases resolutions.len(),
{
    let place = resolutions[i].place;
    let fewer = resolutions.drop_last();
    let last = resolutions.last();
    let middle = resolved_all(source, fewer, prefixes);
    let mine = resolved_places(resolutions);
    lemma_leaves_base_prefix(resolutions, prefixes, place);
    assert(mine[i] == place);
    if i == resolutions.len() - 1 {
        assert forall|k: int| 0 <= k < fewer.len() implies (#[trigger] fewer[k]).place
            != place by {
            assert(mine[k] == fewer[k].place);
        }
        lemma_resolved_elsewhere(source, fewer, prefixes, place);
        lemma_one_agrees(source, middle, last, prefixes);
    } else {
        assert(fewer[i] == resolutions[i]);
        assert(resolved_places(fewer) =~= mine.drop_last());
        lemma_resolved_at(source, fewer, prefixes, i);
        assert(mine[resolutions.len() - 1] == last.place);
        assert(last.place != place);
        assert(resolutions[resolutions.len() - 1] == last);
        lemma_one_elsewhere(middle, last, prefixes, place);
    }
}

/// Resolutions take no profile away.
proof fn lemma_resolved_profiles(
    source: SourceView,
    resolutions: Seq<ResolutionView>,
    prefixes: Set<Seq<char>>,
    profile: Seq<char>,
)
    requires
        source.profiles.contains_key(profile),
    ensures
        resolved_all(source, resolutions, prefixes).profiles.contains_key(profile),
    decreases resolutions.len(),
{
    if resolutions.len() > 0 {
        lemma_resolved_profiles(source, resolutions.drop_last(), prefixes, profile);
    }
}

} // verus!
