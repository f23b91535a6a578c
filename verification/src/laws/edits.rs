//! Laws of edits on request: what a request asks for is done, and nothing else.

use vstd::prelude::*;
use crate::edits::{
    action_of, any_edits, conflicts_verdict, edits, first_conflict, first_unread, mutate,
    named_place, read_resolution, reads_resolutions, repeats, resolution_verdict,
    resolution_views, resolve_conflicts, resolve_current, resolved_all, resolved_one, Action,
    EditError, Resolution, ResolutionView, Resolved,
};
use crate::inherit::compiled;
use crate::json::{Json, JsonValue, Settings};
use crate::laws::changes::{
    based, changed_there, held, keeps_one, lemma_merged_effect, lemma_mutated, option_view, own,
    reconciles, refused, reports, takes_over,
};
use crate::mutation::kept;
use crate::place::Place;
use crate::protocol::known_prefix;
use crate::reconcile::{conflict_views, Conflict, ReconcileResult};
use crate::service::merged_by_prefix;
use crate::source::{Source, SourceView, StateSnapshot};
use crate::table::{Names, Table};

verus! {

/// Parameters have a value under a name.
pub open spec fn says(params: Json, name: Seq<char>, value: Json) -> bool {
    &&& params is Object
    &&& params->Object_0.contains_key(name)
    &&& params->Object_0[name] == value
}

/// Parameters have no text under a name.
pub open spec fn says_no_text(params: Json, name: Seq<char>) -> bool {
    forall|text: Seq<char>| !(#[trigger] says(params, name, Json::Text(text)))
}

/// Parameters have nothing under a name.
pub open spec fn says_nothing(params: Json, name: Seq<char>) -> bool {
    !(params is Object && params->Object_0.contains_key(name))
}

/// A request for a value in the base is done: the base has the value of the setting, whether or
/// not it had one before, and everything else of the source stays as it was. Every profile that
/// inherits the setting without a value of its own has it then.
pub proof fn law_setting_the_base(
    source: Source,
    method: &str,
    params: &JsonValue,
    result: Result<Source, EditError>,
    setting: Seq<char>,
    value: Json,
    profile: Seq<char>,
    other: Seq<char>,
)
    requires
        call_ensures(mutate, (source, method, params), result),
        method@ == "settings/setBase"@,
        says(params@, "setting"@, Json::Text(setting)),
        says(params@, "value"@, value),
    ensures
        result is Ok,
        ({
            let after = result->Ok_0@;
            &&& after.base.contains_key(setting)
            &&& after.base[setting] == value
            &&& other != setting ==> based(after, other) == based(source@, other)
            &&& after.profiles == source@.profiles
            &&& after.schema == source@.schema
            &&& after.version == source@.version
            &&& source@.profiles.contains_key(profile) && own(source@, profile, setting) is None
                && !refused(source@, profile, setting) ==> held(
                compiled(after),
                profile,
                setting,
            ) == Some(value)
        }),
{
}

/// A request to inherit a setting is done: the profile neither has a value of its own nor refuses
/// the base's, and so has what the base has. Everything else of the source stays as it was.
pub proof fn law_inheriting_a_setting(
    source: Source,
    method: &str,
    params: &JsonValue,
    result: Result<Source, EditError>,
    profile: Seq<char>,
    setting: Seq<char>,
    p: Seq<char>,
    k: Seq<char>,
)
    requires
        call_ensures(mutate, (source, method, params), result),
        method@ == "settings/inherit"@,
        says(params@, "setting"@, Json::Text(setting)),
        says(params@, "profile"@, Json::Text(profile)),
    ensures
        result is Ok,
        ({
            let after = result->Ok_0@;
            &&& own(after, profile, setting) is None
            &&& !refused(after, profile, setting)
            &&& held(compiled(after), profile, setting) == based(source@, setting)
            &&& stays_elsewhere(source@, after, profile, setting, p, k)
        }),
{
    lemma_methods();
}

/// A request to refuse a setting is done: the profile has no value of its own and refuses the
/// base's, and so has none. Everything else of the source stays as it was.
pub proof fn law_uninheriting_a_setting(
    source: Source,
    method: &str,
    params: &JsonValue,
    result: Result<Source, EditError>,
    profile: Seq<char>,
    setting: Seq<char>,
    p: Seq<char>,
    k: Seq<char>,
)
    requires
        call_ensures(mutate, (source, method, params), result),
        method@ == "settings/uninherit"@,
        says(params@, "setting"@, Json::Text(setting)),
        says(params@, "profile"@, Json::Text(profile)),
    ensures
        result is Ok,
        ({
            let after = result->Ok_0@;
            &&& own(after, profile, setting) is None
            &&& refused(after, profile, setting)
            &&& held(compiled(after), profile, setting) is None
            &&& stays_elsewhere(source@, after, profile, setting, p, k)
        }),
{
    lemma_methods();
}

proof fn lemma_methods()
    ensures
        "settings/setBase"@ != "settings/inherit"@,
        "settings/setBase"@ != "settings/uninherit"@,
        "settings/inherit"@ != "settings/uninherit"@,
{
    reveal_strlit("settings/setBase");
    reveal_strlit("settings/inherit");
    reveal_strlit("settings/uninherit");
    assert("settings/setBase"@[9] != "settings/inherit"@[9]);
    assert("settings/setBase"@[9] != "settings/uninherit"@[9]);
    assert("settings/inherit"@[9] != "settings/uninherit"@[9]);
}

/// The base, the schema, the version and what is said of other settings and in other profiles
/// stay as they were. The profile is there afterwards, and no other comes or goes.
pub open spec fn stays_elsewhere(
    first: SourceView,
    last: SourceView,
    profile: Seq<char>,
    setting: Seq<char>,
    p: Seq<char>,
    k: Seq<char>,
) -> bool {
    &&& last.base == first.base
    &&& last.schema == first.schema
    &&& last.version == first.version
    &&& last.profiles.contains_key(p) <==> first.profiles.contains_key(p) || p == profile
    &&& p != profile || k != setting ==> own(last, p, k) == own(first, p, k) && refused(last, p, k)
        == refused(first, p, k)
}

/// A request that lacks a parameter is refused by its name, and one of another kind as unknown.
pub proof fn law_refusing_an_edit(
    source: Source,
    method: &str,
    params: &JsonValue,
    result: Result<Source, EditError>,
)
    requires
        call_ensures(mutate, (source, method, params), result),
    ensures
        says_no_text(params@, "setting"@) ==> (result matches Err(EditError::Required(name))
            && name@ == "setting"@),
        !says_no_text(params@, "setting"@) && method@ == "settings/setBase"@ && says_nothing(
            params@,
            "value"@,
        ) ==> (result matches Err(EditError::Required(name)) && name@ == "value"@),
        !says_no_text(params@, "setting"@) && method@ != "settings/setBase"@ && says_no_text(
            params@,
            "profile"@,
        ) ==> (result matches Err(EditError::Required(name)) && name@ == "profile"@),
        !says_no_text(params@, "setting"@) && !says_no_text(params@, "profile"@) && method@
            != "settings/setBase"@ && method@ != "settings/inherit"@ && method@
            != "settings/uninherit"@ ==> result matches Err(EditError::UnknownMutation),
        result is Ok ==> method@ == "settings/setBase"@ || method@ == "settings/inherit"@
            || method@ == "settings/uninherit"@,
{
    lemma_text_said(params@, "setting"@);
    lemma_text_said(params@, "profile"@);
}

/// Where parameters have a text under a name it is the one that is taken.
proof fn lemma_text_said(params: Json, name: Seq<char>)
    ensures
        says_no_text(params, name) <==> crate::protocol::text_param(params, name) is None,
        crate::protocol::text_param(params, name) is Some ==> says(
            params,
            name,
            Json::Text(crate::protocol::text_param(params, name)->0),
        ),
        forall|text: Seq<char>| #[trigger]
            says(params, name, Json::Text(text)) ==> crate::protocol::text_param(params, name)
                == Some(text),
{
    if crate::protocol::text_param(params, name) is Some {
        assert(says(
            params,
            name,
            Json::Text(crate::protocol::text_param(params, name)->0),
        ));
    }
}

/// The ways to resolve a conflict have these names and no others.
pub proof fn law_actions(name: Seq<char>)
    ensures
        action_of(name) == Some(Action::UseSource) <==> name == "useSource"@,
        action_of(name) == Some(Action::UseVscode) <==> name == "useVscode"@,
        action_of(name) == Some(Action::KeepProfileOverride) <==> name == "keepProfileOverride"@,
        action_of(name) is None <==> name != "useSource"@ && name != "useVscode"@ && name
            != "keepProfileOverride"@,
{
    reveal_strlit("useSource");
    reveal_strlit("useVscode");
    reveal_strlit("keepProfileOverride");
    assert("useSource"@[3] != "useVscode"@[3]);
    assert("useSource"@[0] != "keepProfileOverride"@[0]);
    assert("useVscode"@[0] != "keepProfileOverride"@[0]);
}

/// What an item of a request asks for: a setting of a profile, and a way to resolve its conflict.
pub open spec fn asks(
    item: Json,
    profile: Seq<char>,
    setting: Seq<char>,
    action: Seq<char>,
) -> bool {
    &&& says(item, "profile"@, Json::Text(profile))
    &&& says(item, "setting"@, Json::Text(setting))
    &&& says(item, "action"@, Json::Text(action))
}

/// The conflict at a place is the first of a setting of a profile.
pub open spec fn first_of_setting(
    conflicts: Seq<Conflict>,
    i: int,
    profile: Seq<char>,
    setting: Seq<char>,
) -> bool {
    &&& 0 <= i < conflicts.len()
    &&& conflicts[i].profile@ == profile
    &&& conflicts[i].setting@ == setting
    &&& forall|j: int|
        0 <= j < i ==> !((#[trigger] conflicts[j]).profile@ == profile && conflicts[j].setting@
            == setting)
}

/// One resolution is read of an item that asks for a current conflict and a known way. It takes
/// the value that VS Code has from the conflict. Any other item is refused by what is wrong.
pub proof fn law_reading_a_resolution(
    conflicts: &Vec<Conflict>,
    value: &JsonValue,
    result: Result<Resolution, EditError>,
    i: int,
    profile: Seq<char>,
    setting: Seq<char>,
    action: Seq<char>,
)
    requires
        call_ensures(read_resolution, (conflicts, value), result),
    ensures
        asks(value@, profile, setting, action) && first_of_setting(
            conflicts@,
            i,
            profile,
            setting,
        ) && action_of(action) is Some ==> (result matches Ok(found) && found.profile@ == profile
            && found.setting@ == setting && found.action == action_of(action)->0 && option_view(
            found.actual,
        ) == option_view(conflicts@[i].actual)),
        asks(value@, profile, setting, action) && first_of_setting(
            conflicts@,
            i,
            profile,
            setting,
        ) && action_of(action) is None ==> (result matches Err(EditError::UnknownAction(found))
            && found@ == action),
        asks(value@, profile, setting, action) && (forall|j: int|
            0 <= j < conflicts@.len() ==> !((#[trigger] conflicts@[j]).profile@ == profile
                && conflicts@[j].setting@ == setting)) ==> result matches Err(
            EditError::NotCurrent,
        ),
        says_no_text(value@, "profile"@) ==> (result matches Err(EditError::Required(name))
            && name@ == "profile"@),
        !says_no_text(value@, "profile"@) && says_no_text(value@, "setting"@) ==> (
        result matches Err(EditError::Required(name)) && name@ == "setting"@),
        !says_no_text(value@, "profile"@) && !says_no_text(value@, "setting"@) && says_no_text(
            value@,
            "action"@,
        ) ==> (result matches Err(EditError::Required(name)) && name@ == "action"@),
{
    lemma_text_said(value@, "profile"@);
    lemma_text_said(value@, "setting"@);
    lemma_text_said(value@, "action"@);
    let views = conflict_views(conflicts@);
    let place = Place { profile, setting };
    assert forall|j: int| 0 <= j < views.len() implies (#[trigger] views[j]).place == (Place {
        profile: conflicts@[j].profile@,
        setting: conflicts@[j].setting@,
    }) by {
        assert(views[j] == conflicts@[j]@);
    }
    if asks(value@, profile, setting, action) && first_of_setting(
        conflicts@,
        i,
        profile,
        setting,
    ) {
        assert(views[i].place == place);
        if result is Ok {
            let k = choose|k: int| #[trigger]
                first_conflict(views, place, k) && result->Ok_0@ == (ResolutionView {
                    place,
                    action: action_of(action)->0,
                    actual: views[k].actual,
                });
            assert(views[k].place == place);
            if i < k {
                assert(views[i].place != place);
            }
            if k < i {
                assert(!(conflicts@[k].profile@ == profile && conflicts@[k].setting@ == setting));
            }
        }
    }
    if forall|j: int|
        0 <= j < conflicts@.len() ==> !((#[trigger] conflicts@[j]).profile@ == profile
            && conflicts@[j].setting@ == setting) {
        assert forall|j: int| 0 <= j < views.len() implies (#[trigger] views[j]).place != place by {
            assert(conflicts@[j].profile@ == views[j].place.profile);
        }
    }
}

/// What becomes of one setting of a source when conflicts are resolved one after the other, each
/// for another setting. What is left to the source, or not asked for, stays. What is kept is the
/// profile's own. What is taken from VS Code is taken over as a change is, by the base as it then
/// is, and goes to the base where it is Default's and belongs there.
pub open spec fn resolves(
    first: SourceView,
    resolutions: Seq<ResolutionView>,
    prefixes: Set<Seq<char>>,
    last: SourceView,
    profile: Seq<char>,
    setting: Seq<char>,
) -> bool {
    let n = resolutions.len() as int;
    let here = Place { profile, setting };
    &&& last.schema == first.schema
    &&& last.version == first.version
    &&& last.profiles.contains_key(profile) <==> first.profiles.contains_key(profile) || exists|
        i: int,
    |
        0 <= i < n && (#[trigger] resolutions[i]).place.profile == profile && resolutions[i].action
            != Action::UseSource
    &&& based(last, setting) == base_after(first, resolutions, prefixes, setting, n)
    &&& (forall|j: int|
        0 <= j < n ==> (#[trigger] resolutions[j]).place != here || resolutions[j].action
            == Action::UseSource) ==> own(last, profile, setting) == own(first, profile, setting)
        && refused(last, profile, setting) == refused(first, profile, setting)
    &&& forall|j: int|
        #![trigger resolutions[j]]
        0 <= j < n && resolutions[j].place == here ==> match resolutions[j].action {
            Action::UseSource => true,
            Action::KeepProfileOverride => own(last, profile, setting) == resolutions[j].actual
                && refused(last, profile, setting) == (resolutions[j].actual is None),
            Action::UseVscode => if profile == "Default"@ && known_prefix(prefixes, setting) {
                own(last, profile, setting) is None && !refused(last, profile, setting)
            } else {
                takes_over(
                    own(first, profile, setting),
                    base_after(first, resolutions, prefixes, setting, j),
                    resolutions[j].actual,
                    own(last, profile, setting),
                    refused(last, profile, setting),
                )
            },
        }
}

/// What a resolution puts into the base: what VS Code has of a setting of Default that belongs
/// there.
pub open spec fn rebases(
    resolution: ResolutionView,
    prefixes: Set<Seq<char>>,
    setting: Seq<char>,
) -> bool {
    &&& resolution.place == (Place { profile: "Default"@, setting })
    &&& resolution.action == Action::UseVscode
    &&& known_prefix(prefixes, setting)
}

/// What the base has of a setting after the first resolutions.
pub open spec fn base_after(
    first: SourceView,
    resolutions: Seq<ResolutionView>,
    prefixes: Set<Seq<char>>,
    setting: Seq<char>,
    n: int,
) -> Option<Json>
    decreases n,
{
    if n <= 0 {
        based(first, setting)
    } else if rebases(resolutions[n - 1], prefixes, setting) {
        resolutions[n - 1].actual
    } else {
        base_after(first, resolutions, prefixes, setting, n - 1)
    }
}

proof fn lemma_base_after(
    first: SourceView,
    resolutions: Seq<ResolutionView>,
    prefixes: Set<Seq<char>>,
    setting: Seq<char>,
    n: int,
)
    requires
        n < resolutions.len(),
    ensures
        base_after(first, resolutions, prefixes, setting, n) == base_after(
            first,
            resolutions.drop_last(),
            prefixes,
            setting,
            n,
        ),
    decreases n,
{
    if n > 0 {
        assert(resolutions.drop_last()[n - 1] == resolutions[n - 1]);
        lemma_base_after(first, resolutions, prefixes, setting, n - 1);
    }
}

proof fn lemma_kept(
    source: SourceView,
    profile: Seq<char>,
    setting: Seq<char>,
    value: Option<Json>,
)
    ensures
        keeps_one(source, profile, setting, value, kept(source, profile, setting, value)),
{
}

/// Conflicts that are resolved one after the other become what each resolution says.
pub proof fn lemma_resolves(
    source: SourceView,
    resolutions: Seq<ResolutionView>,
    prefixes: Set<Seq<char>>,
    profile: Seq<char>,
    setting: Seq<char>,
)
    requires
        forall|i: int, j: int|
            #![trigger resolutions[i], resolutions[j]]
            0 <= i < j < resolutions.len() ==> resolutions[i].place != resolutions[j].place,
    ensures
        resolves(
            source,
            resolutions,
            prefixes,
            resolved_all(source, resolutions, prefixes),
            profile,
            setting,
        ),
    decreases resolutions.len(),
{
    if resolutions.len() > 0 {
        let fewer = resolutions.drop_last();
        let one = resolutions.last();
        let m = resolutions.len() - 1;
        let here = Place { profile, setting };
        let middle = resolved_all(source, fewer, prefixes);
        let last = resolved_all(source, resolutions, prefixes);
        assert forall|i: int, j: int|
            #![trigger fewer[i], fewer[j]]
            0 <= i < j < fewer.len() implies fewer[i].place != fewer[j].place by {
            assert(resolutions[i].place != resolutions[j].place);
        }
        lemma_resolves(source, fewer, prefixes, profile, setting);
        lemma_mutated(
            middle,
            one.place.profile,
            one.place.setting,
            one.actual,
            known_prefix(prefixes, one.place.setting),
        );
        lemma_kept(middle, one.place.profile, one.place.setting, one.actual);
        assert(last == resolved_one(middle, one, prefixes));
        assert(resolutions[m] == one);
        lemma_base_after(source, resolutions, prefixes, setting, m);
        assert(last.profiles.contains_key(profile) <==> source.profiles.contains_key(profile)
            || exists|i: int|
            0 <= i < resolutions.len() && (#[trigger] resolutions[i]).place.profile == profile
                && resolutions[i].action != Action::UseSource) by {
            if exists|i: int|
                0 <= i < fewer.len() && (#[trigger] fewer[i]).place.profile == profile
                    && fewer[i].action != Action::UseSource {
                let i = choose|i: int|
                    0 <= i < fewer.len() && (#[trigger] fewer[i]).place.profile == profile
                        && fewer[i].action != Action::UseSource;
                assert(resolutions[i].place.profile == profile);
            }
            if exists|i: int|
                0 <= i < resolutions.len() && (#[trigger] resolutions[i]).place.profile == profile
                    && resolutions[i].action != Action::UseSource {
                let i = choose|i: int|
                    0 <= i < resolutions.len() && (#[trigger] resolutions[i]).place.profile
                        == profile && resolutions[i].action != Action::UseSource;
                if i < m {
                    assert(fewer[i].place.profile == profile);
                }
            }
        }
        if forall|j: int|
            0 <= j < resolutions.len() ==> (#[trigger] resolutions[j]).place != here
                || resolutions[j].action == Action::UseSource {
            assert forall|j: int| 0 <= j < fewer.len() implies (#[trigger] fewer[j]).place != here
                || fewer[j].action == Action::UseSource by {
                assert(resolutions[j].place != here || resolutions[j].action == Action::UseSource);
            }
        }
        assert forall|j: int|
            #![trigger resolutions[j]]
            0 <= j < resolutions.len() && resolutions[j].place == here implies match
        resolutions[j].action {
            Action::UseSource => true,
            Action::KeepProfileOverride => own(last, profile, setting) == resolutions[j].actual
                && refused(last, profile, setting) == (resolutions[j].actual is None),
            Action::UseVscode => if profile == "Default"@ && known_prefix(prefixes, setting) {
                own(last, profile, setting) is None && !refused(last, profile, setting)
            } else {
                takes_over(
                    own(source, profile, setting),
                    base_after(source, resolutions, prefixes, setting, j),
                    resolutions[j].actual,
                    own(last, profile, setting),
                    refused(last, profile, setting),
                )
            },
        } by {
            if j < m {
                assert(fewer[j] == resolutions[j]);
                assert(resolutions[j].place != resolutions[m].place);
                lemma_base_after(source, resolutions, prefixes, setting, j);
                assert(own(last, profile, setting) == own(middle, profile, setting));
                assert(refused(last, profile, setting) == refused(middle, profile, setting));
            } else {
                assert forall|i: int| 0 <= i < fewer.len() implies (#[trigger] fewer[i]).place
                    != here by {
                    assert(resolutions[i].place != resolutions[m].place);
                }
            }
        }
    }
}

/// What is asked of a list of resolutions: one for every conflict, and no two for one setting.
pub open spec fn one_each(items: Seq<Json>, count: nat) -> bool {
    &&& items.len() == count
    &&& forall|i: int, j: int, profile: Seq<char>, setting: Seq<char>|
        #![trigger says(items[i], "profile"@, Json::Text(profile)), says(items[j], "setting"@, Json::Text(setting))]
        0 <= i < items.len() && 0 <= j < items.len() && i != j ==> !(says(
            items[i],
            "profile"@,
            Json::Text(profile),
        ) && says(items[i], "setting"@, Json::Text(setting)) && says(
            items[j],
            "profile"@,
            Json::Text(profile),
        ) && says(items[j], "setting"@, Json::Text(setting)))
}

proof fn lemma_one_each(items: Seq<Json>)
    ensures
        repeats(items) <==> !one_each(items, items.len()),
{
    assert forall|i: int|
        #![trigger items[i]]
        0 <= i < items.len() implies (named_place(items[i]) is Some ==> says(
        items[i],
        "profile"@,
        Json::Text(named_place(items[i])->0.profile),
    ) && says(items[i], "setting"@, Json::Text(named_place(items[i])->0.setting))) by {
        lemma_text_said(items[i], "profile"@);
        lemma_text_said(items[i], "setting"@);
    }
    if repeats(items) {
        let (i, j) = choose|i: int, j: int|
            #![trigger items[i], items[j]]
            0 <= i < j < items.len() && named_place(items[i]) is Some && named_place(items[i])
                == named_place(items[j]);
        let place = named_place(items[i])->0;
        assert(says(items[i], "profile"@, Json::Text(place.profile)));
        assert(says(items[j], "setting"@, Json::Text(place.setting)));
    }
    if !one_each(items, items.len()) {
        let (i, j, profile, setting) = choose|
            i: int,
            j: int,
            profile: Seq<char>,
            setting: Seq<char>,
        |
            #![trigger says(items[i], "profile"@, Json::Text(profile)), says(items[j], "setting"@, Json::Text(setting))]
            0 <= i < items.len() && 0 <= j < items.len() && i != j && says(
                items[i],
                "profile"@,
                Json::Text(profile),
            ) && says(items[i], "setting"@, Json::Text(setting)) && says(
                items[j],
                "profile"@,
                Json::Text(profile),
            ) && says(items[j], "setting"@, Json::Text(setting));
        lemma_text_said(items[i], "profile"@);
        lemma_text_said(items[i], "setting"@);
        lemma_text_said(items[j], "profile"@);
        lemma_text_said(items[j], "setting"@);
        assert(named_place(items[i]) == named_place(items[j]));
        if i < j {
            assert(repeats(items));
        } else {
            assert(named_place(items[j]) == named_place(items[i]));
            assert(repeats(items));
        }
    }
}

/// The resolutions that a list asks for: each takes its place and its way from its item, and the
/// value of VS Code from the conflict.
pub open spec fn resolutions_for(
    items: Seq<Json>,
    conflicts: Seq<Conflict>,
    resolutions: Seq<ResolutionView>,
) -> bool {
    &&& resolutions.len() == items.len()
    &&& forall|i: int|
        #![trigger resolutions[i]]
        0 <= i < items.len() ==> {
            let profile = resolutions[i].place.profile;
            let setting = resolutions[i].place.setting;
            &&& exists|action: Seq<char>| #[trigger]
                asks(items[i], profile, setting, action) && action_of(action) == Some(
                    resolutions[i].action,
                )
            &&& exists|j: int| #[trigger]
                first_of_setting(conflicts, j, profile, setting) && resolutions[i].actual
                    == option_view(conflicts[j].actual)
        }
    &&& forall|i: int, j: int|
        #![trigger resolutions[i], resolutions[j]]
        0 <= i < j < resolutions.len() ==> resolutions[i].place != resolutions[j].place
}

/// Whether an item asks for a current conflict and a known way to resolve it.
pub open spec fn answerable(item: Json, conflicts: Seq<Conflict>) -> bool {
    exists|profile: Seq<char>, setting: Seq<char>, action: Seq<char>, j: int|
        #![trigger asks(item, profile, setting, action), first_of_setting(conflicts, j, profile, setting)]
        asks(item, profile, setting, action) && action_of(action) is Some && first_of_setting(
            conflicts,
            j,
            profile,
            setting,
        )
}

/// What is read of an item that is read is what the item asks for.
proof fn lemma_read_item(
    conflicts: Seq<Conflict>,
    item: Json,
    resolution: Resolution,
)
    requires
        resolution_verdict(conflict_views(conflicts), item, Ok(resolution)),
    ensures
        ({
            let view = resolution@;
            &&& exists|action: Seq<char>| #[trigger]
                asks(item, view.place.profile, view.place.setting, action) && action_of(action)
                    == Some(view.action)
            &&& exists|j: int| #[trigger]
                first_of_setting(conflicts, j, view.place.profile, view.place.setting)
                    && view.actual == option_view(conflicts[j].actual)
            &&& named_place(item) == Some(view.place)
        }),
        answerable(item, conflicts),
{
    lemma_text_said(item, "profile"@);
    lemma_text_said(item, "setting"@);
    lemma_text_said(item, "action"@);
    let views = conflict_views(conflicts);
    let view = resolution@;
    let place = view.place;
    let action = crate::protocol::text_param(item, "action"@)->0;
    let j = choose|j: int| #[trigger]
        first_conflict(views, place, j) && view == (ResolutionView {
            place,
            action: action_of(action)->0,
            actual: views[j].actual,
        });
    assert(views[j] == conflicts[j]@);
    assert forall|k: int| 0 <= k < j implies !((#[trigger] conflicts[k]).profile@ == place.profile
        && conflicts[k].setting@ == place.setting) by {
        assert(views[k] == conflicts[k]@);
        assert(views[k].place != place);
    }
    assert(first_of_setting(conflicts, j, place.profile, place.setting));
    assert(asks(item, place.profile, place.setting, action));
}

/// What resolving gives is what was asked for.
pub proof fn lemma_resolving(
    source: SourceView,
    changed: bool,
    conflicts: Seq<Conflict>,
    prefixes: Set<Seq<char>>,
    params: Json,
    result: Result<Resolved, EditError>,
    items: Seq<Json>,
    profile: Seq<char>,
    setting: Seq<char>,
) -> (resolutions: Seq<ResolutionView>)
    requires
        conflicts_verdict(source, changed, conflict_views(conflicts), prefixes, params, result),
    ensures
        says(params, "resolutions"@, Json::List(items)) && !one_each(items, conflicts.len())
            ==> result matches Err(EditError::ResolutionCount),
        (forall|list: Seq<Json>| !(#[trigger] says(params, "resolutions"@, Json::List(list)))) ==> (
        result matches Err(EditError::Required(name)) && name@ == "resolutions"@),
        says(params, "resolutions"@, Json::List(items)) && one_each(items, conflicts.len()) ==> {
            &&& result is Ok <==> forall|i: int|
                0 <= i < items.len() ==> answerable(#[trigger] items[i], conflicts)
            &&& result matches Ok(resolved) ==> {
                &&& resolutions_for(items, conflicts, resolutions)
                &&& resolves(
                    source,
                    resolutions,
                    prefixes,
                    resolved.source@,
                    profile,
                    setting,
                )
                &&& resolved.changed_source == (changed || exists|i: int|
                    0 <= i < resolutions.len() && (#[trigger] resolutions[i]).action
                        != Action::UseSource)
            }
        },
{
    let views = conflict_views(conflicts);
    lemma_one_each(items);
    if says(params, "resolutions"@, Json::List(items)) && one_each(items, conflicts.len()) {
        assert(crate::registry::member_of(params, "resolutions"@) == Some(Json::List(items)));
        match result {
            Ok(resolved) => {
                let read = choose|read: Seq<Resolution>| #[trigger]
                    reads_resolutions(views, items, read) && resolved.source@ == resolved_all(
                        source,
                        resolution_views(read),
                        prefixes,
                    ) && resolved.changed_source == (changed || any_edits(resolution_views(read)));
                let resolutions = resolution_views(read);
                assert forall|i: int|
                    #![trigger resolutions[i]]
                    0 <= i < items.len() implies resolutions[i] == read[i]@ && named_place(
                    items[i],
                ) == Some(resolutions[i].place) && answerable(items[i], conflicts) && (exists|
                    action: Seq<char>,
                | #[trigger]
                    asks(
                        items[i],
                        resolutions[i].place.profile,
                        resolutions[i].place.setting,
                        action,
                    ) && action_of(action) == Some(resolutions[i].action)) && (exists|j: int|
                 #[trigger]
                    first_of_setting(
                        conflicts,
                        j,
                        resolutions[i].place.profile,
                        resolutions[i].place.setting,
                    ) && resolutions[i].actual == option_view(conflicts[j].actual)) by {
                    assert(resolution_verdict(views, items[i], Ok(read[i])));
                    lemma_read_item(conflicts, items[i], read[i]);
                }
                assert forall|i: int| 0 <= i < items.len() implies answerable(
                    #[trigger] items[i],
                    conflicts,
                ) by {
                    assert(resolutions[i] == read[i]@);
                }
                assert forall|i: int, j: int|
                    #![trigger resolutions[i], resolutions[j]]
                    0 <= i < j < resolutions.len() implies resolutions[i].place
                    != resolutions[j].place by {
                    assert(named_place(items[i]) is Some);
                    assert(!repeats(items));
                    assert(items[i] == items[i] && items[j] == items[j]);
                }
                lemma_resolves(source, resolutions, prefixes, profile, setting);
                assert(any_edits(resolutions) <==> exists|i: int|
                    0 <= i < resolutions.len() && (#[trigger] resolutions[i]).action
                        != Action::UseSource) by {
                    if any_edits(resolutions) {
                        let i = choose|i: int|
                            0 <= i < resolutions.len() && edits(#[trigger] resolutions[i]);
                        assert(resolutions[i].action != Action::UseSource);
                    }
                    if exists|i: int|
                        0 <= i < resolutions.len() && (#[trigger] resolutions[i]).action
                            != Action::UseSource {
                        let i = choose|i: int|
                            0 <= i < resolutions.len() && (#[trigger] resolutions[i]).action
                                != Action::UseSource;
                        assert(edits(resolutions[i]));
                    }
                }
                resolutions
            },
            Err(error) => {
                let i = choose|i: int| #[trigger] first_unread(views, items, i, error);
                assert(!answerable(items[i], conflicts)) by {
                    if answerable(items[i], conflicts) {
                        let (p, k, action, j) = choose|
                            p: Seq<char>,
                            k: Seq<char>,
                            action: Seq<char>,
                            j: int,
                        |
                            #![trigger asks(items[i], p, k, action), first_of_setting(conflicts, j, p, k)]
                            asks(items[i], p, k, action) && action_of(action) is Some
                                && first_of_setting(conflicts, j, p, k);
                        lemma_text_said(items[i], "profile"@);
                        lemma_text_said(items[i], "setting"@);
                        lemma_text_said(items[i], "action"@);
                        assert(views[j] == conflicts[j]@);
                        assert(views[j].place == (Place { profile: p, setting: k }));
                    }
                }
                Seq::empty()
            },
        }
    } else {
        if forall|list: Seq<Json>| !(#[trigger] says(params, "resolutions"@, Json::List(list))) {
            if let Some(Json::List(list)) = crate::registry::member_of(params, "resolutions"@) {
                assert(says(params, "resolutions"@, Json::List(list)));
            }
        }
        Seq::empty()
    }
}

/// Resolving conflicts does what the request asks for: it has to have one resolution for every
/// conflict, no two for one setting, and each for a current conflict in a known way. Otherwise it
/// is refused. The source counts as changed where something is not left to it.
pub proof fn law_resolving(
    source: Source,
    conflicts: &Vec<Conflict>,
    prefixes: &Names,
    params: &JsonValue,
    result: Result<Resolved, EditError>,
    items: Seq<Json>,
    profile: Seq<char>,
    setting: Seq<char>,
) -> (resolutions: Seq<ResolutionView>)
    requires
        call_ensures(resolve_conflicts, (source, conflicts, prefixes, params), result),
    ensures
        says(params@, "resolutions"@, Json::List(items)) && !one_each(items, conflicts@.len())
            ==> result matches Err(EditError::ResolutionCount),
        (forall|list: Seq<Json>| !(#[trigger] says(params@, "resolutions"@, Json::List(list))))
            ==> (result matches Err(EditError::Required(name)) && name@ == "resolutions"@),
        says(params@, "resolutions"@, Json::List(items)) && one_each(items, conflicts@.len()) ==> {
            &&& result is Ok <==> forall|i: int|
                0 <= i < items.len() ==> answerable(#[trigger] items[i], conflicts@)
            &&& result matches Ok(resolved) ==> {
                &&& resolutions_for(items, conflicts@, resolutions)
                &&& resolves(
                    source@,
                    resolutions,
                    prefixes@,
                    resolved.source@,
                    profile,
                    setting,
                )
                &&& resolved.changed_source <==> exists|i: int|
                    0 <= i < resolutions.len() && (#[trigger] resolutions[i]).action
                        != Action::UseSource
            }
        },
{
    lemma_resolving(
        source@,
        false,
        conflicts@,
        prefixes@,
        params@,
        result,
        items,
        profile,
        setting,
    )
}

/// What is told of an item that is no resolution: the first of its fields that is no text, that
/// it asks for no current conflict, or that it asks for no known way to resolve one.
pub open spec fn tells_of_item(
    item: Json,
    conflicts: Seq<Conflict>,
    profile: Seq<char>,
    setting: Seq<char>,
    action: Seq<char>,
    error: EditError,
) -> bool {
    &&& says_no_text(item, "profile"@) ==> (error matches EditError::Required(name) && name@
        == "profile"@)
    &&& !says_no_text(item, "profile"@) && says_no_text(item, "setting"@) ==> (
    error matches EditError::Required(name) && name@ == "setting"@)
    &&& !says_no_text(item, "profile"@) && !says_no_text(item, "setting"@) && says_no_text(
        item,
        "action"@,
    ) ==> (error matches EditError::Required(name) && name@ == "action"@)
    &&& asks(item, profile, setting, action) && (forall|j: int|
        0 <= j < conflicts.len() ==> !((#[trigger] conflicts[j]).profile@ == profile
            && conflicts[j].setting@ == setting)) ==> error is NotCurrent
    &&& asks(item, profile, setting, action) && (exists|j: int|
        0 <= j < conflicts.len() && (#[trigger] conflicts[j]).profile@ == profile
            && conflicts[j].setting@ == setting) ==> (error matches EditError::UnknownAction(name)
        && name@ == action)
}

/// Where there is one item for every conflict and no two are for one setting, a request is
/// refused by the first item that cannot be answered, and what is told is what is wrong with it.
pub proof fn law_refusing_resolutions(
    source: Source,
    conflicts: &Vec<Conflict>,
    prefixes: &Names,
    params: &JsonValue,
    result: Result<Resolved, EditError>,
    items: Seq<Json>,
    profile: Seq<char>,
    setting: Seq<char>,
    action: Seq<char>,
) -> (i: int)
    requires
        call_ensures(resolve_conflicts, (source, conflicts, prefixes, params), result),
        says(params@, "resolutions"@, Json::List(items)),
        one_each(items, conflicts@.len()),
        result is Err,
    ensures
        0 <= i < items.len(),
        !answerable(items[i], conflicts@),
        forall|j: int| 0 <= j < i ==> answerable(#[trigger] items[j], conflicts@),
        tells_of_item(items[i], conflicts@, profile, setting, action, result->Err_0),
{
    lemma_one_each(items);
    let views = conflict_views(conflicts@);
    let error = result->Err_0;
    let i = choose|i: int| #[trigger] first_unread(views, items, i, error);
    assert forall|j: int| 0 <= j < i implies answerable(#[trigger] items[j], conflicts@) by {
        let resolution = choose|resolution: Resolution|
            resolution_verdict(views, items[j], Ok(resolution));
        lemma_read_item(conflicts@, items[j], resolution);
    }
    lemma_text_said(items[i], "profile"@);
    lemma_text_said(items[i], "setting"@);
    lemma_text_said(items[i], "action"@);
    assert forall|j: int| 0 <= j < views.len() implies (#[trigger] views[j]).place == (Place {
        profile: conflicts@[j].profile@,
        setting: conflicts@[j].setting@,
    }) by {
        assert(views[j] == conflicts@[j]@);
    }
    assert(!answerable(items[i], conflicts@)) by {
        if answerable(items[i], conflicts@) {
            let (p, k, a, j) = choose|p: Seq<char>, k: Seq<char>, a: Seq<char>, j: int|
                #![trigger asks(items[i], p, k, a), first_of_setting(conflicts@, j, p, k)]
                asks(items[i], p, k, a) && action_of(a) is Some && first_of_setting(
                    conflicts@,
                    j,
                    p,
                    k,
                );
            assert(views[j].place == (Place { profile: p, setting: k }));
        }
    }
    if asks(items[i], profile, setting, action) {
        let place = Place { profile, setting };
        if exists|j: int|
            0 <= j < conflicts@.len() && (#[trigger] conflicts@[j]).profile@ == profile
                && conflicts@[j].setting@ == setting {
            let j = choose|j: int|
                0 <= j < conflicts@.len() && (#[trigger] conflicts@[j]).profile@ == profile
                    && conflicts@[j].setting@ == setting;
            assert(views[j].place == place);
        } else {
            assert forall|j: int| 0 <= j < views.len() implies (#[trigger] views[j]).place
                != place by {
                assert(!(conflicts@[j].profile@ == profile && conflicts@[j].setting@ == setting));
            }
        }
    }
    i
}

/// Resolving what is in conflict now first takes over what changed in VS Code alone, as
/// reconciling does, and then does what the request asks for of the settings that changed on
/// both sides. `middle` is the source in between, and `conflicts` is what is in conflict.
pub proof fn law_resolving_now(
    source: Source,
    previous: &StateSnapshot,
    actual: &Table<Settings>,
    params: &JsonValue,
    result: Result<Resolved, EditError>,
    items: Seq<Json>,
    profile: Seq<char>,
    setting: Seq<char>,
) -> (found: (SourceView, Seq<Conflict>, Seq<ResolutionView>))
    requires
        call_ensures(resolve_current, (source, previous, actual, params), result),
    ensures
        ({
            let (middle, conflicts, resolutions) = found;
            let before = previous.materialized.deep_view();
            let there = actual.deep_view();
            let prefixes = previous.known_setting_prefixes@;
            &&& reports(source@, before, there, conflicts)
            &&& reconciles(
                source@,
                before,
                there,
                known_prefix(prefixes, setting),
                middle,
                profile,
                setting,
            )
            &&& says(params@, "resolutions"@, Json::List(items)) && !one_each(
                items,
                conflicts.len(),
            ) ==> (result matches Err(EditError::ResolutionCount))
            &&& says(params@, "resolutions"@, Json::List(items)) && one_each(
                items,
                conflicts.len(),
            ) ==> {
                &&& result is Ok <==> forall|i: int|
                    0 <= i < items.len() ==> answerable(#[trigger] items[i], conflicts)
                &&& result matches Ok(resolved) ==> {
                    &&& resolutions_for(items, conflicts, resolutions)
                    &&& resolves(
                        middle,
                        resolutions,
                        prefixes,
                        resolved.source@,
                        profile,
                        setting,
                    )
                    &&& resolved.changed_source <==> (exists|p: Seq<char>, k: Seq<char>|
                     #[trigger]
                        changed_there(source@, before, there, p, k)) || exists|i: int|
                        0 <= i < resolutions.len() && (#[trigger] resolutions[i]).action
                            != Action::UseSource
                }
            }
        }),
{
    let prefixes = previous.known_setting_prefixes@;
    let merged = choose|merged: ReconcileResult| #[trigger]
        merged_by_prefix(source@, previous@, actual.deep_view(), merged) && conflicts_verdict(
            merged.source@,
            merged.changed_source,
            conflict_views(merged.conflicts@),
            previous@.known_setting_prefixes,
            params@,
            result,
        );
    lemma_merged_effect(source@, previous@, actual.deep_view(), merged, profile, setting);
    let resolutions = lemma_resolving(
        merged.source@,
        merged.changed_source,
        merged.conflicts@,
        prefixes,
        params@,
        result,
        items,
        profile,
        setting,
    );
    (merged.source@, merged.conflicts@, resolutions)
}

} // verus!
