//! Changes of a source: what was changed in VS Code is taken over, and single
//! settings are put into the base, inherited or not.

use vstd::prelude::*;
use crate::inherit::{overlaid, resolved, resolved_value};
use crate::json::{
    at, law_same_json_reflexive, same_json, same_option, Json, JsonValue, SettingsMap,
};
use crate::source::{
    empty_delta, obsolete_unset, overlap, sound_profile, sound_source, DeltaView, ProfileDelta,
    Source, SourceView,
};
use crate::text::{blank, same_text};

verus! {

/// The profile whose settings are those of the base.
pub open spec fn default_profile() -> Seq<char> {
    "Default"@
}

/// What a profile changes of the base: nothing, where the source does not have
/// the profile.
pub open spec fn delta_at(source: SourceView, profile: Seq<char>) -> DeltaView {
    match at(source.profiles, profile) {
        Some(delta) => delta,
        None => empty_delta(),
    }
}

/// A source with another delta for a profile.
pub open spec fn with_delta(
    source: SourceView,
    profile: Seq<char>,
    delta: DeltaView,
) -> SourceView {
    SourceView { profiles: source.profiles.insert(profile, delta), ..source }
}

/// A delta that takes a setting as the base has it.
pub open spec fn inheriting(delta: DeltaView, setting: Seq<char>) -> DeltaView {
    DeltaView {
        uninherit: delta.uninherit.remove(setting),
        settings: delta.settings.remove(setting),
    }
}

/// A delta with a value of its own for a setting.
pub open spec fn overriding(delta: DeltaView, setting: Seq<char>, value: Json) -> DeltaView {
    DeltaView {
        uninherit: delta.uninherit.remove(setting),
        settings: delta.settings.insert(setting, value),
    }
}

/// A delta that neither has a setting nor takes it from the base.
pub open spec fn uninheriting(delta: DeltaView, setting: Seq<char>) -> DeltaView {
    DeltaView {
        uninherit: delta.uninherit.insert(setting),
        settings: delta.settings.remove(setting),
    }
}

/// Whether a change of a setting in a profile goes to the base.
pub open spec fn goes_to_base(profile: Seq<char>, is_base_setting: bool) -> bool {
    profile == default_profile() && is_base_setting
}

/// The base with a setting changed.
pub open spec fn with_base(
    base: SettingsMap,
    setting: Seq<char>,
    value: Option<Json>,
) -> SettingsMap {
    match value {
        Some(value) => base.insert(setting, value),
        None => base.remove(setting),
    }
}

/// Whether the base has a setting with a value.
pub open spec fn base_has(source: SourceView, setting: Seq<char>, value: Json) -> bool {
    source.base.contains_key(setting) && same_json(source.base[setting], value)
}

/// What becomes of a source when a setting was changed in a profile: `actual`
/// is its value there now, if it has one.
pub open spec fn mutated(
    source: SourceView,
    profile: Seq<char>,
    setting: Seq<char>,
    actual: Option<Json>,
    is_base_setting: bool,
) -> SourceView {
    let delta = delta_at(source, profile);
    if goes_to_base(profile, is_base_setting) {
        SourceView {
            base: with_base(source.base, setting, actual),
            ..with_delta(source, profile, inheriting(delta, setting))
        }
    } else {
        with_delta(
            source,
            profile,
            match actual {
                Some(value) => if base_has(source, setting, value) {
                    inheriting(delta, setting)
                } else {
                    overriding(delta, setting, value)
                },
                None => if source.base.contains_key(setting) && !delta.settings.contains_key(
                    setting,
                ) {
                    uninheriting(delta, setting)
                } else {
                    inheriting(delta, setting)
                },
            },
        )
    }
}

/// Takes the delta of a profile out of a source.
fn take_delta(source: &mut Source, profile: &str) -> (delta: ProfileDelta)
    ensures
        delta@ == delta_at(old(source)@, profile@),
        final(source)@ == (SourceView {
            profiles: old(source)@.profiles.remove(profile@),
            ..old(source)@
        }),
{
    let delta = match source.profiles.remove(profile) {
        Some(delta) => delta,
        None => ProfileDelta::default(),
    };
    assert(source@.profiles =~= old(source)@.profiles.remove(profile@));
    delta
}

/// Puts the delta of a profile into a source.
fn put_delta(source: &mut Source, profile: &str, delta: ProfileDelta)
    ensures
        final(source)@ == with_delta(old(source)@, profile@, delta@),
{
    source.profiles.insert(profile.to_owned(), delta);
    assert(source@.profiles =~= old(source)@.profiles.insert(profile@, delta@));
}

impl ProfileDelta {
    /// Takes a setting as the base has it.
    pub fn inherit(&mut self, setting: &str)
        ensures
            final(self)@ == inheriting(old(self)@, setting@),
    {
        self.settings.remove(setting);
        self.uninherit.remove(setting);
        assert(self@.settings =~= old(self)@.settings.remove(setting@));
    }

    /// Gives a setting a value of the profile's own.
    pub fn override_with(&mut self, setting: &str, value: JsonValue)
        ensures
            final(self)@ == overriding(old(self)@, setting@, value@),
    {
        self.settings.insert(setting.to_owned(), value);
        self.uninherit.remove(setting);
        assert(self@.settings =~= old(self)@.settings.insert(setting@, value@));
    }

    /// Neither has a setting nor takes it from the base.
    pub fn uninherit(&mut self, setting: &str)
        ensures
            final(self)@ == uninheriting(old(self)@, setting@),
    {
        self.settings.remove(setting);
        self.uninherit.insert(setting.to_owned());
        assert(self@.settings =~= old(self)@.settings.remove(setting@));
    }
}

/// Takes over into a source what was changed in a profile.
pub fn apply_actual_mutation(
    source: &mut Source,
    profile: &str,
    key: &str,
    actual: Option<JsonValue>,
    is_base_setting: bool,
)
    ensures
        final(source)@ == mutated(
            old(source)@,
            profile@,
            key@,
            actual.deep_view(),
            is_base_setting,
        ),
{
    let ghost before = source@;
    let mut delta = take_delta(source, profile);
    if same_text(profile, "Default") && is_base_setting {
        match actual {
            Some(value) => {
                source.base.insert(key.to_owned(), value);
                assert(source@.base =~= before.base.insert(key@, value@));
            },
            None => {
                source.base.remove(key);
                assert(source@.base =~= before.base.remove(key@));
            },
        }
        delta.inherit(key);
    } else {
        let inherited = source.base.get(key);
        match actual {
            Some(value) => {
                let same = match inherited {
                    Some(base_value) => base_value.same(&value),
                    None => false,
                };
                if same {
                    delta.inherit(key);
                } else {
                    delta.override_with(key, value);
                }
            },
            None => {
                if inherited.is_some() && !delta.settings.contains_key(key) {
                    delta.uninherit(key);
                } else {
                    delta.inherit(key);
                }
            },
        }
    }
    put_delta(source, profile, delta);
    assert(source@.profiles =~= before.profiles.insert(profile@, delta@));
}

/// What becomes of a source when a setting is put into the base.
pub open spec fn base_set(source: SourceView, setting: Seq<char>, value: Json) -> SourceView {
    SourceView { base: source.base.insert(setting, value), ..source }
}

/// Puts a setting into the base.
pub fn set_base(source: &mut Source, setting: &str, value: JsonValue)
    ensures
        final(source)@ == base_set(old(source)@, setting@, value@),
{
    source.base.insert(setting.to_owned(), value);
    assert(source@.base =~= old(source)@.base.insert(setting@, value@));
}

/// Lets a profile take a setting as the base has it.
pub fn inherit_setting(source: &mut Source, profile: &str, setting: &str)
    ensures
        final(source)@ == with_delta(
            old(source)@,
            profile@,
            inheriting(delta_at(old(source)@, profile@), setting@),
        ),
{
    let ghost before = source@;
    let mut delta = take_delta(source, profile);
    delta.inherit(setting);
    put_delta(source, profile, delta);
    assert(source@.profiles =~= before.profiles.insert(profile@, delta@));
}

/// Keeps a setting out of a profile.
pub fn uninherit_setting(source: &mut Source, profile: &str, setting: &str)
    ensures
        final(source)@ == with_delta(
            old(source)@,
            profile@,
            uninheriting(delta_at(old(source)@, profile@), setting@),
        ),
{
    let ghost before = source@;
    let mut delta = take_delta(source, profile);
    delta.uninherit(setting);
    put_delta(source, profile, delta);
    assert(source@.profiles =~= before.profiles.insert(profile@, delta@));
}

/// What becomes of a source when a profile keeps what it has of a setting,
/// whatever the base says.
pub open spec fn kept(
    source: SourceView,
    profile: Seq<char>,
    setting: Seq<char>,
    actual: Option<Json>,
) -> SourceView {
    let delta = delta_at(source, profile);
    with_delta(
        source,
        profile,
        match actual {
            Some(value) => overriding(delta, setting, value),
            None => uninheriting(delta, setting),
        },
    )
}

/// Lets a profile keep what it has of a setting.
pub fn keep_profile_override(
    source: &mut Source,
    profile: &str,
    setting: &str,
    actual: Option<JsonValue>,
)
    ensures
        final(source)@ == kept(old(source)@, profile@, setting@, actual.deep_view()),
{
    let ghost before = source@;
    let mut delta = take_delta(source, profile);
    match actual {
        Some(value) => {
            delta.override_with(setting, value);
        },
        None => {
            delta.uninherit(setting);
        },
    }
    put_delta(source, profile, delta);
    assert(source@.profiles =~= before.profiles.insert(profile@, delta@));
}

/// The settings of a profile of a source.
pub open spec fn resolved_at(source: SourceView, profile: Seq<char>) -> SettingsMap {
    resolved(source.base, delta_at(source, profile))
}

/// A change that a source cannot hold as it was made: the value is an object
/// that the base's object would show through, or the profile's own value was
/// taken away and the base has one.
pub open spec fn shadowed(
    source: SourceView,
    profile: Seq<char>,
    setting: Seq<char>,
    actual: Option<Json>,
    is_base_setting: bool,
) -> bool {
    &&& !goes_to_base(profile, is_base_setting)
    &&& source.base.contains_key(setting)
    &&& match actual {
        Some(value) => !base_has(source, setting, value) && !same_json(
            overlaid(source.base[setting], value),
            value,
        ),
        None => delta_at(source, profile).settings.contains_key(setting),
    }
}

/// A change that is taken over reads back from the source as it was made,
/// exactly when it is not shadowed by the base.
pub proof fn law_mutation_reads_back(
    source: SourceView,
    profile: Seq<char>,
    setting: Seq<char>,
    actual: Option<Json>,
    is_base_setting: bool,
)
    ensures
        same_option(
            at(
                resolved_at(
                    mutated(source, profile, setting, actual, is_base_setting),
                    profile,
                ),
                setting,
            ),
            actual,
        ) <==> !shadowed(source, profile, setting, actual, is_base_setting),
{
    let after = mutated(source, profile, setting, actual, is_base_setting);
    assert(at(resolved_at(after, profile), setting) == resolved_value(
        after.base,
        delta_at(after, profile),
        setting,
    ));
    if let Some(value) = actual {
        law_same_json_reflexive(value);
    }
}

/// Two sources agree on a setting in a profile: on what the base has of it, on
/// what the profile has of its own, and on whether the profile takes it.
pub open spec fn agree(
    a: SourceView,
    b: SourceView,
    profile: Seq<char>,
    setting: Seq<char>,
) -> bool {
    &&& at(a.base, setting) == at(b.base, setting)
    &&& at(delta_at(a, profile).settings, setting) == at(delta_at(b, profile).settings, setting)
    &&& delta_at(a, profile).uninherit.contains(setting) == delta_at(
        b,
        profile,
    ).uninherit.contains(setting)
}

/// Sources that agree on a setting in a profile give it the same value there.
pub proof fn lemma_agree_resolved(
    a: SourceView,
    b: SourceView,
    profile: Seq<char>,
    setting: Seq<char>,
)
    requires
        agree(a, b, profile, setting),
    ensures
        at(resolved_at(a, profile), setting) == at(resolved_at(b, profile), setting),
{
    assert(at(resolved_at(a, profile), setting) == resolved_value(
        a.base,
        delta_at(a, profile),
        setting,
    ));
    assert(at(resolved_at(b, profile), setting) == resolved_value(
        b.base,
        delta_at(b, profile),
        setting,
    ));
    assert(a.base.contains_key(setting) == b.base.contains_key(setting));
    assert(delta_at(a, profile).settings.contains_key(setting) == delta_at(
        b,
        profile,
    ).settings.contains_key(setting));
}

/// A change leaves every other setting of every profile as it was. Where it
/// does not go to the base, it leaves the other profiles as they were too.
pub proof fn law_mutation_keeps_the_rest(
    source: SourceView,
    profile: Seq<char>,
    setting: Seq<char>,
    actual: Option<Json>,
    is_base_setting: bool,
    other_profile: Seq<char>,
    other_setting: Seq<char>,
)
    requires
        other_setting != setting || (other_profile != profile && !goes_to_base(
            profile,
            is_base_setting,
        )),
    ensures
        ({
            let after = mutated(source, profile, setting, actual, is_base_setting);
            &&& agree(source, after, other_profile, other_setting)
            &&& at(resolved_at(after, other_profile), other_setting) == at(
                resolved_at(source, other_profile),
                other_setting,
            )
        }),
{
    let after = mutated(source, profile, setting, actual, is_base_setting);
    assert(agree(source, after, other_profile, other_setting));
    lemma_agree_resolved(source, after, other_profile, other_setting);
}

/// A change in Default that goes to the base reaches every profile that
/// inherits the setting without a value of its own.
pub proof fn law_base_change_is_inherited(
    source: SourceView,
    setting: Seq<char>,
    actual: Option<Json>,
    profile: Seq<char>,
)
    requires
        !delta_at(source, profile).uninherit.contains(setting),
        !delta_at(source, profile).settings.contains_key(setting),
    ensures
        at(
            resolved_at(
                mutated(source, default_profile(), setting, actual, true),
                profile,
            ),
            setting,
        ) == actual,
{
    let after = mutated(source, default_profile(), setting, actual, true);
    assert(at(resolved_at(after, profile), setting) == resolved_value(
        after.base,
        delta_at(after, profile),
        setting,
    ));
}

/// A sound source stays sound when a change is taken over, exactly when the
/// profile's name is not blank and `$unset` does not become a setting of the
/// profile's own.
pub proof fn law_mutation_keeps_sound(
    source: SourceView,
    profile: Seq<char>,
    setting: Seq<char>,
    actual: Option<Json>,
    is_base_setting: bool,
)
    requires
        sound_source(source),
    ensures
        sound_source(mutated(source, profile, setting, actual, is_base_setting)) <==> !blank(
            profile,
        ) && !(setting == obsolete_unset() && actual is Some && !goes_to_base(
            profile,
            is_base_setting,
        ) && !base_has(source, setting, actual->0)),
{
    let after = mutated(source, profile, setting, actual, is_base_setting);
    let delta = after.profiles[profile];
    let old_delta = delta_at(source, profile);
    assert(after.profiles.contains_key(profile));
    assert(old_delta.uninherit.intersect(old_delta.settings.dom()) =~= Set::<Seq<char>>::empty()) by {
        if source.profiles.contains_key(profile) {
            assert(sound_profile(profile, source.profiles[profile]));
        }
    }
    if source.profiles.contains_key(profile) {
        assert(sound_profile(profile, source.profiles[profile]));
    }
    assert(!old_delta.settings.contains_key(obsolete_unset()));
    assert(overlap(delta) =~= Set::<Seq<char>>::empty()) by {
        assert forall|name: Seq<char>| !overlap(delta).contains(name) by {
            assert(!overlap(old_delta).contains(name));
        }
    }
    let stays = !blank(profile) && !delta.settings.contains_key(obsolete_unset());
    assert(sound_profile(profile, delta) == stays);
    if stays {
        assert forall|name: Seq<char>|
            #![trigger after.profiles[name]]
            after.profiles.contains_key(name) implies sound_profile(name, after.profiles[name]) by {
            if name != profile {
                assert(after.profiles[name] == source.profiles[name]);
                assert(source.profiles.contains_key(name));
            }
        }
    }
}

/// A sound source stays sound when a profile whose name is not blank gets another delta that is
/// sound.
proof fn lemma_delta_keeps_sound(source: SourceView, profile: Seq<char>, delta: DeltaView)
    requires
        sound_source(source),
        sound_profile(profile, delta),
    ensures
        sound_source(with_delta(source, profile, delta)),
{
    let after = with_delta(source, profile, delta);
    assert forall|name: Seq<char>|
        #![trigger after.profiles[name]]
        after.profiles.contains_key(name) implies sound_profile(name, after.profiles[name]) by {
        if name != profile {
            assert(source.profiles.contains_key(name));
            assert(after.profiles[name] == source.profiles[name]);
        }
    }
}

/// A sound source stays sound when a setting is put into the base, and when a profile whose
/// name is not blank inherits a setting, no longer inherits it, or keeps what it has of one
/// that is not `$unset`.
pub proof fn law_edits_keep_sound(
    source: SourceView,
    profile: Seq<char>,
    setting: Seq<char>,
    value: Json,
    actual: Option<Json>,
)
    requires
        sound_source(source),
        !blank(profile),
        actual is Some ==> setting != obsolete_unset(),
    ensures
        sound_source(base_set(source, setting, value)),
        sound_source(with_delta(source, profile, inheriting(delta_at(source, profile), setting))),
        sound_source(with_delta(source, profile, uninheriting(delta_at(source, profile), setting))),
        sound_source(kept(source, profile, setting, actual)),
{
    let delta = delta_at(source, profile);
    assert(sound_profile(profile, delta)) by {
        if source.profiles.contains_key(profile) {
            assert(sound_profile(profile, source.profiles[profile]));
        } else {
            assert(overlap(delta) =~= Set::<Seq<char>>::empty());
        }
    }
    assert forall|name: Seq<char>| !(#[trigger] overlap(delta).contains(name)) by {}
    let inherits = inheriting(delta, setting);
    let refuses = uninheriting(delta, setting);
    assert(overlap(inherits) =~= Set::<Seq<char>>::empty()) by {
        assert forall|name: Seq<char>| !overlap(inherits).contains(name) by {
            assert(!overlap(delta).contains(name));
        }
    }
    assert(overlap(refuses) =~= Set::<Seq<char>>::empty()) by {
        assert forall|name: Seq<char>| !overlap(refuses).contains(name) by {
            assert(!overlap(delta).contains(name));
        }
    }
    lemma_delta_keeps_sound(source, profile, inherits);
    lemma_delta_keeps_sound(source, profile, refuses);
    if let Some(own) = actual {
        let keeps = overriding(delta, setting, own);
        assert(overlap(keeps) =~= Set::<Seq<char>>::empty()) by {
            assert forall|name: Seq<char>| !overlap(keeps).contains(name) by {
                assert(!overlap(delta).contains(name));
            }
        }
        lemma_delta_keeps_sound(source, profile, keeps);
    }
    let based = base_set(source, setting, value);
    assert forall|name: Seq<char>|
        #![trigger based.profiles[name]]
        based.profiles.contains_key(name) implies sound_profile(name, based.profiles[name]) by {
        assert(sound_profile(name, source.profiles[name]));
    }
}

/// Inherit restores what the base has: the profile then has the base's value
/// of the setting, or none where the base has none.
pub proof fn law_inherit_restores_base(
    source: SourceView,
    profile: Seq<char>,
    setting: Seq<char>,
)
    ensures
        at(
            resolved_at(
                with_delta(source, profile, inheriting(delta_at(source, profile), setting)),
                profile,
            ),
            setting,
        ) == at(source.base, setting),
{
    let after = with_delta(source, profile, inheriting(delta_at(source, profile), setting));
    assert(at(resolved_at(after, profile), setting) == resolved_value(
        after.base,
        delta_at(after, profile),
        setting,
    ));
}

/// Uninherit keeps a setting out of a profile, whatever the base has.
pub proof fn law_uninherit_removes(source: SourceView, profile: Seq<char>, setting: Seq<char>)
    ensures
        !resolved_at(
            with_delta(source, profile, uninheriting(delta_at(source, profile), setting)),
            profile,
        ).contains_key(setting),
{
    let after = with_delta(source, profile, uninheriting(delta_at(source, profile), setting));
    assert(at(resolved_at(after, profile), setting) == resolved_value(
        after.base,
        delta_at(after, profile),
        setting,
    ));
}

/// A setting that is put into the base is what every profile has that inherits
/// it without a value of its own.
pub proof fn law_base_set_is_inherited(
    source: SourceView,
    setting: Seq<char>,
    value: Json,
    profile: Seq<char>,
)
    requires
        !delta_at(source, profile).uninherit.contains(setting),
        !delta_at(source, profile).settings.contains_key(setting),
    ensures
        at(resolved_at(base_set(source, setting, value), profile), setting) == Some(value),
{
    let after = base_set(source, setting, value);
    assert(at(resolved_at(after, profile), setting) == resolved_value(
        after.base,
        delta_at(after, profile),
        setting,
    ));
}

/// A profile that keeps what it has of a setting has it, exactly when its value
/// is not an object that the base's object would show through.
pub proof fn law_kept_reads_back(
    source: SourceView,
    profile: Seq<char>,
    setting: Seq<char>,
    actual: Option<Json>,
)
    ensures
        same_option(
            at(resolved_at(kept(source, profile, setting, actual), profile), setting),
            actual,
        ) <==> !(actual is Some && source.base.contains_key(setting) && !same_json(
            overlaid(source.base[setting], actual->0),
            actual->0,
        )),
{
    let after = kept(source, profile, setting, actual);
    assert(at(resolved_at(after, profile), setting) == resolved_value(
        after.base,
        delta_at(after, profile),
        setting,
    ));
    if let Some(value) = actual {
        law_same_json_reflexive(value);
    }
}

} // verus!
