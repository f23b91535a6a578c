//! Laws of inheritance: what the settings of a profile are, and where they come from.

use vstd::prelude::*;
use crate::inherit::{
    compile, compiled, origin_of, overlaid, overlay_value, resolve, resolved, ResolvedProfile,
};
use crate::json::{Json, JsonValue, Settings, SettingsMap};
use crate::source::{DeltaView, Origin, ProfileDelta, Source, SourceView};
use crate::table::Table;

verus! {

/// Of two values that are laid over each other the upper one stays, unless both are objects. An
/// object that is laid over another gives an object with the members of both: where only one
/// has a name the member is that one's, and where both have it the one is laid over the other.
pub proof fn law_overlay(base: Json, over: Json, name: Seq<char>)
    ensures
        !(base is Object && over is Object) ==> overlaid(base, over) == over,
        base is Object && over is Object ==> {
            let under = base->Object_0;
            let upper = over->Object_0;
            let both = overlaid(base, over)->Object_0;
            &&& overlaid(base, over) is Object
            &&& both.contains_key(name) <==> under.contains_key(name) || upper.contains_key(name)
            &&& under.contains_key(name) && !upper.contains_key(name) ==> both[name] == under[name]
            &&& !under.contains_key(name) && upper.contains_key(name) ==> both[name] == upper[name]
            &&& under.contains_key(name) && upper.contains_key(name) ==> both[name] == overlaid(
                under[name],
                upper[name],
            )
        },
{
}

/// Laying one value over another gives what the law of overlays says, and what a value of both
/// becomes within objects is what laying the one over the other gives.
pub proof fn law_overlaying(
    base: &JsonValue,
    over: &JsonValue,
    merged: JsonValue,
    name: Seq<char>,
    inner_base: &JsonValue,
    inner_over: &JsonValue,
    inner: JsonValue,
)
    requires
        call_ensures(overlay_value, (base, over), merged),
    ensures
        !(base@ is Object) || !(over@ is Object) ==> merged@ == over@,
        base@ is Object && over@ is Object ==> {
            let under = base@->Object_0;
            let upper = over@->Object_0;
            let both = merged@->Object_0;
            &&& merged@ is Object
            &&& both.contains_key(name) <==> under.contains_key(name) || upper.contains_key(name)
            &&& under.contains_key(name) && !upper.contains_key(name) ==> both[name] == under[name]
            &&& !under.contains_key(name) && upper.contains_key(name) ==> both[name] == upper[name]
            &&& under.contains_key(name) && upper.contains_key(name) && under[name] == inner_base@
                && upper[name] == inner_over@ && call_ensures(
                overlay_value,
                (inner_base, inner_over),
                inner,
            ) ==> both[name] == inner@
        },
{
    law_overlay(base@, over@, name);
}

/// What a profile has of a setting: its own value where it has one and does not inherit, the
/// base's where it inherits and has none of its own, its own laid over the base's where it has
/// both, and nothing otherwise. It inherits what the base has and it does not refuse.
pub proof fn law_settings_of_a_profile(base: SettingsMap, delta: DeltaView, name: Seq<char>)
    ensures
        ({
            let own = delta.settings.contains_key(name);
            let inherited = base.contains_key(name) && !delta.uninherit.contains(name);
            let settings = resolved(base, delta);
            &&& settings.contains_key(name) <==> own || inherited
            &&& own && !inherited ==> settings[name] == delta.settings[name]
            &&& own && !(delta.settings[name] is Object) ==> settings[name] == delta.settings[name]
            &&& own && !(base[name] is Object) ==> settings[name] == delta.settings[name]
            &&& !own && inherited ==> settings[name] == base[name]
            &&& own && inherited ==> settings[name] == overlaid(base[name], delta.settings[name])
        }),
{
}

/// The settings of every profile of a source are given, of no other, and each profile has what
/// its part of the source says over the base.
pub proof fn law_compiling(
    source: &Source,
    profiles: Table<Settings>,
    profile: Seq<char>,
    name: Seq<char>,
)
    requires
        call_ensures(compile, (source,), profiles),
    ensures
        profiles.deep_view().contains_key(profile) <==> source@.profiles.contains_key(profile),
        source@.profiles.contains_key(profile) ==> {
            let delta = source@.profiles[profile];
            let own = delta.settings.contains_key(name);
            let inherited = source@.base.contains_key(name) && !delta.uninherit.contains(name);
            let settings = profiles.deep_view()[profile];
            &&& settings.contains_key(name) <==> own || inherited
            &&& own && !(delta.settings[name] is Object) ==> settings[name] == delta.settings[name]
            &&& own && !inherited ==> settings[name] == delta.settings[name]
            &&& !own && inherited ==> settings[name] == source@.base[name]
            &&& own && inherited ==> settings[name] == overlaid(
                source@.base[name],
                delta.settings[name],
            )
        },
        profiles.deep_view() == compiled(source@),
{
    if source@.profiles.contains_key(profile) {
        law_settings_of_a_profile(source@.base, source@.profiles[profile], name);
    }
}

/// Compiling gives each profile what resolving it gives.
pub proof fn law_compiling_resolves(
    source: &Source,
    profiles: Table<Settings>,
    profile: Seq<char>,
    delta: &ProfileDelta,
    found: ResolvedProfile,
)
    requires
        call_ensures(compile, (source,), profiles),
        source@.profiles.contains_key(profile),
        delta@ == source@.profiles[profile],
        call_ensures(resolve, (&source.base, delta), found),
    ensures
        profiles.deep_view()[profile] == found.settings.deep_view(),
{
}

/// Resolving a profile tells of every setting that the base or the profile speaks of where it
/// comes from, and of no other. A value of the profile's own comes first, then what it refuses,
/// then the base. The profile has the settings that come from itself, and those that come from
/// the base, and it has a setting of its own though it refuses the base's.
pub proof fn law_resolving(
    base: &Settings,
    delta: &ProfileDelta,
    found: ResolvedProfile,
    name: Seq<char>,
)
    requires
        call_ensures(resolve, (base, delta), found),
    ensures
        ({
            let own = delta@.settings.contains_key(name);
            let refused = delta@.uninherit.contains(name);
            let based = base.deep_view().contains_key(name);
            let told = found.provenance@;
            let settings = found.settings.deep_view();
            &&& told.contains_key(name) <==> own || refused || based
            &&& own ==> told[name] == Origin::ProfileOverride
            &&& !own && refused ==> told[name] == Origin::Uninherit
            &&& !own && !refused && based ==> told[name] == Origin::Base
            &&& settings.contains_key(name) <==> told.contains_key(name) && told[name]
                != Origin::Uninherit
            &&& told.contains_key(name) && told[name] == Origin::Base ==> settings[name]
                == base.deep_view()[name]
            &&& own && (refused || !based) ==> settings[name] == delta@.settings[name]
            &&& own && !refused && based ==> settings[name] == overlaid(
                base.deep_view()[name],
                delta@.settings[name],
            )
        }),
{
    law_settings_of_a_profile(base.deep_view(), delta@, name);
}

/// Where a value comes from is told of every setting of a profile of the source, and of no other
/// profile: what the profile refuses comes first, then its own value, then the base, and what
/// none of them has is left to VS Code.
pub proof fn law_telling_the_origin(
    source: &Source,
    profile: &str,
    setting: &str,
    origin: Option<Origin>,
)
    requires
        call_ensures(origin_of, (source, profile, setting), origin),
    ensures
        origin is Some <==> source@.profiles.contains_key(profile@),
        source@.profiles.contains_key(profile@) ==> {
            let delta = source@.profiles[profile@];
            let own = delta.settings.contains_key(setting@);
            let refused = delta.uninherit.contains(setting@);
            let based = source@.base.contains_key(setting@);
            &&& origin == Some(Origin::Uninherit) <==> refused
            &&& origin == Some(Origin::ProfileOverride) <==> own && !refused
            &&& origin == Some(Origin::Base) <==> based && !own && !refused
            &&& origin == Some(Origin::VscodeDefault) <==> !based && !own && !refused
        },
{
}

/// Compiling two sources that say the same of a setting gives it the same value: what a profile
/// has of a setting depends on what the base, its own settings and what it refuses say of it.
pub proof fn law_settings_are_independent(
    a: SourceView,
    b: SourceView,
    profile: Seq<char>,
    name: Seq<char>,
)
    requires
        a.profiles.contains_key(profile),
        b.profiles.contains_key(profile),
        a.base.contains_key(name) <==> b.base.contains_key(name),
        a.base.contains_key(name) ==> a.base[name] == b.base[name],
        a.profiles[profile].settings.contains_key(name)
            <==> b.profiles[profile].settings.contains_key(name),
        a.profiles[profile].settings.contains_key(name) ==> a.profiles[profile].settings[name]
            == b.profiles[profile].settings[name],
        a.profiles[profile].uninherit.contains(name)
            <==> b.profiles[profile].uninherit.contains(name),
    ensures
        compiled(a)[profile].contains_key(name) <==> compiled(b)[profile].contains_key(name),
        compiled(a)[profile].contains_key(name) ==> compiled(a)[profile][name]
            == compiled(b)[profile][name],
{
}

} // verus!
