//! Inheritance: what a profile's settings are, and where each comes from.

use vstd::prelude::*;
use crate::json::{at, lemma_member_decreases, lemma_object_json, Json, JsonValue, Settings, SettingsMap};
use crate::source::{
    copy_settings, overlap, sound_profile, sound_source, DeltaView, Origin, ProfileDelta, Source,
    SourceView,
};
use crate::table::{first_of, lemma_first_of, lemma_first_of_ends, lists, Table};

verus! {

/// The settings of a profile, and where each comes from.
#[derive(Clone, Debug, PartialEq)]
pub struct ResolvedProfile {
    pub settings: Settings,
    pub provenance: Table<Origin>,
}

/// What becomes of a value when another is laid over it: objects are merged
/// member by member, anything else is replaced.
pub open spec fn overlaid(base: Json, over: Json) -> Json
    decreases over,
{
    match (base, over) {
        (Json::Object(under), Json::Object(upper)) => Json::Object(
            Map::new(
                |name: Seq<char>| under.contains_key(name) || upper.contains_key(name),
                |name: Seq<char>|
                    if upper.contains_key(name) {
                        if under.contains_key(name) {
                            overlaid(under[name], upper[name])
                        } else {
                            upper[name]
                        }
                    } else {
                        under[name]
                    },
            ),
        ),
        _ => over,
    }
}

/// Whether a profile takes a setting from the base.
pub open spec fn inherits(base: SettingsMap, delta: DeltaView, name: Seq<char>) -> bool {
    base.contains_key(name) && !delta.uninherit.contains(name)
}

/// The value of a setting in a profile: the profile's own, laid over what it
/// inherits.
pub open spec fn resolved_value(base: SettingsMap, delta: DeltaView, name: Seq<char>) -> Option<
    Json,
> {
    if delta.settings.contains_key(name) {
        if inherits(base, delta, name) {
            Some(overlaid(base[name], delta.settings[name]))
        } else {
            Some(delta.settings[name])
        }
    } else if inherits(base, delta, name) {
        Some(base[name])
    } else {
        None
    }
}

/// The settings of a profile.
pub open spec fn resolved(base: SettingsMap, delta: DeltaView) -> SettingsMap {
    Map::new(
        |name: Seq<char>| resolved_value(base, delta, name) is Some,
        |name: Seq<char>| resolved_value(base, delta, name)->0,
    )
}

/// Where the settings of a profile come from: every setting that the base or
/// the profile speaks of.
pub open spec fn provenance_of(base: SettingsMap, delta: DeltaView) -> Map<Seq<char>, Origin> {
    Map::new(
        |name: Seq<char>|
            base.contains_key(name) || delta.uninherit.contains(name)
                || delta.settings.contains_key(name),
        |name: Seq<char>|
            if delta.settings.contains_key(name) {
                Origin::ProfileOverride
            } else if delta.uninherit.contains(name) {
                Origin::Uninherit
            } else {
                Origin::Base
            },
    )
}

/// The settings of every profile of a source.
pub open spec fn compiled(source: SourceView) -> Map<Seq<char>, SettingsMap> {
    Map::new(
        |name: Seq<char>| source.profiles.contains_key(name),
        |name: Seq<char>| resolved(source.base, source.profiles[name]),
    )
}

/// Lays a value over another.
pub fn overlay_value(base: &JsonValue, overlay: &JsonValue) -> (merged: JsonValue)
    ensures
        merged@ == overlaid(base@, overlay@),
    decreases overlay,
{
    match (base, overlay) {
        (JsonValue::Object(under), JsonValue::Object(upper)) => {
            proof {
                lemma_object_json(*under);
                lemma_object_json(*upper);
            }
            let mut out = copy_settings(under);
            let len = upper.len();
            let ghost names = upper.names();
            let ghost x = under.deep_view();
            let ghost y = upper.deep_view();
            let ghost whole = overlaid(base@, overlay@)->Object_0;
            let mut i: usize = 0;
            proof {
                lemma_first_of_ends(names, upper@.dom());
            }
            while i < len
                invariant
                    i <= len,
                    len == names.len(),
                    *overlay == JsonValue::Object(*upper),
                    base@ == Json::Object(x),
                    overlay@ == Json::Object(y),
                    x == under.deep_view(),
                    y == upper.deep_view(),
                    whole == overlaid(base@, overlay@)->Object_0,
                    names == upper.names(),
                    lists(names, upper@.dom()),
                    out@.dom() == under@.dom().union(first_of(names, i as int)),
                    forall|name: Seq<char>| #[trigger]
                        out@.contains_key(name) ==> out@[name]@ == (if first_of(
                            names,
                            i as int,
                        ).contains(name) {
                            whole[name]
                        } else {
                            x[name]
                        }),
                decreases len - i,
            {
                let ghost name = names[i as int];
                proof {
                    lemma_first_of(names, i as int);
                    lemma_member_decreases(*overlay, name);
                }
                let value = upper.value(i);
                assert(y[name] == value@);
                let next = match out.get(upper.name(i)) {
                    Some(old) => {
                        assert(x.contains_key(name) && old@ == x[name]);
                        overlay_value(old, value)
                    },
                    None => {
                        assert(!under@.dom().contains(name));
                        value.clone()
                    },
                };
                assert(next@ == whole[name]);
                out.insert(upper.name(i).to_owned(), next);
                assert(out@.dom() =~= under@.dom().union(first_of(names, i + 1)));
                i += 1;
            }
            proof {
                lemma_first_of_ends(names, upper@.dom());
                lemma_object_json(out);
                assert(out.deep_view() =~= whole);
            }
            JsonValue::Object(out)
        },
        _ => {
            proof {
                if base@ is Object && overlay@ is Object {
                    assert(base is Object && overlay is Object);
                }
            }
            overlay.clone()
        },
    }
}

/// Finds the settings of a profile and where each comes from.
pub fn resolve(base: &Settings, delta: &ProfileDelta) -> (profile: ResolvedProfile)
    ensures
        profile.settings.deep_view() == resolved(base.deep_view(), delta@),
        profile.provenance@ == provenance_of(base.deep_view(), delta@),
{
    let ghost b = base.deep_view();
    let ghost d = delta@;
    let mut settings = copy_settings(base);
    let mut provenance: Table<Origin> = Table::new();
    let base_len = base.len();
    let ghost names = base.names();
    let mut i: usize = 0;
    proof {
        lemma_first_of_ends(names, base@.dom());
        assert(provenance@.dom() =~= first_of(names, 0));
    }
    while i < base_len
        invariant
            i <= base_len,
            base_len == names.len(),
            names == base.names(),
            lists(names, base@.dom()),
            provenance@.dom() == first_of(names, i as int),
            forall|name: Seq<char>| #[trigger]
                provenance@.contains_key(name) ==> provenance@[name] == Origin::Base,
        decreases base_len - i,
    {
        proof {
            lemma_first_of(names, i as int);
        }
        provenance.insert(base.name(i).to_owned(), Origin::Base);
        assert(provenance@.dom() =~= first_of(names, i + 1));
        i += 1;
    }
    proof {
        lemma_first_of_ends(names, base@.dom());
    }
    let gone_len = delta.uninherit.len();
    let ghost gone = delta.uninherit.names();
    let mut j: usize = 0;
    proof {
        lemma_first_of_ends(gone, delta.uninherit@);
        assert(settings@.dom() =~= base@.dom().difference(first_of(gone, 0)));
        assert(provenance@.dom() =~= base@.dom().union(first_of(gone, 0)));
    }
    while j < gone_len
        invariant
            j <= gone_len,
            gone_len == gone.len(),
            gone == delta.uninherit.names(),
            lists(gone, delta.uninherit@),
            b == base.deep_view(),
            settings@.dom() == base@.dom().difference(first_of(gone, j as int)),
            forall|name: Seq<char>| #[trigger]
                settings@.contains_key(name) ==> settings@[name]@ == b[name],
            provenance@.dom() == base@.dom().union(first_of(gone, j as int)),
            forall|name: Seq<char>| #[trigger]
                provenance@.contains_key(name) ==> provenance@[name] == (if first_of(
                    gone,
                    j as int,
                ).contains(name) {
                    Origin::Uninherit
                } else {
                    Origin::Base
                }),
        decreases gone_len - j,
    {
        proof {
            lemma_first_of(gone, j as int);
        }
        let name = delta.uninherit.name(j);
        settings.remove(name);
        provenance.insert(name.to_owned(), Origin::Uninherit);
        assert(settings@.dom() =~= base@.dom().difference(first_of(gone, j + 1)));
        assert(provenance@.dom() =~= base@.dom().union(first_of(gone, j + 1)));
        j += 1;
    }
    proof {
        lemma_first_of_ends(gone, delta.uninherit@);
    }
    let own_len = delta.settings.len();
    let ghost own = delta.settings.names();
    let mut k: usize = 0;
    proof {
        lemma_first_of_ends(own, delta.settings@.dom());
        assert(settings@.dom() =~= base@.dom().difference(d.uninherit).union(first_of(own, 0)));
        assert(provenance@.dom() =~= base@.dom().union(d.uninherit).union(first_of(own, 0)));
    }
    while k < own_len
        invariant
            k <= own_len,
            own_len == own.len(),
            own == delta.settings.names(),
            lists(own, delta.settings@.dom()),
            b == base.deep_view(),
            d == delta@,
            settings@.dom() == base@.dom().difference(d.uninherit).union(first_of(own, k as int)),
            forall|name: Seq<char>| #[trigger]
                settings@.contains_key(name) ==> settings@[name]@ == (if first_of(
                    own,
                    k as int,
                ).contains(name) {
                    resolved_value(b, d, name)->0
                } else {
                    b[name]
                }),
            provenance@.dom() == base@.dom().union(d.uninherit).union(first_of(own, k as int)),
            forall|name: Seq<char>| #[trigger]
                provenance@.contains_key(name) ==> provenance@[name] == (if first_of(
                    own,
                    k as int,
                ).contains(name) {
                    Origin::ProfileOverride
                } else if d.uninherit.contains(name) {
                    Origin::Uninherit
                } else {
                    Origin::Base
                }),
        decreases own_len - k,
    {
        let ghost name = own[k as int];
        proof {
            lemma_first_of(own, k as int);
        }
        let value = delta.settings.value(k);
        assert(d.settings.contains_key(name) && d.settings[name] == value@);
        let merged = match settings.get(delta.settings.name(k)) {
            Some(parent) => {
                assert(inherits(b, d, name));
                overlay_value(parent, value)
            },
            None => {
                assert(!base@.dom().difference(d.uninherit).contains(name));
                assert(!inherits(b, d, name));
                value.clone()
            },
        };
        assert(Some(merged@) == resolved_value(b, d, name));
        settings.insert(delta.settings.name(k).to_owned(), merged);
        provenance.insert(delta.settings.name(k).to_owned(), Origin::ProfileOverride);
        assert(settings@.dom() =~= base@.dom().difference(d.uninherit).union(
            first_of(own, k + 1),
        ));
        assert(provenance@.dom() =~= base@.dom().union(d.uninherit).union(first_of(own, k + 1)));
        k += 1;
    }
    proof {
        lemma_first_of_ends(own, delta.settings@.dom());
        assert(settings.deep_view() =~= resolved(b, d)) by {
            assert forall|name: Seq<char>|
                #![trigger resolved(b, d).dom().contains(name)]
                settings.deep_view().dom().contains(name) == resolved(b, d).dom().contains(name) by {
                assert(d.settings.contains_key(name) == delta.settings@.dom().contains(name));
            }
        }
        assert(provenance@ =~= provenance_of(b, d)) by {
            assert forall|name: Seq<char>|
                #![trigger provenance_of(b, d).dom().contains(name)]
                provenance@.dom().contains(name) == provenance_of(b, d).dom().contains(name) by {
                assert(d.settings.contains_key(name) == delta.settings@.dom().contains(name));
            }
        }
    }
    ResolvedProfile { settings, provenance }
}

/// Finds the settings of every profile.
pub fn compile(source: &Source) -> (profiles: Table<Settings>)
    ensures
        profiles.deep_view() == compiled(source@),
{
    let mut out: Table<Settings> = Table::new();
    let len = source.profiles.len();
    let ghost names = source.profiles.names();
    let mut i: usize = 0;
    proof {
        lemma_first_of_ends(names, source.profiles@.dom());
        assert(out@.dom() =~= first_of(names, 0));
    }
    while i < len
        invariant
            i <= len,
            len == names.len(),
            names == source.profiles.names(),
            lists(names, source.profiles@.dom()),
            out@.dom() == first_of(names, i as int),
            forall|name: Seq<char>| #[trigger]
                out@.contains_key(name) ==> out@[name].deep_view() == resolved(
                    source@.base,
                    source@.profiles[name],
                ),
        decreases len - i,
    {
        proof {
            lemma_first_of(names, i as int);
        }
        let delta = source.profiles.value(i);
        let profile = resolve(&source.base, delta);
        out.insert(source.profiles.name(i).to_owned(), profile.settings);
        assert(out@.dom() =~= first_of(names, i + 1));
        i += 1;
    }
    proof {
        lemma_first_of_ends(names, source.profiles@.dom());
        assert(out.deep_view() =~= compiled(source@));
    }
    out
}

/// Where the value of a setting in a profile comes from: `None` for a profile
/// that the source does not have.
pub open spec fn origin_in(source: SourceView, profile: Seq<char>, setting: Seq<char>) -> Option<
    Origin,
> {
    match at(source.profiles, profile) {
        None => None,
        Some(delta) => Some(
            if delta.uninherit.contains(setting) {
                Origin::Uninherit
            } else if delta.settings.contains_key(setting) {
                Origin::ProfileOverride
            } else if source.base.contains_key(setting) {
                Origin::Base
            } else {
                Origin::VscodeDefault
            },
        ),
    }
}

/// Finds where the value of a setting in a profile comes from.
pub fn origin_of(source: &Source, profile: &str, setting: &str) -> (origin: Option<Origin>)
    ensures
        origin == origin_in(source@, profile@, setting@),
{
    match source.profiles.get(profile) {
        None => None,
        Some(delta) => if delta.uninherit.contains(setting) {
            Some(Origin::Uninherit)
        } else if delta.settings.contains_key(setting) {
            Some(Origin::ProfileOverride)
        } else if source.base.contains_key(setting) {
            Some(Origin::Base)
        } else {
            Some(Origin::VscodeDefault)
        },
    }
}

/// What is told of a setting agrees with the provenance that resolving its profile gives: a
/// setting that neither the base nor the profile speaks of is left to VS Code.
pub proof fn law_origin_is_provenance(source: SourceView, profile: Seq<char>, setting: Seq<char>)
    requires
        sound_source(source),
        source.profiles.contains_key(profile),
    ensures
        origin_in(source, profile, setting) == Some(
            match at(provenance_of(source.base, source.profiles[profile]), setting) {
                Some(origin) => origin,
                None => Origin::VscodeDefault,
            },
        ),
{
    let delta = source.profiles[profile];
    assert(sound_profile(profile, delta));
    assert(!overlap(delta).contains(setting));
}

/// What is told of a setting says whether its profile has it: from the base it has the value
/// of the base, from the profile its own value laid over what it inherits, and otherwise it
/// has none.
pub proof fn law_origin_tells_visibility(
    source: SourceView,
    profile: Seq<char>,
    setting: Seq<char>,
)
    requires
        sound_source(source),
        source.profiles.contains_key(profile),
    ensures
        at(compiled(source)[profile], setting) == (match origin_in(source, profile, setting)->0 {
            Origin::Base => Some(source.base[setting]),
            Origin::ProfileOverride => Some(
                if source.base.contains_key(setting) {
                    overlaid(source.base[setting], source.profiles[profile].settings[setting])
                } else {
                    source.profiles[profile].settings[setting]
                },
            ),
            Origin::Uninherit => None,
            Origin::VscodeDefault => None,
        }),
{
    let delta = source.profiles[profile];
    assert(sound_profile(profile, delta));
    assert(!overlap(delta).contains(setting));
}

/// A value laid over itself stays what it is.
pub proof fn law_overlay_on_itself(value: Json)
    ensures
        overlaid(value, value) == value,
    decreases value,
{
    if let Json::Object(members) = value {
        assert forall|name: Seq<char>| members.contains_key(name) implies overlaid(
            #[trigger] members[name],
            members[name],
        ) == members[name] by {
            law_overlay_on_itself(members[name]);
        }
        assert(overlaid(value, value)->Object_0 =~= members);
    }
}

/// Laying a value over another a second time changes nothing.
pub proof fn law_overlay_twice(base: Json, over: Json)
    ensures
        overlaid(overlaid(base, over), over) == overlaid(base, over),
    decreases over,
{
    match (base, over) {
        (Json::Object(under), Json::Object(upper)) => {
            let once = overlaid(base, over)->Object_0;
            assert forall|name: Seq<char>| upper.contains_key(name) implies overlaid(
                once[name],
                #[trigger] upper[name],
            ) == once[name] by {
                if under.contains_key(name) {
                    law_overlay_twice(under[name], upper[name]);
                } else {
                    law_overlay_on_itself(upper[name]);
                }
            }
            assert(overlaid(Json::Object(once), over)->Object_0 =~= once);
        },
        _ => {
            law_overlay_on_itself(over);
        },
    }
}

} // verus!
