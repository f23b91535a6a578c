//! Migration: the source that gives the settings the profiles have now.

use vstd::prelude::*;
use crate::inherit::{overlaid, resolved, resolved_value};
use crate::json::{
    at, law_same_json_reflexive, same_json, same_option, same_settings, Json, JsonValue, Settings,
    SettingsMap,
};
use crate::mutation::default_profile;
use crate::place::{lemma_pass, lemma_pass_ends, lemma_pass_profile, passed, ranked, Place};
use crate::reconcile::{answers, ProfilesMap};
use crate::source::{
    empty_delta, obsolete_unset, overlap, schema_version, sound_profile, sound_source, DeltaView,
    ProfileDelta, Source, SourceView,
};
use crate::table::{first_of, lemma_first_of, lemma_first_of_ends, lists, Table};
use crate::text::{blank, same_text};

verus! {

/// A setting of the base that a profile did not have.
#[derive(Clone, Debug, PartialEq)]
pub struct MigrationChange {
    pub profile: String,
    pub setting: String,
    pub inherited_value: JsonValue,
}

/// The source that a migration would write.
#[derive(Clone, Debug, PartialEq)]
pub struct MigrationPreview {
    pub source: Source,
    pub newly_inherited: Vec<MigrationChange>,
}

/// A setting of the base that a profile did not have.
#[verifier::ext_equal]
pub struct ChangeView {
    pub place: Place,
    pub inherited_value: Json,
}

impl View for MigrationChange {
    type V = ChangeView;

    open spec fn view(&self) -> ChangeView {
        ChangeView {
            place: Place { profile: self.profile@, setting: self.setting@ },
            inherited_value: self.inherited_value@,
        }
    }
}

/// What changes are.
pub open spec fn change_views(changes: Seq<MigrationChange>) -> Seq<ChangeView> {
    Seq::new(changes.len(), |i: int| changes[i]@)
}

/// The changes of a row of settings.
pub open spec fn changes_at(base: SettingsMap, places: Seq<Place>) -> Seq<ChangeView> {
    Seq::new(
        places.len(),
        |i: int| ChangeView { place: places[i], inherited_value: base[places[i].setting] },
    )
}

/// The settings of Default: none, where it is not there.
pub open spec fn default_settings(actual: ProfilesMap) -> SettingsMap {
    match at(actual, default_profile()) {
        Some(settings) => settings,
        None => Map::empty(),
    }
}

/// What a profile changes of a base when it has the settings `settings`.
pub open spec fn migrated_delta(
    base: SettingsMap,
    name: Seq<char>,
    settings: SettingsMap,
) -> DeltaView {
    if name == default_profile() {
        DeltaView { uninherit: Set::empty(), settings: settings.remove_keys(base.dom()) }
    } else {
        DeltaView {
            uninherit: base.dom().difference(settings.dom()),
            settings: settings.restrict(
                Set::new(
                    |setting: Seq<char>|
                        settings.contains_key(setting) && !(base.contains_key(setting)
                            && same_json(settings[setting], base[setting])),
                ),
            ),
        }
    }
}

/// The source with a given base for the settings that the profiles have. Default
/// is always among its profiles.
pub open spec fn migrated(actual: ProfilesMap, base: SettingsMap) -> SourceView {
    SourceView {
        schema: None,
        version: 1,
        base,
        profiles: Map::new(
            |name: Seq<char>| actual.contains_key(name) || name == default_profile(),
            |name: Seq<char>|
                if actual.contains_key(name) {
                    migrated_delta(base, name, actual[name])
                } else {
                    empty_delta()
                },
        ),
    }
}

/// `base` holds settings of Default with their values there, and `asked` may
/// have said of each setting of Default that it does or does not belong to it.
pub open spec fn chosen_base<F: Fn(&str) -> bool>(
    asked: F,
    settings: SettingsMap,
    base: SettingsMap,
) -> bool {
    &&& base.dom().subset_of(settings.dom())
    &&& base == settings.restrict(base.dom())
    &&& forall|setting: Seq<char>| #[trigger]
        settings.contains_key(setting) ==> answers(asked, setting, base.contains_key(setting))
}

/// The settings of a base that a profile other than Default does not have.
pub open spec fn newly_inherited(actual: ProfilesMap, base: SettingsMap) -> Set<Place> {
    Set::new(
        |place: Place|
            actual.contains_key(place.profile) && place.profile != default_profile()
                && base.contains_key(place.setting) && !actual[place.profile].contains_key(
                place.setting,
            ),
    )
}

/// The settings of Default that belong to the base.
fn choose_base<F: Fn(&str) -> bool>(actual: &Table<Settings>, is_base_setting: &F) -> (base:
    Settings)
    requires
        forall|name: &str| call_requires(*is_base_setting, (name,)),
    ensures
        chosen_base(*is_base_setting, default_settings(actual.deep_view()), base.deep_view()),
{
    let mut base: Settings = Table::new();
    let ghost chosen = default_settings(actual.deep_view());
    match actual.get("Default") {
        None => {
            assert(base.deep_view() =~= chosen.restrict(base.deep_view().dom()));
        },
        Some(settings) => {
            assert(chosen == settings.deep_view());
            let len = settings.len();
            let ghost names = settings.names();
            let mut i: usize = 0;
            proof {
                lemma_first_of_ends(names, settings@.dom());
            }
            while i < len
                invariant
                    i <= len,
                    len == names.len(),
                    names == settings.names(),
                    lists(names, settings@.dom()),
                    chosen == settings.deep_view(),
                    forall|name: &str| call_requires(*is_base_setting, (name,)),
                    base@.dom().subset_of(first_of(names, i as int)),
                    forall|name: Seq<char>| #[trigger]
                        base@.contains_key(name) ==> base@[name]@ == chosen[name],
                    forall|name: Seq<char>| #[trigger]
                        first_of(names, i as int).contains(name) ==> answers(
                            *is_base_setting,
                            name,
                            base@.contains_key(name),
                        ),
                decreases len - i,
            {
                proof {
                    lemma_first_of(names, i as int);
                }
                let ghost before = base@;
                let key = settings.name(i);
                let is_base = is_base_setting(key);
                assert(answers(*is_base_setting, key@, is_base));
                if is_base {
                    base.insert(key.to_owned(), settings.value(i).clone());
                }
                assert forall|name: Seq<char>| #[trigger]
                    first_of(names, i + 1).contains(name) implies answers(
                    *is_base_setting,
                    name,
                    base@.contains_key(name),
                ) by {
                    if name != key@ {
                        assert(first_of(names, i as int).contains(name));
                        assert(base@.contains_key(name) == before.contains_key(name));
                    }
                }
                i += 1;
            }
            proof {
                lemma_first_of_ends(names, settings@.dom());
                assert(base.deep_view() =~= chosen.restrict(base.deep_view().dom()));
                assert forall|setting: Seq<char>| #[trigger]
                    chosen.contains_key(setting) implies answers(
                    *is_base_setting,
                    setting,
                    base.deep_view().contains_key(setting),
                ) by {
                    assert(first_of(names, len as int).contains(setting));
                }
            }
        },
    }
    base
}

/// Puts into a delta the settings that the base does not have.
fn add_own_settings(delta: &mut ProfileDelta, base: &Settings, settings: &Settings)
    ensures
        final(delta)@.uninherit == old(delta)@.uninherit,
        final(delta)@.settings == old(delta)@.settings.union_prefer_right(
            settings.deep_view().remove_keys(base.deep_view().dom()),
        ),
{
    let ghost own = settings.deep_view().remove_keys(base.deep_view().dom());
    let ghost before = delta@;
    let len = settings.len();
    let ghost names = settings.names();
    let mut i: usize = 0;
    proof {
        lemma_first_of_ends(names, settings@.dom());
        assert(delta@.settings =~= before.settings.union_prefer_right(
            own.restrict(first_of(names, 0)),
        ));
    }
    while i < len
        invariant
            i <= len,
            len == names.len(),
            names == settings.names(),
            lists(names, settings@.dom()),
            own == settings.deep_view().remove_keys(base.deep_view().dom()),
            delta@.uninherit == before.uninherit,
            delta@.settings == before.settings.union_prefer_right(
                own.restrict(first_of(names, i as int)),
            ),
        decreases len - i,
    {
        proof {
            lemma_first_of(names, i as int);
        }
        let key = settings.name(i);
        let ghost middle = delta@;
        if !base.contains_key(key) {
            delta.settings.insert(key.to_owned(), settings.value(i).clone());
            assert(delta@.settings =~= middle.settings.insert(key@, own[key@]));
        }
        assert(delta@.settings =~= before.settings.union_prefer_right(
            own.restrict(first_of(names, i + 1)),
        ));
        i += 1;
    }
    proof {
        lemma_first_of_ends(names, settings@.dom());
        assert(own.restrict(settings@.dom()) =~= own);
    }
}

/// The source that a migration of the settings would write: what belongs to the
/// base is taken from Default, and the rest stays with the profiles.
pub fn migration_preview<F: Fn(&str) -> bool>(
    actual: &Table<Settings>,
    is_base_setting: F,
) -> (preview: MigrationPreview)
    requires
        forall|name: &str| call_requires(is_base_setting, (name,)),
    ensures
        chosen_base(
            is_base_setting,
            default_settings(actual.deep_view()),
            preview.source@.base,
        ),
        preview.source@ == migrated(actual.deep_view(), preview.source@.base),
        ({
            let set = newly_inherited(actual.deep_view(), preview.source@.base);
            exists|places: Seq<Place>|
                #![trigger ranked(places, set)]
                ranked(places, set) && change_views(preview.newly_inherited@) == changes_at(
                    preview.source@.base,
                    places,
                )
        }),
{
    let base = choose_base(actual, &is_base_setting);
    let mut profiles: Table<ProfileDelta> = Table::new();
    let mut newly: Vec<MigrationChange> = Vec::new();
    let ghost all = actual.deep_view();
    let ghost b = base.deep_view();
    let ghost set = newly_inherited(all, b);
    let ghost mut places: Seq<Place> = Seq::empty();
    let ghost none: Seq<Seq<char>> = Seq::empty();
    let len = actual.len();
    let base_len = base.len();
    let ghost names = actual.names();
    let ghost settings_names = base.names();
    let mut i: usize = 0;
    proof {
        lemma_first_of_ends(names, actual@.dom());
        lemma_pass_ends(set, names, actual@.dom(), none);
        assert(profiles@.dom() =~= first_of(names, 0));
        assert(change_views(newly@) =~= changes_at(b, places));
    }
    while i < len
        invariant
            i <= len,
            len == names.len(),
            names == actual.names(),
            lists(names, actual@.dom()),
            base_len == settings_names.len(),
            settings_names == base.names(),
            lists(settings_names, base@.dom()),
            all == actual.deep_view(),
            b == base.deep_view(),
            set == newly_inherited(all, b),
            ranked(places, set.intersect(passed(names, i as int, none, 0))),
            change_views(newly@) == changes_at(b, places),
            profiles@.dom() == first_of(names, i as int),
            forall|name: Seq<char>| #[trigger]
                profiles@.contains_key(name) ==> profiles@[name]@ == migrated_delta(
                    b,
                    name,
                    all[name],
                ),
        decreases len - i,
    {
        let ghost profile = names[i as int];
        proof {
            lemma_first_of(names, i as int);
            assert(set.intersect(passed(names, i as int, none, 0)) =~= set.intersect(
                passed(names, i as int, settings_names, 0),
            ));
        }
        let name = actual.name(i);
        let settings = actual.value(i);
        let mut delta = ProfileDelta::default();
        let ghost s = settings.deep_view();
        assert(all.contains_key(profile) && all[profile] == s);
        if same_text(name, "Default") {
            add_own_settings(&mut delta, &base, settings);
            proof {
                assert(delta@.settings =~= s.remove_keys(b.dom()));
                assert(delta@ =~= migrated_delta(b, profile, s));
                lemma_pass_profile(set, names, i as int, settings_names, base@.dom(), none);
                assert(set.intersect(passed(names, i as int, settings_names, 0)) =~= set.intersect(
                    passed(names, i as int, settings_names, base_len as int),
                ));
            }
        } else {
            let mut j: usize = 0;
            let ghost whole = migrated_delta(b, profile, s);
            proof {
                lemma_first_of_ends(settings_names, base@.dom());
                assert(delta@.uninherit =~= whole.uninherit.intersect(first_of(settings_names, 0)));
                assert(delta@.settings =~= whole.settings.restrict(first_of(settings_names, 0)));
            }
            while j < base_len
                invariant
                    i < len,
                    len == names.len(),
                    names == actual.names(),
                    lists(names, actual@.dom()),
                    j <= base_len,
                    base_len == settings_names.len(),
                    settings_names == base.names(),
                    lists(settings_names, base@.dom()),
                    all == actual.deep_view(),
                    b == base.deep_view(),
                    set == newly_inherited(all, b),
                    profile == names[i as int],
                    name@ == profile,
                    profile != default_profile(),
                    s == settings.deep_view(),
                    all.contains_key(profile) && all[profile] == s,
                    whole == migrated_delta(b, profile, s),
                    delta@.uninherit == whole.uninherit.intersect(
                        first_of(settings_names, j as int),
                    ),
                    delta@.settings == whole.settings.restrict(first_of(settings_names, j as int)),
                    ranked(
                        places,
                        set.intersect(passed(names, i as int, settings_names, j as int)),
                    ),
                    change_views(newly@) == changes_at(b, places),
                decreases base_len - j,
            {
                let key = base.name(j);
                let base_value = base.value(j);
                let ghost place = Place { profile, setting: key@ };
                let ghost middle = delta@;
                proof {
                    lemma_first_of(settings_names, j as int);
                    lemma_pass(places, set, names, i as int, settings_names, j as int);
                }
                match settings.get(key) {
                    None => {
                        delta.uninherit.insert(key.to_owned());
                        let change = MigrationChange {
                            profile: name.to_owned(),
                            setting: key.to_owned(),
                            inherited_value: base_value.clone(),
                        };
                        proof {
                            assert(set.contains(place));
                            assert(change_views(newly@.push(change)) =~= change_views(newly@).push(
                                change@,
                            ));
                            assert(changes_at(b, places.push(place)) =~= changes_at(
                                b,
                                places,
                            ).push(change@));
                            places = places.push(place);
                        }
                        newly.push(change);
                    },
                    Some(value) => {
                        if !value.same(base_value) {
                            delta.settings.insert(key.to_owned(), value.clone());
                            assert(delta@.settings =~= middle.settings.insert(key@, value@));
                        }
                    },
                }
                assert(delta@.uninherit =~= whole.uninherit.intersect(
                    first_of(settings_names, j + 1),
                ));
                assert(delta@.settings =~= whole.settings.restrict(
                    first_of(settings_names, j + 1),
                ));
                j += 1;
            }
            proof {
                lemma_first_of_ends(settings_names, base@.dom());
            }
            add_own_settings(&mut delta, &base, settings);
            proof {
                assert(delta@.uninherit =~= whole.uninherit);
                assert(delta@.settings =~= whole.settings);
                lemma_pass_profile(set, names, i as int, settings_names, base@.dom(), none);
            }
        }
        profiles.insert(name.to_owned(), delta);
        assert(profiles@.dom() =~= first_of(names, i + 1));
        i += 1;
    }
    proof {
        lemma_first_of_ends(names, actual@.dom());
        lemma_pass_ends(set, names, actual@.dom(), none);
    }
    if !profiles.contains_key("Default") {
        profiles.insert("Default".to_owned(), ProfileDelta::default());
    }
    let source = Source { schema: None, version: schema_version(), base, profiles };
    proof {
        assert(source@.profiles =~= migrated(all, b).profiles);
        assert(ranked(places, set));
    }
    MigrationPreview { source, newly_inherited: newly }
}

/// A setting that a migrated source cannot give back: a profile other than
/// Default has an object for it that the base's object shows through.
pub open spec fn shows_through(
    actual: ProfilesMap,
    base: SettingsMap,
    profile: Seq<char>,
    setting: Seq<char>,
) -> bool {
    &&& profile != default_profile()
    &&& base.contains_key(setting)
    &&& actual[profile].contains_key(setting)
    &&& !same_json(actual[profile][setting], base[setting])
    &&& !same_json(
        overlaid(base[setting], actual[profile][setting]),
        actual[profile][setting],
    )
}

/// A migrated source gives a profile the value that the profile had of a
/// setting, or none where it had none, exactly where the base does not show
/// through.
pub proof fn law_migration_reads_back(
    actual: ProfilesMap,
    base: SettingsMap,
    profile: Seq<char>,
    setting: Seq<char>,
)
    requires
        actual.contains_key(profile),
        base.dom().subset_of(default_settings(actual).dom()),
        base == default_settings(actual).restrict(base.dom()),
    ensures
        same_option(
            at(resolved(base, migrated(actual, base).profiles[profile]), setting),
            at(actual[profile], setting),
        ) <==> !shows_through(actual, base, profile, setting),
{
    let settings = actual[profile];
    let delta = migrated(actual, base).profiles[profile];
    assert(delta == migrated_delta(base, profile, settings));
    assert(at(resolved(base, delta), setting) == resolved_value(base, delta, setting));
    if settings.contains_key(setting) {
        law_same_json_reflexive(settings[setting]);
    }
    if base.contains_key(setting) {
        assert(default_settings(actual).dom().contains(setting));
        assert(base[setting] == default_settings(actual).restrict(base.dom())[setting]);
        if settings.contains_key(setting) && same_json(settings[setting], base[setting]) {
            crate::json::law_same_json_symmetric(settings[setting], base[setting]);
        }
    }
}

/// A migrated source gives every profile the settings that it had, where the
/// base shows through in none of them. It always gives Default the settings
/// that it had.
pub proof fn law_migration_compiles_back(
    actual: ProfilesMap,
    base: SettingsMap,
    profile: Seq<char>,
)
    requires
        actual.contains_key(profile),
        base.dom().subset_of(default_settings(actual).dom()),
        base == default_settings(actual).restrict(base.dom()),
        forall|setting: Seq<char>| !(#[trigger] shows_through(actual, base, profile, setting)),
    ensures
        same_settings(
            crate::inherit::compiled(migrated(actual, base))[profile],
            actual[profile],
        ),
{
    let given = resolved(base, migrated(actual, base).profiles[profile]);
    assert(migrated(actual, base).profiles.contains_key(profile));
    assert(crate::inherit::compiled(migrated(actual, base))[profile] == given);
    assert forall|setting: Seq<char>|
        same_option(#[trigger] at(given, setting), at(actual[profile], setting)) by {
        assert(!shows_through(actual, base, profile, setting));
        law_migration_reads_back(actual, base, profile, setting);
    }
    assert(given.dom() =~= actual[profile].dom()) by {
        assert forall|setting: Seq<char>|
            #![trigger given.dom().contains(setting)]
            given.dom().contains(setting) == actual[profile].dom().contains(setting) by {
            assert(same_option(at(given, setting), at(actual[profile], setting)));
        }
    }
    assert forall|setting: Seq<char>| given.contains_key(setting) implies same_json(
        #[trigger] given[setting],
        actual[profile][setting],
    ) by {
        assert(same_option(at(given, setting), at(actual[profile], setting)));
    }
}

/// A migrated source is sound exactly when no profile has a blank name, and
/// none has `$unset` as a setting of its own.
pub proof fn law_migration_is_sound(actual: ProfilesMap, base: SettingsMap)
    ensures
        sound_source(migrated(actual, base)) <==> forall|name: Seq<char>| #[trigger]
            actual.contains_key(name) ==> !blank(name) && !migrated_delta(
                base,
                name,
                actual[name],
            ).settings.contains_key(obsolete_unset()),
{
    let source = migrated(actual, base);
    lemma_default_is_not_blank();
    assert forall|name: Seq<char>| source.profiles.contains_key(name) implies overlap(
        #[trigger] source.profiles[name],
    ) == Set::<Seq<char>>::empty() by {
        assert(overlap(source.profiles[name]) =~= Set::<Seq<char>>::empty());
    }
    if sound_source(source) {
        assert forall|name: Seq<char>| #[trigger] actual.contains_key(name) implies !blank(name)
            && !migrated_delta(base, name, actual[name]).settings.contains_key(
            obsolete_unset(),
        ) by {
            assert(source.profiles.contains_key(name));
            assert(sound_profile(name, source.profiles[name]));
        }
    }
}

proof fn lemma_default_is_not_blank()
    ensures
        !blank(default_profile()),
{
    reveal_strlit("Default");
    assert(!crate::text::white_space(default_profile()[0]));
}

} // verus!
