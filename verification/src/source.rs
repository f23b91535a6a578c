//! The source of the settings: a base that profiles inherit, and what each
//! profile changes of it.

use vstd::prelude::*;
use crate::json::{Settings, SettingsMap};
use crate::table::{first_of, lemma_first_of, lemma_first_of_ends, lists, Names, Table};
use crate::text::{blank, lemma_blank_trimmed, precedes, trim};

verus! {

/// What a profile changes of the base.
#[derive(Debug, PartialEq)]
pub struct ProfileDelta {
    /// The settings of the base that the profile does not take.
    pub uninherit: Names,
    /// The settings that the profile has of its own.
    pub settings: Settings,
}

/// The base and the profiles.
#[derive(Debug, PartialEq)]
pub struct Source {
    pub schema: Option<String>,
    pub version: u32,
    pub base: Settings,
    pub profiles: Table<ProfileDelta>,
}

/// Where the value of a setting in a profile comes from.
#[derive(Clone, Copy, Debug, PartialEq, Eq, Structural)]
pub enum Origin {
    Base,
    ProfileOverride,
    Uninherit,
    VscodeDefault,
}

/// What is wrong with a source.
#[derive(Debug)]
pub enum CoreError {
    Jsonc(String),
    Version(u32),
    EmptyProfile,
    ValueAndUninherit { profile: String, setting: String },
    ObsoleteUnset { profile: String },
}

/// What is known of the settings that were last written.
#[derive(Clone, Debug, PartialEq)]
pub struct StateSnapshot {
    pub revision: u64,
    pub source_hash: String,
    pub materialized: Table<Settings>,
    pub materialized_hashes: Table<String>,
    /// The prefixes of the settings that the base may hold.
    pub known_setting_prefixes: Names,
}

/// What a profile changes of the base.
#[verifier::ext_equal]
pub struct DeltaView {
    pub uninherit: Set<Seq<char>>,
    pub settings: SettingsMap,
}

/// The base and the profiles.
#[verifier::ext_equal]
pub struct SourceView {
    pub schema: Option<Seq<char>>,
    pub version: u32,
    pub base: SettingsMap,
    pub profiles: Map<Seq<char>, DeltaView>,
}

impl View for ProfileDelta {
    type V = DeltaView;

    open spec fn view(&self) -> DeltaView {
        DeltaView { uninherit: self.uninherit@, settings: self.settings.deep_view() }
    }
}

impl DeepView for ProfileDelta {
    type V = DeltaView;

    open spec fn deep_view(&self) -> DeltaView {
        self@
    }
}

impl View for Source {
    type V = SourceView;

    open spec fn view(&self) -> SourceView {
        SourceView {
            schema: match self.schema {
                Some(schema) => Some(schema@),
                None => None,
            },
            version: self.version,
            base: self.base.deep_view(),
            profiles: self.profiles.deep_view(),
        }
    }
}

/// A delta that changes nothing.
pub open spec fn empty_delta() -> DeltaView {
    DeltaView { uninherit: Set::empty(), settings: Map::empty() }
}

/// A source without settings.
pub open spec fn empty_source() -> SourceView {
    SourceView { schema: None, version: 1, base: Map::empty(), profiles: Map::empty() }
}

/// The version that a source has when it does not say.
pub fn schema_version() -> (version: u32)
    ensures
        version == 1,
{
    1
}

impl Default for ProfileDelta {
    fn default() -> (delta: Self)
        ensures
            delta@ == empty_delta(),
    {
        let delta = ProfileDelta { uninherit: Names::new(), settings: Table::new() };
        assert(delta@ =~= empty_delta());
        delta
    }
}

impl Default for Source {
    fn default() -> (source: Self)
        ensures
            source@ == empty_source(),
    {
        let source = Source {
            schema: None,
            version: schema_version(),
            base: Table::new(),
            profiles: Table::new(),
        };
        assert(source@ =~= empty_source());
        source
    }
}

impl Default for StateSnapshot {
    fn default() -> (state: Self)
        ensures
            state.revision == 0,
            state.source_hash@ == Seq::<char>::empty(),
            state.materialized@ == Map::<Seq<char>, Settings>::empty(),
            state.materialized_hashes@ == Map::<Seq<char>, String>::empty(),
            state.known_setting_prefixes@ == Set::<Seq<char>>::empty(),
    {
        StateSnapshot {
            revision: 0,
            source_hash: String::new(),
            materialized: Table::new(),
            materialized_hashes: Table::new(),
            known_setting_prefixes: Names::new(),
        }
    }
}

/// Copies settings.
pub fn copy_settings(settings: &Settings) -> (copy: Settings)
    ensures
        copy.deep_view() == settings.deep_view(),
        copy@.dom() == settings@.dom(),
{
    let copy = settings.clone();
    assert(copy.deep_view() =~= settings.deep_view());
    copy
}

impl Clone for ProfileDelta {
    fn clone(&self) -> (copy: Self)
        ensures
            copy@ == self@,
    {
        ProfileDelta {
            uninherit: self.uninherit.clone(),
            settings: copy_settings(&self.settings),
        }
    }
}

impl Clone for Source {
    fn clone(&self) -> (copy: Self)
        ensures
            copy@ == self@,
    {
        let copy = Source {
            schema: match &self.schema {
                Some(schema) => Some(schema.clone()),
                None => None,
            },
            version: self.version,
            base: copy_settings(&self.base),
            profiles: self.profiles.clone(),
        };
        assert(copy.profiles.deep_view() =~= self.profiles.deep_view());
        copy
    }
}

/// Copies the settings of every profile.
pub fn copy_profiles(profiles: &Table<Settings>) -> (copy: Table<Settings>)
    ensures
        copy.deep_view() == profiles.deep_view(),
{
    let mut copy: Table<Settings> = Table::new();
    let len = profiles.len();
    let ghost names = profiles.names();
    let mut i: usize = 0;
    proof {
        lemma_first_of_ends(names, profiles@.dom());
        assert(copy@.dom() =~= first_of(names, 0));
    }
    while i < len
        invariant
            i <= len,
            len == names.len(),
            names == profiles.names(),
            lists(names, profiles@.dom()),
            copy@.dom() == first_of(names, i as int),
            forall|name: Seq<char>| #[trigger]
                copy@.contains_key(name) ==> copy@[name].deep_view() == profiles@[name].deep_view(),
        decreases len - i,
    {
        proof {
            lemma_first_of(names, i as int);
        }
        copy.insert(profiles.name(i).to_owned(), copy_settings(profiles.value(i)));
        assert(copy@.dom() =~= first_of(names, i + 1));
        i += 1;
    }
    proof {
        lemma_first_of_ends(names, profiles@.dom());
        assert(copy.deep_view() =~= profiles.deep_view());
    }
    copy
}

/// The name that marks a setting as not inherited in sources of another format.
pub open spec fn obsolete_unset() -> Seq<char> {
    "$unset"@
}

/// The settings that a delta both has and does not take.
pub open spec fn overlap(delta: DeltaView) -> Set<Seq<char>> {
    delta.uninherit.intersect(delta.settings.dom())
}

/// A profile of a source may stand as it is: its name is not blank, it has no
/// `$unset`, and no setting of its own is one that it does not inherit.
pub open spec fn sound_profile(name: Seq<char>, delta: DeltaView) -> bool {
    &&& !blank(name)
    &&& !delta.settings.contains_key(obsolete_unset())
    &&& overlap(delta) == Set::<Seq<char>>::empty()
}

/// A source may stand as it is.
pub open spec fn sound_source(source: SourceView) -> bool {
    &&& source.version == 1
    &&& forall|name: Seq<char>|
        #![trigger source.profiles[name]]
        source.profiles.contains_key(name) ==> sound_profile(name, source.profiles[name])
}

/// `name` is the member of `set` that comes before all others.
pub open spec fn is_first(name: Seq<char>, set: Set<Seq<char>>) -> bool {
    set.contains(name) && forall|other: Seq<char>| #[trigger]
        set.contains(other) ==> other == name || precedes(name, other)
}

/// The profiles of a source that may not stand as they are.
pub open spec fn flawed(source: SourceView) -> Set<Seq<char>> {
    Set::new(
        |name: Seq<char>|
            source.profiles.contains_key(name) && !sound_profile(name, source.profiles[name]),
    )
}

/// What [`validate_source`] says of a source.
pub open spec fn verdict(source: SourceView, result: Result<(), CoreError>) -> bool {
    match result {
        Ok(()) => sound_source(source),
        Err(CoreError::Version(version)) => version == source.version && version != 1,
        Err(CoreError::EmptyProfile) => source.version == 1 && exists|name: Seq<char>|
            #![trigger flawed(source).contains(name)]
            is_first(name, flawed(source)) && blank(name),
        Err(CoreError::ObsoleteUnset { profile }) => {
            &&& source.version == 1
            &&& is_first(profile@, flawed(source))
            &&& !blank(profile@)
            &&& source.profiles[profile@].settings.contains_key(obsolete_unset())
        },
        Err(CoreError::ValueAndUninherit { profile, setting }) => {
            &&& source.version == 1
            &&& is_first(profile@, flawed(source))
            &&& !blank(profile@)
            &&& !source.profiles[profile@].settings.contains_key(obsolete_unset())
            &&& is_first(setting@, overlap(source.profiles[profile@]))
        },
        Err(CoreError::Jsonc(_)) => false,
    }
}

/// The first setting that a delta both has and does not take.
fn first_overlap(delta: &ProfileDelta) -> (setting: Option<String>)
    ensures
        match setting {
            Some(setting) => is_first(setting@, overlap(delta@)),
            None => overlap(delta@) == Set::<Seq<char>>::empty(),
        },
{
    let len = delta.uninherit.len();
    let ghost names = delta.uninherit.names();
    let mut i: usize = 0;
    proof {
        lemma_first_of_ends(names, delta.uninherit@);
    }
    while i < len
        invariant
            i <= len,
            len == names.len(),
            names == delta.uninherit.names(),
            lists(names, delta.uninherit@),
            forall|j: int| 0 <= j < i ==> !delta@.settings.contains_key(#[trigger] names[j]),
        decreases len - i,
    {
        let name = delta.uninherit.name(i);
        if delta.settings.contains_key(name) {
            assert forall|other: Seq<char>| #[trigger] overlap(delta@).contains(other) implies other
                == name@ || precedes(name@, other) by {
                assert(names.contains(other));
                let j = choose|j: int| 0 <= j < names.len() && names[j] == other;
                assert(!(j < i));
            }
            assert(overlap(delta@).contains(name@));
            return Some(name.to_owned());
        }
        i += 1;
    }
    assert(overlap(delta@) =~= Set::<Seq<char>>::empty()) by {
        assert forall|other: Seq<char>| !overlap(delta@).contains(other) by {
            if overlap(delta@).contains(other) {
                assert(names.contains(other));
                let j = choose|j: int| 0 <= j < names.len() && names[j] == other;
                assert(!delta@.settings.contains_key(names[j]));
            }
        }
    }
    None
}

/// Checks that a source may stand as it is.
pub fn validate_source(source: &Source) -> (result: Result<(), CoreError>)
    ensures
        verdict(source@, result),
        result is Ok <==> sound_source(source@),
{
    if source.version != 1 {
        return Err(CoreError::Version(source.version));
    }
    let len = source.profiles.len();
    let ghost names = source.profiles.names();
    let mut i: usize = 0;
    while i < len
        invariant
            i <= len,
            len == names.len(),
            source.version == 1,
            names == source.profiles.names(),
            lists(names, source.profiles@.dom()),
            forall|j: int|
                0 <= j < i ==> sound_profile(#[trigger] names[j], source@.profiles[names[j]]),
        decreases len - i,
    {
        let name = source.profiles.name(i);
        let delta = source.profiles.value(i);
        assert(source@.profiles[name@] == delta@);
        assert(source@.profiles.contains_key(name@));
        proof {
            lemma_blank_trimmed(name@);
            if !sound_profile(name@, delta@) {
                assert(flawed(source@).contains(name@));
                assert forall|other: Seq<char>| #[trigger]
                    flawed(source@).contains(other) implies other == name@ || precedes(
                    name@,
                    other,
                ) by {
                    assert(source.profiles@.dom().contains(other));
                    assert(names.contains(other));
                    let j = choose|j: int| 0 <= j < names.len() && names[j] == other;
                    assert(!(j < i));
                }
                assert(is_first(name@, flawed(source@)));
                assert(!sound_source(source@));
            }
        }
        if trim(name).as_str().is_empty() {
            return Err(CoreError::EmptyProfile);
        }
        if delta.settings.contains_key("$unset") {
            return Err(CoreError::ObsoleteUnset { profile: name.to_owned() });
        }
        if let Some(setting) = first_overlap(delta) {
            assert(overlap(delta@).contains(setting@));
            return Err(CoreError::ValueAndUninherit { profile: name.to_owned(), setting });
        }
        i += 1;
    }
    assert forall|name: Seq<char>|
        #![trigger source@.profiles[name]]
        source@.profiles.contains_key(name) implies sound_profile(
        name,
        source@.profiles[name],
    ) by {
        assert(source.profiles@.dom().contains(name));
        assert(names.contains(name));
        let j = choose|j: int| 0 <= j < names.len() && names[j] == name;
        assert(sound_profile(names[j], source@.profiles[names[j]]));
    }
    Ok(())
}

} // verus!
