//! VS Code's profiles: which there are, where their settings lie, and what their
//! settings are.

use vstd::prelude::*;
use crate::codec::{canonical_json, settings_text, storable_settings};
use crate::decimal::{decimal, decimal_text, lemma_decimal_reads_back};
use crate::json::{Json, Settings, SettingsMap};
use crate::location::{
    at_root, candidate_views, is_safe_id, joined, safe_id, user_facing, user_facing_path,
    Candidate, CandidateView, Location, LocationView, Platform, Root,
};
use crate::mutation::default_profile;
use crate::outside::{jsonc_value, object_fault};
use crate::parse::{parse_settings, settings_read};
use crate::registry::{registry_views, RegistryProfile, RegistryView};
use crate::storable::storable_profiles;
use crate::table::Table;
use crate::text::chars_of;

verus! {

/// What is told of VS Code's data.
#[derive(Clone, Debug, PartialEq)]
pub struct BackendInfo {
    pub product: String,
    pub channel: String,
    pub platform: String,
    pub user_data_dir: String,
    pub backend_version: u32,
    pub writable: bool,
}

/// A profile of VS Code.
#[derive(Debug, PartialEq)]
pub struct Profile {
    pub name: String,
    pub opaque_id: Option<String>,
    pub settings_path: Location,
    pub uses_default_settings: bool,
}

/// A profile of VS Code.
#[verifier::ext_equal]
pub struct ProfileView {
    pub name: Seq<char>,
    pub opaque_id: Option<Seq<char>>,
    pub settings_path: LocationView,
    pub uses_default_settings: bool,
}

impl View for Profile {
    type V = ProfileView;

    open spec fn view(&self) -> ProfileView {
        ProfileView {
            name: self.name@,
            opaque_id: match self.opaque_id {
                Some(id) => Some(id@),
                None => None,
            },
            settings_path: self.settings_path@,
            uses_default_settings: self.uses_default_settings,
        }
    }
}

impl Clone for Profile {
    fn clone(&self) -> (copy: Self)
        ensures
            copy@ == self@,
    {
        let opaque_id = match &self.opaque_id {
            Some(id) => Some(id.clone()),
            None => None,
        };
        Profile {
            name: self.name.clone(),
            opaque_id,
            settings_path: self.settings_path.clone(),
            uses_default_settings: self.uses_default_settings,
        }
    }
}

/// What profiles are.
pub open spec fn profile_views(profiles: Seq<Profile>) -> Seq<ProfileView> {
    Seq::new(profiles.len(), |i: int| profiles[i]@)
}

/// What is wrong with VS Code's data.
#[derive(Debug, PartialEq)]
pub enum BackendError {
    /// There is no user-data directory.
    NotFound,
    /// The registry of the profiles is not there or has an unknown format.
    UnknownRegistry(Location),
    /// A profile has the settings of Default.
    SharedDefault(String),
    /// A path leads out of VS Code's directory.
    UnsafePath(String),
}

/// VS Code's data in files.
#[derive(Debug, PartialEq)]
pub struct FileBackend {
    user_data_dir: Location,
    product: String,
    channel: String,
}

/// `answer` is an answer that `asked` may give on a path.
pub open spec fn answers_on<F: Fn(&Location) -> bool>(
    asked: F,
    path: LocationView,
    answer: bool,
) -> bool {
    exists|location: &Location|
        location@ == path && #[trigger] call_ensures(asked, (location,), answer)
}

/// VS Code's data as it is found without being given: the first candidate that is a
/// directory.
pub open spec fn found_first<F: Fn(&Location) -> bool>(
    asked: F,
    candidates: Seq<CandidateView>,
    found: Option<CandidateView>,
) -> bool {
    match found {
        Some(candidate) => exists|i: int| #[trigger]
            is_first_directory(asked, candidates, i) && candidates[i] == candidate,
        None => forall|j: int|
            0 <= j < candidates.len() ==> answers_on(
                asked,
                (#[trigger] candidates[j]).path,
                false,
            ),
    }
}

/// The candidate at a place is a directory and none before it is.
pub open spec fn is_first_directory<F: Fn(&Location) -> bool>(
    asked: F,
    candidates: Seq<CandidateView>,
    i: int,
) -> bool {
    &&& 0 <= i < candidates.len()
    &&& answers_on(asked, candidates[i].path, true)
    &&& forall|j: int| 0 <= j < i ==> answers_on(asked, (#[trigger] candidates[j]).path, false)
}

/// The directory of VS Code's user.
pub open spec fn user_dir() -> LocationView {
    joined(at_root(Root::UserData), "User"@)
}

/// The file of the settings of Default.
pub open spec fn default_settings_path() -> LocationView {
    joined(user_dir(), "settings.json"@)
}

/// The file of the settings of a profile.
pub open spec fn profile_settings_path(id: Seq<char>) -> LocationView {
    joined(joined(joined(user_dir(), "profiles"@), id), "settings.json"@)
}

/// VS Code's global storage.
pub open spec fn storage_path() -> LocationView {
    joined(joined(user_dir(), "globalStorage"@), "storage.json"@)
}

/// The list of the profiles in their directory.
pub open spec fn profile_list_path() -> LocationView {
    joined(joined(user_dir(), "profiles"@), "profiles.json"@)
}

/// The profile that is always there.
pub open spec fn default_view() -> ProfileView {
    ProfileView {
        name: default_profile(),
        opaque_id: None,
        settings_path: default_settings_path(),
        uses_default_settings: false,
    }
}

/// Whether an id is that of a profile that VS Code brings along.
pub open spec fn builtin(id: Seq<char>) -> bool {
    &&& id.len() >= 8
    &&& id.take(7) == "builtin"@
    &&& id[7] == '/' || id[7] == '\\'
}

/// A profile that the registry lists.
pub open spec fn listed_profile(item: RegistryView) -> ProfileView {
    ProfileView {
        name: item.name,
        opaque_id: Some(item.id),
        settings_path: if item.shares_settings {
            default_settings_path()
        } else {
            profile_settings_path(item.id)
        },
        uses_default_settings: item.shares_settings,
    }
}

/// The profiles that the registry lists, without those that VS Code brings along; or the
/// first id among theirs that is not safe.
pub open spec fn listed_profiles(
    platform: Platform,
    items: Seq<RegistryView>,
) -> Result<Seq<ProfileView>, Seq<char>>
    decreases items.len(),
{
    if items.len() == 0 {
        Ok(Seq::empty())
    } else {
        match listed_profiles(platform, items.drop_last()) {
            Err(id) => Err(id),
            Ok(profiles) => {
                let item = items.last();
                if builtin(item.id) {
                    Ok(profiles)
                } else if safe_id(platform, item.id) {
                    Ok(profiles.push(listed_profile(item)))
                } else {
                    Err(item.id)
                }
            },
        }
    }
}

/// What was read of the registry of the profiles.
pub enum RegistryRead {
    /// There is no directory of profiles.
    Absent,
    /// The list in VS Code's global storage: `None`, where it has an unknown format.
    Storage(Option<Vec<RegistryProfile>>),
    /// The list in the directory of the profiles: `None`, where it is not there or has an
    /// unknown format.
    Profiles(Option<Vec<RegistryProfile>>),
}

/// Where the registry of the profiles is read from.
#[derive(Clone, Copy, Debug, PartialEq, Eq, Structural)]
pub enum RegistryPlace {
    /// Nowhere: there is no directory of profiles.
    Nowhere,
    /// VS Code's global storage.
    Storage,
    /// The list in the directory of the profiles.
    Profiles,
}

/// Finds where the registry of the profiles is read from: `profiles_dir` says whether there is
/// a directory of profiles, and `storage_file` whether there is a global storage.
pub fn registry_place(profiles_dir: bool, storage_file: bool) -> (place: RegistryPlace)
    ensures
        place == if !profiles_dir {
            RegistryPlace::Nowhere
        } else if storage_file {
            RegistryPlace::Storage
        } else {
            RegistryPlace::Profiles
        },
{
    if !profiles_dir {
        RegistryPlace::Nowhere
    } else if storage_file {
        RegistryPlace::Storage
    } else {
        RegistryPlace::Profiles
    }
}

/// What [`FileBackend::list_profiles`] gives.
pub open spec fn profiles_verdict(
    platform: Platform,
    registry: RegistryRead,
    result: Result<Vec<Profile>, BackendError>,
) -> bool {
    match registry {
        RegistryRead::Absent => result matches Ok(profiles) && profile_views(profiles@)
            == seq![default_view()],
        RegistryRead::Storage(None) => result matches Err(BackendError::UnknownRegistry(path))
            && path@ == storage_path(),
        RegistryRead::Profiles(None) => result matches Err(BackendError::UnknownRegistry(path))
            && path@ == profile_list_path(),
        RegistryRead::Storage(Some(items)) => items_verdict(platform, items@, result),
        RegistryRead::Profiles(Some(items)) => items_verdict(platform, items@, result),
    }
}

/// What is given for the profiles of a registry.
pub open spec fn items_verdict(
    platform: Platform,
    items: Seq<RegistryProfile>,
    result: Result<Vec<Profile>, BackendError>,
) -> bool {
    match listed_profiles(platform, registry_views(items)) {
        Ok(listed) => result matches Ok(profiles) && profile_views(profiles@) == seq![
            default_view(),
        ] + listed,
        Err(id) => result matches Err(BackendError::UnsafePath(found)) && found@ == id,
    }
}

fn is_builtin(id: &str) -> (is: bool)
    ensures
        is == builtin(id@),
{
    let chars = chars_of(id);
    let wanted = chars_of("builtin");
    proof {
        reveal_strlit("builtin");
    }
    if chars.len() < 8 {
        return false;
    }
    for i in 0..7usize
        invariant
            chars@ == id@,
            chars@.len() >= 8,
            wanted@ == "builtin"@,
            wanted@.len() == 7,
            forall|j: int| 0 <= j < i ==> chars@[j] == wanted@[j],
    {
        if chars[i] != wanted[i] {
            assert(id@.take(7)[i as int] != "builtin"@[i as int]);
            return false;
        }
    }
    assert(id@.take(7) =~= "builtin"@);
    chars[7] == '/' || chars[7] == '\\'
}

/// Checks that the id of a profile stays within the directory of the profiles.
pub fn validate_profile_id(platform: Platform, id: &str) -> (result: Result<(), BackendError>)
    ensures
        result is Ok <==> safe_id(platform, id@),
        result is Err ==> (result matches Err(BackendError::UnsafePath(found)) && found@ == id@),
{
    if is_safe_id(platform, id) {
        Ok(())
    } else {
        Err(BackendError::UnsafePath(id.to_owned()))
    }
}

fn user_location() -> (path: Location)
    ensures
        path@ == user_dir(),
{
    Location::new(Root::UserData).join("User")
}

fn default_profile_value() -> (profile: Profile)
    ensures
        profile@ == default_view(),
{
    Profile {
        name: "Default".to_owned(),
        opaque_id: None,
        settings_path: user_location().join("settings.json"),
        uses_default_settings: false,
    }
}

impl FileBackend {
    /// The directory as it was found.
    pub closed spec fn dir(self) -> LocationView {
        self.user_data_dir@
    }

    /// The name of the product.
    pub closed spec fn product_name(self) -> Seq<char> {
        self.product@
    }

    /// The name of the channel.
    pub closed spec fn channel_name(self) -> Seq<char> {
        self.channel@
    }

    /// VS Code's data in a directory.
    pub fn at(path: Location, product: String, channel: String) -> (backend: Self)
        ensures
            backend.dir() == path@,
            backend.product_name() == product@,
            backend.channel_name() == channel@,
    {
        FileBackend { user_data_dir: path, product, channel }
    }

    /// Finds VS Code's data: in the directory that was given, else in the first candidate
    /// that is a directory.
    pub fn discover<F: Fn(&Location) -> bool>(
        given: bool,
        candidates: &Vec<Candidate>,
        is_dir: F,
    ) -> (result: Result<Self, BackendError>)
        requires
            forall|path: &Location| call_requires(is_dir, (path,)),
        ensures
            given ==> (result matches Ok(backend) && backend.dir() == at_root(Root::Given)
                && backend.product_name() == "Visual Studio Code"@ && backend.channel_name()
                == "custom"@),
            !given ==> match result {
                Ok(backend) => found_first(
                    is_dir,
                    candidate_views(candidates@),
                    Some(
                        CandidateView {
                            path: backend.dir(),
                            product: backend.product_name(),
                            channel: backend.channel_name(),
                        },
                    ),
                ),
                Err(error) => error == BackendError::NotFound && found_first(
                    is_dir,
                    candidate_views(candidates@),
                    None,
                ),
            },
    {
        if given {
            return Ok(
                FileBackend::at(
                    Location::new(Root::Given),
                    "Visual Studio Code".to_owned(),
                    "custom".to_owned(),
                ),
            );
        }
        let ghost views = candidate_views(candidates@);
        let mut i: usize = 0;
        while i < candidates.len()
            invariant
                !given,
                i <= candidates@.len(),
                views == candidate_views(candidates@),
                forall|path: &Location| call_requires(is_dir, (path,)),
                forall|j: int|
                    0 <= j < i ==> answers_on(is_dir, (#[trigger] views[j]).path, false),
            decreases candidates@.len() - i,
        {
            let candidate = &candidates[i];
            let found = is_dir(&candidate.path);
            assert(views[i as int] == candidate@);
            assert(answers_on(is_dir, views[i as int].path, found));
            if found {
                assert(is_first_directory(is_dir, views, i as int));
                return Ok(
                    FileBackend::at(
                        candidate.path.clone(),
                        candidate.product.clone(),
                        candidate.channel.clone(),
                    ),
                );
            }
            i += 1;
        }
        Err(BackendError::NotFound)
    }

    /// The directory as it was found.
    pub fn user_data_dir(&self) -> (path: Location)
        ensures
            path@ == self.dir(),
    {
        self.user_data_dir.clone()
    }

    /// The directory of VS Code's user, in the user-data directory.
    pub fn user_dir(&self) -> (path: Location)
        ensures
            path@ == user_dir(),
    {
        user_location()
    }

    /// VS Code's global storage.
    pub fn storage_path(&self) -> (path: Location)
        ensures
            path@ == storage_path(),
    {
        user_location().join("globalStorage").join("storage.json")
    }

    /// The list of the profiles in their directory.
    pub fn profile_list_path(&self) -> (path: Location)
        ensures
            path@ == profile_list_path(),
    {
        user_location().join("profiles").join("profiles.json")
    }

    /// Tells of VS Code's data: `os` is the name of the operating system, and
    /// `user_data_dir` the path of the user-data directory.
    pub fn probe(&self, platform: Platform, os: &str, user_data_dir: &str) -> (info: BackendInfo)
        ensures
            info.product@ == self.product_name(),
            info.channel@ == self.channel_name(),
            info.platform@ == os@,
            info.user_data_dir@ == user_facing(platform, user_data_dir@),
            info.backend_version == 1,
            info.writable,
    {
        BackendInfo {
            product: self.product.clone(),
            channel: self.channel.clone(),
            platform: os.to_owned(),
            user_data_dir: user_facing_path(platform, user_data_dir),
            backend_version: 1,
            writable: true,
        }
    }

    /// Lists the profiles: Default, and those that the registry lists.
    pub fn list_profiles(
        &self,
        platform: Platform,
        registry: &RegistryRead,
    ) -> (result: Result<Vec<Profile>, BackendError>)
        ensures
            profiles_verdict(platform, *registry, result),
    {
        match registry {
            RegistryRead::Absent => {
                let mut profiles: Vec<Profile> = Vec::new();
                profiles.push(default_profile_value());
                assert(profile_views(profiles@) =~= seq![default_view()]);
                Ok(profiles)
            },
            RegistryRead::Storage(None) => Err(
                BackendError::UnknownRegistry(self.storage_path()),
            ),
            RegistryRead::Profiles(None) => Err(
                BackendError::UnknownRegistry(self.profile_list_path()),
            ),
            RegistryRead::Storage(Some(items)) => list_items(platform, items),
            RegistryRead::Profiles(Some(items)) => list_items(platform, items),
        }
    }
}

impl Clone for FileBackend {
    fn clone(&self) -> (copy: Self)
        ensures
            copy.dir() == self.dir(),
            copy.product_name() == self.product_name(),
            copy.channel_name() == self.channel_name(),
    {
        FileBackend {
            user_data_dir: self.user_data_dir.clone(),
            product: self.product.clone(),
            channel: self.channel.clone(),
        }
    }
}

/// Lists Default and the profiles of a registry.
fn list_items(
    platform: Platform,
    items: &Vec<RegistryProfile>,
) -> (result: Result<Vec<Profile>, BackendError>)
    ensures
        items_verdict(platform, items@, result),
{
    let ghost views = registry_views(items@);
    let mut profiles: Vec<Profile> = Vec::new();
    profiles.push(default_profile_value());
    assert(views.take(0) =~= Seq::<RegistryView>::empty());
    assert(profile_views(profiles@) =~= seq![default_view()] + Seq::<ProfileView>::empty());
    let mut i: usize = 0;
    while i < items.len()
        invariant
            i <= items@.len(),
            views == registry_views(items@),
            listed_profiles(platform, views.take(i as int)) is Ok,
            profile_views(profiles@) == seq![default_view()] + listed_profiles(
                platform,
                views.take(i as int),
            )->Ok_0,
        decreases items@.len() - i,
    {
        let item = &items[i];
        let ghost sofar = profiles@;
        proof {
            assert(views.take(i + 1).drop_last() =~= views.take(i as int));
            assert(views.take(i + 1).last() == item@);
        }
        if !is_builtin(item.id.as_str()) {
            if let Err(error) = validate_profile_id(platform, item.id.as_str()) {
                proof {
                    lemma_listed_error(platform, views, i + 1);
                }
                return Err(error);
            }
            let uses_default_settings = item.use_default_settings
                || item.use_default_flags.settings;
            let settings_path = if uses_default_settings {
                user_location().join("settings.json")
            } else {
                user_location().join("profiles").join(item.id.as_str()).join("settings.json")
            };
            let profile = Profile {
                name: item.name.clone(),
                opaque_id: Some(item.id.clone()),
                settings_path,
                uses_default_settings,
            };
            assert(profile@ == listed_profile(item@));
            profiles.push(profile);
            assert(profile_views(profiles@) =~= profile_views(sofar).push(profile@));
            assert(profile_views(sofar).push(profile@) =~= seq![default_view()] + (
            listed_profiles(platform, views.take(i as int))->Ok_0).push(profile@));
        }
        i += 1;
    }
    assert(views.take(items@.len() as int) =~= views);
    Ok(profiles)
}

/// What is wrong with the first profiles is wrong with all.
proof fn lemma_listed_error(platform: Platform, items: Seq<RegistryView>, n: int)
    requires
        0 <= n <= items.len(),
        listed_profiles(platform, items.take(n)) is Err,
    ensures
        listed_profiles(platform, items) == listed_profiles(platform, items.take(n)),
    decreases items.len() - n,
{
    if n == items.len() {
        assert(items.take(n) =~= items);
    } else {
        assert(items.take(n + 1).drop_last() =~= items.take(n));
        lemma_listed_error(platform, items, n + 1);
    }
}

/// What is wrong with the settings of a profile.
#[derive(Debug, PartialEq)]
pub enum SettingsError {
    /// The profile has the settings of Default.
    SharedDefault(String),
    /// The file of the profile is no JSON with comments, or no settings.
    Invalid { profile: String, message: String },
}

/// What is given for the settings of a profile: `text` is what the file holds, `None`
/// where there is no file.
pub open spec fn settings_verdict(
    profile: ProfileView,
    text: Option<Seq<char>>,
    result: Result<Settings, SettingsError>,
) -> bool {
    if profile.uses_default_settings {
        result matches Err(SettingsError::SharedDefault(name)) && name@ == profile.name
    } else {
        match text {
            None => result matches Ok(settings) && settings.deep_view() == Map::<
                Seq<char>,
                Json,
            >::empty(),
            Some(text) => match settings_read(jsonc_value(text), object_fault(text)) {
                Ok(map) => result matches Ok(settings) && settings.deep_view() == map,
                Err(said) => result matches Err(SettingsError::Invalid { profile: name, message })
                    && name@ == profile.name && message@ == said,
            },
        }
    }
}

/// Reads the settings of a profile.
pub fn read_settings(profile: &Profile, text: Option<&str>) -> (result: Result<
    Settings,
    SettingsError,
>)
    ensures
        settings_verdict(
            profile@,
            match text {
                Some(text) => Some(text@),
                None => None,
            },
            result,
        ),
        result is Ok ==> storable_settings(result->Ok_0.deep_view()),
{
    if profile.uses_default_settings {
        return Err(SettingsError::SharedDefault(profile.name.clone()));
    }
    match text {
        None => {
            let settings: Settings = Table::new();
            assert(settings.deep_view() =~= Map::<Seq<char>, Json>::empty());
            Ok(settings)
        },
        Some(text) => match parse_settings(text) {
            Ok(settings) => Ok(settings),
            Err(message) => Err(SettingsError::Invalid { profile: profile.name.clone(), message }),
        },
    }
}

/// The text that is written into the file of a profile. What is written is read again as the
/// settings.
pub fn settings_to_write(profile: &Profile, settings: &Settings) -> (result: Result<
    String,
    SettingsError,
>)
    ensures
        profile.uses_default_settings ==> (result matches Err(SettingsError::SharedDefault(name))
            && name@ == profile.name@),
        !profile.uses_default_settings ==> (result matches Ok(text) && text@ == settings_text(
            settings.deep_view(),
        )),
        result is Ok && storable_settings(settings.deep_view()) ==> profile_settings(
            profile@,
            Some(result->Ok_0@),
        ) == Some(settings.deep_view()),
{
    if profile.uses_default_settings {
        return Err(SettingsError::SharedDefault(profile.name.clone()));
    }
    Ok(canonical_json(settings))
}

/// The texts of files.
pub open spec fn text_views(texts: Seq<Option<String>>) -> Seq<Option<Seq<char>>> {
    Seq::new(
        texts.len(),
        |i: int|
            match texts[i] {
                Some(text) => Some(text@),
                None => None,
            },
    )
}

/// The settings of a profile, or none where they cannot be given.
pub open spec fn profile_settings(profile: ProfileView, text: Option<Seq<char>>) -> Option<
    SettingsMap,
> {
    if profile.uses_default_settings {
        None
    } else {
        match text {
            None => Some(Map::empty()),
            Some(text) => match jsonc_value(text) {
                Ok(Json::Object(map)) => Some(map),
                _ => None,
            },
        }
    }
}

/// The settings of the first `n` profiles by their names: of two profiles of one name the
/// later counts.
pub open spec fn snapshot_of(
    profiles: Seq<ProfileView>,
    texts: Seq<Option<Seq<char>>>,
    n: int,
) -> Map<Seq<char>, SettingsMap>
    decreases n,
{
    if n <= 0 {
        Map::empty()
    } else {
        snapshot_of(profiles, texts, n - 1).insert(
            profiles[n - 1].name,
            profile_settings(profiles[n - 1], texts[n - 1])->0,
        )
    }
}

/// The profile at a place is the first whose settings cannot be given.
pub open spec fn first_failing(
    profiles: Seq<ProfileView>,
    texts: Seq<Option<Seq<char>>>,
    i: int,
) -> bool {
    &&& 0 <= i < profiles.len()
    &&& profile_settings(profiles[i], texts[i]) is None
    &&& forall|j: int|
        0 <= j < i ==> profile_settings(#[trigger] profiles[j], texts[j]) is Some
}

/// Collects the settings of all profiles: `texts` is what their files hold.
pub fn snapshot(profiles: &Vec<Profile>, texts: &Vec<Option<String>>) -> (result: Result<
    Table<Settings>,
    SettingsError,
>)
    requires
        texts@.len() == profiles@.len(),
    ensures
        match result {
            Ok(settings) => {
                &&& forall|j: int|
                    0 <= j < profiles@.len() ==> profile_settings(
                        #[trigger] profile_views(profiles@)[j],
                        text_views(texts@)[j],
                    ) is Some
                &&& settings.deep_view() == snapshot_of(
                    profile_views(profiles@),
                    text_views(texts@),
                    profiles@.len() as int,
                )
                &&& storable_profiles(settings.deep_view())
            },
            Err(error) => exists|i: int| #[trigger]
                first_failing(profile_views(profiles@), text_views(texts@), i)
                    && settings_verdict(
                    profile_views(profiles@)[i],
                    text_views(texts@)[i],
                    Err(error),
                ),
        },
{
    let ghost views = profile_views(profiles@);
    let ghost held = text_views(texts@);
    let mut out: Table<Settings> = Table::new();
    assert(out.deep_view() =~= Map::<Seq<char>, SettingsMap>::empty());
    let mut i: usize = 0;
    while i < profiles.len()
        invariant
            i <= profiles@.len(),
            texts@.len() == profiles@.len(),
            views == profile_views(profiles@),
            held == text_views(texts@),
            forall|j: int| 0 <= j < i ==> profile_settings(#[trigger] views[j], held[j]) is Some,
            out.deep_view() == snapshot_of(views, held, i as int),
            storable_profiles(out.deep_view()),
        decreases profiles@.len() - i,
    {
        let profile = &profiles[i];
        assert(views[i as int] == profile@);
        let text = match &texts[i] {
            Some(text) => Some(text.as_str()),
            None => None,
        };
        match read_settings(profile, text) {
            Ok(settings) => {
                let ghost before = out.deep_view();
                out.insert(profile.name.clone(), settings);
                assert(out.deep_view() =~= before.insert(profile@.name, settings.deep_view()));
            },
            Err(error) => {
                assert(first_failing(views, held, i as int));
                return Err(error);
            },
        }
        i += 1;
    }
    Ok(out)
}

/// The name of an archive: `timestamp` tells the nanoseconds since 1970.
pub fn archive_name(timestamp: u128) -> (name: String)
    ensures
        name@ == "strata-profiles-"@ + decimal(timestamp as nat),
{
    let mut name = "strata-profiles-".to_owned();
    name.append(decimal_text(timestamp).as_str());
    name
}

/// Archives that are made at different times have different names.
pub proof fn law_archive_names_differ(a: nat, b: nat)
    requires
        a != b,
    ensures
        "strata-profiles-"@ + decimal(a) != "strata-profiles-"@ + decimal(b),
{
    let prefix = "strata-profiles-"@;
    lemma_decimal_reads_back(a);
    lemma_decimal_reads_back(b);
    if prefix + decimal(a) == prefix + decimal(b) {
        assert((prefix + decimal(a)).skip(prefix.len() as int) =~= decimal(a));
        assert((prefix + decimal(b)).skip(prefix.len() as int) =~= decimal(b));
    }
}

} // verus!
