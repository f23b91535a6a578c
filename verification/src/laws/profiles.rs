//! Laws of VS Code's profiles: which there are, where their settings lie, and what is kept of
//! their registry.

use vstd::prelude::*;
use crate::backend::{
    builtin, listed_profile, listed_profiles, profile_views, read_settings, registry_place,
    settings_to_write, snapshot, snapshot_of, validate_profile_id, BackendError, BackendInfo,
    FileBackend, Profile, ProfileView, RegistryPlace, RegistryRead, SettingsError,
};
use crate::codec::{exported, storable_settings};
use crate::json::{Json, JsonValue, Settings};
use crate::laws::edits::{says, says_nothing};
use crate::location::{
    candidate_user_data_dirs, is_safe_id, is_under, parent_name, safe_id, user_facing_path,
    Candidate, Home, Location, Platform, Root,
};
use crate::node::texts;
use crate::outside::{jsonc_value, object_fault, pretty};
use crate::registry::{
    check_manifest, decode_profile, decode_profiles, decoded_profile, merge_storage, profile_list,
    profile_registry_of, registry_file, registry_views, stored_profiles_of,
    validate_archive_registry, write_profile_registry, ArchivedRegistry, RegistryError,
    RegistryFile, RegistryProfile,
};
use crate::table::Table;

verus! {

/// A character separates the names of a path: the slash, and the backslash on Windows.
pub open spec fn parts_names(platform: Platform, c: char) -> bool {
    c == '/' || (platform is Windows && c == '\\')
}

/// The name at a place of a path is two dots.
pub open spec fn climbs_at(platform: Platform, id: Seq<char>, i: int) -> bool {
    &&& 0 <= i
    &&& i + 2 <= id.len()
    &&& id[i] == '.'
    &&& id[i + 1] == '.'
    &&& i == 0 || parts_names(platform, id[i - 1])
    &&& i + 2 == id.len() || parts_names(platform, id[i + 2])
}

/// An id stays within the directory of the profiles where it is not empty, begins neither with a
/// separator nor, on Windows, with the letter of a drive, and has no name of two dots.
pub open spec fn stays_within(platform: Platform, id: Seq<char>) -> bool {
    &&& id.len() > 0
    &&& !parts_names(platform, id[0])
    &&& !(platform is Windows && id.len() >= 2 && id[1] == ':' && ('a' <= id[0] <= 'z' || 'A'
        <= id[0] <= 'Z'))
    &&& forall|i: int| !(#[trigger] climbs_at(platform, id, i))
}

proof fn lemma_stays_within(platform: Platform, id: Seq<char>)
    ensures
        safe_id(platform, id) <==> stays_within(platform, id),
{
    if safe_id(platform, id) {
        assert forall|i: int| !(#[trigger] climbs_at(platform, id, i)) by {
            assert(!parent_name(platform, id, i, i + 2));
        }
    }
    if stays_within(platform, id) {
        assert forall|from: int, to: int| !(#[trigger] parent_name(platform, id, from, to)) by {
            assert(!climbs_at(platform, id, from));
        }
    }
}

/// An id is taken for safe where it stays within the directory of the profiles, and refused by
/// itself otherwise.
pub proof fn law_safe_ids(
    platform: Platform,
    id: &str,
    safe: bool,
    result: Result<(), BackendError>,
)
    requires
        call_ensures(is_safe_id, (platform, id), safe),
        call_ensures(validate_profile_id, (platform, id), result),
    ensures
        safe <==> stays_within(platform, id@),
        result is Ok <==> stays_within(platform, id@),
        !stays_within(platform, id@) ==> (result matches Err(BackendError::UnsafePath(found))
            && found@ == id@),
{
    lemma_stays_within(platform, id@);
}

/// A path is a root and the names behind it.
pub open spec fn lies_at(path: Location, root: Root, names: Seq<Seq<char>>) -> bool {
    path.root == root && texts(path.parts@) == names
}

/// Going one name further adds the name.
pub proof fn law_going_further(path: Location, part: &str, further: Location, start: Location, root: Root)
    requires
        call_ensures(Location::join, (path, part), further),
        call_ensures(Location::new, (root,), start),
    ensures
        further.root == path.root,
        texts(further.parts@) == texts(path.parts@).push(part@),
        lies_at(start, root, Seq::empty()),
{
    assert(further@.root == path@.root);
    assert(further@.parts == path@.parts.push(part@));
    assert(start@.parts == Seq::<Seq<char>>::empty());
}

/// VS Code's files lie where they do: the settings of Default, the global storage and the list of
/// the profiles, each in the directory of the user.
pub proof fn law_places_of_files(
    backend: &FileBackend,
    user: Location,
    storage: Location,
    list: Location,
    home: &Home,
    source: Location,
    state: Location,
    lock: Location,
)
    requires
        call_ensures(FileBackend::user_dir, (backend,), user),
        call_ensures(FileBackend::storage_path, (backend,), storage),
        call_ensures(FileBackend::profile_list_path, (backend,), list),
        call_ensures(Home::source_path, (home,), source),
        call_ensures(Home::state_path, (home,), state),
        call_ensures(Home::lock_path, (home,), lock),
    ensures
        lies_at(user, Root::UserData, seq!["User"@]),
        lies_at(storage, Root::UserData, seq!["User"@, "globalStorage"@, "storage.json"@]),
        lies_at(list, Root::UserData, seq!["User"@, "profiles"@, "profiles.json"@]),
        lies_at(source, home.root, seq!["profiles.jsonc"@]),
        lies_at(state, home.root, seq!["state.json"@]),
        lies_at(lock, home.root, seq!["state.lock"@]),
{
    assert(user@.parts =~= seq!["User"@]);
    assert(storage@.parts =~= seq!["User"@, "globalStorage"@, "storage.json"@]);
    assert(list@.parts =~= seq!["User"@, "profiles"@, "profiles.json"@]);
    assert(source@.parts =~= seq!["profiles.jsonc"@]);
    assert(state@.parts =~= seq!["state.json"@]);
    assert(lock@.parts =~= seq!["state.lock"@]);
}

/// Strata's directory is the one that was given, else the one that the environment names, else
/// the one of the platform, and otherwise there is none.
pub proof fn law_finding_home(given: bool, environment: bool, project: bool, home: Option<Home>)
    requires
        call_ensures(Home::discover, (given, environment, project), home),
    ensures
        home is Some <==> given || environment || project,
        given ==> home->0.root == Root::Given,
        !given && environment ==> home->0.root == Root::StrataHome,
        !given && !environment && project ==> home->0.root == Root::ProjectConfig,
{
}

/// The directories that are looked at for VS Code's data are those of the stable and of the
/// insiders' edition, in this order, in the platform's directory of application data, where that
/// is known.
pub proof fn law_looking_for_data(
    platform: Platform,
    app_data: bool,
    user_home: bool,
    config_home: bool,
    candidates: Vec<Candidate>,
    root: Root,
    names: Seq<Seq<char>>,
)
    requires
        call_ensures(
            candidate_user_data_dirs,
            (platform, app_data, user_home, config_home),
            candidates,
        ),
        match platform {
            Platform::Windows => root == Root::AppData && names == Seq::<Seq<char>>::empty(),
            Platform::MacOs => root == Root::UserHome && names == seq![
                "Library"@,
                "Application Support"@,
            ],
            Platform::Other => if config_home {
                root == Root::ConfigHome && names == Seq::<Seq<char>>::empty()
            } else {
                root == Root::UserHome && names == seq![".config"@]
            },
        },
    ensures
        ({
            let known = match platform {
                Platform::Windows => app_data,
                Platform::MacOs => user_home,
                Platform::Other => config_home || user_home,
            };
            &&& !known ==> candidates@.len() == 0
            &&& known ==> {
                &&& candidates@.len() == 2
                &&& lies_at(candidates@[0].path, root, names.push("Code"@))
                &&& candidates@[0].product@ == "Visual Studio Code"@
                &&& candidates@[0].channel@ == "stable"@
                &&& lies_at(candidates@[1].path, root, names.push("Code - Insiders"@))
                &&& candidates@[1].product@ == "Visual Studio Code Insiders"@
                &&& candidates@[1].channel@ == "insiders"@
            }
        }),
{
    let views = crate::location::candidate_views(candidates@);
    assert(views.len() == candidates@.len());
    if candidates@.len() == 2 {
        assert(views[0] == candidates@[0]@);
        assert(views[1] == candidates@[1]@);
        assert(views[0].path.parts =~= names.push("Code"@));
        assert(views[1].path.parts =~= names.push("Code - Insiders"@));
        assert(candidates@[0].path@ == views[0].path);
        assert(candidates@[1].path@ == views[1].path);
    }
}

/// VS Code's data is in the directory that was given, else in the first candidate that is a
/// directory, with what the candidate says of it. Where none is one there is no data.
pub proof fn law_finding_data<F: Fn(&Location) -> bool>(
    given: bool,
    candidates: &Vec<Candidate>,
    is_dir: F,
    result: Result<FileBackend, BackendError>,
) -> (i: int)
    requires
        call_ensures(FileBackend::discover::<F>, (given, candidates, is_dir), result),
    ensures
        given ==> result is Ok && result->Ok_0.dir().root == Root::Given && result->Ok_0.dir().parts
            == Seq::<Seq<char>>::empty() && result->Ok_0.product_name() == "Visual Studio Code"@
            && result->Ok_0.channel_name() == "custom"@,
        !given && result is Ok ==> {
            &&& 0 <= i < candidates@.len()
            &&& result->Ok_0.dir() == candidates@[i].path@
            &&& result->Ok_0.product_name() == candidates@[i].product@
            &&& result->Ok_0.channel_name() == candidates@[i].channel@
            &&& may_say(is_dir, candidates@[i].path, true)
            &&& forall|j: int|
                0 <= j < i ==> may_say(is_dir, (#[trigger] candidates@[j]).path, false)
        },
        !given && result is Err ==> result->Err_0 is NotFound && forall|j: int|
            0 <= j < candidates@.len() ==> may_say(
                is_dir,
                (#[trigger] candidates@[j]).path,
                false,
            ),
{
    let views = crate::location::candidate_views(candidates@);
    assert forall|j: int| 0 <= j < views.len() implies #[trigger] views[j] == candidates@[j]@ by {}
    if given {
        0
    } else {
        match result {
            Ok(backend) => {
                let i = choose|i: int| #[trigger]
                    crate::backend::is_first_directory(is_dir, views, i) && views[i]
                        == (crate::location::CandidateView {
                        path: backend.dir(),
                        product: backend.product_name(),
                        channel: backend.channel_name(),
                    });
                assert(views[i] == candidates@[i]@);
                assert forall|j: int| 0 <= j < i implies may_say(
                    is_dir,
                    (#[trigger] candidates@[j]).path,
                    false,
                ) by {
                    assert(views[j] == candidates@[j]@);
                    assert(crate::backend::answers_on(is_dir, views[j].path, false));
                }
                i
            },
            Err(_) => {
                assert forall|j: int| 0 <= j < candidates@.len() implies may_say(
                    is_dir,
                    (#[trigger] candidates@[j]).path,
                    false,
                ) by {
                    assert(views[j] == candidates@[j]@);
                    assert(crate::backend::answers_on(is_dir, views[j].path, false));
                }
                0
            },
        }
    }
}

/// An answer that may be given on a path.
pub open spec fn may_say<F: Fn(&Location) -> bool>(asked: F, path: Location, answer: bool) -> bool {
    exists|location: &Location|
        location@ == path@ && #[trigger] call_ensures(asked, (location,), answer)
}

/// What is told of VS Code's data is what it was found with.
pub proof fn law_telling_of_data(
    path: Location,
    product: String,
    channel: String,
    backend: FileBackend,
    platform: Platform,
    os: &str,
    dir: &str,
    info: BackendInfo,
    found: Location,
    shown: String,
)
    requires
        call_ensures(FileBackend::at, (path, product, channel), backend),
        call_ensures(FileBackend::probe, (&backend, platform, os, dir), info),
        call_ensures(FileBackend::user_data_dir, (&backend,), found),
        call_ensures(user_facing_path, (platform, dir), shown),
    ensures
        found@ == path@,
        info.product@ == product@,
        info.channel@ == channel@,
        info.platform@ == os@,
        info.user_data_dir@ == shown@,
        info.backend_version == 1,
        info.writable,
{
}

/// A path is shown as a user knows it: on Windows `\\?\UNC\` becomes `\\`, and `\\?\` otherwise
/// goes. Any other path stays as it is.
pub proof fn law_showing_a_path(platform: Platform, path: &str, shown: String, rest: Seq<char>)
    requires
        call_ensures(user_facing_path, (platform, path), shown),
    ensures
        !(platform is Windows) ==> shown@ == path@,
        platform is Windows && path@ == "\\\\?\\UNC\\"@ + rest ==> shown@ == "\\\\"@ + rest,
        platform is Windows && path@ == "\\\\?\\"@ + rest && !"UNC\\"@.is_prefix_of(rest) ==> shown@
            == rest,
        platform is Windows && !"\\\\?\\"@.is_prefix_of(path@) ==> shown@ == path@,
{
    reveal_strlit("\\\\?\\UNC\\");
    reveal_strlit("\\\\?\\");
    reveal_strlit("UNC\\");
    let long = "\\\\?\\UNC\\"@;
    let short = "\\\\?\\"@;
    assert(long =~= short + "UNC\\"@);
    if path@ == long + rest {
        assert(long =~= path@.subrange(0, long.len() as int));
        assert(path@.skip(long.len() as int) =~= rest);
    }
    if path@ == short + rest {
        assert(short =~= path@.subrange(0, short.len() as int));
        assert(path@.skip(short.len() as int) =~= rest);
        if long.is_prefix_of(path@) {
            assert("UNC\\"@ =~= rest.subrange(0, 4)) by {
                assert forall|i: int| 0 <= i < 4 implies "UNC\\"@[i] == rest.subrange(0, 4)[i] by {
                    assert(long[i + 4] == path@[i + 4]);
                    assert(path@[i + 4] == rest[i]);
                }
            }
        }
    }
    if long.is_prefix_of(path@) {
        assert(short =~= path@.subrange(0, short.len() as int)) by {
            assert forall|i: int| 0 <= i < 4 implies short[i] == path@[i] by {
                assert(long[i] == path@[i]);
            }
        }
    }
}

/// One path lies under another where its names begin with those of the other.
pub proof fn law_lying_under(path: &Vec<Vec<u8>>, root: &Vec<Vec<u8>>, under: bool)
    requires
        call_ensures(is_under, (path, root), under),
    ensures
        under <==> root@.len() <= path@.len() && forall|i: int|
            0 <= i < root@.len() ==> (#[trigger] root@[i])@ == path@[i]@,
{
    let long = crate::location::name_bytes(path@);
    let short = crate::location::name_bytes(root@);
    if under {
        assert forall|i: int| 0 <= i < root@.len() implies (#[trigger] root@[i])@ == path@[i]@ by {
            assert(short[i] == long.subrange(0, short.len() as int)[i]);
        }
    }
    if root@.len() <= path@.len() && forall|i: int|
        0 <= i < root@.len() ==> (#[trigger] root@[i])@ == path@[i]@ {
        assert(short =~= long.subrange(0, short.len() as int)) by {
            assert forall|i: int| 0 <= i < short.len() implies short[i] == long.subrange(
                0,
                short.len() as int,
            )[i] by {
                assert(root@[i]@ == path@[i]@);
            }
        }
    }
}

/// The registry is read from nowhere without a directory of profiles, from the global storage
/// where there is one, and otherwise from the list in the directory.
pub proof fn law_place_of_the_registry(dir: bool, file: bool, place: RegistryPlace)
    requires
        call_ensures(registry_place, (dir, file), place),
    ensures
        place == RegistryPlace::Nowhere <==> !dir,
        place == RegistryPlace::Storage <==> dir && file,
        place == RegistryPlace::Profiles <==> dir && !file,
{
}

/// A profile comes along with VS Code: its id begins with `builtin` and a separator of any
/// platform.
pub open spec fn comes_along(id: Seq<char>) -> bool {
    "builtin/"@.is_prefix_of(id) || "builtin\\"@.is_prefix_of(id)
}

proof fn lemma_comes_along(id: Seq<char>)
    ensures
        builtin(id) <==> comes_along(id),
{
    reveal_strlit("builtin");
    reveal_strlit("builtin/");
    reveal_strlit("builtin\\");
    if builtin(id) {
        assert forall|i: int| 0 <= i < 7 implies id[i] == "builtin"@[i] by {
            assert(id.take(7)[i] == id[i]);
        }
        if id[7] == '/' {
            assert("builtin/"@ =~= id.subrange(0, 8));
        } else {
            assert("builtin\\"@ =~= id.subrange(0, 8));
        }
    }
    if "builtin/"@.is_prefix_of(id) {
        assert forall|i: int| 0 <= i < 8 implies id[i] == "builtin/"@[i] by {
            assert(id.subrange(0, 8)[i] == id[i]);
        }
        assert(id.take(7) =~= "builtin"@);
    }
    if "builtin\\"@.is_prefix_of(id) {
        assert forall|i: int| 0 <= i < 8 implies id[i] == "builtin\\"@[i] by {
            assert(id.subrange(0, 8)[i] == id[i]);
        }
        assert(id.take(7) =~= "builtin"@);
    }
}

/// How many of the first items of a registry do not come along with VS Code.
pub open spec fn own_items(items: Seq<RegistryProfile>, n: int) -> int
    decreases n,
{
    if n <= 0 {
        0
    } else {
        own_items(items, n - 1) + if comes_along(items[n - 1].id@) {
            0int
        } else {
            1
        }
    }
}

/// A profile is the one of an item of the registry. It has the settings of Default where either
/// flag says so, and its own file otherwise.
pub open spec fn is_listed(profile: Profile, item: RegistryProfile) -> bool {
    let shares = item.use_default_settings || item.use_default_flags.settings;
    &&& profile.name@ == item.name@
    &&& profile.opaque_id is Some
    &&& profile.opaque_id->0@ == item.id@
    &&& profile.uses_default_settings == shares
    &&& shares ==> lies_at(profile.settings_path, Root::UserData, seq!["User"@, "settings.json"@])
    &&& !shares ==> lies_at(
        profile.settings_path,
        Root::UserData,
        seq!["User"@, "profiles"@, item.id@, "settings.json"@],
    )
}

/// A profile is Default: it has no id, and its settings lie in the directory of the user.
pub open spec fn is_default(profile: Profile) -> bool {
    &&& profile.name@ == "Default"@
    &&& profile.opaque_id is None
    &&& !profile.uses_default_settings
    &&& lies_at(profile.settings_path, Root::UserData, seq!["User"@, "settings.json"@])
}

/// The items of a registry that are read.
pub open spec fn read_items(registry: RegistryRead) -> Option<Seq<RegistryProfile>> {
    match registry {
        RegistryRead::Storage(Some(items)) => Some(items@),
        RegistryRead::Profiles(Some(items)) => Some(items@),
        _ => None,
    }
}

/// The profiles are Default, and behind it each item of the registry that does not come along with
/// VS Code, in their order. Where the registry is not known that is told with its file, and where
/// the id of such an item leads out of the directory the first of these is.
pub proof fn law_listing_profiles(
    backend: &FileBackend,
    platform: Platform,
    registry: &RegistryRead,
    result: Result<Vec<Profile>, BackendError>,
    i: int,
)
    requires
        call_ensures(FileBackend::list_profiles, (backend, platform, registry), result),
    ensures
        *registry is Absent ==> result is Ok && result->Ok_0@.len() == 1,
        result is Ok ==> result->Ok_0@.len() >= 1 && is_default(result->Ok_0@[0]),
        (*registry matches RegistryRead::Storage(None)) ==> (result matches Err(
            BackendError::UnknownRegistry(path),
        ) && lies_at(
            path,
            Root::UserData,
            seq!["User"@, "globalStorage"@, "storage.json"@],
        )),
        (*registry matches RegistryRead::Profiles(None)) ==> (result matches Err(
            BackendError::UnknownRegistry(path),
        ) && lies_at(path, Root::UserData, seq!["User"@, "profiles"@, "profiles.json"@])),
        read_items(*registry) matches Some(items) ==> {
            &&& result is Ok <==> forall|j: int|
                0 <= j < items.len() && !comes_along((#[trigger] items[j]).id@) ==> stays_within(
                    platform,
                    items[j].id@,
                )
            &&& result matches Ok(profiles) ==> profiles@.len() == 1 + own_items(
                items,
                items.len() as int,
            ) && (0 <= i < items.len() && !comes_along(items[i].id@) ==> 0 <= own_items(items, i)
                < profiles@.len() - 1 && is_listed(
                profiles@[1 + own_items(items, i)],
                items[i],
            ))
            &&& result matches Err(error) ==> exists|j: int| #[trigger]
                first_out(platform, items, j) && error is UnsafePath && error->UnsafePath_0@
                    == items[j].id@
        },
{
    let default = crate::backend::default_view();
    if result is Ok {
        let views = profile_views(result->Ok_0@);
        assert(views.len() == result->Ok_0@.len());
        assert(views[0] == default);
        assert(views[0] == result->Ok_0@[0]@);
        lemma_default(result->Ok_0@[0]);
    }
    match *registry {
        RegistryRead::Storage(None) => {
            let path = result->Err_0->UnknownRegistry_0;
            assert(path@.parts =~= seq!["User"@, "globalStorage"@, "storage.json"@]);
        },
        RegistryRead::Profiles(None) => {
            let path = result->Err_0->UnknownRegistry_0;
            assert(path@.parts =~= seq!["User"@, "profiles"@, "profiles.json"@]);
        },
        _ => {},
    }
    if let Some(items) = read_items(*registry) {
        let row = registry_views(items);
        lemma_listed(platform, items, items.len() as int, i);
        assert(row.take(items.len() as int) =~= row);
        let listed = listed_profiles(platform, row);
        if let Ok(profiles) = result {
            let views = profile_views(profiles@);
            assert(views == seq![default] + listed->Ok_0);
            if 0 <= i < items.len() && !comes_along(items[i].id@) {
                let at = own_items(items, i);
                lemma_own_items(items, i, items.len() as int);
                assert(views[1 + at] == listed->Ok_0[at]);
                assert(views[1 + at] == profiles@[1 + at]@);
                lemma_is_listed(profiles@[1 + at], items[i]);
            }
        }
    }
}

proof fn lemma_default(profile: Profile)
    requires
        profile@ == crate::backend::default_view(),
    ensures
        is_default(profile),
{
    assert(profile.settings_path@ == profile@.settings_path);
    assert(profile@.settings_path.parts =~= seq!["User"@, "settings.json"@]);
}

proof fn lemma_is_listed(profile: Profile, item: RegistryProfile)
    requires
        profile@ == listed_profile(item@),
    ensures
        is_listed(profile, item),
{
    assert(profile.settings_path@ == profile@.settings_path);
    if item@.shares_settings {
        assert(profile@.settings_path.parts =~= seq!["User"@, "settings.json"@]);
    } else {
        assert(profile@.settings_path.parts
            =~= seq!["User"@, "profiles"@, item.id@, "settings.json"@]);
    }
}

proof fn lemma_own_items(items: Seq<RegistryProfile>, i: int, n: int)
    requires
        0 <= i <= n <= items.len(),
    ensures
        0 <= own_items(items, i) <= own_items(items, n),
        i < n && !comes_along(items[i].id@) ==> own_items(items, i) < own_items(items, n),
    decreases n,
{
    if i < n {
        lemma_own_items(items, i, n - 1);
    } else if n > 0 {
        lemma_own_items(items, n - 1, n - 1);
    }
}

/// The item at a place is the first that does not come along with VS Code and leads out of the
/// directory.
pub open spec fn first_out(platform: Platform, items: Seq<RegistryProfile>, j: int) -> bool {
    &&& 0 <= j < items.len()
    &&& !comes_along(items[j].id@)
    &&& !stays_within(platform, items[j].id@)
    &&& forall|k: int|
        0 <= k < j && !comes_along((#[trigger] items[k]).id@) ==> stays_within(
            platform,
            items[k].id@,
        )
}

proof fn lemma_listed(platform: Platform, items: Seq<RegistryProfile>, n: int, i: int)
    requires
        0 <= n <= items.len(),
    ensures
        ({
            let listed = listed_profiles(platform, registry_views(items).take(n));
            &&& listed is Ok <==> forall|j: int|
                0 <= j < n && !comes_along((#[trigger] items[j]).id@) ==> stays_within(
                    platform,
                    items[j].id@,
                )
            &&& listed is Ok ==> listed->Ok_0.len() == own_items(items, n)
            &&& listed is Ok && 0 <= i < n && !comes_along(items[i].id@) ==> 0 <= own_items(
                items,
                i,
            ) < listed->Ok_0.len() && listed->Ok_0[own_items(items, i)] == listed_profile(
                items[i]@,
            )
            &&& listed is Err ==> exists|j: int| #[trigger]
                first_out(platform, items, j) && j < n && listed->Err_0 == items[j].id@
        }),
    decreases n,
{
    let row = registry_views(items);
    if n > 0 {
        let last = items[n - 1];
        lemma_listed(platform, items, n - 1, i);
        lemma_comes_along(last.id@);
        lemma_stays_within(platform, last.id@);
        assert(row.take(n).drop_last() =~= row.take(n - 1));
        assert(row.take(n).last() == last@);
        let before = listed_profiles(platform, row.take(n - 1));
        let listed = listed_profiles(platform, row.take(n));
        if before is Ok {
            if !comes_along(last.id@) && !stays_within(platform, last.id@) {
                assert(first_out(platform, items, n - 1));
                assert(!comes_along(items[n - 1].id@));
            }
            if 0 <= i < n - 1 {
                lemma_own_items(items, i, n - 1);
            }
        } else {
            let j = choose|j: int| #[trigger]
                first_out(platform, items, j) && j < n - 1 && before->Err_0 == items[j].id@;
            assert(first_out(platform, items, j));
            assert(!comes_along(items[j].id@));
        }
    }
}

/// A value under a name is a truth value or not there.
pub open spec fn maybe_flag(json: Json, name: Seq<char>) -> bool {
    says_nothing(json, name) || says(json, name, Json::Bool(true)) || says(
        json,
        name,
        Json::Bool(false),
    )
}

/// The flags of an item are not there, are an object whose flag for the settings is a truth value
/// or not there, or a list of at most a truth value.
pub open spec fn flags_say(flags: Option<Json>, shares: bool) -> bool {
    match flags {
        None => !shares,
        Some(Json::Object(members)) => (says_nothing(Json::Object(members), "settings"@) && !shares)
            || says(Json::Object(members), "settings"@, Json::Bool(shares)),
        Some(Json::List(items)) => (items.len() == 0 && !shares) || (items.len() == 1 && items[0]
            == Json::Bool(shares)),
        _ => false,
    }
}

/// What an object has under a name.
pub open spec fn under(json: Json, name: Seq<char>) -> Option<Json> {
    if json is Object && json->Object_0.contains_key(name) {
        Some(json->Object_0[name])
    } else {
        None
    }
}

/// An item of a registry that is an object is read where it has a text as its id or its location
/// and not both, a text as its name, and flags that are truth values or not there. The profile
/// then has the id and the name, and shares the settings of Default where either flag says so.
pub proof fn law_reading_an_item(
    value: &JsonValue,
    found: Option<RegistryProfile>,
    id: Seq<char>,
    name: Seq<char>,
    shares: bool,
    flagged: bool,
)
    requires
        call_ensures(decode_profile, (value,), found),
        value@ is Object,
    ensures
        ((says(value@, "id"@, Json::Text(id)) && says_nothing(value@, "location"@)) || (says(
            value@,
            "location"@,
            Json::Text(id),
        ) && says_nothing(value@, "id"@))) && says(value@, "name"@, Json::Text(name)) && ((
        says_nothing(value@, "useDefaultSettings"@) && !shares) || says(
            value@,
            "useDefaultSettings"@,
            Json::Bool(shares),
        )) && flags_say(under(value@, "useDefaultFlags"@), flagged) ==> found is Some
            && found->0.id@ == id && found->0.name@ == name && (found->0.use_default_settings
            || found->0.use_default_flags.settings) == (shares || flagged),
        found is Some ==> says(value@, "name"@, Json::Text(found->0.name@)) && (says(
            value@,
            "id"@,
            Json::Text(found->0.id@),
        ) || says(value@, "location"@, Json::Text(found->0.id@))) && !(!says_nothing(
            value@,
            "id"@,
        ) && !says_nothing(value@, "location"@)) && maybe_flag(value@, "useDefaultSettings"@) && (
        flags_say(under(value@, "useDefaultFlags"@), true) || flags_say(
            under(value@, "useDefaultFlags"@),
            false,
        )),
{
    let members = value@->Object_0;
    if found is Some {
        let view = decoded_profile(value@)->0;
        assert(found->0@ == view);
        assert(found->0@.id == found->0.id@);
    }
}

/// An item of a registry that is a list is read where it has a text as its id and one as its name,
/// and behind them at most the two flags. What is neither an object nor a list is no item.
pub proof fn law_reading_a_listed_item(
    value: &JsonValue,
    found: Option<RegistryProfile>,
    items: Seq<Json>,
    id: Seq<char>,
    name: Seq<char>,
    shares: bool,
    flagged: bool,
)
    requires
        call_ensures(decode_profile, (value,), found),
    ensures
        value@ == Json::List(items) && 2 <= items.len() <= 4 && items[0] == Json::Text(id)
            && items[1] == Json::Text(name) && (if items.len() > 2 {
            items[2] == Json::Bool(shares)
        } else {
            !shares
        }) && (if items.len() > 3 {
            flags_say(Some(items[3]), flagged)
        } else {
            !flagged
        }) ==> found is Some && found->0.id@ == id && found->0.name@ == name && (
        found->0.use_default_settings || found->0.use_default_flags.settings) == (shares
            || flagged),
        value@ == Json::List(items) && found is Some ==> 2 <= items.len() <= 4 && items[0]
            == Json::Text(found->0.id@) && items[1] == Json::Text(found->0.name@) && (items.len()
            > 2 ==> items[2] is Bool) && (items.len() > 3 ==> flags_say(Some(items[3]), true)
            || flags_say(Some(items[3]), false)),
        !(value@ is Object) && !(value@ is List) ==> found is None,
{
    if found is Some {
        assert(found->0@ == decoded_profile(value@)->0);
        assert(found->0@.id == found->0.id@);
    }
}

/// The items of a list are read where each of them is, each as it is by itself.
pub proof fn law_reading_items(
    value: &JsonValue,
    found: Option<Vec<RegistryProfile>>,
    i: int,
    item: &JsonValue,
    one: Option<RegistryProfile>,
)
    requires
        call_ensures(decode_profiles, (value,), found),
        call_ensures(decode_profile, (item,), one),
        value@ is List ==> 0 <= i < value@->List_0.len() && value@->List_0[i] == item@,
    ensures
        found is Some ==> value@ is List && found->0@.len() == value@->List_0.len(),
        found is Some ==> one is Some && found->0@[i]@ == one->0@,
        value@ is List && one is None ==> found is None,
{
    if found is Some {
        assert(registry_views(found->0@).len() == found->0@.len());
        assert(profile_list(value@).len() == value@->List_0.len());
        assert(registry_views(found->0@)[i] == found->0@[i]@);
        assert(decoded_profile(value@->List_0[i]) is Some);
    }
}

/// An empty list is read, and a list of which every item is read.
pub proof fn law_reading_a_whole_list(value: &JsonValue, found: Option<Vec<RegistryProfile>>)
    requires
        call_ensures(decode_profiles, (value,), found),
    ensures
        found is Some <==> value@ is List && forall|i: int|
            0 <= i < value@->List_0.len() ==> decoded_profile(#[trigger] value@->List_0[i]) is Some,
{
}

/// The registry of an archive may be imported where its kind is known, it has a list of profiles,
/// and each of their ids stays within the directory. What is wrong otherwise is told, in this
/// order, and of ids that do not the first.
pub proof fn law_validating_an_archive(
    platform: Platform,
    kind: &str,
    registry: &JsonValue,
    result: Result<(), RegistryError>,
    list: &JsonValue,
    found: Option<Vec<RegistryProfile>>,
)
    requires
        call_ensures(validate_archive_registry, (platform, kind, registry), result),
        call_ensures(decode_profiles, (list,), found),
        kind@ == "storage"@ ==> list@ == registry@,
        kind@ == "profiles"@ && !says_nothing(registry@, "profiles"@) ==> says(
            registry@,
            "profiles"@,
            list@,
        ),
    ensures
        ({
            let known = kind@ == "storage"@ || kind@ == "profiles"@;
            let there = kind@ == "storage"@ || !says_nothing(registry@, "profiles"@);
            &&& !known ==> (result matches Err(RegistryError::UnknownKind(name)) && name@ == kind@)
            &&& known && !there ==> (result matches Err(RegistryError::NoProfiles))
            &&& known && there && found is None ==> (result matches Err(
                RegistryError::UnknownFormat,
            ))
            &&& known && there && found is Some ==> {
                let row = found->0@;
                &&& result is Ok <==> forall|i: int|
                    0 <= i < row.len() ==> stays_within(platform, (#[trigger] row[i]).id@)
                &&& result is Err ==> result->Err_0 is UnsafePath && exists|i: int|
                    0 <= i < row.len() && !stays_within(platform, (#[trigger] row[i]).id@)
                        && row[i].id@ == result->Err_0->UnsafePath_0@ && forall|j: int|
                        0 <= j < i ==> stays_within(platform, (#[trigger] row[j]).id@)
            }
        }),
{
    reveal_strlit("storage");
    reveal_strlit("profiles");
    assert("storage"@.len() != "profiles"@.len());
    if found is Some {
        let row = found->0@;
        let views = registry_views(row);
        assert(views == profile_list(list@));
        assert forall|i: int|
            #![trigger row[i]]
            0 <= i < row.len() implies views[i].id == row[i].id@ && (safe_id(
            platform,
            views[i].id,
        ) <==> stays_within(platform, row[i].id@)) by {
            assert(views[i] == row[i]@);
            lemma_stays_within(platform, row[i].id@);
        }
        if crate::registry::all_safe(platform, views) {
            assert forall|i: int| 0 <= i < row.len() implies stays_within(
                platform,
                (#[trigger] row[i]).id@,
            ) by {
                assert(safe_id(platform, views[i].id));
            }
        }
        if forall|i: int| 0 <= i < row.len() ==> stays_within(platform, (#[trigger] row[i]).id@) {
            assert forall|i: int| 0 <= i < views.len() implies safe_id(
                platform,
                (#[trigger] views[i]).id,
            ) by {
                assert(row[i].id@ == views[i].id);
            }
        }
        if let Err(RegistryError::UnsafePath(id)) = result {
            if (kind@ == "storage"@ || kind@ == "profiles"@) && (kind@ == "storage"@
                || !says_nothing(registry@, "profiles"@)) {
                let i = choose|i: int|
                    #![trigger profile_list(list@)[i]]
                    crate::registry::first_unsafe(platform, profile_list(list@), i)
                        && profile_list(list@)[i].id == id@;
                assert(row[i].id@ == views[i].id);
                assert forall|j: int| 0 <= j < i implies stays_within(
                    platform,
                    (#[trigger] row[j]).id@,
                ) by {
                    assert(safe_id(platform, views[j].id));
                }
            }
        }
    }
}

/// A manifest is checked by its version first, and then by its registry.
pub proof fn law_checking_a_manifest(
    platform: Platform,
    version: u32,
    kind: &str,
    registry: &JsonValue,
    result: Result<(), RegistryError>,
    valid: Result<(), RegistryError>,
)
    requires
        call_ensures(check_manifest, (platform, version, kind, registry), result),
        call_ensures(validate_archive_registry, (platform, kind, registry), valid),
    ensures
        version != 1 ==> result == Err::<(), RegistryError>(
            RegistryError::UnsupportedVersion(version),
        ),
        version == 1 ==> (result is Ok <==> valid is Ok),
{
    reveal_strlit("storage");
    reveal_strlit("profiles");
}

/// What is archived of a registry is the list of profiles of the global storage, or the whole of
/// the other file, under the name of its kind, where it may be imported again.
pub proof fn law_archiving(
    platform: Platform,
    stored: bool,
    read: &Option<JsonValue>,
    result: Result<ArchivedRegistry, RegistryError>,
)
    requires
        call_ensures(profile_registry_of, (platform, stored, read), result),
    ensures
        read is None || (stored && says_nothing(read->0@, "userDataProfiles"@))
            ==> result matches Err(RegistryError::UnknownRegistry),
        result is Ok && stored ==> result->Ok_0.kind@ == "storage"@ && says(
            read->0@,
            "userDataProfiles"@,
            result->Ok_0.registry@,
        ),
        result is Ok && !stored ==> result->Ok_0.kind@ == "profiles"@ && result->Ok_0.registry@
            == read->0@,
        read is Some && stored && says(read->0@, "userDataProfiles"@, Json::List(Seq::empty()))
            ==> result is Ok,
{
}

/// Importing a list of profiles into the global storage sets the list there and leaves every other
/// field as it was. Without a storage one is made, and one that is no object is refused.
pub proof fn law_importing(
    document: Option<JsonValue>,
    registry: JsonValue,
    merged: Result<JsonValue, RegistryError>,
    name: Seq<char>,
)
    requires
        call_ensures(merge_storage, (document, registry), merged),
    ensures
        merged is Err <==> document is Some && !(document->0@ is Object),
        merged is Err ==> merged->Err_0 is NotAnObject,
        merged is Ok ==> says(merged->Ok_0@, "userDataProfiles"@, registry@),
        merged is Ok && name != "userDataProfiles"@ ==> under(merged->Ok_0@, name) == (
        if document is Some {
            under(document->0@, name)
        } else {
            None
        }),
{
}

/// What is written into a file of a registry is what is imported: the registry itself, or the
/// global storage with it. A global storage that cannot be read, or is no object, is refused.
pub proof fn law_writing_a_registry(
    file: RegistryFile,
    document: Option<Option<JsonValue>>,
    registry: JsonValue,
    result: Result<String, RegistryError>,
    merged: Result<JsonValue, RegistryError>,
)
    requires
        call_ensures(write_profile_registry, (file, document, registry), result),
        document is None ==> call_ensures(merge_storage, (None, registry), merged),
        document is Some && document->0 is Some ==> call_ensures(
            merge_storage,
            (document->0, registry),
            merged,
        ),
    ensures
        file is Profiles ==> result is Ok && result->Ok_0@ == pretty(exported(registry@)),
        file is Storage && document is Some && document->0 is None ==> result is Err
            && result->Err_0 is UnknownRegistry,
        file is Storage && (document is None || document->0 is Some) ==> (result is Ok
            <==> merged is Ok) && (result is Ok ==> result->Ok_0@ == pretty(
            exported(merged->Ok_0@),
        )),
{
    if document is None {
        assert(crate::registry::merged_storage(None, registry@) == Some(
            Json::Object(map![crate::registry::profiles_field() => registry@]),
        ));
    }
}

/// The kinds of registries go to these files, and no other kind is known.
pub proof fn law_files_of_registries(kind: &str, file: Result<RegistryFile, RegistryError>)
    requires
        call_ensures(registry_file, (kind,), file),
    ensures
        kind@ == "storage"@ <==> file is Ok && file->Ok_0 is Storage,
        kind@ == "profiles"@ <==> file is Ok && file->Ok_0 is Profiles,
        file is Err ==> file->Err_0 is UnknownKind && file->Err_0->UnknownKind_0@ == kind@,
{
    reveal_strlit("storage");
    reveal_strlit("profiles");
    assert("storage"@.len() != "profiles"@.len());
}

/// The profiles in the global storage are those of its list, where it has one that is read.
pub proof fn law_stored_profiles(
    read: &Option<JsonValue>,
    found: Option<Vec<RegistryProfile>>,
    list: &JsonValue,
    items: Option<Vec<RegistryProfile>>,
)
    requires
        call_ensures(stored_profiles_of, (read,), found),
        call_ensures(decode_profiles, (list,), items),
    ensures
        read is None ==> found is None,
        read is Some && says_nothing(read->0@, "userDataProfiles"@) ==> found is None,
        read is Some && says(read->0@, "userDataProfiles"@, list@) ==> (found is Some
            <==> items is Some) && (found is Some ==> registry_views(found->0@) == registry_views(
            items->0@,
        )),
{
}

/// What a profile has of the text of its file: nothing without a file, the members of an object,
/// and an error with the words of the reader for any other text. A profile with the settings of
/// Default has none of its own.
pub proof fn law_reading_settings(
    profile: &Profile,
    text: Option<&str>,
    result: Result<Settings, SettingsError>,
)
    requires
        call_ensures(read_settings, (profile, text), result),
    ensures
        profile.uses_default_settings ==> (result matches Err(SettingsError::SharedDefault(name))
            && name@ == profile.name@),
        !profile.uses_default_settings && text is None ==> result is Ok && forall|name: Seq<char>|
            !(#[trigger] result->Ok_0@.contains_key(name)),
        !profile.uses_default_settings && text is Some && jsonc_value(text->0@) is Ok
            && jsonc_value(text->0@)->Ok_0 is Object ==> result is Ok
            && result->Ok_0.deep_view() == jsonc_value(text->0@)->Ok_0->Object_0,
        !profile.uses_default_settings && text is Some && !(jsonc_value(text->0@) is Ok
            && jsonc_value(text->0@)->Ok_0 is Object) ==> (result matches Err(
            SettingsError::Invalid { profile: name, message },
        ) && name@ == profile.name@ && message@ == object_fault(text->0@)),
{
    if !profile.uses_default_settings && text is None {
        assert forall|name: Seq<char>| !(#[trigger] result->Ok_0@.contains_key(name)) by {
            assert(result->Ok_0.deep_view().contains_key(name) <==> result->Ok_0@.contains_key(
                name,
            ));
        }
    }
}

/// What is written for a profile is the text of its settings, and is read again as them. A profile
/// with the settings of Default is not written.
pub proof fn law_writing_settings(
    profile: &Profile,
    settings: &Settings,
    result: Result<String, SettingsError>,
    again: Result<Settings, SettingsError>,
    text: &str,
)
    requires
        call_ensures(settings_to_write, (profile, settings), result),
        result is Ok ==> text@ == result->Ok_0@,
        call_ensures(read_settings, (profile, Some(text)), again),
    ensures
        result is Ok <==> !profile.uses_default_settings,
        result is Err ==> (result matches Err(SettingsError::SharedDefault(name)) && name@
            == profile.name@),
        result is Ok ==> result->Ok_0@ == pretty(exported(Json::Object(settings.deep_view()))).push(
            '\n',
        ),
        result is Ok && storable_settings(settings.deep_view()) ==> again is Ok
            && again->Ok_0.deep_view() == settings.deep_view(),
{
}

/// The settings of all profiles are collected under their names, each as it is read, and of two
/// profiles of one name the later. Where one cannot be read the first of these is told.
pub proof fn law_collecting_settings(
    profiles: &Vec<Profile>,
    files: &Vec<Option<String>>,
    result: Result<Table<Settings>, SettingsError>,
    i: int,
    text: Option<&str>,
    one: Result<Settings, SettingsError>,
)
    requires
        files@.len() == profiles@.len(),
        call_ensures(snapshot, (profiles, files), result),
        0 <= i < profiles@.len(),
        text is Some <==> files@[i] is Some,
        text is Some ==> text->0@ == files@[i]->0@,
        call_ensures(read_settings, (&profiles@[i], text), one),
    ensures
        result is Ok ==> one is Ok,
        result is Ok && (forall|j: int|
            i < j < profiles@.len() ==> (#[trigger] profiles@[j]).name@ != profiles@[i].name@)
            ==> result->Ok_0.deep_view().contains_key(profiles@[i].name@)
            && result->Ok_0.deep_view()[profiles@[i].name@] == one->Ok_0.deep_view(),
        result is Ok ==> forall|name: Seq<char>| #[trigger]
            result->Ok_0@.contains_key(name) ==> exists|j: int|
                0 <= j < profiles@.len() && (#[trigger] profiles@[j]).name@ == name,
{
    let views = profile_views(profiles@);
    let held = crate::backend::text_views(files@);
    assert(views[i] == profiles@[i]@);
    if result is Ok {
        let whole = snapshot_of(views, held, profiles@.len() as int);
        assert(crate::backend::profile_settings(views[i], held[i]) is Some);
        lemma_snapshot(profiles@, views, held, profiles@.len() as int, i);
        assert forall|name: Seq<char>| #[trigger]
            result->Ok_0@.contains_key(name) implies exists|j: int|
            0 <= j < profiles@.len() && (#[trigger] profiles@[j]).name@ == name by {
            assert(result->Ok_0.deep_view().contains_key(name));
            lemma_snapshot_names(profiles@, views, held, profiles@.len() as int, name);
        }
    }
}

proof fn lemma_snapshot(
    profiles: Seq<Profile>,
    views: Seq<ProfileView>,
    held: Seq<Option<Seq<char>>>,
    n: int,
    i: int,
)
    requires
        views == profile_views(profiles),
        0 <= n <= profiles.len(),
        0 <= i < n,
    ensures
        (forall|j: int| i < j < n ==> (#[trigger] profiles[j]).name@ != profiles[i].name@)
            ==> snapshot_of(views, held, n).contains_key(profiles[i].name@) && snapshot_of(
            views,
            held,
            n,
        )[profiles[i].name@] == crate::backend::profile_settings(views[i], held[i])->0,
    decreases n,
{
    assert(views[n - 1] == profiles[n - 1]@);
    if i < n - 1 {
        lemma_snapshot(profiles, views, held, n - 1, i);
        if forall|j: int| i < j < n ==> (#[trigger] profiles[j]).name@ != profiles[i].name@ {
            assert(profiles[n - 1].name@ != profiles[i].name@);
        }
    }
}

proof fn lemma_snapshot_names(
    profiles: Seq<Profile>,
    views: Seq<ProfileView>,
    held: Seq<Option<Seq<char>>>,
    n: int,
    name: Seq<char>,
)
    requires
        views == profile_views(profiles),
        0 <= n <= profiles.len(),
        snapshot_of(views, held, n).contains_key(name),
    ensures
        exists|j: int| 0 <= j < profiles.len() && (#[trigger] profiles[j]).name@ == name,
    decreases n,
{
    if n > 0 {
        assert(views[n - 1] == profiles[n - 1]@);
        if profiles[n - 1].name@ != name {
            lemma_snapshot_names(profiles, views, held, n - 1, name);
        }
    }
}

/// Where the settings of some profile cannot be read, those of all are not collected, and what is
/// wrong with the first such profile is told.
pub proof fn law_refusing_to_collect(
    profiles: &Vec<Profile>,
    files: &Vec<Option<String>>,
    result: Result<Table<Settings>, SettingsError>,
) -> (i: int)
    requires
        files@.len() == profiles@.len(),
        call_ensures(snapshot, (profiles, files), result),
        result is Err,
    ensures
        0 <= i < profiles@.len(),
        result->Err_0 matches SettingsError::SharedDefault(name) ==> name@ == profiles@[i].name@
            && profiles@[i].uses_default_settings,
        result->Err_0 matches SettingsError::Invalid { profile, message } ==> profile@
            == profiles@[i].name@ && !profiles@[i].uses_default_settings && files@[i] is Some
            && message@ == object_fault(files@[i]->0@) && !(jsonc_value(files@[i]->0@) is Ok
            && jsonc_value(files@[i]->0@)->Ok_0 is Object),
        forall|j: int|
            0 <= j < i ==> !(#[trigger] profiles@[j]).uses_default_settings && (files@[j] is None
                || (jsonc_value(files@[j]->0@) is Ok && jsonc_value(
                files@[j]->0@,
            )->Ok_0 is Object)),
{
    let views = profile_views(profiles@);
    let held = crate::backend::text_views(files@);
    let i = choose|i: int| #[trigger]
        crate::backend::first_failing(views, held, i) && crate::backend::settings_verdict(
            views[i],
            held[i],
            Err(result->Err_0),
        );
    assert(views[i] == profiles@[i]@);
    assert forall|j: int| 0 <= j < i implies !(#[trigger] profiles@[j]).uses_default_settings && (
    files@[j] is None || (jsonc_value(files@[j]->0@) is Ok && jsonc_value(
        files@[j]->0@,
    )->Ok_0 is Object)) by {
        assert(views[j] == profiles@[j]@);
        assert(crate::backend::profile_settings(views[j], held[j]) is Some);
    }
    i
}

} // verus!
