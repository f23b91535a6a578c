//! Where files lie: the directories that are searched for VS Code's data and for
//! Strata's own, and the paths within them.

use vstd::prelude::*;
use crate::node::texts;
use crate::text::{after_prefix, chars_of};

verus! {

/// A directory that is known by its role.
#[derive(Clone, Copy, Debug, PartialEq, Eq, Structural)]
pub enum Root {
    /// The directory that the user gave.
    Given,
    /// The directory of application data on Windows.
    AppData,
    /// The user's home directory.
    UserHome,
    /// The user's directory of configuration.
    ConfigHome,
    /// VS Code's user-data directory.
    UserData,
    /// The directory that the environment names for Strata.
    StrataHome,
    /// The directory of configuration that the platform has for Strata.
    ProjectConfig,
}

/// A path: a directory and the names that lead on from it.
#[derive(Debug, PartialEq)]
pub struct Location {
    pub root: Root,
    pub parts: Vec<String>,
}

/// A path.
#[verifier::ext_equal]
pub struct LocationView {
    pub root: Root,
    pub parts: Seq<Seq<char>>,
}

impl View for Location {
    type V = LocationView;

    open spec fn view(&self) -> LocationView {
        LocationView { root: self.root, parts: texts(self.parts@) }
    }
}

/// The directory itself.
pub open spec fn at_root(root: Root) -> LocationView {
    LocationView { root, parts: Seq::empty() }
}

/// A path that goes one name further.
pub open spec fn joined(location: LocationView, part: Seq<char>) -> LocationView {
    LocationView { root: location.root, parts: location.parts.push(part) }
}

impl Location {
    /// The directory itself.
    pub fn new(root: Root) -> (location: Self)
        ensures
            location@ == at_root(root),
    {
        let location = Location { root, parts: Vec::new() };
        assert(location@ =~= at_root(root));
        location
    }

    /// The path that goes one name further.
    pub fn join(self, part: &str) -> (location: Self)
        ensures
            location@ == joined(self@, part@),
    {
        let ghost before = self@;
        let mut location = self;
        location.parts.push(part.to_owned());
        assert(location@ =~= joined(before, part@));
        location
    }
}

impl Clone for Location {
    fn clone(&self) -> (copy: Self)
        ensures
            copy@ == self@,
    {
        let mut parts: Vec<String> = Vec::new();
        let mut i: usize = 0;
        while i < self.parts.len()
            invariant
                i <= self.parts@.len(),
                texts(parts@) == texts(self.parts@).take(i as int),
            decreases self.parts@.len() - i,
        {
            let ghost before = parts@;
            parts.push(self.parts[i].clone());
            assert(texts(parts@) =~= texts(before).push(self.parts@[i as int]@));
            assert(texts(self.parts@).take(i + 1) =~= texts(self.parts@).take(i as int).push(
                self.parts@[i as int]@,
            ));
            i += 1;
        }
        assert(texts(self.parts@).take(i as int) =~= texts(self.parts@));
        Location { root: self.root, parts }
    }
}

/// The platforms whose conventions differ.
#[derive(Clone, Copy, Debug, PartialEq, Eq, Structural)]
pub enum Platform {
    Windows,
    MacOs,
    Other,
}

/// A directory that may be VS Code's user-data directory.
#[derive(Debug, PartialEq)]
pub struct Candidate {
    pub path: Location,
    pub product: String,
    pub channel: String,
}

/// A directory that may be VS Code's user-data directory.
#[verifier::ext_equal]
pub struct CandidateView {
    pub path: LocationView,
    pub product: Seq<char>,
    pub channel: Seq<char>,
}

impl View for Candidate {
    type V = CandidateView;

    open spec fn view(&self) -> CandidateView {
        CandidateView { path: self.path@, product: self.product@, channel: self.channel@ }
    }
}

/// The directory in which an edition of VS Code keeps its data, if there is one.
pub open spec fn data_root(
    platform: Platform,
    app_data: bool,
    user_home: bool,
    config_home: bool,
) -> Option<LocationView> {
    match platform {
        Platform::Windows => if app_data {
            Some(at_root(Root::AppData))
        } else {
            None
        },
        Platform::MacOs => if user_home {
            Some(
                joined(joined(at_root(Root::UserHome), "Library"@), "Application Support"@),
            )
        } else {
            None
        },
        Platform::Other => if config_home {
            Some(at_root(Root::ConfigHome))
        } else if user_home {
            Some(joined(at_root(Root::UserHome), ".config"@))
        } else {
            None
        },
    }
}

/// The editions of VS Code, in the order in which they are looked for.
pub open spec fn candidates_in(root: LocationView) -> Seq<CandidateView> {
    seq![
        CandidateView {
            path: joined(root, "Code"@),
            product: "Visual Studio Code"@,
            channel: "stable"@,
        },
        CandidateView {
            path: joined(root, "Code - Insiders"@),
            product: "Visual Studio Code Insiders"@,
            channel: "insiders"@,
        },
    ]
}

/// What candidates are.
pub open spec fn candidate_views(candidates: Seq<Candidate>) -> Seq<CandidateView> {
    Seq::new(candidates.len(), |i: int| candidates[i]@)
}

/// The directories that are looked at for VS Code's data: the arguments say which of the
/// environment's directories are set.
pub fn candidate_user_data_dirs(
    platform: Platform,
    app_data: bool,
    user_home: bool,
    config_home: bool,
) -> (candidates: Vec<Candidate>)
    ensures
        candidate_views(candidates@) == (match data_root(
            platform,
            app_data,
            user_home,
            config_home,
        ) {
            Some(root) => candidates_in(root),
            None => Seq::empty(),
        }),
{
    let root = match platform {
        Platform::Windows => if app_data {
            Some(Location::new(Root::AppData))
        } else {
            None
        },
        Platform::MacOs => if user_home {
            Some(Location::new(Root::UserHome).join("Library").join("Application Support"))
        } else {
            None
        },
        Platform::Other => if config_home {
            Some(Location::new(Root::ConfigHome))
        } else if user_home {
            Some(Location::new(Root::UserHome).join(".config"))
        } else {
            None
        },
    };
    let mut out: Vec<Candidate> = Vec::new();
    match root {
        Some(root) => {
            out.push(
                Candidate {
                    path: root.clone().join("Code"),
                    product: "Visual Studio Code".to_owned(),
                    channel: "stable".to_owned(),
                },
            );
            out.push(
                Candidate {
                    path: root.clone().join("Code - Insiders"),
                    product: "Visual Studio Code Insiders".to_owned(),
                    channel: "insiders".to_owned(),
                },
            );
            assert(candidate_views(out@) =~= candidates_in(root@));
        },
        None => {
            assert(candidate_views(out@) =~= Seq::<CandidateView>::empty());
        },
    }
    out
}

/// The prefix of verbatim paths on Windows.
pub open spec fn verbatim_prefix() -> Seq<char> {
    "\\\\?\\"@
}

/// The prefix of verbatim paths to a server on Windows.
pub open spec fn verbatim_server_prefix() -> Seq<char> {
    "\\\\?\\UNC\\"@
}

/// A path as a user knows it: on Windows without the prefix of verbatim paths.
pub open spec fn user_facing(platform: Platform, path: Seq<char>) -> Seq<char> {
    if platform == Platform::Windows && verbatim_server_prefix().is_prefix_of(path) {
        "\\\\"@ + path.skip(verbatim_server_prefix().len() as int)
    } else if platform == Platform::Windows && verbatim_prefix().is_prefix_of(path) {
        path.skip(verbatim_prefix().len() as int)
    } else {
        path
    }
}

/// Writes a path as a user knows it.
pub fn user_facing_path(platform: Platform, path: &str) -> (shown: String)
    ensures
        shown@ == user_facing(platform, path@),
{
    if platform == Platform::Windows {
        if let Some(server) = after_prefix(path, "\\\\?\\UNC\\") {
            let mut shown = "\\\\".to_owned();
            shown.append(server.as_str());
            return shown;
        }
        if let Some(normal) = after_prefix(path, "\\\\?\\") {
            return normal;
        }
    }
    path.to_owned()
}

/// Whether a character separates the names of a path.
pub open spec fn separates(platform: Platform, c: char) -> bool {
    c == '/' || (platform == Platform::Windows && c == '\\')
}

/// Whether the name of a path from `from` up to `to` leads to the parent directory.
pub open spec fn parent_name(platform: Platform, path: Seq<char>, from: int, to: int) -> bool {
    &&& 0 <= from <= to <= path.len()
    &&& from == 0 || separates(platform, path[from - 1])
    &&& to == path.len() || separates(platform, path[to])
    &&& to == from + 2
    &&& path[from] == '.'
    &&& path[from + 1] == '.'
}

/// Whether a path begins with the letter of a drive.
pub open spec fn drive_prefix(platform: Platform, path: Seq<char>) -> bool {
    &&& platform == Platform::Windows
    &&& path.len() >= 2
    &&& path[1] == ':'
    &&& 'a' <= path[0] <= 'z' || 'A' <= path[0] <= 'Z'
}

/// Whether the id of a profile stays within the directory of the profiles: it is not
/// empty, does not begin at a root or a drive, and has no name that leads to the parent
/// directory.
pub open spec fn safe_id(platform: Platform, id: Seq<char>) -> bool {
    &&& id.len() > 0
    &&& !separates(platform, id[0])
    &&& !drive_prefix(platform, id)
    &&& forall|from: int, to: int| !(#[trigger] parent_name(platform, id, from, to))
}

fn is_separator(platform: Platform, c: char) -> (is: bool)
    ensures
        is == separates(platform, c),
{
    c == '/' || (platform == Platform::Windows && c == '\\')
}

/// Whether the id of a profile stays within the directory of the profiles.
pub fn is_safe_id(platform: Platform, id: &str) -> (safe: bool)
    ensures
        safe == safe_id(platform, id@),
{
    let chars = chars_of(id);
    if chars.len() == 0 || is_separator(platform, chars[0]) {
        return false;
    }
    if platform == Platform::Windows && chars.len() >= 2 && chars[1] == ':' && (('a' <= chars[0]
        && chars[0] <= 'z') || ('A' <= chars[0] && chars[0] <= 'Z')) {
        return false;
    }
    let mut at: usize = 0;
    while at < chars.len()
        invariant
            at <= chars@.len(),
            chars@ == id@,
            forall|from: int, to: int|
                from < at ==> !(#[trigger] parent_name(platform, id@, from, to)),
        decreases chars@.len() - at,
    {
        let starts = at == 0 || is_separator(platform, chars[at - 1]);
        if starts && chars.len() - at >= 2 && chars[at] == '.' && chars[at + 1] == '.' && (
        chars.len() - at == 2 || is_separator(platform, chars[at + 2])) {
            assert(parent_name(platform, id@, at as int, at + 2));
            return false;
        }
        at += 1;
    }
    true
}

/// Whether the names of one path begin with all those of another.
pub open spec fn lies_under(path: Seq<Seq<u8>>, root: Seq<Seq<u8>>) -> bool {
    root.is_prefix_of(path)
}

/// The bytes of names.
pub open spec fn name_bytes(names: Seq<Vec<u8>>) -> Seq<Seq<u8>> {
    Seq::new(names.len(), |i: int| names[i]@)
}

fn same_bytes(a: &Vec<u8>, b: &Vec<u8>) -> (same: bool)
    ensures
        same == (a@ == b@),
{
    if a.len() != b.len() {
        return false;
    }
    let mut i: usize = 0;
    while i < a.len()
        invariant
            i <= a@.len(),
            a@.len() == b@.len(),
            forall|j: int| 0 <= j < i ==> a@[j] == b@[j],
        decreases a@.len() - i,
    {
        if a[i] != b[i] {
            return false;
        }
        i += 1;
    }
    assert(a@ =~= b@);
    true
}

/// Whether a directory lies under another, by the names of their paths.
pub fn is_under(path: &Vec<Vec<u8>>, root: &Vec<Vec<u8>>) -> (under: bool)
    ensures
        under == lies_under(name_bytes(path@), name_bytes(root@)),
{
    let ghost long = name_bytes(path@);
    let ghost short = name_bytes(root@);
    if root.len() > path.len() {
        return false;
    }
    let mut i: usize = 0;
    while i < root.len()
        invariant
            i <= root@.len() <= path@.len(),
            long == name_bytes(path@),
            short == name_bytes(root@),
            forall|j: int| 0 <= j < i ==> long[j] == short[j],
        decreases root@.len() - i,
    {
        if !same_bytes(&path[i], &root[i]) {
            assert(long.subrange(0, short.len() as int)[i as int] != short[i as int]);
            return false;
        }
        i += 1;
    }
    assert(long.subrange(0, short.len() as int) =~= short);
    true
}

/// Strata's own directory.
#[derive(Clone, Copy, Debug, PartialEq, Eq, Structural)]
pub struct Home {
    pub root: Root,
}

/// The directory that is taken for Strata's own: the arguments say which are known.
pub open spec fn home_root(given: bool, environment: bool, project: bool) -> Option<Root> {
    if given {
        Some(Root::Given)
    } else if environment {
        Some(Root::StrataHome)
    } else if project {
        Some(Root::ProjectConfig)
    } else {
        None
    }
}

impl Home {
    /// Finds Strata's own directory: the one that was given, else the one that the
    /// environment names, else the one that the platform has.
    pub fn discover(given: bool, environment: bool, project: bool) -> (home: Option<Self>)
        ensures
            match home_root(given, environment, project) {
                Some(root) => home == Some(Home { root }),
                None => home is None,
            },
    {
        if given {
            Some(Home { root: Root::Given })
        } else if environment {
            Some(Home { root: Root::StrataHome })
        } else if project {
            Some(Home { root: Root::ProjectConfig })
        } else {
            None
        }
    }

    /// The file of the source.
    pub fn source_path(&self) -> (path: Location)
        ensures
            path@ == joined(at_root(self.root), "profiles.jsonc"@),
    {
        Location::new(self.root).join("profiles.jsonc")
    }

    /// The file of the state.
    pub fn state_path(&self) -> (path: Location)
        ensures
            path@ == joined(at_root(self.root), "state.json"@),
    {
        Location::new(self.root).join("state.json")
    }

    /// The file that is locked while the source and the state are used.
    pub fn lock_path(&self) -> (path: Location)
        ensures
            path@ == joined(at_root(self.root), "state.lock"@),
    {
        Location::new(self.root).join("state.lock")
    }
}

} // verus!
