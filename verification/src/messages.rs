//! What is said of errors.

use vstd::prelude::*;
use crate::backend::{BackendError, SettingsError};
use crate::decimal::{decimal, decimal_text};
use crate::edits::EditError;
use crate::patch::PatchError;
use crate::protocol::ParamError;
use crate::registry::RegistryError;
use crate::service::MappingError;
use crate::source::CoreError;
use crate::text::same_text;

verus! {

/// A text between two others.
fn between(before: &str, text: &str, after: &str) -> (whole: String)
    ensures
        whole@ == before@ + text@ + after@,
{
    let mut whole = before.to_owned();
    whole.append(text);
    whole.append(after);
    whole
}

/// A text followed by another.
fn followed(text: &str, after: &str) -> (whole: String)
    ensures
        whole@ == text@ + after@,
{
    let mut whole = text.to_owned();
    whole.append(after);
    whole
}

impl CoreError {
    /// What is said of the error.
    pub open spec fn said(self) -> Seq<char> {
        match self {
            CoreError::Jsonc(message) => "invalid JSONC: "@ + message@,
            CoreError::Version(version) => "unsupported source version "@ + decimal(
                version as nat,
            ) + "; supported version is 1"@,
            CoreError::EmptyProfile => "profile name must not be empty"@,
            CoreError::ValueAndUninherit { profile, setting } => "profile '"@ + profile@
                + "' contains both a value and uninherit for '"@ + setting@ + "'"@,
            CoreError::ObsoleteUnset { profile } => "profile '"@ + profile@
                + "' uses obsolete '$unset'; run Build to regenerate the source"@,
        }
    }

    /// Says what the error is.
    pub fn message(&self) -> (text: String)
        ensures
            text@ == self.said(),
    {
        match self {
            CoreError::Jsonc(message) => followed("invalid JSONC: ", message.as_str()),
            CoreError::Version(version) => between(
                "unsupported source version ",
                decimal_text(*version as u128).as_str(),
                "; supported version is 1",
            ),
            CoreError::EmptyProfile => "profile name must not be empty".to_owned(),
            CoreError::ValueAndUninherit { profile, setting } => {
                let mut text = between(
                    "profile '",
                    profile.as_str(),
                    "' contains both a value and uninherit for '",
                );
                text.append(setting.as_str());
                text.append("'");
                text
            },
            CoreError::ObsoleteUnset { profile } => between(
                "profile '",
                profile.as_str(),
                "' uses obsolete '$unset'; run Build to regenerate the source",
            ),
        }
    }
}

impl PatchError {
    /// What is said of the error.
    pub open spec fn said(self) -> Seq<char> {
        match self {
            PatchError::Source(error) => error.said(),
            PatchError::Document(message) => message@,
        }
    }

    /// Says what the error is.
    pub fn message(&self) -> (text: String)
        ensures
            text@ == self.said(),
    {
        match self {
            PatchError::Source(error) => error.message(),
            PatchError::Document(message) => message.clone(),
        }
    }
}

impl BackendError {
    /// What is said of the error: `path` is the path of the registry that it speaks of.
    pub open spec fn said(self, path: Seq<char>) -> Seq<char> {
        match self {
            BackendError::NotFound =>
                "VS Code user-data directory was not found; pass --user-data-dir"@,
            BackendError::UnknownRegistry(_) => unknown_registry(path),
            BackendError::SharedDefault(name) => shared_default(name@),
            BackendError::UnsafePath(id) => unsafe_path(id@),
        }
    }

    /// Says what the error is.
    pub fn message(&self, path: &str) -> (text: String)
        ensures
            text@ == self.said(path@),
    {
        match self {
            BackendError::NotFound =>
                "VS Code user-data directory was not found; pass --user-data-dir".to_owned(),
            BackendError::UnknownRegistry(_) => unknown_registry_text(path),
            BackendError::SharedDefault(name) => shared_default_text(name.as_str()),
            BackendError::UnsafePath(id) => unsafe_path_text(id.as_str()),
        }
    }
}

/// What is said of a registry that cannot be read.
pub open spec fn unknown_registry(path: Seq<char>) -> Seq<char> {
    "profile registry is missing or has an unknown format at "@ + path + "; refusing to guess"@
}

fn unknown_registry_text(path: &str) -> (text: String)
    ensures
        text@ == unknown_registry(path@),
{
    between(
        "profile registry is missing or has an unknown format at ",
        path,
        "; refusing to guess",
    )
}

/// What is said of a path that leads out of VS Code's directory.
pub open spec fn unsafe_path(path: Seq<char>) -> Seq<char> {
    "profile path escapes VS Code User directory: "@ + path
}

fn unsafe_path_text(path: &str) -> (text: String)
    ensures
        text@ == unsafe_path(path@),
{
    followed("profile path escapes VS Code User directory: ", path)
}

/// What is said where a profile with the settings of Default is read or written.
pub open spec fn shared_default(name: Seq<char>) -> Seq<char> {
    "profile '"@ + name
        + "' reuses Default settings; explicit storage adoption is required"@
}

fn shared_default_text(name: &str) -> (text: String)
    ensures
        text@ == shared_default(name@),
{
    between(
        "profile '",
        name,
        "' reuses Default settings; explicit storage adoption is required",
    )
}

impl SettingsError {
    /// What is said of the error.
    pub open spec fn said(self) -> Seq<char> {
        match self {
            SettingsError::SharedDefault(name) => shared_default(name@),
            SettingsError::Invalid { profile, message } => "invalid settings JSONC for '"@
                + profile@ + "': "@ + message@,
        }
    }

    /// Says what the error is.
    pub fn message(&self) -> (text: String)
        ensures
            text@ == self.said(),
    {
        match self {
            SettingsError::SharedDefault(name) => shared_default_text(name.as_str()),
            SettingsError::Invalid { profile, message } => {
                let mut text = between("invalid settings JSONC for '", profile.as_str(), "': ");
                text.append(message.as_str());
                text
            },
        }
    }
}

impl RegistryError {
    /// What is said of the error: `path` is the path of the registry that it speaks of.
    pub open spec fn said(self, path: Seq<char>) -> Seq<char> {
        match self {
            RegistryError::UnknownRegistry => unknown_registry(path),
            RegistryError::UnknownFormat => "profile archive registry has an unknown format"@,
            RegistryError::UnsupportedVersion(version) =>
                "unsupported Strata profile archive version "@ + decimal(version as nat),
            RegistryError::NoProfiles => "profile archive registry has no profiles field"@,
            RegistryError::UnknownKind(kind) => "unknown profile archive registry kind '"@ + kind@
                + "'"@,
            RegistryError::UnsafePath(id) => unsafe_path(id@),
            RegistryError::NotAnObject => "VS Code storage registry must be an object"@,
        }
    }

    /// Says what the error is.
    pub fn message(&self, path: &str) -> (text: String)
        ensures
            text@ == self.said(path@),
    {
        match self {
            RegistryError::UnknownRegistry => unknown_registry_text(path),
            RegistryError::UnknownFormat =>
                "profile archive registry has an unknown format".to_owned(),
            RegistryError::UnsupportedVersion(version) => followed("unsupported Strata profile archive version ", decimal_text(*version as u128).as_str()),
            RegistryError::NoProfiles =>
                "profile archive registry has no profiles field".to_owned(),
            RegistryError::UnknownKind(kind) => between(
                "unknown profile archive registry kind '",
                kind.as_str(),
                "'",
            ),
            RegistryError::UnsafePath(id) => unsafe_path_text(id.as_str()),
            RegistryError::NotAnObject => "VS Code storage registry must be an object".to_owned(),
        }
    }
}

impl MappingError {
    /// What is said of the error.
    pub open spec fn said(self) -> Seq<char> {
        match self {
            MappingError::Missing(name) => "source profile '"@ + name@
                + "' does not exist in VS Code"@,
            MappingError::NotAdopted(name) => "VS Code profile '"@ + name@
                + "' is not adopted in the source; run build"@,
        }
    }

    /// Says what the error is.
    pub fn message(&self) -> (text: String)
        ensures
            text@ == self.said(),
    {
        match self {
            MappingError::Missing(name) => between(
                "source profile '",
                name.as_str(),
                "' does not exist in VS Code",
            ),
            MappingError::NotAdopted(name) => between(
                "VS Code profile '",
                name.as_str(),
                "' is not adopted in the source; run build",
            ),
        }
    }
}

impl ParamError {
    /// What is said of the error.
    pub open spec fn said(self) -> Seq<char> {
        match self {
            ParamError::Required(name) => name@ + " is required"@,
            ParamError::Missing(name) => name@ + " required"@,
            ParamError::PrefixesNotTexts => "knownSettingPrefixes must contain only strings"@,
            ParamError::IncompatibleVersion(version) => "incompatible protocol version "@
                + decimal(version as nat),
            ParamError::MethodNotFound(method) => "method not found: "@ + method@,
        }
    }

    /// Says what the error is.
    pub fn message(&self) -> (text: String)
        ensures
            text@ == self.said(),
    {
        match self {
            ParamError::Required(name) => followed(name.as_str(), " is required"),
            ParamError::Missing(name) => followed(name.as_str(), " required"),
            ParamError::PrefixesNotTexts =>
                "knownSettingPrefixes must contain only strings".to_owned(),
            ParamError::IncompatibleVersion(version) => followed("incompatible protocol version ", decimal_text(*version as u128).as_str()),
            ParamError::MethodNotFound(method) => followed("method not found: ", method.as_str()),
        }
    }
}

impl EditError {
    /// What is said of the error.
    pub open spec fn said(self) -> Seq<char> {
        match self {
            EditError::Required(name) => if name@ == "resolutions"@ {
                "resolutions are required"@
            } else {
                name@ + " is required"@
            },
            EditError::UnknownMutation => "unknown mutation method"@,
            EditError::ResolutionCount =>
                "every current conflict must have exactly one resolution"@,
            EditError::NotCurrent => "conflict is no longer current"@,
            EditError::UnknownAction(action) => "unknown conflict action '"@ + action@ + "'"@,
        }
    }

    /// Says what the error is.
    pub fn message(&self) -> (text: String)
        ensures
            text@ == self.said(),
    {
        match self {
            EditError::Required(name) => if same_text(name.as_str(), "resolutions") {
                "resolutions are required".to_owned()
            } else {
                followed(name.as_str(), " is required")
            },
            EditError::UnknownMutation => "unknown mutation method".to_owned(),
            EditError::ResolutionCount =>
                "every current conflict must have exactly one resolution".to_owned(),
            EditError::NotCurrent => "conflict is no longer current".to_owned(),
            EditError::UnknownAction(action) => between(
                "unknown conflict action '",
                action.as_str(),
                "'",
            ),
        }
    }
}

} // verus!
