//! Laws of messages: what is said of each error names what the error holds.

use vstd::prelude::*;
use crate::backend::{BackendError, SettingsError};
use crate::decimal::decimal;
use crate::edits::EditError;
use crate::patch::PatchError;
use crate::protocol::ParamError;
use crate::registry::RegistryError;
use crate::service::MappingError;
use crate::source::CoreError;

verus! {

/// What is said of a source names what is wrong with it.
pub proof fn law_saying_what_is_wrong_with_a_source(error: &CoreError, text: String)
    requires
        call_ensures(CoreError::message, (error,), text),
    ensures
        error matches CoreError::Jsonc(message) ==> text@ == "invalid JSONC: "@ + message@,
        error matches CoreError::Version(version) ==> text@ == "unsupported source version "@
            + decimal(*version as nat) + "; supported version is 1"@,
        error is EmptyProfile ==> text@ == "profile name must not be empty"@,
        error matches CoreError::ValueAndUninherit { profile, setting } ==> text@ == "profile '"@
            + profile@ + "' contains both a value and uninherit for '"@ + setting@ + "'"@,
        error matches CoreError::ObsoleteUnset { profile } ==> text@ == "profile '"@ + profile@
            + "' uses obsolete '$unset'; run Build to regenerate the source"@,
{
}

/// What is said where a source cannot be written into a text is what is said of the source, or of
/// the text.
pub proof fn law_saying_what_is_wrong_with_a_text(
    error: &PatchError,
    text: String,
    inner: String,
)
    requires
        call_ensures(PatchError::message, (error,), text),
        error is Source ==> call_ensures(CoreError::message, (&error->Source_0,), inner),
    ensures
        error is Source ==> text@ == inner@,
        error is Document ==> text@ == error->Document_0@,
{
}

/// What is said of VS Code's data names the registry, the profile or the path.
pub proof fn law_saying_what_is_wrong_with_data(error: &BackendError, path: &str, text: String)
    requires
        call_ensures(BackendError::message, (error, path), text),
    ensures
        error is NotFound ==> text@
            == "VS Code user-data directory was not found; pass --user-data-dir"@,
        error is UnknownRegistry ==> text@
            == "profile registry is missing or has an unknown format at "@ + path@
            + "; refusing to guess"@,
        error matches BackendError::SharedDefault(name) ==> text@ == "profile '"@ + name@
            + "' reuses Default settings; explicit storage adoption is required"@,
        error matches BackendError::UnsafePath(id) ==> text@
            == "profile path escapes VS Code User directory: "@ + id@,
{
}

/// What is said of settings names the profile, and what the reader said.
pub proof fn law_saying_what_is_wrong_with_settings(error: &SettingsError, text: String)
    requires
        call_ensures(SettingsError::message, (error,), text),
    ensures
        error matches SettingsError::SharedDefault(name) ==> text@ == "profile '"@ + name@
            + "' reuses Default settings; explicit storage adoption is required"@,
        error matches SettingsError::Invalid { profile, message } ==> text@
            == "invalid settings JSONC for '"@ + profile@ + "': "@ + message@,
{
}

/// What is said of a registry names its file, its version, its kind or the path.
pub proof fn law_saying_what_is_wrong_with_a_registry(
    error: &RegistryError,
    path: &str,
    text: String,
)
    requires
        call_ensures(RegistryError::message, (error, path), text),
    ensures
        error is UnknownRegistry ==> text@
            == "profile registry is missing or has an unknown format at "@ + path@
            + "; refusing to guess"@,
        error is UnknownFormat ==> text@ == "profile archive registry has an unknown format"@,
        error matches RegistryError::UnsupportedVersion(version) ==> text@
            == "unsupported Strata profile archive version "@ + decimal(*version as nat),
        error is NoProfiles ==> text@ == "profile archive registry has no profiles field"@,
        error matches RegistryError::UnknownKind(kind) ==> text@
            == "unknown profile archive registry kind '"@ + kind@ + "'"@,
        error matches RegistryError::UnsafePath(id) ==> text@
            == "profile path escapes VS Code User directory: "@ + id@,
        error is NotAnObject ==> text@ == "VS Code storage registry must be an object"@,
{
}

/// What is said where the profiles of both sides are not the same names the profile.
pub proof fn law_saying_which_profile_is_lacking(error: &MappingError, text: String)
    requires
        call_ensures(MappingError::message, (error,), text),
    ensures
        error matches MappingError::Missing(name) ==> text@ == "source profile '"@ + name@
            + "' does not exist in VS Code"@,
        error matches MappingError::NotAdopted(name) ==> text@ == "VS Code profile '"@ + name@
            + "' is not adopted in the source; run build"@,
{
}

/// What is said of a request names the parameter, the version or the method.
pub proof fn law_saying_what_is_wrong_with_a_request(error: &ParamError, text: String)
    requires
        call_ensures(ParamError::message, (error,), text),
    ensures
        error matches ParamError::Required(name) ==> text@ == name@ + " is required"@,
        error matches ParamError::Missing(name) ==> text@ == name@ + " required"@,
        error is PrefixesNotTexts ==> text@ == "knownSettingPrefixes must contain only strings"@,
        error matches ParamError::IncompatibleVersion(version) ==> text@
            == "incompatible protocol version "@ + decimal(*version as nat),
        error matches ParamError::MethodNotFound(method) ==> text@ == "method not found: "@
            + method@,
{
}

/// What is said of an edit names the parameter or the action.
pub proof fn law_saying_what_is_wrong_with_an_edit(error: &EditError, text: String)
    requires
        call_ensures(EditError::message, (error,), text),
    ensures
        error matches EditError::Required(name) ==> text@ == if name@ == "resolutions"@ {
            "resolutions are required"@
        } else {
            name@ + " is required"@
        },
        error is UnknownMutation ==> text@ == "unknown mutation method"@,
        error is ResolutionCount ==> text@
            == "every current conflict must have exactly one resolution"@,
        error is NotCurrent ==> text@ == "conflict is no longer current"@,
        error matches EditError::UnknownAction(action) ==> text@ == "unknown conflict action '"@
            + action@ + "'"@,
{
}

} // verus!
