//! Paths as a user writes them, with `~` and `$VARIABLE` in them.

use vstd::prelude::*;
use crate::error::SyncError;

verus! {

/// A path with nothing in it to expand: no `$` anywhere and no `~` in front.
pub open spec fn is_plain(raw: Seq<char>) -> bool {
    !raw.contains('$') && (raw.len() == 0 || raw[0] != '~')
}

/// Calls `shellexpand::full`, which puts the home directory in place of a
/// leading `~` and the values of environment variables in place of `$NAME`
/// and `${NAME}`. What comes back depends on the environment; `Err` holds the
/// name of a variable that could not be looked up. The contract states the
/// one thing that holds in every environment: a text without `$` that does
/// not start with `~` comes back as it is.
#[verifier::external_body]
fn expand(raw: &str) -> (expanded: Result<String, String>)
    ensures
        match expanded {
            Ok(text) => is_plain(raw@) ==> text@ == raw@,
            Err(_) => !is_plain(raw@),
        },
{
    match shellexpand::full(raw) {
        Ok(text) => Ok(text.into_owned()),
        Err(failure) => Err(failure.var_name),
    }
}

/// The path that an expansion stands for, or the error that it amounts to.
pub fn path_from_expansion(expanded: Result<String, String>) -> (path: Result<String, SyncError>)
    ensures
        path == match expanded {
            Ok(text) => Ok::<String, SyncError>(text),
            Err(variable) => Err((SyncError::PathResolution { variable })),
        },
{
    match expanded {
        Ok(text) => Ok(text),
        Err(variable) => Err(SyncError::PathResolution { variable }),
    }
}

/// The path that `dict_file` stands for once `~` and the variables in it are
/// expanded. A path with nothing to expand is returned as it is. The only
/// error is [`SyncError::PathResolution`], for a variable that cannot be
/// looked up.
pub fn get_hydrated_path_from_str(dict_file: &str) -> (path: Result<String, SyncError>)
    ensures
        match path {
            Ok(text) => is_plain(dict_file@) ==> text@ == dict_file@,
            Err(error) => error is PathResolution && !is_plain(dict_file@),
        },
{
    path_from_expansion(expand(dict_file))
}

} // verus!
