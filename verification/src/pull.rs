//! Classification of one repository-update attempt.
//!
//! The enclosing program runs the update command with prompts disabled and
//! hands back three plain facts: did it succeed, what exit code did it
//! report, and what did it write to stderr. The decision of how to treat
//! the attempt — updated, already up to date, skipped because it would
//! need credentials, or failed — is made and proved here, by matching the
//! case-folded stderr text against the usual wordings.

use vstd::prelude::*;

use crate::strutil::{contains_lowered, has_sub, lower_seq};

verus! {

/// How one update attempt is reported.
pub enum PullStatus {
    /// The command succeeded and pulled changes.
    Updated,
    /// The command failed only because the repository is already current.
    UpToDate,
    /// The command failed for want of credentials; the item is skipped.
    AuthRequired,
    /// Any other failure.
    Error,
}

/// The case-folded stderr text of a command that failed for want of
/// credentials.
pub open spec fn is_auth_text(s: Seq<char>) -> bool {
    ||| has_sub(s, "authentication failed"@)
    ||| has_sub(s, "could not read username"@)
    ||| has_sub(s, "could not read password"@)
    ||| has_sub(s, "terminal prompts disabled"@)
    ||| has_sub(s, "credentials"@)
    ||| has_sub(s, "access denied"@)
    ||| has_sub(s, "permission denied"@)
}

/// The case-folded stderr text of a repository that is already current.
pub open spec fn is_up_to_date_text(s: Seq<char>) -> bool {
    has_sub(s, "already up to date"@) || has_sub(s, "already up-to-date"@)
}

/// The status an attempt with these facts is classified as: success means
/// updated; otherwise authentication trouble (by text, or by the exit
/// code the command reserves for it) means skipped, an already-current
/// message means up to date, and anything else is an error. An unknown
/// exit code counts as no exit code at all.
pub open spec fn spec_pull_status(success: bool, exit_code: Option<i32>, stderr: Seq<char>)
    -> PullStatus {
    if success {
        PullStatus::Updated
    } else if is_auth_text(lower_seq(stderr)) || exit_code == Some(128i32) {
        PullStatus::AuthRequired
    } else if is_up_to_date_text(lower_seq(stderr)) {
        PullStatus::UpToDate
    } else {
        PullStatus::Error
    }
}

/// Classify one update attempt from its success flag, exit code and
/// stderr text.
pub fn classify_pull(success: bool, exit_code: Option<i32>, stderr: &str) -> (r: PullStatus)
    ensures
        r == spec_pull_status(success, exit_code, stderr@),
{
    if success {
        return PullStatus::Updated;
    }
    let code_is_auth = match exit_code {
        Option::Some(c) => c == 128,
        Option::None => false,
    };
    let auth = contains_lowered(stderr, "authentication failed") || contains_lowered(
        stderr,
        "could not read username",
    ) || contains_lowered(stderr, "could not read password") || contains_lowered(
        stderr,
        "terminal prompts disabled",
    ) || contains_lowered(stderr, "credentials") || contains_lowered(stderr, "access denied")
        || contains_lowered(stderr, "permission denied");
    if auth || code_is_auth {
        return PullStatus::AuthRequired;
    }
    if contains_lowered(stderr, "already up to date") || contains_lowered(
        stderr,
        "already up-to-date",
    ) {
        return PullStatus::UpToDate;
    }
    PullStatus::Error
}

} // verus!
