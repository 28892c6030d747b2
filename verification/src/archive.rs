//! Classification of one archive from plain per-entry facts.
//!
//! The enclosing program opens the archive and reads it entry by entry;
//! what reaches this module is, per entry, whether it is encrypted and the
//! message of the error its read produced, if any. The decision — intact,
//! password-protected, or corrupted with which message — is made and proved
//! here. Password protection is a first-class outcome a reader reports via
//! the `encrypted` flag; the error-text match is kept as well for readers
//! that only surface the failure as text.

use vstd::prelude::*;

use crate::outcome::Outcome;
use crate::strutil::{contains_str, has_sub, push_decimal, spec_decimal};

verus! {

/// One archive entry as its reader saw it: was it encrypted, and did
/// reading it fail (with what message).
pub struct EntrySummary {
    /// The entry is marked encrypted (password-protected).
    pub encrypted: bool,
    /// The message of the error reading the entry produced, if any.
    pub error: Option<String>,
}

/// An entry that decides the archive's outcome: encrypted, or unreadable.
pub open spec fn entry_significant(e: EntrySummary) -> bool {
    e.encrypted || e.error is Some
}

/// A significant entry that means password protection rather than
/// corruption: marked encrypted, or failed with the password error text.
pub open spec fn entry_password(e: EntrySummary) -> bool {
    e.encrypted || (e.error matches Some(m) && has_sub(
        m@,
        "Password required to decrypt file"@,
    ))
}

/// The index of the first significant entry, or -1 when every entry is
/// fine.
pub open spec fn first_significant(es: Seq<EntrySummary>) -> int
    decreases es.len(),
{
    if es.len() == 0 {
        -1
    } else if entry_significant(es.first()) {
        0
    } else {
        let r = first_significant(es.drop_first());
        if r < 0 {
            -1
        } else {
            r + 1
        }
    }
}

/// With no significant entry anywhere, `first_significant` reports none.
proof fn lemma_first_significant_none(es: Seq<EntrySummary>)
    requires
        forall|j: int| 0 <= j < es.len() ==> !entry_significant(#[trigger] es[j]),
    ensures
        first_significant(es) == -1,
    decreases es.len(),
{
    if es.len() > 0 {
        assert(forall|j: int|
            0 <= j < es.drop_first().len() ==> !entry_significant(
                #[trigger] es.drop_first()[j],
            ));
        lemma_first_significant_none(es.drop_first());
    }
}

/// A significant entry preceded only by insignificant ones is the first.
proof fn lemma_first_significant_at(es: Seq<EntrySummary>, i: int)
    requires
        0 <= i < es.len(),
        forall|j: int| 0 <= j < i ==> !entry_significant(#[trigger] es[j]),
        entry_significant(es[i]),
    ensures
        first_significant(es) == i,
    decreases es.len(),
{
    if i == 0 {
    } else {
        assert(forall|j: int|
            0 <= j < i - 1 ==> !entry_significant(#[trigger] es.drop_first()[j]));
        assert(es.drop_first()[i - 1] == es[i]);
        lemma_first_significant_at(es.drop_first(), i - 1);
    }
}

/// The skip reason this crate reports for password-protected content.
fn password_reason() -> (r: String)
    ensures
        r@ == "password protected"@,
{
    let mut s = String::new();
    s.append("password protected");
    proof {
        assert(s@ =~= "password protected"@);
    }
    s
}

/// The outcome for an archive that could not be opened at all.
pub fn open_failure(detail: String) -> (r: Outcome)
    ensures
        r matches Outcome::Failed(m) && m@ == "Cannot open file: "@ + detail@,
{
    let mut s = String::new();
    s.append("Cannot open file: ");
    s.append(detail.as_str());
    proof {
        assert(s@ =~= "Cannot open file: "@ + detail@);
    }
    Outcome::Failed(s)
}

/// The outcome for a file that is not an archive at all.
pub fn format_failure(detail: String) -> (r: Outcome)
    ensures
        r matches Outcome::Failed(m) && m@ == "Invalid zip format: "@ + detail@,
{
    let mut s = String::new();
    s.append("Invalid zip format: ");
    s.append(detail.as_str());
    proof {
        assert(s@ =~= "Invalid zip format: "@ + detail@);
    }
    Outcome::Failed(s)
}

/// Classify an opened archive from its entries, scanned in order. The
/// archive is intact exactly when no entry is significant; otherwise the
/// first significant entry decides: password protection is skipped, and
/// any other read error makes the archive corrupted, with a message
/// naming the entry's index and the reader's error text.
pub fn classify_entries(entries: &Vec<EntrySummary>) -> (r: Outcome)
    ensures
        (first_significant(entries@) == -1) <==> r is Success,
        first_significant(entries@) >= 0 && entry_password(
            entries@[first_significant(entries@)],
        ) ==> (r matches Outcome::Skipped(m) && m@ == "password protected"@),
        first_significant(entries@) >= 0 && !entry_password(
            entries@[first_significant(entries@)],
        ) ==> (entries@[first_significant(entries@)].error matches Some(em) && (r
            matches Outcome::Failed(fm) && fm@ == "Cannot read file at index "@ + spec_decimal(
            first_significant(entries@) as nat,
        ) + ": "@ + em@)),
{
    let mut i: usize = 0;
    while i < entries.len()
        invariant
            i <= entries@.len(),
            forall|j: int| 0 <= j < i ==> !entry_significant(#[trigger] entries@[j]),
        decreases entries@.len() - i,
    {
        let e = &entries[i];
        if e.encrypted {
            proof {
                lemma_first_significant_at(entries@, i as int);
            }
            return Outcome::Skipped(password_reason());
        }
        match &e.error {
            Option::Some(msg) => {
                proof {
                    lemma_first_significant_at(entries@, i as int);
                }
                if contains_str(msg.as_str(), "Password required to decrypt file") {
                    return Outcome::Skipped(password_reason());
                }
                let mut s = String::new();
                s.append("Cannot read file at index ");
                push_decimal(&mut s, i as u64);
                s.append(": ");
                s.append(msg.as_str());
                proof {
                    assert(s@ =~= "Cannot read file at index "@ + spec_decimal(i as nat) + ": "@
                        + msg@);
                }
                return Outcome::Failed(s);
            },
            Option::None => {},
        }
        i += 1;
    }
    proof {
        lemma_first_significant_none(entries@);
    }
    Outcome::Success
}

} // verus!
