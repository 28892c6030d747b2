//! The auto-generated name for a persisted log file.
//!
//! The name encodes the moment the run finished: the local year, month,
//! day, hour, minute, second and millisecond, run together between a fixed
//! prefix and the `.log` suffix. Reading the clock is the one thing this
//! module trusts an outside crate for; assembling the name from the clock
//! fields is verified.

use vstd::prelude::*;

use crate::strutil::{push_decimal, push_signed_decimal, spec_decimal, spec_signed_decimal};

verus! {

/// The log-file name for the clock reading `y`-`mon`-`d` `h`:`mi`:`s`.`ms`:
/// the fields' decimal renderings run together, unpadded.
pub open spec fn spec_log_name(
    y: int,
    mon: nat,
    d: nat,
    h: nat,
    mi: nat,
    s: nat,
    ms: nat,
) -> Seq<char> {
    "check-zip_"@ + spec_signed_decimal(y) + spec_decimal(mon) + spec_decimal(d) + spec_decimal(h)
        + spec_decimal(mi) + spec_decimal(s) + spec_decimal(ms) + ".log"@
}

/// Assemble the log-file name for one clock reading.
pub fn log_name(y: i32, mon: u32, d: u32, h: u32, mi: u32, s: u32, ms: u32) -> (r: String)
    ensures
        r@ == spec_log_name(
            y as int,
            mon as nat,
            d as nat,
            h as nat,
            mi as nat,
            s as nat,
            ms as nat,
        ),
{
    let mut name = String::new();
    name.append("check-zip_");
    push_signed_decimal(&mut name, y as i64);
    push_decimal(&mut name, mon as u64);
    push_decimal(&mut name, d as u64);
    push_decimal(&mut name, h as u64);
    push_decimal(&mut name, mi as u64);
    push_decimal(&mut name, s as u64);
    push_decimal(&mut name, ms as u64);
    name.append(".log");
    proof {
        assert(name@ =~= spec_log_name(
            y as int,
            mon as nat,
            d as nat,
            h as nat,
            mi as nat,
            s as nat,
            ms as nat,
        ));
    }
    name
}

/// Relies on `chrono::Local::now` and chrono's `Datelike` / `Timelike`
/// getters for the current local time: month is 1 to 12, day 1 to 31,
/// hour below 24, minute and second below 60, and the millisecond below
/// 2000 (it exceeds 999 only across a leap second). Nothing else can be
/// promised of a clock reading. chrono's read aborts the program when
/// the system clock is set before the Unix epoch, so a post-epoch clock
/// is assumed here.
#[verifier::external_body]
fn local_clock_fields() -> (r: (i32, u32, u32, u32, u32, u32, u32))
    ensures
        1 <= r.1 <= 12,
        1 <= r.2 <= 31,
        r.3 < 24,
        r.4 < 60,
        r.5 < 60,
        r.6 < 2000,
{
    let now = chrono::Local::now();
    (
        chrono::Datelike::year(&now),
        chrono::Datelike::month(&now),
        chrono::Datelike::day(&now),
        chrono::Timelike::hour(&now),
        chrono::Timelike::minute(&now),
        chrono::Timelike::second(&now),
        now.timestamp_subsec_millis(),
    )
}

/// The log-file name for this moment: the fixed prefix, the clock fields,
/// and the `.log` suffix. The middle depends on the clock, so only the
/// frame is promised.
pub fn default_log_name() -> (r: String)
    ensures
        r@.len() >= "check-zip_"@.len() + ".log"@.len(),
        r@.take("check-zip_"@.len() as int) == "check-zip_"@,
        r@.skip(r@.len() - ".log"@.len()) == ".log"@,
{
    let fields = local_clock_fields();
    let r = log_name(fields.0, fields.1, fields.2, fields.3, fields.4, fields.5, fields.6);
    proof {
        let mid = spec_signed_decimal(fields.0 as int) + spec_decimal(fields.1 as nat)
            + spec_decimal(fields.2 as nat) + spec_decimal(fields.3 as nat) + spec_decimal(
            fields.4 as nat,
        ) + spec_decimal(fields.5 as nat) + spec_decimal(fields.6 as nat);
        assert(r@ =~= "check-zip_"@ + mid + ".log"@);
        assert(r@.take("check-zip_"@.len() as int) =~= "check-zip_"@);
        assert(r@.skip(r@.len() - ".log"@.len()) =~= ".log"@);
    }
    r
}

} // verus!
