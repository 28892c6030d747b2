//! The append-only result log: one line per processed item, plus a summary
//! block appended once after the pool joins. The buffer itself never touches
//! storage; the enclosing program persists the concatenated contents once,
//! and a failure to do so leaves the buffer and the counters untouched.

use vstd::prelude::*;

use crate::counters::CheckResult;
use crate::outcome::Outcome;
use crate::strutil::spec_decimal;

verus! {

/// The log line for one processed item: a tag for the outcome kind, the
/// item's display path, and for failures the message, ending in a newline.
pub open spec fn spec_line(path: Seq<char>, o: Outcome) -> Seq<char> {
    match o {
        Outcome::Success => "[VALID] "@ + path + "\n"@,
        Outcome::Skipped(_) => "[PASSWORD PROTECTED] "@ + path + "\n"@,
        Outcome::Failed(msg) => "[CORRUPTED] "@ + path + " - "@ + msg@ + "\n"@,
        Outcome::Unsupported => "[UNSUPPORTED] "@ + path + "\n"@,
    }
}

/// Render the log line for one processed item.
pub fn render_line(path: &str, o: &Outcome) -> (r: String)
    ensures
        r@ == spec_line(path@, *o),
{
    let mut s = String::new();
    match o {
        Outcome::Success => {
            s.append("[VALID] ");
            s.append(path);
            s.append("\n");
        },
        Outcome::Skipped(_) => {
            s.append("[PASSWORD PROTECTED] ");
            s.append(path);
            s.append("\n");
        },
        Outcome::Failed(msg) => {
            s.append("[CORRUPTED] ");
            s.append(path);
            s.append(" - ");
            s.append(msg.as_str());
            s.append("\n");
        },
        Outcome::Unsupported => {
            s.append("[UNSUPPORTED] ");
            s.append(path);
            s.append("\n");
        },
    }
    proof {
        assert(s@ =~= spec_line(path@, *o));
    }
    s
}

/// The six lines of the trailing summary block, in order: a rule, a
/// heading, and one line per counter.
pub open spec fn spec_summary(r: CheckResult) -> Seq<Seq<char>> {
    seq![
        "========================================================\n"@,
        "Validation Complete - Summary Statistics:\n"@,
        "   Total files checked: "@ + spec_decimal(r.total as nat) + "\n"@,
        "Intact files: "@ + spec_decimal(r.valid as nat) + "\n"@,
        "Corrupted files: "@ + spec_decimal(r.corrupted as nat) + "\n"@,
        "Skipped files (password protected or unsupported): "@ + spec_decimal(r.skipped as nat)
            + "\n"@,
    ]
}

/// Thread-shared append-only line buffer. The view is the sequence of
/// line contents in append order; order across workers is whatever order
/// the appends were serialized in.
pub struct LogBuffer {
    lines: Vec<String>,
}

impl View for LogBuffer {
    type V = Seq<Seq<char>>;

    /// The buffered lines, oldest first.
    closed spec fn view(&self) -> Seq<Seq<char>> {
        Seq::new(self.lines@.len(), |i: int| self.lines@[i]@)
    }
}

impl LogBuffer {
    /// An empty buffer.
    pub fn new() -> (r: LogBuffer)
        ensures
            r@ == Seq::<Seq<char>>::empty(),
    {
        let r = LogBuffer { lines: Vec::new() };
        proof {
            assert(r@ =~= Seq::<Seq<char>>::empty());
        }
        r
    }

    /// Number of buffered lines.
    pub fn len(&self) -> (n: usize)
        ensures
            n == self@.len(),
    {
        self.lines.len()
    }

    /// Append one line; no earlier line is lost or changed.
    pub fn append(&mut self, line: String)
        ensures
            final(self)@ == old(self)@.push(line@),
    {
        let ghost l = line@;
        self.lines.push(line);
        proof {
            assert(self@ =~= old(self)@.push(l));
        }
    }

    /// Append the summary block for `r`, after all items are processed.
    pub fn append_summary(&mut self, r: &CheckResult)
        ensures
            final(self)@ == old(self)@ + spec_summary(*r),
    {
        self.append(rule_line());
        self.append(heading_line());
        let mut total_line = String::new();
        total_line.append("   Total files checked: ");
        crate::strutil::push_decimal(&mut total_line, r.total as u64);
        total_line.append("\n");
        self.append(total_line);
        let mut valid_line = String::new();
        valid_line.append("Intact files: ");
        crate::strutil::push_decimal(&mut valid_line, r.valid as u64);
        valid_line.append("\n");
        self.append(valid_line);
        let mut corrupted_line = String::new();
        corrupted_line.append("Corrupted files: ");
        crate::strutil::push_decimal(&mut corrupted_line, r.corrupted as u64);
        corrupted_line.append("\n");
        self.append(corrupted_line);
        let mut skipped_line = String::new();
        skipped_line.append("Skipped files (password protected or unsupported): ");
        crate::strutil::push_decimal(&mut skipped_line, r.skipped as u64);
        skipped_line.append("\n");
        self.append(skipped_line);
        proof {
            assert(self@ =~= old(self)@ + spec_summary(*r));
        }
    }

    /// Read one buffered line.
    pub fn line_at(&self, i: usize) -> (r: &String)
        requires
            i < self@.len(),
        ensures
            r@ == self@[i as int],
    {
        &self.lines[i]
    }

    /// The concatenation of all buffered lines, for one-shot persistence.
    pub fn concatenated(&self) -> (r: String)
        ensures
            r@ == spec_concat(self@),
    {
        let mut s = String::new();
        let mut i: usize = 0;
        proof {
            assert(s@ =~= spec_concat(self@.take(0)));
        }
        while i < self.lines.len()
            invariant
                i <= self.lines@.len(),
                self@.len() == self.lines@.len(),
                forall|j: int| 0 <= j < self.lines@.len() ==> self@[j] == self.lines@[j]@,
                s@ == spec_concat(self@.take(i as int)),
            decreases self.lines@.len() - i,
    {
            s.append(self.lines[i].as_str());
            proof {
                assert(self@.take(i + 1).drop_last() =~= self@.take(i as int));
                assert(s@ =~= spec_concat(self@.take(i + 1)));
            }
            i += 1;
        }
        proof {
            assert(self@.take(self@.len() as int) =~= self@);
        }
        s
    }
}

/// The separator rule above the summary.
fn rule_line() -> (r: String)
    ensures
        r@ == "========================================================\n"@,
{
    let mut s = String::new();
    s.append("========================================================\n");
    proof {
        assert(s@ =~= "========================================================\n"@);
    }
    s
}

/// The summary heading.
fn heading_line() -> (r: String)
    ensures
        r@ == "Validation Complete - Summary Statistics:\n"@,
{
    let mut s = String::new();
    s.append("Validation Complete - Summary Statistics:\n");
    proof {
        assert(s@ =~= "Validation Complete - Summary Statistics:\n"@);
    }
    s
}

/// The concatenation of a sequence of lines.
pub open spec fn spec_concat(lines: Seq<Seq<char>>) -> Seq<char>
    decreases lines.len(),
{
    if lines.len() == 0 {
        Seq::empty()
    } else {
        spec_concat(lines.drop_last()) + lines.last()
    }
}

} // verus!
