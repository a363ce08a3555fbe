//! The results collector: an append-only list of per-check outcomes with
//! a running tally, nesting subproject results, and the duration text
//! helpers.

use vstd::prelude::*;

use crate::text::dec_digits;
use crate::text::digit_char;
use crate::text::u64_to_string;

verus! {

/// The tally of one run.
pub struct RunSummary {
    /// How many checks were seen.
    pub total: usize,
    /// How many passed.
    pub passed: usize,
    /// How many failed.
    pub failed: usize,
    /// How many were skipped as fresh.
    pub skipped: usize,
}

/// How one check ended.
pub enum RunOutcome {
    /// The command exited zero.
    Pass { duration_ms: u64, cached: bool },
    /// The command failed or could not run.
    Fail { duration_ms: u64, exit_code: Option<i32>, output: Option<String> },
    /// The check was fresh and did not run.
    Skipped,
}

/// One line of the results tree.
pub enum RunItem {
    /// A check and its outcome.
    Check { name: String, outcome: RunOutcome },
    /// A subproject with its own nested results.
    Subproject { name: String, path: String, results: RunResults },
}

/// Collected results of one run.
pub struct RunResults {
    /// The outcomes, in completion order.
    pub results: Vec<RunItem>,
    /// How many checks passed.
    pub passed: usize,
    /// How many checks failed.
    pub failed: usize,
    /// How many checks were skipped.
    pub skipped: usize,
}

impl RunResults {
    /// An empty collection.
    pub fn new() -> (r: RunResults)
        ensures
            r.results@.len() == 0,
            r.passed == 0,
            r.failed == 0,
            r.skipped == 0,
    {
        RunResults { results: Vec::new(), passed: 0, failed: 0, skipped: 0 }
    }

    /// Record a passing check.
    pub fn add_pass(&mut self, name: &str, duration_ms: u64, cached: bool)
        requires
            old(self).passed < usize::MAX,
        ensures
            final(self).passed == old(self).passed + 1,
            final(self).failed == old(self).failed,
            final(self).skipped == old(self).skipped,
            final(self).results@.len() == old(self).results@.len() + 1,
            final(self).results@.last() matches RunItem::Check { name: n, outcome } && n@ == name@
                && (outcome matches RunOutcome::Pass { duration_ms: d, cached: c } && d
                == duration_ms && c == cached),
            final(self).results@.take(old(self).results@.len() as int) == old(self).results@,
    {
        let mut owned = String::new();
        owned.append(name);
        self.results.push(
            RunItem::Check {
                name: owned,
                outcome: RunOutcome::Pass { duration_ms, cached },
            },
        );
        self.passed = self.passed + 1;
        proof {
            assert(self.results@.take(old(self).results@.len() as int) =~= old(self).results@);
        }
    }

    /// Record a failing check.
    pub fn add_fail(
        &mut self,
        name: &str,
        duration_ms: u64,
        exit_code: Option<i32>,
        output: Option<String>,
    )
        requires
            old(self).failed < usize::MAX,
        ensures
            final(self).failed == old(self).failed + 1,
            final(self).passed == old(self).passed,
            final(self).skipped == old(self).skipped,
            final(self).results@.len() == old(self).results@.len() + 1,
            final(self).results@.last() matches RunItem::Check { name: n, outcome } && n@ == name@
                && (outcome matches RunOutcome::Fail { duration_ms: d, .. } && d == duration_ms),
            final(self).results@.take(old(self).results@.len() as int) == old(self).results@,
    {
        let mut owned = String::new();
        owned.append(name);
        self.results.push(
            RunItem::Check {
                name: owned,
                outcome: RunOutcome::Fail { duration_ms, exit_code, output },
            },
        );
        self.failed = self.failed + 1;
        proof {
            assert(self.results@.take(old(self).results@.len() as int) =~= old(self).results@);
        }
    }

    /// Record a skipped check.
    pub fn add_skipped(&mut self, name: &str)
        requires
            old(self).skipped < usize::MAX,
        ensures
            final(self).skipped == old(self).skipped + 1,
            final(self).passed == old(self).passed,
            final(self).failed == old(self).failed,
            final(self).results@.len() == old(self).results@.len() + 1,
            final(self).results@.last() matches RunItem::Check { name: n, outcome } && n@ == name@
                && outcome is Skipped,
            final(self).results@.take(old(self).results@.len() as int) == old(self).results@,
    {
        let mut owned = String::new();
        owned.append(name);
        self.results.push(RunItem::Check { name: owned, outcome: RunOutcome::Skipped });
        self.skipped = self.skipped + 1;
        proof {
            assert(self.results@.take(old(self).results@.len() as int) =~= old(self).results@);
        }
    }

    /// Fold a subproject's results in: its counts join the tally and its
    /// tree nests as one item.
    pub fn add_subproject(&mut self, name: &str, path: &str, sub_results: RunResults)
        requires
            old(self).passed + sub_results.passed <= usize::MAX,
            old(self).failed + sub_results.failed <= usize::MAX,
            old(self).skipped + sub_results.skipped <= usize::MAX,
        ensures
            final(self).passed == old(self).passed + sub_results.passed,
            final(self).failed == old(self).failed + sub_results.failed,
            final(self).skipped == old(self).skipped + sub_results.skipped,
            final(self).results@.len() == old(self).results@.len() + 1,
            final(self).results@.last() matches RunItem::Subproject { name: n, path: p, results }
                && n@ == name@ && p@ == path@ && results == sub_results,
            final(self).results@.take(old(self).results@.len() as int) == old(self).results@,
    {
        self.passed = self.passed + sub_results.passed;
        self.failed = self.failed + sub_results.failed;
        self.skipped = self.skipped + sub_results.skipped;
        let mut owned_name = String::new();
        owned_name.append(name);
        let mut owned_path = String::new();
        owned_path.append(path);
        self.results.push(
            RunItem::Subproject { name: owned_name, path: owned_path, results: sub_results },
        );
        proof {
            assert(self.results@.take(old(self).results@.len() as int) =~= old(self).results@);
        }
    }

    /// The tally as a summary.
    pub fn to_summary(&self) -> (r: RunSummary)
        requires
            self.passed + self.failed + self.skipped <= usize::MAX,
        ensures
            r.total == self.passed + self.failed + self.skipped,
            r.passed == self.passed,
            r.failed == self.failed,
            r.skipped == self.skipped,
    {
        RunSummary {
            total: self.passed + self.failed + self.skipped,
            passed: self.passed,
            failed: self.failed,
            skipped: self.skipped,
        }
    }
}

/// The text of a duration: milliseconds below one second, seconds with one
/// decimal (rounded half up) below one minute, minutes and seconds above.
pub open spec fn duration_text(ms: int) -> Seq<char> {
    if ms < 1000 {
        dec_digits(ms) + ("ms")@
    } else if ms < 60000 {
        let tenths = (ms + 50) / 100;
        dec_digits(tenths / 10) + seq!['.'] + seq![digit_char(tenths % 10)] + ("s")@
    } else {
        dec_digits(ms / 60000) + ("m")@ + dec_digits((ms % 60000) / 1000) + ("s")@
    }
}

/// Format a duration for human display.
pub fn format_duration(ms: u64) -> (r: String)
    ensures
        r@ == duration_text(ms as int),
{
    if ms < 1000 {
        let mut r = u64_to_string(ms);
        r.append("ms");
        r
    } else if ms < 60000 {
        let tenths: u64 = (ms + 50) / 100;
        let mut r = u64_to_string(tenths / 10);
        r.append(".");
        let d: u8 = (tenths % 10) as u8;
        let c: char = (48 + d) as char;
        let mut dv: Vec<char> = Vec::new();
        dv.push(c);
        let digit = crate::text::chars_to_string(&dv);
        r.append(digit.as_str());
        r.append("s");
        proof {
            reveal_strlit(".");
            assert(c == digit_char((tenths % 10) as int));
            assert(dv@ =~= seq![digit_char((tenths % 10) as int)]);
        }
        r
    } else {
        let mut r = u64_to_string(ms / 60000);
        r.append("m");
        let secs = u64_to_string((ms % 60000) / 1000);
        r.append(secs.as_str());
        r.append("s");
        r
    }
}

/// The duration text in parentheses.
pub fn format_duration_display(current: u64) -> (r: String)
    ensures
        r@ == ("(")@ + duration_text(current as int) + (")")@,
{
    let mut r = String::new();
    r.append("(");
    let d = format_duration(current);
    r.append(d.as_str());
    r.append(")");
    r
}

} // verus!
