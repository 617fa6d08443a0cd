//! Scoring, grading and report rendering (text and JSON).

use vstd::prelude::*;
use vstd::utf8::*;
use crate::duration::Duration;
use crate::json::{esc, esc_spec};
use crate::mutant::{Mutant, MutantV, excerpt_of, location_of};
use crate::runner::{Outcome, label_of, outcomes_of};
use crate::text::{dec, push_dec, push_str, str_eq};
use crate::VERSION;

verus! {

/// Aggregate counts for a finished run.
#[derive(Debug, Clone, Copy, PartialEq, Eq, Structural)]
pub struct Tally {
    pub total: usize,
    pub killed: usize,
    pub survived: usize,
    pub timeout: usize,
    pub error: usize,
}

/// An empty tally.
pub open spec fn empty_tally() -> Tally {
    Tally { total: 0, killed: 0, survived: 0, timeout: 0, error: 0 }
}

/// `t` with one more `outcome` counted.
pub open spec fn tally_add(t: Tally, outcome: Outcome) -> Tally {
    let t1 = Tally { total: (t.total + 1) as usize, ..t };
    match outcome {
        Outcome::Killed => Tally { killed: (t.killed + 1) as usize, ..t1 },
        Outcome::Survived => Tally { survived: (t.survived + 1) as usize, ..t1 },
        Outcome::Timeout => Tally { timeout: (t.timeout + 1) as usize, ..t1 },
        Outcome::Error => Tally { error: (t.error + 1) as usize, ..t1 },
    }
}

/// Can `outcome` be counted into `t` without a counter overflowing?
pub open spec fn can_count(t: Tally, outcome: Outcome) -> bool {
    &&& t.total < usize::MAX
    &&& match outcome {
        Outcome::Killed => t.killed < usize::MAX,
        Outcome::Survived => t.survived < usize::MAX,
        Outcome::Timeout => t.timeout < usize::MAX,
        Outcome::Error => t.error < usize::MAX,
    }
}

/// Number of entries of `outs` equal to `o`.
pub open spec fn occurrences(outs: Seq<Outcome>, o: Outcome) -> nat
    decreases outs.len(),
{
    if outs.len() == 0 {
        0
    } else {
        occurrences(outs.drop_last(), o) + if outs.last() == o { 1nat } else { 0nat }
    }
}

/// The tally of a sequence of outcomes, counted in order from empty.
pub open spec fn tally_of(outs: Seq<Outcome>) -> Tally
    decreases outs.len(),
{
    if outs.len() == 0 {
        empty_tally()
    } else {
        tally_add(tally_of(outs.drop_last()), outs.last())
    }
}

/// Every outcome lands in exactly one bucket.
pub open spec fn balanced(t: Tally) -> bool {
    t.total == t.killed + t.survived + t.timeout + t.error
}

/// The letter grade for `detected` detections out of `total` mutants:
/// the score `100 * detected / total` (100 for an empty run) against the
/// thresholds 100, 90, 80, 70 and 60, each inclusive.
pub open spec fn grade_for(detected: nat, total: nat) -> Seq<char> {
    if detected >= total {
        "A+"@
    } else if 10 * detected >= 9 * total {
        "A"@
    } else if 10 * detected >= 8 * total {
        "B"@
    } else if 10 * detected >= 7 * total {
        "C"@
    } else if 10 * detected >= 6 * total {
        "D"@
    } else {
        "F"@
    }
}

/// Grade of a tally: timeouts count as detections, errors against.
pub open spec fn tally_grade(t: Tally) -> Seq<char> {
    grade_for((t.killed + t.timeout) as nat, t.total as nat)
}

impl Default for Tally {
    fn default() -> (t: Tally)
        ensures
            t == empty_tally(),
    {
        Tally { total: 0, killed: 0, survived: 0, timeout: 0, error: 0 }
    }
}

impl Tally {
    /// Count one more outcome.
    pub fn count(&mut self, outcome: Outcome)
        requires
            can_count(*old(self), outcome),
        ensures
            *final(self) == tally_add(*old(self), outcome),
    {
        self.total += 1;
        match outcome {
            Outcome::Killed => self.killed += 1,
            Outcome::Survived => self.survived += 1,
            Outcome::Timeout => self.timeout += 1,
            Outcome::Error => self.error += 1,
        }
    }

    /// Letter grade for the mutation score `100 * (killed + timeout) / total`
    /// (100 when nothing was run): `A+` at 100, then `A`, `B`, `C`, `D` from
    /// 90, 80, 70 and 60 (inclusive), `F` below. Decided on the integer
    /// counts, so the boundaries are exact.
    pub fn grade(&self) -> (g: &'static str)
        ensures
            g@ == tally_grade(*self),
    {
        let detected: u128 = self.killed as u128 + self.timeout as u128;
        let total: u128 = self.total as u128;
        if detected >= total {
            "A+"
        } else if 10 * detected >= 9 * total {
            "A"
        } else if 10 * detected >= 8 * total {
            "B"
        } else if 10 * detected >= 7 * total {
            "C"
        } else if 10 * detected >= 6 * total {
            "D"
        } else {
            "F"
        }
    }
}

/// Counting an outcome into a balanced tally keeps it balanced, and adds
/// exactly one to the total and to the outcome's own bucket.
pub proof fn lemma_count_keeps_balance(t: Tally, outcome: Outcome)
    requires
        balanced(t),
        can_count(t, outcome),
    ensures
        balanced(tally_add(t, outcome)),
        tally_add(t, outcome).total == t.total + 1,
{
}

/// The tally of any sequence of outcomes is balanced, its total is the
/// number of outcomes, and each bucket holds that outcome's occurrences.
pub proof fn lemma_tally_of_counts(outs: Seq<Outcome>)
    requires
        outs.len() < usize::MAX,
    ensures
        balanced(tally_of(outs)),
        tally_of(outs).total == outs.len(),
        tally_of(outs).killed == occurrences(outs, Outcome::Killed),
        tally_of(outs).survived == occurrences(outs, Outcome::Survived),
        tally_of(outs).timeout == occurrences(outs, Outcome::Timeout),
        tally_of(outs).error == occurrences(outs, Outcome::Error),
    decreases outs.len(),
{
    if outs.len() > 0 {
        lemma_tally_of_counts(outs.drop_last());
    }
}

/// One mutant's result, kept alongside the mutant for reporting.
#[derive(Debug, Clone)]
pub struct MutantResult {
    pub mutant: Mutant,
    pub outcome: Outcome,
    pub duration: Duration,
}

// ---------------------------------------------------------------------
// JSON reports.
// ---------------------------------------------------------------------

/// The opening of every JSON report: the tool's name and version.
pub open spec fn json_head() -> Seq<char> {
    "{\n"@ + "  \"tool\": \"mutash\",\n  \"version\": \""@ + VERSION@ + "\",\n"@
}

/// One mutant as a JSON object; with `result`, also its outcome and the
/// milliseconds its test run took.
pub open spec fn mutant_json_text(m: MutantV, result: Option<(Outcome, nat)>) -> Seq<char> {
    "{\"id\": "@ + dec(m.id as nat) + ", \"file\": \""@ + esc_spec(m.file) + "\", \"line\": "@
        + dec(m.line as nat) + ", \"col\": "@ + dec(m.col as nat) + ", \"op\": \""@ + m.op
        + "\", \"original\": \""@ + esc_spec(m.original) + "\", \"replacement\": \""@
        + esc_spec(m.replacement) + "\""@ + match result {
        Some((o, ms)) => ", \"outcome\": \""@ + label_of(o) + "\", \"ms\": "@ + dec(ms),
        None => Seq::empty(),
    } + "}"@
}

/// Array items, each indented on a line of its own and followed by a
/// comma.
pub open spec fn comma_lines(items: Seq<Seq<char>>) -> Seq<char>
    decreases items.len(),
{
    if items.len() == 0 {
        Seq::empty()
    } else {
        comma_lines(items.drop_last()) + "    "@ + items.last() + ",\n"@
    }
}

/// Array items, each indented on a line of its own, separated by commas.
pub open spec fn item_lines(items: Seq<Seq<char>>) -> Seq<char> {
    if items.len() == 0 {
        Seq::empty()
    } else {
        comma_lines(items.drop_last()) + "    "@ + items.last() + "\n"@
    }
}

/// The JSON objects of a list of mutants.
pub open spec fn list_items(ms: Seq<Mutant>) -> Seq<Seq<char>> {
    ms.map_values(|m: Mutant| mutant_json_text(m@, None))
}

/// The JSON objects of a list of results.
pub open spec fn result_items(rs: Seq<MutantResult>) -> Seq<Seq<char>> {
    rs.map_values(
        |r: MutantResult| mutant_json_text(r.mutant@, Some((r.outcome, r.duration.nanos() / 1_000_000))),
    )
}

/// The report of `mutash list --json`.
pub open spec fn list_json_text(ms: Seq<Mutant>) -> Seq<char> {
    json_head() + "  \"mutants\": [\n"@ + item_lines(list_items(ms)) + "  ],\n"@ + "  \"total\": "@
        + dec(ms.len()) + "\n"@ + "}\n"@
}

/// The report of `mutash run --json`; `score` is the rendered score.
pub open spec fn run_json_text(
    tests: Seq<char>,
    baseline: Duration,
    timeout: Duration,
    rs: Seq<MutantResult>,
    t: Tally,
    score: Seq<char>,
) -> Seq<char> {
    json_head() + "  \"tests\": \""@ + esc_spec(tests) + "\",\n"@ + "  \"baseline_ms\": "@ + dec(
        baseline.nanos() / 1_000_000,
    ) + ",\n"@ + "  \"timeout_ms\": "@ + dec(timeout.nanos() / 1_000_000) + ",\n"@
        + "  \"mutants\": [\n"@ + item_lines(result_items(rs)) + "  ],\n"@
        + "  \"summary\": {\"total\": "@ + dec(t.total as nat) + ", \"killed\": "@ + dec(
        t.killed as nat,
    ) + ", \"survived\": "@ + dec(t.survived as nat) + ", \"timeout\": "@ + dec(t.timeout as nat)
        + ", \"error\": "@ + dec(t.error as nat) + ", \"score\": "@ + score + ", \"grade\": \""@
        + tally_grade(t) + "\"}\n"@ + "}\n"@
}

fn push_json_head(out: &mut String)
    ensures
        final(out)@ == old(out)@ + json_head(),
{
    let ghost o = out@;
    push_str(out, "{\n");
    push_str(out, "  \"tool\": \"mutash\",\n  \"version\": \"");
    push_str(out, VERSION);
    push_str(out, "\",\n");
    assert(out@ =~= o + json_head());
}

/// Append `s` with JSON escaping.
fn push_esc(out: &mut String, s: &str)
    ensures
        final(out)@ == old(out)@ + esc_spec(s@),
{
    let e = esc(s);
    push_str(out, e.as_str());
}

/// The milliseconds reported for a result.
pub open spec fn with_ms(result: Option<(Outcome, Duration)>) -> Option<(Outcome, nat)> {
    match result {
        Some((o, d)) => Some((o, d.nanos() / 1_000_000)),
        None => None,
    }
}

fn mutant_json(m: &Mutant, result: Option<(Outcome, Duration)>) -> (s: String)
    ensures
        s@ == mutant_json_text(m@, with_ms(result)),
{
    let mut s = String::new();
    push_str(&mut s, "{\"id\": ");
    push_dec(&mut s, m.id as u128);
    push_str(&mut s, ", \"file\": \"");
    push_esc(&mut s, m.file.as_str());
    push_str(&mut s, "\", \"line\": ");
    push_dec(&mut s, m.line as u128);
    push_str(&mut s, ", \"col\": ");
    push_dec(&mut s, m.col as u128);
    push_str(&mut s, ", \"op\": \"");
    push_str(&mut s, m.op);
    push_str(&mut s, "\", \"original\": \"");
    push_esc(&mut s, m.original.as_str());
    push_str(&mut s, "\", \"replacement\": \"");
    push_esc(&mut s, m.replacement.as_str());
    push_str(&mut s, "\"");
    let ghost before = s@;
    match result {
        Some((outcome, duration)) => {
            push_str(&mut s, ", \"outcome\": \"");
            push_str(&mut s, outcome.label());
            push_str(&mut s, "\", \"ms\": ");
            push_dec(&mut s, duration.as_millis());
        },
        None => {},
    }
    let ghost tail = match with_ms(result) {
        Some((o, ms)) => ", \"outcome\": \""@ + label_of(o) + "\", \"ms\": "@ + dec(ms),
        None => Seq::empty(),
    };
    assert(s@ =~= before + tail);
    push_str(&mut s, "}");
    assert(s@ =~= mutant_json_text(m@, with_ms(result)));
    s
}

/// Render the machine-readable mutant list for `mutash list --json`.
pub fn render_list_json(mutants: &[Mutant]) -> (out: String)
    ensures
        out@ == list_json_text(mutants@),
{
    let mut out = String::new();
    push_json_head(&mut out);
    push_str(&mut out, "  \"mutants\": [\n");
    let ghost head = out@;
    let ghost items = list_items(mutants@);
    let n = mutants.len();
    if n > 0 {
        let mut i: usize = 0;
        while i + 1 < n
            invariant
                i + 1 <= n,
                n == mutants@.len(),
                items == list_items(mutants@),
                out@ == head + comma_lines(items.take(i as int)),
            decreases n - i,
        {
            let item = mutant_json(&mutants[i], None);
            let ghost o = out@;
            push_str(&mut out, "    ");
            push_str(&mut out, item.as_str());
            push_str(&mut out, ",\n");
            proof {
                assert(items.take(i + 1).drop_last() =~= items.take(i as int));
                assert(out@ =~= o + "    "@ + items[i as int] + ",\n"@);
            }
            i = i + 1;
        }
        let item = mutant_json(&mutants[n - 1], None);
        let ghost o = out@;
        push_str(&mut out, "    ");
        push_str(&mut out, item.as_str());
        push_str(&mut out, "\n");
        proof {
            assert(items.take(i as int) =~= items.drop_last());
            assert(out@ =~= o + "    "@ + items.last() + "\n"@);
        }
    }
    assert(out@ =~= head + item_lines(items));
    push_str(&mut out, "  ],\n");
    push_str(&mut out, "  \"total\": ");
    push_dec(&mut out, n as u128);
    push_str(&mut out, "\n");
    push_str(&mut out, "}\n");
    assert(out@ =~= list_json_text(mutants@));
    out
}

/// Render the full machine-readable report for `mutash run --json`;
/// `score` is the mutation score, already rendered.
pub fn render_run_json(
    tests: &str,
    baseline: Duration,
    timeout: Duration,
    results: &[MutantResult],
    tally: &Tally,
    score: &str,
) -> (out: String)
    ensures
        out@ == run_json_text(tests@, baseline, timeout, results@, *tally, score@),
{
    let mut out = String::new();
    push_json_head(&mut out);
    push_str(&mut out, "  \"tests\": \"");
    push_esc(&mut out, tests);
    push_str(&mut out, "\",\n");
    push_str(&mut out, "  \"baseline_ms\": ");
    push_dec(&mut out, baseline.as_millis());
    push_str(&mut out, ",\n");
    push_str(&mut out, "  \"timeout_ms\": ");
    push_dec(&mut out, timeout.as_millis());
    push_str(&mut out, ",\n");
    push_str(&mut out, "  \"mutants\": [\n");
    let ghost head = out@;
    let ghost items = result_items(results@);
    let n = results.len();
    if n > 0 {
        let mut i: usize = 0;
        while i + 1 < n
            invariant
                i + 1 <= n,
                n == results@.len(),
                items == result_items(results@),
                out@ == head + comma_lines(items.take(i as int)),
            decreases n - i,
        {
            let r = &results[i];
            let item = mutant_json(&r.mutant, Some((r.outcome, r.duration)));
            let ghost o = out@;
            push_str(&mut out, "    ");
            push_str(&mut out, item.as_str());
            push_str(&mut out, ",\n");
            proof {
                assert(items.take(i + 1).drop_last() =~= items.take(i as int));
                assert(out@ =~= o + "    "@ + items[i as int] + ",\n"@);
            }
            i = i + 1;
        }
        let r = &results[n - 1];
        let item = mutant_json(&r.mutant, Some((r.outcome, r.duration)));
        let ghost o = out@;
        push_str(&mut out, "    ");
        push_str(&mut out, item.as_str());
        push_str(&mut out, "\n");
        proof {
            assert(items.take(i as int) =~= items.drop_last());
            assert(out@ =~= o + "    "@ + items.last() + "\n"@);
        }
    }
    assert(out@ =~= head + item_lines(items));
    let ghost mid = out@;
    push_str(&mut out, "  ],\n");
    push_str(&mut out, "  \"summary\": {\"total\": ");
    push_dec(&mut out, tally.total as u128);
    push_str(&mut out, ", \"killed\": ");
    push_dec(&mut out, tally.killed as u128);
    push_str(&mut out, ", \"survived\": ");
    push_dec(&mut out, tally.survived as u128);
    push_str(&mut out, ", \"timeout\": ");
    push_dec(&mut out, tally.timeout as u128);
    push_str(&mut out, ", \"error\": ");
    push_dec(&mut out, tally.error as u128);
    push_str(&mut out, ", \"score\": ");
    push_str(&mut out, score);
    push_str(&mut out, ", \"grade\": \"");
    push_str(&mut out, tally.grade());
    push_str(&mut out, "\"}\n");
    push_str(&mut out, "}\n");
    assert(out@ =~= run_json_text(tests@, baseline, timeout, results@, *tally, score@));
    out
}

// ---------------------------------------------------------------------
// Text summary.
// ---------------------------------------------------------------------

/// The source text paired with `file` in `sources` (the first such pair).
pub open spec fn find_source(sources: Seq<(String, String)>, file: Seq<char>) -> Option<Seq<char>>
    decreases sources.len(),
{
    if sources.len() == 0 {
        None
    } else if sources[0].0@ == file {
        Some(sources[0].1@)
    } else {
        find_source(sources.drop_first(), file)
    }
}

/// How many of the results are survivors.
pub open spec fn survivor_count(rs: Seq<MutantResult>) -> nat
    decreases rs.len(),
{
    if rs.len() == 0 {
        0
    } else {
        survivor_count(rs.drop_last()) + if rs.last().outcome == Outcome::Survived {
            1nat
        } else {
            0nat
        }
    }
}

/// One survivor's entry: id, location, operator and description, then
/// the source line it sits on when its file is among `sources`.
pub open spec fn survivor_entry(r: MutantResult, sources: Seq<(String, String)>) -> Seq<char> {
    let m = r.mutant@;
    "\n  #"@ + dec(m.id as nat) + "  "@ + location_of(m) + "  "@ + m.op + "  "@ + m.descr + "\n"@
        + match find_source(sources, m.file) {
        Some(src) => "      > "@ + excerpt_of(encode_utf8(src), m.offset) + "\n"@,
        None => Seq::empty(),
    }
}

/// The entries of the survivors among `rs`, in order.
pub open spec fn survivor_entries(rs: Seq<MutantResult>, sources: Seq<(String, String)>) -> Seq<
    char,
>
    decreases rs.len(),
{
    if rs.len() == 0 {
        Seq::empty()
    } else {
        survivor_entries(rs.drop_last(), sources) + if rs.last().outcome == Outcome::Survived {
            survivor_entry(rs.last(), sources)
        } else {
            Seq::empty()
        }
    }
}

/// The score line: score, detections (killed plus timeout) out of the
/// total, every bucket, and the grade.
pub open spec fn score_line(t: Tally, score: Seq<char>) -> Seq<char> {
    "\nScore: "@ + score + "%  ("@ + dec((t.killed + t.timeout) as nat) + "/"@ + dec(t.total as nat)
        + " detected: "@ + dec(t.killed as nat) + " killed, "@ + dec(t.survived as nat)
        + " survived, "@ + dec(t.timeout as nat) + " timeout, "@ + dec(t.error as nat)
        + " error)   Grade: "@ + tally_grade(t) + "\n"@
}

/// The summary of `mutash run`: the survivors section (left out when
/// there are none), then the score line.
pub open spec fn summary_text(
    rs: Seq<MutantResult>,
    sources: Seq<(String, String)>,
    t: Tally,
    score: Seq<char>,
) -> Seq<char> {
    (if survivor_count(rs) > 0 {
        "\nSurvivors ("@ + dec(survivor_count(rs)) + "):\n"@ + survivor_entries(rs, sources)
    } else {
        Seq::empty()
    }) + score_line(t, score)
}

pub fn source_of<'a>(sources: &'a [(String, String)], file: &str) -> (r: Option<&'a String>)
    ensures
        match r {
            Some(s) => find_source(sources@, file@) == Some(s@),
            None => find_source(sources@, file@) is None,
        },
{
    let mut j: usize = 0;
    assert(sources@.skip(0) =~= sources@);
    while j < sources.len()
        invariant
            j <= sources@.len(),
            find_source(sources@, file@) == find_source(sources@.skip(j as int), file@),
        decreases sources@.len() - j,
    {
        proof {
            assert(sources@.skip(j as int).drop_first() =~= sources@.skip(j + 1));
        }
        if str_eq(sources[j].0.as_str(), file) {
            return Some(&sources[j].1);
        }
        j = j + 1;
    }
    assert(sources@.skip(j as int).len() == 0);
    None
}

fn push_survivor_entry(out: &mut String, r: &MutantResult, sources: &[(String, String)])
    ensures
        final(out)@ == old(out)@ + survivor_entry(*r, sources@),
{
    let ghost o = out@;
    let m = &r.mutant;
    push_str(out, "\n  #");
    push_dec(out, m.id as u128);
    push_str(out, "  ");
    let loc = m.location();
    push_str(out, loc.as_str());
    push_str(out, "  ");
    push_str(out, m.op);
    push_str(out, "  ");
    push_str(out, m.descr.as_str());
    push_str(out, "\n");
    let ghost mid = out@;
    match source_of(sources, m.file.as_str()) {
        Some(src) => {
            push_str(out, "      > ");
            push_str(out, m.excerpt(src.as_str()));
            push_str(out, "\n");
        },
        None => {},
    }
    assert(out@ =~= o + survivor_entry(*r, sources@));
}

/// Render the survivors section and the score line of `mutash run`.
/// `sources` pairs display file names with their original source text;
/// `score` is the mutation score, already rendered.
pub fn render_run_summary(
    results: &[MutantResult],
    sources: &[(String, String)],
    tally: &Tally,
    score: &str,
) -> (out: String)
    ensures
        out@ == summary_text(results@, sources@, *tally, score@),
{
    let mut out = String::new();
    let n = results.len();
    let mut survivors: usize = 0;
    let mut i: usize = 0;
    while i < n
        invariant
            i <= n,
            n == results@.len(),
            survivors == survivor_count(results@.take(i as int)),
            survivors <= i,
        decreases n - i,
    {
        proof {
            assert(results@.take(i + 1).drop_last() =~= results@.take(i as int));
        }
        if results[i].outcome == Outcome::Survived {
            survivors = survivors + 1;
        }
        i = i + 1;
    }
    proof {
        assert(results@.take(n as int) =~= results@);
    }
    if survivors > 0 {
        push_str(&mut out, "\nSurvivors (");
        push_dec(&mut out, survivors as u128);
        push_str(&mut out, "):\n");
        let ghost head = out@;
        let mut k: usize = 0;
        while k < n
            invariant
                k <= n,
                n == results@.len(),
                out@ == head + survivor_entries(results@.take(k as int), sources@),
            decreases n - k,
        {
            proof {
                assert(results@.take(k + 1).drop_last() =~= results@.take(k as int));
            }
            let ghost o = out@;
            if results[k].outcome == Outcome::Survived {
                push_survivor_entry(&mut out, &results[k], sources);
            }
            assert(out@ =~= o + (if results@[k as int].outcome == Outcome::Survived {
                survivor_entry(results@[k as int], sources@)
            } else {
                Seq::empty()
            }));
            k = k + 1;
        }
        proof {
            assert(results@.take(n as int) =~= results@);
        }
    }
    let ghost before = out@;
    push_str(&mut out, "\nScore: ");
    push_str(&mut out, score);
    push_str(&mut out, "%  (");
    push_dec(&mut out, tally.killed as u128 + tally.timeout as u128);
    push_str(&mut out, "/");
    push_dec(&mut out, tally.total as u128);
    push_str(&mut out, " detected: ");
    push_dec(&mut out, tally.killed as u128);
    push_str(&mut out, " killed, ");
    push_dec(&mut out, tally.survived as u128);
    push_str(&mut out, " survived, ");
    push_dec(&mut out, tally.timeout as u128);
    push_str(&mut out, " timeout, ");
    push_dec(&mut out, tally.error as u128);
    push_str(&mut out, " error)   Grade: ");
    push_str(&mut out, tally.grade());
    push_str(&mut out, "\n");
    assert(out@ =~= before + score_line(*tally, score@));
    assert(out@ =~= summary_text(results@, sources@, *tally, score@));
    out
}

/// The survivors section counts exactly the results that survived, as the
/// tally's survived bucket does.
pub proof fn lemma_survivors_are_survived(rs: Seq<MutantResult>)
    ensures
        survivor_count(rs) == occurrences(outcomes_of(rs), Outcome::Survived),
        rs.len() < usize::MAX ==> tally_of(outcomes_of(rs)).survived == survivor_count(rs),
    decreases rs.len(),
{
    if rs.len() > 0 {
        lemma_survivors_are_survived(rs.drop_last());
        assert(outcomes_of(rs).drop_last() =~= outcomes_of(rs.drop_last()));
        assert(outcomes_of(rs).last() == rs.last().outcome);
    }
    if rs.len() < usize::MAX {
        lemma_tally_of_counts(outcomes_of(rs));
    }
}

proof fn lemma_survivor_entries_concat(a: Seq<MutantResult>, b: Seq<MutantResult>, sources: Seq<(String, String)>)
    ensures
        survivor_entries(a + b, sources) == survivor_entries(a, sources) + survivor_entries(b, sources),
    decreases b.len(),
{
    if b.len() == 0 {
        assert(a + b =~= a);
        assert(survivor_entries(a, sources) + survivor_entries(b, sources) =~= survivor_entries(a, sources));
    } else {
        assert((a + b).drop_last() =~= a + b.drop_last());
        assert((a + b).last() == b.last());
        lemma_survivor_entries_concat(a, b.drop_last(), sources);
        let e = if b.last().outcome == Outcome::Survived {
            survivor_entry(b.last(), sources)
        } else {
            Seq::empty()
        };
        assert(survivor_entries(a, sources) + survivor_entries(b.drop_last(), sources) + e
            =~= survivor_entries(a, sources) + (survivor_entries(b.drop_last(), sources) + e));
    }
}

/// Each result stands in the survivors section where it stands among the
/// results: with its own entry when it survived, and not at all otherwise
/// (killed, timed out or errored).
pub proof fn lemma_survivor_entries_in_place(
    a: Seq<MutantResult>,
    r: MutantResult,
    b: Seq<MutantResult>,
    sources: Seq<(String, String)>,
)
    ensures
        survivor_entries(a + seq![r] + b, sources) == survivor_entries(a, sources) + (if r.outcome
            == Outcome::Survived {
            survivor_entry(r, sources)
        } else {
            Seq::empty()
        }) + survivor_entries(b, sources),
{
    lemma_survivor_entries_concat(a + seq![r], b, sources);
    lemma_survivor_entries_concat(a, seq![r], sources);
    let one = seq![r];
    assert(one.drop_last() =~= Seq::<MutantResult>::empty());
    assert(one.last() == r);
    let e = if r.outcome == Outcome::Survived {
        survivor_entry(r, sources)
    } else {
        Seq::empty()
    };
    assert(survivor_entries(Seq::<MutantResult>::empty(), sources) == Seq::<char>::empty());
    assert(survivor_entries(one, sources) == survivor_entries(one.drop_last(), sources) + e);
    assert(survivor_entries(one, sources) =~= e);
}

/// When nothing survived, the summary is the score line alone.
pub proof fn lemma_summary_without_survivors(
    rs: Seq<MutantResult>,
    sources: Seq<(String, String)>,
    t: Tally,
    score: Seq<char>,
)
    requires
        forall|k: int| 0 <= k < rs.len() ==> (#[trigger] rs[k]).outcome != Outcome::Survived,
    ensures
        summary_text(rs, sources, t, score) == score_line(t, score),
{
    lemma_no_survivor_count(rs);
    assert(Seq::<char>::empty() + score_line(t, score) =~= score_line(t, score));
}

proof fn lemma_no_survivor_count(rs: Seq<MutantResult>)
    requires
        forall|k: int| 0 <= k < rs.len() ==> (#[trigger] rs[k]).outcome != Outcome::Survived,
    ensures
        survivor_count(rs) == 0,
    decreases rs.len(),
{
    if rs.len() > 0 {
        assert forall|k: int| 0 <= k < rs.drop_last().len() implies (#[trigger] rs.drop_last()[k]).outcome
            != Outcome::Survived by {
            assert(rs.drop_last()[k] == rs[k]);
        }
        lemma_no_survivor_count(rs.drop_last());
        assert(rs[rs.len() - 1] == rs.last());
    }
}

} // verus!
