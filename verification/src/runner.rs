//! Test execution engine: baseline verdict, per-mutant outcomes, timeout
//! policy, and the run itself as a state machine.
//!
//! The test command is the user's own (`bats tests` by default) and is run
//! through `sh -c` inside a sandbox copy of the project. A mutant is
//! *killed* when the command exits non-zero, *survived* when it still
//! passes, and *timeout* when it outlives the per-mutant deadline —
//! mutation loves to turn terminating loops into infinite ones, so the
//! deadline is derived from the measured baseline.
//!
//! Starting processes and writing files happen outside this module: an
//! [`Execution`] says which mutated text to write next and takes back what
//! happened, so every decision of a run is made (and proved) here.

use vstd::prelude::*;
use vstd::utf8::*;
use crate::duration::{Duration, MAX_NANOS};
use crate::mutant::{Mutant, splice, applies_to};
use crate::report::{MutantResult, Tally, tally_of, tally_add, balanced, lemma_tally_of_counts};
use crate::text::push_str;

verus! {

/// What happened to one mutant.
#[derive(Debug, Clone, Copy, PartialEq, Eq, Structural)]
pub enum Outcome {
    /// The test command failed — the suite caught the mutant.
    Killed,
    /// The test command still passed — the suite missed the mutant.
    Survived,
    /// The test command exceeded the per-mutant deadline and was killed.
    Timeout,
    /// The test command could not be executed at all.
    Error,
}

/// The report label of an outcome.
pub open spec fn label_of(o: Outcome) -> Seq<char> {
    match o {
        Outcome::Killed => "killed"@,
        Outcome::Survived => "survived"@,
        Outcome::Timeout => "timeout"@,
        Outcome::Error => "error"@,
    }
}

impl Outcome {
    pub fn label(&self) -> (r: &'static str)
        ensures
            r@ == label_of(*self),
    {
        match self {
            Outcome::Killed => "killed",
            Outcome::Survived => "survived",
            Outcome::Timeout => "timeout",
            Outcome::Error => "error",
        }
    }
}

/// Result of one invocation of the test command.
#[derive(Debug, Clone, Copy)]
pub struct TestRun {
    pub timed_out: bool,
    pub success: bool,
    /// Exit status code, if the command ran to completion with one.
    pub status: Option<i32>,
    pub duration: Duration,
}

/// Per-mutant deadline: three times the healthy baseline plus two seconds,
/// and never under one second, so a mutant that merely doubles runtime
/// still finishes, but an infinite loop is cut off quickly.
pub fn derive_timeout(baseline: Duration) -> (d: Duration)
    requires
        baseline.nanos() * 3 + 2_000_000_000 <= MAX_NANOS,
    ensures
        d.nanos() == baseline.nanos() * 3 + 2_000_000_000,
        d.nanos() >= 1_000_000_000,
        d.nanos() > baseline.nanos(),
{
    let auto = baseline.times(3).plus(&Duration::from_secs(2));
    auto.longest(&Duration::from_secs(1))
}

/// Deadline for the baseline run: the explicit timeout if one was given,
/// else a generous five minutes that only guards against a hung suite.
pub fn baseline_cap(timeout: Option<Duration>) -> (d: Duration)
    ensures
        d.nanos() == match timeout {
            Some(t) => t.nanos(),
            None => 300_000_000_000,
        },
{
    match timeout {
        Some(t) => t,
        None => Duration::from_secs(300),
    }
}

/// Why a run refuses to start after its baseline.
#[derive(Debug, Clone, Copy, PartialEq, Eq, Structural)]
pub enum Refusal {
    /// The untouched suite outlived the baseline deadline.
    TimedOut,
    /// The test command itself is missing (`sh -c` exit status 127).
    NotFound,
    /// The untouched suite fails.
    Failed,
}

/// The refusal a baseline run earns, if any. A missing command (exit
/// status 127) is not the suite's fault and is told apart from a red suite.
pub open spec fn refusal_of(base: TestRun) -> Option<Refusal> {
    if base.timed_out {
        Some(Refusal::TimedOut)
    } else if !base.success {
        if base.status == Some(127i32) {
            Some(Refusal::NotFound)
        } else {
            Some(Refusal::Failed)
        }
    } else {
        None
    }
}

/// Only a baseline run that finished in time and passed lets a run start.
/// One that timed out is refused as such; one that failed is refused as a
/// missing command when `sh -c` exited with 127, and as a red suite for
/// every other failure, whatever its exit status.
pub proof fn lemma_baseline_verdict(base: TestRun)
    ensures
        refusal_of(base) is None <==> base.success && !base.timed_out,
        base.timed_out ==> refusal_of(base) == Some(Refusal::TimedOut),
        !base.timed_out && !base.success ==> refusal_of(base) == Some(
            if base.status == Some(127i32) { Refusal::NotFound } else { Refusal::Failed },
        ),
{
}

/// The text of a refusal.
pub open spec fn refusal_text(r: Refusal, tests: Seq<char>, cap_secs: Seq<char>) -> Seq<char> {
    match r {
        Refusal::TimedOut => "baseline run of `"@ + tests + "` exceeded "@ + cap_secs
            + "s; pass a larger --timeout"@,
        Refusal::NotFound => "test command `"@ + tests
            + "` was not found (exit 127) — is it installed and on PATH?"@,
        Refusal::Failed => "baseline run of `"@ + tests
            + "` failed on the unmutated project — fix the suite first, then mutate"@,
    }
}

impl Refusal {
    /// The message shown for this refusal; `cap_secs` is the baseline
    /// deadline in whole seconds, already rendered.
    pub fn message(&self, tests: &str, cap_secs: &str) -> (m: String)
        ensures
            m@ == refusal_text(*self, tests@, cap_secs@),
    {
        let mut m = String::new();
        match self {
            Refusal::TimedOut => {
                push_str(&mut m, "baseline run of `");
                push_str(&mut m, tests);
                push_str(&mut m, "` exceeded ");
                push_str(&mut m, cap_secs);
                push_str(&mut m, "s; pass a larger --timeout");
            },
            Refusal::NotFound => {
                push_str(&mut m, "test command `");
                push_str(&mut m, tests);
                push_str(&mut m, "` was not found (exit 127) — is it installed and on PATH?");
            },
            Refusal::Failed => {
                push_str(&mut m, "baseline run of `");
                push_str(&mut m, tests);
                push_str(
                    &mut m,
                    "` failed on the unmutated project — fix the suite first, then mutate",
                );
            },
        }
        m
    }
}

/// The outcome of one mutant and the time it is reported with. A mutant
/// that could not be written, or whose test command could not be started
/// (`run` is `None`), is an error with no time.
pub open spec fn outcome_of(written: bool, run: Option<TestRun>) -> (Outcome, nat) {
    match run {
        Some(r) if written => if r.timed_out {
            (Outcome::Timeout, r.duration.nanos())
        } else if r.success {
            (Outcome::Survived, r.duration.nanos())
        } else {
            (Outcome::Killed, r.duration.nanos())
        },
        _ => (Outcome::Error, 0),
    }
}

/// Classify one mutant's run.
pub fn mutant_outcome(written: bool, run: Option<TestRun>) -> (r: (Outcome, Duration))
    ensures
        (r.0, r.1.nanos()) == outcome_of(written, run),
{
    match run {
        Some(t) if written => if t.timed_out {
            (Outcome::Timeout, t.duration)
        } else if t.success {
            (Outcome::Survived, t.duration)
        } else {
            (Outcome::Killed, t.duration)
        },
        _ => (Outcome::Error, Duration::zero()),
    }
}

/// Everything the engine needs for one run.
pub struct Plan {
    /// Project root that gets copied into the sandbox.
    pub root: String,
    /// The test command, run with `sh -c` inside the sandbox.
    pub tests: String,
    /// Explicit per-mutant timeout; derived from the baseline when `None`.
    pub timeout: Option<Duration>,
    /// Scripts under test with their mutants.
    pub files: Vec<FilePlan>,
}

/// One script under test.
pub struct FilePlan {
    /// Path relative to the project root (also the display name).
    pub rel: String,
    /// Original source text.
    pub source: String,
    /// Mutants for this file, ids already assigned.
    pub mutants: Vec<Mutant>,
}

/// A finished run.
#[derive(Debug)]
pub struct RunReport {
    pub baseline: Duration,
    pub timeout: Duration,
    pub results: Vec<MutantResult>,
    pub tally: Tally,
}

/// The plan's mutants in run order: file by file, each file's in order.
pub open spec fn plan_mutants(files: Seq<FilePlan>) -> Seq<Mutant>
    decreases files.len(),
{
    if files.len() == 0 {
        Seq::empty()
    } else {
        plan_mutants(files.drop_last()) + files.last().mutants@
    }
}

/// How many of the plan's mutants come from the files before file `f`.
pub open spec fn mutants_before(files: Seq<FilePlan>, f: int) -> nat {
    plan_mutants(files.take(f)).len()
}

/// The mutant's span lies inside `src` and starts and ends on character
/// boundaries, so it can be applied.
pub open spec fn fits(m: Mutant, src: Seq<char>) -> bool {
    applies_to(m@, encode_utf8(src))
}

/// A plan that can be run: every mutant fits its own file, and the
/// mutants can be counted in a `usize`.
pub open spec fn plan_wf(plan: &Plan) -> bool {
    &&& plan_mutants(plan.files@).len() < usize::MAX
    &&& forall|f: int, i: int|
        0 <= f < plan.files@.len() && 0 <= i < plan.files@[f].mutants@.len() ==> fits(
            #[trigger] plan.files@[f].mutants@[i],
            plan.files@[f].source@,
        )
}

/// The outcomes of a sequence of results, in order.
pub open spec fn outcomes_of(rs: Seq<MutantResult>) -> Seq<Outcome> {
    rs.map_values(|r: MutantResult| r.outcome)
}

proof fn lemma_plan_mutants_split(files: Seq<FilePlan>, f: int)
    requires
        0 <= f < files.len(),
    ensures
        plan_mutants(files.take(f + 1)) == plan_mutants(files.take(f)) + files[f].mutants@,
        mutants_before(files, f + 1) == mutants_before(files, f) + files[f].mutants@.len(),
{
    assert(files.take(f + 1).drop_last() =~= files.take(f));
}

proof fn lemma_plan_mutants_index(files: Seq<FilePlan>, f: int, i: int)
    requires
        0 <= f < files.len(),
        0 <= i < files[f].mutants@.len(),
    ensures
        mutants_before(files, f) + i < plan_mutants(files).len(),
        plan_mutants(files)[mutants_before(files, f) + i] == files[f].mutants@[i],
    decreases files.len(),
{
    let last = files.len() - 1;
    assert(files.take(last) =~= files.drop_last());
    if f < last {
        lemma_plan_mutants_index(files.drop_last(), f, i);
        assert(files.drop_last().take(f) =~= files.take(f));
    }
}

proof fn lemma_mutants_before_all(files: Seq<FilePlan>)
    ensures
        mutants_before(files, files.len() as int) == plan_mutants(files).len(),
{
    assert(files.take(files.len() as int) =~= files);
}

proof fn lemma_tally_push(rs: Seq<MutantResult>, r: MutantResult)
    ensures
        outcomes_of(rs.push(r)) == outcomes_of(rs).push(r.outcome),
        tally_of(outcomes_of(rs.push(r))) == tally_add(tally_of(outcomes_of(rs)), r.outcome),
{
    assert(outcomes_of(rs.push(r)) =~= outcomes_of(rs).push(r.outcome));
    assert(outcomes_of(rs).push(r.outcome).drop_last() =~= outcomes_of(rs));
}

/// A copy of `m` with the same contents.
pub(crate) fn copy_mutant(m: &Mutant) -> (r: Mutant)
    ensures
        r@ == m@,
{
    Mutant {
        id: m.id,
        file: m.file.clone(),
        op: m.op,
        line: m.line,
        col: m.col,
        offset: m.offset,
        len: m.len,
        original: m.original.clone(),
        replacement: m.replacement.clone(),
        descr: m.descr.clone(),
    }
}

/// A run in progress, after a passing baseline: which mutant comes next,
/// and the results so far.
pub struct Execution {
    file: usize,
    index: usize,
    baseline: Duration,
    timeout: Duration,
    results: Vec<MutantResult>,
    tally: Tally,
}

impl Execution {
    /// The results recorded so far, one per mutant, in run order.
    pub closed spec fn results(&self) -> Seq<MutantResult> {
        self.results@
    }

    /// The measured baseline duration.
    pub closed spec fn baseline(&self) -> Duration {
        self.baseline
    }

    /// The per-mutant deadline.
    pub closed spec fn timeout(&self) -> Duration {
        self.timeout
    }

    /// The execution belongs to `plan`: its results are those of the
    /// plan's first mutants, in run order, and its tally counts them.
    pub closed spec fn wf(&self, plan: &Plan) -> bool {
        let files = plan.files@;
        &&& self.file <= files.len()
        &&& (self.file < files.len() ==> self.index <= files[self.file as int].mutants@.len())
        &&& (self.file == files.len() ==> self.index == 0)
        &&& self.results@.len() == mutants_before(files, self.file as int) + self.index
        &&& forall|i: int|
            0 <= i < self.results@.len() ==> (#[trigger] self.results@[i]).mutant@
                == plan_mutants(files)[i]@
        &&& self.tally == tally_of(outcomes_of(self.results@))
        &&& plan_mutants(files).len() < usize::MAX
    }

    /// Judge the baseline run and, when it passed, start the run with the
    /// plan's timeout, or one derived from the baseline when the plan has
    /// none.
    pub fn start(plan: &Plan, base: &TestRun) -> (r: Result<Execution, Refusal>)
        requires
            plan_wf(plan),
            refusal_of(*base) is None && plan.timeout is None ==> base.duration.nanos() * 3
                + 2_000_000_000 <= MAX_NANOS,
        ensures
            r is Err <==> refusal_of(*base) is Some,
            r is Ok <==> base.success && !base.timed_out,
            !base.timed_out && !base.success ==> r == Err::<Execution, Refusal>(
                if base.status == Some(127i32) { Refusal::NotFound } else { Refusal::Failed },
            ),
            r matches Err(f) ==> refusal_of(*base) == Some(f),
            r matches Ok(e) ==> {
                &&& e.wf(plan)
                &&& e.results().len() == 0
                &&& e.baseline() == base.duration
                &&& e.timeout().nanos() == match plan.timeout {
                    Some(t) => t.nanos(),
                    None => base.duration.nanos() * 3 + 2_000_000_000,
                }
            },
    {
        if base.timed_out {
            return Err(Refusal::TimedOut);
        }
        if !base.success {
            if base.status == Some(127i32) {
                return Err(Refusal::NotFound);
            }
            return Err(Refusal::Failed);
        }
        let timeout = match plan.timeout {
            Some(t) => t,
            None => derive_timeout(base.duration),
        };
        let e = Execution {
            file: 0,
            index: 0,
            baseline: base.duration,
            timeout,
            results: Vec::new(),
            tally: Tally { total: 0, killed: 0, survived: 0, timeout: 0, error: 0 },
        };
        proof {
            assert(plan.files@.take(0) =~= Seq::<FilePlan>::empty());
            assert(outcomes_of(e.results@) =~= Seq::<Outcome>::empty());
        }
        Ok(e)
    }

    /// The per-mutant deadline of this run.
    pub fn deadline(&self) -> (d: Duration)
        ensures
            d == self.timeout(),
    {
        self.timeout
    }

    /// Move past the files whose mutants are all done.
    fn settle(&mut self, plan: &Plan)
        requires
            old(self).wf(plan),
        ensures
            final(self).wf(plan),
            final(self).results@ == old(self).results@,
            final(self).baseline == old(self).baseline,
            final(self).timeout == old(self).timeout,
            final(self).file < plan.files@.len() ==> final(self).index
                < plan.files@[final(self).file as int].mutants@.len(),
    {
        let n = plan.files.len();
        while self.file < n && self.index == plan.files[self.file].mutants.len()
            invariant
                self.wf(plan),
                n == plan.files@.len(),
                self.results@ == old(self).results@,
                self.baseline == old(self).baseline,
                self.timeout == old(self).timeout,
            decreases n - self.file,
        {
            proof {
                lemma_plan_mutants_split(plan.files@, self.file as int);
            }
            self.file = self.file + 1;
            self.index = 0;
        }
    }

    /// The next mutant to run, if any: its file's index in the plan, its
    /// index among that file's mutants, and the file's text with the
    /// mutation applied. `None` once every mutant has a result.
    pub fn next(&mut self, plan: &Plan) -> (r: Option<(usize, usize, String)>)
        requires
            old(self).wf(plan),
            plan_wf(plan),
        ensures
            final(self).wf(plan),
            final(self).results() == old(self).results(),
            final(self).baseline() == old(self).baseline(),
            final(self).timeout() == old(self).timeout(),
            r is None <==> old(self).results().len() == plan_mutants(plan.files@).len(),
            r matches Some((f, i, text)) ==> {
                let files = plan.files@;
                let m = files[f as int].mutants@[i as int];
                &&& f < files.len()
                &&& i < files[f as int].mutants@.len()
                &&& mutants_before(files, f as int) + i == old(self).results().len()
                &&& plan_mutants(files)[old(self).results().len() as int] == m
                &&& encode_utf8(text@) == splice(
                    encode_utf8(files[f as int].source@),
                    m.offset as int,
                    m.len as int,
                    encode_utf8(m.replacement@),
                )
            },
    {
        self.settle(plan);
        proof {
            lemma_mutants_before_all(plan.files@);
        }
        if self.file == plan.files.len() {
            return None;
        }
        let f = self.file;
        let i = self.index;
        let file = &plan.files[f];
        let m = &file.mutants[i];
        proof {
            lemma_plan_mutants_index(plan.files@, f as int, i as int);
            assert(fits(plan.files@[f as int].mutants@[i as int], plan.files@[f as int].source@));
        }
        let text = m.apply(file.source.as_str());
        Some((f, i, text))
    }

    /// Record the outcome of the next mutant, the one `next` returned.
    pub fn record(&mut self, plan: &Plan, outcome: Outcome, duration: Duration)
        requires
            old(self).wf(plan),
            old(self).results().len() < plan_mutants(plan.files@).len(),
        ensures
            final(self).wf(plan),
            final(self).baseline() == old(self).baseline(),
            final(self).timeout() == old(self).timeout(),
            final(self).results().len() == old(self).results().len() + 1,
            final(self).results().drop_last() == old(self).results(),
            final(self).results().last().mutant@ == plan_mutants(
                plan.files@,
            )[old(self).results().len() as int]@,
            final(self).results().last().outcome == outcome,
            final(self).results().last().duration == duration,
    {
        self.settle(plan);
        proof {
            lemma_mutants_before_all(plan.files@);
        }
        let f = self.file;
        let i = self.index;
        let m = &plan.files[f].mutants[i];
        proof {
            lemma_plan_mutants_index(plan.files@, f as int, i as int);
            lemma_tally_of_counts(outcomes_of(self.results@));
        }
        let r = MutantResult { mutant: copy_mutant(m), outcome, duration };
        proof {
            lemma_tally_push(self.results@, r);
            lemma_plan_mutants_split(plan.files@, f as int);
        }
        let ghost before = self.results@;
        self.results.push(r);
        self.tally.count(outcome);
        self.index = i + 1;
        proof {
            assert(self.results@.drop_last() =~= before);
            assert forall|k: int| 0 <= k < self.results@.len() implies (
            #[trigger] self.results@[k]).mutant@ == plan_mutants(plan.files@)[k]@ by {
                if k < before.len() {
                    assert(self.results@[k] == before[k]);
                }
            }
        }
    }

    /// The finished report. Its tally counts the results, each in its
    /// outcome's bucket; once every mutant is done there is exactly one
    /// result per mutant of the plan, in run order.
    pub fn finish(self, plan: &Plan) -> (r: RunReport)
        requires
            self.wf(plan),
        ensures
            r.results@ == self.results(),
            r.baseline == self.baseline(),
            r.timeout == self.timeout(),
            r.tally == tally_of(outcomes_of(r.results@)),
            balanced(r.tally),
            r.tally.total == r.results@.len(),
            r.results@.len() <= plan_mutants(plan.files@).len(),
            forall|i: int|
                0 <= i < r.results@.len() ==> (#[trigger] r.results@[i]).mutant@ == plan_mutants(
                    plan.files@,
                )[i]@,
    {
        proof {
            lemma_results_bound(plan.files@, self.file as int, self.index as int);
            lemma_tally_of_counts(outcomes_of(self.results@));
        }
        RunReport {
            baseline: self.baseline,
            timeout: self.timeout,
            results: self.results,
            tally: self.tally,
        }
    }
}

proof fn lemma_results_bound(files: Seq<FilePlan>, f: int, i: int)
    requires
        0 <= f <= files.len(),
        f < files.len() ==> 0 <= i <= files[f].mutants@.len(),
        f == files.len() ==> i == 0,
    ensures
        mutants_before(files, f) + i <= plan_mutants(files).len(),
    decreases files.len() - f,
{
    if f < files.len() {
        lemma_plan_mutants_split(files, f);
        lemma_results_bound(files, f + 1, 0);
    } else {
        lemma_mutants_before_all(files);
    }
}

} // verus!
