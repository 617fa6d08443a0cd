//! Tests of the `runner` module.

use mutash::duration::Duration;
use mutash::mutant::Mutant;
use mutash::runner::{
    baseline_cap, derive_timeout, mutant_outcome, Execution, FilePlan, Outcome, Plan, Refusal,
    TestRun,
};

#[test]
fn derive_timeout_scales_with_baseline_but_has_a_floor() {
    assert_eq!(derive_timeout(Duration::zero()), Duration::from_secs(2));
    assert_eq!(
        derive_timeout(Duration::from_secs(4)),
        Duration::from_secs(14)
    );
    assert!(derive_timeout(Duration::from_millis(1)) >= Duration::from_secs(1));
}

// ---------------------------------------------------------------------
// Further cases.
// ---------------------------------------------------------------------

#[test]
fn outcome_labels() {
    assert_eq!(Outcome::Killed.label(), "killed");
    assert_eq!(Outcome::Survived.label(), "survived");
    assert_eq!(Outcome::Timeout.label(), "timeout");
    assert_eq!(Outcome::Error.label(), "error");
}

#[test]
fn derive_timeout_is_three_baselines_plus_two_seconds() {
    assert_eq!(
        derive_timeout(Duration::from_millis(300)),
        Duration::from_millis(2900)
    );
    assert_eq!(derive_timeout(Duration::from_parts(0, 1)).as_nanos(), 2_000_000_003);
}

#[test]
fn baseline_cap_defaults_to_five_minutes() {
    assert_eq!(baseline_cap(None), Duration::from_secs(300));
    assert_eq!(
        baseline_cap(Some(Duration::from_secs(10))),
        Duration::from_secs(10)
    );
}

fn run(timed_out: bool, success: bool, status: Option<i32>, ms: u64) -> TestRun {
    TestRun {
        timed_out,
        success,
        status,
        duration: Duration::from_millis(ms),
    }
}

#[test]
fn mutant_outcomes_follow_the_test_run() {
    let (o, d) = mutant_outcome(true, Some(run(false, false, Some(1), 30)));
    assert_eq!((o, d), (Outcome::Killed, Duration::from_millis(30)));
    let (o, _) = mutant_outcome(true, Some(run(false, true, Some(0), 30)));
    assert_eq!(o, Outcome::Survived);
    let (o, d) = mutant_outcome(true, Some(run(true, false, None, 90)));
    assert_eq!((o, d), (Outcome::Timeout, Duration::from_millis(90)));
    // Not written, or not started: an error with no time.
    let (o, d) = mutant_outcome(false, Some(run(false, true, Some(0), 30)));
    assert_eq!((o, d), (Outcome::Error, Duration::zero()));
    let (o, d) = mutant_outcome(true, None);
    assert_eq!((o, d), (Outcome::Error, Duration::zero()));
}

fn mutant(offset: usize, len: usize, replacement: &str, id: usize) -> Mutant {
    Mutant {
        id,
        file: "a.sh".into(),
        op: "compare",
        line: 1,
        col: 1,
        offset,
        len,
        original: "x".into(),
        replacement: replacement.into(),
        descr: String::new(),
    }
}

fn plan(timeout: Option<Duration>) -> Plan {
    Plan {
        root: ".".into(),
        tests: "sh t.sh".into(),
        timeout,
        files: vec![
            FilePlan {
                rel: "a.sh".into(),
                source: "[ 1 -eq 2 ]\n".into(),
                mutants: vec![mutant(4, 3, "-ne", 1), mutant(2, 1, "2", 2)],
            },
            FilePlan {
                rel: "empty.sh".into(),
                source: "true\n".into(),
                mutants: vec![],
            },
            FilePlan {
                rel: "b.sh".into(),
                source: "true\n".into(),
                mutants: vec![mutant(0, 4, "false", 3)],
            },
        ],
    }
}

#[test]
fn a_failing_baseline_is_refused() {
    let p = plan(None);
    let refused = |r: TestRun| match Execution::start(&p, &r) {
        Err(f) => Some(f),
        Ok(_) => None,
    };
    assert_eq!(refused(run(false, false, Some(1), 10)), Some(Refusal::Failed));
    assert_eq!(refused(run(false, false, Some(127), 10)), Some(Refusal::NotFound));
    assert_eq!(refused(run(true, false, None, 10)), Some(Refusal::TimedOut));
    assert_eq!(refused(run(false, true, Some(0), 10)), None);
}

#[test]
fn refusal_messages_name_the_command() {
    let m = Refusal::Failed.message("exit 1", "300");
    assert!(m.contains("fix the suite first"), "{m}");
    let m = Refusal::NotFound.message("nope", "300");
    assert_eq!(
        m,
        "test command `nope` was not found (exit 127) — is it installed and on PATH?"
    );
    assert!(!m.contains("fix the suite"), "{m}");
    let m = Refusal::TimedOut.message("sleep 9", "5");
    assert_eq!(
        m,
        "baseline run of `sleep 9` exceeded 5s; pass a larger --timeout"
    );
}

#[test]
fn execution_walks_every_mutant_once_in_plan_order() {
    let p = plan(None);
    let mut e = match Execution::start(&p, &run(false, true, Some(0), 100)) {
        Ok(e) => e,
        Err(_) => panic!("baseline passed"),
    };
    let mut seen = Vec::new();
    let outcomes = [Outcome::Killed, Outcome::Survived, Outcome::Timeout];
    let mut k = 0;
    while let Some((f, i, text)) = e.next(&p) {
        seen.push((f, i, text));
        e.record(&p, outcomes[k], Duration::from_millis(5));
        k += 1;
    }
    assert_eq!(
        seen,
        vec![
            (0, 0, "[ 1 -ne 2 ]\n".to_string()),
            (0, 1, "[ 2 -eq 2 ]\n".to_string()),
            (2, 0, "false\n".to_string()),
        ]
    );
    let report = e.finish(&p);
    assert_eq!(report.baseline, Duration::from_millis(100));
    assert_eq!(report.timeout, Duration::from_millis(2300));
    let ids: Vec<usize> = report.results.iter().map(|r| r.mutant.id).collect();
    assert_eq!(ids, vec![1, 2, 3]);
    assert_eq!(
        (report.tally.total, report.tally.killed, report.tally.survived, report.tally.timeout),
        (3, 1, 1, 1)
    );
}

#[test]
fn an_explicit_timeout_wins_over_the_derived_one() {
    let p = plan(Some(Duration::from_secs(10)));
    let e = match Execution::start(&p, &run(false, true, Some(0), 100)) {
        Ok(e) => e,
        Err(_) => panic!("baseline passed"),
    };
    assert_eq!(e.finish(&p).timeout, Duration::from_secs(10));
}

#[test]
fn each_mutant_is_applied_to_the_pristine_source() {
    // Two mutants of one file: the second is applied to the original text,
    // not on top of the first.
    let p = plan(None);
    let mut e = match Execution::start(&p, &run(false, true, Some(0), 0)) {
        Ok(e) => e,
        Err(_) => panic!("baseline passed"),
    };
    let (_, _, first) = e.next(&p).unwrap();
    e.record(&p, Outcome::Killed, Duration::zero());
    let (_, _, second) = e.next(&p).unwrap();
    assert_eq!(first, "[ 1 -ne 2 ]\n");
    assert_eq!(second, "[ 2 -eq 2 ]\n");
}
