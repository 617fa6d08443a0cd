//! Tests of the `report` module.

use mutash::duration::Duration;
use mutash::mutant::Mutant;
use mutash::report::{render_list_json, render_run_json, render_run_summary, MutantResult, Tally};
use mutash::runner::Outcome;

fn mutant(id: usize, file: &str) -> Mutant {
    Mutant {
        id,
        file: file.into(),
        op: "compare",
        line: 2,
        col: 6,
        offset: 10,
        len: 3,
        original: "-eq".into(),
        replacement: "-ne".into(),
        descr: "`-eq` -> `-ne`".into(),
    }
}

fn result(id: usize, outcome: Outcome) -> MutantResult {
    MutantResult {
        mutant: mutant(id, "s.sh"),
        outcome,
        duration: Duration::from_millis(40),
    }
}

fn tally_of(results: &[MutantResult]) -> Tally {
    let mut t = Tally::default();
    for r in results {
        t.count(r.outcome);
    }
    t
}

/// The score as the program renders it: percent detected, one decimal.
fn score_text(t: &Tally) -> String {
    let score = if t.total == 0 {
        100.0
    } else {
        (t.killed + t.timeout) as f64 * 100.0 / t.total as f64
    };
    format!("{score:.1}")
}

#[test]
fn tally_counts_every_outcome_bucket() {
    let mut t = Tally::default();
    for o in [
        Outcome::Killed,
        Outcome::Killed,
        Outcome::Survived,
        Outcome::Timeout,
        Outcome::Error,
    ] {
        t.count(o);
    }
    assert_eq!(
        (t.total, t.killed, t.survived, t.timeout, t.error),
        (5, 2, 1, 1, 1)
    );
}

#[test]
fn summary_lists_survivors_with_excerpts() {
    let results = vec![result(1, Outcome::Killed), result(2, Outcome::Survived)];
    let sources = vec![(
        "s.sh".to_string(),
        "line one\nif [ -eq ]; then\n".to_string(),
    )];
    let tally = tally_of(&results);
    let text = render_run_summary(&results, &sources, &tally, &score_text(&tally));
    assert!(text.contains("Survivors (1):"), "{text}");
    assert!(text.contains("#2  s.sh:2:6"), "{text}");
    assert!(text.contains("> if [ -eq ]; then"), "{text}");
    // Buckets sum to the total; `detected` = killed + timeout.
    assert!(
        text.contains("Score: 50.0%  (1/2 detected: 1 killed, 1 survived, 0 timeout, 0 error)"),
        "{text}"
    );
    assert!(text.contains("Grade: F"), "{text}");
    // With no survivors the section disappears entirely.
    let clean = vec![result(1, Outcome::Killed)];
    let tally = tally_of(&clean);
    let text = render_run_summary(&clean, &[], &tally, &score_text(&tally));
    assert!(!text.contains("Survivors"), "{text}");
    assert!(text.contains("Grade: A+"), "{text}");
}

#[test]
fn run_json_is_well_formed_and_complete() {
    let results = vec![result(1, Outcome::Killed), result(2, Outcome::Survived)];
    let tally = tally_of(&results);
    let json = render_run_json(
        "bats tests",
        Duration::from_millis(300),
        Duration::from_millis(2900),
        &results,
        &tally,
        &score_text(&tally),
    );
    assert!(json.contains("\"tool\": \"mutash\""));
    assert!(json.contains("\"baseline_ms\": 300"));
    assert!(json.contains("\"timeout_ms\": 2900"));
    assert!(json.contains("\"outcome\": \"killed\""));
    assert!(json.contains("\"outcome\": \"survived\""));
    assert!(json.contains("\"score\": 50.0"));
    // Balanced braces/brackets — a cheap structural sanity check.
    assert_eq!(json.matches('{').count(), json.matches('}').count());
    assert_eq!(json.matches('[').count(), json.matches(']').count());
}

#[test]
fn list_json_has_no_outcome_fields() {
    let json = render_list_json(&[mutant(1, "s.sh")]);
    assert!(json.contains("\"total\": 1"));
    assert!(!json.contains("outcome"));
    assert_eq!(json.matches('{').count(), json.matches('}').count());
}

#[test]
fn json_escapes_special_characters_in_fields() {
    let mut m = mutant(1, "dir/my \"odd\" script.sh");
    m.replacement = "a\\b".into();
    let json = render_list_json(&[m]);
    assert!(json.contains("my \\\"odd\\\" script.sh"), "{json}");
    assert!(json.contains("a\\\\b"), "{json}");
}

// ---------------------------------------------------------------------
// Further cases.
// ---------------------------------------------------------------------

fn tally(killed: usize, survived: usize, timeout: usize, error: usize) -> Tally {
    Tally {
        total: killed + survived + timeout + error,
        killed,
        survived,
        timeout,
        error,
    }
}

#[test]
fn empty_run_grades_a_plus() {
    assert_eq!(Tally::default().grade(), "A+");
    assert_eq!(Tally::default(), tally(0, 0, 0, 0));
}

#[test]
fn grade_thresholds_are_inclusive_on_the_counts() {
    assert_eq!(tally(10, 0, 0, 0).grade(), "A+");
    assert_eq!(tally(9, 1, 0, 0).grade(), "A");
    assert_eq!(tally(999, 1, 0, 0).grade(), "A");
    assert_eq!(tally(89, 11, 0, 0).grade(), "B");
    assert_eq!(tally(8, 2, 0, 0).grade(), "B");
    assert_eq!(tally(7, 3, 0, 0).grade(), "C");
    assert_eq!(tally(6, 4, 0, 0).grade(), "D");
    assert_eq!(tally(59, 41, 0, 0).grade(), "F");
    assert_eq!(tally(0, 5, 0, 0).grade(), "F");
}

#[test]
fn timeouts_count_as_detections_and_errors_against() {
    // 1 killed + 1 timeout of 4: 50%.
    assert_eq!(tally(1, 2, 1, 0).grade(), "F");
    // 9 timeouts of 10: 90%.
    assert_eq!(tally(0, 1, 9, 0).grade(), "A");
    // An error is not a detection.
    assert_eq!(tally(9, 0, 0, 1).grade(), "A");
    assert_eq!(tally(0, 0, 0, 1).grade(), "F");
}

#[test]
fn counting_keeps_the_buckets_summing_to_the_total() {
    let mut t = Tally::default();
    let outcomes = [
        Outcome::Error,
        Outcome::Timeout,
        Outcome::Survived,
        Outcome::Killed,
        Outcome::Survived,
    ];
    for o in outcomes {
        t.count(o);
        assert_eq!(t.total, t.killed + t.survived + t.timeout + t.error);
    }
    assert_eq!(t, tally(1, 2, 1, 1));
}

#[test]
fn summary_text_is_exact() {
    let results = vec![result(3, Outcome::Survived), result(4, Outcome::Timeout)];
    let sources = vec![("s.sh".to_string(), "a\n b -eq c \nd\n".to_string())];
    let tally = tally_of(&results);
    let text = render_run_summary(&results, &sources, &tally, "50.0");
    assert_eq!(
        text,
        "\nSurvivors (1):\n\n  #3  s.sh:2:6  compare  `-eq` -> `-ne`\n      > b -eq c\n\
         \nScore: 50.0%  (1/2 detected: 0 killed, 1 survived, 1 timeout, 0 error)   Grade: F\n"
    );
}

#[test]
fn survivor_without_its_source_has_no_excerpt() {
    let results = vec![result(7, Outcome::Survived)];
    let tally = tally_of(&results);
    let sources = vec![("other.sh".to_string(), "x -eq y\n".to_string())];
    let text = render_run_summary(&results, &sources, &tally, "0.0");
    assert!(text.contains("#7  s.sh:2:6"), "{text}");
    assert!(!text.contains("      >"), "{text}");
}

#[test]
fn list_json_is_exact() {
    let json = render_list_json(&[mutant(1, "s.sh"), mutant(2, "t.sh")]);
    assert_eq!(
        json,
        "{\n  \"tool\": \"mutash\",\n  \"version\": \"0.1.0\",\n  \"mutants\": [\n\
         \x20   {\"id\": 1, \"file\": \"s.sh\", \"line\": 2, \"col\": 6, \"op\": \"compare\", \"original\": \"-eq\", \"replacement\": \"-ne\"},\n\
         \x20   {\"id\": 2, \"file\": \"t.sh\", \"line\": 2, \"col\": 6, \"op\": \"compare\", \"original\": \"-eq\", \"replacement\": \"-ne\"}\n\
         \x20 ],\n  \"total\": 2\n}\n"
    );
    let empty = render_list_json(&[]);
    assert_eq!(
        empty,
        "{\n  \"tool\": \"mutash\",\n  \"version\": \"0.1.0\",\n  \"mutants\": [\n  ],\n  \"total\": 0\n}\n"
    );
}

#[test]
fn run_json_reports_milliseconds_and_summary() {
    let results = vec![MutantResult {
        mutant: mutant(5, "s.sh"),
        outcome: Outcome::Error,
        duration: Duration::from_parts(1, 999_999),
    }];
    let tally = tally_of(&results);
    let json = render_run_json(
        "sh \"t\".sh",
        Duration::from_parts(0, 1_500_000),
        Duration::from_secs(3),
        &results,
        &tally,
        "0.0",
    );
    assert!(json.contains("\"tests\": \"sh \\\"t\\\".sh\""), "{json}");
    assert!(json.contains("\"baseline_ms\": 1,"), "{json}");
    assert!(json.contains("\"timeout_ms\": 3000,"), "{json}");
    assert!(json.contains("\"outcome\": \"error\", \"ms\": 1000}"), "{json}");
    assert!(json.contains(
        "\"summary\": {\"total\": 1, \"killed\": 0, \"survived\": 0, \"timeout\": 0, \"error\": 1, \"score\": 0.0, \"grade\": \"F\"}"
    ), "{json}");
}
