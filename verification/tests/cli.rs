//! Tests of the `cli` module.

use mutash::cli::{
    command_of, counted, list_mutants, ops_reference, parse_common, plan_files, relative_from,
    relative_to, render_list_text, render_run_header, Command, NumArg, USAGE,
};
use mutash::mutators::{OpSet, OPERATORS};

fn s(v: &[&str]) -> Vec<String> {
    v.iter().map(|x| x.to_string()).collect()
}

/// How each argument reads as a number, as the program classifies it.
fn nums(args: &[String]) -> Vec<NumArg> {
    args.iter()
        .map(|a| match a.parse::<f64>() {
            Ok(x) => NumArg::Number {
                positive: x > 0.0,
                percent: (0.0..=100.0).contains(&x),
            },
            Err(_) => NumArg::Unparsable,
        })
        .collect()
}

fn parse(args: &[&str], allow: &[&str]) -> Result<(mutash::cli::Common, mutash::cli::RunOpts), String> {
    let args = s(args);
    parse_common(&args, allow, &nums(&args))
}

#[test]
fn parse_rejects_unknown_options() {
    let err = parse(&["x.sh", "--frobnicate"], &[]).unwrap_err();
    assert!(err.contains("--frobnicate"));
}

#[test]
fn parse_rejects_missing_values() {
    let err = parse(&["x.sh", "--only"], &[]).unwrap_err();
    assert!(err.contains("--only needs a value"));
}

#[test]
fn parse_requires_a_script() {
    let err = parse(&["--json"], &[]).unwrap_err();
    assert!(err.contains("no script"));
}

#[test]
fn parse_rejects_only_plus_skip() {
    let err = parse(&["x.sh", "--only", "flag", "--skip", "exit"], &[]).unwrap_err();
    assert!(err.contains("mutually exclusive"));
}

#[test]
fn parse_rejects_run_options_where_not_allowed() {
    // `list` does not take --tests, and the error says so precisely.
    let err = parse(&["x.sh", "--tests", "true"], &[]).unwrap_err();
    assert_eq!(err, "--tests only applies to `mutash run`");
}

#[test]
fn parse_validates_timeout_and_min_score() {
    let allow = ["--tests", "--root", "--timeout", "--min-score"];
    let err = parse(&["x.sh", "--timeout", "nope"], &allow).unwrap_err();
    assert!(err.contains("seconds"));
    let err = parse(&["x.sh", "--timeout", "-1"], &allow).unwrap_err();
    assert!(err.contains("positive"));
    let err = parse(&["x.sh", "--min-score", "150"], &allow).unwrap_err();
    assert!(err.contains("between 0 and 100"));
}

#[test]
fn parse_accepts_a_full_run_invocation() {
    let allow = ["--tests", "--root", "--timeout", "--min-score"];
    let (common, run) = parse(
        &[
            "deploy.sh",
            "--tests",
            "sh t.sh",
            "--timeout",
            "2.5",
            "--min-score",
            "90",
            "--json",
        ],
        &allow,
    )
    .unwrap();
    assert_eq!(common.scripts, vec!["deploy.sh"]);
    assert!(common.json);
    assert_eq!(run.tests, "sh t.sh");
    assert_eq!(
        run.timeout.map(|t| std::time::Duration::from_secs_f64(t.parse().unwrap())),
        Some(std::time::Duration::from_secs_f64(2.5))
    );
    assert_eq!(run.min_score.map(|p| p.parse::<f64>().unwrap()), Some(90.0));
}

#[test]
fn usage_names_all_commands_and_exit_codes() {
    for needle in [
        "COMMANDS:",
        "run",
        "list",
        "ops",
        "--min-score",
        "EXIT CODES:",
    ] {
        assert!(USAGE.contains(needle), "usage missing {needle}");
    }
}

// ---------------------------------------------------------------------
// Further cases.
// ---------------------------------------------------------------------

#[test]
fn parse_defaults_and_operator_selection() {
    let (common, run) = parse(&["a.sh", "b.sh"], &[]).unwrap();
    assert_eq!(common.scripts, vec!["a.sh", "b.sh"]);
    assert!(!common.json);
    assert_eq!(run.tests, "bats tests");
    assert_eq!(run.root, ".");
    assert_eq!(run.timeout, None);
    assert_eq!(run.min_score, None);
    for (id, _, _) in OPERATORS {
        assert!(common.ops.contains(id));
    }
    let (common, _) = parse(&["a.sh", "--only", "flag,exit"], &[]).unwrap();
    assert!(common.ops.contains("flag") && common.ops.contains("exit"));
    assert!(!common.ops.contains("compare"));
    let (common, _) = parse(&["a.sh", "--skip", "flag"], &[]).unwrap();
    assert!(!common.ops.contains("flag") && common.ops.contains("compare"));
    let err = parse(&["a.sh", "--skip", "nope"], &[]).unwrap_err();
    assert_eq!(err, "unknown operator `nope` (run `mutash ops` for the list)");
}

#[test]
fn parse_reports_the_first_problem() {
    let allow = ["--tests", "--root", "--timeout", "--min-score"];
    // The timeout error comes before the unknown option after it.
    let err = parse(&["a.sh", "--timeout", "0", "--frob"], &allow).unwrap_err();
    assert_eq!(err, "--timeout must be positive");
    let err = parse(&["a.sh", "--frob", "--timeout", "0"], &allow).unwrap_err();
    assert_eq!(err, "unknown option `--frob`");
    let err = parse(&["a.sh", "--min-score", "x"], &allow).unwrap_err();
    assert_eq!(err, "--min-score expects a percentage (0-100)");
    let err = parse(&["a.sh", "--root"], &allow).unwrap_err();
    assert_eq!(err, "--root needs a value");
    let (_, run) = parse(&["a.sh", "--root", "/p", "--min-score", "0"], &allow).unwrap();
    assert_eq!((run.root.as_str(), run.min_score.as_deref()), ("/p", Some("0")));
    // A value that looks like an option is taken as the value.
    let (_, run) = parse(&["a.sh", "--tests", "--json"], &allow).unwrap();
    assert_eq!(run.tests, "--json");
}

#[test]
fn counted_pluralizes() {
    assert_eq!(counted(1, "mutant"), "1 mutant");
    assert_eq!(counted(0, "mutant"), "0 mutants");
    assert_eq!(counted(12, "file"), "12 files");
}

#[test]
fn commands_are_recognized() {
    assert_eq!(command_of(&[]), Command::Missing);
    assert_eq!(command_of(&s(&["--version"])), Command::Version);
    assert_eq!(command_of(&s(&["-V"])), Command::Version);
    assert_eq!(command_of(&s(&["help"])), Command::Help);
    assert_eq!(command_of(&s(&["-h", "x"])), Command::Help);
    assert_eq!(command_of(&s(&["ops"])), Command::Ops);
    assert_eq!(command_of(&s(&["run", "a.sh"])), Command::Run);
    assert_eq!(command_of(&s(&["list", "a.sh"])), Command::List);
    assert_eq!(command_of(&s(&["lst"])), Command::Unknown);
}

#[test]
fn ops_reference_lists_every_operator() {
    let text = ops_reference();
    assert!(text.starts_with("mutash mutation operators\n\n  ID           CONTEXT                    EXAMPLES\n"), "{text}");
    assert!(text.contains("  compare      [ ], [[ ]], test, $(( ))   -eq -> -ne, -lt -> -le, < -> <=\n"), "{text}");
    for (id, _, _) in OPERATORS {
        assert!(text.contains(&format!("  {id:<12} ")), "{text}");
    }
    assert!(text.ends_with("(comma-separated).\n"), "{text}");
}

fn sources() -> Vec<(String, String)> {
    vec![
        ("a.sh".to_string(), "[ \"$x\" -eq 1 ]\n".to_string()),
        ("b.sh".to_string(), "echo hi\n".to_string()),
        ("c.sh".to_string(), "rm -rf x\n".to_string()),
    ]
}

#[test]
fn plans_number_mutants_across_files() {
    let files = plan_files(&sources(), &OpSet::all());
    assert_eq!(files.len(), 3);
    assert_eq!(files[0].rel, "a.sh");
    assert_eq!(files[2].source, "rm -rf x\n");
    let ids: Vec<(usize, String)> = files
        .iter()
        .flat_map(|f| f.mutants.iter().map(|m| (m.id, m.file.clone())))
        .collect();
    assert_eq!(
        ids,
        vec![
            (1, "a.sh".to_string()),
            (2, "a.sh".to_string()),
            (3, "a.sh".to_string()),
            (4, "c.sh".to_string()),
            (5, "c.sh".to_string()),
        ]
    );
    let all = list_mutants(&sources(), &OpSet::all());
    let listed: Vec<usize> = all.iter().map(|m| m.id).collect();
    assert_eq!(listed, vec![1, 2, 3, 4, 5]);
}

#[test]
fn list_text_groups_by_file() {
    let src = sources();
    let all = list_mutants(&src, &OpSet::all());
    let text = render_list_text(&all, &src, src.len());
    assert!(text.starts_with("a.sh — 3 mutants\n\n  #1    1:8  compare     `-eq` -> `-ne`\n        [ \"$x\" -eq 1 ]\n"), "{text}");
    assert!(text.contains("c.sh — 2 mutants\n\n  #4    1:4  flag        drop `-rf`\n        rm -rf x\n"), "{text}");
    assert!(!text.contains("b.sh"), "{text}");
    assert!(text.ends_with("\nTotal: 5 mutants across 3 files\n"), "{text}");
    let none = render_list_text(&[], &[], 1);
    assert_eq!(none, "Total: 0 mutants across 1 file\n");
}

#[test]
fn run_header_names_targets_and_notes_an_empty_plan() {
    let files = plan_files(&sources(), &OpSet::all());
    let text = render_run_header("sh t.sh", &files);
    assert_eq!(
        text,
        "mutash 0.1.0 — mutation run\n  tests:    sh t.sh\n  target:   a.sh (3 mutants)\n  target:   b.sh (0 mutants)\n  target:   c.sh (2 mutants)\n"
    );
    let quiet = plan_files(&sources()[1..2], &OpSet::all());
    let text = render_run_header("t", &quiet);
    assert!(text.ends_with("\nNo mutants generated — nothing to grade.\n"), "{text}");
}

#[test]
fn scripts_are_made_relative_to_the_root() {
    assert_eq!(
        relative_to("s.sh", "/p/q/s.sh", "/p"),
        Ok("q/s.sh".to_string())
    );
    let err = relative_to("../s.sh", "/other/s.sh", "/p").unwrap_err();
    assert_eq!(
        err,
        "../s.sh is outside the project root /p — pass --root to a directory containing both the script and its tests"
    );
    assert_eq!(relative_from("a", "/r", Some("a".to_string())), Ok("a".to_string()));
    assert!(relative_from("a", "/r", None).is_err());
}
