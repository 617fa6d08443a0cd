# mutash

Mutation testing for shell scripts: flip operators and flags token by
token, run the test command against every mutant in a disposable sandbox,
and grade the suite by how many mutants it kills.

## Layout

- `src/` is the library, verified with Verus:
  - `lexer`: the shell-aware scanner, specified as a state machine over the
    source bytes (`scan_spec`); `scan` computes exactly that.
  - `mutators`: the operator table, operator selection (`--only`/`--skip`)
    and mutant generation (`generate_spec`), pragmas included.
  - `spans`, `order`: what every scan and every generated mutant satisfies:
    spans on character boundaries (so every mutant applies to its script),
    tokens at their true line and column, and mutants in source order.
  - `mutant`: applying a mutant, its source excerpt and location.
  - `runner`: timeout policy, baseline verdict, per-mutant outcomes and the
    run itself as a state machine (`Execution`).
  - `report`: tally, grade, and the text and JSON reports.
  - `cli`: argument parsing, command selection, mutant numbering and the
    text of `list`, `ops` and the head of `run`.
  - `text`, `json`, `duration`: strings, JSON escaping, time spans.
- `app/main.rs` is the program around it: reading scripts, the sandbox copy,
  starting the test command, floating point (the score and the numbers on
  the command line), and printing.
- `tests/` runs the library on concrete inputs.
