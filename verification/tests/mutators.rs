//! Tests of the `mutators` module.

use mutash::mutators::{generate, OpSet, OPERATORS};
use mutash::mutant::Mutant;
use std::collections::BTreeSet;

fn gen(src: &str) -> Vec<Mutant> {
    generate(src, &OpSet::all())
}

fn descrs(src: &str) -> Vec<String> {
    gen(src).into_iter().map(|m| m.descr).collect()
}

fn ops_of(src: &str) -> Vec<&'static str> {
    gen(src).into_iter().map(|m| m.op).collect()
}

#[test]
fn numeric_comparisons_swap_inside_single_bracket() {
    let d = descrs("[ \"$n\" -eq 0 ]\n");
    assert!(d.contains(&"`-eq` -> `-ne`".to_string()), "{d:?}");
    // `-lt` -> `-le` only differs at the boundary value; a test suite
    // without an exact-boundary case cannot kill it.
    let d = descrs("if [ \"$n\" -lt 10 ]; then :; fi\n");
    assert!(d.contains(&"`-lt` -> `-le`".to_string()), "{d:?}");
}

#[test]
fn string_equality_swaps_inside_double_bracket() {
    let d = descrs("[[ $a == foo ]] && [[ $b != bar ]]\n");
    assert!(d.contains(&"`==` -> `!=`".to_string()));
    assert!(d.contains(&"`!=` -> `==`".to_string()));
}

#[test]
fn test_builtin_counts_as_a_test_context() {
    let d = descrs("test -f /etc/hosts && echo ok\n");
    assert!(d.contains(&"`-f` -> `-d`".to_string()), "{d:?}");
}

#[test]
fn eq_outside_a_test_is_untouched() {
    // `-eq` as a literal argument to a random command is not a test op.
    assert!(!descrs("printf '%s' x -eq y\n")
        .iter()
        .any(|d| d.contains("-ne")));
}

#[test]
fn angle_brackets_swap_only_inside_double_bracket() {
    let d = descrs("[[ $a < $b ]]\n");
    assert!(d.contains(&"`<` -> `>`".to_string()), "{d:?}");
    // Plain redirections must never be flipped.
    assert!(descrs("sort < in > out\n").is_empty());
}

#[test]
fn unary_string_and_file_tests_swap() {
    let d = descrs("[ -z \"$x\" ] || [ -n \"$y\" ]\n");
    assert!(d.contains(&"`-z` -> `-n`".to_string()));
    assert!(d.contains(&"`-n` -> `-z`".to_string()));
    let d = descrs("[[ -d $dir && -r $file ]]\n");
    assert!(d.contains(&"`-d` -> `-f`".to_string()));
    assert!(d.contains(&"`-r` -> `-w`".to_string()));
}

#[test]
fn connectives_swap_in_lists_and_single_brackets() {
    let d = descrs("make build && make test || notify\n");
    assert!(d.contains(&"`&&` -> `||`".to_string()));
    assert!(d.contains(&"`||` -> `&&`".to_string()));
    let d = descrs("[ -n \"$a\" -a -n \"$b\" ]\n");
    assert!(d.contains(&"`-a` -> `-o`".to_string()), "{d:?}");
    // Outside a test, `-a` is an ordinary flag (e.g. `ls -a`), not a connective.
    let outside = gen("ls -a\n");
    assert!(outside.iter().all(|m| m.op == "flag"), "{outside:?}");
}

#[test]
fn arithmetic_operator_swaps() {
    let d = descrs("total=$((total + i))\n");
    assert!(d.contains(&"`+` -> `-`".to_string()), "{d:?}");
    let d = descrs("x=$(( a * b / c ))\n");
    assert!(d.contains(&"`*` -> `/`".to_string()));
    assert!(d.contains(&"`/` -> `*`".to_string()));
    let d = descrs("(( i++, total += n ))\n");
    assert!(d.contains(&"`++` -> `--`".to_string()), "{d:?}");
    assert!(d.contains(&"`+=` -> `-=`".to_string()), "{d:?}");
}

#[test]
fn arithmetic_relational_ops_are_compare_mutants() {
    let m = gen("while (( i < n )); do :; done\n");
    let rel = m.iter().find(|m| m.original == "<").unwrap();
    assert_eq!(rel.op, "compare");
    assert_eq!(rel.replacement, "<=");
}

#[test]
fn numbers_in_tests_and_arithmetic_get_off_by_one_mutants() {
    let d = descrs("[ \"$#\" -eq 2 ]\n");
    assert!(d.contains(&"`2` -> `3`".to_string()), "{d:?}");
    assert!(d.contains(&"`2` -> `1`".to_string()), "{d:?}");
    let d = descrs("x=$(( y + 10 ))\n");
    assert!(d.contains(&"`10` -> `11`".to_string()));
    assert!(d.contains(&"`10` -> `9`".to_string()));
}

#[test]
fn bare_argument_numbers_are_left_alone() {
    // `head -n 5`: the 5 is data, not a decision — mutating it is noise.
    let m = gen("head -n 5 file\n");
    assert!(m.iter().all(|m| m.op == "flag"), "{m:?}");
}

#[test]
fn exit_statuses_flip_between_zero_and_nonzero() {
    let d = descrs("exit 0\n");
    assert!(d.contains(&"`0` -> `1`".to_string()));
    let d = descrs("exit 3\n");
    assert!(d.contains(&"`3` -> `0`".to_string()));
    let d = descrs("return 1\n");
    assert!(d.contains(&"`1` -> `0`".to_string()));
    // The status flip must not also produce number mutants for the token.
    let m = gen("exit 2\n");
    assert_eq!(m.len(), 1, "{m:?}");
    assert_eq!(m[0].op, "exit");
}

#[test]
fn flags_are_dropped_and_clusters_shrunk() {
    let m = gen("grep -q pattern file\n");
    assert_eq!(m.len(), 1);
    assert_eq!(m[0].op, "flag");
    assert_eq!(m[0].descr, "drop `-q`");
    let d = descrs("rm -rf build\n");
    assert!(d.contains(&"drop `-rf`".to_string()), "{d:?}");
    assert!(d.contains(&"`-rf` -> `-r`".to_string()), "{d:?}");
    let d = descrs("git clone --depth=1 url\n");
    assert!(d.contains(&"drop `--depth=1`".to_string()), "{d:?}");
}

#[test]
fn non_flags_are_never_dropped() {
    // Negative numbers and bare dashes are data.
    assert!(gen("seq -5 5\n").is_empty());
    assert!(gen("cmd - --\n").is_empty());
    // A `--help`-style word in command position is a command, not an argument.
    let m = gen("if true; then --weird; fi\n");
    assert!(m.iter().all(|m| m.op != "flag"), "{m:?}");
    // Quoted flags are string data.
    assert!(gen("printf '%s' '-q'\n").is_empty());
    assert!(gen("echo \"-rf\"\n").is_empty());
}

#[test]
fn negation_is_dropped_in_command_and_test_position() {
    let d = descrs("if ! grep -q x f; then exit 1; fi\n");
    assert!(d.contains(&"drop `!`".to_string()), "{d:?}");
    let d = descrs("[[ ! -f $x ]]\n");
    assert!(d.contains(&"drop `!`".to_string()), "{d:?}");
}

#[test]
fn true_false_swap_only_in_command_position() {
    let d = descrs("true && false\n");
    assert!(d.contains(&"`true` -> `false`".to_string()));
    assert!(d.contains(&"`false` -> `true`".to_string()));
    // As a plain argument, `true` is data.
    let m = gen("echo true\n");
    assert!(m.is_empty(), "{m:?}");
}

#[test]
fn deletion_swallows_one_adjacent_space() {
    let src = "grep -q pat file\n";
    let m = gen(src);
    let mutated = m[0].apply(src);
    assert_eq!(mutated, "grep pat file\n");
}

#[test]
fn mutants_inside_command_substitution_are_found() {
    let d = descrs("count=$(grep -c -q pat file || true)\n");
    assert!(d.contains(&"drop `-q`".to_string()), "{d:?}");
    assert!(d.contains(&"`||` -> `&&`".to_string()), "{d:?}");
}

#[test]
fn comments_heredocs_and_strings_yield_no_mutants() {
    let src = "# rm -rf && exit 1\ncat <<EOF\n[ 1 -eq 1 ] && true\nEOF\necho 'a && b'\n";
    assert!(gen(src).is_empty());
}

#[test]
fn pragma_skip_disables_a_single_line() {
    let src = "[ \"$a\" -eq 1 ] # mutash: skip\n[ \"$b\" -eq 2 ]\n";
    let m = gen(src);
    assert!(m.iter().all(|m| m.line == 2), "{m:?}");
    assert!(!m.is_empty());
}

#[test]
fn pragma_off_on_disables_a_range() {
    let src = "\
[ \"$a\" -eq 1 ]
# mutash: off
[ \"$b\" -eq 2 ]
[ \"$c\" -eq 3 ]
# mutash: on
[ \"$d\" -eq 4 ]
";
    let m = gen(src);
    let lines: BTreeSet<u32> = m.iter().map(|m| m.line).collect();
    assert!(lines.contains(&1));
    assert!(lines.contains(&6));
    assert!(!lines.contains(&3) && !lines.contains(&4), "{lines:?}");
}

#[test]
fn pragma_off_without_on_runs_to_end_of_file() {
    let src = "# mutash: off\n[ \"$a\" -eq 1 ]\n[ \"$b\" -eq 2 ]\n";
    assert!(gen(src).is_empty());
}

#[test]
fn opset_only_and_skip_select_operators() {
    let ops = OpSet::only("flag").unwrap();
    let m = generate("rm -rf x && [ -f y ]\n", &ops);
    assert!(m.iter().all(|m| m.op == "flag"), "{m:?}");
    assert!(!m.is_empty());
    let ops = OpSet::skip("flag,connective").unwrap();
    let m = generate("rm -rf x && [ -f y ]\n", &ops);
    assert!(m.iter().all(|m| m.op == "unary"), "{m:?}");
}

#[test]
fn opset_rejects_unknown_ids() {
    let err = OpSet::only("compare,bogus").unwrap_err();
    assert!(err.contains("bogus"));
}

#[test]
fn mutants_are_reported_in_source_order() {
    let src = "[ -f a ]\n[ -f b ]\n";
    let m = gen(src);
    let lines: Vec<u32> = m.iter().map(|m| m.line).collect();
    let mut sorted = lines.clone();
    sorted.sort_unstable();
    assert_eq!(lines, sorted);
}

#[test]
fn every_generated_op_id_is_documented() {
    let src = "\
#!/usr/bin/env bash
if ! [ \"$1\" -lt 3 ]; then exit 1; fi
[[ $a == b && -z $c ]]
x=$(( x + 1 ))
rm -rf tmp || true
";
    let known: BTreeSet<&str> = OPERATORS.iter().map(|(id, _, _)| *id).collect();
    for m in gen(src) {
        assert!(known.contains(m.op), "undocumented op id {}", m.op);
    }
    assert_eq!(ops_of(src).len(), gen(src).len());
}


// ---------------------------------------------------------------------
// Further cases.
// ---------------------------------------------------------------------

#[test]
fn generated_mutants_apply_to_multibyte_sources() {
    let src = "echo «é» --dé -xé && [ \"$é\" -eq 1 ] # ü\nrm -é ü\n[[ é < ü ]]\n";
    let m = gen(src);
    assert!(!m.is_empty());
    for mutant in &m {
        assert!(src.is_char_boundary(mutant.offset), "{mutant:?}");
        assert!(src.is_char_boundary(mutant.offset + mutant.len), "{mutant:?}");
        let _ = mutant.apply(src);
    }
}

#[test]
fn only_enabled_and_documented_operators_are_generated() {
    let src = "if ! [ \"$1\" -lt 3 ]; then exit 1; fi\nx=$(( x + 1 ))\nrm -rf tmp || true\n";
    let ops = OpSet::only("exit,arith").unwrap();
    let m = generate(src, &ops);
    assert!(!m.is_empty());
    for mutant in &m {
        assert!(mutant.op == "exit" || mutant.op == "arith", "{mutant:?}");
    }
    let none = OpSet::skip("compare,unary,connective,arith,number,exit,flag,negate,truth").unwrap();
    assert!(generate(src, &none).is_empty());
}

#[test]
fn deletion_swallows_the_space_before_at_line_end() {
    let src = "grep pat -q\n";
    let m = gen(src);
    assert_eq!(m.len(), 1);
    assert_eq!(m[0].apply(src), "grep pat\n");
}

#[test]
fn dash_a_and_dash_o_join_tests_in_single_brackets_only() {
    let d = descrs("test -n \"$a\" -o -n \"$b\"\n");
    assert!(d.contains(&"`-o` -> `-a`".to_string()), "{d:?}");
    // In `[[ ]]`, `-a` is the file-exists test, not a connective.
    let m = gen("[[ -a $f ]]\n");
    assert!(m.iter().all(|m| m.op != "connective"), "{m:?}");
}

fn fields(m: &Mutant) -> String {
    format!("{m:?}")
}

#[test]
fn selecting_operators_only_filters_the_full_set() {
    let src = "if ! [ \"$1\" -lt 3 ]; then exit 1; fi\n[[ $a == b && -z $c ]] || rm -rf tmp\nx=$(( x + 1 ))\ntrue\n";
    let all: Vec<String> = gen(src).iter().map(fields).collect();
    for list in ["flag,exit", "compare", "number,arith,truth", "negate,unary,connective"] {
        let ops = OpSet::only(list).unwrap();
        let picked: Vec<String> = generate(src, &ops).iter().map(fields).collect();
        let filtered: Vec<String> = gen(src)
            .iter()
            .filter(|m| ops.contains(m.op))
            .map(fields)
            .collect();
        assert_eq!(picked, filtered, "{list}");
        assert!(picked.len() < all.len(), "{list}");
    }
}

#[test]
fn mutants_come_in_line_then_column_order() {
    let src = "[ 1 -eq 2 ] && rm -rf x || [ -z \"$y\" ]\nexit 3\n";
    let m = gen(src);
    assert!(m.len() > 4);
    let pos: Vec<(u32, u32)> = m.iter().map(|m| (m.line, m.col)).collect();
    let mut sorted = pos.clone();
    sorted.sort();
    assert_eq!(pos, sorted);
}
