//! Tests of the `lexer` module.

use mutash::lexer::{scan, Pragma, TokKind};

fn words(src: &str) -> Vec<String> {
    scan(src)
        .tokens
        .into_iter()
        .filter(|t| t.kind == TokKind::Word)
        .map(|t| t.text)
        .collect()
}

fn kinds(src: &str) -> Vec<(TokKind, String)> {
    scan(src)
        .tokens
        .into_iter()
        .map(|t| (t.kind, t.text))
        .collect()
}

#[test]
fn splits_words_and_tracks_positions_across_lines() {
    let r = scan("echo hello\nbb ccc\n");
    let t: Vec<_> = r
        .tokens
        .iter()
        .filter(|t| t.kind == TokKind::Word)
        .collect();
    assert_eq!(t.len(), 4);
    assert_eq!(t[1].text, "hello");
    assert_eq!((t[1].offset, t[1].line, t[1].col), (5, 1, 6));
    assert_eq!((t[2].line, t[2].col), (2, 1));
    assert_eq!((t[3].line, t[3].col), (2, 4));
}

#[test]
fn comment_detection_matches_shell_rules() {
    // A real comment hides everything to end of line…
    assert_eq!(words("echo hi # rm -rf / && true"), vec!["echo", "hi"]);
    // …but `$#` (argc), `${#a}` (length) and mid-word `#` are not comments.
    assert_eq!(words("echo $# after").last().unwrap(), "after");
    assert_eq!(words("echo ${#a} after").last().unwrap(), "after");
    assert_eq!(words("echo a#b after"), vec!["echo", "a#b", "after"]);
}

#[test]
fn quoted_text_is_tainted_and_opaque() {
    // Single quotes: one word, tainted, nothing inside leaks out.
    let r = scan("echo '-f && exit 1'");
    let w: Vec<_> = r
        .tokens
        .iter()
        .filter(|t| t.kind == TokKind::Word)
        .collect();
    assert_eq!(w.len(), 2, "quoted string is one word: {:?}", w);
    assert!(w[1].tainted);
    assert!(!r.tokens.iter().any(|t| t.kind == TokKind::AndAnd));
    // Double quotes behave the same.
    let r = scan("echo \"a && b -eq c\"");
    assert!(!r.tokens.iter().any(|t| t.kind == TokKind::AndAnd));
    assert!(r
        .tokens
        .iter()
        .any(|t| t.kind == TokKind::Word && t.tainted));
}

#[test]
fn nested_quotes_in_command_substitution_inside_double_quotes() {
    // The inner `"bar"` must not terminate the outer double quote.
    let r = scan("x=\"$(foo \"bar\")\" after");
    let w: Vec<_> = r
        .tokens
        .iter()
        .filter(|t| t.kind == TokKind::Word)
        .collect();
    assert_eq!(w.last().unwrap().text, "after");
    assert_eq!(w.len(), 2);
}

#[test]
fn command_substitution_body_is_scanned_for_tokens() {
    // `&&` inside an unquoted $( ) is live code and must be visible.
    let r = scan("out=$(a && b)");
    assert!(r.tokens.iter().any(|t| t.kind == TokKind::AndAnd));
    let w: Vec<_> = r
        .tokens
        .iter()
        .filter(|t| t.kind == TokKind::Word)
        .collect();
    assert!(w.iter().any(|t| t.text == "a" && t.cmd_pos));
}

#[test]
fn word_resumes_after_command_substitution() {
    let r = scan("f=$(date).log next");
    let w: Vec<_> = r
        .tokens
        .iter()
        .filter(|t| t.kind == TokKind::Word)
        .collect();
    assert_eq!(w.last().unwrap().text, "next");
    // The assignment word is tainted (contains an expansion).
    assert!(w.iter().any(|t| t.tainted));
}

#[test]
fn backtick_body_is_skipped() {
    let r = scan("x=`a && b` after");
    assert!(!r.tokens.iter().any(|t| t.kind == TokKind::AndAnd));
    let w: Vec<_> = r
        .tokens
        .iter()
        .filter(|t| t.kind == TokKind::Word)
        .collect();
    assert_eq!(w.last().unwrap().text, "after");
}

#[test]
fn heredoc_body_is_skipped() {
    let src = "cat <<EOF\n[ 1 -eq 1 ] && true\nEOF\necho after\n";
    let w = words(src);
    assert_eq!(w, vec!["cat", "echo", "after"]);
}

#[test]
fn heredoc_variants_dash_quoted_and_stacked() {
    // `<<-` strips leading tabs before matching the delimiter.
    let src = "cat <<-END\n\tbody && text\n\tEND\necho after\n";
    assert_eq!(words(src), vec!["cat", "echo", "after"]);
    // Quoted delimiters are unquoted before matching.
    let src = "cat <<'EOF'\n$x && $y\nEOF\necho after\n";
    assert_eq!(words(src), vec!["cat", "echo", "after"]);
    // Two heredocs registered on one line are consumed in order.
    let src = "diff <(cat <<A\n1 -eq 1\nA\n) - <<B\n2 -ne 2\nB\necho after\n";
    let w = words(src);
    assert_eq!(w.last().unwrap(), "after");
    assert!(!w.iter().any(|t| t == "-eq" || t == "-ne"));
}

#[test]
fn herestring_is_not_a_heredoc() {
    let w = words("cmd <<< data\necho after\n");
    assert_eq!(w, vec!["cmd", "data", "echo", "after"]);
}

#[test]
fn escapes_taint_words_and_continuations_keep_line_numbers() {
    let r = scan("echo \\-f");
    let w: Vec<_> = r
        .tokens
        .iter()
        .filter(|t| t.kind == TokKind::Word)
        .collect();
    assert!(w[1].tainted, "escaped chars must taint the word");
    let r = scan("echo a \\\nb\necho c\n");
    let c = r
        .tokens
        .iter()
        .find(|t| t.kind == TokKind::Word && t.text == "c")
        .unwrap();
    assert_eq!(
        c.line, 3,
        "a `\\` line continuation still counts its newline"
    );
}

#[test]
fn command_position_tracking() {
    let r = scan("if grep -q x f; then echo y && ls; fi\n");
    let pos: Vec<(String, bool)> = r
        .tokens
        .iter()
        .filter(|t| t.kind == TokKind::Word)
        .map(|t| (t.text.clone(), t.cmd_pos))
        .collect();
    let get = |name: &str| pos.iter().find(|(t, _)| t == name).unwrap().1;
    assert!(get("grep"), "word after `if` is a command");
    assert!(get("echo"), "word after `then` is a command");
    assert!(get("ls"), "word after `&&` is a command");
    assert!(!get("-q"), "flag is not in command position");
    assert!(!get("y"), "argument is not in command position");
}

#[test]
fn and_or_separators_are_distinct_tokens() {
    let k = kinds("a && b || c; d | e & f");
    assert!(k.contains(&(TokKind::AndAnd, "&&".into())));
    assert!(k.contains(&(TokKind::OrOr, "||".into())));
    assert!(k.contains(&(TokKind::Sep, ";".into())));
    assert!(k.contains(&(TokKind::Sep, "|".into())));
    assert!(k.contains(&(TokKind::Sep, "&".into())));
}

#[test]
fn redirection_angles_are_seps_not_words() {
    let r = scan("sort < in > out");
    let seps: Vec<_> = r
        .tokens
        .iter()
        .filter(|t| t.kind == TokKind::Sep && (t.text == "<" || t.text == ">"))
        .collect();
    assert_eq!(seps.len(), 2);
    assert_eq!(words("sort < in > out"), vec!["sort", "in", "out"]);
}

fn arith_ops(src: &str) -> Vec<String> {
    scan(src)
        .tokens
        .into_iter()
        .filter(|t| t.kind == TokKind::ArithOp)
        .map(|t| t.text)
        .collect()
}

fn arith_nums(src: &str) -> Vec<String> {
    scan(src)
        .tokens
        .into_iter()
        .filter(|t| t.kind == TokKind::ArithNum)
        .map(|t| t.text)
        .collect()
}

#[test]
fn arithmetic_ops_and_numbers_are_tokenized() {
    assert_eq!(arith_ops("x=$((a + 3 * b))"), vec!["+", "*"]);
    assert_eq!(arith_nums("x=$((a + 3 * b))"), vec!["3"]);
    // Nested parens do not end the expression early.
    assert_eq!(arith_ops("x=$(( (a + b) * 2 )) after=1"), vec!["+", "*"]);
    let w = words("x=$(( (a + b) * 2 )) after=1");
    assert_eq!(w.last().unwrap(), "after=1");
}

#[test]
fn arith_signs_and_base_literals_are_not_mutation_targets() {
    // A leading `-` is a sign, not a binary operator.
    assert_eq!(arith_ops("x=$(( -3 + y ))"), vec!["+"]);
    // `16#ff` is a base literal, not an integer to nudge.
    assert_eq!(arith_nums("x=$(( 16#ff + 2 ))"), vec!["2"]);
}

#[test]
fn arith_compound_operators_are_matched_longest_first() {
    let ops = arith_ops("x=$(( a <= b )) y=$(( c << 2 ))");
    assert_eq!(
        ops,
        vec!["<="],
        "`<<` shift is consumed, not split into `<` `<`"
    );
}

#[test]
fn arith_command_form_for_loop() {
    let src = "for ((i=0; i<n; i++)); do :; done\n";
    assert_eq!(arith_ops(src), vec!["<", "++"]);
    assert_eq!(arith_nums(src), vec!["0"]);
}

#[test]
fn pragmas_are_recorded_with_line_numbers() {
    let src = "# mutash: off\na\n# mutash: on\nb # mutash: skip\n";
    let r = scan(src);
    assert_eq!(
        r.pragmas,
        vec![(1, Pragma::Off), (3, Pragma::On), (4, Pragma::SkipLine)]
    );
}

#[test]
fn degenerate_sources_scan_cleanly() {
    assert_eq!(words("#!/usr/bin/env bash\necho hi\n"), vec!["echo", "hi"]);
    assert!(scan("").tokens.is_empty());
    let r = scan("   \n\t\n");
    assert!(r.tokens.iter().all(|t| t.kind == TokKind::Sep));
}


// ---------------------------------------------------------------------
// Further cases.
// ---------------------------------------------------------------------

#[test]
fn token_spans_start_and_end_on_character_boundaries() {
    let src = "é=1 «x» && [ ü -eq 2 ] # ñ\ncat <<É\nbody ü\nÉ\necho $((1 + 2))é ü|ü\n";
    let r = scan(src);
    assert!(!r.tokens.is_empty());
    for t in &r.tokens {
        assert!(src.is_char_boundary(t.offset), "{t:?}");
        assert!(src.is_char_boundary(t.offset + t.len), "{t:?}");
    }
}

#[test]
fn live_token_lines_never_go_back() {
    let src = "a=$(b &&\n c)\n[ 1 -eq 2 ] || x\ny=$((\n1 + 2))\nz\n";
    let r = scan(src);
    let lines: Vec<u32> = r
        .tokens
        .iter()
        .filter(|t| !t.tainted)
        .map(|t| t.line)
        .collect();
    let mut sorted = lines.clone();
    sorted.sort_unstable();
    assert_eq!(lines, sorted);
}

#[test]
fn tokens_sit_at_their_line_and_column() {
    let src = "echo a\n  [ 1 -eq 2 ] && x=$((3 + 4))\n\tcat <<E\nbody\nE\nls | wc\n";
    let r = scan(src);
    for t in &r.tokens {
        assert!(t.len > 0, "{t:?}");
        let before = &src[..t.offset];
        assert_eq!(t.line as usize, 1 + before.matches('\n').count(), "{t:?}");
        let line_start = before.rfind('\n').map_or(0, |k| k + 1);
        assert_eq!(t.col as usize, t.offset - line_start + 1, "{t:?}");
        if t.kind != TokKind::Word {
            assert_eq!(t.text, &src[t.offset..t.offset + t.len], "{t:?}");
        }
    }
}
