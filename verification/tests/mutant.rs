//! Tests of the `mutant` module.

use mutash::mutant::Mutant;

fn sample(offset: usize, len: usize, replacement: &str) -> Mutant {
    Mutant {
        id: 1,
        file: "s.sh".into(),
        op: "compare",
        line: 1,
        col: 1,
        offset,
        len,
        original: "x".into(),
        replacement: replacement.into(),
        descr: String::new(),
    }
}

#[test]
fn apply_replaces_deletes_and_grows_exactly_the_span() {
    assert_eq!(
        sample(5, 3, "-ne").apply("[ $a -eq 0 ]\n"),
        "[ $a -ne 0 ]\n"
    );
    assert_eq!(sample(3, 4, "").apply("rm -rf x\n"), "rm x\n");
    assert_eq!(
        sample(3, 3, "--recursive").apply("rm -rf x\n"),
        "rm --recursive x\n"
    );
    // Boundary spans: very start and very end of the source.
    assert_eq!(sample(0, 4, "false").apply("true"), "false");
}

#[test]
fn excerpt_returns_the_trimmed_line_of_the_mutation() {
    let src = "first\n  if [ $a -eq 0 ]; then\nlast\n";
    let m = sample(15, 3, "-ne"); // points at `-eq`
    assert_eq!(m.excerpt(src), "if [ $a -eq 0 ]; then");
}

#[test]
fn excerpt_on_first_and_last_lines() {
    let src = "alpha beta\ngamma";
    assert_eq!(sample(0, 5, "x").excerpt(src), "alpha beta");
    assert_eq!(sample(11, 5, "x").excerpt(src), "gamma");
}

#[test]
fn location_formats_file_line_col() {
    let mut m = sample(0, 1, "y");
    m.file = "deploy.sh".into();
    m.line = 12;
    m.col = 8;
    assert_eq!(m.location(), "deploy.sh:12:8");
}


#[test]
fn excerpt_trims_unicode_white_space_only() {
    let src = "\u{3000}\t if [ é ]\u{a0}\u{2009}\nnext";
    assert_eq!(sample(6, 1, "x").excerpt(src), "if [ é ]");
    assert_eq!(mutash::text::str_trim("\u{85}x\u{200b}"), "x\u{200b}");
}
