//! Tests of the `json` module.

use mutash::json::esc;

#[test]
fn escapes_every_class_of_special_character() {
    assert_eq!(esc(r#"a "b" \c"#), r#"a \"b\" \\c"#);
    assert_eq!(esc("a\nb\tc\r"), "a\\nb\\tc\\r");
    assert_eq!(esc("\u{1}"), "\\u0001");
}

#[test]
fn passes_plain_and_multibyte_text_through() {
    assert_eq!(esc("plain -eq text"), "plain -eq text");
    assert_eq!(esc("café ✓"), "café ✓");
}

// ---------------------------------------------------------------------
// Further cases.
// ---------------------------------------------------------------------

#[test]
fn control_characters_become_unicode_escapes() {
    assert_eq!(esc("\u{0}"), "\\u0000");
    assert_eq!(esc("\u{b}"), "\\u000b");
    assert_eq!(esc("\u{1f}"), "\\u001f");
    assert_eq!(esc(" \u{7f}"), " \u{7f}");
}

#[test]
fn escaped_text_has_no_control_characters() {
    let all: String = (0u32..0x80).filter_map(char::from_u32).collect();
    let e = esc(&all);
    assert!(e.chars().all(|c| c as u32 >= 0x20), "{e:?}");
    assert!(e.starts_with("\\u0000\\u0001"), "{e:?}");
    assert!(e.contains("\\t\\n\\u000b\\u000c\\r"), "{e:?}");
    assert!(e.contains(" !\\\"#"), "{e:?}");
    assert!(e.contains("[\\\\]"), "{e:?}");
}
