//! Minimal JSON emission helpers: a string escaper for the report schema.

use vstd::prelude::*;
use crate::text::push_char;

verus! {

/// Lowercase hexadecimal digit for `d` in `0..16`.
pub open spec fn hex_digit(d: int) -> char {
    if d < 10 {
        (48 + d) as char
    } else {
        (87 + d) as char
    }
}

/// The JSON escape of one character.
pub open spec fn esc_char(c: char) -> Seq<char> {
    if c == '"' {
        seq!['\\', '"']
    } else if c == '\\' {
        seq!['\\', '\\']
    } else if c == '\n' {
        seq!['\\', 'n']
    } else if c == '\r' {
        seq!['\\', 'r']
    } else if c == '\t' {
        seq!['\\', 't']
    } else if (c as u32) < 0x20 {
        seq!['\\', 'u', '0', '0', hex_digit((c as u32) as int / 16), hex_digit((c as u32) as int % 16)]
    } else {
        seq![c]
    }
}

/// The JSON string-literal escape of `s`, character by character.
pub open spec fn esc_spec(s: Seq<char>) -> Seq<char>
    decreases s.len(),
{
    if s.len() == 0 {
        Seq::empty()
    } else {
        esc_spec(s.drop_last()) + esc_char(s.last())
    }
}

fn hex_digit_exec(d: u32) -> (c: char)
    requires
        d < 16,
    ensures
        c == hex_digit(d as int),
{
    if d < 10 {
        ((48 + d) as u8) as char
    } else {
        ((87 + d) as u8) as char
    }
}

fn push_esc_char(out: &mut String, c: char)
    ensures
        final(out)@ == old(out)@ + esc_char(c),
{
    let ghost o = out@;
    if c == '"' {
        push_char(out, '\\');
        push_char(out, '"');
    } else if c == '\\' {
        push_char(out, '\\');
        push_char(out, '\\');
    } else if c == '\n' {
        push_char(out, '\\');
        push_char(out, 'n');
    } else if c == '\r' {
        push_char(out, '\\');
        push_char(out, 'r');
    } else if c == '\t' {
        push_char(out, '\\');
        push_char(out, 't');
    } else if (c as u32) < 0x20 {
        let v = c as u32;
        push_char(out, '\\');
        push_char(out, 'u');
        push_char(out, '0');
        push_char(out, '0');
        push_char(out, hex_digit_exec(v / 16));
        push_char(out, hex_digit_exec(v % 16));
    } else {
        push_char(out, c);
    }
    assert(out@ =~= o + esc_char(c));
}

/// Escape a string for inclusion inside a JSON string literal.
pub fn esc(s: &str) -> (out: String)
    ensures
        out@ == esc_spec(s@),
{
    broadcast use vstd::string::group_string_axioms;
    let mut out = String::new();
    for c in it: s.chars()
        invariant
            it.seq() == s@,
            out@ == esc_spec(s@.take(it.index())),
    {
        assert(s@.take(it.index() + 1).drop_last() =~= s@.take(it.index()));
        push_esc_char(&mut out, c);
    }
    assert(s@.take(s@.len() as int) =~= s@);
    out
}

/// The escape of any text holds no control character (below U+0020), as
/// a JSON string literal requires.
pub proof fn lemma_esc_has_no_control_chars(s: Seq<char>)
    ensures
        forall|k: int| 0 <= k < esc_spec(s).len() ==> (#[trigger] esc_spec(s)[k]) as u32 >= 0x20,
    decreases s.len(),
{
    if s.len() > 0 {
        lemma_esc_has_no_control_chars(s.drop_last());
        let pre = esc_spec(s.drop_last());
        let e = esc_char(s.last());
        let c = s.last();
        if (c as u32) < 0x20 && c != '\n' && c != '\r' && c != '\t' {
            let v = c as u32;
            assert(0 <= v / 16 < 2 && 0 <= v % 16 < 16);
            assert((hex_digit((v / 16) as int) as u32) >= 0x30);
            assert((hex_digit((v % 16) as int) as u32) >= 0x30);
        }
        assert forall|k: int| 0 <= k < esc_spec(s).len() implies (#[trigger] esc_spec(s)[k]) as u32
            >= 0x20 by {
            if k < pre.len() {
                assert(esc_spec(s)[k] == pre[k]);
            } else {
                assert(esc_spec(s)[k] == e[k - pre.len()]);
            }
        }
    }
}

} // verus!
