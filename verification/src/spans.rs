//! Every token the scanner finds, and so every mutant generated from them,
//! starts and ends on a character boundary of the (UTF-8) source: a
//! generated mutant can always be applied to its script.
//!
//! The scanner works byte by byte, and a word may hold multi-byte
//! characters, but a word only starts where no word is open (a position
//! that starts a character) and only ends before an ASCII byte or at the
//! end of the source; every other token is ASCII text. The proofs below
//! follow the scanner's spec step by step.

use vstd::prelude::*;
use vstd::utf8::*;
use crate::mutant::{MutantV, applies_to};
use crate::mutators::{swap_v, delete_v, word_mutants, number_mutants, flag_mutants, gen_fold, gen_step,
    generate_spec, TestCtx, lemma_kept_elements};
use crate::lexer::{tokens_within, ScanState, WordV, is_digit, TokenV, TokKind, ByteClass, find_byte,
    run_end, in_class, squote_end, bt_loop, bt_end, skip_escape, cs_end, cs_loop, cs_dq, dq_loop,
    aq_loop, body_end, bodies_end, delim_loop, ends_delim, code_step, scan_code, flush_word,
    emit_here, push_raw_loop, swallow_into_word, arith_op, arith_step, arith_loop, bump, bump_n,
    ensure_word, taint_word, peek, scan_spec, initial_state};

verus! {

/// Position `k` of `s` starts a character: it is an end of the source or
/// holds no UTF-8 continuation byte.
pub open spec fn starts_char(s: Seq<u8>, k: int) -> bool {
    k <= 0 || k >= s.len() || !is_continuation_byte(s[k])
}

/// The token's span starts and ends where characters start.
pub open spec fn token_on_chars(s: Seq<u8>, t: TokenV) -> bool {
    0 <= t.len && starts_char(s, t.offset) && starts_char(s, t.offset + t.len)
}

pub open spec fn tokens_on_chars(s: Seq<u8>, toks: Seq<TokenV>) -> bool {
    forall|k: int| 0 <= k < toks.len() ==> token_on_chars(s, #[trigger] toks[k])
}

/// The open word started on a character, and has either reached the
/// position or ended on a character; with no open word, the position
/// starts a character.
pub open spec fn word_on_chars(s: Seq<u8>, st: ScanState) -> bool {
    match st.word {
        Some(w) => starts_char(s, w.start) && (w.end == st.i || starts_char(s, w.end)),
        None => starts_char(s, st.i),
    }
}

pub open spec fn on_chars(s: Seq<u8>, st: ScanState) -> bool {
    tokens_on_chars(s, st.tokens) && word_on_chars(s, st)
}

/// An ASCII byte starts a character, and so does the byte after it.
pub(crate) proof fn lemma_after_ascii(s: Seq<u8>, k: int)
    requires
        valid_utf8(s),
        0 <= k < s.len(),
        s[k] < 0x80,
    ensures
        starts_char(s, k),
        starts_char(s, k + 1),
{
    if k + 1 < s.len() {
        lemma_boundary_from_start(s, k);
        crate::text::lemma_ascii_next_boundary(s, k);
        is_char_boundary_iff_not_is_continuation_byte(s, k + 1);
    }
}

proof fn lemma_boundary_from_start(s: Seq<u8>, k: int)
    requires
        valid_utf8(s),
        0 <= k < s.len(),
        starts_char(s, k),
    ensures
        is_char_boundary(s, k),
{
    is_char_boundary_start_end_of_seq(s);
    if k > 0 {
        is_char_boundary_iff_not_is_continuation_byte(s, k);
    }
}

/// Where characters start, a valid UTF-8 source has character boundaries.
pub proof fn lemma_starts_char_boundary(s: Seq<u8>, k: int)
    requires
        valid_utf8(s),
        0 <= k <= s.len(),
        starts_char(s, k),
    ensures
        is_char_boundary(s, k),
{
    is_char_boundary_start_end_of_seq(s);
    if k < s.len() {
        lemma_boundary_from_start(s, k);
    }
}

// ---------------------------------------------------------------------
// Where the position functions land.
// ---------------------------------------------------------------------

pub(crate) proof fn lemma_find_byte(s: Seq<u8>, k: int, c: u8)
    requires
        k >= 0,
    ensures
        find_byte(s, k, c) >= k,
        find_byte(s, k, c) < s.len() ==> s[find_byte(s, k, c)] == c,
        k <= s.len() ==> find_byte(s, k, c) <= s.len(),
    decreases s.len() - k,
{
    if k < s.len() && s[k] != c {
        lemma_find_byte(s, k + 1, c);
    }
}

pub(crate) proof fn lemma_run_end(s: Seq<u8>, k: int, end: int, cls: ByteClass)
    requires
        k >= 0,
    ensures
        run_end(s, k, end, cls) >= k,
        run_end(s, k, end, cls) > k ==> run_end(s, k, end, cls) <= s.len() && in_class(
            s[run_end(s, k, end, cls) - 1],
            cls,
        ),
        k < end && k < s.len() && in_class(s[k], cls) ==> run_end(s, k, end, cls) > k,
        k <= s.len() ==> run_end(s, k, end, cls) <= s.len(),
    decreases end - k,
{
    if k < end && k < s.len() && in_class(s[k], cls) {
        lemma_run_end(s, k + 1, end, cls);
    }
}

pub(crate) proof fn lemma_squote_end(s: Seq<u8>, k: int, q: u8)
    requires
        k >= 0,
    ensures
        squote_end(s, k, q) > k,
        k < s.len() ==> squote_end(s, k, q) <= s.len(),
{
    lemma_find_byte(s, k + 1, q);
}

pub(crate) proof fn lemma_bt_loop(s: Seq<u8>, k: int)
    requires
        k >= 0,
    ensures
        bt_loop(s, k) >= k,
        k <= s.len() ==> bt_loop(s, k) <= s.len(),
    decreases s.len() - k,
{
    if k < s.len() {
        if s[k] == '\\' as u8 {
            lemma_bt_loop(s, skip_escape(s, k));
        } else if s[k] != '`' as u8 {
            lemma_bt_loop(s, k + 1);
        }
    }
}

pub(crate) proof fn lemma_cs_end(s: Seq<u8>, k: int)
    requires
        0 <= k < s.len(),
    ensures
        cs_end(s, k) > k,
        cs_end(s, k) <= s.len(),
    decreases s.len() - k, 1int,
{
    if k + 2 <= s.len() {
        lemma_cs_loop(s, k + 2, 1);
    }
}

pub(crate) proof fn lemma_cs_loop(s: Seq<u8>, k: int, depth: int)
    requires
        k >= 0,
    ensures
        cs_loop(s, k, depth) >= k,
        k <= s.len() ==> cs_loop(s, k, depth) <= s.len(),
    decreases s.len() - k, 0int,
{
    if k < s.len() && depth > 0 {
        let c = s[k];
        if c == '(' as u8 {
            lemma_cs_loop(s, k + 1, depth + 1);
        } else if c == ')' as u8 {
            lemma_cs_loop(s, k + 1, depth - 1);
        } else if c == '\\' as u8 {
            lemma_cs_loop(s, skip_escape(s, k), depth);
        } else if c == '\'' as u8 {
            let e = squote_end(s, k, '\'' as u8);
            lemma_squote_end(s, k, '\'' as u8);
            if k < e <= s.len() {
                lemma_cs_loop(s, e, depth);
            }
        } else if c == '"' as u8 {
            let e = cs_dq(s, k + 1);
            lemma_cs_dq(s, k + 1);
            if k < e <= s.len() {
                lemma_cs_loop(s, e, depth);
            }
        } else if c == '`' as u8 {
            let e = bt_end(s, k);
            lemma_bt_loop(s, k + 1);
            if k < e <= s.len() {
                lemma_cs_loop(s, e, depth);
            }
        } else {
            lemma_cs_loop(s, k + 1, depth);
        }
    }
}

pub(crate) proof fn lemma_cs_dq(s: Seq<u8>, k: int)
    requires
        k >= 0,
    ensures
        cs_dq(s, k) >= k,
        k <= s.len() ==> cs_dq(s, k) <= s.len(),
    decreases s.len() - k, 2int,
{
    if k < s.len() {
        let c = s[k];
        if c == '\\' as u8 {
            lemma_cs_dq(s, skip_escape(s, k));
        } else if c == '"' as u8 {
        } else if c == '$' as u8 && k + 1 < s.len() && s[k + 1] == '(' as u8 {
            let e = cs_end(s, k);
            lemma_cs_end(s, k);
            if k < e <= s.len() {
                lemma_cs_dq(s, e);
            }
        } else {
            lemma_cs_dq(s, k + 1);
        }
    }
}

pub(crate) proof fn lemma_aq_loop(s: Seq<u8>, k: int, q: u8)
    requires
        k >= 0,
    ensures
        aq_loop(s, k, q) >= k,
        k <= s.len() ==> aq_loop(s, k, q) <= s.len(),
    decreases s.len() - k,
{
    if k < s.len() && s[k] != q {
        if s[k] == '\\' as u8 {
            lemma_aq_loop(s, skip_escape(s, k), q);
        } else {
            lemma_aq_loop(s, k + 1, q);
        }
    }
}

/// A heredoc body ends where a character starts.
pub(crate) proof fn lemma_body_end(s: Seq<u8>, k: int, d: Seq<u8>, strip: bool)
    requires
        valid_utf8(s),
        k >= 0,
        starts_char(s, k),
    ensures
        body_end(s, k, d, strip) >= k,
        starts_char(s, body_end(s, k, d, strip)),
        k <= s.len() ==> body_end(s, k, d, strip) <= s.len(),
    decreases s.len() - k,
{
    if k < s.len() {
        let j = find_byte(s, k, '\n' as u8);
        lemma_find_byte(s, k, '\n' as u8);
        let k2 = if j < s.len() { j + 1 } else { j };
        if j < s.len() {
            lemma_after_ascii(s, j);
        }
        let a = if strip { run_end(s, k, j, ByteClass::Tab) } else { k };
        if s.subrange(a, j) != d && k < k2 <= s.len() {
            lemma_body_end(s, k2, d, strip);
        }
    }
}

pub(crate) proof fn lemma_bodies_end(s: Seq<u8>, k: int, pend: Seq<(Seq<u8>, bool)>)
    requires
        valid_utf8(s),
        k >= 0,
        starts_char(s, k),
    ensures
        bodies_end(s, k, pend) >= k,
        starts_char(s, bodies_end(s, k, pend)),
        k <= s.len() ==> bodies_end(s, k, pend) <= s.len(),
    decreases pend.len(),
{
    if pend.len() > 0 {
        lemma_body_end(s, k, pend[0].0, pend[0].1);
        lemma_bodies_end(s, body_end(s, k, pend[0].0, pend[0].1), pend.drop_first());
    }
}

/// A heredoc delimiter ends where a character starts.
pub(crate) proof fn lemma_delim_loop(s: Seq<u8>, k: int, d: Seq<u8>)
    requires
        k >= 0,
    ensures
        delim_loop(s, k, d).0 >= k,
        starts_char(s, delim_loop(s, k, d).0),
        k <= s.len() ==> delim_loop(s, k, d).0 <= s.len(),
    decreases s.len() - k,
{
    if k < s.len() {
        let b = s[k];
        if ends_delim(b) {
        } else if b == '\'' as u8 || b == '"' as u8 {
            let j = find_byte(s, k + 1, b);
            lemma_find_byte(s, k + 1, b);
            let e = if j < s.len() { j + 1 } else { j };
            if k < e <= s.len() {
                lemma_delim_loop(s, e, d + s.subrange(k + 1, j));
            }
        } else if b == '\\' as u8 {
            if k + 1 < s.len() {
                lemma_delim_loop(s, k + 2, d.push(s[k + 1]));
            } else {
                lemma_delim_loop(s, k + 1, d);
            }
        } else {
            lemma_delim_loop(s, k + 1, d.push(b));
        }
    }
}

// ---------------------------------------------------------------------
// The scanner's transitions keep tokens and words on characters.
// ---------------------------------------------------------------------

proof fn lemma_flush(s: Seq<u8>, st: ScanState)
    requires
        tokens_on_chars(s, st.tokens),
        st.word matches Some(w) ==> starts_char(s, w.start) && (w.end == st.i || starts_char(
            s,
            w.end,
        )),
        starts_char(s, st.i),
    ensures
        on_chars(s, flush_word(st)),
        flush_word(st).i == st.i,
        flush_word(st).word is None,
{
    let r = flush_word(st);
    assert forall|k: int| 0 <= k < r.tokens.len() implies token_on_chars(s, #[trigger] r.tokens[k]) by {
        if k < st.tokens.len() {
            assert(r.tokens[k] == st.tokens[k]);
        }
    }
}

proof fn lemma_emit_here(s: Seq<u8>, st: ScanState, kind: TokKind, text: Seq<u8>)
    requires
        valid_utf8(s),
        tokens_on_chars(s, st.tokens),
        0 <= st.i < s.len(),
        text.len() >= 1,
        s[st.i] < 0x80,
        st.i + text.len() <= s.len() ==> s[st.i + text.len() - 1] < 0x80,
    ensures
        tokens_on_chars(s, emit_here(s, st, kind, text).tokens),
        emit_here(s, st, kind, text).word == st.word,
        emit_here(s, st, kind, text).i > st.i,
        starts_char(s, emit_here(s, st, kind, text).i),
{
    let r = emit_here(s, st, kind, text);
    lemma_after_ascii(s, st.i);
    if st.i + text.len() <= s.len() {
        lemma_after_ascii(s, st.i + text.len() - 1);
    }
    assert forall|k: int| 0 <= k < r.tokens.len() implies token_on_chars(s, #[trigger] r.tokens[k]) by {
        if k < st.tokens.len() {
            assert(r.tokens[k] == st.tokens[k]);
        }
    }
}

proof fn lemma_push_raw_loop(s: Seq<u8>, st: ScanState, m: int)
    requires
        st.word matches Some(w) && starts_char(s, w.start) && (w.end == st.i || starts_char(
            s,
            w.end,
        )),
    ensures
        push_raw_loop(s, st, m).tokens == st.tokens,
        push_raw_loop(s, st, m).word matches Some(w) && starts_char(s, w.start) && (w.end
            == push_raw_loop(s, st, m).i || starts_char(s, w.end)),
        push_raw_loop(s, st, m).i >= st.i,
        m > 0 && 0 <= st.i < s.len() ==> push_raw_loop(s, st, m).i > st.i,
    decreases m,
{
    if m > 0 && st.i < s.len() && st.i >= 0 {
        let b = s[st.i];
        let st1 = bump(s, st);
        let st2 = match st1.word {
            Some(w) => ScanState { word: Some(WordV { text: w.text.push(b), end: st1.i, ..w }), ..st1 },
            None => st1,
        };
        lemma_push_raw_loop(s, st2, m - 1);
    }
}

/// Opening a word (where none is open) starts it at the position.
proof fn lemma_ensure_word(s: Seq<u8>, st: ScanState)
    requires
        word_on_chars(s, st),
    ensures
        ensure_word(st).word matches Some(w) && starts_char(s, w.start) && (w.end == st.i
            || starts_char(s, w.end)),
        ensure_word(st).tokens == st.tokens,
        ensure_word(st).i == st.i,
{
}

proof fn lemma_arith_op(s: Seq<u8>, st: ScanState, prev: bool)
    requires
        valid_utf8(s),
        tokens_on_chars(s, st.tokens),
        0 <= st.i < s.len(),
    ensures
        tokens_on_chars(s, arith_op(s, st, prev).tokens),
        arith_op(s, st, prev).word == st.word,
        arith_op(s, st, prev).i > st.i,
{
    let c0 = s[st.i];
    let c1 = peek(s, st, 1);
    if c1 is Some {
        assert(c1 == Some(s[st.i + 1]));
    }
    if (c0 == '=' as u8 || c0 == '!' as u8 || c0 == '<' as u8 || c0 == '>' as u8 || c0 == '+' as u8
        || c0 == '-' as u8 || c0 == '*' as u8 || c0 == '/' as u8 || c0 == '%' as u8) {
        lemma_emit_here(s, st, TokKind::ArithOp, seq![c0]);
        if st.i + 1 < s.len() && s[st.i + 1] < 0x80 {
            lemma_emit_here(s, st, TokKind::ArithOp, seq![c0, s[st.i + 1]]);
        }
    }
}

proof fn lemma_arith_step(s: Seq<u8>, st: ScanState, depth: int, prev: bool)
    requires
        valid_utf8(s),
        tokens_on_chars(s, st.tokens),
        0 <= st.i < s.len(),
    ensures
        tokens_on_chars(s, arith_step(s, st, depth, prev).0.tokens),
        arith_step(s, st, depth, prev).0.word == st.word,
        arith_step(s, st, depth, prev).0.i > st.i,
        arith_step(s, st, depth, prev).3 ==> starts_char(s, arith_step(s, st, depth, prev).0.i),
{
    let i = st.i;
    let c = s[i];
    let n = s.len() as int;
    let r = arith_step(s, st, depth, prev);
    if c == ')' as u8 {
        lemma_after_ascii(s, i);
        if depth == 0 && i + 1 < n && s[i + 1] == ')' as u8 {
            lemma_after_ascii(s, i + 1);
        }
    } else if c == '(' as u8 {
    } else if is_digit(c) {
        let j = run_end(s, i, n, ByteClass::Digit);
        lemma_run_end(s, i, n, ByteClass::Digit);
        if j < n && in_class(s[j], ByteClass::IdentHash) {
            lemma_run_end(s, j, n, ByteClass::IdentHash);
        } else {
            lemma_after_ascii(s, i);
            lemma_after_ascii(s, j - 1);
            assert forall|k: int| 0 <= k < r.0.tokens.len() implies token_on_chars(
                s,
                #[trigger] r.0.tokens[k],
            ) by {
                if k < st.tokens.len() {
                    assert(r.0.tokens[k] == st.tokens[k]);
                }
            }
        }
    } else if ('a' as u8 <= c <= 'z' as u8) || ('A' as u8 <= c <= 'Z' as u8) || c == '_' as u8 {
        lemma_run_end(s, i, n, ByteClass::Ident);
    } else if c == '$' as u8 {
        if i + 1 < n && s[i + 1] == '{' as u8 {
            lemma_squote_end(s, i, '}' as u8);
        } else if i + 1 < n && s[i + 1] == '(' as u8 {
            lemma_cs_end(s, i);
        } else {
            lemma_run_end(s, i + 1, n, ByteClass::IdentHash);
        }
    } else if c == '\'' as u8 || c == '"' as u8 {
        lemma_aq_loop(s, i + 1, c);
    } else if c == ' ' as u8 || c == '\t' as u8 || c == '\r' as u8 || c == '\n' as u8 || c
        == ';' as u8 {
    } else if c == '#' as u8 {
        lemma_run_end(s, i + 1, n, ByteClass::Alnum);
    } else {
        lemma_arith_op(s, st, prev);
    }
}

proof fn lemma_arith_loop(s: Seq<u8>, st: ScanState, depth: int, prev: bool)
    requires
        valid_utf8(s),
        tokens_on_chars(s, st.tokens),
        0 <= st.i,
    ensures
        tokens_on_chars(s, arith_loop(s, st, depth, prev).tokens),
        arith_loop(s, st, depth, prev).word == st.word,
        arith_loop(s, st, depth, prev).i >= st.i,
        starts_char(s, arith_loop(s, st, depth, prev).i),
    decreases s.len() - st.i,
{
    if st.i < s.len() {
        let r = arith_step(s, st, depth, prev);
        lemma_arith_step(s, st, depth, prev);
        if !r.3 && st.i < r.0.i <= s.len() {
            lemma_arith_loop(s, r.0, r.1, r.2);
        }
    }
}

pub(crate) proof fn lemma_dq_loop(s: Seq<u8>, k: int)
    requires
        k >= 0,
    ensures
        dq_loop(s, k) >= k,
        k <= s.len() ==> dq_loop(s, k) <= s.len(),
    decreases s.len() - k,
{
    if k < s.len() {
        let c = s[k];
        if c == '\\' as u8 {
            lemma_dq_loop(s, skip_escape(s, k));
        } else if c == '"' as u8 {
        } else if c == '`' as u8 {
            let e = bt_end(s, k);
            lemma_bt_loop(s, k + 1);
            if k < e <= s.len() {
                lemma_dq_loop(s, e);
            }
        } else if c == '$' as u8 && k + 1 < s.len() && s[k + 1] == '(' as u8 {
            let e = cs_end(s, k);
            lemma_cs_end(s, k);
            if k < e <= s.len() {
                lemma_dq_loop(s, e);
            }
        } else {
            lemma_dq_loop(s, k + 1);
        }
    }
}

/// One step of live code keeps tokens and words on characters, and moves on.
proof fn lemma_code_step(s: Seq<u8>, st: ScanState, term: bool, depth: int)
    requires
        valid_utf8(s),
        on_chars(s, st),
        0 <= st.i < s.len(),
    ensures
        on_chars(s, code_step(s, st, term, depth).0),
        code_step(s, st, term, depth).0.i > st.i,
        code_step(s, st, term, depth).2 ==> term,
    decreases s.len() - st.i, 1int,
{
    let c = s[st.i];
    if c == '$' as u8 {
        lemma_code_step_dollar(s, st, term, depth);
    } else if c == ' ' as u8 || c == '\t' as u8 || c == '\r' as u8 || c == '\n' as u8 || c
        == '\\' as u8 || c == '#' as u8 || c == '\'' as u8 || c == '"' as u8 || c == '`' as u8 {
        lemma_step_blank_or_quote(s, st, term, depth);
    } else if c == '(' as u8 || c == ')' as u8 || c == ';' as u8 || c == '&' as u8 || c
        == '|' as u8 {
        lemma_step_paren_or_list(s, st, term, depth);
    } else if c == '<' as u8 || c == '>' as u8 {
        lemma_step_redirect(s, st, term, depth);
    } else {
        lemma_ensure_word(s, st);
        lemma_push_raw_loop(s, ensure_word(st), 1);
    }
}

proof fn lemma_step_blank_or_quote(s: Seq<u8>, st: ScanState, term: bool, depth: int)
    requires
        valid_utf8(s),
        on_chars(s, st),
        0 <= st.i < s.len(),
        s[st.i] == ' ' as u8 || s[st.i] == '\t' as u8 || s[st.i] == '\r' as u8 || s[st.i]
            == '\n' as u8 || s[st.i] == '\\' as u8 || s[st.i] == '#' as u8 || s[st.i] == '\''
            as u8 || s[st.i] == '"' as u8 || s[st.i] == '`' as u8,
    ensures
        on_chars(s, code_step(s, st, term, depth).0),
        code_step(s, st, term, depth).0.i > st.i,
        !code_step(s, st, term, depth).2,
{
    let i = st.i;
    let c = s[i];
    let n = s.len() as int;
    lemma_after_ascii(s, i);
    if i + 1 < n {
        assert(peek(s, st, 1) == Some(s[i + 1]));
    }
    if c == ' ' as u8 || c == '\t' as u8 || c == '\r' as u8 {
        lemma_flush(s, st);
    } else if c == '\n' as u8 {
        lemma_flush(s, st);
        let st0 = flush_word(st);
        lemma_emit_here(s, st0, TokKind::Sep, seq![c]);
        let st1 = emit_here(s, st0, TokKind::Sep, seq![c]);
        lemma_bodies_end(s, st1.i, st1.pending);
    } else if c == '\\' as u8 {
        if peek(s, st, 1) == Some('\n' as u8) {
            lemma_after_ascii(s, i + 1);
        } else {
            lemma_ensure_word(s, st);
            lemma_push_raw_loop(s, taint_word(ensure_word(st)), 2);
        }
    } else if c == '#' as u8 && st.word is None {
        lemma_find_byte(s, i + 1, '\n' as u8);
    } else if c == '\'' as u8 {
        lemma_ensure_word(s, st);
        lemma_squote_end(s, i, c);
    } else if c == '"' as u8 {
        lemma_ensure_word(s, st);
        lemma_dq_loop(s, i + 1);
    } else if c == '`' as u8 {
        lemma_ensure_word(s, st);
        lemma_bt_loop(s, i + 1);
    } else {
        lemma_ensure_word(s, st);
        lemma_push_raw_loop(s, ensure_word(st), 1);
    }
}

proof fn lemma_step_paren_or_list(s: Seq<u8>, st: ScanState, term: bool, depth: int)
    requires
        valid_utf8(s),
        on_chars(s, st),
        0 <= st.i < s.len(),
        s[st.i] == '(' as u8 || s[st.i] == ')' as u8 || s[st.i] == ';' as u8 || s[st.i] == '&'
            as u8 || s[st.i] == '|' as u8,
    ensures
        on_chars(s, code_step(s, st, term, depth).0),
        code_step(s, st, term, depth).0.i > st.i,
        code_step(s, st, term, depth).2 ==> term,
{
    let i = st.i;
    let c = s[i];
    let n = s.len() as int;
    lemma_after_ascii(s, i);
    if i + 1 < n {
        assert(peek(s, st, 1) == Some(s[i + 1]));
    }
    if c == '(' as u8 {
        if st.word is None && peek(s, st, 1) == Some('(' as u8) {
            lemma_arith_loop(s, bump_n(s, st, 2), 0, false);
        } else {
            lemma_flush(s, st);
            lemma_emit_here(s, flush_word(st), TokKind::Sep, seq![c]);
        }
    } else if c == ')' as u8 {
        lemma_flush(s, st);
        if !(depth == 0 && term) {
            lemma_emit_here(s, flush_word(st), TokKind::Sep, seq![c]);
        }
    } else {
        lemma_flush(s, st);
        let st0 = flush_word(st);
        assert(peek(s, st0, 1) == peek(s, st, 1));
        if i + 1 < n && s[i + 1] == c {
            lemma_emit_here(s, st0, TokKind::Sep, seq![c, c]);
            lemma_emit_here(s, st0, TokKind::AndAnd, seq![c, c]);
            lemma_emit_here(s, st0, TokKind::OrOr, seq![c, c]);
        } else {
            lemma_emit_here(s, st0, TokKind::Sep, seq![c]);
        }
    }
}

proof fn lemma_step_redirect(s: Seq<u8>, st: ScanState, term: bool, depth: int)
    requires
        valid_utf8(s),
        on_chars(s, st),
        0 <= st.i < s.len(),
        s[st.i] == '<' as u8 || s[st.i] == '>' as u8,
    ensures
        on_chars(s, code_step(s, st, term, depth).0),
        code_step(s, st, term, depth).0.i > st.i,
        !code_step(s, st, term, depth).2,
{
    let i = st.i;
    let c = s[i];
    let n = s.len() as int;
    lemma_after_ascii(s, i);
    lemma_flush(s, st);
    let st1 = flush_word(st);
    if i + 1 < n {
        assert(peek(s, st1, 1) == Some(s[i + 1]));
    }
    if i + 2 < n {
        assert(peek(s, st1, 2) == Some(s[i + 2]));
    }
    if c == '<' as u8 {
        if peek(s, st1, 1) == Some('<' as u8) && peek(s, st1, 2) == Some('<' as u8) {
            lemma_after_ascii(s, i + 2);
        } else if peek(s, st1, 1) == Some('<' as u8) {
            let st2 = bump_n(s, st1, 2);
            let strip = 0 <= st2.i < s.len() && s[st2.i] == '-' as u8;
            let k1 = if strip { st2.i + 1 } else { st2.i };
            lemma_run_end(s, k1, n, ByteClass::Blank);
            lemma_delim_loop(s, run_end(s, k1, n, ByteClass::Blank), Seq::empty());
        } else {
            lemma_emit_here(s, st1, TokKind::Sep, seq![c]);
        }
    } else {
        lemma_emit_here(s, st1, TokKind::Sep, seq![c]);
        let st2 = emit_here(s, st1, TokKind::Sep, seq![c]);
        if i + 1 < n {
            assert(peek(s, st2, 0) == Some(s[i + 1]));
            if s[i + 1] == '>' as u8 {
                lemma_after_ascii(s, i + 1);
            }
        }
    }
}

proof fn lemma_code_step_dollar(s: Seq<u8>, st: ScanState, term: bool, depth: int)
    requires
        valid_utf8(s),
        on_chars(s, st),
        0 <= st.i < s.len(),
        s[st.i] == '$' as u8,
    ensures
        on_chars(s, code_step(s, st, term, depth).0),
        code_step(s, st, term, depth).0.i > st.i,
        !code_step(s, st, term, depth).2,
    decreases s.len() - st.i, 0int,
{
    let i = st.i;
    let n = s.len() as int;
    lemma_after_ascii(s, i);
    if i + 1 < n {
        assert(peek(s, st, 1) == Some(s[i + 1]));
    }
    if i + 2 < n {
        assert(peek(s, st, 2) == Some(s[i + 2]));
    }
    lemma_ensure_word(s, st);
    if peek(s, st, 1) == Some('(' as u8) && peek(s, st, 2) == Some('(' as u8) {
        let st1 = swallow_into_word(s, st, 3);
        lemma_arith_loop(s, st1, 0, false);
    } else if peek(s, st, 1) == Some('(' as u8) {
        let st1 = swallow_into_word(s, st, 2);
        let st2 = ScanState { word: None, cmd_pos: true, ..st1 };
        lemma_after_ascii(s, i + 1);
        if st.i + 2 <= s.len() {
            lemma_scan_code(s, st2, true, 0);
        }
    } else {
        lemma_push_raw_loop(s, taint_word(ensure_word(st)), 1);
    }
}

/// Scanning live code keeps tokens and words on characters; outside a
/// command substitution it ends with no word open or at the end.
proof fn lemma_scan_code(s: Seq<u8>, st: ScanState, term: bool, depth: int)
    requires
        valid_utf8(s),
        on_chars(s, st),
        0 <= st.i,
    ensures
        on_chars(s, scan_code(s, st, term, depth)),
        scan_code(s, st, term, depth).i >= st.i,
        !term ==> scan_code(s, st, term, depth).word is None || scan_code(s, st, term, depth).i
            >= s.len(),
    decreases s.len() - st.i, 2int,
{
    if st.i >= s.len() {
        lemma_flush(s, st);
    } else {
        let r = code_step(s, st, term, depth);
        lemma_code_step(s, st, term, depth);
        if !r.2 && st.i < r.0.i <= s.len() {
            lemma_scan_code(s, r.0, term, r.1);
        }
    }
}

/// Every token of a valid UTF-8 source starts and ends on a character
/// boundary.
pub proof fn lemma_scan_tokens_on_chars(s: Seq<u8>)
    requires
        valid_utf8(s),
    ensures
        tokens_on_chars(s, scan_spec(s).tokens),
{
    let st0 = initial_state();
    assert(on_chars(s, st0));
    lemma_scan_code(s, st0, false, 0);
    let st = scan_code(s, st0, false, 0);
    lemma_flush(s, st);
}

// ---------------------------------------------------------------------
// Generated mutants apply to their source.
// ---------------------------------------------------------------------

/// The token's span lies inside `b` and starts and ends on characters.
pub open spec fn token_fits(b: Seq<u8>, t: TokenV) -> bool {
    0 <= t.offset && 0 <= t.len && t.offset + t.len <= b.len() && token_on_chars(b, t)
}

pub open spec fn all_apply(ms: Seq<MutantV>, b: Seq<u8>) -> bool {
    forall|k: int| 0 <= k < ms.len() ==> applies_to(#[trigger] ms[k], b)
}

proof fn lemma_span_applies(b: Seq<u8>, offset: int, len: int)
    requires
        valid_utf8(b),
        0 <= offset,
        0 <= len,
        offset + len <= b.len(),
        starts_char(b, offset),
        starts_char(b, offset + len),
    ensures
        is_char_boundary(b, offset),
        is_char_boundary(b, offset + len),
{
    lemma_starts_char_boundary(b, offset);
    lemma_starts_char_boundary(b, offset + len);
}

proof fn lemma_swap_applies(b: Seq<u8>, t: TokenV, op: Seq<char>, to: Seq<char>)
    requires
        valid_utf8(b),
        token_fits(b, t),
    ensures
        applies_to(swap_v(t, op, to), b),
{
    lemma_span_applies(b, t.offset, t.len);
}

proof fn lemma_delete_applies(b: Seq<u8>, t: TokenV, op: Seq<char>)
    requires
        valid_utf8(b),
        token_fits(b, t),
    ensures
        applies_to(delete_v(t, b, op), b),
{
    let end = t.offset + t.len;
    if 0 <= end < b.len() && b[end] == ' ' as u8 {
        lemma_after_ascii(b, end);
    }
    if t.offset > 0 && t.offset - 1 < b.len() && b[t.offset - 1] == ' ' as u8 {
        lemma_after_ascii(b, t.offset - 1);
    }
    let m = delete_v(t, b, op);
    lemma_span_applies(b, m.offset, m.len);
}

proof fn lemma_word_mutants_apply(
    t: TokenV,
    b: Seq<u8>,
    ctx: TestCtx,
    prev: Option<(Seq<char>, bool)>,
    ops: Set<Seq<char>>,
)
    requires
        valid_utf8(b),
        token_fits(b, t),
    ensures
        all_apply(word_mutants(t, b, ctx, prev, ops), b),
{
    let ms = word_mutants(t, b, ctx, prev, ops);
    assert forall|k: int| 0 <= k < ms.len() implies applies_to(#[trigger] ms[k], b) by {
        let m = ms[k];
        lemma_delete_applies(b, t, m.op);
        lemma_swap_applies(b, t, m.op, m.replacement);
        assert(m == delete_v(t, b, m.op) || m == swap_v(t, m.op, m.replacement)) by {
            let n = number_mutants(t);
            let f = flag_mutants(t, b);
            assert(forall|j: int| 0 <= j < n.len() ==> #[trigger] n[j] == swap_v(t, n[j].op, n[j].replacement));
            assert(forall|j: int| 0 <= j < f.len() ==> #[trigger] f[j] == delete_v(t, b, f[j].op) || f[j]
                == swap_v(t, f[j].op, f[j].replacement));
        }
    }
}

proof fn lemma_gen_fold_apply(b: Seq<u8>, ops: Set<Seq<char>>, toks: Seq<TokenV>)
    requires
        valid_utf8(b),
        forall|k: int| 0 <= k < toks.len() ==> token_fits(b, #[trigger] toks[k]),
    ensures
        all_apply(gen_fold(b, ops, toks).out, b),
    decreases toks.len(),
{
    if toks.len() > 0 {
        lemma_gen_fold_apply(b, ops, toks.drop_last());
        let st = gen_fold(b, ops, toks.drop_last());
        let t = toks.last();
        assert(token_fits(b, toks[toks.len() - 1]));
        let out = gen_step(b, ops, st, t).out;
        assert forall|k: int| 0 <= k < out.len() implies applies_to(#[trigger] out[k], b) by {
            if k >= st.out.len() {
                let m = out[k];
                lemma_swap_applies(b, t, m.op, m.replacement);
                match t.kind {
                    TokKind::Word => {
                        lemma_word_mutants_apply(t, b, st.ctx, st.prev, ops);
                        assert(m == word_mutants(t, b, st.ctx, st.prev, ops)[k - st.out.len()]);
                    },
                    TokKind::ArithNum => {
                        let n = number_mutants(t);
                        assert(forall|j: int| 0 <= j < n.len() ==> #[trigger] n[j] == swap_v(t, n[j].op, n[j].replacement));
                        assert(m == n[k - st.out.len()]);
                    },
                    _ => {},
                }
            } else {
                assert(out[k] == st.out[k]);
            }
        }
    }
}

/// The mutants generated from a valid UTF-8 source whose tokens lie in
/// it can each be applied to it.
pub(crate) proof fn lemma_generated_apply(b: Seq<u8>, ops: Set<Seq<char>>)
    requires
        valid_utf8(b),
        tokens_within(scan_spec(b).tokens, b.len() as int),
    ensures
        all_apply(generate_spec(b, ops), b),
{
    let r = scan_spec(b);
    lemma_scan_tokens_on_chars(b);
    assert forall|k: int| 0 <= k < r.tokens.len() implies token_fits(b, #[trigger] r.tokens[k]) by {
        assert(token_on_chars(b, r.tokens[k]));
    }
    let all = gen_fold(b, ops, r.tokens).out;
    lemma_gen_fold_apply(b, ops, r.tokens);
    lemma_kept_elements(all, r.pragmas);
    assert forall|k: int| 0 <= k < generate_spec(b, ops).len() implies applies_to(
        #[trigger] generate_spec(b, ops)[k],
        b,
    ) by {
        let m = generate_spec(b, ops)[k];
        assert(all.contains(m));
        let j = choose|j: int| 0 <= j < all.len() && all[j] == m;
        assert(applies_to(all[j], b));
    }
}

} // verus!
