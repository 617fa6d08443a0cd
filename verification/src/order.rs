//! Where tokens sit and in which order they come, and so in which order
//! mutants come: the scanner records every token at its true line and
//! column, the live (untainted) tokens in order of their offsets, and every
//! mutant carries the line and column of the token it came from. So mutants
//! come in source order, by line and then by column.
//!
//! A word's line is where it starts, and a word is recorded when it ends,
//! so tokens found inside a word (in `$( … )` or `$(( … ))`) come first;
//! such a word is always tainted, and tainted words yield no mutants.

use vstd::prelude::*;
use vstd::utf8::*;
use crate::lexer::{ScanState, TokenV, TokKind, ByteClass, WordV, nl_count, newline_count,
    lemma_nl_count_split, lemma_nl_count_bounds, lemma_line_start_split, lemma_line_start_bounds, line_start_after, code_step, scan_code, flush_word, emit_here,
    push_raw_loop, ensure_word, taint_word, swallow_into_word, arith_op, arith_step, arith_loop,
    advance, bump, bump_n, peek, scan_spec, initial_state, run_end, in_class, is_digit, find_byte,
    squote_end, bt_end, bodies_end, delim_loop};
use crate::mutant::MutantV;
use crate::text::latin1;
use crate::mutators::{word_mutants, number_mutants, flag_mutants, gen_fold, gen_step,
    generate_spec, kept, TestCtx, lemma_kept_elements};
use crate::spans::{lemma_after_ascii, lemma_find_byte, lemma_run_end, lemma_squote_end, lemma_bt_loop,
    lemma_cs_end, lemma_aq_loop, lemma_dq_loop, lemma_bodies_end, lemma_delim_loop};

verus! {

/// The untainted tokens come in order of their lines.
pub open spec fn untainted_sorted(toks: Seq<TokenV>) -> bool {
    forall|a: int, b: int|
        0 <= a < b < toks.len() && !toks[a].tainted && !toks[b].tainted ==> (#[trigger] toks[a]).line
            <= (#[trigger] toks[b]).line
}

/// Every untainted token lies on line `l` or before.
pub open spec fn lines_upto(toks: Seq<TokenV>, l: int) -> bool {
    forall|k: int| 0 <= k < toks.len() && !toks[k].tainted ==> (#[trigger] toks[k]).line <= l
}

/// Only words can be tainted.
pub open spec fn only_words_tainted(toks: Seq<TokenV>) -> bool {
    forall|k: int| 0 <= k < toks.len() && (#[trigger] toks[k]).tainted ==> toks[k].kind == TokKind::Word
}

/// The untainted tokens come in order of their offsets.
pub open spec fn untainted_offsets_sorted(toks: Seq<TokenV>) -> bool {
    forall|a: int, b: int|
        0 <= a < b < toks.len() && !toks[a].tainted && !toks[b].tainted ==> (#[trigger] toks[a]).offset
            <= (#[trigger] toks[b]).offset
}

/// Every untainted token starts at offset `k` or before.
pub open spec fn offsets_upto(toks: Seq<TokenV>, k: int) -> bool {
    forall|j: int| 0 <= j < toks.len() && !toks[j].tainted ==> (#[trigger] toks[j]).offset <= k
}

/// The 1-based column of position `k` (as a wrapping 32-bit value): one
/// more than the bytes between the start of its line and `k`.
pub open spec fn col_at(s: Seq<u8>, k: int) -> u32 {
    ((k - line_start_after(s, 0, k, 0) + 1) % 0x1_0000_0000) as u32
}

/// A token sits where it says: its span is a non-empty part of the
/// source, its line is one more than the newlines before its offset, its
/// column counts from the start of that line, and a token other than a
/// word holds exactly the bytes of its span.
pub open spec fn placed(s: Seq<u8>, t: TokenV) -> bool {
    &&& 0 <= t.offset
    &&& 0 < t.len
    &&& t.offset + t.len <= s.len()
    &&& t.line as int == 1 + nl_count(s, 0, t.offset)
    &&& t.col == col_at(s, t.offset)
    &&& t.kind != TokKind::Word ==> t.text == latin1(s.subrange(t.offset, t.offset + t.len))
    &&& t.kind == TokKind::AndAnd ==> t.text == seq!['&', '&']
    &&& t.kind == TokKind::OrOr ==> t.text == seq!['|', '|']
}

pub open spec fn all_placed(s: Seq<u8>, toks: Seq<TokenV>) -> bool {
    forall|k: int| 0 <= k < toks.len() ==> placed(s, #[trigger] toks[k])
}

/// The scanner state counts lines and line starts exactly; its tokens sit
/// where they say, the untainted ones in order of lines and offsets, up to
/// the position; an open word records its own start, and an open
/// untainted word starts no earlier than any of them.
pub open spec fn ordered(s: Seq<u8>, st: ScanState) -> bool {
    &&& 0 <= st.i <= s.len()
    &&& st.line as int == 1 + nl_count(s, 0, st.i)
    &&& st.line_start == line_start_after(s, 0, st.i, 0)
    &&& all_placed(s, st.tokens)
    &&& untainted_sorted(st.tokens)
    &&& untainted_offsets_sorted(st.tokens)
    &&& only_words_tainted(st.tokens)
    &&& lines_upto(st.tokens, st.line as int)
    &&& offsets_upto(st.tokens, st.i as int)
    &&& match st.word {
        Some(w) => {
            &&& 0 <= w.start <= w.end <= st.i
            &&& w.line as int == 1 + nl_count(s, 0, w.start)
            &&& w.col == col_at(s, w.start)
            &&& !w.tainted ==> lines_upto(st.tokens, w.line as int) && w.line <= st.line
                && offsets_upto(st.tokens, w.start)
        },
        None => true,
    }
}

/// No untainted word is open: tokens may be recorded at the position.
pub open spec fn no_live_word(st: ScanState) -> bool {
    st.word matches Some(w) ==> w.tainted
}

proof fn lemma_advance(s: Seq<u8>, st: ScanState, j: int)
    requires
        ordered(s, st),
        newline_count(s) < u32::MAX,
        st.i <= j <= s.len(),
    ensures
        ordered(s, advance(s, st, j)),
        advance(s, st, j).line >= st.line,
        advance(s, st, j).tokens == st.tokens,
        advance(s, st, j).word == st.word,
{
    lemma_nl_count_split(s, 0, st.i, j);
    lemma_nl_count_bounds(s, st.i, j);
    lemma_nl_count_split(s, 0, j, s.len() as int);
    lemma_nl_count_bounds(s, j, s.len() as int);
    lemma_line_start_split(s, 0, st.i, j, 0);
}

proof fn lemma_flush(s: Seq<u8>, st: ScanState)
    requires
        ordered(s, st),
    ensures
        ordered(s, flush_word(st)),
        flush_word(st).i == st.i,
        flush_word(st).word is None,
{
    let r = flush_word(st);
    if let Some(w) = st.word {
        if w.end > w.start {
            let n = st.tokens.len();
            assert forall|a: int, b: int|
                0 <= a < b < r.tokens.len() && !r.tokens[a].tainted && !r.tokens[b].tainted implies (
            #[trigger] r.tokens[a]).line <= (#[trigger] r.tokens[b]).line by {
                assert(r.tokens[a] == st.tokens[a]);
                if b < n {
                    assert(r.tokens[b] == st.tokens[b]);
                }
            }
            assert forall|k: int| 0 <= k < r.tokens.len() && !r.tokens[k].tainted implies (
            #[trigger] r.tokens[k]).line <= r.line as int by {
                if k < n {
                    assert(r.tokens[k] == st.tokens[k]);
                }
            }
            assert forall|k: int| 0 <= k < r.tokens.len() && (#[trigger] r.tokens[k]).tainted implies r.tokens[k].kind
                == TokKind::Word by {
                if k < n {
                    assert(r.tokens[k] == st.tokens[k]);
                }
            }
        }
    }
}

proof fn lemma_emit(s: Seq<u8>, st: ScanState, kind: TokKind, text: Seq<u8>)
    requires
        ordered(s, st),
        newline_count(s) < u32::MAX,
        no_live_word(st),
        text.len() >= 1,
        st.i + text.len() <= s.len(),
        forall|j: int| 0 <= j < text.len() ==> text[j] == s[st.i + j],
        kind == TokKind::AndAnd ==> text == seq!['&' as u8, '&' as u8],
        kind == TokKind::OrOr ==> text == seq!['|' as u8, '|' as u8],
    ensures
        ordered(s, emit_here(s, st, kind, text)),
        emit_here(s, st, kind, text).word == st.word,
        emit_here(s, st, kind, text).i > st.i,
{
    assert(text =~= s.subrange(st.i, st.i + text.len()));
    if kind == TokKind::AndAnd {
        assert(crate::text::latin1(text) =~= seq!['&', '&']);
    }
    if kind == TokKind::OrOr {
        assert(crate::text::latin1(text) =~= seq!['|', '|']);
    }
    let st1 = ScanState {
        tokens: st.tokens.push(
            TokenV {
                kind,
                text: crate::text::latin1(text),
                offset: st.i,
                len: text.len() as int,
                line: st.line,
                col: crate::lexer::col(st),
                tainted: false,
                cmd_pos: false,
            },
        ),
        ..st
    };
    let n = st.tokens.len();
    assert forall|a: int, b: int|
        0 <= a < b < st1.tokens.len() && !st1.tokens[a].tainted && !st1.tokens[b].tainted implies (
    #[trigger] st1.tokens[a]).line <= (#[trigger] st1.tokens[b]).line by {
        assert(st1.tokens[a] == st.tokens[a]);
        if b < n {
            assert(st1.tokens[b] == st.tokens[b]);
        }
    }
    assert forall|k: int| 0 <= k < st1.tokens.len() && !st1.tokens[k].tainted implies (
    #[trigger] st1.tokens[k]).line <= st1.line as int by {
        if k < n {
            assert(st1.tokens[k] == st.tokens[k]);
        }
    }
    assert forall|k: int| 0 <= k < st1.tokens.len() && (#[trigger] st1.tokens[k]).tainted implies st1.tokens[k].kind
        == TokKind::Word by {
        if k < n {
            assert(st1.tokens[k] == st.tokens[k]);
        }
    }
    assert(ordered(s, st1));
    let j = if st1.i + text.len() <= s.len() {
        st1.i + text.len()
    } else if st1.i <= s.len() {
        s.len() as int
    } else {
        st1.i
    };
    lemma_advance(s, st1, j);
}

proof fn lemma_push_raw_loop(s: Seq<u8>, st: ScanState, m: int)
    requires
        ordered(s, st),
        newline_count(s) < u32::MAX,
        st.word is Some,
    ensures
        ordered(s, push_raw_loop(s, st, m)),
        push_raw_loop(s, st, m).i >= st.i,
        push_raw_loop(s, st, m).word is Some,
        push_raw_loop(s, st, m).word->0.tainted == st.word->0.tainted,
    decreases m,
{
    if m > 0 && st.i < s.len() && st.i >= 0 {
        let b = s[st.i];
        let st1 = bump(s, st);
        lemma_advance(s, st, st.i + 1);
        let st2 = match st1.word {
            Some(w) => ScanState { word: Some(WordV { text: w.text.push(b), end: st1.i, ..w }), ..st1 },
            None => st1,
        };
        lemma_push_raw_loop(s, st2, m - 1);
    }
}

proof fn lemma_arith_op(s: Seq<u8>, st: ScanState, prev: bool)
    requires
        ordered(s, st),
        newline_count(s) < u32::MAX,
        no_live_word(st),
        0 <= st.i < s.len(),
    ensures
        ordered(s, arith_op(s, st, prev)),
        arith_op(s, st, prev).word == st.word,
        arith_op(s, st, prev).i >= st.i,
{
    let c0 = s[st.i];
    lemma_emit(s, st, TokKind::ArithOp, seq![c0]);
    if st.i + 1 < s.len() {
        lemma_emit(s, st, TokKind::ArithOp, seq![c0, s[st.i + 1]]);
    }
    lemma_advance(s, st, st.i + 1);
    if st.i + 2 <= s.len() {
        lemma_advance(s, st, st.i + 2);
    }
    if st.i + 3 <= s.len() {
        lemma_advance(s, st, st.i + 3);
    }
    lemma_advance(s, st, s.len() as int);
}

proof fn lemma_arith_step(s: Seq<u8>, st: ScanState, depth: int, prev: bool)
    requires
        ordered(s, st),
        newline_count(s) < u32::MAX,
        no_live_word(st),
        0 <= st.i < s.len(),
    ensures
        ordered(s, arith_step(s, st, depth, prev).0),
        arith_step(s, st, depth, prev).0.word == st.word,
        arith_step(s, st, depth, prev).0.i >= st.i,
{
    let i = st.i;
    let c = s[i];
    let n = s.len() as int;
    let r = arith_step(s, st, depth, prev);
    if c == ')' as u8 {
        lemma_advance(s, st, i + 1);
        let st1 = bump(s, st);
        if i + 1 < n {
            lemma_advance(s, st1, i + 2);
        }
    } else if c == '(' as u8 {
        lemma_advance(s, st, i + 1);
    } else if is_digit(c) {
        let j = run_end(s, i, n, ByteClass::Digit);
        lemma_run_end(s, i, n, ByteClass::Digit);
        if j < n && in_class(s[j], ByteClass::IdentHash) {
            lemma_run_end(s, j, n, ByteClass::IdentHash);
            lemma_advance(s, st, run_end(s, j, n, ByteClass::IdentHash));
        } else {
            let st1 = ScanState { tokens: st.tokens.push(
                TokenV {
                    kind: TokKind::ArithNum,
                    text: crate::text::latin1(s.subrange(i, j)),
                    offset: i,
                    len: j - i,
                    line: st.line,
                    col: crate::lexer::col(st),
                    tainted: false,
                    cmd_pos: false,
                },
            ), ..st };
            let m = st.tokens.len();
            assert forall|a: int, b: int|
                0 <= a < b < st1.tokens.len() && !st1.tokens[a].tainted && !st1.tokens[b].tainted implies (
            #[trigger] st1.tokens[a]).line <= (#[trigger] st1.tokens[b]).line by {
                assert(st1.tokens[a] == st.tokens[a]);
                if b < m {
                    assert(st1.tokens[b] == st.tokens[b]);
                }
            }
            assert forall|k: int| 0 <= k < st1.tokens.len() && !st1.tokens[k].tainted implies (
            #[trigger] st1.tokens[k]).line <= st1.line as int by {
                if k < m {
                    assert(st1.tokens[k] == st.tokens[k]);
                }
            }
            assert forall|k: int| 0 <= k < st1.tokens.len() && (#[trigger] st1.tokens[k]).tainted implies st1.tokens[k].kind
                == TokKind::Word by {
                if k < m {
                    assert(st1.tokens[k] == st.tokens[k]);
                }
            }
            lemma_advance(s, st1, j);
        }
    } else if ('a' as u8 <= c <= 'z' as u8) || ('A' as u8 <= c <= 'Z' as u8) || c == '_' as u8 {
        lemma_run_end(s, i, n, ByteClass::Ident);
        lemma_advance(s, st, run_end(s, i, n, ByteClass::Ident));
    } else if c == '$' as u8 {
        if i + 1 < n && s[i + 1] == '{' as u8 {
            lemma_squote_end(s, i, '}' as u8);
            lemma_advance(s, st, squote_end(s, i, '}' as u8));
        } else if i + 1 < n && s[i + 1] == '(' as u8 {
            lemma_cs_end(s, i);
            lemma_advance(s, st, crate::lexer::cs_end(s, i));
        } else {
            lemma_run_end(s, i + 1, n, ByteClass::IdentHash);
            lemma_advance(s, st, run_end(s, i + 1, n, ByteClass::IdentHash));
        }
    } else if c == '\'' as u8 || c == '"' as u8 {
        lemma_aq_loop(s, i + 1, c);
        lemma_advance(s, st, crate::lexer::aq_loop(s, i + 1, c));
    } else if c == ' ' as u8 || c == '\t' as u8 || c == '\r' as u8 || c == '\n' as u8 || c
        == ';' as u8 {
        lemma_advance(s, st, i + 1);
    } else if c == '#' as u8 {
        lemma_run_end(s, i + 1, n, ByteClass::Alnum);
        lemma_advance(s, st, run_end(s, i + 1, n, ByteClass::Alnum));
    } else {
        lemma_arith_op(s, st, prev);
    }
}

proof fn lemma_arith_loop(s: Seq<u8>, st: ScanState, depth: int, prev: bool)
    requires
        ordered(s, st),
        newline_count(s) < u32::MAX,
        no_live_word(st),
    ensures
        ordered(s, arith_loop(s, st, depth, prev)),
        arith_loop(s, st, depth, prev).word == st.word,
        arith_loop(s, st, depth, prev).i >= st.i,
    decreases s.len() - st.i,
{
    if st.i < s.len() && st.i >= 0 {
        let r = arith_step(s, st, depth, prev);
        lemma_arith_step(s, st, depth, prev);
        if !r.3 && st.i < r.0.i <= s.len() {
            lemma_arith_loop(s, r.0, r.1, r.2);
        }
    }
}

proof fn lemma_code_step(s: Seq<u8>, st: ScanState, term: bool, depth: int)
    requires
        valid_utf8(s),
        newline_count(s) < u32::MAX,
        ordered(s, st),
        0 <= st.i < s.len(),
    ensures
        ordered(s, code_step(s, st, term, depth).0),
        code_step(s, st, term, depth).0.i >= st.i,
    decreases s.len() - st.i, 1int,
{
    let c = s[st.i];
    if c == '$' as u8 {
        lemma_step_dollar(s, st, term, depth);
    } else if c == ' ' as u8 || c == '\t' as u8 || c == '\r' as u8 || c == '\n' as u8 || c
        == '\\' as u8 || c == '#' as u8 || c == '\'' as u8 || c == '"' as u8 || c == '`' as u8 {
        lemma_step_blank_or_quote(s, st, term, depth);
    } else if c == '(' as u8 || c == ')' as u8 || c == ';' as u8 || c == '&' as u8 || c
        == '|' as u8 {
        lemma_step_paren_or_list(s, st, term, depth);
    } else if c == '<' as u8 || c == '>' as u8 {
        lemma_step_redirect(s, st, term, depth);
    } else {
        lemma_push_raw_loop(s, ensure_word(st), 1);
    }
}

proof fn lemma_step_blank_or_quote(s: Seq<u8>, st: ScanState, term: bool, depth: int)
    requires
        valid_utf8(s),
        newline_count(s) < u32::MAX,
        ordered(s, st),
        0 <= st.i < s.len(),
        s[st.i] == ' ' as u8 || s[st.i] == '\t' as u8 || s[st.i] == '\r' as u8 || s[st.i]
            == '\n' as u8 || s[st.i] == '\\' as u8 || s[st.i] == '#' as u8 || s[st.i] == '\''
            as u8 || s[st.i] == '"' as u8 || s[st.i] == '`' as u8,
    ensures
        ordered(s, code_step(s, st, term, depth).0),
        code_step(s, st, term, depth).0.i >= st.i,
{
    let i = st.i;
    let c = s[i];
    let n = s.len() as int;
    if i + 1 < n {
        assert(peek(s, st, 1) == Some(s[i + 1]));
    }
    if c == ' ' as u8 || c == '\t' as u8 || c == '\r' as u8 {
        lemma_flush(s, st);
        lemma_advance(s, flush_word(st), i + 1);
    } else if c == '\n' as u8 {
        lemma_flush(s, st);
        let st0 = flush_word(st);
        lemma_emit(s, st0, TokKind::Sep, seq![c]);
        let st1 = emit_here(s, st0, TokKind::Sep, seq![c]);
        lemma_after_ascii(s, i);
        lemma_bodies_end(s, st1.i, st1.pending);
        lemma_advance(
            s,
            ScanState { pending: Seq::empty(), ..st1 },
            bodies_end(s, st1.i, st1.pending),
        );
    } else if c == '\\' as u8 {
        if peek(s, st, 1) == Some('\n' as u8) {
            lemma_advance(s, st, i + 2);
        } else {
            lemma_push_raw_loop(s, taint_word(ensure_word(st)), 2);
        }
    } else if c == '#' as u8 && st.word is None {
        lemma_find_byte(s, i, '\n' as u8);
        lemma_advance(s, st, find_byte(s, i, '\n' as u8));
    } else if c == '\'' as u8 {
        lemma_squote_end(s, i, c);
        lemma_advance(s, taint_word(ensure_word(st)), squote_end(s, i, c));
    } else if c == '"' as u8 {
        lemma_dq_loop(s, i + 1);
        lemma_advance(s, taint_word(ensure_word(st)), crate::lexer::dq_loop(s, i + 1));
    } else if c == '`' as u8 {
        lemma_bt_loop(s, i + 1);
        lemma_advance(s, taint_word(ensure_word(st)), bt_end(s, i));
    } else {
        lemma_push_raw_loop(s, ensure_word(st), 1);
    }
}

proof fn lemma_step_paren_or_list(s: Seq<u8>, st: ScanState, term: bool, depth: int)
    requires
        valid_utf8(s),
        newline_count(s) < u32::MAX,
        ordered(s, st),
        0 <= st.i < s.len(),
        s[st.i] == '(' as u8 || s[st.i] == ')' as u8 || s[st.i] == ';' as u8 || s[st.i] == '&'
            as u8 || s[st.i] == '|' as u8,
    ensures
        ordered(s, code_step(s, st, term, depth).0),
        code_step(s, st, term, depth).0.i >= st.i,
{
    let c = s[st.i];
    if c == '(' as u8 || c == ')' as u8 {
        lemma_step_paren(s, st, term, depth);
    } else {
        lemma_step_list(s, st, term, depth);
    }
}

proof fn lemma_step_paren(s: Seq<u8>, st: ScanState, term: bool, depth: int)
    requires
        valid_utf8(s),
        newline_count(s) < u32::MAX,
        ordered(s, st),
        0 <= st.i < s.len(),
        s[st.i] == '(' as u8 || s[st.i] == ')' as u8,
    ensures
        ordered(s, code_step(s, st, term, depth).0),
        code_step(s, st, term, depth).0.i >= st.i,
{
    let i = st.i;
    let c = s[i];
    let n = s.len() as int;
    if i + 1 < n {
        assert(peek(s, st, 1) == Some(s[i + 1]));
    }
    if c == '(' as u8 {
        if st.word is None && peek(s, st, 1) == Some('(' as u8) {
            lemma_advance(s, st, i + 2);
            lemma_arith_loop(s, bump_n(s, st, 2), 0, false);
        } else {
            lemma_flush(s, st);
            lemma_emit(s, flush_word(st), TokKind::Sep, seq![c]);
        }
    } else {
        lemma_flush(s, st);
        lemma_advance(s, flush_word(st), i + 1);
        lemma_emit(s, flush_word(st), TokKind::Sep, seq![c]);
    }
}

proof fn lemma_step_list(s: Seq<u8>, st: ScanState, term: bool, depth: int)
    requires
        valid_utf8(s),
        newline_count(s) < u32::MAX,
        ordered(s, st),
        0 <= st.i < s.len(),
        s[st.i] == ';' as u8 || s[st.i] == '&' as u8 || s[st.i] == '|' as u8,
    ensures
        ordered(s, code_step(s, st, term, depth).0),
        code_step(s, st, term, depth).0.i >= st.i,
{
    let i = st.i;
    let c = s[i];
    let n = s.len() as int;
    lemma_flush(s, st);
    let st0 = flush_word(st);
    if i + 1 < n {
        assert(peek(s, st0, 1) == Some(s[i + 1]));
    }
    if i + 1 < n && s[i + 1] == c {
        if c == ';' as u8 {
            lemma_emit(s, st0, TokKind::Sep, seq![c, c]);
        } else if c == '&' as u8 {
            lemma_emit(s, st0, TokKind::AndAnd, seq![c, c]);
        } else {
            lemma_emit(s, st0, TokKind::OrOr, seq![c, c]);
        }
    } else {
        lemma_emit(s, st0, TokKind::Sep, seq![c]);
    }
}

proof fn lemma_step_redirect(s: Seq<u8>, st: ScanState, term: bool, depth: int)
    requires
        valid_utf8(s),
        newline_count(s) < u32::MAX,
        ordered(s, st),
        0 <= st.i < s.len(),
        s[st.i] == '<' as u8 || s[st.i] == '>' as u8,
    ensures
        ordered(s, code_step(s, st, term, depth).0),
        code_step(s, st, term, depth).0.i >= st.i,
{
    let i = st.i;
    let c = s[i];
    let n = s.len() as int;
    lemma_flush(s, st);
    let st1 = flush_word(st);
    if i + 1 < n {
        assert(peek(s, st1, 1) == Some(s[i + 1]));
    }
    if i + 2 < n {
        assert(peek(s, st1, 2) == Some(s[i + 2]));
    }
    if c == '<' as u8 {
        if peek(s, st1, 1) == Some('<' as u8) && peek(s, st1, 2) == Some('<' as u8) {
            lemma_advance(s, st1, i + 3);
        } else if peek(s, st1, 1) == Some('<' as u8) {
            lemma_advance(s, st1, i + 2);
            let st2 = bump_n(s, st1, 2);
            let strip = 0 <= st2.i < s.len() && s[st2.i] == '-' as u8;
            let k1 = if strip { st2.i + 1 } else { st2.i };
            lemma_run_end(s, k1, n, ByteClass::Blank);
            let k2 = run_end(s, k1, n, ByteClass::Blank);
            lemma_delim_loop(s, k2, Seq::empty());
            lemma_advance(s, st2, delim_loop(s, k2, Seq::empty()).0);
        } else {
            lemma_emit(s, st1, TokKind::Sep, seq![c]);
        }
    } else {
        lemma_emit(s, st1, TokKind::Sep, seq![c]);
        let st2 = emit_here(s, st1, TokKind::Sep, seq![c]);
        if i + 1 < n {
            assert(peek(s, st2, 0) == Some(s[i + 1]));
            lemma_advance(s, st2, i + 2);
        }
    }
}

proof fn lemma_step_dollar(s: Seq<u8>, st: ScanState, term: bool, depth: int)
    requires
        valid_utf8(s),
        newline_count(s) < u32::MAX,
        ordered(s, st),
        0 <= st.i < s.len(),
        s[st.i] == '$' as u8,
    ensures
        ordered(s, code_step(s, st, term, depth).0),
        code_step(s, st, term, depth).0.i >= st.i,
    decreases s.len() - st.i, 0int,
{
    let i = st.i;
    let n = s.len() as int;
    if i + 1 < n {
        assert(peek(s, st, 1) == Some(s[i + 1]));
    }
    if i + 2 < n {
        assert(peek(s, st, 2) == Some(s[i + 2]));
    }
    let stw = taint_word(ensure_word(st));
    if peek(s, st, 1) == Some('(' as u8) && peek(s, st, 2) == Some('(' as u8) {
        lemma_advance(s, stw, i + 3);
        let st1 = swallow_into_word(s, st, 3);
        lemma_arith_loop(s, st1, 0, false);
    } else if peek(s, st, 1) == Some('(' as u8) {
        lemma_advance(s, stw, i + 2);
        let st1 = swallow_into_word(s, st, 2);
        let st2 = ScanState { word: None, cmd_pos: true, ..st1 };
        if st.i + 2 <= s.len() {
            lemma_scan_code(s, st2, true, 0);
        }
    } else {
        lemma_push_raw_loop(s, stw, 1);
    }
}

proof fn lemma_scan_code(s: Seq<u8>, st: ScanState, term: bool, depth: int)
    requires
        valid_utf8(s),
        newline_count(s) < u32::MAX,
        ordered(s, st),
    ensures
        ordered(s, scan_code(s, st, term, depth)),
        scan_code(s, st, term, depth).i >= st.i,
    decreases s.len() - st.i, 2int,
{
    if st.i >= s.len() {
        lemma_flush(s, st);
    } else {
        let r = code_step(s, st, term, depth);
        lemma_code_step(s, st, term, depth);
        if !r.2 && st.i < r.0.i <= s.len() {
            lemma_scan_code(s, r.0, term, r.1);
        }
    }
}

/// Every token of a scan sits where it says: a non-empty span inside the
/// source, on the line one more than the newlines before its offset, at the
/// column counted from that line's start, and (unless it is a word) holding
/// exactly the bytes of its span. The untainted tokens come in order of
/// their lines and offsets, and only words are ever tainted.
pub proof fn lemma_scan_token_positions(s: Seq<u8>)
    requires
        valid_utf8(s),
        newline_count(s) < u32::MAX,
    ensures
        all_placed(s, scan_spec(s).tokens),
        untainted_sorted(scan_spec(s).tokens),
        untainted_offsets_sorted(scan_spec(s).tokens),
        only_words_tainted(scan_spec(s).tokens),
{
    let st0 = initial_state();
    assert(nl_count(s, 0, 0) == 0);
    assert(ordered(s, st0));
    lemma_scan_code(s, st0, false, 0);
    lemma_flush(s, scan_code(s, st0, false, 0));
}

// ---------------------------------------------------------------------
// The mutants follow the tokens.
// ---------------------------------------------------------------------

/// The mutants come in order of their lines.
pub open spec fn lines_sorted(ms: Seq<MutantV>) -> bool {
    forall|a: int, b: int| 0 <= a < b < ms.len() ==> (#[trigger] ms[a]).line <= (#[trigger] ms[b]).line
}

/// The line of the last untainted token (0 when there is none).
pub open spec fn last_line(toks: Seq<TokenV>) -> int
    decreases toks.len(),
{
    if toks.len() == 0 {
        0
    } else if !toks.last().tainted {
        toks.last().line as int
    } else {
        last_line(toks.drop_last())
    }
}

proof fn lemma_last_line(toks: Seq<TokenV>, l: int)
    requires
        forall|k: int| 0 <= k < toks.len() && !toks[k].tainted ==> (#[trigger] toks[k]).line <= l,
        l >= 0,
    ensures
        last_line(toks) <= l,
    decreases toks.len(),
{
    if toks.len() > 0 && toks.last().tainted {
        assert forall|k: int| 0 <= k < toks.drop_last().len() && !toks.drop_last()[k].tainted implies (
        #[trigger] toks.drop_last()[k]).line <= l by {
            assert(toks.drop_last()[k] == toks[k]);
        }
        lemma_last_line(toks.drop_last(), l);
    } else if toks.len() > 0 {
        assert(toks[toks.len() - 1] == toks.last());
    }
}

proof fn lemma_token_mutants_line(t: TokenV, b: Seq<u8>, ctx: TestCtx, prev: Option<(Seq<char>, bool)>, ops: Set<Seq<char>>)
    ensures
        forall|k: int| 0 <= k < word_mutants(t, b, ctx, prev, ops).len() ==> (#[trigger] word_mutants(t, b, ctx, prev, ops)[k]).line == t.line,
        forall|k: int| 0 <= k < number_mutants(t).len() ==> (#[trigger] number_mutants(t)[k]).line == t.line,
        t.tainted ==> word_mutants(t, b, ctx, prev, ops).len() == 0,
{
    let n = number_mutants(t);
    let f = flag_mutants(t, b);
    assert(forall|j: int| 0 <= j < n.len() ==> (#[trigger] n[j]).line == t.line);
    assert(forall|j: int| 0 <= j < f.len() ==> (#[trigger] f[j]).line == t.line);
}

proof fn lemma_gen_fold_lines(b: Seq<u8>, ops: Set<Seq<char>>, toks: Seq<TokenV>)
    requires
        untainted_sorted(toks),
        only_words_tainted(toks),
    ensures
        lines_sorted(gen_fold(b, ops, toks).out),
        forall|k: int|
            0 <= k < gen_fold(b, ops, toks).out.len() ==> (#[trigger] gen_fold(b, ops, toks).out[k]).line
                <= last_line(toks),
    decreases toks.len(),
{
    if toks.len() > 0 {
        let pre = toks.drop_last();
        assert forall|a: int, c: int|
            0 <= a < c < pre.len() && !pre[a].tainted && !pre[c].tainted implies (#[trigger] pre[a]).line
                <= (#[trigger] pre[c]).line by {
            assert(pre[a] == toks[a] && pre[c] == toks[c]);
        }
        assert forall|k: int| 0 <= k < pre.len() && (#[trigger] pre[k]).tainted implies pre[k].kind
            == TokKind::Word by {
            assert(pre[k] == toks[k]);
        }
        lemma_gen_fold_lines(b, ops, pre);
        let st = gen_fold(b, ops, pre);
        let t = toks.last();
        assert(toks[toks.len() - 1] == t);
        lemma_token_mutants_line(t, b, st.ctx, st.prev, ops);
        if !t.tainted {
            assert forall|k: int| 0 <= k < pre.len() && !pre[k].tainted implies (#[trigger] pre[k]).line
                <= t.line by {
                assert(pre[k] == toks[k]);
            }
            lemma_last_line(pre, t.line as int);
        }
        let out = gen_step(b, ops, st, t).out;
        assert(out.len() > st.out.len() ==> !t.tainted);
        assert forall|k: int| 0 <= k < out.len() implies (#[trigger] out[k]).line <= last_line(toks)
            && (k >= st.out.len() ==> out[k].line == t.line) by {
            if k < st.out.len() {
                assert(out[k] == st.out[k]);
            } else if t.kind == TokKind::Word {
                assert(out[k] == word_mutants(t, b, st.ctx, st.prev, ops)[k - st.out.len()]);
            } else if t.kind == TokKind::ArithNum {
                assert(out[k] == number_mutants(t)[k - st.out.len()]);
            }
        }
        assert forall|a: int, c: int| 0 <= a < c < out.len() implies (#[trigger] out[a]).line
            <= (#[trigger] out[c]).line by {
            if c < st.out.len() {
                assert(out[a] == st.out[a] && out[c] == st.out[c]);
            } else if a < st.out.len() {
                assert(out[a] == st.out[a]);
            }
        }
    }
}

proof fn lemma_kept_lines(ms: Seq<MutantV>, pr: Seq<(u32, crate::lexer::Pragma)>)
    requires
        lines_sorted(ms),
    ensures
        lines_sorted(kept(ms, pr)),
    decreases ms.len(),
{
    if ms.len() > 0 {
        let pre = ms.drop_last();
        assert forall|a: int, c: int| 0 <= a < c < pre.len() implies (#[trigger] pre[a]).line
            <= (#[trigger] pre[c]).line by {
            assert(pre[a] == ms[a] && pre[c] == ms[c]);
        }
        lemma_kept_lines(pre, pr);
        lemma_kept_elements(pre, pr);
        let kd = kept(pre, pr);
        let r = kept(ms, pr);
        assert forall|a: int, c: int| 0 <= a < c < r.len() implies (#[trigger] r[a]).line
            <= (#[trigger] r[c]).line by {
            if c < kd.len() {
                assert(r[a] == kd[a] && r[c] == kd[c]);
            } else {
                assert(r[a] == kd[a]);
                assert(pre.contains(kd[a]));
                let j = choose|j: int| 0 <= j < pre.len() && pre[j] == kd[a];
                assert(ms[j] == kd[a]);
                assert(r[c] == ms.last());
                assert(ms[ms.len() - 1] == ms.last());
            }
        }
    }
}

/// The mutants of a script come in line order: no mutant comes after one
/// on a later line.
pub proof fn lemma_generated_in_line_order(src: Seq<u8>, ops: Set<Seq<char>>)
    requires
        valid_utf8(src),
        newline_count(src) < u32::MAX,
    ensures
        lines_sorted(generate_spec(src, ops)),
{
    let r = scan_spec(src);
    lemma_scan_token_positions(src);
    lemma_gen_fold_lines(src, ops, r.tokens);
    lemma_kept_lines(gen_fold(src, ops, r.tokens).out, r.pragmas);
}

// ---------------------------------------------------------------------
// Source order: by line, then by column.
// ---------------------------------------------------------------------

/// Position `(l1, c1)` comes no later than `(l2, c2)`: an earlier line, or
/// the same line and a column no later.
pub open spec fn pos_le(l1: int, c1: int, l2: int, c2: int) -> bool {
    l1 < l2 || (l1 == l2 && c1 <= c2)
}

/// The mutants come in source order: by line, then by column.
pub open spec fn source_sorted(ms: Seq<MutantV>) -> bool {
    forall|a: int, b: int|
        0 <= a < b < ms.len() ==> pos_le(
            (#[trigger] ms[a]).line as int,
            ms[a].col as int,
            (#[trigger] ms[b]).line as int,
            ms[b].col as int,
        )
}

/// Every line is shorter than 2^32 - 1 bytes, so columns never wrap.
pub open spec fn lines_fit(s: Seq<u8>) -> bool {
    forall|k: int| 0 <= k <= s.len() ==> #[trigger] line_start_after(s, 0, k, 0) + 0x1_0000_0000 > k + 1
}

/// The untainted tokens come in source order.
pub open spec fn untainted_pos_sorted(toks: Seq<TokenV>) -> bool {
    forall|a: int, b: int|
        0 <= a < b < toks.len() && !toks[a].tainted && !toks[b].tainted ==> pos_le(
            (#[trigger] toks[a]).line as int,
            toks[a].col as int,
            (#[trigger] toks[b]).line as int,
            toks[b].col as int,
        )
}

proof fn lemma_line_start_no_newline(s: Seq<u8>, a: int, b: int, d: int)
    requires
        a <= b,
        nl_count(s, a, b) == 0,
    ensures
        line_start_after(s, a, b, d) == d,
    decreases b - a,
{
    if a < b {
        lemma_nl_count_bounds(s, a, b - 1);
        lemma_line_start_no_newline(s, a, b - 1, d);
    }
}

/// Of two placed tokens, the one at the smaller offset comes first in
/// source order.
proof fn lemma_placed_order(s: Seq<u8>, t1: TokenV, t2: TokenV)
    requires
        lines_fit(s),
        placed(s, t1),
        placed(s, t2),
        t1.offset <= t2.offset,
    ensures
        pos_le(t1.line as int, t1.col as int, t2.line as int, t2.col as int),
{
    let a = t1.offset;
    let b = t2.offset;
    lemma_nl_count_split(s, 0, a, b);
    lemma_nl_count_bounds(s, a, b);
    if nl_count(s, a, b) == 0 {
        lemma_line_start_split(s, 0, a, b, 0);
        lemma_line_start_no_newline(s, a, b, line_start_after(s, 0, a, 0));
        lemma_line_start_bounds(s, 0, a, 0);
        assert(line_start_after(s, 0, a, 0) + 0x1_0000_0000 > a + 1);
        assert(line_start_after(s, 0, b, 0) + 0x1_0000_0000 > b + 1);
    }
}

proof fn lemma_tokens_pos_sorted(s: Seq<u8>, toks: Seq<TokenV>)
    requires
        lines_fit(s),
        all_placed(s, toks),
        untainted_offsets_sorted(toks),
    ensures
        untainted_pos_sorted(toks),
{
    assert forall|a: int, b: int|
        0 <= a < b < toks.len() && !toks[a].tainted && !toks[b].tainted implies pos_le(
        (#[trigger] toks[a]).line as int,
        toks[a].col as int,
        (#[trigger] toks[b]).line as int,
        toks[b].col as int,
    ) by {
        lemma_placed_order(s, toks[a], toks[b]);
    }
}

/// The line and column of the last untainted token (`(0, 0)` when there
/// is none).
pub open spec fn last_pos(toks: Seq<TokenV>) -> (int, int)
    decreases toks.len(),
{
    if toks.len() == 0 {
        (0, 0)
    } else if !toks.last().tainted {
        (toks.last().line as int, toks.last().col as int)
    } else {
        last_pos(toks.drop_last())
    }
}

proof fn lemma_last_pos(toks: Seq<TokenV>, l: int, c: int)
    requires
        forall|k: int|
            0 <= k < toks.len() && !toks[k].tainted ==> pos_le(
                (#[trigger] toks[k]).line as int,
                toks[k].col as int,
                l,
                c,
            ),
        l >= 0,
        c >= 0,
    ensures
        pos_le(last_pos(toks).0, last_pos(toks).1, l, c),
    decreases toks.len(),
{
    if toks.len() > 0 && toks.last().tainted {
        assert forall|k: int| 0 <= k < toks.drop_last().len() && !toks.drop_last()[k].tainted implies pos_le(
            (#[trigger] toks.drop_last()[k]).line as int,
            toks.drop_last()[k].col as int,
            l,
            c,
        ) by {
            assert(toks.drop_last()[k] == toks[k]);
        }
        lemma_last_pos(toks.drop_last(), l, c);
    } else if toks.len() > 0 {
        assert(toks[toks.len() - 1] == toks.last());
    }
}

proof fn lemma_token_mutants_pos(t: TokenV, b: Seq<u8>, ctx: TestCtx, prev: Option<(Seq<char>, bool)>, ops: Set<Seq<char>>)
    ensures
        forall|k: int| 0 <= k < word_mutants(t, b, ctx, prev, ops).len() ==> (#[trigger] word_mutants(t, b, ctx, prev, ops)[k]).col == t.col,
        forall|k: int| 0 <= k < number_mutants(t).len() ==> (#[trigger] number_mutants(t)[k]).col == t.col,
{
    let n = number_mutants(t);
    let f = flag_mutants(t, b);
    assert(forall|j: int| 0 <= j < n.len() ==> (#[trigger] n[j]).col == t.col);
    assert(forall|j: int| 0 <= j < f.len() ==> (#[trigger] f[j]).col == t.col);
}

proof fn lemma_gen_fold_pos(b: Seq<u8>, ops: Set<Seq<char>>, toks: Seq<TokenV>)
    requires
        untainted_pos_sorted(toks),
        only_words_tainted(toks),
    ensures
        source_sorted(gen_fold(b, ops, toks).out),
        forall|k: int|
            0 <= k < gen_fold(b, ops, toks).out.len() ==> pos_le(
                (#[trigger] gen_fold(b, ops, toks).out[k]).line as int,
                gen_fold(b, ops, toks).out[k].col as int,
                last_pos(toks).0,
                last_pos(toks).1,
            ),
    decreases toks.len(),
{
    if toks.len() > 0 {
        let pre = toks.drop_last();
        assert forall|a: int, c: int|
            0 <= a < c < pre.len() && !pre[a].tainted && !pre[c].tainted implies pos_le(
            (#[trigger] pre[a]).line as int,
            pre[a].col as int,
            (#[trigger] pre[c]).line as int,
            pre[c].col as int,
        ) by {
            assert(pre[a] == toks[a] && pre[c] == toks[c]);
        }
        assert forall|k: int| 0 <= k < pre.len() && (#[trigger] pre[k]).tainted implies pre[k].kind
            == TokKind::Word by {
            assert(pre[k] == toks[k]);
        }
        lemma_gen_fold_pos(b, ops, pre);
        let st = gen_fold(b, ops, pre);
        let t = toks.last();
        assert(toks[toks.len() - 1] == t);
        lemma_token_mutants_line(t, b, st.ctx, st.prev, ops);
        lemma_token_mutants_pos(t, b, st.ctx, st.prev, ops);
        if !t.tainted {
            assert forall|k: int| 0 <= k < pre.len() && !pre[k].tainted implies pos_le(
                (#[trigger] pre[k]).line as int,
                pre[k].col as int,
                t.line as int,
                t.col as int,
            ) by {
                assert(pre[k] == toks[k]);
            }
            lemma_last_pos(pre, t.line as int, t.col as int);
        }
        let out = gen_step(b, ops, st, t).out;
        assert(out.len() > st.out.len() ==> !t.tainted);
        assert forall|k: int| 0 <= k < out.len() implies pos_le(
            (#[trigger] out[k]).line as int,
            out[k].col as int,
            last_pos(toks).0,
            last_pos(toks).1,
        ) && (k >= st.out.len() ==> out[k].line == t.line && out[k].col == t.col) by {
            if k < st.out.len() {
                assert(out[k] == st.out[k]);
            } else if t.kind == TokKind::Word {
                assert(out[k] == word_mutants(t, b, st.ctx, st.prev, ops)[k - st.out.len()]);
            } else if t.kind == TokKind::ArithNum {
                assert(out[k] == number_mutants(t)[k - st.out.len()]);
            }
        }
        assert forall|a: int, c: int| 0 <= a < c < out.len() implies pos_le(
            (#[trigger] out[a]).line as int,
            out[a].col as int,
            (#[trigger] out[c]).line as int,
            out[c].col as int,
        ) by {
            if c < st.out.len() {
                assert(out[a] == st.out[a] && out[c] == st.out[c]);
            } else if a < st.out.len() {
                assert(out[a] == st.out[a]);
            }
        }
    }
}

proof fn lemma_kept_pos(ms: Seq<MutantV>, pr: Seq<(u32, crate::lexer::Pragma)>)
    requires
        source_sorted(ms),
    ensures
        source_sorted(kept(ms, pr)),
    decreases ms.len(),
{
    if ms.len() > 0 {
        let pre = ms.drop_last();
        assert forall|a: int, c: int| 0 <= a < c < pre.len() implies pos_le(
            (#[trigger] pre[a]).line as int,
            pre[a].col as int,
            (#[trigger] pre[c]).line as int,
            pre[c].col as int,
        ) by {
            assert(pre[a] == ms[a] && pre[c] == ms[c]);
        }
        lemma_kept_pos(pre, pr);
        lemma_kept_elements(pre, pr);
        let kd = kept(pre, pr);
        let r = kept(ms, pr);
        assert forall|a: int, c: int| 0 <= a < c < r.len() implies pos_le(
            (#[trigger] r[a]).line as int,
            r[a].col as int,
            (#[trigger] r[c]).line as int,
            r[c].col as int,
        ) by {
            if c < kd.len() {
                assert(r[a] == kd[a] && r[c] == kd[c]);
            } else {
                assert(r[a] == kd[a]);
                assert(pre.contains(kd[a]));
                let j = choose|j: int| 0 <= j < pre.len() && pre[j] == kd[a];
                assert(ms[j] == kd[a]);
                assert(r[c] == ms.last());
                assert(ms[ms.len() - 1] == ms.last());
            }
        }
    }
}

/// The mutants of a script come in source order, by line and then by
/// column, whenever every line is shorter than 2^32 - 1 bytes (beyond that
/// the 32-bit column wraps).
pub proof fn lemma_generated_in_source_order(src: Seq<u8>, ops: Set<Seq<char>>)
    requires
        valid_utf8(src),
        newline_count(src) < u32::MAX,
        lines_fit(src),
    ensures
        source_sorted(generate_spec(src, ops)),
{
    let r = scan_spec(src);
    lemma_scan_token_positions(src);
    lemma_tokens_pos_sorted(src, r.tokens);
    lemma_gen_fold_pos(src, ops, r.tokens);
    lemma_kept_pos(gen_fold(src, ops, r.tokens).out, r.pragmas);
}

} // verus!
