//! Shell-aware lexical scanner: finds the live, mutable tokens in a script.
//!
//! A single conservative byte-level pass answers the only question
//! token-level mutation needs answered: which spans of the file are live
//! shell code, and in which context they sit (plain command words, test
//! expressions, or `$(( ))` arithmetic).
//!
//! Regions that must never be mutated are skipped precisely: comments,
//! single- and double-quoted strings, backslash escapes, backtick bodies
//! and heredoc bodies (including `<<-` tab-stripped and quoted-delimiter
//! forms). Command substitutions `$( … )` are scanned recursively so
//! mutants inside them are still found; anything inside double quotes is
//! left alone.
//!
//! The scanner is specified as a state machine over the source bytes
//! (`ScanState`, advanced by the spec functions below); every executable
//! step is proved to compute exactly the corresponding spec step.

use vstd::prelude::*;
use crate::text::{latin1, latin1_string, bytes_eq};
use vstd::string::StringSliceAdditionalSpecFns;

verus! {

/// The kind of a scanned token.
#[derive(Debug, Clone, Copy, PartialEq, Eq, Structural)]
pub enum TokKind {
    /// An unquoted shell word (command name, argument, operator word).
    Word,
    /// `&&`
    AndAnd,
    /// `||`
    OrOr,
    /// A separator / control character: `;` `;;` `|` `&` `(` `)` `<` `>` or newline.
    Sep,
    /// An operator inside `$(( ))` / `(( ))` arithmetic.
    ArithOp,
    /// An integer literal inside arithmetic.
    ArithNum,
}

/// One token with its exact byte span in the source.
#[derive(Debug, Clone)]
pub struct Token {
    pub kind: TokKind,
    /// Token text. For tainted words this may omit quoted content; use
    /// `offset`/`len` for the true source span.
    pub text: String,
    /// Byte offset of the token start in the source.
    pub offset: usize,
    /// Byte length of the full token span in the source.
    pub len: usize,
    /// 1-based line number.
    pub line: u32,
    /// 1-based byte column on that line.
    pub col: u32,
    /// The word contains quotes, expansions or escapes — never mutate it.
    pub tainted: bool,
    /// The word sits in command position (start of a simple command).
    pub cmd_pos: bool,
}

/// The mathematical content of a [`Token`].
pub struct TokenV {
    pub kind: TokKind,
    pub text: Seq<char>,
    pub offset: int,
    pub len: int,
    pub line: u32,
    pub col: u32,
    pub tainted: bool,
    pub cmd_pos: bool,
}

impl View for Token {
    type V = TokenV;

    open spec fn view(&self) -> TokenV {
        TokenV {
            kind: self.kind,
            text: self.text@,
            offset: self.offset as int,
            len: self.len as int,
            line: self.line,
            col: self.col,
            tainted: self.tainted,
            cmd_pos: self.cmd_pos,
        }
    }
}

/// An in-source `# mutash: …` directive.
#[derive(Debug, Clone, Copy, PartialEq, Eq, Structural)]
pub enum Pragma {
    /// `# mutash: off` — disable mutation from this line on.
    Off,
    /// `# mutash: on` — re-enable mutation from this line on.
    On,
    /// `# mutash: skip` — disable mutation on this line only.
    SkipLine,
}

/// Result of scanning a script.
#[derive(Debug)]
pub struct ScanResult {
    pub tokens: Vec<Token>,
    /// `(line, directive)` pairs in source order.
    pub pragmas: Vec<(u32, Pragma)>,
}

/// The views of a sequence of tokens.
pub open spec fn tokens_view(v: Seq<Token>) -> Seq<TokenV> {
    v.map_values(|t: Token| t@)
}

/// The mathematical content of a [`ScanResult`].
pub struct ScanResultV {
    pub tokens: Seq<TokenV>,
    pub pragmas: Seq<(u32, Pragma)>,
}

impl View for ScanResult {
    type V = ScanResultV;

    open spec fn view(&self) -> ScanResultV {
        ScanResultV { tokens: tokens_view(self.tokens@), pragmas: self.pragmas@ }
    }
}

// ---------------------------------------------------------------------
// The scanner's state and its spec-level transitions.
// ---------------------------------------------------------------------

/// A word being accumulated.
pub struct WordV {
    pub start: int,
    pub end: int,
    pub line: u32,
    pub col: u32,
    /// The raw bytes of the word's live (unquoted) text.
    pub text: Seq<u8>,
    pub tainted: bool,
    pub cmd_pos: bool,
}

/// The scanner state: position, line bookkeeping, the tokens and pragmas
/// found so far, heredocs awaiting their body, command-position flag and
/// the word being accumulated.
pub struct ScanState {
    pub i: int,
    pub line: u32,
    pub line_start: int,
    pub tokens: Seq<TokenV>,
    pub pragmas: Seq<(u32, Pragma)>,
    /// Heredocs registered on the current line: `(delimiter, strip_tabs)`.
    pub pending: Seq<(Seq<u8>, bool)>,
    pub cmd_pos: bool,
    pub word: Option<WordV>,
}

/// Number of newline bytes in `s[a..b)`.
pub open spec fn nl_count(s: Seq<u8>, a: int, b: int) -> int
    decreases b - a,
{
    if b <= a {
        0
    } else {
        nl_count(s, a, b - 1) + if s[b - 1] == 10u8 { 1int } else { 0int }
    }
}

/// Start of the current line after reading `s[a..b)` from a line that began at `dflt`.
pub open spec fn line_start_after(s: Seq<u8>, a: int, b: int, dflt: int) -> int
    decreases b - a,
{
    if b <= a {
        dflt
    } else if s[b - 1] == 10u8 {
        b
    } else {
        line_start_after(s, a, b - 1, dflt)
    }
}

/// Move the position to `j`, counting the newlines passed on the way.
pub open spec fn advance(s: Seq<u8>, st: ScanState, j: int) -> ScanState {
    ScanState {
        i: j,
        line: (st.line + nl_count(s, st.i, j)) as u32,
        line_start: line_start_after(s, st.i, j, st.line_start),
        ..st
    }
}

/// Consume one byte.
pub open spec fn bump(s: Seq<u8>, st: ScanState) -> ScanState {
    advance(s, st, st.i + 1)
}

/// Consume up to `n` bytes, stopping at the end of the source.
pub open spec fn bump_n(s: Seq<u8>, st: ScanState, n: int) -> ScanState {
    advance(s, st, if st.i + n <= s.len() { st.i + n } else if st.i <= s.len() { s.len() as int } else { st.i })
}

/// The byte `k` places ahead of the position, if any.
pub open spec fn peek(s: Seq<u8>, st: ScanState, k: int) -> Option<u8> {
    if 0 <= st.i + k < s.len() {
        Some(s[st.i + k])
    } else {
        None
    }
}

/// 1-based byte column of the position (as a wrapping 32-bit value).
pub open spec fn col(st: ScanState) -> u32 {
    ((st.i - st.line_start + 1) % 0x1_0000_0000) as u32
}

pub open spec fn ensure_word(st: ScanState) -> ScanState {
    if st.word is None {
        ScanState {
            word: Some(
                WordV {
                    start: st.i,
                    end: st.i,
                    line: st.line,
                    col: col(st),
                    text: Seq::empty(),
                    tainted: false,
                    cmd_pos: st.cmd_pos,
                },
            ),
            ..st
        }
    } else {
        st
    }
}

pub open spec fn taint_word(st: ScanState) -> ScanState {
    match st.word {
        Some(w) => ScanState { word: Some(WordV { tainted: true, ..w }), ..st },
        None => st,
    }
}

/// Record the current position as the end of the word, if there is one.
pub open spec fn set_word_end(st: ScanState) -> ScanState {
    match st.word {
        Some(w) => ScanState { word: Some(WordV { end: st.i, ..w }), ..st },
        None => st,
    }
}

/// Words after which the next word is still in command position:
/// `if then else elif do while until ! time { exec eval`.
pub open spec fn is_cmd_keeper(t: Seq<u8>) -> bool {
    ||| t == seq!['i' as u8, 'f' as u8]
    ||| t == seq!['t' as u8, 'h' as u8, 'e' as u8, 'n' as u8]
    ||| t == seq!['e' as u8, 'l' as u8, 's' as u8, 'e' as u8]
    ||| t == seq!['e' as u8, 'l' as u8, 'i' as u8, 'f' as u8]
    ||| t == seq!['d' as u8, 'o' as u8]
    ||| t == seq!['w' as u8, 'h' as u8, 'i' as u8, 'l' as u8, 'e' as u8]
    ||| t == seq!['u' as u8, 'n' as u8, 't' as u8, 'i' as u8, 'l' as u8]
    ||| t == seq!['!' as u8]
    ||| t == seq!['t' as u8, 'i' as u8, 'm' as u8, 'e' as u8]
    ||| t == seq!['{' as u8]
    ||| t == seq!['e' as u8, 'x' as u8, 'e' as u8, 'c' as u8]
    ||| t == seq!['e' as u8, 'v' as u8, 'a' as u8, 'l' as u8]
}

/// End the current word: a non-empty word becomes a `Word` token, and
/// unless it is a command keeper the next word is an argument.
pub open spec fn flush_word(st: ScanState) -> ScanState {
    match st.word {
        Some(w) => if w.end > w.start {
            ScanState {
                word: None,
                tokens: st.tokens.push(
                    TokenV {
                        kind: TokKind::Word,
                        text: latin1(w.text),
                        offset: w.start,
                        len: w.end - w.start,
                        line: w.line,
                        col: w.col,
                        tainted: w.tainted,
                        cmd_pos: w.cmd_pos,
                    },
                ),
                cmd_pos: if is_cmd_keeper(w.text) { st.cmd_pos } else { false },
                ..st
            }
        } else {
            ScanState { word: None, ..st }
        },
        None => st,
    }
}

/// Emit a token of `text` (ASCII, present in the source at the position)
/// and consume it.
pub open spec fn emit_here(s: Seq<u8>, st: ScanState, kind: TokKind, text: Seq<u8>) -> ScanState {
    let st1 = ScanState {
        tokens: st.tokens.push(
            TokenV {
                kind,
                text: latin1(text),
                offset: st.i,
                len: text.len() as int,
                line: st.line,
                col: col(st),
                tainted: false,
                cmd_pos: false,
            },
        ),
        ..st
    };
    bump_n(s, st1, text.len() as int)
}

/// Append up to `n` raw bytes to the current word (which exists).
pub open spec fn push_raw_loop(s: Seq<u8>, st: ScanState, n: int) -> ScanState
    decreases n,
{
    if n <= 0 || st.i >= s.len() || st.i < 0 {
        st
    } else {
        let b = s[st.i];
        let st1 = bump(s, st);
        let st2 = match st1.word {
            Some(w) => ScanState { word: Some(WordV { text: w.text.push(b), end: st1.i, ..w }), ..st1 },
            None => st1,
        };
        push_raw_loop(s, st2, n - 1)
    }
}

/// Append `n` raw bytes to the current word, starting one if needed.
pub open spec fn push_word_raw(s: Seq<u8>, st: ScanState, n: int) -> ScanState {
    push_raw_loop(s, ensure_word(st), n)
}

/// Consume `n` bytes into the word span without recording text.
pub open spec fn swallow_into_word(s: Seq<u8>, st: ScanState, n: int) -> ScanState {
    set_word_end(bump_n(s, taint_word(ensure_word(st)), n))
}

// ---------------------------------------------------------------------
// Comments and pragmas.
// ---------------------------------------------------------------------

/// Whitespace as `str::trim` sees a byte read as a character.
pub open spec fn is_ws(b: u8) -> bool {
    ||| 9 <= b <= 13
    ||| b == 32
    ||| b == 0x85
    ||| b == 0xA0
}

/// First index in `[a, b)` that is not whitespace, or `b`.
pub open spec fn ws_start(s: Seq<u8>, a: int, b: int) -> int
    decreases b - a,
{
    if a >= b {
        a
    } else if is_ws(s[a]) {
        ws_start(s, a + 1, b)
    } else {
        a
    }
}

/// End of `[a, b)` once trailing whitespace is dropped.
pub open spec fn ws_end(s: Seq<u8>, a: int, b: int) -> int
    decreases b - a,
{
    if a >= b {
        b
    } else if is_ws(s[b - 1]) {
        ws_end(s, a, b - 1)
    } else {
        b
    }
}

/// End of the run of `#` starting at `a` within `[a, b)`.
pub open spec fn hash_end(s: Seq<u8>, a: int, b: int) -> int
    decreases b - a,
{
    if a >= b {
        a
    } else if s[a] == '#' as u8 {
        hash_end(s, a + 1, b)
    } else {
        a
    }
}

/// `s[a..b)` equals `p`.
pub open spec fn span_is(s: Seq<u8>, a: int, b: int, p: Seq<u8>) -> bool {
    b - a == p.len() && s.subrange(a, b) == p
}

/// The directive written in the comment `s[a..b)`: the comment without
/// its leading `#`s and surrounding whitespace reads `mutash:` followed by
/// `off`, `on` or `skip` (whitespace around the word allowed).
pub open spec fn pragma_of(s: Seq<u8>, a: int, b: int) -> Option<Pragma> {
    let b0 = ws_start(s, hash_end(s, a, b), b);
    let e0 = ws_end(s, b0, b);
    let tag = seq!['m' as u8, 'u' as u8, 't' as u8, 'a' as u8, 's' as u8, 'h' as u8, ':' as u8];
    if e0 - b0 >= 7 && s.subrange(b0, b0 + 7) == tag {
        let w0 = ws_start(s, b0 + 7, e0);
        let w1 = ws_end(s, w0, e0);
        if span_is(s, w0, w1, seq!['o' as u8, 'f' as u8, 'f' as u8]) {
            Some(Pragma::Off)
        } else if span_is(s, w0, w1, seq!['o' as u8, 'n' as u8]) {
            Some(Pragma::On)
        } else if span_is(s, w0, w1, seq!['s' as u8, 'k' as u8, 'i' as u8, 'p' as u8]) {
            Some(Pragma::SkipLine)
        } else {
            None
        }
    } else {
        None
    }
}

/// A `#` comment runs to the end of the line; `# mutash: …` records a pragma.
pub open spec fn scan_comment(s: Seq<u8>, st: ScanState) -> ScanState {
    let j = find_byte(s, st.i, '\n' as u8);
    let st1 = advance(s, st, j);
    match pragma_of(s, st.i, j) {
        Some(p) => ScanState { pragmas: st1.pragmas.push((st.line, p)), ..st1 },
        None => st1,
    }
}

/// A quoted or substituted region joins the current word, which becomes tainted.
pub open spec fn skip_into_word(s: Seq<u8>, st: ScanState, e: int) -> ScanState {
    set_word_end(advance(s, taint_word(ensure_word(st)), e))
}

// ---------------------------------------------------------------------
// Heredocs.
// ---------------------------------------------------------------------

/// Bytes that end an unquoted heredoc delimiter.
pub open spec fn ends_delim(b: u8) -> bool {
    ||| b == ' ' as u8
    ||| b == '\t' as u8
    ||| b == '\n' as u8
    ||| b == ';' as u8
    ||| b == '&' as u8
    ||| b == '|' as u8
    ||| b == '<' as u8
    ||| b == '>' as u8
    ||| b == '(' as u8
    ||| b == ')' as u8
}

/// Read a heredoc delimiter from `k`, unquoting it as the shell does;
/// returns the end position and the delimiter text.
pub open spec fn delim_loop(s: Seq<u8>, k: int, d: Seq<u8>) -> (int, Seq<u8>)
    decreases s.len() - k,
{
    if k >= s.len() || k < 0 {
        (k, d)
    } else {
        let b = s[k];
        if ends_delim(b) {
            (k, d)
        } else if b == '\'' as u8 || b == '"' as u8 {
            let j = find_byte(s, k + 1, b);
            let e = if j < s.len() { j + 1 } else { j };
            if k < e <= s.len() {
                delim_loop(s, e, d + s.subrange(k + 1, j))
            } else {
                (e, d)
            }
        } else if b == '\\' as u8 {
            if k + 1 < s.len() {
                delim_loop(s, k + 2, d.push(s[k + 1]))
            } else {
                delim_loop(s, k + 1, d)
            }
        } else {
            delim_loop(s, k + 1, d.push(b))
        }
    }
}

/// After `<<` (the position just past it): `-` asks for tab stripping,
/// blanks are skipped, and a non-empty delimiter is registered for the
/// body that starts on the next line.
pub open spec fn register_heredoc(s: Seq<u8>, st: ScanState) -> ScanState {
    let strip = 0 <= st.i < s.len() && s[st.i] == '-' as u8;
    let k1 = if strip { st.i + 1 } else { st.i };
    let k2 = run_end(s, k1, s.len() as int, ByteClass::Blank);
    let r = delim_loop(s, k2, Seq::empty());
    let st1 = advance(s, st, r.0);
    if r.1.len() > 0 {
        ScanState { pending: st1.pending.push((r.1, strip)), ..st1 }
    } else {
        st1
    }
}

/// Skip one heredoc body from `k`: lines up to and including the one that
/// equals the delimiter (after leading tabs, when stripping).
pub open spec fn body_end(s: Seq<u8>, k: int, d: Seq<u8>, strip: bool) -> int
    decreases s.len() - k,
{
    if k >= s.len() || k < 0 {
        k
    } else {
        let j = find_byte(s, k, '\n' as u8);
        let a = if strip { run_end(s, k, j, ByteClass::Tab) } else { k };
        let k2 = if j < s.len() { j + 1 } else { j };
        if s.subrange(a, j) == d {
            k2
        } else if k < k2 <= s.len() {
            body_end(s, k2, d, strip)
        } else {
            k2
        }
    }
}

/// Skip the bodies of all pending heredocs, in order.
pub open spec fn bodies_end(s: Seq<u8>, k: int, pend: Seq<(Seq<u8>, bool)>) -> int
    decreases pend.len(),
{
    if pend.len() == 0 {
        k
    } else {
        bodies_end(s, body_end(s, k, pend[0].0, pend[0].1), pend.drop_first())
    }
}

/// At the newline that ends a command line: skip every pending heredoc body.
pub open spec fn consume_heredocs(s: Seq<u8>, st: ScanState) -> ScanState {
    advance(s, ScanState { pending: Seq::empty(), ..st }, bodies_end(s, st.i, st.pending))
}

// ---------------------------------------------------------------------
// Arithmetic.
// ---------------------------------------------------------------------

/// Consume one arithmetic operator (longest match first): shifts, powers,
/// bitwise and logical compounds are consumed silently; relational,
/// increment and additive-assignment operators and single `+ - * / % < >`
/// become `ArithOp` tokens, except a `+`/`-` sign where an operand is due.
pub open spec fn arith_op(s: Seq<u8>, st: ScanState, prev_operand: bool) -> ScanState {
    let c0 = s[st.i];
    let c1 = peek(s, st, 1);
    let c2 = peek(s, st, 2);
    let sh3 = c2 == Some('=' as u8) && (
        (c0 == '<' as u8 && c1 == Some('<' as u8))
        || (c0 == '>' as u8 && c1 == Some('>' as u8))
        || (c0 == '*' as u8 && c1 == Some('*' as u8)));
    let quiet2 = (c0 == '<' as u8 && c1 == Some('<' as u8))
        || (c0 == '>' as u8 && c1 == Some('>' as u8))
        || (c0 == '*' as u8 && c1 == Some('*' as u8))
        || (c0 == '&' as u8 && c1 == Some('=' as u8))
        || (c0 == '|' as u8 && c1 == Some('=' as u8))
        || (c0 == '^' as u8 && c1 == Some('=' as u8))
        || (c0 == '&' as u8 && c1 == Some('&' as u8))
        || (c0 == '|' as u8 && c1 == Some('|' as u8));
    let live2 = (c0 == '=' as u8 && c1 == Some('=' as u8))
        || (c0 == '!' as u8 && c1 == Some('=' as u8))
        || (c0 == '<' as u8 && c1 == Some('=' as u8))
        || (c0 == '>' as u8 && c1 == Some('=' as u8))
        || (c0 == '+' as u8 && c1 == Some('+' as u8))
        || (c0 == '-' as u8 && c1 == Some('-' as u8))
        || (c0 == '+' as u8 && c1 == Some('=' as u8))
        || (c0 == '-' as u8 && c1 == Some('=' as u8));
    let quiet_assign = c1 == Some('=' as u8) && (c0 == '*' as u8 || c0 == '/' as u8 || c0 == '%' as u8);
    if sh3 {
        bump_n(s, st, 3)
    } else if quiet2 {
        bump_n(s, st, 2)
    } else if live2 {
        emit_here(s, st, TokKind::ArithOp, seq![c0, s[st.i + 1]])
    } else if quiet_assign {
        bump_n(s, st, 2)
    } else if (c0 == '+' as u8 || c0 == '-' as u8) && !prev_operand {
        bump(s, st)
    } else if c0 == '+' as u8 || c0 == '-' as u8 || c0 == '*' as u8 || c0 == '/' as u8
        || c0 == '%' as u8 || c0 == '<' as u8 || c0 == '>' as u8 {
        emit_here(s, st, TokKind::ArithOp, seq![c0])
    } else {
        bump(s, st)
    }
}

/// One step of arithmetic scanning; returns the new state, paren depth,
/// whether an operand was just read, and whether the closing `))` ended it.
pub open spec fn arith_step(s: Seq<u8>, st: ScanState, depth: int, prev: bool) -> (ScanState, int, bool, bool) {
    let i = st.i;
    let c = s[i];
    let n = s.len() as int;
    if c == ')' as u8 {
        if depth == 0 {
            let st1 = bump(s, st);
            (if peek(s, st1, 0) == Some(')' as u8) { bump(s, st1) } else { st1 }, depth, prev, true)
        } else {
            (bump(s, st), depth - 1, true, false)
        }
    } else if c == '(' as u8 {
        (bump(s, st), depth + 1, false, false)
    } else if is_digit(c) {
        let j = run_end(s, i, n, ByteClass::Digit);
        if j < n && in_class(s[j], ByteClass::IdentHash) {
            // `16#ff`, `0x1f`, `2abc`: base or malformed literals are skipped.
            (advance(s, st, run_end(s, j, n, ByteClass::IdentHash)), depth, true, false)
        } else {
            let tok = TokenV {
                kind: TokKind::ArithNum,
                text: latin1(s.subrange(i, j)),
                offset: i,
                len: j - i,
                line: st.line,
                col: col(st),
                tainted: false,
                cmd_pos: false,
            };
            (advance(s, ScanState { tokens: st.tokens.push(tok), ..st }, j), depth, true, false)
        }
    } else if ('a' as u8 <= c <= 'z' as u8) || ('A' as u8 <= c <= 'Z' as u8) || c == '_' as u8 {
        (advance(s, st, run_end(s, i, n, ByteClass::Ident)), depth, true, false)
    } else if c == '$' as u8 {
        let e = if i + 1 < n && s[i + 1] == '{' as u8 {
            squote_end(s, i, '}' as u8)
        } else if i + 1 < n && s[i + 1] == '(' as u8 {
            cs_end(s, i)
        } else {
            run_end(s, i + 1, n, ByteClass::IdentHash)
        };
        (advance(s, st, e), depth, true, false)
    } else if c == '\'' as u8 || c == '"' as u8 {
        (advance(s, st, aq_loop(s, i + 1, c)), depth, true, false)
    } else if c == ' ' as u8 || c == '\t' as u8 || c == '\r' as u8 || c == '\n' as u8 || c == ';' as u8 {
        (bump(s, st), depth, prev, false)
    } else if c == '#' as u8 {
        // Base separator (`16#ff`): the digits that follow are swallowed.
        (advance(s, st, run_end(s, i + 1, n, ByteClass::Alnum)), depth, true, false)
    } else {
        (arith_op(s, st, prev), depth, false, false)
    }
}

/// Inside `$(( … ))` / `(( … ))`: emit arithmetic operator and integer
/// tokens, consume everything else, and stop after the matching `))`.
pub open spec fn arith_loop(s: Seq<u8>, st: ScanState, depth: int, prev: bool) -> ScanState
    decreases s.len() - st.i,
{
    if st.i >= s.len() || st.i < 0 {
        st
    } else {
        let r = arith_step(s, st, depth, prev);
        if r.3 {
            r.0
        } else if st.i < r.0.i <= s.len() {
            arith_loop(s, r.0, r.1, r.2)
        } else {
            r.0
        }
    }
}

pub open spec fn scan_arith(s: Seq<u8>, st: ScanState) -> ScanState {
    arith_loop(s, st, 0, false)
}

// ---------------------------------------------------------------------
// Live code.
// ---------------------------------------------------------------------

pub open spec fn with_cmd_pos(st: ScanState, b: bool) -> ScanState {
    ScanState { cmd_pos: b, ..st }
}

/// Emit a one- or two-byte separator: the two-byte form when the next
/// byte doubles the current one.
pub open spec fn emit_pair(s: Seq<u8>, st: ScanState, single: TokKind, double: TokKind) -> ScanState {
    let c = s[st.i];
    if peek(s, st, 1) == Some(c) {
        emit_here(s, st, double, seq![c, c])
    } else {
        emit_here(s, st, single, seq![c])
    }
}

/// One step of live-code scanning; returns the new state, the parenthesis
/// depth, and whether the `)` closing the enclosing `$( … )` ended it.
pub open spec fn code_step(s: Seq<u8>, st: ScanState, term: bool, depth: int) -> (ScanState, int, bool)
    decreases s.len() - st.i, 0int,
{
    let c = s[st.i];
    if c == ' ' as u8 || c == '\t' as u8 || c == '\r' as u8 {
        (bump(s, flush_word(st)), depth, false)
    } else if c == '\n' as u8 {
        let st1 = emit_here(s, flush_word(st), TokKind::Sep, seq![c]);
        (with_cmd_pos(consume_heredocs(s, st1), true), depth, false)
    } else if c == '\\' as u8 {
        if peek(s, st, 1) == Some('\n' as u8) {
            // Line continuation: the word carries on.
            (bump_n(s, st, 2), depth, false)
        } else {
            // Escaped char: part of the word, never mutable.
            (push_word_raw(s, taint_word(ensure_word(st)), 2), depth, false)
        }
    } else if c == '#' as u8 && st.word is None {
        (scan_comment(s, st), depth, false)
    } else if c == '\'' as u8 {
        (skip_into_word(s, st, squote_end(s, st.i, c)), depth, false)
    } else if c == '"' as u8 {
        (skip_into_word(s, st, dq_loop(s, st.i + 1)), depth, false)
    } else if c == '`' as u8 {
        (skip_into_word(s, st, bt_end(s, st.i)), depth, false)
    } else if c == '$' as u8 {
        if peek(s, st, 1) == Some('(' as u8) && peek(s, st, 2) == Some('(' as u8) {
            (set_word_end(scan_arith(s, swallow_into_word(s, st, 3))), depth, false)
        } else if peek(s, st, 1) == Some('(' as u8) {
            // The substitution body is live code, scanned with the partly
            // built outer word set aside.
            let st1 = swallow_into_word(s, st, 2);
            let st2 = ScanState { word: None, cmd_pos: true, ..st1 };
            let st3 = if st.i + 2 <= s.len() { scan_code(s, st2, true, 0) } else { st2 };
            (set_word_end(ScanState { word: st1.word, cmd_pos: st1.cmd_pos, ..st3 }), depth, false)
        } else {
            (push_word_raw(s, taint_word(ensure_word(st)), 1), depth, false)
        }
    } else if c == '(' as u8 {
        if st.word is None && peek(s, st, 1) == Some('(' as u8) {
            // `(( … ))` arithmetic command.
            (with_cmd_pos(scan_arith(s, bump_n(s, st, 2)), false), depth, false)
        } else {
            (with_cmd_pos(emit_here(s, flush_word(st), TokKind::Sep, seq![c]), true), depth + 1, false)
        }
    } else if c == ')' as u8 {
        let st1 = flush_word(st);
        if depth == 0 && term {
            (bump(s, st1), depth, true)
        } else {
            (
                with_cmd_pos(emit_here(s, st1, TokKind::Sep, seq![c]), true),
                if depth > 0 { depth - 1 } else { 0 },
                false,
            )
        }
    } else if c == ';' as u8 {
        (with_cmd_pos(emit_pair(s, flush_word(st), TokKind::Sep, TokKind::Sep), true), depth, false)
    } else if c == '&' as u8 {
        (with_cmd_pos(emit_pair(s, flush_word(st), TokKind::Sep, TokKind::AndAnd), true), depth, false)
    } else if c == '|' as u8 {
        (with_cmd_pos(emit_pair(s, flush_word(st), TokKind::Sep, TokKind::OrOr), true), depth, false)
    } else if c == '<' as u8 {
        let st1 = flush_word(st);
        if peek(s, st1, 1) == Some('<' as u8) && peek(s, st1, 2) == Some('<' as u8) {
            // Herestring: the following word is data, keep scanning.
            (bump_n(s, st1, 3), depth, false)
        } else if peek(s, st1, 1) == Some('<' as u8) {
            (register_heredoc(s, bump_n(s, st1, 2)), depth, false)
        } else {
            (emit_here(s, st1, TokKind::Sep, seq![c]), depth, false)
        }
    } else if c == '>' as u8 {
        let st1 = emit_here(s, flush_word(st), TokKind::Sep, seq![c]);
        // `>>` append: the second `>` is consumed.
        (if peek(s, st1, 0) == Some('>' as u8) { bump(s, st1) } else { st1 }, depth, false)
    } else {
        (push_word_raw(s, st, 1), depth, false)
    }
}

/// Live code from the position to the end of the source, or (when `term`,
/// inside `$( … )`) to the `)` that closes the substitution.
pub open spec fn scan_code(s: Seq<u8>, st: ScanState, term: bool, depth: int) -> ScanState
    decreases s.len() - st.i, 1int,
{
    if st.i >= s.len() || st.i < 0 {
        flush_word(st)
    } else {
        let r = code_step(s, st, term, depth);
        if r.2 {
            r.0
        } else if st.i < r.0.i <= s.len() {
            scan_code(s, r.0, term, r.1)
        } else {
            r.0
        }
    }
}

/// The state a scan starts from.
pub open spec fn initial_state() -> ScanState {
    ScanState {
        i: 0,
        line: 1,
        line_start: 0,
        tokens: Seq::empty(),
        pragmas: Seq::empty(),
        pending: Seq::empty(),
        cmd_pos: true,
        word: None,
    }
}

/// What scanning the bytes `s` yields.
pub open spec fn scan_spec(s: Seq<u8>) -> ScanResultV {
    let st = flush_word(scan_code(s, initial_state(), false, 0));
    ScanResultV { tokens: st.tokens, pragmas: st.pragmas }
}

/// Number of newlines in `s`: a source is scannable while its last line
/// number fits in a `u32`.
pub open spec fn newline_count(s: Seq<u8>) -> int {
    nl_count(s, 0, s.len() as int)
}

/// Every token's span lies within a source of `n` bytes.
pub open spec fn tokens_within(toks: Seq<TokenV>, n: int) -> bool {
    forall|k: int| 0 <= k < toks.len() ==> 0 <= #[trigger] toks[k].offset && toks[k].offset + toks[k].len <= n
}

/// Well-formedness of a scanner state over source `s`.
pub open spec fn wf(s: Seq<u8>, st: ScanState) -> bool {
    &&& 0 <= st.line_start <= st.i <= s.len()
    &&& st.line as int == 1 + nl_count(s, 0, st.i)
    &&& nl_count(s, 0, s.len() as int) < u32::MAX
    &&& tokens_within(st.tokens, s.len() as int)
    &&& (st.word matches Some(w) ==> 0 <= w.start && w.end <= s.len())
}

// ---------------------------------------------------------------------
// Regions skipped whole: these only move the position.
// ---------------------------------------------------------------------

/// First index at or after `k` holding byte `c`, or the end of the source.
pub open spec fn find_byte(s: Seq<u8>, k: int, c: u8) -> int
    decreases s.len() - k,
{
    if k >= s.len() || k < 0 {
        k
    } else if s[k] == c {
        k
    } else {
        find_byte(s, k + 1, c)
    }
}

/// Byte classes whose runs the scanner consumes.
#[derive(Clone, Copy)]
pub enum ByteClass {
    /// `0`..`9`
    Digit,
    /// ASCII letters and digits.
    Alnum,
    /// ASCII letters, digits and `_`.
    Ident,
    /// ASCII letters, digits, `_` and `#`.
    IdentHash,
    /// Space and tab.
    Blank,
    /// Tab.
    Tab,
}

pub open spec fn is_digit(b: u8) -> bool {
    '0' as u8 <= b <= '9' as u8
}

pub open spec fn is_alnum(b: u8) -> bool {
    ||| is_digit(b)
    ||| 'a' as u8 <= b <= 'z' as u8
    ||| 'A' as u8 <= b <= 'Z' as u8
}

pub open spec fn in_class(b: u8, cls: ByteClass) -> bool {
    match cls {
        ByteClass::Digit => is_digit(b),
        ByteClass::Alnum => is_alnum(b),
        ByteClass::Ident => is_alnum(b) || b == '_' as u8,
        ByteClass::IdentHash => is_alnum(b) || b == '_' as u8 || b == '#' as u8,
        ByteClass::Blank => b == ' ' as u8 || b == '\t' as u8,
        ByteClass::Tab => b == '\t' as u8,
    }
}

/// End of the run of `cls` bytes starting at `k` (bounded by `end`).
pub open spec fn run_end(s: Seq<u8>, k: int, end: int, cls: ByteClass) -> int
    decreases end - k,
{
    if k >= end || k < 0 || k >= s.len() {
        k
    } else if in_class(s[k], cls) {
        run_end(s, k + 1, end, cls)
    } else {
        k
    }
}

/// Position after a byte and the one it escapes.
pub open spec fn skip_escape(s: Seq<u8>, k: int) -> int {
    if k + 2 <= s.len() {
        k + 2
    } else {
        s.len() as int
    }
}

/// End of a backtick body scanned from `k` (just after the opening backtick).
pub open spec fn bt_loop(s: Seq<u8>, k: int) -> int
    decreases s.len() - k,
{
    if k >= s.len() || k < 0 {
        k
    } else if s[k] == '\\' as u8 {
        bt_loop(s, skip_escape(s, k))
    } else if s[k] == '`' as u8 {
        k + 1
    } else {
        bt_loop(s, k + 1)
    }
}

/// End of a backtick substitution whose opening backtick is at `k`.
pub open spec fn bt_end(s: Seq<u8>, k: int) -> int {
    bt_loop(s, k + 1)
}

/// End of a quoted run (single-quoted: nothing escapes) whose opening quote is at `k`.
pub open spec fn squote_end(s: Seq<u8>, k: int, q: u8) -> int {
    let j = find_byte(s, k + 1, q);
    if j < s.len() {
        j + 1
    } else {
        j
    }
}

/// End of a `$( … )` skipped whole (nested parentheses, quotes, escapes
/// and backticks respected), the `$` being at `k`.
pub open spec fn cs_end(s: Seq<u8>, k: int) -> int
    decreases s.len() - k, 0int,
{
    if 0 <= k && k + 2 <= s.len() {
        cs_loop(s, k + 2, 1)
    } else {
        s.len() as int
    }
}

/// The body of a skipped `$( … )` from `k`, at parenthesis depth `depth`.
pub open spec fn cs_loop(s: Seq<u8>, k: int, depth: int) -> int
    decreases s.len() - k, 0int,
{
    if k >= s.len() || k < 0 || depth <= 0 {
        k
    } else {
        let c = s[k];
        if c == '(' as u8 {
            cs_loop(s, k + 1, depth + 1)
        } else if c == ')' as u8 {
            cs_loop(s, k + 1, depth - 1)
        } else if c == '\\' as u8 {
            cs_loop(s, skip_escape(s, k), depth)
        } else if c == '\'' as u8 {
            let e = squote_end(s, k, '\'' as u8);
            if k < e <= s.len() {
                cs_loop(s, e, depth)
            } else {
                e
            }
        } else if c == '"' as u8 {
            let e = cs_dq(s, k + 1);
            if k < e <= s.len() {
                cs_loop(s, e, depth)
            } else {
                e
            }
        } else if c == '`' as u8 {
            let e = bt_end(s, k);
            if k < e <= s.len() {
                cs_loop(s, e, depth)
            } else {
                e
            }
        } else {
            cs_loop(s, k + 1, depth)
        }
    }
}

/// A double-quoted string inside a skipped `$( … )`, from just after its opening quote.
pub open spec fn cs_dq(s: Seq<u8>, k: int) -> int
    decreases s.len() - k, 1int,
{
    if k >= s.len() || k < 0 {
        k
    } else {
        let c = s[k];
        if c == '\\' as u8 {
            cs_dq(s, skip_escape(s, k))
        } else if c == '"' as u8 {
            k + 1
        } else if c == '$' as u8 && k + 1 < s.len() && s[k + 1] == '(' as u8 {
            let e = cs_end(s, k);
            if k < e <= s.len() {
                cs_dq(s, e)
            } else {
                e
            }
        } else {
            cs_dq(s, k + 1)
        }
    }
}

/// A double-quoted string in live code, from just after its opening quote.
pub open spec fn dq_loop(s: Seq<u8>, k: int) -> int
    decreases s.len() - k,
{
    if k >= s.len() || k < 0 {
        k
    } else {
        let c = s[k];
        if c == '\\' as u8 {
            dq_loop(s, skip_escape(s, k))
        } else if c == '"' as u8 {
            k + 1
        } else if c == '`' as u8 {
            let e = bt_end(s, k);
            if k < e <= s.len() {
                dq_loop(s, e)
            } else {
                e
            }
        } else if c == '$' as u8 && k + 1 < s.len() && s[k + 1] == '(' as u8 {
            let e = cs_end(s, k);
            if k < e <= s.len() {
                dq_loop(s, e)
            } else {
                e
            }
        } else {
            dq_loop(s, k + 1)
        }
    }
}

/// A quoted string inside arithmetic (backslash escapes honored), from just after quote `q`.
pub open spec fn aq_loop(s: Seq<u8>, k: int, q: u8) -> int
    decreases s.len() - k,
{
    if k >= s.len() || k < 0 {
        k
    } else if s[k] == q {
        k + 1
    } else if s[k] == '\\' as u8 {
        aq_loop(s, skip_escape(s, k), q)
    } else {
        aq_loop(s, k + 1, q)
    }
}

// ---------------------------------------------------------------------
// Lemmas about positions and line bookkeeping.
// ---------------------------------------------------------------------

pub(crate) proof fn lemma_nl_count_split(s: Seq<u8>, a: int, b: int, c: int)
    requires
        a <= b <= c,
    ensures
        nl_count(s, a, c) == nl_count(s, a, b) + nl_count(s, b, c),
    decreases c - b,
{
    if b < c {
        lemma_nl_count_split(s, a, b, c - 1);
    }
}

pub(crate) proof fn lemma_nl_count_bounds(s: Seq<u8>, a: int, b: int)
    ensures
        0 <= nl_count(s, a, b),
        a <= b ==> nl_count(s, a, b) <= b - a,
    decreases b - a,
{
    if a < b {
        lemma_nl_count_bounds(s, a, b - 1);
    }
}

pub(crate) proof fn lemma_line_start_bounds(s: Seq<u8>, a: int, b: int, dflt: int)
    requires
        dflt <= a <= b,
    ensures
        dflt <= line_start_after(s, a, b, dflt) <= b,
    decreases b - a,
{
    if a < b {
        lemma_line_start_bounds(s, a, b - 1, dflt);
    }
}

pub(crate) proof fn lemma_line_start_split(s: Seq<u8>, a: int, b: int, c: int, dflt: int)
    requires
        a <= b <= c,
    ensures
        line_start_after(s, a, c, dflt) == line_start_after(s, b, c, line_start_after(s, a, b, dflt)),
    decreases c - b,
{
    if b < c {
        lemma_line_start_split(s, a, b, c - 1, dflt);
    }
}

/// Advancing in two legs is advancing once.
proof fn lemma_advance_twice(s: Seq<u8>, st: ScanState, j: int, k: int)
    requires
        st.i <= j <= k,
        wf(s, st),
        k <= s.len(),
    ensures
        advance(s, advance(s, st, j), k) == advance(s, st, k),
        wf(s, advance(s, st, k)),
{
    lemma_nl_count_split(s, st.i, j, k);
    lemma_line_start_split(s, st.i, j, k, st.line_start);
    lemma_wf_advance(s, st, j);
    lemma_wf_advance(s, advance(s, st, j), k);
    lemma_wf_advance(s, st, k);
}

/// Advancing within the source keeps the state well formed.
proof fn lemma_wf_advance(s: Seq<u8>, st: ScanState, j: int)
    requires
        wf(s, st),
        st.i <= j <= s.len(),
    ensures
        wf(s, advance(s, st, j)),
        advance(s, st, j).line as int == st.line + nl_count(s, st.i, j),
{
    lemma_nl_count_split(s, 0, st.i, j);
    lemma_nl_count_split(s, 0, j, s.len() as int);
    lemma_nl_count_bounds(s, j, s.len() as int);
    lemma_nl_count_bounds(s, st.i, j);
    lemma_line_start_bounds(s, st.i, j, st.line_start);
}

proof fn lemma_advance_same(s: Seq<u8>, st: ScanState)
    ensures
        advance(s, st, st.i) == st,
{
}

// ---------------------------------------------------------------------
// The executable scanner.
// ---------------------------------------------------------------------

fn find_byte_exec(src: &[u8], k: usize, c: u8) -> (r: usize)
    requires
        k <= src.len(),
    ensures
        r == find_byte(src@, k as int, c),
        k <= r <= src.len(),
        r < src.len() ==> src@[r as int] == c,
{
    let mut j = k;
    while j < src.len() && src[j] != c
        invariant
            k <= j <= src.len(),
            find_byte(src@, k as int, c) == find_byte(src@, j as int, c),
        decreases src.len() - j,
    {
        j = j + 1;
    }
    j
}

fn in_class_exec(b: u8, cls: ByteClass) -> (r: bool)
    ensures
        r == in_class(b, cls),
{
    let alnum = ('0' as u8 <= b && b <= '9' as u8) || ('a' as u8 <= b && b <= 'z' as u8) || (
    'A' as u8 <= b && b <= 'Z' as u8);
    match cls {
        ByteClass::Digit => '0' as u8 <= b && b <= '9' as u8,
        ByteClass::Alnum => alnum,
        ByteClass::Ident => alnum || b == '_' as u8,
        ByteClass::IdentHash => alnum || b == '_' as u8 || b == '#' as u8,
        ByteClass::Blank => b == ' ' as u8 || b == '\t' as u8,
        ByteClass::Tab => b == '\t' as u8,
    }
}

fn run_end_exec(src: &[u8], k: usize, end: usize, cls: ByteClass) -> (r: usize)
    requires
        k <= end <= src.len(),
    ensures
        r == run_end(src@, k as int, end as int, cls),
        k <= r <= end,
        k < end && in_class(src@[k as int], cls) ==> k < r,
{
    let mut j = k;
    while j < end && in_class_exec(src[j], cls)
        invariant
            k <= j <= end,
            end <= src.len(),
            run_end(src@, k as int, end as int, cls) == run_end(src@, j as int, end as int, cls),
        decreases end - j,
    {
        j = j + 1;
    }
    j
}

fn skip_escape_exec(src: &[u8], k: usize) -> (r: usize)
    requires
        k < src.len(),
    ensures
        r == skip_escape(src@, k as int),
        k < r <= src.len(),
{
    if k + 1 < src.len() {
        k + 2
    } else {
        src.len()
    }
}

fn bt_end_exec(src: &[u8], k: usize) -> (r: usize)
    requires
        k < src.len(),
    ensures
        r == bt_end(src@, k as int),
        k < r <= src.len(),
{
    let mut j = k + 1;
    while j < src.len()
        invariant
            k < j <= src.len(),
            bt_end(src@, k as int) == bt_loop(src@, j as int),
        decreases src.len() - j,
    {
        if src[j] == '\\' as u8 {
            j = skip_escape_exec(src, j);
        } else if src[j] == '`' as u8 {
            return j + 1;
        } else {
            j = j + 1;
        }
    }
    j
}

fn squote_end_exec(src: &[u8], k: usize, q: u8) -> (r: usize)
    requires
        k < src.len(),
    ensures
        r == squote_end(src@, k as int, q),
        k < r <= src.len(),
{
    let j = find_byte_exec(src, k + 1, q);
    if j < src.len() {
        j + 1
    } else {
        j
    }
}

fn cs_end_exec(src: &[u8], k: usize) -> (r: usize)
    requires
        k + 2 <= src.len(),
    ensures
        r == cs_end(src@, k as int),
        k < r <= src.len(),
    decreases src.len() - k, 0int,
{
    let mut j = k + 2;
    let mut depth: usize = 1;
    while j < src.len() && depth > 0
        invariant
            k + 2 <= j <= src.len(),
            depth <= j,
            cs_end(src@, k as int) == cs_loop(src@, j as int, depth as int),
        decreases src.len() - j,
    {
        let c = src[j];
        if c == '(' as u8 {
            depth = depth + 1;
            j = j + 1;
        } else if c == ')' as u8 {
            depth = depth - 1;
            j = j + 1;
        } else if c == '\\' as u8 {
            j = skip_escape_exec(src, j);
        } else if c == '\'' as u8 {
            j = squote_end_exec(src, j, '\'' as u8);
        } else if c == '"' as u8 {
            j = cs_dq_exec(src, j + 1);
        } else if c == '`' as u8 {
            j = bt_end_exec(src, j);
        } else {
            j = j + 1;
        }
    }
    j
}

fn cs_dq_exec(src: &[u8], k: usize) -> (r: usize)
    requires
        k <= src.len(),
    ensures
        r == cs_dq(src@, k as int),
        k <= r <= src.len(),
        k < src.len() ==> k < r,
    decreases src.len() - k, 1int,
{
    let mut j = k;
    while j < src.len()
        invariant
            k <= j <= src.len(),
            k < src.len() ==> k < j || j == k,
            cs_dq(src@, k as int) == cs_dq(src@, j as int),
        decreases src.len() - j,
    {
        let c = src[j];
        if c == '\\' as u8 {
            j = skip_escape_exec(src, j);
        } else if c == '"' as u8 {
            return j + 1;
        } else if c == '$' as u8 && j + 1 < src.len() && src[j + 1] == '(' as u8 {
            j = cs_end_exec(src, j);
        } else {
            j = j + 1;
        }
    }
    j
}

fn dq_end_exec(src: &[u8], k: usize) -> (r: usize)
    requires
        k < src.len(),
    ensures
        r == dq_loop(src@, k + 1),
        k < r <= src.len(),
{
    let mut j = k + 1;
    while j < src.len()
        invariant
            k < j <= src.len(),
            dq_loop(src@, k + 1) == dq_loop(src@, j as int),
        decreases src.len() - j,
    {
        let c = src[j];
        if c == '\\' as u8 {
            j = skip_escape_exec(src, j);
        } else if c == '"' as u8 {
            return j + 1;
        } else if c == '`' as u8 {
            j = bt_end_exec(src, j);
        } else if c == '$' as u8 && j + 1 < src.len() && src[j + 1] == '(' as u8 {
            j = cs_end_exec(src, j);
        } else {
            j = j + 1;
        }
    }
    j
}

fn aq_end_exec(src: &[u8], k: usize, q: u8) -> (r: usize)
    requires
        k < src.len(),
    ensures
        r == aq_loop(src@, k + 1, q),
        k < r <= src.len(),
{
    let mut j = k + 1;
    while j < src.len()
        invariant
            k < j <= src.len(),
            aq_loop(src@, k + 1, q) == aq_loop(src@, j as int, q),
        decreases src.len() - j,
    {
        if src[j] == q {
            return j + 1;
        } else if src[j] == '\\' as u8 {
            j = skip_escape_exec(src, j);
        } else {
            j = j + 1;
        }
    }
    j
}

fn is_ws_exec(b: u8) -> (r: bool)
    ensures
        r == is_ws(b),
{
    (9 <= b && b <= 13) || b == 32 || b == 0x85 || b == 0xA0
}

fn ws_start_exec(src: &[u8], a: usize, b: usize) -> (r: usize)
    requires
        a <= b <= src.len(),
    ensures
        r == ws_start(src@, a as int, b as int),
        a <= r <= b,
{
    let mut k = a;
    while k < b && is_ws_exec(src[k])
        invariant
            a <= k <= b,
            b <= src.len(),
            ws_start(src@, a as int, b as int) == ws_start(src@, k as int, b as int),
        decreases b - k,
    {
        k = k + 1;
    }
    k
}

fn ws_end_exec(src: &[u8], a: usize, b: usize) -> (r: usize)
    requires
        a <= b <= src.len(),
    ensures
        r == ws_end(src@, a as int, b as int),
        a <= r <= b,
{
    let mut k = b;
    while k > a && is_ws_exec(src[k - 1])
        invariant
            a <= k <= b,
            b <= src.len(),
            ws_end(src@, a as int, b as int) == ws_end(src@, a as int, k as int),
        decreases k - a,
    {
        k = k - 1;
    }
    k
}

fn hash_end_exec(src: &[u8], a: usize, b: usize) -> (r: usize)
    requires
        a <= b <= src.len(),
    ensures
        r == hash_end(src@, a as int, b as int),
        a <= r <= b,
{
    let mut k = a;
    while k < b && src[k] == '#' as u8
        invariant
            a <= k <= b,
            b <= src.len(),
            hash_end(src@, a as int, b as int) == hash_end(src@, k as int, b as int),
        decreases b - k,
    {
        k = k + 1;
    }
    k
}

/// `src[a..b)` equals `p`.
fn span_is_exec(src: &[u8], a: usize, b: usize, p: &[u8]) -> (r: bool)
    requires
        a <= b <= src.len(),
    ensures
        r == span_is(src@, a as int, b as int, p@),
{
    if b - a != p.len() {
        return false;
    }
    let mut k: usize = 0;
    while k < p.len()
        invariant
            k <= p.len(),
            b - a == p.len(),
            a <= b <= src.len(),
            forall|m: int| 0 <= m < k ==> src@[a + m] == p@[m],
        decreases p.len() - k,
    {
        if src[a + k] != p[k] {
            assert(src@.subrange(a as int, b as int)[k as int] != p@[k as int]);
            return false;
        }
        k = k + 1;
    }
    assert(src@.subrange(a as int, b as int) =~= p@);
    true
}

fn pragma_of_exec(src: &[u8], a: usize, b: usize) -> (r: Option<Pragma>)
    requires
        a <= b <= src.len(),
    ensures
        r == pragma_of(src@, a as int, b as int),
{
    let b0 = ws_start_exec(src, hash_end_exec(src, a, b), b);
    let e0 = ws_end_exec(src, b0, b);
    let tag: [u8; 7] = ['m' as u8, 'u' as u8, 't' as u8, 'a' as u8, 's' as u8, 'h' as u8, ':' as u8];
    assert(tag@ =~= seq!['m' as u8, 'u' as u8, 't' as u8, 'a' as u8, 's' as u8, 'h' as u8, ':' as u8]);
    if e0 - b0 >= 7 && span_is_exec(src, b0, b0 + 7, &tag) {
        let w0 = ws_start_exec(src, b0 + 7, e0);
        let w1 = ws_end_exec(src, w0, e0);
        let off: [u8; 3] = ['o' as u8, 'f' as u8, 'f' as u8];
        let on: [u8; 2] = ['o' as u8, 'n' as u8];
        let skip: [u8; 4] = ['s' as u8, 'k' as u8, 'i' as u8, 'p' as u8];
        assert(off@ =~= seq!['o' as u8, 'f' as u8, 'f' as u8]);
        assert(on@ =~= seq!['o' as u8, 'n' as u8]);
        assert(skip@ =~= seq!['s' as u8, 'k' as u8, 'i' as u8, 'p' as u8]);
        if span_is_exec(src, w0, w1, &off) {
            Some(Pragma::Off)
        } else if span_is_exec(src, w0, w1, &on) {
            Some(Pragma::On)
        } else if span_is_exec(src, w0, w1, &skip) {
            Some(Pragma::SkipLine)
        } else {
            None
        }
    } else {
        None
    }
}

/// Append `src[a..b)` to `d`.
fn push_range(d: &mut Vec<u8>, src: &[u8], a: usize, b: usize)
    requires
        a <= b <= src.len(),
    ensures
        final(d)@ == old(d)@ + src@.subrange(a as int, b as int),
{
    let ghost d0 = d@;
    let mut k = a;
    while k < b
        invariant
            a <= k <= b,
            b <= src.len(),
            d@ == d0 + src@.subrange(a as int, k as int),
        decreases b - k,
    {
        d.push(src[k]);
        k = k + 1;
        assert(src@.subrange(a as int, k as int) =~= src@.subrange(a as int, k - 1).push(src@[k - 1]));
    }
}

fn ends_delim_exec(b: u8) -> (r: bool)
    ensures
        r == ends_delim(b),
{
    b == ' ' as u8 || b == '\t' as u8 || b == '\n' as u8 || b == ';' as u8 || b == '&' as u8 || b
        == '|' as u8 || b == '<' as u8 || b == '>' as u8 || b == '(' as u8 || b == ')' as u8
}

/// Read a heredoc delimiter from `k`.
fn delim_exec(src: &[u8], k: usize) -> (r: (usize, Vec<u8>))
    requires
        k <= src.len(),
    ensures
        (r.0 as int, r.1@) == delim_loop(src@, k as int, Seq::empty()),
        k <= r.0 <= src.len(),
{
    let mut d: Vec<u8> = Vec::new();
    let mut j = k;
    while j < src.len() && !ends_delim_exec(src[j])
        invariant
            k <= j <= src.len(),
            delim_loop(src@, k as int, Seq::empty()) == delim_loop(src@, j as int, d@),
        decreases src.len() - j,
    {
        let b = src[j];
        if b == '\'' as u8 || b == '"' as u8 {
            let q = find_byte_exec(src, j + 1, b);
            push_range(&mut d, src, j + 1, q);
            j = if q < src.len() { q + 1 } else { q };
        } else if b == '\\' as u8 {
            if j + 1 < src.len() {
                d.push(src[j + 1]);
                j = j + 2;
            } else {
                j = j + 1;
            }
        } else {
            d.push(b);
            j = j + 1;
        }
    }
    (j, d)
}

/// Skip one heredoc body from `k`.
fn body_end_exec(src: &[u8], k: usize, d: &[u8], strip: bool) -> (r: usize)
    requires
        k <= src.len(),
    ensures
        r == body_end(src@, k as int, d@, strip),
        k <= r <= src.len(),
{
    let mut cur = k;
    while cur < src.len()
        invariant
            k <= cur <= src.len(),
            body_end(src@, k as int, d@, strip) == body_end(src@, cur as int, d@, strip),
        decreases src.len() - cur,
    {
        let j = find_byte_exec(src, cur, '\n' as u8);
        let a = if strip {
            run_end_exec(src, cur, j, ByteClass::Tab)
        } else {
            cur
        };
        let k2 = if j < src.len() {
            j + 1
        } else {
            j
        };
        let m = span_is_exec(src, a, j, d);
        assert(m == (src@.subrange(a as int, j as int) == d@));
        if m {
            return k2;
        }
        cur = k2;
    }
    cur
}

/// Skip the bodies of all pending heredocs from `k`.
fn bodies_end_exec(src: &[u8], k: usize, pend: &Vec<(Vec<u8>, bool)>) -> (r: usize)
    requires
        k <= src.len(),
    ensures
        r == bodies_end(src@, k as int, pending_view(pend@)),
        k <= r <= src.len(),
{
    let ghost pv = pending_view(pend@);
    let mut cur = k;
    let mut p: usize = 0;
    assert(pv.skip(0) =~= pv);
    while p < pend.len()
        invariant
            k <= cur <= src.len(),
            p <= pend.len(),
            pv == pending_view(pend@),
            bodies_end(src@, k as int, pv) == bodies_end(src@, cur as int, pv.skip(p as int)),
        decreases pend.len() - p,
    {
        assert(pv.skip(p as int)[0] == pv[p as int]);
        assert(pv.skip(p as int).drop_first() =~= pv.skip(p + 1));
        cur = body_end_exec(src, cur, pend[p].0.as_slice(), pend[p].1);
        p = p + 1;
    }
    assert(pv.skip(p as int) =~= Seq::<(Seq<u8>, bool)>::empty());
    cur
}

fn is_byte(o: Option<u8>, b: u8) -> (r: bool)
    ensures
        r == (o == Some(b)),
{
    match o {
        Some(x) => x == b,
        None => false,
    }
}

fn is_cmd_keeper_exec(t: &[u8]) -> (r: bool)
    ensures
        r == is_cmd_keeper(t@),
{
    let k0: [u8; 2] = ['i' as u8, 'f' as u8];
    assert(k0@ =~= seq!['i' as u8, 'f' as u8]);
    let k1: [u8; 4] = ['t' as u8, 'h' as u8, 'e' as u8, 'n' as u8];
    assert(k1@ =~= seq!['t' as u8, 'h' as u8, 'e' as u8, 'n' as u8]);
    let k2: [u8; 4] = ['e' as u8, 'l' as u8, 's' as u8, 'e' as u8];
    assert(k2@ =~= seq!['e' as u8, 'l' as u8, 's' as u8, 'e' as u8]);
    let k3: [u8; 4] = ['e' as u8, 'l' as u8, 'i' as u8, 'f' as u8];
    assert(k3@ =~= seq!['e' as u8, 'l' as u8, 'i' as u8, 'f' as u8]);
    let k4: [u8; 2] = ['d' as u8, 'o' as u8];
    assert(k4@ =~= seq!['d' as u8, 'o' as u8]);
    let k5: [u8; 5] = ['w' as u8, 'h' as u8, 'i' as u8, 'l' as u8, 'e' as u8];
    assert(k5@ =~= seq!['w' as u8, 'h' as u8, 'i' as u8, 'l' as u8, 'e' as u8]);
    let k6: [u8; 5] = ['u' as u8, 'n' as u8, 't' as u8, 'i' as u8, 'l' as u8];
    assert(k6@ =~= seq!['u' as u8, 'n' as u8, 't' as u8, 'i' as u8, 'l' as u8]);
    let k7: [u8; 1] = ['!' as u8];
    assert(k7@ =~= seq!['!' as u8]);
    let k8: [u8; 4] = ['t' as u8, 'i' as u8, 'm' as u8, 'e' as u8];
    assert(k8@ =~= seq!['t' as u8, 'i' as u8, 'm' as u8, 'e' as u8]);
    let k9: [u8; 1] = ['{' as u8];
    assert(k9@ =~= seq!['{' as u8]);
    let k10: [u8; 4] = ['e' as u8, 'x' as u8, 'e' as u8, 'c' as u8];
    assert(k10@ =~= seq!['e' as u8, 'x' as u8, 'e' as u8, 'c' as u8]);
    let k11: [u8; 4] = ['e' as u8, 'v' as u8, 'a' as u8, 'l' as u8];
    assert(k11@ =~= seq!['e' as u8, 'v' as u8, 'a' as u8, 'l' as u8]);
    bytes_eq(t, &k0) || bytes_eq(t, &k1) || bytes_eq(t, &k2) || bytes_eq(t, &k3) || bytes_eq(t, &k4) || bytes_eq(t, &k5) || bytes_eq(t, &k6) || bytes_eq(t, &k7) || bytes_eq(t, &k8) || bytes_eq(t, &k9) || bytes_eq(t, &k10) || bytes_eq(t, &k11)
}

struct WordAcc {
    start: usize,
    end: usize,
    line: u32,
    col: u32,
    text: Vec<u8>,
    tainted: bool,
    cmd_pos: bool,
}

impl View for WordAcc {
    type V = WordV;

    closed spec fn view(&self) -> WordV {
        WordV {
            start: self.start as int,
            end: self.end as int,
            line: self.line,
            col: self.col,
            text: self.text@,
            tainted: self.tainted,
            cmd_pos: self.cmd_pos,
        }
    }
}

spec fn word_view(w: Option<WordAcc>) -> Option<WordV> {
    match w {
        Some(a) => Some(a@),
        None => None,
    }
}

struct Scanner {
    i: usize,
    line: u32,
    line_start: usize,
    tokens: Vec<Token>,
    pragmas: Vec<(u32, Pragma)>,
    /// Heredocs registered on the current line: `(delimiter, strip_tabs)`.
    pending: Vec<(Vec<u8>, bool)>,
    cmd_pos: bool,
    word: Option<WordAcc>,
}

spec fn pending_view(p: Seq<(Vec<u8>, bool)>) -> Seq<(Seq<u8>, bool)> {
    p.map_values(|e: (Vec<u8>, bool)| (e.0@, e.1))
}

impl View for Scanner {
    type V = ScanState;

    closed spec fn view(&self) -> ScanState {
        ScanState {
            i: self.i as int,
            line: self.line,
            line_start: self.line_start as int,
            tokens: tokens_view(self.tokens@),
            pragmas: self.pragmas@,
            pending: pending_view(self.pending@),
            cmd_pos: self.cmd_pos,
            word: word_view(self.word),
        }
    }
}

proof fn lemma_tokens_push(v: Seq<Token>, t: Token)
    ensures
        tokens_view(v.push(t)) == tokens_view(v).push(t@),
{
    assert(tokens_view(v.push(t)) =~= tokens_view(v).push(t@));
}

impl Scanner {
    fn peek(&self, src: &[u8], ahead: usize) -> (r: Option<u8>)
        requires
            wf(src@, self@),
            ahead <= 3,
        ensures
            r == peek(src@, self@, ahead as int),
    {
        if ahead < src.len() - self.i {
            Some(src[self.i + ahead])
        } else {
            None
        }
    }

    fn col(&self) -> (c: u32)
        requires
            self.line_start <= self.i,
        ensures
            c == col(self@),
    {
        let d = (self.i - self.line_start) as u64;
        ((d % 0x1_0000_0000) as u32).wrapping_add(1)
    }

    /// Consume one byte, keeping line bookkeeping exact.
    fn bump(&mut self, src: &[u8])
        requires
            wf(src@, old(self)@),
            old(self).i < src.len(),
        ensures
            final(self)@ == bump(src@, old(self)@),
            wf(src@, final(self)@),
    {
        proof {
            lemma_wf_advance(src@, self@, self.i + 1);
            assert(nl_count(src@, self.i as int, self.i as int) == 0);
            assert(line_start_after(src@, self.i as int, self.i as int, self.line_start as int) == self.line_start);
        }
        if src[self.i] == '\n' as u8 {
            self.line = self.line + 1;
            self.line_start = self.i + 1;
        }
        self.i = self.i + 1;
    }

    /// Consume up to `n` bytes.
    fn bump_n(&mut self, src: &[u8], n: usize)
        requires
            wf(src@, old(self)@),
        ensures
            final(self)@ == bump_n(src@, old(self)@, n as int),
            wf(src@, final(self)@),
            final(self).i == if old(self).i + n <= src.len() { old(self).i + n } else { src.len() as int },
    {
        let ghost st0 = self@;
        let mut k: usize = 0;
        while k < n && self.i < src.len()
            invariant
                wf(src@, self@),
                wf(src@, st0),
                st0.i <= self.i,
                self.i == st0.i + k,
                k <= n,
                self@ == advance(src@, st0, self.i as int),
            decreases n - k,
        {
            proof {
                lemma_advance_twice(src@, st0, self.i as int, self.i + 1);
            }
            self.bump(src);
            k = k + 1;
        }
    }

    fn ensure_word(&mut self)
        requires
            old(self).line_start <= old(self).i,
        ensures
            final(self)@ == ensure_word(old(self)@),
    {
        if self.word.is_none() {
            let c = self.col();
            self.word = Some(
                WordAcc {
                    start: self.i,
                    end: self.i,
                    line: self.line,
                    col: c,
                    text: Vec::new(),
                    tainted: false,
                    cmd_pos: self.cmd_pos,
                },
            );
        }
    }

    fn taint_word(&mut self)
        ensures
            final(self)@ == taint_word(old(self)@),
    {
        if let Some(mut w) = self.word.take() {
            w.tainted = true;
            self.word = Some(w);
        }
    }

    fn set_word_end(&mut self)
        ensures
            final(self)@ == set_word_end(old(self)@),
    {
        if let Some(mut w) = self.word.take() {
            w.end = self.i;
            self.word = Some(w);
        }
    }

    /// Move to `e`, bumping every byte on the way.
    fn advance_to(&mut self, src: &[u8], e: usize)
        requires
            wf(src@, old(self)@),
            old(self).i <= e <= src.len(),
        ensures
            final(self)@ == advance(src@, old(self)@, e as int),
            wf(src@, final(self)@),
    {
        let ghost st0 = self@;
        proof {
            lemma_advance_same(src@, st0);
        }
        while self.i < e
            invariant
                wf(src@, self@),
                wf(src@, st0),
                st0.i <= self.i <= e,
                e <= src.len(),
                self@ == advance(src@, st0, self.i as int),
            decreases e - self.i,
        {
            proof {
                lemma_advance_twice(src@, st0, self.i as int, self.i + 1);
            }
            self.bump(src);
        }
    }

    fn flush_word(&mut self)
        ensures
            final(self)@ == flush_word(old(self)@),
    {
        if let Some(w) = self.word.take() {
            if w.end > w.start {
                let keeper = is_cmd_keeper_exec(w.text.as_slice());
                let tok = Token {
                    kind: TokKind::Word,
                    text: latin1_string(w.text.as_slice()),
                    offset: w.start,
                    len: w.end - w.start,
                    line: w.line,
                    col: w.col,
                    tainted: w.tainted,
                    cmd_pos: w.cmd_pos,
                };
                proof {
                    lemma_tokens_push(self.tokens@, tok);
                }
                self.tokens.push(tok);
                if !keeper {
                    self.cmd_pos = false;
                }
            }
        }
    }

    /// Emit a token of `text` (present in the source at the position) and consume it.
    fn emit_here(&mut self, src: &[u8], kind: TokKind, text: &[u8])
        requires
            wf(src@, old(self)@),
            old(self).i + text.len() <= src.len(),
        ensures
            final(self)@ == emit_here(src@, old(self)@, kind, text@),
            wf(src@, final(self)@),
            final(self).i == if old(self).i + text.len() <= src.len() { old(self).i + text.len() } else { src.len() as int },
    {
        let c = self.col();
        let tok = Token {
            kind,
            text: latin1_string(text),
            offset: self.i,
            len: text.len(),
            line: self.line,
            col: c,
            tainted: false,
            cmd_pos: false,
        };
        proof {
            lemma_tokens_push(self.tokens@, tok);
        }
        self.tokens.push(tok);
        self.bump_n(src, text.len());
    }

    /// Append `n` raw bytes to the current word.
    fn push_word_raw(&mut self, src: &[u8], n: usize)
        requires
            wf(src@, old(self)@),
        ensures
            final(self)@ == push_word_raw(src@, old(self)@, n as int),
            wf(src@, final(self)@),
            final(self).i >= old(self).i,
            final(self).i > old(self).i || n == 0 || old(self).i >= src.len(),
    {
        self.ensure_word();
        let ghost target = push_raw_loop(src@, self@, n as int);
        let ghost i0 = self.i;
        let mut k: usize = 0;
        while k < n && self.i < src.len()
            invariant
                wf(src@, self@),
                k <= n,
                self.i == i0 + k,
                self.word is Some,
                push_raw_loop(src@, self@, n - k) == target,
            decreases n - k,
        {
            let b = src[self.i];
            self.bump(src);
            if let Some(mut w) = self.word.take() {
                w.text.push(b);
                w.end = self.i;
                self.word = Some(w);
            }
            k = k + 1;
        }
    }

    /// Consume `n` bytes into the word span without recording text.
    fn swallow_into_word(&mut self, src: &[u8], n: usize)
        requires
            wf(src@, old(self)@),
        ensures
            final(self)@ == swallow_into_word(src@, old(self)@, n as int),
            wf(src@, final(self)@),
            final(self).word is Some,
            final(self).i == if old(self).i + n <= src.len() { old(self).i + n } else { src.len() as int },
    {
        self.ensure_word();
        self.taint_word();
        self.bump_n(src, n);
        self.set_word_end();
    }

    /// `#` comment to end of line; records `# mutash: …` pragmas.
    fn scan_comment(&mut self, src: &[u8])
        requires
            wf(src@, old(self)@),
            old(self).i < src.len(),
            src@[old(self).i as int] != '\n' as u8,
        ensures
            final(self)@ == scan_comment(src@, old(self)@),
            wf(src@, final(self)@),
            final(self).i > old(self).i,
    {
        let j = find_byte_exec(src, self.i, '\n' as u8);
        let p = pragma_of_exec(src, self.i, j);
        let line = self.line;
        self.advance_to(src, j);
        match p {
            Some(p) => {
                self.pragmas.push((line, p));
            },
            None => {},
        }
    }

    /// After consuming `<<`, read the (possibly quoted) delimiter word.
    fn register_heredoc(&mut self, src: &[u8])
        requires
            wf(src@, old(self)@),
        ensures
            final(self)@ == register_heredoc(src@, old(self)@),
            wf(src@, final(self)@),
            final(self).i >= old(self).i,
    {
        let strip = self.i < src.len() && src[self.i] == '-' as u8;
        let k1 = if strip {
            self.i + 1
        } else {
            self.i
        };
        let k2 = run_end_exec(src, k1, src.len(), ByteClass::Blank);
        let (e, d) = delim_exec(src, k2);
        self.advance_to(src, e);
        if d.len() > 0 {
            proof {
                assert(pending_view(self.pending@.push((d, strip))) =~= pending_view(self.pending@).push(
                    (d@, strip),
                ));
            }
            self.pending.push((d, strip));
        }
    }

    /// At the newline that ends a command line: skip every pending heredoc body.
    fn consume_heredocs(&mut self, src: &[u8])
        requires
            wf(src@, old(self)@),
        ensures
            final(self)@ == consume_heredocs(src@, old(self)@),
            wf(src@, final(self)@),
            final(self).i >= old(self).i,
    {
        let mut pending: Vec<(Vec<u8>, bool)> = Vec::new();
        std::mem::swap(&mut pending, &mut self.pending);
        proof {
            assert(pending_view(self.pending@) =~= Seq::<(Seq<u8>, bool)>::empty());
        }
        let e = bodies_end_exec(src, self.i, &pending);
        self.advance_to(src, e);
    }

    /// Match one arithmetic operator (longest first).
    fn arith_op(&mut self, src: &[u8], prev_operand: bool)
        requires
            wf(src@, old(self)@),
            old(self).i < src.len(),
        ensures
            final(self)@ == arith_op(src@, old(self)@, prev_operand),
            wf(src@, final(self)@),
            final(self).i > old(self).i,
    {
        let c0 = src[self.i];
        let c1 = self.peek(src, 1);
        let c2 = self.peek(src, 2);
        let sh3 = is_byte(c2, '=' as u8) && ((c0 == '<' as u8 && is_byte(c1, '<' as u8)) || (c0
            == '>' as u8 && is_byte(c1, '>' as u8)) || (c0 == '*' as u8 && is_byte(c1, '*' as u8)));
        let quiet2 = (c0 == '<' as u8 && is_byte(c1, '<' as u8)) || (c0 == '>' as u8 && is_byte(
            c1,
            '>' as u8,
        )) || (c0 == '*' as u8 && is_byte(c1, '*' as u8)) || (c0 == '&' as u8 && is_byte(
            c1,
            '=' as u8,
        )) || (c0 == '|' as u8 && is_byte(c1, '=' as u8)) || (c0 == '^' as u8 && is_byte(
            c1,
            '=' as u8,
        )) || (c0 == '&' as u8 && is_byte(c1, '&' as u8)) || (c0 == '|' as u8 && is_byte(
            c1,
            '|' as u8,
        ));
        let live2 = (c0 == '=' as u8 && is_byte(c1, '=' as u8)) || (c0 == '!' as u8 && is_byte(
            c1,
            '=' as u8,
        )) || (c0 == '<' as u8 && is_byte(c1, '=' as u8)) || (c0 == '>' as u8 && is_byte(
            c1,
            '=' as u8,
        )) || (c0 == '+' as u8 && is_byte(c1, '+' as u8)) || (c0 == '-' as u8 && is_byte(
            c1,
            '-' as u8,
        )) || (c0 == '+' as u8 && is_byte(c1, '=' as u8)) || (c0 == '-' as u8 && is_byte(
            c1,
            '=' as u8,
        ));
        let quiet_assign = is_byte(c1, '=' as u8) && (c0 == '*' as u8 || c0 == '/' as u8 || c0
            == '%' as u8);
        if sh3 {
            self.bump_n(src, 3);
        } else if quiet2 {
            self.bump_n(src, 2);
        } else if live2 {
            let t: [u8; 2] = [c0, src[self.i + 1]];
            assert(t@ =~= seq![c0, src@[self.i + 1]]);
            self.emit_here(src, TokKind::ArithOp, &t);
        } else if quiet_assign {
            self.bump_n(src, 2);
        } else if (c0 == '+' as u8 || c0 == '-' as u8) && !prev_operand {
            self.bump(src);
        } else if c0 == '+' as u8 || c0 == '-' as u8 || c0 == '*' as u8 || c0 == '/' as u8 || c0
            == '%' as u8 || c0 == '<' as u8 || c0 == '>' as u8 {
            let t: [u8; 1] = [c0];
            assert(t@ =~= seq![c0]);
            self.emit_here(src, TokKind::ArithOp, &t);
        } else {
            self.bump(src);
        }
    }

    /// One step of arithmetic scanning.
    fn arith_step(&mut self, src: &[u8], depth: &mut usize, prev: &mut bool) -> (done: bool)
        requires
            wf(src@, old(self)@),
            old(self).i < src.len(),
            *old(depth) <= old(self).i,
        ensures
            (final(self)@, *final(depth) as int, *final(prev), done) == arith_step(
                src@,
                old(self)@,
                *old(depth) as int,
                *old(prev),
            ),
            wf(src@, final(self)@),
            final(self).i > old(self).i,
            *final(depth) <= final(self).i,
    {
        let i = self.i;
        let n = src.len();
        let c = src[i];
        if c == ')' as u8 {
            if *depth == 0 {
                self.bump(src);
                if is_byte(self.peek(src, 0), ')' as u8) {
                    self.bump(src);
                }
                return true;
            } else {
                *depth = *depth - 1;
                *prev = true;
                self.bump(src);
            }
        } else if c == '(' as u8 {
            *depth = *depth + 1;
            *prev = false;
            self.bump(src);
        } else if '0' as u8 <= c && c <= '9' as u8 {
            let j = run_end_exec(src, i, n, ByteClass::Digit);
            if j < n && in_class_exec(src[j], ByteClass::IdentHash) {
                let e = run_end_exec(src, j, n, ByteClass::IdentHash);
                self.advance_to(src, e);
            } else {
                let mut digits: Vec<u8> = Vec::new();
                push_range(&mut digits, src, i, j);
                assert(Seq::<u8>::empty() + src@.subrange(i as int, j as int) =~= src@.subrange(
                    i as int,
                    j as int,
                ));
                let c = self.col();
                let tok = Token {
                    kind: TokKind::ArithNum,
                    text: latin1_string(digits.as_slice()),
                    offset: i,
                    len: j - i,
                    line: self.line,
                    col: c,
                    tainted: false,
                    cmd_pos: false,
                };
                proof {
                    lemma_tokens_push(self.tokens@, tok);
                }
                self.tokens.push(tok);
                self.advance_to(src, j);
            }
            *prev = true;
        } else if ('a' as u8 <= c && c <= 'z' as u8) || ('A' as u8 <= c && c <= 'Z' as u8) || c
            == '_' as u8 {
            let e = run_end_exec(src, i, n, ByteClass::Ident);
            self.advance_to(src, e);
            *prev = true;
        } else if c == '$' as u8 {
            let e = if i + 1 < n && src[i + 1] == '{' as u8 {
                squote_end_exec(src, i, '}' as u8)
            } else if i + 1 < n && src[i + 1] == '(' as u8 {
                cs_end_exec(src, i)
            } else {
                run_end_exec(src, i + 1, n, ByteClass::IdentHash)
            };
            self.advance_to(src, e);
            *prev = true;
        } else if c == '\'' as u8 || c == '"' as u8 {
            let e = aq_end_exec(src, i, c);
            self.advance_to(src, e);
            *prev = true;
        } else if c == ' ' as u8 || c == '\t' as u8 || c == '\r' as u8 || c == '\n' as u8 || c
            == ';' as u8 {
            self.bump(src);
        } else if c == '#' as u8 {
            let e = run_end_exec(src, i + 1, n, ByteClass::Alnum);
            self.advance_to(src, e);
            *prev = true;
        } else {
            self.arith_op(src, *prev);
            *prev = false;
        }
        false
    }

    /// Inside `$(( … ))` / `(( … ))`: scan to the matching `))`.
    fn scan_arith(&mut self, src: &[u8])
        requires
            wf(src@, old(self)@),
        ensures
            final(self)@ == scan_arith(src@, old(self)@),
            wf(src@, final(self)@),
            final(self).i >= old(self).i,
    {
        let ghost target = scan_arith(src@, self@);
        let ghost i0 = self.i;
        let mut depth: usize = 0;
        let mut prev = false;
        while self.i < src.len()
            invariant
                wf(src@, self@),
                i0 <= self.i,
                depth <= self.i,
                target == arith_loop(src@, self@, depth as int, prev),
                target == scan_arith(src@, old(self)@),
                i0 == old(self).i,
            decreases src.len() - self.i,
        {
            let ghost before = self@;
            let ghost d0 = depth as int;
            let ghost p0 = prev;
            let done = self.arith_step(src, &mut depth, &mut prev);
            assert(arith_loop(src@, before, d0, p0) == if done { self@ } else { arith_loop(src@, self@, depth as int, prev) });
            if done {
                return;
            }
        }
    }

    /// Emit a one- or two-byte separator.
    fn emit_pair(&mut self, src: &[u8], single: TokKind, double: TokKind)
        requires
            wf(src@, old(self)@),
            old(self).i < src.len(),
        ensures
            final(self)@ == emit_pair(src@, old(self)@, single, double),
            wf(src@, final(self)@),
            final(self).i > old(self).i,
    {
        let c = src[self.i];
        if is_byte(self.peek(src, 1), c) {
            let t: [u8; 2] = [c, c];
            assert(t@ =~= seq![c, c]);
            self.emit_here(src, double, &t);
        } else {
            let t: [u8; 1] = [c];
            assert(t@ =~= seq![c]);
            self.emit_here(src, single, &t);
        }
    }

    /// One step of live-code scanning.
    fn code_step(&mut self, src: &[u8], term: bool, depth: &mut usize) -> (ret: bool)
        requires
            wf(src@, old(self)@),
            old(self).i < src.len(),
            *old(depth) <= old(self).i,
        ensures
            (final(self)@, *final(depth) as int, ret) == code_step(
                src@,
                old(self)@,
                term,
                *old(depth) as int,
            ),
            wf(src@, final(self)@),
            final(self).i > old(self).i,
            *final(depth) <= final(self).i,
        decreases src.len() - old(self).i, 0int,
    {
        let c = src[self.i];
        if c == ' ' as u8 || c == '\t' as u8 || c == '\r' as u8 {
            self.flush_word();
            self.bump(src);
        } else if c == '\n' as u8 {
            self.flush_word();
            let t: [u8; 1] = [c];
            assert(t@ =~= seq![c]);
            self.emit_here(src, TokKind::Sep, &t);
            self.consume_heredocs(src);
            self.cmd_pos = true;
        } else if c == '\\' as u8 {
            if is_byte(self.peek(src, 1), '\n' as u8) {
                self.bump_n(src, 2);
            } else {
                self.ensure_word();
                self.taint_word();
                self.push_word_raw(src, 2);
            }
        } else if c == '#' as u8 && self.word.is_none() {
            self.scan_comment(src);
        } else if c == '\'' as u8 {
            let e = squote_end_exec(src, self.i, c);
            self.skip_into_word(src, e);
        } else if c == '"' as u8 {
            let e = dq_end_exec(src, self.i);
            self.skip_into_word(src, e);
        } else if c == '`' as u8 {
            let e = bt_end_exec(src, self.i);
            self.skip_into_word(src, e);
        } else if c == '$' as u8 {
            let p1 = self.peek(src, 1);
            let p2 = self.peek(src, 2);
            if is_byte(p1, '(' as u8) && is_byte(p2, '(' as u8) {
                self.swallow_into_word(src, 3);
                self.scan_arith(src);
                self.set_word_end();
            } else if is_byte(p1, '(' as u8) {
                self.swallow_into_word(src, 2);
                // Scan the substitution body as real code (recursively),
                // stashing the partially-built outer word.
                let saved_word = self.word.take();
                let saved_cmd = self.cmd_pos;
                self.cmd_pos = true;
                self.scan_code(src, true);
                self.word = saved_word;
                self.cmd_pos = saved_cmd;
                self.set_word_end();
            } else {
                self.ensure_word();
                self.taint_word();
                self.push_word_raw(src, 1);
            }
        } else if c == '(' as u8 {
            if self.word.is_none() && is_byte(self.peek(src, 1), '(' as u8) {
                // `(( … ))` arithmetic command.
                self.bump_n(src, 2);
                self.scan_arith(src);
                self.cmd_pos = false;
            } else {
                self.flush_word();
                let t: [u8; 1] = [c];
                assert(t@ =~= seq![c]);
                self.emit_here(src, TokKind::Sep, &t);
                *depth = *depth + 1;
                self.cmd_pos = true;
            }
        } else if c == ')' as u8 {
            self.flush_word();
            if *depth == 0 && term {
                self.bump(src);
                return true;
            }
            if *depth > 0 {
                *depth = *depth - 1;
            }
            let t: [u8; 1] = [c];
            assert(t@ =~= seq![c]);
            self.emit_here(src, TokKind::Sep, &t);
            self.cmd_pos = true;
        } else if c == ';' as u8 {
            self.flush_word();
            self.emit_pair(src, TokKind::Sep, TokKind::Sep);
            self.cmd_pos = true;
        } else if c == '&' as u8 {
            self.flush_word();
            self.emit_pair(src, TokKind::Sep, TokKind::AndAnd);
            self.cmd_pos = true;
        } else if c == '|' as u8 {
            self.flush_word();
            self.emit_pair(src, TokKind::Sep, TokKind::OrOr);
            self.cmd_pos = true;
        } else if c == '<' as u8 {
            self.flush_word();
            let p1 = self.peek(src, 1);
            let p2 = self.peek(src, 2);
            if is_byte(p1, '<' as u8) && is_byte(p2, '<' as u8) {
                // Herestring: the following word is data, keep scanning.
                self.bump_n(src, 3);
            } else if is_byte(p1, '<' as u8) {
                self.bump_n(src, 2);
                self.register_heredoc(src);
            } else {
                let t: [u8; 1] = [c];
                assert(t@ =~= seq![c]);
                self.emit_here(src, TokKind::Sep, &t);
            }
        } else if c == '>' as u8 {
            self.flush_word();
            let t: [u8; 1] = [c];
            assert(t@ =~= seq![c]);
            self.emit_here(src, TokKind::Sep, &t);
            if is_byte(self.peek(src, 0), '>' as u8) {
                // `>>` append: consume the second `>`.
                self.bump(src);
            }
        } else {
            self.push_word_raw(src, 1);
        }
        false
    }

    /// Main scanner. `term` is set when inside a `$( … )` substitution.
    fn scan_code(&mut self, src: &[u8], term: bool)
        requires
            wf(src@, old(self)@),
        ensures
            final(self)@ == scan_code(src@, old(self)@, term, 0),
            wf(src@, final(self)@),
            final(self).i >= old(self).i,
        decreases src.len() - old(self).i, 1int,
    {
        let ghost target = scan_code(src@, self@, term, 0);
        let ghost i0 = self.i;
        let mut depth: usize = 0;
        while self.i < src.len()
            invariant
                wf(src@, self@),
                i0 <= self.i,
                depth <= self.i,
                target == scan_code(src@, self@, term, depth as int),
                target == scan_code(src@, old(self)@, term, 0),
                i0 == old(self).i,
            decreases src.len() - self.i,
        {
            let ghost before = self@;
            let ghost d0 = depth as int;
            let ret = self.code_step(src, term, &mut depth);
            assert(scan_code(src@, before, term, d0) == if ret {
                self@
            } else {
                scan_code(src@, self@, term, depth as int)
            });
            if ret {
                return;
            }
        }
        self.flush_word();
    }

    /// A skipped region up to `e` joins the current word, which becomes tainted.
    fn skip_into_word(&mut self, src: &[u8], e: usize)
        requires
            wf(src@, old(self)@),
            old(self).i <= e <= src.len(),
        ensures
            final(self)@ == skip_into_word(src@, old(self)@, e as int),
            wf(src@, final(self)@),
            final(self).i == e,
    {
        self.ensure_word();
        self.taint_word();
        self.advance_to(src, e);
        self.set_word_end();
    }
}

/// Scan a shell script into mutable tokens plus pragma directives.
pub fn scan(src: &str) -> (r: ScanResult)
    requires
        newline_count(src.spec_bytes()) < u32::MAX,
    ensures
        r@ == scan_spec(src.spec_bytes()),
        tokens_within(r@.tokens, src.spec_bytes().len() as int),
        forall|k: int|
            0 <= k < r@.tokens.len() ==> crate::order::placed(src.spec_bytes(), #[trigger] r@.tokens[k]),
{
    let bytes = src.as_bytes();
    let mut s = Scanner {
        i: 0,
        line: 1,
        line_start: 0,
        tokens: Vec::new(),
        pragmas: Vec::new(),
        pending: Vec::new(),
        cmd_pos: true,
        word: None,
    };
    proof {
        assert(tokens_view(s.tokens@) =~= Seq::<TokenV>::empty());
        assert(pending_view(s.pending@) =~= Seq::<(Seq<u8>, bool)>::empty());
        assert(s@ == initial_state());
    }
    s.scan_code(bytes, false);
    s.flush_word();
    proof {
        vstd::utf8::encode_utf8_valid_utf8(src@);
        crate::order::lemma_scan_token_positions(src.spec_bytes());
    }
    ScanResult { tokens: s.tokens, pragmas: s.pragmas }
}

// ---------------------------------------------------------------------
// Command position after a keyword.
// ---------------------------------------------------------------------

/// A byte that live code reads as part of a word wherever it stands: no
/// blank, newline, quote, escape, expansion, comment, operator or
/// redirection byte.
pub open spec fn plain_byte(b: u8) -> bool {
    !(b == ' ' as u8 || b == '\t' as u8 || b == '\r' as u8 || b == '\n' as u8 || b == '\\' as u8
        || b == '#' as u8 || b == '\'' as u8 || b == '"' as u8 || b == '`' as u8 || b == '$' as u8
        || b == '(' as u8 || b == ')' as u8 || b == ';' as u8 || b == '&' as u8 || b == '|' as u8
        || b == '<' as u8 || b == '>' as u8)
}

pub open spec fn all_plain(s: Seq<u8>, a: int, b: int) -> bool {
    forall|j: int| a <= j < b ==> plain_byte(#[trigger] s[j])
}

/// What `n` bytes appended to the open word leave.
proof fn lemma_push_raw_facts(s: Seq<u8>, st: ScanState, n: int)
    requires
        st.word is Some,
        0 <= st.i,
        0 <= n,
        st.i + n <= s.len(),
    ensures
        push_raw_loop(s, st, n).i == st.i + n,
        push_raw_loop(s, st, n).tokens == st.tokens,
        push_raw_loop(s, st, n).cmd_pos == st.cmd_pos,
        push_raw_loop(s, st, n).word is Some,
        push_raw_loop(s, st, n).word->0.text == st.word->0.text + s.subrange(st.i, st.i + n),
        push_raw_loop(s, st, n).word->0.start == st.word->0.start,
        push_raw_loop(s, st, n).word->0.cmd_pos == st.word->0.cmd_pos,
        n > 0 ==> push_raw_loop(s, st, n).word->0.end == st.i + n,
    decreases n,
{
    if n > 0 {
        let b = s[st.i];
        let st1 = bump(s, st);
        let w = st1.word->0;
        let st2 = ScanState { word: Some(WordV { text: w.text.push(b), end: st1.i, ..w }), ..st1 };
        lemma_push_raw_facts(s, st2, n - 1);
        assert(w.text.push(b) + s.subrange(st.i + 1, st.i + n) =~= w.text + s.subrange(st.i, st.i + n));
    } else {
        assert(st.word->0.text + s.subrange(st.i, st.i) =~= st.word->0.text);
    }
}

/// A run of plain bytes is read into one word.
proof fn lemma_plain_run(s: Seq<u8>, st: ScanState, n: int, term: bool, depth: int)
    requires
        0 <= st.i,
        1 <= n,
        st.i + n <= s.len(),
        all_plain(s, st.i, st.i + n),
    ensures
        scan_code(s, st, term, depth) == scan_code(s, push_raw_loop(s, ensure_word(st), n), term, depth),
    decreases n,
{
    let st1 = push_raw_loop(s, ensure_word(st), 1);
    assert(plain_byte(s[st.i]));
    lemma_push_raw_facts(s, ensure_word(st), 1);
    assert(code_step(s, st, term, depth) == (st1, depth, false));
    if n > 1 {
        lemma_push_raw_facts(s, st1, 0);
        assert(ensure_word(st1) == st1);
        assert(all_plain(s, st1.i, st1.i + (n - 1))) by {
            assert forall|j: int| st1.i <= j < st1.i + (n - 1) implies plain_byte(#[trigger] s[j]) by {
                assert(st.i <= j < st.i + n);
            }
        }
        lemma_plain_run(s, st1, n - 1, term, depth);
        let x = ensure_word(st);
        let b = s[x.i];
        let xb = bump(s, x);
        let xw = xb.word->0;
        let x2 = ScanState { word: Some(WordV { text: xw.text.push(b), end: xb.i, ..xw }), ..xb };
        assert(push_raw_loop(s, x, 1) == push_raw_loop(s, x2, 0));
        assert(push_raw_loop(s, x, n) == push_raw_loop(s, x2, n - 1));
    }
}

proof fn lemma_two_words(k: Seq<u8>, w: Seq<u8>)
    requires
        k.len() > 0,
        all_plain(k, 0, k.len() as int),
        w.len() > 0,
        all_plain(w, 0, w.len() as int),
    ensures
        scan_spec(k + seq![' ' as u8] + w).tokens.len() == 2,
        scan_spec(k + seq![' ' as u8] + w).tokens[0].kind == TokKind::Word,
        scan_spec(k + seq![' ' as u8] + w).tokens[0].text == latin1(k),
        scan_spec(k + seq![' ' as u8] + w).tokens[0].cmd_pos,
        scan_spec(k + seq![' ' as u8] + w).tokens[1].kind == TokKind::Word,
        scan_spec(k + seq![' ' as u8] + w).tokens[1].text == latin1(w),
        scan_spec(k + seq![' ' as u8] + w).tokens[1].cmd_pos == is_cmd_keeper(k),
{
    let s = k + seq![' ' as u8] + w;
    let nk = k.len() as int;
    assert(all_plain(s, 0, nk)) by {
        assert forall|j: int| 0 <= j < nk implies plain_byte(#[trigger] s[j]) by {
            assert(s[j] == k[j]);
        }
    }
    assert(all_plain(s, nk + 1, s.len() as int)) by {
        assert forall|j: int| nk + 1 <= j < s.len() implies plain_byte(#[trigger] s[j]) by {
            assert(s[j] == w[j - nk - 1]);
        }
    }
    let st0 = initial_state();
    lemma_plain_run(s, st0, nk, false, 0);
    let e0 = ensure_word(st0);
    lemma_push_raw_facts(s, e0, nk);
    let a = push_raw_loop(s, e0, nk);
    assert(s.subrange(0, nk) =~= k);
    assert(e0.word->0.text + s.subrange(0, nk) =~= k);
    assert(s[nk] == ' ' as u8);
    let fa = flush_word(a);
    let b = bump(s, fa);
    assert(code_step(s, a, false, 0) == (b, 0int, false));
    assert(scan_code(s, a, false, 0) == scan_code(s, b, false, 0));
    lemma_plain_run(s, b, w.len() as int, false, 0);
    let e1 = ensure_word(b);
    lemma_push_raw_facts(s, e1, w.len() as int);
    let c = push_raw_loop(s, e1, w.len() as int);
    assert(s.subrange(nk + 1, s.len() as int) =~= w);
    assert(e1.word->0.text + s.subrange(nk + 1, s.len() as int) =~= w);
    assert(scan_code(s, c, false, 0) == flush_word(c));
    let r = flush_word(flush_word(c));
    assert(r.tokens =~= flush_word(c).tokens);
    assert(fa.tokens.len() == 1);
}

/// A word that follows a command keyword (`if then else elif do while
/// until ! time { exec eval`) in command position is in command position
/// itself: scanning `k w`, for such a keyword `k` and a plain word `w`,
/// gives the two words, both in command position.
pub proof fn lemma_keyword_keeps_command_position(k: Seq<u8>, w: Seq<u8>)
    requires
        k == seq!['i' as u8, 'f' as u8] || k == seq!['t' as u8, 'h' as u8, 'e' as u8, 'n' as u8] || k
            == seq!['e' as u8, 'l' as u8, 's' as u8, 'e' as u8] || k == seq![
            'e' as u8,
            'l' as u8,
            'i' as u8,
            'f' as u8,
        ] || k == seq!['d' as u8, 'o' as u8] || k == seq![
            'w' as u8,
            'h' as u8,
            'i' as u8,
            'l' as u8,
            'e' as u8,
        ] || k == seq!['u' as u8, 'n' as u8, 't' as u8, 'i' as u8, 'l' as u8] || k == seq!['!' as u8]
            || k == seq!['t' as u8, 'i' as u8, 'm' as u8, 'e' as u8] || k == seq!['{' as u8] || k
            == seq!['e' as u8, 'x' as u8, 'e' as u8, 'c' as u8] || k == seq![
            'e' as u8,
            'v' as u8,
            'a' as u8,
            'l' as u8,
        ],
        w.len() > 0,
        all_plain(w, 0, w.len() as int),
    ensures
        scan_spec(k + seq![' ' as u8] + w).tokens.len() == 2,
        scan_spec(k + seq![' ' as u8] + w).tokens[0].kind == TokKind::Word,
        scan_spec(k + seq![' ' as u8] + w).tokens[0].text == latin1(k),
        scan_spec(k + seq![' ' as u8] + w).tokens[0].cmd_pos,
        scan_spec(k + seq![' ' as u8] + w).tokens[1].kind == TokKind::Word,
        scan_spec(k + seq![' ' as u8] + w).tokens[1].text == latin1(w),
        scan_spec(k + seq![' ' as u8] + w).tokens[1].cmd_pos,
{
    assert(is_cmd_keeper(k));
    assert(all_plain(k, 0, k.len() as int));
    lemma_two_words(k, w);
}

/// A word that follows any other word in command position is an
/// argument: scanning `k w`, for a plain word `k` that is none of the
/// command keywords and a plain word `w`, gives `k` in command position
/// and `w` out of it.
pub proof fn lemma_argument_after_command(k: Seq<u8>, w: Seq<u8>)
    requires
        k.len() > 0,
        all_plain(k, 0, k.len() as int),
        k != seq!['i' as u8, 'f' as u8],
        k != seq!['t' as u8, 'h' as u8, 'e' as u8, 'n' as u8],
        k != seq!['e' as u8, 'l' as u8, 's' as u8, 'e' as u8],
        k != seq!['e' as u8, 'l' as u8, 'i' as u8, 'f' as u8],
        k != seq!['d' as u8, 'o' as u8],
        k != seq!['w' as u8, 'h' as u8, 'i' as u8, 'l' as u8, 'e' as u8],
        k != seq!['u' as u8, 'n' as u8, 't' as u8, 'i' as u8, 'l' as u8],
        k != seq!['!' as u8],
        k != seq!['t' as u8, 'i' as u8, 'm' as u8, 'e' as u8],
        k != seq!['{' as u8],
        k != seq!['e' as u8, 'x' as u8, 'e' as u8, 'c' as u8],
        k != seq!['e' as u8, 'v' as u8, 'a' as u8, 'l' as u8],
        w.len() > 0,
        all_plain(w, 0, w.len() as int),
    ensures
        scan_spec(k + seq![' ' as u8] + w).tokens.len() == 2,
        scan_spec(k + seq![' ' as u8] + w).tokens[0].text == latin1(k),
        scan_spec(k + seq![' ' as u8] + w).tokens[0].cmd_pos,
        scan_spec(k + seq![' ' as u8] + w).tokens[1].text == latin1(w),
        !scan_spec(k + seq![' ' as u8] + w).tokens[1].cmd_pos,
{
    assert(!is_cmd_keeper(k));
    lemma_two_words(k, w);
}

} // verus!
