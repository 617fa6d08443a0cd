//! The mutant itself: one byte-span rewrite of a script, plus helpers to
//! apply it and to show the source line it lives on.

use vstd::prelude::*;
use vstd::utf8::*;
use vstd::string::StringSliceAdditionalSpecFns;
use crate::text::{dec, push_dec, push_str, string_of, str_trim, trim_chars, lemma_encode_concat,
    lemma_boundary_at_ascii, lemma_prefix_boundary};
use crate::lexer::find_byte;

verus! {

/// A single mutation: replace `len` bytes at `offset` with `replacement`.
#[derive(Debug, Clone)]
pub struct Mutant {
    /// 1-based id, unique across the whole run (assigned by the CLI).
    pub id: usize,
    /// Display path of the script, relative to the project root.
    pub file: String,
    /// Operator id (`compare`, `flag`, …) — see `mutators::OPERATORS`.
    pub op: &'static str,
    /// 1-based line of the mutated token.
    pub line: u32,
    /// 1-based byte column of the mutated token.
    pub col: u32,
    /// Byte offset of the span to rewrite.
    pub offset: usize,
    /// Byte length of the span to rewrite.
    pub len: usize,
    /// The original token text.
    pub original: String,
    /// Replacement text; empty for deletions.
    pub replacement: String,
    /// Human-readable summary, e.g. `` `-eq` -> `-ne` `` or `` drop `-q` ``.
    pub descr: String,
}

/// The mathematical content of a [`Mutant`].
pub struct MutantV {
    pub id: int,
    pub file: Seq<char>,
    pub op: Seq<char>,
    pub line: u32,
    pub col: u32,
    pub offset: int,
    pub len: int,
    pub original: Seq<char>,
    pub replacement: Seq<char>,
    pub descr: Seq<char>,
}

impl View for Mutant {
    type V = MutantV;

    open spec fn view(&self) -> MutantV {
        MutantV {
            id: self.id as int,
            file: self.file@,
            op: self.op@,
            line: self.line,
            col: self.col,
            offset: self.offset as int,
            len: self.len as int,
            original: self.original@,
            replacement: self.replacement@,
            descr: self.descr@,
        }
    }
}

/// The bytes of `src` with `len` bytes at `offset` replaced by `repl`.
pub open spec fn splice(src: Seq<u8>, offset: int, len: int, repl: Seq<u8>) -> Seq<u8> {
    src.subrange(0, offset) + repl + src.subrange(offset + len, src.len() as int)
}

/// The mutant's span lies inside `b` and starts and ends on character
/// boundaries, so the mutant can be applied to `b`.
pub open spec fn applies_to(m: MutantV, b: Seq<u8>) -> bool {
    &&& 0 <= m.offset
    &&& 0 <= m.len
    &&& m.offset + m.len <= b.len()
    &&& is_char_boundary(b, m.offset)
    &&& is_char_boundary(b, m.offset + m.len)
}

/// The start of the line holding position `k`.
pub open spec fn line_begin(b: Seq<u8>, k: int) -> int
    decreases k,
{
    if k <= 0 {
        0
    } else if b[k - 1] == '\n' as u8 {
        k
    } else {
        line_begin(b, k - 1)
    }
}

/// The (whitespace-trimmed) characters of the line holding byte `offset`
/// of `b` (clamped to the end).
pub open spec fn excerpt_of(b: Seq<u8>, offset: int) -> Seq<char> {
    let k = if offset < b.len() { offset } else { b.len() as int };
    trim_chars(decode_utf8(b.subrange(line_begin(b, k), find_byte(b, k, '\n' as u8))))
}

/// `file:line:col`.
pub open spec fn location_of(m: MutantV) -> Seq<char> {
    m.file + seq![':'] + dec(m.line as nat) + seq![':'] + dec(m.col as nat)
}

proof fn lemma_line_begin_bounds(b: Seq<u8>, k: int)
    requires
        0 <= k <= b.len(),
    ensures
        0 <= line_begin(b, k) <= k,
        line_begin(b, k) == 0 || b[line_begin(b, k) - 1] == '\n' as u8,
    decreases k,
{
    if k > 0 && b[k - 1] != '\n' as u8 {
        lemma_line_begin_bounds(b, k - 1);
    }
}

impl Mutant {
    /// Apply this mutation to the original source, returning the mutated text.
    pub fn apply(&self, src: &str) -> (out: String)
        requires
            self.offset + self.len <= src.spec_bytes().len(),
            is_char_boundary(src.spec_bytes(), self.offset as int),
            is_char_boundary(src.spec_bytes(), self.offset + self.len),
        ensures
            encode_utf8(out@) == splice(
                src.spec_bytes(),
                self.offset as int,
                self.len as int,
                encode_utf8(self.replacement@),
            ),
    {
        let bytes = src.as_bytes();
        let n = bytes.len();
        assert(self.offset + self.len <= n);
        let (a, _) = src.split_at(self.offset);
        let (_, c) = src.split_at(self.offset + self.len);
        let mut out = string_of(a);
        push_str(&mut out, self.replacement.as_str());
        push_str(&mut out, c);
        proof {
            lemma_encode_concat(a@, self.replacement@);
            lemma_encode_concat(a@ + self.replacement@, c@);
        }
        out
    }

    /// The (trimmed) source line containing the mutated span.
    pub fn excerpt<'a>(&self, src: &'a str) -> (r: &'a str)
        ensures
            r@ == excerpt_of(src.spec_bytes(), self.offset as int),
    {
        let bytes = src.as_bytes();
        let n = bytes.len();
        let ghost b = src.spec_bytes();
        proof {
            encode_utf8_valid_utf8(src@);
        }
        let k = if self.offset < n {
            self.offset
        } else {
            n
        };
        let mut start = k;
        while start > 0 && bytes[start - 1] != '\n' as u8
            invariant
                0 <= start <= k <= n,
                n == b.len(),
                bytes@ == b,
                line_begin(b, k as int) == line_begin(b, start as int),
            decreases start,
        {
            start = start - 1;
        }
        let mut end = k;
        while end < n && bytes[end] != '\n' as u8
            invariant
                k <= end <= n,
                n == b.len(),
                bytes@ == b,
                find_byte(b, k as int, '\n' as u8) == find_byte(b, end as int, '\n' as u8),
            decreases n - end,
        {
            end = end + 1;
        }
        proof {
            lemma_boundary_at_ascii(b, end as int);
            if start > 0 {
                lemma_boundary_at_ascii(b, start - 1);
            }
            lemma_boundary_at_ascii(b, start as int);
            lemma_prefix_boundary(b, end as int, start as int);
        }
        let (pre, _) = src.split_at(end);
        let (_, mid) = pre.split_at(start);
        proof {
            assert(mid.spec_bytes() =~= b.subrange(start as int, end as int));
            encode_utf8_decode_utf8(mid@);
        }
        str_trim(mid)
    }

    /// `file:line:col` location string used across all report formats.
    pub fn location(&self) -> (r: String)
        ensures
            r@ == location_of(self@),
    {
        let mut out = self.file.clone();
        push_str(&mut out, ":");
        push_dec(&mut out, self.line as u128);
        push_str(&mut out, ":");
        push_dec(&mut out, self.col as u128);
        proof {
            reveal_strlit(":");
            assert(out@ =~= location_of(self@));
        }
        out
    }
}

} // verus!
