//! Mutation operators: turns the token stream into concrete mutants.
//!
//! Every operator is context-gated so mutants stay syntactically valid and
//! semantically meaningful: test operators only mutate between `[`/`[[`/`test`
//! and their closers, arithmetic operators only inside `$(( ))`/`(( ))`,
//! flags only in argument position, `true`/`false` only in command position.
//! `# mutash: off/on/skip` pragmas recorded by the lexer are honored here.

use vstd::prelude::*;
use vstd::utf8::*;
use vstd::string::StringSliceAdditionalSpecFns;
use crate::lexer::{scan, scan_spec, newline_count, find_byte, Pragma, TokKind, Token, TokenV, ScanResult};
use crate::mutant::{Mutant, MutantV, applies_to};
use crate::text::{idec, is_digit_char, parse_i64, parse_i64_exec, push_idec, push_str, string_of, str_eq, str_trim,
    trim_chars, all_white, is_white_space, lemma_boundary_at_ascii, lemma_prefix_boundary};

verus! {

/// `(id, context, examples)` rows for every mutation operator, in the order
/// they are documented. The ids are what `--only` / `--skip` accept.
pub const OPERATORS: [(&'static str, &'static str, &'static str); 9] = [
    ("compare", "[ ], [[ ]], test, $(( ))", "-eq -> -ne, -lt -> -le, < -> <="),
    ("unary", "[ ], [[ ]], test", "-z -> -n, -f -> -d, -r -> -w"),
    ("connective", "lists and [ ]", "&& -> ||, -a -> -o"),
    ("arith", "$(( )), (( ))", "+ -> -, * -> /, ++ -> --, += -> -="),
    ("number", "[ ], [[ ]], $(( ))", "3 -> 4, 3 -> 2, 0 -> 1"),
    ("exit", "exit / return statuses", "exit 1 -> exit 0, return 0 -> return 1"),
    ("flag", "command arguments", "-rf -> -r, drop -q, drop --force"),
    ("negate", "command and test position", "drop !"),
    ("truth", "command position", "true -> false"),
];

/// The id of operator row `i`.
pub open spec fn op_id(i: int) -> Seq<char> {
    OPERATORS@[i].0@
}

/// `id` names a documented operator.
pub open spec fn is_op_id(id: Seq<char>) -> bool {
    exists|i: int| 0 <= i < 9 && op_id(i) == id
}

/// Every documented operator id.
pub open spec fn all_op_ids() -> Set<Seq<char>> {
    Set::new(|id: Seq<char>| is_op_id(id))
}

/// The set of enabled operator ids.
#[derive(Debug, Clone)]
pub struct OpSet {
    enabled: [bool; 9],
}

impl View for OpSet {
    type V = Set<Seq<char>>;

    closed spec fn view(&self) -> Set<Seq<char>> {
        Set::new(|id: Seq<char>| exists|i: int| 0 <= i < 9 && self.enabled@[i] && op_id(i) == id)
    }
}

// ---------------------------------------------------------------------
// Operator lists: `--only` / `--skip` arguments.
// ---------------------------------------------------------------------

/// The names in a comma-separated list (bytes `b` from `k`): each piece
/// trimmed of white space, empty pieces dropped.
pub open spec fn list_names(b: Seq<u8>, k: int) -> Seq<Seq<char>>
    decreases b.len() - k,
{
    if k > b.len() || k < 0 {
        Seq::empty()
    } else {
        let j = find_byte(b, k, ',' as u8);
        let name = trim_chars(decode_utf8(b.subrange(k, j)));
        let rest = if k <= j < b.len() { list_names(b, j + 1) } else { Seq::empty() };
        if name.len() == 0 {
            rest
        } else {
            seq![name] + rest
        }
    }
}

/// The first name that is not an operator id, if any.
pub open spec fn first_unknown(names: Seq<Seq<char>>) -> Option<Seq<char>>
    decreases names.len(),
{
    if names.len() == 0 {
        None
    } else if !is_op_id(names[0]) {
        Some(names[0])
    } else {
        first_unknown(names.drop_first())
    }
}

/// The error for an unknown operator name.
pub open spec fn unknown_op_message(name: Seq<char>) -> Seq<char> {
    "unknown operator `"@ + name + "` (run `mutash ops` for the list)"@
}

/// What splitting `list` yields: the operator names, or the error for the
/// first name that is not one.
pub open spec fn split_spec(list: Seq<u8>) -> Result<Seq<Seq<char>>, Seq<char>> {
    let names = list_names(list, 0);
    match first_unknown(names) {
        Some(n) => Err(unknown_op_message(n)),
        None => Ok(names),
    }
}

proof fn lemma_first_unknown_none(names: Seq<Seq<char>>)
    requires
        first_unknown(names) is None,
    ensures
        forall|k: int| 0 <= k < names.len() ==> is_op_id(#[trigger] names[k]),
    decreases names.len(),
{
    if names.len() > 0 {
        lemma_first_unknown_none(names.drop_first());
        assert forall|k: int| 0 <= k < names.len() implies is_op_id(#[trigger] names[k]) by {
            if k > 0 {
                assert(names[k] == names.drop_first()[k - 1]);
            }
        }
    }
}

/// The row of a known operator id.
fn op_index(name: &str) -> (r: Option<usize>)
    ensures
        match r {
            Some(i) => i < 9 && op_id(i as int) == name@,
            None => !is_op_id(name@),
        },
{
    let mut i: usize = 0;
    while i < 9
        invariant
            i <= 9,
            forall|k: int| 0 <= k < i ==> op_id(k) != name@,
        decreases 9 - i,
    {
        if str_eq(name, OPERATORS[i].0) {
            return Some(i);
        }
        i = i + 1;
    }
    None
}

/// A piece `b[a..e)` of `s`, where both ends are commas or ends of the string.
fn piece<'a>(s: &'a str, a: usize, e: usize) -> (r: &'a str)
    requires
        a <= e <= s.spec_bytes().len(),
        a == 0 || s.spec_bytes()[a - 1] == ',' as u8,
        e == s.spec_bytes().len() || s.spec_bytes()[e as int] == ',' as u8,
    ensures
        r.spec_bytes() == s.spec_bytes().subrange(a as int, e as int),
        r@ == decode_utf8(s.spec_bytes().subrange(a as int, e as int)),
{
    let ghost b = s.spec_bytes();
    proof {
        encode_utf8_valid_utf8(s@);
        lemma_boundary_at_ascii(b, e as int);
        if a > 0 {
            lemma_boundary_at_ascii(b, a - 1);
        }
        lemma_boundary_at_ascii(b, a as int);
        lemma_prefix_boundary(b, e as int, a as int);
    }
    let (pre, _) = s.split_at(e);
    let (_, mid) = pre.split_at(a);
    proof {
        assert(mid.spec_bytes() =~= b.subrange(a as int, e as int));
        encode_utf8_decode_utf8(mid@);
    }
    mid
}

impl OpSet {
    /// All operators enabled (the default).
    pub fn all() -> (r: Self)
        ensures
            r@ == all_op_ids(),
    {
        let r = OpSet { enabled: [true; 9] };
        assert(r@ =~= all_op_ids());
        r
    }

    /// Enable only the comma-separated ids in `list`.
    pub fn only(list: &str) -> (r: Result<Self, String>)
        ensures
            match r {
                Ok(set) => split_spec(list.spec_bytes()) matches Ok(names) && set@ == names.to_set(),
                Err(e) => split_spec(list.spec_bytes()) == Err::<Seq<Seq<char>>, Seq<char>>(e@),
            },
    {
        let ghost names = list_names(list.spec_bytes(), 0);
        let idx = match Self::split(list) {
            Ok(idx) => idx,
            Err(e) => {
                return Err(e);
            },
        };
        assert(first_unknown(names) is None);
        let mut enabled = [false; 9];
        let mut k: usize = 0;
        while k < idx.len()
            invariant
                k <= idx.len(),
                idx@.len() == names.len(),
                forall|m: int| #![trigger idx@[m]] 0 <= m < idx@.len() ==> idx@[m] < 9 && op_id(idx@[m] as int) == names[m],
                forall|i: int| 0 <= i < 9 ==> (enabled@[i] <==> exists|m: int| 0 <= m < k && idx@[m] == i),
            decreases idx.len() - k,
        {
            enabled[idx[k]] = true;
            k = k + 1;
        }
        let r = OpSet { enabled };
        proof {
            assert forall|id: Seq<char>| r@.contains(id) <==> names.to_set().contains(id) by {
                if r@.contains(id) {
                    let i = choose|i: int| 0 <= i < 9 && r.enabled@[i] && op_id(i) == id;
                    let m = choose|m: int| 0 <= m < k && idx@[m] == i;
                    assert(names[m] == id);
                }
                if names.to_set().contains(id) {
                    let m = choose|m: int| 0 <= m < names.len() && names[m] == id;
                    assert(op_id(idx@[m] as int) == names[m]);
                    assert(r.enabled@[idx@[m] as int]);
                }
            }
            assert(r@ =~= names.to_set());
        }
        Ok(r)
    }

    /// All operators except the comma-separated ids in `list`.
    pub fn skip(list: &str) -> (r: Result<Self, String>)
        ensures
            match r {
                Ok(set) => split_spec(list.spec_bytes()) matches Ok(names) && set@ == all_op_ids().difference(names.to_set()),
                Err(e) => split_spec(list.spec_bytes()) == Err::<Seq<Seq<char>>, Seq<char>>(e@),
            },
    {
        let ghost names = list_names(list.spec_bytes(), 0);
        let idx = match Self::split(list) {
            Ok(idx) => idx,
            Err(e) => {
                return Err(e);
            },
        };
        assert(first_unknown(names) is None);
        let mut enabled = [true; 9];
        let mut k: usize = 0;
        while k < idx.len()
            invariant
                k <= idx.len(),
                idx@.len() == names.len(),
                forall|m: int| #![trigger idx@[m]] 0 <= m < idx@.len() ==> idx@[m] < 9 && op_id(idx@[m] as int) == names[m],
                forall|i: int| 0 <= i < 9 ==> (enabled@[i] <==> !exists|m: int| 0 <= m < k && idx@[m] == i),
            decreases idx.len() - k,
        {
            enabled[idx[k]] = false;
            k = k + 1;
        }
        let r = OpSet { enabled };
        proof {
            lemma_op_ids_distinct();
            assert forall|id: Seq<char>| r@.contains(id) <==> all_op_ids().difference(names.to_set()).contains(id) by {
                if r@.contains(id) {
                    let i = choose|i: int| 0 <= i < 9 && r.enabled@[i] && op_id(i) == id;
                    if names.to_set().contains(id) {
                        let m = choose|m: int| 0 <= m < names.len() && names[m] == id;
                        assert(op_id(idx@[m] as int) == id);
                        assert(idx@[m] == i);
                    }
                }
                if all_op_ids().difference(names.to_set()).contains(id) {
                    let i = choose|i: int| 0 <= i < 9 && op_id(i) == id;
                    if !r.enabled@[i] {
                        let m = choose|m: int| 0 <= m < k && idx@[m] == i;
                        assert(names[m] == id);
                    }
                }
            }
            assert(r@ =~= all_op_ids().difference(names.to_set()));
        }
        Ok(r)
    }

    /// The rows named by the comma-separated `list`, in order.
    fn split(list: &str) -> (r: Result<Vec<usize>, String>)
        ensures
            match r {
                Ok(idx) => split_spec(list.spec_bytes()) matches Ok(names) && idx@.len() == names.len()
                    && forall|m: int| #![trigger idx@[m]] 0 <= m < idx@.len() ==> idx@[m] < 9 && op_id(idx@[m] as int) == names[m],
                Err(e) => split_spec(list.spec_bytes()) == Err::<Seq<Seq<char>>, Seq<char>>(e@),
            },
    {
        let bytes = list.as_bytes();
        let n = bytes.len();
        let ghost b = list.spec_bytes();
        let ghost all = list_names(b, 0);
        let mut out: Vec<usize> = Vec::new();
        let mut k: usize = 0;
        let mut done = false;
        // `seen` are the names read so far; `list_names(b, k)` the rest.
        let ghost mut seen: Seq<Seq<char>> = Seq::empty();
        while !done
            invariant
                k <= n,
                n == b.len(),
                bytes@ == b,
                b == list.spec_bytes(),
                k == 0 || b[k - 1] == ',' as u8,
                all == list_names(b, 0),
                !done ==> all == seen + list_names(b, k as int),
                done ==> all == seen,
                first_unknown(seen) is None,
                out@.len() == seen.len(),
                forall|m: int| #![trigger out@[m]] 0 <= m < out@.len() ==> out@[m] < 9 && op_id(out@[m] as int) == seen[m],
            decreases n + 1 - k, if done { 0int } else { 1int },
        {
            let mut j = k;
            while j < n && bytes[j] != ',' as u8
                invariant
                    k <= j <= n,
                    n == b.len(),
                    bytes@ == b,
                    find_byte(b, k as int, ',' as u8) == find_byte(b, j as int, ',' as u8),
                decreases n - j,
            {
                j = j + 1;
            }
            let raw = piece(list, k, j);
            let name = str_trim(raw);
            let ghost rest = if j < n { list_names(b, j + 1) } else { Seq::<Seq<char>>::empty() };
            assert(list_names(b, k as int) == if name@.len() == 0 { rest } else { seq![name@] + rest });
            if !name.is_empty() {
                match op_index(name) {
                    Some(i) => {
                        let ghost old_out = out@;
                        out.push(i);
                        proof {
                            lemma_first_unknown_append(seen, name@);
                            assert(seen + (seq![name@] + rest) =~= seen.push(name@) + rest);
                            assert forall|m: int| #![trigger out@[m]] 0 <= m < out@.len() implies out@[m] < 9 && op_id(out@[m] as int) == seen.push(name@)[m] by {
                                if m < old_out.len() {
                                    assert(out@[m] == old_out[m]);
                                }
                            }
                            seen = seen.push(name@);
                        }
                    },
                    None => {
                        proof {
                            lemma_first_unknown_after(seen, seq![name@] + rest);
                            assert((seq![name@] + rest)[0] == name@);
                        }
                        let mut msg = string_of("unknown operator `");
                        push_str(&mut msg, name);
                        push_str(&mut msg, "` (run `mutash ops` for the list)");
                        return Err(msg);
                    },
                }
            }
            assert(all == seen + rest);
            if j < n {
                k = j + 1;
            } else {
                done = true;
                proof {
                    assert(seen + Seq::<Seq<char>>::empty() =~= seen);
                }
            }
        }
        proof {
            assert(all == seen);
        }
        Ok(out)
    }

    /// Whether operator `id` is enabled.
    pub fn contains(&self, id: &str) -> (r: bool)
        ensures
            r == self@.contains(id@),
    {
        let mut i: usize = 0;
        while i < 9
            invariant
                i <= 9,
                forall|k: int| 0 <= k < i ==> !(self.enabled@[k] && op_id(k) == id@),
            decreases 9 - i,
        {
            if self.enabled[i] && str_eq(id, OPERATORS[i].0) {
                assert(self.enabled@[i as int] && op_id(i as int) == id@);
                return true;
            }
            i = i + 1;
        }
        false
    }
}

proof fn lemma_first_unknown_append(seen: Seq<Seq<char>>, n: Seq<char>)
    requires
        first_unknown(seen) is None,
        is_op_id(n),
    ensures
        first_unknown(seen.push(n)) is None,
    decreases seen.len(),
{
    assert(seen.push(n).len() > 0);
    if seen.len() > 0 {
        assert(is_op_id(seen[0]));
        assert(first_unknown(seen.drop_first()) is None);
        assert(seen.push(n)[0] == seen[0]);
        assert(seen.push(n).drop_first() =~= seen.drop_first().push(n));
        lemma_first_unknown_append(seen.drop_first(), n);
        assert(first_unknown(seen.push(n)) == first_unknown(seen.push(n).drop_first()));
    } else {
        assert(seen.push(n)[0] == n);
        assert(seen.push(n).drop_first() =~= Seq::<Seq<char>>::empty());
        assert(first_unknown(Seq::<Seq<char>>::empty()) is None);
        assert(first_unknown(seen.push(n)) == first_unknown(seen.push(n).drop_first()));
    }
}

proof fn lemma_first_unknown_after(seen: Seq<Seq<char>>, rest: Seq<Seq<char>>)
    requires
        first_unknown(seen) is None,
    ensures
        first_unknown(seen + rest) == first_unknown(rest),
    decreases seen.len(),
{
    if seen.len() > 0 {
        assert((seen + rest).drop_first() =~= seen.drop_first() + rest);
        assert((seen + rest)[0] == seen[0]);
        lemma_first_unknown_after(seen.drop_first(), rest);
    } else {
        assert(seen + rest =~= rest);
    }
}

proof fn lemma_op_ids_distinct()
    ensures
        forall|i: int, j: int| 0 <= i < 9 && 0 <= j < 9 && i != j ==> op_id(i) != op_id(j),
{
    reveal_strlit("compare");
    reveal_strlit("unary");
    reveal_strlit("connective");
    reveal_strlit("arith");
    reveal_strlit("number");
    reveal_strlit("exit");
    reveal_strlit("flag");
    reveal_strlit("negate");
    reveal_strlit("truth");
    assert forall|i: int, j: int| 0 <= i < 9 && 0 <= j < 9 && i != j implies op_id(i) != op_id(j) by {
        if op_id(i) == op_id(j) {
            assert(op_id(i).len() == op_id(j).len());
            assert(op_id(i)[0] == op_id(j)[0]);
            assert(op_id(i)[1] == op_id(j)[1]);
        }
    }
}

// ---------------------------------------------------------------------
// The mutants of a token stream.
// ---------------------------------------------------------------------

/// Which test command the scanner is currently inside.
#[derive(Debug, Clone, Copy, PartialEq, Eq, Structural)]
pub enum TestCtx {
    /// Not inside a test command.
    Outside,
    /// `[ … ]` or `test …`
    Single,
    /// `[[ … ]]`
    Double,
}

/// Replace a token's text with `to`.
pub open spec fn swap_v(tok: TokenV, op: Seq<char>, to: Seq<char>) -> MutantV {
    MutantV {
        id: 0,
        file: Seq::empty(),
        op,
        line: tok.line,
        col: tok.col,
        offset: tok.offset,
        len: tok.len,
        original: tok.text,
        replacement: to,
        descr: "`"@ + tok.text + "` -> `"@ + to + "`"@,
    }
}

/// Delete a token, swallowing one adjacent space (the one after it if
/// there is one, else the one before it) so the line stays valid.
pub open spec fn delete_v(tok: TokenV, src: Seq<u8>, op: Seq<char>) -> MutantV {
    let end = tok.offset + tok.len;
    let after = 0 <= end < src.len() && src[end] == ' ' as u8;
    let before = tok.offset > 0 && tok.offset - 1 < src.len() && src[tok.offset - 1] == ' ' as u8;
    MutantV {
        id: 0,
        file: Seq::empty(),
        op,
        line: tok.line,
        col: tok.col,
        offset: if !after && before { tok.offset - 1 } else { tok.offset },
        len: if after || before { tok.len + 1 } else { tok.len },
        original: tok.text,
        replacement: Seq::empty(),
        descr: "drop `"@ + tok.text + "`"@,
    }
}

pub open spec fn compare_swap(t: Seq<char>) -> Option<Seq<char>> {
    if t == "-eq"@ {
        Some("-ne"@)
    } else if t == "-ne"@ {
        Some("-eq"@)
    } else if t == "-lt"@ {
        Some("-le"@)
    } else if t == "-le"@ {
        Some("-lt"@)
    } else if t == "-gt"@ {
        Some("-ge"@)
    } else if t == "-ge"@ {
        Some("-gt"@)
    } else if t == "="@ || t == "=="@ {
        Some("!="@)
    } else if t == "!="@ {
        Some("=="@)
    } else {
        None
    }
}

pub open spec fn unary_swap(t: Seq<char>) -> Option<Seq<char>> {
    if t == "-z"@ {
        Some("-n"@)
    } else if t == "-n"@ {
        Some("-z"@)
    } else if t == "-f"@ {
        Some("-d"@)
    } else if t == "-d"@ {
        Some("-f"@)
    } else if t == "-e"@ {
        Some("-d"@)
    } else if t == "-r"@ {
        Some("-w"@)
    } else if t == "-w"@ {
        Some("-r"@)
    } else if t == "-x"@ {
        Some("-r"@)
    } else if t == "-s"@ {
        Some("-f"@)
    } else {
        None
    }
}

/// Arithmetic operator swaps: `(operator id, replacement)`.
pub open spec fn arith_swap(t: Seq<char>) -> Option<(Seq<char>, Seq<char>)> {
    if t == "+"@ {
        Some(("arith"@, "-"@))
    } else if t == "-"@ {
        Some(("arith"@, "+"@))
    } else if t == "*"@ {
        Some(("arith"@, "/"@))
    } else if t == "/"@ {
        Some(("arith"@, "*"@))
    } else if t == "%"@ {
        Some(("arith"@, "*"@))
    } else if t == "++"@ {
        Some(("arith"@, "--"@))
    } else if t == "--"@ {
        Some(("arith"@, "++"@))
    } else if t == "+="@ {
        Some(("arith"@, "-="@))
    } else if t == "-="@ {
        Some(("arith"@, "+="@))
    } else if t == "<"@ {
        Some(("compare"@, "<="@))
    } else if t == "<="@ {
        Some(("compare"@, "<"@))
    } else if t == ">"@ {
        Some(("compare"@, ">="@))
    } else if t == ">="@ {
        Some(("compare"@, ">"@))
    } else if t == "=="@ {
        Some(("compare"@, "!="@))
    } else if t == "!="@ {
        Some(("compare"@, "=="@))
    } else {
        None
    }
}

/// `n -> n+1` and `n -> n-1`, the classic boundary mutants (each only when
/// it stays within `i64`).
pub open spec fn number_mutants(tok: TokenV) -> Seq<MutantV> {
    match parse_i64(tok.text) {
        Some(n) => {
            let up = if n < i64::MAX { seq![swap_v(tok, "number"@, idec(n + 1))] } else { Seq::empty() };
            let down = if n > i64::MIN { seq![swap_v(tok, "number"@, idec(n - 1))] } else { Seq::empty() };
            up + down
        },
        None => Seq::empty(),
    }
}

pub open spec fn is_alpha(c: char) -> bool {
    ('a' <= c <= 'z') || ('A' <= c <= 'Z')
}

/// Flags in argument position: drop `-x`, `-xyz` and `--long` flags; a
/// cluster of two or more letters also shrinks by its last letter.
pub open spec fn flag_mutants(tok: TokenV, src: Seq<u8>) -> Seq<MutantV> {
    let s = tok.text;
    if !(s.len() > 0 && s[0] == '-') || s == seq!['-'] || s == seq!['-', '-'] {
        Seq::empty()
    } else if s.len() >= 2 && s[1] == '-' {
        if s.len() > 2 && is_alpha(s[2]) {
            seq![delete_v(tok, src, "flag"@)]
        } else {
            Seq::empty()
        }
    } else if !(s.len() > 1 && is_alpha(s[1])) {
        Seq::empty()
    } else {
        let body = s.skip(1);
        seq![delete_v(tok, src, "flag"@)] + if body.len() >= 2 && (forall|k: int|
            0 <= k < body.len() ==> is_alpha(#[trigger] body[k])) {
            seq![swap_v(tok, "flag"@, s.drop_last())]
        } else {
            Seq::empty()
        }
    }
}

/// The mutants of one word token, given the test context, the previous
/// word of the command (text, command position) and the enabled operators.
pub open spec fn word_mutants(
    tok: TokenV,
    src: Seq<u8>,
    ctx: TestCtx,
    prev: Option<(Seq<char>, bool)>,
    ops: Set<Seq<char>>,
) -> Seq<MutantV> {
    let text = tok.text;
    let in_test = ctx != TestCtx::Outside;
    if tok.tainted {
        Seq::empty()
    } else if text == "!"@ && (tok.cmd_pos || in_test) {
        // `!` removal: `if ! cmd`, `[[ ! -f x ]]`.
        if ops.contains("negate"@) { seq![delete_v(tok, src, "negate"@)] } else { Seq::empty() }
    } else if tok.cmd_pos && (text == "true"@ || text == "false"@) {
        if ops.contains("truth"@) {
            seq![swap_v(tok, "truth"@, if text == "true"@ { "false"@ } else { "true"@ })]
        } else {
            Seq::empty()
        }
    } else if in_test && ops.contains("compare"@) && compare_swap(text) is Some {
        seq![swap_v(tok, "compare"@, compare_swap(text)->0)]
    } else if in_test && ops.contains("unary"@) && unary_swap(text) is Some {
        seq![swap_v(tok, "unary"@, unary_swap(text)->0)]
    } else if ctx == TestCtx::Single && ops.contains("connective"@) && (text == "-a"@ || text
        == "-o"@) {
        // `-a` / `-o` join tests in `[ ]` and `test` only (in `[[ ]]` they are unary tests).
        seq![swap_v(tok, "connective"@, if text == "-a"@ { "-o"@ } else { "-a"@ })]
    } else if parse_i64(text) is Some {
        // Integer literals: exit/return statuses first, then test-expression numbers.
        if prev matches Some((p, pc)) && pc && (p == "exit"@ || p == "return"@) {
            if ops.contains("exit"@) {
                seq![swap_v(tok, "exit"@, if parse_i64(text)->0 == 0 { "1"@ } else { "0"@ })]
            } else {
                Seq::empty()
            }
        } else if in_test && ops.contains("number"@) {
            number_mutants(tok)
        } else {
            Seq::empty()
        }
    } else if !in_test && !tok.cmd_pos && ops.contains("flag"@) {
        // Command flags (argument position only; in a test these are operators).
        flag_mutants(tok, src)
    } else {
        Seq::empty()
    }
}

/// The mutant generator's state between tokens.
pub struct GenState {
    pub ctx: TestCtx,
    pub prev: Option<(Seq<char>, bool)>,
    pub out: Seq<MutantV>,
}

/// Process one token.
pub open spec fn gen_step(src: Seq<u8>, ops: Set<Seq<char>>, st: GenState, tok: TokenV) -> GenState {
    let t = tok.text;
    match tok.kind {
        TokKind::Sep => {
            if t == "\n"@ || t == ";"@ || t == ";;"@ || t == "|"@ || t == "&"@ || t == "("@ || t == ")"@ {
                GenState { ctx: TestCtx::Outside, prev: None, ..st }
            } else if (t == "<"@ || t == ">"@) && st.ctx == TestCtx::Double && ops.contains("compare"@) {
                // Inside `[[ ]]` these are string comparisons.
                GenState {
                    out: st.out.push(swap_v(tok, "compare"@, if t == "<"@ { ">"@ } else { "<"@ })),
                    ..st
                }
            } else {
                st
            }
        },
        TokKind::AndAnd | TokKind::OrOr => {
            let out = if ops.contains("connective"@) {
                st.out.push(swap_v(tok, "connective"@, if tok.kind == TokKind::AndAnd { "||"@ } else { "&&"@ }))
            } else {
                st.out
            };
            GenState {
                ctx: if st.ctx == TestCtx::Single { TestCtx::Outside } else { st.ctx },
                prev: None,
                out,
            }
        },
        TokKind::ArithOp => {
            match arith_swap(t) {
                Some((op, to)) => if ops.contains(op) {
                    GenState { out: st.out.push(swap_v(tok, op, to)), ..st }
                } else {
                    st
                },
                None => st,
            }
        },
        TokKind::ArithNum => {
            if ops.contains("number"@) {
                GenState { out: st.out + number_mutants(tok), ..st }
            } else {
                st
            }
        },
        TokKind::Word => {
            let out = st.out + word_mutants(tok, src, st.ctx, st.prev, ops);
            let ctx = if t == "[["@ && tok.cmd_pos {
                TestCtx::Double
            } else if t == "["@ && tok.cmd_pos {
                TestCtx::Single
            } else if t == "test"@ && tok.cmd_pos {
                TestCtx::Single
            } else if t == "]]"@ || t == "]"@ {
                TestCtx::Outside
            } else {
                st.ctx
            };
            GenState { ctx, prev: Some((t, tok.cmd_pos)), out }
        },
    }
}

pub open spec fn gen_init() -> GenState {
    GenState { ctx: TestCtx::Outside, prev: None, out: Seq::empty() }
}

/// Run the generator over a token sequence.
pub open spec fn gen_fold(src: Seq<u8>, ops: Set<Seq<char>>, toks: Seq<TokenV>) -> GenState
    decreases toks.len(),
{
    if toks.len() == 0 {
        gen_init()
    } else {
        gen_step(src, ops, gen_fold(src, ops, toks.drop_last()), toks.last())
    }
}

// ---------------------------------------------------------------------
// Pragmas.
// ---------------------------------------------------------------------

/// The `off` ranges so far: `(open since, closed ranges)`.
pub open spec fn off_fold(pr: Seq<(u32, Pragma)>) -> (Option<u32>, Seq<(u32, u32)>)
    decreases pr.len(),
{
    if pr.len() == 0 {
        (None, Seq::empty())
    } else {
        let r = off_fold(pr.drop_last());
        let (line, p) = pr.last();
        match p {
            Pragma::Off => if r.0 is None { (Some(line), r.1) } else { r },
            Pragma::On => match r.0 {
                Some(a) => (None, r.1.push((a, line))),
                None => r,
            },
            Pragma::SkipLine => r,
        }
    }
}

/// Line ranges `[start, end)` disabled by `# mutash: off` … `# mutash: on`;
/// an `off` never closed runs to the last line.
pub open spec fn off_ranges(pr: Seq<(u32, Pragma)>) -> Seq<(u32, u32)> {
    let r = off_fold(pr);
    match r.0 {
        Some(a) => r.1.push((a, u32::MAX)),
        None => r.1,
    }
}

/// Mutation is disabled on `line`: a `skip` pragma on it, or an `off` range over it.
pub open spec fn line_disabled(pr: Seq<(u32, Pragma)>, line: u32) -> bool {
    ||| exists|k: int| 0 <= k < pr.len() && #[trigger] pr[k] == (line, Pragma::SkipLine)
    ||| exists|k: int| 0 <= k < off_ranges(pr).len() && #[trigger] off_ranges(pr)[k].0 <= line
        && line < off_ranges(pr)[k].1
}

/// The mutants not on disabled lines, in order.
pub open spec fn kept(ms: Seq<MutantV>, pr: Seq<(u32, Pragma)>) -> Seq<MutantV>
    decreases ms.len(),
{
    if ms.len() == 0 {
        Seq::empty()
    } else if line_disabled(pr, ms.last().line) {
        kept(ms.drop_last(), pr)
    } else {
        kept(ms.drop_last(), pr).push(ms.last())
    }
}

/// Every enabled mutant of a script, in source order, with `id = 0` and no
/// file name (the caller assigns both).
pub open spec fn generate_spec(src: Seq<u8>, ops: Set<Seq<char>>) -> Seq<MutantV> {
    let r = scan_spec(src);
    kept(gen_fold(src, ops, r.tokens).out, r.pragmas)
}

pub open spec fn mutants_view(v: Seq<Mutant>) -> Seq<MutantV> {
    v.map_values(|m: Mutant| m@)
}

proof fn lemma_kept_concat(a: Seq<MutantV>, b: Seq<MutantV>, pr: Seq<(u32, Pragma)>)
    ensures
        kept(a + b, pr) == kept(a, pr) + kept(b, pr),
    decreases b.len(),
{
    if b.len() == 0 {
        assert(a + b =~= a);
        assert(kept(a, pr) + kept(b, pr) =~= kept(a, pr));
    } else {
        assert((a + b).drop_last() =~= a + b.drop_last());
        assert((a + b).last() == b.last());
        lemma_kept_concat(a, b.drop_last(), pr);
        if line_disabled(pr, b.last().line) {
        } else {
            assert(kept(a + b, pr) =~= kept(a, pr) + kept(b, pr));
        }
    }
}

// ---------------------------------------------------------------------
// Generating mutants.
// ---------------------------------------------------------------------

/// The characters of `s`, indexable.
fn chars_of(s: &str) -> (r: Vec<char>)
    ensures
        r@ == s@,
{
    broadcast use vstd::string::group_string_axioms;
    let mut out: Vec<char> = Vec::new();
    for c in it: s.chars()
        invariant
            it.seq() == s@,
            out@ == s@.take(it.index()),
    {
        assert(s@.take(it.index() + 1) =~= s@.take(it.index()).push(c));
        out.push(c);
    }
    assert(s@.take(s@.len() as int) =~= s@);
    out
}

/// A string of the first `k` characters of `cs`.
fn string_of_chars(cs: &Vec<char>, k: usize) -> (r: String)
    requires
        k <= cs.len(),
    ensures
        r@ == cs@.take(k as int),
{
    let mut out = String::new();
    let mut i: usize = 0;
    while i < k
        invariant
            i <= k <= cs.len(),
            out@ == cs@.take(i as int),
        decreases k - i,
    {
        crate::text::push_char(&mut out, cs[i]);
        i = i + 1;
        assert(out@ =~= cs@.take(i as int));
    }
    out
}

fn swap_owned(tok: &Token, op: &'static str, to: String) -> (m: Mutant)
    ensures
        m@ == swap_v(tok@, op@, to@),
{
    let mut descr = string_of("`");
    push_str(&mut descr, tok.text.as_str());
    push_str(&mut descr, "` -> `");
    push_str(&mut descr, to.as_str());
    push_str(&mut descr, "`");
    Mutant {
        id: 0,
        file: String::new(),
        op,
        line: tok.line,
        col: tok.col,
        offset: tok.offset,
        len: tok.len,
        original: tok.text.clone(),
        descr,
        replacement: to,
    }
}

fn swap(tok: &Token, op: &'static str, to: &str) -> (m: Mutant)
    ensures
        m@ == swap_v(tok@, op@, to@),
{
    swap_owned(tok, op, string_of(to))
}

/// Delete a token, swallowing one adjacent space so the line stays valid.
fn delete(tok: &Token, src: &[u8], op: &'static str) -> (m: Mutant)
    requires
        tok.offset + tok.len <= src.len(),
    ensures
        m@ == delete_v(tok@, src@, op@),
{
    let mut offset = tok.offset;
    let mut len = tok.len;
    if tok.offset + tok.len < src.len() && src[tok.offset + tok.len] == ' ' as u8 {
        len = len + 1;
    } else if offset > 0 && src[offset - 1] == ' ' as u8 {
        offset = offset - 1;
        len = len + 1;
    }
    let mut descr = string_of("drop `");
    push_str(&mut descr, tok.text.as_str());
    push_str(&mut descr, "`");
    Mutant {
        id: 0,
        file: String::new(),
        op,
        line: tok.line,
        col: tok.col,
        offset,
        len,
        original: tok.text.clone(),
        replacement: String::new(),
        descr,
    }
}

fn compare_swap_exec(t: &str) -> (r: Option<&'static str>)
    ensures
        match r {
            Some(x) => compare_swap(t@) == Some(x@),
            None => compare_swap(t@) is None,
        },
{
    if str_eq(t, "-eq") {
        Some("-ne")
    } else if str_eq(t, "-ne") {
        Some("-eq")
    } else if str_eq(t, "-lt") {
        Some("-le")
    } else if str_eq(t, "-le") {
        Some("-lt")
    } else if str_eq(t, "-gt") {
        Some("-ge")
    } else if str_eq(t, "-ge") {
        Some("-gt")
    } else if str_eq(t, "=") || str_eq(t, "==") {
        Some("!=")
    } else if str_eq(t, "!=") {
        Some("==")
    } else {
        None
    }
}

fn unary_swap_exec(t: &str) -> (r: Option<&'static str>)
    ensures
        match r {
            Some(x) => unary_swap(t@) == Some(x@),
            None => unary_swap(t@) is None,
        },
{
    if str_eq(t, "-z") {
        Some("-n")
    } else if str_eq(t, "-n") {
        Some("-z")
    } else if str_eq(t, "-f") {
        Some("-d")
    } else if str_eq(t, "-d") {
        Some("-f")
    } else if str_eq(t, "-e") {
        Some("-d")
    } else if str_eq(t, "-r") {
        Some("-w")
    } else if str_eq(t, "-w") {
        Some("-r")
    } else if str_eq(t, "-x") {
        Some("-r")
    } else if str_eq(t, "-s") {
        Some("-f")
    } else {
        None
    }
}

fn arith_swap_exec(t: &str) -> (r: Option<(&'static str, &'static str)>)
    ensures
        match r {
            Some(x) => arith_swap(t@) == Some((x.0@, x.1@)),
            None => arith_swap(t@) is None,
        },
{
    if str_eq(t, "+") {
        Some(("arith", "-"))
    } else if str_eq(t, "-") {
        Some(("arith", "+"))
    } else if str_eq(t, "*") {
        Some(("arith", "/"))
    } else if str_eq(t, "/") {
        Some(("arith", "*"))
    } else if str_eq(t, "%") {
        Some(("arith", "*"))
    } else if str_eq(t, "++") {
        Some(("arith", "--"))
    } else if str_eq(t, "--") {
        Some(("arith", "++"))
    } else if str_eq(t, "+=") {
        Some(("arith", "-="))
    } else if str_eq(t, "-=") {
        Some(("arith", "+="))
    } else if str_eq(t, "<") {
        Some(("compare", "<="))
    } else if str_eq(t, "<=") {
        Some(("compare", "<"))
    } else if str_eq(t, ">") {
        Some(("compare", ">="))
    } else if str_eq(t, ">=") {
        Some(("compare", ">"))
    } else if str_eq(t, "==") {
        Some(("compare", "!="))
    } else if str_eq(t, "!=") {
        Some(("compare", "=="))
    } else {
        None
    }
}

/// The pragmas of a script with the `off` ranges they define.
struct Filter {
    pragmas: Vec<(u32, Pragma)>,
    ranges: Vec<(u32, u32)>,
}

impl Filter {
    spec fn wf(&self) -> bool {
        self.ranges@ == off_ranges(self.pragmas@)
    }

    fn new(pragmas: Vec<(u32, Pragma)>) -> (f: Filter)
        ensures
            f.wf(),
            f.pragmas@ == pragmas@,
    {
        let mut since: Option<u32> = None;
        let mut ranges: Vec<(u32, u32)> = Vec::new();
        let mut k: usize = 0;
        while k < pragmas.len()
            invariant
                k <= pragmas.len(),
                (since, ranges@) == off_fold(pragmas@.take(k as int)),
            decreases pragmas.len() - k,
        {
            assert(pragmas@.take(k + 1).drop_last() =~= pragmas@.take(k as int));
            let (line, p) = pragmas[k];
            match p {
                Pragma::SkipLine => {},
                Pragma::Off => {
                    if since.is_none() {
                        since = Some(line);
                    }
                },
                Pragma::On => {
                    if let Some(start) = since {
                        ranges.push((start, line));
                        since = None;
                    }
                },
            }
            k = k + 1;
        }
        assert(pragmas@.take(k as int) =~= pragmas@);
        if let Some(start) = since {
            ranges.push((start, u32::MAX));
        }
        Filter { pragmas, ranges }
    }

    fn disabled(&self, line: u32) -> (r: bool)
        requires
            self.wf(),
        ensures
            r == line_disabled(self.pragmas@, line),
    {
        let mut k: usize = 0;
        while k < self.pragmas.len()
            invariant
                k <= self.pragmas.len(),
                forall|m: int| 0 <= m < k ==> self.pragmas@[m] != (line, Pragma::SkipLine),
            decreases self.pragmas.len() - k,
        {
            let (l, p) = self.pragmas[k];
            if l == line && p == Pragma::SkipLine {
                assert(self.pragmas@[k as int] == (line, Pragma::SkipLine));
                return true;
            }
            k = k + 1;
        }
        let mut j: usize = 0;
        while j < self.ranges.len()
            invariant
                j <= self.ranges.len(),
                self.wf(),
                forall|m: int| 0 <= m < self.pragmas@.len() ==> self.pragmas@[m] != (line, Pragma::SkipLine),
                forall|m: int| 0 <= m < j ==> !(self.ranges@[m].0 <= line && line < self.ranges@[m].1),
            decreases self.ranges.len() - j,
        {
            let (a, b) = self.ranges[j];
            if a <= line && line < b {
                assert(off_ranges(self.pragmas@)[j as int].0 <= line && line < off_ranges(self.pragmas@)[j as int].1);
                return true;
            }
            j = j + 1;
        }
        false
    }

    /// Push `m` unless its line is disabled.
    fn emit(&self, out: &mut Vec<Mutant>, m: Mutant)
        requires
            self.wf(),
        ensures
            mutants_view(final(out)@) == mutants_view(old(out)@) + kept(seq![m@], self.pragmas@),
    {
        let ghost o = mutants_view(out@);
        let ghost mv = m@;
        assert(seq![mv].drop_last() =~= Seq::<MutantV>::empty());
        assert(seq![mv].last() == mv);
        assert(kept(Seq::<MutantV>::empty(), self.pragmas@) == Seq::<MutantV>::empty());
        if !self.disabled(m.line) {
            out.push(m);
            assert(mutants_view(out@) =~= o + kept(seq![mv], self.pragmas@));
        } else {
            assert(mutants_view(out@) =~= o + kept(seq![mv], self.pragmas@));
        }
    }
}

proof fn lemma_kept_two(a: MutantV, b: MutantV, pr: Seq<(u32, Pragma)>)
    ensures
        kept(seq![a], pr) + kept(seq![b], pr) == kept(seq![a, b], pr),
{
    lemma_kept_concat(seq![a], seq![b], pr);
    assert(seq![a] + seq![b] =~= seq![a, b]);
}

/// `n -> n+1` and `n -> n-1` for an integer token.
fn number_mutants_exec(tok: &Token, f: &Filter, out: &mut Vec<Mutant>)
    requires
        f.wf(),
    ensures
        mutants_view(final(out)@) == mutants_view(old(out)@) + kept(number_mutants(tok@), f.pragmas@),
{
    let ghost o = mutants_view(out@);
    match parse_i64_exec(tok.text.as_str()) {
        None => {
            assert(o + kept(Seq::<MutantV>::empty(), f.pragmas@) =~= o);
        },
        Some(n) => {
            let ghost up = if n < i64::MAX { seq![swap_v(tok@, "number"@, idec(n + 1))] } else { Seq::empty() };
            let ghost down = if n > i64::MIN { seq![swap_v(tok@, "number"@, idec(n - 1))] } else { Seq::empty() };
            proof {
                lemma_kept_concat(up, down, f.pragmas@);
            }
            if n < i64::MAX {
                let mut t = String::new();
                push_idec(&mut t, n + 1);
                assert(Seq::<char>::empty() + idec(n + 1) =~= idec(n + 1));
                f.emit(out, swap_owned(tok, "number", t));
            } else {
                assert(kept(up, f.pragmas@) =~= Seq::<MutantV>::empty());
            }
            let ghost mid = mutants_view(out@);
            assert(mid == o + kept(up, f.pragmas@));
            if n > i64::MIN {
                let mut t = String::new();
                push_idec(&mut t, n - 1);
                assert(Seq::<char>::empty() + idec(n - 1) =~= idec(n - 1));
                f.emit(out, swap_owned(tok, "number", t));
            } else {
                assert(kept(down, f.pragmas@) =~= Seq::<MutantV>::empty());
            }
            assert(mutants_view(out@) =~= o + kept(up + down, f.pragmas@));
        },
    }
}

fn is_alpha_exec(c: char) -> (r: bool)
    ensures
        r == is_alpha(c),
{
    ('a' <= c && c <= 'z') || ('A' <= c && c <= 'Z')
}

fn flag_mutants_exec(tok: &Token, src: &[u8], f: &Filter, out: &mut Vec<Mutant>)
    requires
        f.wf(),
        tok.offset + tok.len <= src.len(),
    ensures
        mutants_view(final(out)@) == mutants_view(old(out)@) + kept(flag_mutants(tok@, src@), f.pragmas@),
{
    let ghost o = mutants_view(out@);
    let ghost s = tok.text@;
    let cs = chars_of(tok.text.as_str());
    let n = cs.len();
    proof {
        assert(cs@ == s);
        if n == 1 && s[0] == '-' {
            assert(s =~= seq!['-']);
        }
        if n == 2 && s[0] == '-' && s[1] == '-' {
            assert(s =~= seq!['-', '-']);
        }
        assert(o + kept(Seq::<MutantV>::empty(), f.pragmas@) =~= o);
    }
    if !(n > 0 && cs[0] == '-') || n == 1 || (n == 2 && cs[1] == '-') {
        return;
    }
    assert(s != seq!['-'] && s != seq!['-', '-']);
    if cs[1] == '-' {
        // `--force`, `--depth=1`: drop the whole flag.
        if n > 2 && is_alpha_exec(cs[2]) {
            f.emit(out, delete(tok, src, "flag"));
        }
        return;
    }
    if !is_alpha_exec(cs[1]) {
        // `-5`, `-@foo`: not a flag
        return;
    }
    let ghost d = delete_v(tok@, src@, "flag"@);
    f.emit(out, delete(tok, src, "flag"));
    let mut all = true;
    let mut k: usize = 1;
    while k < n
        invariant
            1 <= k <= n,
            n == cs@.len(),
            all == forall|m: int| 1 <= m < k ==> is_alpha(#[trigger] cs@[m]),
        decreases n - k,
    {
        all = all && is_alpha_exec(cs[k]);
        k = k + 1;
    }
    let ghost body = s.skip(1);
    proof {
        assert(all == forall|m: int| 0 <= m < body.len() ==> is_alpha(#[trigger] body[m])) by {
            if all {
                assert forall|m: int| 0 <= m < body.len() implies is_alpha(#[trigger] body[m]) by {
                    assert(body[m] == cs@[m + 1]);
                }
            } else {
                let m = choose|m: int| 1 <= m < n && !is_alpha(#[trigger] cs@[m]);
                assert(body[m - 1] == cs@[m]);
            }
        }
    }
    if n - 1 >= 2 && all {
        // Shrink a cluster: `-rf` -> `-r`.
        let shrunk = string_of_chars(&cs, n - 1);
        assert(shrunk@ =~= s.drop_last());
        let ghost w = swap_v(tok@, "flag"@, s.drop_last());
        f.emit(out, swap_owned(tok, "flag", shrunk));
        proof {
            lemma_kept_two(d, w, f.pragmas@);
            assert(seq![d] + seq![w] =~= seq![d, w]);
        }
    } else {
        assert(seq![d] + Seq::<MutantV>::empty() =~= seq![d]);
    }
}

spec fn prev_view(p: Option<(String, bool)>) -> Option<(Seq<char>, bool)> {
    match p {
        Some((t, c)) => Some((t@, c)),
        None => None,
    }
}

/// Push the mutants of one word token.
fn word_mutants_exec(
    tok: &Token,
    src: &[u8],
    ctx: TestCtx,
    prev: &Option<(String, bool)>,
    ops: &OpSet,
    f: &Filter,
    out: &mut Vec<Mutant>,
)
    requires
        f.wf(),
        tok.offset + tok.len <= src.len(),
    ensures
        mutants_view(final(out)@) == mutants_view(old(out)@) + kept(
            word_mutants(tok@, src@, ctx, prev_view(*prev), ops@),
            f.pragmas@,
        ),
{
    let ghost o = mutants_view(out@);
    proof {
        assert(o + kept(Seq::<MutantV>::empty(), f.pragmas@) =~= o);
    }
    if tok.tainted {
        return;
    }
    let text = tok.text.as_str();
    let in_test = ctx != TestCtx::Outside;
    if str_eq(text, "!") && (tok.cmd_pos || in_test) {
        if ops.contains("negate") {
            f.emit(out, delete(tok, src, "negate"));
        }
        return;
    }
    if tok.cmd_pos && (str_eq(text, "true") || str_eq(text, "false")) {
        if ops.contains("truth") {
            let to = if str_eq(text, "true") { "false" } else { "true" };
            f.emit(out, swap(tok, "truth", to));
        }
        return;
    }
    if in_test {
        if ops.contains("compare") {
            if let Some(to) = compare_swap_exec(text) {
                f.emit(out, swap(tok, "compare", to));
                return;
            }
        }
        if ops.contains("unary") {
            if let Some(to) = unary_swap_exec(text) {
                f.emit(out, swap(tok, "unary", to));
                return;
            }
        }
        if ctx == TestCtx::Single && ops.contains("connective") && (str_eq(text, "-a") || str_eq(
            text,
            "-o",
        )) {
            let to = if str_eq(text, "-a") { "-o" } else { "-a" };
            f.emit(out, swap(tok, "connective", to));
            return;
        }
    }
    if let Some(n) = parse_i64_exec(text) {
        if let Some((p, pc)) = prev {
            if *pc && (str_eq(p.as_str(), "exit") || str_eq(p.as_str(), "return")) {
                if ops.contains("exit") {
                    let to = if n == 0 { "1" } else { "0" };
                    f.emit(out, swap(tok, "exit", to));
                }
                return;
            }
        }
        if in_test && ops.contains("number") {
            number_mutants_exec(tok, f, out);
        }
        return;
    }
    if !in_test && !tok.cmd_pos && ops.contains("flag") {
        flag_mutants_exec(tok, src, f, out);
    }
}

/// Generate every enabled mutant for one script source.
///
/// Mutants come back in source order (by line, then by column; columns
/// are 32-bit, so this needs lines shorter than 2^32 - 1 bytes, and line
/// order holds regardless) with `id = 0`; the caller assigns globally
/// unique ids and the display file name.
pub fn generate(src: &str, ops: &OpSet) -> (r: Vec<Mutant>)
    requires
        newline_count(src.spec_bytes()) < u32::MAX,
    ensures
        mutants_view(r@) == generate_spec(src.spec_bytes(), ops@),
        forall|k: int| 0 <= k < r@.len() ==> applies_to(#[trigger] r@[k]@, src.spec_bytes()),
        forall|k: int| 0 <= k < r@.len() ==> (#[trigger] r@[k])@.replacement != r@[k]@.original,
        forall|a: int, b: int| 0 <= a < b < r@.len() ==> (#[trigger] r@[a]).line <= (#[trigger] r@[b]).line,
        crate::order::lines_fit(src.spec_bytes()) ==> forall|a: int, b: int|
            0 <= a < b < r@.len() ==> crate::order::pos_le(
                (#[trigger] r@[a]).line as int,
                r@[a].col as int,
                (#[trigger] r@[b]).line as int,
                r@[b].col as int,
            ),
{
    let result = scan(src);
    let bytes = src.as_bytes();
    let ghost toks = result.tokens@.map_values(|t: Token| t@);
    let ScanResult { tokens, pragmas } = result;
    let f = Filter::new(pragmas);
    let mut out: Vec<Mutant> = Vec::new();
    let mut ctx = TestCtx::Outside;
    let mut prev: Option<(String, bool)> = None;
    let mut i: usize = 0;
    while i < tokens.len()
        invariant
            i <= tokens.len(),
            f.wf(),
            bytes@ == src.spec_bytes(),
            toks == tokens@.map_values(|t: Token| t@),
            crate::lexer::tokens_within(toks, bytes@.len() as int),
            f.pragmas@ == scan_spec(src.spec_bytes()).pragmas,
            toks == scan_spec(src.spec_bytes()).tokens,
            ({
                let g = gen_fold(bytes@, ops@, toks.take(i as int));
                &&& g.ctx == ctx
                &&& g.prev == prev_view(prev)
                &&& mutants_view(out@) == kept(g.out, f.pragmas@)
            }),
        decreases tokens.len() - i,
    {
        let tok = &tokens[i];
        let ghost g = gen_fold(bytes@, ops@, toks.take(i as int));
        proof {
            assert(toks.take(i + 1).drop_last() =~= toks.take(i as int));
            assert(toks.take(i + 1).last() == tok@);
            assert(toks[i as int] == tok@);
        }
        let ghost before = mutants_view(out@);
        match tok.kind {
            TokKind::Sep => {
                let t = tok.text.as_str();
                if str_eq(t, "\n") || str_eq(t, ";") || str_eq(t, ";;") || str_eq(t, "|") || str_eq(t, "&")
                    || str_eq(t, "(") || str_eq(t, ")") {
                    ctx = TestCtx::Outside;
                    prev = None;
                } else if str_eq(t, "<") || str_eq(t, ">") {
                    if ctx == TestCtx::Double && ops.contains("compare") {
                        let to = if str_eq(t, "<") { ">" } else { "<" };
                        let ghost m = swap_v(tok@, "compare"@, to@);
                        f.emit(&mut out, swap(tok, "compare", to));
                        proof {
                            lemma_kept_concat(g.out, seq![m], f.pragmas@);
                            assert(g.out + seq![m] =~= g.out.push(m));
                        }
                    }
                }
            },
            TokKind::AndAnd | TokKind::OrOr => {
                if ops.contains("connective") {
                    let to = if tok.kind == TokKind::AndAnd { "||" } else { "&&" };
                    let ghost m = swap_v(tok@, "connective"@, to@);
                    f.emit(&mut out, swap(tok, "connective", to));
                    proof {
                        lemma_kept_concat(g.out, seq![m], f.pragmas@);
                        assert(g.out + seq![m] =~= g.out.push(m));
                    }
                }
                if ctx == TestCtx::Single {
                    ctx = TestCtx::Outside;
                }
                prev = None;
            },
            TokKind::ArithOp => {
                if let Some((op_id, to)) = arith_swap_exec(tok.text.as_str()) {
                    if ops.contains(op_id) {
                        let ghost m = swap_v(tok@, op_id@, to@);
                        f.emit(&mut out, swap(tok, op_id, to));
                        proof {
                            lemma_kept_concat(g.out, seq![m], f.pragmas@);
                            assert(g.out + seq![m] =~= g.out.push(m));
                        }
                    }
                }
            },
            TokKind::ArithNum => {
                if ops.contains("number") {
                    number_mutants_exec(tok, &f, &mut out);
                    proof {
                        lemma_kept_concat(g.out, number_mutants(tok@), f.pragmas@);
                    }
                }
            },
            TokKind::Word => {
                proof {
                    assert(crate::lexer::tokens_within(toks, bytes@.len() as int));
                    assert(0 <= toks[i as int].offset);
                }
                word_mutants_exec(tok, bytes, ctx, &prev, ops, &f, &mut out);
                proof {
                    lemma_kept_concat(g.out, word_mutants(tok@, bytes@, ctx, prev_view(prev), ops@), f.pragmas@);
                }
                let t = tok.text.as_str();
                if str_eq(t, "[[") && tok.cmd_pos {
                    ctx = TestCtx::Double;
                } else if str_eq(t, "[") && tok.cmd_pos {
                    ctx = TestCtx::Single;
                } else if str_eq(t, "test") && tok.cmd_pos {
                    ctx = TestCtx::Single;
                } else if str_eq(t, "]]") || str_eq(t, "]") {
                    ctx = TestCtx::Outside;
                }
                prev = Some((tok.text.clone(), tok.cmd_pos));
            },
        }
        i = i + 1;
    }
    proof {
        assert(toks.take(i as int) =~= toks);
        encode_utf8_valid_utf8(src@);
        crate::spans::lemma_generated_apply(src.spec_bytes(), ops@);
        assert forall|k: int| 0 <= k < out@.len() implies applies_to(#[trigger] out@[k]@, src.spec_bytes()) by {
            assert(mutants_view(out@)[k] == out@[k]@);
        }
        crate::order::lemma_generated_in_line_order(src.spec_bytes(), ops@);
        lemma_generated_mutants_change_text(src.spec_bytes(), ops@);
        assert forall|k: int| 0 <= k < out@.len() implies (#[trigger] out@[k])@.replacement
            != out@[k]@.original by {
            assert(mutants_view(out@)[k] == out@[k]@);
        }
        if crate::order::lines_fit(src.spec_bytes()) {
            crate::order::lemma_generated_in_source_order(src.spec_bytes(), ops@);
            assert forall|a: int, b: int| 0 <= a < b < out@.len() implies crate::order::pos_le(
                (#[trigger] out@[a]).line as int,
                out@[a].col as int,
                (#[trigger] out@[b]).line as int,
                out@[b].col as int,
            ) by {
                assert(mutants_view(out@)[a] == out@[a]@ && mutants_view(out@)[b] == out@[b]@);
            }
        }
        assert forall|a: int, b: int| 0 <= a < b < out@.len() implies (#[trigger] out@[a]).line
            <= (#[trigger] out@[b]).line by {
            assert(mutants_view(out@)[a] == out@[a]@ && mutants_view(out@)[b] == out@[b]@);
        }
    }
    out
}

// ---------------------------------------------------------------------
// What every generated mutant satisfies.
// ---------------------------------------------------------------------

/// `op` is enabled in `ops` and documented in [`OPERATORS`].
pub open spec fn op_allowed(ops: Set<Seq<char>>, op: Seq<char>) -> bool {
    ops.contains(op) && is_op_id(op)
}

pub open spec fn ops_allowed(ms: Seq<MutantV>, ops: Set<Seq<char>>) -> bool {
    forall|k: int| 0 <= k < ms.len() ==> op_allowed(ops, #[trigger] ms[k].op)
}

proof fn lemma_op_ids_known()
    ensures
        is_op_id("compare"@),
        is_op_id("unary"@),
        is_op_id("connective"@),
        is_op_id("arith"@),
        is_op_id("number"@),
        is_op_id("exit"@),
        is_op_id("flag"@),
        is_op_id("negate"@),
        is_op_id("truth"@),
{
    assert(op_id(0) == "compare"@);
    assert(op_id(1) == "unary"@);
    assert(op_id(2) == "connective"@);
    assert(op_id(3) == "arith"@);
    assert(op_id(4) == "number"@);
    assert(op_id(5) == "exit"@);
    assert(op_id(6) == "flag"@);
    assert(op_id(7) == "negate"@);
    assert(op_id(8) == "truth"@);
}

proof fn lemma_word_mutants_ops(
    tok: TokenV,
    src: Seq<u8>,
    ctx: TestCtx,
    prev: Option<(Seq<char>, bool)>,
    ops: Set<Seq<char>>,
)
    ensures
        ops_allowed(word_mutants(tok, src, ctx, prev, ops), ops),
{
    lemma_op_ids_known();
    let ms = word_mutants(tok, src, ctx, prev, ops);
    assert forall|k: int| 0 <= k < ms.len() implies op_allowed(ops, #[trigger] ms[k].op) by {
        let n = number_mutants(tok);
        let f = flag_mutants(tok, src);
        assert(forall|j: int| 0 <= j < n.len() ==> (#[trigger] n[j]).op == "number"@);
        assert(forall|j: int| 0 <= j < f.len() ==> (#[trigger] f[j]).op == "flag"@);
    }
}

proof fn lemma_gen_fold_ops(src: Seq<u8>, ops: Set<Seq<char>>, toks: Seq<TokenV>)
    ensures
        ops_allowed(gen_fold(src, ops, toks).out, ops),
    decreases toks.len(),
{
    if toks.len() > 0 {
        lemma_gen_fold_ops(src, ops, toks.drop_last());
        lemma_op_ids_known();
        let st = gen_fold(src, ops, toks.drop_last());
        let tok = toks.last();
        let out = gen_step(src, ops, st, tok).out;
        assert forall|k: int| 0 <= k < out.len() implies op_allowed(ops, #[trigger] out[k].op) by {
            if k >= st.out.len() {
                match tok.kind {
                    TokKind::Word => {
                        lemma_word_mutants_ops(tok, src, st.ctx, st.prev, ops);
                        assert(out[k] == word_mutants(tok, src, st.ctx, st.prev, ops)[k
                            - st.out.len()]);
                    },
                    TokKind::ArithNum => {
                        let n = number_mutants(tok);
                        assert(forall|j: int| 0 <= j < n.len() ==> (#[trigger] n[j]).op == "number"@);
                        assert(out[k] == n[k - st.out.len()]);
                    },
                    TokKind::ArithOp => {
                        let t = tok.text;
                        assert(arith_swap(t) matches Some((op, _)) ==> op == "arith"@ || op
                            == "compare"@);
                    },
                    _ => {},
                }
            } else {
                assert(out[k] == st.out[k]);
            }
        }
    }
}

pub(crate) proof fn lemma_kept_elements(ms: Seq<MutantV>, pr: Seq<(u32, Pragma)>)
    ensures
        forall|k: int|
            0 <= k < kept(ms, pr).len() ==> ms.contains(#[trigger] kept(ms, pr)[k])
                && !line_disabled(pr, kept(ms, pr)[k].line),
    decreases ms.len(),
{
    if ms.len() > 0 {
        lemma_kept_elements(ms.drop_last(), pr);
        let kd = kept(ms.drop_last(), pr);
        assert forall|k: int| 0 <= k < kept(ms, pr).len() implies ms.contains(
            #[trigger] kept(ms, pr)[k],
        ) && !line_disabled(pr, kept(ms, pr)[k].line) by {
            if k < kd.len() {
                assert(kept(ms, pr)[k] == kd[k]);
                let j = choose|j: int| 0 <= j < ms.drop_last().len() && ms.drop_last()[j] == kd[k];
                assert(ms[j] == kd[k]);
            } else {
                assert(kept(ms, pr)[k] == ms.last());
                assert(ms[ms.len() - 1] == ms.last());
            }
        }
    }
}

/// Every generated mutant carries an operator id that `ops` enables and
/// that [`OPERATORS`] documents.
pub proof fn lemma_generated_ops_enabled(src: Seq<u8>, ops: Set<Seq<char>>)
    ensures
        forall|k: int|
            0 <= k < generate_spec(src, ops).len() ==> ops.contains(
                (#[trigger] generate_spec(src, ops)[k]).op,
            ) && is_op_id(generate_spec(src, ops)[k].op),
{
    let r = scan_spec(src);
    let all = gen_fold(src, ops, r.tokens).out;
    lemma_gen_fold_ops(src, ops, r.tokens);
    lemma_kept_elements(all, r.pragmas);
    assert forall|k: int| 0 <= k < generate_spec(src, ops).len() implies ops.contains(
        (#[trigger] generate_spec(src, ops)[k]).op,
    ) && is_op_id(generate_spec(src, ops)[k].op) by {
        let m = generate_spec(src, ops)[k];
        assert(all.contains(m));
        let j = choose|j: int| 0 <= j < all.len() && all[j] == m;
        assert(op_allowed(ops, all[j].op));
    }
}

/// No generated mutant lies on a line that a `# mutash: skip` pragma, or
/// an `off` … `on` range (an unclosed `off` runs to the end), disables.
pub proof fn lemma_generated_lines_enabled(src: Seq<u8>, ops: Set<Seq<char>>)
    ensures
        forall|k: int|
            0 <= k < generate_spec(src, ops).len() ==> !line_disabled(
                scan_spec(src).pragmas,
                (#[trigger] generate_spec(src, ops)[k]).line,
            ),
{
    let r = scan_spec(src);
    lemma_kept_elements(gen_fold(src, ops, r.tokens).out, r.pragmas);
}

// ---------------------------------------------------------------------
// Selecting operators only filters the mutants.
// ---------------------------------------------------------------------

/// The mutants whose operator `ops` enables, in order.
pub open spec fn selected(ms: Seq<MutantV>, ops: Set<Seq<char>>) -> Seq<MutantV>
    decreases ms.len(),
{
    if ms.len() == 0 {
        Seq::empty()
    } else if ops.contains(ms.last().op) {
        selected(ms.drop_last(), ops).push(ms.last())
    } else {
        selected(ms.drop_last(), ops)
    }
}

proof fn lemma_selected_concat(a: Seq<MutantV>, b: Seq<MutantV>, ops: Set<Seq<char>>)
    ensures
        selected(a + b, ops) == selected(a, ops) + selected(b, ops),
    decreases b.len(),
{
    if b.len() == 0 {
        assert(a + b =~= a);
        assert(selected(a, ops) + selected(b, ops) =~= selected(a, ops));
    } else {
        assert((a + b).drop_last() =~= a + b.drop_last());
        assert((a + b).last() == b.last());
        lemma_selected_concat(a, b.drop_last(), ops);
        assert(selected(a, ops) + selected(b, ops) =~= if ops.contains(b.last().op) {
            (selected(a, ops) + selected(b.drop_last(), ops)).push(b.last())
        } else {
            selected(a, ops) + selected(b.drop_last(), ops)
        });
    }
}

/// Mutants that all carry operator `op` are kept whole or dropped whole.
proof fn lemma_selected_same_op(ms: Seq<MutantV>, op: Seq<char>, ops: Set<Seq<char>>)
    requires
        forall|k: int| 0 <= k < ms.len() ==> (#[trigger] ms[k]).op == op,
    ensures
        selected(ms, ops) == if ops.contains(op) { ms } else { Seq::empty() },
    decreases ms.len(),
{
    if ms.len() > 0 {
        assert(forall|k: int| 0 <= k < ms.drop_last().len() ==> ms.drop_last()[k] == ms[k]);
        lemma_selected_same_op(ms.drop_last(), op, ops);
        assert(ms[ms.len() - 1] == ms.last());
        assert(ms.drop_last().push(ms.last()) =~= ms);
    }
}

proof fn lemma_selected_kept(ms: Seq<MutantV>, ops: Set<Seq<char>>, pr: Seq<(u32, Pragma)>)
    ensures
        kept(selected(ms, ops), pr) == selected(kept(ms, pr), ops),
    decreases ms.len(),
{
    if ms.len() > 0 {
        let dl = ms.drop_last();
        let m = ms.last();
        lemma_selected_kept(dl, ops, pr);
        assert(selected(dl, ops).push(m).drop_last() =~= selected(dl, ops));
        assert(kept(dl, pr).push(m).drop_last() =~= kept(dl, pr));
    }
}

/// A digit-free ending makes a text no integer.
proof fn lemma_not_integer(t: Seq<char>)
    requires
        t.len() > 0,
        !is_digit_char(t.last()),
    ensures
        parse_i64(t) is None,
{
    let signed = t.len() > 0 && (t[0] == '-' || t[0] == '+');
    let body = if signed { t.drop_first() } else { t };
    if body.len() > 0 {
        assert(body[body.len() - 1] == t.last());
    }
}

/// The test-operator texts of the three kinds are distinct, and none is an
/// integer.
proof fn lemma_test_texts_disjoint(t: Seq<char>)
    ensures
        compare_swap(t) is Some ==> unary_swap(t) is None && t != "-a"@ && t != "-o"@ && parse_i64(
            t,
        ) is None,
        unary_swap(t) is Some ==> t != "-a"@ && t != "-o"@ && parse_i64(t) is None,
        t == "-a"@ || t == "-o"@ ==> parse_i64(t) is None,
{
    reveal_strlit("-eq");
    reveal_strlit("-ne");
    reveal_strlit("-lt");
    reveal_strlit("-le");
    reveal_strlit("-gt");
    reveal_strlit("-ge");
    reveal_strlit("=");
    reveal_strlit("==");
    reveal_strlit("!=");
    reveal_strlit("-z");
    reveal_strlit("-n");
    reveal_strlit("-f");
    reveal_strlit("-d");
    reveal_strlit("-e");
    reveal_strlit("-r");
    reveal_strlit("-w");
    reveal_strlit("-x");
    reveal_strlit("-s");
    reveal_strlit("-a");
    reveal_strlit("-o");
    if compare_swap(t) is Some || unary_swap(t) is Some || t == "-a"@ || t == "-o"@ {
        assert(t.len() > 0 && !is_digit_char(t.last()));
        lemma_not_integer(t);
    }
}

proof fn lemma_word_mutants_selected(
    tok: TokenV,
    src: Seq<u8>,
    ctx: TestCtx,
    prev: Option<(Seq<char>, bool)>,
    ops: Set<Seq<char>>,
)
    ensures
        word_mutants(tok, src, ctx, prev, ops) == selected(
            word_mutants(tok, src, ctx, prev, all_op_ids()),
            ops,
        ),
{
    lemma_op_ids_known();
    let all = all_op_ids();
    assert(all.contains("compare"@) && all.contains("unary"@) && all.contains("connective"@)
        && all.contains("number"@) && all.contains("exit"@) && all.contains("flag"@)
        && all.contains("negate"@) && all.contains("truth"@));
    lemma_test_texts_disjoint(tok.text);
    let n = number_mutants(tok);
    assert(forall|j: int| 0 <= j < n.len() ==> (#[trigger] n[j]).op == "number"@);
    lemma_selected_same_op(n, "number"@, ops);
    let f = flag_mutants(tok, src);
    assert(forall|j: int| 0 <= j < f.len() ==> (#[trigger] f[j]).op == "flag"@);
    lemma_selected_same_op(f, "flag"@, ops);
    let w = word_mutants(tok, src, ctx, prev, all);
    let text = tok.text;
    let in_test = ctx != TestCtx::Outside;
    if tok.tainted {
    } else if text == "!"@ && (tok.cmd_pos || in_test) {
        lemma_selected_same_op(w, "negate"@, ops);
    } else if tok.cmd_pos && (text == "true"@ || text == "false"@) {
        lemma_selected_same_op(w, "truth"@, ops);
    } else if in_test && compare_swap(text) is Some {
        lemma_selected_same_op(w, "compare"@, ops);
    } else if in_test && unary_swap(text) is Some {
        lemma_selected_same_op(w, "unary"@, ops);
    } else if ctx == TestCtx::Single && (text == "-a"@ || text == "-o"@) {
        lemma_selected_same_op(w, "connective"@, ops);
    } else if parse_i64(text) is Some {
        if prev matches Some((p, pc)) && pc && (p == "exit"@ || p == "return"@) {
            lemma_selected_same_op(w, "exit"@, ops);
        } else if in_test {
            lemma_selected_same_op(w, "number"@, ops);
        }
    } else if !in_test && !tok.cmd_pos {
        lemma_selected_same_op(w, "flag"@, ops);
    }
}

proof fn lemma_gen_fold_selected(src: Seq<u8>, ops: Set<Seq<char>>, toks: Seq<TokenV>)
    ensures
        gen_fold(src, ops, toks).ctx == gen_fold(src, all_op_ids(), toks).ctx,
        gen_fold(src, ops, toks).prev == gen_fold(src, all_op_ids(), toks).prev,
        gen_fold(src, ops, toks).out == selected(gen_fold(src, all_op_ids(), toks).out, ops),
    decreases toks.len(),
{
    if toks.len() > 0 {
        lemma_gen_fold_selected(src, ops, toks.drop_last());
        lemma_op_ids_known();
        let all = all_op_ids();
        let so = gen_fold(src, ops, toks.drop_last());
        let sa = gen_fold(src, all, toks.drop_last());
        let t = toks.last();
        let ra = gen_step(src, all, sa, t);
        let ro = gen_step(src, ops, so, t);
        let added = ra.out.subrange(sa.out.len() as int, ra.out.len() as int);
        assert(ra.out =~= sa.out + added);
        lemma_selected_concat(sa.out, added, ops);
        match t.kind {
            TokKind::Word => {
                lemma_word_mutants_selected(t, src, sa.ctx, sa.prev, ops);
                assert(added =~= word_mutants(t, src, sa.ctx, sa.prev, all));
            },
            TokKind::ArithNum => {
                let n = number_mutants(t);
                assert(forall|j: int| 0 <= j < n.len() ==> (#[trigger] n[j]).op == "number"@);
                lemma_selected_same_op(n, "number"@, ops);
                assert(added =~= n);
            },
            TokKind::ArithOp => {
                if let Some((op, to)) = arith_swap(t.text) {
                    assert(op == "arith"@ || op == "compare"@);
                    lemma_selected_same_op(added, op, ops);
                } else {
                    assert(added =~= Seq::<MutantV>::empty());
                }
            },
            TokKind::AndAnd | TokKind::OrOr => {
                lemma_selected_same_op(added, "connective"@, ops);
            },
            TokKind::Sep => {
                lemma_selected_same_op(added, "compare"@, ops);
            },
        }
        assert(ro.out =~= selected(ra.out, ops));
    }
}

/// Selecting operators only filters: the mutants generated with `ops` are
/// exactly those generated with every operator enabled whose operator
/// `ops` enables, unchanged and in the same order.
pub proof fn lemma_selection_filters(src: Seq<u8>, ops: Set<Seq<char>>)
    ensures
        generate_spec(src, ops) == selected(generate_spec(src, all_op_ids()), ops),
{
    let r = scan_spec(src);
    lemma_gen_fold_selected(src, ops, r.tokens);
    lemma_selected_kept(gen_fold(src, all_op_ids(), r.tokens).out, ops, r.pragmas);
}

// ---------------------------------------------------------------------
// Every mutant changes the script.
// ---------------------------------------------------------------------

/// Each test comparison operator has a partner: its compare mutant puts a
/// different operator in its place, that operator has a compare mutant
/// too, and swapping it gives the first operator back (`=` and `==` both
/// turn into `!=`, and `!=` into `==`).
pub proof fn lemma_compare_partners(t: Seq<char>)
    ensures
        compare_swap(t) is Some ==> compare_swap(t)->0 != t && compare_swap(compare_swap(t)->0) is Some,
        compare_swap(t) is Some && t != "="@ ==> compare_swap(compare_swap(t)->0) == Some(t),
{
    reveal_strlit("-eq");
    reveal_strlit("-ne");
    reveal_strlit("-lt");
    reveal_strlit("-le");
    reveal_strlit("-gt");
    reveal_strlit("-ge");
    reveal_strlit("=");
    reveal_strlit("==");
    reveal_strlit("!=");
    assert("-eq"@[0] == '-' && "-eq"@[1] == 'e' && "-eq"@[2] == 'q');
    assert("-ne"@[0] == '-' && "-ne"@[1] == 'n' && "-ne"@[2] == 'e');
    assert("-lt"@[0] == '-' && "-lt"@[1] == 'l' && "-lt"@[2] == 't');
    assert("-le"@[0] == '-' && "-le"@[1] == 'l' && "-le"@[2] == 'e');
    assert("-gt"@[0] == '-' && "-gt"@[1] == 'g' && "-gt"@[2] == 't');
    assert("-ge"@[0] == '-' && "-ge"@[1] == 'g' && "-ge"@[2] == 'e');
    assert("="@[0] == '=');
    assert("=="@[0] == '=' && "=="@[1] == '=');
    assert("!="@[0] == '!' && "!="@[1] == '=');
}

/// Each unary file or string test is swapped for a different test, which
/// has a swap of its own.
pub proof fn lemma_unary_partners(t: Seq<char>)
    ensures
        unary_swap(t) is Some ==> unary_swap(t)->0 != t && unary_swap(unary_swap(t)->0) is Some,
{
    reveal_strlit("-z");
    reveal_strlit("-n");
    reveal_strlit("-f");
    reveal_strlit("-d");
    reveal_strlit("-e");
    reveal_strlit("-r");
    reveal_strlit("-w");
    reveal_strlit("-x");
    reveal_strlit("-s");
    assert("-z"@[0] == '-' && "-z"@[1] == 'z');
    assert("-n"@[0] == '-' && "-n"@[1] == 'n');
    assert("-f"@[0] == '-' && "-f"@[1] == 'f');
    assert("-d"@[0] == '-' && "-d"@[1] == 'd');
    assert("-e"@[0] == '-' && "-e"@[1] == 'e');
    assert("-r"@[0] == '-' && "-r"@[1] == 'r');
    assert("-w"@[0] == '-' && "-w"@[1] == 'w');
    assert("-x"@[0] == '-' && "-x"@[1] == 'x');
    assert("-s"@[0] == '-' && "-s"@[1] == 's');
}

/// Each arithmetic operator is swapped for a different operator, which is
/// swapped in turn under the same operator id.
pub proof fn lemma_arith_partners(t: Seq<char>)
    ensures
        arith_swap(t) is Some ==> (arith_swap(t)->0).1 != t,
        arith_swap(t) is Some ==> arith_swap((arith_swap(t)->0).1) is Some,
        arith_swap(t) is Some ==> (arith_swap((arith_swap(t)->0).1)->0).0 == (arith_swap(t)->0).0,
{
    reveal_strlit("+");
    reveal_strlit("-");
    reveal_strlit("*");
    reveal_strlit("/");
    reveal_strlit("%");
    reveal_strlit("++");
    reveal_strlit("--");
    reveal_strlit("+=");
    reveal_strlit("-=");
    reveal_strlit("<");
    reveal_strlit("<=");
    reveal_strlit(">");
    reveal_strlit(">=");
    reveal_strlit("==");
    reveal_strlit("!=");
    assert("+"@.len() == 1 && "+"@[0] == '+');
    assert("-"@.len() == 1 && "-"@[0] == '-');
    assert("*"@.len() == 1 && "*"@[0] == '*');
    assert("/"@.len() == 1 && "/"@[0] == '/');
    assert("%"@.len() == 1 && "%"@[0] == '%');
    assert("++"@.len() == 2 && "++"@[0] == '+' && "++"@[1] == '+');
    assert("--"@.len() == 2 && "--"@[0] == '-' && "--"@[1] == '-');
    assert("+="@.len() == 2 && "+="@[0] == '+' && "+="@[1] == '=');
    assert("-="@.len() == 2 && "-="@[0] == '-' && "-="@[1] == '=');
    assert("<"@.len() == 1 && "<"@[0] == '<');
    assert("<="@.len() == 2 && "<="@[0] == '<' && "<="@[1] == '=');
    assert(">"@.len() == 1 && ">"@[0] == '>');
    assert(">="@.len() == 2 && ">="@[0] == '>' && ">="@[1] == '=');
    assert("=="@.len() == 2 && "=="@[0] == '=' && "=="@[1] == '=');
    assert("!="@.len() == 2 && "!="@[0] == '!' && "!="@[1] == '=');
}

spec fn all_change(ms: Seq<MutantV>) -> bool {
    forall|k: int| 0 <= k < ms.len() ==> (#[trigger] ms[k]).replacement != ms[k].original
}

proof fn lemma_number_mutants_change(tok: TokenV)
    ensures
        all_change(number_mutants(tok)),
{
    if let Some(n) = parse_i64(tok.text) {
        if n < i64::MAX {
            crate::text::lemma_parse_idec((n + 1) as i64);
        }
        if n > i64::MIN {
            crate::text::lemma_parse_idec((n - 1) as i64);
        }
        let ms = number_mutants(tok);
        assert forall|k: int| 0 <= k < ms.len() implies (#[trigger] ms[k]).replacement != ms[k].original by {
            if ms[k].replacement == idec(n + 1) {
                assert(parse_i64(ms[k].replacement) == Some((n + 1) as i64));
            } else {
                assert(ms[k].replacement == idec(n - 1));
                assert(parse_i64(ms[k].replacement) == Some((n - 1) as i64));
            }
        }
    }
}

proof fn lemma_word_mutants_change(
    tok: TokenV,
    src: Seq<u8>,
    ctx: TestCtx,
    prev: Option<(Seq<char>, bool)>,
    ops: Set<Seq<char>>,
)
    ensures
        all_change(word_mutants(tok, src, ctx, prev, ops)),
{
    reveal_strlit("!");
    reveal_strlit("true");
    reveal_strlit("false");
    reveal_strlit("-a");
    reveal_strlit("-o");
    reveal_strlit("0");
    reveal_strlit("1");
    let text = tok.text;
    lemma_compare_partners(text);
    lemma_unary_partners(text);
    lemma_number_mutants_change(tok);
    let ms = word_mutants(tok, src, ctx, prev, ops);
    crate::text::lemma_parse_idec(0);
    crate::text::lemma_parse_idec(1);
    assert(idec(0) == crate::text::dec(0));
    assert(idec(1) == crate::text::dec(1));
    assert(idec(0) =~= "0"@);
    assert(idec(1) =~= "1"@);
    let s = text;
    if s.len() > 0 {
        assert(s.drop_last().len() != s.len());
    }
    assert forall|k: int| 0 <= k < ms.len() implies (#[trigger] ms[k]).replacement != ms[k].original by {
        if s.len() > 0 {
            assert(s.drop_last() != s);
        }
    }
}

proof fn lemma_gen_fold_change(src: Seq<u8>, ops: Set<Seq<char>>, toks: Seq<TokenV>)
    requires
        forall|k: int|
            0 <= k < toks.len() ==> ((#[trigger] toks[k]).kind == TokKind::AndAnd ==> toks[k].text
                == seq!['&', '&']) && (toks[k].kind == TokKind::OrOr ==> toks[k].text == seq!['|', '|']),
    ensures
        all_change(gen_fold(src, ops, toks).out),
    decreases toks.len(),
{
    if toks.len() > 0 {
        let pre = toks.drop_last();
        assert forall|k: int| 0 <= k < pre.len() implies ((#[trigger] pre[k]).kind == TokKind::AndAnd
            ==> pre[k].text == seq!['&', '&']) && (pre[k].kind == TokKind::OrOr ==> pre[k].text
            == seq!['|', '|']) by {
            assert(pre[k] == toks[k]);
        }
        lemma_gen_fold_change(src, ops, pre);
        let st = gen_fold(src, ops, pre);
        let t = toks.last();
        assert(t == toks[toks.len() - 1]);
        reveal_strlit("<");
        reveal_strlit(">");
        reveal_strlit("&&");
        reveal_strlit("||");
        lemma_arith_partners(t.text);
        lemma_number_mutants_change(t);
        lemma_word_mutants_change(t, src, st.ctx, st.prev, ops);
        let out = gen_step(src, ops, st, t).out;
        assert forall|k: int| 0 <= k < out.len() implies (#[trigger] out[k]).replacement != out[k].original by {
            if k < st.out.len() {
                assert(out[k] == st.out[k]);
            } else if t.kind == TokKind::Word {
                assert(out[k] == word_mutants(t, src, st.ctx, st.prev, ops)[k - st.out.len()]);
            } else if t.kind == TokKind::ArithNum {
                assert(out[k] == number_mutants(t)[k - st.out.len()]);
            }
        }
    }
}

/// No mutant leaves the script as it was: every mutant of a script puts a
/// text in place of its original that differs from it.
pub proof fn lemma_generated_mutants_change_text(src: Seq<u8>, ops: Set<Seq<char>>)
    requires
        valid_utf8(src),
        newline_count(src) < u32::MAX,
    ensures
        forall|k: int|
            0 <= k < generate_spec(src, ops).len() ==> (#[trigger] generate_spec(src, ops)[k]).replacement
                != generate_spec(src, ops)[k].original,
{
    let r = scan_spec(src);
    crate::order::lemma_scan_token_positions(src);
    assert forall|k: int| 0 <= k < r.tokens.len() implies ((#[trigger] r.tokens[k]).kind
        == TokKind::AndAnd ==> r.tokens[k].text == seq!['&', '&']) && (r.tokens[k].kind == TokKind::OrOr
        ==> r.tokens[k].text == seq!['|', '|']) by {
        assert(crate::order::placed(src, r.tokens[k]));
    }
    lemma_gen_fold_change(src, ops, r.tokens);
    let ms = gen_fold(src, ops, r.tokens).out;
    lemma_kept_elements(ms, r.pragmas);
    let g = generate_spec(src, ops);
    assert forall|k: int| 0 <= k < g.len() implies (#[trigger] g[k]).replacement != g[k].original by {
        assert(ms.contains(g[k]));
    }
}

/// What a comparison operator of a test says of two values: integers for
/// the numeric operators, and for the string operators whether the two
/// strings are equal (here: whether two values are).
pub open spec fn test_holds(op: Seq<char>, a: int, b: int) -> Option<bool> {
    if op == "-eq"@ || op == "="@ || op == "=="@ {
        Some(a == b)
    } else if op == "-ne"@ || op == "!="@ {
        Some(a != b)
    } else if op == "-lt"@ {
        Some(a < b)
    } else if op == "-le"@ {
        Some(a <= b)
    } else if op == "-gt"@ {
        Some(a > b)
    } else if op == "-ge"@ {
        Some(a >= b)
    } else {
        None
    }
}

/// Exactly the comparison operators have a compare mutant, and each such
/// mutant either negates the test (the opposite answer on every pair of
/// values) or moves its boundary (the opposite answer on equal values and
/// the same answer on all others).
pub proof fn lemma_compare_mutant_meaning(t: Seq<char>)
    ensures
        compare_swap(t) is Some <==> test_holds(t, 0, 0) is Some,
        compare_swap(t) is Some ==> (forall|a: int, b: int|
            #[trigger] test_holds(compare_swap(t)->0, a, b) == Some(!(test_holds(t, a, b)->0)))
            || (forall|a: int, b: int|
            #[trigger] test_holds(compare_swap(t)->0, a, b) == Some(
                if a == b { !(test_holds(t, a, b)->0) } else { test_holds(t, a, b)->0 },
            )),
{
    reveal_strlit("-eq");
    reveal_strlit("-ne");
    reveal_strlit("-lt");
    reveal_strlit("-le");
    reveal_strlit("-gt");
    reveal_strlit("-ge");
    reveal_strlit("=");
    reveal_strlit("==");
    reveal_strlit("!=");
    assert("-eq"@.len() == 3 && "-eq"@[0] == '-' && "-eq"@[1] == 'e' && "-eq"@[2] == 'q');
    assert("-ne"@.len() == 3 && "-ne"@[0] == '-' && "-ne"@[1] == 'n' && "-ne"@[2] == 'e');
    assert("-lt"@.len() == 3 && "-lt"@[0] == '-' && "-lt"@[1] == 'l' && "-lt"@[2] == 't');
    assert("-le"@.len() == 3 && "-le"@[0] == '-' && "-le"@[1] == 'l' && "-le"@[2] == 'e');
    assert("-gt"@.len() == 3 && "-gt"@[0] == '-' && "-gt"@[1] == 'g' && "-gt"@[2] == 't');
    assert("-ge"@.len() == 3 && "-ge"@[0] == '-' && "-ge"@[1] == 'g' && "-ge"@[2] == 'e');
    assert("="@.len() == 1 && "="@[0] == '=');
    assert("=="@.len() == 2 && "=="@[0] == '=' && "=="@[1] == '=');
    assert("!="@.len() == 2 && "!="@[0] == '!' && "!="@[1] == '=');
}

// ---------------------------------------------------------------------
// The names of an operator list.
// ---------------------------------------------------------------------

/// A name as it stands in a list: not empty, without a comma, and neither
/// starting nor ending with white space.
pub open spec fn list_piece(x: Seq<char>) -> bool {
    &&& x.len() > 0
    &&& !is_white_space(x[0])
    &&& !is_white_space(x.last())
    &&& forall|k: int| 0 <= k < x.len() ==> #[trigger] x[k] != ','
}

proof fn lemma_find_byte_at(b: Seq<u8>, k: int, m: int, c: u8)
    requires
        0 <= k <= m <= b.len(),
        forall|j: int| k <= j < m ==> #[trigger] b[j] != c,
        m < b.len() ==> b[m] == c,
    ensures
        find_byte(b, k, c) == m,
    decreases m - k,
{
    if k < m {
        lemma_find_byte_at(b, k + 1, m, c);
    }
}

proof fn lemma_no_comma(x: Seq<char>)
    requires
        forall|k: int| 0 <= k < x.len() ==> #[trigger] x[k] != ',',
    ensures
        forall|j: int| 0 <= j < encode_utf8(x).len() ==> #[trigger] encode_utf8(x)[j] != ',' as u8,
{
    assert forall|k: int| 0 <= k < x.len() implies (#[trigger] x[k]) as u32 != (',' as u8) as u32 by {
        if x[k] as u32 == 44 {
            vstd::utf8::char_u32_cast(x[k], 44);
        }
    }
    crate::text::lemma_encode_without_ascii(x, ',' as u8);
}

proof fn lemma_padded_no_comma(p: Seq<char>, x: Seq<char>, q: Seq<char>)
    requires
        all_white(p),
        all_white(q),
        list_piece(x),
    ensures
        forall|k: int| 0 <= k < (p + x + q).len() ==> #[trigger] (p + x + q)[k] != ',',
{
    let t = p + x + q;
    assert forall|k: int| 0 <= k < t.len() implies #[trigger] t[k] != ',' by {
        if k < p.len() {
            assert(t[k] == p[k]);
            assert(is_white_space(p[k]));
        } else if k < p.len() + x.len() {
            assert(t[k] == x[k - p.len()]);
        } else {
            assert(t[k] == q[k - p.len() - x.len()]);
            assert(is_white_space(q[k - p.len() - x.len()]));
        }
    }
}

/// The names of a comma-separated list are its pieces with the white
/// space around them removed: the list `p1 x q1 , p2 y q2`, where the
/// `p`s and `q`s are white space, names `x` and then `y`.
pub proof fn lemma_list_names_trimmed(
    p1: Seq<char>,
    x: Seq<char>,
    q1: Seq<char>,
    p2: Seq<char>,
    y: Seq<char>,
    q2: Seq<char>,
)
    requires
        all_white(p1),
        all_white(q1),
        all_white(p2),
        all_white(q2),
        list_piece(x),
        list_piece(y),
    ensures
        list_names(encode_utf8(p1 + x + q1 + seq![','] + p2 + y + q2), 0) == seq![x, y],
{
    let l = p1 + x + q1;
    let r = p2 + y + q2;
    let comma = seq![','];
    assert(p1 + x + q1 + seq![','] + p2 + y + q2 =~= l + comma + r);
    crate::text::lemma_encode_concat(l, comma);
    crate::text::lemma_encode_concat(l + comma, r);
    let el = encode_utf8(l);
    let er = encode_utf8(r);
    let ec = encode_utf8(comma);
    assert(comma.drop_first() =~= Seq::<char>::empty());
    assert((44u32 & 0x7Fu32) as u8 == 44u8) by (bit_vector);
    assert(comma[0] as u32 == 44);
    assert(encode_utf8(comma.drop_first()) =~= Seq::<u8>::empty());
    assert(encode_scalar(44u32) =~= seq![44u8]);
    assert(ec =~= seq![44u8]);
    let b = el + ec + er;
    assert(encode_utf8(p1 + x + q1 + seq![','] + p2 + y + q2) == b);
    lemma_padded_no_comma(p1, x, q1);
    lemma_padded_no_comma(p2, y, q2);
    lemma_no_comma(l);
    lemma_no_comma(r);
    let m = el.len() as int;
    assert forall|j: int| 0 <= j < m implies #[trigger] b[j] != ',' as u8 by {
        assert(b[j] == el[j]);
    }
    assert(b[m] == ',' as u8);
    lemma_find_byte_at(b, 0, m, ',' as u8);
    assert forall|j: int| m + 1 <= j < b.len() implies #[trigger] b[j] != ',' as u8 by {
        assert(b[j] == er[j - m - 1]);
    }
    lemma_find_byte_at(b, m + 1, b.len() as int, ',' as u8);
    assert(b.subrange(0, m) =~= el);
    assert(b.subrange(m + 1, b.len() as int) =~= er);
    encode_utf8_decode_utf8(l);
    encode_utf8_decode_utf8(r);
    crate::text::lemma_trim_padded(p1, x, q1);
    crate::text::lemma_trim_padded(p2, y, q2);
    assert(list_names(b, m + 1) =~= seq![y]);
    assert(list_names(b, 0) =~= seq![x, y]);
}

/// Pieces joined by commas.
pub open spec fn joined(ps: Seq<Seq<char>>) -> Seq<char>
    decreases ps.len(),
{
    if ps.len() == 0 {
        Seq::empty()
    } else if ps.len() == 1 {
        ps[0]
    } else {
        ps[0] + seq![','] + joined(ps.drop_first())
    }
}

/// Each piece without the white space around it, blank pieces left out.
pub open spec fn trimmed_names(ps: Seq<Seq<char>>) -> Seq<Seq<char>>
    decreases ps.len(),
{
    if ps.len() == 0 {
        Seq::empty()
    } else {
        let n = trim_chars(ps[0]);
        (if n.len() == 0 { Seq::empty() } else { seq![n] }) + trimmed_names(ps.drop_first())
    }
}

proof fn lemma_list_names_from(pre: Seq<u8>, ps: Seq<Seq<char>>)
    requires
        forall|i: int, k: int| 0 <= i < ps.len() && 0 <= k < ps[i].len() ==> #[trigger] ps[i][k] != ',',
    ensures
        list_names(pre + encode_utf8(joined(ps)), pre.len() as int) == trimmed_names(ps),
    decreases ps.len(),
{
    let k = pre.len() as int;
    if ps.len() == 0 {
        assert(encode_utf8(Seq::<char>::empty()) =~= Seq::<u8>::empty());
        let b = pre + encode_utf8(joined(ps));
        assert(b =~= pre);
        assert(b.subrange(k, k) =~= Seq::<u8>::empty());
        assert(decode_utf8(Seq::<u8>::empty()) =~= Seq::<char>::empty());
        assert(trim_chars(Seq::<char>::empty()) =~= Seq::<char>::empty());
    } else {
        let p0 = ps[0];
        assert forall|j: int| 0 <= j < p0.len() implies #[trigger] p0[j] != ',' by {
            assert(ps[0][j] != ',');
        }
        lemma_no_comma(p0);
        let e0 = encode_utf8(p0);
        let n = trim_chars(p0);
        let head = if n.len() == 0 { Seq::<Seq<char>>::empty() } else { seq![n] };
        encode_utf8_decode_utf8(p0);
        if ps.len() == 1 {
            let b = pre + e0;
            assert(encode_utf8(joined(ps)) == e0);
            assert forall|j: int| k <= j < b.len() implies #[trigger] b[j] != ',' as u8 by {
                assert(b[j] == e0[j - k]);
            }
            lemma_find_byte_at(b, k, b.len() as int, ',' as u8);
            assert(b.subrange(k, b.len() as int) =~= e0);
            assert(ps.drop_first() =~= Seq::<Seq<char>>::empty());
            assert(trimmed_names(ps.drop_first()) == Seq::<Seq<char>>::empty());
            assert(trimmed_names(ps) =~= head);
            assert(list_names(b, k) =~= head);
        } else {
            let rest = ps.drop_first();
            assert forall|i: int, j: int| 0 <= i < rest.len() && 0 <= j < rest[i].len() implies #[trigger] rest[i][j]
                != ',' by {
                assert(rest[i] == ps[i + 1]);
            }
            let comma = seq![','];
            crate::text::lemma_encode_concat(p0, comma);
            crate::text::lemma_encode_concat(p0 + comma, joined(rest));
            assert((44u32 & 0x7Fu32) as u8 == 44u8) by (bit_vector);
            assert(comma[0] as u32 == 44);
            assert(encode_utf8(comma.drop_first()) =~= Seq::<u8>::empty());
            assert(encode_scalar(44u32) =~= seq![44u8]);
            assert(encode_utf8(comma) =~= seq![44u8]);
            let er = encode_utf8(joined(rest));
            let pre2 = pre + e0 + seq![44u8];
            let b = pre + encode_utf8(joined(ps));
            assert(b =~= pre2 + er);
            let m = k + e0.len();
            assert forall|j: int| k <= j < m implies #[trigger] b[j] != ',' as u8 by {
                assert(b[j] == e0[j - k]);
            }
            assert(b[m] == ',' as u8);
            lemma_find_byte_at(b, k, m, ',' as u8);
            assert(b.subrange(k, m) =~= e0);
            lemma_list_names_from(pre2, rest);
            assert(pre2.len() == m + 1);
            assert(list_names(b, k) == head + list_names(b, m + 1));
        }
    }
}

/// The names of a comma-separated list are its pieces, each without the
/// white space around it, blank pieces left out: `str::split` on commas,
/// then `str::trim`, then dropping what is empty.
pub proof fn lemma_list_names_pieces(ps: Seq<Seq<char>>)
    requires
        forall|i: int, k: int| 0 <= i < ps.len() && 0 <= k < ps[i].len() ==> #[trigger] ps[i][k] != ',',
    ensures
        list_names(encode_utf8(joined(ps)), 0) == trimmed_names(ps),
{
    lemma_list_names_from(Seq::empty(), ps);
    assert(Seq::<u8>::empty() + encode_utf8(joined(ps)) =~= encode_utf8(joined(ps)));
}

/// Every operator id can stand as a name in a list.
proof fn lemma_op_ids_pieces()
    ensures
        forall|id: Seq<char>| is_op_id(id) ==> list_piece(id),
{
    reveal_strlit("compare");
    reveal_strlit("unary");
    reveal_strlit("connective");
    reveal_strlit("arith");
    reveal_strlit("number");
    reveal_strlit("exit");
    reveal_strlit("flag");
    reveal_strlit("negate");
    reveal_strlit("truth");
    assert("compare"@ =~= seq!['c', 'o', 'm', 'p', 'a', 'r', 'e']);
    assert("unary"@ =~= seq!['u', 'n', 'a', 'r', 'y']);
    assert("connective"@ =~= seq!['c', 'o', 'n', 'n', 'e', 'c', 't', 'i', 'v', 'e']);
    assert("arith"@ =~= seq!['a', 'r', 'i', 't', 'h']);
    assert("number"@ =~= seq!['n', 'u', 'm', 'b', 'e', 'r']);
    assert("exit"@ =~= seq!['e', 'x', 'i', 't']);
    assert("flag"@ =~= seq!['f', 'l', 'a', 'g']);
    assert("negate"@ =~= seq!['n', 'e', 'g', 'a', 't', 'e']);
    assert("truth"@ =~= seq!['t', 'r', 'u', 't', 'h']);
    assert forall|id: Seq<char>| is_op_id(id) implies list_piece(id) by {
        let i = choose|i: int| 0 <= i < 9 && op_id(i) == id;
        assert(forall|k: int| 0 <= k < id.len() ==> 'a' <= #[trigger] id[k] <= 'z');
    }
}

/// Selecting operators by a list of two known ids, with any white space
/// around each, names exactly those two: `only` then enables them and
/// nothing else, and `skip` every operator but them.
pub proof fn lemma_split_two_ids(
    p1: Seq<char>,
    a: Seq<char>,
    q1: Seq<char>,
    p2: Seq<char>,
    b: Seq<char>,
    q2: Seq<char>,
)
    requires
        all_white(p1),
        all_white(q1),
        all_white(p2),
        all_white(q2),
        is_op_id(a),
        is_op_id(b),
    ensures
        split_spec(encode_utf8(p1 + a + q1 + seq![','] + p2 + b + q2)) == Ok::<Seq<Seq<char>>, Seq<char>>(
            seq![a, b],
        ),
        seq![a, b].to_set() == set![a, b],
{
    lemma_op_ids_pieces();
    lemma_list_names_trimmed(p1, a, q1, p2, b, q2);
    let names = seq![a, b];
    assert(names.drop_first() =~= seq![b]);
    assert(names.drop_first().drop_first() =~= Seq::<Seq<char>>::empty());
    assert(first_unknown(names.drop_first().drop_first()) is None);
    assert(names.drop_first()[0] == b);
    assert(first_unknown(names.drop_first()) is None);
    assert(names[0] == a);
    assert(first_unknown(names) is None);
    assert(names.to_set() =~= set![a, b]) by {
        assert(names[0] == a && names[1] == b);
    }
}

} // verus!
