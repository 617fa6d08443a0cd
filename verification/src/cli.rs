//! Command-line interface: argument parsing, command selection, and the
//! text the commands print.
//!
//! Hand-rolled on purpose: the surface is three commands with a handful of
//! flags. Reading files, running the suite and printing are the program's
//! own business; everything here is a function from values to values.

use vstd::prelude::*;
use vstd::string::StrSliceExecFns;
use vstd::utf8::*;
use crate::lexer::newline_count;
use crate::mutant::{Mutant, MutantV, excerpt_of, applies_to};
use crate::mutators::{OpSet, OPERATORS, split_spec, all_op_ids, generate, generate_spec, mutants_view};
use crate::report::{find_source, source_of};
use crate::runner::{FilePlan, plan_mutants, fits};
use crate::text::{dec, push_char, push_dec, push_str, string_of, str_eq};
use crate::VERSION;

verus! {

/// The help text.
pub const USAGE: &'static str = "\
mutash — mutation testing for shell scripts

USAGE:
  mutash <COMMAND> [OPTIONS] <script>...

COMMANDS:
  run <script>...    Mutate the scripts, run the test command against every
                     mutant, list survivors and grade the suite
  list <script>...   Show the mutants that would be generated (nothing runs)
  ops                Print the mutation operator reference

OPTIONS (run):
  --tests <CMD>      Test command run per mutant via `sh -c` [default: bats tests]
  --root <DIR>       Project root copied into the sandbox [default: .]
  --timeout <SECS>   Per-mutant timeout [default: 3x baseline + 2s]
  --min-score <PCT>  Exit 1 when the mutation score falls below this

OPTIONS (run, list):
  --only <OPS>       Comma-separated operator ids to enable exclusively
  --skip <OPS>       Comma-separated operator ids to disable
  --json             Machine-readable report on stdout (progress suppressed)

GLOBAL:
  -h, --help         Print this help
  -V, --version      Print version

EXIT CODES:
  0  success (score met)   1  score below --min-score   2  usage or setup error
";

/// `1 mutant`, `2 mutants`: a count with a correctly pluralized noun.
pub open spec fn counted_text(n: nat, noun: Seq<char>) -> Seq<char> {
    if n == 1 {
        "1 "@ + noun
    } else {
        dec(n) + " "@ + noun + "s"@
    }
}

/// `1 mutant`, `2 mutants`: a count with a correctly pluralized noun.
pub fn counted(n: usize, noun: &str) -> (r: String)
    ensures
        r@ == counted_text(n as nat, noun@),
{
    let mut r = String::new();
    if n == 1 {
        push_str(&mut r, "1 ");
        push_str(&mut r, noun);
    } else {
        push_dec(&mut r, n as u128);
        push_str(&mut r, " ");
        push_str(&mut r, noun);
        push_str(&mut r, "s");
    }
    r
}

// ---------------------------------------------------------------------
// Options of `run` and `list`.
// ---------------------------------------------------------------------

/// How an argument reads as a number. Deciding this takes floating point,
/// so the caller classifies every argument before parsing.
#[derive(Debug, Clone, Copy, PartialEq, Eq, Structural)]
pub enum NumArg {
    /// Not a number.
    Unparsable,
    /// A number: whether it is above zero, and whether it lies in `0..=100`.
    Number { positive: bool, percent: bool },
}

/// Options shared by `run` and `list`.
#[derive(Debug)]
pub struct Common {
    pub scripts: Vec<String>,
    pub ops: OpSet,
    pub json: bool,
}

/// The run-only options. Numbers are kept as given, once validated.
#[derive(Debug)]
pub struct RunOpts {
    pub tests: String,
    pub root: String,
    /// Seconds, a positive number.
    pub timeout: Option<String>,
    /// Percent, a number in `0..=100`.
    pub min_score: Option<String>,
}

/// What the arguments have set so far.
pub struct ParseState {
    pub scripts: Seq<Seq<char>>,
    pub only: Option<Seq<char>>,
    pub skip: Option<Seq<char>>,
    pub json: bool,
    pub tests: Seq<char>,
    pub root: Seq<char>,
    pub timeout: Option<Seq<char>>,
    pub min_score: Option<Seq<char>>,
}

/// The defaults, before any argument.
pub open spec fn parse_start() -> ParseState {
    ParseState {
        scripts: Seq::empty(),
        only: None,
        skip: None,
        json: false,
        tests: "bats tests"@,
        root: "."@,
        timeout: None,
        min_score: None,
    }
}

/// `name` is among the allowed run-only options.
pub open spec fn allowed(allow: Seq<&str>, name: Seq<char>) -> bool {
    exists|k: int| 0 <= k < allow.len() && (#[trigger] allow[k])@ == name
}

/// The options that only `mutash run` takes.
pub open spec fn run_only(a: Seq<char>) -> bool {
    a == "--tests"@ || a == "--root"@ || a == "--timeout"@ || a == "--min-score"@
}

/// Read the arguments from index `i` on, starting from state `st`: the
/// final state, or the error for the first bad argument.
pub open spec fn parse_args(
    args: Seq<String>,
    allow: Seq<&str>,
    nums: Seq<NumArg>,
    i: int,
    st: ParseState,
) -> Result<ParseState, Seq<char>>
    decreases args.len() - i,
{
    if i < 0 || i >= args.len() {
        Ok(st)
    } else {
        let a = args[i]@;
        let has_value = i + 1 < args.len();
        let v = if has_value { args[i + 1]@ } else { Seq::empty() };
        if a == "--only"@ {
            if has_value {
                parse_args(args, allow, nums, i + 2, ParseState { only: Some(v), ..st })
            } else {
                Err("--only needs a value"@)
            }
        } else if a == "--skip"@ {
            if has_value {
                parse_args(args, allow, nums, i + 2, ParseState { skip: Some(v), ..st })
            } else {
                Err("--skip needs a value"@)
            }
        } else if a == "--json"@ {
            parse_args(args, allow, nums, i + 1, ParseState { json: true, ..st })
        } else if a == "--tests"@ && allowed(allow, a) {
            if has_value {
                parse_args(args, allow, nums, i + 2, ParseState { tests: v, ..st })
            } else {
                Err("--tests needs a value"@)
            }
        } else if a == "--root"@ && allowed(allow, a) {
            if has_value {
                parse_args(args, allow, nums, i + 2, ParseState { root: v, ..st })
            } else {
                Err("--root needs a value"@)
            }
        } else if a == "--timeout"@ && allowed(allow, a) {
            if !has_value {
                Err("--timeout needs a value"@)
            } else {
                match nums[i + 1] {
                    NumArg::Unparsable => Err("--timeout expects seconds (e.g. 30 or 2.5)"@),
                    NumArg::Number { positive, .. } => if positive {
                        parse_args(args, allow, nums, i + 2, ParseState { timeout: Some(v), ..st })
                    } else {
                        Err("--timeout must be positive"@)
                    },
                }
            }
        } else if a == "--min-score"@ && allowed(allow, a) {
            if !has_value {
                Err("--min-score needs a value"@)
            } else {
                match nums[i + 1] {
                    NumArg::Unparsable => Err("--min-score expects a percentage (0-100)"@),
                    NumArg::Number { percent, .. } => if percent {
                        parse_args(
                            args,
                            allow,
                            nums,
                            i + 2,
                            ParseState { min_score: Some(v), ..st },
                        )
                    } else {
                        Err("--min-score must be between 0 and 100"@)
                    },
                }
            }
        } else if a.len() > 0 && a[0] == '-' {
            if run_only(a) {
                Err(a + " only applies to `mutash run`"@)
            } else {
                Err("unknown option `"@ + a + "`"@)
            }
        } else {
            parse_args(args, allow, nums, i + 1, ParseState { scripts: st.scripts.push(a), ..st })
        }
    }
}

/// The operators that `--only` / `--skip` select, or the error for an
/// unknown operator name.
pub open spec fn selection(only: Option<Seq<char>>, skip: Option<Seq<char>>) -> Result<
    Set<Seq<char>>,
    Seq<char>,
> {
    match only {
        Some(o) => match split_spec(encode_utf8(o)) {
            Ok(names) => Ok(names.to_set()),
            Err(e) => Err(e),
        },
        None => match skip {
            Some(s) => match split_spec(encode_utf8(s)) {
                Ok(names) => Ok(all_op_ids().difference(names.to_set())),
                Err(e) => Err(e),
            },
            None => Ok(all_op_ids()),
        },
    }
}

/// What parsing the arguments of `run` or `list` yields: the state after
/// every argument, or the first error.
pub open spec fn parse_spec(args: Seq<String>, allow: Seq<&str>, nums: Seq<NumArg>) -> Result<
    ParseState,
    Seq<char>,
> {
    match parse_args(args, allow, nums, 0, parse_start()) {
        Err(e) => Err(e),
        Ok(st) => if st.scripts.len() == 0 {
            Err("no script given"@)
        } else if st.only is Some && st.skip is Some {
            Err("--only and --skip are mutually exclusive"@)
        } else {
            match selection(st.only, st.skip) {
                Err(e) => Err(e),
                Ok(_) => Ok(st),
            }
        },
    }
}

pub open spec fn opt_view(o: Option<String>) -> Option<Seq<char>> {
    match o {
        Some(s) => Some(s@),
        None => None,
    }
}

pub open spec fn strings_view(v: Seq<String>) -> Seq<Seq<char>> {
    v.map_values(|s: String| s@)
}

/// The parsed options hold exactly what state `st` says.
pub open spec fn parsed_as(c: Common, o: RunOpts, st: ParseState) -> bool {
    &&& strings_view(c.scripts@) == st.scripts
    &&& c.json == st.json
    &&& selection(st.only, st.skip) == Ok::<Set<Seq<char>>, Seq<char>>(c.ops@)
    &&& o.tests@ == st.tests
    &&& o.root@ == st.root
    &&& opt_view(o.timeout) == st.timeout
    &&& opt_view(o.min_score) == st.min_score
}

pub open spec fn state_of(
    scripts: Seq<String>,
    only: Option<String>,
    skip: Option<String>,
    json: bool,
    tests: String,
    root: String,
    timeout: Option<String>,
    min_score: Option<String>,
) -> ParseState {
    ParseState {
        scripts: strings_view(scripts),
        only: opt_view(only),
        skip: opt_view(skip),
        json,
        tests: tests@,
        root: root@,
        timeout: opt_view(timeout),
        min_score: opt_view(min_score),
    }
}

fn allows(allow: &[&str], name: &str) -> (r: bool)
    ensures
        r == allowed(allow@, name@),
{
    let mut k: usize = 0;
    while k < allow.len()
        invariant
            k <= allow@.len(),
            forall|j: int| 0 <= j < k ==> (#[trigger] allow@[j])@ != name@,
        decreases allow@.len() - k,
    {
        if str_eq(allow[k], name) {
            return true;
        }
        k = k + 1;
    }
    false
}

fn starts_with_dash(a: &str) -> (r: bool)
    ensures
        r == (a@.len() > 0 && a@[0] == '-'),
{
    broadcast use vstd::string::group_string_axioms;
    if a.is_empty() {
        false
    } else {
        a.get_char(0) == '-'
    }
}

/// Parse the arguments of `run` or `list`. `allow` names the run-only
/// options that are accepted; `nums[i]` says how `args[i]` reads as a
/// number.
pub fn parse_common(args: &[String], allow: &[&str], nums: &[NumArg]) -> (r: Result<
    (Common, RunOpts),
    String,
>)
    requires
        nums@.len() == args@.len(),
    ensures
        match r {
            Ok((c, o)) => parse_spec(args@, allow@, nums@) matches Ok(st) && parsed_as(c, o, st),
            Err(e) => parse_spec(args@, allow@, nums@) == Err::<ParseState, Seq<char>>(e@),
        },
{
    let mut scripts: Vec<String> = Vec::new();
    let mut only: Option<String> = None;
    let mut skip: Option<String> = None;
    let mut json = false;
    let mut tests = string_of("bats tests");
    let mut root = string_of(".");
    let mut timeout: Option<String> = None;
    let mut min_score: Option<String> = None;
    let n = args.len();
    let mut i: usize = 0;
    proof {
        assert(strings_view(scripts@) =~= Seq::<Seq<char>>::empty());
    }
    while i < n
        invariant
            i <= n,
            n == args@.len(),
            nums@.len() == n,
            parse_args(args@, allow@, nums@, 0, parse_start()) == parse_args(
                args@,
                allow@,
                nums@,
                i as int,
                state_of(scripts@, only, skip, json, tests, root, timeout, min_score),
            ),
        decreases n - i,
    {
        let arg = args[i].as_str();
        let has_value = i + 1 < n;
        if str_eq(arg, "--only") {
            if !has_value {
                return Err(string_of("--only needs a value"));
            }
            only = Some(args[i + 1].clone());
            i = i + 2;
        } else if str_eq(arg, "--skip") {
            if !has_value {
                return Err(string_of("--skip needs a value"));
            }
            skip = Some(args[i + 1].clone());
            i = i + 2;
        } else if str_eq(arg, "--json") {
            json = true;
            i = i + 1;
        } else if str_eq(arg, "--tests") && allows(allow, arg) {
            if !has_value {
                return Err(string_of("--tests needs a value"));
            }
            tests = args[i + 1].clone();
            i = i + 2;
        } else if str_eq(arg, "--root") && allows(allow, arg) {
            if !has_value {
                return Err(string_of("--root needs a value"));
            }
            root = args[i + 1].clone();
            i = i + 2;
        } else if str_eq(arg, "--timeout") && allows(allow, arg) {
            if !has_value {
                return Err(string_of("--timeout needs a value"));
            }
            match nums[i + 1] {
                NumArg::Unparsable => {
                    return Err(string_of("--timeout expects seconds (e.g. 30 or 2.5)"));
                },
                NumArg::Number { positive, .. } => {
                    if !positive {
                        return Err(string_of("--timeout must be positive"));
                    }
                },
            }
            timeout = Some(args[i + 1].clone());
            i = i + 2;
        } else if str_eq(arg, "--min-score") && allows(allow, arg) {
            if !has_value {
                return Err(string_of("--min-score needs a value"));
            }
            match nums[i + 1] {
                NumArg::Unparsable => {
                    return Err(string_of("--min-score expects a percentage (0-100)"));
                },
                NumArg::Number { percent, .. } => {
                    if !percent {
                        return Err(string_of("--min-score must be between 0 and 100"));
                    }
                },
            }
            min_score = Some(args[i + 1].clone());
            i = i + 2;
        } else if starts_with_dash(arg) {
            let mut e = String::new();
            if str_eq(arg, "--tests") || str_eq(arg, "--root") || str_eq(arg, "--timeout")
                || str_eq(arg, "--min-score") {
                push_str(&mut e, arg);
                push_str(&mut e, " only applies to `mutash run`");
            } else {
                push_str(&mut e, "unknown option `");
                push_str(&mut e, arg);
                push_str(&mut e, "`");
            }
            return Err(e);
        } else {
            let ghost before = scripts@;
            scripts.push(args[i].clone());
            proof {
                assert(strings_view(scripts@) =~= strings_view(before).push(args@[i as int]@));
            }
            i = i + 1;
        }
    }
    if scripts.len() == 0 {
        return Err(string_of("no script given"));
    }
    if only.is_some() && skip.is_some() {
        return Err(string_of("--only and --skip are mutually exclusive"));
    }
    let ops = if let Some(o) = &only {
        match OpSet::only(o.as_str()) {
            Ok(s) => s,
            Err(e) => {
                return Err(e);
            },
        }
    } else if let Some(s) = &skip {
        match OpSet::skip(s.as_str()) {
            Ok(s) => s,
            Err(e) => {
                return Err(e);
            },
        }
    } else {
        OpSet::all()
    };
    let common = Common { scripts, ops, json };
    // The run-only knobs; `list` ignores them.
    let run = RunOpts { tests, root, timeout, min_score };
    Ok((common, run))
}

// ---------------------------------------------------------------------
// Numbering the mutants of a run.
// ---------------------------------------------------------------------

/// Mutant ids count on from 1 across all scripts (wrapping past the
/// largest `usize`, a count no run reaches).
pub open spec fn wrap_id(k: int) -> int {
    k % (usize::MAX as int + 1)
}

/// The mutants generated for each script, with `ops` enabled.
pub open spec fn generated(sources: Seq<(String, String)>, ops: Set<Seq<char>>) -> Seq<Seq<MutantV>> {
    sources.map_values(|p: (String, String)| generate_spec(encode_utf8(p.1@), ops))
}

/// The total length of the first `j` lists.
pub open spec fn count_before(per: Seq<Seq<MutantV>>, j: int) -> nat
    decreases j,
{
    if j <= 0 || per.len() == 0 {
        0
    } else {
        count_before(per, j - 1) + per[j - 1].len()
    }
}

/// Mutant `i` of script `j` as planned: named after the script, with its
/// id in the run-wide numbering.
pub open spec fn numbered(per: Seq<Seq<MutantV>>, j: int, i: int, name: Seq<char>) -> MutantV {
    MutantV { id: wrap_id(count_before(per, j) as int + i + 1), file: name, ..per[j][i] }
}

/// Every script can be scanned: its line count fits the line counter.
pub open spec fn scannable(sources: Seq<(String, String)>) -> bool {
    forall|j: int| 0 <= j < sources.len() ==> newline_count(encode_utf8(#[trigger] sources[j].1@))
        < u32::MAX
}

/// One file plan per script (name and source text), holding the script's
/// mutants for `ops`, named after the script and numbered from 1 across
/// all scripts in order.
pub fn plan_files(sources: &[(String, String)], ops: &OpSet) -> (r: Vec<FilePlan>)
    requires
        scannable(sources@),
    ensures
        r@.len() == sources@.len(),
        forall|j: int|
            0 <= j < r@.len() ==> {
                let per = generated(sources@, ops@);
                &&& (#[trigger] r@[j]).rel@ == sources@[j].0@
                &&& r@[j].source@ == sources@[j].1@
                &&& r@[j].mutants@.len() == per[j].len()
                &&& forall|i: int|
                    0 <= i < per[j].len() ==> (#[trigger] r@[j].mutants@[i])@ == numbered(
                        per,
                        j,
                        i,
                        sources@[j].0@,
                    )
            },
        forall|j: int, i: int|
            0 <= j < r@.len() && 0 <= i < r@[j].mutants@.len() ==> fits(
                #[trigger] r@[j].mutants@[i],
                r@[j].source@,
            ),
{
    let ghost per = generated(sources@, ops@);
    let mut files: Vec<FilePlan> = Vec::new();
    let mut next_id: usize = 1;
    let mut j: usize = 0;
    proof {
        vstd::arithmetic::div_mod::lemma_small_mod(1, usize::MAX as nat + 1);
    }
    while j < sources.len()
        invariant
            j <= sources@.len(),
            per == generated(sources@, ops@),
            scannable(sources@),
            files@.len() == j,
            next_id as int == wrap_id(count_before(per, j as int) as int + 1),
            forall|k: int|
                0 <= k < j ==> {
                    &&& (#[trigger] files@[k]).rel@ == sources@[k].0@
                    &&& files@[k].source@ == sources@[k].1@
                    &&& files@[k].mutants@.len() == per[k].len()
                    &&& forall|i: int|
                        0 <= i < per[k].len() ==> (#[trigger] files@[k].mutants@[i])@ == numbered(
                            per,
                            k,
                            i,
                            sources@[k].0@,
                        )
                },
            forall|k: int, i: int|
                0 <= k < j && 0 <= i < files@[k].mutants@.len() ==> fits(
                    #[trigger] files@[k].mutants@[i],
                    files@[k].source@,
                ),
        decreases sources@.len() - j,
    {
        let name = &sources[j].0;
        let src = &sources[j].1;
        proof {
            assert(newline_count(encode_utf8(sources@[j as int].1@)) < u32::MAX);
        }
        let made = generate(src.as_str(), ops);
        proof {
            assert(per[j as int] == mutants_view(made@));
        }
        let mut mutants: Vec<Mutant> = Vec::new();
        let mut i: usize = 0;
        while i < made.len()
            invariant
                i <= made@.len(),
                per == generated(sources@, ops@),
                j < sources@.len(),
                per[j as int] == mutants_view(made@),
                name@ == sources@[j as int].0@,
                mutants@.len() == i,
                next_id as int == wrap_id(count_before(per, j as int) as int + i + 1),
                forall|k: int|
                    0 <= k < i ==> (#[trigger] mutants@[k])@ == numbered(per, j as int, k, name@),
                forall|k: int| 0 <= k < made@.len() ==> applies_to(#[trigger] made@[k]@, encode_utf8(src@)),
                forall|k: int| 0 <= k < i ==> fits(#[trigger] mutants@[k], src@),
            decreases made@.len() - i,
        {
            let m = &made[i];
            let planned = Mutant {
                id: next_id,
                file: name.clone(),
                op: m.op,
                line: m.line,
                col: m.col,
                offset: m.offset,
                len: m.len,
                original: m.original.clone(),
                replacement: m.replacement.clone(),
                descr: m.descr.clone(),
            };
            proof {
                assert(per[j as int][i as int] == made@[i as int]@);
                assert(planned@ == numbered(per, j as int, i as int, name@));
                assert(applies_to(made@[i as int]@, encode_utf8(src@)));
            }
            mutants.push(planned);
            next_id = if next_id == usize::MAX {
                0
            } else {
                next_id + 1
            };
            proof {
                assert(next_id as int == wrap_id(count_before(per, j as int) as int + i + 2)) by {
                    let c = count_before(per, j as int) as int + i + 1;
                    assert(c >= 0);
                    assert(next_id as int == (c % (usize::MAX as int + 1) + 1) % (usize::MAX as int + 1)) by (nonlinear_arith)
                        requires
                            c >= 0,
                            next_id as int == if c % (usize::MAX as int + 1) == usize::MAX as int { 0 } else { c % (usize::MAX as int + 1) + 1 },
                    {}
                    vstd::arithmetic::div_mod::lemma_add_mod_noop(c, 1, usize::MAX as int + 1);
                }
            }
            i = i + 1;
        }
        let ghost pushed_mutants = mutants@;
        files.push(FilePlan { rel: name.clone(), source: src.clone(), mutants });
        proof {
            assert(files@[j as int].mutants@ == pushed_mutants);
            assert(count_before(per, j + 1) == count_before(per, j as int) + per[j as int].len());
        }
        j = j + 1;
    }
    files
}

// ---------------------------------------------------------------------
// Text of `mutash list`, `mutash ops` and the head of `mutash run`.
// ---------------------------------------------------------------------

/// `s` padded with spaces on the right to at least `w` characters.
pub open spec fn pad_right(s: Seq<char>, w: nat) -> Seq<char> {
    if s.len() < w {
        s + Seq::new((w - s.len()) as nat, |i: int| ' ')
    } else {
        s
    }
}

fn push_padded(out: &mut String, s: &str, w: usize)
    ensures
        final(out)@ == old(out)@ + pad_right(s@, w as nat),
{
    let ghost o = out@;
    push_str(out, s);
    let l = s.unicode_len();
    let mut k = l;
    while k < w
        invariant
            l == s@.len(),
            l <= k <= w || (w < l && k == l),
            out@ == o + s@ + Seq::new((k - l) as nat, |i: int| ' '),
        decreases w - k,
    {
        push_char(out, ' ');
        k = k + 1;
        assert(out@ =~= o + s@ + Seq::new((k - l) as nat, |i: int| ' '));
    }
    assert(out@ =~= o + pad_right(s@, w as nat));
}

fn push_padded_dec(out: &mut String, n: usize, w: usize)
    ensures
        final(out)@ == old(out)@ + pad_right(dec(n as nat), w as nat),
{
    let mut d = String::new();
    push_dec(&mut d, n as u128);
    assert(d@ =~= dec(n as nat));
    push_padded(out, d.as_str(), w);
}

/// How many of the mutants belong to `file`.
pub open spec fn file_count(all: Seq<Mutant>, file: Seq<char>) -> nat
    decreases all.len(),
{
    if all.len() == 0 {
        0
    } else {
        file_count(all.drop_last(), file) + if all.last().file@ == file { 1nat } else { 0nat }
    }
}

/// The file of the mutant before position `k` (none before the first).
pub open spec fn prev_file(all: Seq<Mutant>, k: int) -> Seq<char> {
    if k <= 0 {
        Seq::empty()
    } else {
        all[k - 1].file@
    }
}

/// The header of mutant `k` in the list: its file and the file's mutant
/// count, where the file changes.
pub open spec fn list_head(all: Seq<Mutant>, k: int) -> Seq<char> {
    let file = all[k].file@;
    if file != prev_file(all, k) {
        file + " — "@ + counted_text(file_count(all, file), "mutant"@) + "\n\n"@
    } else {
        Seq::empty()
    }
}

/// A mutant's line in the list: id, position, operator, description.
pub open spec fn list_line(m: MutantV) -> Seq<char> {
    "  #"@ + pad_right(dec(m.id as nat), 4) + " "@ + dec(m.line as nat) + ":"@ + dec(m.col as nat)
        + "  "@ + pad_right(m.op, 11) + " "@ + m.descr + "\n"@
}

/// The source line a mutant sits on, when its file is among `sources`.
pub open spec fn list_excerpt(m: MutantV, sources: Seq<(String, String)>) -> Seq<char> {
    match find_source(sources, m.file) {
        Some(src) => "        "@ + excerpt_of(encode_utf8(src), m.offset) + "\n"@,
        None => Seq::empty(),
    }
}

/// Mutant `k` of the list: header, line, source line.
pub open spec fn list_entry(all: Seq<Mutant>, k: int, sources: Seq<(String, String)>) -> Seq<char> {
    list_head(all, k) + list_line(all[k]@) + list_excerpt(all[k]@, sources)
}

/// The entries of the first `k` mutants.
pub open spec fn list_entries(all: Seq<Mutant>, sources: Seq<(String, String)>, k: int) -> Seq<char>
    decreases k,
{
    if k <= 0 {
        Seq::empty()
    } else {
        list_entries(all, sources, k - 1) + list_entry(all, k - 1, sources)
    }
}

/// The text of `mutash list`: every mutant, then the totals.
pub open spec fn list_text(all: Seq<Mutant>, sources: Seq<(String, String)>, files: nat) -> Seq<
    char,
> {
    list_entries(all, sources, all.len() as int) + (if all.len() > 0 {
        "\n"@
    } else {
        Seq::empty()
    }) + "Total: "@ + counted_text(all.len(), "mutant"@) + " across "@ + counted_text(files, "file"@)
        + "\n"@
}

fn count_file(all: &[Mutant], file: &str) -> (n: usize)
    ensures
        n == file_count(all@, file@),
{
    let mut n: usize = 0;
    let mut k: usize = 0;
    while k < all.len()
        invariant
            k <= all@.len(),
            n == file_count(all@.take(k as int), file@),
            n <= k,
        decreases all@.len() - k,
    {
        assert(all@.take(k + 1).drop_last() =~= all@.take(k as int));
        if str_eq(all[k].file.as_str(), file) {
            n = n + 1;
        }
        k = k + 1;
    }
    assert(all@.take(k as int) =~= all@);
    n
}

fn push_list_head(out: &mut String, all: &[Mutant], k: usize, current: &str)
    requires
        k < all@.len(),
        current@ == prev_file(all@, k as int),
    ensures
        final(out)@ == old(out)@ + list_head(all@, k as int),
{
    let ghost o = out@;
    let m = &all[k];
    if !str_eq(m.file.as_str(), current) {
        push_str(out, m.file.as_str());
        push_str(out, " — ");
        let count = count_file(all, m.file.as_str());
        let c = counted(count, "mutant");
        push_str(out, c.as_str());
        push_str(out, "\n\n");
    }
    assert(out@ =~= o + list_head(all@, k as int));
}

fn push_list_line(out: &mut String, m: &Mutant)
    ensures
        final(out)@ == old(out)@ + list_line(m@),
{
    let ghost o = out@;
    push_str(out, "  #");
    push_padded_dec(out, m.id, 4);
    push_str(out, " ");
    push_dec(out, m.line as u128);
    push_str(out, ":");
    push_dec(out, m.col as u128);
    push_str(out, "  ");
    push_padded(out, m.op, 11);
    push_str(out, " ");
    push_str(out, m.descr.as_str());
    push_str(out, "\n");
    assert(out@ =~= o + list_line(m@));
}

fn push_list_excerpt(out: &mut String, m: &Mutant, sources: &[(String, String)])
    ensures
        final(out)@ == old(out)@ + list_excerpt(m@, sources@),
{
    let ghost o = out@;
    match source_of(sources, m.file.as_str()) {
        Some(src) => {
            push_str(out, "        ");
            push_str(out, m.excerpt(src.as_str()));
            push_str(out, "\n");
        },
        None => {},
    }
    assert(out@ =~= o + list_excerpt(m@, sources@));
}

/// Render the listing of `mutash list`; `files` is the number of scripts.
pub fn render_list_text(all: &[Mutant], sources: &[(String, String)], files: usize) -> (out: String)
    ensures
        out@ == list_text(all@, sources@, files as nat),
{
    let mut out = String::new();
    let mut current: &str = "";
    proof {
        reveal_strlit("");
    }
    let mut k: usize = 0;
    while k < all.len()
        invariant
            k <= all@.len(),
            current@ == prev_file(all@, k as int),
            out@ == list_entries(all@, sources@, k as int),
        decreases all@.len() - k,
    {
        let ghost o = out@;
        push_list_head(&mut out, all, k, current);
        push_list_line(&mut out, &all[k]);
        push_list_excerpt(&mut out, &all[k], sources);
        assert(out@ =~= o + list_entry(all@, k as int, sources@));
        current = all[k].file.as_str();
        k = k + 1;
    }
    if all.len() > 0 {
        push_str(&mut out, "\n");
    }
    let ghost t = out@;
    push_str(&mut out, "Total: ");
    let a = counted(all.len(), "mutant");
    push_str(&mut out, a.as_str());
    push_str(&mut out, " across ");
    let b = counted(files, "file");
    push_str(&mut out, b.as_str());
    push_str(&mut out, "\n");
    assert(out@ =~= list_text(all@, sources@, files as nat));
    out
}

/// The mutants of the scripts in order, numbered from 1 across all
/// scripts: mutant `i` of script `j` is planned as `numbered(per, j, i, name)`.
pub open spec fn planned(per: Seq<Seq<MutantV>>, names: Seq<Seq<char>>, j: int) -> Seq<MutantV>
    decreases j,
{
    if j <= 0 || per.len() == 0 {
        Seq::empty()
    } else {
        planned(per, names, j - 1) + Seq::new(
            per[j - 1].len(),
            |i: int| numbered(per, j - 1, i, names[j - 1]),
        )
    }
}

/// Every mutant of the scripts (name and source text) for `ops`, named
/// after its script and numbered from 1 across all scripts, in order: what
/// `mutash list` shows.
pub fn list_mutants(sources: &[(String, String)], ops: &OpSet) -> (r: Vec<Mutant>)
    requires
        scannable(sources@),
    ensures
        mutants_view(r@) == planned(
            generated(sources@, ops@),
            sources@.map_values(|p: (String, String)| p.0@),
            sources@.len() as int,
        ),
{
    let files = plan_files(sources, ops);
    let ghost per = generated(sources@, ops@);
    let ghost names = sources@.map_values(|p: (String, String)| p.0@);
    let mut all: Vec<Mutant> = Vec::new();
    let mut j: usize = 0;
    while j < files.len()
        invariant
            j <= files@.len(),
            files@.len() == sources@.len(),
            per == generated(sources@, ops@),
            names == sources@.map_values(|p: (String, String)| p.0@),
            forall|q: int|
                0 <= q < files@.len() ==> {
                    &&& (#[trigger] files@[q]).mutants@.len() == per[q].len()
                    &&& forall|i: int|
                        0 <= i < per[q].len() ==> (#[trigger] files@[q].mutants@[i])@ == numbered(
                            per,
                            q,
                            i,
                            sources@[q].0@,
                        )
                },
            mutants_view(all@) == planned(per, names, j as int),
        decreases files@.len() - j,
    {
        let ms = &files[j].mutants;
        let ghost base = all@;
        let mut i: usize = 0;
        while i < ms.len()
            invariant
                i <= ms@.len(),
                j < files@.len(),
                ms@ == files@[j as int].mutants@,
                all@.len() == base.len() + i,
                forall|k: int| 0 <= k < base.len() ==> all@[k] == base[k],
                forall|k: int| 0 <= k < i ==> #[trigger] all@[base.len() + k]@ == ms@[k]@,
            decreases ms@.len() - i,
        {
            all.push(crate::runner::copy_mutant(&ms[i]));
            i = i + 1;
        }
        proof {
            assert(names[j as int] == sources@[j as int].0@);
            assert(mutants_view(all@) =~= mutants_view(base) + Seq::new(
                per[j as int].len(),
                |i: int| numbered(per, j as int, i, names[j as int]),
            )) by {
                assert forall|k: int| 0 <= k < all@.len() implies #[trigger] mutants_view(all@)[k]
                    == (mutants_view(base) + Seq::new(
                    per[j as int].len(),
                    |i: int| numbered(per, j as int, i, names[j as int]),
                ))[k] by {
                    if k >= base.len() {
                        assert(all@[base.len() + (k - base.len())]@ == ms@[k - base.len()]@);
                    }
                }
            }
        }
        j = j + 1;
    }
    all
}

/// One `target:` line per file, with its mutant count.
pub open spec fn target_lines(files: Seq<FilePlan>) -> Seq<char>
    decreases files.len(),
{
    if files.len() == 0 {
        Seq::empty()
    } else {
        target_lines(files.drop_last()) + "  target:   "@ + files.last().rel@ + " ("@ + counted_text(
            files.last().mutants@.len(),
            "mutant"@,
        ) + ")\n"@
    }
}

/// The head of `mutash run`: version, test command, one line per target,
/// and a closing note when there is nothing to mutate.
pub open spec fn run_header_text(tests: Seq<char>, files: Seq<FilePlan>) -> Seq<char> {
    "mutash "@ + VERSION@ + " — mutation run\n"@ + "  tests:    "@ + tests + "\n"@ + target_lines(files)
        + if plan_mutants(files).len() == 0 {
        "\nNo mutants generated — nothing to grade.\n"@
    } else {
        Seq::empty()
    }
}

/// Render the head of `mutash run`.
pub fn render_run_header(tests: &str, files: &[FilePlan]) -> (out: String)
    ensures
        out@ == run_header_text(tests@, files@),
{
    let mut out = String::new();
    push_str(&mut out, "mutash ");
    push_str(&mut out, VERSION);
    push_str(&mut out, " — mutation run\n");
    push_str(&mut out, "  tests:    ");
    push_str(&mut out, tests);
    push_str(&mut out, "\n");
    let ghost head = out@;
    let mut none = true;
    let mut j: usize = 0;
    while j < files.len()
        invariant
            j <= files@.len(),
            out@ == head + target_lines(files@.take(j as int)),
            none == (plan_mutants(files@.take(j as int)).len() == 0),
        decreases files@.len() - j,
    {
        let f = &files[j];
        let ghost o = out@;
        push_str(&mut out, "  target:   ");
        push_str(&mut out, f.rel.as_str());
        push_str(&mut out, " (");
        let c = counted(f.mutants.len(), "mutant");
        push_str(&mut out, c.as_str());
        push_str(&mut out, ")\n");
        if f.mutants.len() > 0 {
            none = false;
        }
        proof {
            assert(files@.take(j + 1).drop_last() =~= files@.take(j as int));
            assert(out@ =~= head + target_lines(files@.take(j + 1)));
        }
        j = j + 1;
    }
    proof {
        assert(files@.take(j as int) =~= files@);
    }
    if none {
        push_str(&mut out, "\nNo mutants generated — nothing to grade.\n");
    }
    assert(out@ =~= run_header_text(tests@, files@));
    out
}

/// The operator table rows, the first `k` of them.
pub open spec fn ops_rows(k: int) -> Seq<char>
    decreases k,
{
    if k <= 0 {
        Seq::empty()
    } else {
        ops_rows(k - 1) + "  "@ + pad_right(OPERATORS@[k - 1].0@, 12) + " "@ + pad_right(
            OPERATORS@[k - 1].1@,
            26,
        ) + " "@ + OPERATORS@[k - 1].2@ + "\n"@
    }
}

/// The text of `mutash ops`: the operator table and how to select and
/// disable operators.
pub open spec fn ops_text() -> Seq<char> {
    "mutash mutation operators\n\n"@ + "  "@ + pad_right("ID"@, 12) + " "@ + pad_right("CONTEXT"@, 26)
        + " EXAMPLES\n"@ + ops_rows(9) + "\n"@
        + "Disable one line with `# mutash: skip`, a block with `# mutash: off` / `# mutash: on`.\n"@
        + "Select at run time with `--only <ids>` or `--skip <ids>` (comma-separated).\n"@
}

/// Render the operator reference of `mutash ops`.
pub fn ops_reference() -> (out: String)
    ensures
        out@ == ops_text(),
{
    let mut out = String::new();
    push_str(&mut out, "mutash mutation operators\n\n");
    push_str(&mut out, "  ");
    push_padded(&mut out, "ID", 12);
    push_str(&mut out, " ");
    push_padded(&mut out, "CONTEXT", 26);
    push_str(&mut out, " EXAMPLES\n");
    let ghost head = out@;
    let mut k: usize = 0;
    while k < 9
        invariant
            k <= 9,
            out@ == head + ops_rows(k as int),
        decreases 9 - k,
    {
        let row = OPERATORS[k];
        let ghost o = out@;
        push_str(&mut out, "  ");
        push_padded(&mut out, row.0, 12);
        push_str(&mut out, " ");
        push_padded(&mut out, row.1, 26);
        push_str(&mut out, " ");
        push_str(&mut out, row.2);
        push_str(&mut out, "\n");
        assert(out@ =~= o + "  "@ + pad_right(OPERATORS@[k as int].0@, 12) + " "@ + pad_right(
            OPERATORS@[k as int].1@,
            26,
        ) + " "@ + OPERATORS@[k as int].2@ + "\n"@);
        k = k + 1;
    }
    push_str(&mut out, "\n");
    push_str(
        &mut out,
        "Disable one line with `# mutash: skip`, a block with `# mutash: off` / `# mutash: on`.\n",
    );
    push_str(
        &mut out,
        "Select at run time with `--only <ids>` or `--skip <ids>` (comma-separated).\n",
    );
    assert(out@ =~= ops_text());
    out
}

// ---------------------------------------------------------------------
// Commands.
// ---------------------------------------------------------------------

/// The command that the first argument names.
#[derive(Debug, Clone, Copy, PartialEq, Eq, Structural)]
pub enum Command {
    /// No argument at all: show the usage and fail.
    Missing,
    /// `-V`, `--version`
    Version,
    /// `-h`, `--help`, `help`
    Help,
    /// `ops`
    Ops,
    /// `run`
    Run,
    /// `list`
    List,
    /// Anything else: report it, show the usage and fail.
    Unknown,
}

pub open spec fn command_spec(args: Seq<String>) -> Command {
    if args.len() == 0 {
        Command::Missing
    } else {
        let c = args[0]@;
        if c == "-V"@ || c == "--version"@ {
            Command::Version
        } else if c == "-h"@ || c == "--help"@ || c == "help"@ {
            Command::Help
        } else if c == "ops"@ {
            Command::Ops
        } else if c == "run"@ {
            Command::Run
        } else if c == "list"@ {
            Command::List
        } else {
            Command::Unknown
        }
    }
}

/// Which command the arguments (program name excluded) ask for.
pub fn command_of(args: &[String]) -> (c: Command)
    ensures
        c == command_spec(args@),
{
    if args.len() == 0 {
        return Command::Missing;
    }
    let c = args[0].as_str();
    if str_eq(c, "-V") || str_eq(c, "--version") {
        Command::Version
    } else if str_eq(c, "-h") || str_eq(c, "--help") || str_eq(c, "help") {
        Command::Help
    } else if str_eq(c, "ops") {
        Command::Ops
    } else if str_eq(c, "run") {
        Command::Run
    } else if str_eq(c, "list") {
        Command::List
    } else {
        Command::Unknown
    }
}

// ---------------------------------------------------------------------
// Script paths relative to the project root.
// ---------------------------------------------------------------------

/// What `std::path::Path::strip_prefix` gives for `path` and `base`.
pub uninterp spec fn path_rest(path: Seq<char>, base: Seq<char>) -> Option<Seq<char>>;

/// `std::path::Path::strip_prefix`: the rest of `path` after `base` when
/// `base` is a prefix of it, component by component, else `None`. Its
/// result depends on the two paths alone and is named, not described.
#[verifier::external_body]
fn strip_prefix(path: &str, base: &str) -> (r: Option<String>)
    ensures
        opt_view(r) == path_rest(path@, base@),
{
    match std::path::Path::new(path).strip_prefix(base) {
        Ok(rest) => Some(rest.display().to_string()),
        Err(_) => None,
    }
}

/// The error for a script outside the project root.
pub open spec fn outside_root_text(script: Seq<char>, root: Seq<char>) -> Seq<char> {
    script + " is outside the project root "@ + root
        + " — pass --root to a directory containing both the script and its tests"@
}

/// The script's path relative to the root, given what stripping the root
/// off the script's canonical path left (`None`: the root is no prefix).
pub fn relative_from(script: &str, root: &str, rest: Option<String>) -> (r: Result<String, String>)
    ensures
        match rest {
            Some(p) => r == Ok::<String, String>(p),
            None => r matches Err(e) && e@ == outside_root_text(script@, root@),
        },
{
    match rest {
        Some(p) => Ok(p),
        None => {
            let mut e = String::new();
            push_str(&mut e, script);
            push_str(&mut e, " is outside the project root ");
            push_str(&mut e, root);
            push_str(&mut e, " — pass --root to a directory containing both the script and its tests");
            Err(e)
        },
    }
}

/// Express `script` relative to the project root, from its canonical path
/// `canon` and the canonical `root`.
pub fn relative_to(script: &str, canon: &str, root: &str) -> (r: Result<String, String>)
    ensures
        match path_rest(canon@, root@) {
            Some(p) => r matches Ok(q) && q@ == p,
            None => r matches Err(e) && e@ == outside_root_text(script@, root@),
        },
{
    let rest = strip_prefix(canon, root);
    relative_from(script, root, rest)
}

} // verus!
