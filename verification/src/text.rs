//! Text building blocks shared by the scanner, the mutators and the reports:
//! byte-to-char conversion, string assembly and decimal rendering.

use vstd::prelude::*;
use vstd::utf8::*;
use vstd::string::StringSliceAdditionalSpecFns;
use vstd::string::StrSliceExecFns;

verus! {

/// Each byte read as the character with the same code point (the
/// scanner's view of raw source bytes).
pub open spec fn latin1(bytes: Seq<u8>) -> Seq<char> {
    bytes.map_values(|b: u8| b as char)
}

/// `String::push`: appends one character to the end of the string.
#[verifier::external_body]
pub(crate) fn push_char(s: &mut String, c: char)
    ensures
        final(s)@ == old(s)@.push(c),
{
    s.push(c);
}

/// Append every byte of `bytes`, each as the character with the same code point.
pub fn push_latin1(out: &mut String, bytes: &[u8])
    ensures
        final(out)@ == old(out)@ + latin1(bytes@),
{
    let ghost start = out@;
    let mut i: usize = 0;
    while i < bytes.len()
        invariant
            i <= bytes.len(),
            out@ == start + latin1(bytes@.take(i as int)),
        decreases bytes.len() - i,
    {
        let c = bytes[i] as char;
        push_char(out, c);
        i = i + 1;
        assert(latin1(bytes@.take(i as int)) =~= latin1(bytes@.take(i - 1)).push(bytes@[i - 1] as char));
    }
    assert(bytes@.take(i as int) =~= bytes@);
}

/// A fresh string holding `bytes`, each as the character with the same code point.
pub fn latin1_string(bytes: &[u8]) -> (out: String)
    ensures
        out@ == latin1(bytes@),
{
    let mut out = String::new();
    push_latin1(&mut out, bytes);
    assert(Seq::<char>::empty() + latin1(bytes@) =~= latin1(bytes@));
    out
}

/// Byte-wise equality of two slices.
pub fn bytes_eq(a: &[u8], b: &[u8]) -> (r: bool)
    ensures
        r == (a@ == b@),
{
    if a.len() != b.len() {
        return false;
    }
    let mut i: usize = 0;
    while i < a.len()
        invariant
            i <= a.len(),
            a.len() == b.len(),
            forall|k: int| 0 <= k < i ==> a@[k] == b@[k],
        decreases a.len() - i,
    {
        if a[i] != b[i] {
            return false;
        }
        i = i + 1;
    }
    assert(a@ =~= b@);
    true
}

// ---------------------------------------------------------------------
// UTF-8 facts.
// ---------------------------------------------------------------------

/// Encoding distributes over concatenation.
pub proof fn lemma_encode_concat(x: Seq<char>, y: Seq<char>)
    ensures
        encode_utf8(x + y) == encode_utf8(x) + encode_utf8(y),
    decreases x.len(),
{
    if x.len() == 0 {
        assert(x + y =~= y);
        assert(encode_utf8(x) =~= Seq::<u8>::empty());
        assert(Seq::<u8>::empty() + encode_utf8(y) =~= encode_utf8(y));
    } else {
        assert((x + y)[0] == x[0]);
        assert((x + y).drop_first() =~= x.drop_first() + y);
        lemma_encode_concat(x.drop_first(), y);
        assert(encode_utf8(x + y) =~= encode_utf8(x) + encode_utf8(y));
    }
}

/// Two strings with the same encoding are equal.
pub proof fn lemma_encode_injective(x: Seq<char>, y: Seq<char>)
    requires
        encode_utf8(x) == encode_utf8(y),
    ensures
        x == y,
{
    encode_utf8_decode_utf8(x);
    encode_utf8_decode_utf8(y);
}

proof fn lemma_scalar_bytes(v: u32, c: u8, y: u8)
    by (bit_vector)
    requires
        c < 0x80,
        v != c as u32,
    ensures
        v <= 0x7F ==> (v & 0x7F) as u8 != c,
        (0xC0u8 | y) != c,
        (0xE0u8 | y) != c,
        (0xF0u8 | y) != c,
        (0x80u8 | y) != c,
{
}

/// The UTF-8 encoding of a text in which an ASCII character does not
/// occur holds no byte of that character.
pub proof fn lemma_encode_without_ascii(x: Seq<char>, c: u8)
    requires
        c < 0x80,
        forall|k: int| 0 <= k < x.len() ==> (#[trigger] x[k]) as u32 != c as u32,
    ensures
        forall|j: int| 0 <= j < encode_utf8(x).len() ==> #[trigger] encode_utf8(x)[j] != c,
    decreases x.len(),
{
    if x.len() > 0 {
        let v = x[0] as u32;
        let rest = x.drop_first();
        assert forall|k: int| 0 <= k < rest.len() implies (#[trigger] rest[k]) as u32 != c as u32 by {
            assert(rest[k] == x[k + 1]);
        }
        lemma_encode_without_ascii(rest, c);
        let e = encode_scalar(v);
        lemma_scalar_bytes(v, c, ((v >> 6) & 0x1F) as u8);
        lemma_scalar_bytes(v, c, ((v >> 12) & 0x0F) as u8);
        lemma_scalar_bytes(v, c, ((v >> 18) & 0x7) as u8);
        lemma_scalar_bytes(v, c, (v & 0x3F) as u8);
        lemma_scalar_bytes(v, c, ((v >> 6) & 0x3F) as u8);
        lemma_scalar_bytes(v, c, ((v >> 12) & 0x3F) as u8);
        assert forall|j: int| 0 <= j < e.len() implies #[trigger] e[j] != c by {}
        let all = encode_utf8(x);
        assert(all == e + encode_utf8(rest));
        assert forall|j: int| 0 <= j < all.len() implies #[trigger] all[j] != c by {
            if j < e.len() {
                assert(all[j] == e[j]);
            } else {
                assert(all[j] == encode_utf8(rest)[j - e.len()]);
            }
        }
    }
}

proof fn lemma_boundary_past_first(b: Seq<u8>, k: int)
    requires
        valid_utf8(b),
        is_char_boundary(b, k),
        k > 0,
    ensures
        b.len() > 0,
        valid_first_scalar(b),
        length_of_first_scalar(b) <= k,
        valid_utf8(pop_first_scalar(b)),
{
    reveal_with_fuel(is_char_boundary, 2);
}

/// The byte after an ASCII byte that starts a character starts a character too.
pub proof fn lemma_ascii_next_boundary(b: Seq<u8>, k: int)
    requires
        valid_utf8(b),
        0 <= k < b.len(),
        is_char_boundary(b, k),
        b[k] <= 0x7f,
    ensures
        is_char_boundary(b, k + 1),
    decreases b.len(),
{
    reveal_with_fuel(is_char_boundary, 2);
    if k > 0 {
        lemma_boundary_past_first(b, k);
        let l = length_of_first_scalar(b);
        let p = pop_first_scalar(b);
        assert(p[k - l] == b[k]);
        lemma_ascii_next_boundary(p, k - l);
    }
}

/// A character boundary of `b` before `e` (itself a boundary) is one of `b[..e)`.
pub proof fn lemma_prefix_boundary(b: Seq<u8>, e: int, k: int)
    requires
        valid_utf8(b),
        0 <= k <= e <= b.len(),
        is_char_boundary(b, e),
        is_char_boundary(b, k),
    ensures
        is_char_boundary(b.subrange(0, e), k),
{
    let pre = b.subrange(0, e);
    valid_utf8_split(b, e);
    is_char_boundary_start_end_of_seq(pre);
    if k < e {
        is_char_boundary_iff_not_is_continuation_byte(pre, k);
        is_char_boundary_iff_not_is_continuation_byte(b, k);
    }
}

/// A position is a character boundary when it is an end of the
/// sequence or holds an ASCII byte, or follows one that starts a character.
pub proof fn lemma_boundary_at_ascii(b: Seq<u8>, k: int)
    requires
        valid_utf8(b),
        0 <= k <= b.len(),
        k == 0 || k == b.len() || b[k] <= 0x7f || (b[k - 1] <= 0x7f && is_char_boundary(b, k - 1)),
    ensures
        is_char_boundary(b, k),
{
    is_char_boundary_start_end_of_seq(b);
    if 0 < k < b.len() {
        if b[k] <= 0x7f {
            is_char_boundary_iff_not_is_continuation_byte(b, k);
        } else {
            lemma_ascii_next_boundary(b, k - 1);
        }
    }
}

/// Equality of two strings, decided on their bytes.
pub fn str_eq(a: &str, b: &str) -> (r: bool)
    ensures
        r == (a@ == b@),
{
    let r = bytes_eq(a.as_bytes(), b.as_bytes());
    proof {
        if r {
            lemma_encode_injective(a@, b@);
        }
    }
    r
}

// ---------------------------------------------------------------------
// Whitespace trimming.
// ---------------------------------------------------------------------

/// Unicode `White_Space`, the property `char::is_whitespace` tests.
pub open spec fn is_white_space(c: char) -> bool {
    let u = c as u32;
    ||| 9 <= u <= 13
    ||| u == 0x20
    ||| u == 0x85
    ||| u == 0xA0
    ||| u == 0x1680
    ||| 0x2000 <= u <= 0x200A
    ||| u == 0x2028
    ||| u == 0x2029
    ||| u == 0x202F
    ||| u == 0x205F
    ||| u == 0x3000
}

pub open spec fn trim_start_chars(s: Seq<char>) -> Seq<char>
    decreases s.len(),
{
    if s.len() > 0 && is_white_space(s[0]) {
        trim_start_chars(s.drop_first())
    } else {
        s
    }
}

pub open spec fn trim_end_chars(s: Seq<char>) -> Seq<char>
    decreases s.len(),
{
    if s.len() > 0 && is_white_space(s.last()) {
        trim_end_chars(s.drop_last())
    } else {
        s
    }
}

/// `s` without leading and trailing white space.
pub open spec fn trim_chars(s: Seq<char>) -> Seq<char> {
    trim_end_chars(trim_start_chars(s))
}

pub open spec fn all_white(p: Seq<char>) -> bool {
    forall|k: int| 0 <= k < p.len() ==> is_white_space(#[trigger] p[k])
}

proof fn lemma_trim_start_pad(p: Seq<char>, z: Seq<char>)
    requires
        all_white(p),
    ensures
        trim_start_chars(p + z) == trim_start_chars(z),
    decreases p.len(),
{
    if p.len() == 0 {
        assert(p + z =~= z);
    } else {
        assert((p + z)[0] == p[0]);
        assert((p + z).drop_first() =~= p.drop_first() + z);
        assert(all_white(p.drop_first())) by {
            assert forall|k: int| 0 <= k < p.drop_first().len() implies is_white_space(#[trigger] p.drop_first()[k]) by {
                assert(p.drop_first()[k] == p[k + 1]);
            }
        }
        lemma_trim_start_pad(p.drop_first(), z);
    }
}

proof fn lemma_trim_end_pad(z: Seq<char>, q: Seq<char>)
    requires
        all_white(q),
    ensures
        trim_end_chars(z + q) == trim_end_chars(z),
    decreases q.len(),
{
    if q.len() == 0 {
        assert(z + q =~= z);
    } else {
        assert((z + q).last() == q.last());
        assert((z + q).drop_last() =~= z + q.drop_last());
        assert(all_white(q.drop_last())) by {
            assert forall|k: int| 0 <= k < q.drop_last().len() implies is_white_space(#[trigger] q.drop_last()[k]) by {
                assert(q.drop_last()[k] == q[k]);
            }
        }
        assert(is_white_space(q[q.len() - 1]));
        lemma_trim_end_pad(z, q.drop_last());
    }
}

/// Trimming a text that is white space, then a text that neither starts
/// nor ends with white space, then white space, gives the middle text.
pub proof fn lemma_trim_padded(p: Seq<char>, x: Seq<char>, q: Seq<char>)
    requires
        all_white(p),
        all_white(q),
        x.len() > 0,
        !is_white_space(x[0]),
        !is_white_space(x.last()),
    ensures
        trim_chars(p + x + q) == x,
{
    assert(p + x + q =~= p + (x + q));
    lemma_trim_start_pad(p, x + q);
    assert((x + q)[0] == x[0]);
    assert(trim_start_chars(x + q) == x + q);
    lemma_trim_end_pad(x, q);
    assert(trim_end_chars(x) == x);
}

fn is_white_space_exec(c: char) -> (r: bool)
    ensures
        r == is_white_space(c),
{
    let u = c as u32;
    (9 <= u && u <= 13) || u == 0x20 || u == 0x85 || u == 0xA0 || u == 0x1680 || (0x2000 <= u
        && u <= 0x200A) || u == 0x2028 || u == 0x2029 || u == 0x202F || u == 0x205F || u == 0x3000
}

/// The slice without leading and trailing characters that have the Unicode
/// `White_Space` property, as `str::trim` gives it.
pub fn str_trim(s: &str) -> (r: &str)
    ensures
        r@ == trim_chars(s@),
{
    let n = s.unicode_len();
    let ghost t = s@;
    let mut a: usize = 0;
    assert(t.subrange(0, n as int) =~= t);
    while a < n && is_white_space_exec(s.get_char(a))
        invariant
            a <= n,
            n == t.len(),
            t == s@,
            trim_start_chars(t) == trim_start_chars(t.subrange(a as int, n as int)),
        decreases n - a,
    {
        assert(t.subrange(a as int, n as int).drop_first() =~= t.subrange(a + 1, n as int));
        a = a + 1;
    }
    let ghost rest = t.subrange(a as int, n as int);
    assert(trim_start_chars(t) == rest);
    let mut b: usize = n;
    while b > a && is_white_space_exec(s.get_char(b - 1))
        invariant
            a <= b <= n,
            n == t.len(),
            t == s@,
            rest == t.subrange(a as int, n as int),
            trim_end_chars(rest) == trim_end_chars(t.subrange(a as int, b as int)),
        decreases b - a,
    {
        assert(t.subrange(a as int, b as int).drop_last() =~= t.subrange(a as int, b - 1));
        b = b - 1;
    }
    assert(trim_end_chars(t.subrange(a as int, b as int)) == t.subrange(a as int, b as int));
    s.substring_char(a, b)
}

// ---------------------------------------------------------------------
// Decimal rendering and parsing.
// ---------------------------------------------------------------------

pub open spec fn digit_char(d: int) -> char {
    (48 + d) as char
}

/// Decimal digits of `n`.
pub open spec fn dec(n: nat) -> Seq<char>
    decreases n,
{
    if n < 10 {
        seq![digit_char(n as int)]
    } else {
        dec(n / 10).push(digit_char((n % 10) as int))
    }
}

/// Decimal rendering of a signed integer.
pub open spec fn idec(n: int) -> Seq<char> {
    if n < 0 {
        seq!['-'] + dec((-n) as nat)
    } else {
        dec(n as nat)
    }
}

/// Append the decimal digits of `n`.
pub fn push_dec(out: &mut String, n: u128)
    ensures
        final(out)@ == old(out)@ + dec(n as nat),
    decreases n,
{
    let ghost o = out@;
    if n >= 10 {
        push_dec(out, n / 10);
    }
    push_char(out, ((48 + (n % 10)) as u8) as char);
    assert(out@ =~= o + dec(n as nat));
}

/// Append the decimal rendering of a signed `n`.
pub fn push_idec(out: &mut String, n: i64)
    ensures
        final(out)@ == old(out)@ + idec(n as int),
{
    let ghost o = out@;
    if n < 0 {
        push_char(out, '-');
        let m = (0i128 - (n as i128)) as u128;
        push_dec(out, m);
        assert(out@ =~= o + idec(n as int));
    } else {
        push_dec(out, n as u128);
    }
}

/// A fresh string holding `lit`.
pub fn string_of(lit: &str) -> (r: String)
    ensures
        r@ == lit@,
{
    String::from_str(lit)
}

/// Append `s`.
pub fn push_str(out: &mut String, s: &str)
    ensures
        final(out)@ == old(out)@ + s@,
{
    out.append(s);
}

/// Value of a run of ASCII decimal digits.
pub open spec fn digits_value(t: Seq<char>) -> int
    decreases t.len(),
{
    if t.len() == 0 {
        0
    } else {
        digits_value(t.drop_last()) * 10 + (t.last() as int - 48)
    }
}

pub open spec fn is_digit_char(c: char) -> bool {
    '0' <= c <= '9'
}

pub open spec fn all_digits(t: Seq<char>) -> bool {
    forall|k: int| 0 <= k < t.len() ==> is_digit_char(#[trigger] t[k])
}

/// What `str::parse::<i64>` accepts: an optional `+` or `-`, then at least
/// one ASCII digit, with a value in range.
pub open spec fn parse_i64(t: Seq<char>) -> Option<i64> {
    let signed = t.len() > 0 && (t[0] == '-' || t[0] == '+');
    let neg = t.len() > 0 && t[0] == '-';
    let body = if signed { t.drop_first() } else { t };
    let v = if neg { -digits_value(body) } else { digits_value(body) };
    if body.len() > 0 && all_digits(body) && i64::MIN <= v <= i64::MAX {
        Some(v as i64)
    } else {
        None
    }
}

proof fn lemma_digits_value_mono(t: Seq<char>, k: int)
    requires
        0 <= k <= t.len(),
        all_digits(t),
    ensures
        0 <= digits_value(t.take(k)) <= digits_value(t),
    decreases t.len() - k,
{
    if k < t.len() {
        lemma_digits_value_mono(t, k + 1);
        assert(t.take(k + 1).drop_last() =~= t.take(k));
        assert(is_digit_char(t[k]));
    } else {
        assert(t.take(k) =~= t);
        lemma_digits_value_nonneg(t);
    }
}

proof fn lemma_digits_value_nonneg(t: Seq<char>)
    requires
        all_digits(t),
    ensures
        0 <= digits_value(t),
    decreases t.len(),
{
    if t.len() > 0 {
        assert(all_digits(t.drop_last()));
        lemma_digits_value_nonneg(t.drop_last());
        assert(is_digit_char(t[t.len() - 1]));
    }
}

/// The decimal rendering of `n` is a non-empty run of digits whose value
/// is `n`.
pub proof fn lemma_dec_digits(n: nat)
    ensures
        dec(n).len() > 0,
        all_digits(dec(n)),
        digits_value(dec(n)) == n,
    decreases n,
{
    let d = dec(n);
    if n < 10 {
        assert(d.drop_last() =~= Seq::<char>::empty());
        assert(digits_value(d.drop_last()) == 0);
    } else {
        lemma_dec_digits(n / 10);
        assert(d.drop_last() =~= dec(n / 10));
        assert forall|k: int| 0 <= k < d.len() implies is_digit_char(#[trigger] d[k]) by {
            if k < d.len() - 1 {
                assert(d[k] == dec(n / 10)[k]);
            }
        }
    }
}

/// Parsing the decimal rendering of an `i64` gives the value back.
pub proof fn lemma_parse_idec(m: i64)
    ensures
        parse_i64(idec(m as int)) == Some(m),
{
    let t = idec(m as int);
    if m < 0 {
        lemma_dec_digits((-m) as nat);
        assert(t.drop_first() =~= dec((-m) as nat));
    } else {
        lemma_dec_digits(m as nat);
        assert(is_digit_char(t[0]));
    }
}

proof fn lemma_ascii_char_byte(c: char)
    requires
        c <= '\u{7f}',
    ensures
        (c as u8) as int == (c as u32) as int,
        ('0' <= c <= '9') == (48 <= (c as u8) <= 57),
{
}

/// `str::parse::<i64>`, decided on the string's characters.
pub fn parse_i64_exec(s: &str) -> (r: Option<i64>)
    ensures
        r == parse_i64(s@),
{
    broadcast use vstd::string::group_string_axioms;
    let ghost t = s@;
    if !s.is_ascii() {
        proof {
            // Some character is not ASCII, so it is neither a sign nor a digit.
            assert(!vstd::utf8::is_ascii_chars(t));
            let k = choose|k: int| 0 <= k < t.len() && !('\0' <= #[trigger] t[k] <= '\u{7f}');
            assert(!is_digit_char(t[k]));
            let signed = t.len() > 0 && (t[0] == '-' || t[0] == '+');
            let body = if signed { t.drop_first() } else { t };
            if signed {
                assert(k > 0);
                assert(body[k - 1] == t[k]);
            } else {
                assert(body[k] == t[k]);
            }
        }
        return None;
    }
    let b = s.as_bytes();
    proof {
        vstd::string::is_ascii_spec_bytes(s);
        assert(b@.len() == t.len());
    }
    let n = b.len();
    if n == 0 {
        return None;
    }
    proof {
        lemma_ascii_char_byte(t[0]);
    }
    let neg = b[0] == '-' as u8;
    let signed = neg || b[0] == '+' as u8;
    let start: usize = if signed { 1 } else { 0 };
    proof {
        assert(b@[0] == t[0] as u8);
        assert(neg == (t[0] == '-'));
        assert(signed == (t[0] == '-' || t[0] == '+'));
    }
    let ghost body = if signed { t.drop_first() } else { t };
    if start == n {
        return None;
    }
    let mut acc: u128 = 0;
    let mut k = start;
    assert(body.take(0) =~= Seq::<char>::empty());
    while k < n
        invariant
            start <= k <= n,
            n == b@.len(),
            n == t.len(),
            start == if signed { 1int } else { 0int },
            t.len() > 0,
            t == s@,
            signed == (t[0] == '-' || t[0] == '+'),
            neg == (t[0] == '-'),
            body == (if signed { t.drop_first() } else { t }),
            body == t.subrange(start as int, n as int),
            b@ =~= Seq::new(t.len(), |i| t[i] as u8),
            vstd::utf8::is_ascii_chars(t),
            all_digits(body.take(k - start)),
            acc as int == digits_value(body.take(k - start)),
            acc <= 0x8000_0000_0000_0000,
        decreases n - k,
    {
        let c = b[k];
        proof {
            assert(b@[k as int] == t[k as int] as u8);
            assert('\0' <= t[k as int] <= '\u{7f}');
            lemma_ascii_char_byte(t[k as int]);
            assert(body[k - start] == t[k as int]);
        }
        if c < '0' as u8 || c > '9' as u8 {
            proof {
                assert(!is_digit_char(body[k - start]));
                assert(!all_digits(body));
            }
            return None;
        }
        proof {
            let nb = body.take(k - start + 1);
            assert(nb.drop_last() =~= body.take(k - start));
            assert forall|m: int| 0 <= m < nb.len() implies is_digit_char(#[trigger] nb[m]) by {
                if m < k - start {
                    assert(nb[m] == body.take(k - start)[m]);
                }
            }
        }
        acc = acc * 10 + (c - '0' as u8) as u128;
        k = k + 1;
        if acc > 0x8000_0000_0000_0000 {
            proof {
                // The value only grows with more digits, or a later byte is not a digit.
                if all_digits(body) {
                    lemma_digits_value_mono(body, k - start);
                    assert(digits_value(body) > 0x8000_0000_0000_0000);
                }
                assert(parse_i64(t).is_none());
            }
            return None;
        }
    }
    proof {
        assert(body.take(n - start) =~= body);
    }
    if neg {
        Some((0i128 - acc as i128) as i64)
    } else {
        if acc > 0x7fff_ffff_ffff_ffff {
            None
        } else {
            Some(acc as i64)
        }
    }
}

} // verus!
