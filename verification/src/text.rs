//! Character-level helpers shared by the assembler and the error messages:
//! Unicode whitespace, trimming, token boundaries, decimal integers.
use vstd::prelude::*;

verus! {

// ---------------------------------------------------------------------------
// Decimal rendering
// ---------------------------------------------------------------------------

/// The ASCII digit for `d` (`0 <= d < 10`).
pub open spec fn digit_char(d: int) -> char {
    seq!['0', '1', '2', '3', '4', '5', '6', '7', '8', '9'][d]
}

/// Decimal digits of a natural number, most significant first, no leading zeros.
pub open spec fn decimal_nat(n: nat) -> Seq<char>
    decreases n,
{
    if n < 10 {
        seq![digit_char(n as int)]
    } else {
        decimal_nat(n / 10).push(digit_char((n % 10) as int))
    }
}

/// Decimal rendering of an integer, with a leading `-` when negative.
pub open spec fn decimal_int(v: int) -> Seq<char> {
    if v < 0 {
        seq!['-'] + decimal_nat((-v) as nat)
    } else {
        decimal_nat(v as nat)
    }
}

/// Appends the single digit `d` to `out`.
fn push_digit(out: &mut String, d: u64)
    requires
        d < 10,
    ensures
        final(out)@ == old(out)@.push(digit_char(d as int)),
{
    let digits = "0123456789";
    proof {
        reveal_strlit("0123456789");
        assert(digits@ =~= seq!['0', '1', '2', '3', '4', '5', '6', '7', '8', '9']);
    }
    let one = digits.substring_char(d as usize, d as usize + 1);
    assert(one@ =~= seq![digit_char(d as int)]);
    out.append(one);
}

/// Appends the decimal digits of `n` to `out`.
pub fn push_decimal_u64(out: &mut String, n: u64)
    ensures
        final(out)@ == old(out)@ + decimal_nat(n as nat),
    decreases n,
{
    if n < 10 {
        push_digit(out, n);
        assert(old(out)@.push(digit_char(n as int)) =~= old(out)@ + decimal_nat(n as nat));
    } else {
        push_decimal_u64(out, n / 10);
        push_digit(out, n % 10);
        assert(old(out)@ + decimal_nat((n / 10) as nat) + seq![digit_char((n % 10) as int)]
            =~= old(out)@ + decimal_nat(n as nat));
    }
}

/// Appends the decimal rendering of `v` (as `{}` formats an `i64`) to `out`.
pub fn push_decimal_i64(out: &mut String, v: i64)
    ensures
        final(out)@ == old(out)@ + decimal_int(v as int),
{
    if v < 0 {
        out.append("-");
        proof {
            reveal_strlit("-");
        }
        let mag: u64 = ((-(v + 1)) as u64) + 1;
        push_decimal_u64(out, mag);
        assert(old(out)@ + seq!['-'] + decimal_nat(mag as nat) =~= old(out)@ + decimal_int(
            v as int,
        ));
    } else {
        push_decimal_u64(out, v as u64);
    }
}

/// The lower-case hexadecimal digit for `d` (`0 <= d < 16`).
pub open spec fn hex_char(d: int) -> char {
    seq!['0', '1', '2', '3', '4', '5', '6', '7', '8', '9', 'a', 'b', 'c', 'd', 'e', 'f'][d]
}

/// A byte as two lower-case hexadecimal digits (`{:02x}`).
pub open spec fn hex_byte(b: u8) -> Seq<char> {
    seq![hex_char(b as int / 16), hex_char(b as int % 16)]
}

/// Appends `b` as two lower-case hexadecimal digits to `out`.
pub fn push_hex_byte(out: &mut String, b: u8)
    ensures
        final(out)@ == old(out)@ + hex_byte(b),
{
    let digits = "0123456789abcdef";
    proof {
        reveal_strlit("0123456789abcdef");
        assert(digits@ =~= seq![
            '0', '1', '2', '3', '4', '5', '6', '7', '8', '9', 'a', 'b', 'c', 'd', 'e', 'f',
        ]);
    }
    let hi = (b / 16) as usize;
    let lo = (b % 16) as usize;
    let h = digits.substring_char(hi, hi + 1);
    assert(h@ =~= seq![hex_char(b as int / 16)]);
    out.append(h);
    let l = digits.substring_char(lo, lo + 1);
    assert(l@ =~= seq![hex_char(b as int % 16)]);
    out.append(l);
    assert(old(out)@ + h@ + l@ =~= old(out)@ + hex_byte(b));
}

// ---------------------------------------------------------------------------
// Whitespace, trimming and tokens
// ---------------------------------------------------------------------------

/// Unicode `White_Space`, the whitespace of `char::is_whitespace`,
/// `str::trim` and `str::split_whitespace`.
pub open spec fn is_space(c: char) -> bool {
    let u = c as u32;
    ||| 0x09 <= u <= 0x0d
    ||| u == 0x20
    ||| u == 0x85
    ||| u == 0xa0
    ||| u == 0x1680
    ||| 0x2000 <= u <= 0x200a
    ||| u == 0x2028
    ||| u == 0x2029
    ||| u == 0x202f
    ||| u == 0x205f
    ||| u == 0x3000
}

pub fn is_space_char(c: char) -> (b: bool)
    ensures
        b == is_space(c),
{
    let u = c as u32;
    (0x09 <= u && u <= 0x0d) || u == 0x20 || u == 0x85 || u == 0xa0 || u == 0x1680 || (0x2000
        <= u && u <= 0x200a) || u == 0x2028 || u == 0x2029 || u == 0x202f || u == 0x205f || u
        == 0x3000
}

/// The characters a forward scan stops at.
pub enum Stop {
    Semicolon,
    Space,
    NonSpace,
}

pub open spec fn stops_at(k: Stop, c: char) -> bool {
    match k {
        Stop::Semicolon => c == ';',
        Stop::Space => is_space(c),
        Stop::NonSpace => !is_space(c),
    }
}

/// Index of the first character of `s` that `k` stops at, or `s.len()`.
pub open spec fn scan(s: Seq<char>, k: Stop) -> nat
    decreases s.len(),
{
    if s.len() == 0 {
        0
    } else if stops_at(k, s[0]) {
        0
    } else {
        1 + scan(s.drop_first(), k)
    }
}

/// Length of `s` once its trailing whitespace is removed.
pub open spec fn keep_len(s: Seq<char>) -> nat
    decreases s.len(),
{
    if s.len() == 0 {
        0
    } else if is_space(s.last()) {
        keep_len(s.drop_last())
    } else {
        s.len()
    }
}

/// `s` without leading whitespace (`str::trim_start`).
pub open spec fn trim_start(s: Seq<char>) -> Seq<char> {
    s.skip(scan(s, Stop::NonSpace) as int)
}

/// `s` without leading or trailing whitespace (`str::trim`).
pub open spec fn trim(s: Seq<char>) -> Seq<char> {
    let t = trim_start(s);
    t.take(keep_len(t) as int)
}

/// The text of a source line before its `;` comment, trimmed.
pub open spec fn strip_comment_spec(s: Seq<char>) -> Seq<char> {
    trim(s.take(scan(s, Stop::Semicolon) as int))
}

/// The leading run of non-whitespace characters of `s`.
pub open spec fn word(s: Seq<char>) -> Seq<char> {
    s.take(scan(s, Stop::Space) as int)
}

/// What follows `word(s)`.
pub open spec fn after_word(s: Seq<char>) -> Seq<char> {
    s.skip(scan(s, Stop::Space) as int)
}

pub proof fn lemma_scan_is(s: Seq<char>, k: Stop, i: int)
    requires
        0 <= i <= s.len(),
        forall|j: int| 0 <= j < i ==> !stops_at(k, #[trigger] s[j]),
        i == s.len() || stops_at(k, s[i]),
    ensures
        scan(s, k) == i,
    decreases i,
{
    if i > 0 {
        let t = s.drop_first();
        assert forall|j: int| 0 <= j < i - 1 implies !stops_at(k, #[trigger] t[j]) by {
            assert(t[j] == s[j + 1]);
        }
        if i < s.len() {
            assert(t[i - 1] == s[i]);
        }
        lemma_scan_is(t, k, i - 1);
        assert(!stops_at(k, s[0]));
    }
}

proof fn lemma_keep_len_is(s: Seq<char>, i: int)
    requires
        0 <= i <= s.len(),
        forall|j: int| i <= j < s.len() ==> is_space(#[trigger] s[j]),
        i == 0 || !is_space(s[i - 1]),
    ensures
        keep_len(s) == i,
    decreases s.len(),
{
    if s.len() > i {
        let t = s.drop_last();
        assert forall|j: int| i <= j < t.len() implies is_space(#[trigger] t[j]) by {
            assert(t[j] == s[j]);
        }
        if i > 0 {
            assert(t[i - 1] == s[i - 1]);
        }
        lemma_keep_len_is(t, i);
        assert(is_space(s[s.len() - 1]));
    }
}

proof fn lemma_scan_props(s: Seq<char>, k: Stop)
    ensures
        scan(s, k) <= s.len(),
        forall|j: int| 0 <= j < scan(s, k) ==> !stops_at(k, #[trigger] s[j]),
        scan(s, k) < s.len() ==> stops_at(k, s[scan(s, k) as int]),
    decreases s.len(),
{
    if s.len() > 0 && !stops_at(k, s[0]) {
        let t = s.drop_first();
        lemma_scan_props(t, k);
        assert forall|j: int| 0 <= j < scan(s, k) implies !stops_at(k, #[trigger] s[j]) by {
            if j > 0 {
                assert(s[j] == t[j - 1]);
            }
        }
        if scan(s, k) < s.len() {
            assert(s[scan(s, k) as int] == t[scan(t, k) as int]);
        }
    }
}

proof fn lemma_keep_len_props(s: Seq<char>)
    ensures
        keep_len(s) <= s.len(),
        forall|j: int| keep_len(s) <= j < s.len() ==> is_space(#[trigger] s[j]),
        keep_len(s) > 0 ==> !is_space(s[keep_len(s) - 1]),
    decreases s.len(),
{
    if s.len() > 0 && is_space(s.last()) {
        let t = s.drop_last();
        lemma_keep_len_props(t);
        assert forall|j: int| keep_len(s) <= j < s.len() implies is_space(#[trigger] s[j]) by {
            if j < s.len() - 1 {
                assert(s[j] == t[j]);
            }
        }
        if keep_len(s) > 0 {
            assert(s[keep_len(s) - 1] == t[keep_len(t) - 1]);
        }
    }
}

/// What is left of a source line: the part before the first `;` (the whole
/// line when there is none), without the whitespace at either end. It is the
/// piece `s[a..b]` where `c` is the first `;`, everything in `s[..a]` and in
/// `s[b..c]` is whitespace, and the piece neither starts nor ends with
/// whitespace.
pub proof fn lemma_strip_comment(s: Seq<char>)
    ensures
        exists|a: int, b: int, c: int|
            #[trigger] comment_split(s, a, b, c) && strip_comment_spec(s) == s.subrange(a, b),
{
    let c = scan(s, Stop::Semicolon) as int;
    lemma_scan_props(s, Stop::Semicolon);
    let p = s.take(c);
    let a = scan(p, Stop::NonSpace) as int;
    lemma_scan_props(p, Stop::NonSpace);
    let t = p.skip(a);
    lemma_keep_len_props(t);
    let b = a + keep_len(t);
    assert(strip_comment_spec(s) =~= s.subrange(a, b));
    assert forall|i: int| 0 <= i < a implies is_space(#[trigger] s[i]) by {
        assert(p[i] == s[i]);
    }
    assert forall|i: int| b <= i < c implies is_space(#[trigger] s[i]) by {
        assert(t[i - a] == s[i]);
    }
    if a < b {
        assert(t[0] == s[a]);
        assert(p[a] == s[a]);
        assert(t[b - a - 1] == s[b - 1]);
    }
    assert(comment_split(s, a, b, c));
}

/// `s[a..b]` is the text of line `s` before its first `;` (at `c`, or the
/// end), with only whitespace around it.
pub open spec fn comment_split(s: Seq<char>, a: int, b: int, c: int) -> bool {
    &&& 0 <= a <= b <= c <= s.len()
    &&& c == s.len() || s[c] == ';'
    &&& forall|i: int| 0 <= i < c ==> #[trigger] s[i] != ';'
    &&& forall|i: int| 0 <= i < a ==> is_space(#[trigger] s[i])
    &&& forall|i: int| b <= i < c ==> is_space(#[trigger] s[i])
    &&& a < b ==> !is_space(s[a]) && !is_space(s[b - 1])
}

/// Scans `t[lo..hi]` forward for the first character that `k` stops at.
pub fn scan_range(t: &Vec<char>, lo: usize, hi: usize, k: Stop) -> (i: usize)
    requires
        lo <= hi <= t@.len(),
    ensures
        lo <= i <= hi,
        i - lo == scan(t@.subrange(lo as int, hi as int), k),
{
    let mut i = lo;
    while i < hi
        invariant
            lo <= i <= hi <= t@.len(),
            forall|j: int| lo <= j < i ==> !stops_at(k, #[trigger] t@[j]),
        ensures
            lo <= i <= hi,
            forall|j: int| lo <= j < i ==> !stops_at(k, #[trigger] t@[j]),
            i == hi || stops_at(k, t@[i as int]),
        decreases hi - i,
    {
        let c = t[i];
        let stop = match k {
            Stop::Semicolon => c == ';',
            Stop::Space => is_space_char(c),
            Stop::NonSpace => !is_space_char(c),
        };
        if stop {
            break;
        }
        i += 1;
    }
    proof {
        let s = t@.subrange(lo as int, hi as int);
        assert forall|j: int| 0 <= j < i - lo implies !stops_at(k, #[trigger] s[j]) by {
            assert(s[j] == t@[lo + j]);
        }
        if i < hi {
            assert(s[i - lo] == t@[i as int]);
        }
        lemma_scan_is(s, k, i - lo);
    }
    i
}

/// The end of `t[lo..hi]` once trailing whitespace is removed.
fn keep_end(t: &Vec<char>, lo: usize, hi: usize) -> (j: usize)
    requires
        lo <= hi <= t@.len(),
    ensures
        lo <= j <= hi,
        j - lo == keep_len(t@.subrange(lo as int, hi as int)),
{
    let mut j = hi;
    while j > lo
        invariant
            lo <= j <= hi <= t@.len(),
            forall|m: int| j <= m < hi ==> is_space(#[trigger] t@[m]),
        ensures
            lo <= j <= hi,
            forall|m: int| j <= m < hi ==> is_space(#[trigger] t@[m]),
            j == lo || !is_space(t@[j - 1]),
        decreases j - lo,
    {
        if !is_space_char(t[j - 1]) {
            break;
        }
        j -= 1;
    }
    proof {
        let s = t@.subrange(lo as int, hi as int);
        assert forall|m: int| j - lo <= m < s.len() implies is_space(#[trigger] s[m]) by {
            assert(s[m] == t@[lo + m]);
        }
        if j > lo {
            assert(s[j - lo - 1] == t@[j - 1]);
        }
        lemma_keep_len_is(s, j - lo);
    }
    j
}

/// `t[lo..hi]` trimmed, as the bounds of a subrange of `t`.
pub fn trim_range(t: &Vec<char>, lo: usize, hi: usize) -> (r: (usize, usize))
    requires
        lo <= hi <= t@.len(),
    ensures
        lo <= r.0 <= r.1 <= hi,
        t@.subrange(r.0 as int, r.1 as int) == trim(t@.subrange(lo as int, hi as int)),
{
    let a = scan_range(t, lo, hi, Stop::NonSpace);
    let b = keep_end(t, a, hi);
    proof {
        let s = t@.subrange(lo as int, hi as int);
        assert(trim_start(s) =~= t@.subrange(a as int, hi as int));
        assert(trim(s) =~= t@.subrange(a as int, b as int));
    }
    (a, b)
}

// ---------------------------------------------------------------------------
// Decimal integers, as `str::parse::<i64>` reads them
// ---------------------------------------------------------------------------

pub open spec fn is_digit(c: char) -> bool {
    '0' <= c <= '9'
}

pub open spec fn digit_value(c: char) -> int {
    c as int - '0' as int
}

/// The value of a string of decimal digits.
pub open spec fn digits_value(d: Seq<char>) -> int
    decreases d.len(),
{
    if d.len() == 0 {
        0
    } else {
        digits_value(d.drop_last()) * 10 + digit_value(d.last())
    }
}

/// Whether `tok` starts with a `+` or `-` sign.
pub open spec fn has_sign(tok: Seq<char>) -> bool {
    tok.len() > 0 && (tok[0] == '-' || tok[0] == '+')
}

/// `tok` without its sign.
pub open spec fn unsigned_part(tok: Seq<char>) -> Seq<char> {
    if has_sign(tok) {
        tok.drop_first()
    } else {
        tok
    }
}

pub open spec fn all_digits(d: Seq<char>) -> bool {
    forall|i: int| 0 <= i < d.len() ==> is_digit(#[trigger] d[i])
}

/// An optional `+` or `-` followed by at least one ASCII digit, whose value
/// fits in an `i64`; `None` otherwise.
pub open spec fn parse_i64_spec(tok: Seq<char>) -> Option<i64> {
    let d = unsigned_part(tok);
    let v = if tok.len() > 0 && tok[0] == '-' {
        -digits_value(d)
    } else {
        digits_value(d)
    };
    if d.len() == 0 || !all_digits(d) {
        None
    } else if v < i64::MIN || v > i64::MAX {
        None
    } else {
        Some(v as i64)
    }
}

proof fn lemma_digits_value_nonneg(d: Seq<char>)
    requires
        all_digits(d),
    ensures
        digits_value(d) >= 0,
    decreases d.len(),
{
    if d.len() > 0 {
        let e = d.drop_last();
        assert forall|i: int| 0 <= i < e.len() implies is_digit(#[trigger] e[i]) by {
            assert(e[i] == d[i]);
        }
        lemma_digits_value_nonneg(e);
        assert(is_digit(d[d.len() - 1]));
    }
}

proof fn lemma_parse_non_digit(tok: Seq<char>, k: int)
    requires
        0 <= k < unsigned_part(tok).len(),
        !is_digit(unsigned_part(tok)[k]),
    ensures
        parse_i64_spec(tok) is None,
{
}

/// Parses `t[lo..hi]` as `str::parse::<i64>` does.
pub fn parse_i64(t: &Vec<char>, lo: usize, hi: usize) -> (r: Option<i64>)
    requires
        lo <= hi <= t@.len(),
    ensures
        r == parse_i64_spec(t@.subrange(lo as int, hi as int)),
{
    let ghost tok = t@.subrange(lo as int, hi as int);
    let neg = lo < hi && t[lo] == '-';
    let signed = lo < hi && (t[lo] == '-' || t[lo] == '+');
    let start = if signed {
        lo + 1
    } else {
        lo
    };
    let ghost d = t@.subrange(start as int, hi as int);
    assert(tok.len() > 0 ==> tok[0] == t@[lo as int]);
    assert(d =~= unsigned_part(tok));
    if start == hi {
        return None;
    }
    // The magnitude so far, exact while it is at most 2^63.
    let mut mag: u128 = 0;
    let mut big = false;
    let mut i = start;
    while i < hi
        invariant
            start <= i <= hi <= t@.len(),
            d == t@.subrange(start as int, hi as int),
            tok == t@.subrange(lo as int, hi as int),
            neg == (tok.len() > 0 && tok[0] == '-'),
            d == unsigned_part(tok),
            forall|j: int| 0 <= j < i - start ==> is_digit(#[trigger] d[j]),
            !big ==> mag == digits_value(d.take(i - start)),
            !big ==> mag <= 0x8000_0000_0000_0000,
            big ==> digits_value(d.take(i - start)) > 0x8000_0000_0000_0000,
        decreases hi - i,
    {
        let c = t[i];
        if !('0' <= c && c <= '9') {
            assert(!is_digit(d[i - start]));
            proof {
                lemma_parse_non_digit(tok, (i - start) as int);
            }
            return None;
        }
        proof {
            assert(d.take(i - start + 1).drop_last() =~= d.take(i - start));
            assert(d[i - start] == c);
        }
        if !big {
            mag = mag * 10 + ((c as u32) - ('0' as u32)) as u128;
            if mag > 0x8000_0000_0000_0000 {
                big = true;
            }
        } else {
            proof {
                let p = d.take(i - start);
                assert forall|j: int| 0 <= j < p.len() implies is_digit(#[trigger] p[j]) by {
                    assert(p[j] == d[j]);
                }
                lemma_digits_value_nonneg(p);
            }
        }
        i += 1;
    }
    assert(d.take(hi - start) =~= d);
    assert(all_digits(d));
    proof {
        lemma_digits_value_nonneg(d);
    }
    if big {
        return None;
    }
    if neg {
        Some((0i128 - mag as i128) as i64)
    } else if mag > 0x7fff_ffff_ffff_ffff {
        None
    } else {
        Some(mag as i64)
    }
}

proof fn lemma_digit_char(k: int)
    requires
        0 <= k < 10,
    ensures
        is_digit(digit_char(k)),
        digit_value(digit_char(k)) == k,
        !is_space(digit_char(k)),
{
    let d = seq!['0', '1', '2', '3', '4', '5', '6', '7', '8', '9'];
    assert(d[0] == '0' && d[1] == '1' && d[2] == '2' && d[3] == '3' && d[4] == '4');
    assert(d[5] == '5' && d[6] == '6' && d[7] == '7' && d[8] == '8' && d[9] == '9');
}

/// The decimal digits of `n` are ASCII digits, at least one, with value `n`.
pub proof fn lemma_decimal_nat(n: nat)
    ensures
        decimal_nat(n).len() >= 1,
        all_digits(decimal_nat(n)),
        digits_value(decimal_nat(n)) == n,
        forall|i: int| 0 <= i < decimal_nat(n).len() ==> !is_space(#[trigger] decimal_nat(n)[i]),
    decreases n,
{
    if n < 10 {
        lemma_digit_char(n as int);
        assert(decimal_nat(n).drop_last() =~= Seq::<char>::empty());
        assert(digits_value(Seq::<char>::empty()) == 0);
        assert(decimal_nat(n).last() == digit_char(n as int));
    } else {
        lemma_decimal_nat(n / 10);
        lemma_digit_char((n % 10) as int);
        let d = decimal_nat(n);
        assert(d.drop_last() =~= decimal_nat(n / 10));
        assert(d.last() == digit_char((n % 10) as int));
        assert(digits_value(d) == digits_value(decimal_nat(n / 10)) * 10 + (n % 10));
        assert((n / 10) * 10 + n % 10 == n);
        assert forall|i: int| 0 <= i < d.len() implies is_digit(#[trigger] d[i]) && !is_space(
            d[i],
        ) by {
            if i < d.len() - 1 {
                assert(d[i] == decimal_nat(n / 10)[i]);
            }
        }
    }
}

/// Reading back what `decimal_int` writes gives the value again: the
/// decimal rendering and the `i64` reader agree on every `i64`.
pub proof fn lemma_decimal_parses_back(v: i64)
    ensures
        parse_i64_spec(decimal_int(v as int)) == Some(v),
        forall|i: int|
            0 <= i < decimal_int(v as int).len() ==> !is_space(#[trigger] decimal_int(v as int)[i]),
        decimal_int(v as int).len() >= 1,
{
    let tok = decimal_int(v as int);
    if v < 0 {
        let m = (-v) as nat;
        lemma_decimal_nat(m);
        assert(tok[0] == '-');
        assert(unsigned_part(tok) =~= decimal_nat(m));
        assert forall|i: int| 0 <= i < tok.len() implies !is_space(#[trigger] tok[i]) by {
            if i > 0 {
                assert(tok[i] == decimal_nat(m)[i - 1]);
            }
        }
    } else {
        lemma_decimal_nat(v as nat);
        assert(is_digit(tok[0]));
        assert(unsigned_part(tok) == tok);
    }
}

/// A `+` sign is accepted in front of a non-negative value.
pub proof fn lemma_plus_sign(n: nat)
    requires
        n <= i64::MAX,
    ensures
        parse_i64_spec(seq!['+'] + decimal_nat(n)) == Some(n as i64),
{
    lemma_decimal_nat(n);
    let tok = seq!['+'] + decimal_nat(n);
    assert(unsigned_part(tok) =~= decimal_nat(n));
}

/// The reader accepts only an optional sign and ASCII digits: an empty
/// token, a bare sign, or any other character anywhere (a sign after the
/// first position included) makes it fail.
pub proof fn lemma_parse_i64_rejects(tok: Seq<char>, i: int)
    ensures
        tok.len() == 0 ==> parse_i64_spec(tok) is None,
        tok == seq!['-'] || tok == seq!['+'] ==> parse_i64_spec(tok) is None,
        (0 <= i < tok.len() && !is_digit(tok[i]) && !(i == 0 && (tok[0] == '-' || tok[0]
            == '+'))) ==> parse_i64_spec(tok) is None,
{
    if tok == seq!['-'] || tok == seq!['+'] {
        assert(unsigned_part(tok).len() == 0);
    }
    if 0 <= i < tok.len() && !is_digit(tok[i]) && !(i == 0 && (tok[0] == '-' || tok[0] == '+')) {
        if has_sign(tok) {
            assert(unsigned_part(tok)[i - 1] == tok[i]);
            lemma_parse_non_digit(tok, i - 1);
        } else {
            lemma_parse_non_digit(tok, i);
        }
    }
}

// ---------------------------------------------------------------------------
// Case-insensitive ASCII comparison
// ---------------------------------------------------------------------------

/// The code of `c` after `char::to_ascii_uppercase`.
pub open spec fn upper_code(c: char) -> u32 {
    let u = c as u32;
    if 97 <= u <= 122 {
        (u - 32) as u32
    } else {
        u
    }
}

/// `w.to_ascii_uppercase() == m`.
pub open spec fn upper_eq(w: Seq<char>, m: Seq<char>) -> bool {
    &&& w.len() == m.len()
    &&& forall|i: int| 0 <= i < w.len() ==> upper_code(#[trigger] w[i]) == m[i] as u32
}

/// Whether `t[lo..hi]`, upper-cased, equals `m`.
pub fn upper_eq_range(t: &Vec<char>, lo: usize, hi: usize, m: &str) -> (b: bool)
    requires
        lo <= hi <= t@.len(),
    ensures
        b == upper_eq(t@.subrange(lo as int, hi as int), m@),
{
    let ghost w = t@.subrange(lo as int, hi as int);
    let n = m.unicode_len();
    if hi - lo != n {
        return false;
    }
    let mut i: usize = 0;
    while i < n
        invariant
            n == m@.len(),
            hi - lo == n,
            lo <= hi <= t@.len(),
            w == t@.subrange(lo as int, hi as int),
            forall|j: int| 0 <= j < i ==> upper_code(#[trigger] w[j]) == m@[j] as u32,
        decreases n - i,
    {
        let c = t[lo + i];
        let code = c as u32;
        let u: u32 = if 97 <= code && code <= 122 {
            code - 32
        } else {
            code
        };
        assert(w[i as int] == c);
        if u != m.get_char(i) as u32 {
            return false;
        }
        i += 1;
    }
    true
}

} // verus!
