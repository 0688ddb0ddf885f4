//! Size strings: rendering byte totals in binary units for display, and
//! parsing user-supplied size thresholds such as `100MB` or `1.5GB`.

use vstd::prelude::*;
use vstd::arithmetic::div_mod::{
    lemma_div_denominator,
    lemma_div_is_ordered,
    lemma_div_is_ordered_by_denominator,
    lemma_div_multiples_vanish_fancy,
    lemma_div_pos_is_pos,
    lemma_hoist_over_denominator,
};
use crate::cap_u64;
use crate::text::is_suffix_of;

verus! {

/// The decimal digit character for `d`.
pub open spec fn digit_char(d: int) -> char {
    if d == 0 {
        '0'
    } else if d == 1 {
        '1'
    } else if d == 2 {
        '2'
    } else if d == 3 {
        '3'
    } else if d == 4 {
        '4'
    } else if d == 5 {
        '5'
    } else if d == 6 {
        '6'
    } else if d == 7 {
        '7'
    } else if d == 8 {
        '8'
    } else {
        '9'
    }
}

/// The decimal rendering of `n`, most significant digit first.
pub open spec fn dec_rep(n: int) -> Seq<char>
    decreases n,
{
    if n < 10 {
        seq![digit_char(n)]
    } else {
        dec_rep(n / 10).push(digit_char(n % 10))
    }
}

fn digit_str(d: u64) -> (r: &'static str)
    requires
        d < 10,
    ensures
        r@ == seq![digit_char(d as int)],
        r@ == dec_rep(d as int),
{
    proof {
        reveal_strlit("0");
        reveal_strlit("1");
        reveal_strlit("2");
        reveal_strlit("3");
        reveal_strlit("4");
        reveal_strlit("5");
        reveal_strlit("6");
        reveal_strlit("7");
        reveal_strlit("8");
        reveal_strlit("9");
    }
    let r: &'static str = if d == 0 {
        "0"
    } else if d == 1 {
        "1"
    } else if d == 2 {
        "2"
    } else if d == 3 {
        "3"
    } else if d == 4 {
        "4"
    } else if d == 5 {
        "5"
    } else if d == 6 {
        "6"
    } else if d == 7 {
        "7"
    } else if d == 8 {
        "8"
    } else {
        "9"
    };
    proof {
        assert(r@ =~= seq![digit_char(d as int)]);
    }
    r
}

/// Renders `n` in decimal.
pub fn u64_to_string(n: u64) -> (s: String)
    ensures
        s@ == dec_rep(n as int),
    decreases n,
{
    if n < 10 {
        digit_str(n).to_owned()
    } else {
        let mut s = u64_to_string(n / 10);
        s.append(digit_str(n % 10));
        proof {
            assert(s@ =~= dec_rep((n / 10) as int).push(digit_char((n % 10) as int)));
        }
        s
    }
}

/// Which binary unit a byte count is displayed in: 0 for bytes up to 4 for
/// terabytes.
pub open spec fn unit_index_spec(bytes: int) -> int {
    if bytes < 1024 {
        0
    } else if bytes < 1048576 {
        1
    } else if bytes < 1073741824 {
        2
    } else if bytes < 1099511627776 {
        3
    } else {
        4
    }
}

/// Bytes per unit.
pub open spec fn unit_divisor_spec(u: int) -> int {
    if u <= 0 {
        1
    } else if u == 1 {
        1024
    } else if u == 2 {
        1048576
    } else if u == 3 {
        1073741824
    } else {
        1099511627776
    }
}

/// The unit label, with its separating space.
pub open spec fn unit_label_spec(u: int) -> Seq<char> {
    if u <= 0 {
        " B"@
    } else if u == 1 {
        " KB"@
    } else if u == 2 {
        " MB"@
    } else if u == 3 {
        " GB"@
    } else {
        " TB"@
    }
}

/// `bytes / d` in tenths, rounded to the nearest tenth with ties going to
/// the even tenth.
pub open spec fn scaled_tenths_spec(bytes: int, d: int) -> int {
    let q = (bytes * 10) / d;
    let r = (bytes * 10) % d;
    q + if 2 * r > d {
        1int
    } else if 2 * r == d {
        q % 2
    } else {
        0int
    }
}

/// What [`format_size`] renders: integer bytes below 1024, otherwise the
/// value scaled into its binary unit with one decimal place.
pub open spec fn format_size_spec(bytes: int) -> Seq<char> {
    let u = unit_index_spec(bytes);
    if u == 0 {
        dec_rep(bytes) + " B"@
    } else {
        let t = scaled_tenths_spec(bytes, unit_divisor_spec(u));
        dec_rep(t / 10) + "."@ + dec_rep(t % 10) + unit_label_spec(u)
    }
}

/// Renders a byte count for display: binary units from bytes to terabytes,
/// integer bytes below 1024, one decimal place above.
pub fn format_size(bytes: u64) -> (r: String)
    ensures
        r@ == format_size_spec(bytes as int),
{
    if bytes < 1024 {
        let mut s = u64_to_string(bytes);
        s.append(" B");
        proof {
            assert(s@ =~= format_size_spec(bytes as int));
        }
        return s;
    }
    let (div, label): (u64, &'static str) = if bytes < 1048576 {
        (1024, " KB")
    } else if bytes < 1073741824 {
        (1048576, " MB")
    } else if bytes < 1099511627776 {
        (1073741824, " GB")
    } else {
        (1099511627776, " TB")
    };
    let ghost u = unit_index_spec(bytes as int);
    proof {
        assert(div == unit_divisor_spec(u));
        assert(label@ == unit_label_spec(u));
    }
    let num: u128 = (bytes as u128) * 10;
    let d: u128 = div as u128;
    let q: u128 = num / d;
    let rem: u128 = num % d;
    let tie: u128 = if 2 * rem > d {
        1
    } else if 2 * rem == d {
        q % 2
    } else {
        0
    };
    proof {
        lemma_div_is_ordered_by_denominator(num as int, 1024, d as int);
        assert(q <= num / 1024);
    }
    let scaled_wide: u128 = q + tie;
    let scaled: u64 = scaled_wide as u64;
    proof {
        assert(scaled == scaled_tenths_spec(bytes as int, unit_divisor_spec(u)));
    }
    let mut s = u64_to_string(scaled / 10);
    s.append(".");
    s.append(digit_str(scaled % 10));
    s.append(label);
    proof {
        assert(s@ =~= format_size_spec(bytes as int));
    }
    s
}

// ------------------------------------------------------------------
// Size parsing.
// ------------------------------------------------------------------

/// Why a size string was rejected.
#[derive(Debug, Clone, Copy, PartialEq, Eq, Structural)]
pub enum SizeParseError {
    /// The string carries no recognized unit suffix and is not a plain byte
    /// count.
    InvalidFormat,
    /// The part before the unit suffix is not a decimal number.
    InvalidNumber,
}

/// ASCII whitespace, as trimmed from the ends of a size string.
pub open spec fn is_ascii_ws(c: char) -> bool {
    c == ' ' || c == '\t' || c == '\n' || c == '\r' || c == '\u{000C}'
}

/// `c` with an ASCII lowercase letter raised to its uppercase form.
pub open spec fn to_upper_ascii(c: char) -> char {
    if 'a' <= c && c <= 'z' {
        ((c as u8) - 32) as char
    } else {
        c
    }
}

pub open spec fn trim_front(s: Seq<char>) -> Seq<char>
    decreases s.len(),
{
    if s.len() > 0 && is_ascii_ws(s[0]) {
        trim_front(s.drop_first())
    } else {
        s
    }
}

pub open spec fn trim_back(s: Seq<char>) -> Seq<char>
    decreases s.len(),
{
    if s.len() > 0 && is_ascii_ws(s.last()) {
        trim_back(s.drop_last())
    } else {
        s
    }
}

pub open spec fn upper_seq(s: Seq<char>) -> Seq<char> {
    Seq::new(s.len(), |i: int| to_upper_ascii(s[i]))
}

/// A size string as compared against the grammar: whitespace trimmed from
/// both ends, lowercase ASCII raised, so units match case-insensitively.
pub open spec fn normalized(s: Seq<char>) -> Seq<char> {
    upper_seq(trim_back(trim_front(s)))
}

proof fn lemma_trim_front_is_subrange(s: Seq<char>, start: int)
    requires
        0 <= start <= s.len(),
        forall|k: int| 0 <= k < start ==> is_ascii_ws(s[k]),
        start < s.len() ==> !is_ascii_ws(s[start]),
    ensures
        trim_front(s) == s.subrange(start, s.len() as int),
    decreases s.len(),
{
    if start == 0 {
        assert(s.subrange(0, s.len() as int) =~= s);
    } else {
        lemma_trim_front_is_subrange(s.drop_first(), start - 1);
        assert(s.drop_first().subrange(start - 1, s.drop_first().len() as int) =~= s.subrange(
            start,
            s.len() as int,
        ));
    }
}

proof fn lemma_trim_back_is_subrange(s: Seq<char>, end: int)
    requires
        0 <= end <= s.len(),
        forall|k: int| end <= k < s.len() ==> is_ascii_ws(s[k]),
        end > 0 ==> !is_ascii_ws(s[end - 1]),
    ensures
        trim_back(s) == s.subrange(0, end),
    decreases s.len(),
{
    if s.len() == end {
        assert(s.subrange(0, end) =~= s);
    } else {
        lemma_trim_back_is_subrange(s.drop_last(), end);
        assert(s.drop_last().subrange(0, end) =~= s.subrange(0, end));
    }
}

fn is_ws_exec(c: char) -> (r: bool)
    ensures
        r == is_ascii_ws(c),
{
    c == ' ' || c == '\t' || c == '\n' || c == '\r' || c == '\u{000C}'
}

/// Trims ASCII whitespace from both ends and uppercases ASCII letters,
/// yielding the characters the size grammar is matched against.
fn normalize(s: &str) -> (v: Vec<char>)
    ensures
        v@ == normalized(s@),
{
    let n = s.unicode_len();
    let mut start: usize = 0;
    while start < n && is_ws_exec(s.get_char(start))
        invariant
            start <= n,
            n == s@.len(),
            forall|k: int| 0 <= k < start ==> is_ascii_ws(s@[k]),
        decreases n - start,
    {
        start = start + 1;
    }
    let mut end: usize = n;
    while end > start && is_ws_exec(s.get_char(end - 1))
        invariant
            start <= end <= n,
            n == s@.len(),
            forall|k: int| end <= k < n ==> is_ascii_ws(s@[k]),
        decreases end,
    {
        end = end - 1;
    }
    let ghost trimmed = s@.subrange(start as int, end as int);
    proof {
        lemma_trim_front_is_subrange(s@, start as int);
        if end == start {
            lemma_trim_back_is_subrange(s@.subrange(start as int, n as int), 0);
        } else {
            lemma_trim_back_is_subrange(s@.subrange(start as int, n as int), end - start);
        }
        assert(s@.subrange(start as int, n as int).subrange(0, end - start) =~= trimmed);
    }
    let mut v: Vec<char> = Vec::new();
    let mut j: usize = start;
    while j < end
        invariant
            start <= j <= end <= n,
            n == s@.len(),
            v@ == upper_seq(s@.subrange(start as int, j as int)),
        decreases end - j,
    {
        let c = s.get_char(j);
        let u = if c >= 'a' && c <= 'z' {
            ((c as u8) - 32) as char
        } else {
            c
        };
        let ghost old_v = v@;
        v.push(u);
        proof {
            assert(v@ =~= upper_seq(s@.subrange(start as int, j + 1)));
        }
        j = j + 1;
    }
    proof {
        assert(v@ =~= normalized(s@));
    }
    v
}

/// A decimal digit.
pub open spec fn is_digit(c: char) -> bool {
    '0' <= c && c <= '9'
}

pub open spec fn digit_val(c: char) -> int {
    c as int - '0' as int
}

/// The number the digit characters of `t` spell in decimal.
pub open spec fn digits_val(t: Seq<char>) -> int
    decreases t.len(),
{
    if t.len() == 0 {
        0
    } else {
        digits_val(t.drop_last()) * 10 + digit_val(t.last())
    }
}

proof fn lemma_digits_val_nonneg(t: Seq<char>)
    requires
        forall|k: int| 0 <= k < t.len() ==> is_digit(t[k]),
    ensures
        digits_val(t) >= 0,
    decreases t.len(),
{
    if t.len() > 0 {
        lemma_digits_val_nonneg(t.drop_last());
    }
}

/// Ten to the `k`.
pub open spec fn pow10(k: int) -> int
    decreases k,
{
    if k <= 0 {
        1
    } else {
        10 * pow10(k - 1)
    }
}

proof fn lemma_pow10_pos(k: int)
    ensures
        pow10(k) >= 1,
    decreases k,
{
    if k > 0 {
        lemma_pow10_pos(k - 1);
    }
}

proof fn lemma_digits_val_front(c: char, s: Seq<char>)
    ensures
        digits_val(seq![c] + s) == digit_val(c) * pow10(s.len() as int) + digits_val(s),
    decreases s.len(),
{
    if s.len() == 0 {
        assert(seq![c] + s =~= seq![c]);
        assert(seq![c].drop_last() =~= Seq::<char>::empty());
        assert(digits_val(Seq::<char>::empty()) == 0);
        assert(digits_val(seq![c]) == digits_val(seq![c].drop_last()) * 10 + digit_val(
            seq![c].last(),
        ));
    } else {
        lemma_digits_val_front(c, s.drop_last());
        assert((seq![c] + s).drop_last() =~= seq![c] + s.drop_last());
        assert((seq![c] + s).last() == s.last());
        assert((digit_val(c) * pow10(s.len() - 1)) * 10 == digit_val(c) * pow10(s.len() as int))
            by (nonlinear_arith)
            requires pow10(s.len() as int) == 10 * pow10(s.len() - 1),
        ;
    }
}

/// Accumulates the digits `t[from..to]` into a `u64`. The second component
/// reports that the value exceeds `u64::MAX`.
fn digits_to_u64(t: &Vec<char>, from: usize, to: usize) -> (r: (u64, bool))
    requires
        from <= to <= t@.len(),
        forall|k: int| from <= k < to ==> is_digit(t@[k]),
    ensures
        !r.1 ==> r.0 == digits_val(t@.subrange(from as int, to as int)),
        r.1 ==> digits_val(t@.subrange(from as int, to as int)) > u64::MAX,
{
    let mut val: u64 = 0;
    let mut big = false;
    let mut j: usize = from;
    while j < to
        invariant
            from <= j <= to <= t@.len(),
            forall|k: int| from <= k < to ==> is_digit(t@[k]),
            !big ==> val == digits_val(t@.subrange(from as int, j as int)),
            big ==> digits_val(t@.subrange(from as int, j as int)) > u64::MAX,
        decreases to - j,
    {
        let ghost pre = t@.subrange(from as int, j as int);
        let ghost post = t@.subrange(from as int, j + 1);
        proof {
            assert(post.drop_last() =~= pre);
            assert(post.last() == t@[j as int]);
            lemma_digits_val_nonneg(pre);
        }
        let c = t[j];
        let d: u64 = ((c as u8) - 48) as u64;
        proof {
            assert(d == digit_val(t@[j as int]));
        }
        if !big {
            if val > (u64::MAX - d) / 10 {
                big = true;
                proof {
                    assert(digits_val(post) == val * 10 + d);
                    assert(val >= (u64::MAX - d) / 10 + 1);
                    assert((val as int) * 10 + d > u64::MAX) by (nonlinear_arith)
                        requires val as int >= ((u64::MAX - d) as int) / 10 + 1, 0 <= d <= 9,
                    ;
                }
            } else {
                proof {
                    assert((val as int) * 10 + d <= u64::MAX) by (nonlinear_arith)
                        requires val as int <= ((u64::MAX - d) as int) / 10, 0 <= d <= 9,
                    ;
                }
                val = val * 10 + d;
            }
        } else {
            proof {
                lemma_digits_val_nonneg(pre);
                assert(digits_val(post) == digits_val(pre) * 10 + d);
                assert(digits_val(pre) * 10 >= digits_val(pre)) by (nonlinear_arith)
                    requires digits_val(pre) >= 0,
                ;
            }
        }
        j = j + 1;
    }
    (val, big)
}

/// The position of the first `'.'` of `t`, or `t.len()` if it has none.
pub open spec fn dot_index(t: Seq<char>) -> int
    decreases t.len(),
{
    if t.len() == 0 {
        0
    } else if t[0] == '.' {
        0
    } else {
        1 + dot_index(t.drop_first())
    }
}

proof fn lemma_dot_index(t: Seq<char>, pos: int)
    requires
        0 <= pos <= t.len(),
        forall|k: int| 0 <= k < pos ==> t[k] != '.',
        pos < t.len() ==> t[pos] == '.',
    ensures
        dot_index(t) == pos,
    decreases t.len(),
{
    if pos == 0 {
        if t.len() > 0 && t[0] != '.' {
            assert(false);
        }
    } else {
        lemma_dot_index(t.drop_first(), pos - 1);
    }
}

/// The number part before the unit suffix is a decimal numeral: digits with
/// at most one point among them, and at least one digit.
pub open spec fn valid_decimal(t: Seq<char>) -> bool {
    &&& forall|k: int| 0 <= k < t.len() ==> (is_digit(t[k]) || t[k] == '.')
    &&& exists|k: int| 0 <= k < t.len() && is_digit(t[k])
    &&& forall|k: int| 0 <= k < t.len() && t[k] == '.' ==> k == dot_index(t)
}

/// The digits before the point.
pub open spec fn int_part(t: Seq<char>) -> Seq<char> {
    t.take(dot_index(t))
}

/// The digits after the point (none if there is no point).
pub open spec fn frac_part(t: Seq<char>) -> Seq<char> {
    if dot_index(t) < t.len() {
        t.skip(dot_index(t) + 1)
    } else {
        Seq::empty()
    }
}

/// The whole number of bytes the decimal numeral `t` denotes at `mult`
/// bytes per unit: the exact product, rounded down.
pub open spec fn decimal_bytes(t: Seq<char>, mult: int) -> int {
    let k = frac_part(t).len() as int;
    (digits_val(int_part(t)) * pow10(k) + digits_val(frac_part(t))) * mult / pow10(k)
}

/// The unit suffix of `t` and its byte multiplier, if `t` carries one.
/// Two-letter units are matched before the bare `B`.
pub open spec fn unit_split(t: Seq<char>) -> Option<(Seq<char>, int)> {
    if is_suffix_of("TB"@, t) {
        Some((t.take(t.len() - 2), 1099511627776int))
    } else if is_suffix_of("GB"@, t) {
        Some((t.take(t.len() - 2), 1073741824int))
    } else if is_suffix_of("MB"@, t) {
        Some((t.take(t.len() - 2), 1048576int))
    } else if is_suffix_of("KB"@, t) {
        Some((t.take(t.len() - 2), 1024int))
    } else if is_suffix_of("B"@, t) {
        Some((t.take(t.len() - 1), 1int))
    } else {
        None
    }
}

/// Whether every character of `t` is a digit (a bare byte count).
pub open spec fn all_digits(t: Seq<char>) -> bool {
    forall|k: int| 0 <= k < t.len() ==> is_digit(t[k])
}

/// What [`parse_size`] accepts and returns.
///
/// After trimming and uppercasing: a bare numeral is a byte count, rejected
/// only if it exceeds `u64::MAX`; a numeral with a `B`/`KB`/`MB`/`GB`/`TB`
/// suffix (binary multipliers) may carry a fractional part and denotes the
/// exact product rounded down, clamped at `u64::MAX`; anything else is
/// rejected, with the error telling a missing unit from a malformed number.
pub open spec fn parse_size_spec(s: Seq<char>) -> Result<u64, SizeParseError> {
    let t = normalized(s);
    if t.len() > 0 && all_digits(t) {
        if digits_val(t) <= u64::MAX {
            Ok(digits_val(t) as u64)
        } else {
            Err(SizeParseError::InvalidFormat)
        }
    } else {
        match unit_split(t) {
            Option::None => Err(SizeParseError::InvalidFormat),
            Option::Some((num, mult)) => if valid_decimal(num) {
                Ok(cap_u64(decimal_bytes(num, mult)))
            } else {
                Err(SizeParseError::InvalidNumber)
            },
        }
    }
}

proof fn lemma_suffix2_chars(t: Seq<char>, p: Seq<char>)
    requires
        p.len() == 2,
    ensures
        is_suffix_of(p, t) <==> (t.len() >= 2 && t[t.len() - 2] == p[0] && t[t.len() - 1] == p[
            1
        ]),
{
    if t.len() >= 2 {
        let sub = t.subrange(t.len() - 2, t.len() as int);
        if t[t.len() - 2] == p[0] && t[t.len() - 1] == p[1] {
            assert(p =~= sub);
        }
        if is_suffix_of(p, t) {
            assert(sub[0] == t[t.len() - 2] && sub[1] == t[t.len() - 1]);
        }
    }
}

proof fn lemma_suffix1_chars(t: Seq<char>, p: Seq<char>)
    requires
        p.len() == 1,
    ensures
        is_suffix_of(p, t) <==> (t.len() >= 1 && t[t.len() - 1] == p[0]),
{
    if t.len() >= 1 {
        let sub = t.subrange(t.len() - 1, t.len() as int);
        if t[t.len() - 1] == p[0] {
            assert(p =~= sub);
        }
        if is_suffix_of(p, t) {
            assert(sub[0] == t[t.len() - 1]);
        }
    }
}

proof fn lemma_horner_step(d: int, s: int, mult: int, p: int)
    requires
        0 <= d,
        0 <= s,
        1 <= mult,
        1 <= p,
    ensures
        ((d * p + s) * mult) / (p * 10) == (d * mult + (s * mult) / p) / 10,
{
    assert((d * p + s) * mult == s * mult + (d * mult) * p) by (nonlinear_arith);
    assert((d * p + s) * mult >= 0) by (nonlinear_arith)
        requires 0 <= d, 0 <= s, 1 <= mult, 1 <= p,
    ;
    let x = (d * p + s) * mult;
    lemma_div_denominator(x, p, 10);
    assert(x / (p * 10) == (x / p) / 10);
    lemma_hoist_over_denominator(s * mult, d * mult, p as nat);
    assert((s * mult) / p + d * mult == (s * mult + (d * mult) * p) / p);
    assert(x / p == d * mult + (s * mult) / p);
}

/// Parses a size threshold: a plain byte count, or a decimal value with a
/// case-insensitive binary-unit suffix, such as `100MB`, `1GB` or `1.5KB`.
#[verifier::rlimit(100)]
pub fn parse_size(size_str: &str) -> (r: Result<u64, SizeParseError>)
    ensures
        r == parse_size_spec(size_str@),
{
    let t = normalize(size_str);
    let ghost ts = t@;
    let n = t.len();

    // A bare numeral is a raw byte count.
    let mut seen_all_digits = n > 0;
    let mut j: usize = 0;
    while j < n
        invariant
            j <= n,
            n == ts.len(),
            ts == t@,
            seen_all_digits == (n > 0 && forall|k: int| 0 <= k < j ==> is_digit(ts[k])),
        decreases n - j,
    {
        let c = t[j];
        if !(c >= '0' && c <= '9') {
            seen_all_digits = false;
        }
        j = j + 1;
    }
    if seen_all_digits {
        let (v, big) = digits_to_u64(&t, 0, n);
        proof {
            assert(ts.subrange(0, n as int) =~= ts);
        }
        if big {
            return Err(SizeParseError::InvalidFormat);
        } else {
            return Ok(v);
        }
    }

    // The unit suffix, longest first.
    proof {
        reveal_strlit("TB");
        reveal_strlit("GB");
        reveal_strlit("MB");
        reveal_strlit("KB");
        reveal_strlit("B");
        lemma_suffix2_chars(ts, "TB"@);
        lemma_suffix2_chars(ts, "GB"@);
        lemma_suffix2_chars(ts, "MB"@);
        lemma_suffix2_chars(ts, "KB"@);
        lemma_suffix1_chars(ts, "B"@);
    }
    let (numlen, mult): (usize, u64) = if n >= 2 && t[n - 2] == 'T' && t[n - 1] == 'B' {
        (n - 2, 1099511627776)
    } else if n >= 2 && t[n - 2] == 'G' && t[n - 1] == 'B' {
        (n - 2, 1073741824)
    } else if n >= 2 && t[n - 2] == 'M' && t[n - 1] == 'B' {
        (n - 2, 1048576)
    } else if n >= 2 && t[n - 2] == 'K' && t[n - 1] == 'B' {
        (n - 2, 1024)
    } else if n >= 1 && t[n - 1] == 'B' {
        (n - 1, 1)
    } else {
        return Err(SizeParseError::InvalidFormat);
    };
    let ghost num = ts.take(numlen as int);
    proof {
        assert(unit_split(ts) == Some((num, mult as int)));
        assert(num.len() == numlen);
        assert(forall|k: int| 0 <= k < numlen ==> num[k] == ts[k]);
    }

    // The number part must be a decimal numeral.
    let mut chars_ok = true;
    let mut digit_seen = false;
    let mut dots: usize = 0;
    let mut first_dot: usize = numlen;
    let mut i: usize = 0;
    while i < numlen
        invariant
            i <= numlen <= ts.len(),
            ts == t@,
            dots <= i,
            chars_ok == (forall|k: int| 0 <= k < i ==> (is_digit(ts[k]) || ts[k] == '.')),
            digit_seen == (exists|k: int| 0 <= k < i && is_digit(ts[k])),
            dots == 0 ==> (forall|k: int| 0 <= k < i ==> ts[k] != '.') && first_dot == numlen,
            dots >= 1 ==> first_dot < i && ts[first_dot as int] == '.',
            dots == 1 ==> (forall|k: int| 0 <= k < i && ts[k] == '.' ==> k == first_dot),
            dots >= 2 ==> (exists|k: int|
                0 <= k < i && k != first_dot && #[trigger] ts[k] == '.'),
        decreases numlen - i,
    {
        let c = t[i];
        if !((c >= '0' && c <= '9') || c == '.') {
            chars_ok = false;
        }
        if c >= '0' && c <= '9' {
            digit_seen = true;
        }
        if c == '.' {
            if dots == 0 {
                first_dot = i;
            }
            dots = dots + 1;
        }
        i = i + 1;
    }
    if !chars_ok || !digit_seen || dots > 1 {
        proof {
            if chars_ok && digit_seen && dots > 1 {
                if valid_decimal(num) {
                    let k2 = choose|k: int|
                        0 <= k < numlen && k != first_dot && #[trigger] ts[k] == '.';
                    assert(num[first_dot as int] == '.' && num[k2] == '.');
                    assert(first_dot == dot_index(num) && k2 == dot_index(num));
                    assert(false);
                }
            }
        }
        return Err(SizeParseError::InvalidNumber);
    }
    proof {
        lemma_dot_index(num, first_dot as int);
        assert(valid_decimal(num));
    }

    // Integer part.
    let (ival, ibig) = digits_to_u64(&t, 0, first_dot);
    proof {
        assert(ts.subrange(0, first_dot as int) =~= int_part(num));
    }

    // Fractional part, scaled by the multiplier: an exact floor, one digit
    // at a time from the right.
    let fstart: usize = if dots == 0 {
        numlen
    } else {
        first_dot + 1
    };
    let ghost fseq = frac_part(num);
    proof {
        if dots == 0 {
            assert(fseq =~= ts.subrange(fstart as int, numlen as int));
        } else {
            assert(fseq =~= ts.subrange(fstart as int, numlen as int));
        }
        lemma_pow10_pos(0);
    }
    let mut acc: u64 = 0;
    let mut w: usize = numlen;
    while w > fstart
        invariant
            fstart <= w <= numlen <= ts.len(),
            ts == t@,
            1 <= mult <= 1099511627776,
            fseq == ts.subrange(fstart as int, numlen as int),
            forall|k: int| fstart <= k < numlen ==> is_digit(ts[k]),
            acc < mult,
            acc == (digits_val(ts.subrange(w as int, numlen as int)) * mult) / pow10(
                numlen - w,
            ),
        decreases w,
    {
        let ghost oldsuf = ts.subrange(w as int, numlen as int);
        let ghost newsuf = ts.subrange(w - 1, numlen as int);
        let ghost p = pow10(numlen - w);
        let c = t[w - 1];
        proof {
            assert(is_digit(ts[w - 1]));
            assert(48 <= c as int <= 57);
        }
        let d: u64 = ((c as u8) - 48) as u64;
        proof {
            assert(d == digit_val(ts[w - 1]));
            assert(d <= 9);
            assert(newsuf =~= seq![ts[w - 1]] + oldsuf);
            lemma_digits_val_front(ts[w - 1], oldsuf);
            lemma_digits_val_nonneg(oldsuf);
            lemma_pow10_pos(numlen - w);
            lemma_horner_step(d as int, digits_val(oldsuf), mult as int, p);
            assert(pow10(numlen - (w - 1)) == 10 * p);
            assert((digits_val(newsuf) * mult) / pow10(numlen - (w - 1)) == (d * mult
                + (digits_val(oldsuf) * mult) / p) / 10) by {
                assert(digits_val(newsuf) == d * p + digits_val(oldsuf));
                assert(p * 10 == 10 * p);
            }
            // The new accumulator stays below the multiplier.
            assert((d as int * mult + acc) / 10 < mult) by {
                assert(d as int * mult <= 9 * mult) by (nonlinear_arith)
                    requires d <= 9, mult >= 1,
                ;
                lemma_div_is_ordered(d as int * mult + acc, 10 * (mult - 1) + 9, 10);
                lemma_div_multiples_vanish_fancy(mult as int - 1, 9, 10);
            }
        }
        acc = (d * mult + acc) / 10;
        w = w - 1;
    }
    let ghost k = fseq.len() as int;
    let ghost pk = pow10(k);
    let ghost iv = digits_val(int_part(num));
    let ghost fv = digits_val(fseq);
    proof {
        assert(acc == (fv * mult) / pk);
        lemma_pow10_pos(k);
        lemma_digits_val_nonneg(fseq);
        lemma_digits_val_nonneg(int_part(num));
        lemma_div_pos_is_pos(fv * mult, pk);
        assert(fv * mult >= 0) by (nonlinear_arith)
            requires fv >= 0, mult >= 1,
        ;
        // The exact quotient splits into the integer part's contribution
        // plus the scaled fraction.
        lemma_hoist_over_denominator(fv * mult, iv * (mult as int), pk as nat);
        assert((iv * pk + fv) * mult == fv * mult + (iv * (mult as int)) * pk)
            by (nonlinear_arith);
        assert(decimal_bytes(num, mult as int) == iv * (mult as int) + (fv * mult) / pk);
    }
    if ibig {
        proof {
            assert(iv * (mult as int) >= iv) by (nonlinear_arith)
                requires iv >= 0, mult >= 1,
            ;
            assert(decimal_bytes(num, mult as int) > u64::MAX);
        }
        return Ok(u64::MAX);
    }
    let tot: u128 = (ival as u128) * (mult as u128) + (acc as u128);
    let res: u64 = if tot > u64::MAX as u128 {
        u64::MAX
    } else {
        tot as u64
    };
    proof {
        assert(tot == iv * (mult as int) + (fv * mult) / pk);
        assert(res == cap_u64(decimal_bytes(num, mult as int)));
    }
    Ok(res)
}

} // verus!
