use vstd::prelude::*;

use crate::error::Error;

use vstd::arithmetic::div_mod::{lemma_fundamental_div_mod, lemma_fundamental_div_mod_converse};

verus! {

/// Microseconds in one minute.
pub const MICROS_PER_MINUTE: i64 = 60_000_000;

/// Microseconds in one hour.
pub const MICROS_PER_HOUR: i64 = 3_600_000_000;

/// Largest magnitude, in microseconds, of a numeric time value.
pub const MAX_MICROS: i64 = 4_000_000_000_000_000_000;

/// A time of day or a duration, either as text (`"6:30"`, `"6,30"`,
/// `"6.5:0"`, `"-1:30"`) or as a number of hours since midnight held in fixed
/// point (microseconds).
#[derive(Debug, Clone)]
pub enum NumOrStr {
    Str(String),
    Num(i64),
}

pub open spec fn is_sep(c: char) -> bool {
    c == ':' || c == ','
}

pub open spec fn is_digit(c: char) -> bool {
    '0' <= c && c <= '9'
}

pub open spec fn digit_value(c: char) -> nat {
    (c as nat - '0' as nat) as nat
}

/// Position of the first separator in `s`, or its length when there is none.
pub open spec fn sep_index(s: Seq<char>) -> nat
    decreases s.len(),
{
    if s.len() == 0 || is_sep(s[0]) {
        0
    } else {
        1 + sep_index(s.drop_first())
    }
}

/// Every character of `p` is a decimal digit.
pub open spec fn all_digits(p: Seq<char>) -> bool {
    forall|i: int| 0 <= i < p.len() ==> is_digit(#[trigger] p[i])
}

/// A non-empty run of decimal digits.
pub open spec fn is_digit_run(p: Seq<char>) -> bool {
    p.len() > 0 && all_digits(p)
}

/// Number of leading decimal digits of `s`.
pub open spec fn digit_run_len(s: Seq<char>) -> nat
    decreases s.len(),
{
    if s.len() == 0 || !is_digit(s[0]) {
        0
    } else {
        1 + digit_run_len(s.drop_first())
    }
}

/// Length of the sign of a part: one for a leading `+` or `-`, else zero.
pub open spec fn sign_len(p: Seq<char>) -> int {
    if p.len() > 0 && (p[0] == '+' || p[0] == '-') {
        1
    } else {
        0
    }
}

/// The part without its sign.
pub open spec fn unsigned_body(p: Seq<char>) -> Seq<char> {
    p.subrange(sign_len(p), p.len() as int)
}

/// The digits of an unsigned number before its decimal point.
pub open spec fn int_digits(b: Seq<char>) -> Seq<char> {
    b.subrange(0, digit_run_len(b) as int)
}

/// What follows the integer digits of an unsigned number.
pub open spec fn after_int(b: Seq<char>) -> Seq<char> {
    b.subrange(digit_run_len(b) as int, b.len() as int)
}

/// An unsigned number has a decimal point after its integer digits.
pub open spec fn has_point(b: Seq<char>) -> bool {
    after_int(b).len() > 0 && after_int(b)[0] == '.'
}

/// The digits of an unsigned number after its decimal point.
pub open spec fn frac_digits(b: Seq<char>) -> Seq<char> {
    if has_point(b) {
        let r = after_int(b).drop_first();
        r.subrange(0, digit_run_len(r) as int)
    } else {
        Seq::empty()
    }
}

/// What follows the digits and the decimal point of an unsigned number.
pub open spec fn after_frac(b: Seq<char>) -> Seq<char> {
    if has_point(b) {
        let r = after_int(b).drop_first();
        r.subrange(digit_run_len(r) as int, r.len() as int)
    } else {
        after_int(b)
    }
}

/// An exponent after its `e`: an optional sign and a run of digits.
pub open spec fn is_exponent(x: Seq<char>) -> bool {
    is_digit_run(unsigned_body(x))
}

/// The value of an exponent.
pub open spec fn exponent_value(x: Seq<char>) -> int {
    if x.len() > 0 && x[0] == '-' {
        -digits_value(unsigned_body(x))
    } else {
        digits_value(unsigned_body(x)) as int
    }
}

/// An unsigned number: decimal digits, optionally a decimal point followed
/// by more digits, with at least one digit in all, then optionally `e` or
/// `E` and an exponent.
pub open spec fn is_unsigned_number(b: Seq<char>) -> bool {
    &&& int_digits(b).len() + frac_digits(b).len() > 0
    &&& after_frac(b).len() == 0 || ((after_frac(b)[0] == 'e' || after_frac(b)[0] == 'E')
        && is_exponent(after_frac(b).drop_first()))
}

/// A numeric part: an optional sign and an unsigned number (`"6"`, `"-1"`,
/// `"6.5"`, `"+.5"`, `"7."`, `"6e0"`, `"2.5E-1"`). `inf` and `NaN` have no
/// fixed-point value and are not numeric parts.
pub open spec fn is_numeric_part(p: Seq<char>) -> bool {
    is_unsigned_number(unsigned_body(p))
}

/// The exponent of an unsigned number, zero where it has none.
pub open spec fn exponent_of(b: Seq<char>) -> int {
    if after_frac(b).len() == 0 {
        0
    } else {
        exponent_value(after_frac(b).drop_first())
    }
}

/// All the digits of an unsigned number, the decimal point left out.
pub open spec fn mantissa(b: Seq<char>) -> Seq<char> {
    int_digits(b) + frac_digits(b)
}

/// Where the decimal point stands in the mantissa once the exponent has
/// moved it.
pub open spec fn point_of(b: Seq<char>) -> int {
    int_digits(b).len() + exponent_of(b)
}

pub open spec fn pow10(n: nat) -> nat
    decreases n,
{
    if n == 0 {
        1
    } else {
        10 * pow10((n - 1) as nat)
    }
}

/// Digit `i` of `d`, zero outside it.
pub open spec fn digit_at(d: Seq<char>, i: int) -> nat {
    if 0 <= i < d.len() {
        digit_value(d[i])
    } else {
        0
    }
}

/// The whole number that the digits of `d` before position `p` spell.
pub open spec fn whole_value(d: Seq<char>, p: int) -> nat
    decreases p,
{
    if p <= 0 {
        0
    } else {
        whole_value(d, p - 1) * 10 + digit_at(d, p - 1)
    }
}

/// The `n` digits of `d` from position `p` on, as a number.
pub open spec fn digits_from(d: Seq<char>, p: int, n: nat) -> nat
    decreases n,
{
    if n == 0 {
        0
    } else {
        digits_from(d, p, (n - 1) as nat) * 10 + digit_at(d, p + n - 1)
    }
}

/// The value of an unsigned number counted in `unit` microseconds, in
/// whole microseconds: the exponent moves the decimal point, the fraction
/// is read to nine places and the result truncated.
#[verifier::opaque]
pub open spec fn magnitude(b: Seq<char>, unit: int) -> int {
    whole_value(mantissa(b), point_of(b)) * unit + (digits_from(mantissa(b), point_of(b), 9) * unit)
        / 1_000_000_000
}

/// The magnitude of a part counted in `unit` microseconds.
pub open spec fn part_magnitude(p: Seq<char>, unit: int) -> int {
    magnitude(unsigned_body(p), unit)
}

/// The value of a part counted in `unit` microseconds, if it is numeric and
/// within range; truncated towards zero to whole microseconds.
pub open spec fn part_value(p: Seq<char>, unit: int) -> Option<int> {
    if is_numeric_part(p) && part_magnitude(p, unit) <= MAX_MICROS {
        if p.len() > 0 && p[0] == '-' {
            Some(-part_magnitude(p, unit))
        } else {
            Some(part_magnitude(p, unit))
        }
    } else {
        None
    }
}

/// The number that a run of decimal digits spells.
pub open spec fn digits_value(p: Seq<char>) -> nat
    decreases p.len(),
{
    if p.len() == 0 {
        0
    } else {
        digits_value(p.drop_last()) * 10 + digit_value(p.last())
    }
}

/// The first field of `s`: what stands before the first separator.
pub open spec fn hour_field(s: Seq<char>) -> Seq<char> {
    s.subrange(0, sep_index(s) as int)
}

/// The second field of `s`: what stands between its first two separators.
pub open spec fn minute_field(s: Seq<char>) -> Seq<char> {
    let rest = s.subrange(sep_index(s) as int + 1, s.len() as int);
    rest.subrange(0, sep_index(rest) as int)
}

/// `hours + minutes / 60`, in microseconds.
pub open spec fn micros_of(hours: nat, minutes: nat) -> int {
    hours * MICROS_PER_HOUR + minutes * MICROS_PER_MINUTE
}

/// The value that a textual time denotes: `hours + minutes / 60` where both
/// of its first two fields are numeric parts, each within range and the sum
/// too.
pub open spec fn text_value(s: Seq<char>) -> Option<int> {
    if sep_index(s) < s.len() {
        match (part_value(hour_field(s), MICROS_PER_HOUR as int), part_value(minute_field(s), MICROS_PER_MINUTE as int)) {
            (Some(h), Some(m)) => if -MAX_MICROS <= h + m <= MAX_MICROS {
                Some(h + m)
            } else {
                None
            },
            _ => None,
        }
    } else {
        None
    }
}

/// Decimal notation of a natural number, without leading zeros.
pub open spec fn decimal(n: nat) -> Seq<char>
    decreases n,
{
    if n < 10 {
        seq![digit_char(n)]
    } else {
        decimal(n / 10).push(digit_char(n % 10))
    }
}

pub open spec fn digit_char(d: nat) -> char {
    (('0' as nat) + d) as char
}

/// Whole hours of a value, truncated; a negative value counts as zero.
pub open spec fn whole_hours(v: int) -> nat {
    if v < 0 {
        0
    } else {
        (v / MICROS_PER_HOUR as int) as nat
    }
}

/// Whole minutes of a value past its whole hours, truncated.
pub open spec fn whole_minutes(v: int) -> nat {
    if v < 0 {
        0
    } else {
        ((v % MICROS_PER_HOUR as int) / MICROS_PER_MINUTE as int) as nat
    }
}

/// The text `"{hours}:{minutes}"` of a numeric value.
pub open spec fn text_of(v: int) -> Seq<char> {
    decimal(whole_hours(v)) + seq![':'] + decimal(whole_minutes(v))
}

impl NumOrStr {
    /// A numeric value lies within the representable range.
    pub open spec fn wf(&self) -> bool {
        match self {
            NumOrStr::Num(v) => -MAX_MICROS <= *v <= MAX_MICROS,
            NumOrStr::Str(_) => true,
        }
    }

    /// The value in microseconds, if there is one.
    pub open spec fn numeric(&self) -> Option<int> {
        match self {
            NumOrStr::Num(v) => Some(*v as int),
            NumOrStr::Str(s) => text_value(s@),
        }
    }

    /// The textual form.
    pub open spec fn text(&self) -> Seq<char> {
        match self {
            NumOrStr::Num(v) => text_of(*v as int),
            NumOrStr::Str(s) => s@,
        }
    }
}


/// Largest hour part that can stand in a value within range.
const HOUR_PART_CAP: u64 = 1_111_111_111;

/// Exponents beyond this move every digit out of range.
const EXP_CAP: u128 = 1_267_650_600_228_229_401_496_703_205_376;

/// Largest minute part that can stand in a value within range.
const MINUTE_PART_CAP: u64 = 66_666_666_666;

proof fn lemma_sep_index(t: Seq<char>, i: int)
    requires
        0 <= i <= t.len(),
        forall|j: int| 0 <= j < i ==> !is_sep(#[trigger] t[j]),
        i == t.len() || is_sep(t[i]),
    ensures
        sep_index(t) == i,
    decreases i,
{
    if i > 0 {
        let u = t.drop_first();
        assert forall|j: int| 0 <= j < i - 1 implies !is_sep(#[trigger] u[j]) by {
            assert(u[j] == t[j + 1]);
        }
        if i - 1 < u.len() {
            assert(u[i - 1] == t[i]);
        }
        lemma_sep_index(u, i - 1);
    }
}

proof fn lemma_digits_prefix(p: Seq<char>, j: int)
    requires
        0 <= j <= p.len(),
    ensures
        digits_value(p.subrange(0, j)) <= digits_value(p),
    decreases p.len(),
{
    if j == p.len() {
        assert(p.subrange(0, j) =~= p);
    } else {
        let q = p.drop_last();
        assert(p.subrange(0, j) =~= q.subrange(0, j));
        lemma_digits_prefix(q, j);
    }
}

/// Position of the first separator of `s` at or after `from`, or its length.
fn sep_from(s: &str, from: usize, n: usize) -> (r: usize)
    requires
        n == s@.len(),
        from <= n,
    ensures
        r == from + sep_index(s@.subrange(from as int, n as int)),
        r <= n,
{
    let mut i: usize = from;
    while i < n
        invariant
            n == s@.len(),
            from <= i <= n,
            forall|j: int| from <= j < i ==> !is_sep(#[trigger] s@[j]),
        ensures
            from <= i <= n,
            forall|j: int| from <= j < i ==> !is_sep(#[trigger] s@[j]),
            i < n ==> is_sep(s@[i as int]),
        decreases n - i,
    {
        let c = s.get_char(i);
        if c == ':' || c == ',' {
            break;
        }
        i = i + 1;
    }
    let ghost t = s@.subrange(from as int, n as int);
    proof {
        assert forall|j: int| 0 <= j < i - from implies !is_sep(#[trigger] t[j]) by {
            assert(t[j] == s@[from + j]);
        }
        if i < n {
            assert(t[i - from] == s@[i as int]);
        }
        lemma_sep_index(t, i - from);
    }
    i
}

/// The number spelled by `s[from..to]`, if it is all digits and no larger
/// than `cap`.
fn parse_digits(s: &str, from: usize, to: usize, cap: u128) -> (r: Option<u128>)
    requires
        from <= to <= s@.len(),
        cap <= EXP_CAP,
    ensures
        ({
            let p = s@.subrange(from as int, to as int);
            r == if all_digits(p) && digits_value(p) <= cap {
                Some(digits_value(p) as u128)
            } else {
                None::<u128>
            }
        }),
{
    let ghost p = s@.subrange(from as int, to as int);
    let mut acc: u128 = 0;
    let mut i: usize = from;
    while i < to
        invariant
            from <= i <= to <= s@.len(),
            p == s@.subrange(from as int, to as int),
            cap <= EXP_CAP,
            acc == digits_value(p.subrange(0, i - from)),
            acc <= cap,
            forall|j: int| 0 <= j < i - from ==> is_digit(#[trigger] p[j]),
        decreases to - i,
    {
        let c = s.get_char(i);
        assert(p[i - from] == c);
        if !('0' <= c && c <= '9') {
            return None;
        }
        let d = (c as u32 - '0' as u32) as u128;
        let ghost q = p.subrange(0, i - from + 1);
        proof {
            assert(q.drop_last() =~= p.subrange(0, i - from));
            assert(q.last() == c);
        }
        let next: u128 = acc * 10 + d;
        if next > cap {
            proof {
                lemma_digits_prefix(p, i - from + 1);
            }
            return None;
        }
        acc = next;
        i = i + 1;
    }
    assert(p.subrange(0, i - from) =~= p);
    Some(acc)
}

/// Relies on `format!` with the `Display` of `u64`: each number in decimal
/// notation without leading zeros, joined by a colon.
#[verifier::external_body]
fn format_hm(hours: u64, minutes: u64) -> (r: String)
    ensures
        r@ == decimal(hours as nat) + seq![':'] + decimal(minutes as nat),
{
    format!("{}:{}", hours, minutes)
}


proof fn lemma_digit_run(t: Seq<char>, i: int)
    requires
        0 <= i <= t.len(),
        forall|j: int| 0 <= j < i ==> is_digit(#[trigger] t[j]),
        i == t.len() || !is_digit(t[i]),
    ensures
        digit_run_len(t) == i,
    decreases i,
{
    if i > 0 {
        let u = t.drop_first();
        assert forall|j: int| 0 <= j < i - 1 implies is_digit(#[trigger] u[j]) by {
            assert(u[j] == t[j + 1]);
        }
        if i - 1 < u.len() {
            assert(u[i - 1] == t[i]);
        }
        lemma_digit_run(u, i - 1);
    }
}

proof fn lemma_pow10_mono(a: nat, b: nat)
    requires
        a <= b,
    ensures
        pow10(a) <= pow10(b),
    decreases b,
{
    if a < b {
        lemma_pow10_mono(a, (b - 1) as nat);
    }
}

proof fn lemma_pow10_values()
    ensures
        pow10(9) == 1_000_000_000,
        pow10(20) == 100_000_000_000_000_000_000,
{
    reveal_with_fuel(pow10, 21);
}

proof fn lemma_whole_mono(d: Seq<char>, i: int, p: int)
    requires
        0 <= i <= p,
    ensures
        whole_value(d, i) <= whole_value(d, p),
    decreases p - i,
{
    if i < p {
        lemma_whole_mono(d, i, p - 1);
    }
}

proof fn lemma_whole_zero_tail(d: Seq<char>, i: int, p: int)
    requires
        0 <= i <= p,
        i >= d.len(),
        whole_value(d, i) == 0,
    ensures
        whole_value(d, p) == 0,
    decreases p - i,
{
    if i < p {
        lemma_whole_zero_tail(d, i, p - 1);
    }
}

proof fn lemma_whole_all_zero(d: Seq<char>, p: int)
    requires
        forall|k: int| #[trigger] digit_at(d, k) == 0,
    ensures
        whole_value(d, p) == 0,
    decreases p,
{
    if p > 0 {
        lemma_whole_all_zero(d, p - 1);
        assert(digit_at(d, p - 1) == 0);
    }
}

proof fn lemma_digits_from_zero(d: Seq<char>, p: int, n: nat)
    requires
        forall|k: int| 0 <= k < n ==> #[trigger] digit_at(d, p + k) == 0,
    ensures
        digits_from(d, p, n) == 0,
    decreases n,
{
    if n > 0 {
        lemma_digits_from_zero(d, p, (n - 1) as nat);
        assert(digit_at(d, p + (n - 1)) == 0);
    }
}

proof fn lemma_whole_grows(d: Seq<char>, i0: int, p: int)
    requires
        0 <= i0 < p,
        digit_at(d, i0) >= 1,
    ensures
        whole_value(d, p) >= pow10((p - 1 - i0) as nat),
    decreases p,
{
    if p - 1 > i0 {
        lemma_whole_grows(d, i0, p - 1);
        assert(pow10((p - 1 - i0) as nat) == 10 * pow10((p - 2 - i0) as nat));
    } else {
        assert(pow10(0) == 1);
    }
}

proof fn lemma_whole_prefix(d: Seq<char>, k: int)
    requires
        0 <= k <= d.len(),
    ensures
        whole_value(d, k) == digits_value(d.subrange(0, k)),
    decreases k,
{
    if k > 0 {
        lemma_whole_prefix(d, k - 1);
        let q = d.subrange(0, k);
        assert(q.drop_last() =~= d.subrange(0, k - 1));
        assert(q.last() == d[k - 1]);
    }
}

/// End of the run of digits of `s` that starts at `from` and stops by `to`.
fn run_end(s: &str, from: usize, to: usize) -> (r: usize)
    requires
        from <= to <= s@.len(),
    ensures
        r == from + digit_run_len(s@.subrange(from as int, to as int)),
        from <= r <= to,
        forall|j: int| from <= j < r ==> is_digit(#[trigger] s@[j]),
        r < to ==> !is_digit(s@[r as int]),
{
    let mut i: usize = from;
    while i < to
        invariant
            from <= i <= to <= s@.len(),
            forall|j: int| from <= j < i ==> is_digit(#[trigger] s@[j]),
        ensures
            from <= i <= to,
            forall|j: int| from <= j < i ==> is_digit(#[trigger] s@[j]),
            i < to ==> !is_digit(s@[i as int]),
        decreases to - i,
    {
        let c = s.get_char(i);
        if !('0' <= c && c <= '9') {
            break;
        }
        i = i + 1;
    }
    let ghost t = s@.subrange(from as int, to as int);
    proof {
        assert forall|j: int| 0 <= j < i - from implies is_digit(#[trigger] t[j]) by {
            assert(t[j] == s@[from + j]);
        }
        if i < to {
            assert(t[i - from] == s@[i as int]);
        }
        lemma_digit_run(t, i - from);
    }
    i
}

/// The digits `s[from..j]` followed by `s[fs..fe]`.
pub open spec fn two_runs(s: Seq<char>, from: int, j: int, fs: int, fe: int) -> Seq<char> {
    s.subrange(from, j) + s.subrange(fs, fe)
}

/// `s[from..j]` and `s[fs..fe]` are runs of digits within `s`.
pub open spec fn runs_ok(s: Seq<char>, from: int, j: int, fs: int, fe: int) -> bool {
    &&& 0 <= from <= j <= s.len()
    &&& 0 <= fs <= fe <= s.len()
    &&& forall|k: int| from <= k < j ==> is_digit(#[trigger] s[k])
    &&& forall|k: int| fs <= k < fe ==> is_digit(#[trigger] s[k])
}

/// Digit `i` of the digits `s[from..j]` followed by `s[fs..fe]`.
fn mant_digit(s: &str, from: usize, j: usize, fs: usize, fe: usize, i: i128) -> (r: u128)
    requires
        runs_ok(s@, from as int, j as int, fs as int, fe as int),
    ensures
        r == digit_at(two_runs(s@, from as int, j as int, fs as int, fe as int), i as int),
        r <= 9,
{
    let ghost d = two_runs(s@, from as int, j as int, fs as int, fe as int);
    let ilen: i128 = (j - from) as i128;
    let flen: i128 = (fe - fs) as i128;
    if i < 0 || i >= ilen + flen {
        0
    } else if i < ilen {
        let k: usize = from + i as usize;
        let c = s.get_char(k);
        assert(d[i as int] == s@[k as int]);
        (c as u32 - '0' as u32) as u128
    } else {
        let k: usize = fs + (i - ilen) as usize;
        let c = s.get_char(k);
        assert(d[i as int] == s@[k as int]);
        (c as u32 - '0' as u32) as u128
    }
}

/// The whole number before position `point` of the digits, if no larger
/// than `cap`.
fn whole_part(s: &str, from: usize, j: usize, fs: usize, fe: usize, point: i128, cap: u128) -> (r:
    Option<u128>)
    requires
        runs_ok(s@, from as int, j as int, fs as int, fe as int),
        cap <= 1_000_000_000_000,
    ensures
        ({
            let w = whole_value(two_runs(s@, from as int, j as int, fs as int, fe as int), point as int);
            r == if w <= cap {
                Some(w as u128)
            } else {
                None::<u128>
            }
        }),
{
    let ghost d = two_runs(s@, from as int, j as int, fs as int, fe as int);
    let total: i128 = (j - from) as i128 + (fe - fs) as i128;
    let mut acc: u128 = 0;
    let mut i: i128 = 0;
    while i < point && !(i >= total && acc == 0)
        invariant
            0 <= i,
            point > 0 ==> i <= point,
            point <= 0 ==> i == 0,
            total == d.len(),
            runs_ok(s@, from as int, j as int, fs as int, fe as int),
            d == two_runs(s@, from as int, j as int, fs as int, fe as int),
            acc == whole_value(d, i as int),
            acc <= cap,
            cap <= 1_000_000_000_000,
        decreases point - i,
    {
        let next: u128 = acc * 10 + mant_digit(s, from, j, fs, fe, i);
        if next > cap {
            proof {
                lemma_whole_mono(d, i + 1, point as int);
            }
            return None;
        }
        acc = next;
        i = i + 1;
    }
    proof {
        if point <= 0 {
            assert(whole_value(d, point as int) == 0);
        } else if i < point {
            lemma_whole_zero_tail(d, i as int, point as int);
        }
    }
    assert(acc == whole_value(d, point as int));
    assert(acc <= cap);
    Some(acc)
}

/// Nine digits from position `point` on, as a number.
fn nano_part(s: &str, from: usize, j: usize, fs: usize, fe: usize, point: i128) -> (r: u128)
    requires
        runs_ok(s@, from as int, j as int, fs as int, fe as int),
        -0x1_0000_0000_0000_0000_0000_0000_0000 <= point <= 0x1_0000_0000_0000_0000_0000_0000_0000,
    ensures
        r == digits_from(two_runs(s@, from as int, j as int, fs as int, fe as int), point as int, 9),
        r < 1_000_000_000,
{
    let ghost d = two_runs(s@, from as int, j as int, fs as int, fe as int);
    let mut nano: u128 = 0;
    let mut n: u32 = 0;
    proof {
        lemma_pow10_values();
    }
    while n < 9
        invariant
            n <= 9,
            runs_ok(s@, from as int, j as int, fs as int, fe as int),
            d == two_runs(s@, from as int, j as int, fs as int, fe as int),
            -0x1_0000_0000_0000_0000_0000_0000_0000 <= point <= 0x1_0000_0000_0000_0000_0000_0000_0000,
            nano == digits_from(d, point as int, n as nat),
            nano < pow10(n as nat),
            pow10(9) == 1_000_000_000,
        decreases 9 - n,
    {
        let dg = mant_digit(s, from, j, fs, fe, point + n as i128);
        proof {
            lemma_pow10_mono(n as nat, 8);
            let q = pow10(n as nat) as int;
            assert(pow10((n + 1) as nat) == 10 * q);
            assert(pow10(9) == 10 * pow10(8));
            assert(nano * 10 + dg < 10 * q) by (nonlinear_arith)
                requires
                    nano < q,
                    dg <= 9,
            ;
        }
        nano = nano * 10 + dg;
        n = n + 1;
    }
    nano
}

/// The position of a non-zero digit, if there is one.
fn nonzero_digit(s: &str, from: usize, j: usize, fs: usize, fe: usize) -> (r: Option<i128>)
    requires
        runs_ok(s@, from as int, j as int, fs as int, fe as int),
    ensures
        match r {
            Some(k) => 0 <= k < (j - from) + (fe - fs) && digit_at(
                two_runs(s@, from as int, j as int, fs as int, fe as int),
                k as int,
            ) >= 1,
            None => forall|q: int|
                #[trigger] digit_at(two_runs(s@, from as int, j as int, fs as int, fe as int), q)
                    == 0,
        },
{
    let ghost d = two_runs(s@, from as int, j as int, fs as int, fe as int);
    let total: i128 = (j - from) as i128 + (fe - fs) as i128;
    let mut k: i128 = 0;
    while k < total
        invariant
            0 <= k <= total,
            total == d.len(),
            runs_ok(s@, from as int, j as int, fs as int, fe as int),
            d == two_runs(s@, from as int, j as int, fs as int, fe as int),
            forall|q: int| 0 <= q < k ==> #[trigger] digit_at(d, q) == 0,
        decreases total - k,
    {
        if mant_digit(s, from, j, fs, fe, k) != 0 {
            return Some(k);
        }
        k = k + 1;
    }
    assert forall|q: int| #[trigger] digit_at(d, q) == 0 by {
        if 0 <= q < total {
            assert(digit_at(d, q) == 0);
        }
    }
    None
}

/// The magnitude of the unsigned number `s[from..to]` counted in `unit`
/// microseconds, if it is one and within range.
#[verifier::rlimit(100)]
fn parse_magnitude(s: &str, from: usize, to: usize, unit: u64, cap: u64) -> (r: Option<u64>)
    requires
        from <= to <= s@.len(),
        (unit == MICROS_PER_HOUR && cap == HOUR_PART_CAP) || (unit == MICROS_PER_MINUTE && cap
            == MINUTE_PART_CAP),
    ensures
        ({
            let b = s@.subrange(from as int, to as int);
            r == if is_unsigned_number(b) && magnitude(b, unit as int) <= MAX_MICROS {
                Some(magnitude(b, unit as int) as u64)
            } else {
                None::<u64>
            }
        }),
        match r {
            Some(m) => m as int == magnitude(s@.subrange(from as int, to as int), unit as int) && m
                <= MAX_MICROS,
            None => true,
        },
{
    let ghost b = s@.subrange(from as int, to as int);
    let j = run_end(s, from, to);
    assert(int_digits(b) =~= s@.subrange(from as int, j as int));
    assert(after_int(b) =~= s@.subrange(j as int, to as int));
    let mut fs: usize = j;
    let mut fe: usize = j;
    let point_here = j < to && s.get_char(j) == '.';
    if j < to {
        assert(after_int(b)[0] == s@[j as int]);
    }
    if point_here {
        fs = j + 1;
        fe = run_end(s, j + 1, to);
        assert(after_int(b).drop_first() =~= s@.subrange(j + 1, to as int));
    }
    let me = fe;
    assert(frac_digits(b) =~= s@.subrange(fs as int, fe as int));
    assert(after_frac(b) =~= s@.subrange(me as int, to as int));
    let ghost d = mantissa(b);
    assert(d =~= two_runs(s@, from as int, j as int, fs as int, fe as int));
    if (j - from) + (fe - fs) == 0 {
        return None;
    }
    let (e_neg, e_val, e_big) = match parse_exponent(s, me, to) {
        Some(e) => e,
        None => return None,
    };
    let ilen: i128 = (j - from) as i128;
    proof {
        reveal(magnitude);
    }
    if e_big {
        if e_neg {
            proof {
                assert(point_of(b) < -9);
                assert forall|k: int| 0 <= k < 9 implies #[trigger] digit_at(d, point_of(b) + k)
                    == 0 by {}
                lemma_digits_from_zero(d, point_of(b), 9);
            }
            return Some(0);
        }
        match nonzero_digit(s, from, j, fs, fe) {
            Some(k) => {
                proof {
                    let p = point_of(b);
                    lemma_whole_grows(d, k as int, p);
                    lemma_pow10_mono(20, (p - 1 - k) as nat);
                    lemma_pow10_values();
                    let w = whole_value(d, p);
                    let nf = digits_from(d, p, 9);
                    assert(w * unit + (nf * unit) / 1_000_000_000 > MAX_MICROS) by (nonlinear_arith)
                        requires
                            w >= 100_000_000_000_000_000_000,
                            unit >= 60_000_000,
                            nf >= 0,
                    ;
                }
                return None;
            },
            None => {
                proof {
                    lemma_whole_all_zero(d, point_of(b));
                    lemma_digits_from_zero(d, point_of(b), 9);
                }
                return Some(0);
            },
        }
    }
    let point: i128 = if e_neg {
        ilen - e_val as i128
    } else {
        ilen + e_val as i128
    };
    assert(exponent_of(b) == if e_neg {
        -(e_val as int)
    } else {
        e_val as int
    });
    assert(point == point_of(b));
    let whole = match whole_part(s, from, j, fs, fe, point, cap as u128) {
        Some(w) => w,
        None => {
            proof {
                let w = whole_value(d, point as int);
                let nf = digits_from(d, point as int, 9);
                assert(w * unit + (nf * unit) / 1_000_000_000 > MAX_MICROS) by (nonlinear_arith)
                    requires
                        w > cap,
                        (unit == 3_600_000_000 && cap == 1_111_111_111) || (unit == 60_000_000
                            && cap == 66_666_666_666),
                        nf >= 0,
                ;
            }
            return None;
        },
    };
    let nano = nano_part(s, from, j, fs, fe, point);
    assert(whole * unit <= 4_000_000_000_000_000_000) by (nonlinear_arith)
        requires
            whole <= cap,
            (unit == 3_600_000_000 && cap == 1_111_111_111) || (unit == 60_000_000 && cap
                == 66_666_666_666),
    ;
    assert(nano * unit <= 3_600_000_000_000_000_000) by (nonlinear_arith)
        requires
            nano <= 1_000_000_000,
            unit <= 3_600_000_000,
    ;
    let mag: u128 = whole * unit as u128 + nano * unit as u128 / 1_000_000_000;
    if mag > MAX_MICROS as u128 {
        None
    } else {
        Some(mag as u64)
    }
}

/// The exponent of the unsigned number whose text after its digits is
/// `s[me..to]`: its sign, and its size or that it exceeds the cap.
fn parse_exponent(s: &str, me: usize, to: usize) -> (r: Option<(bool, u128, bool)>)
    requires
        me <= to <= s@.len(),
    ensures
        ({
            let t = s@.subrange(me as int, to as int);
            let ok = t.len() == 0 || ((t[0] == 'e' || t[0] == 'E') && is_exponent(t.drop_first()));
            match r {
                Some((neg, v, big)) => ok && (t.len() == 0 ==> !neg && v == 0 && !big) && (t.len()
                    > 0 ==> (neg == (t.drop_first().len() > 0 && t.drop_first()[0] == '-')) && (big
                    ==> digits_value(unsigned_body(t.drop_first())) > EXP_CAP) && (!big ==> v
                    == digits_value(unsigned_body(t.drop_first())) && v <= EXP_CAP)),
                None => !ok,
            }
        }),
{
    let ghost t = s@.subrange(me as int, to as int);
    if me == to {
        return Some((false, 0, false));
    }
    let c = s.get_char(me);
    assert(t[0] == c);
    if c != 'e' && c != 'E' {
        return None;
    }
    let ghost x = t.drop_first();
    assert(x =~= s@.subrange(me + 1, to as int));
    let mut xs: usize = me + 1;
    let mut neg = false;
    if xs < to {
        let c2 = s.get_char(xs);
        assert(x[0] == c2);
        if c2 == '+' || c2 == '-' {
            neg = c2 == '-';
            xs = xs + 1;
        }
    }
    assert(neg == (x.len() > 0 && x[0] == '-'));
    let ghost u = unsigned_body(x);
    assert(u =~= s@.subrange(xs as int, to as int));
    if xs == to {
        return None;
    }
    let xe = run_end(s, xs, to);
    if xe < to {
        assert(u[xe - xs] == s@[xe as int]);
        return None;
    }
    assert(all_digits(u)) by {
        assert forall|k: int| 0 <= k < u.len() implies is_digit(#[trigger] u[k]) by {
            assert(u[k] == s@[xs + k]);
        }
    }
    match parse_digits(s, xs, to, EXP_CAP) {
        Some(v) => Some((neg, v, false)),
        None => Some((neg, 0, true)),
    }
}

/// The value of the part `s[from..to]` counted in `unit` microseconds.
fn parse_part(s: &str, from: usize, to: usize, unit: u64, cap: u64) -> (r: Option<i64>)
    requires
        from <= to <= s@.len(),
        (unit == MICROS_PER_HOUR && cap == HOUR_PART_CAP) || (unit == MICROS_PER_MINUTE && cap
            == MINUTE_PART_CAP),
    ensures
        match part_value(s@.subrange(from as int, to as int), unit as int) {
            Some(v) => r == Some(v as i64) && -MAX_MICROS <= v <= MAX_MICROS,
            None => r is None,
        },
{
    let ghost p = s@.subrange(from as int, to as int);
    let mut start: usize = from;
    let mut neg = false;
    if from < to {
        let c = s.get_char(from);
        assert(p[0] == c);
        if c == '+' || c == '-' {
            neg = c == '-';
            start = from + 1;
        }
    }
    assert(unsigned_body(p) =~= s@.subrange(start as int, to as int));
    match parse_magnitude(s, start, to, unit, cap) {
        Some(mag) => if neg {
            Some(-(mag as i64))
        } else {
            Some(mag as i64)
        },
        None => None,
    }
}

/// The value of a textual time, in microseconds.
fn parse_text(s: &str) -> (r: Option<i64>)
    ensures
        r == match text_value(s@) {
            Some(v) => Some(v as i64),
            None => None::<i64>,
        },
{
    let n = s.unicode_len();
    let i = sep_from(s, 0, n);
    assert(s@.subrange(0, n as int) =~= s@);
    if i >= n {
        return None;
    }
    let j = sep_from(s, i + 1, n);
    let ghost rest = s@.subrange(i + 1, n as int);
    assert(s@.subrange(0, i as int) =~= hour_field(s@));
    assert(s@.subrange(i + 1, j as int) =~= minute_field(s@)) by {
        assert(rest.subrange(0, j - i - 1) =~= s@.subrange(i + 1, j as int));
    }
    let h = match parse_part(s, 0, i, 3_600_000_000, HOUR_PART_CAP) {
        Some(h) => h,
        None => return None,
    };
    let m = match parse_part(s, i + 1, j, 60_000_000, MINUTE_PART_CAP) {
        Some(m) => m,
        None => return None,
    };
    assert(part_value(hour_field(s@), MICROS_PER_HOUR as int) == Some(h as int));
    assert(part_value(minute_field(s@), MICROS_PER_MINUTE as int) == Some(m as int));
    let v: i64 = h + m;
    if v < -MAX_MICROS || v > MAX_MICROS {
        None
    } else {
        Some(v)
    }
}

impl NumOrStr {
    /// The numeric form: a number as it is, a text converted to
    /// `hours + minutes / 60`.
    pub fn as_num(&self) -> (r: Result<NumOrStr, Error>)
        ensures
            r == match self.numeric() {
                Some(v) => Ok(NumOrStr::Num(v as i64)),
                None => Err(Error::Parse),
            },
    {
        match self {
            NumOrStr::Num(v) => Ok(NumOrStr::Num(*v)),
            NumOrStr::Str(s) => match parse_text(s.as_str()) {
                Some(v) => Ok(NumOrStr::Num(v)),
                None => Err(Error::Parse),
            },
        }
    }

    /// The textual form: a text as it is, a number as `"{hours}:{minutes}"`,
    /// each truncated.
    pub fn as_str(&self) -> (r: NumOrStr)
        ensures
            r is Str,
            r.text() == self.text(),
    {
        NumOrStr::Str(self.to_text())
    }

    /// The text `as_str` holds: a text as it is, a number as
    /// `"{hours}:{minutes}"`, each truncated.
    pub fn to_text(&self) -> (r: String)
        ensures
            r@ == self.text(),
    {
        match self {
            NumOrStr::Str(s) => s.clone(),
            NumOrStr::Num(v) => {
                let (hours, minutes) = if *v < 0 {
                    (0u64, 0u64)
                } else {
                    let u = *v as u64;
                    (u / 3_600_000_000u64, (u % 3_600_000_000u64) / 60_000_000u64)
                };
                format_hm(hours, minutes)
            },
        }
    }

    /// The value in microseconds, converting a text first.
    pub fn get_num(&self) -> (r: Result<i64, Error>)
        ensures
            r == match self.numeric() {
                Some(v) => Ok(v as i64),
                None => Err(Error::Parse),
            },
    {
        match self {
            NumOrStr::Num(v) => Ok(*v),
            NumOrStr::Str(s) => match parse_text(s.as_str()) {
                Some(v) => Ok(v),
                None => Err(Error::Parse),
            },
        }
    }
}


/// A text with hour `h` and minute `m < 60` comes back from its numeric form
/// as `"{h}:{m}"`: the two conversions lose only leading zeros.
pub proof fn lemma_round_trip(s: Seq<char>, v: int)
    requires
        is_digit_run(hour_field(s)),
        is_digit_run(minute_field(s)),
        text_value(s) == Some(v),
        digits_value(minute_field(s)) < 60,
    ensures
        text_of(v) == decimal(digits_value(hour_field(s))) + seq![':'] + decimal(
            digits_value(minute_field(s)),
        ),
{
    let h = digits_value(hour_field(s)) as int;
    let m = digits_value(minute_field(s)) as int;
    lemma_digit_run_value(hour_field(s), MICROS_PER_HOUR as int);
    lemma_digit_run_value(minute_field(s), MICROS_PER_MINUTE as int);
    let r = m * MICROS_PER_MINUTE;
    assert(0 <= r < MICROS_PER_HOUR) by (nonlinear_arith)
        requires
            0 <= m < 60,
            r == m * 60_000_000,
    ;
    lemma_fundamental_div_mod_converse(v, MICROS_PER_HOUR as int, h, r);
    lemma_fundamental_div_mod_converse(r, MICROS_PER_MINUTE as int, m, 0);
}

/// The text of a non-negative value truncates it to whole minutes: read
/// back, it is never above the value and less than a minute below it.
pub proof fn lemma_text_truncates(v: int)
    requires
        0 <= v,
    ensures
        whole_minutes(v) < 60,
        micros_of(whole_hours(v), whole_minutes(v)) <= v < micros_of(whole_hours(v), whole_minutes(v))
            + MICROS_PER_MINUTE,
{
    let hr = MICROS_PER_HOUR as int;
    let mn = MICROS_PER_MINUTE as int;
    lemma_fundamental_div_mod(v, hr);
    lemma_fundamental_div_mod(v % hr, mn);
    let q = v / hr;
    let r = v % hr;
    let q2 = r / mn;
    assert(0 <= r < hr);
    assert(0 <= v % hr % mn < mn);
    assert(0 <= q2 < 60) by (nonlinear_arith)
        requires
            0 <= r < 3_600_000_000,
            r == 60_000_000 * q2 + r % 60_000_000,
            0 <= r % 60_000_000 < 60_000_000,
    ;
    assert(q >= 0) by (nonlinear_arith)
        requires
            v >= 0,
            v == 3_600_000_000 * q + r,
            r < 3_600_000_000,
    ;
}


/// A run of digits reads as the number it spells, with no fraction.
proof fn lemma_digit_run_value(p: Seq<char>, unit: int)
    requires
        is_digit_run(p),
    ensures
        is_numeric_part(p),
        !(p[0] == '-'),
        part_magnitude(p, unit) == digits_value(p) * unit,
{
    assert(is_digit(p[0]));
    assert(unsigned_body(p) =~= p);
    lemma_digit_run(p, p.len() as int);
    assert(int_digits(p) =~= p);
    assert(after_int(p).len() == 0);
    assert(after_frac(p).len() == 0);
    assert(mantissa(p) =~= p);
    assert(point_of(p) == p.len());
    lemma_whole_prefix(p, p.len() as int);
    assert(p.subrange(0, p.len() as int) =~= p);
    assert forall|k: int| 0 <= k < 9 implies #[trigger] digit_at(p, p.len() + k) == 0 by {}
    lemma_digits_from_zero(p, p.len() as int, 9);
    reveal(magnitude);
}

proof fn lemma_decimal(n: nat)
    ensures
        is_digit_run(decimal(n)),
        digits_value(decimal(n)) == n,
    decreases n,
{
    if n >= 10 {
        lemma_decimal(n / 10);
        let d = decimal(n);
        assert(d.drop_last() =~= decimal(n / 10));
        assert(d.last() == digit_char(n % 10));
        assert(digit_value(digit_char(n % 10)) == n % 10);
        assert(n == (n / 10) * 10 + n % 10);
        assert(digits_value(d) == digits_value(d.drop_last()) * 10 + digit_value(d.last()));
        assert forall|i: int| 0 <= i < d.len() implies is_digit(#[trigger] d[i]) by {
            if i < d.len() - 1 {
                assert(d[i] == decimal(n / 10)[i]);
            }
        }
    } else {
        let d = decimal(n);
        assert(d.drop_last() =~= Seq::<char>::empty());
        assert(digit_value(digit_char(n)) == n);
        assert(digits_value(d) == digits_value(d.drop_last()) * 10 + digit_value(d.last()));
    }
}

proof fn lemma_digits_no_sep(p: Seq<char>)
    requires
        is_digit_run(p),
    ensures
        sep_index(p) == p.len(),
{
    assert forall|j: int| 0 <= j < p.len() implies !is_sep(#[trigger] p[j]) by {
        assert(is_digit(p[j]));
    }
    lemma_sep_index(p, p.len() as int);
}

/// The text of a value in range reads back as the value truncated to whole
/// minutes, which is never above it and less than a minute below it.
pub proof fn lemma_text_reads_back(v: int)
    requires
        0 <= v <= MAX_MICROS,
    ensures
        text_value(text_of(v)) == Some(micros_of(whole_hours(v), whole_minutes(v))),
        micros_of(whole_hours(v), whole_minutes(v)) <= v < micros_of(whole_hours(v), whole_minutes(v))
            + MICROS_PER_MINUTE,
{
    lemma_text_truncates(v);
    let a = decimal(whole_hours(v));
    let b = decimal(whole_minutes(v));
    let t = text_of(v);
    lemma_decimal(whole_hours(v));
    lemma_decimal(whole_minutes(v));
    assert forall|j: int| 0 <= j < a.len() implies !is_sep(#[trigger] t[j]) by {
        assert(t[j] == a[j]);
        assert(is_digit(a[j]));
    }
    assert(t[a.len() as int] == ':');
    lemma_sep_index(t, a.len() as int);
    assert(hour_field(t) =~= a);
    assert(t.subrange(a.len() as int + 1, t.len() as int) =~= b);
    lemma_digits_no_sep(b);
    assert(b.subrange(0, b.len() as int) =~= b);
    assert(minute_field(t) =~= b);
    lemma_digit_run_value(a, MICROS_PER_HOUR as int);
    lemma_digit_run_value(b, MICROS_PER_MINUTE as int);
    assert(whole_hours(v) * MICROS_PER_HOUR <= micros_of(whole_hours(v), whole_minutes(v)));
}

} // verus!
