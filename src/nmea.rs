//! Parsing of NMEA `$GPRMC` sentences.

use vstd::prelude::*;
use vstd::string::*;
use vstd::utf8::*;

use crate::error::{Error, NmeaProblem};

verus! {

/// A UTC date and time.
#[derive(Clone, Copy, Debug, PartialEq, Eq, Structural)]
pub struct DateTime {
    /// The year.
    pub year: i32,
    /// The month, from 1.
    pub month: u32,
    /// The day of the month, from 1.
    pub day: u32,
    /// The hour, from 0 to 23.
    pub hour: u32,
    /// The minute, from 0 to 59.
    pub minute: u32,
    /// The second, from 0 to 59.
    pub second: u32,
}

/// A decimal number: `mantissa` times ten to the power of minus `scale`.
#[derive(Clone, Copy, Debug, PartialEq, Eq, Structural)]
pub struct Decimal {
    /// The digits, as an integer.
    pub mantissa: i64,
    /// The number of digits after the decimal point.
    pub scale: u32,
}

/// A speed in knots.
#[derive(Clone, Copy, Debug, PartialEq, Eq, Structural)]
pub struct Knots(pub Decimal);

/// An angle in degrees.
#[derive(Clone, Copy, Debug, PartialEq, Eq, Structural)]
pub struct Degrees(pub Decimal);

/// A position measurement from a `$GPRMC` sentence.
#[derive(Clone, Copy, Debug, PartialEq, Eq, Structural)]
pub struct Position {
    /// The date and time of the position.
    pub datetime: DateTime,
    /// Whether the receiver marked the position valid.
    pub valid: bool,
    /// The latitude in decimal degrees, to nine places, negative south.
    pub latitude: Decimal,
    /// The longitude in decimal degrees, to nine places, negative west.
    pub longitude: Decimal,
    /// The speed over ground.
    pub speed: Knots,
    /// The true course.
    pub true_course: Degrees,
    /// The magnetic variation in degrees, negative west.
    pub variation: Decimal,
}

/// Number of places that a coordinate keeps after the decimal point.
pub const COORDINATE_SCALE: u32 = 9;

/// Most digits that a decimal field may hold.
pub const MAX_DIGITS: usize = 18;

/// The bytes of a text that is all ASCII.
pub open spec fn ascii_bytes(s: Seq<char>) -> Seq<u8> {
    Seq::new(s.len(), |i: int| s[i] as u8)
}

/// Positions of the commas of `t`, in order.
pub open spec fn commas(t: Seq<u8>) -> Seq<int>
    decreases t.len(),
{
    if t.len() == 0 {
        Seq::empty()
    } else if t.last() == 0x2c {
        commas(t.drop_last()).push(t.len() - 1)
    } else {
        commas(t.drop_last())
    }
}

/// Number of comma-separated fields of `t`.
pub open spec fn field_count(t: Seq<u8>) -> int {
    commas(t).len() + 1 as int
}

/// Where field `i` of `t` starts.
pub open spec fn field_start(t: Seq<u8>, i: int) -> int {
    if i == 0 {
        0
    } else {
        commas(t)[i - 1] + 1
    }
}

/// Where field `i` of `t` ends.
pub open spec fn field_end(t: Seq<u8>, i: int) -> int {
    if i < commas(t).len() {
        commas(t)[i]
    } else {
        t.len() as int
    }
}

/// Field `i` of `t`.
pub open spec fn field(t: Seq<u8>, i: int) -> Seq<u8> {
    t.subrange(field_start(t, i), field_end(t, i))
}

/// Position of the last `*` of `t`, if any.
pub open spec fn last_star(t: Seq<u8>) -> Option<int>
    decreases t.len(),
{
    if t.len() == 0 {
        None
    } else if t.last() == 0x2a {
        Some(t.len() - 1)
    } else {
        last_star(t.drop_last())
    }
}

/// The exclusive or of all bytes of `s`.
pub open spec fn xor_all(s: Seq<u8>) -> u8
    decreases s.len(),
{
    if s.len() == 0 {
        0
    } else {
        xor_all(s.drop_last()) ^ s.last()
    }
}

/// The lowercase hexadecimal digit of `n < 16`.
pub open spec fn hex_digit(n: u8) -> u8 {
    if n < 10 {
        (0x30 + n) as u8
    } else {
        (0x57 + n) as u8
    }
}

/// Whether the sentence ends with `*` and the two lowercase hexadecimal digits of the exclusive
/// or of the bytes between its first byte and that `*`.
pub open spec fn checksum_ok(t: Seq<u8>) -> bool {
    match last_star(t) {
        Some(k) => {
            let x = xor_all(t.subrange(1, k));
            &&& k + 3 == t.len()
            &&& t[k + 1] == hex_digit(x / 16)
            &&& t[k + 2] == hex_digit(x % 16)
        },
        None => false,
    }
}

/// The bytes of `$GPRMC`.
pub open spec fn gprmc() -> Seq<u8> {
    seq![0x24u8, 0x47, 0x50, 0x52, 0x4d, 0x43]
}

/// What is wrong with the ASCII sentence `t` as a whole, in the order of the checks.
pub open spec fn sentence_problem(t: Seq<u8>) -> Option<NmeaProblem> {
    if field_count(t) != 13 {
        Some(NmeaProblem::FieldCount)
    } else if field(t, 0) != gprmc() {
        Some(NmeaProblem::NotGprmc)
    } else if last_star(t) is None {
        Some(NmeaProblem::NoStar)
    } else if !checksum_ok(t) {
        Some(NmeaProblem::Checksum)
    } else {
        None
    }
}

/// Whether `c` is an ASCII decimal digit.
pub open spec fn is_digit(c: u8) -> bool {
    0x30 <= c <= 0x39
}

/// Number of digits in `s`.
pub open spec fn digit_count(s: Seq<u8>) -> nat
    decreases s.len(),
{
    if s.len() == 0 {
        0
    } else if is_digit(s.last()) {
        digit_count(s.drop_last()) + 1
    } else {
        digit_count(s.drop_last())
    }
}

/// Number of decimal points in `s`.
pub open spec fn dot_count(s: Seq<u8>) -> nat
    decreases s.len(),
{
    if s.len() == 0 {
        0
    } else if s.last() == 0x2e {
        dot_count(s.drop_last()) + 1
    } else {
        dot_count(s.drop_last())
    }
}

/// The digits of `s` read as one integer.
pub open spec fn digits_value(s: Seq<u8>) -> int
    decreases s.len(),
{
    if s.len() == 0 {
        0
    } else if is_digit(s.last()) {
        10 * digits_value(s.drop_last()) + (s.last() - 0x30)
    } else {
        digits_value(s.drop_last())
    }
}

/// Number of bytes after the first decimal point of `s`.
pub open spec fn fraction_len(s: Seq<u8>) -> nat
    decreases s.len(),
{
    if s.len() == 0 {
        0
    } else if dot_count(s.drop_last()) > 0 {
        fraction_len(s.drop_last()) + 1
    } else {
        0
    }
}

/// Whether `s` is a decimal number: digits with at most one decimal point, at least one digit
/// and at most eighteen.
pub open spec fn is_decimal_text(s: Seq<u8>) -> bool {
    &&& forall|i: int| 0 <= i < s.len() ==> is_digit(#[trigger] s[i]) || s[i] == 0x2e
    &&& dot_count(s) <= 1
    &&& 1 <= digit_count(s) <= MAX_DIGITS
}

/// The number that the text `s` writes, if it is a decimal number.
pub open spec fn decimal_of(s: Seq<u8>) -> Option<Decimal> {
    if is_decimal_text(s) {
        Some(Decimal { mantissa: digits_value(s) as i64, scale: fraction_len(s) as u32 })
    } else {
        None
    }
}

/// Ten to the power of `n`.
pub open spec fn pow10(n: nat) -> int
    decreases n,
{
    if n == 0 {
        1
    } else {
        10 * pow10((n - 1) as nat)
    }
}

/// Billionths of a degree in the angle `m / 10^k` written as degrees times 100 plus minutes
/// (`ddmm.mmmm`): the whole degrees plus the minutes over 60, rounded toward zero.
pub open spec fn degrees_nanos(m: int, k: nat) -> int {
    let unit = 100 * pow10(k);
    (m / unit) * 1_000_000_000 + ((m % unit) * 1_000_000_000) / (60 * pow10(k))
}

/// The coordinate that the `ddmm.mmmm` text `s` writes, in decimal degrees to nine places,
/// if `s` is a decimal number and the result fits.
pub open spec fn coordinate_of(s: Seq<u8>) -> Option<Decimal> {
    match decimal_of(s) {
        Some(d) => if degrees_nanos(d.mantissa as int, d.scale as nat) <= i64::MAX {
            Some(Decimal { mantissa: degrees_nanos(d.mantissa as int, d.scale as nat) as i64, scale: COORDINATE_SCALE })
        } else {
            None
        },
        None => None,
    }
}

/// `d`, negated when `negative`.
pub open spec fn signed(d: Decimal, negative: bool) -> Decimal {
    if negative {
        Decimal { mantissa: -d.mantissa as i64, scale: d.scale }
    } else {
        d
    }
}

/// Whether `r` is the error for field `i` of the sentence `s` whose bytes are `t`.
pub open spec fn is_field_error(r: Result<Position, Error>, s: Seq<char>, t: Seq<u8>, i: int) -> bool {
    r matches Err(Error::NmeaFieldParse(j, raw)) && j == i && raw@ == s.subrange(field_start(t, i), field_end(t, i))
}

/// Whether `r` is what parsing the sentence `s` gives, where `datetime` is what its date and
/// time fields read as.
///
/// The checks come in this order: ASCII, field count, `$GPRMC`, `*`, checksum, latitude,
/// longitude, magnetic variation, date and time, speed, course.
pub open spec fn is_position_result(r: Result<Position, Error>, s: Seq<char>, datetime: Option<DateTime>) -> bool {
    let t = ascii_bytes(s);
    if !is_ascii_chars(s) {
        r == Err::<Position, Error>(Error::NmeaMalformed(NmeaProblem::NotAscii))
    } else if sentence_problem(t) is Some {
        r == Err::<Position, Error>(Error::NmeaMalformed(sentence_problem(t)->0))
    } else if coordinate_of(field(t, 3)) is None {
        is_field_error(r, s, t, 3)
    } else if coordinate_of(field(t, 5)) is None {
        is_field_error(r, s, t, 5)
    } else if decimal_of(field(t, 10)) is None {
        is_field_error(r, s, t, 10)
    } else if datetime is None {
        is_field_error(r, s, t, 9)
    } else if decimal_of(field(t, 7)) is None {
        is_field_error(r, s, t, 7)
    } else if decimal_of(field(t, 8)) is None {
        is_field_error(r, s, t, 8)
    } else {
        r == Ok::<Position, Error>(
            Position {
                datetime: datetime->0,
                valid: field(t, 2) == seq![0x41u8],
                latitude: signed(coordinate_of(field(t, 3))->0, field(t, 4) == seq![0x53u8]),
                longitude: signed(coordinate_of(field(t, 5))->0, field(t, 6) == seq![0x57u8]),
                speed: Knots(decimal_of(field(t, 7))->0),
                true_course: Degrees(decimal_of(field(t, 8))->0),
                variation: signed(decimal_of(field(t, 10))->0, field(t, 11) == seq![0x57u8]),
            },
        )
    }
}

/// The text that the date and time are read from: the date field, then the time field.
pub open spec fn date_text(s: Seq<char>) -> Seq<char> {
    let t = ascii_bytes(s);
    s.subrange(field_start(t, 9), field_end(t, 9)) + s.subrange(field_start(t, 1), field_end(t, 1))
}

/// The format of the date and time text: day, month, two-digit year, hour, minute, second.
pub open spec fn datetime_format() -> Seq<char> {
    "%d%m%y%H%M%S"@
}

/// What chrono's `NaiveDateTime::parse_from_str` reads from `text` with `format`, as year,
/// month, day, hour, minute and second.
pub uninterp spec fn parsed_datetime(text: Seq<char>, format: Seq<char>) -> Option<(int, int, int, int, int, int)>;

/// The date and time with the fields of `o`.
pub open spec fn datetime_of(o: Option<(int, int, int, int, int, int)>) -> Option<DateTime> {
    match o {
        Some((year, month, day, hour, minute, second)) => Some(
            DateTime {
                year: year as i32,
                month: month as u32,
                day: day as u32,
                hour: hour as u32,
                minute: minute as u32,
                second: second as u32,
            },
        ),
        None => None,
    }
}

/// Relies on chrono's `NaiveDateTime::parse_from_str` and on the `Datelike` and `Timelike`
/// accessors: the date and time that `text` writes in `format`, with the accessors' documented
/// ranges.
#[verifier::external_body]
fn parse_datetime(text: &str, format: &str) -> (r: Option<DateTime>)
    ensures
        r == datetime_of(parsed_datetime(text@, format@)),
        r matches Some(d) ==> 1 <= d.month <= 12 && 1 <= d.day <= 31 && d.hour <= 23 && d.minute <= 59 && d.second
            <= 59,
{
    match chrono::NaiveDateTime::parse_from_str(text, format) {
        Ok(t) => Some(DateTime {
            year: chrono::Datelike::year(&t),
            month: chrono::Datelike::month(&t),
            day: chrono::Datelike::day(&t),
            hour: chrono::Timelike::hour(&t),
            minute: chrono::Timelike::minute(&t),
            second: chrono::Timelike::second(&t),
        }),
        Err(_) => None,
    }
}

/// Powers of ten are positive and grow with the exponent.
proof fn lemma_pow10_mono(a: nat, b: nat)
    requires
        a <= b,
    ensures
        1 <= pow10(a) <= pow10(b),
    decreases b,
{
    if b > 0 {
        if a < b {
            lemma_pow10_mono(a, (b - 1) as nat);
        } else {
            lemma_pow10_mono((b - 1) as nat, (b - 1) as nat);
        }
    }
}

/// A prefix holds no more digits and no more decimal points than the whole text.
proof fn lemma_counts_grow(s: Seq<u8>, n: int)
    requires
        0 <= n <= s.len(),
    ensures
        digit_count(s.subrange(0, n)) <= digit_count(s),
        dot_count(s.subrange(0, n)) <= dot_count(s),
    decreases s.len() - n,
{
    if n == s.len() {
        assert(s.subrange(0, n) =~= s);
    } else {
        assert(s.subrange(0, n + 1).drop_last() =~= s.subrange(0, n));
        lemma_counts_grow(s, n + 1);
    }
}

/// The last `*` lies within the text.
proof fn lemma_last_star(t: Seq<u8>)
    ensures
        last_star(t) matches Some(k) ==> 0 <= k < t.len() && t[k] == 0x2a,
    decreases t.len(),
{
    if t.len() > 0 {
        lemma_last_star(t.drop_last());
    }
}

/// The commas lie within the text, in increasing order.
proof fn lemma_commas(t: Seq<u8>)
    ensures
        forall|j: int| 0 <= j < commas(t).len() ==> 0 <= #[trigger] commas(t)[j] < t.len() && t[commas(t)[j]] == 0x2c,
        forall|j: int| 0 <= j < commas(t).len() - 1 ==> #[trigger] commas(t)[j] < commas(t)[j + 1],
        commas(t).len() <= t.len(),
    decreases t.len(),
{
    if t.len() > 0 {
        lemma_commas(t.drop_last());
    }
}

/// Ten to the power of `n`.
fn power_of_ten(n: u32) -> (r: u128)
    requires
        n <= MAX_DIGITS,
    ensures
        r == pow10(n as nat),
        r <= 1_000_000_000_000_000_000,
{
    proof {
        reveal_with_fuel(pow10, 19);
        lemma_pow10_mono(n as nat, 18);
    }
    let mut r: u128 = 1;
    let mut i: u32 = 0;
    while i < n
        invariant
            i <= n <= MAX_DIGITS,
            r == pow10(i as nat),
            pow10(n as nat) <= 1_000_000_000_000_000_000,
        decreases n - i,
    {
        proof {
            lemma_pow10_mono((i + 1) as nat, n as nat);
        }
        r = r * 10;
        i += 1;
    }
    r
}

/// Positions of the commas of `t`.
fn comma_positions(t: &[u8]) -> (r: Vec<usize>)
    ensures
        r@.len() == commas(t@).len(),
        forall|j: int| 0 <= j < r@.len() ==> r@[j] as int == #[trigger] commas(t@)[j],
{
    let mut r: Vec<usize> = Vec::new();
    let mut i: usize = 0;
    while i < t.len()
        invariant
            i <= t@.len(),
            r@.len() == commas(t@.subrange(0, i as int)).len(),
            forall|j: int| 0 <= j < r@.len() ==> r@[j] as int == #[trigger] commas(t@.subrange(0, i as int))[j],
        decreases t@.len() - i,
    {
        assert(t@.subrange(0, i + 1).drop_last() =~= t@.subrange(0, i as int));
        if t[i] == 0x2c {
            r.push(i);
        }
        i += 1;
    }
    assert(t@.subrange(0, t@.len() as int) =~= t@);
    r
}

/// Position of the last `*` of `t`.
fn find_last_star(t: &[u8]) -> (r: Option<usize>)
    ensures
        r is Some <==> last_star(t@) is Some,
        r matches Some(k) ==> last_star(t@) == Some(k as int) && k < t@.len() && t@[k as int] == 0x2a,
{
    let mut r: Option<usize> = None;
    let mut i: usize = 0;
    while i < t.len()
        invariant
            i <= t@.len(),
            r is Some <==> last_star(t@.subrange(0, i as int)) is Some,
            r matches Some(k) ==> last_star(t@.subrange(0, i as int)) == Some(k as int) && k < t@.len() && t@[k as int]
                == 0x2a,
        decreases t@.len() - i,
    {
        assert(t@.subrange(0, i + 1).drop_last() =~= t@.subrange(0, i as int));
        if t[i] == 0x2a {
            r = Some(i);
        }
        i += 1;
    }
    assert(t@.subrange(0, t@.len() as int) =~= t@);
    r
}

/// The exclusive or of the bytes of `t` from `start` to `end`.
fn xor_range(t: &[u8], start: usize, end: usize) -> (r: u8)
    requires
        start <= end <= t@.len(),
    ensures
        r == xor_all(t@.subrange(start as int, end as int)),
{
    let mut r: u8 = 0;
    let mut i: usize = start;
    while i < end
        invariant
            start <= i <= end <= t@.len(),
            r == xor_all(t@.subrange(start as int, i as int)),
        decreases end - i,
    {
        assert(t@.subrange(start as int, i + 1).drop_last() =~= t@.subrange(start as int, i as int));
        r = r ^ t[i];
        i += 1;
    }
    r
}

/// The lowercase hexadecimal digit of `n`.
fn hex(n: u8) -> (r: u8)
    requires
        n < 16,
    ensures
        r == hex_digit(n),
{
    if n < 10 {
        0x30 + n
    } else {
        0x57 + n
    }
}

/// Whether the bytes of `t` from `start` to `end` are the single byte `c`.
fn is_byte(t: &[u8], start: usize, end: usize, c: u8) -> (r: bool)
    requires
        start <= end <= t@.len(),
    ensures
        r == (t@.subrange(start as int, end as int) == seq![c]),
{
    if end - start == 1 && t[start] == c {
        assert(t@.subrange(start as int, end as int) =~= seq![c]);
        true
    } else {
        assert(seq![c].len() == 1 && seq![c][0] == c);
        if end - start == 1 {
            assert(t@.subrange(start as int, end as int)[0] != seq![c][0]);
        }
        false
    }
}

/// Reads the decimal number that the bytes of `t` from `start` to `end` write.
fn parse_decimal(t: &[u8], start: usize, end: usize) -> (r: Option<Decimal>)
    requires
        start <= end <= t@.len(),
    ensures
        r == decimal_of(t@.subrange(start as int, end as int)),
        r matches Some(d) ==> 0 <= d.mantissa < 1_000_000_000_000_000_000 && d.scale <= MAX_DIGITS,
{
    let ghost s = t@.subrange(start as int, end as int);
    proof {
        reveal_with_fuel(pow10, 19);
    }
    let mut value: u64 = 0;
    let mut digits: usize = 0;
    let mut dots: usize = 0;
    let mut fraction: usize = 0;
    let mut i: usize = start;
    while i < end
        invariant
            start <= i <= end <= t@.len(),
            s == t@.subrange(start as int, end as int),
            forall|j: int| 0 <= j < i - start ==> is_digit(#[trigger] s[j]) || s[j] == 0x2e,
            digits == digit_count(s.subrange(0, i - start)),
            dots == dot_count(s.subrange(0, i - start)),
            fraction == fraction_len(s.subrange(0, i - start)),
            value == digits_value(s.subrange(0, i - start)),
            digits <= MAX_DIGITS,
            dots <= 1,
            fraction <= digits,
            value < pow10(digits as nat),
            pow10(18) == 1_000_000_000_000_000_000,
        decreases end - i,
    {
        let c = t[i];
        let ghost n = i - start;
        assert(s.subrange(0, n + 1).drop_last() =~= s.subrange(0, n));
        assert(s.subrange(0, n + 1).last() == c);
        let had_dot = dots > 0;
        if 0x30 <= c && c <= 0x39 {
            if digits == MAX_DIGITS {
                proof {
                    lemma_counts_grow(s, n + 1);
                }
                return None;
            }
            proof {
                lemma_pow10_mono(digits as nat, 17);
            }
            value = value * 10 + (c - 0x30) as u64;
            digits += 1;
        } else if c == 0x2e {
            if dots == 1 {
                proof {
                    lemma_counts_grow(s, n + 1);
                }
                return None;
            }
            dots += 1;
        } else {
            assert(!(is_digit(s[n]) || s[n] == 0x2e));
            return None;
        }
        if had_dot {
            fraction += 1;
        }
        i += 1;
    }
    assert(s.subrange(0, end - start) =~= s);
    if digits == 0 {
        return None;
    }
    proof {
        lemma_pow10_mono(digits as nat, 18);
    }
    Some(Decimal { mantissa: value as i64, scale: fraction as u32 })
}

/// Reads the `ddmm.mmmm` coordinate that the bytes of `t` from `start` to `end` write, in
/// decimal degrees to nine places.
fn parse_coordinate(t: &[u8], start: usize, end: usize) -> (r: Option<Decimal>)
    requires
        start <= end <= t@.len(),
    ensures
        r == coordinate_of(t@.subrange(start as int, end as int)),
        r matches Some(d) ==> d.mantissa >= 0,
{
    match parse_decimal(t, start, end) {
        None => None,
        Some(d) => {
            let p = power_of_ten(d.scale);
            let unit: u128 = 100 * p;
            let m = d.mantissa as u128;
            proof {
                lemma_pow10_mono(d.scale as nat, 18);
            }
            let whole = m / unit;
            let rest = m % unit;
            assert(whole <= m) by (nonlinear_arith)
                requires
                    unit >= 1,
                    whole == m / unit,
            ;
            let nanos: u128 = whole * 1_000_000_000 + (rest * 1_000_000_000) / (60 * p);
            if nanos <= 0x7fff_ffff_ffff_ffff {
                Some(Decimal { mantissa: nanos as i64, scale: COORDINATE_SCALE })
            } else {
                None
            }
        },
    }
}

/// Where field `i` of the sentence starts and ends, given the positions of its twelve commas.
fn field_bounds(t: &[u8], comma_at: &Vec<usize>, i: usize) -> (r: (usize, usize))
    requires
        i < 13,
        comma_at@.len() == 12,
        commas(t@).len() == 12,
        forall|j: int| 0 <= j < 12 ==> comma_at@[j] as int == #[trigger] commas(t@)[j],
    ensures
        r.0 as int == field_start(t@, i as int),
        r.1 as int == field_end(t@, i as int),
        r.0 <= r.1 <= t@.len(),
{
    let len = t.len();
    proof {
        lemma_commas(t@);
        if i > 0 {
            assert(commas(t@)[i - 1] < t@.len());
        }
        if 0 < i < 12 {
            assert(commas(t@)[i - 1] < commas(t@)[i as int]);
        }
        if i < 12 {
            assert(commas(t@)[i as int] < t@.len());
        }
    }
    let start = if i == 0 {
        0
    } else {
        comma_at[i - 1] + 1
    };
    let end = if i < 12 {
        comma_at[i]
    } else {
        len
    };
    (start, end)
}

/// The error for field `i` of the ASCII sentence `nmea`.
fn field_error(nmea: &str, t: &[u8], comma_at: &Vec<usize>, i: usize) -> (r: Result<Position, Error>)
    requires
        nmea.is_ascii(),
        t@ == ascii_bytes(nmea@),
        i < 13,
        comma_at@.len() == 12,
        commas(t@).len() == 12,
        forall|j: int| 0 <= j < 12 ==> comma_at@[j] as int == #[trigger] commas(t@)[j],
    ensures
        is_field_error(r, nmea@, t@, i as int),
{
    let (start, end) = field_bounds(t, comma_at, i);
    Err(Error::NmeaFieldParse(i, nmea.substring_ascii(start, end).to_owned()))
}

/// `d`, negated when `negative`.
fn apply_sign(d: Decimal, negative: bool) -> (r: Decimal)
    requires
        d.mantissa >= 0,
    ensures
        r == signed(d, negative),
{
    if negative {
        Decimal { mantissa: -d.mantissa, scale: d.scale }
    } else {
        d
    }
}

impl Position {
    /// Parses a position from a `$GPRMC` sentence whose date and time fields read as
    /// `datetime` (`None` where they do not read as a date and time).
    pub fn from_sentence(nmea: &str, datetime: Option<DateTime>) -> (r: Result<Position, Error>)
        ensures
            is_position_result(r, nmea@, datetime),
    {
        if !nmea.is_ascii() {
            return Err(Error::NmeaMalformed(NmeaProblem::NotAscii));
        }
        let t = nmea.as_bytes();
        proof {
            broadcast use is_ascii_spec_bytes;
            assert(t@ =~= ascii_bytes(nmea@));
            lemma_commas(t@);
        }
        let comma_at = comma_positions(t);
        if comma_at.len() != 12 {
            return Err(Error::NmeaMalformed(NmeaProblem::FieldCount));
        }
        let (start, end) = field_bounds(t, &comma_at, 0);
        if !(end - start == 6 && t[0] == 0x24 && t[1] == 0x47 && t[2] == 0x50 && t[3] == 0x52 && t[4] == 0x4d
            && t[5] == 0x43) {
            proof {
                if end - start == 6 {
                    let f = field(t@, 0);
                    assert(f[0] != gprmc()[0] || f[1] != gprmc()[1] || f[2] != gprmc()[2] || f[3] != gprmc()[3]
                        || f[4] != gprmc()[4] || f[5] != gprmc()[5]);
                } else {
                    assert(field(t@, 0).len() != gprmc().len());
                }
            }
            return Err(Error::NmeaMalformed(NmeaProblem::NotGprmc));
        }
        assert(field(t@, 0) =~= gprmc());
        let star = match find_last_star(t) {
            Some(k) => k,
            None => {
                return Err(Error::NmeaMalformed(NmeaProblem::NoStar));
            },
        };
        let x = xor_range(t, 1, star);
        if !(t.len() - star == 3 && t[star + 1] == hex(x / 16) && t[star + 2] == hex(x % 16)) {
            return Err(Error::NmeaMalformed(NmeaProblem::Checksum));
        }
        let (start, end) = field_bounds(t, &comma_at, 3);
        let latitude = match parse_coordinate(t, start, end) {
            Some(d) => d,
            None => {
                return field_error(nmea, t, &comma_at, 3);
            },
        };
        let (start, end) = field_bounds(t, &comma_at, 5);
        let longitude = match parse_coordinate(t, start, end) {
            Some(d) => d,
            None => {
                return field_error(nmea, t, &comma_at, 5);
            },
        };
        let (start, end) = field_bounds(t, &comma_at, 10);
        let variation = match parse_decimal(t, start, end) {
            Some(d) => d,
            None => {
                return field_error(nmea, t, &comma_at, 10);
            },
        };
        let datetime = match datetime {
            Some(d) => d,
            None => {
                return field_error(nmea, t, &comma_at, 9);
            },
        };
        let (start, end) = field_bounds(t, &comma_at, 7);
        let speed = match parse_decimal(t, start, end) {
            Some(d) => d,
            None => {
                return field_error(nmea, t, &comma_at, 7);
            },
        };
        let (start, end) = field_bounds(t, &comma_at, 8);
        let true_course = match parse_decimal(t, start, end) {
            Some(d) => d,
            None => {
                return field_error(nmea, t, &comma_at, 8);
            },
        };
        let (start, end) = field_bounds(t, &comma_at, 2);
        let valid = is_byte(t, start, end, 0x41);
        let (start, end) = field_bounds(t, &comma_at, 4);
        let south = is_byte(t, start, end, 0x53);
        let (start, end) = field_bounds(t, &comma_at, 6);
        let west = is_byte(t, start, end, 0x57);
        let (start, end) = field_bounds(t, &comma_at, 11);
        let variation_west = is_byte(t, start, end, 0x57);
        Ok(Position {
            datetime,
            valid,
            latitude: apply_sign(latitude, south),
            longitude: apply_sign(longitude, west),
            speed: Knots(speed),
            true_course: Degrees(true_course),
            variation: apply_sign(variation, variation_west),
        })
    }

    /// Parses a position from an NMEA `$GPRMC` sentence.
    pub fn new(nmea: &str) -> (r: Result<Position, Error>)
        ensures
            is_position_result(r, nmea@, datetime_of(parsed_datetime(date_text(nmea@), datetime_format()))),
    {
        let datetime = if nmea.is_ascii() {
            let t = nmea.as_bytes();
            proof {
                broadcast use is_ascii_spec_bytes;
                assert(t@ =~= ascii_bytes(nmea@));
            }
            let comma_at = comma_positions(t);
            if comma_at.len() == 12 {
                let (date_start, date_end) = field_bounds(t, &comma_at, 9);
                let (time_start, time_end) = field_bounds(t, &comma_at, 1);
                let mut text = nmea.substring_ascii(date_start, date_end).to_owned();
                text.append(nmea.substring_ascii(time_start, time_end));
                assert(text@ == date_text(nmea@));
                parse_datetime(text.as_str(), "%d%m%y%H%M%S")
            } else {
                None
            }
        } else {
            None
        };
        Position::from_sentence(nmea, datetime)
    }
}

/// Every sentence that parses ends with its checksum: after its last `*` come exactly the two
/// lowercase hexadecimal digits of the exclusive or of the bytes between its leading `$` and
/// that `*`.
pub proof fn lemma_parsed_sentence_checksum(r: Result<Position, Error>, s: Seq<char>, datetime: Option<DateTime>)
    requires
        is_position_result(r, s, datetime),
        r is Ok,
    ensures
        is_ascii_chars(s),
        last_star(ascii_bytes(s)) is Some,
        ({
            let t = ascii_bytes(s);
            let k = last_star(t)->0;
            let x = xor_all(t.subrange(1, k));
            t.subrange(k + 1, t.len() as int) == seq![hex_digit(x / 16), hex_digit(x % 16)]
        }),
{
    let t = ascii_bytes(s);
    let k = last_star(t)->0;
    lemma_last_star(t);
    assert(is_ascii_chars(s));
    assert(sentence_problem(t) is None);
    assert(checksum_ok(t));
    let x = xor_all(t.subrange(1, k));
    assert(t.subrange(k + 1, t.len() as int) =~= seq![hex_digit(x / 16), hex_digit(x % 16)]);
}

} // verus!
