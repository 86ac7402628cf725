//! Time periods: annual, quarterly, monthly, weekly and daily tokens.
use vstd::prelude::*;
use chrono::Datelike;
use crate::error::HtsError;

verus! {

/// Earliest year a calendar date can have.
pub const MIN_YEAR: i32 = -262143;

/// Latest year a calendar date can have.
pub const MAX_YEAR: i32 = 262142;

/// Leap year of the proleptic Gregorian calendar.
pub open spec fn is_leap(y: int) -> bool {
    (y % 4 == 0 && y % 100 != 0) || y % 400 == 0
}

/// Number of days of month `m` of year `y`.
pub open spec fn days_in_month(y: int, m: int) -> int {
    if m == 2 {
        if is_leap(y) { 29 } else { 28 }
    } else if m == 4 || m == 6 || m == 9 || m == 11 {
        30
    } else {
        31
    }
}

/// `(y, m, d)` is a calendar date within the supported years.
pub open spec fn valid_ymd(y: int, m: int, d: int) -> bool {
    &&& MIN_YEAR <= y <= MAX_YEAR
    &&& 1 <= m <= 12
    &&& 1 <= d <= days_in_month(y, m)
}

/// What reading `s` as a `YYYY-MM-DD` date gives: year, month and day.
pub uninterp spec fn iso_date_of(s: Seq<char>) -> Option<(i32, u32, u32)>;

/// The Monday that starts ISO week `week` of `year`, if that week exists.
pub uninterp spec fn iso_week_start_of(year: int, week: int) -> Option<(i32, u32, u32)>;


/// Relies on chrono's `NaiveDate::parse_from_str` with format `%Y-%m-%d`:
/// the result depends on the text alone, and is a valid date when present.
#[verifier::external_body]
fn parse_iso_date(s: &str) -> (r: Option<(i32, u32, u32)>)
    ensures
        r == iso_date_of(s@),
        r matches Some(t) ==> valid_ymd(t.0 as int, t.1 as int, t.2 as int),
{
    match chrono::NaiveDate::parse_from_str(s, "%Y-%m-%d") {
        Ok(d) => Some((d.year(), d.month(), d.day())),
        Err(_) => None,
    }
}

/// Relies on chrono's `NaiveDate::from_isoywd_opt` with `Weekday::Mon`: the
/// result depends on year and week alone, and is a valid date when present.
#[verifier::external_body]
fn iso_week_start(year: i32, week: u32) -> (r: Option<(i32, u32, u32)>)
    requires
        MIN_YEAR <= year <= MAX_YEAR,
    ensures
        r == iso_week_start_of(year as int, week as int),
        r matches Some(t) ==> valid_ymd(t.0 as int, t.1 as int, t.2 as int),
{
    chrono::NaiveDate::from_isoywd_opt(year, week, chrono::Weekday::Mon).map(|d| (d.year(), d.month(), d.day()))
}

/// Relies on chrono's `NaiveDate::from_ymd_opt`, which accepts every valid
/// date, and its `format("%Y-%m-%d")`, which writes the year as four
/// zero-padded digits (signed outside 0..=9999), then month and day as two
/// digits each, joined by `-`.
#[verifier::external_body]
fn iso_date_text(year: i32, month: u32, day: u32) -> (r: String)
    requires
        valid_ymd(year as int, month as int, day as int),
    ensures
        r@ == date_text(year as int, month as int, day as int),
{
    match chrono::NaiveDate::from_ymd_opt(year, month, day) {
        Some(d) => d.format("%Y-%m-%d").to_string(),
        None => String::new(),
    }
}

/// A calendar date.
#[derive(Debug, Clone, Copy, PartialEq, Eq, PartialOrd, Ord, Hash)]
pub struct Date {
    /// Year.
    pub year: i32,
    /// Month, 1 to 12.
    pub month: u8,
    /// Day of the month, from 1.
    pub day: u8,
}

impl Date {
    /// The date exists and its year is supported.
    pub open spec fn wf(&self) -> bool {
        valid_ymd(self.year as int, self.month as int, self.day as int)
    }

    /// The date `year`-`month`-`day`, if it exists.
    pub fn from_ymd_opt(year: i32, month: u32, day: u32) -> (r: Option<Date>)
        ensures
            r is Some <==> valid_ymd(year as int, month as int, day as int),
            r matches Some(d) ==> d.year == year && d.month == month && d.day == day,
    {
        if year < MIN_YEAR || year > MAX_YEAR || month < 1 || month > 12 || day < 1 {
            return None;
        }
        let leap = (year % 4 == 0 && year % 100 != 0) || year % 400 == 0;
        let days: u32 = if month == 2 {
            if leap { 29 } else { 28 }
        } else if month == 4 || month == 6 || month == 9 || month == 11 {
            30
        } else {
            31
        };
        if day > days {
            return None;
        }
        Some(Date { year, month: month as u8, day: day as u8 })
    }
}

fn date_of(t: (i32, u32, u32)) -> (r: Date)
    requires
        valid_ymd(t.0 as int, t.1 as int, t.2 as int),
    ensures
        r.year == t.0 && r.month == t.1 && r.day == t.2,
        r.wf(),
{
    Date { year: t.0, month: t.1 as u8, day: t.2 as u8 }
}

/// A time period, the index of a time series.
#[derive(Debug, Clone, Copy, PartialEq, Eq, PartialOrd, Ord, Hash)]
pub enum Period {
    /// A year, e.g. "1998".
    Annual(i32),
    /// A quarter, e.g. "1998 Q1".
    Quarterly(i32, u8),
    /// A month, e.g. "1998 M01".
    Monthly(i32, u8),
    /// An ISO week, e.g. "1998 W01".
    Weekly(i32, u8),
    /// A day, e.g. "1998-01-01".
    Daily(Date),
}

/// Unicode white space, as `char::is_whitespace` defines it.
pub open spec fn is_space(c: char) -> bool {
    let u = c as u32;
    ||| 0x09 <= u <= 0x0D
    ||| u == 0x20 || u == 0x85 || u == 0xA0 || u == 0x1680
    ||| 0x2000 <= u <= 0x200A
    ||| u == 0x2028 || u == 0x2029 || u == 0x202F || u == 0x205F || u == 0x3000
}

fn space(c: char) -> (r: bool)
    ensures
        r == is_space(c),
{
    let u = c as u32;
    (0x09 <= u && u <= 0x0D) || u == 0x20 || u == 0x85 || u == 0xA0 || u == 0x1680
        || (0x2000 <= u && u <= 0x200A) || u == 0x2028 || u == 0x2029 || u == 0x202F
        || u == 0x205F || u == 0x3000
}

/// `s` without leading white space.
pub open spec fn trim_start(s: Seq<char>) -> Seq<char>
    decreases s.len(),
{
    if s.len() > 0 && is_space(s[0]) {
        trim_start(s.skip(1))
    } else {
        s
    }
}

/// `s` without trailing white space.
pub open spec fn trim_end(s: Seq<char>) -> Seq<char>
    decreases s.len(),
{
    if s.len() > 0 && is_space(s.last()) {
        trim_end(s.drop_last())
    } else {
        s
    }
}

/// `s` without leading or trailing white space.
pub open spec fn trim(s: Seq<char>) -> Seq<char> {
    trim_end(trim_start(s))
}

/// Position of the first white space in `t` at or after `i`, else `t.len()`.
pub open spec fn space_from(t: Seq<char>, i: int) -> int
    decreases t.len() - i,
{
    if i < 0 || i >= t.len() {
        t.len() as int
    } else if is_space(t[i]) {
        i
    } else {
        space_from(t, i + 1)
    }
}

/// Position of the first non-space in `t` at or after `i`, else `t.len()`.
pub open spec fn word_from(t: Seq<char>, i: int) -> int
    decreases t.len() - i,
{
    if i < 0 || i >= t.len() {
        t.len() as int
    } else if !is_space(t[i]) {
        i
    } else {
        word_from(t, i + 1)
    }
}

/// Every character of `s` is an ASCII digit.
pub open spec fn all_digits(s: Seq<char>) -> bool {
    forall|i: int| 0 <= i < s.len() ==> '0' <= #[trigger] s[i] <= '9'
}

/// The number that the decimal digits `s` write.
pub open spec fn digits_value(s: Seq<char>) -> int
    decreases s.len(),
{
    if s.len() == 0 {
        0
    } else {
        digits_value(s.drop_last()) * 10 + (s.last() as u32 - '0' as u32)
    }
}

/// Optional sign and decimal digits read as a number, if that number lies in
/// `lo..=hi`; no sign but `+` when `lo` is 0.
pub open spec fn int_text(s: Seq<char>, lo: int, hi: int) -> Option<int> {
    let neg = s.len() > 0 && s[0] == '-' && lo < 0;
    let signed = s.len() > 0 && (s[0] == '+' || s[0] == '-');
    let body = if signed { s.skip(1) } else { s };
    if signed && !(s[0] == '+' || neg) {
        None
    } else if body.len() == 0 || !all_digits(body) {
        None
    } else {
        let v = if neg { -digits_value(body) } else { digits_value(body) };
        if lo <= v <= hi { Some(v) } else { None }
    }
}

/// ASCII upper case of `c`.
pub open spec fn upper(c: char) -> char {
    if 'a' <= c <= 'z' { (((c as u32) - 32) as u8) as char } else { c }
}

proof fn lemma_digits_nonneg(s: Seq<char>)
    requires
        all_digits(s),
    ensures
        0 <= digits_value(s),
    decreases s.len(),
{
    if s.len() > 0 {
        assert(all_digits(s.drop_last())) by {
            assert forall|i: int| 0 <= i < s.drop_last().len() implies '0' <= #[trigger] s.drop_last()[i] <= '9' by {
                assert(s.drop_last()[i] == s[i]);
            }
        }
        lemma_digits_nonneg(s.drop_last());
        assert('0' <= s.last() <= '9');
    }
}

proof fn lemma_digits_grow(s: Seq<char>, i: int, j: int)
    requires
        0 <= i <= j <= s.len(),
        all_digits(s),
    ensures
        0 <= digits_value(s.take(i)) <= digits_value(s.take(j)),
    decreases j - i,
{
    assert(all_digits(s.take(i))) by {
        assert forall|k: int| 0 <= k < s.take(i).len() implies '0' <= #[trigger] s.take(i)[k] <= '9' by {
            assert(s.take(i)[k] == s[k]);
        }
    }
    lemma_digits_nonneg(s.take(i));
    if i < j {
        lemma_digits_grow(s, i, j - 1);
        assert(s.take(j).drop_last() =~= s.take(j - 1));
        assert('0' <= s[j - 1] <= '9');
    }
}

/// Reads `t[from..to]` as optional sign and digits, as `int_text` says.
fn read_int(t: &str, from: usize, to: usize, lo: i64, hi: i64) -> (r: Option<i64>)
    requires
        from <= to <= t@.len(),
        -0x7fff_ffff_ffff_ffff <= lo <= 0 <= hi,
    ensures
        r matches Some(v) ==> int_text(t@.subrange(from as int, to as int), lo as int, hi as int) == Some(v as int),
        r is None ==> int_text(t@.subrange(from as int, to as int), lo as int, hi as int) is None,
{
    let ghost s = t@.subrange(from as int, to as int);
    if from == to {
        return None;
    }
    let c0 = t.get_char(from);
    assert(s[0] == c0);
    let signed = c0 == '+' || c0 == '-';
    let neg = c0 == '-' && lo < 0;
    if signed && !(c0 == '+' || neg) {
        return None;
    }
    let start = if signed { from + 1 } else { from };
    let ghost body = if signed { s.skip(1) } else { s };
    assert(body =~= t@.subrange(start as int, to as int));
    if start == to {
        return None;
    }
    let limit: i64 = if neg { -lo } else { hi };
    let mut acc: i64 = 0;
    let mut i: usize = start;
    while i < to
        invariant
            from <= start <= i <= to <= t@.len(),
            s == t@.subrange(from as int, to as int),
            s.len() > 0,
            signed == (s[0] == '+' || s[0] == '-'),
            neg == (s[0] == '-' && lo < 0),
            !signed || s[0] == '+' || neg,
            body == (if signed { s.skip(1) } else { s }),
            body.len() > 0,
            body == t@.subrange(start as int, to as int),
            0 <= limit,
            limit <= 0x7fff_ffff_ffff_ffff,
            limit as int == (if neg { -(lo as int) } else { hi as int }),
            all_digits(body.take(i - start)),
            acc as int == digits_value(body.take(i - start)),
            0 <= acc <= limit,
        decreases to - i,
    {
        let c = t.get_char(i);
        assert(body[i - start] == c);
        if c < '0' || c > '9' {
            assert(!all_digits(body));
            return None;
        }
        let d = (c as u32 - '0' as u32) as i64;
        assert(body.take(i - start + 1).drop_last() =~= body.take(i - start));
        assert(all_digits(body.take(i - start + 1)));
        if (acc as i128) * 10 + (d as i128) > limit as i128 {
            proof {
                if all_digits(body) {
                    lemma_digits_grow(body, i - start + 1, body.len() as int);
                    assert(body.take(body.len() as int) =~= body);
                }
            }
            return None;
        }
        acc = acc * 10 + d;
        i = i + 1;
    }
    assert(body.take(to - start) =~= body);
    if neg { Some(-acc) } else { Some(acc) }
}

proof fn lemma_trim_start(s: Seq<char>, lo: int)
    requires
        0 <= lo <= s.len(),
        forall|k: int| 0 <= k < lo ==> is_space(#[trigger] s[k]),
        lo == s.len() || !is_space(s[lo]),
    ensures
        trim_start(s) == s.subrange(lo, s.len() as int),
    decreases lo,
{
    if lo == 0 {
        assert(s.subrange(0, s.len() as int) =~= s);
    } else {
        let r = s.skip(1);
        assert forall|k: int| 0 <= k < lo - 1 implies is_space(#[trigger] r[k]) by {
            assert(r[k] == s[k + 1]);
        }
        lemma_trim_start(r, lo - 1);
        assert(r.subrange(lo - 1, r.len() as int) =~= s.subrange(lo, s.len() as int));
    }
}

proof fn lemma_trim_end(x: Seq<char>, e: int)
    requires
        0 <= e <= x.len(),
        forall|k: int| e <= k < x.len() ==> is_space(#[trigger] x[k]),
        e == 0 || !is_space(x[e - 1]),
    ensures
        trim_end(x) == x.take(e),
    decreases x.len() - e,
{
    if e == x.len() {
        assert(x.take(e) =~= x);
    } else {
        let r = x.drop_last();
        lemma_trim_end(r, e);
        assert(r.take(e) =~= x.take(e));
    }
}

fn trim_bounds(s: &str) -> (r: (usize, usize))
    ensures
        r.0 <= r.1 <= s@.len(),
        s@.subrange(r.0 as int, r.1 as int) == trim(s@),
{
    let n = s.unicode_len();
    let mut lo: usize = 0;
    while lo < n && space(s.get_char(lo))
        invariant
            n == s@.len(),
            lo <= n,
            forall|k: int| 0 <= k < lo ==> is_space(#[trigger] s@[k]),
        decreases n - lo,
    {
        lo = lo + 1;
    }
    assert(lo == n || !is_space(s@[lo as int]));
    proof {
        lemma_trim_start(s@, lo as int);
    }
    let ghost x = s@.subrange(lo as int, n as int);
    let mut hi: usize = n;
    while hi > lo && space(s.get_char(hi - 1))
        invariant
            n == s@.len(),
            lo <= hi <= n,
            x == s@.subrange(lo as int, n as int),
            forall|k: int| hi - lo <= k < x.len() ==> is_space(#[trigger] x[k]),
        decreases hi - lo,
    {
        hi = hi - 1;
        assert(x[hi - lo] == s@[hi as int]);
    }
    proof {
        if hi > lo {
            assert(x[hi - lo - 1] == s@[hi - 1]);
        }
        lemma_trim_end(x, hi - lo);
        assert(x.take(hi - lo) =~= s@.subrange(lo as int, hi as int));
    }
    (lo, hi)
}

fn scan_space(t: &str, from: usize) -> (r: usize)
    requires
        from <= t@.len(),
    ensures
        r == space_from(t@, from as int),
        from <= r <= t@.len(),
{
    let n = t.unicode_len();
    let mut i = from;
    while i < n
        invariant
            n == t@.len(),
            from <= i <= n,
            space_from(t@, i as int) == space_from(t@, from as int),
        decreases n - i,
    {
        if space(t.get_char(i)) {
            return i;
        }
        i = i + 1;
    }
    i
}

fn scan_word(t: &str, from: usize) -> (r: usize)
    requires
        from <= t@.len(),
    ensures
        r == word_from(t@, from as int),
        from <= r <= t@.len(),
{
    let n = t.unicode_len();
    let mut i = from;
    while i < n
        invariant
            n == t@.len(),
            from <= i <= n,
            word_from(t@, i as int) == word_from(t@, from as int),
        decreases n - i,
    {
        if !space(t.get_char(i)) {
            return i;
        }
        i = i + 1;
    }
    i
}

proof fn lemma_space_from_bounds(t: Seq<char>, i: int)
    requires
        0 <= i <= t.len(),
    ensures
        i <= space_from(t, i) <= t.len(),
        space_from(t, i) < t.len() ==> is_space(t[space_from(t, i)]),
        forall|k: int| i <= k < space_from(t, i) ==> !is_space(#[trigger] t[k]),
    decreases t.len() - i,
{
    if i < t.len() && !is_space(t[i]) {
        lemma_space_from_bounds(t, i + 1);
    }
}

proof fn lemma_word_from_bounds(t: Seq<char>, i: int)
    requires
        0 <= i <= t.len(),
    ensures
        i <= word_from(t, i) <= t.len(),
        word_from(t, i) < t.len() ==> !is_space(t[word_from(t, i)]),
        forall|k: int| i <= k < word_from(t, i) ==> is_space(#[trigger] t[k]),
    decreases t.len() - i,
{
    if i < t.len() && is_space(t[i]) {
        lemma_word_from_bounds(t, i + 1);
    }
}

/// A period from trimmed text `t`, given what reading `t` as a date gave:
/// that date when there is one; else one word read as a year; else two
/// words, a year and a frequency letter (`Q`, `M` or `W`, in either case)
/// followed by a number in range (1 to 4, 12 or 53).
pub open spec fn period_from(t: Seq<char>, date: Option<(i32, u32, u32)>) -> Option<Period> {
    if date is Some {
        let d = date->Some_0;
        Some(Period::Daily(Date { year: d.0, month: d.1 as u8, day: d.2 as u8 }))
    } else {
        let p = space_from(t, 0);
        if p == t.len() {
            match int_text(t, i32::MIN as int, i32::MAX as int) {
                Some(y) => Some(Period::Annual(y as i32)),
                None => None,
            }
        } else {
            let b = t.skip(word_from(t, p));
            if space_from(b, 0) < b.len() || b.len() < 2 {
                None
            } else {
                match (int_text(t.take(p), i32::MIN as int, i32::MAX as int), int_text(b.skip(1), 0, u32::MAX as int)) {
                    (Some(y), Some(v)) => {
                        let ind = upper(b[0]);
                        if ind == 'Q' && 1 <= v <= 4 {
                            Some(Period::Quarterly(y as i32, v as u8))
                        } else if ind == 'M' && 1 <= v <= 12 {
                            Some(Period::Monthly(y as i32, v as u8))
                        } else if ind == 'W' && 1 <= v <= 53 {
                            Some(Period::Weekly(y as i32, v as u8))
                        } else {
                            None
                        }
                    },
                    _ => None,
                }
            }
        }
    }
}

/// Reading a period from text: the text without surrounding white space,
/// read as `period_from` says, with what chrono reads from it as a date.
pub open spec fn period_of(s: Seq<char>) -> Option<Period> {
    period_from(trim(s), iso_date_of(trim(s)))
}

fn invalid(what: &str, t: &str) -> (r: HtsError)
    ensures
        r is InvalidPeriod,
{
    let mut m = String::from_str(what);
    m.append(": '");
    m.append(t);
    m.append("'");
    HtsError::InvalidPeriod(m)
}

impl Period {
    /// The numbers are in range: a quarter 1 to 4, a month 1 to 12, a week
    /// 1 to 53, a day a valid date.
    pub open spec fn wf(&self) -> bool {
        match *self {
            Period::Annual(_) => true,
            Period::Quarterly(_, q) => 1 <= q <= 4,
            Period::Monthly(_, m) => 1 <= m <= 12,
            Period::Weekly(_, w) => 1 <= w <= 53,
            Period::Daily(d) => d.wf(),
        }
    }

    /// Reads a period from text, as `period_of` describes, ignoring
    /// surrounding white space.
    pub fn parse(s: &str) -> (r: Result<Period, HtsError>)
        ensures
            r is Ok <==> period_of(s@) is Some,
            r matches Ok(p) ==> period_of(s@) == Some(p) && p.wf(),
            r matches Err(e) ==> e is InvalidPeriod,
    {
        let (lo, hi) = trim_bounds(s);
        let t = s.substring_char(lo, hi);
        assert(t@ == trim(s@));
        let date = parse_iso_date(t);
        Period::from_text(t, date)
    }

    /// The period that trimmed text `t` writes, as `period_from` says, given
    /// `date`, what reading `t` as a `YYYY-MM-DD` date gave.
    pub fn from_text(t: &str, date: Option<(i32, u32, u32)>) -> (r: Result<Period, HtsError>)
        requires
            date matches Some(d) ==> valid_ymd(d.0 as int, d.1 as int, d.2 as int),
        ensures
            r is Ok <==> period_from(t@, date) is Some,
            r matches Ok(p) ==> period_from(t@, date) == Some(p) && p.wf(),
            r matches Err(e) ==> e is InvalidPeriod,
    {
        match date {
            Some(d) => {
                return Ok(Period::Daily(date_of(d)));
            },
            None => {},
        }
        let n = t.unicode_len();
        let p = scan_space(t, 0);
        if p == n {
            return match read_int(t, 0, n, i32::MIN as i64, i32::MAX as i64) {
                Some(y) => {
                    assert(t@.subrange(0, n as int) =~= t@);
                    Ok(Period::Annual(y as i32))
                },
                None => {
                    assert(t@.subrange(0, n as int) =~= t@);
                    Err(invalid("Unknown period format", t))
                },
            };
        }
        let q = scan_word(t, p);
        let b = t.substring_char(q, n);
        assert(b@ =~= t@.skip(q as int));
        let bn = b.unicode_len();
        if scan_space(b, 0) < bn {
            return Err(invalid("Unknown period format", t));
        }
        if bn < 2 {
            return Err(invalid("Invalid period suffix", t));
        }
        assert(t@.subrange(0, p as int) =~= t@.take(p as int));
        let year = match read_int(t, 0, p, i32::MIN as i64, i32::MAX as i64) {
            Some(y) => y as i32,
            None => {
                return Err(invalid("Invalid year", t));
            },
        };
        assert(b@.subrange(1, bn as int) =~= b@.skip(1));
        let value = match read_int(b, 1, bn, 0, u32::MAX as i64) {
            Some(v) => v,
            None => {
                return Err(invalid("Invalid number in period", t));
            },
        };
        let c = b.get_char(0);
        let ind = if 'a' <= c && c <= 'z' { (((c as u32) - 32) as u8) as char } else { c };
        assert(ind == upper(b@[0]));
        if ind == 'Q' {
            if 1 <= value && value <= 4 {
                Ok(Period::Quarterly(year, value as u8))
            } else {
                Err(invalid("Quarter must be 1-4", t))
            }
        } else if ind == 'M' {
            if 1 <= value && value <= 12 {
                Ok(Period::Monthly(year, value as u8))
            } else {
                Err(invalid("Month must be 1-12", t))
            }
        } else if ind == 'W' {
            if 1 <= value && value <= 53 {
                Ok(Period::Weekly(year, value as u8))
            } else {
                Err(invalid("Week must be 1-53", t))
            }
        } else {
            Err(invalid("Unknown period type", t))
        }
    }
}

/// The year of a period.
pub open spec fn year_of(p: Period) -> int {
    match p {
        Period::Annual(y) => y as int,
        Period::Quarterly(y, _) => y as int,
        Period::Monthly(y, _) => y as int,
        Period::Weekly(y, _) => y as int,
        Period::Daily(d) => d.year as int,
    }
}

/// The first day of a period; for a week that the calendar lacks, January 1.
pub open spec fn start_date(p: Period) -> Date {
    match p {
        Period::Annual(y) => Date { year: y, month: 1, day: 1 },
        Period::Quarterly(y, q) => Date { year: y, month: (3 * q - 2) as u8, day: 1 },
        Period::Monthly(y, m) => Date { year: y, month: m, day: 1 },
        Period::Weekly(y, w) => match iso_week_start_of(y as int, w as int) {
            Some(t) => Date { year: t.0, month: t.1 as u8, day: t.2 as u8 },
            None => Date { year: y, month: 1, day: 1 },
        },
        Period::Daily(d) => d,
    }
}

/// The digit character for `d` in 0..=9.
pub open spec fn digit(d: nat) -> char {
    ((d + 48) as u8) as char
}

/// Decimal text of `n`.
pub open spec fn nat_text(n: nat) -> Seq<char>
    decreases n,
{
    if n < 10 {
        seq![digit(n)]
    } else {
        nat_text(n / 10) + seq![digit(n % 10)]
    }
}

/// Decimal text of `n`, with `-` when negative.
pub open spec fn signed_text(n: int) -> Seq<char> {
    if n < 0 { seq!['-'] + nat_text((-n) as nat) } else { nat_text(n as nat) }
}

/// Decimal text of `n`, at least two digits.
pub open spec fn two_digit_text(n: nat) -> Seq<char> {
    if n < 10 { seq!['0'] + nat_text(n) } else { nat_text(n) }
}

/// Decimal text of `n`, at least four digits.
pub open spec fn four_digit_text(n: nat) -> Seq<char> {
    if n < 10 {
        seq!['0', '0', '0'] + nat_text(n)
    } else if n < 100 {
        seq!['0', '0'] + nat_text(n)
    } else if n < 1000 {
        seq!['0'] + nat_text(n)
    } else {
        nat_text(n)
    }
}

/// A year as a date writes it: four digits, with a sign outside 0..=9999.
pub open spec fn year_text(y: int) -> Seq<char> {
    if 0 <= y <= 9999 {
        four_digit_text(y as nat)
    } else if y < 0 {
        seq!['-'] + four_digit_text((-y) as nat)
    } else {
        seq!['+'] + four_digit_text(y as nat)
    }
}

/// The `YYYY-MM-DD` text of a date.
pub open spec fn date_text(year: int, month: int, day: int) -> Seq<char> {
    year_text(year) + seq!['-'] + two_digit_text(month as nat) + seq!['-'] + two_digit_text(day as nat)
}

/// How a period is written: "1998", "1998 Q1", "1998 M01", "1998 W01",
/// "1998-01-01".
pub open spec fn text_of(p: Period) -> Seq<char> {
    match p {
        Period::Annual(y) => signed_text(y as int),
        Period::Quarterly(y, q) => signed_text(y as int) + seq![' ', 'Q'] + nat_text(q as nat),
        Period::Monthly(y, m) => signed_text(y as int) + seq![' ', 'M'] + two_digit_text(m as nat),
        Period::Weekly(y, w) => signed_text(y as int) + seq![' ', 'W'] + two_digit_text(w as nat),
        Period::Daily(d) => date_text(d.year as int, d.month as int, d.day as int),
    }
}

fn push_nat(n: u64, out: &mut String)
    ensures
        final(out)@ == old(out)@ + nat_text(n as nat),
    decreases n,
{
    if n >= 10 {
        push_nat(n / 10, out);
    }
    let d = (n % 10) as usize;
    let digits = "0123456789";
    proof {
        reveal_strlit("0123456789");
    }
    let one = digits.substring_char(d, d + 1);
    assert(one@ =~= seq![digit((n % 10) as nat)]);
    out.append(one);
    if n >= 10 {
        assert(nat_text(n as nat) == nat_text((n / 10) as nat) + seq![digit((n % 10) as nat)]);
    } else {
        assert(n % 10 == n);
    }
}

fn push_signed(n: i32, out: &mut String)
    ensures
        final(out)@ == old(out)@ + signed_text(n as int),
{
    if n < 0 {
        proof {
            reveal_strlit("-");
        }
        out.append("-");
        let ghost mid = out@;
        push_nat((-(n as i64)) as u64, out);
        assert(out@ =~= old(out)@ + signed_text(n as int));
    } else {
        push_nat(n as u64, out);
    }
}

fn push_two_digits(n: u8, out: &mut String)
    ensures
        final(out)@ == old(out)@ + two_digit_text(n as nat),
{
    if n < 10 {
        proof {
            reveal_strlit("0");
        }
        out.append("0");
        push_nat(n as u64, out);
        assert(out@ =~= old(out)@ + two_digit_text(n as nat));
    } else {
        push_nat(n as u64, out);
    }
}

impl Period {
    /// The first day of the period, as `start_date` says.
    pub fn to_naive_date(self) -> (r: Date)
        requires
            self.wf(),
            MIN_YEAR <= year_of(self) <= MAX_YEAR,
        ensures
            r == start_date(self),
            r.wf(),
    {
        match self {
            Period::Annual(y) => Date { year: y, month: 1, day: 1 },
            Period::Quarterly(y, q) => Date { year: y, month: 3 * q - 2, day: 1 },
            Period::Monthly(y, m) => Date { year: y, month: m, day: 1 },
            Period::Weekly(y, w) => match iso_week_start(y, w as u32) {
                Some(t) => date_of(t),
                None => Date { year: y, month: 1, day: 1 },
            },
            Period::Daily(d) => d,
        }
    }

    /// The period written as `text_of` says.
    pub fn to_string(&self) -> (r: String)
        requires
            self matches Period::Daily(d) ==> d.wf(),
        ensures
            r@ == text_of(*self),
    {
        let mut out = String::new();
        match *self {
            Period::Annual(y) => {
                push_signed(y, &mut out);
                assert(out@ =~= text_of(*self));
            },
            Period::Quarterly(y, q) => {
                push_signed(y, &mut out);
                proof {
                    reveal_strlit(" Q");
                }
                out.append(" Q");
                push_nat(q as u64, &mut out);
                assert(out@ =~= text_of(*self));
            },
            Period::Monthly(y, m) => {
                push_signed(y, &mut out);
                proof {
                    reveal_strlit(" M");
                }
                out.append(" M");
                push_two_digits(m, &mut out);
                assert(out@ =~= text_of(*self));
            },
            Period::Weekly(y, w) => {
                push_signed(y, &mut out);
                proof {
                    reveal_strlit(" W");
                }
                out.append(" W");
                push_two_digits(w, &mut out);
                assert(out@ =~= text_of(*self));
            },
            Period::Daily(d) => {
                out = iso_date_text(d.year, d.month as u32, d.day as u32);
            },
        }
        out
    }
}

impl core::str::FromStr for Period {
    type Err = HtsError;

    fn from_str(s: &str) -> Result<Period, HtsError> {
        Period::parse(s)
    }
}

} // verus!
