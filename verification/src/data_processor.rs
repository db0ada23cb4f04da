//! Record cleaning and daily aggregation.
//!
//! The raw feed is a delimited table with a header row and `timestamp` and
//! `value` columns. Cleaning parses each row into a typed sample and drops
//! the rows whose timestamp does not parse or whose value is absent,
//! reporting the drop count. Aggregation groups the surviving samples by
//! calendar date and carries each day's exact sum and count, whose quotient
//! is the day's average.

use vstd::prelude::*;

use crate::errors::AppError;
use crate::ratio::Ratio;

verus! {

use vstd::string::StrSliceExecFns;
use vstd::string::StringExecFns;

// ---------------------------------------------------------------------------
// Calendar types
// ---------------------------------------------------------------------------

/// A calendar date.
#[derive(Debug, Clone, Copy, PartialEq, Eq, Structural)]
pub struct Date {
    pub year: i32,
    pub month: u32,
    pub day: u32,
}

/// Chronological (lexicographic) order on dates.
pub open spec fn date_le(a: Date, b: Date) -> bool {
    ||| a.year < b.year
    ||| (a.year == b.year && a.month < b.month)
    ||| (a.year == b.year && a.month == b.month && a.day <= b.day)
}

/// Decides `date_le` on two dates.
pub fn date_le_exec(a: &Date, b: &Date) -> (r: bool)
    ensures
        r == date_le(*a, *b),
{
    if a.year != b.year {
        a.year < b.year
    } else if a.month != b.month {
        a.month < b.month
    } else {
        a.day <= b.day
    }
}

/// The character of a single decimal digit.
pub open spec fn digit_char(v: int) -> char {
    if v == 0 {
        '0'
    } else if v == 1 {
        '1'
    } else if v == 2 {
        '2'
    } else if v == 3 {
        '3'
    } else if v == 4 {
        '4'
    } else if v == 5 {
        '5'
    } else if v == 6 {
        '6'
    } else if v == 7 {
        '7'
    } else if v == 8 {
        '8'
    } else {
        '9'
    }
}

/// The textual form of a date with a four-digit year: "YYYY-MM-DD",
/// zero-padded.
pub open spec fn spec_date_string(d: Date) -> Seq<char> {
    seq![
        digit_char(d.year as int / 1000 % 10),
        digit_char(d.year as int / 100 % 10),
        digit_char(d.year as int / 10 % 10),
        digit_char(d.year as int % 10),
        '-',
        digit_char(d.month as int / 10 % 10),
        digit_char(d.month as int % 10),
        '-',
        digit_char(d.day as int / 10 % 10),
        digit_char(d.day as int % 10),
    ]
}

fn digit_str(v: u32) -> (r: &'static str)
    requires
        v < 10,
    ensures
        r@ =~= seq![digit_char(v as int)],
{
    proof {
        reveal_strlit("0");
        reveal_strlit("1");
        reveal_strlit("2");
        reveal_strlit("3");
        reveal_strlit("4");
        reveal_strlit("5");
        reveal_strlit("6");
        reveal_strlit("7");
        reveal_strlit("8");
        reveal_strlit("9");
    }
    match v {
        0 => "0",
        1 => "1",
        2 => "2",
        3 => "3",
        4 => "4",
        5 => "5",
        6 => "6",
        7 => "7",
        8 => "8",
        _ => "9",
    }
}

impl Date {
    /// Renders this date as "YYYY-MM-DD", zero-padded, for four-digit
    /// years.
    pub fn date_string(&self) -> (r: String)
        requires
            0 <= self.year <= 9999,
            self.month <= 99,
            self.day <= 99,
        ensures
            r@ == spec_date_string(*self),
    {
        let y = self.year as u32;
        let mut out = String::new();
        out.append(digit_str(y / 1000 % 10));
        out.append(digit_str(y / 100 % 10));
        out.append(digit_str(y / 10 % 10));
        out.append(digit_str(y % 10));
        out.append("-");
        out.append(digit_str(self.month / 10 % 10));
        out.append(digit_str(self.month % 10));
        out.append("-");
        out.append(digit_str(self.day / 10 % 10));
        out.append(digit_str(self.day % 10));
        proof {
            reveal_strlit("-");
            assert(out@ =~= spec_date_string(*self));
        }
        out
    }
}

/// A calendar date and time of day.
#[derive(Debug, Clone, Copy, PartialEq, Eq, Structural)]
pub struct Timestamp {
    pub year: i32,
    pub month: u32,
    pub day: u32,
    pub hour: u32,
    pub minute: u32,
    pub second: u32,
}

impl Timestamp {
    /// The calendar date of this timestamp, with the time of day discarded.
    pub open spec fn spec_date(self) -> Date {
        Date { year: self.year, month: self.month, day: self.day }
    }

    /// Truncates this timestamp to its calendar date.
    pub fn date(&self) -> (d: Date)
        ensures
            d == self.spec_date(),
    {
        Date { year: self.year, month: self.month, day: self.day }
    }
}

// ---------------------------------------------------------------------------
// Row types
// ---------------------------------------------------------------------------

/// One row of the feed as read from the table: an uninterpreted timestamp
/// text and an optionally absent integer value.
#[derive(Debug, Clone, PartialEq, Eq)]
pub struct RawRecord {
    pub timestamp: String,
    pub value: Option<i32>,
}

/// The purely mathematical content of a raw row.
pub open spec fn rec_model(r: RawRecord) -> (Seq<char>, Option<i32>) {
    (r.timestamp@, r.value)
}

/// The mathematical content of a sequence of raw rows.
pub open spec fn recs_model(s: Seq<RawRecord>) -> Seq<(Seq<char>, Option<i32>)> {
    s.map_values(|r: RawRecord| rec_model(r))
}

/// A validated sample: a well-formed timestamp and a present value.
#[derive(Debug, Clone, Copy, PartialEq, Eq, Structural)]
pub struct CleanSample {
    pub timestamp: Timestamp,
    pub value: i32,
}

/// One day of aggregated samples. The day's average value is the exact
/// rational `value_sum / sample_count`.
#[derive(Debug, Clone, Copy, PartialEq, Eq, Structural)]
pub struct DailyAggregate {
    pub date: Date,
    pub value_sum: i128,
    pub sample_count: usize,
}

impl DailyAggregate {
    /// An aggregate is well formed when it covers at least one sample and
    /// its sum is bounded by what that many 32-bit values can reach.
    pub open spec fn wf(self) -> bool {
        &&& 1 <= self.sample_count
        &&& -((self.sample_count as int) * 0x8000_0000) <= self.value_sum as int
        &&& self.value_sum as int <= (self.sample_count as int) * 0x8000_0000
    }

    /// The day's average value as an exact rational.
    pub open spec fn avg(self) -> Ratio {
        Ratio { num: self.value_sum, den: self.sample_count as i128 }
    }

    /// Returns the day's average value as an exact rational.
    pub fn avg_ratio(&self) -> (r: Ratio)
        requires
            self.sample_count >= 1,
        ensures
            r == self.avg(),
    {
        Ratio { num: self.value_sum, den: self.sample_count as i128 }
    }
}

// ---------------------------------------------------------------------------
// Timestamp parsing (through chrono)
// ---------------------------------------------------------------------------

/// The calendar components that the fixed pattern
/// "year-month-day hour:minute:second" assigns to a text, or nothing when
/// the text does not match the pattern: (year, month, day, hour, minute,
/// second). The pattern's exact acceptance set is chrono's; it depends on
/// the text alone.
pub uninterp spec fn parsed_timestamp(s: Seq<char>) -> Option<(int, int, int, int, int, int)>;

/// The timestamp a well-formed text denotes.
pub open spec fn spec_timestamp_of(s: Seq<char>) -> Timestamp
    recommends
        parsed_timestamp(s) is Some,
{
    let t = parsed_timestamp(s)->Some_0;
    Timestamp {
        year: t.0 as i32,
        month: t.1 as u32,
        day: t.2 as u32,
        hour: t.3 as u32,
        minute: t.4 as u32,
        second: t.5 as u32,
    }
}

/// Relies on chrono's `NaiveDateTime::parse_from_str` with the pattern
/// "%Y-%m-%d %H:%M:%S", and on chrono's documented component ranges
/// (month 1..=12, day 1..=31, hour 0..=23, minute 0..=59, second 0..=59).
/// Which texts parse, and to which components, depends on the text alone.
#[verifier::external_body]
fn parse_datetime(s: &str) -> (r: Option<Timestamp>)
    ensures
        r is Some <==> parsed_timestamp(s@) is Some,
        r matches Some(t) ==> parsed_timestamp(s@) == Some(
            (
                t.year as int,
                t.month as int,
                t.day as int,
                t.hour as int,
                t.minute as int,
                t.second as int,
            ),
        ) && 1 <= t.month <= 12 && 1 <= t.day <= 31 && t.hour <= 23 && t.minute <= 59
            && t.second <= 59,
{
    match chrono::NaiveDateTime::parse_from_str(s, "%Y-%m-%d %H:%M:%S") {
        Ok(dt) => Some(Timestamp {
            year: chrono::Datelike::year(&dt),
            month: chrono::Datelike::month(&dt),
            day: chrono::Datelike::day(&dt),
            hour: chrono::Timelike::hour(&dt),
            minute: chrono::Timelike::minute(&dt),
            second: chrono::Timelike::second(&dt),
        }),
        Err(_) => None,
    }
}

// ---------------------------------------------------------------------------
// Table reading (through csv)
// ---------------------------------------------------------------------------

/// The rows of fields that the delimited-table grammar assigns to a text,
/// header row first, or nothing when the text is structurally malformed
/// (rows of unequal width, invalid quoting or encoding). The split depends
/// on the text alone.
pub uninterp spec fn csv_table(s: Seq<char>) -> Option<Seq<Seq<Seq<char>>>>;

/// Relies on the csv crate's `Reader` with its default strict settings:
/// it yields the header row and then every record, each with exactly as
/// many fields as the header row, and reports a structurally malformed
/// table as an error. The error text is handed back as a plain message.
#[verifier::external_body]
fn read_csv_table(data: &str) -> (r: Result<Vec<Vec<String>>, String>)
    ensures
        r matches Ok(t) ==> csv_table(data@) == Some(t.deep_view()) && t@.len() >= 1 && (forall|
            i: int,
        |
            0 <= i < t@.len() ==> #[trigger] t@[i]@.len() == t@[0]@.len()),
        r is Err ==> csv_table(data@) is None,
{
    let mut rdr = csv::Reader::from_reader(data.as_bytes());
    let mut table: Vec<Vec<String>> = Vec::new();
    match rdr.headers() {
        Ok(h) => table.push(h.iter().map(|f| f.to_string()).collect()),
        Err(e) => return Err(format!("{}", e)),
    }
    for rec in rdr.records() {
        match rec {
            Ok(row) => table.push(row.iter().map(|f| f.to_string()).collect()),
            Err(e) => return Err(format!("{}", e)),
        }
    }
    Ok(table)
}

// ---------------------------------------------------------------------------
// Verified text primitives
// ---------------------------------------------------------------------------

/// Decides whether two texts hold the same characters.
fn str_eq(a: &str, b: &str) -> (r: bool)
    ensures
        r == (a@ == b@),
{
    let alen = a.unicode_len();
    let blen = b.unicode_len();
    if alen != blen {
        return false;
    }
    let mut i: usize = 0;
    while i < alen
        invariant
            alen == a@.len(),
            blen == b@.len(),
            alen == blen,
            i <= alen,
            forall|j: int| 0 <= j < i ==> a@[j] == b@[j],
        decreases alen - i,
    {
        let ca = a.get_char(i);
        let cb = b.get_char(i);
        if ca as u32 != cb as u32 {
            proof {
                assert(a@[i as int] != b@[i as int]);
            }
            return false;
        }
        proof {
            assert(a@[i as int] == b@[i as int]);
        }
        i += 1;
    }
    proof {
        assert(a@ =~= b@);
    }
    true
}

/// Whether a character is a decimal digit.
pub open spec fn is_digit_char(c: char) -> bool {
    48 <= c as u32 && c as u32 <= 57
}

/// The numeric value of a decimal digit character.
pub open spec fn digit_value(c: char) -> int {
    c as u32 - 48
}

/// Whether every character of a text is a decimal digit.
pub open spec fn all_digits(s: Seq<char>) -> bool {
    forall|i: int| 0 <= i < s.len() ==> is_digit_char(#[trigger] s[i])
}

/// The number a text of decimal digits denotes, most significant first.
pub open spec fn digits_value(s: Seq<char>) -> int
    decreases s.len(),
{
    if s.len() == 0 {
        0
    } else {
        digits_value(s.drop_last()) * 10 + digit_value(s.last())
    }
}

/// Whether a text starts with an explicit sign character.
pub open spec fn has_sign_char(s: Seq<char>) -> bool {
    s.len() > 0 && (s[0] == '+' || s[0] == '-')
}

/// The digit part of an integer literal: the text with any sign removed.
pub open spec fn literal_digits(s: Seq<char>) -> Seq<char> {
    if has_sign_char(s) {
        s.drop_first()
    } else {
        s
    }
}

/// The sign an integer literal denotes: -1 under a leading minus, else 1.
pub open spec fn literal_sign(s: Seq<char>) -> int {
    if s.len() > 0 && s[0] == '-' {
        -1
    } else {
        1
    }
}

/// The mathematical value an integer literal denotes, before any range
/// check; meaningful when the digit part is well formed.
pub open spec fn literal_value(s: Seq<char>) -> int {
    literal_sign(s) * digits_value(literal_digits(s))
}

/// The 32-bit integer a text denotes under the grammar of `str::parse`:
/// an optional sign followed by one or more decimal digits, whose value
/// fits the type; anything else denotes nothing.
pub open spec fn i32_literal_value(s: Seq<char>) -> Option<i32> {
    if literal_digits(s).len() > 0 && all_digits(literal_digits(s))
        && -0x8000_0000 <= literal_value(s) && literal_value(s) <= 0x7FFF_FFFF {
        Some(literal_value(s) as i32)
    } else {
        None
    }
}

proof fn lemma_digits_value_nonneg(s: Seq<char>)
    requires
        all_digits(s),
    ensures
        digits_value(s) >= 0,
    decreases s.len(),
{
    if s.len() > 0 {
        assert(all_digits(s.drop_last()));
        lemma_digits_value_nonneg(s.drop_last());
    }
}

proof fn lemma_digits_value_prefix(s: Seq<char>, i: int)
    requires
        all_digits(s),
        0 <= i <= s.len(),
    ensures
        digits_value(s.take(i)) <= digits_value(s),
    decreases s.len() - i,
{
    if i < s.len() {
        assert(s.take(i + 1).drop_last() =~= s.take(i));
        assert(all_digits(s.take(i)));
        lemma_digits_value_nonneg(s.take(i));
        assert(digits_value(s.take(i + 1)) == digits_value(s.take(i)) * 10 + digit_value(
            s.take(i + 1).last(),
        ));
        lemma_digits_value_prefix(s, i + 1);
    } else {
        assert(s.take(i) =~= s);
    }
}

/// Parses a 32-bit integer exactly as `str::parse::<i32>` does: an optional
/// sign, then one or more decimal digits, rejecting anything else and any
/// value out of range.
pub fn parse_i32(s: &str) -> (r: Option<i32>)
    ensures
        r == i32_literal_value(s@),
{
    let n = s.unicode_len();
    if n == 0 {
        return None;
    }
    let first = s.get_char(0);
    let fv = first as u32;
    let has_sign = fv == 43 || fv == 45;
    let neg = fv == 45;
    proof {
        assert(has_sign == (s@[0] == '+' || s@[0] == '-'));
        assert(neg == (s@[0] == '-'));
    }
    let start: usize = if has_sign {
        1
    } else {
        0
    };
    let ghost digits: Seq<char> = if has_sign {
        s@.drop_first()
    } else {
        s@
    };
    proof {
        assert(digits =~= s@.subrange(start as int, n as int));
    }
    if n == start {
        return None;
    }
    let mut i: usize = start;
    let mut acc: i64 = 0;
    while i < n
        invariant
            s@.len() == n,
            start <= i <= n,
            start <= 1,
            start < n,
            has_sign == (s@[0] == '+' || s@[0] == '-'),
            neg == (s@[0] == '-'),
            has_sign == (start == 1),
            digits == s@.subrange(start as int, n as int),
            all_digits(s@.subrange(start as int, i as int)),
            acc == digits_value(s@.subrange(start as int, i as int)),
            0 <= acc <= 0x8000_0000,
        decreases n - i,
    {
        let c = s.get_char(i);
        let cv = c as u32;
        if cv < 48 || cv > 57 {
            proof {
                assert(digits == literal_digits(s@));
                assert(digits[i - start as int] == s@[i as int]);
                assert(!all_digits(digits));
            }
            return None;
        }
        let d: i64 = (cv - 48) as i64;
        proof {
            assert(s@.subrange(start as int, i + 1 as int).drop_last() =~= s@.subrange(
                start as int,
                i as int,
            ));
            assert(s@.subrange(start as int, i + 1 as int).last() == s@[i as int]);
            assert(all_digits(s@.subrange(start as int, i + 1 as int)));
        }
        acc = acc * 10 + d;
        if acc > 0x8000_0000 {
            proof {
                assert(digits == literal_digits(s@));
                assert(digits_value(s@.subrange(start as int, i + 1 as int)) == acc);
                if all_digits(digits) {
                    assert(digits.take(i + 1 - start as int) =~= s@.subrange(
                        start as int,
                        i + 1 as int,
                    ));
                    lemma_digits_value_prefix(digits, i + 1 - start as int);
                    assert(digits_value(digits) > 0x8000_0000);
                    if s@[0] == '-' {
                        assert(literal_value(s@) == -1 * digits_value(digits));
                    } else {
                        assert(literal_value(s@) == 1 * digits_value(digits));
                    }
                }
            }
            return None;
        }
        i += 1;
    }
    proof {
        assert(s@.subrange(start as int, n as int) =~= digits);
        assert(digits == literal_digits(s@));
        assert(all_digits(digits));
        assert(digits_value(digits) == acc);
        assert(digits.len() > 0);
        if s@[0] == '-' {
            assert(literal_value(s@) == -1 * acc);
        } else {
            assert(literal_value(s@) == 1 * acc);
        }
    }
    if neg {
        let v: i64 = -acc;
        Some(v as i32)
    } else {
        if acc == 0x8000_0000 {
            return None;
        }
        Some(acc as i32)
    }
}

/// What the `value` column of a row denotes: an absent field denotes an
/// absent value, a well-formed integer field denotes that value, and any
/// other field is a structural error (nothing).
pub open spec fn value_field(f: Seq<char>) -> Option<Option<i32>> {
    if f.len() == 0 {
        Some(None)
    } else {
        match i32_literal_value(f) {
            Some(v) => Some(Some(v)),
            None => None,
        }
    }
}

// ---------------------------------------------------------------------------
// Header columns
// ---------------------------------------------------------------------------

/// How many header fields carry the given name.
pub open spec fn col_count(h: Seq<Seq<char>>, name: Seq<char>) -> int
    decreases h.len(),
{
    if h.len() == 0 {
        0
    } else {
        col_count(h.drop_last(), name) + (if h.last() == name {
            1int
        } else {
            0int
        })
    }
}

/// The first header field carrying the given name; meaningful when one does.
pub open spec fn col_index(h: Seq<Seq<char>>, name: Seq<char>) -> int
    decreases h.len(),
{
    if h.len() == 0 {
        0
    } else if h[0] == name {
        0
    } else {
        1 + col_index(h.drop_first(), name)
    }
}

proof fn lemma_col_index_first(h: Seq<Seq<char>>, name: Seq<char>, i: int)
    requires
        0 <= i < h.len(),
        h[i] == name,
        forall|j: int| 0 <= j < i ==> h[j] != name,
    ensures
        col_index(h, name) == i,
    decreases i,
{
    if i > 0 {
        assert(h[0] != name);
        assert forall|j: int| 0 <= j < i - 1 implies h.drop_first()[j] != name by {
            assert(h.drop_first()[j] == h[j + 1]);
        }
        assert(h.drop_first()[i - 1] == h[i]);
        lemma_col_index_first(h.drop_first(), name, i - 1);
    }
}

/// Counts the header fields equal to `name` and finds the first of them.
fn column_info(headers: &Vec<String>, name: &str) -> (r: (usize, usize))
    ensures
        r.0 == col_count(headers.deep_view(), name@),
        r.0 > 0 ==> r.1 < headers@.len() && r.1 == col_index(headers.deep_view(), name@)
            && headers.deep_view()[r.1 as int] == name@,
{
    let ghost h = headers.deep_view();
    let mut count: usize = 0;
    let mut idx: usize = 0;
    let mut i: usize = 0;
    while i < headers.len()
        invariant
            h == headers.deep_view(),
            h.len() == headers@.len(),
            i <= headers@.len(),
            count <= i,
            count == col_count(h.take(i as int), name@),
            count > 0 ==> idx < i && h[idx as int] == name@ && (forall|j: int|
                0 <= j < idx ==> h[j] != name@),
            count == 0 ==> forall|j: int| 0 <= j < i ==> h[j] != name@,
        decreases headers@.len() - i,
    {
        proof {
            assert(h.take(i + 1 as int).drop_last() =~= h.take(i as int));
            assert(h.take(i + 1 as int).last() == h[i as int]);
            assert(h[i as int] == headers@[i as int]@);
        }
        let hi = &headers[i];
        if str_eq(hi.as_str(), name) {
            if count == 0 {
                idx = i;
            }
            count = count + 1;
        }
        i += 1;
    }
    proof {
        assert(h.take(headers@.len() as int) =~= h);
        if count > 0 {
            lemma_col_index_first(h, name@, idx as int);
        }
    }
    (count, idx)
}

// ---------------------------------------------------------------------------
// Table to raw records
// ---------------------------------------------------------------------------

/// Whether a header row names both required columns exactly once.
pub open spec fn header_ok(header: Seq<Seq<char>>) -> bool {
    col_count(header, "timestamp"@) == 1 && col_count(header, "value"@) == 1
}

/// The raw records a split table denotes: each data row contributes its
/// `timestamp` field and the value its `value` field denotes. The result is
/// nothing when a required column is missing or duplicated while data rows
/// exist, or when some `value` field is neither absent nor a well-formed
/// 32-bit integer. A table with no data rows denotes no records, whatever
/// its header.
pub open spec fn table_records(t: Seq<Seq<Seq<char>>>) -> Option<Seq<(Seq<char>, Option<i32>)>> {
    if t.len() <= 1 {
        Some(Seq::empty())
    } else if !header_ok(t[0]) {
        None
    } else if exists|i: int|
        1 <= i < t.len() && value_field(#[trigger] t[i][col_index(t[0], "value"@)]) is None {
        None
    } else {
        Some(
            Seq::new(
                (t.len() - 1) as nat,
                |i: int|
                    (
                        t[i + 1][col_index(t[0], "timestamp"@)],
                        value_field(t[i + 1][col_index(t[0], "value"@)])->Some_0,
                    ),
            ),
        )
    }
}

/// Whether a sequence of raw records carries exactly the given
/// mathematical record contents, element by element.
pub open spec fn records_match(v: Seq<RawRecord>, rs: Seq<(Seq<char>, Option<i32>)>) -> bool {
    v.len() == rs.len() && (forall|i: int|
        0 <= i < rs.len() ==> (#[trigger] v[i]).timestamp@ == rs[i].0 && v[i].value == rs[i].1)
}

/// Splits the feed text into raw records: a structurally malformed table is
/// a fatal error, and otherwise each data row yields one record with its
/// timestamp text and its (possibly absent) integer value.
pub fn parse_data(data: &str) -> (r: Result<Vec<RawRecord>, AppError>)
    ensures
        csv_table(data@) is None ==> (r matches Err(e) && e is CsvError),
        (csv_table(data@) is Some && table_records(csv_table(data@)->Some_0) is None) ==> (
        r matches Err(e) && e is CsvError),
        (csv_table(data@) is Some && table_records(csv_table(data@)->Some_0) is Some) ==> (
        r matches Ok(v) && records_match(v@, table_records(csv_table(data@)->Some_0)->Some_0)),
{
    let table = match read_csv_table(data) {
        Ok(t) => t,
        Err(m) => {
            return Err(AppError::CsvError(m));
        },
    };
    let ghost tv = table.deep_view();
    proof {
        assert forall|k: int| 0 <= k < tv.len() implies (#[trigger] tv[k]).len() == tv[0].len() by {
            assert(tv[k] == table@[k].deep_view());
            assert(tv[k].len() == table@[k]@.len());
            assert(tv[0].len() == table@[0]@.len());
        }
    }
    if table.len() == 1 {
        return Ok(Vec::new());
    }
    let header = &table[0];
    proof {
        assert(header.deep_view() == tv[0]);
    }
    let (tcount, ti) = column_info(header, "timestamp");
    let (vcount, vi) = column_info(header, "value");
    if tcount != 1 || vcount != 1 {
        return Err(AppError::CsvError("missing or duplicated feed columns".to_string()));
    }
    let mut out: Vec<RawRecord> = Vec::new();
    let mut i: usize = 1;
    while i < table.len()
        invariant
            tv == table.deep_view(),
            csv_table(data@) == Some(tv),
            tv.len() == table@.len(),
            1 <= i <= tv.len(),
            2 <= tv.len(),
            header_ok(tv[0]),
            ti == col_index(tv[0], "timestamp"@),
            vi == col_index(tv[0], "value"@),
            ti < tv[0].len(),
            vi < tv[0].len(),
            forall|k: int| 0 <= k < tv.len() ==> (#[trigger] tv[k]).len() == tv[0].len(),
            forall|k: int| 0 <= k < tv.len() ==> #[trigger] table@[k]@.len() == tv[k].len(),
            forall|k: int| 1 <= k < i ==> value_field(#[trigger] tv[k][vi as int]) is Some,
            out@.len() == i - 1,
            forall|k: int|
                0 <= k < i - 1 ==> (#[trigger] out@[k]).timestamp@ == tv[k + 1][ti as int]
                    && out@[k].value == value_field(tv[k + 1][vi as int])->Some_0,
        decreases tv.len() - i,
    {
        let row = &table[i];
        proof {
            assert(row.deep_view() == tv[i as int]);
            assert(row@.len() == tv[i as int].len());
            assert(row@[ti as int]@ == tv[i as int][ti as int]);
            assert(row@[vi as int]@ == tv[i as int][vi as int]);
        }
        let ts: String = row[ti].clone();
        let vstr = &row[vi];
        let value: Option<i32> = if vstr.unicode_len() == 0 {
            None
        } else {
            match parse_i32(vstr.as_str()) {
                Some(v) => Some(v),
                None => {
                    proof {
                        assert(tv[i as int][col_index(tv[0], "value"@)] == tv[i as int][vi as int]);
                        assert(value_field(tv[i as int][col_index(tv[0], "value"@)]) is None);
                        assert(table_records(tv) is None);
                    }
                    return Err(
                        AppError::CsvError("a value field is not a well-formed integer".to_string()),
                    );
                },
            }
        };
        out.push(RawRecord { timestamp: ts, value });
        i += 1;
    }
    proof {
        assert forall|k: int|
            1 <= k < tv.len() implies value_field(
            #[trigger] tv[k][col_index(tv[0], "value"@)],
        ) is Some by {
            assert(tv[k][col_index(tv[0], "value"@)] == tv[k][vi as int]);
        }
        assert(table_records(tv) is Some);
        let ghost rs = table_records(tv)->Some_0;
        assert(out@.len() == rs.len());
        assert forall|k: int|
            0 <= k < rs.len() implies (#[trigger] out@[k]).timestamp@ == rs[k].0 && out@[k].value
            == rs[k].1 by {
            assert(rs[k].0 == tv[k + 1][col_index(tv[0], "timestamp"@)]);
            assert(tv[k + 1][col_index(tv[0], "timestamp"@)] == tv[k + 1][ti as int]);
            assert(rs[k].1 == value_field(tv[k + 1][col_index(tv[0], "value"@)])->Some_0);
            assert(tv[k + 1][col_index(tv[0], "value"@)] == tv[k + 1][vi as int]);
        }
        assert(records_match(out@, rs));
    }
    Ok(out)
}

// ---------------------------------------------------------------------------
// Cleaning
// ---------------------------------------------------------------------------

/// Whether a raw record survives cleaning: its timestamp text parses and
/// its value is present.
pub open spec fn keeps(rec: (Seq<char>, Option<i32>)) -> bool {
    parsed_timestamp(rec.0) is Some && rec.1 is Some
}

/// The clean sample a surviving raw record becomes.
pub open spec fn clean_sample_of(rec: (Seq<char>, Option<i32>)) -> CleanSample {
    CleanSample { timestamp: spec_timestamp_of(rec.0), value: rec.1->Some_0 }
}

/// The clean samples of a record sequence, in input order.
pub open spec fn clean_model(rs: Seq<(Seq<char>, Option<i32>)>) -> Seq<CleanSample>
    decreases rs.len(),
{
    if rs.len() == 0 {
        Seq::empty()
    } else if keeps(rs.last()) {
        clean_model(rs.drop_last()).push(clean_sample_of(rs.last()))
    } else {
        clean_model(rs.drop_last())
    }
}

/// How many records of a sequence cleaning drops.
pub open spec fn dropped_count(rs: Seq<(Seq<char>, Option<i32>)>) -> int
    decreases rs.len(),
{
    if rs.len() == 0 {
        0
    } else {
        dropped_count(rs.drop_last()) + (if keeps(rs.last()) {
            0int
        } else {
            1int
        })
    }
}

/// Cleaning partitions its input: every raw record either becomes exactly
/// one clean sample or is counted as dropped, so the number of clean
/// samples equals the number of raw records minus the drop count.
pub proof fn lemma_clean_partition(rs: Seq<(Seq<char>, Option<i32>)>)
    ensures
        clean_model(rs).len() + dropped_count(rs) == rs.len(),
    decreases rs.len(),
{
    if rs.len() > 0 {
        lemma_clean_partition(rs.drop_last());
    }
}

/// Validates raw records into clean samples, dropping (and counting) the
/// rows whose timestamp does not parse or whose value is absent. The drop
/// count is returned to the caller as the diagnostic, so the count of
/// samples plus the count of drops equals the count of records.
pub fn clean_data(records: Vec<RawRecord>) -> (r: (Vec<CleanSample>, usize))
    ensures
        r.0@ == clean_model(recs_model(records@)),
        r.1 == dropped_count(recs_model(records@)),
        r.0@.len() + r.1 == records@.len(),
{
    let ghost rm = recs_model(records@);
    let mut cleaned: Vec<CleanSample> = Vec::new();
    let mut dropped: usize = 0;
    let mut i: usize = 0;
    while i < records.len()
        invariant
            rm == recs_model(records@),
            rm.len() == records@.len(),
            i <= records@.len(),
            cleaned@ == clean_model(rm.take(i as int)),
            dropped == dropped_count(rm.take(i as int)),
            cleaned@.len() + dropped == i,
        decreases records@.len() - i,
    {
        proof {
            assert(rm.take(i + 1 as int).drop_last() =~= rm.take(i as int));
            assert(rm.take(i + 1 as int).last() == rm[i as int]);
            assert(rm[i as int] == rec_model(records@[i as int]));
        }
        let rec = &records[i];
        let parsed = parse_datetime(rec.timestamp.as_str());
        match (parsed, rec.value) {
            (Some(t), Some(v)) => {
                proof {
                    assert(t == spec_timestamp_of(rec.timestamp@));
                    assert(keeps(rm[i as int]));
                }
                cleaned.push(CleanSample { timestamp: t, value: v });
            },
            _ => {
                proof {
                    assert(!keeps(rm[i as int]));
                }
                dropped = dropped + 1;
            },
        }
        i += 1;
    }
    proof {
        assert(rm.take(records@.len() as int) =~= rm);
        lemma_clean_partition(rm);
    }
    (cleaned, dropped)
}

// ---------------------------------------------------------------------------
// The processing pipeline
// ---------------------------------------------------------------------------

/// Processes the raw feed text: splits it into rows, cleans the rows into
/// samples, and aggregates the samples by calendar date. A structurally
/// malformed table is a fatal error; row-level defects are dropped and
/// counted. Returns the aggregates (in no guaranteed order) together with
/// the drop count.
pub fn process_data(data: &str) -> (r: Result<(Vec<DailyAggregate>, usize), AppError>)
    ensures
        csv_table(data@) is None ==> (r matches Err(e) && e is CsvError),
        (csv_table(data@) is Some && table_records(csv_table(data@)->Some_0) is None) ==> (
        r matches Err(e) && e is CsvError),
        (csv_table(data@) is Some && table_records(csv_table(data@)->Some_0) is Some) ==> (
        r matches Ok(p) && p.1 == dropped_count(table_records(csv_table(data@)->Some_0)->Some_0)
            && aggregates_ok(
            p.0@,
            clean_model(table_records(csv_table(data@)->Some_0)->Some_0),
        )),
{
    let records = match parse_data(data) {
        Ok(v) => v,
        Err(e) => {
            return Err(e);
        },
    };
    let (cleaned, dropped) = clean_data(records);
    let aggregates = aggregate_daily(&cleaned);
    proof {
        let rs = table_records(csv_table(data@)->Some_0)->Some_0;
        assert forall|i: int| 0 <= i < rs.len() implies recs_model(records@)[i] == rs[i] by {
            assert(recs_model(records@)[i] == rec_model(records@[i]));
        }
        assert(recs_model(records@) =~= rs);
        assert(clean_model(recs_model(records@)) == clean_model(rs));
    }
    Ok((aggregates, dropped))
}

/// How many samples of a sequence fall on the given date.
pub open spec fn count_for(s: Seq<CleanSample>, d: Date) -> int
    decreases s.len(),
{
    if s.len() == 0 {
        0
    } else {
        count_for(s.drop_last(), d) + (if s.last().timestamp.spec_date() == d {
            1int
        } else {
            0int
        })
    }
}

/// The sum of the sample values of a sequence falling on the given date.
pub open spec fn sum_for(s: Seq<CleanSample>, d: Date) -> int
    decreases s.len(),
{
    if s.len() == 0 {
        0
    } else {
        sum_for(s.drop_last(), d) + (if s.last().timestamp.spec_date() == d {
            s.last().value as int
        } else {
            0int
        })
    }
}

proof fn lemma_count_bounds(s: Seq<CleanSample>, d: Date)
    ensures
        0 <= count_for(s, d) <= s.len(),
        -(count_for(s, d) * 0x8000_0000) <= sum_for(s, d),
        sum_for(s, d) <= count_for(s, d) * 0x8000_0000,
    decreases s.len(),
{
    if s.len() > 0 {
        lemma_count_bounds(s.drop_last(), d);
    }
}

/// Whether `out` is a correct daily aggregation of `samples`: one
/// well-formed entry per distinct date that occurs, carrying exactly that
/// date's sample count and value sum.
pub open spec fn aggregates_ok(out: Seq<DailyAggregate>, samples: Seq<CleanSample>) -> bool {
    &&& forall|j: int|
        0 <= j < out.len() ==> (#[trigger] out[j]).sample_count == count_for(samples, out[j].date)
    &&& forall|j: int|
        0 <= j < out.len() ==> (#[trigger] out[j]).value_sum == sum_for(samples, out[j].date)
    &&& forall|j: int| 0 <= j < out.len() ==> (#[trigger] out[j]).wf()
    &&& forall|j: int, k: int|
        0 <= j < k < out.len() ==> (#[trigger] out[j]).date != (#[trigger] out[k]).date
    &&& forall|d: Date|
        #[trigger] count_for(samples, d) > 0 ==> exists|j: int|
            0 <= j < out.len() && (#[trigger] out[j]).date == d
}

/// Groups clean samples by calendar date and reduces each group to its
/// exact sum and count, whose quotient is the day's mean. The output has
/// one entry per distinct date, in no guaranteed order: callers that need
/// chronological order sort afterwards. An empty input yields an empty
/// output and never fails.
pub fn aggregate_daily(samples: &Vec<CleanSample>) -> (r: Vec<DailyAggregate>)
    ensures
        aggregates_ok(r@, samples@),
        samples@.len() == 0 ==> r@.len() == 0,
        r@.len() <= samples@.len(),
{
    let mut out: Vec<DailyAggregate> = Vec::new();
    let mut i: usize = 0;
    while i < samples.len()
        invariant
            i <= samples@.len(),
            out@.len() <= i,
            aggregates_ok(out@, samples@.take(i as int)),
        decreases samples@.len() - i,
    {
        let ghost prefix = samples@.take(i as int);
        let ghost next = samples@.take(i + 1 as int);
        proof {
            assert(next.drop_last() =~= prefix);
            assert(next.last() == samples@[i as int]);
        }
        let s = samples[i];
        let d = s.timestamp.date();
        let mut j: usize = 0;
        while j < out.len()
            invariant_except_break
                j <= out@.len(),
                forall|k: int| 0 <= k < j ==> (#[trigger] out@[k]).date != d,
            ensures
                j <= out@.len(),
                forall|k: int| 0 <= k < j ==> (#[trigger] out@[k]).date != d,
                j < out@.len() ==> out@[j as int].date == d,
            decreases out@.len() - j,
        {
            if out[j].date == d {
                break ;
            }
            j += 1;
        }
        let ghost pre = out@;
        if j < out.len() {
            let entry = out[j];
            proof {
                lemma_count_bounds(prefix, d);
                assert(entry.sample_count == count_for(prefix, d));
                assert(count_for(prefix, d) <= prefix.len());
                assert((entry.sample_count as int) * 0x8000_0000 <= (samples@.len() as int)
                    * 0x8000_0000) by (nonlinear_arith)
                    requires
                        0 <= entry.sample_count as int <= samples@.len() as int,
                ;
                assert(((entry.sample_count as int) + 1) * 0x8000_0000 == (entry.sample_count as int)
                    * 0x8000_0000 + 0x8000_0000) by (nonlinear_arith);
            }
            let updated = DailyAggregate {
                date: entry.date,
                value_sum: entry.value_sum + s.value as i128,
                sample_count: entry.sample_count + 1,
            };
            out[j] = updated;
            proof {
                assert(out@ == pre.update(j as int, updated));
                assert forall|k: int|
                    0 <= k < out@.len() implies (#[trigger] out@[k]).date == pre[k].date by {
                    if k != j {
                        assert(out@[k] == pre[k]);
                    }
                }
                assert forall|k: int|
                    0 <= k < out@.len() implies (#[trigger] out@[k]).sample_count == count_for(
                    next,
                    out@[k].date,
                ) && out@[k].value_sum == sum_for(next, out@[k].date) && out@[k].wf() by {
                    if k != j {
                        assert(out@[k] == pre[k]);
                        assert(pre[k].date != d);
                    }
                }
                assert forall|a: int, b: int|
                    0 <= a < b < out@.len() implies (#[trigger] out@[a]).date != (
                #[trigger] out@[b]).date by {
                    assert(out@[a].date == pre[a].date);
                    assert(out@[b].date == pre[b].date);
                }
                assert forall|d2: Date| #[trigger]
                    count_for(next, d2) > 0 implies exists|k: int|
                    0 <= k < out@.len() && (#[trigger] out@[k]).date == d2 by {
                    if d2 == d {
                        assert(out@[j as int].date == d2);
                    } else {
                        assert(count_for(prefix, d2) == count_for(next, d2));
                        let w = choose|k: int|
                            0 <= k < pre.len() && (#[trigger] pre[k]).date == d2;
                        assert(w != j);
                        assert(out@[w] == pre[w]);
                        assert(out@[w].date == d2);
                    }
                }
            }
        } else {
            proof {
                if count_for(prefix, d) > 0 {
                    let w = choose|k: int| 0 <= k < pre.len() && (#[trigger] pre[k]).date == d;
                    assert(false);
                }
            }
            let fresh = DailyAggregate {
                date: d,
                value_sum: s.value as i128,
                sample_count: 1,
            };
            out.push(fresh);
            proof {
                assert(out@ == pre.push(fresh));
                lemma_count_bounds(prefix, d);
                assert(count_for(prefix, d) == 0);
                assert forall|k: int|
                    0 <= k < out@.len() implies (#[trigger] out@[k]).sample_count == count_for(
                    next,
                    out@[k].date,
                ) && out@[k].value_sum == sum_for(next, out@[k].date) && out@[k].wf() by {
                    if k < out@.len() - 1 {
                        assert(out@[k] == pre[k]);
                        assert(pre[k].date != d);
                    } else {
                        assert(out@[k] == fresh);
                        assert(count_for(prefix, d) == 0);
                    }
                }
                assert forall|a: int, b: int|
                    0 <= a < b < out@.len() implies (#[trigger] out@[a]).date != (
                #[trigger] out@[b]).date by {
                    assert(out@[a] == pre[a]);
                    if b < out@.len() - 1 {
                        assert(out@[b] == pre[b]);
                    } else {
                        assert(out@[b] == fresh);
                        assert(pre[a].date != d);
                    }
                }
                assert forall|d2: Date| #[trigger]
                    count_for(next, d2) > 0 implies exists|k: int|
                    0 <= k < out@.len() && (#[trigger] out@[k]).date == d2 by {
                    if d2 == d {
                        assert(out@[out@.len() - 1].date == d2);
                    } else {
                        assert(count_for(prefix, d2) == count_for(next, d2));
                        let w = choose|k: int|
                            0 <= k < pre.len() && (#[trigger] pre[k]).date == d2;
                        assert(out@[w] == pre[w]);
                        assert(out@[w].date == d2);
                    }
                }
            }
        }
        i += 1;
    }
    proof {
        assert(samples@.take(samples@.len() as int) =~= samples@);
    }
    out
}

// ---------------------------------------------------------------------------
// Sorting by date
// ---------------------------------------------------------------------------

/// Whether a sequence of daily aggregates is in chronological order.
pub open spec fn sorted_by_date(s: Seq<DailyAggregate>) -> bool {
    forall|i: int, j: int|
        0 <= i < j < s.len() ==> date_le((#[trigger] s[i]).date, (#[trigger] s[j]).date)
}

/// Sorts daily aggregates chronologically. Sorting is a separate, explicit
/// step: the aggregator does not order its output, so a caller that needs
/// chronological order applies this first. The result holds exactly the
/// input entries, reordered; entries with equal dates keep their relative
/// order.
pub fn sort_by_date(data: &mut Vec<DailyAggregate>)
    ensures
        sorted_by_date(final(data)@),
        final(data)@.to_multiset() == old(data)@.to_multiset(),
        final(data)@.len() == old(data)@.len(),
{
    broadcast use vstd::seq_lib::group_to_multiset_ensures;

    let mut out: Vec<DailyAggregate> = Vec::new();
    let mut i: usize = 0;
    while i < data.len()
        invariant
            i <= data@.len(),
            out@.len() == i,
            sorted_by_date(out@),
            out@.to_multiset() == data@.take(i as int).to_multiset(),
        decreases data@.len() - i,
    {
        let x = data[i];
        let mut p: usize = 0;
        while p < out.len()
            invariant_except_break
                p <= out@.len(),
                forall|k: int| 0 <= k < p ==> date_le((#[trigger] out@[k]).date, x.date),
            ensures
                p <= out@.len(),
                forall|k: int| 0 <= k < p ==> date_le((#[trigger] out@[k]).date, x.date),
                p < out@.len() ==> !date_le(out@[p as int].date, x.date),
            decreases out@.len() - p,
        {
            if !date_le_exec(&out[p].date, &x.date) {
                break ;
            }
            p += 1;
        }
        let ghost before = out@;
        out.insert(p, x);
        proof {
            broadcast use vstd::seq_lib::group_to_multiset_ensures;

            before.insert_ensures(p as int, x);
            assert(data@.take(i + 1 as int) =~= data@.take(i as int).push(x));
            assert(data@.take(i as int).push(x).to_multiset() == data@.take(
                i as int,
            ).to_multiset().insert(x));
            assert forall|a: int, b: int|
                0 <= a < b < out@.len() implies date_le(
                (#[trigger] out@[a]).date,
                (#[trigger] out@[b]).date,
            ) by {
                if b < p {
                    assert(out@[a] == before[a] && out@[b] == before[b]);
                } else if a < p && b == p {
                    assert(out@[a] == before[a]);
                } else if a < p && b > p {
                    assert(out@[a] == before[a] && out@[b] == before[b - 1]);
                } else if a == p {
                    assert(out@[b] == before[b - 1]);
                    assert(!date_le(before[p as int].date, x.date));
                } else {
                    assert(out@[a] == before[a - 1] && out@[b] == before[b - 1]);
                }
            }
        }
        i += 1;
    }
    proof {
        assert(data@.take(data@.len() as int) =~= data@);
    }
    *data = out;
}

} // verus!
