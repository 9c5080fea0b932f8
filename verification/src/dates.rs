use vstd::prelude::*;

use crate::errors::Error;

verus! {

/// A proleptic-Gregorian calendar date held as plain year, month and day
/// numbers. Years are limited to 0..=9999 so that every date has a unique
/// fixed-width `YYYY-MM-DD` text form.
#[derive(Clone, Copy, Debug, PartialEq, Eq, Structural, Hash)]
pub struct Date {
    pub year: usize,
    pub month: usize,
    pub day: usize,
}

/// A year is a leap year when it is divisible by 4, except century years,
/// which must be divisible by 400.
pub open spec fn is_leap_year(y: int) -> bool {
    y % 4 == 0 && (y % 100 != 0 || y % 400 == 0)
}

/// Number of days of month `m` in year `y`.
pub open spec fn days_in_month(y: int, m: int) -> int {
    if m == 2 {
        if is_leap_year(y) {
            29
        } else {
            28
        }
    } else if m == 4 || m == 6 || m == 9 || m == 11 {
        30
    } else {
        31
    }
}

impl Date {
    /// The date names an existing calendar day and fits the text form.
    pub open spec fn valid(self) -> bool {
        &&& self.year <= 9999
        &&& 1 <= self.month <= 12
        &&& 1 <= self.day <= days_in_month(self.year as int, self.month as int)
    }

    /// Chronological order: year first, then month, then day.
    pub open spec fn le(self, other: Date) -> bool {
        if self.year != other.year {
            self.year < other.year
        } else if self.month != other.month {
            self.month < other.month
        } else {
            self.day <= other.day
        }
    }

    pub open spec fn lt(self, other: Date) -> bool {
        self.le(other) && self != other
    }
}

/// Whether `y` is a leap year.
pub fn is_leap(y: usize) -> (r: bool)
    ensures
        r == is_leap_year(y as int),
{
    y % 4 == 0 && (y % 100 != 0 || y % 400 == 0)
}

/// Number of days of month `m` in year `y`.
pub fn month_len(y: usize, m: usize) -> (n: usize)
    requires
        1 <= m <= 12,
    ensures
        n as int == days_in_month(y as int, m as int),
        1 <= n <= 31,
{
    if m == 2 {
        if is_leap(y) {
            29
        } else {
            28
        }
    } else if m == 4 || m == 6 || m == 9 || m == 11 {
        30
    } else {
        31
    }
}

/// Chronological comparison, `a <= b`.
pub fn date_le(a: &Date, b: &Date) -> (r: bool)
    ensures
        r == a.le(*b),
{
    if a.year != b.year {
        a.year < b.year
    } else if a.month != b.month {
        a.month < b.month
    } else {
        a.day <= b.day
    }
}

/// The earlier of two dates.
pub fn min_date(a: Date, b: Date) -> (r: Date)
    ensures
        r == if a.le(b) {
            a
        } else {
            b
        },
{
    if date_le(&a, &b) {
        a
    } else {
        b
    }
}

/// The later of two dates.
pub fn max_date(a: Date, b: Date) -> (r: Date)
    ensures
        r == if a.le(b) {
            b
        } else {
            a
        },
{
    if date_le(&a, &b) {
        b
    } else {
        a
    }
}

// ---------------------------------------------------------------------------
// Digit runs
// ---------------------------------------------------------------------------
pub open spec fn is_digit_char(c: char) -> bool {
    48 <= c as int <= 57
}

/// Numeric value of a digit character.
pub open spec fn digit_val(c: char) -> int {
    c as int - 48
}

pub open spec fn all_digits(s: Seq<char>) -> bool {
    forall|i: int| 0 <= i < s.len() ==> is_digit_char(#[trigger] s[i])
}

/// Value of a most-significant-first run of digit characters.
pub open spec fn digits_val(s: Seq<char>) -> int
    decreases s.len(),
{
    if s.len() == 0 {
        0
    } else {
        digits_val(s.drop_last()) * 10 + digit_val(s.last())
    }
}

pub proof fn lemma_digits_val_nonneg(s: Seq<char>)
    requires
        all_digits(s),
    ensures
        digits_val(s) >= 0,
    decreases s.len(),
{
    if s.len() > 0 {
        assert(all_digits(s.drop_last()));
        lemma_digits_val_nonneg(s.drop_last());
    }
}

/// Appending one digit multiplies the value by ten and adds the digit.
pub proof fn lemma_digits_val_push(s: Seq<char>, c: char)
    ensures
        digits_val(s.push(c)) == digits_val(s) * 10 + digit_val(c),
{
    assert(s.push(c).drop_last() =~= s);
    assert(s.push(c).last() == c);
}

/// A longer all-digit run has at least the value of its prefix.
pub proof fn lemma_digits_val_prefix_le(s: Seq<char>, i: int, j: int)
    requires
        0 <= i <= j <= s.len(),
        all_digits(s),
    ensures
        digits_val(s.subrange(0, i)) <= digits_val(s.subrange(0, j)),
    decreases j - i,
{
    if i < j {
        lemma_digits_val_prefix_le(s, i, j - 1);
        let p = s.subrange(0, j - 1);
        assert(s.subrange(0, j).drop_last() =~= p);
        assert(all_digits(p));
        lemma_digits_val_nonneg(p);
        assert(is_digit_char(s[j - 1]));
        assert(digits_val(s.subrange(0, j)) == digits_val(p) * 10 + digit_val(s[j - 1]));
    }
}

// ---------------------------------------------------------------------------
// Whitespace and trimming
// ---------------------------------------------------------------------------
pub open spec fn is_space_char(c: char) -> bool {
    c == ' ' || c == '\t' || c == '\r' || c == '\n'
}

pub open spec fn trim_start_seq(s: Seq<char>) -> Seq<char>
    decreases s.len(),
{
    if s.len() > 0 && is_space_char(s[0]) {
        trim_start_seq(s.drop_first())
    } else {
        s
    }
}

pub open spec fn trim_end_seq(s: Seq<char>) -> Seq<char>
    decreases s.len(),
{
    if s.len() > 0 && is_space_char(s.last()) {
        trim_end_seq(s.drop_last())
    } else {
        s
    }
}

/// The run with leading and trailing whitespace removed.
pub open spec fn trim_seq(s: Seq<char>) -> Seq<char> {
    trim_end_seq(trim_start_seq(s))
}

proof fn lemma_trim_start_at(s: Seq<char>, k: int)
    requires
        0 <= k <= s.len(),
        forall|i: int| 0 <= i < k ==> is_space_char(#[trigger] s[i]),
        k == s.len() || !is_space_char(s[k]),
    ensures
        trim_start_seq(s) =~= s.subrange(k, s.len() as int),
    decreases k,
{
    if k == 0 {
        assert(s.subrange(0, s.len() as int) =~= s);
    } else {
        let t = s.drop_first();
        assert(forall|i: int| 0 <= i < k - 1 ==> is_space_char(#[trigger] t[i]));
        lemma_trim_start_at(t, k - 1);
        assert(t.subrange(k - 1, t.len() as int) =~= s.subrange(k, s.len() as int));
    }
}

proof fn lemma_trim_end_at(s: Seq<char>, k: int)
    requires
        0 <= k <= s.len(),
        forall|i: int| k <= i < s.len() ==> is_space_char(#[trigger] s[i]),
        k == 0 || !is_space_char(s[k - 1]),
    ensures
        trim_end_seq(s) =~= s.subrange(0, k),
    decreases s.len() - k,
{
    if k == s.len() {
        if s.len() > 0 && is_space_char(s.last()) {
            assert(!is_space_char(s[k - 1]));
            assert(false);
        }
        assert(trim_end_seq(s) =~= s.subrange(0, k));
    } else {
        let t = s.drop_last();
        assert(is_space_char(s.last()));
        assert(forall|i: int| k <= i < t.len() ==> is_space_char(#[trigger] t[i]));
        lemma_trim_end_at(t, k);
        assert(t.subrange(0, k) =~= s.subrange(0, k));
    }
}

/// Slice of `s` with surrounding whitespace removed.
pub fn trim_str<'a>(s: &'a str) -> (t: &'a str)
    ensures
        t@ == trim_seq(s@),
{
    let n = s.unicode_len();
    let mut start: usize = 0;
    while start < n && is_space(s.get_char(start))
        invariant
            0 <= start <= n,
            n == s@.len(),
            forall|i: int| 0 <= i < start ==> is_space_char(#[trigger] s@[i]),
        decreases n - start,
    {
        start = start + 1;
    }
    let mut end: usize = n;
    while end > start && is_space(s.get_char(end - 1))
        invariant
            start <= end <= n,
            n == s@.len(),
            forall|i: int| 0 <= i < start ==> is_space_char(#[trigger] s@[i]),
            start == n || !is_space_char(s@[start as int]),
            forall|i: int| end <= i < n ==> is_space_char(#[trigger] s@[i]),
        decreases end,
    {
        end = end - 1;
    }
    proof {
        lemma_trim_start_at(s@, start as int);
        let u = s@.subrange(start as int, n as int);
        assert(forall|i: int| end - start <= i < u.len() ==> is_space_char(#[trigger] u[i]));
        if end > start {
            assert(!is_space_char(u[end - start - 1]));
        }
        lemma_trim_end_at(u, end - start);
        assert(u.subrange(0, end - start) =~= s@.subrange(start as int, end as int));
    }
    s.substring_char(start, end)
}

/// Whether `c` is one of the whitespace characters recognized here.
pub fn is_space(c: char) -> (r: bool)
    ensures
        r == is_space_char(c),
{
    c == ' ' || c == '\t' || c == '\r' || c == '\n'
}

// ---------------------------------------------------------------------------
// Date text: parsing
// ---------------------------------------------------------------------------
/// The ten-character shape `YYYY-MM-DD`.
pub open spec fn date_str_wf(s: Seq<char>) -> bool {
    &&& s.len() == 10
    &&& s[4] == '-'
    &&& s[7] == '-'
    &&& all_digits(s.subrange(0, 4))
    &&& all_digits(s.subrange(5, 7))
    &&& all_digits(s.subrange(8, 10))
}

pub open spec fn date_of_seq(s: Seq<char>) -> Date {
    Date {
        year: digits_val(s.subrange(0, 4)) as usize,
        month: digits_val(s.subrange(5, 7)) as usize,
        day: digits_val(s.subrange(8, 10)) as usize,
    }
}

/// The date a well-shaped, valid `YYYY-MM-DD` run names, if any.
pub open spec fn parse_date_seq(s: Seq<char>) -> Option<Date> {
    if date_str_wf(s) && date_of_seq(s).valid() {
        Some(date_of_seq(s))
    } else {
        None
    }
}

/// Value of the digit run `s[from..to]`, if every character is a digit.
fn digit_run_val(s: &str, from: usize, to: usize) -> (r: Option<usize>)
    requires
        from <= to <= s@.len(),
        to - from <= 4,
    ensures
        match r {
            Some(n) => all_digits(s@.subrange(from as int, to as int)) && n as int == digits_val(
                s@.subrange(from as int, to as int),
            ) && n <= 9999,
            None => !all_digits(s@.subrange(from as int, to as int)),
        },
{
    let mut acc: usize = 0;
    let mut i: usize = from;
    while i < to
        invariant
            from <= i <= to <= s@.len(),
            to - from <= 4,
            all_digits(s@.subrange(from as int, i as int)),
            acc as int == digits_val(s@.subrange(from as int, i as int)),
            acc < pow10(i - from),
        decreases to - i,
    {
        let c = s.get_char(i);
        let u = c as u32;
        if u < 48 || u > 57 {
            proof {
                assert(s@.subrange(from as int, to as int)[i - from] == s@[i as int]);
                assert(!is_digit_char(s@[i as int]));
            }
            return None;
        }
        let d = (u - 48) as usize;
        proof {
            assert(s@.subrange(from as int, (i + 1) as int).drop_last() =~= s@.subrange(
                from as int,
                i as int,
            ));
            assert(s@.subrange(from as int, (i + 1) as int).last() == s@[i as int]);
            reveal_with_fuel(pow10, 6);
            let k = i - from;
            assert(0 <= k <= 3);
            assert(pow10(k) <= 1000);
            assert(pow10(k + 1) == 10 * pow10(k));
        }
        acc = acc * 10 + d;
        i = i + 1;
    }
    proof {
        assert(s@.subrange(from as int, to as int) =~= s@.subrange(from as int, i as int));
        reveal_with_fuel(pow10, 6);
        let k = i - from;
        assert(0 <= k <= 4);
        assert(pow10(k) <= 10000);
    }
    Some(acc)
}

/// Ten to the power `k`, for the small exponents used here.
pub open spec fn pow10(k: int) -> int
    decreases k,
{
    if k <= 0 {
        1
    } else {
        10 * pow10(k - 1)
    }
}

/// The date named by the whole of `s`, which must be `YYYY-MM-DD`.
pub fn date_from_str(s: &str) -> (r: Option<Date>)
    ensures
        r == parse_date_seq(s@),
{
    let n = s.unicode_len();
    if n != 10 {
        return None;
    }
    if s.get_char(4) != '-' || s.get_char(7) != '-' {
        return None;
    }
    let y = match digit_run_val(s, 0, 4) {
        Some(v) => v,
        None => {
            return None;
        },
    };
    let m = match digit_run_val(s, 5, 7) {
        Some(v) => v,
        None => {
            return None;
        },
    };
    let d = match digit_run_val(s, 8, 10) {
        Some(v) => v,
        None => {
            return None;
        },
    };
    let date = Date { year: y, month: m, day: d };
    if m < 1 || m > 12 {
        return None;
    }
    if d < 1 || d > month_len(y, m) {
        return None;
    }
    Some(date)
}

// ---------------------------------------------------------------------------
// Date text: formatting
// ---------------------------------------------------------------------------
/// The digit character for a value 0..=9.
pub open spec fn digit_char(v: int) -> char {
    if v == 0 {
        '0'
    } else if v == 1 {
        '1'
    } else if v == 2 {
        '2'
    } else if v == 3 {
        '3'
    } else if v == 4 {
        '4'
    } else if v == 5 {
        '5'
    } else if v == 6 {
        '6'
    } else if v == 7 {
        '7'
    } else if v == 8 {
        '8'
    } else {
        '9'
    }
}

/// `n` written as exactly `k` decimal digits, zero padded.
pub open spec fn fmt_pad(n: int, k: int) -> Seq<char>
    decreases k,
{
    if k <= 0 {
        Seq::empty()
    } else {
        fmt_pad(n / 10, k - 1).push(digit_char(n % 10))
    }
}

/// `n` written in plain decimal, without padding.
pub open spec fn dec_str(n: int) -> Seq<char>
    decreases n,
{
    if n < 10 {
        seq![digit_char(n)]
    } else {
        dec_str(n / 10).push(digit_char(n % 10))
    }
}

/// The fixed-width `YYYY-MM-DD` form of a date.
pub open spec fn date_str(d: Date) -> Seq<char> {
    fmt_pad(d.year as int, 4) + seq!['-'] + fmt_pad(d.month as int, 2) + seq!['-'] + fmt_pad(
        d.day as int,
        2,
    )
}

pub proof fn lemma_digit_char(v: int)
    requires
        0 <= v <= 9,
    ensures
        is_digit_char(digit_char(v)),
        digit_val(digit_char(v)) == v,
{
}

/// Zero-padded digit runs read back as the number they were written from.
pub proof fn lemma_fmt_pad(n: int, k: int)
    requires
        0 <= n < pow10(k),
        0 <= k,
    ensures
        fmt_pad(n, k).len() == k,
        all_digits(fmt_pad(n, k)),
        digits_val(fmt_pad(n, k)) == n,
    decreases k,
{
    if k > 0 {
        lemma_fmt_pad(n / 10, k - 1);
        lemma_digit_char(n % 10);
        lemma_digits_val_push(fmt_pad(n / 10, k - 1), digit_char(n % 10));
        assert forall|i: int| 0 <= i < fmt_pad(n, k).len() implies is_digit_char(
            #[trigger] fmt_pad(n, k)[i],
        ) by {
            if i < fmt_pad(n / 10, k - 1).len() {
                assert(fmt_pad(n, k)[i] == fmt_pad(n / 10, k - 1)[i]);
            } else {
                assert(fmt_pad(n, k)[i] == digit_char(n % 10));
            }
        }
    } else {
        assert(n == 0);
    }
}

/// Plain decimal runs read back as the number they were written from.
pub proof fn lemma_dec_str(n: int)
    requires
        0 <= n,
    ensures
        dec_str(n).len() >= 1,
        all_digits(dec_str(n)),
        digits_val(dec_str(n)) == n,
    decreases n,
{
    if n < 10 {
        lemma_digit_char(n);
        assert(dec_str(n).drop_last() =~= Seq::<char>::empty());
        assert(digits_val(Seq::<char>::empty()) == 0);
        assert(dec_str(n).last() == digit_char(n));
        assert forall|i: int| 0 <= i < dec_str(n).len() implies is_digit_char(
            #[trigger] dec_str(n)[i],
        ) by {
            assert(dec_str(n)[i] == digit_char(n));
        }
    } else {
        lemma_dec_str(n / 10);
        lemma_digit_char(n % 10);
        lemma_digits_val_push(dec_str(n / 10), digit_char(n % 10));
        assert forall|i: int| 0 <= i < dec_str(n).len() implies is_digit_char(
            #[trigger] dec_str(n)[i],
        ) by {
            if i < dec_str(n / 10).len() {
                assert(dec_str(n)[i] == dec_str(n / 10)[i]);
            } else {
                assert(dec_str(n)[i] == digit_char(n % 10));
            }
        }
    }
}

/// Formatting a valid date and parsing the text gives the date back.
pub proof fn lemma_date_str_roundtrip(d: Date)
    requires
        d.valid(),
    ensures
        date_str(d).len() == 10,
        parse_date_seq(date_str(d)) == Some(d),
{
    let s = date_str(d);
    reveal_with_fuel(pow10, 6);
    lemma_fmt_pad(d.year as int, 4);
    lemma_fmt_pad(d.month as int, 2);
    lemma_fmt_pad(d.day as int, 2);
    assert(s.subrange(0, 4) =~= fmt_pad(d.year as int, 4));
    assert(s.subrange(5, 7) =~= fmt_pad(d.month as int, 2));
    assert(s.subrange(8, 10) =~= fmt_pad(d.day as int, 2));
    assert(s[4] == '-');
    assert(s[7] == '-');
    assert(date_of_seq(s) == d);
}

/// A single-character slice holding the digit `v`.
fn digit_str(v: usize) -> (r: &'static str)
    requires
        v <= 9,
    ensures
        r@ =~= seq![digit_char(v as int)],
{
    proof {
        reveal_strlit("0");
        reveal_strlit("1");
        reveal_strlit("2");
        reveal_strlit("3");
        reveal_strlit("4");
        reveal_strlit("5");
        reveal_strlit("6");
        reveal_strlit("7");
        reveal_strlit("8");
        reveal_strlit("9");
    }
    if v == 0 {
        "0"
    } else if v == 1 {
        "1"
    } else if v == 2 {
        "2"
    } else if v == 3 {
        "3"
    } else if v == 4 {
        "4"
    } else if v == 5 {
        "5"
    } else if v == 6 {
        "6"
    } else if v == 7 {
        "7"
    } else if v == 8 {
        "8"
    } else {
        "9"
    }
}

/// The `YYYY-MM-DD` text of a valid date.
pub fn format_date(d: &Date) -> (r: String)
    requires
        d.valid(),
    ensures
        r@ == date_str(*d),
{
    let y1 = d.year / 10;
    let y2 = y1 / 10;
    let y3 = y2 / 10;
    let m1 = d.month / 10;
    let d1 = d.day / 10;
    let mut s = String::new();
    s.append(digit_str(y3 % 10));
    s.append(digit_str(y2 % 10));
    s.append(digit_str(y1 % 10));
    s.append(digit_str(d.year % 10));
    proof {
        reveal_strlit("-");
    }
    s.append("-");
    s.append(digit_str(m1 % 10));
    s.append(digit_str(d.month % 10));
    s.append("-");
    s.append(digit_str(d1 % 10));
    s.append(digit_str(d.day % 10));
    proof {
        reveal_with_fuel(fmt_pad, 6);
        assert(fmt_pad(d.year as int, 4) =~= seq![
            digit_char(y3 as int % 10),
            digit_char(y2 as int % 10),
            digit_char(y1 as int % 10),
            digit_char(d.year as int % 10),
        ]);
        assert(fmt_pad(d.month as int, 2) =~= seq![
            digit_char(m1 as int % 10),
            digit_char(d.month as int % 10),
        ]);
        assert(fmt_pad(d.day as int, 2) =~= seq![
            digit_char(d1 as int % 10),
            digit_char(d.day as int % 10),
        ]);
        assert(s@ =~= date_str(*d));
    }
    s
}

/// The decimal text of a year number, without padding.
pub fn year_string(y: usize) -> (r: String)
    requires
        y <= 9999,
    ensures
        r@ == dec_str(y as int),
{
    let mut s = String::new();
    let y1 = y / 10;
    let y2 = y1 / 10;
    let y3 = y2 / 10;
    if y >= 1000 {
        s.append(digit_str(y3 % 10));
    }
    if y >= 100 {
        s.append(digit_str(y2 % 10));
    }
    if y >= 10 {
        s.append(digit_str(y1 % 10));
    }
    s.append(digit_str(y % 10));
    proof {
        reveal_with_fuel(dec_str, 6);
        if y >= 1000 {
            assert(dec_str(y as int) =~= seq![
                digit_char(y3 as int % 10),
                digit_char(y2 as int % 10),
                digit_char(y1 as int % 10),
                digit_char(y as int % 10),
            ]);
        } else if y >= 100 {
            assert(dec_str(y as int) =~= seq![
                digit_char(y2 as int % 10),
                digit_char(y1 as int % 10),
                digit_char(y as int % 10),
            ]);
        } else if y >= 10 {
            assert(dec_str(y as int) =~= seq![
                digit_char(y1 as int % 10),
                digit_char(y as int % 10),
            ]);
        } else {
            assert(dec_str(y as int) =~= seq![digit_char(y as int)]);
        }
        assert(s@ =~= dec_str(y as int));
    }
    s
}

/// Reads one input line holding a bare calendar date.
///
/// A blank or whitespace-only line is allowed and skipped; any other line
/// must hold exactly a `YYYY-MM-DD` calendar date, surrounded by optional
/// whitespace.
pub fn parse_date(line: &str) -> (r: Result<Option<Date>, Error>)
    ensures
        match r {
            Ok(opt) => opt == parse_date_seq(trim_seq(line@)) && (opt is None ==> trim_seq(line@).len()
                == 0),
            Err(e) => trim_seq(line@).len() > 0 && parse_date_seq(trim_seq(line@)) is None && (
            e matches Error::MalformedRecord(l) && l@ == line@),
        },
{
    let t = trim_str(line);
    if t.unicode_len() == 0 {
        proof {
            assert(parse_date_seq(trim_seq(line@)) is None);
        }
        Ok(None)
    } else {
        match date_from_str(t) {
            Some(d) => Ok(Some(d)),
            None => Err(Error::MalformedRecord(line.to_owned())),
        }
    }
}

/// Trimming does not change a run without surrounding whitespace.
pub proof fn lemma_trim_id(s: Seq<char>)
    requires
        s.len() > 0,
        !is_space_char(s[0]),
        !is_space_char(s.last()),
    ensures
        trim_seq(s) == s,
{
    lemma_trim_start_at(s, 0);
    assert(trim_start_seq(s) =~= s);
    lemma_trim_end_at(s, s.len() as int);
    assert(trim_end_seq(s) =~= s);
}

/// A date's text has no surrounding whitespace, so it trims to itself.
pub proof fn lemma_date_str_trim(d: Date)
    requires
        d.valid(),
    ensures
        trim_seq(date_str(d)) == date_str(d),
{
    reveal_with_fuel(pow10, 6);
    lemma_fmt_pad(d.year as int, 4);
    lemma_fmt_pad(d.day as int, 2);
    let s = date_str(d);
    assert(s[0] == fmt_pad(d.year as int, 4)[0]);
    assert(is_digit_char(s[0]));
    assert(s.last() == fmt_pad(d.day as int, 2)[1]);
    assert(is_digit_char(s.last()));
    lemma_trim_id(s);
}

// ---------------------------------------------------------------------------
// Lexicographic order on date text
// ---------------------------------------------------------------------------
/// Lexicographic order on character runs, by code point, as strings
/// compare.
pub open spec fn lex_le(a: Seq<char>, b: Seq<char>) -> bool
    decreases a.len(),
{
    if a.len() == 0 {
        true
    } else if b.len() == 0 {
        false
    } else if (a[0] as int) < (b[0] as int) {
        true
    } else if a[0] == b[0] {
        lex_le(a.drop_first(), b.drop_first())
    } else {
        false
    }
}

pub proof fn lemma_lex_le_refl(a: Seq<char>)
    ensures
        lex_le(a, a),
    decreases a.len(),
{
    if a.len() > 0 {
        lemma_lex_le_refl(a.drop_first());
    }
}

/// A digit character is determined by its value.
pub proof fn lemma_digit_char_inverse(c: char)
    requires
        is_digit_char(c),
    ensures
        digit_char(digit_val(c)) == c,
{
    let v = digit_val(c);
    assert(0 <= v <= 9);
    lemma_digit_char(v);
    assert(digit_char(v) as int == c as int);
}

/// A digit run of width `k` is exactly the zero-padded form of its value.
pub proof fn lemma_digits_canonical(s: Seq<char>, k: int)
    requires
        s.len() == k,
        all_digits(s),
    ensures
        digits_val(s) < pow10(k),
        s =~= fmt_pad(digits_val(s), k),
    decreases k,
{
    if k <= 0 {
        assert(s =~= fmt_pad(digits_val(s), k));
    } else {
        let t = s.drop_last();
        assert(all_digits(t));
        lemma_digits_canonical(t, k - 1);
        lemma_digits_val_nonneg(t);
        assert(is_digit_char(s.last()));
        let v = digits_val(s);
        assert(v == digits_val(t) * 10 + digit_val(s.last()));
        assert(v < pow10(k)) by {
            assert(digits_val(t) <= pow10(k - 1) - 1);
            assert(digits_val(t) * 10 <= (pow10(k - 1) - 1) * 10) by (nonlinear_arith)
                requires
                    digits_val(t) <= pow10(k - 1) - 1,
            ;
        }
        assert(v / 10 == digits_val(t) && v % 10 == digit_val(s.last())) by {
            assert(0 <= digit_val(s.last()) <= 9);
            vstd::arithmetic::div_mod::lemma_fundamental_div_mod_converse(
                v,
                10,
                digits_val(t),
                digit_val(s.last()),
            );
        }
        lemma_digit_char_inverse(s.last());
        assert(fmt_pad(v, k) == fmt_pad(v / 10, k - 1).push(digit_char(v % 10)));
        assert(s =~= t.push(s.last()));
        assert(s =~= fmt_pad(v, k));
    }
}

/// Date text is canonical: a run that parses as `d` is `d`'s own text.
pub proof fn lemma_parse_canonical(s: Seq<char>, d: Date)
    requires
        parse_date_seq(s) == Some(d),
    ensures
        s =~= date_str(d),
{
    reveal_with_fuel(pow10, 6);
    lemma_digits_canonical(s.subrange(0, 4), 4);
    lemma_digits_canonical(s.subrange(5, 7), 2);
    lemma_digits_canonical(s.subrange(8, 10), 2);
    lemma_digits_val_nonneg(s.subrange(0, 4));
    lemma_digits_val_nonneg(s.subrange(5, 7));
    lemma_digits_val_nonneg(s.subrange(8, 10));
    assert(s.subrange(0, 4) =~= fmt_pad(d.year as int, 4));
    assert(s.subrange(5, 7) =~= fmt_pad(d.month as int, 2));
    assert(s.subrange(8, 10) =~= fmt_pad(d.day as int, 2));
    assert(s =~= date_str(d));
}

/// Comparing two equal-width digit runs, each followed by a rest,
/// compares the numbers first and the rests on a tie.
proof fn lemma_fmt_pad_lex(x1: int, x2: int, k: int, r1: Seq<char>, r2: Seq<char>)
    requires
        0 <= x1 < pow10(k),
        0 <= x2 < pow10(k),
        0 <= k,
    ensures
        lex_le(fmt_pad(x1, k) + r1, fmt_pad(x2, k) + r2) == (if x1 < x2 {
            true
        } else if x1 > x2 {
            false
        } else {
            lex_le(r1, r2)
        }),
    decreases k,
{
    if k == 0 {
        assert(x1 == 0 && x2 == 0);
        assert(fmt_pad(x1, k) + r1 =~= r1);
        assert(fmt_pad(x2, k) + r2 =~= r2);
    } else {
        let c1 = digit_char(x1 % 10);
        let c2 = digit_char(x2 % 10);
        assert(fmt_pad(x1, k) == fmt_pad(x1 / 10, k - 1).push(c1));
        assert(fmt_pad(x2, k) == fmt_pad(x2 / 10, k - 1).push(c2));
        let s1 = seq![c1] + r1;
        let s2 = seq![c2] + r2;
        assert(fmt_pad(x1, k) + r1 =~= fmt_pad(x1 / 10, k - 1) + s1);
        assert(fmt_pad(x2, k) + r2 =~= fmt_pad(x2 / 10, k - 1) + s2);
        assert(0 <= x1 / 10 < pow10(k - 1) && 0 <= x2 / 10 < pow10(k - 1)) by {
            assert(pow10(k) == 10 * pow10(k - 1));
            vstd::arithmetic::div_mod::lemma_multiply_divide_lt(x1, 10, pow10(k - 1));
            vstd::arithmetic::div_mod::lemma_multiply_divide_lt(x2, 10, pow10(k - 1));
        }
        lemma_fmt_pad_lex(x1 / 10, x2 / 10, k - 1, s1, s2);
        lemma_digit_char(x1 % 10);
        lemma_digit_char(x2 % 10);
        assert(s1.drop_first() =~= r1);
        assert(s2.drop_first() =~= r2);
        assert(lex_le(s1, s2) == (if x1 % 10 < x2 % 10 {
            true
        } else if x1 % 10 > x2 % 10 {
            false
        } else {
            lex_le(r1, r2)
        })) by {
            if x1 % 10 == x2 % 10 {
                assert(c1 == c2);
            }
        }
        assert((x1 < x2) == (x1 / 10 < x2 / 10 || (x1 / 10 == x2 / 10 && x1 % 10 < x2 % 10)));
    }
}

/// Chronological order of valid dates is exactly lexicographic order of
/// their `YYYY-MM-DD` text.
pub proof fn lemma_date_str_order(d1: Date, d2: Date)
    requires
        d1.valid(),
        d2.valid(),
    ensures
        lex_le(date_str(d1), date_str(d2)) <==> d1.le(d2),
{
    reveal_with_fuel(pow10, 6);
    let ry1 = seq!['-'] + fmt_pad(d1.month as int, 2) + seq!['-'] + fmt_pad(d1.day as int, 2);
    let ry2 = seq!['-'] + fmt_pad(d2.month as int, 2) + seq!['-'] + fmt_pad(d2.day as int, 2);
    assert(date_str(d1) =~= fmt_pad(d1.year as int, 4) + ry1);
    assert(date_str(d2) =~= fmt_pad(d2.year as int, 4) + ry2);
    lemma_fmt_pad_lex(d1.year as int, d2.year as int, 4, ry1, ry2);
    if d1.year == d2.year {
        let rm1 = seq!['-'] + fmt_pad(d1.day as int, 2);
        let rm2 = seq!['-'] + fmt_pad(d2.day as int, 2);
        assert(ry1.drop_first() =~= fmt_pad(d1.month as int, 2) + rm1);
        assert(ry2.drop_first() =~= fmt_pad(d2.month as int, 2) + rm2);
        assert(lex_le(ry1, ry2) == lex_le(ry1.drop_first(), ry2.drop_first()));
        lemma_fmt_pad_lex(d1.month as int, d2.month as int, 2, rm1, rm2);
        if d1.month == d2.month {
            let e1 = fmt_pad(d1.day as int, 2) + Seq::<char>::empty();
            let e2 = fmt_pad(d2.day as int, 2) + Seq::<char>::empty();
            assert(rm1.drop_first() =~= e1);
            assert(rm2.drop_first() =~= e2);
            assert(lex_le(rm1, rm2) == lex_le(rm1.drop_first(), rm2.drop_first()));
            lemma_fmt_pad_lex(d1.day as int, d2.day as int, 2, Seq::empty(), Seq::empty());
            assert(lex_le(Seq::<char>::empty(), Seq::<char>::empty()));
        }
    }
}

/// The calendar day after `d`, within the same year.
pub fn next_day_in_year(d: &Date) -> (r: Date)
    requires
        d.valid(),
        !(d.month == 12 && d.day == 31),
    ensures
        r.valid(),
        r.year == d.year,
        d.lt(r),
        // no day lies strictly between d and r
        forall|x: Date| x.valid() && d.lt(x) ==> r.le(x),
{
    let dim = month_len(d.year, d.month);
    if d.day < dim {
        Date { year: d.year, month: d.month, day: d.day + 1 }
    } else {
        Date { year: d.year, month: d.month + 1, day: 1 }
    }
}

} // verus!
