use vstd::prelude::*;

use crate::dates::{
    all_digits, date_str, dec_str, digits_val, is_space_char, next_day_in_year, parse_date_seq,
    trim_seq, Date,
};
use crate::errors::Error;
use crate::quartiles::{cuts_spec, lemma_max_of_ge, lemma_max_of_witness, max_of};
use crate::types::{Contribution, Contributions, Day, Range, Timeline, Year};

verus! {

// ---------------------------------------------------------------------------
// Splitting input into lines and fields
// ---------------------------------------------------------------------------
/// Index of the first newline in `s`, or `s.len()` if there is none.
pub open spec fn first_nl(s: Seq<char>) -> int
    decreases s.len(),
{
    if s.len() == 0 {
        0
    } else if s[0] == '\n' {
        0
    } else {
        1 + first_nl(s.drop_first())
    }
}

pub proof fn lemma_first_nl_bounds(s: Seq<char>)
    ensures
        0 <= first_nl(s) <= s.len(),
    decreases s.len(),
{
    if s.len() > 0 && s[0] != '\n' {
        lemma_first_nl_bounds(s.drop_first());
    }
}

pub proof fn lemma_first_nl_at(s: Seq<char>, k: int)
    requires
        0 <= k <= s.len(),
        forall|i: int| 0 <= i < k ==> s[i] != '\n',
        k == s.len() || s[k] == '\n',
    ensures
        first_nl(s) == k,
    decreases k,
{
    if k > 0 {
        let t = s.drop_first();
        assert(forall|i: int| 0 <= i < k - 1 ==> t[i] != '\n');
        lemma_first_nl_at(t, k - 1);
    }
}

/// The lines of `s`: the runs between newline characters. A trailing
/// newline closes the last line instead of opening an empty one.
pub open spec fn lines_of(s: Seq<char>) -> Seq<Seq<char>>
    decreases s.len(),
    via lines_of_dec
{
    if s.len() == 0 {
        Seq::empty()
    } else {
        let i = first_nl(s);
        if i >= s.len() {
            seq![s]
        } else {
            seq![s.subrange(0, i)] + lines_of(s.subrange(i + 1, s.len() as int))
        }
    }
}

#[via_fn]
proof fn lines_of_dec(s: Seq<char>) {
    lemma_first_nl_bounds(s);
}

/// Index of the first whitespace character in `s`, or `s.len()`.
pub open spec fn first_space(s: Seq<char>) -> int
    decreases s.len(),
{
    if s.len() == 0 {
        0
    } else if is_space_char(s[0]) {
        0
    } else {
        1 + first_space(s.drop_first())
    }
}

pub proof fn lemma_first_space_bounds(s: Seq<char>)
    ensures
        0 <= first_space(s) <= s.len(),
    decreases s.len(),
{
    if s.len() > 0 && !is_space_char(s[0]) {
        lemma_first_space_bounds(s.drop_first());
    }
}

pub proof fn lemma_first_space_at(s: Seq<char>, k: int)
    requires
        0 <= k <= s.len(),
        forall|i: int| 0 <= i < k ==> !is_space_char(#[trigger] s[i]),
        k == s.len() || is_space_char(s[k]),
    ensures
        first_space(s) == k,
    decreases k,
{
    if k > 0 {
        let t = s.drop_first();
        assert(forall|i: int| 0 <= i < k - 1 ==> !is_space_char(#[trigger] t[i]));
        lemma_first_space_at(t, k - 1);
    }
}

/// The whitespace-separated fields of `s`, in order, without the
/// whitespace around them.
pub open spec fn fields_of(s: Seq<char>) -> Seq<Seq<char>>
    decreases s.len(),
    via fields_of_dec
{
    if s.len() == 0 {
        Seq::empty()
    } else if is_space_char(s[0]) {
        fields_of(s.drop_first())
    } else {
        let i = first_space(s);
        if i >= s.len() {
            seq![s]
        } else {
            seq![s.subrange(0, i)] + fields_of(s.subrange(i, s.len() as int))
        }
    }
}

#[via_fn]
proof fn fields_of_dec(s: Seq<char>) {
    lemma_first_space_bounds(s);
    if s.len() > 0 && !is_space_char(s[0]) {
        assert(first_space(s) == 1 + first_space(s.drop_first()));
        lemma_first_space_bounds(s.drop_first());
    }
}

/// The views of a run of string slices.
pub open spec fn str_views(rs: Seq<&str>) -> Seq<Seq<char>> {
    rs.map_values(|x: &str| x@)
}

/// Splits the input into its lines.
pub fn line_slices<'a>(s: &'a str) -> (r: Vec<&'a str>)
    ensures
        str_views(r@) == lines_of(s@),
{
    let n = s.unicode_len();
    let mut r: Vec<&'a str> = Vec::new();
    proof {
        assert(s@.subrange(0, n as int) =~= s@);
        assert(str_views(r@) + lines_of(s@) =~= lines_of(s@));
    }
    let mut start: usize = 0;
    let mut i: usize = 0;
    while i < n
        invariant
            0 <= start <= i <= n,
            n == s@.len(),
            forall|j: int| start <= j < i ==> s@[j] != '\n',
            lines_of(s@) == str_views(r@) + lines_of(s@.subrange(start as int, n as int)),
        decreases n - i,
    {
        let c = s.get_char(i);
        if c == '\n' {
            let line = s.substring_char(start, i);
            proof {
                let rest = s@.subrange(start as int, n as int);
                assert(forall|j: int| 0 <= j < i - start ==> rest[j] != '\n');
                assert(rest[i - start] == '\n');
                lemma_first_nl_at(rest, i - start);
                assert(rest.subrange(0, i - start) =~= s@.subrange(start as int, i as int));
                assert(rest.subrange(i - start + 1, rest.len() as int) =~= s@.subrange(
                    i + 1,
                    n as int,
                ));
                assert(str_views(r@.push(line)) =~= str_views(r@) + seq![line@]);
                assert(str_views(r@.push(line)) + lines_of(s@.subrange(i + 1, n as int))
                    =~= lines_of(s@));
            }
            r.push(line);
            start = i + 1;
        }
        i = i + 1;
    }
    if start < n {
        let line = s.substring_char(start, n);
        proof {
            let rest = s@.subrange(start as int, n as int);
            assert(forall|j: int| 0 <= j < rest.len() ==> rest[j] != '\n');
            lemma_first_nl_at(rest, rest.len() as int);
            assert(lines_of(rest) == seq![rest]);
            assert(str_views(r@.push(line)) =~= str_views(r@) + seq![line@]);
            assert(str_views(r@.push(line)) =~= lines_of(s@));
        }
        r.push(line);
    } else {
        proof {
            assert(s@.subrange(start as int, n as int).len() == 0);
            assert(str_views(r@) + lines_of(s@.subrange(start as int, n as int)) =~= str_views(
                r@,
            ));
        }
    }
    r
}

/// Splits one line into its whitespace-separated fields.
pub fn field_slices<'a>(s: &'a str) -> (r: Vec<&'a str>)
    ensures
        str_views(r@) == fields_of(s@),
{
    let n = s.unicode_len();
    let mut r: Vec<&'a str> = Vec::new();
    proof {
        assert(s@.subrange(0, n as int) =~= s@);
        assert(str_views(r@) + fields_of(s@) =~= fields_of(s@));
    }
    let mut pos: usize = 0;
    while pos < n
        invariant
            0 <= pos <= n,
            n == s@.len(),
            fields_of(s@) == str_views(r@) + fields_of(s@.subrange(pos as int, n as int)),
        decreases n - pos,
    {
        let c = s.get_char(pos);
        if is_space_exec(c) {
            proof {
                let rest = s@.subrange(pos as int, n as int);
                assert(rest.drop_first() =~= s@.subrange(pos + 1, n as int));
            }
            pos = pos + 1;
        } else {
            let mut j = pos + 1;
            while j < n && !is_space_exec(s.get_char(j))
                invariant
                    pos < j <= n,
                    n == s@.len(),
                    forall|k: int| pos <= k < j ==> !is_space_char(#[trigger] s@[k]),
                    !is_space_char(s@[pos as int]),
                decreases n - j,
            {
                j = j + 1;
            }
            let tok = s.substring_char(pos, j);
            proof {
                let rest = s@.subrange(pos as int, n as int);
                assert(forall|k: int| 0 <= k < j - pos ==> !is_space_char(#[trigger] rest[k]));
                if j < n {
                    assert(is_space_char(rest[j - pos]));
                }
                lemma_first_space_at(rest, j - pos);
                assert(rest.subrange(0, j - pos) =~= s@.subrange(pos as int, j as int));
                if j < n {
                    assert(rest.subrange(j - pos, rest.len() as int) =~= s@.subrange(
                        j as int,
                        n as int,
                    ));
                    assert(fields_of(rest) == seq![tok@] + fields_of(s@.subrange(j as int, n as int)));
                } else {
                    assert(fields_of(rest) == seq![tok@]);
                    assert(fields_of(s@.subrange(j as int, n as int)) =~= Seq::<Seq<char>>::empty());
                }
                assert(str_views(r@.push(tok)) =~= str_views(r@) + seq![tok@]);
                assert(str_views(r@.push(tok)) + fields_of(s@.subrange(j as int, n as int))
                    =~= fields_of(s@));
            }
            r.push(tok);
            pos = j;
        }
    }
    proof {
        assert(fields_of(s@.subrange(pos as int, n as int)) =~= Seq::<Seq<char>>::empty());
        assert(str_views(r@) + fields_of(s@.subrange(pos as int, n as int)) =~= str_views(r@));
    }
    r
}

/// Whether `c` is one of the whitespace characters recognized here.
fn is_space_exec(c: char) -> (r: bool)
    ensures
        r == is_space_char(c),
{
    c == ' ' || c == '\t' || c == '\r' || c == '\n'
}

// ---------------------------------------------------------------------------
// The accumulator state and its mathematical model
// ---------------------------------------------------------------------------
/// What is known of one year: its running total and observed date range.
pub ghost struct YearInfo {
    pub total: int,
    pub start: Date,
    pub end: Date,
}

/// One year's accumulator entry.
#[derive(Clone, Copy)]
struct YearEntry {
    year: usize,
    total: usize,
    start: Date,
    end: Date,
}

/// The internal state of the parser: per-year and per-day accumulators and
/// the optional date bounds.
pub struct ParseState {
    years: Vec<YearEntry>,
    days: Vec<Day>,
    before: Option<Date>,
    after: Option<Date>,
}

/// One update of the per-year map: look up or create the year of `d`, add
/// `n` to its total, and widen its range to include `d`.
pub open spec fn upd_years(m: Map<int, YearInfo>, d: Date, n: int) -> Map<int, YearInfo> {
    let y = d.year as int;
    if m.dom().contains(y) {
        let e = m[y];
        m.insert(
            y,
            YearInfo {
                total: e.total + n,
                start: if e.start.le(d) {
                    e.start
                } else {
                    d
                },
                end: if e.end.le(d) {
                    d
                } else {
                    e.end
                },
            },
        )
    } else {
        m.insert(y, YearInfo { total: n, start: d, end: d })
    }
}

/// One update of the per-day map: add `n` to the bucket for `d`, creating
/// it at zero first.
pub open spec fn upd_days(m: Map<Date, int>, d: Date, n: int) -> Map<Date, int> {
    if m.dom().contains(d) {
        m.insert(d, m[d] + n)
    } else {
        m.insert(d, n)
    }
}

/// Whether adding `n` to the year total of `d` would leave the machine
/// integer.
pub open spec fn year_total_overflows(m: Map<int, YearInfo>, d: Date, n: int) -> bool {
    m.dom().contains(d.year as int) && m[d.year as int].total + n > usize::MAX
}

/// Whether adding `n` to the day bucket of `d` would leave the machine
/// integer.
pub open spec fn day_count_overflows(m: Map<Date, int>, d: Date, n: int) -> bool {
    m.dom().contains(d) && m[d] + n > usize::MAX
}

spec fn info_of(e: YearEntry) -> YearInfo {
    YearInfo { total: e.total as int, start: e.start, end: e.end }
}

spec fn years_map_of(s: Seq<YearEntry>) -> Map<int, YearInfo>
    decreases s.len(),
{
    if s.len() == 0 {
        Map::empty()
    } else {
        years_map_of(s.drop_last()).insert(s.last().year as int, info_of(s.last()))
    }
}

spec fn days_map_of(s: Seq<Day>) -> Map<Date, int>
    decreases s.len(),
{
    if s.len() == 0 {
        Map::empty()
    } else {
        days_map_of(s.drop_last()).insert(s.last().date, s.last().commits as int)
    }
}

spec fn has_year(s: Seq<YearEntry>, y: int) -> bool {
    exists|i: int| 0 <= i < s.len() && (#[trigger] s[i]).year as int == y
}

spec fn has_date(s: Seq<Day>, d: Date) -> bool {
    exists|i: int| 0 <= i < s.len() && (#[trigger] s[i]).date == d
}

spec fn years_distinct(s: Seq<YearEntry>) -> bool {
    forall|i: int, j: int| 0 <= i < j < s.len() ==> (#[trigger] s[i]).year != (#[trigger] s[j]).year
}

spec fn days_distinct(s: Seq<Day>) -> bool {
    forall|i: int, j: int| 0 <= i < j < s.len() ==> (#[trigger] s[i]).date != (#[trigger] s[j]).date
}

spec fn year_entry_ok(e: YearEntry) -> bool {
    &&& e.start.valid()
    &&& e.end.valid()
    &&& e.start.year == e.year
    &&& e.end.year == e.year
    &&& e.start.le(e.end)
    &&& e.year <= 9999
}

proof fn lemma_years_map_dom(s: Seq<YearEntry>)
    ensures
        forall|y: int| #[trigger] years_map_of(s).dom().contains(y) <==> has_year(s, y),
    decreases s.len(),
{
    if s.len() > 0 {
        let t = s.drop_last();
        lemma_years_map_dom(t);
        assert forall|y: int| #[trigger] years_map_of(s).dom().contains(y) implies has_year(s, y) by {
            if y == s.last().year as int {
                assert((s[s.len() - 1]).year as int == y);
            } else {
                assert(years_map_of(t).dom().contains(y));
                assert(has_year(t, y));
                let i = choose|i: int| 0 <= i < t.len() && (#[trigger] t[i]).year as int == y;
                assert((s[i]).year as int == y);
            }
        }
        assert forall|y: int| has_year(s, y) implies years_map_of(s).dom().contains(y) by {
            let i = choose|i: int| 0 <= i < s.len() && (#[trigger] s[i]).year as int == y;
            if i < s.len() - 1 {
                assert((t[i]).year as int == y);
            }
        }
    }
}

proof fn lemma_years_map_at(s: Seq<YearEntry>, i: int)
    requires
        years_distinct(s),
        0 <= i < s.len(),
    ensures
        years_map_of(s).dom().contains(s[i].year as int),
        years_map_of(s)[s[i].year as int] == info_of(s[i]),
    decreases s.len(),
{
    if i == s.len() - 1 {
    } else {
        let t = s.drop_last();
        assert(years_distinct(t));
        lemma_years_map_at(t, i);
        assert(s[i].year != s.last().year);
    }
}

proof fn lemma_years_map_update(s: Seq<YearEntry>, i: int, e: YearEntry)
    requires
        years_distinct(s),
        0 <= i < s.len(),
        e.year == s[i].year,
    ensures
        years_map_of(s.update(i, e)) == years_map_of(s).insert(e.year as int, info_of(e)),
    decreases s.len(),
{
    let u = s.update(i, e);
    if i == s.len() - 1 {
        assert(u.drop_last() =~= s.drop_last());
        assert(u.last() == e);
        assert(years_map_of(u) =~= years_map_of(s).insert(e.year as int, info_of(e)));
    } else {
        let t = s.drop_last();
        assert(years_distinct(t));
        lemma_years_map_update(t, i, e);
        assert(u.drop_last() =~= t.update(i, e));
        assert(u.last() == s.last());
        assert(s[i].year != s.last().year);
        assert(years_map_of(u) == years_map_of(t.update(i, e)).insert(
            s.last().year as int,
            info_of(s.last()),
        ));
        assert(years_map_of(u) =~= years_map_of(s).insert(e.year as int, info_of(e)));
    }
}

proof fn lemma_days_map_dom(s: Seq<Day>)
    ensures
        forall|d: Date| #[trigger] days_map_of(s).dom().contains(d) <==> has_date(s, d),
    decreases s.len(),
{
    if s.len() > 0 {
        let t = s.drop_last();
        lemma_days_map_dom(t);
        assert forall|d: Date| #[trigger] days_map_of(s).dom().contains(d) implies has_date(s, d) by {
            if d == s.last().date {
                assert((s[s.len() - 1]).date == d);
            } else {
                assert(days_map_of(t).dom().contains(d));
                assert(has_date(t, d));
                let i = choose|i: int| 0 <= i < t.len() && (#[trigger] t[i]).date == d;
                assert((s[i]).date == d);
            }
        }
        assert forall|d: Date| has_date(s, d) implies days_map_of(s).dom().contains(d) by {
            let i = choose|i: int| 0 <= i < s.len() && (#[trigger] s[i]).date == d;
            if i < s.len() - 1 {
                assert((t[i]).date == d);
            }
        }
    }
}

proof fn lemma_days_map_at(s: Seq<Day>, i: int)
    requires
        days_distinct(s),
        0 <= i < s.len(),
    ensures
        days_map_of(s).dom().contains(s[i].date),
        days_map_of(s)[s[i].date] == s[i].commits as int,
    decreases s.len(),
{
    if i == s.len() - 1 {
    } else {
        let t = s.drop_last();
        assert(days_distinct(t));
        lemma_days_map_at(t, i);
        assert(s[i].date != s.last().date);
    }
}

proof fn lemma_days_map_update(s: Seq<Day>, i: int, e: Day)
    requires
        days_distinct(s),
        0 <= i < s.len(),
        e.date == s[i].date,
    ensures
        days_map_of(s.update(i, e)) == days_map_of(s).insert(e.date, e.commits as int),
    decreases s.len(),
{
    let u = s.update(i, e);
    if i == s.len() - 1 {
        assert(u.drop_last() =~= s.drop_last());
        assert(u.last() == e);
        assert(days_map_of(u) =~= days_map_of(s).insert(e.date, e.commits as int));
    } else {
        let t = s.drop_last();
        assert(days_distinct(t));
        lemma_days_map_update(t, i, e);
        assert(u.drop_last() =~= t.update(i, e));
        assert(u.last() == s.last());
        assert(s[i].date != s.last().date);
        assert(days_map_of(u) == days_map_of(t.update(i, e)).insert(
            s.last().date,
            s.last().commits as int,
        ));
        assert(days_map_of(u) =~= days_map_of(s).insert(e.date, e.commits as int));
    }
}

impl ParseState {
    /// The per-year accumulator as a map from year number to its info.
    pub closed spec fn years_model(self) -> Map<int, YearInfo> {
        years_map_of(self.years@)
    }

    /// The per-day accumulator as a map from date to its count.
    pub closed spec fn days_model(self) -> Map<Date, int> {
        days_map_of(self.days@)
    }

    pub closed spec fn before_spec(self) -> Option<Date> {
        self.before
    }

    pub closed spec fn after_spec(self) -> Option<Date> {
        self.after
    }

    /// The sum of the day counts accumulated for year `y`.
    pub closed spec fn year_sum(self, y: int) -> int {
        days_year_sum(self.days@, y)
    }

    /// Each accumulated year total equals the sum of that year's day
    /// counts, and unobserved years have no day counts. This holds
    /// whenever the two accumulators have been fed the same records.
    pub closed spec fn balanced(self) -> bool {
        forall|y: int|
            (if self.years_model().dom().contains(y) {
                self.years_model()[y].total
            } else {
                0
            }) == #[trigger] self.year_sum(y)
    }

    /// Internal consistency: entries are distinct and hold valid dates.
    pub closed spec fn wf(self) -> bool {
        &&& years_distinct(self.years@)
        &&& forall|i: int|
            0 <= i < self.years@.len() ==> year_entry_ok(#[trigger] self.years@[i])
        &&& days_distinct(self.days@)
        &&& forall|i: int| 0 <= i < self.days@.len() ==> (#[trigger] self.days@[i]).date.valid()
        &&& (self.before matches Some(d) ==> d.valid())
        &&& (self.after matches Some(d) ==> d.valid())
    }

    /// Everything a year map produced by this state satisfies.
    pub proof fn lemma_models_ok(self)
        requires
            self.wf(),
        ensures
            forall|y: int| #[trigger] self.years_model().dom().contains(y) ==> year_info_ok(
                y,
                self.years_model()[y],
            ),
            forall|d: Date| #[trigger] self.days_model().dom().contains(d) ==> d.valid() && 0
                <= self.days_model()[d] <= usize::MAX,
    {
        lemma_years_map_dom(self.years@);
        lemma_days_map_dom(self.days@);
        assert forall|y: int| #[trigger] self.years_model().dom().contains(y) implies year_info_ok(
            y,
            self.years_model()[y],
        ) by {
            let i = choose|i: int|
                0 <= i < self.years@.len() && (#[trigger] self.years@[i]).year as int == y;
            lemma_years_map_at(self.years@, i);
        }
        assert forall|d: Date| #[trigger] self.days_model().dom().contains(d) implies d.valid() && 0
            <= self.days_model()[d] <= usize::MAX by {
            let i = choose|i: int|
                0 <= i < self.days@.len() && (#[trigger] self.days@[i]).date == d;
            lemma_days_map_at(self.days@, i);
        }
    }

    /// A fresh state with empty accumulators and no bounds.
    pub fn new() -> (s: ParseState)
        ensures
            s.wf(),
            s.balanced(),
            s.years_model() == Map::<int, YearInfo>::empty(),
            s.days_model() == Map::<Date, int>::empty(),
            s.before_spec() is None,
            s.after_spec() is None,
    {
        let s = ParseState { years: Vec::new(), days: Vec::new(), before: None, after: None };
        proof {
            assert forall|y: int| (if s.years_model().dom().contains(y) {
                s.years_model()[y].total
            } else {
                0
            }) == #[trigger] s.year_sum(y) by {
                assert(s.year_sum(y) == 0);
                assert(!s.years_model().dom().contains(y));
            }
        }
        s
    }

    fn find_year(&self, y: usize) -> (r: Option<usize>)
        ensures
            match r {
                Some(i) => i < self.years@.len() && self.years@[i as int].year == y,
                None => !has_year(self.years@, y as int),
            },
    {
        let mut i: usize = 0;
        while i < self.years.len()
            invariant
                0 <= i <= self.years@.len(),
                forall|j: int| 0 <= j < i ==> (#[trigger] self.years@[j]).year != y,
            decreases self.years@.len() - i,
        {
            if self.years[i].year == y {
                return Some(i);
            }
            i = i + 1;
        }
        None
    }

    fn find_day(&self, d: &Date) -> (r: Option<usize>)
        ensures
            match r {
                Some(i) => i < self.days@.len() && self.days@[i as int].date == *d,
                None => !has_date(self.days@, *d),
            },
    {
        let mut i: usize = 0;
        while i < self.days.len()
            invariant
                0 <= i <= self.days@.len(),
                forall|j: int| 0 <= j < i ==> (#[trigger] self.days@[j]).date != *d,
            decreases self.days@.len() - i,
        {
            if self.days[i].date.year == d.year && self.days[i].date.month == d.month
                && self.days[i].date.day == d.day {
                return Some(i);
            }
            i = i + 1;
        }
        None
    }

    /// Whether adding `n` to the year total of `date` would overflow.
    pub(crate) fn year_would_overflow(&self, date: Date, n: usize) -> (r: bool)
        requires
            self.wf(),
        ensures
            r == year_total_overflows(self.years_model(), date, n as int),
    {
        match self.find_year(date.year) {
            Some(i) => {
                proof {
                    lemma_years_map_at(self.years@, i as int);
                }
                let e = self.years[i];
                n > usize::MAX - e.total
            },
            None => {
                proof {
                    lemma_years_map_dom(self.years@);
                }
                false
            },
        }
    }

    /// Whether adding `n` to the day bucket of `date` would overflow.
    pub(crate) fn day_would_overflow(&self, date: &Date, n: usize) -> (r: bool)
        requires
            self.wf(),
        ensures
            r == day_count_overflows(self.days_model(), *date, n as int),
    {
        match self.find_day(date) {
            Some(i) => {
                proof {
                    lemma_days_map_at(self.days@, i as int);
                }
                let e = self.days[i];
                n > usize::MAX - e.commits
            },
            None => {
                proof {
                    lemma_days_map_dom(self.days@);
                }
                false
            },
        }
    }

    /// Add a single day's amount to the map of years: the year of `date` is
    /// created on first sight with a total of zero and a range of just
    /// `date`; the amount is added to its total and the range widened to
    /// include `date`.
    pub fn update_years(&mut self, date: Date, contributions_to_add: usize) -> (r: Result<
        (),
        Error,
    >)
        requires
            old(self).wf(),
            date.valid(),
        ensures
            final(self).wf(),
            final(self).days_model() == old(self).days_model(),
            final(self).before_spec() == old(self).before_spec(),
            final(self).after_spec() == old(self).after_spec(),
            forall|y: int| #[trigger] final(self).year_sum(y) == old(self).year_sum(y),
            r is Ok <==> !year_total_overflows(
                old(self).years_model(),
                date,
                contributions_to_add as int,
            ),
            match r {
                Ok(()) => final(self).years_model() == upd_years(
                    old(self).years_model(),
                    date,
                    contributions_to_add as int,
                ),
                Err(e) => e == Error::Overflow && *final(self) == *old(self),
            },
    {
        let n = contributions_to_add;
        match self.find_year(date.year) {
            Some(i) => {
                let e = self.years[i];
                proof {
                    lemma_years_map_at(self.years@, i as int);
                }
                if n > usize::MAX - e.total {
                    return Err(Error::Overflow);
                }
                let ne = YearEntry {
                    year: e.year,
                    total: e.total + n,
                    start: crate::dates::min_date(e.start, date),
                    end: crate::dates::max_date(e.end, date),
                };
                proof {
                    lemma_years_map_update(self.years@, i as int, ne);
                }
                self.years.set(i, ne);
                proof {
                    assert(final(self).years_model() =~= upd_years(
                        old(self).years_model(),
                        date,
                        n as int,
                    ));
                }
                Ok(())
            },
            None => {
                proof {
                    lemma_years_map_dom(self.years@);
                }
                let ne = YearEntry { year: date.year, total: n, start: date, end: date };
                proof {
                    assert(self.years@.push(ne).drop_last() =~= self.years@);
                    assert forall|i: int, j: int|
                        0 <= i < j < self.years@.push(ne).len() implies (#[trigger] self.years@.push(
                        ne,
                    )[i]).year != (#[trigger] self.years@.push(ne)[j]).year by {
                        if j == self.years@.len() {
                            assert(has_year(self.years@, self.years@[i].year as int));
                        }
                    }
                }
                self.years.push(ne);
                proof {
                    assert(final(self).years_model() =~= upd_years(
                        old(self).years_model(),
                        date,
                        n as int,
                    ));
                }
                Ok(())
            },
        }
    }

    /// Add a single day's amount to the map of days: the bucket for `date`
    /// is created at zero first, then the amount is added.
    pub fn update_days(&mut self, date: Date, contributions_to_add: usize) -> (r: Result<
        (),
        Error,
    >)
        requires
            old(self).wf(),
            date.valid(),
        ensures
            final(self).wf(),
            final(self).years_model() == old(self).years_model(),
            final(self).before_spec() == old(self).before_spec(),
            final(self).after_spec() == old(self).after_spec(),
            r is Ok ==> forall|y: int| #[trigger] final(self).year_sum(y) == old(self).year_sum(y)
                + (if date.year as int == y {
                contributions_to_add as int
            } else {
                0
            }),
            r is Err ==> forall|y: int| #[trigger] final(self).year_sum(y) == old(self).year_sum(
                y,
            ),
            r is Ok <==> !day_count_overflows(
                old(self).days_model(),
                date,
                contributions_to_add as int,
            ),
            match r {
                Ok(()) => final(self).days_model() == upd_days(
                    old(self).days_model(),
                    date,
                    contributions_to_add as int,
                ),
                Err(e) => e == Error::Overflow && *final(self) == *old(self),
            },
    {
        let n = contributions_to_add;
        match self.find_day(&date) {
            Some(i) => {
                let e = self.days[i];
                proof {
                    lemma_days_map_at(self.days@, i as int);
                }
                if n > usize::MAX - e.commits {
                    return Err(Error::Overflow);
                }
                let ne = Day { commits: e.commits + n, date: e.date };
                proof {
                    lemma_days_map_update(self.days@, i as int, ne);
                }
                self.days.set(i, ne);
                proof {
                    assert(final(self).days_model() =~= upd_days(
                        old(self).days_model(),
                        date,
                        n as int,
                    ));
                    assert forall|y: int| #[trigger] self.year_sum(y) == old(self).year_sum(y) + (
                    if date.year as int == y {
                        n as int
                    } else {
                        0
                    }) by {
                        lemma_days_year_sum_update(old(self).days@, i as int, ne, y);
                    }
                }
                Ok(())
            },
            None => {
                proof {
                    lemma_days_map_dom(self.days@);
                }
                let ne = Day { commits: n, date };
                proof {
                    assert(self.days@.push(ne).drop_last() =~= self.days@);
                    assert forall|i: int, j: int|
                        0 <= i < j < self.days@.push(ne).len() implies (#[trigger] self.days@.push(
                        ne,
                    )[i]).date != (#[trigger] self.days@.push(ne)[j]).date by {
                        if j == self.days@.len() {
                            assert(has_date(self.days@, self.days@[i].date));
                        }
                    }
                }
                self.days.push(ne);
                proof {
                    assert(final(self).days_model() =~= upd_days(
                        old(self).days_model(),
                        date,
                        n as int,
                    ));
                    assert forall|y: int| #[trigger] self.year_sum(y) == old(self).year_sum(y) + (
                    if date.year as int == y {
                        n as int
                    } else {
                        0
                    }) by {
                        assert(self.days@.drop_last() =~= old(self).days@);
                        assert(self.days@.last() == ne);
                    }
                }
                Ok(())
            },
        }
    }
}

// ---------------------------------------------------------------------------
// Intensity classification and colors
// ---------------------------------------------------------------------------
/// The cut points as mathematical integers.
pub open spec fn to_ints(s: Seq<usize>) -> Seq<int> {
    s.map_values(|x: usize| x as int)
}

pub open spec fn intensity_scan(q: Seq<int>, v: int, i: int) -> int
    decreases q.len() - i,
{
    if i >= q.len() {
        q.len() - 1
    } else if v < q[i] {
        i - 1
    } else {
        intensity_scan(q, v, i + 1)
    }
}

/// The intensity bucket for count `v` under cut points `q`: one less than
/// the first index whose cut point exceeds `v`, or the last index if none
/// does.
pub open spec fn intensity_of(q: Seq<int>, v: int) -> int {
    intensity_scan(q, v, 0)
}

proof fn lemma_intensity_scan_bounds(q: Seq<int>, v: int, i: int)
    requires
        1 <= i <= q.len(),
    ensures
        i - 1 <= intensity_scan(q, v, i) <= q.len() - 1,
    decreases q.len() - i,
{
    if i < q.len() && !(v < q[i]) {
        lemma_intensity_scan_bounds(q, v, i + 1);
    }
}

/// The intensity bucket always lies between 0 and one less than the number
/// of cut points.
pub proof fn lemma_intensity_range(q: Seq<int>, v: int)
    requires
        q.len() >= 1,
        q[0] <= v,
    ensures
        0 <= intensity_of(q, v) <= q.len() - 1,
{
    lemma_intensity_scan_bounds(q, v, 1);
}

/// With cut points starting `[0, 1, ...]`, the intensity bucket is zero
/// exactly for a count of zero.
pub proof fn lemma_intensity_zero(q: Seq<int>, v: int)
    requires
        q.len() >= 2,
        q[0] == 0,
        q[1] == 1,
        v >= 0,
    ensures
        intensity_of(q, v) == 0 <==> v == 0,
{
    assert(intensity_of(q, v) == intensity_scan(q, v, 1));
    if v == 0 {
        assert(intensity_scan(q, v, 1) == 0);
    } else {
        assert(intensity_scan(q, v, 1) == intensity_scan(q, v, 2));
        lemma_intensity_scan_bounds(q, v, 2);
    }
}

/// Classifies a day's count against ascending cut points: one less than
/// the first index whose cut point exceeds the count, or the last index.
pub fn get_intensity(quartiles: &[usize], commits: usize) -> (r: usize)
    requires
        quartiles@.len() >= 1,
        quartiles@[0] == 0,
    ensures
        r as int == intensity_of(to_ints(quartiles@), commits as int),
        r < quartiles@.len(),
{
    let ghost q = to_ints(quartiles@);
    let mut index: usize = 0;
    while index < quartiles.len()
        invariant
            0 <= index <= quartiles@.len(),
            quartiles@[0] == 0,
            q == to_ints(quartiles@),
            intensity_of(q, commits as int) == intensity_scan(q, commits as int, index as int),
        decreases quartiles@.len() - index,
    {
        if commits < quartiles[index] {
            return index - 1;
        }
        index = index + 1;
    }
    quartiles.len() - 1
}

/// The opaque color token for an intensity bucket.
pub open spec fn color_token(i: int) -> Seq<char> {
    if i == 1 {
        "var(--color-calendar-graph-day-L1-bg)"@
    } else if i == 2 {
        "var(--color-calendar-graph-day-L2-bg)"@
    } else if i == 3 {
        "var(--color-calendar-graph-day-L3-bg)"@
    } else if i == 4 {
        "var(--color-calendar-graph-day-L4-bg)"@
    } else {
        "var(--color-calendar-graph-day-bg)"@
    }
}

/// The color token passed through verbatim for an intensity bucket.
pub fn map_color(intensity: usize) -> (r: String)
    ensures
        r@ == color_token(intensity as int),
{
    match intensity {
        1 => ("var(--color-calendar-graph-day-L1-bg)").to_owned(),
        2 => ("var(--color-calendar-graph-day-L2-bg)").to_owned(),
        3 => ("var(--color-calendar-graph-day-L3-bg)").to_owned(),
        4 => ("var(--color-calendar-graph-day-L4-bg)").to_owned(),
        _ => ("var(--color-calendar-graph-day-bg)").to_owned(),
    }
}

/// How one output entry is built from one dense day under cut points `q`.
pub open spec fn contrib_built(c: Contribution, e: Day, q: Seq<int>) -> bool {
    &&& c.date@ == date_str(e.date)
    &&& c.count == e.commits
    &&& c.intensity as int == intensity_of(q, e.commits as int)
    &&& c.color@ == color_token(c.intensity as int)
}

/// Turns one year's dense day series into output entries, classifying each
/// day's count against the year's cut points.
fn create_contributions(days: &Vec<Day>, quartiles: &[usize]) -> (r: Vec<Contribution>)
    requires
        quartiles@.len() >= 1,
        quartiles@[0] == 0,
        forall|i: int| 0 <= i < days@.len() ==> (#[trigger] days@[i]).date.valid(),
    ensures
        r@.len() == days@.len(),
        forall|i: int|
            0 <= i < r@.len() ==> contrib_built(
                #[trigger] r@[i],
                days@[i],
                to_ints(quartiles@),
            ),
{
    let mut contributions: Vec<Contribution> = Vec::new();
    let mut k: usize = 0;
    while k < days.len()
        invariant
            0 <= k <= days@.len(),
            quartiles@.len() >= 1,
            quartiles@[0] == 0,
            forall|i: int| 0 <= i < days@.len() ==> (#[trigger] days@[i]).date.valid(),
            contributions@.len() == k,
            forall|i: int|
                0 <= i < k ==> contrib_built(
                    #[trigger] contributions@[i],
                    days@[i],
                    to_ints(quartiles@),
                ),
        decreases days@.len() - k,
    {
        let e = days[k];
        let intensity = get_intensity(quartiles, e.commits);
        let color = map_color(intensity);
        let c = Contribution {
            date: crate::dates::format_date(&e.date),
            count: e.commits,
            color,
            intensity,
        };
        contributions.push(c);
        k = k + 1;
    }
    contributions
}

// ---------------------------------------------------------------------------
// Backfill: one year's dense day series
// ---------------------------------------------------------------------------
/// The count recorded for `d`, or zero when no record names `d`.
pub open spec fn day_count(dm: Map<Date, int>, d: Date) -> int {
    if dm.dom().contains(d) {
        dm[d]
    } else {
        0
    }
}

/// `mx` is the greatest day count among year `y`'s recorded days, or zero
/// when the year has no positive count.
pub open spec fn is_year_max(dm: Map<Date, int>, y: int, mx: int) -> bool {
    &&& mx >= 0
    &&& forall|d: Date| #[trigger] dm.dom().contains(d) && d.year as int == y ==> dm[d] <= mx
    &&& (mx == 0 || exists|d: Date|
        #[trigger] dm.dom().contains(d) && d.year as int == y && dm[d] == mx)
}

/// The greatest day count among year `y`'s recorded days.
pub open spec fn year_max(dm: Map<Date, int>, y: int) -> int {
    choose|mx: int| is_year_max(dm, y, mx)
}

/// The greatest day count is unique, so the chosen one is the witnessed one.
pub proof fn lemma_year_max_eq(dm: Map<Date, int>, y: int, mx: int)
    requires
        is_year_max(dm, y, mx),
    ensures
        year_max(dm, y) == mx,
{
    let w = choose|w: int| is_year_max(dm, y, w);
    assert(is_year_max(dm, y, w));
    if w != mx {
        if mx > 0 {
            let d = choose|d: Date|
                #[trigger] dm.dom().contains(d) && d.year as int == y && dm[d] == mx;
            assert(mx <= w);
        }
        if w > 0 {
            let d = choose|d: Date|
                #[trigger] dm.dom().contains(d) && d.year as int == y && dm[d] == w;
            assert(w <= mx);
        }
        assert(false);
    }
}

spec fn dense_entry_ok(e: Day, dm: Map<Date, int>, y: int) -> bool {
    &&& e.date.valid()
    &&& e.date.year as int == y
    &&& e.commits as int == day_count(dm, e.date)
}

/// The count recorded for `d` among the day entries, or zero.
fn day_lookup(days: &Vec<Day>, d: &Date) -> (c: usize)
    requires
        days_distinct(days@),
    ensures
        c as int == day_count(days_map_of(days@), *d),
{
    let mut i: usize = 0;
    while i < days.len()
        invariant
            0 <= i <= days@.len(),
            days_distinct(days@),
            forall|j: int| 0 <= j < i ==> (#[trigger] days@[j]).date != *d,
        decreases days@.len() - i,
    {
        let e = days[i];
        if e.date.year == d.year && e.date.month == d.month && e.date.day == d.day {
            proof {
                lemma_days_map_at(days@, i as int);
            }
            return e.commits;
        }
        i = i + 1;
    }
    proof {
        lemma_days_map_dom(days@);
        assert(!has_date(days@, *d));
    }
    0
}

/// Walks every calendar day of `year` from January 1 through December 31
/// and pairs it with its recorded count, zero where no record exists.
fn backfill(year: usize, days: &Vec<Day>) -> (r: Vec<Day>)
    requires
        year <= 9999,
        days_distinct(days@),
    ensures
        r@.len() >= 1,
        forall|i: int|
            0 <= i < r@.len() ==> dense_entry_ok(
                #[trigger] r@[i],
                days_map_of(days@),
                year as int,
            ),
        forall|i: int, j: int|
            0 <= i < j < r@.len() ==> (#[trigger] r@[i]).date.lt((#[trigger] r@[j]).date),
        forall|d: Date|
            #![trigger d.valid()]
            d.valid() && d.year as int == year as int ==> exists|i: int|
                0 <= i < r@.len() && (#[trigger] r@[i]).date == d,
{
    let ghost dm = days_map_of(days@);
    let mut r: Vec<Day> = Vec::new();
    let mut cur = Date { year, month: 1, day: 1 };
    loop
        invariant_except_break
            cur.valid(),
            cur.year == year,
            forall|i: int| 0 <= i < r@.len() ==> (#[trigger] r@[i]).date.lt(cur),
        invariant
            year <= 9999,
            days_distinct(days@),
            dm == days_map_of(days@),
            forall|i: int| 0 <= i < r@.len() ==> dense_entry_ok(#[trigger] r@[i], dm, year as int),
            forall|i: int, j: int|
                0 <= i < j < r@.len() ==> (#[trigger] r@[i]).date.lt((#[trigger] r@[j]).date),
            forall|d: Date|
                #![trigger d.valid()]
                d.valid() && d.year as int == year as int && d.lt(cur) ==> exists|i: int|
                    0 <= i < r@.len() && (#[trigger] r@[i]).date == d,
        ensures
            r@.len() >= 1,
            forall|d: Date|
                #![trigger d.valid()]
                d.valid() && d.year as int == year as int ==> exists|i: int|
                    0 <= i < r@.len() && (#[trigger] r@[i]).date == d,
        decreases 13 - cur.month, 32 - cur.day,
    {
        let count = day_lookup(days, &cur);
        let ghost r_old = r@;
        r.push(Day { commits: count, date: cur });
        proof {
            assert forall|i: int, j: int| 0 <= i < j < r@.len() implies (#[trigger] r@[i]).date.lt(
                (#[trigger] r@[j]).date,
            ) by {
                if j == r@.len() - 1 {
                    assert(r_old[i].date.lt(cur));
                }
            }
        }
        if cur.month == 12 && cur.day == 31 {
            proof {
                assert forall|d: Date|
                    #![trigger d.valid()]
                    d.valid() && d.year as int == year as int implies exists|i: int|
                    0 <= i < r@.len() && (#[trigger] r@[i]).date == d by {
                    if d == cur {
                        assert(r@[r@.len() - 1].date == d);
                    } else {
                        assert(d.lt(cur));
                        let i = choose|i: int| 0 <= i < r_old.len() && (#[trigger] r_old[i]).date == d;
                        assert(r@[i].date == d);
                    }
                }
            }
            break;
        }
        let nxt = next_day_in_year(&cur);
        proof {
            assert forall|d: Date|
                #![trigger d.valid()]
                d.valid() && d.year as int == year as int && d.lt(nxt) implies exists|i: int|
                0 <= i < r@.len() && (#[trigger] r@[i]).date == d by {
                if d == cur {
                    assert(r@[r@.len() - 1].date == d);
                } else if d.lt(cur) {
                    let i = choose|i: int| 0 <= i < r_old.len() && (#[trigger] r_old[i]).date == d;
                    assert(r@[i].date == d);
                } else {
                    assert(cur.lt(d));
                    assert(nxt.le(d));
                    assert(false);
                }
            }
        }
        cur = nxt;
    }
    r
}

/// After feeding one record to both accumulators, they balance again.
pub proof fn lemma_balanced_after_record(pre: ParseState, post: ParseState, d: Date, n: int)
    requires
        pre.balanced(),
        n >= 0,
        post.years_model() == upd_years(pre.years_model(), d, n),
        forall|y: int| #[trigger] post.year_sum(y) == pre.year_sum(y) + (if d.year as int == y {
            n
        } else {
            0
        }),
    ensures
        post.balanced(),
{
    assert forall|y: int| (if post.years_model().dom().contains(y) {
        post.years_model()[y].total
    } else {
        0
    }) == #[trigger] post.year_sum(y) by {
        assert(pre.year_sum(y) == (if pre.years_model().dom().contains(y) {
            pre.years_model()[y].total
        } else {
            0
        }));
        if y == d.year as int {
            assert(post.years_model().dom().contains(y));
        } else {
            assert(post.years_model().dom().contains(y) == pre.years_model().dom().contains(y));
        }
    }
}

/// What holds of every year entry of the accumulator model.
pub open spec fn year_info_ok(y: int, e: YearInfo) -> bool {
    &&& 0 <= y <= 9999
    &&& e.start.valid()
    &&& e.end.valid()
    &&& e.start.year as int == y
    &&& e.end.year as int == y
    &&& e.start.le(e.end)
    &&& 0 <= e.total <= usize::MAX
}

// ---------------------------------------------------------------------------
// The finished timeline and how it relates to the accumulator state
// ---------------------------------------------------------------------------
/// The numeric year a year entry's text names.
pub open spec fn year_num(e: Year) -> int {
    digits_val(e.year@)
}

/// The date a contribution entry's text names, if any.
pub open spec fn contrib_date(c: Contribution) -> Option<Date> {
    parse_date_seq(c.date@)
}

/// One output year against the accumulated per-year map.
pub open spec fn year_entry_matches(e: Year, ym: Map<int, YearInfo>) -> bool {
    let y = year_num(e);
    &&& ym.dom().contains(y)
    &&& e.year@ == dec_str(y)
    &&& e.total as int == ym[y].total
    &&& e.range.start@ == date_str(ym[y].start)
    &&& e.range.end@ == date_str(ym[y].end)
}

/// One output contribution against the accumulated maps: its date is a
/// valid day of an observed year, its count is the accumulated count, and
/// its intensity and color are derived from that year's cut points.
pub open spec fn contrib_matches(c: Contribution, ym: Map<int, YearInfo>, dm: Map<Date, int>) -> bool {
    match contrib_date(c) {
        Some(d) => {
            &&& d.valid()
            &&& ym.dom().contains(d.year as int)
            &&& c.count as int == day_count(dm, d)
            &&& c.intensity as int == intensity_of(
                cuts_spec(year_max(dm, d.year as int)),
                c.count as int,
            )
            &&& c.color@ == color_token(c.intensity as int)
        },
        None => false,
    }
}

pub open spec fn contrib_lt(a: Contribution, b: Contribution) -> bool {
    match (contrib_date(a), contrib_date(b)) {
        (Some(x), Some(y)) => x.lt(y),
        _ => false,
    }
}

/// Contribution entries come strictly ascending by date.
pub open spec fn contribs_sorted(cs: Seq<Contribution>) -> bool {
    forall|i: int, j: int| 0 <= i < j < cs.len() ==> contrib_lt(#[trigger] cs[i], #[trigger] cs[j])
}

/// The whole timeline against the accumulated maps: years exactly the
/// observed ones, strictly descending; contributions exactly one entry for
/// every calendar day of every observed year, strictly ascending.
pub open spec fn timeline_matches(t: Timeline, ym: Map<int, YearInfo>, dm: Map<Date, int>) -> bool {
    &&& forall|i: int|
        0 <= i < t.years@.len() ==> year_entry_matches(#[trigger] t.years@[i], ym)
    &&& forall|y: int|
        #[trigger] ym.dom().contains(y) ==> exists|i: int|
            0 <= i < t.years@.len() && year_num(#[trigger] t.years@[i]) == y
    &&& forall|i: int, j: int|
        0 <= i < j < t.years@.len() ==> year_num(#[trigger] t.years@[i]) > year_num(
            #[trigger] t.years@[j],
        )
    &&& forall|i: int|
        0 <= i < t.contributions@.len() ==> contrib_matches(
            #[trigger] t.contributions@[i],
            ym,
            dm,
        )
    &&& forall|d: Date|
        #![trigger d.valid()]
        d.valid() && ym.dom().contains(d.year as int) ==> exists|i: int|
            0 <= i < t.contributions@.len() && contrib_date(#[trigger] t.contributions@[i])
                == Some(d)
    &&& contribs_sorted(t.contributions@)
}

/// The contribution entries of a finished timeline come non-decreasing by
/// their date text: their dates ascend chronologically, and for valid
/// dates the fixed-width `YYYY-MM-DD` text orders exactly as the dates do.
pub proof fn lemma_contributions_sorted_by_text(
    t: Timeline,
    ym: Map<int, YearInfo>,
    dm: Map<Date, int>,
)
    requires
        timeline_matches(t, ym, dm),
    ensures
        forall|i: int, j: int|
            0 <= i <= j < t.contributions@.len() ==> crate::dates::lex_le(
                (#[trigger] t.contributions@[i]).date@,
                (#[trigger] t.contributions@[j]).date@,
            ),
{
    assert forall|i: int, j: int| 0 <= i <= j < t.contributions@.len() implies crate::dates::lex_le(
        (#[trigger] t.contributions@[i]).date@,
        (#[trigger] t.contributions@[j]).date@,
    ) by {
        let ci = t.contributions@[i];
        let cj = t.contributions@[j];
        assert(contrib_matches(ci, ym, dm));
        assert(contrib_matches(cj, ym, dm));
        if i == j {
            crate::dates::lemma_lex_le_refl(ci.date@);
        } else {
            assert(contrib_lt(ci, cj));
            match (contrib_date(ci), contrib_date(cj)) {
                (Some(di), Some(dj)) => {
                    crate::dates::lemma_parse_canonical(ci.date@, di);
                    crate::dates::lemma_parse_canonical(cj.date@, dj);
                    crate::dates::lemma_date_str_order(di, dj);
                },
                _ => {
                    assert(false);
                },
            }
        }
    }
}

// ---------------------------------------------------------------------------
// Contribution entries as replayable records, and per-year sums
// ---------------------------------------------------------------------------
/// A replayed entry is acceptable: its date text is blank (skipped) or a
/// valid calendar date.
pub open spec fn contrib_rec_ok(c: Contribution) -> bool {
    trim_seq(c.date@).len() == 0 || parse_date_seq(trim_seq(c.date@)) is Some
}

/// The entry holds a record to replay.
pub open spec fn contrib_is_rec(c: Contribution) -> bool {
    parse_date_seq(trim_seq(c.date@)) is Some
}

/// The date of a replayed record.
pub open spec fn contrib_rec_date(c: Contribution) -> Date {
    match parse_date_seq(trim_seq(c.date@)) {
        Some(d) => d,
        None => Date { year: 0, month: 0, day: 0 },
    }
}

/// The sum of the replayed counts of year `y` among the first `k` entries.
pub open spec fn year_total_in(cs: Seq<Contribution>, k: int, y: int) -> int
    decreases k,
{
    if k <= 0 {
        0
    } else {
        year_total_in(cs, k - 1, y) + (if contrib_is_rec(cs[k - 1]) && contrib_rec_date(
            cs[k - 1],
        ).year as int == y {
            cs[k - 1].count as int
        } else {
            0
        })
    }
}

/// Some entry among the first `k` replays into year `y`.
pub open spec fn year_has_rec(cs: Seq<Contribution>, k: int, y: int) -> bool {
    exists|i: int|
        0 <= i < k && contrib_is_rec(#[trigger] cs[i]) && contrib_rec_date(cs[i]).year as int == y
}

/// A timeline is replay-consistent when every entry's date is blank or
/// valid and every listed year total equals the sum of the counts its
/// entries replay into that year, with at least one such entry.
pub open spec fn timeline_consistent(t: Timeline) -> bool {
    &&& forall|i: int|
        0 <= i < t.contributions@.len() ==> contrib_rec_ok(#[trigger] t.contributions@[i])
    &&& forall|i: int|
        0 <= i < t.years@.len() ==> {
            let e = #[trigger] t.years@[i];
            e.total as int == year_total_in(
                t.contributions@,
                t.contributions@.len() as int,
                year_num(e),
            ) && year_has_rec(t.contributions@, t.contributions@.len() as int, year_num(e))
        }
}

/// The sum of the counts held by a run of day entries.
spec fn day_commits_sum(ds: Seq<Day>) -> int
    decreases ds.len(),
{
    if ds.len() == 0 {
        0
    } else {
        day_commits_sum(ds.drop_last()) + ds.last().commits as int
    }
}

/// The sum of the counts of year `y` among the day entries.
spec fn days_year_sum(s: Seq<Day>, y: int) -> int
    decreases s.len(),
{
    if s.len() == 0 {
        0
    } else {
        days_year_sum(s.drop_last(), y) + (if s.last().date.year as int == y {
            s.last().commits as int
        } else {
            0
        })
    }
}

/// The sum of the accumulated counts looked up for each entry's date.
spec fn lookup_sum(dm: Map<Date, int>, ds: Seq<Day>) -> int
    decreases ds.len(),
{
    if ds.len() == 0 {
        0
    } else {
        lookup_sum(dm, ds.drop_last()) + day_count(dm, ds.last().date)
    }
}

proof fn lemma_days_year_sum_update(s: Seq<Day>, i: int, e: Day, y: int)
    requires
        0 <= i < s.len(),
    ensures
        days_year_sum(s.update(i, e), y) == days_year_sum(s, y) - (if s[i].date.year as int == y {
            s[i].commits as int
        } else {
            0
        }) + (if e.date.year as int == y {
            e.commits as int
        } else {
            0
        }),
    decreases s.len(),
{
    let u = s.update(i, e);
    if i == s.len() - 1 {
        assert(u.drop_last() =~= s.drop_last());
        assert(u.last() == e);
    } else {
        assert(u.drop_last() =~= s.drop_last().update(i, e));
        assert(u.last() == s.last());
        lemma_days_year_sum_update(s.drop_last(), i, e, y);
    }
}

proof fn lemma_lookup_sum_empty(ds: Seq<Day>)
    ensures
        lookup_sum(Map::<Date, int>::empty(), ds) == 0,
    decreases ds.len(),
{
    if ds.len() > 0 {
        lemma_lookup_sum_empty(ds.drop_last());
    }
}

proof fn lemma_lookup_sum_insert(dm: Map<Date, int>, ds: Seq<Day>, d: Date, c: int)
    requires
        !dm.dom().contains(d),
        days_distinct(ds),
    ensures
        lookup_sum(dm.insert(d, c), ds) == lookup_sum(dm, ds) + (if has_date(ds, d) {
            c
        } else {
            0
        }),
    decreases ds.len(),
{
    if ds.len() == 0 {
        assert(!has_date(ds, d));
    } else {
        let t = ds.drop_last();
        assert(days_distinct(t));
        lemma_lookup_sum_insert(dm, t, d, c);
        if ds.last().date == d {
            assert(!has_date(t, d)) by {
                if has_date(t, d) {
                    let i = choose|i: int| 0 <= i < t.len() && (#[trigger] t[i]).date == d;
                    assert(ds[i].date == ds[ds.len() - 1].date);
                    assert(false);
                }
            }
            assert(has_date(ds, d)) by {
                assert(ds[ds.len() - 1].date == d);
            }
        } else {
            assert(has_date(ds, d) == has_date(t, d)) by {
                if has_date(ds, d) {
                    let i = choose|i: int| 0 <= i < ds.len() && (#[trigger] ds[i]).date == d;
                    assert(i < ds.len() - 1);
                    assert(t[i].date == d);
                }
                if has_date(t, d) {
                    let i = choose|i: int| 0 <= i < t.len() && (#[trigger] t[i]).date == d;
                    assert(ds[i].date == d);
                }
            }
        }
    }
}

proof fn lemma_lookup_eq_year_sum(s: Seq<Day>, dense: Seq<Day>, y: int)
    requires
        days_distinct(s),
        forall|i: int| 0 <= i < s.len() ==> (#[trigger] s[i]).date.valid(),
        days_distinct(dense),
        forall|i: int|
            0 <= i < dense.len() ==> (#[trigger] dense[i]).date.valid() && dense[i].date.year as int
                == y,
        forall|d: Date|
            #![trigger d.valid()]
            d.valid() && d.year as int == y ==> has_date(dense, d),
    ensures
        lookup_sum(days_map_of(s), dense) == days_year_sum(s, y),
    decreases s.len(),
{
    if s.len() == 0 {
        lemma_lookup_sum_empty(dense);
    } else {
        let t = s.drop_last();
        let e = s.last();
        assert(days_distinct(t));
        lemma_lookup_eq_year_sum(t, dense, y);
        lemma_days_map_dom(t);
        assert(!has_date(t, e.date)) by {
            if has_date(t, e.date) {
                let i = choose|i: int| 0 <= i < t.len() && (#[trigger] t[i]).date == e.date;
                assert(s[i].date == s[s.len() - 1].date);
                assert(false);
            }
        }
        lemma_lookup_sum_insert(days_map_of(t), dense, e.date, e.commits as int);
        if e.date.year as int == y {
            assert(e.date.valid());
            assert(has_date(dense, e.date));
        } else {
            if has_date(dense, e.date) {
                let i = choose|i: int| 0 <= i < dense.len() && (#[trigger] dense[i]).date == e.date;
                assert(false);
            }
        }
    }
}

proof fn lemma_commits_eq_lookup(dense: Seq<Day>, dm: Map<Date, int>)
    requires
        forall|i: int|
            0 <= i < dense.len() ==> (#[trigger] dense[i]).commits as int == day_count(
                dm,
                dense[i].date,
            ),
    ensures
        day_commits_sum(dense) == lookup_sum(dm, dense),
    decreases dense.len(),
{
    if dense.len() > 0 {
        lemma_commits_eq_lookup(dense.drop_last(), dm);
    }
}

proof fn lemma_year_total_prefix(cs1: Seq<Contribution>, cs2: Seq<Contribution>, k: int, y: int)
    requires
        0 <= k <= cs1.len(),
        k <= cs2.len(),
        forall|i: int| 0 <= i < k ==> cs1[i] == cs2[i],
    ensures
        year_total_in(cs1, k, y) == year_total_in(cs2, k, y),
    decreases k,
{
    if k > 0 {
        lemma_year_total_prefix(cs1, cs2, k - 1, y);
    }
}

proof fn lemma_year_total_concat(cs1: Seq<Contribution>, cs2: Seq<Contribution>, y: int)
    ensures
        year_total_in(cs1 + cs2, (cs1.len() + cs2.len()) as int, y) == year_total_in(
            cs1,
            cs1.len() as int,
            y,
        ) + year_total_in(cs2, cs2.len() as int, y),
    decreases cs2.len(),
{
    let n1 = cs1.len() as int;
    let n2 = cs2.len() as int;
    if cs2.len() == 0 {
        assert(forall|i: int| 0 <= i < n1 ==> (cs1 + cs2)[i] == cs1[i]);
        lemma_year_total_prefix(cs1 + cs2, cs1, n1, y);
    } else {
        let t = cs2.drop_last();
        lemma_year_total_concat(cs1, t, y);
        assert((cs1 + cs2)[n1 + n2 - 1] == cs2.last());
        assert(forall|i: int| 0 <= i < n1 + n2 - 1 ==> (cs1 + cs2)[i] == (cs1 + t)[i]);
        lemma_year_total_prefix(cs1 + cs2, cs1 + t, n1 + n2 - 1, y);
        assert(year_total_in(cs1 + t, (cs1.len() + t.len()) as int, y) == year_total_in(
            cs1,
            n1,
            y,
        ) + year_total_in(t, n2 - 1, y));
        assert(forall|i: int| 0 <= i < n2 - 1 ==> t[i] == cs2[i]);
        lemma_year_total_prefix(t, cs2, n2 - 1, y);
    }
}

proof fn lemma_block_totals(block: Seq<Contribution>, dense: Seq<Day>, y: int, yp: int)
    requires
        block.len() == dense.len(),
        forall|i: int|
            0 <= i < block.len() ==> (#[trigger] block[i]).date@ == date_str(dense[i].date)
                && block[i].count == dense[i].commits,
        forall|i: int|
            0 <= i < dense.len() ==> (#[trigger] dense[i]).date.valid() && dense[i].date.year as int
                == y,
    ensures
        year_total_in(block, block.len() as int, yp) == (if yp == y {
            day_commits_sum(dense)
        } else {
            0
        }),
        forall|i: int|
            0 <= i < block.len() ==> contrib_is_rec(#[trigger] block[i]) && contrib_rec_date(
                block[i],
            ) == dense[i].date,
    decreases block.len(),
{
    assert forall|i: int| 0 <= i < block.len() implies contrib_is_rec(#[trigger] block[i])
        && contrib_rec_date(block[i]) == dense[i].date by {
        crate::dates::lemma_date_str_trim(dense[i].date);
        crate::dates::lemma_date_str_roundtrip(dense[i].date);
    }
    if block.len() > 0 {
        let bt = block.drop_last();
        let dt = dense.drop_last();
        lemma_block_totals(bt, dt, y, yp);
        assert(year_total_in(block, block.len() - 1, yp) == year_total_in(
            bt,
            bt.len() as int,
            yp,
        )) by {
            lemma_year_total_prefix(block, bt, block.len() - 1, yp);
        }
    }
}

/// Every observed year has a positive greatest day count, so its cut
/// points can be derived.
pub open spec fn all_years_positive(ym: Map<int, YearInfo>, dm: Map<Date, int>) -> bool {
    forall|y: int| #[trigger] ym.dom().contains(y) ==> year_max(dm, y) > 0
}

spec fn contrib_year_below(c: Contribution, y: int) -> bool {
    match contrib_date(c) {
        Some(d) => (d.year as int) < y,
        None => false,
    }
}

proof fn lemma_dense_year_max(dm: Map<Date, int>, y: int, dense: Seq<Day>, commits: Seq<usize>)
    requires
        commits.len() == dense.len(),
        dense.len() >= 1,
        forall|i: int| 0 <= i < dense.len() ==> dense_entry_ok(#[trigger] dense[i], dm, y),
        forall|i: int| 0 <= i < commits.len() ==> commits[i] == (#[trigger] dense[i]).commits,
        forall|d: Date|
            #![trigger d.valid()]
            d.valid() && d.year as int == y ==> exists|i: int|
                0 <= i < dense.len() && (#[trigger] dense[i]).date == d,
        forall|d: Date| #[trigger] dm.dom().contains(d) ==> d.valid(),
    ensures
        is_year_max(dm, y, max_of(commits)),
{
    lemma_max_of_ge(commits, 0);
    assert forall|d: Date| #[trigger] dm.dom().contains(d) && d.year as int == y implies dm[d]
        <= max_of(commits) by {
        assert(d.valid());
        let i = choose|i: int| 0 <= i < dense.len() && (#[trigger] dense[i]).date == d;
        assert(commits[i] == dense[i].commits);
        assert(dense[i].commits as int == day_count(dm, d));
        lemma_max_of_ge(commits, i);
    }
    if max_of(commits) != 0 {
        lemma_max_of_witness(commits);
        let k = choose|k: int| 0 <= k < commits.len() && commits[k] as int == max_of(commits);
        let d = dense[k].date;
        assert(commits[k] == dense[k].commits);
        assert(dense[k].commits as int == day_count(dm, d));
        assert(dm.dom().contains(d) && d.year as int == y && dm[d] == max_of(commits));
    }
}

impl Timeline {
    /// Builds the finished timeline from the accumulator state: the years
    /// sorted descending, and for each observed year one contribution entry
    /// per calendar day from January 1 through December 31, classified
    /// against the year's quantile cut points.
    ///
    /// Fails with `EmptyYear` when some observed year has no positive day
    /// count, since no cut points can be derived for it.
    #[verifier::rlimit(100)]
    pub fn try_from(state: &ParseState) -> (r: Result<Timeline, Error>)
        requires
            state.wf(),
        ensures
            match r {
                Ok(t) => timeline_matches(t, state.years_model(), state.days_model())
                    && all_years_positive(state.years_model(), state.days_model()) && (
                state.balanced() ==> timeline_consistent(t)),
                Err(e) => e == Error::EmptyYear && !all_years_positive(
                    state.years_model(),
                    state.days_model(),
                ),
            },
    {
        let ghost ym = state.years_model();
        let ghost dm = state.days_model();
        proof {
            state.lemma_models_ok();
        }
        // Years, numerically descending.
        let mut years: Vec<Year> = Vec::new();
        let mut yy: usize = 0;
        while yy < 10000
            invariant
                0 <= yy <= 10000,
                state.wf(),
                ym == state.years_model(),
                dm == state.days_model(),
                forall|y: int| #[trigger] ym.dom().contains(y) ==> year_info_ok(y, ym[y]),
                forall|i: int|
                    0 <= i < years@.len() ==> year_entry_matches(#[trigger] years@[i], ym),
                forall|i: int|
                    0 <= i < years@.len() ==> year_num(#[trigger] years@[i]) > 9999 - yy,
                forall|i: int, j: int|
                    0 <= i < j < years@.len() ==> year_num(#[trigger] years@[i]) > year_num(
                        #[trigger] years@[j],
                    ),
                forall|y: int|
                    #[trigger] ym.dom().contains(y) && y > 9999 - yy ==> exists|i: int|
                        0 <= i < years@.len() && year_num(#[trigger] years@[i]) == y,
            decreases 10000 - yy,
        {
            let y = 9999 - yy;
            let ghost years_old = years@;
            match state.find_year(y) {
                Some(i) => {
                    proof {
                        lemma_years_map_at(state.years@, i as int);
                    }
                    let e = state.years[i];
                    let entry = Year {
                        year: crate::dates::year_string(y),
                        total: e.total,
                        range: Range {
                            start: crate::dates::format_date(&e.start),
                            end: crate::dates::format_date(&e.end),
                        },
                    };
                    proof {
                        crate::dates::lemma_dec_str(y as int);
                        assert(year_num(entry) == y as int);
                        assert(year_entry_matches(entry, ym));
                    }
                    years.push(entry);
                    proof {
                        assert forall|y2: int|
                            #[trigger] ym.dom().contains(y2) && y2 > 9999 - (yy + 1) implies exists|
                            k: int,
                        |
                            0 <= k < years@.len() && year_num(#[trigger] years@[k]) == y2 by {
                            if y2 == y as int {
                                assert(year_num(years@[years@.len() - 1]) == y2);
                            } else {
                                let k = choose|k: int|
                                    0 <= k < years_old.len() && year_num(
                                        #[trigger] years_old[k],
                                    ) == y2;
                                assert(year_num(years@[k]) == y2);
                            }
                        }
                    }
                },
                None => {
                    proof {
                        lemma_years_map_dom(state.years@);
                        assert(!ym.dom().contains(y as int));
                        assert forall|y2: int|
                            #[trigger] ym.dom().contains(y2) && y2 > 9999 - (yy + 1) implies exists|
                            k: int,
                        |
                            0 <= k < years@.len() && year_num(#[trigger] years@[k]) == y2 by {
                            assert(y2 != y as int);
                            let k = choose|k: int|
                                0 <= k < years_old.len() && year_num(#[trigger] years_old[k])
                                    == y2;
                            assert(year_num(years@[k]) == y2);
                        }
                    }
                },
            }
            yy = yy + 1;
        }
        proof {
            assert forall|y2: int| #[trigger] ym.dom().contains(y2) implies exists|i: int|
                0 <= i < years@.len() && year_num(#[trigger] years@[i]) == y2 by {
                assert(year_info_ok(y2, ym[y2]));
            }
        }
        // Contributions, dates ascending: years ascending, days ascending
        // within each year.
        let mut contributions: Contributions = Vec::new();
        let mut y: usize = 0;
        while y < 10000
            invariant
                0 <= y <= 10000,
                state.wf(),
                ym == state.years_model(),
                dm == state.days_model(),
                forall|i: int|
                    0 <= i < years@.len() ==> year_entry_matches(#[trigger] years@[i], ym),
                forall|i: int, j: int|
                    0 <= i < j < years@.len() ==> year_num(#[trigger] years@[i]) > year_num(
                        #[trigger] years@[j],
                    ),
                forall|y2: int|
                    #[trigger] ym.dom().contains(y2) ==> exists|i: int|
                        0 <= i < years@.len() && year_num(#[trigger] years@[i]) == y2,
                forall|yp: int| #[trigger] ym.dom().contains(yp) ==> year_info_ok(yp, ym[yp]),
                forall|d: Date| #[trigger] dm.dom().contains(d) ==> d.valid(),
                forall|i: int|
                    0 <= i < contributions@.len() ==> contrib_matches(
                        #[trigger] contributions@[i],
                        ym,
                        dm,
                    ),
                forall|i: int|
                    0 <= i < contributions@.len() ==> contrib_year_below(
                        #[trigger] contributions@[i],
                        y as int,
                    ),
                contribs_sorted(contributions@),
                forall|d: Date|
                    #![trigger d.valid()]
                    d.valid() && ym.dom().contains(d.year as int) && (d.year as int) < y as int
                        ==> exists|i: int|
                        0 <= i < contributions@.len() && contrib_date(
                            #[trigger] contributions@[i],
                        ) == Some(d),
                forall|yp: int|
                    #[trigger] ym.dom().contains(yp) && yp < y as int ==> year_max(dm, yp) > 0,
                forall|yp: int|
                    #[trigger] ym.dom().contains(yp) && yp < y as int ==> (state.balanced()
                        ==> year_total_in(contributions@, contributions@.len() as int, yp)
                        == ym[yp].total),
                forall|yp: int|
                    yp >= y as int ==> year_total_in(
                        contributions@,
                        contributions@.len() as int,
                        yp,
                    ) == 0,
            decreases 10000 - y,
        {
            match state.find_year(y) {
                Some(idx) => {
                    proof {
                        lemma_years_map_at(state.years@, idx as int);
                        assert(ym.dom().contains(y as int));
                    }
                    let dense = backfill(y, &state.days);
                    let mut commits: Vec<usize> = Vec::new();
                    let mut k: usize = 0;
                    while k < dense.len()
                        invariant
                            0 <= k <= dense@.len(),
                            commits@.len() == k,
                            forall|i: int|
                                0 <= i < k ==> commits@[i] == (#[trigger] dense@[i]).commits,
                        decreases dense@.len() - k,
                    {
                        commits.push(dense[k].commits);
                        k = k + 1;
                    }
                    proof {
                        lemma_dense_year_max(dm, y as int, dense@, commits@);
                    }
                    match crate::quartiles::quartiles(commits.as_slice()) {
                        Err(_e) => {
                            proof {
                                lemma_year_max_eq(dm, y as int, max_of(commits@));
                                assert(year_max(dm, y as int) == 0);
                                assert(!all_years_positive(ym, dm));
                            }
                            return Err(Error::EmptyYear);
                        },
                        Ok(q) => {
                            proof {
                                lemma_year_max_eq(dm, y as int, max_of(commits@));
                                assert(to_ints(q@) =~= cuts_spec(year_max(dm, y as int)));
                            }
                            let mut cs = create_contributions(&dense, q.as_slice());
                            let ghost co = contributions@;
                            let ghost csv = cs@;
                            let ghost densev = dense@;
                            contributions.append(&mut cs);
                            proof {
                                assert(contributions@ == co + csv);
                                assert forall|i: int|
                                    0 <= i < csv.len() implies contrib_date(#[trigger] csv[i])
                                    == Some(densev[i].date) && contrib_matches(csv[i], ym, dm)
                                    && contrib_year_below(csv[i], y as int + 1) by {
                                    crate::dates::lemma_date_str_roundtrip(densev[i].date);
                                    assert(contrib_built(csv[i], densev[i], to_ints(q@)));
                                }
                                assert forall|i: int|
                                    0 <= i < contributions@.len() implies contrib_matches(
                                    #[trigger] contributions@[i],
                                    ym,
                                    dm,
                                ) && contrib_year_below(contributions@[i], y as int + 1) by {
                                    if i < co.len() {
                                        assert(contributions@[i] == co[i]);
                                        assert(contrib_year_below(co[i], y as int));
                                    } else {
                                        assert(contributions@[i] == csv[i - co.len()]);
                                    }
                                }
                                assert forall|i: int, j: int|
                                    0 <= i < j < contributions@.len() implies contrib_lt(
                                    #[trigger] contributions@[i],
                                    #[trigger] contributions@[j],
                                ) by {
                                    if j < co.len() {
                                        assert(contributions@[i] == co[i]);
                                        assert(contributions@[j] == co[j]);
                                    } else if i < co.len() {
                                        assert(contributions@[i] == co[i]);
                                        assert(contributions@[j] == csv[j - co.len()]);
                                        assert(contrib_year_below(co[i], y as int));
                                    } else {
                                        assert(contributions@[i] == csv[i - co.len()]);
                                        assert(contributions@[j] == csv[j - co.len()]);
                                        assert(densev[i - co.len()].date.lt(
                                            densev[j - co.len()].date,
                                        ));
                                    }
                                }
                                assert forall|d: Date|
                                    #![trigger d.valid()]
                                    d.valid() && ym.dom().contains(d.year as int) && (
                                d.year as int) < y as int + 1 implies exists|i: int|
                                    0 <= i < contributions@.len() && contrib_date(
                                        #[trigger] contributions@[i],
                                    ) == Some(d) by {
                                    if (d.year as int) < y as int {
                                        let i = choose|i: int|
                                            0 <= i < co.len() && contrib_date(#[trigger] co[i])
                                                == Some(d);
                                        assert(contrib_date(contributions@[i]) == Some(d));
                                    } else {
                                        let i = choose|i: int|
                                            0 <= i < densev.len() && (#[trigger] densev[i]).date
                                                == d;
                                        assert(contrib_date(contributions@[co.len() + i])
                                            == Some(d));
                                    }
                                }
                                assert forall|i: int, j: int|
                                    0 <= i < j < densev.len() implies (#[trigger] densev[i]).date
                                    != (#[trigger] densev[j]).date by {
                                    assert(densev[i].date.lt(densev[j].date));
                                }
                                lemma_commits_eq_lookup(densev, dm);
                                lemma_lookup_eq_year_sum(state.days@, densev, y as int);
                                assert(day_commits_sum(densev) == state.year_sum(y as int));
                                assert forall|yp: int|
                                    #[trigger] ym.dom().contains(yp) && yp < y as int + 1 implies (
                                state.balanced() ==> year_total_in(
                                    contributions@,
                                    contributions@.len() as int,
                                    yp,
                                ) == ym[yp].total) by {
                                    lemma_year_total_concat(co, csv, yp);
                                    lemma_block_totals(csv, densev, y as int, yp);
                                    if state.balanced() {
                                        if yp == y as int {
                                            assert(year_total_in(co, co.len() as int, yp) == 0);
                                            assert(state.year_sum(yp) == ym[yp].total);
                                        }
                                    }
                                }
                                assert forall|yp: int| yp >= y as int + 1 implies year_total_in(
                                    contributions@,
                                    contributions@.len() as int,
                                    yp,
                                ) == 0 by {
                                    lemma_year_total_concat(co, csv, yp);
                                    lemma_block_totals(csv, densev, y as int, yp);
                                    assert(year_total_in(co, co.len() as int, yp) == 0);
                                }
                            }
                        },
                    }
                },
                None => {
                    proof {
                        lemma_years_map_dom(state.years@);
                        assert(!ym.dom().contains(y as int));
                    }
                },
            }
            y = y + 1;
        }
        let ghost ysv = years@;
        let ghost csv2 = contributions@;
        let t = Timeline { years, contributions };
        proof {
            assert(t.years@ == ysv);
            assert(t.contributions@ == csv2);
            assert forall|y2: int| #[trigger] ym.dom().contains(y2) implies exists|i: int|
                0 <= i < t.years@.len() && year_num(#[trigger] t.years@[i]) == y2 by {
                let i = choose|i: int| 0 <= i < ysv.len() && year_num(#[trigger] ysv[i]) == y2;
                assert(year_num(t.years@[i]) == y2);
            }
            assert forall|d: Date|
                #![trigger d.valid()]
                d.valid() && ym.dom().contains(d.year as int) implies exists|i: int|
                0 <= i < t.contributions@.len() && contrib_date(#[trigger] t.contributions@[i])
                    == Some(d) by {
                assert((d.year as int) < 10000);
                let i = choose|i: int|
                    0 <= i < csv2.len() && contrib_date(#[trigger] csv2[i]) == Some(d);
                assert(contrib_date(t.contributions@[i]) == Some(d));
            }
            if state.balanced() {
                assert forall|i: int| 0 <= i < t.contributions@.len() implies contrib_rec_ok(
                    #[trigger] t.contributions@[i],
                ) by {
                    let c = t.contributions@[i];
                    assert(contrib_matches(c, ym, dm));
                    match contrib_date(c) {
                        Some(d) => {
                            crate::dates::lemma_parse_canonical(c.date@, d);
                            crate::dates::lemma_date_str_trim(d);
                            crate::dates::lemma_date_str_roundtrip(d);
                        },
                        None => {},
                    }
                }
                assert forall|i: int| 0 <= i < t.years@.len() implies {
                    let e = #[trigger] t.years@[i];
                    e.total as int == year_total_in(
                        t.contributions@,
                        t.contributions@.len() as int,
                        year_num(e),
                    ) && year_has_rec(
                        t.contributions@,
                        t.contributions@.len() as int,
                        year_num(e),
                    )
                } by {
                    let e = t.years@[i];
                    assert(year_entry_matches(e, ym));
                    let y0 = year_num(e);
                    assert(year_info_ok(y0, ym[y0]));
                    assert(year_total_in(csv2, csv2.len() as int, y0) == ym[y0].total);
                    let jan = Date { year: y0 as usize, month: 1, day: 1 };
                    assert(jan.valid());
                    let j = choose|j: int|
                        0 <= j < csv2.len() && contrib_date(#[trigger] csv2[j]) == Some(jan);
                    let c = csv2[j];
                    crate::dates::lemma_parse_canonical(c.date@, jan);
                    crate::dates::lemma_date_str_trim(jan);
                    crate::dates::lemma_date_str_roundtrip(jan);
                    assert(contrib_is_rec(t.contributions@[j]) && contrib_rec_date(
                        t.contributions@[j],
                    ).year as int == y0);
                }
            }
        }
        Ok(t)
    }
}

// ---------------------------------------------------------------------------
// Reading input lines
// ---------------------------------------------------------------------------
/// How an input line is read.
#[derive(Clone, Copy, Debug, PartialEq, Eq, Structural)]
pub enum Mode {
    /// Each non-blank line holds a bare `YYYY-MM-DD` date, meaning a count
    /// of one.
    DateOnly,
    /// Each non-blank line holds a decimal count and a `YYYY-MM-DD` date,
    /// separated by whitespace.
    CountDate,
}

/// A non-blank line decomposes into the fields its mode expects.
pub open spec fn line_ok(m: Mode, l: Seq<char>) -> bool {
    match m {
        Mode::DateOnly => trim_seq(l).len() == 0 || parse_date_seq(trim_seq(l)) is Some,
        Mode::CountDate => {
            let f = fields_of(l);
            ||| f.len() == 0
            ||| (f.len() == 2 && all_digits(f[0]) && digits_val(f[0]) <= usize::MAX
                && parse_date_seq(f[1]) is Some)
        },
    }
}

/// The line holds a record (it is well shaped and not blank).
pub open spec fn line_is_rec(m: Mode, l: Seq<char>) -> bool {
    match m {
        Mode::DateOnly => parse_date_seq(trim_seq(l)) is Some,
        Mode::CountDate => line_ok(m, l) && fields_of(l).len() > 0,
    }
}

/// The date of a record line.
pub open spec fn line_date(m: Mode, l: Seq<char>) -> Date {
    let parsed = match m {
        Mode::DateOnly => parse_date_seq(trim_seq(l)),
        Mode::CountDate => parse_date_seq(fields_of(l)[1]),
    };
    match parsed {
        Some(d) => d,
        None => Date { year: 0, month: 0, day: 0 },
    }
}

/// The count of a record line.
pub open spec fn line_count(m: Mode, l: Seq<char>) -> int {
    match m {
        Mode::DateOnly => 1,
        Mode::CountDate => digits_val(fields_of(l)[0]),
    }
}

/// Whether a record dated `d` is kept under the configured bounds: records
/// on or after `before` and records on or before `after` are dropped.
pub open spec fn in_range(before: Option<Date>, after: Option<Date>, d: Date) -> bool {
    (match before {
        Some(b) => !b.le(d),
        None => true,
    }) && (match after {
        Some(a) => !d.le(a),
        None => true,
    })
}

/// The per-year map after the first `k` lines, starting from `base`.
pub open spec fn acc_years(
    base: Map<int, YearInfo>,
    m: Mode,
    ls: Seq<Seq<char>>,
    k: int,
    b: Option<Date>,
    a: Option<Date>,
) -> Map<int, YearInfo>
    decreases k,
{
    if k <= 0 {
        base
    } else {
        let prev = acc_years(base, m, ls, k - 1, b, a);
        let l = ls[k - 1];
        if line_is_rec(m, l) && in_range(b, a, line_date(m, l)) {
            upd_years(prev, line_date(m, l), line_count(m, l))
        } else {
            prev
        }
    }
}

/// The per-day map after the first `k` lines, starting from `base`.
pub open spec fn acc_days(
    base: Map<Date, int>,
    m: Mode,
    ls: Seq<Seq<char>>,
    k: int,
    b: Option<Date>,
    a: Option<Date>,
) -> Map<Date, int>
    decreases k,
{
    if k <= 0 {
        base
    } else {
        let prev = acc_days(base, m, ls, k - 1, b, a);
        let l = ls[k - 1];
        if line_is_rec(m, l) && in_range(b, a, line_date(m, l)) {
            upd_days(prev, line_date(m, l), line_count(m, l))
        } else {
            prev
        }
    }
}

/// The first `k` lines are all well shaped.
pub open spec fn prefix_ok(m: Mode, ls: Seq<Seq<char>>, k: int) -> bool {
    forall|i: int| 0 <= i < k ==> line_ok(m, #[trigger] ls[i])
}

/// Applying line `l` to the given maps stays within the machine integers.
pub open spec fn step_fits(
    ym: Map<int, YearInfo>,
    dm: Map<Date, int>,
    m: Mode,
    l: Seq<char>,
    b: Option<Date>,
    a: Option<Date>,
) -> bool {
    line_is_rec(m, l) && in_range(b, a, line_date(m, l)) ==> !day_count_overflows(
        dm,
        line_date(m, l),
        line_count(m, l),
    ) && !year_total_overflows(ym, line_date(m, l), line_count(m, l))
}

/// Applying the first `k` lines stays within the machine integers.
pub open spec fn prefix_fits(
    bym: Map<int, YearInfo>,
    bdm: Map<Date, int>,
    m: Mode,
    ls: Seq<Seq<char>>,
    k: int,
    b: Option<Date>,
    a: Option<Date>,
) -> bool {
    forall|i: int|
        0 <= i < k ==> step_fits(
            acc_years(bym, m, ls, i, b, a),
            acc_days(bdm, m, ls, i, b, a),
            m,
            #[trigger] ls[i],
            b,
            a,
        )
}

/// The whole input is well shaped, fits the machine integers, and every
/// observed year has a positive day count.
pub open spec fn parse_ok_spec(
    bym: Map<int, YearInfo>,
    bdm: Map<Date, int>,
    m: Mode,
    ls: Seq<Seq<char>>,
    b: Option<Date>,
    a: Option<Date>,
) -> bool {
    &&& prefix_ok(m, ls, ls.len() as int)
    &&& prefix_fits(bym, bdm, m, ls, ls.len() as int, b, a)
    &&& all_years_positive(
        acc_years(bym, m, ls, ls.len() as int, b, a),
        acc_days(bdm, m, ls, ls.len() as int, b, a),
    )
}

proof fn lemma_acc_step_skip(
    bym: Map<int, YearInfo>,
    bdm: Map<Date, int>,
    m: Mode,
    ls: Seq<Seq<char>>,
    k: int,
    b: Option<Date>,
    a: Option<Date>,
)
    requires
        0 <= k,
        !(line_is_rec(m, ls[k]) && in_range(b, a, line_date(m, ls[k]))),
    ensures
        acc_years(bym, m, ls, k + 1, b, a) == acc_years(bym, m, ls, k, b, a),
        acc_days(bdm, m, ls, k + 1, b, a) == acc_days(bdm, m, ls, k, b, a),
{
}

proof fn lemma_acc_step_rec(
    bym: Map<int, YearInfo>,
    bdm: Map<Date, int>,
    m: Mode,
    ls: Seq<Seq<char>>,
    k: int,
    b: Option<Date>,
    a: Option<Date>,
)
    requires
        0 <= k,
        line_is_rec(m, ls[k]),
        in_range(b, a, line_date(m, ls[k])),
    ensures
        acc_years(bym, m, ls, k + 1, b, a) == upd_years(
            acc_years(bym, m, ls, k, b, a),
            line_date(m, ls[k]),
            line_count(m, ls[k]),
        ),
        acc_days(bdm, m, ls, k + 1, b, a) == upd_days(
            acc_days(bdm, m, ls, k, b, a),
            line_date(m, ls[k]),
            line_count(m, ls[k]),
        ),
{
}

proof fn lemma_prefix_ok_extend(m: Mode, ls: Seq<Seq<char>>, k: int)
    requires
        0 <= k,
        prefix_ok(m, ls, k),
        line_ok(m, ls[k]),
    ensures
        prefix_ok(m, ls, k + 1),
{
    assert forall|i: int| 0 <= i < k + 1 implies line_ok(m, #[trigger] ls[i]) by {
        if i == k {
            assert(line_ok(m, ls[k]));
        }
    }
}

proof fn lemma_prefix_fits_extend(
    bym: Map<int, YearInfo>,
    bdm: Map<Date, int>,
    m: Mode,
    ls: Seq<Seq<char>>,
    k: int,
    b: Option<Date>,
    a: Option<Date>,
)
    requires
        0 <= k,
        prefix_fits(bym, bdm, m, ls, k, b, a),
        step_fits(acc_years(bym, m, ls, k, b, a), acc_days(bdm, m, ls, k, b, a), m, ls[k], b, a),
    ensures
        prefix_fits(bym, bdm, m, ls, k + 1, b, a),
{
    assert forall|i: int| 0 <= i < k + 1 implies step_fits(
        acc_years(bym, m, ls, i, b, a),
        acc_days(bdm, m, ls, i, b, a),
        m,
        #[trigger] ls[i],
        b,
        a,
    ) by {
        if i == k {
            assert(step_fits(
                acc_years(bym, m, ls, k, b, a),
                acc_days(bdm, m, ls, k, b, a),
                m,
                ls[k],
                b,
                a,
            ));
        }
    }
}

/// Value of an all-digit run, refused when it does not fit the machine
/// integer.
fn parse_count(s: &str) -> (r: Option<usize>)
    ensures
        r is Some <==> all_digits(s@) && digits_val(s@) <= usize::MAX,
        r matches Some(n) ==> n as int == digits_val(s@),
{
    let len = s.unicode_len();
    let mut acc: usize = 0;
    let mut i: usize = 0;
    while i < len
        invariant
            0 <= i <= len,
            len == s@.len(),
            all_digits(s@.subrange(0, i as int)),
            acc as int == digits_val(s@.subrange(0, i as int)),
        decreases len - i,
    {
        let c = s.get_char(i);
        let u = c as u32;
        if u < 48 || u > 57 {
            proof {
                assert(!crate::dates::is_digit_char(s@[i as int]));
            }
            return None;
        }
        let d = (u - 48) as usize;
        proof {
            assert(s@.subrange(0, (i + 1) as int).drop_last() =~= s@.subrange(0, i as int));
            assert(s@.subrange(0, (i + 1) as int).last() == s@[i as int]);
        }
        if acc > (usize::MAX - d) / 10 {
            proof {
                let m = usize::MAX as int;
                let dd = d as int;
                let q = (m - dd) / 10;
                assert(q * 10 + (m - dd) % 10 == m - dd);
                assert(acc as int * 10 + dd > m);
                assert(digits_val(s@.subrange(0, (i + 1) as int)) > m);
                if all_digits(s@) {
                    crate::dates::lemma_digits_val_prefix_le(s@, i + 1, s@.len() as int);
                    assert(s@.subrange(0, s@.len() as int) =~= s@);
                }
            }
            return None;
        }
        proof {
            let m = usize::MAX as int;
            let dd = d as int;
            let q = (m - dd) / 10;
            assert(q * 10 + (m - dd) % 10 == m - dd);
            assert(acc as int * 10 + dd <= m);
        }
        acc = acc * 10 + d;
        i = i + 1;
    }
    proof {
        assert(s@.subrange(0, len as int) =~= s@);
    }
    Some(acc)
}

/// Reads one input line under the given mode: a skipped blank line, a
/// record, or a malformed-record error naming the line.
fn classify_line(mode: Mode, line: &str) -> (r: Result<Option<(Date, usize)>, Error>)
    ensures
        match r {
            Ok(opt) => line_ok(mode, line@) && (match opt {
                Some(rec) => line_is_rec(mode, line@) && line_date(mode, line@) == rec.0
                    && line_count(mode, line@) == rec.1 as int && rec.0.valid(),
                None => !line_is_rec(mode, line@),
            }),
            Err(e) => !line_ok(mode, line@) && (e matches Error::MalformedRecord(l) && l@
                == line@),
        },
{
    match mode {
        Mode::DateOnly => {
            match crate::dates::parse_date(line) {
                Ok(Some(d)) => Ok(Some((d, 1))),
                Ok(None) => Ok(None),
                Err(e) => Err(e),
            }
        },
        Mode::CountDate => {
            let fs = field_slices(line);
            if fs.len() == 0 {
                Ok(None)
            } else if fs.len() != 2 {
                proof {
                    assert(fields_of(line@).len() == fs@.len());
                }
                Err(Error::MalformedRecord(line.to_owned()))
            } else {
                proof {
                    assert(fs@[0]@ == fields_of(line@)[0]);
                    assert(fs@[1]@ == fields_of(line@)[1]);
                }
                let count = match parse_count(fs[0]) {
                    Some(c) => c,
                    None => {
                        return Err(Error::MalformedRecord(line.to_owned()));
                    },
                };
                match crate::dates::date_from_str(fs[1]) {
                    Some(d) => Ok(Some((d, count))),
                    None => Err(Error::MalformedRecord(line.to_owned())),
                }
            }
        },
    }
}

/// A parser that turns an activity log into a timeline.
pub struct Parser {
    input: String,
    state: ParseState,
    mode: Mode,
}

impl Parser {
    pub closed spec fn input_spec(self) -> Seq<char> {
        self.input@
    }

    pub closed spec fn mode_spec(self) -> Mode {
        self.mode
    }

    pub closed spec fn years_model(self) -> Map<int, YearInfo> {
        self.state.years_model()
    }

    pub closed spec fn days_model(self) -> Map<Date, int> {
        self.state.days_model()
    }

    pub closed spec fn before_spec(self) -> Option<Date> {
        self.state.before_spec()
    }

    pub closed spec fn after_spec(self) -> Option<Date> {
        self.state.after_spec()
    }

    pub closed spec fn wf(self) -> bool {
        self.state.wf() && self.state.balanced()
    }

    /// Create a new parser that analyzes the given input, reading each
    /// line as a bare date.
    pub fn new(input: String) -> (p: Parser)
        ensures
            p.wf(),
            p.input_spec() == input@,
            p.mode_spec() == Mode::DateOnly,
            p.years_model() == Map::<int, YearInfo>::empty(),
            p.days_model() == Map::<Date, int>::empty(),
            p.before_spec() is None,
            p.after_spec() is None,
    {
        Parser { input, state: ParseState::new(), mode: Mode::DateOnly }
    }

    /// Choose how input lines are read.
    pub fn set_mode(&mut self, mode: Mode)
        ensures
            final(self).mode_spec() == mode,
            final(self).input_spec() == old(self).input_spec(),
            final(self).years_model() == old(self).years_model(),
            final(self).days_model() == old(self).days_model(),
            final(self).before_spec() == old(self).before_spec(),
            final(self).after_spec() == old(self).after_spec(),
            final(self).wf() == old(self).wf(),
    {
        self.mode = mode;
    }

    /// Set the upper date bound: records on or after the given date are
    /// dropped. A blank text leaves the bound unchanged.
    pub fn set_before(&mut self, before: String) -> (r: Result<(), Error>)
        requires
            old(self).wf(),
        ensures
            final(self).wf(),
            final(self).input_spec() == old(self).input_spec(),
            final(self).mode_spec() == old(self).mode_spec(),
            final(self).years_model() == old(self).years_model(),
            final(self).days_model() == old(self).days_model(),
            final(self).after_spec() == old(self).after_spec(),
            match r {
                Ok(()) => final(self).before_spec() == (if trim_seq(before@).len() == 0 {
                    old(self).before_spec()
                } else {
                    parse_date_seq(trim_seq(before@))
                }) && (trim_seq(before@).len() > 0 ==> parse_date_seq(trim_seq(before@)) is Some),
                Err(e) => {
                    &&& trim_seq(before@).len() > 0
                    &&& parse_date_seq(trim_seq(before@)) is None
                    &&& (e matches Error::MalformedRecord(l) && l@ == before@)
                    &&& final(self).before_spec() == old(self).before_spec()
                },
            },
    {
        match crate::dates::parse_date(before.as_str()) {
            Ok(Some(d)) => {
                self.state.before = Some(d);
                proof {
                    assert forall|y: int| (if self.state.years_model().dom().contains(y) {
                        self.state.years_model()[y].total
                    } else {
                        0
                    }) == #[trigger] self.state.year_sum(y) by {
                        assert(self.state.year_sum(y) == old(self).state.year_sum(y));
                    }
                }
                Ok(())
            },
            Ok(None) => Ok(()),
            Err(e) => Err(e),
        }
    }

    /// Set the lower date bound: records on or before the given date are
    /// dropped. A blank text leaves the bound unchanged.
    pub fn set_after(&mut self, after: String) -> (r: Result<(), Error>)
        requires
            old(self).wf(),
        ensures
            final(self).wf(),
            final(self).input_spec() == old(self).input_spec(),
            final(self).mode_spec() == old(self).mode_spec(),
            final(self).years_model() == old(self).years_model(),
            final(self).days_model() == old(self).days_model(),
            final(self).before_spec() == old(self).before_spec(),
            match r {
                Ok(()) => final(self).after_spec() == (if trim_seq(after@).len() == 0 {
                    old(self).after_spec()
                } else {
                    parse_date_seq(trim_seq(after@))
                }) && (trim_seq(after@).len() > 0 ==> parse_date_seq(trim_seq(after@)) is Some),
                Err(e) => {
                    &&& trim_seq(after@).len() > 0
                    &&& parse_date_seq(trim_seq(after@)) is None
                    &&& (e matches Error::MalformedRecord(l) && l@ == after@)
                    &&& final(self).after_spec() == old(self).after_spec()
                },
            },
    {
        match crate::dates::parse_date(after.as_str()) {
            Ok(Some(d)) => {
                self.state.after = Some(d);
                proof {
                    assert forall|y: int| (if self.state.years_model().dom().contains(y) {
                        self.state.years_model()[y].total
                    } else {
                        0
                    }) == #[trigger] self.state.year_sum(y) by {
                        assert(self.state.year_sum(y) == old(self).state.year_sum(y));
                    }
                }
                Ok(())
            },
            Ok(None) => Ok(()),
            Err(e) => Err(e),
        }
    }

    fn out_of_range(&self, day: Date) -> (r: bool)
        ensures
            r == !in_range(self.before_spec(), self.after_spec(), day),
    {
        if let Some(before) = self.state.before {
            if crate::dates::date_le(&before, &day) {
                return true;
            }
        }
        if let Some(after) = self.state.after {
            if crate::dates::date_le(&day, &after) {
                return true;
            }
        }
        false
    }

    /// Execute the parsing step: read every line, accumulate the records
    /// that fall inside the configured bounds, and build the timeline.
    #[verifier::rlimit(100)]
    pub fn parse(&mut self) -> (r: Result<Timeline, Error>)
        requires
            old(self).wf(),
        ensures
            final(self).wf(),
            final(self).input_spec() == old(self).input_spec(),
            final(self).mode_spec() == old(self).mode_spec(),
            final(self).before_spec() == old(self).before_spec(),
            final(self).after_spec() == old(self).after_spec(),
            ({
                let m = old(self).mode_spec();
                let ls = lines_of(old(self).input_spec());
                let b = old(self).before_spec();
                let a = old(self).after_spec();
                let bym = old(self).years_model();
                let bdm = old(self).days_model();
                let n = ls.len() as int;
                &&& (r is Ok <==> parse_ok_spec(bym, bdm, m, ls, b, a))
                &&& match r {
                    Ok(t) => timeline_matches(
                        t,
                        acc_years(bym, m, ls, n, b, a),
                        acc_days(bdm, m, ls, n, b, a),
                    ) && timeline_consistent(t) && final(self).years_model() == acc_years(
                        bym,
                        m,
                        ls,
                        n,
                        b,
                        a,
                    ) && final(self).days_model() == acc_days(bdm, m, ls, n, b, a),
                    Err(e) => match e {
                        Error::MalformedRecord(l) => exists|k: int|
                            0 <= k < n && prefix_ok(m, ls, k) && prefix_fits(
                                bym,
                                bdm,
                                m,
                                ls,
                                k,
                                b,
                                a,
                            ) && !line_ok(m, #[trigger] ls[k]) && l@ == ls[k],
                        Error::Overflow => exists|k: int|
                            0 <= k < n && prefix_ok(m, ls, k + 1) && prefix_fits(
                                bym,
                                bdm,
                                m,
                                ls,
                                k,
                                b,
                                a,
                            ) && !step_fits(
                                acc_years(bym, m, ls, k, b, a),
                                acc_days(bdm, m, ls, k, b, a),
                                m,
                                #[trigger] ls[k],
                                b,
                                a,
                            ),
                        Error::EmptyYear => prefix_ok(m, ls, n) && prefix_fits(
                            bym,
                            bdm,
                            m,
                            ls,
                            n,
                            b,
                            a,
                        ) && !all_years_positive(
                            acc_years(bym, m, ls, n, b, a),
                            acc_days(bdm, m, ls, n, b, a),
                        ),
                        Error::InvalidDate(_) => false,
                    },
                }
            }),
    {
        let ghost m = self.mode;
        let ghost b = self.state.before;
        let ghost a = self.state.after;
        let ghost bym = self.years_model();
        let ghost bdm = self.days_model();
        let input = self.input.clone();
        let ls = line_slices(input.as_str());
        let ghost lsv = lines_of(old(self).input_spec());
        let mut k: usize = 0;
        while k < ls.len()
            invariant
                0 <= k <= ls@.len(),
                ls@.len() == lsv.len(),
                forall|i: int| 0 <= i < ls@.len() ==> (#[trigger] ls@[i])@ == lsv[i],
                self.wf(),
                m == old(self).mode_spec(),
                b == old(self).before_spec(),
                a == old(self).after_spec(),
                bym == old(self).years_model(),
                bdm == old(self).days_model(),
                lsv == lines_of(old(self).input_spec()),
                self.mode == m,
                self.state.before == b,
                self.state.after == a,
                self.input@ == old(self).input@,
                self.years_model() == acc_years(bym, m, lsv, k as int, b, a),
                self.days_model() == acc_days(bdm, m, lsv, k as int, b, a),
                prefix_ok(m, lsv, k as int),
                prefix_fits(bym, bdm, m, lsv, k as int, b, a),
            decreases ls@.len() - k,
        {
            let line = ls[k];
            let ghost lk = lsv[k as int];
            let mode_now = self.mode;
            let rec: Option<(Date, usize)> = match classify_line(mode_now, line) {
                Ok(opt) => opt,
                Err(e) => {
                    proof {
                        assert(!line_ok(m, lsv[k as int]));
                    }
                    return Err(e);
                },
            };
            match rec {
                None => {
                    proof {
                        assert(line_ok(m, lsv[k as int]));
                        assert(!line_is_rec(m, lk));
                        lemma_acc_step_skip(bym, bdm, m, lsv, k as int, b, a);
                    }
                },
                Some((d, count)) => {
                    proof {
                        assert(line_ok(m, lk));
                        assert(line_is_rec(m, lk));
                        assert(line_date(m, lk) == d);
                        assert(line_count(m, lk) == count as int);
                        assert(d.valid());
                    }
                    if self.out_of_range(d) {
                        proof {
                            assert(!in_range(b, a, d));
                            lemma_acc_step_skip(bym, bdm, m, lsv, k as int, b, a);
                        }
                    } else {
                        let ghost pre_state = self.state;
                        if self.state.year_would_overflow(d, count) {
                            proof {
                                assert(!step_fits(
                                    acc_years(bym, m, lsv, k as int, b, a),
                                    acc_days(bdm, m, lsv, k as int, b, a),
                                    m,
                                    lsv[k as int],
                                    b,
                                    a,
                                ));
                            }
                            return Err(Error::Overflow);
                        }
                        if let Err(e) = self.state.update_days(d, count) {
                            proof {
                                assert(!step_fits(
                                    acc_years(bym, m, lsv, k as int, b, a),
                                    acc_days(bdm, m, lsv, k as int, b, a),
                                    m,
                                    lsv[k as int],
                                    b,
                                    a,
                                ));
                            }
                            return Err(e);
                        }
                        if let Err(_e) = self.state.update_years(d, count) {
                            proof {
                                assert(false);
                            }
                            return Err(Error::Overflow);
                        }
                        proof {
                            lemma_acc_step_rec(bym, bdm, m, lsv, k as int, b, a);
                            assert(acc_years(bym, m, lsv, k + 1, b, a) == self.years_model());
                            assert(acc_days(bdm, m, lsv, k + 1, b, a) == self.days_model());
                            lemma_balanced_after_record(pre_state, self.state, d, count as int);
                        }
                    }
                },
            }
            proof {
                lemma_prefix_ok_extend(m, lsv, k as int);
                lemma_prefix_fits_extend(bym, bdm, m, lsv, k as int, b, a);
            }
            k = k + 1;
        }
        let result = Timeline::try_from(&self.state);
        proof {
            assert(lsv.len() as int == ls@.len() as int);
        }
        match result {
            Ok(t) => Ok(t),
            Err(e) => {
                proof {
                    assert(e == Error::EmptyYear);
                }
                Err(e)
            },
        }
    }
}

} // verus!
