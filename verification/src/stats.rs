//! Statistics over the history: the window-size argument, the period the
//! user asks for, and the JSON summary.
use vstd::prelude::*;
use crate::text::{chars_of, join_strings, joined, trim_chars, trimmed, str_eq};

verus! {

/// JSON output format for stats
pub struct StatsJson {
    pub period: String,
    pub total_commands: usize,
    pub unique_commands: usize,
    pub top: Vec<StatsTopJson>,
    pub ngram_size: usize,
}

/// One entry of the list of most-used commands.
pub struct StatsTopJson {
    pub command: String,
    pub count: usize,
}

/// The arguments of `stats`.
pub struct Cmd {
    /// Compute statistics for the specified period, leave blank for statistics since the beginning.
    pub period: Vec<String>,
    /// How many top commands to list
    pub count: usize,
    /// The number of consecutive commands to consider
    pub ngram_size: usize,
    /// Output in JSON format
    pub json: bool,
}

/// The period statistics are computed over.
#[derive(Debug, Clone, Copy, PartialEq, Eq, Structural)]
pub enum StatsPeriod {
    /// The whole history
    All,
    /// Since last midnight, for a day
    Today,
    /// The 31 days before last midnight
    Month,
    /// The 7 days before last midnight
    Week,
    /// The 365 days before last midnight
    Year,
    /// The day starting at a date given in words
    Date,
}

/// The words of the period argument: `all` when none are given, else the
/// arguments joined by single spaces.
pub open spec fn period_words_spec(period: Seq<Seq<char>>) -> Seq<char> {
    if period.len() == 0 {
        "all"@
    } else {
        joined(period, " "@)
    }
}

/// The words of the period argument.
pub fn period_words(period: &Vec<String>) -> (res: String)
    ensures
        res@ == period_words_spec(period@.map_values(|p: String| p@)),
{
    if period.len() == 0 {
        String::from_str("all")
    } else {
        join_strings(period, " ")
    }
}

/// The period the words name: exactly `all`; or, without surrounding white
/// space, `today`, `month`, `week` or `year`; any other words name a date.
pub open spec fn period_of(words: Seq<char>) -> StatsPeriod {
    if words == "all"@ {
        StatsPeriod::All
    } else if trimmed(words) == "today"@ {
        StatsPeriod::Today
    } else if trimmed(words) == "month"@ {
        StatsPeriod::Month
    } else if trimmed(words) == "week"@ {
        StatsPeriod::Week
    } else if trimmed(words) == "year"@ {
        StatsPeriod::Year
    } else {
        StatsPeriod::Date
    }
}

fn chars_eq_str(cs: &Vec<char>, s: &str) -> (res: bool)
    ensures
        res == (cs@ == s@),
{
    let t = chars_of(s);
    if cs.len() != t.len() {
        return false;
    }
    let mut i: usize = 0;
    while i < cs.len()
        invariant
            cs.len() == t.len(),
            t@ == s@,
            i <= cs.len(),
            forall|j: int| 0 <= j < i ==> cs@[j] == t@[j],
        decreases cs.len() - i,
    {
        if cs[i] != t[i] {
            return false;
        }
        i = i + 1;
    }
    assert(cs@ =~= t@);
    true
}

/// The period the words name.
pub fn classify_period(words: &str) -> (res: StatsPeriod)
    ensures
        res == period_of(words@),
{
    if str_eq(words, "all") {
        return StatsPeriod::All;
    }
    let t = trim_chars(words);
    if chars_eq_str(&t, "today") {
        StatsPeriod::Today
    } else if chars_eq_str(&t, "month") {
        StatsPeriod::Month
    } else if chars_eq_str(&t, "week") {
        StatsPeriod::Week
    } else if chars_eq_str(&t, "year") {
        StatsPeriod::Year
    } else {
        StatsPeriod::Date
    }
}

/// The range of a named period, as whole days from last midnight: the start
/// and the end (exclusive). None for the whole history and for a date.
pub fn period_days(p: &StatsPeriod) -> (res: Option<(i64, i64)>)
    ensures
        res == match p {
            StatsPeriod::Today => Some((0i64, 1i64)),
            StatsPeriod::Month => Some((-31i64, 0i64)),
            StatsPeriod::Week => Some((-7i64, 0i64)),
            StatsPeriod::Year => Some((-365i64, 0i64)),
            StatsPeriod::All => None::<(i64, i64)>,
            StatsPeriod::Date => None::<(i64, i64)>,
        },
{
    match p {
        StatsPeriod::Today => Some((0, 1)),
        StatsPeriod::Month => Some((-31, 0)),
        StatsPeriod::Week => Some((-7, 0)),
        StatsPeriod::Year => Some((-365, 0)),
        StatsPeriod::All => None,
        StatsPeriod::Date => None,
    }
}

/// The JSON summary of computed statistics: the period's words, the
/// totals, and each top sequence of commands joined by ` | ` with its count.
pub fn stats_json(
    period: String,
    total_commands: usize,
    unique_commands: usize,
    top: &Vec<(Vec<String>, usize)>,
    ngram_size: usize,
) -> (res: StatsJson)
    ensures
        res.period == period,
        res.total_commands == total_commands,
        res.unique_commands == unique_commands,
        res.ngram_size == ngram_size,
        res.top.len() == top.len(),
        forall|k: int| 0 <= k < top.len() ==> {
            &&& (#[trigger] res.top@[k]).command@ == joined(top@[k].0@.map_values(|p: String| p@), " | "@)
            &&& res.top@[k].count == top@[k].1
        },
{
    let mut entries: Vec<StatsTopJson> = Vec::new();
    let mut k: usize = 0;
    while k < top.len()
        invariant
            k <= top.len(),
            entries.len() == k,
            forall|q: int| 0 <= q < k ==> {
                &&& (#[trigger] entries@[q]).command@ == joined(top@[q].0@.map_values(|p: String| p@), " | "@)
                &&& entries@[q].count == top@[q].1
            },
        decreases top.len() - k,
    {
        let command = join_strings(&top[k].0, " | ");
        entries.push(StatsTopJson { command, count: top[k].1 });
        k = k + 1;
    }
    StatsJson { period, total_commands, unique_commands, top: entries, ngram_size }
}

/// The value of a run of decimal digits.
pub open spec fn digits_value(ds: Seq<char>) -> int
    decreases ds.len(),
{
    if ds.len() == 0 {
        0
    } else {
        digits_value(ds.drop_last()) * 10 + (ds.last() as int - '0' as int)
    }
}

pub open spec fn is_digit(c: char) -> bool {
    '0' <= c && c <= '9'
}

pub open spec fn all_digits(ds: Seq<char>) -> bool {
    forall|i: int| 0 <= i < ds.len() ==> is_digit(#[trigger] ds[i])
}

/// The digits that `usize`'s `from_str` reads: the text without one leading `+`.
pub open spec fn unsigned_digits(s: Seq<char>) -> Seq<char> {
    if s.len() > 0 && s[0] == '+' {
        s.drop_first()
    } else {
        s
    }
}

/// What `s.parse::<usize>()` gives: `Some` of the value when `s` is an optional
/// `+` followed by at least one decimal digit and nothing else, and the value fits.
pub open spec fn parse_usize(s: Seq<char>) -> Option<int> {
    let ds = unsigned_digits(s);
    if ds.len() > 0 && all_digits(ds) && digits_value(ds) <= usize::MAX {
        Some(digits_value(ds))
    } else {
        None
    }
}

/// The error `parse_ngram_size` gives for text that is no number.
pub open spec fn not_a_size_message(s: Seq<char>) -> Seq<char> {
    "'"@ + s + "' is not a valid window size"@
}

proof fn lemma_digits_value_nonneg(ds: Seq<char>)
    requires
        all_digits(ds),
    ensures
        digits_value(ds) >= 0,
    decreases ds.len(),
{
    if ds.len() > 0 {
        lemma_digits_value_nonneg(ds.drop_last());
    }
}

/// The value of a digit string only grows as digits are appended.
proof fn lemma_digits_value_grows(ds: Seq<char>, k: int)
    requires
        all_digits(ds),
        0 <= k <= ds.len(),
    ensures
        digits_value(ds.take(k)) <= digits_value(ds),
    decreases ds.len() - k,
{
    if k < ds.len() {
        lemma_digits_value_grows(ds, k + 1);
        assert(ds.take(k + 1).drop_last() =~= ds.take(k));
        lemma_digits_value_nonneg(ds.take(k));
        assert(is_digit(ds[k]));
        assert(ds.take(k + 1).last() == ds[k]);
    } else {
        assert(ds.take(k) =~= ds);
    }
}

/// Parses the n-gram window size: a decimal number of at least 1.
pub fn parse_ngram_size(s: &str) -> (res: Result<usize, String>)
    ensures
        match parse_usize(s@) {
            None => res matches Err(e) && e@ == not_a_size_message(s@),
            Some(v) => if v == 0 {
                res matches Err(e) && e@ == "ngram window size must be at least 1"@
            } else {
                res == Ok::<usize, String>(v as usize)
            },
        },
{
    let cs = chars_of(s);
    let n = cs.len();
    let start: usize = if n > 0 && cs[0] == '+' { 1 } else { 0 };
    let ghost ds = unsigned_digits(s@);
    assert(ds =~= cs@.skip(start as int));
    let mut ok = start < n;
    let mut value: usize = 0;
    let mut i = start;
    while i < n
        invariant
            cs@ == s@,
            n == cs@.len(),
            start <= i <= n,
            ds =~= cs@.skip(start as int),
            ok ==> all_digits(ds.take(i - start)),
            ok ==> value == digits_value(ds.take(i - start)),
            !ok ==> (ds.len() == 0 || !all_digits(ds) || digits_value(ds) > usize::MAX),
            start < n || !ok,
        decreases n - i,
    {
        let c = cs[i];
        let ghost k = i - start;
        assert(ds.take(k + 1).drop_last() =~= ds.take(k));
        assert(ds[k] == c);
        if ok {
            if '0' <= c && c <= '9' {
                let d = (c as u32 - '0' as u32) as usize;
                match value.checked_mul(10) {
                    Some(v10) => match v10.checked_add(d) {
                        Some(v) => {
                            value = v;
                            assert(all_digits(ds.take(k + 1)));
                        },
                        None => {
                            ok = false;
                            proof {
                                if all_digits(ds) {
                                    assert(all_digits(ds.take(k + 1)));
                                    lemma_digits_value_grows(ds, k + 1);
                                }
                            }
                        },
                    },
                    None => {
                        ok = false;
                        proof {
                            if all_digits(ds) {
                                assert(all_digits(ds.take(k + 1)));
                                lemma_digits_value_nonneg(ds.take(k));
                                lemma_digits_value_grows(ds, k + 1);
                            }
                        }
                    },
                }
            } else {
                ok = false;
                assert(!is_digit(ds[k]));
            }
        }
        i = i + 1;
    }
    if ok {
        assert(ds.take(n - start) =~= ds);
    }
    if !ok {
        let mut e = String::from_str("'");
        e.append(s);
        e.append("' is not a valid window size");
        return Err(e);
    }
    if value == 0 {
        return Err(String::from_str("ngram window size must be at least 1"));
    }
    Ok(value)
}

/// Nanoseconds in a day.
pub open spec fn day_nanos() -> int {
    86_400_000_000_000
}

/// The last midnight at or before instant `now` (nanoseconds since the Unix
/// epoch), at the local offset of `offset_seconds` seconds from UTC.
pub open spec fn last_midnight(now: int, offset_seconds: int) -> int {
    let shift = offset_seconds * 1_000_000_000;
    let local = now + shift;
    local - local % day_nanos() - shift
}

/// The instant, in nanoseconds since the Unix epoch, that `interim` reads
/// in `words` relative to the instant `now_nanos` seen at the local offset
/// of `offset_seconds` seconds, in its US dialect or its UK one; none where
/// the words name no date.
pub uninterp spec fn date_from_words(words: Seq<char>, now_nanos: i64, offset_seconds: i32, us_dialect: bool) -> Option<i128>;

/// `interim::parse_date_string(words, now, dialect)` on `time::OffsetDateTime`,
/// where `now` is the instant `now_nanos` at the offset `offset_seconds`
/// (`None` where `time` cannot build that offset or instant), the result
/// taken as nanoseconds since the Unix epoch. The contract claims that the
/// result is a function of the arguments and, being an `OffsetDateTime`
/// (years -9999 to 9999), lies within 10^21 nanoseconds of the epoch.
#[verifier::external_body]
fn parse_date_words(words: &str, now_nanos: i64, offset_seconds: i32, us_dialect: bool) -> (res: Option<i128>)
    ensures
        res == date_from_words(words@, now_nanos, offset_seconds, us_dialect),
        res matches Some(v) ==> -1_000_000_000_000_000_000_000 < v < 1_000_000_000_000_000_000_000,
{
    let Ok(offset) = time::UtcOffset::from_whole_seconds(offset_seconds) else { return None };
    let Ok(now) = time::OffsetDateTime::from_unix_timestamp_nanos(now_nanos as i128) else { return None };
    let Some(now) = now.checked_to_offset(offset) else { return None };
    let dialect = if us_dialect { interim::Dialect::Us } else { interim::Dialect::Uk };
    interim::parse_date_string(words, now, dialect).ok().map(|d| d.unix_timestamp_nanos())
}

/// The history a period covers.
#[derive(Debug, Clone, Copy, PartialEq, Eq, Structural)]
pub enum PeriodRange {
    /// The whole history.
    Everything,
    /// The entries from the first instant up to the second (exclusive), in
    /// nanoseconds since the Unix epoch.
    Between(i128, i128),
    /// The words name no period and no date.
    Unreadable,
}

/// The history the period words cover at instant `now`: everything for
/// `all`; for `today`, `week`, `month` and `year` the days counted from the
/// last local midnight; for other words the day that starts at the date
/// they name.
pub open spec fn period_range(words: Seq<char>, now: i64, offset_seconds: i32, us_dialect: bool) -> PeriodRange {
    let midnight = last_midnight(now as int, offset_seconds as int);
    match period_of(words) {
        StatsPeriod::All => PeriodRange::Everything,
        StatsPeriod::Today => PeriodRange::Between(midnight as i128, (midnight + day_nanos()) as i128),
        StatsPeriod::Week => PeriodRange::Between((midnight - 7 * day_nanos()) as i128, midnight as i128),
        StatsPeriod::Month => PeriodRange::Between((midnight - 31 * day_nanos()) as i128, midnight as i128),
        StatsPeriod::Year => PeriodRange::Between((midnight - 365 * day_nanos()) as i128, midnight as i128),
        StatsPeriod::Date => match date_from_words(words, now, offset_seconds, us_dialect) {
            Some(start) => PeriodRange::Between(start, (start + day_nanos()) as i128),
            None => PeriodRange::Unreadable,
        },
    }
}

/// The last local midnight at or before `now`.
fn midnight_before(now: i64, offset_seconds: i32) -> (res: i128)
    requires
        -100_000 < offset_seconds < 100_000,
    ensures
        res == last_midnight(now as int, offset_seconds as int),
{
    let shift: i128 = offset_seconds as i128 * 1_000_000_000;
    let local: i128 = now as i128 + shift;
    // a whole number of days that makes every local time positive
    let lift: i128 = 200_000 * 86_400_000_000_000;
    let lifted: i128 = local + lift;
    assert(lifted > 0);
    let r: i128 = lifted % 86_400_000_000_000;
    proof {
        vstd::arithmetic::div_mod::lemma_mod_multiples_vanish(200_000, local as int, 86_400_000_000_000);
        assert(lifted as int == 86_400_000_000_000 * 200_000 + local as int);
    }
    local - r - shift
}

/// The history the period words cover at instant `now` (nanoseconds since
/// the Unix epoch), at the local offset of `offset_seconds` seconds from UTC,
/// dates read in the US dialect or the UK one.
pub fn stats_range(words: &str, now: i64, offset_seconds: i32, us_dialect: bool) -> (res: PeriodRange)
    requires
        -100_000 < offset_seconds < 100_000,
    ensures
        res == period_range(words@, now, offset_seconds, us_dialect),
{
    let midnight = midnight_before(now, offset_seconds);
    let day: i128 = 86_400_000_000_000;
    match classify_period(words) {
        StatsPeriod::All => PeriodRange::Everything,
        StatsPeriod::Today => PeriodRange::Between(midnight, midnight + day),
        StatsPeriod::Week => PeriodRange::Between(midnight - 7 * day, midnight),
        StatsPeriod::Month => PeriodRange::Between(midnight - 31 * day, midnight),
        StatsPeriod::Year => PeriodRange::Between(midnight - 365 * day, midnight),
        StatsPeriod::Date => match parse_date_words(words, now, offset_seconds, us_dialect) {
            Some(start) => PeriodRange::Between(start, start + day),
            None => PeriodRange::Unreadable,
        },
    }
}

/// The local midnight at or before `now`: at the local offset it falls on a
/// whole day, it is not after `now`, and `now` is within a day of it.
pub open spec fn is_local_midnight_before(m: int, now: int, offset_seconds: int) -> bool {
    &&& (m + offset_seconds * 1_000_000_000) % 86_400_000_000_000 == 0
    &&& m <= now < m + 86_400_000_000_000
}

/// The last local midnight is a midnight at the local offset, at or before
/// `now`, less than a day before it; there is only one such instant.
pub proof fn law_last_midnight(now: int, offset_seconds: int, other: int)
    ensures
        is_local_midnight_before(last_midnight(now, offset_seconds), now, offset_seconds),
        is_local_midnight_before(other, now, offset_seconds) ==> other == last_midnight(now, offset_seconds),
{
    let d: int = 86_400_000_000_000;
    let shift = offset_seconds * 1_000_000_000;
    let local = now + shift;
    let m = last_midnight(now, offset_seconds);
    vstd::arithmetic::div_mod::lemma_fundamental_div_mod(local, d);
    vstd::arithmetic::div_mod::lemma_mod_bound(local, d);
    assert(m + shift == d * (local / d));
    vstd::arithmetic::div_mod::lemma_mod_multiples_basic(local / d, d);
    assert((local / d) * d == d * (local / d)) by (nonlinear_arith);
    if is_local_midnight_before(other, now, offset_seconds) {
        let o = other + shift;
        vstd::arithmetic::div_mod::lemma_fundamental_div_mod(o, d);
        let q1 = local / d;
        let q2 = o / d;
        assert(o == d * q2);
        assert(m + shift == d * q1);
        // both are multiples of a day within a day below `local`
        assert(o <= local < o + d);
        assert(d * q1 <= local < d * q1 + d);
        assert(q1 == q2) by (nonlinear_arith)
            requires
                d > 0,
                d * q2 <= local < d * q2 + d,
                d * q1 <= local < d * q1 + d,
        ;
    }
}

/// The named periods in terms of the last local midnight `m` (see
/// [`law_last_midnight`]): `today` is the day from `m`; `week`, `month` and
/// `year` are the 7, 31 and 365 days that end at `m`; `all` is everything.
pub proof fn law_period_ranges(words: Seq<char>, now: i64, offset_seconds: i32, us_dialect: bool)
    requires
        -100_000 < offset_seconds < 100_000,
    ensures
        ({
            let r = period_range(words, now, offset_seconds, us_dialect);
            let d: int = 86_400_000_000_000;
            &&& period_of(words) == StatsPeriod::All ==> r == PeriodRange::Everything
            &&& period_of(words) == StatsPeriod::Today ==> (r matches PeriodRange::Between(a, b)
                && is_local_midnight_before(a as int, now as int, offset_seconds as int) && b == a + d)
            &&& period_of(words) == StatsPeriod::Week ==> (r matches PeriodRange::Between(a, b)
                && is_local_midnight_before(b as int, now as int, offset_seconds as int) && a == b - 7 * d)
            &&& period_of(words) == StatsPeriod::Month ==> (r matches PeriodRange::Between(a, b)
                && is_local_midnight_before(b as int, now as int, offset_seconds as int) && a == b - 31 * d)
            &&& period_of(words) == StatsPeriod::Year ==> (r matches PeriodRange::Between(a, b)
                && is_local_midnight_before(b as int, now as int, offset_seconds as int) && a == b - 365 * d)
        }),
{
    law_last_midnight(now as int, offset_seconds as int, 0);
    let m = last_midnight(now as int, offset_seconds as int);
    assert(m - 365 * 86_400_000_000_000 >= i128::MIN && m + 86_400_000_000_000 <= i128::MAX);
}

} // verus!
