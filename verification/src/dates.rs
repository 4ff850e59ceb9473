//! Dates in file names and front matter, as day numbers.

use crate::ast::{Document, DocumentView};
use crate::ordered::lookup;
use crate::text::{chars_of, digits_value, is_digit, slice_text};
use crate::value::{Yaml, YamlView};
use chrono::{Datelike, NaiveDate};
use vstd::arithmetic::div_mod::{lemma_fundamental_div_mod, lemma_fundamental_div_mod_converse};
use vstd::prelude::*;

verus! {

/// Whether a year has a 29 February.
pub open spec fn is_leap(year: int) -> bool {
    year % 4 == 0 && (year % 100 != 0 || year % 400 == 0)
}

/// The number of days of a month.
pub open spec fn month_days(year: int, month: int) -> int {
    if month == 2 {
        if is_leap(year) {
            29
        } else {
            28
        }
    } else if month == 4 || month == 6 || month == 9 || month == 11 {
        30
    } else {
        31
    }
}

/// The number of days of a year before a month.
pub open spec fn days_before_month(year: int, month: int) -> int
    decreases month,
{
    if month <= 1 {
        0
    } else {
        days_before_month(year, month - 1) + month_days(year, month - 1)
    }
}

/// Whether the calendar has such a day.
pub open spec fn is_calendar_day(year: int, month: int, day: int) -> bool {
    1 <= month <= 12 && 1 <= day <= month_days(year, month)
}

/// The number of a day, where 1 January of the year 1 has the number 1.
pub open spec fn day_number(year: int, month: int, day: int) -> int {
    let y = year - 1;
    365 * y + y / 4 - y / 100 + y / 400 + days_before_month(year, month) + day
}

/// `NaiveDate::from_ymd_opt` and `Datelike::num_days_from_ce`: the number of
/// a day of the Gregorian calendar, `None` where the calendar has no such
/// day.
#[verifier::external_body]
fn calendar_day(year: i32, month: u32, day: u32) -> (r: Option<i32>)
    requires
        0 <= year <= 9999,
    ensures
        match r {
            Some(n) => is_calendar_day(year as int, month as int, day as int) && n == day_number(
                year as int,
                month as int,
                day as int,
            ),
            None => !is_calendar_day(year as int, month as int, day as int),
        },
{
    match NaiveDate::from_ymd_opt(year, month, day) {
        Some(d) => Some(d.num_days_from_ce()),
        None => None,
    }
}

/// The number of the day that a text in the form `%Y-%m-%d` names.
pub uninterp spec fn text_day(s: Seq<char>) -> Option<i32>;

/// `NaiveDate::parse_from_str` with `%Y-%m-%d`: the number of the day that
/// the text names, `None` for its error. It depends on the text alone.
#[verifier::external_body]
fn parse_day(s: &str) -> (r: Option<i32>)
    ensures
        r == text_day(s@),
{
    match NaiveDate::parse_from_str(s, "%Y-%m-%d") {
        Ok(d) => Some(d.num_days_from_ce()),
        Err(_) => None,
    }
}

/// Whether the ten characters of `s` from `i` on have the form `YYYY-MM-DD`.
pub open spec fn is_dated(s: Seq<char>, i: int) -> bool {
    &&& 0 <= i
    &&& i + 10 <= s.len()
    &&& is_digit(s[i]) && is_digit(s[i + 1]) && is_digit(s[i + 2]) && is_digit(s[i + 3])
    &&& s[i + 4] == '-'
    &&& is_digit(s[i + 5]) && is_digit(s[i + 6])
    &&& s[i + 7] == '-'
    &&& is_digit(s[i + 8]) && is_digit(s[i + 9])
}

/// The number of the day that `YYYY-MM-DD` at `i` names; `None` where the
/// calendar has no such day.
pub open spec fn day_at(s: Seq<char>, i: int) -> Option<int> {
    let y = digits_value(s.subrange(i, i + 4));
    let m = digits_value(s.subrange(i + 5, i + 7));
    let d = digits_value(s.subrange(i + 8, i + 10));
    if is_calendar_day(y, m, d) {
        Some(day_number(y, m, d))
    } else {
        None
    }
}

/// The day of the first `YYYY-MM-DD` in `s` at or behind `i`.
pub open spec fn first_day(s: Seq<char>, i: int) -> Option<int>
    decreases s.len() - i,
{
    if i + 10 > s.len() {
        None
    } else if is_dated(s, i) {
        day_at(s, i)
    } else {
        first_day(s, i + 1)
    }
}

/// The day that a file name holds: its first `YYYY-MM-DD`. A name whose first
/// one is no day of the calendar has none.
pub open spec fn name_day(name: Seq<char>) -> Option<int> {
    first_day(name, 0)
}

/// The content of an optional day.
pub open spec fn option_day(d: Option<i32>) -> Option<int> {
    match d {
        Some(n) => Some(n as int),
        None => None,
    }
}

fn digit_at(v: &Vec<char>, i: usize) -> (r: bool)
    requires
        i < v.len(),
    ensures
        r == is_digit(v@[i as int]),
{
    '0' <= v[i] && v[i] <= '9'
}

fn dated(v: &Vec<char>, i: usize) -> (r: bool)
    requires
        i + 10 <= v.len(),
    ensures
        r == is_dated(v@, i as int),
{
    digit_at(v, i) && digit_at(v, i + 1) && digit_at(v, i + 2) && digit_at(v, i + 3) && v[i + 4]
        == '-' && digit_at(v, i + 5) && digit_at(v, i + 6) && v[i + 7] == '-' && digit_at(v, i + 8)
        && digit_at(v, i + 9)
}

/// The value of the digits `from..to`.
fn value_of(v: &Vec<char>, from: usize, to: usize) -> (r: u32)
    requires
        from <= to <= v.len(),
        to - from <= 4,
        forall|i: int| from <= i < to ==> is_digit(#[trigger] v@[i]),
    ensures
        r == digits_value(v@.subrange(from as int, to as int)),
        to - from == 4 ==> r <= 9999,
{
    let ghost s = v@.subrange(from as int, to as int);
    let mut acc: u32 = 0;
    let mut i: usize = from;
    assert(s.take(0) =~= Seq::empty());
    while i < to
        invariant
            from <= i <= to <= v.len(),
            to - from <= 4,
            s == v@.subrange(from as int, to as int),
            forall|k: int| from <= k < to ==> is_digit(#[trigger] v@[k]),
            acc == digits_value(s.take(i - from)),
            i - from == 0 ==> acc == 0,
            i - from == 1 ==> acc <= 9,
            i - from == 2 ==> acc <= 99,
            i - from == 3 ==> acc <= 999,
            i - from == 4 ==> acc <= 9999,
        decreases to - i,
    {
        assert(s.take(i - from + 1).drop_last() =~= s.take(i - from));
        assert(s.take(i - from + 1).last() == v@[i as int]);
        assert(is_digit(v@[i as int]));
        let d: u32 = v[i] as u32 - 48;
        acc = acc * 10 + d;
        i += 1;
    }
    assert(s.take(s.len() as int) =~= s);
    acc
}

/// The day of the first `YYYY-MM-DD` in a file name.
pub fn parse_filename_date(name: &str) -> (r: Option<i32>)
    ensures
        option_day(r) == name_day(name@),
{
    let v = chars_of(name);
    let ghost s = name@;
    let mut i: usize = 0;
    while i < v.len() && v.len() - i >= 10
        invariant
            i <= v.len(),
            v@ == s,
            s == name@,
            first_day(s, 0) == first_day(s, i as int),
        decreases v.len() - i,
    {
        if dated(&v, i) {
            let y = value_of(&v, i, i + 4);
            let m = value_of(&v, i + 5, i + 7);
            let d = value_of(&v, i + 8, i + 10);
            return calendar_day(y as i32, m, d);
        }
        i += 1;
    }
    None
}

/// The number of bytes of a character in UTF-8.
pub open spec fn char_width(c: char) -> nat {
    if (c as int) < 0x80 {
        1
    } else if (c as int) < 0x800 {
        2
    } else if (c as int) < 0x10000 {
        3
    } else {
        4
    }
}

/// The number of characters at the start of `s`, from `i` on, that fit into
/// `n` bytes.
pub open spec fn fitting(s: Seq<char>, i: int, n: nat) -> int
    decreases s.len() - i,
{
    if i >= s.len() || char_width(s[i]) > n {
        i
    } else {
        fitting(s, i + 1, (n - char_width(s[i])) as nat)
    }
}

/// The start of `s` that fits into ten bytes.
pub open spec fn date_head(s: Seq<char>) -> Seq<char> {
    s.take(fitting(s, 0, 10))
}

fn width(c: char) -> (r: usize)
    ensures
        r == char_width(c),
{
    let n = c as u32;
    if n < 0x80 {
        1
    } else if n < 0x800 {
        2
    } else if n < 0x10000 {
        3
    } else {
        4
    }
}

fn head(s: &str) -> (r: String)
    ensures
        r@ == date_head(s@),
{
    let v = chars_of(s);
    let mut i: usize = 0;
    let mut n: usize = 10;
    while i < v.len() && width(v[i]) <= n
        invariant
            i <= v.len(),
            v@ == s@,
            fitting(s@, 0, 10) == fitting(s@, i as int, n as nat),
        decreases v.len() - i,
    {
        n = n - width(v[i]);
        i += 1;
    }
    assert(s@.subrange(0, i as int) =~= s@.take(i as int));
    slice_text(&v, 0, i)
}

/// The day of a front matter field, where it is text.
pub open spec fn field_day(fields: Seq<(Seq<char>, YamlView)>, key: Seq<char>) -> Option<i32> {
    match lookup(fields, key) {
        Some(YamlView::Text(s)) => text_day(date_head(s)),
        _ => None,
    }
}

/// The day of a document: that of the first of the fields `date`, `created`,
/// `published` and `updated` that holds one.
pub open spec fn document_day(doc: DocumentView) -> Option<i32> {
    match doc.frontmatter {
        None => None,
        Some(fm) => if field_day(fm.fields, "date"@) is Some {
            field_day(fm.fields, "date"@)
        } else if field_day(fm.fields, "created"@) is Some {
            field_day(fm.fields, "created"@)
        } else if field_day(fm.fields, "published"@) is Some {
            field_day(fm.fields, "published"@)
        } else {
            field_day(fm.fields, "updated"@)
        },
    }
}

fn read_day(fields: &crate::ordered::OrderedMap<Yaml>, key: &str) -> (r: Option<i32>)
    ensures
        r == field_day(crate::ast::fields_view(fields@), key@),
{
    proof {
        crate::ast::lookup_fields(fields@, key@);
    }
    match fields.get(key) {
        Some(Yaml::Text(s)) => {
            let h = head(s.as_str());
            parse_day(h.as_str())
        },
        _ => None,
    }
}

/// The day of a document by its front matter.
pub fn frontmatter_date(doc: &Document) -> (r: Option<i32>)
    ensures
        r == document_day(doc@),
{
    match &doc.frontmatter {
        None => None,
        Some(fm) => {
            if let Some(d) = read_day(&fm.fields, "date") {
                return Some(d);
            }
            if let Some(d) = read_day(&fm.fields, "created") {
                return Some(d);
            }
            if let Some(d) = read_day(&fm.fields, "published") {
                return Some(d);
            }
            read_day(&fm.fields, "updated")
        },
    }
}

/// Whether a day lies at most `days` days before today, or later.
pub fn is_recent(day: i32, today: i32, days: i64) -> (r: bool)
    ensures
        r == (day >= today - days),
{
    day as i128 >= today as i128 - days as i128
}

proof fn month_start_grows(year: int, a: int, b: int)
    requires
        1 <= a < b <= 12,
    ensures
        days_before_month(year, a) + month_days(year, a) <= days_before_month(year, b),
    decreases b,
{
    if a < b - 1 {
        month_start_grows(year, a, b - 1);
    }
}

proof fn year_ends_before_next(year: int, month: int, day: int)
    requires
        is_calendar_day(year, month, day),
    ensures
        day_number(year, month, day) < day_number(year + 1, 1, 1),
        day_number(year, month, day) >= day_number(year, 1, 1),
{
    reveal_with_fuel(days_before_month, 13);
    if month < 12 {
        month_start_grows(year, month, 12);
    }
    if month > 1 {
        month_start_grows(year, 1, month);
    }
    assert(days_before_month(year, 12) + 31 == if is_leap(year) {
        366int
    } else {
        365int
    });
    let y = year - 1;
    assert(year / 4 - y / 4 == if year % 4 == 0 {
        1int
    } else {
        0int
    });
    assert(year / 100 - y / 100 == if year % 100 == 0 {
        1int
    } else {
        0int
    });
    assert(year / 400 - y / 400 == if year % 400 == 0 {
        1int
    } else {
        0int
    });
}

proof fn years_grow(a: int, b: int)
    requires
        a <= b,
    ensures
        day_number(a, 1, 1) <= day_number(b, 1, 1),
    decreases b - a,
{
    if a < b {
        years_grow(a, b - 1);
        year_ends_before_next(b - 1, 1, 1);
    }
}

/// A later day has a greater number.
pub proof fn later_days_have_greater_numbers(
    y1: int,
    m1: int,
    d1: int,
    y2: int,
    m2: int,
    d2: int,
)
    requires
        is_calendar_day(y1, m1, d1),
        is_calendar_day(y2, m2, d2),
        y1 < y2 || (y1 == y2 && (m1 < m2 || (m1 == m2 && d1 < d2))),
    ensures
        day_number(y1, m1, d1) < day_number(y2, m2, d2),
{
    if y1 < y2 {
        year_ends_before_next(y1, m1, d1);
        years_grow(y1 + 1, y2);
        year_ends_before_next(y2, m2, d2);
    } else if m1 < m2 {
        month_start_grows(y1, m1, m2);
    }
}

/// The calendar goes on day by day: the number of the next day is one more,
/// within a month, at the end of a month and at the end of a year. The first
/// day of the year 1 has the number 1.
pub proof fn the_next_day_has_the_next_number(y: int, m: int, d: int)
    requires
        is_calendar_day(y, m, d),
    ensures
        d < month_days(y, m) ==> day_number(y, m, d + 1) == day_number(y, m, d) + 1,
        d == month_days(y, m) && m < 12 ==> day_number(y, m + 1, 1) == day_number(y, m, d) + 1,
        d == month_days(y, m) && m == 12 ==> day_number(y + 1, 1, 1) == day_number(y, m, d) + 1,
        day_number(1, 1, 1) == 1,
{
    reveal_with_fuel(days_before_month, 13);
    if m == 12 && d == month_days(y, m) {
        a_year_has_its_days(y);
    }
}

/// A year has 366 days where it has a 29 February, and 365 where it has not;
/// the calendar repeats itself after 400 years, of which 97 have one.
pub proof fn a_year_has_its_days(y: int)
    ensures
        days_before_month(y, 13) == (if is_leap(y) {
            366int
        } else {
            365
        }),
        day_number(y + 1, 1, 1) - day_number(y, 1, 1) == days_before_month(y, 13),
        day_number(y + 400, 1, 1) - day_number(y, 1, 1) == 146097,
        is_leap(y + 400) == is_leap(y),
        is_leap(y) ==> y % 4 == 0,
        y % 100 == 0 && y % 400 != 0 ==> !is_leap(y),
        y % 400 == 0 ==> is_leap(y),
{
    months_add_up(y);
    steps_of_four(y);
    steps_of_a_hundred(y);
    steps_of_four_hundred(y);
    hundreds_are_fours(y);
    assert(days_before_month(y, 1) == 0);
    assert(days_before_month(y + 1, 1) == 0);
    assert(days_before_month(y + 400, 1) == 0);
}

proof fn months_add_up(y: int)
    ensures
        days_before_month(y, 13) == (if is_leap(y) {
            366int
        } else {
            365
        }),
{
    reveal_with_fuel(days_before_month, 14);
}

proof fn steps_of_four(y: int)
    ensures
        y / 4 - (y - 1) / 4 == (if y % 4 == 0 {
            1int
        } else {
            0
        }),
        (y + 399) / 4 == (y - 1) / 4 + 100,
        (y + 400) % 4 == y % 4,
{
    let q = y / 4;
    let r = y % 4;
    lemma_fundamental_div_mod(y, 4);
    lemma_fundamental_div_mod_converse(y + 400, 4, q + 100, r);
    if r == 0 {
        lemma_fundamental_div_mod_converse(y - 1, 4, q - 1, 3);
        lemma_fundamental_div_mod_converse(y + 399, 4, q + 99, 3);
    } else {
        lemma_fundamental_div_mod_converse(y - 1, 4, q, r - 1);
        lemma_fundamental_div_mod_converse(y + 399, 4, q + 100, r - 1);
    }
}

proof fn steps_of_a_hundred(y: int)
    ensures
        y / 100 - (y - 1) / 100 == (if y % 100 == 0 {
            1int
        } else {
            0
        }),
        (y + 399) / 100 == (y - 1) / 100 + 4,
        (y + 400) % 100 == y % 100,
{
    let q = y / 100;
    let r = y % 100;
    lemma_fundamental_div_mod(y, 100);
    lemma_fundamental_div_mod_converse(y + 400, 100, q + 4, r);
    if r == 0 {
        lemma_fundamental_div_mod_converse(y - 1, 100, q - 1, 99);
        lemma_fundamental_div_mod_converse(y + 399, 100, q + 3, 99);
    } else {
        lemma_fundamental_div_mod_converse(y - 1, 100, q, r - 1);
        lemma_fundamental_div_mod_converse(y + 399, 100, q + 4, r - 1);
    }
}

proof fn steps_of_four_hundred(y: int)
    ensures
        y / 400 - (y - 1) / 400 == (if y % 400 == 0 {
            1int
        } else {
            0
        }),
        (y + 399) / 400 == (y - 1) / 400 + 1,
        (y + 400) % 400 == y % 400,
        y % 400 == 0 ==> y % 100 == 0,
{
    let q = y / 400;
    let r = y % 400;
    lemma_fundamental_div_mod(y, 400);
    lemma_fundamental_div_mod_converse(y + 400, 400, q + 1, r);
    if r == 0 {
        lemma_fundamental_div_mod_converse(y - 1, 400, q - 1, 399);
        lemma_fundamental_div_mod_converse(y + 399, 400, q, 399);
        lemma_fundamental_div_mod_converse(y, 100, 4 * q, 0);
    } else {
        lemma_fundamental_div_mod_converse(y - 1, 400, q, r - 1);
        lemma_fundamental_div_mod_converse(y + 399, 400, q + 1, r - 1);
    }
}

proof fn hundreds_are_fours(y: int)
    ensures
        y % 100 == 0 ==> y % 4 == 0,
{
    if y % 100 == 0 {
        let q = y / 100;
        lemma_fundamental_div_mod(y, 100);
        lemma_fundamental_div_mod_converse(y, 4, 25 * q, 0);
    }
}

/// The day of a file name is that of its first date, and what stands behind
/// that date has no part in it.
pub proof fn a_name_has_the_day_of_its_first_date(s: Seq<char>, t: Seq<char>, i: int)
    requires
        is_dated(s, i),
        forall|k: int| 0 <= k < i ==> !is_dated(s, k),
        s.take(i + 10).is_prefix_of(t),
    ensures
        ({
            let y = digits_value(s.subrange(i, i + 4));
            let m = digits_value(s.subrange(i + 5, i + 7));
            let d = digits_value(s.subrange(i + 8, i + 10));
            &&& name_day(t) == name_day(s)
            &&& name_day(s) is Some <==> 1 <= m <= 12 && 1 <= d <= month_days(y, m)
            &&& name_day(s) matches Some(n) ==> n == day_number(y, m, d)
        }),
{
    first_day_is_there(s, 0, i);
    let p = s.take(i + 10);
    assert(p =~= t.take(i + 10));
    assert forall|k: int| 0 <= k <= i implies is_dated(t, k) == is_dated(s, k) by {
        assert forall|j: int| 0 <= j < i + 10 implies s[j] == t[j] by {
            assert(p[j] == s[j]);
            assert(p[j] == t.take(i + 10)[j]);
        }
    }
    assert forall|j: int| 0 <= j < i + 10 implies s[j] == t[j] by {
        assert(p[j] == s[j]);
        assert(p[j] == t.take(i + 10)[j]);
    }
    first_day_is_there(t, 0, i);
    assert(s.subrange(i, i + 4) =~= t.subrange(i, i + 4));
    assert(s.subrange(i + 5, i + 7) =~= t.subrange(i + 5, i + 7));
    assert(s.subrange(i + 8, i + 10) =~= t.subrange(i + 8, i + 10));
}

proof fn first_day_is_there(s: Seq<char>, from: int, i: int)
    requires
        0 <= from <= i,
        is_dated(s, i),
        forall|k: int| from <= k < i ==> !is_dated(s, k),
    ensures
        first_day(s, from) == day_at(s, i),
    decreases i - from,
{
    if from < i {
        first_day_is_there(s, from + 1, i);
    }
}

/// The day of a document is that of `date`; where that names none, of
/// `created`, else of `published`, else of `updated`. Of a field that begins
/// with ten plain characters these ten are read.
pub proof fn a_document_has_the_day_of_its_first_dated_field(
    doc: DocumentView,
    fields: Seq<(Seq<char>, YamlView)>,
    key: Seq<char>,
    s: Seq<char>,
    n: i32,
)
    requires
        doc.frontmatter matches Some(fm) && fm.fields == fields,
        lookup(fields, key) == Some(YamlView::Text(s)),
        s.len() >= 10,
        forall|i: int| 0 <= i < 10 ==> (#[trigger] s[i] as int) < 0x80,
        text_day(s.take(10)) == Some(n),
    ensures
        key == "date"@ ==> document_day(doc) == Some(n),
        key == "created"@ && lookup(fields, "date"@) is None ==> document_day(doc) == Some(n),
        key == "published"@ && lookup(fields, "date"@) is None && lookup(fields, "created"@) is None
            ==> document_day(doc) == Some(n),
        key == "updated"@ && lookup(fields, "date"@) is None && lookup(fields, "created"@) is None
            && lookup(fields, "published"@) is None ==> document_day(doc) == Some(n),
{
    plain_characters_fit(s, 0, 10);
    assert(date_head(s) =~= s.take(10));
}

proof fn plain_characters_fit(s: Seq<char>, i: int, n: nat)
    requires
        0 <= i,
        i + n <= s.len(),
        forall|k: int| i <= k < i + n ==> (#[trigger] s[k] as int) < 0x80,
    ensures
        fitting(s, i, n) == i + n,
    decreases n,
{
    if n > 0 {
        assert((s[i] as int) < 0x80);
        plain_characters_fit(s, i + 1, (n - 1) as nat);
    }
}

/// Without front matter, or with none of the four fields, a document has no
/// day.
pub proof fn a_document_without_dates_has_no_day(doc: DocumentView)
    requires
        doc.frontmatter matches Some(fm) ==> lookup(fm.fields, "date"@) is None && lookup(
            fm.fields,
            "created"@,
        ) is None && lookup(fm.fields, "published"@) is None && lookup(
            fm.fields,
            "updated"@,
        ) is None,
    ensures
        document_day(doc) is None,
{
}

} // verus!
