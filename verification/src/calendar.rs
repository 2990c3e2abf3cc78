//! The Gregorian calendar, and the text of dates and times.

use crate::decimal::digit_char;
use crate::order::lex_before;
use vstd::prelude::*;

verus! {

/// Whether a year has a leap day.
pub open spec fn is_leap_year(year: int) -> bool {
    year % 4 == 0 && (year % 100 != 0 || year % 400 == 0)
}

/// How many days a month has.
pub open spec fn month_len(year: int, month: int) -> int {
    if month == 2 {
        if is_leap_year(year) {
            29
        } else {
            28
        }
    } else if month == 4 || month == 6 || month == 9 || month == 11 {
        30
    } else {
        31
    }
}

/// How many days of a year lie before a month.
pub open spec fn days_before_month(year: int, month: int) -> int
    decreases month,
{
    if month <= 1 {
        0
    } else {
        days_before_month(year, month - 1) + month_len(year, month - 1)
    }
}

/// How many days lie between the start of the year 1 and that of a year.
pub open spec fn days_before_year(year: int) -> int {
    365 * (year - 1) + (year - 1) / 4 - (year - 1) / 100 + (year - 1) / 400
}

/// Whether there is such a date.
pub open spec fn is_date(year: int, month: int, day: int) -> bool {
    1 <= month <= 12 && 1 <= day <= month_len(year, month)
}

/// The number of a date, counted from the Unix epoch, which is 719,162 days after the start of the
/// year 1.
pub open spec fn day_number(year: int, month: int, day: int) -> int {
    days_before_year(year) + days_before_month(year, month) + (day - 1) - 719_162
}

/// Year, month and day of the date with a number.
pub open spec fn date_of(number: int) -> (int, int, int) {
    choose|date: (int, int, int)| #[trigger]
        is_date(date.0, date.1, date.2) && day_number(date.0, date.1, date.2) == number
}

/// A year is as long as its months together.
proof fn lemma_year_len(year: int)
    ensures
        days_before_month(year, 12) + 31 == if is_leap_year(year) {
            366int
        } else {
            365
        },
        days_before_year(year + 1) == days_before_year(year) + days_before_month(year, 12) + 31,
{
    reveal_with_fuel(days_before_month, 13);
}

/// Later years start later.
proof fn lemma_years_rise(first: int, second: int)
    requires
        first <= second,
    ensures
        days_before_year(first) <= days_before_year(second),
{
}

/// Later months start later, after all days of the earlier ones.
proof fn lemma_months_rise(year: int, first: int, second: int)
    requires
        1 <= first < second,
    ensures
        days_before_month(year, first) + month_len(year, first) <= days_before_month(year, second),
    decreases second,
{
    if first < second - 1 {
        lemma_months_rise(year, first, second - 1);
    }
}

/// A date lies within its year.
proof fn lemma_within_year(year: int, month: int, day: int)
    requires
        is_date(year, month, day),
    ensures
        days_before_year(year) <= day_number(year, month, day) + 719_162,
        day_number(year, month, day) + 719_162 < days_before_year(year + 1),
{
    lemma_year_len(year);
    if month > 1 {
        lemma_months_rise(year, 1, month);
    }
    if month < 12 {
        lemma_months_rise(year, month, 12);
    }
}

/// Whether one date is earlier than another.
pub open spec fn is_earlier(a: (int, int, int), b: (int, int, int)) -> bool {
    a.0 < b.0 || (a.0 == b.0 && (a.1 < b.1 || (a.1 == b.1 && a.2 < b.2)))
}

/// Later dates have greater numbers.
pub proof fn law_numbers_rise_with_dates(a: (int, int, int), b: (int, int, int))
    requires
        is_date(a.0, a.1, a.2),
        is_date(b.0, b.1, b.2),
        is_earlier(a, b),
    ensures
        day_number(a.0, a.1, a.2) < day_number(b.0, b.1, b.2),
{
    lemma_within_year(a.0, a.1, a.2);
    lemma_within_year(b.0, b.1, b.2);
    if a.0 < b.0 {
        lemma_years_rise(a.0 + 1, b.0);
    } else if a.1 < b.1 {
        lemma_months_rise(a.0, a.1, b.1);
    }
}

/// A date with a given number.
proof fn lemma_date_exists(number: int) -> (date: (int, int, int))
    ensures
        is_date(date.0, date.1, date.2),
        day_number(date.0, date.1, date.2) == number,
    decreases
            if number < 0 {
                -number
            } else {
                number
            },
{
    if number == 0 {
        (1970, 1, 1)
    } else if number > 0 {
        let (year, month, day) = lemma_date_exists(number - 1);
        lemma_year_len(year);
        if day < month_len(year, month) {
            (year, month, day + 1)
        } else if month < 12 {
            (year, month + 1, 1)
        } else {
            (year + 1, 1, 1)
        }
    } else {
        let (year, month, day) = lemma_date_exists(number + 1);
        lemma_year_len(year - 1);
        if day > 1 {
            (year, month, day - 1)
        } else if month > 1 {
            (year, month - 1, month_len(year, month - 1))
        } else {
            (year - 1, 12, 31)
        }
    }
}

/// Every number has a date.
pub proof fn law_every_day_has_a_date(number: int)
    ensures
        is_date(date_of(number).0, date_of(number).1, date_of(number).2),
        day_number(date_of(number).0, date_of(number).1, date_of(number).2) == number,
{
    let date = lemma_date_exists(number);
    assert(is_date(date.0, date.1, date.2));
}

/// No other date has the number of a date.
pub proof fn law_every_date_is_found_by_its_number(year: int, month: int, day: int)
    requires
        is_date(year, month, day),
    ensures
        date_of(day_number(year, month, day)) == (year, month, day),
{
    let date = (year, month, day);
    let found = date_of(day_number(year, month, day));
    law_every_day_has_a_date(day_number(year, month, day));
    if is_earlier(date, found) {
        law_numbers_rise_with_dates(date, found);
    }
    if is_earlier(found, date) {
        law_numbers_rise_with_dates(found, date);
    }
}

/// A number in decimal, with zeros in front if it has fewer than `width` digits.
pub open spec fn padded(n: nat, width: nat) -> Seq<char>
    decreases n + width,
{
    if n < 10 && width <= 1 {
        seq![digit_char(n)]
    } else {
        padded(
            n / 10,
            if width > 0 {
                (width - 1) as nat
            } else {
                0
            },
        ).push(digit_char(n % 10))
    }
}

/// A number of a text: its value, the least count of its digits, and the character after it.
pub struct Field {
    pub value: nat,
    pub width: nat,
    pub end: char,
}

/// The text of some numbers, one after the other.
pub open spec fn fields_text(fields: Seq<Field>) -> Seq<char>
    decreases fields.len(),
{
    if fields.len() == 0 {
        Seq::empty()
    } else {
        padded(fields[0].value, fields[0].width).push(fields[0].end) + fields_text(
            fields.drop_first(),
        )
    }
}

/// The numbers of the text of a time, which is given in seconds and nanoseconds since the Unix
/// epoch. Nanoseconds beyond a second are a leap second.
pub open spec fn iso_fields(secs: int, nsecs: int) -> Seq<Field> {
    let date = date_of(secs / 86_400);
    let time = secs % 86_400;
    seq![
        Field { value: (if date.0 < 0 { -date.0 } else { date.0 }) as nat, width: 4, end: '-' },
        Field { value: date.1 as nat, width: 2, end: '-' },
        Field { value: date.2 as nat, width: 2, end: 'T' },
        Field { value: (time / 3_600) as nat, width: 2, end: ':' },
        Field { value: (time / 60 % 60) as nat, width: 2, end: ':' },
        Field { value: (time % 60 + nsecs / 1_000_000_000) as nat, width: 2, end: '.' },
        Field { value: (nsecs % 1_000_000_000) as nat, width: 9, end: 'Z' },
    ]
}

/// The text of a time in ISO format with nanoseconds, such as `1970-01-01T00:00:00.000000000Z`. A
/// year that does not lie between 0 and 9999 has its sign in front.
pub open spec fn iso_text(secs: int, nsecs: int) -> Seq<char> {
    let year = date_of(secs / 86_400).0;
    let sign: Seq<char> = if year < 0 {
        seq!['-']
    } else if year > 9_999 {
        seq!['+']
    } else {
        Seq::empty()
    };
    sign + fields_text(iso_fields(secs, nsecs))
}

/// The characters of a text as numbers, by which texts are ordered.
pub open spec fn text_rank(text: Seq<char>) -> Seq<int> {
    text.map_values(|c: char| c as int)
}

/// Whether a text equals another or comes before it.
pub open spec fn text_at_most(a: Seq<char>, b: Seq<char>) -> bool {
    a == b || lex_before(text_rank(a), text_rank(b))
}

/// The power of ten with some zeros.
spec fn power_of_ten(zeros: nat) -> nat
    decreases zeros,
{
    if zeros == 0 {
        1
    } else {
        10 * power_of_ten((zeros - 1) as nat)
    }
}

/// A number that fits into a width is written in exactly that width.
proof fn lemma_padded_len(n: nat, width: nat)
    requires
        width > 0,
        n < power_of_ten(width),
    ensures
        padded(n, width).len() == width,
    decreases width,
{
    if width == 1 {
        reveal_with_fuel(power_of_ten, 2);
    } else {
        lemma_padded_len(n / 10, (width - 1) as nat);
    }
}

/// A difference in the first parts of two texts decides.
proof fn lemma_lex_prefix(a: Seq<int>, b: Seq<int>, rest_a: Seq<int>, rest_b: Seq<int>)
    requires
        a.len() == b.len(),
        lex_before(a, b),
    ensures
        lex_before(a + rest_a, b + rest_b),
    decreases a.len(),
{
    if a[0] == b[0] {
        lemma_lex_prefix(a.drop_first(), b.drop_first(), rest_a, rest_b);
        assert((a + rest_a).drop_first() =~= a.drop_first() + rest_a);
        assert((b + rest_b).drop_first() =~= b.drop_first() + rest_b);
    }
}

/// Where the first parts agree, the rests decide.
proof fn lemma_lex_same_prefix(prefix: Seq<int>, a: Seq<int>, b: Seq<int>)
    requires
        lex_before(a, b),
    ensures
        lex_before(prefix + a, prefix + b),
    decreases prefix.len(),
{
    if prefix.len() == 0 {
        assert(prefix + a =~= a);
        assert(prefix + b =~= b);
    } else {
        lemma_lex_same_prefix(prefix.drop_first(), a, b);
        assert((prefix + a).drop_first() =~= prefix.drop_first() + a);
        assert((prefix + b).drop_first() =~= prefix.drop_first() + b);
    }
}

/// Of two numbers of the same width, the smaller comes first as a text.
proof fn lemma_padded_rises(a: nat, b: nat, width: nat)
    requires
        width > 0,
        a < b < power_of_ten(width),
    ensures
        lex_before(text_rank(padded(a, width)), text_rank(padded(b, width))),
    decreases width,
{
    let digit_a = seq![digit_char(a % 10) as int];
    let digit_b = seq![digit_char(b % 10) as int];
    reveal_with_fuel(lex_before, 2);
    if width == 1 {
        reveal_with_fuel(power_of_ten, 2);
        assert(text_rank(padded(a, width)) =~= digit_a);
        assert(text_rank(padded(b, width)) =~= digit_b);
    } else {
        let less = (width - 1) as nat;
        let first_a = text_rank(padded(a / 10, less));
        let first_b = text_rank(padded(b / 10, less));
        lemma_padded_len(a / 10, less);
        lemma_padded_len(b / 10, less);
        assert(text_rank(padded(a, width)) =~= first_a + digit_a);
        assert(text_rank(padded(b, width)) =~= first_b + digit_b);
        if a / 10 < b / 10 {
            lemma_padded_rises(a / 10, b / 10, less);
            lemma_lex_prefix(first_a, first_b, digit_a, digit_b);
        } else {
            lemma_lex_same_prefix(first_a, digit_a, digit_b);
        }
    }
}

/// The values of some fields.
spec fn values(fields: Seq<Field>) -> Seq<int> {
    fields.map_values(|f: Field| f.value as int)
}

/// Whether each value fits into its width.
spec fn fits(fields: Seq<Field>) -> bool {
    forall|i: int|
        0 <= i < fields.len() ==> (#[trigger] fields[i]).width > 0 && fields[i].value
            < power_of_ten(fields[i].width)
}

/// Fields of the same form are ordered as texts by their values.
proof fn lemma_fields_rise(a: Seq<Field>, b: Seq<Field>)
    requires
        a.len() == b.len(),
        fits(a),
        fits(b),
        forall|i: int|
            0 <= i < a.len() ==> (#[trigger] a[i]).width == b[i].width && a[i].end == b[i].end,
        lex_before(values(a), values(b)),
    ensures
        lex_before(text_rank(fields_text(a)), text_rank(fields_text(b))),
    decreases a.len(),
{
    let rest_a = a.drop_first();
    let rest_b = b.drop_first();
    let number_a = padded(a[0].value, a[0].width);
    let number_b = padded(b[0].value, b[0].width);
    let end = seq![a[0].end as int];
    let tail_a = text_rank(fields_text(rest_a));
    let tail_b = text_rank(fields_text(rest_b));
    lemma_padded_len(a[0].value, a[0].width);
    lemma_padded_len(b[0].value, b[0].width);
    assert(text_rank(fields_text(a)) =~= text_rank(number_a) + (end + tail_a));
    assert(text_rank(fields_text(b)) =~= text_rank(number_b) + (end + tail_b));
    assert(values(a)[0] == a[0].value && values(b)[0] == b[0].value);
    if a[0].value == b[0].value {
        assert(values(a).drop_first() =~= values(rest_a));
        assert(values(b).drop_first() =~= values(rest_b));
        assert forall|i: int| 0 <= i < rest_a.len() implies (#[trigger] rest_a[i]).width
            == rest_b[i].width && rest_a[i].end == rest_b[i].end by {
            assert(rest_a[i] == a[i + 1]);
        }
        lemma_fields_rise(rest_a, rest_b);
        lemma_lex_same_prefix(end, tail_a, tail_b);
        lemma_lex_same_prefix(text_rank(number_a), end + tail_a, end + tail_b);
    } else {
        lemma_padded_rises(a[0].value, b[0].value, a[0].width);
        lemma_lex_prefix(text_rank(number_a), text_rank(number_b), end + tail_a, end + tail_b);
    }
}

/// What the fields of a time between the years 1 and 9999 hold, and that they fit.
proof fn lemma_iso_fields(secs: int, nsecs: int)
    requires
        -62_135_596_800 <= secs <= 253_402_300_799,
        0 <= nsecs < 1_000_000_000,
    ensures
        ({
            let date = date_of(secs / 86_400);
            let time = secs % 86_400;
            &&& is_date(date.0, date.1, date.2)
            &&& 1 <= date.0 <= 9_999
            &&& fits(iso_fields(secs, nsecs))
            &&& values(iso_fields(secs, nsecs)) == seq![
                date.0,
                date.1,
                date.2,
                time / 3_600,
                time / 60 % 60,
                time % 60,
                nsecs,
            ]
            &&& iso_text(secs, nsecs) == fields_text(iso_fields(secs, nsecs))
        }),
{
    let date = date_of(secs / 86_400);
    law_every_day_has_a_date(secs / 86_400);
    lemma_within_year(date.0, date.1, date.2);
    if date.0 < 1 {
        lemma_years_rise(date.0 + 1, 1);
    }
    if date.0 > 9_999 {
        lemma_years_rise(10_000, date.0);
    }
    reveal_with_fuel(power_of_ten, 10);
    assert(iso_text(secs, nsecs) =~= fields_text(iso_fields(secs, nsecs)));
    assert(values(iso_fields(secs, nsecs)) =~= seq![
        date.0,
        date.1,
        date.2,
        secs % 86_400 / 3_600,
        secs % 86_400 / 60 % 60,
        secs % 86_400 % 60,
        nsecs,
    ]);
}

/// The text of a time between the years 1 and 9999 has 30 characters, of which the last is a `Z`.
pub proof fn law_iso_text_has_thirty_characters(secs: int, nsecs: int)
    requires
        -62_135_596_800 <= secs <= 253_402_300_799,
        0 <= nsecs < 1_000_000_000,
    ensures
        iso_text(secs, nsecs).len() == 30,
        iso_text(secs, nsecs)[19] == '.',
        iso_text(secs, nsecs)[29] == 'Z',
{
    let fields = iso_fields(secs, nsecs);
    lemma_iso_fields(secs, nsecs);
    reveal_with_fuel(fields_text, 8);
    lemma_padded_len(fields[0].value, 4);
    lemma_padded_len(fields[1].value, 2);
    lemma_padded_len(fields[2].value, 2);
    lemma_padded_len(fields[3].value, 2);
    lemma_padded_len(fields[4].value, 2);
    lemma_padded_len(fields[5].value, 2);
    lemma_padded_len(fields[6].value, 9);
}

/// An earlier date comes first as year, month and day.
proof fn lemma_earlier_dates_come_first(a: (int, int, int), b: (int, int, int))
    requires
        is_earlier(a, b),
    ensures
        lex_before(seq![a.0, a.1, a.2], seq![b.0, b.1, b.2]),
{
    let (x, y) = (seq![a.0, a.1, a.2], seq![b.0, b.1, b.2]);
    assert(x.drop_first() =~= seq![a.1, a.2] && y.drop_first() =~= seq![b.1, b.2]);
    assert(x.drop_first().drop_first() =~= seq![a.2] && y.drop_first().drop_first() =~= seq![b.2]);
    reveal_with_fuel(lex_before, 4);
}

/// The hour, minute, second and nanosecond of a time of day.
spec fn clock_values(time: int, nsecs: int) -> Seq<int> {
    seq![time / 3_600, time / 60 % 60, time % 60, nsecs]
}

/// An earlier time of day comes first as hour, minute, second and nanosecond.
proof fn lemma_earlier_times_come_first(a: int, nsecs_a: int, b: int, nsecs_b: int)
    requires
        0 <= a < 86_400,
        0 <= b < 86_400,
        a < b || (a == b && nsecs_a < nsecs_b),
    ensures
        lex_before(clock_values(a, nsecs_a), clock_values(b, nsecs_b)),
{
    let (x, y) = (clock_values(a, nsecs_a), clock_values(b, nsecs_b));
    let (x1, y1) = (x.drop_first(), y.drop_first());
    let (x2, y2) = (x1.drop_first(), y1.drop_first());
    let (x3, y3) = (x2.drop_first(), y2.drop_first());
    assert(x[0] == a / 3_600 && x1[0] == a / 60 % 60 && x2[0] == a % 60 && x3[0] == nsecs_a);
    assert(y[0] == b / 3_600 && y1[0] == b / 60 % 60 && y2[0] == b % 60 && y3[0] == nsecs_b);
    if x[0] == y[0] && x1[0] == y1[0] && x2[0] == y2[0] {
        assert(a == b);
        assert(lex_before(x3, y3));
    }
    assert(x[0] <= y[0]);
    assert(x[0] == y[0] ==> x1[0] <= y1[0]);
    assert(x[0] == y[0] && x1[0] == y1[0] ==> x2[0] <= y2[0]);
    if x[0] == y[0] && x1[0] == y1[0] {
        assert(lex_before(x2, y2));
    }
    if x[0] == y[0] {
        assert(lex_before(x1, y1));
    }
}

/// Between the years 1 and 9999 a later time has a later text.
pub proof fn law_iso_text_rises(secs: int, nsecs: int, later_secs: int, later_nsecs: int)
    requires
        -62_135_596_800 <= secs <= 253_402_300_799,
        0 <= nsecs < 1_000_000_000,
        -62_135_596_800 <= later_secs <= 253_402_300_799,
        0 <= later_nsecs < 1_000_000_000,
        secs < later_secs || (secs == later_secs && nsecs < later_nsecs),
    ensures
        lex_before(text_rank(iso_text(secs, nsecs)), text_rank(iso_text(later_secs, later_nsecs))),
{
    let a = iso_fields(secs, nsecs);
    let b = iso_fields(later_secs, later_nsecs);
    lemma_iso_fields(secs, nsecs);
    lemma_iso_fields(later_secs, later_nsecs);
    law_every_day_has_a_date(secs / 86_400);
    law_every_day_has_a_date(later_secs / 86_400);
    let date = date_of(secs / 86_400);
    let later = date_of(later_secs / 86_400);
    let (ymd, later_ymd) = (
        seq![date.0, date.1, date.2],
        seq![later.0, later.1, later.2],
    );
    let (clock, later_clock) = (
        clock_values(secs % 86_400, nsecs),
        clock_values(later_secs % 86_400, later_nsecs),
    );
    assert(values(a) =~= ymd + clock);
    assert(values(b) =~= later_ymd + later_clock);
    if secs / 86_400 < later_secs / 86_400 {
        if is_earlier(later, date) {
            law_numbers_rise_with_dates(later, date);
        }
        lemma_earlier_dates_come_first(date, later);
        lemma_lex_prefix(ymd, later_ymd, clock, later_clock);
    } else {
        lemma_earlier_times_come_first(
            secs % 86_400,
            nsecs,
            later_secs % 86_400,
            later_nsecs,
        );
        lemma_lex_same_prefix(ymd, clock, later_clock);
    }
    lemma_fields_rise(a, b);
}

/// The day after a date has the next number: it lies in the same month, or is the first of the next
/// month or of the next year. The Unix epoch has the number zero.
pub proof fn law_days_follow_each_other(year: int, month: int, day: int)
    requires
        is_date(year, month, day),
    ensures
        day_number(1970, 1, 1) == 0,
        is_date(year, month, day + 1) ==> day_number(year, month, day + 1) == day_number(
            year,
            month,
            day,
        ) + 1,
        !is_date(year, month, day + 1) && month < 12 ==> day_number(year, month + 1, 1)
            == day_number(year, month, day) + 1,
        !is_date(year, month, day + 1) && month == 12 ==> day_number(year + 1, 1, 1) == day_number(
            year,
            month,
            day,
        ) + 1,
{
    lemma_year_len(year);
}

/// A month has 31 days but for April, June, September and November with 30 and February with 28, or 29
/// in a year that 4 divides, unless 100 divides it and 400 does not.
pub proof fn law_months_have_their_days(year: int)
    ensures
        forall|month: int, day: int| #[trigger]
            is_date(year, month, day) ==> 1 <= month <= 12 && 1 <= day <= 31,
        is_date(year, 2, 28) && !is_date(year, 2, 30),
        is_date(year, 2, 29) <==> year % 400 == 0 || (year % 4 == 0 && year % 100 != 0),
        forall|month: int|
            1 <= month <= 12 && month != 2 ==> (#[trigger] is_date(year, month, 31) <==> month != 4
                && month != 6 && month != 9 && month != 11),
{
}

} // verus!
