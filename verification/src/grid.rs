//! The grid of a month: seven columns, Sunday first, one cell for each day,
//! with the holidays marked.

use crate::date::{days_in_month, get_days_in_month, get_weekday, weekday_of};
use crate::holiday::{is_holiday, lookup, records_of, texts_of, Holiday, HolidayRecord};
use vstd::prelude::*;
use vstd::string::StringExecFns;

verus! {

/// The shape of a month's grid: the column of its first day, 0 for Sunday up
/// to 6 for Saturday, and the number of its days.
#[derive(Clone, Copy, Debug)]
pub struct CalendarGrid {
    pub year: i32,
    pub month: i32,
    pub first_weekday: i32,
    pub days_in_month: i32,
}

impl CalendarGrid {
    /// The grid of the given month. A month outside 1..=12 has no days.
    pub fn new(year: i32, month: i32) -> (grid: CalendarGrid)
        ensures
            grid.year == year,
            grid.month == month,
            grid.first_weekday == weekday_of(year as int, month as int, 1),
            grid.days_in_month == days_in_month(year as int, month as int),
            0 <= grid.first_weekday <= 6,
            0 <= grid.days_in_month <= 31,
    {
        CalendarGrid {
            year,
            month,
            first_weekday: get_weekday(year, month, 1),
            days_in_month: get_days_in_month(year, month),
        }
    }
}

/// The number of cells of a month's grid, from the first column of its first
/// week up to its last day.
pub open spec fn cell_count(year: int, month: int) -> int {
    weekday_of(year, month, 1) + days_in_month(year, month)
}

/// The number of weeks, whole or not, that a month's grid spans.
pub open spec fn week_count(year: int, month: int) -> int {
    (cell_count(year, month) + 6) / 7
}

/// The character that writes the digit `n`.
pub open spec fn digit(n: int) -> char {
    (n + 48) as char
}

/// The cell before the first day of a month: four spaces.
pub open spec fn blank_cell() -> Seq<char> {
    seq![' ', ' ', ' ', ' ']
}

/// The cell of a day of the month: the day in decimal, set to the right in
/// three columns, then `*` for a holiday and a space for any other day.
pub open spec fn day_cell(day: int, holiday: bool) -> Seq<char> {
    seq![
        ' ',
        if day >= 10 { digit(day / 10) } else { ' ' },
        digit(day % 10),
        if holiday { '*' } else { ' ' },
    ]
}

/// The cell at a position of a month's grid, counted from the first column
/// of its first week.
pub open spec fn cell(records: Seq<HolidayRecord>, year: int, month: int, position: int) -> Seq<
    char,
> {
    let day = position - weekday_of(year, month, 1) + 1;
    if day < 1 {
        blank_cell()
    } else {
        day_cell(day, lookup(records, year, month, day) is Some)
    }
}

/// The cells at positions `from` up to `to`, without `to`, one after another.
pub open spec fn cells(
    records: Seq<HolidayRecord>,
    year: int,
    month: int,
    from: int,
    to: int,
) -> Seq<char>
    decreases to - from,
{
    if to <= from {
        Seq::empty()
    } else {
        cells(records, year, month, from, to - 1) + cell(records, year, month, to - 1)
    }
}

/// The line of a week of a month's grid. The last week ends with the last
/// day of the month.
pub open spec fn week_line(records: Seq<HolidayRecord>, year: int, month: int, week: int) -> Seq<
    char,
> {
    let end = if 7 * week + 7 <= cell_count(year, month) {
        7 * week + 7
    } else {
        cell_count(year, month)
    };
    cells(records, year, month, 7 * week, end)
}

/// The lines of a month's grid up to a week, without it.
pub open spec fn weeks_before(records: Seq<HolidayRecord>, year: int, month: int, week: int) -> Seq<
    Seq<char>,
> {
    Seq::new(week as nat, |w: int| week_line(records, year, month, w))
}

/// The lines of a month's grid, one for each week.
pub open spec fn grid_lines(records: Seq<HolidayRecord>, year: int, month: int) -> Seq<Seq<char>> {
    weeks_before(records, year, month, week_count(year, month))
}

fn digit_text(n: i32) -> (text: &'static str)
    requires
        0 <= n <= 9,
    ensures
        text@ == seq![digit(n as int)],
{
    proof {
        reveal_strlit("0");
        reveal_strlit("1");
        reveal_strlit("2");
        reveal_strlit("3");
        reveal_strlit("4");
        reveal_strlit("5");
        reveal_strlit("6");
        reveal_strlit("7");
        reveal_strlit("8");
        reveal_strlit("9");
    }
    let text = match n {
        0 => "0",
        1 => "1",
        2 => "2",
        3 => "3",
        4 => "4",
        5 => "5",
        6 => "6",
        7 => "7",
        8 => "8",
        _ => "9",
    };
    assert(text@ == seq![digit(n as int)]);
    text
}

fn push_blank_cell(line: &mut String)
    ensures
        final(line)@ == old(line)@ + blank_cell(),
{
    proof {
        reveal_strlit("    ");
    }
    line.append("    ");
    assert("    "@ == blank_cell());
}

fn push_day_cell(line: &mut String, day: i32, holiday: bool)
    requires
        1 <= day <= 99,
    ensures
        final(line)@ == old(line)@ + day_cell(day as int, holiday),
{
    proof {
        reveal_strlit(" ");
        reveal_strlit("*");
    }
    assert(" "@ == seq![' ']);
    assert("*"@ == seq!['*']);
    line.append(" ");
    if day >= 10 {
        line.append(digit_text(day / 10));
    } else {
        line.append(" ");
    }
    line.append(digit_text(day % 10));
    if holiday {
        line.append("*");
    } else {
        line.append(" ");
    }
    assert(line@ == old(line)@ + day_cell(day as int, holiday));
}

/// The text of a month's grid, a line for each week: blank cells up to the
/// column of the first day, then a cell for each day, holidays marked.
pub fn render_grid(holidays: &[Holiday], year: i32, month: i32) -> (lines: Vec<String>)
    ensures
        texts_of(lines@) == grid_lines(records_of(holidays@), year as int, month as int),
{
    let ghost records = records_of(holidays@);
    let grid = CalendarGrid::new(year, month);
    let first = grid.first_weekday;
    let count = first + grid.days_in_month;
    let mut lines: Vec<String> = Vec::new();
    let mut line = String::new();
    let mut position: i32 = 0;
    assert(texts_of(lines@) == weeks_before(records, year as int, month as int, 0));
    while position < count
        invariant
            0 <= position <= count == cell_count(year as int, month as int),
            0 <= first == weekday_of(year as int, month as int, 1) <= 6,
            count <= 37,
            records == records_of(holidays@),
            texts_of(lines@) == weeks_before(records, year as int, month as int, position as int / 7),
            line@ == cells(
                records,
                year as int,
                month as int,
                7 * (position as int / 7),
                position as int,
            ),
        decreases count - position,
    {
        if position < first {
            push_blank_cell(&mut line);
        } else {
            let day = position - first + 1;
            let marked = is_holiday(holidays, year, month, day).is_some();
            push_day_cell(&mut line, day, marked);
        }
        position += 1;
        if position % 7 == 0 {
            let ghost week = position as int / 7 - 1;
            let ghost before = texts_of(lines@);
            assert(line@ == week_line(records, year as int, month as int, week));
            lines.push(line);
            line = String::new();
            assert(texts_of(lines@) == before.push(
                week_line(records, year as int, month as int, week),
            ));
        }
    }
    if position % 7 != 0 {
        let ghost week = position as int / 7;
        let ghost before = texts_of(lines@);
        assert(line@ == week_line(records, year as int, month as int, week));
        lines.push(line);
        assert(texts_of(lines@) == before.push(week_line(records, year as int, month as int, week)));
    }
    lines
}

} // verus!
