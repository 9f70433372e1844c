use holiday_calendar::date::{get_days_in_month, get_weekday};
use holiday_calendar::grid::{render_grid, CalendarGrid};
use holiday_calendar::holiday::{is_holiday, load_holidays, Holiday};

fn holidays_of(lines: &[&str]) -> Vec<Holiday> {
    let mut rows = vec!["header".to_string()];
    rows.extend(lines.iter().map(|line| line.to_string()));
    load_holidays(&rows)
}

fn printed(holidays: &[Holiday], year: i32, month: i32) -> Vec<String> {
    let mut out = String::new();
    let first = get_weekday(year, month, 1);
    for _ in 0..first {
        out.push_str("    ");
    }
    let mut column = first;
    for day in 1..=get_days_in_month(year, month) {
        if is_holiday(holidays, year, month, day).is_some() {
            out.push_str(&format!("{:3}*", day));
        } else {
            out.push_str(&format!("{:3} ", day));
        }
        column += 1;
        if column == 7 {
            out.push('\n');
            column = 0;
        }
    }
    if column != 0 {
        out.push('\n');
    }
    out.lines().map(|line| line.to_string()).collect()
}

#[test]
fn grid_shape_of_a_month() {
    let grid = CalendarGrid::new(2025, 1);
    assert_eq!((grid.year, grid.month, grid.first_weekday, grid.days_in_month), (2025, 1, 3, 31));
    let grid = CalendarGrid::new(2024, 2);
    assert_eq!((grid.year, grid.month, grid.first_weekday, grid.days_in_month), (2024, 2, 4, 29));
    let grid = CalendarGrid::new(2026, 2);
    assert_eq!((grid.first_weekday, grid.days_in_month), (0, 28));
    let grid = CalendarGrid::new(2025, 13);
    assert_eq!(grid.days_in_month, 0);
}

#[test]
fn grid_of_january_2025() {
    let holidays = holidays_of(&["2025/1/1,元日", "2025/1/13,成人の日", "2025/2/11,建国記念の日"]);
    let lines = render_grid(&holidays, 2025, 1);
    assert_eq!(
        lines,
        vec![
            "              1*  2   3   4 ",
            "  5   6   7   8   9  10  11 ",
            " 12  13* 14  15  16  17  18 ",
            " 19  20  21  22  23  24  25 ",
            " 26  27  28  29  30  31 ",
        ]
    );
}

#[test]
fn grid_of_a_month_of_four_whole_weeks() {
    let lines = render_grid(&[], 2026, 2);
    assert_eq!(
        lines,
        vec![
            "  1   2   3   4   5   6   7 ",
            "  8   9  10  11  12  13  14 ",
            " 15  16  17  18  19  20  21 ",
            " 22  23  24  25  26  27  28 ",
        ]
    );
}

#[test]
fn grid_of_a_month_of_six_weeks() {
    let holidays = holidays_of(&["2025-03-20,Vernal Equinox Day", "2025-03-31,Last", "2025-03-31,Again"]);
    let lines = render_grid(&holidays, 2025, 3);
    assert_eq!(
        lines,
        vec![
            "                          1 ",
            "  2   3   4   5   6   7   8 ",
            "  9  10  11  12  13  14  15 ",
            " 16  17  18  19  20* 21  22 ",
            " 23  24  25  26  27  28  29 ",
            " 30  31*",
        ]
    );
}

#[test]
fn grid_of_no_month_has_no_days() {
    let lines = render_grid(&[], 2025, 13);
    let first = get_weekday(2025, 13, 1) as usize;
    if first == 0 {
        assert_eq!(lines, Vec::<String>::new());
    } else {
        assert_eq!(lines, vec!["    ".repeat(first)]);
    }
}

#[test]
fn grid_marks_a_day_that_a_lenient_record_names() {
    let holidays = holidays_of(&["2025-02-28,Real", "2025-02-30,Unreal"]);
    let lines = render_grid(&holidays, 2025, 2);
    assert_eq!(lines.last().unwrap(), " 23  24  25  26  27  28*");
}

#[test]
fn grid_agrees_with_printing_cell_by_cell() {
    let holidays = holidays_of(&[
        "2024-01-01,a",
        "2024-02-29,b",
        "2024-09-01,c",
        "2024-09-30,d",
        "2024-12-25,e",
        "1900-01-01,f",
        "2100-12-31,g",
    ]);
    for year in [1900, 1999, 2000, 2023, 2024, 2025, 2100] {
        for month in 1..=12 {
            assert_eq!(render_grid(&holidays, year, month), printed(&holidays, year, month), "{}-{}", year, month);
        }
    }
}
