//! Tests of the month and year renderers.

use calr::format_month;
use calr::format_months_of_year;
use calr::last_day_in_month;
use calr::CalendarDate;

fn date(year: i32, month: u32, day: u32) -> CalendarDate {
    CalendarDate { year, month, day }
}

#[test]
fn test_format_month() {
    let today = date(0, 1, 1);
    let leap_feburary = vec![
        "      2月 2024         ",
        "日 月 火 水 木 金 土  ",
        "             1  2  3  ",
        " 4  5  6  7  8  9 10  ",
        "11 12 13 14 15 16 17  ",
        "18 19 20 21 22 23 24  ",
        "25 26 27 28 29        ",
        "                      ",
    ];
    assert_eq!(format_month(2024, 2, true, today), leap_feburary);

    let may = vec![
        "         5月           ",
        "日 月 火 水 木 金 土  ",
        "          1  2  3  4  ",
        " 5  6  7  8  9 10 11  ",
        "12 13 14 15 16 17 18  ",
        "19 20 21 22 23 24 25  ",
        "26 27 28 29 30 31     ",
        "                      ",
    ];
    assert_eq!(format_month(2024, 5, false, today), may);

    let today = date(2024, 4, 1);
    let april = vec![
        "      4月 2024         ",
        "日 月 火 水 木 金 土  ",
        "   \u{1b}[7m 1\u{1b}[0m  2  3  4  5  6  ",
        " 7  8  9 10 11 12 13  ",
        "14 15 16 17 18 19 20  ",
        "21 22 23 24 25 26 27  ",
        "28 29 30              ",
        "                      ",
    ];
    assert_eq!(format_month(2024, 4, true, today), april);
}

#[test]
fn test_last_day_in_month() {
    assert_eq!(last_day_in_month(2024, 1), date(2024, 1, 31));
    assert_eq!(last_day_in_month(2024, 2), date(2024, 2, 29));
    assert_eq!(last_day_in_month(2024, 4), date(2024, 4, 30));
}

#[test]
fn last_day_february_leap_rule() {
    assert_eq!(last_day_in_month(2000, 2).day, 29);
    assert_eq!(last_day_in_month(1900, 2).day, 28);
    assert_eq!(last_day_in_month(2023, 2).day, 28);
    assert_eq!(last_day_in_month(2020, 2).day, 29);
    assert_eq!(last_day_in_month(1, 2).day, 28);
}

#[test]
fn test_2_2020_leap_year() {
    let expected = vec![
        "      2月 2020         ",
        "日 月 火 水 木 金 土  ",
        "                   1  ",
        " 2  3  4  5  6  7  8  ",
        " 9 10 11 12 13 14 15  ",
        "16 17 18 19 20 21 22  ",
        "23 24 25 26 27 28 29  ",
        "                      ",
    ];
    assert_eq!(format_month(2020, 2, true, date(0, 1, 1)), expected);
}

#[test]
fn test_4_2023() {
    let expected = vec![
        "      4月 2023         ",
        "日 月 火 水 木 金 土  ",
        "                   1  ",
        " 2  3  4  5  6  7  8  ",
        " 9 10 11 12 13 14 15  ",
        "16 17 18 19 20 21 22  ",
        "23 24 25 26 27 28 29  ",
        "30                    ",
    ];
    assert_eq!(format_month(2023, 4, true, date(0, 1, 1)), expected);
}

#[test]
fn test_april_2023() {
    let month = calr::parse_month("april").unwrap();
    let expected = vec![
        "      4月 2023         ",
        "日 月 火 水 木 金 土  ",
        "                   1  ",
        " 2  3  4  5  6  7  8  ",
        " 9 10 11 12 13 14 15  ",
        "16 17 18 19 20 21 22  ",
        "23 24 25 26 27 28 29  ",
        "30                    ",
    ];
    assert_eq!(format_month(2023, month, true, date(0, 1, 1)), expected);
}

#[test]
fn test_2023() {
    let expected = vec![
        "                            2023",
        "         1月                    2月                    3月           ",
        "日 月 火 水 木 金 土  日 月 火 水 木 金 土  日 月 火 水 木 金 土  ",
        " 1  2  3  4  5  6  7            1  2  3  4            1  2  3  4  ",
        " 8  9 10 11 12 13 14   5  6  7  8  9 10 11   5  6  7  8  9 10 11  ",
        "15 16 17 18 19 20 21  12 13 14 15 16 17 18  12 13 14 15 16 17 18  ",
        "22 23 24 25 26 27 28  19 20 21 22 23 24 25  19 20 21 22 23 24 25  ",
        "29 30 31              26 27 28              26 27 28 29 30 31     ",
        "                                                                  ",
        "",
        "         4月                    5月                    6月           ",
        "日 月 火 水 木 金 土  日 月 火 水 木 金 土  日 月 火 水 木 金 土  ",
        "                   1      1  2  3  4  5  6               1  2  3  ",
        " 2  3  4  5  6  7  8   7  8  9 10 11 12 13   4  5  6  7  8  9 10  ",
        " 9 10 11 12 13 14 15  14 15 16 17 18 19 20  11 12 13 14 15 16 17  ",
        "16 17 18 19 20 21 22  21 22 23 24 25 26 27  18 19 20 21 22 23 24  ",
        "23 24 25 26 27 28 29  28 29 30 31           25 26 27 28 29 30     ",
        "30                                                                ",
        "",
        "         7月                    8月                    9月           ",
        "日 月 火 水 木 金 土  日 月 火 水 木 金 土  日 月 火 水 木 金 土  ",
        "                   1         1  2  3  4  5                  1  2  ",
        " 2  3  4  5  6  7  8   6  7  8  9 10 11 12   3  4  5  6  7  8  9  ",
        " 9 10 11 12 13 14 15  13 14 15 16 17 18 19  10 11 12 13 14 15 16  ",
        "16 17 18 19 20 21 22  20 21 22 23 24 25 26  17 18 19 20 21 22 23  ",
        "23 24 25 26 27 28 29  27 28 29 30 31        24 25 26 27 28 29 30  ",
        "30 31                                                             ",
        "",
        "        10月                   11月                   12月           ",
        "日 月 火 水 木 金 土  日 月 火 水 木 金 土  日 月 火 水 木 金 土  ",
        " 1  2  3  4  5  6  7            1  2  3  4                  1  2  ",
        " 8  9 10 11 12 13 14   5  6  7  8  9 10 11   3  4  5  6  7  8  9  ",
        "15 16 17 18 19 20 21  12 13 14 15 16 17 18  10 11 12 13 14 15 16  ",
        "22 23 24 25 26 27 28  19 20 21 22 23 24 25  17 18 19 20 21 22 23  ",
        "29 30 31              26 27 28 29 30        24 25 26 27 28 29 30  ",
        "                                            31                    ",
    ];
    assert_eq!(format_months_of_year(2023, date(0, 1, 1)), expected);
}

#[test]
fn default_one_month() {
    let lines = format_month(2024, 5, true, date(2024, 5, 15));
    let mut joined = String::new();
    for line in &lines {
        joined.push_str(line);
        joined.push('\n');
    }
    let split: Vec<_> = joined.split('\n').collect();
    assert_eq!(split.len(), 9);
    assert_eq!(split[0].chars().count(), 22);
}

#[test]
fn year() {
    let lines = format_months_of_year(2024, date(0, 1, 1));
    assert_eq!(lines.len(), 36);
    let mut joined = String::new();
    for line in &lines {
        joined.push_str(line);
        joined.push('\n');
    }
    let split: Vec<_> = joined.split('\n').collect();
    assert_eq!(split.len(), 37);
}

#[test]
fn month_num() {
    let today = date(0, 1, 1);
    for m in 1..=12u32 {
        let lines = format_month(2024, m, true, today);
        let label = format!("{}月", m);
        assert!(lines[0].contains(&label));
    }
}

#[test]
fn highlight_only_on_today() {
    let esc = '\u{1b}';
    let today = date(2020, 2, 14);
    let lines = format_month(2020, 2, true, today);
    assert!(lines.iter().any(|l| l.contains(esc)));
    assert!(lines[4].contains("\u{1b}[7m14\u{1b}[0m"));

    for (y, m) in [(2020i32, 3u32), (2021, 2), (2019, 2)] {
        let lines = format_month(y, m, true, today);
        assert!(lines.iter().all(|l| !l.contains(esc)));
    }
    let year_view = format_months_of_year(2020, date(0, 1, 1));
    assert!(year_view.iter().all(|l| !l.contains(esc)));
}

#[test]
fn quarter_rows_match_single_months() {
    let today = date(2023, 6, 10);
    let year_view = format_months_of_year(2023, today);
    for q in 0..4u32 {
        let m1 = format_month(2023, 3 * q + 1, false, today);
        let m2 = format_month(2023, 3 * q + 2, false, today);
        let m3 = format_month(2023, 3 * q + 3, false, today);
        for i in 0..8usize {
            let composed = format!("{}{}{}", m1[i], m2[i], m3[i]);
            assert_eq!(year_view[1 + 9 * (q as usize) + i], composed);
        }
    }
}

#[test]
fn args_dispatch() {
    let today = date(2024, 5, 15);

    let args = calr::Args { month: Some(2), year: Some(2020), show_current_year: false };
    assert_eq!(
        calr::render_for_args(&args, today),
        format_month(2020, 2, true, today)
    );

    let args = calr::Args { month: Some(3), year: None, show_current_year: false };
    assert_eq!(
        calr::render_for_args(&args, today),
        format_month(2024, 3, true, today)
    );

    let args = calr::Args { month: None, year: Some(2023), show_current_year: false };
    assert_eq!(
        calr::render_for_args(&args, today),
        format_months_of_year(2023, today)
    );

    let args = calr::Args { month: None, year: None, show_current_year: false };
    assert_eq!(
        calr::render_for_args(&args, today),
        format_month(2024, 5, true, today)
    );

    let args = calr::Args { month: None, year: None, show_current_year: true };
    assert_eq!(
        calr::render_for_args(&args, today),
        format_months_of_year(2024, today)
    );
}

#[test]
fn six_week_month() {
    let expected = vec![
        "      3月 2025         ",
        "日 月 火 水 木 金 土  ",
        "                   1  ",
        " 2  3  4  5  6  7  8  ",
        " 9 10 11 12 13 14 15  ",
        "16 17 18 19 20 21 22  ",
        "23 24 25 26 27 28 29  ",
        "30 31                 ",
    ];
    assert_eq!(format_month(2025, 3, true, date(0, 1, 1)), expected);
}
