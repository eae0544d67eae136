//! Calendar rendering: one month as eight fixed-width lines, and a whole
//! year as twelve months composed three abreast into four quarter rows.

use vstd::prelude::*;

use crate::date::CalendarDate;
use crate::date::days_before_month;
use crate::date::days_in_month;
use crate::date::days_in_month_exec;
use crate::date::rata_die;
use crate::date::weekday_from_sunday;
use crate::text::center;
use crate::text::dec_chars;
use crate::text::lemma_dec_chars_len;
use crate::text::ljust;
use crate::text::push_char;
use crate::text::push_dec;
use crate::text::push_spaces;
use crate::text::rjust;
use crate::text::spaces;

verus! {

/// The SGR sequence that turns reverse video on.
pub open spec fn hl_prefix() -> Seq<char> {
    seq!['\u{1b}', '[', '7', 'm']
}

/// The SGR sequence that resets the style.
pub open spec fn hl_suffix() -> Seq<char> {
    seq!['\u{1b}', '[', '0', 'm']
}

/// Relies on ansi_term::Style::paint: painting with a style whose only
/// property is reverse brackets the text in ESC[7m and ESC[0m.
#[verifier::external_body]
fn paint_reverse(s: &str) -> (r: String)
    ensures
        r@ == hl_prefix() + s@ + hl_suffix(),
{
    ansi_term::Style::new().reverse().paint(s).to_string()
}

/// The display label of a month: its number followed by the month sign.
pub open spec fn month_label(m: int) -> Seq<char> {
    dec_chars(m) + seq!['月']
}

/// The constant weekday header, Sunday through Saturday.
pub open spec fn weekday_header() -> Seq<char> {
    "日 月 火 水 木 金 土  "@
}

/// Whether `today` is exactly the given calendar day.
pub open spec fn is_today(y: int, m: int, d: int, today: CalendarDate) -> bool {
    today.year == y && today.month == m && today.day == d
}

/// A day number right-aligned to two columns.
pub open spec fn plain_cell(d: int) -> Seq<char> {
    rjust(dec_chars(d), 2)
}

/// A day's two-column cell, wrapped in reverse video when it is `today`.
pub open spec fn day_cell(y: int, m: int, d: int, today: CalendarDate) -> Seq<char> {
    if is_today(y, m, d, today) {
        hl_prefix() + plain_cell(d) + hl_suffix()
    } else {
        plain_cell(d)
    }
}

/// The day that falls in week `w` (from 0), cell `c` (from 0) of the month
/// grid; out-of-month positions give numbers outside 1..=last.
pub open spec fn day_at(y: int, m: int, w: int, c: int) -> int {
    7 * w + c + 2 - weekday_from_sunday(y, m, 1)
}

/// One three-column grid cell: a day followed by a space, or blank.
pub open spec fn cell_at(y: int, m: int, w: int, c: int, today: CalendarDate) -> Seq<char> {
    let d = day_at(y, m, w, c);
    if 1 <= d <= days_in_month(y, m) {
        day_cell(y, m, d, today) + seq![' ']
    } else {
        spaces(3)
    }
}

/// The first `c` cells of week row `w`, concatenated.
pub open spec fn row_prefix(y: int, m: int, w: int, c: int, today: CalendarDate) -> Seq<char>
    decreases c,
{
    if c <= 0 {
        Seq::empty()
    } else {
        row_prefix(y, m, w, c - 1, today) + cell_at(y, m, w, c - 1, today)
    }
}

/// A full week row: seven cells and one trailing space.
pub open spec fn week_row(y: int, m: int, w: int, today: CalendarDate) -> Seq<char> {
    row_prefix(y, m, w, 7, today) + seq![' ']
}

/// The header line: label and year, or the centred label alone.
pub open spec fn header_line(y: int, m: int, print_year: bool) -> Seq<char> {
    if print_year {
        rjust(month_label(m), 8) + seq![' '] + ljust(dec_chars(y), 13)
    } else {
        center(month_label(m), 20) + spaces(2)
    }
}

/// The eight lines of one rendered month: header, weekday header, and six
/// week rows (trailing weeks with no days render as blank lines).
pub open spec fn month_lines(y: int, m: int, print_year: bool, today: CalendarDate) -> Seq<
    Seq<char>,
> {
    seq![header_line(y, m, print_year), weekday_header()] + Seq::new(
        6,
        |w: int| week_row(y, m, w, today),
    )
}

/// Days in a year that precede month `m`, as an executable value.
fn days_before_month_exec(year: i32, month: u32) -> (r: u32)
    requires
        1 <= year <= 9999,
        1 <= month <= 12,
    ensures
        r == days_before_month(year as int, month as int),
        r <= 366,
{
    let mut acc: u32 = 0;
    let mut mm: u32 = 1;
    while mm < month
        invariant
            1 <= year <= 9999,
            1 <= mm <= month <= 12,
            acc == days_before_month(year as int, mm as int),
            acc <= 31 * (mm - 1),
        decreases month - mm,
    {
        acc = acc + days_in_month_exec(year, mm);
        mm = mm + 1;
    }
    acc
}

/// Weekday of the first day of the month, Sunday = 1 through Saturday = 7.
fn first_weekday(year: i32, month: u32) -> (w: u32)
    requires
        1 <= year <= 9999,
        1 <= month <= 12,
    ensures
        w == weekday_from_sunday(year as int, month as int, 1),
        1 <= w <= 7,
{
    let y: u64 = (year - 1) as u64;
    let before: u64 = days_before_month_exec(year, month) as u64;
    let q4: u64 = y / 4;
    let q100: u64 = y / 100;
    let q400: u64 = y / 400;
    proof {
        assert(q100 <= 100 * q100 <= y) by {
            assert(y == 100 * (y as int / 100) + y as int % 100) by (nonlinear_arith);
        }
        assert(y * 365 <= 9998 * 365) by (nonlinear_arith)
            requires
                y <= 9998,
        ;
    }
    let a: u64 = y * 365 + q4 + q400 + before + 1;
    let rd: u64 = a - q100;
    proof {
        assert(rd == rata_die(year as int, month as int, 1));
    }
    let wd: u64 = rd % 7 + 1;
    wd as u32
}

/// Renders one month as exactly eight fixed-width lines: a header, the
/// weekday header, and six week rows, blank-padded so every month fills
/// the same block.
pub fn format_month(year: i32, month: u32, print_year: bool, today: CalendarDate) -> (r: Vec<
    String,
>)
    requires
        1 <= year <= 9999,
        1 <= month <= 12,
    ensures
        r@.len() == 8,
        forall|i: int|
            0 <= i < 8 ==> (#[trigger] r@[i])@ == month_lines(
                year as int,
                month as int,
                print_year,
                today,
            )[i],
{
    let ghost spec_lines = month_lines(year as int, month as int, print_year, today);
    let mut lines: Vec<String> = Vec::new();

    // header line
    let lab_len: usize = if month < 10 {
        2
    } else {
        3
    };
    proof {
        lemma_dec_chars_len(month as int);
        assert(month_label(month as int).len() == lab_len);
    }
    let mut header = String::new();
    if print_year {
        push_spaces(&mut header, 8 - lab_len);
        push_dec(&mut header, month);
        push_char(&mut header, '月');
        push_char(&mut header, ' ');
        let ylen: usize = if year < 10 {
            1
        } else if year < 100 {
            2
        } else if year < 1000 {
            3
        } else {
            4
        };
        proof {
            lemma_dec_chars_len(year as int);
        }
        push_dec(&mut header, year as u32);
        push_spaces(&mut header, 13 - ylen);
        proof {
            assert(header@ =~= header_line(year as int, month as int, print_year));
        }
    } else {
        let left: usize = (20 - lab_len) / 2;
        push_spaces(&mut header, left);
        push_dec(&mut header, month);
        push_char(&mut header, '月');
        push_spaces(&mut header, 20 - lab_len - left);
        push_spaces(&mut header, 2);
        proof {
            assert(header@ =~= header_line(year as int, month as int, print_year));
        }
    }
    lines.push(header);

    // weekday header line
    let mut wd_header = String::new();
    wd_header.append("日 月 火 水 木 金 土  ");
    lines.push(wd_header);

    // six week rows
    let fdow: u32 = first_weekday(year, month);
    let last: u32 = days_in_month_exec(year, month);
    let mut w: usize = 0;
    while w < 6
        invariant
            1 <= year <= 9999,
            1 <= month <= 12,
            fdow == weekday_from_sunday(year as int, month as int, 1),
            1 <= fdow <= 7,
            last == days_in_month(year as int, month as int),
            28 <= last <= 31,
            w <= 6,
            lines@.len() == 2 + w,
            spec_lines == month_lines(year as int, month as int, print_year, today),
            forall|i: int| 0 <= i < lines@.len() ==> (#[trigger] lines@[i])@ == spec_lines[i],
        decreases 6 - w,
    {
        let mut row = String::new();
        let mut c: usize = 0;
        while c < 7
            invariant
                1 <= year <= 9999,
                1 <= month <= 12,
                fdow == weekday_from_sunday(year as int, month as int, 1),
                1 <= fdow <= 7,
                last == days_in_month(year as int, month as int),
                28 <= last <= 31,
                w <= 6,
                c <= 7,
                row@ == row_prefix(year as int, month as int, w as int, c as int, today),
            decreases 7 - c,
        {
            let ghost row_before = row@;
            let d: i64 = 7 * (w as i64) + (c as i64) + 2 - (fdow as i64);
            proof {
                assert(d == day_at(year as int, month as int, w as int, c as int));
            }
            if 1 <= d && d <= last as i64 {
                let dd: u32 = d as u32;
                let ghost cell = day_cell(year as int, month as int, dd as int, today);
                if today.year == year && today.month == month && today.day == dd {
                    let mut cellb = String::new();
                    if dd < 10 {
                        push_char(&mut cellb, ' ');
                    }
                    push_dec(&mut cellb, dd);
                    proof {
                        lemma_dec_chars_len(dd as int);
                        assert(spaces(1) =~= seq![' ']);
                        assert(cellb@ =~= plain_cell(dd as int));
                    }
                    let painted = paint_reverse(cellb.as_str());
                    row.append(painted.as_str());
                    proof {
                        assert(row@ =~= row_before + cell);
                    }
                } else {
                    if dd < 10 {
                        push_char(&mut row, ' ');
                    }
                    push_dec(&mut row, dd);
                    proof {
                        lemma_dec_chars_len(dd as int);
                        assert(spaces(1) =~= seq![' ']);
                        assert(row@ =~= row_before + cell);
                    }
                }
                push_char(&mut row, ' ');
                proof {
                    assert(row@ =~= row_before + cell_at(
                        year as int,
                        month as int,
                        w as int,
                        c as int,
                        today,
                    ));
                }
            } else {
                push_spaces(&mut row, 3);
                proof {
                    assert(row@ =~= row_before + cell_at(
                        year as int,
                        month as int,
                        w as int,
                        c as int,
                        today,
                    ));
                }
            }
            proof {
                assert(row@ =~= row_prefix(
                    year as int,
                    month as int,
                    w as int,
                    c as int + 1,
                    today,
                ));
            }
            c = c + 1;
        }
        push_char(&mut row, ' ');
        proof {
            assert(row@ =~= week_row(year as int, month as int, w as int, today));
            assert(spec_lines[2 + w as int] == week_row(year as int, month as int, w as int, today));
        }
        lines.push(row);
        w = w + 1;
    }
    lines
}

/// Line `i` of quarter `q` (from 0): the same line of the quarter's three
/// months, concatenated.
pub open spec fn quarter_block(y: int, q: int, today: CalendarDate) -> Seq<Seq<char>> {
    Seq::new(
        8,
        |i: int|
            month_lines(y, 3 * q + 1, false, today)[i] + month_lines(y, 3 * q + 2, false, today)[i]
                + month_lines(y, 3 * q + 3, false, today)[i],
    )
}

/// The thirty-six lines of a rendered year: the year right-aligned to 32
/// columns, then four quarter blocks of eight lines, a blank line between
/// consecutive quarters.
pub open spec fn year_lines(y: int, today: CalendarDate) -> Seq<Seq<char>> {
    seq![rjust(dec_chars(y), 32)] + quarter_block(y, 0, today) + seq![Seq::<char>::empty()]
        + quarter_block(y, 1, today) + seq![Seq::<char>::empty()] + quarter_block(y, 2, today)
        + seq![Seq::<char>::empty()] + quarter_block(y, 3, today)
}

/// Where each line of `year_lines` comes from: the header at 0, quarter
/// `q`'s lines at 1 + 9q .. 9 + 9q, and blank separators between quarters.
pub proof fn lemma_year_lines_index(y: int, today: CalendarDate)
    ensures
        year_lines(y, today).len() == 36,
        year_lines(y, today)[0] == rjust(dec_chars(y), 32),
        forall|q: int, i: int|
            0 <= q < 4 && 0 <= i < 8 ==> year_lines(y, today)[1 + 9 * q + i] == #[trigger] quarter_block(
                y,
                q,
                today,
            )[i],
        forall|q: int|
            0 <= q < 3 ==> year_lines(y, today)[#[trigger] (9 * q) + 9] == Seq::<char>::empty(),
{
    assert forall|q: int, i: int| 0 <= q < 4 && 0 <= i < 8 implies year_lines(y, today)[1 + 9 * q
        + i] == #[trigger] quarter_block(y, q, today)[i] by {
        if q == 0 {
            assert(year_lines(y, today)[1 + i] == quarter_block(y, 0, today)[i]);
        } else if q == 1 {
            assert(year_lines(y, today)[10 + i] == quarter_block(y, 1, today)[i]);
        } else if q == 2 {
            assert(year_lines(y, today)[19 + i] == quarter_block(y, 2, today)[i]);
        } else {
            assert(year_lines(y, today)[28 + i] == quarter_block(y, 3, today)[i]);
        }
    }
}

/// The three months composed into one quarter row of the year view are,
/// line for line, the same lines that rendering each month alone (without
/// the year in its header) produces.
pub proof fn lemma_quarter_composition(y: int, today: CalendarDate, q: int, i: int)
    requires
        0 <= q < 4,
        0 <= i < 8,
    ensures
        year_lines(y, today)[1 + 9 * q + i] == month_lines(y, 3 * q + 1, false, today)[i]
            + month_lines(y, 3 * q + 2, false, today)[i] + month_lines(y, 3 * q + 3, false, today)[i],
{
    lemma_year_lines_index(y, today);
}

/// Renders a whole year: a year header, then four quarter rows of three
/// months each, separated by blank lines — 36 lines in all (the caller's
/// newline join adds the final, thirty-seventh blank line).
pub fn format_months_of_year(year: i32, today: CalendarDate) -> (r: Vec<String>)
    requires
        1 <= year <= 9999,
    ensures
        r@.len() == 36,
        forall|i: int|
            0 <= i < 36 ==> (#[trigger] r@[i])@ == year_lines(year as int, today)[i],
{
    proof {
        lemma_year_lines_index(year as int, today);
    }
    let mut lines: Vec<String> = Vec::new();

    let ylen: usize = if year < 10 {
        1
    } else if year < 100 {
        2
    } else if year < 1000 {
        3
    } else {
        4
    };
    proof {
        lemma_dec_chars_len(year as int);
    }
    let mut header = String::new();
    push_spaces(&mut header, 32 - ylen);
    push_dec(&mut header, year as u32);
    proof {
        assert(header@ =~= rjust(dec_chars(year as int), 32));
    }
    lines.push(header);

    let mut q: usize = 0;
    while q < 4
        invariant
            1 <= year <= 9999,
            q <= 4,
            lines@.len() == if q < 4 {
                1 + 9 * q
            } else {
                36
            },
            forall|i: int|
                0 <= i < lines@.len() ==> (#[trigger] lines@[i])@ == year_lines(year as int, today)[i],
        decreases 4 - q,
    {
        let m1 = format_month(year, 3 * (q as u32) + 1, false, today);
        let m2 = format_month(year, 3 * (q as u32) + 2, false, today);
        let m3 = format_month(year, 3 * (q as u32) + 3, false, today);
        let mut i: usize = 0;
        while i < 8
            invariant
                1 <= year <= 9999,
                q < 4,
                i <= 8,
                m1@.len() == 8,
                m2@.len() == 8,
                m3@.len() == 8,
                forall|j: int|
                    0 <= j < 8 ==> (#[trigger] m1@[j])@ == month_lines(
                        year as int,
                        3 * (q as int) + 1,
                        false,
                        today,
                    )[j],
                forall|j: int|
                    0 <= j < 8 ==> (#[trigger] m2@[j])@ == month_lines(
                        year as int,
                        3 * (q as int) + 2,
                        false,
                        today,
                    )[j],
                forall|j: int|
                    0 <= j < 8 ==> (#[trigger] m3@[j])@ == month_lines(
                        year as int,
                        3 * (q as int) + 3,
                        false,
                        today,
                    )[j],
                lines@.len() == 1 + 9 * q + i,
                forall|j: int|
                    0 <= j < lines@.len() ==> (#[trigger] lines@[j])@ == year_lines(
                        year as int,
                        today,
                    )[j],
            decreases 8 - i,
        {
            let mut line = String::new();
            line.append(m1[i].as_str());
            line.append(m2[i].as_str());
            line.append(m3[i].as_str());
            proof {
                lemma_year_lines_index(year as int, today);
                assert(line@ == year_lines(year as int, today)[1 + 9 * (q as int) + i as int]);
            }
            lines.push(line);
            i = i + 1;
        }
        if q != 3 {
            let sep = String::new();
            proof {
                lemma_year_lines_index(year as int, today);
                assert(sep@ =~= year_lines(year as int, today)[9 * (q as int) + 9]);
            }
            lines.push(sep);
        }
        q = q + 1;
    }
    lines
}

/// Today falls inside the rendered month.
pub open spec fn month_has_today(y: int, m: int, today: CalendarDate) -> bool {
    today.year == y && today.month == m && 1 <= today.day <= days_in_month(y, m)
}

/// The cell index (0..7) of week row `w` that would hold today's day.
pub open spec fn today_cell_index(y: int, m: int, w: int, today: CalendarDate) -> int {
    today.day + weekday_from_sunday(y, m, 1) - 2 - 7 * w
}

/// The week row (0..6) that holds today's day.
pub open spec fn today_row(y: int, m: int, today: CalendarDate) -> int {
    (today.day + weekday_from_sunday(y, m, 1) - 2) / 7
}

/// The length of a partial week row: three characters a cell, eight more
/// once the highlighted cell is among them.
proof fn lemma_row_prefix_len(y: int, m: int, w: int, c: int, today: CalendarDate)
    requires
        1 <= m <= 12,
        0 <= c <= 7,
    ensures
        ({
            let hc = today_cell_index(y, m, w, today);
            if month_has_today(y, m, today) && 0 <= hc < c {
                row_prefix(y, m, w, c, today).len() == 3 * c + 8
            } else {
                row_prefix(y, m, w, c, today).len() == 3 * c
            }
        }),
    decreases c,
{
    if c > 0 {
        lemma_row_prefix_len(y, m, w, c - 1, today);
        let d = day_at(y, m, w, c - 1);
        if 1 <= d <= days_in_month(y, m) {
            lemma_dec_chars_len(d);
            assert(plain_cell(d).len() == 2);
        }
    }
}

/// How long each of the eight lines of a rendered month is: the weekday
/// header has 15 characters (seven two-column labels and their
/// separators), every other line 22 — eight more on the row that carries
/// the highlighted day, whose escape codes take no columns.
pub proof fn lemma_month_line_widths(y: int, m: int, print_year: bool, today: CalendarDate)
    requires
        1 <= y <= 9999,
        1 <= m <= 12,
    ensures
        month_lines(y, m, print_year, today).len() == 8,
        month_lines(y, m, print_year, today)[0].len() == 22,
        month_lines(y, m, print_year, today)[1].len() == 15,
        forall|i: int|
            2 <= i < 8 ==> #[trigger] month_lines(y, m, print_year, today)[i].len() == (
            if month_has_today(y, m, today) && i == 2 + today_row(y, m, today) {
                30int
            } else {
                22int
            }),
{
    lemma_dec_chars_len(m);
    lemma_dec_chars_len(y);
    reveal_strlit("日 月 火 水 木 金 土  ");
    assert(month_lines(y, m, print_year, today)[0].len() == 22);
    let f = weekday_from_sunday(y, m, 1);
    assert(1 <= f <= 7);
    assert forall|i: int| 2 <= i < 8 implies #[trigger] month_lines(y, m, print_year, today)[
        i
    ].len() == (if month_has_today(y, m, today) && i == 2 + today_row(y, m, today) {
        30int
    } else {
        22int
    }) by {
        let w = i - 2;
        lemma_row_prefix_len(y, m, w, 7, today);
        if month_has_today(y, m, today) {
            let x = today.day + f - 2;
            assert(0 <= today_cell_index(y, m, w, today) < 7 <==> w == x / 7);
        }
    }
}

/// No character of a sequence is the escape character.
pub open spec fn esc_free(s: Seq<char>) -> bool {
    forall|k: int| 0 <= k < s.len() ==> s[k] != '\u{1b}'
}

proof fn lemma_esc_free_concat(a: Seq<char>, b: Seq<char>)
    requires
        esc_free(a),
        esc_free(b),
    ensures
        esc_free(a + b),
{
    assert forall|k: int| 0 <= k < (a + b).len() implies (a + b)[k] != '\u{1b}' by {
        if k < a.len() {
            assert((a + b)[k] == a[k]);
        } else {
            assert((a + b)[k] == b[k - a.len()]);
        }
    }
}

proof fn lemma_esc_free_row_prefix(y: int, m: int, w: int, c: int, today: CalendarDate)
    requires
        1 <= m <= 12,
        0 <= c <= 7,
        !month_has_today(y, m, today),
    ensures
        esc_free(row_prefix(y, m, w, c, today)),
    decreases c,
{
    if c > 0 {
        lemma_esc_free_row_prefix(y, m, w, c - 1, today);
        let d = day_at(y, m, w, c - 1);
        let cell = cell_at(y, m, w, c - 1, today);
        if 1 <= d <= days_in_month(y, m) {
            lemma_dec_chars_len(d);
            assert(!is_today(y, m, d, today));
            assert(esc_free(plain_cell(d)));
            lemma_esc_free_concat(plain_cell(d), seq![' ']);
        }
        assert(esc_free(cell));
        lemma_esc_free_concat(row_prefix(y, m, w, c - 1, today), cell);
    }
}

/// When today falls outside the rendered month, no line of its output
/// contains the escape character, so no styling appears at all.
pub proof fn lemma_no_highlight(y: int, m: int, print_year: bool, today: CalendarDate)
    requires
        1 <= y <= 9999,
        1 <= m <= 12,
        !month_has_today(y, m, today),
    ensures
        forall|i: int|
            0 <= i < 8 ==> esc_free(#[trigger] month_lines(y, m, print_year, today)[i]),
{
    lemma_dec_chars_len(m);
    lemma_dec_chars_len(y);
    reveal_strlit("日 月 火 水 木 金 土  ");
    let lines = month_lines(y, m, print_year, today);
    assert(esc_free(lines[0]));
    assert(esc_free(lines[1]));
    assert forall|i: int| 2 <= i < 8 implies esc_free(#[trigger] month_lines(
        y,
        m,
        print_year,
        today,
    )[i]) by {
        lemma_esc_free_row_prefix(y, m, i - 2, 7, today);
        lemma_esc_free_concat(row_prefix(y, m, i - 2, 7, today), seq![' ']);
    }
}

proof fn lemma_highlight_in_row_prefix(y: int, m: int, w: int, c: int, today: CalendarDate)
    requires
        1 <= y <= 9999,
        1 <= m <= 12,
        month_has_today(y, m, today),
        0 <= today_cell_index(y, m, w, today),
        today_cell_index(y, m, w, today) < c <= 7,
    ensures
        ({
            let col = today_cell_index(y, m, w, today);
            row_prefix(y, m, w, c, today).subrange(3 * col, 3 * col + 10) == hl_prefix()
                + plain_cell(today.day as int) + hl_suffix()
        }),
    decreases c,
{
    let col = today_cell_index(y, m, w, today);
    lemma_dec_chars_len(today.day as int);
    if c == col + 1 {
        lemma_row_prefix_len(y, m, w, col, today);
        assert(day_at(y, m, w, col) == today.day);
        assert(is_today(y, m, today.day as int, today));
        assert(row_prefix(y, m, w, c, today).subrange(3 * col, 3 * col + 10) =~= hl_prefix()
            + plain_cell(today.day as int) + hl_suffix());
    } else {
        lemma_highlight_in_row_prefix(y, m, w, c - 1, today);
        lemma_row_prefix_len(y, m, w, c - 1, today);
        assert(row_prefix(y, m, w, c, today).subrange(3 * col, 3 * col + 10) =~= row_prefix(
            y,
            m,
            w,
            c - 1,
            today,
        ).subrange(3 * col, 3 * col + 10));
    }
}

/// When today falls inside the rendered month, the row holding it carries
/// today's two-column day cell wrapped in the reverse-video escape codes,
/// at the exact column position of that day.
pub proof fn lemma_highlight_position(y: int, m: int, print_year: bool, today: CalendarDate)
    requires
        1 <= y <= 9999,
        1 <= m <= 12,
        month_has_today(y, m, today),
    ensures
        ({
            let w = today_row(y, m, today);
            let col = today_cell_index(y, m, w, today);
            0 <= w < 6 && 0 <= col < 7 && month_lines(y, m, print_year, today)[2 + w].subrange(
                3 * col,
                3 * col + 10,
            ) == hl_prefix() + plain_cell(today.day as int) + hl_suffix()
        }),
{
    let f = weekday_from_sunday(y, m, 1);
    assert(1 <= f <= 7);
    let x = today.day + f - 2;
    let w = today_row(y, m, today);
    let col = today_cell_index(y, m, w, today);
    assert(0 <= x <= 36);
    assert(w == x / 7);
    assert(0 <= w < 6);
    assert(col == x - 7 * w);
    assert(0 <= col < 7);
    lemma_highlight_in_row_prefix(y, m, w, 7, today);
    lemma_row_prefix_len(y, m, w, 7, today);
    assert(month_lines(y, m, print_year, today)[2 + w] == week_row(y, m, w, today));
    assert(week_row(y, m, w, today).subrange(3 * col, 3 * col + 10) =~= row_prefix(
        y,
        m,
        w,
        7,
        today,
    ).subrange(3 * col, 3 * col + 10));
}


} // verus!
