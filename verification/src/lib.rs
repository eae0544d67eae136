//! A calendar renderer: one month as an eight-line fixed-width grid, or a
//! whole year as twelve months laid out three abreast, with the current
//! day shown in reverse video.

use vstd::prelude::*;

mod date;
mod parse;
mod render;
mod text;

pub use date::CalendarDate;
pub use date::last_day_in_month;
pub use parse::parse_month;
pub use parse::parse_year;
pub use render::format_month;
pub use render::format_months_of_year;

use render::month_lines;
use render::year_lines;

verus! {

/// The resolved command-line arguments: an optional month, an optional
/// year, and whether the whole current year was asked for (which the
/// caller's argument parser makes exclusive of the other two).
#[derive(Clone, Debug)]
pub struct Args {
    pub month: Option<u32>,
    pub year: Option<i32>,
    pub show_current_year: bool,
}

/// Whether the arguments, together with today's date, stay on the domain
/// the renderers are defined on.
pub open spec fn args_renderable(args: Args, today: CalendarDate) -> bool {
    if args.show_current_year {
        1 <= today.year <= 9999
    } else {
        match (args.month, args.year) {
            (Some(m), Some(y)) => 1 <= m <= 12 && 1 <= y <= 9999,
            (Some(m), None) => 1 <= m <= 12 && 1 <= today.year <= 9999,
            (None, Some(y)) => 1 <= y <= 9999,
            (None, None) => 1 <= today.year <= 9999 && 1 <= today.month <= 12,
        }
    }
}

/// What the arguments resolve to: the year view of the chosen or current
/// year, or the month view (with the year in its header) of the chosen or
/// current month.
pub open spec fn render_spec(args: Args, today: CalendarDate) -> Seq<Seq<char>> {
    if args.show_current_year {
        year_lines(today.year as int, today)
    } else {
        match (args.month, args.year) {
            (Some(m), Some(y)) => month_lines(y as int, m as int, true, today),
            (Some(m), None) => month_lines(today.year as int, m as int, true, today),
            (None, Some(y)) => year_lines(y as int, today),
            (None, None) => month_lines(today.year as int, today.month as int, true, today),
        }
    }
}

/// Picks and runs the renderer the arguments ask for: a named month
/// renders alone with its year; a year alone, or the current-year flag,
/// renders the whole year; nothing at all renders the current month.
pub fn render_for_args(args: &Args, today: CalendarDate) -> (r: Vec<String>)
    requires
        args_renderable(*args, today),
    ensures
        r@.len() == render_spec(*args, today).len(),
        forall|i: int|
            0 <= i < r@.len() ==> (#[trigger] r@[i])@ == render_spec(*args, today)[i],
{
    if args.show_current_year {
        format_months_of_year(today.year, today)
    } else {
        match (args.month, args.year) {
            (Some(m), Some(y)) => format_month(y, m, true, today),
            (Some(m), None) => format_month(today.year, m, true, today),
            (None, Some(y)) => format_months_of_year(y, today),
            (None, None) => format_month(today.year, today.month, true, today),
        }
    }
}

} // verus!
