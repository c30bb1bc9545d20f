//! Presentation configuration and colors for rendered tables.
//!
//! The actual printing is done outside the library; these values and the
//! color-selection rule are what the presentation layer consumes.

use vstd::prelude::*;

verus! {

/// Relies on `atty::is(atty::Stream::Stdout)`: whether standard output is a
/// terminal. The answer depends on the process environment, so nothing is
/// promised of it.
#[verifier::external_body]
fn stdout_is_terminal() -> bool {
    atty::is(atty::Stream::Stdout)
}

/// Configuration for output display.
#[derive(Debug, Clone)]
pub struct OutputConfig {
    /// Whether to use colors in output.
    pub use_colors: bool,
    /// Width of the bar chart.
    pub bar_width: usize,
    /// Width of the size column.
    pub size_width: usize,
    /// Width of the percentage column.
    pub percent_width: usize,
    /// Width of the name column.
    pub name_width: usize,
}

impl Default for OutputConfig {
    /// Colors default to on exactly when standard output is a terminal.
    fn default() -> (r: Self)
        ensures
            r.bar_width == 30,
            r.size_width == 8,
            r.percent_width == 5,
            r.name_width == 30,
    {
        OutputConfig {
            use_colors: stdout_is_terminal(),
            bar_width: 30,
            size_width: 8,
            percent_width: 5,
            name_width: 30,
        }
    }
}

/// ANSI color codes used by the table renderer.
pub struct Colors {
    pub green: &'static str,
    pub yellow: &'static str,
    pub red: &'static str,
    pub reset: &'static str,
}

impl Colors {
    /// The palette used on a color terminal.
    pub fn enabled() -> (r: Colors)
        ensures
            r.green@ == "\x1b[38;5;34m"@,
            r.yellow@ == "\x1b[38;5;220m"@,
            r.red@ == "\x1b[38;5;160m"@,
            r.reset@ == "\x1b[0m"@,
    {
        Colors {
            green: "\x1b[38;5;34m",
            yellow: "\x1b[38;5;220m",
            red: "\x1b[38;5;160m",
            reset: "\x1b[0m",
        }
    }

    /// The empty palette used when colors are off.
    pub fn disabled() -> (r: Colors)
        ensures
            r.green@ == ""@,
            r.yellow@ == ""@,
            r.red@ == ""@,
            r.reset@ == ""@,
            r.green@.len() == 0,
    {
        proof {
            reveal_strlit("");
        }
        Colors { green: "", yellow: "", red: "", reset: "" }
    }
}

/// The color chosen for a bar: red from half the bar width up, yellow from
/// a third up, green below.
pub open spec fn spec_select_color(bar_length: int, bar_width: int, c: Colors) -> Seq<char> {
    if bar_length >= bar_width * 50 / 100 {
        c.red@
    } else if bar_length >= bar_width * 33 / 100 {
        c.yellow@
    } else {
        c.green@
    }
}

/// Select the color for a bar of `bar_length` cells out of `bar_width`.
///
/// The width bound keeps the threshold arithmetic within the machine range.
pub fn select_color<'a>(bar_length: usize, bar_width: usize, colors: &'a Colors) -> (r: &'a str)
    requires
        bar_width <= usize::MAX / 100,
    ensures
        r@ == spec_select_color(bar_length as int, bar_width as int, *colors),
{
    let threshold_yellow = bar_width * 33 / 100;
    let threshold_red = bar_width * 50 / 100;
    if bar_length >= threshold_red {
        colors.red
    } else if bar_length >= threshold_yellow {
        colors.yellow
    } else {
        colors.green
    }
}

} // verus!
