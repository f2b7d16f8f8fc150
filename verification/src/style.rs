//! Colors for terminals.

use owo_colors::AnsiColors;
use owo_colors::OwoColorize;
use vstd::prelude::*;

verus! {

#[derive(Clone, Copy, PartialEq, Eq, Structural, Debug)]
pub enum Color {
    Cyan,
    Magenta,
    Green,
    Yellow,
    Blue,
    Red,
}

impl Color {
    /// The number that selects the color in an escape sequence.
    pub open spec fn code(&self) -> Seq<char> {
        match self {
            Color::Cyan => "36"@,
            Color::Magenta => "35"@,
            Color::Green => "32"@,
            Color::Yellow => "33"@,
            Color::Blue => "34"@,
            Color::Red => "31"@,
        }
    }
}

/// The colors that members take in turn.
pub open spec fn palette(n: int) -> Color {
    let k = n % 6;
    if k == 0 {
        Color::Cyan
    } else if k == 1 {
        Color::Magenta
    } else if k == 2 {
        Color::Green
    } else if k == 3 {
        Color::Yellow
    } else if k == 4 {
        Color::Blue
    } else {
        Color::Red
    }
}

/// The color of the `n`th member.
pub fn pick_color(n: usize) -> (color: Color)
    ensures
        color == palette(n as int),
{
    match n % 6 {
        0 => Color::Cyan,
        1 => Color::Magenta,
        2 => Color::Green,
        3 => Color::Yellow,
        4 => Color::Blue,
        _ => Color::Red,
    }
}

/// Text between the escape sequence that sets a color and the one that resets it.
pub open spec fn colored(s: Seq<char>, color: Color) -> Seq<char> {
    "\u{1b}["@ + color.code() + "m"@ + s + "\u{1b}[39m"@
}

/// Calls `OwoColorize::color` with the `AnsiColors` of the same name and writes the result out.
/// Trusted: the text comes between the escape sequence for that foreground color and the one for
/// the default foreground.
#[verifier::external_body]
fn color_text(s: &str, color: Color) -> (out: String)
    ensures
        out@ == colored(s@, color),
{
    let ansi = match color {
        Color::Cyan => AnsiColors::Cyan,
        Color::Magenta => AnsiColors::Magenta,
        Color::Green => AnsiColors::Green,
        Color::Yellow => AnsiColors::Yellow,
        Color::Blue => AnsiColors::Blue,
        Color::Red => AnsiColors::Red,
    };
    s.color(ansi).to_string()
}

/// Calls `OwoColorize::bold` and writes the result out. Trusted: the text comes between the escape
/// sequence for bold and the one that resets everything.
#[verifier::external_body]
fn bold_text(s: &str) -> (out: String)
    ensures
        out@ == "\u{1b}[1m"@ + s@ + "\u{1b}[0m"@,
{
    s.bold().to_string()
}

/// Calls `OwoColorize::dimmed` and writes the result out. Trusted: the text comes between the
/// escape sequence for dim and the one that resets everything.
#[verifier::external_body]
fn dimmed_text(s: &str) -> (out: String)
    ensures
        out@ == "\u{1b}[2m"@ + s@ + "\u{1b}[0m"@,
{
    s.dimmed().to_string()
}

/// Text in a color where colors are on, and as it is where they are off.
pub open spec fn painted(s: Seq<char>, color: Color, enabled: bool) -> Seq<char> {
    if enabled {
        colored(s, color)
    } else {
        s
    }
}

pub fn paint(s: &str, color: Color, enabled: bool) -> (out: String)
    ensures
        out@ == painted(s@, color, enabled),
{
    if enabled {
        color_text(s, color)
    } else {
        s.to_owned()
    }
}

/// A command as it is shown before it runs.
pub open spec fn shown(step: Seq<char>, enabled: bool) -> Seq<char> {
    if enabled {
        "\u{1b}[2m"@ + "$"@ + "\u{1b}[0m"@ + " "@ + ("\u{1b}[1m"@ + step + "\u{1b}[0m"@)
    } else {
        "$ "@ + step
    }
}

/// Shows a command before it runs.
pub fn echo(step: &str, enabled: bool) -> (line: String)
    ensures
        line@ == shown(step@, enabled),
{
    if enabled {
        let mut line = dimmed_text("$");
        line.append(" ");
        line.append(bold_text(step).as_str());
        line
    } else {
        let mut line = "$ ".to_owned();
        line.append(step);
        line
    }
}

/// Six members in a row have six different colors, and the seventh begins anew.
pub proof fn law_colors_repeat_after_six(n: int, k: int)
    requires
        n >= 0,
        0 < k < 6,
    ensures
        palette(n + k) != palette(n),
        palette(n + 6) == palette(n),
        n % 6 == 0 ==> palette(n) == Color::Cyan && palette(n + 1) == Color::Magenta && palette(
            n + 2,
        ) == Color::Green && palette(n + 3) == Color::Yellow && palette(n + 4) == Color::Blue
            && palette(n + 5) == Color::Red,
{
}

/// Without colors text stays as it is. With colors it stands whole between two escape sequences:
/// one that depends on the color and on nothing else, and one that is always the same.
pub proof fn law_color_keeps_text(s: Seq<char>, other: Seq<char>, color: Color)
    ensures
        painted(s, color, false) == s,
        painted(s, color, true).len() == s.len() + 10,
        painted(s, color, true).subrange(5, 5 + s.len() as int) == s,
        painted(s, color, true).take(5) == painted(other, color, true).take(5),
        painted(s, color, true)[0] == '\u{1b}' && painted(s, color, true)[1] == '[' && painted(
            s,
            color,
            true,
        )[2] == '3' && painted(s, color, true)[4] == 'm',
        painted(s, color, true)[3] == match color {
            Color::Red => '1',
            Color::Green => '2',
            Color::Yellow => '3',
            Color::Blue => '4',
            Color::Magenta => '5',
            Color::Cyan => '6',
        },
        painted(s, color, true).skip(5 + s.len() as int) == seq!['\u{1b}', '[', '3', '9', 'm'],
{
    reveal_strlit("\u{1b}[");
    reveal_strlit("m");
    reveal_strlit("\u{1b}[39m");
    reveal_strlit("36");
    reveal_strlit("35");
    reveal_strlit("32");
    reveal_strlit("33");
    reveal_strlit("34");
    reveal_strlit("31");
    assert(painted(s, color, true).subrange(5, 5 + s.len() as int) =~= s);
    assert(painted(s, color, true).take(5) =~= painted(other, color, true).take(5));
    assert(painted(s, color, true).skip(5 + s.len() as int) =~= seq!['\u{1b}', '[', '3', '9', 'm']);
}

/// A step is shown whole: behind a dollar sign and a space, and with colors between escape
/// sequences of its own.
pub proof fn law_step_is_shown_whole(step: Seq<char>)
    ensures
        shown(step, false) == seq!['$', ' '] + step,
        shown(step, true).len() == step.len() + 18,
        shown(step, true).subrange(14, 14 + step.len() as int) == step,
        shown(step, true)[4] == '$' && shown(step, true)[9] == ' ',
        shown(step, true).skip(14 + step.len() as int) == seq!['\u{1b}', '[', '0', 'm'],
{
    reveal_strlit("$ ");
    reveal_strlit("$");
    reveal_strlit(" ");
    reveal_strlit("\u{1b}[2m");
    reveal_strlit("\u{1b}[1m");
    reveal_strlit("\u{1b}[0m");
    assert("$ "@ =~= seq!['$', ' ']);
    assert(shown(step, true).subrange(14, 14 + step.len() as int) =~= step);
    assert(shown(step, true).skip(14 + step.len() as int) =~= seq!['\u{1b}', '[', '0', 'm']);
}

} // verus!
