//! The layout of progress bars.

use crate::options::OutputStyleOption;
use vstd::prelude::*;

verus! {

/// How a progress bar is drawn.
#[derive(Debug, Clone, Copy, PartialEq, Eq, Structural)]
pub enum BarStyle {
    /// Not at all
    Hidden,
    /// As a spinner, a message, a bar and the time that is left
    Spinner,
    /// As a message, a bar and a count
    Counter,
}

/// A progress bar that is to be set up.
pub struct BarLayout {
    pub style: BarStyle,
    /// How many steps the bar has, unless it is hidden
    pub length: Option<u64>,
    pub message: String,
}

/// A progress bar of one of several commands that is to be set up.
#[derive(Debug, Clone, Copy, PartialEq, Eq, Structural)]
pub struct CommandBarLayout {
    pub style: BarStyle,
    /// How many steps the bar has
    pub length: u64,
    /// The number of the command, starting at one
    pub command: usize,
}

impl BarStyle {
    /// The template for the parts of a bar that is drawn.
    pub open spec fn parts(self) -> Option<Seq<char>> {
        match self {
            BarStyle::Hidden => None,
            BarStyle::Spinner => Some(" {spinner} {msg:<30} {wide_bar} ETA {eta_precise} "@),
            BarStyle::Counter => Some("  {msg:<31} {wide_bar} {pos:>3}/{len:3}"@),
        }
    }

    /// The template for the parts of a bar that is drawn.
    pub fn template(&self) -> (template: Option<&'static str>)
        ensures
            match template {
                Some(text) => self.parts() == Some(text@),
                None => self.parts() is None,
            },
    {
        match self {
            BarStyle::Hidden => None,
            BarStyle::Spinner => Some(" {spinner} {msg:<30} {wide_bar} ETA {eta_precise} "),
            BarStyle::Counter => Some("  {msg:<31} {wide_bar} {pos:>3}/{len:3}"),
        }
    }
}

/// Return a pre-configured progress bar
///
/// The styles without any interactive output hide it.
pub fn get_progress_bar(length: u64, msg: &str, option: OutputStyleOption) -> (bar: BarLayout)
    ensures
        bar.message@ == msg@,
        option is Basic || option is Color ==> bar.style == BarStyle::Hidden && bar.length is None,
        !(option is Basic || option is Color) ==> bar.style == BarStyle::Spinner && bar.length
            == Some(length),
{
    let message = msg.to_owned();
    match option {
        OutputStyleOption::Basic | OutputStyleOption::Color => BarLayout {
            style: BarStyle::Hidden,
            length: None,
            message,
        },
        _ => BarLayout { style: BarStyle::Spinner, length: Some(length), message },
    }
}

/// The bars of so many commands.
pub open spec fn command_bars(num_commands: usize, length: u64) -> Seq<CommandBarLayout> {
    Seq::new(
        num_commands as nat,
        |i: int|
            CommandBarLayout { style: BarStyle::Counter, length, command: (i + 1) as usize },
    )
}

/// Return a multi-progress bar setup for interleaved benchmarking
///
/// There is none for the styles that hide progress bars or show nothing at all.
pub fn get_multi_progress_bar(num_commands: usize, length: u64, option: OutputStyleOption) -> (bars:
    Option<Vec<CommandBarLayout>>)
    ensures
        match bars {
            Some(bars) => option.shows_command_bars() && bars@ == command_bars(
                num_commands,
                length,
            ),
            None => !option.shows_command_bars(),
        },
{
    match option {
        OutputStyleOption::Basic | OutputStyleOption::Color | OutputStyleOption::Disabled => {
            return None;
        },
        _ => {},
    }
    let mut bars: Vec<CommandBarLayout> = Vec::with_capacity(num_commands);
    let mut i: usize = 0;
    while i < num_commands
        invariant
            i <= num_commands,
            bars@ == command_bars(num_commands, length).take(i as int),
        decreases num_commands - i,
    {
        bars.push(CommandBarLayout { style: BarStyle::Counter, length, command: i + 1 });
        i = i + 1;
        assert(bars@ =~= command_bars(num_commands, length).take(i as int));
    }
    assert(bars@ =~= command_bars(num_commands, length));
    Some(bars)
}

/// Each command has a bar of the same length that counts, and the bars are numbered from one.
pub proof fn bars_are_numbered_from_one(num_commands: usize, length: u64, i: int)
    requires
        0 <= i < num_commands,
    ensures
        command_bars(num_commands, length).len() == num_commands,
        command_bars(num_commands, length)[i].command == i + 1,
        command_bars(num_commands, length)[i].length == length,
        command_bars(num_commands, length)[i].style is Counter,
{
}

} // verus!
