//! The levels at which the library's users report to the console.
use vstd::prelude::*;

verus! {

/// The level of a console message.
#[derive(Debug, Clone, Copy, PartialEq, Eq, Structural)]
pub enum ConsoleType {
    Info,
    Success,
    Warning,
    Error,
}

/// The title under which a message of the level `level` is shown, padded to
/// seven characters.
pub open spec fn title_of(level: ConsoleType) -> Seq<char> {
    match level {
        ConsoleType::Info => "Info   "@,
        ConsoleType::Success => "Success"@,
        ConsoleType::Warning => "Warning"@,
        ConsoleType::Error => "Error  "@,
    }
}

impl ConsoleType {
    /// The title under which a message of this level is shown.
    pub fn title(&self) -> (r: &'static str)
        ensures
            r@ == title_of(*self),
    {
        match self {
            ConsoleType::Info => "Info   ",
            ConsoleType::Success => "Success",
            ConsoleType::Warning => "Warning",
            ConsoleType::Error => "Error  ",
        }
    }
}

} // verus!
