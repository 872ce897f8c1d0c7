//! The errors of the library, and the numbers they are reported by over a C interface.
use vstd::prelude::*;
use crate::effects::{Color, spec_color_code};

verus! {

/// Everything that can go wrong in a `RectManager`.
#[derive(PartialEq, Eq, Debug)]
pub enum WreckedError {
    AllGood,
    BadColor,
    InvalidUtf8,
    /// The rectangle, the starting position and the string that did not fit.
    StringTooLong(usize, (isize, isize), String),
    NotFound(usize),
    /// The rectangle has no parent.
    NoParent(usize),
    BadPosition(isize, isize),
    /// The rectangle names a parent that the manager does not hold.
    ParentNotFound(usize, usize),
    ChildNotFound(usize, usize),
    StdoutFailure(String),
    Disabled(usize),
}

/// The number by which a result is reported over the C interface.
pub open spec fn spec_cast_result(result: Result<(), WreckedError>) -> u32 {
    match result {
        Ok(_) => 0,
        Err(WreckedError::BadColor) => 1,
        Err(WreckedError::InvalidUtf8) => 2,
        Err(WreckedError::StringTooLong(_, _, _)) => 3,
        Err(WreckedError::NotFound(_)) => 4,
        Err(WreckedError::NoParent(_)) => 5,
        Err(WreckedError::ParentNotFound(_, _)) => 6,
        Err(WreckedError::ChildNotFound(_, _)) => 7,
        Err(WreckedError::BadPosition(_, _)) => 8,
        Err(_) => 255,
    }
}

/// The number by which a result is reported over the C interface: 0 for success,
/// one number per kind of error, 255 for the rest.
pub fn cast_result(result: Result<(), WreckedError>) -> (n: u32)
    ensures
        n == spec_cast_result(result),
{
    match result {
        Ok(_) => 0,
        Err(WreckedError::BadColor) => 1,
        Err(WreckedError::InvalidUtf8) => 2,
        Err(WreckedError::StringTooLong(_, _, _)) => 3,
        Err(WreckedError::NotFound(_)) => 4,
        Err(WreckedError::NoParent(_)) => 5,
        Err(WreckedError::ParentNotFound(_, _)) => 6,
        Err(WreckedError::ChildNotFound(_, _)) => 7,
        Err(WreckedError::BadPosition(_, _)) => 8,
        Err(_) => 255,
    }
}

/// The color whose number (see `spec_color_code`) is `n`, if there is one.
pub fn color_from_number(n: u8) -> (c: Option<Color>)
    ensures
        match c {
            Some(color) => n < 16 && spec_color_code(color) == n,
            None => n >= 16,
        },
{
    match n {
        0 => Some(Color::BLACK),
        1 => Some(Color::RED),
        2 => Some(Color::GREEN),
        3 => Some(Color::YELLOW),
        4 => Some(Color::BLUE),
        5 => Some(Color::MAGENTA),
        6 => Some(Color::CYAN),
        7 => Some(Color::WHITE),
        8 => Some(Color::BRIGHTBLACK),
        9 => Some(Color::BRIGHTRED),
        10 => Some(Color::BRIGHTGREEN),
        11 => Some(Color::BRIGHTYELLOW),
        12 => Some(Color::BRIGHTBLUE),
        13 => Some(Color::BRIGHTMAGENTA),
        14 => Some(Color::BRIGHTCYAN),
        15 => Some(Color::BRIGHTWHITE),
        _ => None,
    }
}

} // verus!
