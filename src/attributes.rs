//! Reading the arguments of the attributes that take some, by position.
use crate::lex::{is_text, ArgumentValue, ParseArgumentItem};
use vstd::prelude::*;

verus! {

/// Direction in which a moving sprite moves.
#[derive(Clone, Copy, Debug, PartialEq, Eq, Structural)]
pub enum MovingDirection {
    Right,
    Down,
    Left,
    Up,
}

/// The direction that a word names, if any.
pub open spec fn direction_named(w: Seq<char>) -> Option<MovingDirection> {
    if w == "right"@ {
        Some(MovingDirection::Right)
    } else if w == "down"@ {
        Some(MovingDirection::Down)
    } else if w == "left"@ {
        Some(MovingDirection::Left)
    } else if w == "up"@ {
        Some(MovingDirection::Up)
    } else {
        None
    }
}

impl MovingDirection {
    /// The direction that a word argument names.
    pub fn from_param(value: ParseArgumentItem) -> (r: Option<MovingDirection>)
        requires
            value is Str,
        ensures
            r == direction_named(value->Str_0@),
    {
        match value {
            ParseArgumentItem::Str(s) => {
                if is_text(&s, "right") {
                    Some(MovingDirection::Right)
                } else if is_text(&s, "down") {
                    Some(MovingDirection::Down)
                } else if is_text(&s, "left") {
                    Some(MovingDirection::Left)
                } else if is_text(&s, "up") {
                    Some(MovingDirection::Up)
                } else {
                    None
                }
            },
            _ => None,
        }
    }
}

/// Why the arguments of a transition do not name a level.
#[derive(Clone, Copy, Debug, PartialEq, Eq, Structural)]
pub enum TransitionParamError {
    /// There is no argument.
    Missing,
    /// The first argument is not a number.
    NotANumber,
    /// The first argument is a number out of the range of level ids.
    OutOfRange,
}

/// The level that a transition's arguments name: its first argument, a
/// number in the range of level ids.
pub fn transition_level_param(params: &Vec<ParseArgumentItem>) -> (r: Result<u32, TransitionParamError>)
    ensures
        r == (if params@.len() == 0 {
            Err(TransitionParamError::Missing)
        } else {
            match params@[0]@ {
                ArgumentValue::Number(n) => if 0 <= n <= u32::MAX {
                    Ok(n as u32)
                } else {
                    Err(TransitionParamError::OutOfRange)
                },
                _ => Err(TransitionParamError::NotANumber),
            }
        }),
{
    if params.len() == 0 {
        return Err(TransitionParamError::Missing);
    }
    match &params[0] {
        ParseArgumentItem::Number(n) => {
            if 0 <= *n && *n <= u32::MAX as i64 {
                Ok(*n as u32)
            } else {
                Err(TransitionParamError::OutOfRange)
            }
        },
        _ => Err(TransitionParamError::NotANumber),
    }
}

/// The exit that a goal's arguments name: its first argument, a number that
/// is not negative.
pub fn goal_exit_param(params: &Vec<ParseArgumentItem>) -> (r: Option<usize>)
    ensures
        r == (if params@.len() == 0 {
            None
        } else {
            match params@[0]@ {
                ArgumentValue::Number(n) => if 0 <= n <= usize::MAX {
                    Some(n as usize)
                } else {
                    None
                },
                _ => None,
            }
        }),
{
    if params.len() == 0 {
        return None;
    }
    match &params[0] {
        ParseArgumentItem::Number(n) => {
            if 0 <= *n && (*n as u64) <= usize::MAX as u64 {
                Some(*n as usize)
            } else {
                None
            }
        },
        _ => None,
    }
}

} // verus!
