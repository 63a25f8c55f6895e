//! The state written between the brackets of a task.

use vstd::prelude::*;

verus! {

#[derive(Debug, Clone, Copy, PartialEq, Eq, Structural)]
pub enum TaskKind {
    Undone,
    Done,
    InProgress,
    Uncertain,
    Urgent,
    Cancelled,
    Custom(char),
}

/// A character that cannot stand for a task's state: a bracket, a brace or a
/// line ending.
#[derive(Debug, Clone, Copy, PartialEq, Eq, Structural)]
pub struct InvalidTaskKind(pub char);

/// The state a character stands for: six have a name, the structural
/// characters are refused, and any other is a custom state.
pub open spec fn task_kind_of(c: char) -> Result<TaskKind, InvalidTaskKind> {
    if c == ' ' {
        Ok(TaskKind::Undone)
    } else if c == 'x' {
        Ok(TaskKind::Done)
    } else if c == '~' {
        Ok(TaskKind::InProgress)
    } else if c == '?' {
        Ok(TaskKind::Uncertain)
    } else if c == '!' {
        Ok(TaskKind::Urgent)
    } else if c == '-' {
        Ok(TaskKind::Cancelled)
    } else if c == '[' || c == ']' || c == '{' || c == '}' || c == '\n' || c == '\r' {
        Err(InvalidTaskKind(c))
    } else {
        Ok(TaskKind::Custom(c))
    }
}

impl TryFrom<char> for TaskKind {
    type Error = InvalidTaskKind;

    fn try_from(value: char) -> (r: Result<Self, Self::Error>)
        ensures
            r == task_kind_of(value),
    {
        if value == ' ' {
            Ok(TaskKind::Undone)
        } else if value == 'x' {
            Ok(TaskKind::Done)
        } else if value == '~' {
            Ok(TaskKind::InProgress)
        } else if value == '?' {
            Ok(TaskKind::Uncertain)
        } else if value == '!' {
            Ok(TaskKind::Urgent)
        } else if value == '-' {
            Ok(TaskKind::Cancelled)
        } else if value == '[' || value == ']' || value == '{' || value == '}' || value == '\n' || value == '\r' {
            Err(InvalidTaskKind(value))
        } else {
            Ok(TaskKind::Custom(value))
        }
    }
}

impl vstd::std_specs::convert::TryFromSpecImpl<char> for TaskKind {
    open spec fn obeys_try_from_spec() -> bool {
        true
    }

    open spec fn try_from_spec(v: char) -> Result<Self, InvalidTaskKind> {
        task_kind_of(v)
    }
}

} // verus!
