//! Small request and response records of the surrounding services.

use vstd::prelude::*;

verus! {

/// How a received frame was handled: carry on, or close the stream.
#[derive(Debug, Clone, Copy, PartialEq, Eq, Structural)]
pub enum HandleResult {
    Handled,
    Close,
}

/// A raw request body naming characters, one per line.
#[derive(Debug, Clone, PartialEq)]
pub struct Who {
    pub names: String,
}

/// The parsed character names of a request.
#[derive(Debug, Clone, PartialEq)]
pub struct Characters {
    pub names: Vec<String>,
}

/// A plain id parameter.
#[derive(Debug, Clone, Copy, PartialEq, Eq, Structural)]
pub struct Id {
    pub id: i32,
}

impl Id {
    pub fn from(id: i32) -> (r: Self)
        ensures
            r == (Id { id }),
    {
        Id { id }
    }
}

/// The parameters of a loss report: an area and a subject, each an
/// id under a kind.
#[derive(Debug, Clone, PartialEq)]
pub struct Lost {
    pub area: String,
    pub aid: i32,
    pub subject: String,
    pub sid: i32,
}

impl Lost {
    pub fn from(area: &str, aid: i32, subject: &str, sid: i32) -> (r: Self)
        ensures
            r.area@ == area@,
            r.aid == aid,
            r.subject@ == subject@,
            r.sid == sid,
    {
        Lost { area: area.to_owned(), aid, subject: subject.to_owned(), sid }
    }
}

} // verus!
