use crate::pos::place_text;
use crate::pos::Pos;
use vstd::prelude::*;
use vstd::string::StringExecFns;

verus! {

/// Why a render stopped. Every kind but the last carries the place where the defect was
/// found; the last carries the host's account of a resource that it could not read.
#[derive(Debug)]
pub enum RenderError {
    MissingBrace(Pos),
    MissingHash(Pos),
    MissingColon(Pos),
    MissingClosingTag(Pos),
    UnexpectedClosingTag(Pos),
    UndefinedName(Pos, String),
    IoError(String),
}

/// A `RenderError` as contracts see it, with its strings as sequences of characters.
pub enum Fault {
    MissingBrace(Pos),
    MissingHash(Pos),
    MissingColon(Pos),
    MissingClosingTag(Pos),
    UnexpectedClosingTag(Pos),
    UndefinedName(Pos, Seq<char>),
    IoError(Seq<char>),
}

impl View for RenderError {
    type V = Fault;

    open spec fn view(&self) -> Fault {
        match *self {
            RenderError::MissingBrace(at) => Fault::MissingBrace(at),
            RenderError::MissingHash(at) => Fault::MissingHash(at),
            RenderError::MissingColon(at) => Fault::MissingColon(at),
            RenderError::MissingClosingTag(at) => Fault::MissingClosingTag(at),
            RenderError::UnexpectedClosingTag(at) => Fault::UnexpectedClosingTag(at),
            RenderError::UndefinedName(at, name) => Fault::UndefinedName(at, name@),
            RenderError::IoError(reason) => Fault::IoError(reason@),
        }
    }
}

/// What is said of a fault: its place, where it has one, and what is wrong.
pub open spec fn fault_text(fault: Fault) -> Seq<char> {
    match fault {
        Fault::MissingBrace(at) => place_text(at) + ": Missing closing brace"@,
        Fault::MissingHash(at) => place_text(at) + ": Missing hash"@,
        Fault::MissingColon(at) => place_text(at) + ": Missing colon"@,
        Fault::MissingClosingTag(at) => place_text(at) + ": Missing corresponding closing tag"@,
        Fault::UnexpectedClosingTag(at) => place_text(at) + ": Unexpected closing tag"@,
        Fault::UndefinedName(at, name) => place_text(at) + ": Name '"@ + name + "' is undefined"@,
        Fault::IoError(reason) => "IO error: "@ + reason,
    }
}

impl RenderError {
    /// The error in words.
    pub fn message(&self) -> (text: String)
        ensures
            text@ == fault_text(self@),
    {
        match self {
            RenderError::MissingBrace(at) => {
                let mut text = at.describe();
                text.append(": Missing closing brace");
                text
            },
            RenderError::MissingHash(at) => {
                let mut text = at.describe();
                text.append(": Missing hash");
                text
            },
            RenderError::MissingColon(at) => {
                let mut text = at.describe();
                text.append(": Missing colon");
                text
            },
            RenderError::MissingClosingTag(at) => {
                let mut text = at.describe();
                text.append(": Missing corresponding closing tag");
                text
            },
            RenderError::UnexpectedClosingTag(at) => {
                let mut text = at.describe();
                text.append(": Unexpected closing tag");
                text
            },
            RenderError::UndefinedName(at, name) => {
                let mut text = at.describe();
                text.append(": Name '");
                text.append(name.as_str());
                text.append("' is undefined");
                text
            },
            RenderError::IoError(reason) => {
                let mut text = String::from_str("IO error: ");
                text.append(reason.as_str());
                text
            },
        }
    }
}

} // verus!
