use vstd::prelude::*;
use vstd::string::StrSliceExecFns;

verus! {

/// The kinds of scope: the template as a whole, a definition block and an include block.
#[derive(Clone, Copy, Debug, PartialEq, Eq, Structural)]
pub enum ScopeKind {
    Root,
    Definition,
    FileInclude,
}

/// What the label of a tag, the text between its braces, asks for.
#[derive(Debug)]
pub enum Label {
    /// The label is a name to look up: it starts with neither `#` nor `:`.
    Name,
    /// `#name#` or `:name:` opens a block of the kind given, for `name`.
    Open(ScopeKind, String),
    /// A bare `#` or `:` closes a block of the kind given.
    Close(ScopeKind),
    /// The label starts with the marker of the kind given and does not end with it.
    Unmatched(ScopeKind),
}

/// A `Label` as contracts see it.
pub enum Shape {
    Name,
    Open(ScopeKind, Seq<char>),
    Close(ScopeKind),
    Unmatched(ScopeKind),
}

impl View for Label {
    type V = Shape;

    open spec fn view(&self) -> Shape {
        match *self {
            Label::Name => Shape::Name,
            Label::Open(kind, name) => Shape::Open(kind, name@),
            Label::Close(kind) => Shape::Close(kind),
            Label::Unmatched(kind) => Shape::Unmatched(kind),
        }
    }
}

/// What a label that starts with the marker `mark` of `kind` asks for.
pub open spec fn marked(label: Seq<char>, mark: char, kind: ScopeKind) -> Shape {
    if label.last() != mark {
        Shape::Unmatched(kind)
    } else if label.len() == 1 {
        Shape::Close(kind)
    } else {
        Shape::Open(kind, label.subrange(1, label.len() - 1))
    }
}

/// What `label` asks for, by its first and last characters.
pub open spec fn shape_of(label: Seq<char>) -> Shape {
    if label.len() > 0 && label[0] == '#' {
        marked(label, '#', ScopeKind::FileInclude)
    } else if label.len() > 0 && label[0] == ':' {
        marked(label, ':', ScopeKind::Definition)
    } else {
        Shape::Name
    }
}

/// Tells what `label` asks for.
pub fn classify(label: &str) -> (found: Label)
    ensures
        found@ == shape_of(label@),
{
    let n = label.unicode_len();
    if n == 0 {
        return Label::Name;
    }
    let first = label.get_char(0);
    if first == '#' || first == ':' {
        let kind = if first == '#' {
            ScopeKind::FileInclude
        } else {
            ScopeKind::Definition
        };
        let last = label.get_char(n - 1);
        if last != first {
            Label::Unmatched(kind)
        } else if n == 1 {
            Label::Close(kind)
        } else {
            Label::Open(kind, label.substring_char(1, n - 1).to_owned())
        }
    } else {
        Label::Name
    }
}

} // verus!
