use crate::text::char_width;
use crate::text::width;
use vstd::prelude::*;
use vstd::std_specs::ops::AddSpecImpl;
use vstd::std_specs::ops::SubSpecImpl;
use vstd::string::StringExecFns;

verus! {

/// A place in a text: the byte offset, and the line and column, both counted from 1.
#[derive(Clone, Copy, Debug, PartialEq, Eq, Hash, Structural)]
pub struct Pos {
    pub raw: usize,
    pub col: usize,
    pub row: usize,
}

/// The character for a decimal digit.
pub open spec fn digit(d: nat) -> char {
    if d == 0 {
        '0'
    } else if d == 1 {
        '1'
    } else if d == 2 {
        '2'
    } else if d == 3 {
        '3'
    } else if d == 4 {
        '4'
    } else if d == 5 {
        '5'
    } else if d == 6 {
        '6'
    } else if d == 7 {
        '7'
    } else if d == 8 {
        '8'
    } else {
        '9'
    }
}

/// `n` in decimal digits, without leading zeros.
pub open spec fn decimal(n: nat) -> Seq<char>
    decreases n,
{
    if n < 10 {
        seq![digit(n)]
    } else {
        decimal(n / 10).push(digit(n % 10))
    }
}

/// The written form of a place: line, colon, column, and the byte offset in brackets.
pub open spec fn place_text(at: Pos) -> Seq<char> {
    decimal(at.row as nat) + seq![':'] + decimal(at.col as nat) + seq!['('] + decimal(
        at.raw as nat,
    ) + seq![')']
}

/// The decimal digit `d` as a text of one character.
fn digit_text(d: usize) -> (text: &'static str)
    requires
        d < 10,
    ensures
        text@ == seq![digit(d as nat)],
{
    proof {
        reveal_strlit("0");
        reveal_strlit("1");
        reveal_strlit("2");
        reveal_strlit("3");
        reveal_strlit("4");
        reveal_strlit("5");
        reveal_strlit("6");
        reveal_strlit("7");
        reveal_strlit("8");
        reveal_strlit("9");
    }
    let text = if d == 0 {
        "0"
    } else if d == 1 {
        "1"
    } else if d == 2 {
        "2"
    } else if d == 3 {
        "3"
    } else if d == 4 {
        "4"
    } else if d == 5 {
        "5"
    } else if d == 6 {
        "6"
    } else if d == 7 {
        "7"
    } else if d == 8 {
        "8"
    } else {
        "9"
    };
    assert(text@ =~= seq![digit(d as nat)]);
    text
}

/// Writes `n` in decimal digits.
pub fn decimal_text(n: usize) -> (text: String)
    ensures
        text@ == decimal(n as nat),
    decreases n,
{
    if n < 10 {
        String::from_str(digit_text(n))
    } else {
        let mut text = decimal_text(n / 10);
        text.append(digit_text(n % 10));
        assert(text@ =~= decimal(n as nat));
        text
    }
}

impl Pos {
    /// The place before the first character of any text.
    pub open spec fn origin() -> Pos {
        Pos { raw: 0, col: 1, row: 1 }
    }

    /// Lines and columns are counted from 1.
    pub open spec fn valid(self) -> bool {
        self.row >= 1 && self.col >= 1
    }

    /// The place reached from `self` by stepping over `c`.
    pub open spec fn after(self, c: char) -> Pos {
        Pos {
            raw: (self.raw + width(c)) as usize,
            row: if c == '\n' { (self.row + 1) as usize } else { self.row },
            col: if c == '\n' { 1 } else { (self.col + 1) as usize },
        }
    }

    /// The place from which stepping over `c` reaches `self`, for a `c` that is no newline.
    pub open spec fn before(self, c: char) -> Pos {
        Pos { raw: (self.raw - width(c)) as usize, row: self.row, col: (self.col - 1) as usize }
    }

    /// The place before the first character of any text.
    pub fn start() -> (p: Pos)
        ensures
            p == Pos::origin(),
            p.valid(),
    {
        Pos { raw: 0, col: 1, row: 1 }
    }

    /// The place in writing, as `line:column(offset)`.
    pub fn describe(&self) -> (text: String)
        ensures
            text@ == place_text(*self),
    {
        proof {
            reveal_strlit(":");
            reveal_strlit("(");
            reveal_strlit(")");
        }
        let mut text = decimal_text(self.row);
        text.append(":");
        text.append(decimal_text(self.col).as_str());
        text.append("(");
        text.append(decimal_text(self.raw).as_str());
        text.append(")");
        assert(text@ =~= place_text(*self));
        text
    }
}

impl AddSpecImpl<char> for Pos {
    open spec fn obeys_add_spec() -> bool {
        true
    }

    open spec fn add_req(self, rhs: char) -> bool {
        &&& self.raw + width(rhs) <= usize::MAX
        &&& rhs == '\n' ==> self.row < usize::MAX
        &&& rhs != '\n' ==> self.col < usize::MAX
    }

    open spec fn add_spec(self, rhs: char) -> Pos {
        self.after(rhs)
    }
}

impl core::ops::Add<char> for Pos {
    type Output = Pos;

    fn add(self, rhs: char) -> Pos {
        let w = char_width(rhs);
        if rhs == '\n' {
            Pos { raw: self.raw + w, row: self.row + 1, col: 1 }
        } else {
            Pos { raw: self.raw + w, row: self.row, col: self.col + 1 }
        }
    }
}

impl SubSpecImpl<char> for Pos {
    open spec fn obeys_sub_spec() -> bool {
        true
    }

    open spec fn sub_req(self, rhs: char) -> bool {
        &&& rhs != '\n'
        &&& self.raw >= width(rhs)
        &&& self.col >= 1
    }

    open spec fn sub_spec(self, rhs: char) -> Pos {
        self.before(rhs)
    }
}

impl core::ops::Sub<char> for Pos {
    type Output = Pos;

    fn sub(self, rhs: char) -> Pos {
        Pos { raw: self.raw - char_width(rhs), row: self.row, col: self.col - 1 }
    }
}

} // verus!
