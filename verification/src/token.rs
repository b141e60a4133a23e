use crate::error::Fault;
use crate::error::RenderError;
use crate::pos::Pos;
use crate::text::lemma_offset_monotone;
use crate::text::lemma_offset_on_boundary;
use crate::text::lemma_offset_split;
use crate::text::lemma_offset_step;
use crate::text::lemma_width_bounds;
use crate::text::offset_of;
use crate::text::on_boundary;
use vstd::prelude::*;
use vstd::std_specs::iter::IteratorSpec;
use vstd::string::axiom_spec_iter;
use vstd::string::next_postcondition;
use vstd::utf8::encode_utf8;

verus! {

/// What the scanner finds in a template: a tag, from its `{` to just past its `}`, or the
/// `!` of an escape marker `{!`.
#[derive(Clone, Copy, Debug, PartialEq, Eq, Structural)]
pub enum Token {
    Tag(Pos, Pos),
    Bang(Pos),
}

/// The tokens of a template, and the place of its end.
pub struct Scanned {
    pub tokens: Vec<Token>,
    pub end: Pos,
}

/// The place of the character of index `i` of `text`; for `i == text.len()`, of its end.
pub open spec fn pos_at(text: Seq<char>, i: int) -> Pos
    decreases i,
{
    if i <= 0 {
        Pos::origin()
    } else {
        pos_at(text, i - 1).after(text[i - 1])
    }
}

/// `tok` in front of the tokens that `rest` found, if it found any.
pub open spec fn prepend(tok: Token, rest: Result<Seq<Token>, Fault>) -> Result<Seq<Token>, Fault> {
    match rest {
        Ok(tokens) => Ok(seq![tok] + tokens),
        Err(fault) => Err(fault),
    }
}

/// What a scan of `text` finds from index `i` on, outside any tag.
pub open spec fn scan_from(text: Seq<char>, i: int) -> Result<Seq<Token>, Fault>
    decreases text.len() - i, 1int,
{
    if i < 0 || i >= text.len() {
        Ok(Seq::empty())
    } else if text[i] != '{' {
        scan_from(text, i + 1)
    } else if i + 1 < text.len() && text[i + 1] == '!' {
        prepend(Token::Bang(pos_at(text, i + 1)), scan_from(text, i + 1))
    } else {
        scan_tag(text, i, i + 1)
    }
}

/// What a scan of `text` finds from index `j` on, inside the tag whose `{` has index `open`.
/// The tag ends at the first `}`; a `{` or a newline before it, or the end of the text,
/// is a missing brace.
pub open spec fn scan_tag(text: Seq<char>, open: int, j: int) -> Result<Seq<Token>, Fault>
    decreases text.len() - j, 0int,
{
    if j < 0 || j >= text.len() {
        Err(Fault::MissingBrace(pos_at(text, open)))
    } else if text[j] == '}' {
        prepend(Token::Tag(pos_at(text, open), pos_at(text, j + 1)), scan_from(text, j + 1))
    } else if text[j] == '{' {
        Err(Fault::MissingBrace(pos_at(text, j)))
    } else if text[j] == '\n' {
        Err(Fault::MissingBrace(pos_at(text, open)))
    } else {
        scan_tag(text, open, j + 1)
    }
}

/// The tokens of `text`, in the order in which they occur, or the first fault in it.
pub open spec fn scan(text: Seq<char>) -> Result<Seq<Token>, Fault> {
    scan_from(text, 0)
}

/// The tokens `found` so far, followed by what the rest of the scan finds.
pub open spec fn chain(found: Seq<Token>, rest: Result<Seq<Token>, Fault>) -> Result<
    Seq<Token>,
    Fault,
> {
    match rest {
        Ok(tokens) => Ok(found + tokens),
        Err(fault) => Err(fault),
    }
}

/// In a text of fewer than `usize::MAX` bytes the place of every index is exact: its
/// offset is the index's byte offset, and neither line nor column exceeds the index by
/// more than one.
pub proof fn lemma_pos_at(text: Seq<char>, i: int)
    requires
        0 <= i <= text.len(),
        encode_utf8(text).len() < usize::MAX,
    ensures
        pos_at(text, i).raw == offset_of(text, i),
        offset_of(text, i) <= encode_utf8(text).len(),
        pos_at(text, i).valid(),
        pos_at(text, i).row <= i + 1,
        pos_at(text, i).col <= i + 1,
        i <= offset_of(text, i),
    decreases i,
{
    lemma_offset_split(text, i);
    lemma_offset_monotone(text, 0, i);
    assert(text.take(0) =~= Seq::<char>::empty());
    if i > 0 {
        lemma_pos_at(text, i - 1);
        lemma_offset_step(text, i - 1);
        lemma_width_bounds(text[i - 1]);
    }
}

impl Token {
    /// The byte offset at which the token begins.
    pub open spec fn start(self) -> int {
        match self {
            Token::Tag(from, _) => from.raw as int,
            Token::Bang(at) => at.raw as int,
        }
    }

    /// The byte offset just past the token.
    pub open spec fn end(self) -> int {
        match self {
            Token::Tag(_, to) => to.raw as int,
            Token::Bang(at) => at.raw + 1,
        }
    }

    /// The token lies in `text`: its ends, and the ends of what its braces or its `!`
    /// enclose, are offsets at which characters start, and its columns leave room for a
    /// step to either side.
    pub open spec fn fits(self, text: Seq<char>) -> bool {
        match self {
            Token::Tag(from, to) => {
                &&& on_boundary(text, from.raw as int)
                &&& on_boundary(text, from.raw + 1)
                &&& on_boundary(text, to.raw - 1)
                &&& on_boundary(text, to.raw as int)
                &&& from.raw + 2 <= to.raw
                &&& from.col < usize::MAX
                &&& 1 <= to.col
            },
            Token::Bang(at) => {
                &&& on_boundary(text, at.raw as int)
                &&& on_boundary(text, at.raw + 1)
                &&& at.col < usize::MAX
            },
        }
    }
}

/// Every token of `tokens` lies in `text`, none begins before `floor`, and none begins
/// before the one in front of it has ended.
pub open spec fn tokens_fit(text: Seq<char>, tokens: Seq<Token>, floor: int) -> bool {
    &&& forall|k: int| 0 <= k < tokens.len() ==> (#[trigger] tokens[k]).fits(text)
    &&& forall|k: int|
        0 <= k < tokens.len() - 1 ==> (#[trigger] tokens[k]).end() <= tokens[k + 1].start()
    &&& tokens.len() > 0 ==> floor <= tokens[0].start()
}

/// A token that lies in `text`, in front of tokens that lie in it behind the token's end.
proof fn lemma_prepend_fits(text: Seq<char>, tok: Token, rest: Seq<Token>, floor: int)
    requires
        tok.fits(text),
        floor <= tok.start(),
        tok.start() <= tok.end(),
        tokens_fit(text, rest, tok.end()),
    ensures
        tokens_fit(text, seq![tok] + rest, floor),
{
    let all = seq![tok] + rest;
    assert forall|k: int| 0 <= k < all.len() implies (#[trigger] all[k]).fits(text) by {
        if k > 0 {
            assert(all[k] == rest[k - 1]);
        }
    }
    assert forall|k: int| 0 <= k < all.len() - 1 implies (#[trigger] all[k]).end() <= all[k
        + 1].start() by {
        assert(all[k + 1] == rest[k]);
        if k > 0 {
            assert(all[k] == rest[k - 1]);
        }
    }
}

/// The tokens found from index `i` on lie in the text, in order, from the offset of `i` on.
pub proof fn lemma_scan_from_fits(text: Seq<char>, i: int)
    requires
        0 <= i <= text.len(),
        encode_utf8(text).len() < usize::MAX,
        scan_from(text, i) is Ok,
    ensures
        tokens_fit(text, scan_from(text, i)->Ok_0, offset_of(text, i)),
    decreases text.len() - i, 1int,
{
    if i < text.len() {
        lemma_offset_monotone(text, i, i + 1);
        lemma_offset_step(text, i);
        if text[i] != '{' {
            lemma_scan_from_fits(text, i + 1);
        } else if i + 1 < text.len() && text[i + 1] == '!' {
            assert(scan_from(text, i + 1) == scan_from(text, i + 2));
            lemma_scan_from_fits(text, i + 2);
            lemma_pos_at(text, i + 1);
            lemma_offset_step(text, i + 1);
            lemma_offset_on_boundary(text, i + 1);
            lemma_offset_on_boundary(text, i + 2);
            let tok = Token::Bang(pos_at(text, i + 1));
            lemma_prepend_fits(text, tok, scan_from(text, i + 2)->Ok_0, offset_of(text, i));
        } else {
            lemma_scan_tag_fits(text, i, i + 1);
        }
    }
}

/// The tokens found inside and behind the tag opened at `open` lie in the text, in order,
/// from the offset of `open` on.
pub proof fn lemma_scan_tag_fits(text: Seq<char>, open: int, j: int)
    requires
        0 <= open < j <= text.len(),
        text[open] == '{',
        encode_utf8(text).len() < usize::MAX,
        scan_tag(text, open, j) is Ok,
    ensures
        tokens_fit(text, scan_tag(text, open, j)->Ok_0, offset_of(text, open)),
    decreases text.len() - j, 0int,
{
    if j < text.len() {
        if text[j] == '}' {
            lemma_scan_from_fits(text, j + 1);
            lemma_pos_at(text, open);
            lemma_pos_at(text, j + 1);
            lemma_offset_step(text, open);
            lemma_offset_step(text, j);
            lemma_offset_monotone(text, open + 1, j);
            lemma_offset_on_boundary(text, open);
            lemma_offset_on_boundary(text, open + 1);
            lemma_offset_on_boundary(text, j);
            lemma_offset_on_boundary(text, j + 1);
            let tok = Token::Tag(pos_at(text, open), pos_at(text, j + 1));
            lemma_prepend_fits(text, tok, scan_from(text, j + 1)->Ok_0, offset_of(text, open));
        } else if text[j] != '{' && text[j] != '\n' {
            lemma_scan_tag_fits(text, open, j + 1);
        }
    }
}

/// The tokens of a text lie in it, in order.
pub proof fn lemma_scan_fits(text: Seq<char>)
    requires
        encode_utf8(text).len() < usize::MAX,
        scan(text) is Ok,
    ensures
        tokens_fit(text, scan(text)->Ok_0, 0),
{
    lemma_scan_from_fits(text, 0);
}

/// Where the scanner is: in plain text, just past a `{` that may yet prove to be an
/// escape, or inside the tag that began at the place given.
#[derive(Clone, Copy)]
enum Mode {
    Text,
    Opened(Pos),
    Inside(Pos),
}

/// Moving a token from the front of what is still to be found to the end of what was
/// found changes nothing.
proof fn lemma_chain_push(found: Seq<Token>, tok: Token, rest: Result<Seq<Token>, Fault>)
    ensures
        chain(found, prepend(tok, rest)) == chain(found.push(tok), rest),
{
    if let Ok(tokens) = rest {
        assert(found + (seq![tok] + tokens) =~= found.push(tok) + tokens);
    }
}

/// Scans `tmpl` from left to right for its tags and escape markers.
pub fn tokenize(tmpl: &str) -> (found: Result<Scanned, RenderError>)
    requires
        encode_utf8(tmpl@).len() < usize::MAX,
    ensures
        match found {
            Ok(scanned) => scan(tmpl@) == Ok::<Seq<Token>, Fault>(scanned.tokens@) && scanned.end
                == pos_at(tmpl@, tmpl@.len() as int),
            Err(e) => scan(tmpl@) == Err::<Seq<Token>, Fault>(e@),
        },
{
    let ghost text = tmpl@;
    let mut tokens: Vec<Token> = Vec::new();
    let mut pos = Pos::start();
    let mut mode = Mode::Text;
    let mut chars = tmpl.chars();
    let ghost mut i: int = 0;
    let ghost mut s: int = 0;
    proof {
        axiom_spec_iter(tmpl);
        assert(tokens@ + scan(text)->Ok_0 =~= scan(text)->Ok_0);
    }
    loop
        invariant
            text == tmpl@,
            encode_utf8(text).len() < usize::MAX,
            0 <= i <= text.len(),
            chars.obeys_prophetic_iter_laws(),
            chars.remaining() == text.skip(i),
            pos == pos_at(text, i),
            match mode {
                Mode::Text => scan(text) == chain(tokens@, scan_from(text, i)),
                Mode::Opened(open) => 1 <= i && text[i - 1] == '{' && open == pos_at(text, i - 1)
                    && scan(text) == chain(tokens@, scan_from(text, i - 1)),
                Mode::Inside(open) => 0 <= s < i && open == pos_at(text, s) && scan(text) == chain(
                    tokens@,
                    scan_tag(text, s, i),
                ),
            },
        decreases text.len() - i,
    {
        let ghost before = chars;
        let next = chars.next();
        proof {
            next_postcondition(&before, &chars, next);
        }
        match next {
            None => {
                proof {
                    assert(text.skip(i).len() == text.len() - i);
                    assert(tokens@ + Seq::<Token>::empty() =~= tokens@);
                    assert(scan_from(text, i) == Ok::<Seq<Token>, Fault>(Seq::empty()));
                    if i >= 1 {
                        assert(scan_tag(text, i - 1, i) == Err::<Seq<Token>, Fault>(
                            Fault::MissingBrace(pos_at(text, i - 1)),
                        ));
                    }
                    assert(scan_tag(text, s, i) == Err::<Seq<Token>, Fault>(
                        Fault::MissingBrace(pos_at(text, s)),
                    ));
                }
                return match mode {
                    Mode::Text => Ok(Scanned { tokens, end: pos }),
                    Mode::Opened(open) => Err(RenderError::MissingBrace(open)),
                    Mode::Inside(open) => Err(RenderError::MissingBrace(open)),
                };
            },
            Some(c) => {
                proof {
                    assert(text.skip(i).len() == text.len() - i);
                    assert(c == text[i]);
                    lemma_pos_at(text, i);
                    lemma_pos_at(text, i + 1);
                    lemma_offset_step(text, i);
                }
                if let Mode::Opened(open) = mode {
                    if c == '!' {
                        proof {
                            lemma_chain_push(tokens@, Token::Bang(pos), scan_from(text, i));
                        }
                        tokens.push(Token::Bang(pos));
                        mode = Mode::Text;
                    } else {
                        proof {
                            s = i - 1;
                            assert(scan_from(text, s) == scan_tag(text, s, i));
                        }
                        mode = Mode::Inside(open);
                    }
                }
                match mode {
                    Mode::Inside(open) => {
                        if c == '}' {
                            pos = pos + c;
                            proof {
                                lemma_chain_push(
                                    tokens@,
                                    Token::Tag(open, pos),
                                    scan_from(text, i + 1),
                                );
                            }
                            tokens.push(Token::Tag(open, pos));
                            mode = Mode::Text;
                        } else if c == '{' {
                            return Err(RenderError::MissingBrace(pos));
                        } else if c == '\n' {
                            return Err(RenderError::MissingBrace(open));
                        } else {
                            pos = pos + c;
                        }
                    },
                    _ => {
                        if c == '{' {
                            mode = Mode::Opened(pos);
                        }
                        pos = pos + c;
                    },
                }
                proof {
                    assert(text.skip(i).drop_first() =~= text.skip(i + 1));
                    i = i + 1;
                }
            },
        }
    }
}

} // verus!
