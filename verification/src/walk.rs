use crate::compose::composed;
use crate::compose::Edit;
use crate::error::Fault;
use crate::label::shape_of;
use crate::label::ScopeKind;
use crate::label::Shape;
use crate::pos::Pos;
use crate::scope::bound;
use crate::scope::lookup;
use crate::scope::recorded;
use crate::scope::Frame;
use crate::text::segment;
use crate::token::scan;
use crate::token::Token;
use vstd::prelude::*;
use vstd::utf8::encode_utf8;

verus! {

/// What one token does to the stack of open scopes.
pub enum Effect {
    /// The walk goes on with this stack.
    Continue(Seq<Frame>),
    /// An include block was closed: the walk waits for the rendered text of the resource
    /// `name`, which is to be rendered with `bindings` and to stand in place of the bytes
    /// from `origin` to `until`, in the innermost scope of `stack`.
    Suspend {
        name: Seq<char>,
        bindings: Map<Seq<char>, Seq<char>>,
        origin: Pos,
        until: Pos,
        stack: Seq<Frame>,
    },
    /// The render fails.
    Fail(Fault),
}

/// A walk that waits for an included resource: the template, the index of the next token,
/// the open scopes, and the span that the resource's rendered text is to replace.
pub struct Halt {
    pub text: Seq<char>,
    pub next: int,
    pub stack: Seq<Frame>,
    pub origin: Pos,
    pub until: Pos,
}

/// How a walk over a template's tokens ends or pauses.
pub enum Verdict {
    /// The template is rendered: this is the output.
    Finished(Seq<char>),
    /// The render failed.
    Failed(Fault),
    /// The walk waits for the resource `name`, to be rendered with `bindings`.
    Awaiting { name: Seq<char>, bindings: Map<Seq<char>, Seq<char>>, halt: Halt },
}

/// The scope of the template as a whole, with the caller's bindings.
pub open spec fn root_frame(ctx: Map<Seq<char>, Seq<char>>) -> Frame {
    Frame {
        kind: ScopeKind::Root,
        origin: Pos::origin(),
        name: Seq::empty(),
        bindings: ctx,
        pending: Seq::empty(),
    }
}

/// The scope that the tag from `from` to `to` opens for `name`. A definition starts with
/// its own opening tag struck out, so that the tag is no part of the defined text.
pub open spec fn opened_frame(kind: ScopeKind, from: Pos, to: Pos, name: Seq<char>) -> Frame {
    Frame {
        kind,
        origin: from,
        name,
        bindings: Map::empty(),
        pending: if kind == ScopeKind::Definition {
            seq![Edit { from, to, text: Seq::empty() }]
        } else {
            Seq::empty()
        },
    }
}

/// What the closing tag from `from` to `to` of a block of `kind` does. It must close the
/// innermost scope, and that scope must be of `kind`. A definition's text, from its opening
/// tag to this one with both struck out, is bound to its name in the scope around it, where
/// the block itself leaves nothing. An include block hands its name and its bindings out.
pub open spec fn closed(text: Seq<char>, stack: Seq<Frame>, kind: ScopeKind, from: Pos, to: Pos) -> Effect {
    if stack.len() <= 1 || stack.last().kind != kind {
        Effect::Fail(Fault::UnexpectedClosingTag(from))
    } else {
        let top = stack.last();
        let below = stack.drop_last();
        if kind == ScopeKind::FileInclude {
            Effect::Suspend {
                name: top.name,
                bindings: top.bindings,
                origin: top.origin,
                until: to,
                stack: below,
            }
        } else {
            let value = composed(
                text,
                top.origin.raw as int,
                to.raw as int,
                top.pending.push(Edit { from, to, text: Seq::empty() }),
            );
            Effect::Continue(
                recorded(
                    bound(below, top.name, value),
                    Edit { from: top.origin, to, text: Seq::empty() },
                ),
            )
        }
    }
}

/// What the token `tok` of the template `text` does to `stack`.
#[verifier::opaque]
pub open spec fn step(text: Seq<char>, stack: Seq<Frame>, tok: Token) -> Effect {
    match tok {
        Token::Bang(at) => Effect::Continue(
            recorded(stack, Edit { from: at, to: at.after('!'), text: Seq::empty() }),
        ),
        Token::Tag(from, to) => {
            let label = segment(text, from.raw + 1, to.raw - 1);
            match shape_of(label) {
                Shape::Name => match lookup(stack, label) {
                    Some(value) => Effect::Continue(recorded(stack, Edit { from, to, text: value })),
                    None => Effect::Fail(Fault::UndefinedName(from.after('{'), label)),
                },
                Shape::Unmatched(kind) => if kind == ScopeKind::FileInclude {
                    Effect::Fail(Fault::MissingHash(to))
                } else {
                    Effect::Fail(Fault::MissingColon(to))
                },
                Shape::Open(kind, name) => Effect::Continue(
                    stack.push(opened_frame(kind, from, to, name)),
                ),
                Shape::Close(kind) => closed(text, stack, kind, from, to),
            }
        },
    }
}

/// How the walk ends once the tokens are used up: a scope that is still open besides the
/// root is a missing closing tag; else the output is the whole template with the root's
/// replacements applied.
pub open spec fn finish(text: Seq<char>, stack: Seq<Frame>) -> Verdict {
    if stack.len() != 1 {
        Verdict::Failed(Fault::MissingClosingTag(stack.last().origin))
    } else {
        Verdict::Finished(
            composed(
                text,
                stack[0].origin.raw as int,
                encode_utf8(text).len() as int,
                stack[0].pending,
            ),
        )
    }
}

/// How the walk over `tokens`, from the token of index `next` on and with the open scopes
/// of `stack`, ends or pauses.
pub open spec fn run(text: Seq<char>, tokens: Seq<Token>, next: int, stack: Seq<Frame>) -> Verdict
    decreases tokens.len() - next,
{
    if next < 0 || next >= tokens.len() {
        finish(text, stack)
    } else {
        match step(text, stack, tokens[next]) {
            Effect::Continue(after) => run(text, tokens, next + 1, after),
            Effect::Suspend { name, bindings, origin, until, stack } => Verdict::Awaiting {
                name,
                bindings,
                halt: Halt { text, next: next + 1, stack, origin, until },
            },
            Effect::Fail(fault) => Verdict::Failed(fault),
        }
    }
}

/// How rendering `text` with the bindings `ctx` ends, or where it first pauses.
pub open spec fn rendering(text: Seq<char>, ctx: Map<Seq<char>, Seq<char>>) -> Verdict {
    match scan(text) {
        Ok(tokens) => run(text, tokens, 0, seq![root_frame(ctx)]),
        Err(fault) => Verdict::Failed(fault),
    }
}

/// How a paused walk goes on once the awaited resource has been rendered to `included`:
/// that text replaces the include block in the scope around it.
pub open spec fn continued(halt: Halt, included: Seq<char>) -> Verdict {
    run(
        halt.text,
        scan(halt.text)->Ok_0,
        halt.next,
        recorded(halt.stack, Edit { from: halt.origin, to: halt.until, text: included }),
    )
}

/// How a render as a whole stands: a resource may itself include resources, so that
/// several walks wait, one inside the other.
pub enum Status {
    /// The template is rendered: this is the output.
    Finished(Seq<char>),
    /// The render failed.
    Failed(Fault),
    /// The render waits for the resource `name`, which is to be rendered with `bindings`.
    /// `halts` are the walks that wait, outermost first: the last is the one that asked.
    Waiting { name: Seq<char>, bindings: Map<Seq<char>, Seq<char>>, halts: Seq<Halt> },
}

/// How the render stands once the innermost walk has come to `verdict` while the walks
/// `halts` wait around it. A fault fails the whole render. A walk that pauses waits with
/// the others. The output of a walk that finishes is the rendered text that the walk
/// around it waited for, which goes on with it; the output of the outermost walk is
/// the output of the render.
pub open spec fn settled(halts: Seq<Halt>, verdict: Verdict) -> Status
    decreases halts.len(),
{
    match verdict {
        Verdict::Failed(fault) => Status::Failed(fault),
        Verdict::Awaiting { name, bindings, halt } => Status::Waiting {
            name,
            bindings,
            halts: halts.push(halt),
        },
        Verdict::Finished(out) => if halts.len() == 0 {
            Status::Finished(out)
        } else {
            settled(halts.drop_last(), continued(halts.last(), out))
        },
    }
}

/// How a render of `text` with the bindings `ctx` stands when it first needs a resource,
/// or how it ends if it needs none.
pub open spec fn started(text: Seq<char>, ctx: Map<Seq<char>, Seq<char>>) -> Status {
    settled(Seq::empty(), rendering(text, ctx))
}

/// How a render that waited for a resource stands once the host has answered. Content that
/// was read is rendered with the bindings of the block that asked for it, and nothing
/// else; a resource that could not be read fails the render with the host's reason.
pub open spec fn supplied(
    halts: Seq<Halt>,
    bindings: Map<Seq<char>, Seq<char>>,
    resource: Result<Seq<char>, Seq<char>>,
) -> Status {
    match resource {
        Ok(content) => settled(halts, rendering(content, bindings)),
        Err(reason) => Status::Failed(Fault::IoError(reason)),
    }
}

} // verus!
