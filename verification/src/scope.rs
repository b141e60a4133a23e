use crate::compose::edits_of;
use crate::compose::Edit;
use crate::context::Context;
use crate::label::ScopeKind;
use crate::pos::Pos;
use vstd::prelude::*;

verus! {

/// One open scope: the template as a whole, or a block that was opened and not yet closed.
pub struct Scope {
    /// Where the scope's opening tag begins; for the root, the start of the template.
    pub from: Pos,
    pub kind: ScopeKind,
    /// The name that the opening tag gave; empty for the root.
    pub name: String,
    /// What was bound in this scope.
    pub ctx: Context,
    /// The replacements recorded in this scope, in the order of the template.
    pub replace: Vec<(Pos, Pos, String)>,
}

/// A `Scope` as contracts see it.
pub struct Frame {
    pub kind: ScopeKind,
    pub origin: Pos,
    pub name: Seq<char>,
    pub bindings: Map<Seq<char>, Seq<char>>,
    pub pending: Seq<Edit>,
}

impl View for Scope {
    type V = Frame;

    open spec fn view(&self) -> Frame {
        Frame {
            kind: self.kind,
            origin: self.from,
            name: self.name@,
            bindings: self.ctx@,
            pending: edits_of(self.replace@),
        }
    }
}

/// The scopes of a stack as contracts see them, outermost first.
pub open spec fn frames_of(stack: Seq<Scope>) -> Seq<Frame> {
    stack.map_values(|scope: Scope| scope@)
}

/// The value of `name` in the innermost scope of `stack` that binds it.
pub open spec fn lookup(stack: Seq<Frame>, name: Seq<char>) -> Option<Seq<char>>
    decreases stack.len(),
{
    if stack.len() == 0 {
        None
    } else if stack.last().bindings.contains_key(name) {
        Some(stack.last().bindings[name])
    } else {
        lookup(stack.drop_last(), name)
    }
}

/// `stack` with `edit` added to the replacements of its innermost scope.
pub open spec fn recorded(stack: Seq<Frame>, edit: Edit) -> Seq<Frame> {
    let top = stack.last();
    stack.drop_last().push(Frame { pending: top.pending.push(edit), ..top })
}

/// `stack` with `name` bound to `value` in its innermost scope.
pub open spec fn bound(stack: Seq<Frame>, name: Seq<char>, value: Seq<char>) -> Seq<Frame> {
    let top = stack.last();
    stack.drop_last().push(Frame { bindings: top.bindings.insert(name, value), ..top })
}

/// Looks `name` up in the scopes of `item_stack`, from the innermost outwards.
pub fn ctx_get(item_stack: &Vec<Scope>, name: &str) -> (found: Option<String>)
    ensures
        match found {
            Some(value) => lookup(frames_of(item_stack@), name@) == Some(value@),
            None => lookup(frames_of(item_stack@), name@) is None,
        },
{
    let ghost frames = frames_of(item_stack@);
    let mut depth: usize = item_stack.len();
    proof {
        assert(frames.take(depth as int) =~= frames);
    }
    while depth > 0
        invariant
            0 <= depth <= item_stack.len(),
            frames == frames_of(item_stack@),
            lookup(frames, name@) == lookup(frames.take(depth as int), name@),
        decreases depth,
    {
        proof {
            assert(frames.take(depth as int).drop_last() =~= frames.take(depth - 1));
            assert(frames.take(depth as int).last() == item_stack@[depth - 1]@);
        }
        depth = depth - 1;
        match item_stack[depth].ctx.get(name) {
            Some(value) => {
                return Some(value.clone());
            },
            None => {},
        }
    }
    proof {
        assert(frames.take(0) =~= Seq::<Frame>::empty());
    }
    None
}

/// Adds a replacement to the innermost scope of `stack`.
pub fn record(stack: &mut Vec<Scope>, from: Pos, to: Pos, text: String)
    requires
        old(stack).len() > 0,
    ensures
        frames_of(final(stack)@) == recorded(
            frames_of(old(stack)@),
            Edit { from, to, text: text@ },
        ),
{
    let ghost before = frames_of(stack@);
    let ghost edit = Edit { from, to, text: text@ };
    match stack.pop() {
        Some(mut top) => {
            let ghost earlier = edits_of(top.replace@);
            top.replace.push((from, to, text));
            proof {
                assert(edits_of(top.replace@) =~= earlier.push(edit));
            }
            stack.push(top);
            proof {
                assert(frames_of(stack@) =~= recorded(before, edit));
            }
        },
        None => {},
    }
}

/// Binds `name` to `value` in the innermost scope of `stack`.
pub fn bind(stack: &mut Vec<Scope>, name: String, value: String)
    requires
        old(stack).len() > 0,
    ensures
        frames_of(final(stack)@) == bound(frames_of(old(stack)@), name@, value@),
{
    let ghost before = frames_of(stack@);
    match stack.pop() {
        Some(mut top) => {
            top.ctx.insert(name, value);
            stack.push(top);
            proof {
                assert(frames_of(stack@) =~= bound(before, name@, value@));
            }
        },
        None => {},
    }
}

} // verus!
