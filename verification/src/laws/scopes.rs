use crate::compose::Edit;
use crate::compose::composed;
use crate::label::ScopeKind;
use crate::label::Shape;
use crate::label::shape_of;
use crate::pos::Pos;
use crate::scope::Frame;
use crate::scope::bound;
use crate::scope::lookup;
use crate::scope::recorded;
use crate::text::segment;
use crate::token::Token;
use crate::walk::Effect;
use crate::walk::step;
use vstd::prelude::*;

verus! {

/// A replacement binds nothing.
proof fn lemma_recorded_binds_nothing(stack: Seq<Frame>, edit: Edit, wanted: Seq<char>)
    requires
        stack.len() > 0,
    ensures
        lookup(recorded(stack, edit), wanted) == lookup(stack, wanted),
{
    assert(recorded(stack, edit).drop_last() =~= stack.drop_last());
}

/// Only a closing tag changes what a name resolves to: behind an escape marker, a
/// reference or an opening tag every name resolves as it did in front of it. So the name of
/// a definition block resolves to the block's text neither in front of the block nor
/// inside it.
pub proof fn law_bindings_change_only_on_close(
    text: Seq<char>,
    stack: Seq<Frame>,
    tok: Token,
    wanted: Seq<char>,
)
    requires
        stack.len() > 0,
        tok matches Token::Tag(from, to) ==> !(shape_of(segment(text, from.raw + 1, to.raw - 1))
            is Close),
        step(text, stack, tok) is Continue,
    ensures
        lookup(step(text, stack, tok)->Continue_0, wanted) == lookup(stack, wanted),
{
    reveal(step);
    let after = step(text, stack, tok)->Continue_0;
    match tok {
        Token::Bang(at) => {
            lemma_recorded_binds_nothing(
                stack,
                Edit { from: at, to: at.after('!'), text: Seq::empty() },
                wanted,
            );
        },
        Token::Tag(from, to) => {
            let label = segment(text, from.raw + 1, to.raw - 1);
            match shape_of(label) {
                Shape::Name => {
                    lemma_recorded_binds_nothing(
                        stack,
                        Edit { from, to, text: lookup(stack, label)->Some_0 },
                        wanted,
                    );
                },
                Shape::Open(kind, name) => {
                    assert(after.drop_last() =~= stack);
                },
                _ => {},
            }
        },
    }
}

/// The root scope stays open: no token that lets the walk go on closes the outermost scope
/// or changes where it begins or of what kind it is.
pub proof fn law_root_stays_open(text: Seq<char>, stack: Seq<Frame>, tok: Token)
    requires
        stack.len() >= 1,
        step(text, stack, tok) is Continue,
    ensures
        step(text, stack, tok)->Continue_0.len() >= 1,
        step(text, stack, tok)->Continue_0[0].kind == stack[0].kind,
        step(text, stack, tok)->Continue_0[0].origin == stack[0].origin,
{
    reveal(step);
}

/// No token touches a scope that lies further out than the scope around the innermost:
/// what a block binds or replaces never reaches past the scope that the block stands in.
pub proof fn law_step_leaves_outer_scopes(
    text: Seq<char>,
    stack: Seq<Frame>,
    tok: Token,
    depth: int,
)
    requires
        0 <= depth <= stack.len() - 2,
        step(text, stack, tok) is Continue,
    ensures
        step(text, stack, tok)->Continue_0.len() > depth,
        step(text, stack, tok)->Continue_0.take(depth) == stack.take(depth),
{
    reveal(step);
    let after = step(text, stack, tok)->Continue_0;
    assert(after.len() > depth);
    assert(after.take(depth) =~= stack.take(depth));
}

/// Once a definition block is closed, its name resolves to the block's text in the scope
/// around it. Every other name resolves there as it did before the block was opened: what
/// was bound inside the block is gone with it.
pub proof fn law_definition_is_visible_after_close(
    text: Seq<char>,
    stack: Seq<Frame>,
    from: Pos,
    to: Pos,
    wanted: Seq<char>,
)
    requires
        stack.len() >= 2,
        stack.last().kind == ScopeKind::Definition,
        shape_of(segment(text, from.raw + 1, to.raw - 1)) == Shape::Close(ScopeKind::Definition),
    ensures
        step(text, stack, Token::Tag(from, to)) matches Effect::Continue(after) && after.len()
            == stack.len() - 1 && after.drop_last() == stack.drop_last().drop_last() && lookup(
            after,
            wanted,
        ) == if wanted == stack.last().name {
            Some(
                composed(
                    text,
                    stack.last().origin.raw as int,
                    to.raw as int,
                    stack.last().pending.push(Edit { from, to, text: Seq::empty() }),
                ),
            )
        } else {
            lookup(stack.drop_last(), wanted)
        },
{
    reveal(step);
    let top = stack.last();
    let below = stack.drop_last();
    let value = composed(
        text,
        top.origin.raw as int,
        to.raw as int,
        top.pending.push(Edit { from, to, text: Seq::empty() }),
    );
    let named = bound(below, top.name, value);
    let after = recorded(named, Edit { from: top.origin, to, text: Seq::empty() });
    assert(step(text, stack, Token::Tag(from, to)) == Effect::Continue(after));
    assert(after.drop_last() =~= below.drop_last());
    assert(named.drop_last() =~= below.drop_last());
    lemma_recorded_binds_nothing(named, Edit { from: top.origin, to, text: Seq::empty() }, wanted);
}

} // verus!
