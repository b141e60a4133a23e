use crate::compose::cursor;
use crate::compose::edits_fit;
use crate::compose::lemma_edits_push;
use crate::compose::lemma_edits_widen;
use crate::compose::Edit;
use crate::error::Fault;
use crate::scope::bound;
use crate::scope::recorded;
use crate::scope::Frame;
use crate::text::on_boundary;
use crate::token::lemma_scan_fits;
use crate::token::scan;
use crate::token::Token;
use vstd::prelude::*;
use vstd::utf8::encode_utf8;

verus! {

/// The byte offset before which the tokens from index `next` on leave the template alone.
pub open spec fn frontier(text: Seq<char>, tokens: Seq<Token>, next: int) -> int {
    if 0 <= next < tokens.len() {
        tokens[next].start()
    } else {
        encode_utf8(text).len() as int
    }
}

/// The byte offset up to which the scope of depth `d` may have recorded replacements: the
/// start of the scope opened inside it, or for the innermost scope `frontier`.
pub open spec fn limit(stack: Seq<Frame>, d: int, frontier: int) -> int {
    if d + 1 < stack.len() {
        stack[d + 1].origin.raw as int
    } else {
        frontier
    }
}

/// The replacements of every open scope lie in order between the scope's start and its
/// limit, at offsets where characters start.
pub open spec fn stack_fits(text: Seq<char>, stack: Seq<Frame>, frontier: int) -> bool {
    &&& stack.len() >= 1
    &&& forall|d: int|
        0 <= d < stack.len() ==> edits_fit(
            text,
            (#[trigger] stack[d]).origin.raw as int,
            limit(stack, d, frontier),
            stack[d].pending,
        )
}

/// The scopes still fit with one more replacement in the innermost, if that replacement
/// begins where the scope's replacements have ended, or behind.
pub proof fn lemma_fits_record(
    text: Seq<char>,
    stack: Seq<Frame>,
    edit: Edit,
    frontier: int,
    beyond: int,
)
    requires
        stack_fits(text, stack, frontier),
        cursor(stack.last().origin.raw as int, stack.last().pending) <= edit.from.raw,
        on_boundary(text, edit.from.raw as int),
        on_boundary(text, edit.to.raw as int),
        edit.to.raw <= beyond,
        on_boundary(text, beyond),
    ensures
        stack_fits(text, recorded(stack, edit), beyond),
{
    let after = recorded(stack, edit);
    let top = stack.len() - 1;
    assert forall|d: int| 0 <= d < after.len() implies edits_fit(
        text,
        (#[trigger] after[d]).origin.raw as int,
        limit(after, d, beyond),
        after[d].pending,
    ) by {
        if d < top {
            assert(after[d] == stack[d]);
            assert(limit(after, d, beyond) == limit(stack, d, frontier));
        } else {
            lemma_edits_push(
                text,
                stack[top].origin.raw as int,
                frontier,
                beyond,
                stack[top].pending,
                edit,
            );
        }
    }
}

/// Binding a name leaves the scopes fitting.
pub proof fn lemma_fits_bind(
    text: Seq<char>,
    stack: Seq<Frame>,
    name: Seq<char>,
    value: Seq<char>,
    frontier: int,
)
    requires
        stack_fits(text, stack, frontier),
    ensures
        stack_fits(text, bound(stack, name, value), frontier),
        bound(stack, name, value).last().origin == stack.last().origin,
        bound(stack, name, value).last().pending == stack.last().pending,
{
    let after = bound(stack, name, value);
    let top = stack.len() - 1;
    assert forall|d: int| 0 <= d < after.len() implies edits_fit(
        text,
        (#[trigger] after[d]).origin.raw as int,
        limit(after, d, frontier),
        after[d].pending,
    ) by {
        if d < top {
            assert(after[d] == stack[d]);
        }
        assert(limit(after, d, frontier) == limit(stack, d, frontier));
        assert(after[d].pending == stack[d].pending);
        assert(after[d].origin == stack[d].origin);
    }
}

/// The scopes still fit with a scope opened inside the innermost, if the new scope begins
/// at the frontier or behind and its own replacements fit.
pub proof fn lemma_fits_push(
    text: Seq<char>,
    stack: Seq<Frame>,
    frame: Frame,
    frontier: int,
    beyond: int,
)
    requires
        stack_fits(text, stack, frontier),
        frontier <= frame.origin.raw,
        on_boundary(text, frame.origin.raw as int),
        edits_fit(text, frame.origin.raw as int, beyond, frame.pending),
    ensures
        stack_fits(text, stack.push(frame), beyond),
{
    let after = stack.push(frame);
    let top = stack.len() - 1;
    assert forall|d: int| 0 <= d < after.len() implies edits_fit(
        text,
        (#[trigger] after[d]).origin.raw as int,
        limit(after, d, beyond),
        after[d].pending,
    ) by {
        if d < top {
            assert(after[d] == stack[d]);
            assert(limit(after, d, beyond) == limit(stack, d, frontier));
        } else if d == top {
            assert(after[d] == stack[d]);
            lemma_edits_widen(
                text,
                stack[d].origin.raw as int,
                frontier,
                frame.origin.raw as int,
                stack[d].pending,
            );
        }
    }
}

/// Without their innermost scope the scopes fit up to where that scope began.
pub proof fn lemma_fits_pop(text: Seq<char>, stack: Seq<Frame>, frontier: int)
    requires
        stack_fits(text, stack, frontier),
        stack.len() >= 2,
    ensures
        stack_fits(text, stack.drop_last(), stack.last().origin.raw as int),
{
    let after = stack.drop_last();
    assert forall|d: int| 0 <= d < after.len() implies edits_fit(
        text,
        (#[trigger] after[d]).origin.raw as int,
        limit(after, d, stack.last().origin.raw as int),
        after[d].pending,
    ) by {
        assert(after[d] == stack[d]);
        assert(limit(after, d, stack.last().origin.raw as int) == limit(stack, d, frontier));
    }
}

/// The tokens from index `next` on begin at the frontier of `next` or behind, where a
/// character starts, and each ends before the frontier of the index behind it.
pub proof fn lemma_frontier(text: Seq<char>, tokens: Seq<Token>, next: int)
    requires
        encode_utf8(text).len() < usize::MAX,
        scan(text) == Ok::<Seq<Token>, Fault>(tokens),
        0 <= next <= tokens.len(),
    ensures
        on_boundary(text, frontier(text, tokens, next)),
        next < tokens.len() ==> tokens[next].fits(text) && tokens[next].start() <= tokens[next].end()
            && tokens[next].end() <= frontier(text, tokens, next + 1),
{
    lemma_scan_fits(text);
    vstd::utf8::encode_utf8_valid_utf8(text);
    vstd::utf8::is_char_boundary_start_end_of_seq(encode_utf8(text));
    if next < tokens.len() {
        assert(tokens[next].fits(text));
    }
    if next + 1 < tokens.len() {
        assert(tokens[next + 1].fits(text));
    }
}

} // verus!
