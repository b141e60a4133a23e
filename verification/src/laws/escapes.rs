use crate::compose::Edit;
use crate::compose::composed;
use crate::compose::cursor;
use crate::compose::laid;
use crate::error::Fault;
use crate::scope::Frame;
use crate::scope::recorded;
use crate::text::lemma_offset_split;
use crate::text::lemma_segment_between;
use crate::text::offset_of;
use crate::token::Token;
use crate::token::lemma_pos_at;
use crate::token::pos_at;
use crate::token::scan_from;
use crate::walk::Effect;
use crate::walk::Status;
use crate::walk::Verdict;
use crate::walk::finish;
use crate::walk::root_frame;
use crate::walk::run;
use crate::walk::started;
use crate::walk::step;
use vstd::prelude::*;
use vstd::utf8::encode_utf8;

verus! {

/// Every `{` of `text` is the first half of an escape marker `{!`.
pub open spec fn only_escapes(text: Seq<char>) -> bool {
    forall|k: int|
        0 <= k < text.len() && #[trigger] text[k] == '{' ==> k + 1 < text.len() && text[k + 1]
            == '!'
}

/// `plain` with every `{` written as the escape marker `{!`.
pub open spec fn escaped(plain: Seq<char>) -> Seq<char>
    decreases plain.len(),
{
    if plain.len() == 0 {
        Seq::empty()
    } else if plain[0] == '{' {
        seq!['{', '!'] + escaped(plain.drop_first())
    } else {
        seq![plain[0]] + escaped(plain.drop_first())
    }
}

/// `text` with every escape marker `{!` written as a plain `{`.
pub open spec fn unescaped(text: Seq<char>) -> Seq<char>
    decreases text.len(),
{
    if text.len() == 0 {
        Seq::empty()
    } else if text[0] == '{' && text.len() >= 2 && text[1] == '!' {
        seq!['{'] + unescaped(text.skip(2))
    } else {
        seq![text[0]] + unescaped(text.drop_first())
    }
}

/// The tokens of a text of which every `{` starts an escape marker, from index `i` on:
/// one for the `!` behind each `{`.
spec fn marks(text: Seq<char>, i: int) -> Seq<Token>
    decreases text.len() - i,
{
    if i < 0 || i >= text.len() {
        Seq::empty()
    } else if text[i] != '{' {
        marks(text, i + 1)
    } else {
        seq![Token::Bang(pos_at(text, i + 1))] + marks(text, i + 1)
    }
}

/// A text of which every `{` starts an escape marker is scanned to its marks.
proof fn lemma_scan_escapes(text: Seq<char>, i: int)
    requires
        only_escapes(text),
    ensures
        scan_from(text, i) == Ok::<Seq<Token>, Fault>(marks(text, i)),
    decreases text.len() - i,
{
    if 0 <= i < text.len() {
        lemma_scan_escapes(text, i + 1);
    }
}

/// Writing the escape markers of a text plain and escaping the result gives the text back.
proof fn lemma_escaped_unescaped(text: Seq<char>)
    requires
        only_escapes(text),
    ensures
        escaped(unescaped(text)) == text,
    decreases text.len(),
{
    if text.len() > 0 {
        if text[0] == '{' {
            let rest = text.skip(2);
            assert forall|k: int| 0 <= k < rest.len() && #[trigger] rest[k] == '{' implies k + 1
                < rest.len() && rest[k + 1] == '!' by {
                assert(text[k + 2] == '{');
            }
            lemma_escaped_unescaped(rest);
            let out = unescaped(text);
            assert(out.drop_first() =~= unescaped(rest));
            assert(escaped(out) =~= text);
        } else {
            let rest = text.drop_first();
            assert forall|k: int| 0 <= k < rest.len() && #[trigger] rest[k] == '{' implies k + 1
                < rest.len() && rest[k + 1] == '!' by {
                assert(text[k + 1] == '{');
            }
            lemma_escaped_unescaped(rest);
            let out = unescaped(text);
            assert(out.drop_first() =~= unescaped(rest));
            assert(escaped(out) =~= text);
        }
    }
}

/// The walk over the escape markers from the character of index `i` on, with the text up
/// to the character of index `c` laid out by the root's replacements, ends with the rest
/// of the text written plain behind that.
proof fn lemma_run_escapes(
    text: Seq<char>,
    tokens: Seq<Token>,
    k: int,
    i: int,
    c: int,
    root: Frame,
)
    requires
        only_escapes(text),
        encode_utf8(text).len() < usize::MAX,
        0 <= c <= i <= text.len(),
        0 <= k <= tokens.len(),
        tokens.skip(k) == marks(text, i),
        cursor(root.origin.raw as int, root.pending) == offset_of(text, c),
    ensures
        run(text, tokens, k, seq![root]) == Verdict::Finished(
            laid(text, root.origin.raw as int, root.pending) + text.subrange(c, i) + unescaped(
                text.skip(i),
            ),
        ),
    decreases text.len() - i,
{
    let stack = seq![root];
    let low = root.origin.raw as int;
    if i == text.len() {
        assert(tokens.skip(k).len() == 0);
        assert(run(text, tokens, k, stack) == finish(text, stack));
        lemma_offset_split(text, i);
        assert(text.take(i) =~= text);
        lemma_segment_between(text, c, i);
        assert(text.skip(i) =~= Seq::<char>::empty());
        assert(laid(text, low, root.pending) + text.subrange(c, i) + unescaped(text.skip(i))
            =~= composed(text, low, encode_utf8(text).len() as int, root.pending));
    } else if text[i] != '{' {
        lemma_run_escapes(text, tokens, k, i + 1, c, root);
        assert(text.skip(i).drop_first() =~= text.skip(i + 1));
        assert(text.subrange(c, i) + unescaped(text.skip(i)) =~= text.subrange(c, i + 1)
            + unescaped(text.skip(i + 1)));
        assert(laid(text, low, root.pending) + text.subrange(c, i) + unescaped(text.skip(i))
            =~= laid(text, low, root.pending) + text.subrange(c, i + 1) + unescaped(
            text.skip(i + 1),
        ));
    } else {
        let at = pos_at(text, i + 1);
        let edit = Edit { from: at, to: at.after('!'), text: Seq::<char>::empty() };
        let after = Frame { pending: root.pending.push(edit), ..root };
        assert(marks(text, i).len() >= 1);
        assert(tokens.skip(k).len() == tokens.len() - k);
        assert(tokens[k] == tokens.skip(k)[0]);
        assert(tokens[k] == Token::Bang(at));
        assert(step(text, stack, tokens[k]) == Effect::Continue(recorded(stack, edit))) by {
            reveal(step);
        }
        assert(recorded(stack, edit) =~= seq![after]);
        assert(run(text, tokens, k, stack) == run(text, tokens, k + 1, seq![after]));
        assert(tokens.skip(k + 1) =~= marks(text, i + 2)) by {
            assert(tokens.skip(k + 1) =~= tokens.skip(k).drop_first());
            assert(marks(text, i + 1) == marks(text, i + 2));
        }
        lemma_pos_at(text, i + 1);
        lemma_pos_at(text, i + 2);
        lemma_run_escapes(text, tokens, k + 1, i + 2, i + 2, after);
        lemma_segment_between(text, c, i + 1);
        assert(after.pending.drop_last() =~= root.pending);
        assert(laid(text, low, after.pending) =~= laid(text, low, root.pending) + text.subrange(
            c,
            i + 1,
        ));
        assert(text.skip(i).skip(2) =~= text.skip(i + 2));
        assert(text.subrange(c, i + 1) =~= text.subrange(c, i) + seq!['{']);
        assert(laid(text, low, root.pending) + text.subrange(c, i) + unescaped(text.skip(i))
            =~= laid(text, low, after.pending) + text.subrange(i + 2, i + 2) + unescaped(
            text.skip(i + 2),
        ));
    }
}

/// A text of which every `{` starts an escape marker `{!` is rendered to the text with
/// each marker written as a plain `{`, and escaping that output gives the text back.
pub proof fn law_escapes_round_trip(text: Seq<char>, ctx: Map<Seq<char>, Seq<char>>)
    requires
        only_escapes(text),
        encode_utf8(text).len() < usize::MAX,
    ensures
        started(text, ctx) == Status::Finished(unescaped(text)),
        escaped(unescaped(text)) == text,
{
    lemma_escaped_unescaped(text);
    lemma_scan_escapes(text, 0);
    let tokens = marks(text, 0);
    let root = root_frame(ctx);
    assert(tokens.skip(0) =~= tokens);
    assert(text.take(0) =~= Seq::<char>::empty());
    lemma_run_escapes(text, tokens, 0, 0, 0, root);
    assert(text.skip(0) =~= text);
    assert(laid(text, 0, root.pending) + text.subrange(0, 0) + unescaped(text.skip(0))
        =~= unescaped(text));
}

/// In an escaped text every `{` starts an escape marker, and writing the markers plain
/// gives back what was escaped.
proof fn lemma_unescaped_escaped(plain: Seq<char>)
    ensures
        only_escapes(escaped(plain)),
        unescaped(escaped(plain)) == plain,
    decreases plain.len(),
{
    if plain.len() > 0 {
        let rest = plain.drop_first();
        let tail = escaped(rest);
        let all = escaped(plain);
        lemma_unescaped_escaped(rest);
        if plain[0] == '{' {
            assert(all.skip(2) =~= tail);
            assert forall|k: int| 0 <= k < all.len() && #[trigger] all[k] == '{' implies k + 1
                < all.len() && all[k + 1] == '!' by {
                if k >= 2 {
                    assert(tail[k - 2] == '{');
                }
            }
        } else {
            assert(all.drop_first() =~= tail);
            assert forall|k: int| 0 <= k < all.len() && #[trigger] all[k] == '{' implies k + 1
                < all.len() && all[k + 1] == '!' by {
                if k >= 1 {
                    assert(tail[k - 1] == '{');
                }
            }
        }
        assert(unescaped(all) =~= plain);
    }
}

/// Escaping makes any text literal: the escaped form of `plain` is rendered to `plain`.
pub proof fn law_escaped_text_is_literal(plain: Seq<char>, ctx: Map<Seq<char>, Seq<char>>)
    requires
        encode_utf8(escaped(plain)).len() < usize::MAX,
    ensures
        started(escaped(plain), ctx) == Status::Finished(plain),
{
    lemma_unescaped_escaped(plain);
    law_escapes_round_trip(escaped(plain), ctx);
}

} // verus!
