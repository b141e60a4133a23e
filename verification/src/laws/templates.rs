use crate::compose::Edit;
use crate::compose::composed;
use crate::compose::laid;
use crate::error::Fault;
use crate::label::ScopeKind;
use crate::label::Shape;
use crate::label::shape_of;
use crate::laws::braces::is_plain;
use crate::laws::braces::lemma_label_of_tag;
use crate::laws::braces::lemma_plain_rendering;
use crate::laws::braces::lemma_scan_passes_text;
use crate::laws::braces::lemma_scan_reads_tag;
use crate::scope::Frame;
use crate::scope::bound;
use crate::scope::lookup;
use crate::scope::recorded;
use crate::text::lemma_offset_split;
use crate::text::lemma_segment_between;
use crate::text::segment;
use crate::token::Token;
use crate::token::pos_at;
use crate::token::scan;
use crate::token::scan_from;
use crate::walk::Effect;
use crate::walk::Halt;
use crate::walk::Status;
use crate::walk::Verdict;
use crate::walk::continued;
use crate::walk::finish;
use crate::walk::opened_frame;
use crate::walk::rendering;
use crate::walk::root_frame;
use crate::walk::run;
use crate::walk::settled;
use crate::walk::started;
use crate::walk::supplied;
use crate::walk::step;
use vstd::prelude::*;
use vstd::utf8::encode_utf8;

verus! {

/// `label` can stand between braces as a name to look up: it holds no brace and no
/// newline, and does not begin with `!`, `#` or `:`.
pub open spec fn is_name(label: Seq<char>) -> bool {
    &&& forall|k: int|
        0 <= k < label.len() ==> label[k] != '{' && label[k] != '}' && label[k] != '\n'
    &&& label.len() > 0 ==> label[0] != '!' && label[0] != '#' && label[0] != ':'
}

/// The template that refers to `name` between the plain texts `before` and `after`.
pub open spec fn reference(before: Seq<char>, name: Seq<char>, after: Seq<char>) -> Seq<char> {
    before + seq!['{'] + name + seq!['}'] + after
}

/// A reference between plain text gives way to the value bound to its name, and the text
/// around it stays. Where the name is not bound, the render fails at the name.
pub proof fn law_reference_is_replaced(
    before: Seq<char>,
    name: Seq<char>,
    after: Seq<char>,
    ctx: Map<Seq<char>, Seq<char>>,
)
    requires
        is_plain(before),
        is_plain(after),
        is_name(name),
        encode_utf8(reference(before, name, after)).len() < usize::MAX,
    ensures
        started(reference(before, name, after), ctx) == if ctx.contains_key(name) {
            Status::Finished(before + ctx[name] + after)
        } else {
            Status::Failed(
                Fault::UndefinedName(
                    pos_at(reference(before, name, after), before.len() as int + 1),
                    name,
                ),
            )
        },
{
    let text = reference(before, name, after);
    let i = before.len() as int;
    let j = i + 1 + name.len();
    let from = pos_at(text, i);
    let to = pos_at(text, j + 1);
    let tok = Token::Tag(from, to);
    let stack = seq![root_frame(ctx)];
    assert(text.subrange(0, i) =~= before);
    assert(text.subrange(i + 1, j) =~= name);
    assert(text.subrange(j + 1, text.len() as int) =~= after);
    assert forall|k: int| 0 <= k < i implies text[k] != '{' by {
        assert(text[k] == before[k]);
    }
    assert forall|k: int| i < k < j implies text[k] != '{' && text[k] != '}' && text[k] != '\n' by {
        assert(text[k] == name[k - i - 1]);
    }
    assert forall|k: int| j + 1 <= k < text.len() implies text[k] != '{' by {
        assert(text[k] == after[k - j - 1]);
    }
    assert(text[i + 1] != '!') by {
        if name.len() > 0 {
            assert(text[i + 1] == name[0]);
        }
    }
    lemma_scan_passes_text(text, 0, i);
    lemma_scan_reads_tag(text, i, j);
    lemma_scan_passes_text(text, j + 1, text.len() as int);
    assert(scan(text) == Ok::<Seq<Token>, Fault>(seq![tok])) by {
        assert(seq![tok] + Seq::<Token>::empty() =~= seq![tok]);
    }
    lemma_label_of_tag(text, i, j);
    let label = segment(text, from.raw + 1, to.raw - 1);
    assert(label == name);
    assert(lookup(stack, name) == if ctx.contains_key(name) {
        Some(ctx[name])
    } else {
        None::<Seq<char>>
    }) by {
        assert(stack.drop_last() =~= Seq::<Frame>::empty());
        reveal_with_fuel(lookup, 2);
    }
    reveal(step);
    let tokens = seq![tok];
    if ctx.contains_key(name) {
        let edit = Edit { from, to, text: ctx[name] };
        let next = recorded(stack, edit);
        let root = Frame { pending: seq![edit], ..root_frame(ctx) };
        assert(step(text, stack, tok) == Effect::Continue(next));
        assert(next =~= seq![root]) by {
            assert(root_frame(ctx).pending.push(edit) =~= seq![edit]);
        }
        assert(run(text, tokens, 0, stack) == run(text, tokens, 1, next));
        assert(run(text, tokens, 1, next) == finish(text, next));
        lemma_segment_between(text, 0, i);
        lemma_segment_between(text, j + 1, text.len() as int);
        lemma_offset_split(text, text.len() as int);
        assert(text.take(text.len() as int) =~= text);
        assert(text.take(0) =~= Seq::<char>::empty());
        assert(seq![edit].drop_last() =~= Seq::<Edit>::empty());
        assert(laid(text, 0, seq![edit]) =~= before + ctx[name]) by {
            reveal_with_fuel(laid, 2);
        }
        assert(composed(text, 0, encode_utf8(text).len() as int, seq![edit]) =~= before
            + ctx[name] + after);
    } else {
        assert(step(text, stack, tok) == Effect::Fail(
            Fault::UndefinedName(from.after('{'), name),
        ));
        assert(run(text, tokens, 0, stack) == Verdict::Failed(
            Fault::UndefinedName(from.after('{'), name),
        ));
    }
}

/// The template that defines `name` as `body` and refers to it right behind the block.
pub open spec fn defined_and_used(name: Seq<char>, body: Seq<char>) -> Seq<char> {
    seq!['{', ':'] + name + seq![':', '}'] + body + seq!['{', ':', '}', '{'] + name + seq!['}']
}

/// The tag that opens the definition in `defined_and_used`.
spec fn opening_tag(name: Seq<char>, body: Seq<char>) -> Token {
    let text = defined_and_used(name, body);
    Token::Tag(pos_at(text, 0), pos_at(text, name.len() as int + 4))
}

/// The tag that closes the definition in `defined_and_used`.
spec fn closing_tag(name: Seq<char>, body: Seq<char>) -> Token {
    let text = defined_and_used(name, body);
    let at = name.len() as int + 4 + body.len();
    Token::Tag(pos_at(text, at), pos_at(text, at + 3))
}

/// The reference in `defined_and_used`.
spec fn using_tag(name: Seq<char>, body: Seq<char>) -> Token {
    let text = defined_and_used(name, body);
    let at = name.len() as int + 7 + body.len();
    Token::Tag(pos_at(text, at), pos_at(text, at + name.len() + 2))
}

/// The tokens of `defined_and_used` are its three tags; their labels are `:name:`, `:` and
/// `name`, and between and around them lie the body and nothing else.
proof fn lemma_defined_and_used_scan(name: Seq<char>, body: Seq<char>)
    requires
        is_name(name),
        is_plain(body),
        encode_utf8(defined_and_used(name, body)).len() < usize::MAX,
    ensures
        ({
            let text = defined_and_used(name, body);
            let open = opening_tag(name, body);
            let close = closing_tag(name, body);
            let used = using_tag(name, body);
            &&& scan(text) == Ok::<Seq<Token>, Fault>(seq![open, close, used])
            &&& segment(text, open->Tag_0.raw + 1, open->Tag_1.raw - 1) == seq![':'] + name + seq![
                ':',
            ]
            &&& segment(text, close->Tag_0.raw + 1, close->Tag_1.raw - 1) == seq![':']
            &&& segment(text, used->Tag_0.raw + 1, used->Tag_1.raw - 1) == name
            &&& open->Tag_0.raw == 0
            &&& segment(text, 0, 0) == Seq::<char>::empty()
            &&& segment(text, open->Tag_1.raw as int, close->Tag_0.raw as int) == body
            &&& segment(text, close->Tag_1.raw as int, used->Tag_0.raw as int) == Seq::<
                char,
            >::empty()
            &&& segment(text, close->Tag_1.raw as int, close->Tag_1.raw as int) == Seq::<
                char,
            >::empty()
            &&& segment(text, used->Tag_1.raw as int, encode_utf8(text).len() as int) == Seq::<
                char,
            >::empty()
        }),
{
    let text = defined_and_used(name, body);
    let n = name.len() as int;
    let j1 = n + 3;
    let c0 = j1 + 1 + body.len();
    let j2 = c0 + 2;
    let r0 = j2 + 1;
    let j3 = r0 + 1 + n;
    let end = text.len() as int;
    assert(end == j3 + 1);
    let open = opening_tag(name, body);
    let close = closing_tag(name, body);
    let used = using_tag(name, body);
    assert(text.subrange(1, j1) =~= seq![':'] + name + seq![':']);
    assert(text.subrange(j1 + 1, c0) =~= body);
    assert(text.subrange(c0 + 1, j2) =~= seq![':']);
    assert(text.subrange(r0 + 1, j3) =~= name);
    assert forall|k: int| 0 < k < j1 implies text[k] != '{' && text[k] != '}' && text[k] != '\n' by {
        if 2 <= k < 2 + n {
            assert(text[k] == name[k - 2]);
        }
    }
    assert forall|k: int| j1 + 1 <= k < c0 implies text[k] != '{' by {
        assert(text[k] == body[k - j1 - 1]);
    }
    assert forall|k: int| r0 < k < j3 implies text[k] != '{' && text[k] != '}' && text[k] != '\n' by {
        assert(text[k] == name[k - r0 - 1]);
    }
    assert(text[r0 + 1] != '!') by {
        if n > 0 {
            assert(text[r0 + 1] == name[0]);
        }
    }
    lemma_scan_reads_tag(text, 0, j1);
    lemma_scan_passes_text(text, j1 + 1, c0);
    lemma_scan_reads_tag(text, c0, j2);
    lemma_scan_reads_tag(text, r0, j3);
    assert(scan_from(text, end) == Ok::<Seq<Token>, Fault>(Seq::empty()));
    assert(scan(text) == Ok::<Seq<Token>, Fault>(seq![open, close, used])) by {
        assert(seq![used] + Seq::<Token>::empty() =~= seq![used]);
        assert(seq![close] + seq![used] =~= seq![close, used]);
        assert(seq![open] + seq![close, used] =~= seq![open, close, used]);
    }
    lemma_label_of_tag(text, 0, j1);
    lemma_label_of_tag(text, c0, j2);
    lemma_label_of_tag(text, r0, j3);
    lemma_segment_between(text, j1 + 1, c0);
    lemma_segment_between(text, j2 + 1, r0);
    lemma_segment_between(text, j2 + 1, j2 + 1);
    lemma_segment_between(text, end, end);
    lemma_segment_between(text, 0, 0);
    lemma_offset_split(text, end);
    assert(text.take(end) =~= text);
    assert(text.take(0) =~= Seq::<char>::empty());
    assert(text.subrange(0, 0) =~= Seq::<char>::empty());
    assert(text.subrange(r0, r0) =~= Seq::<char>::empty());
    assert(text.subrange(end, end) =~= Seq::<char>::empty());
}

/// A definition block leaves nothing in its place, and a reference behind the block gives
/// way to the block's text.
pub proof fn law_definition_is_used_behind_its_block(
    name: Seq<char>,
    body: Seq<char>,
    ctx: Map<Seq<char>, Seq<char>>,
)
    requires
        is_name(name),
        is_plain(body),
        encode_utf8(defined_and_used(name, body)).len() < usize::MAX,
    ensures
        started(defined_and_used(name, body), ctx) == Status::Finished(body),
{
    let text = defined_and_used(name, body);
    let open = opening_tag(name, body);
    let close = closing_tag(name, body);
    let used = using_tag(name, body);
    let tokens = seq![open, close, used];
    lemma_defined_and_used_scan(name, body);
    reveal(step);

    let nothing = Seq::<char>::empty();
    let root = root_frame(ctx);
    let stack0 = seq![root];
    let opened = Edit { from: open->Tag_0, to: open->Tag_1, text: nothing };
    let inner = opened_frame(ScopeKind::Definition, open->Tag_0, open->Tag_1, name);
    let stack1 = stack0.push(inner);
    assert(shape_of(seq![':'] + name + seq![':']) == Shape::Open(ScopeKind::Definition, name)) by {
        let label = seq![':'] + name + seq![':'];
        assert(label.subrange(1, label.len() - 1) =~= name);
    }
    assert(step(text, stack0, open) == Effect::Continue(stack1));

    let shut = Edit { from: close->Tag_0, to: close->Tag_1, text: nothing };
    let gone = Edit { from: open->Tag_0, to: close->Tag_1, text: nothing };
    let marks = seq![opened, shut];
    assert(inner.pending.push(shut) =~= marks);
    assert(stack1.drop_last() =~= stack0);
    assert(laid(text, 0, marks) =~= body) by {
        assert(marks.drop_last() =~= seq![opened]);
        assert(seq![opened].drop_last() =~= Seq::<Edit>::empty());
        reveal_with_fuel(laid, 3);
    }
    assert(composed(text, 0, close->Tag_1.raw as int, marks) =~= body);
    let root2 = Frame { bindings: ctx.insert(name, body), pending: seq![gone], ..root };
    let stack2 = seq![root2];
    assert(recorded(bound(stack0, name, body), gone) =~= stack2) by {
        assert(root.pending.push(gone) =~= seq![gone]);
    }
    assert(step(text, stack1, close) == Effect::Continue(stack2));

    let put = Edit { from: used->Tag_0, to: used->Tag_1, text: body };
    let root3 = Frame { pending: seq![gone, put], ..root2 };
    let stack3 = seq![root3];
    assert(lookup(stack2, name) == Some(body));
    assert(recorded(stack2, put) =~= stack3) by {
        assert(seq![gone].push(put) =~= seq![gone, put]);
    }
    assert(step(text, stack2, used) == Effect::Continue(stack3));

    assert(run(text, tokens, 3, stack3) == finish(text, stack3));
    assert(run(text, tokens, 2, stack2) == run(text, tokens, 3, stack3));
    assert(run(text, tokens, 1, stack1) == run(text, tokens, 2, stack2));
    assert(run(text, tokens, 0, stack0) == run(text, tokens, 1, stack1));
    assert(laid(text, 0, seq![gone, put]) =~= body) by {
        assert(seq![gone, put].drop_last() =~= seq![gone]);
        assert(seq![gone].drop_last() =~= Seq::<Edit>::empty());
        reveal_with_fuel(laid, 3);
    }
    assert(composed(text, 0, encode_utf8(text).len() as int, seq![gone, put]) =~= body);
}

/// `label` can stand between the markers of a block's opening tag: it holds no brace and
/// no newline.
pub open spec fn is_block_name(label: Seq<char>) -> bool {
    forall|k: int| 0 <= k < label.len() ==> label[k] != '{' && label[k] != '}' && label[k] != '\n'
}

/// The template that includes the resource `name` between the plain texts `before` and
/// `after`, with nothing in the include block.
pub open spec fn inclusion(before: Seq<char>, name: Seq<char>, after: Seq<char>) -> Seq<char> {
    before + seq!['{', '#'] + name + seq!['#', '}', '{', '#', '}'] + after
}

/// The tag that opens the include block in `inclusion`.
spec fn include_tag(before: Seq<char>, name: Seq<char>, after: Seq<char>) -> Token {
    let text = inclusion(before, name, after);
    let at = before.len() as int;
    Token::Tag(pos_at(text, at), pos_at(text, at + name.len() + 4))
}

/// The tag that closes the include block in `inclusion`.
spec fn included_tag(before: Seq<char>, name: Seq<char>, after: Seq<char>) -> Token {
    let text = inclusion(before, name, after);
    let at = before.len() as int + name.len() + 4;
    Token::Tag(pos_at(text, at), pos_at(text, at + 3))
}

/// The tokens of `inclusion` are its two tags; their labels are `#name#` and `#`, and
/// around them lie `before` and `after`.
proof fn lemma_inclusion_scan(before: Seq<char>, name: Seq<char>, after: Seq<char>)
    requires
        is_plain(before),
        is_plain(after),
        is_block_name(name),
        encode_utf8(inclusion(before, name, after)).len() < usize::MAX,
    ensures
        ({
            let text = inclusion(before, name, after);
            let open = include_tag(before, name, after);
            let close = included_tag(before, name, after);
            &&& scan(text) == Ok::<Seq<Token>, Fault>(seq![open, close])
            &&& segment(text, open->Tag_0.raw + 1, open->Tag_1.raw - 1) == seq!['#'] + name + seq![
                '#',
            ]
            &&& segment(text, close->Tag_0.raw + 1, close->Tag_1.raw - 1) == seq!['#']
            &&& segment(text, 0, open->Tag_0.raw as int) == before
            &&& segment(text, close->Tag_1.raw as int, encode_utf8(text).len() as int) == after
        }),
{
    let text = inclusion(before, name, after);
    let i0 = before.len() as int;
    let j1 = i0 + 3 + name.len();
    let c0 = j1 + 1;
    let j2 = c0 + 2;
    let end = text.len() as int;
    assert(end == j2 + 1 + after.len());
    let open = include_tag(before, name, after);
    let close = included_tag(before, name, after);
    assert(text.subrange(0, i0) =~= before);
    assert(text.subrange(i0 + 1, j1) =~= seq!['#'] + name + seq!['#']);
    assert(text.subrange(c0 + 1, j2) =~= seq!['#']);
    assert(text.subrange(j2 + 1, end) =~= after);
    assert forall|k: int| 0 <= k < i0 implies text[k] != '{' by {
        assert(text[k] == before[k]);
    }
    assert forall|k: int| i0 < k < j1 implies text[k] != '{' && text[k] != '}' && text[k] != '\n' by {
        if i0 + 2 <= k < i0 + 2 + name.len() {
            assert(text[k] == name[k - i0 - 2]);
        }
    }
    assert forall|k: int| j2 + 1 <= k < end implies text[k] != '{' by {
        assert(text[k] == after[k - j2 - 1]);
    }
    lemma_scan_passes_text(text, 0, i0);
    lemma_scan_reads_tag(text, i0, j1);
    lemma_scan_reads_tag(text, c0, j2);
    lemma_scan_passes_text(text, j2 + 1, end);
    assert(scan_from(text, end) == Ok::<Seq<Token>, Fault>(Seq::empty()));
    assert(scan(text) == Ok::<Seq<Token>, Fault>(seq![open, close])) by {
        assert(seq![close] + Seq::<Token>::empty() =~= seq![close]);
        assert(seq![open] + seq![close] =~= seq![open, close]);
    }
    lemma_label_of_tag(text, i0, j1);
    lemma_label_of_tag(text, c0, j2);
    lemma_segment_between(text, 0, i0);
    lemma_segment_between(text, j2 + 1, end);
    lemma_offset_split(text, end);
    assert(text.take(end) =~= text);
    assert(text.take(0) =~= Seq::<char>::empty());
}

/// An include block asks for its resource by name, with the bindings made in the block.
/// The rendered resource takes the block's place; a resource that cannot be read fails
/// the render, and nothing is put out.
pub proof fn law_include_is_replaced_by_its_resource(
    before: Seq<char>,
    name: Seq<char>,
    after: Seq<char>,
    ctx: Map<Seq<char>, Seq<char>>,
    content: Seq<char>,
    reason: Seq<char>,
)
    requires
        is_plain(before),
        is_plain(after),
        is_block_name(name),
        is_plain(content),
        encode_utf8(inclusion(before, name, after)).len() < usize::MAX,
    ensures
        started(inclusion(before, name, after), ctx) matches Status::Waiting {
            name: asked,
            bindings,
            halts,
        } && asked == name && bindings == Map::<Seq<char>, Seq<char>>::empty() && supplied(
            halts,
            bindings,
            Ok(content),
        ) == Status::Finished(before + content + after) && supplied(halts, bindings, Err(reason))
            == Status::Failed(Fault::IoError(reason)),
{
    let text = inclusion(before, name, after);
    let open = include_tag(before, name, after);
    let close = included_tag(before, name, after);
    let tokens = seq![open, close];
    lemma_inclusion_scan(before, name, after);
    reveal(step);

    let nothing = Map::<Seq<char>, Seq<char>>::empty();
    let root = root_frame(ctx);
    let stack0 = seq![root];
    let inner = opened_frame(ScopeKind::FileInclude, open->Tag_0, open->Tag_1, name);
    let stack1 = stack0.push(inner);
    assert(shape_of(seq!['#'] + name + seq!['#']) == Shape::Open(ScopeKind::FileInclude, name)) by {
        let label = seq!['#'] + name + seq!['#'];
        assert(label.subrange(1, label.len() - 1) =~= name);
    }
    assert(step(text, stack0, open) == Effect::Continue(stack1));
    assert(stack1.drop_last() =~= stack0);
    assert(step(text, stack1, close) == (Effect::Suspend {
        name,
        bindings: nothing,
        origin: open->Tag_0,
        until: close->Tag_1,
        stack: stack0,
    }));
    let halt = Halt { text, next: 2, stack: stack0, origin: open->Tag_0, until: close->Tag_1 };
    assert(run(text, tokens, 1, stack1) == (Verdict::Awaiting { name, bindings: nothing, halt }));
    assert(run(text, tokens, 0, stack0) == run(text, tokens, 1, stack1));
    let halts = Seq::<Halt>::empty().push(halt);
    assert(started(text, ctx) == (Status::Waiting { name, bindings: nothing, halts }));

    lemma_plain_rendering(content, nothing);
    let edit = Edit { from: open->Tag_0, to: close->Tag_1, text: content };
    let root2 = Frame { pending: seq![edit], ..root };
    let stack2 = seq![root2];
    assert(recorded(stack0, edit) =~= stack2) by {
        assert(root.pending.push(edit) =~= seq![edit]);
    }
    assert(continued(halt, content) == run(text, tokens, 2, stack2));
    assert(run(text, tokens, 2, stack2) == finish(text, stack2));
    assert(laid(text, 0, seq![edit]) =~= before + content) by {
        assert(seq![edit].drop_last() =~= Seq::<Edit>::empty());
        reveal_with_fuel(laid, 2);
    }
    assert(composed(text, 0, encode_utf8(text).len() as int, seq![edit]) =~= before + content
        + after);
    assert(halts.drop_last() =~= Seq::<Halt>::empty());
    assert(settled(halts, Verdict::Finished(content)) == settled(
        Seq::<Halt>::empty(),
        continued(halt, content),
    ));
}

} // verus!
