use crate::compose::Edit;
use crate::compose::composed;
use crate::compose::laid;
use crate::error::Fault;
use crate::text::lemma_offset_step;
use crate::text::lemma_segment_between;
use crate::text::offset_of;
use crate::text::segment;
use crate::token::Token;
use crate::token::lemma_pos_at;
use crate::token::pos_at;
use crate::token::prepend;
use crate::token::scan;
use crate::token::scan_from;
use crate::token::scan_tag;
use crate::walk::Status;
use crate::walk::Verdict;
use crate::walk::finish;
use crate::walk::rendering;
use crate::walk::root_frame;
use crate::walk::run;
use crate::walk::started;
use vstd::prelude::*;
use vstd::utf8::encode_utf8;

verus! {

/// `text` holds no `{`.
pub open spec fn is_plain(text: Seq<char>) -> bool {
    forall|k: int| 0 <= k < text.len() ==> text[k] != '{'
}

/// A text without `{` holds no token, from any index on.
proof fn lemma_scan_plain(text: Seq<char>, i: int)
    requires
        is_plain(text),
    ensures
        scan_from(text, i) == Ok::<Seq<Token>, Fault>(Seq::empty()),
    decreases text.len() - i,
{
    if 0 <= i < text.len() {
        lemma_scan_plain(text, i + 1);
    }
}

/// The whole of a text, cut out of it by its byte offsets, is the text.
proof fn lemma_segment_whole(text: Seq<char>)
    ensures
        segment(text, 0, encode_utf8(text).len() as int) == text,
{
    let bytes = encode_utf8(text);
    assert(bytes.subrange(0, bytes.len() as int) =~= bytes);
    vstd::utf8::encode_utf8_decode_utf8(text);
}

/// The walk over a text that holds no `{` finishes with the text.
pub proof fn lemma_plain_rendering(text: Seq<char>, ctx: Map<Seq<char>, Seq<char>>)
    requires
        is_plain(text),
    ensures
        rendering(text, ctx) == Verdict::Finished(text),
{
    lemma_scan_plain(text, 0);
    lemma_segment_whole(text);
    let stack = seq![root_frame(ctx)];
    assert(run(text, Seq::<Token>::empty(), 0, stack) == finish(text, stack));
    assert(laid(text, 0, Seq::<Edit>::empty()) =~= Seq::<char>::empty());
    assert(composed(text, 0, encode_utf8(text).len() as int, Seq::<Edit>::empty()) =~= text);
}

/// A text that holds no `{` is rendered to itself, whatever the bindings.
pub proof fn law_plain_text_is_unchanged(text: Seq<char>, ctx: Map<Seq<char>, Seq<char>>)
    requires
        is_plain(text),
    ensures
        started(text, ctx) == Status::Finished(text),
{
    lemma_plain_rendering(text, ctx);
}

/// The scan passes over characters other than `{` without a token.
pub proof fn lemma_scan_passes_text(text: Seq<char>, i: int, j: int)
    requires
        0 <= i <= j <= text.len(),
        forall|k: int| i <= k < j ==> text[k] != '{',
    ensures
        scan_from(text, i) == scan_from(text, j),
    decreases j - i,
{
    if i < j {
        lemma_scan_passes_text(text, i + 1, j);
    }
}

/// Inside a tag the scan passes over characters other than braces and newlines.
proof fn lemma_scan_passes_label(text: Seq<char>, open: int, i: int, j: int)
    requires
        0 <= i <= j <= text.len(),
        forall|k: int| i <= k < j ==> text[k] != '{' && text[k] != '}' && text[k] != '\n',
    ensures
        scan_tag(text, open, i) == scan_tag(text, open, j),
    decreases j - i,
{
    if i < j {
        lemma_scan_passes_label(text, open, i + 1, j);
    }
}

/// A `{` that no `!` follows, a label without braces and newlines, and a `}` are scanned
/// as one tag.
pub proof fn lemma_scan_reads_tag(text: Seq<char>, i: int, j: int)
    requires
        0 <= i < j < text.len(),
        text[i] == '{',
        text[i + 1] != '!',
        text[j] == '}',
        forall|k: int| i < k < j ==> text[k] != '{' && text[k] != '}' && text[k] != '\n',
    ensures
        scan_from(text, i) == prepend(
            Token::Tag(pos_at(text, i), pos_at(text, j + 1)),
            scan_from(text, j + 1),
        ),
{
    lemma_scan_passes_label(text, i, i + 1, j);
}

/// The label of the tag from the `{` of index `i` to the `}` of index `j` is the text
/// between the two.
pub proof fn lemma_label_of_tag(text: Seq<char>, i: int, j: int)
    requires
        0 <= i < j < text.len(),
        text[i] == '{',
        text[j] == '}',
        encode_utf8(text).len() < usize::MAX,
    ensures
        segment(text, pos_at(text, i).raw + 1, pos_at(text, j + 1).raw - 1) == text.subrange(
            i + 1,
            j,
        ),
        pos_at(text, i).raw == offset_of(text, i),
        pos_at(text, j + 1).raw == offset_of(text, j + 1),
{
    lemma_pos_at(text, i);
    lemma_pos_at(text, i + 1);
    lemma_pos_at(text, j);
    lemma_pos_at(text, j + 1);
    lemma_offset_step(text, i);
    lemma_offset_step(text, j);
    lemma_segment_between(text, i + 1, j);
}

/// `tok` is the token for the `{` of index `j`: the tag that the brace opens, or the `!`
/// behind it.
pub open spec fn marks_brace(text: Seq<char>, tok: Token, j: int) -> bool {
    match tok {
        Token::Tag(from, _) => from == pos_at(text, j),
        Token::Bang(at) => at == pos_at(text, j + 1),
    }
}

/// One of `tokens` is the token for the `{` of index `j`.
pub open spec fn covered(text: Seq<char>, tokens: Seq<Token>, j: int) -> bool {
    exists|k: int| 0 <= k < tokens.len() && marks_brace(text, #[trigger] tokens[k], j)
}

/// A brace that has its token among `rest` has it among `rest` with a token in front.
proof fn lemma_covered_behind(text: Seq<char>, tok: Token, rest: Seq<Token>, j: int)
    requires
        covered(text, rest, j),
    ensures
        covered(text, seq![tok] + rest, j),
{
    let k = choose|k: int| 0 <= k < rest.len() && marks_brace(text, #[trigger] rest[k], j);
    let all = seq![tok] + rest;
    assert(all[k + 1] == rest[k]);
    assert(marks_brace(text, all[k + 1], j));
}

/// A brace whose token stands in front has its token.
proof fn lemma_covered_first(text: Seq<char>, tok: Token, rest: Seq<Token>, j: int)
    requires
        marks_brace(text, tok, j),
    ensures
        covered(text, seq![tok] + rest, j),
{
    let all = seq![tok] + rest;
    assert(all[0] == tok);
    assert(marks_brace(text, all[0], j));
}

/// A scan that succeeds from index `i` on finds a token for every `{` from there on.
proof fn lemma_scan_from_covers(text: Seq<char>, i: int, j: int)
    requires
        0 <= i <= j < text.len(),
        text[j] == '{',
        scan_from(text, i) is Ok,
    ensures
        covered(text, scan_from(text, i)->Ok_0, j),
    decreases text.len() - i, 1int,
{
    if text[i] != '{' {
        lemma_scan_from_covers(text, i + 1, j);
    } else if i + 1 < text.len() && text[i + 1] == '!' {
        let tok = Token::Bang(pos_at(text, i + 1));
        let rest = scan_from(text, i + 1)->Ok_0;
        if i == j {
            lemma_covered_first(text, tok, rest, j);
        } else {
            lemma_scan_from_covers(text, i + 1, j);
            lemma_covered_behind(text, tok, rest, j);
        }
    } else {
        lemma_scan_tag_covers(text, i, i + 1, j);
    }
}

/// A scan that succeeds inside the tag opened at `open` finds that tag, and a token for
/// every `{` behind it.
proof fn lemma_scan_tag_covers(text: Seq<char>, open: int, at: int, j: int)
    requires
        0 <= open < at <= text.len(),
        open <= j < text.len(),
        j == open || at <= j,
        text[j] == '{',
        scan_tag(text, open, at) is Ok,
    ensures
        covered(text, scan_tag(text, open, at)->Ok_0, j),
    decreases text.len() - at, 0int,
{
    if at < text.len() {
        if text[at] == '}' {
            let tok = Token::Tag(pos_at(text, open), pos_at(text, at + 1));
            let rest = scan_from(text, at + 1)->Ok_0;
            if j == open {
                lemma_covered_first(text, tok, rest, j);
            } else {
                lemma_scan_from_covers(text, at + 1, j);
                lemma_covered_behind(text, tok, rest, j);
            }
        } else if text[at] != '{' && text[at] != '\n' {
            lemma_scan_tag_covers(text, open, at + 1, j);
        }
    }
}

/// The tokens of a text cover every `{` in it: each is the start of a tag or the first
/// half of an escape marker, and has its token.
pub proof fn law_tokens_cover_every_brace(text: Seq<char>, j: int)
    requires
        0 <= j < text.len(),
        text[j] == '{',
        scan(text) is Ok,
    ensures
        covered(text, scan(text)->Ok_0, j),
{
    lemma_scan_from_covers(text, 0, j);
}

} // verus!
