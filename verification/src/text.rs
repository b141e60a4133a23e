use vstd::prelude::*;
use vstd::string::StringSliceAdditionalSpecFns;
use vstd::utf8::*;

verus! {

/// The number of bytes that `c` takes in UTF-8.
pub open spec fn width(c: char) -> int {
    encode_scalar(c as u32).len() as int
}

/// The byte offset at which the character of index `i` starts in the UTF-8 form of `text`.
pub open spec fn offset_of(text: Seq<char>, i: int) -> int {
    encode_utf8(text.take(i)).len() as int
}

/// The characters that the bytes `from..to` of the UTF-8 form of `text` spell.
pub open spec fn segment(text: Seq<char>, from: int, to: int) -> Seq<char> {
    decode_utf8(encode_utf8(text).subrange(from, to))
}

/// `at` is a byte offset of `text` at which a character starts, or its end.
pub open spec fn on_boundary(text: Seq<char>, at: int) -> bool {
    0 <= at <= encode_utf8(text).len() && is_char_boundary(encode_utf8(text), at)
}

/// The number of bytes that `c` takes in UTF-8.
pub fn char_width(c: char) -> (w: usize)
    ensures
        w == width(c),
        1 <= w <= 4,
{
    let v: u32 = c as u32;
    if v < 0x80 {
        1
    } else if v < 0x800 {
        2
    } else if v < 0x10000 {
        3
    } else {
        4
    }
}

/// The part of `tmpl` between two byte offsets at which characters start.
pub fn slice<'a>(tmpl: &'a str, from: usize, to: usize) -> (part: &'a str)
    requires
        from <= to,
        on_boundary(tmpl@, from as int),
        on_boundary(tmpl@, to as int),
    ensures
        part@ == segment(tmpl@, from as int, to as int),
{
    let ghost bytes = encode_utf8(tmpl@);
    proof {
        encode_utf8_valid_utf8(tmpl@);
    }
    let (head, _) = tmpl.split_at(to);
    proof {
        encode_utf8_valid_utf8(head@);
        let front = head.spec_bytes();
        assert(front =~= bytes.subrange(0, to as int));
        if from < to {
            is_char_boundary_iff_not_is_continuation_byte(bytes, from as int);
            is_char_boundary_iff_not_is_continuation_byte(front, from as int);
        } else {
            is_char_boundary_start_end_of_seq(front);
        }
    }
    let (_, part) = head.split_at(from);
    proof {
        assert(part.spec_bytes() =~= bytes.subrange(from as int, to as int));
        encode_utf8_decode_utf8(part@);
    }
    part
}

/// The UTF-8 form of a concatenation is the concatenation of the UTF-8 forms.
pub proof fn lemma_encode_concat(a: Seq<char>, b: Seq<char>)
    ensures
        encode_utf8(a + b) == encode_utf8(a) + encode_utf8(b),
    decreases a.len(),
{
    if a.len() == 0 {
        assert(a + b =~= b);
        assert(encode_utf8(a) + encode_utf8(b) =~= encode_utf8(b));
    } else {
        lemma_encode_concat(a.drop_first(), b);
        assert((a + b).drop_first() =~= a.drop_first() + b);
        assert(encode_utf8(a + b) =~= encode_utf8(a) + encode_utf8(b));
    }
}

/// Every character takes between one and four bytes.
pub proof fn lemma_width_bounds(c: char)
    ensures
        1 <= width(c) <= 4,
{
}

/// Stepping over one character moves the byte offset by that character's width.
pub proof fn lemma_offset_step(text: Seq<char>, i: int)
    requires
        0 <= i < text.len(),
    ensures
        offset_of(text, i + 1) == offset_of(text, i) + width(text[i]),
{
    let head = text.take(i);
    let one = seq![text[i]];
    assert(text.take(i + 1) =~= head + one);
    lemma_encode_concat(head, one);
    assert(one.drop_first() =~= Seq::<char>::empty());
    assert(encode_utf8(one) =~= encode_scalar(text[i] as u32)) by {
        reveal_with_fuel(encode_utf8, 2);
    }
}

/// The UTF-8 form of `text` splits at the offset of any character index.
pub proof fn lemma_offset_split(text: Seq<char>, i: int)
    requires
        0 <= i <= text.len(),
    ensures
        0 <= offset_of(text, i) <= encode_utf8(text).len(),
        encode_utf8(text).subrange(0, offset_of(text, i)) == encode_utf8(text.take(i)),
        encode_utf8(text).subrange(offset_of(text, i), encode_utf8(text).len() as int)
            == encode_utf8(text.skip(i)),
{
    assert(text =~= text.take(i) + text.skip(i));
    lemma_encode_concat(text.take(i), text.skip(i));
    let a = encode_utf8(text.take(i));
    let b = encode_utf8(text.skip(i));
    assert((a + b).subrange(0, a.len() as int) =~= a);
    assert((a + b).subrange(a.len() as int, (a + b).len() as int) =~= b);
}

/// Offsets grow with the character index.
pub proof fn lemma_offset_monotone(text: Seq<char>, i: int, j: int)
    requires
        0 <= i <= j <= text.len(),
    ensures
        offset_of(text, i) + (j - i) <= offset_of(text, j),
    decreases j - i,
{
    if i < j {
        lemma_offset_monotone(text, i, j - 1);
        lemma_offset_step(text, j - 1);
    }
}

/// The offset of a character index is a place where a character starts.
pub proof fn lemma_offset_on_boundary(text: Seq<char>, i: int)
    requires
        0 <= i <= text.len(),
    ensures
        on_boundary(text, offset_of(text, i)),
    decreases i,
{
    let bytes = encode_utf8(text);
    encode_utf8_valid_utf8(text);
    lemma_offset_split(text, i);
    if i == 0 {
        assert(text.take(0) =~= Seq::<char>::empty());
    } else {
        let rest = text.drop_first();
        encode_utf8_first_scalar(text);
        assert(pop_first_scalar(bytes) =~= encode_utf8(rest));
        lemma_offset_on_boundary(rest, i - 1);
        assert(text.take(i) =~= seq![text[0]] + rest.take(i - 1));
        lemma_encode_concat(seq![text[0]], rest.take(i - 1));
        assert(seq![text[0]].drop_first() =~= Seq::<char>::empty());
        assert(encode_utf8(seq![text[0]]) =~= encode_scalar(text[0] as u32)) by {
            reveal_with_fuel(encode_utf8, 2);
        }
        assert(offset_of(text, i) == length_of_first_scalar(bytes) + offset_of(rest, i - 1));
    }
}

/// The bytes between the offsets of two character indices spell the characters between them.
pub proof fn lemma_segment_between(text: Seq<char>, i: int, j: int)
    requires
        0 <= i <= j <= text.len(),
    ensures
        offset_of(text, i) <= offset_of(text, j) <= encode_utf8(text).len(),
        segment(text, offset_of(text, i), offset_of(text, j)) == text.subrange(i, j),
{
    lemma_offset_monotone(text, i, j);
    lemma_offset_split(text, j);
    let front = text.take(j);
    lemma_offset_split(front, i);
    assert(front.take(i) =~= text.take(i));
    assert(front.skip(i) =~= text.subrange(i, j));
    let bytes = encode_utf8(text);
    assert(bytes.subrange(offset_of(text, i), offset_of(text, j)) =~= bytes.subrange(
        0,
        offset_of(text, j),
    ).subrange(offset_of(text, i), offset_of(text, j)));
    assert(front.take(j) =~= front);
    encode_utf8_decode_utf8(text.subrange(i, j));
}

} // verus!
