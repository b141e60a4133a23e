use crate::pos::Pos;
use crate::text::on_boundary;
use crate::text::segment;
use crate::text::slice;
use vstd::prelude::*;
use vstd::string::StringExecFns;

verus! {

/// A replacement span as contracts see it: the bytes `from.raw..to.raw` of the
/// template give way to `text`.
pub struct Edit {
    pub from: Pos,
    pub to: Pos,
    pub text: Seq<char>,
}

/// The replacement span that a triple stands for.
pub open spec fn edit_of(entry: (Pos, Pos, String)) -> Edit {
    Edit { from: entry.0, to: entry.1, text: entry.2@ }
}

/// The replacement spans that a list of triples stands for.
pub open spec fn edits_of(entries: Seq<(Pos, Pos, String)>) -> Seq<Edit> {
    entries.map_values(|entry: (Pos, Pos, String)| edit_of(entry))
}

/// The byte offset up to which `edits`, applied from `from` on, have consumed the template.
pub open spec fn cursor(from: int, edits: Seq<Edit>) -> int {
    if edits.len() == 0 {
        from
    } else {
        edits.last().to.raw as int
    }
}

/// The output for the template from `from` up to the end of the last of `edits`:
/// before each substitution stands the template's own text since the edit before it.
pub open spec fn laid(text: Seq<char>, from: int, edits: Seq<Edit>) -> Seq<char>
    decreases edits.len(),
{
    if edits.len() == 0 {
        Seq::empty()
    } else {
        let earlier = edits.drop_last();
        laid(text, from, earlier) + segment(text, cursor(from, earlier), edits.last().from.raw as int)
            + edits.last().text
    }
}

/// The output for the bytes `from..to` of the template with `edits` applied: the template's
/// own text between the edits, and each edit's substitution in its place.
pub open spec fn composed(text: Seq<char>, from: int, to: int, edits: Seq<Edit>) -> Seq<char> {
    laid(text, from, edits) + segment(text, cursor(from, edits), to)
}

/// The edits lie in `from..to` in the order of the list, none reaching into the next, and
/// every offset involved is one at which a character of the template starts.
pub open spec fn edits_fit(text: Seq<char>, from: int, to: int, edits: Seq<Edit>) -> bool {
    &&& on_boundary(text, from)
    &&& on_boundary(text, to)
    &&& cursor(from, edits) <= to
    &&& forall|k: int|
        #![trigger edits[k]]
        0 <= k < edits.len() ==> {
            &&& on_boundary(text, edits[k].from.raw as int)
            &&& on_boundary(text, edits[k].to.raw as int)
            &&& cursor(from, edits.take(k)) <= edits[k].from.raw
        }
}

/// Edits that fit a span fit every span that ends further on.
pub proof fn lemma_edits_widen(text: Seq<char>, from: int, to: int, beyond: int, edits: Seq<Edit>)
    requires
        edits_fit(text, from, to, edits),
        to <= beyond,
        on_boundary(text, beyond),
    ensures
        edits_fit(text, from, beyond, edits),
{
}

/// An edit that begins where the edits before it have ended, or behind, may follow them.
pub proof fn lemma_edits_push(
    text: Seq<char>,
    from: int,
    to: int,
    beyond: int,
    edits: Seq<Edit>,
    edit: Edit,
)
    requires
        edits_fit(text, from, to, edits),
        cursor(from, edits) <= edit.from.raw,
        on_boundary(text, edit.from.raw as int),
        on_boundary(text, edit.to.raw as int),
        edit.to.raw <= beyond,
        on_boundary(text, beyond),
    ensures
        edits_fit(text, from, beyond, edits.push(edit)),
{
    let longer = edits.push(edit);
    assert forall|k: int| #![trigger longer[k]] 0 <= k < longer.len() implies {
        &&& on_boundary(text, longer[k].from.raw as int)
        &&& on_boundary(text, longer[k].to.raw as int)
        &&& cursor(from, longer.take(k)) <= longer[k].from.raw
    } by {
        if k < edits.len() {
            assert(longer.take(k) =~= edits.take(k));
            assert(longer[k] == edits[k]);
        } else {
            assert(longer.take(k) =~= edits);
        }
    }
}

/// Interleaves the untouched parts of the span `span` of `tmpl_all` with the substitutions
/// of `replacements`.
pub fn replace(tmpl_all: &str, span: (Pos, Pos), replacements: Vec<(Pos, Pos, String)>) -> (out: String)
    requires
        edits_fit(tmpl_all@, span.0.raw as int, span.1.raw as int, edits_of(replacements@)),
    ensures
        out@ == composed(tmpl_all@, span.0.raw as int, span.1.raw as int, edits_of(replacements@)),
{
    let ghost text = tmpl_all@;
    let ghost from = span.0.raw as int;
    let ghost edits = edits_of(replacements@);
    let mut out = String::new();
    let mut prev: usize = span.0.raw;
    let mut k: usize = 0;
    while k < replacements.len()
        invariant
            0 <= k <= replacements.len(),
            text == tmpl_all@,
            from == span.0.raw,
            edits == edits_of(replacements@),
            edits_fit(text, from, span.1.raw as int, edits),
            out@ == laid(text, from, edits.take(k as int)),
            prev == cursor(from, edits.take(k as int)),
            on_boundary(text, prev as int),
        decreases replacements.len() - k,
    {
        let entry = &replacements[k];
        proof {
            assert(edits[k as int] == edit_of(replacements@[k as int]));
            assert(edits.take(k + 1).drop_last() =~= edits.take(k as int));
            assert(edits.take(k + 1).last() == edits[k as int]);
        }
        out.append(slice(tmpl_all, prev, entry.0.raw));
        out.append(entry.2.as_str());
        prev = entry.1.raw;
        k = k + 1;
    }
    proof {
        assert(edits.take(k as int) =~= edits);
    }
    out.append(slice(tmpl_all, prev, span.1.raw));
    out
}

} // verus!
