//! The grammar layer: the closed set of constructs recognisable at the top
//! level of one header file, the mathematical model of the parse, and the
//! derivation rules that consume input through the cursor of [`crate::reader`].
//!
//! The illustrative grammar has three constructs: an inclusion directive (a
//! marker token followed by a quote-delimited path fragment), the zero-width
//! end-of-input sentinel, and a one-character catch-all fallback that keeps
//! the parse moving over content no structured rule understands.

use crate::reader::{Branch, Reader};
use crate::Error;
use vstd::prelude::*;

verus! {

/// One recognised construct of a header file.
///
/// `HeaderInclusion` carries the referenced path fragment; `Unrecognized`
/// carries the raw text (exactly one character) that no structured rule
/// could interpret; `Eof` is the end-of-input sentinel, always the last item
/// of a file's parse and never produced earlier.
#[derive(Debug, Clone, PartialEq, Eq)]
pub enum GHeaderFileItem {
    HeaderInclusion(Vec<char>),
    Eof,
    Unrecognized(Vec<char>),
}

/// The mathematical shadow of [`GHeaderFileItem`], over character sequences.
#[verifier::ext_equal]
pub enum GItem {
    HeaderInclusion(Seq<char>),
    Eof,
    Unrecognized(Seq<char>),
}

impl View for GHeaderFileItem {
    type V = GItem;

    open spec fn view(&self) -> GItem {
        match self {
            GHeaderFileItem::HeaderInclusion(f) => GItem::HeaderInclusion(f@),
            GHeaderFileItem::Eof => GItem::Eof,
            GHeaderFileItem::Unrecognized(t) => GItem::Unrecognized(t@),
        }
    }
}

/// The marker token that opens an inclusion directive, up to and including
/// the opening quote of the path fragment.
pub open spec fn directive_marker() -> Seq<char> {
    seq!['#', 'i', 'n', 'c', 'l', 'u', 'd', 'e', ' ', '"']
}

/// The executable form of [`directive_marker`].
pub fn directive_marker_chars() -> (r: Vec<char>)
    ensures
        r@ == directive_marker(),
{
    let mut v: Vec<char> = Vec::new();
    v.push('#');
    v.push('i');
    v.push('n');
    v.push('c');
    v.push('l');
    v.push('u');
    v.push('d');
    v.push('e');
    v.push(' ');
    v.push('"');
    proof {
        assert(v@ =~= directive_marker());
    }
    v
}

/// The position of the first quote character at or after `i`, if any.
pub open spec fn find_quote(s: Seq<char>, i: int) -> Option<int>
    decreases s.len() - i when 0 <= i <= s.len()
{
    if i >= s.len() {
        None
    } else if s[i] == '"' {
        Some(i)
    } else {
        find_quote(s, i + 1)
    }
}

/// What [`find_quote`] finds is the first quote: it lies in range, it is a
/// quote, and nothing before it (from `i` on) is one; a `None` answer means
/// no quote remains at all.
pub proof fn lemma_find_quote(s: Seq<char>, i: int)
    requires
        0 <= i <= s.len(),
    ensures
        match find_quote(s, i) {
            Some(j) => i <= j < s.len() && s[j] == '"' && (forall|k: int| i <= k < j ==> s[k] != '"'),
            None => forall|k: int| i <= k < s.len() ==> s[k] != '"',
        },
    decreases s.len() - i,
{
    if i < s.len() && s[i] != '"' {
        lemma_find_quote(s, i + 1);
    }
}

/// If a quote stands at `j` and none stands in `[i, j)`, then `j` is exactly
/// what [`find_quote`] finds from `i`.
pub proof fn lemma_find_quote_found(s: Seq<char>, i: int, j: int)
    requires
        0 <= i <= j < s.len(),
        s[j] == '"',
        forall|k: int| i <= k < j ==> s[k] != '"',
    ensures
        find_quote(s, i) == Some(j),
    decreases j - i,
{
    if i < j {
        lemma_find_quote_found(s, i + 1, j);
    }
}

/// If no quote stands anywhere in `[i, len)`, [`find_quote`] finds none.
pub proof fn lemma_find_quote_none(s: Seq<char>, i: int)
    requires
        0 <= i <= s.len(),
        forall|k: int| i <= k < s.len() ==> s[k] != '"',
    ensures
        find_quote(s, i) is None,
    decreases s.len() - i,
{
    if i < s.len() {
        lemma_find_quote_none(s, i + 1);
    }
}

/// Whether a complete inclusion directive stands at `pos`: the marker token,
/// then a closing quote somewhere before the end of input.
pub open spec fn is_directive_at(s: Seq<char>, pos: int) -> bool {
    &&& pos + directive_marker().len() <= s.len()
    &&& s.subrange(pos, pos + directive_marker().len() as int) == directive_marker()
    &&& find_quote(s, pos + directive_marker().len() as int) is Some
}

/// The path fragment of the directive standing at `pos`.
pub open spec fn directive_frag(s: Seq<char>, pos: int) -> Seq<char> {
    s.subrange(
        pos + directive_marker().len() as int,
        find_quote(s, pos + directive_marker().len() as int)->Some_0,
    )
}

/// The position just past the directive standing at `pos`.
pub open spec fn directive_end(s: Seq<char>, pos: int) -> int {
    find_quote(s, pos + directive_marker().len() as int)->Some_0 + 1
}

/// The construct recognised at `pos`, under the tie-break policy: the
/// structured rules (directive, then end of input) win over the one-character
/// fallback.
pub open spec fn next_item(s: Seq<char>, pos: int) -> GItem {
    if is_directive_at(s, pos) {
        GItem::HeaderInclusion(directive_frag(s, pos))
    } else if pos >= s.len() {
        GItem::Eof
    } else {
        GItem::Unrecognized(seq![s[pos]])
    }
}

/// The position after consuming the construct recognised at `pos`.
pub open spec fn next_pos(s: Seq<char>, pos: int) -> int {
    if is_directive_at(s, pos) {
        directive_end(s, pos)
    } else if pos >= s.len() {
        pos
    } else {
        pos + 1
    }
}

/// Consuming a construct keeps the position inside the input, and moves it
/// strictly forward unless the construct is the end-of-input sentinel.
pub proof fn lemma_next_pos_bounds(s: Seq<char>, pos: int)
    requires
        0 <= pos <= s.len(),
    ensures
        pos <= next_pos(s, pos) <= s.len(),
        !(next_item(s, pos) is Eof) ==> next_pos(s, pos) > pos,
        next_item(s, pos) is Eof ==> next_pos(s, pos) == pos && pos == s.len(),
{
    if is_directive_at(s, pos) {
        lemma_find_quote(s, pos + directive_marker().len() as int);
    }
}

/// The full parse of `s` from `pos` on: the ordered item sequence the file
/// parser produces, ending in the end-of-input sentinel.
pub open spec fn parse_items(s: Seq<char>, pos: int) -> Seq<GItem>
    decreases s.len() - pos when 0 <= pos <= s.len() via parse_items_decreases
{
    if next_item(s, pos) is Eof {
        seq![GItem::Eof]
    } else {
        seq![next_item(s, pos)] + parse_items(s, next_pos(s, pos))
    }
}

#[via_fn]
proof fn parse_items_decreases(s: Seq<char>, pos: int) {
    lemma_next_pos_bounds(s, pos);
}

/// The parse of one whole file content.
pub open spec fn parse_of(content: Seq<char>) -> Seq<GItem> {
    parse_items(content, 0)
}

/// For every input, the produced item sequence ends in exactly one `Eof`,
/// which never appears earlier in the sequence.
pub proof fn lemma_parse_single_eof(s: Seq<char>, pos: int)
    requires
        0 <= pos <= s.len(),
    ensures
        parse_items(s, pos).len() >= 1,
        parse_items(s, pos).last() is Eof,
        forall|i: int| 0 <= i < parse_items(s, pos).len() - 1 ==> !(#[trigger] parse_items(s, pos)[i] is Eof),
    decreases s.len() - pos,
{
    lemma_next_pos_bounds(s, pos);
    if !(next_item(s, pos) is Eof) {
        lemma_parse_single_eof(s, next_pos(s, pos));
        let r = parse_items(s, pos);
        let rest = parse_items(s, next_pos(s, pos));
        assert(r == seq![next_item(s, pos)] + rest);
        assert(r.last() == rest.last());
        assert forall|i: int| 0 <= i < r.len() - 1 implies !(#[trigger] r[i] is Eof) by {
            if i > 0 {
                assert(r[i] == rest[i - 1]);
            }
        }
    }
}

/// The span of input one item stands for.
pub open spec fn span_of(it: GItem) -> Seq<char> {
    match it {
        GItem::HeaderInclusion(f) => directive_marker() + f + seq!['"'],
        GItem::Eof => Seq::empty(),
        GItem::Unrecognized(t) => t,
    }
}

/// The concatenation of the spans of a whole item sequence.
pub open spec fn spans_concat(items: Seq<GItem>) -> Seq<char>
    decreases items.len()
{
    if items.len() == 0 {
        Seq::empty()
    } else {
        span_of(items[0]) + spans_concat(items.drop_first())
    }
}

/// The span of the construct recognised at `pos` is exactly the input
/// between `pos` and the position the construct advances to.
proof fn lemma_next_item_span(s: Seq<char>, pos: int)
    requires
        0 <= pos <= s.len(),
    ensures
        span_of(next_item(s, pos)) == s.subrange(pos, next_pos(s, pos)),
{
    lemma_next_pos_bounds(s, pos);
    if is_directive_at(s, pos) {
        let m = directive_marker().len() as int;
        lemma_find_quote(s, pos + m);
        let j = find_quote(s, pos + m)->Some_0;
        assert(span_of(next_item(s, pos)) =~= s.subrange(pos, j + 1)) by {
            assert(s.subrange(pos, pos + m) == directive_marker());
            assert(forall|k: int| 0 <= k < m ==> directive_marker()[k] == s[pos + k]);
        }
    } else if pos >= s.len() {
        assert(span_of(next_item(s, pos)) =~= s.subrange(pos, pos));
    } else {
        assert(span_of(next_item(s, pos)) =~= s.subrange(pos, pos + 1));
    }
}

/// Concatenating the consumed spans of every produced item reconstructs the
/// remaining input exactly: no character dropped, none duplicated.
pub proof fn lemma_parse_covers_input(s: Seq<char>, pos: int)
    requires
        0 <= pos <= s.len(),
    ensures
        spans_concat(parse_items(s, pos)) == s.subrange(pos, s.len() as int),
    decreases s.len() - pos,
{
    lemma_next_pos_bounds(s, pos);
    lemma_next_item_span(s, pos);
    let r = parse_items(s, pos);
    if next_item(s, pos) is Eof {
        assert(r.drop_first() =~= Seq::<GItem>::empty());
        assert(spans_concat(r.drop_first()) == Seq::<char>::empty());
        assert(r[0] == GItem::Eof);
        assert(spans_concat(r) == span_of(GItem::Eof) + spans_concat(r.drop_first()));
        assert(spans_concat(r) =~= s.subrange(pos, s.len() as int));
    } else {
        lemma_parse_covers_input(s, next_pos(s, pos));
        let np = next_pos(s, pos);
        assert(r.drop_first() =~= parse_items(s, np));
        assert(r[0] == next_item(s, pos));
        assert(spans_concat(r) == span_of(next_item(s, pos)) + spans_concat(parse_items(s, np)));
        assert(spans_concat(r) == s.subrange(pos, np) + s.subrange(np, s.len() as int));
        assert(s.subrange(pos, np) + s.subrange(np, s.len() as int) =~= s.subrange(
            pos,
            s.len() as int,
        ));
    }
}

/// A successfully recognised value paired with the branch — the advanced
/// cursor state — reflecting exactly the input it consumed.
pub struct DerivationResult<'a, T> {
    pub derived: T,
    pub branch: Branch<'a>,
}

/// The primitive literal-character rule: succeeds by reading exactly one
/// character and comparing it to `expected`; fails otherwise, discarding the
/// read.  This is the building block richer rules compose from.
pub fn derive_char<'a>(expected: char, reader: Reader<'a>) -> (r: Result<
    DerivationResult<'a, char>,
    Error,
>)
    requires
        reader.wf(),
    ensures
        r is Ok <==> reader.position() < reader.text().len() && reader.text()[reader.position()]
            == expected,
        r matches Ok(ok) ==> {
            &&& ok.derived == expected
            &&& ok.branch.state().text() == reader.text()
            &&& ok.branch.state().position() == reader.position() + 1
            &&& ok.branch.state().wf()
        },
        r matches Err(e) ==> (e == Error::Eof <==> reader.position() >= reader.text().len()),
        r matches Err(e) ==> (e == Error::Todo <==> reader.position() < reader.text().len()),
{
    match reader.read_amt(1) {
        Ok((slice, handle)) => {
            let c = slice[0];
            proof {
                assert(reader.text().subrange(reader.position(), reader.position() + 1)[0]
                    == reader.text()[reader.position()]);
            }
            if c == expected {
                Ok(DerivationResult { derived: expected, branch: handle.commit() })
            } else {
                let _ = handle.discard();
                Err(Error::Todo)
            }
        },
        Err(e) => Err(e),
    }
}

/// The end-of-input rule: recognises the end of input only when zero
/// characters remain; otherwise fails.  Produces no consumed input.
pub fn derive_eof<'a>(reader: Reader<'a>) -> (r: Result<
    DerivationResult<'a, GHeaderFileItem>,
    Error,
>)
    requires
        reader.wf(),
    ensures
        r is Ok <==> reader.position() == reader.text().len(),
        r matches Ok(ok) ==> {
            &&& ok.derived@ == GItem::Eof
            &&& ok.branch.state().text() == reader.text()
            &&& ok.branch.state().position() == reader.position()
            &&& ok.branch.state().wf()
        },
        r matches Err(e) ==> e == Error::Todo,
{
    if reader.pos_exec() == reader.len_exec() {
        Ok(DerivationResult { derived: GHeaderFileItem::Eof, branch: reader.branch_here() })
    } else {
        Err(Error::Todo)
    }
}

/// The catch-all fallback: always succeeds by consuming exactly one
/// character and wrapping it as opaque text, so the parse loop always makes
/// forward progress.  It can only fail when no character remains at all —
/// and there the end-of-input rule has already won.
pub fn derive_unrecognized<'a>(reader: Reader<'a>) -> (r: Result<
    DerivationResult<'a, GHeaderFileItem>,
    Error,
>)
    requires
        reader.wf(),
    ensures
        r is Ok <==> reader.position() < reader.text().len(),
        r matches Ok(ok) ==> {
            &&& ok.derived@ == GItem::Unrecognized(seq![reader.text()[reader.position()]])
            &&& ok.branch.state().text() == reader.text()
            &&& ok.branch.state().position() == reader.position() + 1
            &&& ok.branch.state().wf()
        },
        r matches Err(e) ==> e == Error::Eof,
{
    match reader.read_amt(1) {
        Ok((slice, handle)) => {
            proof {
                assert(slice@ =~= seq![reader.text()[reader.position()]]);
            }
            Ok(DerivationResult {
                derived: GHeaderFileItem::Unrecognized(slice),
                branch: handle.commit(),
            })
        },
        Err(e) => Err(e),
    }
}

/// The inclusion-directive rule: the marker token, then every character up
/// to the next quote as the path fragment.  Fails — leaving the cursor for
/// the caller byte for byte where it was — if the marker is absent or no
/// closing quote remains.
pub fn derive_header_inclusion<'a>(reader: Reader<'a>) -> (r: Result<
    DerivationResult<'a, GHeaderFileItem>,
    Error,
>)
    requires
        reader.wf(),
    ensures
        r is Ok <==> is_directive_at(reader.text(), reader.position()),
        r matches Ok(ok) ==> {
            &&& ok.derived@ == GItem::HeaderInclusion(
                directive_frag(reader.text(), reader.position()),
            )
            &&& ok.branch.state().text() == reader.text()
            &&& ok.branch.state().position() == directive_end(reader.text(), reader.position())
            &&& ok.branch.state().wf()
        },
        r matches Err(e) ==> e == Error::Todo,
{
    let marker = directive_marker_chars();
    let mut cur = reader;
    let mut i: usize = 0;
    while i < marker.len()
        invariant
            marker@ == directive_marker(),
            i <= 10,
            reader.wf(),
            cur.wf(),
            cur.text() == reader.text(),
            cur.position() == reader.position() + i,
            forall|k: int|
                0 <= k < i ==> reader.text()[reader.position() + k] == directive_marker()[k],
        decreases 10 - i,
    {
        let (pending, view) = cur.checkout();
        match derive_char(marker[i], view) {
            Ok(dr) => {
                cur = pending.merge(dr.branch);
            },
            Err(_) => {
                proof {
                    let s = reader.text();
                    let p = reader.position();
                    if p + 10 <= s.len() {
                        assert(s.subrange(p, p + 10)[i as int] == s[p + i]);
                        assert(s[p + i] != directive_marker()[i as int]);
                        assert(s.subrange(p, p + 10) != directive_marker());
                    }
                    assert(!is_directive_at(s, p));
                }
                let _ = pending.discard();
                return Err(Error::Todo);
            },
        }
        i = i + 1;
    }
    proof {
        assert(reader.text().subrange(reader.position(), reader.position() + 10)
            =~= directive_marker());
    }
    let mut frag: Vec<char> = Vec::new();
    loop
        invariant
            reader.wf(),
            cur.wf(),
            cur.text() == reader.text(),
            reader.text().subrange(reader.position(), reader.position() + 10)
                == directive_marker(),
            reader.position() + 10 <= reader.text().len(),
            cur.position() == reader.position() + 10 + frag.len(),
            frag@ == reader.text().subrange(reader.position() + 10, cur.position()),
            forall|k: int|
                reader.position() + 10 <= k < cur.position() ==> reader.text()[k] != '"',
        decreases reader.text().len() - cur.position(),
    {
        match cur.read_amt(1) {
            Err(_) => {
                proof {
                    lemma_find_quote_none(reader.text(), reader.position() + 10);
                }
                return Err(Error::Todo);
            },
            Ok((slice, handle)) => {
                let c = slice[0];
                proof {
                    assert(slice@[0] == reader.text()[cur.position()]);
                }
                let quote_pos = cur.pos_exec();
                cur = handle.commit().into_cursor();
                if c == '"' {
                    proof {
                        let s = reader.text();
                        let p = reader.position();
                        lemma_find_quote_found(s, p + 10, quote_pos as int);
                        assert(is_directive_at(s, p));
                        assert(frag@ == directive_frag(s, p));
                        assert(cur.position() == directive_end(s, p));
                    }
                    return Ok(DerivationResult {
                        derived: GHeaderFileItem::HeaderInclusion(frag),
                        branch: cur.branch_here(),
                    });
                } else {
                    frag.push(c);
                    proof {
                        assert(frag@ =~= reader.text().subrange(
                            reader.position() + 10,
                            cur.position(),
                        ));
                    }
                }
            },
        }
    }
}

impl GHeaderFileItem {
    /// Attempt each grammar rule at the current position in priority order —
    /// the structured rules before the fallback — and hand back the first
    /// success.  Thanks to the fallback this always succeeds, and what it
    /// recognises is exactly the construct the mathematical model names.
    pub fn derive<'a>(reader: Reader<'a>) -> (r: Result<
        DerivationResult<'a, GHeaderFileItem>,
        Error,
    >)
        requires
            reader.wf(),
        ensures
            r is Ok,
            r matches Ok(ok) ==> {
                &&& ok.derived@ == next_item(reader.text(), reader.position())
                &&& ok.branch.state().text() == reader.text()
                &&& ok.branch.state().position() == next_pos(reader.text(), reader.position())
                &&& ok.branch.state().wf()
            },
    {
        match derive_header_inclusion(reader) {
            Ok(dr) => return Ok(dr),
            Err(_) => {},
        }
        match derive_eof(reader) {
            Ok(dr) => return Ok(dr),
            Err(_) => {},
        }
        match derive_unrecognized(reader) {
            Ok(dr) => Ok(dr),
            Err(e) => {
                proof {
                    assert(false);
                }
                Err(e)
            },
        }
    }
}

/// The parse of one whole file reconstructs that file's text exactly.
pub proof fn lemma_parse_of_covers(content: Seq<char>)
    ensures
        spans_concat(parse_of(content)) == content,
    decreases content.len(),
{
    lemma_parse_covers_input(content, 0);
    assert(content.subrange(0, content.len() as int) =~= content);
}

} // verus!
