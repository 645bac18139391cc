//! A verified backtracking parser for trees of C-style header files.
//!
//! The crate is organised around three layers, leaves first:
//! the [`reader`] module offers a positional cursor over a text buffer with
//! speculative reads that are either committed or discarded; the [`grammar`]
//! module defines the recognisable constructs of one file and the derivation
//! rules that consume them; this root module drives whole files and whole
//! directory listings, threading a registry of already-parsed files through
//! the recursion so that no file is ever parsed twice.

use vstd::prelude::*;

pub mod grammar;
pub mod listing;
pub mod reader;

use crate::grammar::{
    lemma_parse_of_covers, lemma_parse_single_eof, parse_items, parse_of, spans_concat,
    GHeaderFileItem, GItem,
};
use crate::listing::{
    file_content, find_entry, lemma_find_entry, lemma_find_entry_unique, listing_wf, lookup_file,
    resolve_fragment, resolve_fragment_chars, vec_char_copy, vec_char_eq, EntryKind, FsEntry,
};
use crate::reader::Reader;

verus! {

/// The error type shared by the whole crate.
///
/// `Todo` marks every fatal condition of the drivers (a path that does not
/// resolve to a regular file, an unsupported directory entry, a rule
/// mismatch); `Eof` is the definitive "insufficient input" signal of the
/// reader.
#[derive(Debug, Clone, Copy, PartialEq, Eq, Structural)]
pub enum Error {
    Todo,
    Eof,
}

/// The mathematical shadow of an item list.
pub open spec fn items_view(items: Seq<GHeaderFileItem>) -> Seq<GItem> {
    items.map_values(|it: GHeaderFileItem| it@)
}

/// No key appears twice in an association list.
pub open spec fn keys_unique(s: Seq<(Vec<char>, Vec<GHeaderFileItem>)>) -> bool {
    forall|a: int, b: int| 0 <= a < b < s.len() ==> s[a].0@ != s[b].0@
}

/// The mapping an association list stands for, later entries winning.
pub open spec fn assoc_map(s: Seq<(Vec<char>, Vec<GHeaderFileItem>)>) -> Map<
    Seq<char>,
    Seq<GItem>,
>
    decreases s.len(),
{
    if s.len() == 0 {
        Map::empty()
    } else {
        assoc_map(s.drop_last()).insert(s.last().0@, items_view(s.last().1@))
    }
}

/// A path is a key of the mapping exactly when some entry carries it.
proof fn lemma_assoc_map_dom(s: Seq<(Vec<char>, Vec<GHeaderFileItem>)>, p: Seq<char>)
    ensures
        assoc_map(s).dom().contains(p) <==> exists|i: int| 0 <= i < s.len() && s[i].0@ == p,
    decreases s.len(),
{
    if s.len() > 0 {
        lemma_assoc_map_dom(s.drop_last(), p);
        if p == s.last().0@ {
            assert(s[s.len() - 1].0@ == p);
        } else {
            if assoc_map(s).dom().contains(p) {
                let i = choose|i: int| 0 <= i < s.drop_last().len() && s.drop_last()[i].0@ == p;
                assert(s[i].0@ == p);
            }
            if exists|i: int| 0 <= i < s.len() && s[i].0@ == p {
                let i = choose|i: int| 0 <= i < s.len() && s[i].0@ == p;
                assert(i < s.len() - 1);
                assert(s.drop_last()[i].0@ == p);
            }
        }
    }
}

/// Under unique keys, the mapping sends each entry's key to that entry's
/// item list.
proof fn lemma_assoc_map_get(s: Seq<(Vec<char>, Vec<GHeaderFileItem>)>, i: int)
    requires
        keys_unique(s),
        0 <= i < s.len(),
    ensures
        assoc_map(s).dom().contains(s[i].0@),
        assoc_map(s)[s[i].0@] == items_view(s[i].1@),
    decreases s.len(),
{
    if i < s.len() - 1 {
        assert(s[i].0@ != s.last().0@);
        assert(keys_unique(s.drop_last())) by {
            assert(forall|a: int, b: int|
                0 <= a < b < s.drop_last().len() ==> s.drop_last()[a] == s[a] && s.drop_last()[b]
                    == s[b]);
        }
        assert(s.drop_last()[i] == s[i]);
        lemma_assoc_map_get(s.drop_last(), i);
    }
}

/// Under unique keys, the mapping has exactly one key per entry.
proof fn lemma_assoc_map_len(s: Seq<(Vec<char>, Vec<GHeaderFileItem>)>)
    requires
        keys_unique(s),
    ensures
        assoc_map(s).dom().finite(),
        assoc_map(s).dom().len() == s.len(),
    decreases s.len(),
{
    if s.len() > 0 {
        assert(keys_unique(s.drop_last())) by {
            assert(forall|a: int, b: int|
                0 <= a < b < s.drop_last().len() ==> s.drop_last()[a] == s[a] && s.drop_last()[b]
                    == s[b]);
        }
        lemma_assoc_map_len(s.drop_last());
        lemma_assoc_map_dom(s.drop_last(), s.last().0@);
        assert(!assoc_map(s.drop_last()).dom().contains(s.last().0@)) by {
            if exists|i: int| 0 <= i < s.drop_last().len() && s.drop_last()[i].0@ == s.last().0@ {
                let i = choose|i: int|
                    0 <= i < s.drop_last().len() && s.drop_last()[i].0@ == s.last().0@;
                assert(s[i].0@ == s[s.len() - 1].0@);
            }
        }
        vstd::set::axiom_set_insert_len(assoc_map(s.drop_last()).dom(), s.last().0@);
    }
}

/// The registry: a mapping from canonical file path to that file's ordered
/// item sequence.  Created empty by the top-level caller, threaded by value
/// through every recursive parse call, mutated only by inserting a newly
/// completed file's item list, and never reopened for a path already
/// present.
#[derive(Debug, Clone, PartialEq, Eq)]
pub struct CHeaderDirectory {
    map: Vec<(Vec<char>, Vec<GHeaderFileItem>)>,
}

impl View for CHeaderDirectory {
    type V = Map<Seq<char>, Seq<GItem>>;

    closed spec fn view(&self) -> Map<Seq<char>, Seq<GItem>> {
        assoc_map(self.map@)
    }
}

impl CHeaderDirectory {
    /// Well-formedness: no path is keyed twice.
    pub closed spec fn wf(&self) -> bool {
        keys_unique(self.map@)
    }

    /// The empty registry.
    pub fn new() -> (r: CHeaderDirectory)
        ensures
            r.wf(),
            r@ == Map::<Seq<char>, Seq<GItem>>::empty(),
    {
        CHeaderDirectory { map: Vec::new() }
    }

    /// Whether `p` is already a key.
    pub fn contains_path(&self, p: &Vec<char>) -> (r: bool)
        ensures
            r == self@.dom().contains(p@),
    {
        let mut i: usize = 0;
        while i < self.map.len()
            invariant
                i <= self.map@.len(),
                forall|k: int| 0 <= k < i ==> self.map@[k].0@ != p@,
            decreases self.map@.len() - i,
        {
            if vec_char_eq(&self.map[i].0, p) {
                proof {
                    lemma_assoc_map_dom(self.map@, p@);
                }
                return true;
            }
            i = i + 1;
        }
        proof {
            lemma_assoc_map_dom(self.map@, p@);
        }
        false
    }

    /// The item list keyed under `p`, if any.
    pub fn get(&self, p: &Vec<char>) -> (r: Option<&Vec<GHeaderFileItem>>)
        requires
            self.wf(),
        ensures
            r is Some <==> self@.dom().contains(p@),
            r matches Some(items) ==> self@[p@] == items_view(items@),
    {
        let mut i: usize = 0;
        while i < self.map.len()
            invariant
                i <= self.map@.len(),
                self.wf(),
                forall|k: int| 0 <= k < i ==> self.map@[k].0@ != p@,
            decreases self.map@.len() - i,
        {
            if vec_char_eq(&self.map[i].0, p) {
                proof {
                    lemma_assoc_map_dom(self.map@, p@);
                    lemma_assoc_map_get(self.map@, i as int);
                }
                return Some(&self.map[i].1);
            }
            i = i + 1;
        }
        proof {
            lemma_assoc_map_dom(self.map@, p@);
        }
        None
    }

    /// How many files are keyed.
    pub fn len(&self) -> (n: usize)
        requires
            self.wf(),
        ensures
            n == self@.dom().len(),
    {
        proof {
            lemma_assoc_map_len(self.map@);
        }
        self.map.len()
    }

    /// The keyed paths, one per completed file.
    pub fn keys(&self) -> (r: Vec<Vec<char>>)
        requires
            self.wf(),
        ensures
            r@.len() == self@.dom().len(),
            forall|i: int| 0 <= i < r@.len() ==> self@.dom().contains(#[trigger] r@[i]@),
            forall|i: int, j: int| 0 <= i < j < r@.len() ==> r@[i]@ != r@[j]@,
    {
        proof {
            lemma_assoc_map_len(self.map@);
        }
        let mut out: Vec<Vec<char>> = Vec::new();
        let mut i: usize = 0;
        while i < self.map.len()
            invariant
                self.wf(),
                i <= self.map@.len(),
                out@.len() == i,
                forall|k: int| 0 <= k < i ==> (#[trigger] out@[k]@) == self.map@[k].0@,
            decreases self.map@.len() - i,
        {
            out.push(vec_char_copy(&self.map[i].0));
            i = i + 1;
        }
        proof {
            assert forall|k: int| 0 <= k < out@.len() implies self@.dom().contains(
                #[trigger] out@[k]@,
            ) by {
                lemma_assoc_map_get(self.map@, k);
            }
        }
        out
    }

    /// Key `p` to `items`.  The path must not be present yet: a completed
    /// parse is inserted exactly once.
    pub fn insert(&mut self, p: Vec<char>, items: Vec<GHeaderFileItem>)
        requires
            old(self).wf(),
            !old(self)@.dom().contains(p@),
        ensures
            final(self).wf(),
            final(self)@ == old(self)@.insert(p@, items_view(items@)),
    {
        proof {
            lemma_assoc_map_dom(self.map@, p@);
        }
        let ghost old_map = self.map@;
        self.map.push((p, items));
        proof {
            assert(self.map@.drop_last() =~= old_map);
            assert(keys_unique(self.map@)) by {
                assert(forall|a: int| 0 <= a < old_map.len() ==> self.map@[a] == old_map[a]);
            }
        }
    }
}

/// Every keyed path resolves to a regular file of the listing, and what it
/// is keyed to is exactly the parse of that file's text.
pub open spec fn dir_consistent(m: Map<Seq<char>, Seq<GItem>>, fs: Seq<FsEntry>) -> bool {
    forall|p: Seq<char>| #[trigger]
        m.dom().contains(p) ==> file_content(fs, p) is Some && m[p] == parse_of(
            file_content(fs, p)->Some_0,
        )
}

/// For every file keyed in a consistent registry, the keyed item sequence
/// ends in exactly one `Eof`, which never appears earlier in the sequence.
pub proof fn lemma_registry_single_eof(
    m: Map<Seq<char>, Seq<GItem>>,
    fs: Seq<FsEntry>,
    p: Seq<char>,
)
    requires
        dir_consistent(m, fs),
        m.dom().contains(p),
    ensures
        m[p].len() >= 1,
        m[p].last() is Eof,
        forall|i: int| 0 <= i < m[p].len() - 1 ==> !(#[trigger] m[p][i] is Eof),
{
    lemma_parse_single_eof(file_content(fs, p)->Some_0, 0);
}

/// For every file keyed in a consistent registry, concatenating the
/// consumed spans of the keyed items reconstructs that file's text exactly:
/// no character dropped, none duplicated.
pub proof fn lemma_registry_covers_file(
    m: Map<Seq<char>, Seq<GItem>>,
    fs: Seq<FsEntry>,
    p: Seq<char>,
)
    requires
        dir_consistent(m, fs),
        m.dom().contains(p),
    ensures
        spans_concat(m[p]) == file_content(fs, p)->Some_0,
{
    lemma_parse_of_covers(file_content(fs, p)->Some_0);
}

/// A directive's fragment, written in the file at `path`, leads somewhere:
/// either back to the file itself or to a regular file of the listing.
pub open spec fn fragment_resolves(fs: Seq<FsEntry>, path: Seq<char>, frag: Seq<char>) -> bool {
    resolve_fragment(path, frag) == path || file_content(fs, resolve_fragment(path, frag)) is Some
}

/// Every directive of every regular file of the listing resolves within the
/// listing.  Under this closure the drivers are guaranteed to succeed.
pub open spec fn listing_closed(fs: Seq<FsEntry>) -> bool {
    forall|i: int, j: int|
        0 <= i < fs.len() && fs[i].kind is File && 0 <= j < parse_of(fs[i].content@).len() && (
        #[trigger] parse_of(fs[i].content@)[j]) is HeaderInclusion ==> fragment_resolves(
            fs,
            fs[i].path@,
            parse_of(fs[i].content@)[j]->HeaderInclusion_0,
        )
}

/// Whether a path is marked as having its parse in progress.
pub open spec fn stack_contains(ip: Seq<Vec<char>>, p: Seq<char>) -> bool {
    exists|i: int| 0 <= i < ip.len() && ip[i]@ == p
}

/// A path is visited once its parse is completed (keyed in the registry) or
/// in progress (marked on the stack).  A visited file is never re-entered.
pub open spec fn visited(
    m: Map<Seq<char>, Seq<GItem>>,
    ip: Seq<Vec<char>>,
    p: Seq<char>,
) -> bool {
    m.dom().contains(p) || stack_contains(ip, p)
}

/// How many regular files of the listing are not yet visited: the measure
/// that shrinks at every dependency-triggered recursive parse.
pub open spec fn count_unvisited(
    fs: Seq<FsEntry>,
    m: Map<Seq<char>, Seq<GItem>>,
    ip: Seq<Vec<char>>,
) -> nat
    decreases fs.len(),
{
    if fs.len() == 0 {
        0
    } else {
        (if fs[0].kind is File && !visited(m, ip, fs[0].path@) {
            1nat
        } else {
            0nat
        }) + count_unvisited(fs.drop_first(), m, ip)
    }
}

/// Visiting more files never raises the measure.
proof fn lemma_count_mono(
    fs: Seq<FsEntry>,
    m1: Map<Seq<char>, Seq<GItem>>,
    ip1: Seq<Vec<char>>,
    m2: Map<Seq<char>, Seq<GItem>>,
    ip2: Seq<Vec<char>>,
)
    requires
        forall|p: Seq<char>| #[trigger] visited(m1, ip1, p) ==> visited(m2, ip2, p),
    ensures
        count_unvisited(fs, m2, ip2) <= count_unvisited(fs, m1, ip1),
    decreases fs.len(),
{
    if fs.len() > 0 {
        if visited(m1, ip1, fs[0].path@) {
            assert(visited(m2, ip2, fs[0].path@));
        }
        lemma_count_mono(fs.drop_first(), m1, ip1, m2, ip2);
    }
}

/// Newly visiting a regular file of the listing strictly lowers the measure.
proof fn lemma_count_strict(
    fs: Seq<FsEntry>,
    m1: Map<Seq<char>, Seq<GItem>>,
    ip1: Seq<Vec<char>>,
    m2: Map<Seq<char>, Seq<GItem>>,
    ip2: Seq<Vec<char>>,
    p: Seq<char>,
    i: int,
)
    requires
        forall|q: Seq<char>| #[trigger] visited(m1, ip1, q) ==> visited(m2, ip2, q),
        visited(m2, ip2, p),
        !visited(m1, ip1, p),
        0 <= i < fs.len(),
        fs[i].kind is File,
        fs[i].path@ == p,
    ensures
        count_unvisited(fs, m2, ip2) < count_unvisited(fs, m1, ip1),
    decreases fs.len(),
{
    if i == 0 {
        lemma_count_mono(fs.drop_first(), m1, ip1, m2, ip2);
    } else {
        if visited(m1, ip1, fs[0].path@) {
            assert(visited(m2, ip2, fs[0].path@));
        }
        assert(fs.drop_first()[i - 1] == fs[i]);
        lemma_count_strict(fs.drop_first(), m1, ip1, m2, ip2, p, i - 1);
    }
}

/// Whether `p` is marked on the in-progress stack.
fn stack_contains_exec(ip: &Vec<Vec<char>>, p: &Vec<char>) -> (r: bool)
    ensures
        r == stack_contains(ip@, p@),
{
    let mut i: usize = 0;
    while i < ip.len()
        invariant
            i <= ip@.len(),
            forall|k: int| 0 <= k < i ==> ip@[k]@ != p@,
        decreases ip@.len() - i,
    {
        if vec_char_eq(&ip[i], p) {
            proof {
                assert(0 <= i < ip@.len() && ip@[i as int]@ == p@);
            }
            return true;
        }
        i = i + 1;
    }
    proof {
        if stack_contains(ip@, p@) {
            let w = choose|w: int| 0 <= w < ip@.len() && ip@[w]@ == p@;
            assert(ip@[w]@ != p@);
        }
    }
    false
}

/// The state threaded through the recursive descent: the registry of
/// completed parses plus the stack of paths whose parse is in progress
/// higher on the call chain.
struct ParseSt {
    dir: CHeaderDirectory,
    stack: Vec<Vec<char>>,
}

/// Parse the regular file at `path` — already marked in progress — to
/// completion, recursively parsing every file its directives reference that
/// is not yet visited, and key its item list into the registry.
#[verifier::loop_isolation(false)]
fn parse_file_inner(fs: &Vec<FsEntry>, path: &Vec<char>, st: ParseSt) -> (r: Result<
    ParseSt,
    Error,
>)
    requires
        listing_wf(fs@),
        st.dir.wf(),
        dir_consistent(st.dir@, fs@),
        stack_contains(st.stack@, path@),
        !st.dir@.dom().contains(path@),
        file_content(fs@, path@) is Some,
    ensures
        r matches Ok(st2) ==> {
            &&& st2.dir.wf()
            &&& dir_consistent(st2.dir@, fs@)
            &&& st2.stack@ == st.stack@
            &&& st2.dir@.dom().contains(path@)
            &&& st2.dir@[path@] == parse_of(file_content(fs@, path@)->Some_0)
            &&& forall|q: Seq<char>| #[trigger]
                st.dir@.dom().contains(q) ==> st2.dir@.dom().contains(q) && st2.dir@[q]
                    == st.dir@[q]
            &&& forall|q: Seq<char>|
                (#[trigger] st2.dir@.dom().contains(q)) && !st.dir@.dom().contains(q) ==> q
                    == path@ || !stack_contains(st.stack@, q)
        },
        listing_closed(fs@) ==> r is Ok,
    decreases count_unvisited(fs@, st.dir@, st.stack@),
{
    let ghost m0 = st.dir@;
    let ghost ip0 = st.stack@;
    let content: &Vec<char> = match lookup_file(fs, path) {
        Some(c) => c,
        None => {
            proof {
                assert(false);
            }
            return Err(Error::Todo);
        },
    };
    let mut st = st;
    let mut reader = Reader::from(content);
    let mut items: Vec<GHeaderFileItem> = Vec::new();
    proof {
        assert(items_view(items@) + parse_items(content@, 0) =~= parse_of(content@));
    }
    loop
        invariant
            items_view(items@) + parse_items(content@, reader.position()) == parse_of(content@),
            listing_wf(fs@),
            Some(content@) == file_content(fs@, path@),
            reader.wf(),
            reader.text() == content@,
            st.dir.wf(),
            dir_consistent(st.dir@, fs@),
            st.stack@ == ip0,
            stack_contains(ip0, path@),
            !st.dir@.dom().contains(path@),
            forall|q: Seq<char>| #[trigger]
                m0.dom().contains(q) ==> st.dir@.dom().contains(q) && st.dir@[q] == m0[q],
            forall|q: Seq<char>|
                (#[trigger] st.dir@.dom().contains(q)) && !m0.dom().contains(q)
                    ==> !stack_contains(ip0, q),
            count_unvisited(fs@, st.dir@, st.stack@) <= count_unvisited(fs@, m0, ip0),
        decreases content@.len() - reader.position(),
    {
        let ghost p_prev = reader.position();
        let (pending, checked_out) = reader.checkout();
        match GHeaderFileItem::derive(checked_out) {
            Err(_) => {
                proof {
                    assert(false);
                }
                reader = pending.discard();
                return Err(Error::Todo);
            },
            Ok(der) => {
                let derived = der.derived;
                reader = pending.merge(der.branch);
                let is_eof = match &derived {
                    GHeaderFileItem::Eof => true,
                    _ => false,
                };
                proof {
                    crate::grammar::lemma_next_pos_bounds(content@, p_prev);
                }
                match &derived {
                    GHeaderFileItem::HeaderInclusion(frag) => {
                        let child = resolve_fragment_chars(path, frag);
                        proof {
                            // the directive just derived is an item of this
                            // file's parse, at index items.len()
                            let s = content@;
                            assert(parse_items(s, p_prev) == seq![derived@] + parse_items(
                                s,
                                reader.position(),
                            ));
                            assert((items_view(items@) + parse_items(s, p_prev))[items@.len()
                                as int] == derived@);
                            assert(parse_of(s)[items@.len() as int] == derived@);
                        }
                        if !vec_char_eq(&child, path) {
                            let in_dir = st.dir.contains_path(&child);
                            let in_stack = stack_contains_exec(&st.stack, &child);
                            if !in_dir && !in_stack {
                                match lookup_file(fs, &child) {
                                    Some(_) => {},
                                    None => {
                                        // fatal: the referenced path does not
                                        // resolve to a regular file
                                        proof {
                                            if listing_closed(fs@) {
                                                lemma_find_entry(fs@, path@);
                                                let fi = find_entry(fs@, path@)->Some_0;
                                                let jj = items@.len() as int;
                                                assert(parse_of(fs@[fi].content@)[jj]
                                                    is HeaderInclusion);
                                                assert(fragment_resolves(fs@, path@, frag@));
                                                assert(false);
                                            }
                                        }
                                        return Err(Error::Todo);
                                    },
                                }
                                let child_copy = vec_char_copy(&child);
                                let ghost pre_dir = st.dir@;
                                st.stack.push(child_copy);
                                proof {
                                    assert(stack_contains(st.stack@, child@)) by {
                                        assert(st.stack@[ip0.len() as int]@ == child@);
                                    }
                                    assert(stack_contains(st.stack@, path@)) by {
                                        let w = choose|w: int|
                                            0 <= w < ip0.len() && ip0[w]@ == path@;
                                        assert(st.stack@[w]@ == path@);
                                    }
                                    assert forall|q: Seq<char>| #[trigger]
                                        visited(m0, ip0, q) implies visited(
                                        st.dir@,
                                        st.stack@,
                                        q,
                                    ) by {
                                        if m0.dom().contains(q) {
                                            assert(st.dir@.dom().contains(q));
                                        } else {
                                            let w = choose|w: int|
                                                0 <= w < ip0.len() && ip0[w]@ == q;
                                            assert(st.stack@[w]@ == q);
                                        }
                                    }
                                    assert(!visited(m0, ip0, child@)) by {
                                        if m0.dom().contains(child@) {
                                            assert(st.dir@.dom().contains(child@));
                                        }
                                        if stack_contains(ip0, child@) {
                                            assert(false);
                                        }
                                    }
                                    lemma_find_entry(fs@, child@);
                                    let ci = find_entry(fs@, child@)->Some_0;
                                    lemma_count_strict(
                                        fs@,
                                        m0,
                                        ip0,
                                        st.dir@,
                                        st.stack@,
                                        child@,
                                        ci,
                                    );
                                }
                                st = match parse_file_inner(fs, &child, st) {
                                    Ok(s2) => s2,
                                    Err(e) => return Err(e),
                                };
                                let ghost mid_dir = st.dir@;
                                let _ = st.stack.pop();
                                proof {
                                    assert(st.stack@ =~= ip0);
                                    // keys added by the child's parse are not
                                    // marked in progress here
                                    assert forall|q: Seq<char>|
                                        (#[trigger] st.dir@.dom().contains(q))
                                            && !m0.dom().contains(q) implies !stack_contains(
                                        ip0,
                                        q,
                                    ) by {
                                        if pre_dir.dom().contains(q) {
                                        } else {
                                            assert(q == child@ || !stack_contains(
                                                ip0.push(child_copy),
                                                q,
                                            ));
                                            if q == child@ {
                                                assert(!stack_contains(ip0, child@));
                                            } else {
                                                if stack_contains(ip0, q) {
                                                    let w = choose|w: int|
                                                        0 <= w < ip0.len() && ip0[w]@ == q;
                                                    assert(ip0.push(child_copy)[w]@ == q);
                                                }
                                            }
                                        }
                                    }
                                    assert(!st.dir@.dom().contains(path@)) by {
                                        if st.dir@.dom().contains(path@) {
                                            assert(path@ == child@ || !stack_contains(
                                                ip0.push(child_copy),
                                                path@,
                                            ));
                                            let w = choose|w: int|
                                                0 <= w < ip0.len() && ip0[w]@ == path@;
                                            assert(ip0.push(child_copy)[w]@ == path@);
                                        }
                                    }
                                    assert forall|q: Seq<char>| #[trigger]
                                        visited(m0, ip0, q) implies visited(
                                        st.dir@,
                                        st.stack@,
                                        q,
                                    ) by {
                                        if m0.dom().contains(q) {
                                            assert(pre_dir.dom().contains(q));
                                            assert(st.dir@.dom().contains(q));
                                        }
                                    }
                                    lemma_count_mono(fs@, m0, ip0, st.dir@, st.stack@);
                                }
                            }
                        }
                    },
                    _ => {},
                }
                let ghost old_items = items@;
                items.push(derived);
                proof {
                    let s = content@;
                    assert(items_view(items@) =~= items_view(old_items).push(derived@));
                    if is_eof {
                        assert(parse_items(s, p_prev) == seq![GItem::Eof]);
                        assert(items_view(items@) =~= parse_of(s));
                    } else {
                        assert(parse_items(s, p_prev) == seq![derived@] + parse_items(
                            s,
                            reader.position(),
                        ));
                        assert(items_view(items@) + parse_items(s, reader.position())
                            =~= parse_of(s));
                    }
                }
                if is_eof {
                    let path_copy = vec_char_copy(path);
                    let ghost pre_insert = st.dir@;
                    st.dir.insert(path_copy, items);
                    proof {
                        assert(st.dir@ == pre_insert.insert(path@, parse_of(content@)));
                        assert forall|p: Seq<char>| #[trigger]
                            st.dir@.dom().contains(p) implies file_content(fs@, p) is Some
                            && st.dir@[p] == parse_of(file_content(fs@, p)->Some_0) by {
                            if p == path@ {
                            } else {
                                assert(pre_insert.dom().contains(p));
                            }
                        }
                    }
                    return Ok(st);
                }
            },
        }
    }
}

/// Run the file parser on the regular file at `path`, then on every file it
/// transitively references, and key each completed parse into the registry.
/// A path already keyed is never reopened: the call is a no-op.  A `path`
/// that does not resolve to a regular file of the listing is fatal, as is
/// any directive that does not resolve during dependency resolution.
pub fn parse_file(fs: &Vec<FsEntry>, path: &Vec<char>, main_dir: CHeaderDirectory) -> (r: Result<
    CHeaderDirectory,
    Error,
>)
    requires
        listing_wf(fs@),
        main_dir.wf(),
        dir_consistent(main_dir@, fs@),
    ensures
        r matches Ok(d2) ==> {
            &&& d2.wf()
            &&& dir_consistent(d2@, fs@)
            &&& d2@.dom().contains(path@)
            &&& d2@[path@] == parse_of(file_content(fs@, path@)->Some_0)
            &&& forall|q: Seq<char>| #[trigger]
                main_dir@.dom().contains(q) ==> d2@.dom().contains(q) && d2@[q] == main_dir@[q]
            &&& (main_dir@.dom().contains(path@) ==> d2@ == main_dir@)
        },
        main_dir@.dom().contains(path@) ==> r is Ok,
        !main_dir@.dom().contains(path@) && file_content(fs@, path@) is None ==> (r matches Err(e)
            && e == Error::Todo),
        listing_closed(fs@) && file_content(fs@, path@) is Some ==> r is Ok,
{
    if main_dir.contains_path(path) {
        return Ok(main_dir);
    }
    match lookup_file(fs, path) {
        Some(_) => {},
        None => {
            return Err(Error::Todo);
        },
    }
    let mut stack: Vec<Vec<char>> = Vec::new();
    stack.push(vec_char_copy(path));
    proof {
        assert(stack_contains(stack@, path@)) by {
            assert(stack@[0]@ == path@);
        }
    }
    let st = ParseSt { dir: main_dir, stack };
    match parse_file_inner(fs, path, st) {
        Ok(st2) => Ok(st2.dir),
        Err(e) => Err(e),
    }
}

/// Walk the whole listing: run the file parser on every regular file not
/// already keyed; any entry that is neither a file nor a directory is a
/// fatal condition.  On success every regular file of the listing is keyed
/// exactly once, however many directives reference it.
pub fn parse_dir(fs: &Vec<FsEntry>, main_dir: CHeaderDirectory) -> (r: Result<
    CHeaderDirectory,
    Error,
>)
    requires
        listing_wf(fs@),
        main_dir.wf(),
        dir_consistent(main_dir@, fs@),
    ensures
        r matches Ok(d2) ==> {
            &&& d2.wf()
            &&& dir_consistent(d2@, fs@)
            &&& forall|i: int|
                0 <= i < fs@.len() && (#[trigger] fs@[i].kind) is File ==> d2@.dom().contains(
                    fs@[i].path@,
                ) && d2@[fs@[i].path@] == parse_of(fs@[i].content@)
            &&& forall|i: int| 0 <= i < fs@.len() ==> !((#[trigger] fs@[i].kind) is Other)
            &&& forall|q: Seq<char>| #[trigger]
                main_dir@.dom().contains(q) ==> d2@.dom().contains(q) && d2@[q] == main_dir@[q]
        },
        listing_closed(fs@) && (forall|i: int|
            0 <= i < fs@.len() ==> !((#[trigger] fs@[i].kind) is Other)) ==> r is Ok,
{
    let mut dir = main_dir;
    let mut i: usize = 0;
    while i < fs.len()
        invariant
            listing_wf(fs@),
            dir.wf(),
            dir_consistent(dir@, fs@),
            i <= fs@.len(),
            forall|k: int|
                0 <= k < i && (#[trigger] fs@[k].kind) is File ==> dir@.dom().contains(
                    fs@[k].path@,
                ),
            forall|k: int| 0 <= k < i ==> !((#[trigger] fs@[k].kind) is Other),
            forall|q: Seq<char>| #[trigger]
                main_dir@.dom().contains(q) ==> dir@.dom().contains(q) && dir@[q] == main_dir@[q],
        decreases fs@.len() - i,
    {
        let e = &fs[i];
        match e.kind {
            EntryKind::Dir => {},
            EntryKind::Other => {
                return Err(Error::Todo);
            },
            EntryKind::File => {
                proof {
                    lemma_find_entry_unique(fs@, e.path@, i as int);
                }
                dir = match parse_file(fs, &e.path, dir) {
                    Ok(d) => d,
                    Err(err) => return Err(err),
                };
            },
        }
        i = i + 1;
    }
    proof {
        assert forall|k: int|
            0 <= k < fs@.len() && (#[trigger] fs@[k].kind) is File implies dir@.dom().contains(
            fs@[k].path@,
        ) && dir@[fs@[k].path@] == parse_of(fs@[k].content@) by {
            lemma_find_entry_unique(fs@, fs@[k].path@, k);
            assert(file_content(fs@, fs@[k].path@) == Some(fs@[k].content@));
        }
    }
    Ok(dir)
}

} // verus!
