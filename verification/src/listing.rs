//! The filesystem model the drivers work on: a directory tree taken as a
//! flat value.  Every reachable entry appears once, under its full path,
//! with its kind and — for regular files — its text, already reduced to a
//! character set the cursor can index positionally.  Enumerating the disk
//! and normalising the text is the caller's collaborator contract; the
//! drivers of [`crate`] only ever read this value.

use vstd::prelude::*;

verus! {

/// The kind of one enumerated directory entry.  `Other` stands for anything
/// that is neither a regular file nor a directory (a broken symbolic link,
/// a device): the directory walk treats it as fatal rather than skipping it.
#[derive(Debug, Clone, Copy, PartialEq, Eq, Structural)]
pub enum EntryKind {
    File,
    Dir,
    Other,
}

/// One enumerated entry: its full path, its kind, and — when it is a
/// regular file — its text.
#[derive(Debug, Clone)]
pub struct FsEntry {
    pub path: Vec<char>,
    pub kind: EntryKind,
    pub content: Vec<char>,
}

/// A listing is well formed when no path appears twice.
pub open spec fn listing_wf(fs: Seq<FsEntry>) -> bool {
    forall|i: int, j: int| 0 <= i < j < fs.len() ==> fs[i].path@ != fs[j].path@
}

/// The index of the first entry whose path is `p`, if any.
pub open spec fn find_entry(fs: Seq<FsEntry>, p: Seq<char>) -> Option<int>
    decreases fs.len(),
{
    if fs.len() == 0 {
        None
    } else if fs[0].path@ == p {
        Some(0)
    } else {
        match find_entry(fs.drop_first(), p) {
            Some(i) => Some(i + 1),
            None => None,
        }
    }
}

/// What [`find_entry`] finds is an entry with path `p`; a `None` answer
/// means no entry carries that path.
pub proof fn lemma_find_entry(fs: Seq<FsEntry>, p: Seq<char>)
    ensures
        match find_entry(fs, p) {
            Some(i) => 0 <= i < fs.len() && fs[i].path@ == p,
            None => forall|i: int| 0 <= i < fs.len() ==> fs[i].path@ != p,
        },
    decreases fs.len(),
{
    if fs.len() > 0 && fs[0].path@ != p {
        lemma_find_entry(fs.drop_first(), p);
        match find_entry(fs.drop_first(), p) {
            Some(i) => {
                assert(fs.drop_first()[i] == fs[i + 1]);
            },
            None => {
                assert forall|i: int| 0 <= i < fs.len() implies fs[i].path@ != p by {
                    if i > 0 {
                        assert(fs.drop_first()[i - 1] == fs[i]);
                    }
                }
            },
        }
    }
}

/// If nothing before index `i` carries path `p` and the entry at `i` does,
/// then `i` is exactly what [`find_entry`] finds.
pub proof fn lemma_find_entry_at(fs: Seq<FsEntry>, p: Seq<char>, i: int)
    requires
        0 <= i < fs.len(),
        fs[i].path@ == p,
        forall|k: int| 0 <= k < i ==> fs[k].path@ != p,
    ensures
        find_entry(fs, p) == Some(i),
    decreases fs.len(),
{
    if i > 0 {
        assert forall|k: int| 0 <= k < i - 1 implies fs.drop_first()[k].path@ != p by {
            assert(fs.drop_first()[k] == fs[k + 1]);
        }
        assert(fs.drop_first()[i - 1] == fs[i]);
        lemma_find_entry_at(fs.drop_first(), p, i - 1);
    }
}

/// In a well-formed listing, any entry carrying path `p` is the one
/// [`find_entry`] finds.
pub proof fn lemma_find_entry_unique(fs: Seq<FsEntry>, p: Seq<char>, i: int)
    requires
        listing_wf(fs),
        0 <= i < fs.len(),
        fs[i].path@ == p,
    ensures
        find_entry(fs, p) == Some(i),
{
    lemma_find_entry_at(fs, p, i);
}

/// The text of the regular file at path `p`, if that path resolves to one.
pub open spec fn file_content(fs: Seq<FsEntry>, p: Seq<char>) -> Option<Seq<char>> {
    match find_entry(fs, p) {
        Some(i) => if fs[i].kind is File {
            Some(fs[i].content@)
        } else {
            None
        },
        None => None,
    }
}

/// Character-for-character equality of two owned character vectors.
pub fn vec_char_eq(a: &Vec<char>, b: &Vec<char>) -> (r: bool)
    ensures
        r <==> a@ == b@,
{
    if a.len() != b.len() {
        return false;
    }
    let mut i: usize = 0;
    while i < a.len()
        invariant
            i <= a.len(),
            a@.len() == b@.len(),
            forall|k: int| 0 <= k < i ==> a@[k] == b@[k],
        decreases a.len() - i,
    {
        if a[i] != b[i] {
            return false;
        }
        i = i + 1;
    }
    proof {
        assert(a@ =~= b@);
    }
    true
}

/// A fresh copy of an owned character vector.
pub fn vec_char_copy(v: &Vec<char>) -> (r: Vec<char>)
    ensures
        r@ == v@,
{
    let mut out: Vec<char> = Vec::new();
    let mut i: usize = 0;
    while i < v.len()
        invariant
            i <= v.len(),
            out@ == v@.subrange(0, i as int),
        decreases v.len() - i,
    {
        out.push(v[i]);
        proof {
            assert(out@ =~= v@.subrange(0, i + 1));
        }
        i = i + 1;
    }
    proof {
        assert(out@ =~= v@);
    }
    out
}

/// Find the regular file carrying path `p` and hand out its text.
pub fn lookup_file<'x>(fs: &'x Vec<FsEntry>, p: &Vec<char>) -> (r: Option<&'x Vec<char>>)
    ensures
        r is Some <==> file_content(fs@, p@) is Some,
        r matches Some(c) ==> Some(c@) == file_content(fs@, p@),
{
    let mut i: usize = 0;
    while i < fs.len()
        invariant
            i <= fs.len(),
            forall|k: int| 0 <= k < i ==> fs@[k].path@ != p@,
        decreases fs.len() - i,
    {
        let e = &fs[i];
        if vec_char_eq(&e.path, p) {
            proof {
                lemma_find_entry_at(fs@, p@, i as int);
            }
            if e.kind == EntryKind::File {
                return Some(&e.content);
            } else {
                return None;
            }
        }
        i = i + 1;
    }
    proof {
        lemma_find_entry(fs@, p@);
        if find_entry(fs@, p@) is Some {
            let j = find_entry(fs@, p@)->Some_0;
            assert(fs@[j].path@ != p@);
        }
    }
    None
}

/// The position of the last path separator of `p`, if any.
pub open spec fn find_last_slash(p: Seq<char>) -> Option<int>
    decreases p.len(),
{
    if p.len() == 0 {
        None
    } else if p[p.len() - 1] == '/' {
        Some(p.len() - 1)
    } else {
        find_last_slash(p.drop_last())
    }
}

/// Where the path fragment of a directive points: the containing directory
/// of `path` — everything up to and including its last separator — joined
/// with the fragment.  A path without a separator resolves beside itself.
pub open spec fn resolve_fragment(path: Seq<char>, frag: Seq<char>) -> Seq<char> {
    match find_last_slash(path) {
        Some(j) => path.subrange(0, j + 1) + frag,
        None => frag,
    }
}

/// If a separator stands at `j` and none stands after it, `j` is exactly
/// what [`find_last_slash`] finds.
proof fn lemma_last_slash_at(p: Seq<char>, j: int)
    requires
        0 <= j < p.len(),
        p[j] == '/',
        forall|k: int| j < k < p.len() ==> p[k] != '/',
    ensures
        find_last_slash(p) == Some(j),
    decreases p.len(),
{
    if j < p.len() - 1 {
        assert(p.drop_last() =~= p.subrange(0, p.len() - 1));
        lemma_last_slash_at(p.drop_last(), j);
    }
}

/// If no separator stands anywhere, [`find_last_slash`] finds none.
proof fn lemma_last_slash_none(p: Seq<char>)
    requires
        forall|k: int| 0 <= k < p.len() ==> p[k] != '/',
    ensures
        find_last_slash(p) is None,
    decreases p.len(),
{
    if p.len() > 0 {
        lemma_last_slash_none(p.drop_last());
    }
}

/// The executable form of [`resolve_fragment`].
pub fn resolve_fragment_chars(path: &Vec<char>, frag: &Vec<char>) -> (r: Vec<char>)
    ensures
        r@ == resolve_fragment(path@, frag@),
{
    let mut j: usize = path.len();
    while j > 0
        invariant_except_break
            j <= path.len(),
            forall|k: int| j <= k < path.len() ==> path@[k] != '/',
        ensures
            j <= path.len(),
            forall|k: int| j <= k < path.len() ==> path@[k] != '/',
            j > 0 ==> path@[j - 1] == '/',
        decreases j,
    {
        if path[j - 1] == '/' {
            break;
        }
        j = j - 1;
    }
    let mut out: Vec<char> = Vec::new();
    if j > 0 {
        proof {
            lemma_last_slash_at(path@, j - 1);
        }
        let mut i: usize = 0;
        while i < j
            invariant
                i <= j <= path.len(),
                out@ == path@.subrange(0, i as int),
            decreases j - i,
        {
            out.push(path[i]);
            proof {
                assert(out@ =~= path@.subrange(0, i + 1));
            }
            i = i + 1;
        }
    } else {
        proof {
            lemma_last_slash_none(path@);
        }
    }
    let mut i: usize = 0;
    let ghost prefix = out@;
    while i < frag.len()
        invariant
            i <= frag.len(),
            out@ == prefix + frag@.subrange(0, i as int),
        decreases frag.len() - i,
    {
        out.push(frag[i]);
        proof {
            assert(out@ =~= prefix + frag@.subrange(0, i + 1));
        }
        i = i + 1;
    }
    proof {
        assert(frag@.subrange(0, frag@.len() as int) =~= frag@);
        if find_last_slash(path@) is Some {
            let s = find_last_slash(path@)->Some_0;
            assert(out@ == path@.subrange(0, s + 1) + frag@);
        } else {
            assert(out@ =~= frag@);
        }
    }
    out
}

} // verus!
