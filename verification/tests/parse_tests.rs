use header_parse::grammar::{
    derive_header_inclusion, derive_unrecognized, directive_marker_chars, GHeaderFileItem,
};
use header_parse::listing::{EntryKind, FsEntry};
use header_parse::reader::Reader;
use header_parse::{parse_dir, parse_file, CHeaderDirectory, Error};

fn chars(s: &str) -> Vec<char> {
    s.chars().collect()
}

/// A directive line referencing `frag`, built from the marker the grammar
/// itself exports.
fn directive(frag: &str) -> Vec<char> {
    let mut v = directive_marker_chars();
    for c in frag.chars() {
        v.push(c);
    }
    v.push('"');
    v
}

fn file(path: &str, content: Vec<char>) -> FsEntry {
    FsEntry { path: chars(path), kind: EntryKind::File, content }
}

fn dir_entry(path: &str) -> FsEntry {
    FsEntry { path: chars(path), kind: EntryKind::Dir, content: Vec::new() }
}

fn other_entry(path: &str) -> FsEntry {
    FsEntry { path: chars(path), kind: EntryKind::Other, content: Vec::new() }
}

#[test]
fn test_empty_file_parses_to_eof() {
    let fs = vec![file("a.h", chars(""))];
    let dir = parse_file(&fs, &chars("a.h"), CHeaderDirectory::new()).unwrap();
    let items = dir.get(&chars("a.h")).unwrap();
    assert_eq!(items, &vec![GHeaderFileItem::Eof]);
}

#[test]
fn test_unstructured_content_is_covered() {
    let fs = vec![file("a.h", chars("ab"))];
    let dir = parse_file(&fs, &chars("a.h"), CHeaderDirectory::new()).unwrap();
    let items = dir.get(&chars("a.h")).unwrap();
    assert_eq!(
        items,
        &vec![
            GHeaderFileItem::Unrecognized(vec!['a']),
            GHeaderFileItem::Unrecognized(vec!['b']),
            GHeaderFileItem::Eof,
        ]
    );
}

#[test]
fn test_two_files_one_directive() {
    let mut a = directive("b.h");
    a.push('\n');
    let fs = vec![file("a.h", a), file("b.h", chars(""))];
    let dir = parse_dir(&fs, CHeaderDirectory::new()).unwrap();
    assert_eq!(dir.len(), 2);
    let a_items = dir.get(&chars("a.h")).unwrap();
    assert_eq!(
        a_items,
        &vec![
            GHeaderFileItem::HeaderInclusion(chars("b.h")),
            GHeaderFileItem::Unrecognized(vec!['\n']),
            GHeaderFileItem::Eof,
        ]
    );
    let b_items = dir.get(&chars("b.h")).unwrap();
    assert_eq!(b_items, &vec![GHeaderFileItem::Eof]);
}

#[test]
fn test_mutual_reference_terminates() {
    let fs = vec![file("a.h", directive("b.h")), file("b.h", directive("a.h"))];
    let dir = parse_dir(&fs, CHeaderDirectory::new()).unwrap();
    assert_eq!(dir.len(), 2);
    assert!(dir.contains_path(&chars("a.h")));
    assert!(dir.contains_path(&chars("b.h")));
}

#[test]
fn test_self_reference_recorded_not_followed() {
    let fs = vec![file("a.h", directive("a.h"))];
    let dir = parse_dir(&fs, CHeaderDirectory::new()).unwrap();
    assert_eq!(dir.len(), 1);
    let items = dir.get(&chars("a.h")).unwrap();
    assert_eq!(
        items,
        &vec![GHeaderFileItem::HeaderInclusion(chars("a.h")), GHeaderFileItem::Eof]
    );
}

#[test]
fn test_unsupported_entry_is_fatal() {
    let fs = vec![file("a.h", chars("")), other_entry("broken")];
    let r = parse_dir(&fs, CHeaderDirectory::new());
    assert!(matches!(r, Err(Error::Todo)));
}

#[test]
fn test_unresolved_reference_is_fatal() {
    let fs = vec![file("a.h", directive("missing.h"))];
    let r = parse_dir(&fs, CHeaderDirectory::new());
    assert!(matches!(r, Err(Error::Todo)));
}

#[test]
fn test_parse_file_wants_a_regular_file() {
    let fs = vec![dir_entry("sub"), file("sub/c.h", chars(""))];
    let r = parse_file(&fs, &chars("sub"), CHeaderDirectory::new());
    assert!(matches!(r, Err(Error::Todo)));
    let r2 = parse_file(&fs, &chars("nowhere.h"), CHeaderDirectory::new());
    assert!(matches!(r2, Err(Error::Todo)));
}

#[test]
fn test_reparsing_is_a_no_op() {
    let fs = vec![file("a.h", chars("x"))];
    let once = parse_file(&fs, &chars("a.h"), CHeaderDirectory::new()).unwrap();
    let twice = parse_file(&fs, &chars("a.h"), once.clone()).unwrap();
    assert_eq!(once, twice);
}

#[test]
fn test_fragment_resolves_beside_referencing_file() {
    let fs = vec![
        dir_entry("sub"),
        file("sub/c.h", directive("d.h")),
        file("sub/d.h", chars("")),
    ];
    let dir = parse_dir(&fs, CHeaderDirectory::new()).unwrap();
    assert_eq!(dir.len(), 2);
    assert!(dir.contains_path(&chars("sub/c.h")));
    assert!(dir.contains_path(&chars("sub/d.h")));
    assert!(!dir.contains_path(&chars("d.h")));
}

#[test]
fn test_walk_skips_nothing_already_parsed() {
    // b.h is parsed while a.h's directive is handled; the walk then reaches
    // b.h itself and must not reopen it
    let fs = vec![file("a.h", directive("b.h")), file("b.h", chars("z"))];
    let dir = parse_dir(&fs, CHeaderDirectory::new()).unwrap();
    assert_eq!(dir.len(), 2);
    let b_items = dir.get(&chars("b.h")).unwrap();
    assert_eq!(
        b_items,
        &vec![GHeaderFileItem::Unrecognized(vec!['z']), GHeaderFileItem::Eof]
    );
}

#[test]
fn test_shared_dependency_parsed_once() {
    let fs = vec![
        file("a.h", directive("c.h")),
        file("b.h", directive("c.h")),
        file("c.h", chars("")),
    ];
    let dir = parse_dir(&fs, CHeaderDirectory::new()).unwrap();
    assert_eq!(dir.len(), 3);
    assert!(dir.contains_path(&chars("c.h")));
}

#[test]
fn test_failed_rule_leaves_cursor_untouched() {
    let buf = chars("xy");
    let r = Reader::from(&buf);
    let (pending, view) = r.checkout();
    let attempt = derive_header_inclusion(view);
    assert!(attempt.is_err());
    let restored = pending.discard();
    assert_eq!(restored.pos_exec(), 0);
    // a different rule attempted at the same position sees identical input
    let res = derive_unrecognized(restored).unwrap();
    assert_eq!(res.derived, GHeaderFileItem::Unrecognized(vec!['x']));
    assert_eq!(res.branch.into_cursor().pos_exec(), 1);
}

#[test]
fn test_read_amt_insufficient_input() {
    let buf = chars("ab");
    let r = Reader::from(&buf);
    match r.read_amt(3) {
        Err(e) => assert_eq!(e, Error::Eof),
        Ok(_) => panic!(),
    }
}

#[test]
fn test_read_commit_advances_discard_does_not() {
    let buf = chars("ab");
    let r = Reader::from(&buf);
    let (slice, handle) = r.read_amt(1).unwrap();
    assert_eq!(slice, vec!['a']);
    let advanced = handle.commit().into_cursor();
    assert_eq!(advanced.pos_exec(), 1);
    let (_, handle2) = advanced.read_amt(1).unwrap();
    let back = handle2.discard();
    assert_eq!(back.pos_exec(), 1);
}

#[test]
fn test_partial_marker_backtracks_to_fallback() {
    let fs = vec![file("a.h", chars("#inc"))];
    let dir = parse_file(&fs, &chars("a.h"), CHeaderDirectory::new()).unwrap();
    let items = dir.get(&chars("a.h")).unwrap();
    assert_eq!(
        items,
        &vec![
            GHeaderFileItem::Unrecognized(vec!['#']),
            GHeaderFileItem::Unrecognized(vec!['i']),
            GHeaderFileItem::Unrecognized(vec!['n']),
            GHeaderFileItem::Unrecognized(vec!['c']),
            GHeaderFileItem::Eof,
        ]
    );
}

#[test]
fn test_unclosed_directive_backtracks() {
    // the marker is present but no closing quote follows: the rule fails
    // and every character is covered by the fallback instead
    let mut content = directive_marker_chars();
    content.push('b');
    let fs = vec![file("a.h", content.clone())];
    let dir = parse_file(&fs, &chars("a.h"), CHeaderDirectory::new()).unwrap();
    let items = dir.get(&chars("a.h")).unwrap();
    assert_eq!(items.len(), content.len() + 1);
    assert_eq!(items[0], GHeaderFileItem::Unrecognized(vec!['#']));
    assert_eq!(items[items.len() - 1], GHeaderFileItem::Eof);
}

#[test]
fn test_eof_is_last_and_unique() {
    let mut a = chars("hello ");
    for c in directive("b.h") {
        a.push(c);
    }
    a.push('!');
    let fs = vec![file("a.h", a), file("b.h", chars(""))];
    let dir = parse_dir(&fs, CHeaderDirectory::new()).unwrap();
    let items = dir.get(&chars("a.h")).unwrap();
    let eof_count = items.iter().filter(|it| matches!(it, GHeaderFileItem::Eof)).count();
    assert_eq!(eof_count, 1);
    assert!(matches!(items[items.len() - 1], GHeaderFileItem::Eof));
}

#[test]
fn test_spans_reconstruct_input() {
    let mut a = chars("x");
    for c in directive("b.h") {
        a.push(c);
    }
    a.push('y');
    let fs = vec![file("a.h", a.clone()), file("b.h", chars(""))];
    let dir = parse_dir(&fs, CHeaderDirectory::new()).unwrap();
    let items = dir.get(&chars("a.h")).unwrap();
    let mut rebuilt: Vec<char> = Vec::new();
    for it in items.iter() {
        match it {
            GHeaderFileItem::HeaderInclusion(frag) => {
                for c in directive_marker_chars() {
                    rebuilt.push(c);
                }
                for c in frag.iter() {
                    rebuilt.push(*c);
                }
                rebuilt.push('"');
            }
            GHeaderFileItem::Unrecognized(t) => {
                for c in t.iter() {
                    rebuilt.push(*c);
                }
            }
            GHeaderFileItem::Eof => {}
        }
    }
    assert_eq!(rebuilt, a);
}
