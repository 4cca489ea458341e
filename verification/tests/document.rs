use std::rc::Rc;

use shader_loader::preprocessor::{FileIncludes, Segment};

fn segment(start_line: usize, end_line: usize, file: &str) -> Segment {
    Segment { start_line, end_line, original_file: Rc::new(file.to_string()) }
}

fn origin(doc: &FileIncludes, line: usize) -> Option<(String, usize)> {
    doc.file_and_line_at(line).map(|(file, local)| ((*file).clone(), local))
}

#[test]
fn fresh_document_is_its_text() {
    for text in ["", "a", "a\nb\nc", "x\n", "\n\n"] {
        let doc = FileIncludes::new(text, "f".to_string());
        assert_eq!(doc.text(), text);
    }
}

#[test]
fn fresh_document_has_one_segment_over_all_lines() {
    let doc = FileIncludes::new("a\nb\nc", "f".to_string());
    assert_eq!(doc.line_count(), 3);
    assert_eq!(doc.segments(), &vec![segment(0, 3, "f")]);
    let empty = FileIncludes::new("", "e".to_string());
    assert_eq!(empty.line_count(), 1);
    assert_eq!(empty.segments(), &vec![segment(0, 1, "e")]);
}

#[test]
fn fresh_document_keeps_line_numbers() {
    let doc = FileIncludes::new("a\nb\nc\nd", "f".to_string());
    for line in 0..4 {
        assert_eq!(origin(&doc, line), Some(("f".to_string(), line)));
    }
    assert_eq!(origin(&doc, 4), None);
    assert_eq!(origin(&doc, usize::MAX), None);
}

#[test]
fn is_inside_compares_both_ends() {
    assert!(segment(1, 3, "a").is_inside(&segment(0, 4, "b")));
    assert!(segment(0, 4, "a").is_inside(&segment(0, 4, "b")));
    assert!(!segment(0, 5, "a").is_inside(&segment(0, 4, "b")));
    assert!(!segment(0, 4, "a").is_inside(&segment(1, 4, "b")));
    assert!(!segment(0, 2, "a").is_inside(&segment(2, 4, "b")));
}

#[test]
fn contains_line_is_half_open() {
    let s = segment(2, 4, "a");
    assert!(!s.contains_line(1));
    assert!(s.contains_line(2));
    assert!(s.contains_line(3));
    assert!(!s.contains_line(4));
}

#[test]
fn segments_are_equal_when_range_and_file_are() {
    assert_eq!(segment(1, 2, "a"), segment(1, 2, "a"));
    assert_ne!(segment(1, 2, "a"), segment(1, 2, "b"));
    assert_ne!(segment(1, 2, "a"), segment(0, 2, "a"));
    assert_ne!(segment(1, 2, "a"), segment(1, 3, "a"));
    let s = segment(5, 9, "shared");
    let copy = s.clone();
    assert_eq!(copy, s);
    assert!(Rc::ptr_eq(&copy.original_file, &s.original_file));
}

#[test]
fn replace_line_with_one_line_keeps_the_length() {
    let mut doc = FileIncludes::new("a\nb\nc", "main".to_string());
    doc.replace_line_with(1, "B", Rc::new("other".to_string()));
    assert_eq!(doc.text(), "a\nB\nc");
    assert_eq!(doc.segments(), &vec![segment(0, 3, "main"), segment(1, 2, "other")]);
}

#[test]
fn replace_line_with_several_lines_moves_what_follows() {
    let mut doc = FileIncludes::new("a\nb\nc", "main".to_string());
    doc.replace_line_with(1, "x\ny\nz", Rc::new("other".to_string()));
    assert_eq!(doc.text(), "a\nx\ny\nz\nc");
    assert_eq!(doc.line_count(), 5);
    assert_eq!(doc.segments(), &vec![segment(0, 5, "main"), segment(1, 4, "other")]);
    doc.replace_line_with(0, "p\nq", Rc::new("first".to_string()));
    assert_eq!(doc.text(), "p\nq\nx\ny\nz\nc");
    assert_eq!(
        doc.segments(),
        &vec![segment(0, 6, "main"), segment(2, 5, "other"), segment(0, 2, "first")]
    );
}

#[test]
fn replace_line_with_empty_text_blanks_the_line() {
    let mut doc = FileIncludes::new("a\nb", "main".to_string());
    doc.replace_line_with(1, "", Rc::new("main".to_string()));
    assert_eq!(doc.text(), "a\n");
    assert_eq!(doc.segments(), &vec![segment(0, 2, "main"), segment(1, 2, "main")]);
}

#[test]
fn replace_inside_a_segment_widens_it() {
    let mut doc = FileIncludes::new("a\nb\nc", "main".to_string());
    doc.replace_line_with(1, "x\ny", Rc::new("one".to_string()));
    doc.replace_line_with(2, "s\nt\nu", Rc::new("two".to_string()));
    assert_eq!(doc.text(), "a\nx\ns\nt\nu\nc");
    assert_eq!(
        doc.segments(),
        &vec![segment(0, 6, "main"), segment(1, 5, "one"), segment(2, 5, "two")]
    );
}

#[test]
fn blank_line_leaves_the_segments() {
    let mut doc = FileIncludes::new("a\nb\nc", "main".to_string());
    doc.blank_line(1);
    assert_eq!(doc.text(), "a\n\nc");
    assert_eq!(doc.segments(), &vec![segment(0, 3, "main")]);
}

fn nested() -> FileIncludes {
    let mut doc = FileIncludes::new("m0\n#\nm2", "main".to_string());
    let util = FileIncludes::new("u0\nu1", "util".to_string());
    doc.replace_line_with_includes(1, util);
    doc
}

#[test]
fn splice_puts_the_lines_in_place_of_the_line() {
    let doc = nested();
    assert_eq!(doc.text(), "m0\nu0\nu1\nm2");
    assert_eq!(doc.line_count(), 4);
    let lines: Vec<&str> = doc.lines().iter().map(|s| s.as_str()).collect();
    assert_eq!(lines, vec!["m0", "u0", "u1", "m2"]);
    assert_eq!(doc.segments(), &vec![segment(0, 4, "main"), segment(1, 3, "util")]);
}

#[test]
fn splice_maps_lines_back_to_their_files() {
    let doc = nested();
    assert_eq!(origin(&doc, 0), Some(("main".to_string(), 0)));
    assert_eq!(origin(&doc, 1), Some(("util".to_string(), 0)));
    assert_eq!(origin(&doc, 2), Some(("util".to_string(), 1)));
    assert_eq!(origin(&doc, 3), Some(("main".to_string(), 2)));
    assert_eq!(origin(&doc, 4), None);
}

#[test]
fn splice_brings_the_segments_of_the_nested_document() {
    let mut inner = FileIncludes::new("i0\n#\ni2", "inner".to_string());
    inner.replace_line_with_includes(1, FileIncludes::new("d0\nd1\nd2", "deep".to_string()));
    let mut doc = FileIncludes::new("m0\nm1\n#\nm3", "main".to_string());
    doc.replace_line_with_includes(2, inner);
    assert_eq!(doc.text(), "m0\nm1\ni0\nd0\nd1\nd2\ni2\nm3");
    assert_eq!(
        doc.segments(),
        &vec![segment(0, 8, "main"), segment(2, 7, "inner"), segment(3, 6, "deep")]
    );
    assert_eq!(origin(&doc, 1), Some(("main".to_string(), 1)));
    assert_eq!(origin(&doc, 2), Some(("inner".to_string(), 0)));
    assert_eq!(origin(&doc, 3), Some(("deep".to_string(), 0)));
    assert_eq!(origin(&doc, 5), Some(("deep".to_string(), 2)));
    assert_eq!(origin(&doc, 6), Some(("inner".to_string(), 2)));
    assert_eq!(origin(&doc, 7), Some(("main".to_string(), 3)));
}

#[test]
fn two_splices_in_one_file_both_count() {
    let mut doc = FileIncludes::new("m0\n#a\nm2\n#b\nm4", "main".to_string());
    doc.replace_line_with_includes(1, FileIncludes::new("a0\na1\na2", "a".to_string()));
    doc.replace_line_with_includes(5, FileIncludes::new("b0\nb1", "b".to_string()));
    assert_eq!(doc.text(), "m0\na0\na1\na2\nm2\nb0\nb1\nm4");
    assert_eq!(origin(&doc, 0), Some(("main".to_string(), 0)));
    assert_eq!(origin(&doc, 2), Some(("a".to_string(), 1)));
    assert_eq!(origin(&doc, 4), Some(("main".to_string(), 2)));
    assert_eq!(origin(&doc, 5), Some(("b".to_string(), 0)));
    assert_eq!(origin(&doc, 6), Some(("b".to_string(), 1)));
    assert_eq!(origin(&doc, 7), Some(("main".to_string(), 4)));
}

#[test]
fn last_segment_at_prefers_the_one_added_last() {
    let doc = nested();
    assert_eq!(doc.last_segment_at(0), Some(segment(0, 4, "main")));
    assert_eq!(doc.last_segment_at(1), Some(segment(1, 3, "util")));
    assert_eq!(doc.last_segment_at(2), Some(segment(1, 3, "util")));
    assert_eq!(doc.last_segment_at(3), Some(segment(0, 4, "main")));
    assert_eq!(doc.last_segment_at(4), None);
}

#[test]
fn all_segments_at_lists_outermost_first() {
    let doc = nested();
    assert_eq!(doc.all_segments_at(0), vec![segment(0, 4, "main")]);
    assert_eq!(doc.all_segments_at(1), vec![segment(0, 4, "main"), segment(1, 3, "util")]);
    assert_eq!(doc.all_segments_at(9), Vec::<Segment>::new());
}

#[test]
fn parent_is_the_closest_enclosing_segment_before() {
    let mut inner = FileIncludes::new("i0\n#\ni2", "inner".to_string());
    inner.replace_line_with_includes(1, FileIncludes::new("d0", "deep".to_string()));
    let mut doc = FileIncludes::new("m0\n#\nm2", "main".to_string());
    doc.replace_line_with_includes(1, inner);
    assert_eq!(
        doc.segments(),
        &vec![segment(0, 5, "main"), segment(1, 4, "inner"), segment(2, 3, "deep")]
    );
    assert_eq!(doc.get_segment_parent(segment(2, 3, "deep")), Some(segment(1, 4, "inner")));
    assert_eq!(doc.get_segment_parent(segment(1, 4, "inner")), Some(segment(0, 5, "main")));
    assert_eq!(doc.get_segment_parent(segment(0, 5, "main")), None);
    assert_eq!(doc.get_segment_parent(segment(7, 8, "nowhere")), None);
    assert_eq!(doc.get_segment_parent(segment(2, 3, "other")), None);
}

#[test]
fn all_used_files_names_each_file_once() {
    let doc = nested();
    let mut files = doc.all_used_files();
    files.sort();
    assert_eq!(files, vec!["main", "util"]);
    let mut twice = FileIncludes::new("a\nb\nc", "main".to_string());
    twice.replace_line_with(0, "x", Rc::new("part".to_string()));
    twice.replace_line_with(2, "y", Rc::new("part".to_string()));
    assert_eq!(twice.all_used_files(), vec!["main", "part"]);
}

#[test]
fn a_one_line_file_spliced_into_a_one_line_file() {
    let mut doc = FileIncludes::new("#", "main".to_string());
    doc.replace_line_with_includes(0, FileIncludes::new("only", "util".to_string()));
    assert_eq!(doc.text(), "only");
    assert_eq!(doc.segments(), &vec![segment(0, 1, "main"), segment(0, 1, "util")]);
    assert_eq!(origin(&doc, 0), Some(("util".to_string(), 0)));
}

#[test]
fn clone_is_a_document_of_its_own() {
    let doc = nested();
    let mut copy = doc.clone();
    copy.blank_line(0);
    assert_eq!(doc.text(), "m0\nu0\nu1\nm2");
    assert_eq!(copy.text(), "\nu0\nu1\nm2");
    assert_eq!(copy.segments(), doc.segments());
}

#[test]
fn well_formedness_is_kept_by_every_operation() {
    let mut doc = FileIncludes::new("a\nb\nc", "main".to_string());
    assert!(doc.is_well_formed());
    doc.replace_line_with(1, "x\ny", Rc::new("one".to_string()));
    assert!(doc.is_well_formed());
    doc.blank_line(0);
    assert!(doc.is_well_formed());
    doc.replace_line_with_includes(3, nested());
    assert!(doc.is_well_formed());
    assert_eq!(doc.text(), "\nx\ny\nm0\nu0\nu1\nm2");
    assert!(doc.clone().is_well_formed());
}

#[test]
fn replaced_lines_come_from_the_file_given() {
    let mut doc = FileIncludes::new("a\nb\nc", "main".to_string());
    doc.replace_line_with(1, "x\ny\nz", Rc::new("part".to_string()));
    assert_eq!(origin(&doc, 0), Some(("main".to_string(), 0)));
    assert_eq!(origin(&doc, 1), Some(("part".to_string(), 0)));
    assert_eq!(origin(&doc, 2), Some(("part".to_string(), 1)));
    assert_eq!(origin(&doc, 3), Some(("part".to_string(), 2)));
    assert_eq!(origin(&doc, 4), Some(("main".to_string(), 2)));
}
