use shader_loader::preprocessor::FileIncludes;
use shader_loader::program::{annotate_line, parse_opengl_errors};

fn merged() -> FileIncludes {
    let mut doc = FileIncludes::new("m0\n#\nm2", "main".to_string());
    doc.replace_line_with_includes(1, FileIncludes::new("u0\nu1", "util".to_string()));
    doc
}

#[test]
fn a_line_of_an_included_file_names_the_trail() {
    let out = parse_opengl_errors("0(2) : error: foo".to_string(), &merged());
    assert_eq!(out, "File main included from\nutil | Line 1 | 0(2) : error: foo\n");
    assert!(out.contains("util"));
    assert!(out.contains("Line 1"));
    assert!(out.ends_with("0(2) : error: foo\n"));
}

#[test]
fn a_line_of_the_top_file_names_it_alone() {
    let out = parse_opengl_errors("0(3) : warning: bar".to_string(), &merged());
    assert_eq!(out, "File main | Line 2 | 0(3) : warning: bar\n");
    let first = parse_opengl_errors("12(0) : x".to_string(), &merged());
    assert_eq!(first, "File main | Line 0 | 12(0) : x\n");
}

#[test]
fn lines_without_a_position_pass_through() {
    let out = parse_opengl_errors("link failed\n0(1) : error: a\n\nnote".to_string(), &merged());
    assert_eq!(
        out,
        "link failed\nFile main included from\nutil | Line 0 | 0(1) : error: a\n\nnote\n"
    );
}

#[test]
fn every_line_ends_with_a_newline() {
    assert_eq!(parse_opengl_errors(String::new(), &merged()), "\n");
    assert_eq!(parse_opengl_errors("a\n".to_string(), &merged()), "a\n\n");
}

#[test]
fn a_line_out_of_range_stays_as_it_is() {
    let out = parse_opengl_errors("0(4) : error: beyond".to_string(), &merged());
    assert_eq!(out, "0(4) : error: beyond\n");
    let huge = parse_opengl_errors("0(99999999999999999999999999) : e".to_string(), &merged());
    assert_eq!(huge, "0(99999999999999999999999999) : e\n");
}

#[test]
fn digits_beyond_ascii_are_no_line_number() {
    let out = parse_opengl_errors("0(٢) : error".to_string(), &merged());
    assert_eq!(out, "0(٢) : error\n");
}

#[test]
fn the_position_may_stand_anywhere_in_the_line() {
    let out = parse_opengl_errors("ERROR: 0(1) : late".to_string(), &merged());
    assert_eq!(out, "File main included from\nutil | Line 0 | ERROR: 0(1) : late\n");
    let missing_space = parse_opengl_errors("0(1): tight".to_string(), &merged());
    assert_eq!(missing_space, "0(1): tight\n");
}

#[test]
fn annotate_line_goes_by_the_digits_given() {
    let doc = merged();
    assert_eq!(annotate_line("text", None, &doc), "text");
    assert_eq!(annotate_line("text", Some("3".to_string()), &doc), "File main | Line 2 | text");
    assert_eq!(
        annotate_line("text", Some("002".to_string()), &doc),
        "File main included from\nutil | Line 1 | text"
    );
    assert_eq!(annotate_line("text", Some("4".to_string()), &doc), "text");
    assert_eq!(annotate_line("text", Some("x".to_string()), &doc), "text");
    assert_eq!(annotate_line("text", Some(String::new()), &doc), "text");
}

#[test]
fn a_deep_trail_lists_every_file_on_the_way() {
    let mut inner = FileIncludes::new("i0\n#\ni2", "inner".to_string());
    inner.replace_line_with_includes(1, FileIncludes::new("d0\nd1", "deep".to_string()));
    let mut doc = FileIncludes::new("m0\n#", "main".to_string());
    doc.replace_line_with_includes(1, inner);
    let out = parse_opengl_errors("0(3) : e".to_string(), &doc);
    assert_eq!(out, "File main included from\ninner included from\ndeep | Line 1 | 0(3) : e\n");
}
