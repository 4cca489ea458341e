use std::rc::Rc;

use shader_loader::preprocessor::{
    check_content, has_file, include_target, mark_used, FileIncludes, FileLoader, Segment,
};
use shader_loader::Path;

fn part(start_line: usize, end_line: usize, file: &str) -> Segment {
    Segment { start_line, end_line, original_file: Rc::new(file.to_string()) }
}

fn source_of(doc: &FileIncludes, line: usize) -> Option<(String, usize)> {
    doc.file_and_line_at(line).map(|(file, local)| ((*file).clone(), local))
}

fn shelf(path: &str) -> Result<String, String> {
    match path {
        "main" => Ok("m0\n#include_once \"util\"\nm2".to_string()),
        "util" => Ok("u0\nu1".to_string()),
        "plain" => Ok("no directive here\n// include_once is only a word\n".to_string()),
        "twice" => Ok("#include_once \"util\"\nmiddle\n#include_once \"util\"".to_string()),
        "left" => Ok("L\n#include_once <shared>".to_string()),
        "right" => Ok("#pragma include_once \"shared\"\nR".to_string()),
        "shared" => Ok("S0\nS1\nS2".to_string()),
        "diamond" => Ok("#include_once \"left\"\n#include_once \"right\"\nend".to_string()),
        "self" => Ok("before\n#include_once \"self\"\nafter".to_string()),
        "ping" => Ok("#include_once \"pong\"\nping".to_string()),
        "pong" => Ok("#include_once \"ping\"\npong".to_string()),
        "dir/entry" => Ok("#include_once \"sub/leaf\"\nentry".to_string()),
        "dir/sub/leaf" => Ok("#include_once \"twig\"\nleaf".to_string()),
        "dir/sub/twig" => Ok("twig".to_string()),
        "far" => Ok("#include_once \"res://foo\"\nfar".to_string()),
        "broken" => Ok("ok\n#include_once \"missing\"".to_string()),
        "hollow" => Ok("#include_once \"empty\"".to_string()),
        "empty" => Ok(String::new()),
        "odd" => Ok("  \t#include_once util\nx".to_string()),
        _ => Err(format!("no such file: {path}")),
    }
}

fn resources(path: &str) -> Result<String, String> {
    if path == "foo" {
        Ok("baz".to_owned())
    } else {
        Err("File does not exists".to_owned())
    }
}

fn loader() -> FileLoader {
    FileLoader::new(shelf)
}

#[test]
fn a_file_without_directives_is_loaded_as_it_is() {
    let doc = loader().load_file("plain").unwrap();
    assert_eq!(doc.text(), "no directive here\n// include_once is only a word\n");
    assert_eq!(doc.segments(), &vec![part(0, 3, "plain")]);
    for line in 0..3 {
        assert_eq!(source_of(&doc, line), Some(("plain".to_string(), line)));
    }
}

#[test]
fn a_directive_is_replaced_by_the_file_it_names() {
    let doc = loader().load_file("main").unwrap();
    assert_eq!(doc.text(), "m0\nu0\nu1\nm2");
    assert_eq!(doc.line_count(), 4);
    assert_eq!(doc.segments(), &vec![part(0, 4, "main"), part(1, 3, "util")]);
}

#[test]
fn merged_lines_map_back_to_file_and_line() {
    let doc = loader().load_file("main").unwrap();
    assert_eq!(source_of(&doc, 0), Some(("main".to_string(), 0)));
    assert_eq!(source_of(&doc, 1), Some(("util".to_string(), 0)));
    assert_eq!(source_of(&doc, 2), Some(("util".to_string(), 1)));
    assert_eq!(source_of(&doc, 3), Some(("main".to_string(), 2)));
}

#[test]
fn used_files_of_a_nested_load() {
    let doc = loader().load_file("main").unwrap();
    let mut files = doc.all_used_files();
    files.sort();
    assert_eq!(files, vec!["main", "util"]);
}

#[test]
fn a_file_named_twice_is_taken_in_once() {
    let doc = loader().load_file("twice").unwrap();
    assert_eq!(doc.text(), "u0\nu1\nmiddle\n");
    assert_eq!(doc.segments(), &vec![part(0, 4, "twice"), part(0, 2, "util")]);
    assert_eq!(source_of(&doc, 2), Some(("twice".to_string(), 1)));
    assert_eq!(source_of(&doc, 3), Some(("twice".to_string(), 2)));
}

#[test]
fn a_file_named_by_two_files_is_taken_in_once() {
    let doc = loader().load_file("diamond").unwrap();
    assert_eq!(doc.text(), "L\nS0\nS1\nS2\n\nR\nend");
    assert_eq!(
        doc.segments(),
        &vec![
            part(0, 7, "diamond"),
            part(0, 4, "left"),
            part(1, 4, "shared"),
            part(4, 6, "right"),
        ]
    );
    assert_eq!(source_of(&doc, 4), Some(("right".to_string(), 0)));
    assert_eq!(source_of(&doc, 5), Some(("right".to_string(), 1)));
    assert_eq!(source_of(&doc, 6), Some(("diamond".to_string(), 2)));
    assert_eq!(doc.all_used_files(), vec!["diamond", "left", "shared", "right"]);
}

#[test]
fn a_file_that_names_itself_is_not_taken_in_again() {
    let doc = loader().load_file("self").unwrap();
    assert_eq!(doc.text(), "before\n\nafter");
    assert_eq!(doc.segments(), &vec![part(0, 3, "self")]);
}

#[test]
fn two_files_that_name_each_other_end() {
    let doc = loader().load_file("ping").unwrap();
    assert_eq!(doc.text(), "\npong\nping");
    assert_eq!(doc.segments(), &vec![part(0, 3, "ping"), part(0, 2, "pong")]);
}

#[test]
fn names_are_relative_to_the_directory_of_the_file() {
    let doc = loader().load_file("dir/entry").unwrap();
    assert_eq!(doc.text(), "twig\nleaf\nentry");
    assert_eq!(doc.all_used_files(), vec!["dir/entry", "dir/sub/leaf", "dir/sub/twig"]);
}

#[test]
fn a_name_with_a_scheme_is_taken_as_it_stands() {
    let mut loader = loader();
    loader.add_protocol("res".to_owned(), resources).unwrap();
    let doc = loader.load_file("far").unwrap();
    assert_eq!(doc.text(), "baz\nfar");
    assert_eq!(doc.segments(), &vec![part(0, 2, "far"), part(0, 1, "res://foo")]);
}

#[test]
fn a_directive_without_quotes_and_after_white_space() {
    let doc = loader().load_file("odd").unwrap();
    assert_eq!(doc.text(), "u0\nu1\nx");
}

#[test]
fn a_registered_scheme_serves_its_paths() {
    let mut loader = loader();
    loader.add_protocol("res".to_owned(), resources).unwrap();
    let my_file = loader.load_file("res://foo").unwrap();
    assert_eq!(my_file.text(), "baz");
    assert_eq!(my_file.segments(), &vec![part(0, 1, "res://foo")]);
    assert_eq!(loader.load_file("res://bar").err(), Some("File does not exists".to_string()));
}

#[test]
fn the_file_scheme_is_the_default() {
    let loader = loader();
    assert_eq!(loader.basic_load_file("util"), Ok("u0\nu1".to_string()));
    assert_eq!(loader.basic_load_file("file://util"), Ok("u0\nu1".to_string()));
    assert!(loader.get_protocol("file").is_some());
    assert!(loader.get_protocol("res").is_none());
    assert_eq!(loader.get_protocol("file").unwrap().load("util"), Ok("u0\nu1".to_string()));
}

#[test]
fn a_scheme_is_registered_once() {
    let mut loader = loader();
    assert_eq!(loader.add_protocol("res".to_owned(), resources), Ok(()));
    assert_eq!(loader.add_protocol("res".to_owned(), shelf), Err("Protocol is already added"));
    assert_eq!(loader.add_protocol("file".to_owned(), resources), Err("Protocol is already added"));
    assert_eq!(loader.basic_load_file("res://foo"), Ok("baz".to_string()));
    assert_eq!(loader.basic_load_file("main").is_ok(), true);
}

#[test]
fn an_unknown_scheme_fails() {
    let loader = loader();
    assert_eq!(
        loader.basic_load_file("zip://a/b"),
        Err("Unsupported protocol: zip (zip://a/b)".to_string())
    );
    assert_eq!(
        loader.load_file("zip://a/b").err(),
        Some("Unsupported protocol: zip (zip://a/b)".to_string())
    );
}

#[test]
fn an_empty_file_fails() {
    let loader = loader();
    let message = "Empty files (empty) are unsupported because of technical reasons, sorry :(";
    assert_eq!(loader.basic_load_file("empty"), Err(message.to_string()));
    assert_eq!(loader.load_file("empty").err(), Some(message.to_string()));
    assert_eq!(loader.load_file("hollow").err(), Some(message.to_string()));
}

#[test]
fn a_failing_backend_fails_the_load() {
    let loader = loader();
    assert_eq!(loader.basic_load_file("nothing"), Err("no such file: nothing".to_string()));
    assert_eq!(loader.load_file("nothing").err(), Some("no such file: nothing".to_string()));
    assert_eq!(loader.load_file("broken").err(), Some("no such file: missing".to_string()));
}

#[test]
fn used_files_are_threaded_through() {
    let loader = loader();
    let mut used = vec!["util".to_string()];
    let doc = loader.load_file_inner("main", &mut used).unwrap();
    assert_eq!(doc.text(), "m0\n\nm2");
    assert_eq!(used, vec!["util".to_string(), "main".to_string()]);
    let mut fresh = Vec::new();
    let full = loader.load_file_inner("main", &mut fresh).unwrap();
    assert_eq!(full.text(), "m0\nu0\nu1\nm2");
    assert_eq!(fresh, vec!["main".to_string(), "util".to_string()]);
}

#[test]
fn used_files_keep_what_was_seen_before_a_failure() {
    let loader = loader();
    let mut used = Vec::new();
    assert!(loader.load_file_inner("broken", &mut used).is_err());
    assert_eq!(used, vec!["broken".to_string(), "missing".to_string()]);
}

#[test]
fn each_load_starts_with_no_file_used() {
    let loader = loader();
    assert_eq!(loader.load_file("util").unwrap().text(), "u0\nu1");
    assert_eq!(loader.load_file("main").unwrap().text(), "m0\nu0\nu1\nm2");
    assert_eq!(loader.load_file("main").unwrap().text(), "m0\nu0\nu1\nm2");
}

#[test]
fn check_content_rejects_empty_content_only() {
    assert_eq!(check_content("p", Ok("x".to_string())), Ok("x".to_string()));
    assert_eq!(check_content("p", Err("e".to_string())), Err("e".to_string()));
    assert_eq!(check_content("p", Err(String::new())), Err(String::new()));
    assert_eq!(
        check_content("a/b", Ok(String::new())),
        Err("Empty files (a/b) are unsupported because of technical reasons, sorry :(".to_string())
    );
}

#[test]
fn include_target_joins_relative_names() {
    let dir = Path::new("shaders/lib");
    assert_eq!(include_target(&dir, "util.glsl"), "shaders/lib/util.glsl");
    assert_eq!(include_target(&dir, "./sub//x"), "shaders/lib/sub/x");
    assert_eq!(include_target(&dir, "res://x/../y"), "res://x/../y");
    assert_eq!(include_target(&Path::new("res://pack"), "a"), "res://pack/a");
    assert_eq!(include_target(&Path::new(""), "a"), "a");
}

#[test]
fn directives_are_found_line_by_line() {
    let doc = FileIncludes::new(
        "#include_once \"a\"\nplain\n#pragma include_once <b/c>\n  #include_once d\n#include \"e\"",
        "main".to_string(),
    );
    let jobs = doc.directives(&Path::new("dir"));
    assert_eq!(
        jobs,
        vec![
            (0, "dir/a".to_string()),
            (2, "dir/b/c".to_string()),
            (3, "dir/d".to_string()),
        ]
    );
}

#[test]
fn used_file_helpers_keep_each_file_once() {
    let mut used = Vec::new();
    assert!(!has_file(&used, "a"));
    mark_used(&mut used, "a");
    mark_used(&mut used, "b");
    mark_used(&mut used, "a");
    assert_eq!(used, vec!["a".to_string(), "b".to_string()]);
    assert!(has_file(&used, "b"));
    assert!(!has_file(&used, "c"));
}

#[test]
fn every_merged_line_is_the_line_its_origin_names() {
    let loader = loader();
    for top in ["plain", "main", "twice", "diamond", "self", "ping", "dir/entry", "odd"] {
        let doc = loader.load_file(top).unwrap();
        for (at, line) in doc.lines().iter().enumerate() {
            let (file, local) = source_of(&doc, at).unwrap();
            let text = shelf(&file).unwrap();
            let source: Vec<&str> = text.split('\n').collect();
            assert!(local < source.len());
            if line != source[local] {
                assert_eq!(line, "");
                assert!(source[local].contains("include_once"));
            }
        }
    }
}

#[test]
fn documents_handed_out_are_well_formed() {
    let loader = loader();
    for top in ["plain", "main", "twice", "diamond", "self", "ping", "dir/entry", "odd"] {
        assert!(loader.load_file(top).unwrap().is_well_formed());
    }
}

#[test]
fn no_file_has_two_segments_after_a_load() {
    let loader = loader();
    for top in ["main", "twice", "diamond", "ping", "dir/entry"] {
        let doc = loader.load_file(top).unwrap();
        let files: Vec<&str> = doc.segments().iter().map(|s| s.original_file.as_str()).collect();
        assert_eq!(doc.all_used_files(), files);
        assert_eq!(files[0], top);
    }
}
