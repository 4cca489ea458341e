use shader_loader::preprocessor::{get_protocol_and_path, split_at_scheme};
use shader_loader::Path;

fn names(path: &Path) -> Vec<&str> {
    path.components().iter().map(|s| s.as_str()).collect()
}

#[test]
fn scheme_is_split_off() {
    assert_eq!(
        get_protocol_and_path("file://dir1/dir2/myfile"),
        (Some("file"), "dir1/dir2/myfile")
    );
    assert_eq!(get_protocol_and_path("https://www.github.com"), (Some("https"), "www.github.com"));
    assert_eq!(get_protocol_and_path("res://foo"), (Some("res"), "foo"));
    assert_eq!(get_protocol_and_path("a_1://"), (Some("a_1"), ""));
}

#[test]
fn path_without_scheme_is_its_own_rest() {
    assert_eq!(get_protocol_and_path("dir/file.glsl"), (None, "dir/file.glsl"));
    assert_eq!(get_protocol_and_path(""), (None, ""));
    assert_eq!(get_protocol_and_path("://x"), (None, "://x"));
    assert_eq!(get_protocol_and_path("a/b://c"), (None, "a/b://c"));
    assert_eq!(get_protocol_and_path(" file://x"), (None, " file://x"));
}

#[test]
fn scheme_of_word_characters_beyond_ascii() {
    assert_eq!(get_protocol_and_path("données://x/y"), (Some("données"), "x/y"));
}

#[test]
fn cut_follows_the_lengths_of_the_match() {
    let cut = split_at_scheme("file://a", Some("file://".to_string()), Some("file".to_string()));
    assert_eq!(cut, (Some("file"), "a"));
    let uncut = split_at_scheme("file://a", None, None);
    assert_eq!(uncut, (None, "file://a"));
    let half = split_at_scheme("file://a", Some("file://".to_string()), None);
    assert_eq!(half, (None, "file://a"));
    let long = split_at_scheme("ab", Some("abcdef".to_string()), Some("a".to_string()));
    assert_eq!(long, (None, "ab"));
}

#[test]
fn normalization_drops_dots_and_resolves_parents() {
    let path = Path::new("a/./b/../c");
    assert_eq!(names(&path), vec!["a", "c"]);
    assert_eq!(path.protocol(), None);
    assert_eq!(path.to_string(), "a/c");
}

#[test]
fn normalization_drops_empty_components() {
    assert_eq!(names(&Path::new("/a//b/")), vec!["a", "b"]);
    assert_eq!(names(&Path::new("")), Vec::<&str>::new());
    assert_eq!(names(&Path::new("././.")), Vec::<&str>::new());
}

#[test]
fn backslash_separates_too() {
    assert_eq!(names(&Path::new("a\\b/c\\..\\d")), vec!["a", "b", "d"]);
}

#[test]
fn parent_of_nothing_is_nothing() {
    assert_eq!(names(&Path::new("../z")), vec!["z"]);
    assert_eq!(names(&Path::new("a/../../b")), vec!["b"]);
    assert_eq!(names(&Path::new("..")), Vec::<&str>::new());
}

#[test]
fn three_dots_are_a_name() {
    assert_eq!(names(&Path::new("a/.../b")), vec!["a", "...", "b"]);
}

#[test]
fn scheme_is_kept_and_written_out() {
    let path = Path::new("res://shaders/./lib/../main.frag");
    assert_eq!(path.protocol(), Some("res"));
    assert_eq!(names(&path), vec!["shaders", "main.frag"]);
    assert_eq!(path.to_string(), "res://shaders/main.frag");
    assert_eq!(Path::new("res://").to_string(), "res://");
}

#[test]
fn from_parts_takes_the_scheme_as_given() {
    let path = Path::from_parts(Some("mem"), "a/b/../c");
    assert_eq!(path.to_string(), "mem://a/c");
    let plain = Path::from_parts(None, "mem://a");
    assert_eq!(plain.protocol(), None);
    assert_eq!(names(&plain), vec!["mem:", "a"]);
}

#[test]
fn join_appends_the_components_of_the_tail() {
    let joined = Path::new("x/y").join("z/w");
    assert_eq!(names(&joined), vec!["x", "y", "z", "w"]);
    let from_string = Path::new("x/y").join(String::from("./z"));
    assert_eq!(names(&from_string), vec!["x", "y", "z"]);
    let from_path = Path::new("s://x").join(Path::new("y"));
    assert_eq!(from_path.to_string(), "s://x/y");
}

#[test]
fn join_normalizes_the_tail_by_itself() {
    let joined = Path::new("x/y").join("../z");
    assert_eq!(names(&joined), vec!["x", "y", "z"]);
}

#[test]
fn join_path_keeps_the_scheme_of_the_base() {
    let base = Path::new("pack://a");
    let joined = base.join_path(&Path::new("b/c"));
    assert_eq!(joined.protocol(), Some("pack"));
    assert_eq!(names(&joined), vec!["a", "b", "c"]);
    assert_eq!(names(&base), vec!["a"]);
}

#[test]
fn pop_hands_out_the_last_component() {
    let mut path = Path::new("a/b");
    assert_eq!(path.pop(), Some("b".to_string()));
    assert_eq!(path.pop(), Some("a".to_string()));
    assert_eq!(path.pop(), None);
    assert_eq!(names(&path), Vec::<&str>::new());
}

#[test]
fn dirname_leaves_the_path_alone() {
    let path = Path::new("file://a/b/c.glsl");
    let dir = path.dirname();
    assert_eq!(dir.to_string(), "file://a/b");
    assert_eq!(path.to_string(), "file://a/b/c.glsl");
    assert_eq!(Path::new("c.glsl").dirname().to_string(), "");
    assert_eq!(Path::new("").dirname().to_string(), "");
}

#[test]
fn clone_is_equal_in_every_part() {
    let path = Path::new("res://a/b");
    let copy = path.clone();
    assert_eq!(copy.protocol(), path.protocol());
    assert_eq!(names(&copy), names(&path));
}
