use minigrep::search;

fn owned(lines: Vec<&str>) -> Vec<String> {
    let mut r: Vec<String> = Vec::new();
    for l in lines {
        r.push(l.to_string());
    }
    r
}

#[test]
fn one_match() {
    let query = "hello";
    let contents = "\
Ello boy
How are you doing?
Person: hello";

    assert_eq!(owned(vec!["Person: hello"]), search(query, contents, false));
}

#[test]
fn no_match() {
    let query = "helloo";
    let contents = "\
Hello boy
How are you doing?
Person: hello";

    assert_eq!(0, search(query, contents, false).len());
}

#[test]
fn multi_match() {
    let query = "hello";
    let contents = "\
Hello boy
How are you doing?
Person: hello";

    assert_eq!(
        owned(vec!["Hello boy", "Person: hello"]),
        search(query, contents, false)
    );
}

#[test]
fn one_case_sensitive_match() {
    let query = "Hello";
    let contents = "\
Hello boy
How are you doing?
Person: hello";

    assert_eq!(owned(vec!["Hello boy"]), search(query, contents, true));
}

#[test]
fn empty_query_returns_every_line() {
    let contents = "first\nsecond\nthird";
    let expected = owned(vec!["first", "second", "third"]);
    assert_eq!(expected, search("", contents, true));
    assert_eq!(expected, search("", contents, false));
}

#[test]
fn empty_contents_returns_nothing() {
    assert_eq!(0, search("anything", "", true).len());
    assert_eq!(0, search("anything", "", false).len());
    assert_eq!(0, search("", "", false).len());
}

#[test]
fn query_longer_than_line_never_matches() {
    assert_eq!(0, search("abcdef", "abc\nde", true).len());
}

#[test]
fn folding_is_applied_to_both_sides() {
    // an uppercase query matches a lowercase line only through the fold
    let contents = "person: hello\nother";
    assert_eq!(
        owned(vec!["person: hello"]),
        search("HELLO", contents, false)
    );
    // and a lowercase query matches an uppercase line
    assert_eq!(
        owned(vec!["PERSON: HELLO", "other"]),
        search("o", "PERSON: HELLO\nother", false)
    );
}

#[test]
fn insensitive_matches_at_least_as_many() {
    let contents = "Hello boy\nHow are you doing?\nPerson: hello";
    let sensitive = search("Hello", contents, true);
    let insensitive = search("Hello", contents, false);
    assert!(sensitive.len() <= insensitive.len());
    assert_eq!(1, sensitive.len());
    assert_eq!(2, insensitive.len());
}

#[test]
fn crlf_line_endings_are_stripped() {
    let contents = "one\r\ntwo\r\nthree";
    assert_eq!(owned(vec!["one", "two", "three"]), search("", contents, true));
}

#[test]
fn trailing_newline_yields_no_empty_line() {
    assert_eq!(owned(vec!["one", "two"]), search("", "one\ntwo\n", true));
    assert_eq!(owned(vec!["one", "", "two"]), search("", "one\n\ntwo", true));
}

#[test]
fn line_with_repeated_occurrences_appears_once() {
    let contents = "echo echo echo\nquiet";
    assert_eq!(owned(vec!["echo echo echo"]), search("echo", contents, true));
}

#[test]
fn lines_keep_file_order() {
    let contents = "b match\na match\nc match";
    assert_eq!(
        owned(vec!["b match", "a match", "c match"]),
        search("match", contents, true)
    );
}
