use minigrep::Config;

fn tokens(words: Vec<&str>) -> Vec<String> {
    let mut r: Vec<String> = Vec::new();
    for w in words {
        r.push(w.to_string());
    }
    r
}

#[test]
fn too_few_tokens_fail_with_usage() {
    let args = tokens(vec!["prog", "onlyquery"]);
    let r = Config::from(&args);
    assert!(r.is_err());
    assert_eq!(
        "Syntax: prog <string to search> <filename> [--case_sensitive]",
        r.unwrap_err()
    );
}

#[test]
fn program_name_alone_fails() {
    let args = tokens(vec!["minigrep"]);
    let r = Config::from(&args);
    assert!(r.is_err());
    assert_eq!(
        "Syntax: minigrep <string to search> <filename> [--case_sensitive]",
        r.unwrap_err()
    );
}

#[test]
fn three_tokens_default_to_case_insensitive() {
    let args = tokens(vec!["prog", "needle", "file.txt"]);
    let c = Config::from(&args).unwrap();
    assert_eq!("needle", c.query);
    assert_eq!("file.txt", c.filename);
    assert!(!c.case_sensitive);
}

#[test]
fn flag_enables_case_sensitive() {
    let args = tokens(vec!["prog", "x", "f.txt", "--case_sensitive"]);
    let c = Config::from(&args).unwrap();
    assert_eq!("x", c.query);
    assert_eq!("f.txt", c.filename);
    assert!(c.case_sensitive);
}

#[test]
fn flag_is_recognized_anywhere() {
    // the original looks for the flag among all tokens, so even the query
    // position counts
    let args = tokens(vec!["prog", "--case_sensitive", "f.txt", "y"]);
    let c = Config::from(&args).unwrap();
    assert!(c.case_sensitive);
}

#[test]
fn near_miss_token_is_not_the_flag() {
    let args = tokens(vec!["prog", "x", "f.txt", "--case_sensitivee"]);
    let c = Config::from(&args).unwrap();
    assert!(!c.case_sensitive);
}
