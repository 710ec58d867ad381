use launchpath::resolver::parse_json_path_from_args;

fn args(list: &[&str]) -> Vec<String> {
    list.iter().map(|s| s.to_string()).collect()
}

#[test]
fn no_json_token_resolves_to_nothing() {
    let a = args(&["--help", "notes.txt", "readme.md", "-v"]);
    assert_eq!(parse_json_path_from_args(&a), None);
}

#[test]
fn empty_list_resolves_to_nothing() {
    let a: Vec<String> = Vec::new();
    assert_eq!(parse_json_path_from_args(&a), None);
}

#[test]
fn empty_and_whitespace_tokens_are_skipped() {
    let a = args(&["", "   ", "\t"]);
    assert_eq!(parse_json_path_from_args(&a), None);
}

#[test]
fn drive_letter_path_is_returned_as_given() {
    // The file does not exist, so the path comes back as given.
    let a = args(&["C:\\Users\\a\\doc.json"]);
    assert_eq!(
        parse_json_path_from_args(&a),
        Some("C:\\Users\\a\\doc.json".to_string())
    );
}

#[test]
fn drive_letter_path_with_forward_slashes() {
    let a = args(&["D:/data/config.json"]);
    assert_eq!(
        parse_json_path_from_args(&a),
        Some("D:/data/config.json".to_string())
    );
}

#[test]
fn file_url_resolves_to_local_path() {
    let a = args(&["file:///tmp/launch-example.json"]);
    assert_eq!(
        parse_json_path_from_args(&a),
        Some("/tmp/launch-example.json".to_string())
    );
}

#[test]
fn file_url_with_percent_encoding_is_decoded() {
    let a = args(&["file:///tmp/with%20space.json"]);
    assert_eq!(
        parse_json_path_from_args(&a),
        Some("/tmp/with space.json".to_string())
    );
}

#[test]
fn flags_are_skipped_and_extension_case_is_ignored() {
    let a = args(&["--flag", "-x", "report.JSON"]);
    assert_eq!(parse_json_path_from_args(&a), Some("report.JSON".to_string()));
}

#[test]
fn mixed_case_extension_matches() {
    let a = args(&["report.Json"]);
    assert_eq!(parse_json_path_from_args(&a), Some("report.Json".to_string()));
    let b = args(&["report.json"]);
    assert_eq!(parse_json_path_from_args(&b), Some("report.json".to_string()));
}

#[test]
fn non_json_first_argument_does_not_short_circuit() {
    let a = args(&["first.txt", "second.json"]);
    assert_eq!(parse_json_path_from_args(&a), Some("second.json".to_string()));
}

#[test]
fn first_matching_argument_wins() {
    let a = args(&["a.json", "b.json"]);
    assert_eq!(parse_json_path_from_args(&a), Some("a.json".to_string()));
}

#[test]
fn quoted_path_with_spaces_is_unwrapped() {
    let a = args(&["\"C:/x y/f.json\""]);
    assert_eq!(parse_json_path_from_args(&a), Some("C:/x y/f.json".to_string()));
}

#[test]
fn surrounding_whitespace_is_trimmed() {
    let a = args(&["  report.json  "]);
    assert_eq!(parse_json_path_from_args(&a), Some("report.json".to_string()));
}

#[test]
fn token_starting_with_dash_is_a_flag_even_with_json_suffix() {
    let a = args(&["-config.json"]);
    assert_eq!(parse_json_path_from_args(&a), None);
}

#[test]
fn hidden_file_named_json_matches_by_fallback() {
    // `.json` alone is a hidden-file name without an extension, so the
    // primary rule rejects it; the path separator lets the fallback
    // rule accept it.
    let a = args(&["/tmp/.json"]);
    assert_eq!(parse_json_path_from_args(&a), Some("/tmp/.json".to_string()));
}

#[test]
fn bare_hidden_json_without_path_hint_does_not_match() {
    let a = args(&[".json"]);
    assert_eq!(parse_json_path_from_args(&a), None);
}

#[test]
fn drive_path_containing_scheme_separator_is_not_url_parsed() {
    let a = args(&["C://data/a.json"]);
    assert_eq!(parse_json_path_from_args(&a), Some("C://data/a.json".to_string()));
}

#[test]
fn non_file_url_falls_back_to_plain_path_rule() {
    // The URL conversion fails for a non-local host, and the token
    // itself still has a `json` extension, so it is returned as is.
    let a = args(&["http://example.com/a.json"]);
    assert_eq!(
        parse_json_path_from_args(&a),
        Some("http://example.com/a.json".to_string())
    );
}

#[test]
fn json_in_the_middle_of_a_name_does_not_match() {
    let a = args(&["a.json.txt", "jsonfile", "b.jsonx"]);
    assert_eq!(parse_json_path_from_args(&a), None);
}

#[test]
fn existing_file_url_need_not_exist_on_disk() {
    // Resolution is pure: no filesystem access, so a path to a file
    // that does not exist is still returned.
    let a = args(&["/nonexistent/dir/launch.json"]);
    assert_eq!(
        parse_json_path_from_args(&a),
        Some("/nonexistent/dir/launch.json".to_string())
    );
}

#[test]
fn adversarial_tokens_yield_no_match_and_no_panic() {
    let a = args(&["\"\"", "---", "://", ":", "\\", "/", "..", ".", "a:b:c", "d.JSONs"]);
    assert_eq!(parse_json_path_from_args(&a), None);
}
