use ruster::headers::parse_headers;

fn lookup(pairs: &[(String, String)], name: &str) -> Option<String> {
    pairs
        .iter()
        .find(|(k, _)| k == name)
        .map(|(_, v)| v.clone())
}

#[test]
fn should_correctly_parse_headers() {
    let headers = vec![
        "Content-Type: application/json".to_string(),
        "Accept: */*".to_string(),
    ];

    let parsed_headers = parse_headers(&headers);

    assert_eq!(parsed_headers.len(), 2);
    assert_eq!(
        lookup(&parsed_headers, "Content-Type"),
        Some("application/json".to_string())
    );
    assert_eq!(lookup(&parsed_headers, "Accept"), Some("*/*".to_string()));
}

#[test]
fn parsing_stops_at_the_first_empty_line() {
    let headers = vec![
        "Host: example".to_string(),
        "".to_string(),
        "Body-Not-A-Header: nope".to_string(),
    ];

    let parsed_headers = parse_headers(&headers);

    assert_eq!(parsed_headers.len(), 1);
    assert_eq!(lookup(&parsed_headers, "Host"), Some("example".to_string()));
}

#[test]
fn later_occurrences_of_a_name_win() {
    let headers = vec![
        "Accept: text/plain".to_string(),
        "Accept: application/json".to_string(),
    ];

    let parsed_headers = parse_headers(&headers);

    assert_eq!(parsed_headers.len(), 1);
    assert_eq!(
        lookup(&parsed_headers, "Accept"),
        Some("application/json".to_string())
    );
}

#[test]
fn names_and_values_are_trimmed() {
    let headers = vec!["  Host  :  example.test  ".to_string()];

    let parsed_headers = parse_headers(&headers);

    assert_eq!(
        lookup(&parsed_headers, "Host"),
        Some("example.test".to_string())
    );
}

#[test]
fn value_ends_at_the_second_colon() {
    let headers = vec!["Referer: http://example".to_string()];

    let parsed_headers = parse_headers(&headers);

    assert_eq!(lookup(&parsed_headers, "Referer"), Some("http".to_string()));
}

#[test]
fn no_lines_parse_to_no_headers() {
    let headers: Vec<String> = Vec::new();

    assert_eq!(parse_headers(&headers).len(), 0);
}
