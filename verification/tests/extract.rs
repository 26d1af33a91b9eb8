use warp_subdomain::extract;
use warp_subdomain::sanitize_host;

#[test]
fn test_filter_with_port() {
    let value = extract("super-alloy.api.cilen.com:3000");
    assert_eq!(value, vec!["super-alloy".to_string(), "api".to_string()]);
}

#[test]
fn test_filter_without_port() {
    let value = extract("super-alloy.api.cilen.com");
    assert_eq!(value, vec!["super-alloy".to_string(), "api".to_string()]);
}

#[test]
fn test_filter_without_subdomain() {
    let value = extract("cilen.com");
    assert_eq!(value, Vec::<String>::new());
}

#[test]
fn single_label_has_no_subdomain() {
    assert_eq!(extract("com"), Vec::<String>::new());
}

#[test]
fn empty_input_has_no_subdomain() {
    assert_eq!(extract(""), Vec::<String>::new());
}

#[test]
fn port_alone_has_no_subdomain() {
    assert_eq!(extract(":3000"), Vec::<String>::new());
}

#[test]
fn deep_nesting_keeps_order() {
    assert_eq!(
        extract("a.b.c.d.example.com"),
        vec![
            "a".to_string(),
            "b".to_string(),
            "c".to_string(),
            "d".to_string(),
        ]
    );
}

#[test]
fn quotes_are_stripped() {
    assert_eq!(extract("\"api\".example.com"), vec!["api".to_string()]);
}

#[test]
fn backslashes_are_stripped() {
    assert_eq!(extract("\\api\\.example.com"), vec!["api".to_string()]);
}

#[test]
fn port_suffix_does_not_change_result() {
    assert_eq!(extract("api.example.com:8080"), extract("api.example.com"));
    assert_eq!(extract("cilen.com:443"), extract("cilen.com"));
}

#[test]
fn only_first_colon_starts_the_port() {
    assert_eq!(
        extract("a.b.example.com:3000:99"),
        vec!["a".to_string(), "b".to_string()]
    );
}

#[test]
fn three_labels_give_one_subdomain() {
    assert_eq!(extract("api.cilen.com"), vec!["api".to_string()]);
}

#[test]
fn sanitizer_removes_quotes_and_backslashes() {
    assert_eq!(sanitize_host("\"api\\\".example"), "api.example".to_string());
}

#[test]
fn sanitizer_is_idempotent_on_sanitized_input() {
    let once = sanitize_host("\"sup\\er\".example");
    let twice = sanitize_host(&once);
    assert_eq!(once, twice);
}

#[test]
fn non_ascii_labels_are_kept() {
    assert_eq!(
        extract("caf\u{e9}.example.com:80"),
        vec!["caf\u{e9}".to_string()]
    );
}
