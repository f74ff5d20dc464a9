use haproxy_autoconf::domains::parse_domains;

#[test]
fn parse_trims_each_domain() {
    assert_eq!(parse_domains("a.example.com, b.example.com"), vec!["a.example.com", "b.example.com"]);
}

#[test]
fn parse_drops_empty_entries() {
    assert_eq!(parse_domains(" , ,x.org ,, "), vec!["x.org"]);
}

#[test]
fn parse_of_empty_text_is_empty() {
    assert!(parse_domains("").is_empty());
}

#[test]
fn parse_keeps_order_and_duplicates() {
    assert_eq!(parse_domains("b.com,a.com,b.com"), vec!["b.com", "a.com", "b.com"]);
}

#[test]
fn parse_trims_unicode_white_space() {
    assert_eq!(parse_domains("\u{3000}a.com\t,\n b.com\u{a0}"), vec!["a.com", "b.com"]);
}

#[test]
fn parse_keeps_inner_white_space() {
    assert_eq!(parse_domains(" a b ,c"), vec!["a b", "c"]);
}
