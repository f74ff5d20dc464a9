use haproxy_autoconf::uid::{digest_input, sort_domains, Uid};

fn strings(items: &[&str]) -> Vec<String> {
    items.iter().map(|s| s.to_string()).collect()
}

#[test]
fn uid_is_independent_of_order() {
    let a = Uid::new(&strings(&["b.com", "a.com"]));
    let b = Uid::new(&strings(&["a.com", "b.com"]));
    assert_eq!(a.to_string(), b.to_string());
}

#[test]
fn uid_of_two_domains_is_digest_of_sorted_list() {
    let uid = Uid::new(&strings(&["b.com", "a.com"]));
    assert_eq!(uid.as_str(), "d517e40e4dbe68ffda957fd741aa96ddda0d429d92dd9cc886e5d5dc56d187d0");
}

#[test]
fn uid_differs_for_different_sets() {
    let a = Uid::new(&strings(&["a.com"]));
    let b = Uid::new(&strings(&["a.com", "b.com"]));
    assert_ne!(a.to_string(), b.to_string());
    assert_eq!(a.as_str(), "b87925535cc657b80fbf0e3a6235110a243f800749018520d7e08915d5e7e4bf");
}

#[test]
fn uid_of_no_domains_is_digest_of_empty_text() {
    let uid = Uid::new(&Vec::new());
    assert_eq!(uid.as_str(), "e3b0c44298fc1c149afbf4c8996fb92427ae41e4649b934ca495991b7852b855");
}

#[test]
fn uid_is_sixty_four_lowercase_hex_digits() {
    let uid = Uid::new(&strings(&["x.org", "y.org", "z.org"]));
    let s = uid.to_string();
    assert_eq!(s.len(), 64);
    assert!(s.chars().all(|c| c.is_ascii_digit() || ('a'..='f').contains(&c)));
}

#[test]
fn digest_input_sorts_and_separates() {
    let input = digest_input(&strings(&["c.net", "a.net", "b.net"]));
    assert_eq!(input, "a.net,b.net,c.net,");
}

#[test]
fn digest_input_of_no_domains_is_empty() {
    assert_eq!(digest_input(&Vec::new()), "");
}

#[test]
fn digest_input_keeps_duplicates() {
    let input = digest_input(&strings(&["a", "a"]));
    assert_eq!(input, "a,a,");
}

#[test]
fn sort_domains_orders_by_characters() {
    let sorted = sort_domains(&strings(&["b", "ab", "a", "B", "é", "abc"]));
    assert_eq!(sorted, strings(&["B", "a", "ab", "abc", "b", "é"]));
}

#[test]
fn sort_domains_keeps_the_input() {
    let input = strings(&["z", "y"]);
    let sorted = sort_domains(&input);
    assert_eq!(input, strings(&["z", "y"]));
    assert_eq!(sorted, strings(&["y", "z"]));
}
