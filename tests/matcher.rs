use droute::matcher::{split_chars, trim_chars, Domain};
use droute::text::same_chars;

fn chars(s: &str) -> Vec<char> {
    s.chars().collect()
}

#[test]
fn pattern_covers_itself_and_subdomains() {
    let mut m = Domain::new();
    m.insert("example.com");
    assert!(m.matches("example.com"));
    assert!(m.matches("www.example.com"));
    assert!(m.matches("a.b.example.com"));
    assert!(!m.matches("notexample.com"));
    assert!(!m.matches("example.com.evil.org"));
    assert!(!m.matches("com"));
}

#[test]
fn multibyte_labels_match() {
    let mut m = Domain::new();
    m.insert("baidu.com");
    assert!(m.matches("你好.store.www.baidu.com"));
    assert!(!m.matches("baidu.com.evil.com"));
}

#[test]
fn multibyte_pattern() {
    let mut m = Domain::new();
    m.insert("例子.测试");
    assert!(m.matches("www.例子.测试"));
    assert!(!m.matches("大例子.测试"));
}

#[test]
fn empty_matcher_matches_nothing() {
    let m = Domain::new();
    assert!(!m.matches("example.com"));
    assert!(!m.matches(""));
}

#[test]
fn insert_is_idempotent() {
    let mut m = Domain::new();
    m.insert("example.com");
    m.insert("example.com");
    assert!(m.matches("x.example.com"));
    assert!(!m.matches("example.org"));
}

#[test]
fn insert_multi_loads_each_line() {
    let mut m = Domain::new();
    m.insert_multi("apple.com\n  google.com \r\n\n\t\nexample.org");
    assert!(m.matches("www.apple.com"));
    assert!(m.matches("google.com"));
    assert!(m.matches("mail.google.com"));
    assert!(m.matches("example.org"));
    assert!(!m.matches("example.com"));
    assert!(!m.matches("  google.com "));
}

#[test]
fn insert_multi_twice_changes_nothing() {
    let text = "a.com\nb.com\n";
    let mut once = Domain::new();
    once.insert_multi(text);
    let mut twice = Domain::new();
    twice.insert_multi(text);
    twice.insert_multi(text);
    for n in ["a.com", "x.b.com", "c.com", "com", ""] {
        assert_eq!(once.matches(n), twice.matches(n));
    }
}

#[test]
fn blank_list_adds_nothing() {
    let mut m = Domain::new();
    m.insert_multi("\n \n\t\r\n");
    assert!(!m.matches("example.com"));
    assert!(!m.matches(" "));
}

#[test]
fn split_chars_keeps_empty_pieces() {
    assert_eq!(split_chars(&chars("a.b.c"), '.'), vec![chars("a"), chars("b"), chars("c")]);
    assert_eq!(split_chars(&chars(""), '.'), vec![chars("")]);
    assert_eq!(split_chars(&chars("a..b."), '.'), vec![chars("a"), chars(""), chars("b"), chars("")]);
}

#[test]
fn nested_patterns_stop_at_the_shortest() {
    let mut m = Domain::new();
    m.insert("www.example.com");
    assert!(!m.matches("example.com"));
    assert!(m.matches("a.www.example.com"));
    m.insert("example.com");
    assert!(m.matches("example.com"));
    assert!(m.matches("mail.example.com"));
}

#[test]
fn sibling_labels_branch() {
    let mut m = Domain::new();
    m.insert_multi("a.example.com
b.example.com
example.org");
    assert!(m.matches("x.a.example.com"));
    assert!(m.matches("b.example.com"));
    assert!(!m.matches("c.example.com"));
    assert!(!m.matches("example.com"));
    assert!(m.matches("example.org"));
}

#[test]
fn trim_strips_blanks_only_at_the_ends() {
    assert_eq!(trim_chars(&chars(" \t a b \r")), chars("a b"));
    assert_eq!(trim_chars(&chars("   ")), chars(""));
    assert_eq!(trim_chars(&chars("x")), chars("x"));
}

#[test]
fn same_chars_compares_contents() {
    assert!(same_chars(&chars("ab"), &chars("ab")));
    assert!(!same_chars(&chars("ab"), &chars("ac")));
    assert!(!same_chars(&chars("ab"), &chars("abc")));
}
