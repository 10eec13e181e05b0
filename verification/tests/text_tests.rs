use terax_index::text::{compare_chars, is_blank, str_eq, Relation};

#[test]
fn compare_orders_like_str() {
    let pairs = [("a", "b"), ("a", "ab"), ("ab", "b"), ("", "a"), ("z", "é"), ("Z", "a")];
    for (x, y) in pairs {
        let xs: Vec<char> = x.chars().collect();
        let ys: Vec<char> = y.chars().collect();
        assert_eq!(compare_chars(&xs, &ys), Relation::Less, "{x} {y}");
        assert_eq!(compare_chars(&ys, &xs), Relation::Greater);
        assert_eq!(x < y, true);
    }
    let s: Vec<char> = "same".chars().collect();
    assert_eq!(compare_chars(&s, &s), Relation::Equal);
}

#[test]
fn blank_is_what_trim_empties() {
    for s in ["", " ", "\t\n\r", "\u{3000}\u{00A0}", "\u{2028}"] {
        assert!(is_blank(s));
        assert!(s.trim().is_empty());
    }
    for s in ["a", " a ", "\u{200B}"] {
        assert!(!is_blank(s));
        assert_eq!(s.trim().is_empty(), false);
    }
}

#[test]
fn str_eq_compares_text() {
    assert!(str_eq("abc", "abc"));
    assert!(!str_eq("abc", "abd"));
    assert!(!str_eq("abc", "ab"));
}
