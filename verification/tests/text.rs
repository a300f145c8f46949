use ssd_moe::text::{
    chars_of, contains, ends_with, find, join_path, parse_decimal, push_decimal, same_text, split,
    split_once, strip_prefix, strip_suffix,
};

fn text(s: &[char]) -> String {
    s.iter().collect()
}

#[test]
fn decimal_numbers() {
    assert_eq!(parse_decimal(&chars_of("0")), Some(0));
    assert_eq!(parse_decimal(&chars_of("0042")), Some(42));
    assert_eq!(parse_decimal(&chars_of("+7")), Some(7));
    assert_eq!(parse_decimal(&chars_of("18446744073709551615")), Some(usize::MAX));
    assert_eq!(parse_decimal(&chars_of("18446744073709551616")), None);
    for bad in ["", "+", "-1", "1a", " 1", "++1"] {
        assert_eq!(parse_decimal(&chars_of(bad)), None);
        assert!(bad.parse::<usize>().is_err());
    }
    for n in [0u64, 9, 10, 12345, u64::MAX] {
        let mut s = String::from("n=");
        push_decimal(&mut s, n);
        assert_eq!(s, format!("n={n}"));
    }
}

#[test]
fn parts_of_texts() {
    let s = chars_of("a.b..c");
    let parts: Vec<String> = split(&s, '.').iter().map(|p| text(p)).collect();
    assert_eq!(parts, vec!["a", "b", "", "c"]);
    let (x, y) = split_once(&s, '.').unwrap();
    assert_eq!((text(x), text(y)), ("a".to_string(), "b..c".to_string()));
    assert!(split_once(&s, '/').is_none());
    assert_eq!(find(&s, ".."), Some(3));
    assert_eq!(find(&s, "d"), None);
    assert_eq!(find(&s, ""), Some(0));
    assert_eq!(text(strip_prefix(&s, "a.").unwrap()), "b..c");
    assert!(strip_prefix(&s, "b").is_none());
    assert_eq!(text(strip_suffix(&s, ".c").unwrap()), "a.b.");
    assert!(strip_suffix(&s, "b").is_none());
    assert!(contains(&s, "b.") && !contains(&s, "bb"));
    assert!(ends_with(&s, ".c") && !ends_with(&s, "b"));
    assert!(same_text(&s, "a.b..c") && !same_text(&s, "a.b..") && !same_text(&s, "a.b..d"));
}

#[test]
fn joined_paths() {
    for (base, file) in [("a", "b"), ("a/", "b"), ("", "b"), ("a", "/b"), ("a", ""), ("/", "b/c")] {
        let expected = std::path::Path::new(base).join(file);
        assert_eq!(join_path(base, file), expected.to_str().unwrap());
    }
}
