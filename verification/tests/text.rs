use propagation::text::{chars_of, compare_text, decimal_text, text_contains, to_lowercase, TextOrder};

#[test]
fn decimal_text_values() {
    assert_eq!(decimal_text(0), "0");
    assert_eq!(decimal_text(7), "7");
    assert_eq!(decimal_text(10), "10");
    assert_eq!(decimal_text(4021), "4021");
    assert_eq!(decimal_text(u32::MAX), "4294967295");
}

#[test]
fn text_contains_cases() {
    assert!(text_contains("Asio4All", "Asio"));
    assert!(text_contains("MyAsio", "Asio"));
    assert!(!text_contains("Wasapi", "Asio"));
    assert!(!text_contains("asio", "Asio"));
    assert!(!text_contains("Asi", "Asio"));
    assert!(text_contains("", ""));
    assert!(text_contains("Alsa", ""));
    assert!(text_contains("ÄsioÄ", "sio"));
}

#[test]
fn compare_text_cases() {
    let a = chars_of("abc");
    let b = chars_of("abd");
    let p = chars_of("ab");
    assert_eq!(compare_text(&a, &b), TextOrder::Less);
    assert_eq!(compare_text(&b, &a), TextOrder::Greater);
    assert_eq!(compare_text(&p, &a), TextOrder::Less);
    assert_eq!(compare_text(&a, &p), TextOrder::Greater);
    assert_eq!(compare_text(&a, &chars_of("abc")), TextOrder::Same);
    assert_eq!(compare_text(&chars_of(""), &chars_of("")), TextOrder::Same);
    assert_eq!(compare_text(&chars_of("Z"), &chars_of("a")), TextOrder::Less);
}

#[test]
fn chars_of_keeps_characters() {
    assert_eq!(chars_of("héllo"), vec!['h', 'é', 'l', 'l', 'o']);
    assert!(chars_of("").is_empty());
}

#[test]
fn to_lowercase_lowers() {
    assert_eq!(to_lowercase("Firefox.EXE"), "firefox.exe");
    assert_eq!(to_lowercase("ÄB"), "äb");
}
