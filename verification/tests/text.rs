use puzzles::common::text::{chars_eq, chars_of, find_char, parse_isize, push_char, push_decimal};

fn chars(s: &str) -> Vec<char> {
    s.chars().collect()
}

#[test]
fn decimal_text_is_written_like_format() {
    for n in [0isize, 7, 10, 42, -1, -305, isize::MAX, isize::MIN] {
        let mut s = String::from("n=");
        push_decimal(&mut s, n);
        assert_eq!(s, format!("n={n}"));
    }
}

#[test]
fn decimal_text_is_read_like_from_str_radix() {
    for t in ["0", "+5", "-0", "0042", "-17", "9223372036854775807", "-9223372036854775808",
        "9223372036854775808", "-9223372036854775809", "", "+", "-", "1a", " 1", "--1"] {
        assert_eq!(parse_isize(&chars(t)), isize::from_str_radix(t, 10).ok(), "{t}");
    }
}

#[test]
fn decimal_text_round_trips() {
    for n in [0isize, 5, -5, 123456, isize::MIN] {
        let mut s = String::new();
        push_decimal(&mut s, n);
        assert_eq!(parse_isize(&chars(&s)), Some(n));
    }
}

#[test]
fn characters_are_pushed_and_found() {
    let mut s = String::from("ab");
    push_char(&mut s, 'c');
    assert_eq!(s, "abc");
    assert_eq!(chars_of("a/b"), vec!['a', '/', 'b']);
    assert_eq!(find_char(&chars("ab/c/d"), '/'), Some(2));
    assert_eq!(find_char(&chars("abc"), '/'), None);
    assert!(chars_eq(&chars("xy"), &chars("xy")));
    assert!(!chars_eq(&chars("xy"), &chars("xz")));
    assert!(!chars_eq(&chars("xy"), &chars("x")));
}
