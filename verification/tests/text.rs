use ndown::text::{
    chars_of, find_seq, is_control, is_whitespace, len_utf8, matches_at, parse_u32_chars,
    push_chars, push_decimal, push_str, skip_ws, string_of, sub_chars, trim_chars,
    utf8_prefix_len,
};

#[test]
fn byte_lengths() {
    assert_eq!(len_utf8('a'), 1);
    assert_eq!(len_utf8('é'), 2);
    assert_eq!(len_utf8('€'), 3);
    assert_eq!(len_utf8('😀'), 4);
    let cs = chars_of("aé€");
    assert_eq!(utf8_prefix_len(&cs, 2), 3);
}

#[test]
fn char_classes() {
    assert!(is_whitespace(' '));
    assert!(is_whitespace('\u{3000}'));
    assert!(!is_whitespace('x'));
    assert!(is_control('\u{7}'));
    assert!(is_control('\u{85}'));
    assert!(!is_control('a'));
}

#[test]
fn slicing_and_pushing() {
    let cs = chars_of("hello");
    assert_eq!(string_of(&cs, 1, 4), "ell");
    assert_eq!(sub_chars(&cs, 3, 5), vec!['l', 'o']);
    let mut s = String::from(">");
    push_chars(&mut s, &cs, 0, 2);
    push_str(&mut s, "!");
    assert_eq!(s, ">he!");
}

#[test]
fn searching() {
    let cs = chars_of("  ab. cd. ");
    assert_eq!(skip_ws(&cs, 0), 2);
    let pat = ['.', ' '];
    assert_eq!(find_seq(&cs, &pat, 0), Some(4));
    assert_eq!(find_seq(&cs, &pat, 5), Some(8));
    assert_eq!(find_seq(&cs, &['x'], 0), None);
    assert!(matches_at(&cs, &['a', 'b'], 2));
    assert!(!matches_at(&cs, &['a', 'b'], 3));
    assert_eq!(trim_chars(&cs), (2, 9));
}

#[test]
fn decimals() {
    let mut s = String::new();
    push_decimal(&mut s, 0);
    s.push(' ');
    push_decimal(&mut s, 4294967295);
    assert_eq!(s, "0 4294967295");
}

#[test]
fn decimal_parses_back() {
    for n in [0u32, 7, 10, 123456, u32::MAX] {
        let mut s = String::new();
        push_decimal(&mut s, n);
        let cs = chars_of(&s);
        assert_eq!(parse_u32_chars(&cs, 0, cs.len()), Some(n));
    }
}

#[test]
fn parsing_numbers_like_from_str() {
    let cs = chars_of("+42 x 4294967296 007");
    assert_eq!(parse_u32_chars(&cs, 0, 3), Some(42));
    assert_eq!(parse_u32_chars(&cs, 4, 5), None);
    assert_eq!(parse_u32_chars(&cs, 6, 16), None);
    assert_eq!(parse_u32_chars(&cs, 17, 20), Some(7));
    assert_eq!(parse_u32_chars(&cs, 0, 0), None);
    assert_eq!(parse_u32_chars(&cs, 0, 1), None);
}
