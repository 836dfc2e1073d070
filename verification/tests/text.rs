use rust9cc::text::{from_digit, is_decimal_digit, is_whitespace, push_decimal, to_digit};

#[test]
fn whitespace_is_what_the_standard_library_calls_whitespace() {
    let mut code: u32 = 0;
    while code <= 0x10FFFF {
        if let Some(c) = char::from_u32(code) {
            assert_eq!(is_whitespace(c), c.is_whitespace(), "U+{:04X}", code);
        }
        code += 1;
    }
}

#[test]
fn decimal_digits_are_the_ascii_ones() {
    let mut code: u32 = 0;
    while code <= 0x10FFFF {
        if let Some(c) = char::from_u32(code) {
            assert_eq!(is_decimal_digit(c), c.is_digit(10), "U+{:04X}", code);
            if is_decimal_digit(c) {
                assert_eq!(Some(to_digit(c)), c.to_digit(10));
            }
        }
        code += 1;
    }
}

#[test]
fn digits_and_their_values() {
    assert_eq!(to_digit('0'), 0);
    assert_eq!(to_digit('7'), 7);
    assert_eq!(to_digit('9'), 9);
    assert_eq!(from_digit(0), '0');
    assert_eq!(from_digit(9), '9');
    let mut d: u8 = 0;
    while d < 10 {
        assert_eq!(to_digit(from_digit(d)), d as u32);
        d += 1;
    }
}

#[test]
fn push_decimal_appends_the_numeral() {
    let mut s = String::new();
    push_decimal(&mut s, 0);
    assert_eq!(s, "0");
    push_decimal(&mut s, 10);
    assert_eq!(s, "010");
    push_decimal(&mut s, 208);
    assert_eq!(s, "010208");
    let mut s = String::from("x");
    push_decimal(&mut s, u64::MAX);
    assert_eq!(s, "x18446744073709551615");
    let mut n: u64 = 0;
    while n < 2000 {
        let mut s = String::new();
        push_decimal(&mut s, n);
        assert_eq!(s, n.to_string());
        n += 1;
    }
}
