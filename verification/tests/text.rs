use ferrox::text::{push_decimal, push_right_aligned};

#[test]
fn numbers_are_written_in_decimal() {
    for n in [0u64, 1, 7, 9, 10, 11, 99, 100, 1_234_567_890, 20_304_050, u64::MAX] {
        let mut out = String::from("n=");
        push_decimal(&mut out, n);
        assert_eq!(out, format!("n={}", n));
    }
}

#[test]
fn texts_are_aligned_to_the_right() {
    for text in ["", "7", "1234567890", "12345678901", "\u{b5}s"] {
        let mut out = String::from(":");
        push_right_aligned(&mut out, text, 10);
        assert_eq!(out, format!(":{:>10}", text));
    }
}
