use apilaaa::text::{
    at_least_bytes, between_bytes, chars, contains, digits, integer, push_decimal, push_padded,
    push_run, push_text, push_two_digits, same, starts_with, string, trimmed, trimmed_end_of,
};

#[test]
fn characters_and_back() {
    let c = chars("añ…b");
    assert_eq!(c, vec!['a', 'ñ', '…', 'b']);
    assert_eq!(string(&c), "añ…b");
    assert!(same(&c, &chars("añ…b")));
    assert!(!same(&c, &chars("añ…")));
}

#[test]
fn white_space_is_trimmed() {
    for s in ["", "  ", " a b ", "\t\u{a0}x\u{2003}\n", "y"] {
        assert_eq!(string(&trimmed(&chars(s))), s.trim());
    }
    assert_eq!(string(&trimmed_end_of(&chars("dir///"), '/')), "dir");
}

#[test]
fn slices_go_by_bytes() {
    let c = chars("añb");
    assert!(at_least_bytes(&c, 4));
    assert!(!at_least_bytes(&c, 5));
    assert_eq!(between_bytes(&c, 1, 3), Some(vec!['ñ']));
    assert_eq!(between_bytes(&c, 1, 2), None);
}

#[test]
fn numbers_are_read() {
    assert_eq!(digits(&chars("0042"), 100), Some(42));
    assert_eq!(digits(&chars("101"), 100), None);
    assert_eq!(digits(&chars(""), 100), None);
    assert_eq!(digits(&chars("4x"), 100), None);
    assert_eq!(digits(&chars("18446744073709551615"), u64::MAX), Some(u64::MAX));
    assert_eq!(digits(&chars("18446744073709551616"), u64::MAX), None);
    assert_eq!(integer(&chars("-7")), Some(-7));
    assert_eq!(integer(&chars("+7")), Some(7));
    assert_eq!(integer(&chars("-")), None);
}

#[test]
fn decimals_read_back() {
    for n in [0u64, 7, 10, 999, 1_000_000, u64::MAX] {
        let mut c = Vec::new();
        push_decimal(&mut c, n);
        assert_eq!(string(&c), n.to_string());
        assert_eq!(digits(&c, u64::MAX), Some(n));
    }
}

#[test]
fn texts_are_put_together() {
    let mut c = Vec::new();
    push_text(&mut c, "ab");
    push_padded(&mut c, "cd", 4);
    push_run(&mut c, '-', 3);
    push_two_digits(&mut c, 7);
    push_two_digits(&mut c, 123);
    assert_eq!(string(&c), "abcd  ---07123");
    assert!(contains(&c, "d  -"));
    assert!(!contains(&c, "xyz"));
    assert!(starts_with(&c, "abc"));
    assert!(!starts_with(&c, "bc"));
}
