use css_parser::helpers::is_non_ascii;

#[test]
fn test_ascii_characters() {
    assert_eq!(is_non_ascii('a'), false);
    assert_eq!(is_non_ascii('Z'), false);
    assert_eq!(is_non_ascii('0'), false);
    assert_eq!(is_non_ascii('9'), false);

    assert_eq!(is_non_ascii(' '), false);
    assert_eq!(is_non_ascii('!'), false);
    assert_eq!(is_non_ascii('@'), false);
    assert_eq!(is_non_ascii('~'), false);

    assert_eq!(is_non_ascii('\0'), false);
    assert_eq!(is_non_ascii('\n'), false);
    assert_eq!(is_non_ascii('\r'), false);
    assert_eq!(is_non_ascii('\t'), false);
}

#[test]
fn test_boundary_characters() {
    assert_eq!(is_non_ascii('\x7F'), false);
    assert_eq!(is_non_ascii('\u{0080}'), true);
}

#[test]
fn test_non_ascii_characters() {
    // Latin-1: 224, 241, 252
    assert_eq!(is_non_ascii('\u{e0}'), true);
    assert_eq!(is_non_ascii('\u{f1}'), true);
    assert_eq!(is_non_ascii('\u{fc}'), true);

    // Greek pi, a Chinese character, crab emoji, Hebrew alef, star emoji
    assert_eq!(is_non_ascii('\u{3c0}'), true);
    assert_eq!(is_non_ascii('\u{4e2d}'), true);
    assert_eq!(is_non_ascii('\u{1f980}'), true);
    assert_eq!(is_non_ascii('\u{5d0}'), true);
    assert_eq!(is_non_ascii('\u{1f31f}'), true);

    // Euro sign (8364), copyright sign (169)
    assert_eq!(is_non_ascii('\u{20ac}'), true);
    assert_eq!(is_non_ascii('\u{a9}'), true);
}

#[test]
fn test_edge_cases() {
    assert_eq!(is_non_ascii('\u{0081}'), true);
    assert_eq!(is_non_ascii('\u{00A0}'), true);
    assert_eq!(is_non_ascii('\u{00FF}'), true);

    assert_eq!(is_non_ascii('\u{1000}'), true);
    assert_eq!(is_non_ascii('\u{10000}'), true);
}
