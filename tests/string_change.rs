use ls_ccsc::edit::apply_change;
use ls_ccsc::error::LsError;

#[test]
fn test_string_change_1() {
    assert_eq!(
        apply_change(
            "abcdefghijklmnopqrstuvwxyz".to_owned(),
            "abcdefghijklmnopqrstuvwxyz".to_owned(),
            0..1,
        )
        .unwrap(),
        "abcdefghijklmnopqrstuvwxyzbcdefghijklmnopqrstuvwxyz"
    );
}

#[test]
fn test_string_change_empty() {
    assert_eq!(
        apply_change("abcdefghijklmnopqrstuvwxyz".to_owned(), "".to_owned(), 0..1).unwrap(),
        "bcdefghijklmnopqrstuvwxyz"
    );
}

#[test]
fn test_string_change_delete() {
    assert_eq!(
        apply_change("abcdefghijklmnopqrstuvwxyz".to_owned(), "".to_owned(), 0..7).unwrap(),
        "hijklmnopqrstuvwxyz"
    );
}

#[test]
fn test_string_change_expansion() {
    assert_eq!(
        apply_change(
            "abcdefghijklmnopqrstuvwxyz".to_owned(),
            "abcdefghijklmnopqrstuvwxyz".to_owned(),
            0..7,
        )
        .unwrap(),
        "abcdefghijklmnopqrstuvwxyzhijklmnopqrstuvwxyz"
    );
}

#[test]
fn test_string_change_reduction() {
    assert_eq!(
        apply_change(
            "abcdefghijklmnopqrstuvwxyz".to_owned(),
            "defg".to_owned(),
            0..7,
        )
        .unwrap(),
        "defghijklmnopqrstuvwxyz"
    );
}

#[test]
fn test_string_change_without_size_change() {
    assert_eq!(
        apply_change(
            "abcdefghijklmnopqrstuvwxyz".to_owned(),
            "leetcode".to_owned(),
            4..12,
        )
        .unwrap(),
        "abcdleetcodemnopqrstuvwxyz"
    )
}

#[test]
fn test_string_change_with_unicode() {
    assert_eq!(
        apply_change("äääääääääü".to_owned(), "leßtäüde".to_owned(), 0..2,).unwrap(),
        "leßtäüdeääääääääü"
    )
}

#[test]
fn test_string_change_with_unicode_mid_sentence() {
    assert_eq!(
        apply_change("äääääääääü".to_owned(), "leßtäüde".to_owned(), 4..8,).unwrap(),
        "ääleßtäüdeäääääü"
    )
}

#[test]
fn reversed_or_outside_range_is_refused() {
    assert_eq!(apply_change("abc".to_owned(), "x".to_owned(), 2..1), Err(LsError::InvalidRange));
    assert_eq!(apply_change("abc".to_owned(), "x".to_owned(), 1..4), Err(LsError::InvalidRange));
}

#[test]
fn cut_inside_a_character_is_refused() {
    assert_eq!(apply_change("ä".to_owned(), "x".to_owned(), 1..1), Err(LsError::InvalidUtf8));
}
