use democracy_index::{decode_score, MAX_SCORE};

#[test]
fn decodes_two_decimals() {
    assert_eq!(decode_score("9.39"), Some(939));
    assert_eq!(decode_score("10.00"), Some(1000));
    assert_eq!(decode_score("0.00"), Some(0));
    assert_eq!(decode_score("2.58"), Some(258));
}

#[test]
fn whole_number_has_no_fraction() {
    assert_eq!(decode_score("10"), Some(1000));
    assert_eq!(decode_score("7"), Some(700));
}

#[test]
fn single_fraction_digit_is_taken_as_written() {
    assert_eq!(decode_score("9.4"), Some(904));
    assert_eq!(decode_score("9.40"), Some(940));
}

#[test]
fn malformed_scores_are_refused() {
    assert_eq!(decode_score(""), None);
    assert_eq!(decode_score("."), None);
    assert_eq!(decode_score("9."), None);
    assert_eq!(decode_score(".5"), None);
    assert_eq!(decode_score("1.2.3"), None);
    assert_eq!(decode_score("abc"), None);
    assert_eq!(decode_score("+5"), None);
    assert_eq!(decode_score(" 9.39"), None);
}

#[test]
fn scores_above_ten_are_refused() {
    assert_eq!(decode_score("10.01"), None);
    assert_eq!(decode_score("11"), None);
    assert_eq!(decode_score("99999999"), None);
    assert_eq!(MAX_SCORE, 1000);
}

#[test]
fn decoded_score_splits_back_into_its_parts() {
    let v = decode_score("8.33").unwrap();
    assert_eq!(v / 100, 8);
    assert_eq!(v % 100, 33);
    let w = decode_score("0.07").unwrap();
    assert_eq!((w / 100, w % 100), (0, 7));
}
