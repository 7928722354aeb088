use t_rex::name::{
    file_prefix, is_numeric, is_valid_name, num_prefix, prefix_le, replaced_index_name_unchecked,
    zero_padded, NameError,
};

#[test]
fn numeric_prefixes() {
    assert!(is_numeric("0123"));
    assert!(is_numeric(""));
    assert!(!is_numeric("12a"));
    assert!(!is_numeric("1-2"));
}

#[test]
fn prefix_is_text_before_first_dash() {
    assert_eq!(file_prefix("01-intro-part"), "01");
    assert_eq!(file_prefix("42"), "42");
    assert_eq!(file_prefix("-abc"), "");
    assert_eq!(file_prefix("notes.md"), "notes.md");
}

#[test]
fn valid_names_have_nonempty_digit_prefix() {
    assert!(is_valid_name("01-intro"));
    assert!(is_valid_name("7"));
    assert!(is_valid_name("3-"));
    assert!(!is_valid_name("-abc"));
    assert!(!is_valid_name(""));
    assert!(!is_valid_name("ab-12"));
    assert!(!is_valid_name("1a-b"));
    assert!(!is_valid_name(".git"));
}

#[test]
fn numeric_prefix_values() {
    assert_eq!(num_prefix("007-bond"), Ok(7));
    assert_eq!(num_prefix("12"), Ok(12));
    assert_eq!(num_prefix("0-a"), Ok(0));
    assert_eq!(num_prefix("readme.md"), Err(NameError::InvalidName));
    assert_eq!(num_prefix("-x"), Err(NameError::InvalidName));
    assert_eq!(num_prefix("18446744073709551615-max"), Ok(usize::MAX));
    assert_eq!(
        num_prefix("99999999999999999999999-a"),
        Err(NameError::PrefixTooLarge)
    );
}

#[test]
fn zero_padding() {
    assert_eq!(zero_padded(7, 3), "007");
    assert_eq!(zero_padded(0, 0), "0");
    assert_eq!(zero_padded(1234, 2), "1234");
    assert_eq!(zero_padded(10, 2), "10");
}

#[test]
fn renamed_keeps_suffix_and_pads_prefix() {
    assert_eq!(replaced_index_name_unchecked("3-c", 2, 2), "02-c");
    assert_eq!(replaced_index_name_unchecked("123-a-b", 4, 2), "04-a-b");
    assert_eq!(replaced_index_name_unchecked("0-a", 0, 3), "000-a");
    assert_eq!(replaced_index_name_unchecked("1-a", 123, 2), "123-a");
}

#[test]
fn renamed_without_separator_is_the_number_alone() {
    assert_eq!(replaced_index_name_unchecked("5", 7, 3), "007");
}

#[test]
fn prefixes_compare_by_value_at_any_size() {
    assert!(prefix_le("2-a", "10-b"));
    assert!(!prefix_le("10-b", "2-a"));
    assert!(prefix_le("007-a", "7-b"));
    assert!(prefix_le("7-b", "007-a"));
    assert!(prefix_le("0-a", "000"));
    assert!(prefix_le("99999999999999999999998-a", "99999999999999999999999-b"));
    assert!(!prefix_le("99999999999999999999999-b", "99999999999999999999998-a"));
    assert!(prefix_le("18446744073709551615-a", "0018446744073709551616-b"));
    assert!(!prefix_le("100000000000000000000000-a", "99999999999999999999999-b"));
}
