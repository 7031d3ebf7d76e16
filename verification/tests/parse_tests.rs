use utillib::split_from_to;
use utillib::try_split_from_to;

#[test]
fn test_split_into_from_to() {
    let str1 = "0       11342";
    let str2 = "0       824020";
    let str3 = "11342   0";

    assert_eq!((0, 11342), split_from_to(str1));
    assert_eq!((0, 824020), split_from_to(str2));
    assert_eq!((11342, 0), split_from_to(str3));
}

#[test]
fn test_split_single_token() {
    assert_eq!((7, 7), split_from_to("  7  "));
}

#[test]
fn test_split_tab_separated() {
    assert_eq!((3, 15), split_from_to("3\t15"));
}

#[test]
fn test_split_ignores_middle_tokens() {
    assert_eq!((12, 34), try_split_from_to("12 x 34").unwrap());
}

#[test]
fn test_try_split_rejects_empty_line() {
    assert_eq!(None, try_split_from_to(""));
    assert_eq!(None, try_split_from_to("   \t "));
}

#[test]
fn test_try_split_rejects_non_numeric_token() {
    assert_eq!(None, try_split_from_to("abc def"));
    assert_eq!(None, try_split_from_to("1 abc"));
    assert_eq!(None, try_split_from_to("abc 1"));
}

#[test]
fn test_try_split_rejects_overflow() {
    assert_eq!(None, try_split_from_to("99999999999999999999999999 1"));
    assert_eq!(None, try_split_from_to("1 99999999999999999999999999"));
}

#[test]
fn test_try_split_accepts_valid_line() {
    assert_eq!(Some((0, 11342)), try_split_from_to("0       11342"));
}
