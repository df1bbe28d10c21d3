use rusche::builtin::str::{compare, length, slice};

#[test]
fn test_compare() {
    assert_eq!(compare("abc", "def"), -1);
    assert_eq!(compare("def", "def"), 0);
    assert_eq!(compare("def", "abc"), 1);
    assert_eq!(compare("ab", "abc"), -1);
    assert_eq!(compare("", ""), 0);
}

#[test]
fn test_length() {
    assert_eq!(length(""), 0);
    assert_eq!(length("abcdef"), 6);
    assert_eq!(length("héllo"), 5);
}

#[test]
fn test_slice() {
    assert_eq!(slice("abcdef", 0, Some(1)), "a");
    assert_eq!(slice("abcdef", 0, Some(2)), "ab");
    assert_eq!(slice("abcdef", 1, Some(3)), "bc");
    assert_eq!(slice("abcdef", 1, None), "bcdef");
    assert_eq!(slice("abcdef", -2, None), "ef");
    assert_eq!(slice("abcdef", -2, Some(-4)), "cd");
    assert_eq!(slice("abcdef", -100, Some(100)), "abcdef");
    assert_eq!(slice("abcdef", 4, Some(2)), "cd");
}
