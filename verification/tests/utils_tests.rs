use radix_tree::utils::longest_prefix;

#[test]
fn utils_test_longest_prefix() {
    assert_eq!(longest_prefix(b"hello", b"helicopter"), 3);
    assert_eq!(longest_prefix(b"test", b"testing"), 4);
    assert_eq!(longest_prefix(b"abc", b"xyz"), 0);
    assert_eq!(longest_prefix(b"", b"nonempty"), 0);
    assert_eq!(longest_prefix(b"same", b"same"), 4);
}
