use regex_parser::my_func;

#[test]
fn test_my_func() {
    assert_eq!(my_func(), Some(42));
}
