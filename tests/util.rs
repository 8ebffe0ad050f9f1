use cycle_sort::are_equal;

#[test]
fn equality() {
    for a in -10..11 {
        for b in -10..11 {
            assert_eq!(are_equal(&a, &b, &|x: &i32, y: &i32| x < y), a == b);
        }
    }
}

#[test]
fn equal_under_a_coarser_relation() {
    let by_len = |x: &&str, y: &&str| x.len() < y.len();
    assert!(are_equal(&"ab", &"cd", &by_len));
    assert!(!are_equal(&"ab", &"cde", &by_len));
    assert!(!are_equal(&"cde", &"ab", &by_len));
}
