use tagger::text::{compare, join, Rank};

#[test]
fn compare_orders_by_first_difference() {
    assert_eq!(compare("a", "b"), Rank::Before);
    assert_eq!(compare("b", "a"), Rank::After);
    assert_eq!(compare("abc", "abd"), Rank::Before);
    assert_eq!(compare("abd", "abc"), Rank::After);
}

#[test]
fn compare_finds_equal_strings_the_same() {
    assert_eq!(compare("", ""), Rank::Same);
    assert_eq!(compare("urgent", "urgent"), Rank::Same);
}

#[test]
fn compare_puts_a_prefix_first() {
    assert_eq!(compare("", "a"), Rank::Before);
    assert_eq!(compare("ab", "abc"), Rank::Before);
    assert_eq!(compare("abc", "ab"), Rank::After);
}

#[test]
fn compare_goes_by_bytes_not_by_length() {
    assert_eq!(compare("b", "abc"), Rank::After);
    assert_eq!(compare("Z", "a"), Rank::Before);
    assert_eq!(compare("é", "z"), Rank::After);
}

#[test]
fn compare_agrees_with_the_order_of_str() {
    let samples = ["", "a", "ab", "b", "B", "é", "z", "zz", "日本", "/tmp/a", "/tmp/a/b"];
    for x in samples.iter() {
        for y in samples.iter() {
            let expected = if x < y {
                Rank::Before
            } else if x == y {
                Rank::Same
            } else {
                Rank::After
            };
            assert_eq!(compare(x, y), expected);
        }
    }
}

#[test]
fn join_of_nothing_is_empty() {
    let parts: Vec<String> = Vec::new();
    assert_eq!(join(&parts, ", "), "");
}

#[test]
fn join_of_one_part_is_that_part() {
    assert_eq!(join(&vec!["x".to_string()], ", "), "x");
}

#[test]
fn join_puts_the_separator_between_parts() {
    let parts = vec!["x".to_string(), "y".to_string(), "z".to_string()];
    assert_eq!(join(&parts, ", "), "x, y, z");
    assert_eq!(join(&parts, ""), "xyz");
}

#[test]
fn join_keeps_empty_parts() {
    let parts = vec!["".to_string(), "a".to_string(), "".to_string()];
    assert_eq!(join(&parts, "-"), "-a-");
}
