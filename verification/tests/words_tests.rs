use tagger::words::split_tags;

fn strings(items: &[&str]) -> Vec<String> {
    items.iter().map(|s| s.to_string()).collect()
}

#[test]
fn split_tags_parts_at_spaces() {
    assert_eq!(split_tags("project-x urgent"), strings(&["project-x", "urgent"]));
    assert_eq!(split_tags("^doc$"), strings(&["^doc$"]));
}

#[test]
fn split_tags_takes_off_the_end_of_line() {
    assert_eq!(split_tags("project-x urgent\n"), strings(&["project-x", "urgent"]));
    assert_eq!(split_tags("doc\r\n"), strings(&["doc"]));
}

#[test]
fn split_tags_of_an_empty_line_is_no_query() {
    assert!(split_tags("").is_empty());
    assert!(split_tags("\n").is_empty());
}

#[test]
fn split_tags_of_a_white_line_is_no_query() {
    assert!(split_tags(" ").is_empty());
    assert!(split_tags("  \t \r\n").is_empty());
    assert!(split_tags("\u{3000}\u{a0}").is_empty());
}

#[test]
fn split_tags_takes_several_spaces_as_one() {
    assert_eq!(split_tags("a  b\n"), strings(&["a", "b"]));
    assert_eq!(split_tags("a     b"), strings(&["a", "b"]));
}

#[test]
fn split_tags_passes_over_white_space_at_the_ends() {
    assert_eq!(split_tags(" a "), strings(&["a"]));
    assert_eq!(split_tags("\t  lead"), strings(&["lead"]));
    assert_eq!(split_tags("trail  \n"), strings(&["trail"]));
}

#[test]
fn split_tags_parts_at_tabs_too() {
    assert_eq!(split_tags("a\tb"), strings(&["a", "b"]));
    assert_eq!(split_tags("\ta\t b\t"), strings(&["a", "b"]));
    assert_eq!(split_tags("a\nb\rc"), strings(&["a", "b", "c"]));
}

#[test]
fn split_tags_parts_at_every_kind_of_white_space() {
    assert_eq!(split_tags("\u{3000}x\u{a0}\u{2003}y\u{85}"), strings(&["x", "y"]));
    assert_eq!(split_tags("a\u{1680}b\u{2028}c"), strings(&["a", "b", "c"]));
}

#[test]
fn split_tags_gives_no_empty_query_and_none_with_white_space() {
    for tag in split_tags("  ^doc$ \t urgent\u{a0}\u{a0}x  \n") {
        assert!(!tag.is_empty());
        assert!(!tag.chars().any(char::is_whitespace));
    }
}

#[test]
fn split_tags_keeps_queries_in_order_and_whole() {
    assert_eq!(
        split_tags("zeta alpha ^mid$ alpha\n"),
        strings(&["zeta", "alpha", "^mid$", "alpha"])
    );
    assert_eq!(split_tags("a|b (c) [d-e]+"), strings(&["a|b", "(c)", "[d-e]+"]));
}

#[test]
fn split_tags_handles_wide_characters() {
    assert_eq!(split_tags("日本 語\n"), strings(&["日本", "語"]));
    assert_eq!(split_tags("é  è"), strings(&["é", "è"]));
}

#[test]
fn split_tags_agrees_with_split_whitespace() {
    let lines = [
        "",
        " ",
        "a",
        "a b c\n",
        "  lead",
        "trail  ",
        "\t x \t y \n",
        "a\u{a0} \u{1680}b",
        "one   two",
        "ünï cödé\r\n",
        "x\ty\nz",
    ];
    for line in lines.iter() {
        let expected: Vec<String> = line.split_whitespace().map(str::to_string).collect();
        assert_eq!(split_tags(line), expected);
    }
}
