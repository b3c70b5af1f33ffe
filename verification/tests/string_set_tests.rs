use tagger::string_set::StringSet;

fn set_of(items: &[&str]) -> StringSet {
    let mut s = StringSet::new();
    for item in items {
        s.insert(item.to_string());
    }
    s
}

fn strings(items: &[&str]) -> Vec<String> {
    items.iter().map(|s| s.to_string()).collect()
}

#[test]
fn new_set_is_empty() {
    let s = StringSet::new();
    assert_eq!(s.len(), 0);
    assert!(s.to_vec().is_empty());
    assert!(!s.contains("a"));
}

#[test]
fn insert_says_whether_the_text_was_new() {
    let mut s = StringSet::new();
    assert!(s.insert("f1".to_string()));
    assert!(!s.insert("f1".to_string()));
    assert!(s.insert("f2".to_string()));
    assert_eq!(s.len(), 2);
}

#[test]
fn members_come_out_in_ascending_order() {
    let s = set_of(&["pear", "apple", "fig", "apple", "banana", "fig"]);
    assert_eq!(s.to_vec(), strings(&["apple", "banana", "fig", "pear"]));
}

#[test]
fn place_returns_the_rank_of_the_text() {
    let mut s = set_of(&["b", "d"]);
    assert_eq!(s.place("c".to_string()), (1, true));
    assert_eq!(s.place("a".to_string()), (0, true));
    assert_eq!(s.place("e".to_string()), (4, true));
    assert_eq!(s.place("d".to_string()), (3, false));
    assert_eq!(s.to_vec(), strings(&["a", "b", "c", "d", "e"]));
}

#[test]
fn find_and_contains_agree() {
    let s = set_of(&["f3", "f1", "f2"]);
    assert_eq!(s.find("f1"), Some(0));
    assert_eq!(s.find("f2"), Some(1));
    assert_eq!(s.find("f3"), Some(2));
    assert_eq!(s.find("f0"), None);
    assert_eq!(s.find("f4"), None);
    assert!(s.contains("f2"));
    assert!(!s.contains("f"));
}

#[test]
fn get_reads_by_rank() {
    let s = set_of(&["y", "x"]);
    assert_eq!(s.get(0), "x");
    assert_eq!(s.get(1), "y");
}

#[test]
fn extend_is_union() {
    let mut a = set_of(&["f1", "f2"]);
    let b = set_of(&["f2", "f3"]);
    a.extend(&b);
    assert_eq!(a.to_vec(), strings(&["f1", "f2", "f3"]));
    assert_eq!(b.to_vec(), strings(&["f2", "f3"]));
}

#[test]
fn intersection_keeps_the_common_members() {
    let a = set_of(&["f1", "f2"]);
    let b = set_of(&["f2", "f3"]);
    assert_eq!(a.intersection(&b).to_vec(), strings(&["f2"]));
    assert_eq!(b.intersection(&a).to_vec(), strings(&["f2"]));
}

#[test]
fn intersection_with_the_empty_set_is_empty() {
    let a = set_of(&["f1", "f2"]);
    let none = StringSet::new();
    assert_eq!(a.intersection(&none).len(), 0);
    assert_eq!(none.intersection(&a).len(), 0);
}

#[test]
fn intersection_of_disjoint_sets_is_empty() {
    let a = set_of(&["f1"]);
    let b = set_of(&["f2"]);
    assert_eq!(a.intersection(&b).len(), 0);
}

#[test]
fn many_members_stay_sorted_and_unique() {
    let mut s = StringSet::new();
    let mut expected: Vec<String> = Vec::new();
    for i in 0..200u32 {
        let text = format!("path-{}", (i * 37) % 101);
        s.insert(text.clone());
        if !expected.contains(&text) {
            expected.push(text);
        }
    }
    expected.sort();
    assert_eq!(s.to_vec(), expected);
    for text in expected.iter() {
        assert!(s.contains(text));
    }
}
