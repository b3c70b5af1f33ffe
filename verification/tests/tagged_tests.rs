use tagger::string_set::StringSet;
use tagger::tagged::{combine, get_intersection_of_tag_hits, merge, TaggedFiles};

fn strings(items: &[&str]) -> Vec<String> {
    items.iter().map(|s| s.to_string()).collect()
}

fn tagged(facts: &[(&str, &str)]) -> TaggedFiles {
    let mut t = TaggedFiles::new();
    for (label, path) in facts {
        t.add(label, path);
    }
    t
}

fn entry(label: &str, paths: &[&str]) -> (String, Vec<String>) {
    (label.to_string(), strings(paths))
}

#[test]
fn new_index_has_no_label() {
    let t = TaggedFiles::new();
    assert_eq!(t.len(), 0);
    assert!(t.entries().is_empty());
    assert!(TaggedFiles::default().entries().is_empty());
}

#[test]
fn add_puts_a_path_under_its_label() {
    let mut t = TaggedFiles::new();
    t.add("doc", "/root/a/readme.txt");
    assert_eq!(t.entries(), vec![entry("doc", &["/root/a/readme.txt"])]);
}

#[test]
fn add_gathers_paths_by_label() {
    let t = tagged(&[("x", "f2"), ("y", "f3"), ("x", "f1"), ("y", "f2")]);
    assert_eq!(t.entries(), vec![entry("x", &["f1", "f2"]), entry("y", &["f2", "f3"])]);
}

#[test]
fn add_counts_a_repeated_hit_once() {
    let t = tagged(&[("urgent", "/b"), ("urgent", "/b"), ("urgent", "/b")]);
    assert_eq!(t.entries(), vec![entry("urgent", &["/b"])]);
}

#[test]
fn labels_and_paths_come_out_in_ascending_order() {
    let t = tagged(&[("b", "2"), ("c", "9"), ("a", "z"), ("b", "1"), ("a", "y"), ("b", "3")]);
    assert_eq!(
        t.entries(),
        vec![entry("a", &["y", "z"]), entry("b", &["1", "2", "3"]), entry("c", &["9"])]
    );
    assert_eq!(t.len(), 3);
    assert_eq!(t.label(0), "a");
    assert_eq!(t.label(2), "c");
    assert_eq!(t.hits(1).to_vec(), strings(&["1", "2", "3"]));
}

#[test]
fn add_all_takes_every_path() {
    let mut t = tagged(&[("x", "f2")]);
    let mut paths = StringSet::new();
    paths.insert("f3".to_string());
    paths.insert("f1".to_string());
    t.add_all("x", &paths);
    t.add_all("w", &paths);
    assert_eq!(t.entries(), vec![entry("w", &["f1", "f3"]), entry("x", &["f1", "f2", "f3"])]);
}

#[test]
fn absorb_unites_label_by_label() {
    let mut a = tagged(&[("x", "f1"), ("y", "f2")]);
    let b = tagged(&[("y", "f3"), ("z", "f4")]);
    a.absorb(&b);
    assert_eq!(
        a.entries(),
        vec![entry("x", &["f1"]), entry("y", &["f2", "f3"]), entry("z", &["f4"])]
    );
}

#[test]
fn merge_of_nothing_is_empty() {
    let results: Vec<TaggedFiles> = Vec::new();
    assert!(merge(&results).entries().is_empty());
}

#[test]
fn merge_of_one_result_is_that_result() {
    let results = vec![tagged(&[("x", "f1"), ("x", "f2")])];
    assert_eq!(merge(&results).entries(), vec![entry("x", &["f1", "f2"])]);
}

#[test]
fn merge_unites_the_paths_of_a_label_across_roots() {
    let results = vec![
        tagged(&[("doc", "/r1/a"), ("urgent", "/r1")]),
        tagged(&[("doc", "/r2/b"), ("doc", "/r1/a")]),
        tagged(&[]),
    ];
    assert_eq!(
        merge(&results).entries(),
        vec![entry("doc", &["/r1/a", "/r2/b"]), entry("urgent", &["/r1"])]
    );
}

#[test]
fn merge_keeps_roots_with_disjoint_labels_apart() {
    let results = vec![
        tagged(&[("a", "/r1/f"), ("b", "/r1/g")]),
        tagged(&[("c", "/r2/f")]),
        tagged(&[("d", "/r3/f"), ("e", "/r3/f")]),
    ];
    assert_eq!(
        merge(&results).entries(),
        vec![
            entry("a", &["/r1/f"]),
            entry("b", &["/r1/g"]),
            entry("c", &["/r2/f"]),
            entry("d", &["/r3/f"]),
            entry("e", &["/r3/f"]),
        ]
    );
}

#[test]
fn merge_does_not_depend_on_the_order_of_roots() {
    let one = vec![tagged(&[("x", "f1"), ("y", "f2")]), tagged(&[("x", "f3")])];
    let other = vec![tagged(&[("x", "f3")]), tagged(&[("y", "f2"), ("x", "f1")])];
    assert_eq!(merge(&one).entries(), merge(&other).entries());
}

#[test]
fn intersection_of_no_label_is_empty() {
    assert_eq!(get_intersection_of_tag_hits(TaggedFiles::new()).len(), 0);
}

#[test]
fn intersection_of_one_label_is_its_paths() {
    let t = tagged(&[("x", "f1"), ("x", "f2")]);
    assert_eq!(get_intersection_of_tag_hits(t).to_vec(), strings(&["f1", "f2"]));
}

#[test]
fn intersection_takes_the_paths_under_every_label() {
    let t = tagged(&[("x", "f1"), ("x", "f2"), ("y", "f2"), ("y", "f3")]);
    assert_eq!(get_intersection_of_tag_hits(t).to_vec(), strings(&["f2"]));
}

#[test]
fn intersection_runs_over_all_labels() {
    let t = tagged(&[
        ("a", "f1"),
        ("a", "f2"),
        ("a", "f3"),
        ("b", "f2"),
        ("b", "f3"),
        ("c", "f3"),
        ("c", "f4"),
    ]);
    assert_eq!(get_intersection_of_tag_hits(t).to_vec(), strings(&["f3"]));
}

#[test]
fn intersection_may_be_empty() {
    let t = tagged(&[("x", "f1"), ("y", "f2")]);
    assert_eq!(get_intersection_of_tag_hits(t).len(), 0);
}

#[test]
fn or_mode_reports_every_label_with_its_paths() {
    let results = vec![tagged(&[("x", "f1"), ("x", "f2")]), tagged(&[("y", "f2"), ("y", "f3")])];
    let report = combine(merge(&results), &strings(&["x", "y"]), true);
    assert_eq!(report, vec![entry("x", &["f1", "f2"]), entry("y", &["f2", "f3"])]);
}

#[test]
fn and_mode_reports_the_common_paths_under_the_joined_queries() {
    let results = vec![tagged(&[("x", "f1"), ("x", "f2")]), tagged(&[("y", "f2"), ("y", "f3")])];
    let report = combine(merge(&results), &strings(&["x", "y"]), false);
    assert_eq!(report, vec![entry("x, y", &["f2"])]);
}

#[test]
fn and_mode_intersects_matched_labels_not_queries() {
    let aggregated = tagged(&[("doc", "f1"), ("doc-old", "f1"), ("doc-old", "f2"), ("doc", "f3")]);
    let report = combine(aggregated, &strings(&["doc"]), false);
    assert_eq!(report, vec![entry("doc", &["f1"])]);
}

#[test]
fn and_mode_of_no_hit_is_one_empty_entry() {
    let report = combine(TaggedFiles::new(), &strings(&["x", "y"]), false);
    assert_eq!(report, vec![entry("x, y", &[])]);
}

#[test]
fn or_mode_of_no_hit_is_empty() {
    let report = combine(TaggedFiles::new(), &strings(&["x", "y"]), true);
    assert!(report.is_empty());
}

#[test]
fn and_mode_result_lies_within_every_label_of_or_mode() {
    let facts = [("a", "p1"), ("a", "p2"), ("a", "p3"), ("b", "p2"), ("b", "p3"), ("c", "p3"), ("c", "p2")];
    let all = combine(tagged(&facts), &strings(&["q"]), true);
    let common = combine(tagged(&facts), &strings(&["q"]), false);
    assert_eq!(common.len(), 1);
    assert_eq!(common[0].1, strings(&["p2", "p3"]));
    for (_, paths) in all.iter() {
        for path in common[0].1.iter() {
            assert!(paths.contains(path));
        }
    }
}
