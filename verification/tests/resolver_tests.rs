use tagger::association::{generate_taggers, Association};
use tagger::declaration::{Entry, TaggerFile, TaggerLineRaw};
use tagger::pattern::{compile_queries, Pattern};
use tagger::resolver::{process_directory_tree, Listing};
use tagger::tagged::{combine, merge, TaggedFiles};

fn strings(items: &[&str]) -> Vec<String> {
    items.iter().map(|s| s.to_string()).collect()
}

fn tag(pattern: &str, labels: &[&str]) -> TaggerLineRaw {
    TaggerLineRaw::Tag(pattern.to_string(), strings(labels))
}

fn dir_tag(labels: &[&str]) -> TaggerLineRaw {
    TaggerLineRaw::DirTag(strings(labels))
}

fn taggers(found: Vec<(&str, Vec<TaggerLineRaw>)>) -> Association {
    generate_taggers(
        found.into_iter().map(|(d, lines)| (d.to_string(), TaggerFile::new(lines).0)).collect(),
    )
}

fn file(directory: &str, name: &str) -> Entry {
    Entry { name: name.to_string(), path: format!("{}/{}", directory, name), is_file: true }
}

fn subdirectory(directory: &str, name: &str) -> Entry {
    Entry { name: name.to_string(), path: format!("{}/{}", directory, name), is_file: false }
}

fn listing(directory: &str, children: Vec<Entry>) -> Listing {
    Listing { directory: directory.to_string(), children }
}

fn queries(sources: &[&str]) -> Vec<Pattern> {
    compile_queries(&strings(sources)).unwrap()
}

fn entry(label: &str, paths: &[&str]) -> (String, Vec<String>) {
    (label.to_string(), strings(paths))
}

#[test]
fn compile_queries_compiles_all() {
    let compiled = compile_queries(&strings(&["^doc$", "urgent"])).unwrap();
    assert_eq!(compiled.len(), 2);
    assert_eq!(compiled[0].as_str(), "^doc$");
    assert_eq!(compiled[1].as_str(), "urgent");
    assert!(compiled[0].is_match("doc"));
    assert!(!compiled[0].is_match("docs"));
}

#[test]
fn compile_queries_fails_on_the_first_bad_query() {
    match compile_queries(&strings(&["ok", "(", "fine", "["])) {
        Err(e) => assert_eq!(e.pattern, "("),
        Ok(_) => panic!("a query that does not compile should be refused"),
    }
}

#[test]
fn compile_queries_of_nothing_is_empty() {
    assert!(compile_queries(&Vec::new()).unwrap().is_empty());
}

#[test]
fn file_matching_a_pattern_is_reported_under_its_label() {
    let declared = taggers(vec![("/abs/a", vec![tag("readme\\.txt", &["doc"])])]);
    let listings = vec![listing(
        "/abs/a",
        vec![file("/abs/a", "tagger.yaml"), file("/abs/a", "readme.txt")],
    )];
    let hits = process_directory_tree(&declared, &listings, &queries(&["^doc$"]));
    let report = combine(merge(&vec![hits]), &strings(&["^doc$"]), true);
    assert_eq!(report, vec![entry("doc", &["/abs/a/readme.txt"])]);
}

#[test]
fn directory_tag_is_reported_once_at_the_directory() {
    let declared = taggers(vec![("/abs/b", vec![dir_tag(&["urgent"])])]);
    let listings = vec![listing(
        "/abs/b",
        vec![
            file("/abs/b", "tagger.yaml"),
            file("/abs/b", "one.txt"),
            file("/abs/b", "two.txt"),
            subdirectory("/abs/b", "three"),
        ],
    )];
    let hits = process_directory_tree(&declared, &listings, &queries(&["urgent"]));
    assert_eq!(hits.entries(), vec![entry("urgent", &["/abs/b"])]);
}

#[test]
fn directory_tag_hit_does_not_depend_on_the_number_of_children() {
    let one_child = vec![listing("/abs/b", vec![file("/abs/b", "one.txt")])];
    let mut children = Vec::new();
    for i in 0..25 {
        children.push(file("/abs/b", &format!("file-{}", i)));
    }
    let many_children = vec![listing("/abs/b", children)];
    let q = queries(&["urgent"]);
    let declared = taggers(vec![("/abs/b", vec![dir_tag(&["urgent"])])]);
    let few = process_directory_tree(&declared, &one_child, &q);
    let many = process_directory_tree(&declared, &many_children, &q);
    assert_eq!(few.entries(), vec![entry("urgent", &["/abs/b"])]);
    assert_eq!(few.entries(), many.entries());
}

#[test]
fn directory_without_taggable_children_gives_no_hit() {
    let declared = taggers(vec![("/abs/b", vec![dir_tag(&["urgent"])])]);
    let q = queries(&["urgent"]);
    let empty = vec![listing("/abs/b", vec![])];
    assert!(process_directory_tree(&declared, &empty, &q).entries().is_empty());
    let only_declaration = vec![listing("/abs/b", vec![file("/abs/b", ".tagger.yaml")])];
    assert!(process_directory_tree(&declared, &only_declaration, &q).entries().is_empty());
}

#[test]
fn declaration_files_are_not_tagged() {
    let declared = taggers(vec![("/r", vec![tag(".*", &["all"])])]);
    let listings = vec![listing(
        "/r",
        vec![file("/r", ".tagger.yaml"), file("/r", "tagger.yaml"), file("/r", "data.bin")],
    )];
    let hits = process_directory_tree(&declared, &listings, &queries(&["all"]));
    assert_eq!(hits.entries(), vec![entry("all", &["/r/data.bin"])]);
}

#[test]
fn subdirectory_without_declaration_inherits_nothing() {
    let declared = taggers(vec![("/r/a", vec![tag(".*", &["doc"]), dir_tag(&["top"])])]);
    let listings = vec![
        listing("/r/a", vec![file("/r/a", "readme.txt"), subdirectory("/r/a", "nested")]),
        listing("/r/a/nested", vec![file("/r/a/nested", "deep.txt")]),
    ];
    let hits = process_directory_tree(&declared, &listings, &queries(&[".*"]));
    assert_eq!(hits.entries(), vec![entry("doc", &["/r/a/readme.txt"]), entry("top", &["/r/a"])]);
}

#[test]
fn nested_directory_is_governed_by_its_own_declaration() {
    let declared = taggers(vec![
        ("/r", vec![tag("\\.txt$", &["outer"])]),
        ("/r/in", vec![tag("\\.txt$", &["inner"])]),
    ]);
    let listings = vec![
        listing("/r", vec![file("/r", "a.txt"), subdirectory("/r", "in")]),
        listing("/r/in", vec![file("/r/in", "b.txt")]),
    ];
    let hits = process_directory_tree(&declared, &listings, &queries(&["outer", "inner"]));
    assert_eq!(
        hits.entries(),
        vec![entry("inner", &["/r/in/b.txt"]), entry("outer", &["/r/a.txt"])]
    );
}

#[test]
fn every_query_is_evaluated() {
    let declared = taggers(vec![(
        "/r",
        vec![tag("^a", &["alpha", "first"]), tag("^b", &["beta"]), dir_tag(&["root-dir"])],
    )]);
    let listings = vec![listing("/r", vec![file("/r", "a1"), file("/r", "b1"), file("/r", "a2")])];
    let hits = process_directory_tree(&declared, &listings, &queries(&["^alpha$", "^beta$", "dir$"]));
    assert_eq!(
        hits.entries(),
        vec![
            entry("alpha", &["/r/a1", "/r/a2"]),
            entry("beta", &["/r/b1"]),
            entry("root-dir", &["/r"]),
        ]
    );
}

#[test]
fn no_query_no_hit() {
    let declared = taggers(vec![("/r", vec![dir_tag(&["x"])])]);
    let listings = vec![listing("/r", vec![file("/r", "f")])];
    assert!(process_directory_tree(&declared, &listings, &Vec::new()).entries().is_empty());
}

#[test]
fn no_declaration_no_hit() {
    let listings = vec![listing("/r", vec![file("/r", "f")])];
    let hits = process_directory_tree(&Association::new(), &listings, &queries(&[".*"]));
    assert!(hits.entries().is_empty());
}

#[test]
fn directory_listed_twice_counts_once() {
    let declared = taggers(vec![("/r", vec![tag(".*", &["x"])])]);
    let once = vec![listing("/r", vec![file("/r", "f")])];
    let twice = vec![listing("/r", vec![file("/r", "f")]), listing("/r", vec![file("/r", "f")])];
    let q = queries(&["x"]);
    assert_eq!(
        process_directory_tree(&declared, &once, &q).entries(),
        process_directory_tree(&declared, &twice, &q).entries()
    );
}

#[test]
fn two_roots_combined_with_and() {
    let q = queries(&["x", "y"]);
    let first_root = process_directory_tree(
        &taggers(vec![("/r1", vec![tag("^f[12]$", &["x"])])]),
        &vec![listing("/r1", vec![file("/r1", "f1"), file("/r1", "f2")])],
        &q,
    );
    let second_root = process_directory_tree(
        &taggers(vec![("/r1", vec![tag("^f[23]$", &["y"])])]),
        &vec![listing("/r1", vec![file("/r1", "f2"), file("/r1", "f3")])],
        &q,
    );
    let results: Vec<TaggedFiles> = vec![first_root, second_root];
    let report = combine(merge(&results), &strings(&["x", "y"]), false);
    assert_eq!(report, vec![entry("x, y", &["/r1/f2"])]);
}
