use tagger::association::{generate_taggers, is_tagger_file_name, Association};
use tagger::declaration::{TaggerFile, TaggerLine, TaggerLineRaw};

fn declaration_with_labels(labels: &[&str]) -> TaggerFile {
    let labels = labels.iter().map(|s| s.to_string()).collect();
    TaggerFile::new(vec![TaggerLineRaw::DirTag(labels)]).0
}

fn labels_of(declaration: &TaggerFile) -> Vec<String> {
    match &declaration.0[0] {
        TaggerLine::DirTag(labels) => labels.clone(),
        TaggerLine::Tag(_, labels) => labels.clone(),
    }
}

#[test]
fn both_declaration_file_names_are_known() {
    assert!(is_tagger_file_name("tagger.yaml"));
    assert!(is_tagger_file_name(".tagger.yaml"));
}

#[test]
fn declaration_file_name_has_to_be_exact() {
    assert!(!is_tagger_file_name("Tagger.yaml"));
    assert!(!is_tagger_file_name("tagger.yml"));
    assert!(!is_tagger_file_name("tagger.yaml "));
    assert!(!is_tagger_file_name("..tagger.yaml"));
    assert!(!is_tagger_file_name("my-tagger.yaml"));
    assert!(!is_tagger_file_name("tagger.yaml.bak"));
    assert!(!is_tagger_file_name(""));
    assert!(!is_tagger_file_name("readme.txt"));
}

#[test]
fn new_association_is_empty() {
    let a = Association::new();
    assert_eq!(a.len(), 0);
    assert!(a.get("/root").is_none());
}

#[test]
fn insert_then_get() {
    let mut a = Association::new();
    a.insert("/root/a".to_string(), declaration_with_labels(&["one"]));
    a.insert("/root/b".to_string(), declaration_with_labels(&["two"]));
    assert_eq!(a.len(), 2);
    assert_eq!(labels_of(a.get("/root/a").unwrap()), vec!["one".to_string()]);
    assert_eq!(labels_of(a.get("/root/b").unwrap()), vec!["two".to_string()]);
}

#[test]
fn only_the_directory_itself_has_the_declaration() {
    let mut a = Association::new();
    a.insert("/root/a".to_string(), declaration_with_labels(&["one"]));
    assert!(a.get("/root").is_none());
    assert!(a.get("/root/a/nested").is_none());
    assert!(a.get("/root/a/").is_none());
}

#[test]
fn last_declaration_of_a_directory_stands() {
    let mut a = Association::new();
    a.insert("/root/a".to_string(), declaration_with_labels(&["first"]));
    a.insert("/root/b".to_string(), declaration_with_labels(&["other"]));
    a.insert("/root/a".to_string(), declaration_with_labels(&["second"]));
    assert_eq!(a.len(), 2);
    assert_eq!(labels_of(a.get("/root/a").unwrap()), vec!["second".to_string()]);
    assert_eq!(labels_of(a.get("/root/b").unwrap()), vec!["other".to_string()]);
}

#[test]
fn directories_are_listed_in_ascending_order() {
    let mut a = Association::new();
    a.insert("/root/c".to_string(), declaration_with_labels(&["3"]));
    a.insert("/root/a".to_string(), declaration_with_labels(&["1"]));
    a.insert("/root/b".to_string(), declaration_with_labels(&["2"]));
    assert_eq!(a.directory(0), "/root/a");
    assert_eq!(a.directory(1), "/root/b");
    assert_eq!(a.directory(2), "/root/c");
}

#[test]
fn generate_taggers_enters_what_was_found() {
    let taggers = generate_taggers(vec![
        ("/root/a".to_string(), declaration_with_labels(&["hidden"])),
        ("/root/b".to_string(), declaration_with_labels(&["b"])),
        ("/root/a".to_string(), declaration_with_labels(&["plain"])),
    ]);
    assert_eq!(taggers.len(), 2);
    assert_eq!(labels_of(taggers.get("/root/a").unwrap()), vec!["plain".to_string()]);
    assert_eq!(labels_of(taggers.get("/root/b").unwrap()), vec!["b".to_string()]);
    assert!(taggers.get("/root").is_none());
}

#[test]
fn generate_taggers_of_nothing_is_empty() {
    assert_eq!(generate_taggers(Vec::new()).len(), 0);
}
