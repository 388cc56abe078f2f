use std::path::PathBuf;

use lazy_java::utils::find_main::{
    build_globset, find_main_class, is_excluded, keep_entry, keep_java_file, main_classes_in,
    main_classes_in_sources, select_java_files, without_span,
};

#[test]
fn main_class_in_default_package() {
    let file = PathBuf::from("Test1.java");
    let src = "public class Test1 {\n    public static void main(String[] args) {\n        System.out.println(\"hi\");\n    }\n}\n";
    let found = main_classes_in(src, &file);
    assert_eq!(found.len(), 1);
    assert_eq!(found[0].classname, "Test1");
    assert_eq!(found[0].full_package_name, "Test1");
    assert_eq!(found[0].path, file);
}

#[test]
fn main_class_in_package() {
    let file = PathBuf::from("dir1/Test5.java");
    let src = "package dir1;\n\npublic class Test5 {\n    public static void main(String[] args) {\n    }\n}\n";
    let found = main_classes_in(src, &file);
    assert_eq!(found.len(), 1);
    assert_eq!(found[0].classname, "Test5");
    assert_eq!(found[0].full_package_name, "dir1.Test5");
}

#[test]
fn main_anywhere_in_body_counts_for_outer_class() {
    // The outer body holds the nested `main`, so the outer class is reported;
    // the match is then cut out, and the nested class has none left.
    let file = PathBuf::from("Outer.java");
    let src = "package p;\npublic class Outer {\n    public static class Inner {\n        public static void main(String[] args) {\n        }\n    }\n}\n";
    let found = main_classes_in(src, &file);
    assert_eq!(found.len(), 1);
    assert_eq!(found[0].classname, "Outer");
    assert_eq!(found[0].full_package_name, "p.Outer");
}

#[test]
fn nested_main_class_is_qualified_by_outer() {
    let file = PathBuf::from("A.java");
    let body = "\n public static void main(String[] a) {\n }\n";
    let found = find_main_class("Inner", body, "p.A", &file);
    assert_eq!(found.len(), 1);
    assert_eq!(found[0].classname, "Inner");
    assert_eq!(found[0].full_package_name, "p.A.Inner");
}

#[test]
fn no_main_class() {
    let file = PathBuf::from("A.java");
    assert!(main_classes_in("public class A {\n    void f() {}\n}\n", &file).is_empty());
    assert!(main_classes_in("no declaration here", &file).is_empty());
}

#[test]
fn find_main_class_on_body() {
    let file = PathBuf::from("A.java");
    let body = "\n    public static void main(String[] args) {\n    }\n";
    let found = find_main_class("A", body, "", &file);
    assert_eq!(found.len(), 1);
    assert_eq!(found[0].full_package_name, "A");
    let found = find_main_class("A", body, "x.y", &file);
    assert_eq!(found[0].full_package_name, "x.y.A");
    assert!(find_main_class("A", "\n int x;\n", "x", &file).is_empty());
}

#[test]
fn qualified_names_end_with_class_names() {
    let file = PathBuf::from("A.java");
    let body = "\n public static void main(String[] a) {\n }\n";
    for found in [
        find_main_class("A", body, "", &file),
        find_main_class("A", body, "a.b", &file),
    ] {
        for m in found {
            assert!(m.full_package_name.ends_with(&m.classname));
        }
    }
}

#[test]
fn without_span_cuts_bytes_out() {
    assert_eq!(without_span("abcdef", 1, 3), "adef");
    assert_eq!(without_span("abc", 0, 3), "");
    assert_eq!(without_span("aé b", 1, 3), "a b");
}

#[test]
fn build_globset_skips_invalid_rules() {
    let rules = vec!["*Test.java".to_string(), "[".to_string(), "gen/**".to_string()];
    let set = build_globset(&rules).unwrap();
    assert_eq!(set.len(), 2);
    assert!(set.is_match("FooTest.java"));
    assert!(set.is_match("gen/a/B.java"));
    assert!(!set.is_match("src/Main.java"));
}

#[test]
fn build_globset_of_no_rules_matches_nothing() {
    let set = build_globset(&[]).unwrap();
    assert_eq!(set.len(), 0);
    assert!(!set.is_match("A.java"));
}

#[test]
fn build_globset_of_only_invalid_rules_is_empty() {
    let rules = vec!["[".to_string(), "a[".to_string()];
    let set = build_globset(&rules).unwrap();
    assert_eq!(set.len(), 0);
    assert!(!set.is_match("["));
}

#[test]
fn main_classes_of_sources_come_file_after_file() {
    let sources = vec![
        (PathBuf::from("A.java"), "class A {\n public static void main(String[] a) {\n }\n}\n".to_string()),
        (PathBuf::from("B.java"), "class B {\n}\n".to_string()),
        (PathBuf::from("p/C.java"), "package p;\nclass C {\n public static void main(String[] a) {\n }\n}\n".to_string()),
    ];
    let found = main_classes_in_sources(&sources);
    assert_eq!(found.len(), 2);
    assert_eq!(found[0].full_package_name, "A");
    assert_eq!(found[0].path, PathBuf::from("A.java"));
    assert_eq!(found[1].full_package_name, "p.C");
    assert_eq!(found[1].path, PathBuf::from("p/C.java"));
}

#[test]
fn java_file_selection_applies_extension_kind_and_globs() {
    let set = build_globset(&["*Test.java".to_string(), "gen".to_string()]).unwrap();
    let entries = vec![
        (PathBuf::from("src"), PathBuf::from("src"), false),
        (PathBuf::from("src/Main.java"), PathBuf::from("Main.java"), true),
        (PathBuf::from("src/MainTest.java"), PathBuf::from("MainTest.java"), true),
        (PathBuf::from("src/notes.txt"), PathBuf::from("notes.txt"), true),
        (PathBuf::from("src/gen/A.java"), PathBuf::from("A.java"), true),
        (PathBuf::from("src/B.java"), PathBuf::from("B.java"), true),
    ];
    let files = select_java_files(&set, &entries);
    assert_eq!(files, vec![PathBuf::from("src/Main.java"), PathBuf::from("src/gen/A.java"), PathBuf::from("src/B.java")]);
    assert!(keep_java_file(&set, &PathBuf::from("a/X.java"), &PathBuf::from("X.java"), true));
    assert!(!keep_java_file(&set, &PathBuf::from("a/X.java"), &PathBuf::from("X.java"), false));
    assert!(is_excluded(&set, &PathBuf::from("a/gen"), &PathBuf::from("gen")));
    assert!(keep_entry(&set, &PathBuf::from("a/sub"), &PathBuf::from("sub"), true));
    assert!(!keep_entry(&set, &PathBuf::from("a/gen"), &PathBuf::from("gen"), true));
    assert!(!keep_entry(&set, &PathBuf::from("a/r.txt"), &PathBuf::from("r.txt"), false));
    assert!(keep_entry(&set, &PathBuf::from("a/R.java"), &PathBuf::from("R.java"), false));
}
