use std::path::PathBuf;

use lazy_java::build::graph::node::{directory_node, directory_package, file_facts, file_node, Node};
use lazy_java::build::graph::package::Package;

fn names(p: &Package) -> Vec<String> {
    p.segments.clone()
}

fn java_file(name: &str, stem: &str, text: &str) -> Node<()> {
    Node::File(file_node(name.to_string(), stem, PathBuf::from(name), (), text))
}

#[test]
fn package_operations() {
    let mut p = Package::from_string("com.example.app", false);
    assert_eq!(names(&p), vec!["com", "example", "app"]);
    assert!(!p.is_static);
    p.pop();
    assert_eq!(names(&p), vec!["com", "example"]);
    p.push("Main");
    assert_eq!(names(&p), vec!["com", "example", "Main"]);
    let star = p.join("*");
    assert_eq!(names(&star), vec!["com", "example", "Main", "*"]);
    assert!(p.same(&p.clone()));
    assert!(!p.same(&star));
    let e = Package::from_string("", true);
    assert!(e.segments.is_empty());
    assert!(e.is_static);
    let mut empty = Package::empty();
    empty.pop();
    assert!(empty.segments.is_empty());
    assert!(!Package::from_string("a", true).same(&Package::from_string("a", false)));
}

#[test]
fn file_facts_read_package_imports_and_class() {
    let src = "package com.x;\n\nimport java.util.List;\nimport static java.lang.Math.max;\nimport java.util.List;\n\npublic class Main {\n}\n";
    let f = file_facts(src);
    assert_eq!(f.package, "com.x");
    assert_eq!(f.imports.len(), 2);
    assert_eq!(names(&f.imports[0]), vec!["java", "util", "List"]);
    assert!(!f.imports[0].is_static);
    assert_eq!(names(&f.imports[1]), vec!["java", "lang", "Math", "max"]);
    assert!(f.imports[1].is_static);
    assert_eq!(f.info.unwrap().name, "Main");

    let f = file_facts("class A {}\n");
    assert_eq!(f.package, "");
    assert!(f.imports.is_empty());
}

#[test]
fn file_node_package_is_declared_package_and_stem() {
    let n = file_node("Main.java".to_string(), "Main", PathBuf::from("a/Main.java"), 7u8, "package a.b;\nclass Main {}\n");
    assert_eq!(n.name, "Main.java");
    assert_eq!(names(&n.package), vec!["a", "b", "Main"]);
    assert_eq!(n.meta, 7);
    assert_eq!(n.path, PathBuf::from("a/Main.java"));
    let n = file_node("A.java".to_string(), "A", PathBuf::from("A.java"), (), "class A {}\n");
    assert_eq!(names(&n.package), vec!["A"]);
}

#[test]
fn directory_package_replaces_the_class_by_a_star() {
    let files = vec![
        Node::Directory { name: "sub".to_string(), files: vec![], package: Package::empty() },
        java_file("A.java", "A", "package p.q;\nclass A {}\n"),
        java_file("B.java", "B", "package r;\nclass B {}\n"),
    ];
    assert_eq!(names(&directory_package(&files)), vec!["p", "q", "*"]);
    let none: Vec<Node<()>> = vec![];
    assert!(directory_package(&none).segments.is_empty());
}

#[test]
fn directory_node_resolves_sibling_dependencies() {
    let files = vec![
        java_file("A.java", "A", "package p;\nimport x.Y;\nclass A {}\n"),
        java_file("B.java", "B", "package p;\nclass B {}\n"),
    ];
    let dir = directory_node("p".to_string(), files);
    match &dir {
        Node::Directory { name, files, package } => {
            assert_eq!(name, "p");
            assert_eq!(names(package), vec!["p", "*"]);
            match (&files[0], &files[1]) {
                (Node::File(a), Node::File(b)) => {
                    let a_deps: Vec<Vec<String>> = a.dependencies.iter().map(names).collect();
                    assert_eq!(a_deps.len(), 2);
                    assert!(a_deps.contains(&vec!["x".to_string(), "Y".to_string()]));
                    assert!(a_deps.contains(&vec!["p".to_string(), "B".to_string()]));
                    let b_deps: Vec<Vec<String>> = b.dependencies.iter().map(names).collect();
                    assert_eq!(b_deps, vec![vec!["p".to_string(), "A".to_string()]]);
                    assert!(!a_deps.contains(&vec!["p".to_string(), "A".to_string()]));
                },
                _ => panic!("file nodes expected"),
            }
        },
        _ => panic!("directory expected"),
    }
}

#[test]
fn iter_is_depth_first_directory_before_children() {
    let inner = directory_node(
        "inner".to_string(),
        vec![java_file("C.java", "C", "package q;\nclass C {}\n")],
    );
    let root = directory_node(
        "root".to_string(),
        vec![java_file("A.java", "A", "package p;\nclass A {}\n"), inner, java_file("B.java", "B", "package p;\nclass B {}\n")],
    );
    let order: Vec<String> = root
        .iter()
        .into_iter()
        .map(|n| match n {
            Node::File(f) => f.name.clone(),
            Node::Directory { name, .. } => name.clone(),
        })
        .collect();
    assert_eq!(order, vec!["root", "B.java", "inner", "C.java", "A.java"]);
    let files: Vec<String> = root.files().into_iter().map(|f| f.name.clone()).collect();
    assert_eq!(files, vec!["B.java", "C.java", "A.java"]);

    let found = root.find_path(&PathBuf::from("C.java")).unwrap();
    assert_eq!(found.name, "C.java");
    assert!(root.find_path(&PathBuf::from("D.java")).is_none());

    // Only file nodes are found: a directory with the package is passed over.
    assert!(root.find_package(&Package::from_string("q.*", false)).is_none());
    match root.find_package(&Package::from_string("q.C", false)).unwrap() {
        Node::File(f) => assert_eq!(f.name, "C.java"),
        _ => panic!("file expected"),
    }
    match root.find_package(&Package::from_string("p.A", false)).unwrap() {
        Node::File(f) => assert_eq!(f.name, "A.java"),
        _ => panic!("file expected"),
    }
    assert!(root.find_package(&Package::from_string("z", false)).is_none());
}
