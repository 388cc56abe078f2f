use lazy_java::build::graph::class_info::{class_body, ClassInfo, ClassType, UnknownClassType};
use lazy_java::patterns::{find_at, CLASS_PATTERN};

#[test]
fn create_builds_nested_class_tree() {
    let src = r#"package app;

public class Outer extends Base implements Runnable {

    public static class Inner {
        public void run() {}
    }

    void method() {
        class Local {}
    }
}
"#;

    let info = ClassInfo::create(src).unwrap();
    assert_eq!(info.name, "Outer");
    assert_eq!(info.extends.as_deref(), Some("Base"));
    assert_eq!(info.implements, vec!["Runnable"]);
    // Both the member class `Inner` and the method-local `Local` are found,
    // since any line-start declaration inside the body is discovered.
    assert_eq!(info.sub_classes.len(), 2);
    assert_eq!(info.sub_classes[0].name, "Inner");
    assert!(info.sub_classes[0].sub_classes.is_empty());
    assert_eq!(info.sub_classes[1].name, "Local");
}

#[test]
fn create_handles_annotation_type() {
    let src = "public @interface Deprecated3 {\n    String value() default \"\";\n}\n";
    let info = ClassInfo::create(src).unwrap();
    assert_eq!(info.name, "Deprecated3");
    assert!(info.implements.is_empty());
}

#[test]
fn create_reads_kinds_and_clauses() {
    let src = "public final record Point(int x, int y) implements Comparable<Point>, Serializable {\n}\n";
    let info = ClassInfo::create(src).unwrap();
    assert_eq!(info.name, "Point");
    assert_eq!(info.object_type, ClassType::Record);
    assert_eq!(info.extends, None);
    assert_eq!(info.implements, vec!["Comparable<Point>", "Serializable"]);

    let src = "interface Shape {\n    enum Kind { A, B }\n}\n";
    let info = ClassInfo::create(src).unwrap();
    assert_eq!(info.object_type, ClassType::Interface);
    assert_eq!(info.sub_classes.len(), 1);
    assert_eq!(info.sub_classes[0].name, "Kind");
    assert_eq!(info.sub_classes[0].object_type, ClassType::Enum);
}

#[test]
fn create_finds_nothing_without_declaration() {
    assert!(ClassInfo::create("int x = 1;\n").is_none());
    assert!(ClassInfo::create("").is_none());
}

#[test]
fn create_keeps_deep_nesting() {
    let src = "class A {\n  class B {\n    class C {\n    }\n  }\n}\n";
    let info = ClassInfo::create(src).unwrap();
    assert_eq!(info.name, "A");
    // Every line-start declaration in A's body is found, C included.
    assert_eq!(info.sub_classes.len(), 2);
    assert_eq!(info.sub_classes[0].name, "B");
    assert_eq!(info.sub_classes[1].name, "C");
    assert_eq!(info.sub_classes[0].sub_classes.len(), 1);
    assert_eq!(info.sub_classes[0].sub_classes[0].name, "C");
}

#[test]
fn class_body_returns_text_between_matching_braces() {
    let src = "class A { void f() { } int x; } tail";
    assert_eq!(class_body(src, 8), Some(" void f() { } int x; ".to_string()));
    assert_eq!(class_body(src, 19), Some(" ".to_string()));
    assert_eq!(class_body("{}", 0), Some(String::new()));
}

#[test]
fn class_body_is_none_without_opening_brace() {
    assert_eq!(class_body("class A { }", 0), None);
    assert_eq!(class_body("{}", 2), None);
    assert_eq!(class_body("{}", 100), None);
}

#[test]
fn class_body_is_none_when_never_closed() {
    assert_eq!(class_body("class A { { }", 8), None);
}

#[test]
fn class_body_handles_multibyte_text() {
    let src = "{ é { ü } ß }";
    assert_eq!(class_body(src, 0), Some(" é { ü } ß ".to_string()));
}

#[test]
fn is_processor_for_annotations_and_processors() {
    let info = ClassInfo::create("public @interface Marker {}\n").unwrap();
    assert!(info.is_processor());
    let info = ClassInfo::create("public class P extends AbstractProcessor {}\n").unwrap();
    assert!(info.is_processor());
    let info = ClassInfo::create("public class P extends Other {}\n").unwrap();
    assert!(!info.is_processor());
    let info = ClassInfo::create("public class P {}\n").unwrap();
    assert!(!info.is_processor());
}

#[test]
fn class_type_names_and_default() {
    assert_eq!(ClassType::default(), ClassType::AtInterface);
    assert_eq!(ClassType::from_name("class"), Some(ClassType::Class));
    assert_eq!(ClassType::from_name("@interface"), Some(ClassType::AtInterface));
    assert_eq!(ClassType::from_name("record"), Some(ClassType::Record));
    assert_eq!(ClassType::from_name("enum"), Some(ClassType::Enum));
    assert_eq!(ClassType::from_name("interface"), Some(ClassType::Interface));
    assert_eq!(ClassType::from_name("Class"), None);
}

#[test]
fn class_body_is_balanced() {
    let src = "class A { a { b } { c { d } } } rest }";
    let body = class_body(src, 8).unwrap();
    let mut depth: i64 = 0;
    for c in body.chars() {
        if c == '{' {
            depth += 1;
        } else if c == '}' {
            depth -= 1;
        }
        assert!(depth >= 0);
    }
    assert_eq!(depth, 0);
    assert_eq!(body, " a { b } { c { d } } ");
}

#[test]
fn from_captures_describes_a_given_match() {
    let src = "class A {}\nenum B {\n}\n";
    let spans = find_at(CLASS_PATTERN, src, 1).unwrap();
    let info = ClassInfo::from_captures(&spans, src).unwrap();
    assert_eq!(info.name, "B");
    assert_eq!(info.object_type, ClassType::Enum);
}

#[test]
fn class_type_parses_from_str() {
    assert_eq!("enum".parse::<ClassType>(), Ok(ClassType::Enum));
    assert_eq!("@interface".parse::<ClassType>(), Ok(ClassType::AtInterface));
    assert_eq!("struct".parse::<ClassType>(), Err(UnknownClassType));
}

#[test]
fn class_info_clone_copies_the_tree() {
    let info = ClassInfo::create("class A extends B implements C, D {\n  class E {}\n}\n").unwrap();
    let copy = info.clone();
    assert_eq!(copy.name, "A");
    assert_eq!(copy.extends.as_deref(), Some("B"));
    assert_eq!(copy.implements, vec!["C", "D"]);
    assert_eq!(copy.object_type, ClassType::Class);
    assert_eq!(copy.sub_classes.len(), 1);
    assert_eq!(copy.sub_classes[0].name, "E");
}
