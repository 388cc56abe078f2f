use lazy_java::{create_maven_url, MAVEN_URL};

#[test]
fn maven_url_turns_group_dots_into_slashes() {
    assert_eq!(
        create_maven_url("org.apache.commons", "commons-lang3"),
        "https://repo1.maven.org/maven2/org/apache/commons/commons-lang3/"
    );
}

#[test]
fn maven_url_with_plain_group() {
    assert_eq!(create_maven_url("junit", "junit"), format!("{}junit/junit/", MAVEN_URL));
    assert_eq!(create_maven_url("", ""), format!("{}//", MAVEN_URL));
}
