//! Parsing helpers of a small Java build tool: locating type declarations
//! and their bodies in Java source text, finding `main` entry points, and
//! composing Maven repository URLs.

use vstd::prelude::*;

pub mod build;
pub mod patterns;
pub mod text;
pub mod utils;

verus! {

/// Root of the Maven Central repository.
pub const MAVEN_URL: &'static str = "https://repo1.maven.org/maven2/";

/// Folder, below the target folder, that receives compiled classes.
pub const BUILD_FOLDER: &'static str = "bin";

/// Folder that holds the project's sources.
pub const SRC_FOLDER: &'static str = "src";

/// Folder, below the target folder, that receives downloaded libraries.
pub const LIB_FOLDER: &'static str = "lib";

/// Folder that receives every build output.
pub const TARGET_FOLDER: &'static str = "target";

/// Name of the lock file written next to the configuration.
pub const LOCK_FILE_NAME: &'static str = "lazy-java.lock";

/// Name of the project's configuration file.
pub const CONFIG_FILE_NAME: &'static str = "lazy-java.toml";

/// Name of the file that records metadata of the last build.
pub const BUILD_METADATA_NAME: &'static str = ".lazy-java-build";

/// A Maven group id as a path: every `.` becomes `/`.
pub open spec fn group_path(group: Seq<char>) -> Seq<char> {
    group.map_values(|c: char| if c == '.' { '/' } else { c })
}

/// The directory URL of an artifact on Maven Central:
/// `MAVEN_URL`, the group as a path, `/`, the artifact, `/`.
pub open spec fn maven_url(group: Seq<char>, artifact: Seq<char>) -> Seq<char> {
    MAVEN_URL@ + group_path(group) + seq!['/'] + artifact + seq!['/']
}

/// A group path holds no `.`: every dot of the group id became a `/`.
pub proof fn lemma_group_path_has_no_dot(group: Seq<char>)
    ensures
        group_path(group).len() == group.len(),
        forall|i: int| 0 <= i < group.len() ==> #[trigger] group_path(group)[i] != '.',
{
}

/// The layout of a Maven URL: the repository root, the group with each `.`
/// turned into `/` (and nothing else changed), `/`, the artifact exactly as
/// given, and a final `/`.
pub proof fn lemma_maven_url_layout(group: Seq<char>, artifact: Seq<char>)
    ensures
        maven_url(group, artifact).len() == MAVEN_URL@.len() + group.len() + artifact.len() + 2,
        maven_url(group, artifact).subrange(0, MAVEN_URL@.len() as int) == MAVEN_URL@,
        forall|i: int|
            0 <= i < group.len() ==> maven_url(group, artifact)[MAVEN_URL@.len() + i] == if #[trigger] group[i]
                == '.' {
                '/'
            } else {
                group[i]
            },
        maven_url(group, artifact)[(MAVEN_URL@.len() + group.len()) as int] == '/',
        maven_url(group, artifact).subrange(
            (MAVEN_URL@.len() + group.len() + 1) as int,
            (MAVEN_URL@.len() + group.len() + 1 + artifact.len()) as int,
        ) == artifact,
        maven_url(group, artifact).last() == '/',
{
    let u = maven_url(group, artifact);
    let m = MAVEN_URL@.len() as int;
    let g = group.len() as int;
    assert(u.subrange(0, m) =~= MAVEN_URL@);
    assert forall|i: int| 0 <= i < g implies u[m + i] == if #[trigger] group[i] == '.' {
        '/'
    } else {
        group[i]
    } by {
        assert(u[m + i] == group_path(group)[i]);
    }
    assert(u.subrange(m + g + 1, m + g + 1 + artifact.len()) =~= artifact);
}

/// Builds the URL of the directory that holds every version of
/// `group:artifact` on Maven Central.
pub fn create_maven_url(group: &str, artifact: &str) -> (url: String)
    ensures
        url@ == maven_url(group@, artifact@),
{
    let mut url = MAVEN_URL.to_owned();
    let g = text::chars_of(group);
    let mut i: usize = 0;
    while i < g.len()
        invariant
            i <= g@.len(),
            g@ == group@,
            url@ == MAVEN_URL@ + group_path(group@.take(i as int)),
        decreases g@.len() - i,
    {
        let c = g[i];
        text::push_char(&mut url, if c == '.' { '/' } else { c });
        assert(group@.take(i as int + 1) == group@.take(i as int).push(c));
        assert(group_path(group@.take(i as int + 1)) == group_path(group@.take(i as int)).push(if c == '.' { '/' } else { c }));
        i = i + 1;
    }
    assert(group@.take(g@.len() as int) == group@);
    text::push_char(&mut url, '/');
    text::push_str(&mut url, artifact);
    text::push_char(&mut url, '/');
    url
}

} // verus!
