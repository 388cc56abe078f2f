//! Finding the classes of a source file that declare a `main` method.

use std::path::PathBuf;
use vstd::prelude::*;
use vstd::utf8::*;
use vstd::string::StringSliceAdditionalSpecFns;

use crate::build::graph::class_info::{body_bytes, class_body, lemma_body_shorter};
use crate::patterns::{
    all_matches, find_all, find_at, group, group_text, match_end, search, spans_fit, Spans,
    CLASS_GROUP, CLASS_PATTERN, MAIN_PATTERN, PACKAGE_GROUP, PACKAGE_PATTERN,
};
use crate::text::{lemma_encode_concat, push_char, push_str, substring};

verus! {

#[verifier::external_type_specification]
#[verifier::external_body]
pub struct ExPathBuf(PathBuf);

/// `PathBuf::clone`: a copy of the path.
#[verifier::external_body]
fn copy_path(p: &PathBuf) -> (q: PathBuf)
    ensures
        q == *p,
{
    p.clone()
}

/// A class with a `main` method.
#[derive(Debug)]
pub struct MainClass {
    /// The source file that declares it.
    pub path: PathBuf,
    /// Its simple name.
    pub classname: String,
    /// Its name qualified by the package and the enclosing classes.
    pub full_package_name: String,
}

/// `name` qualified by `package`: `package.name`, or `name` alone where the
/// package is empty.
pub open spec fn qualified(package: Seq<char>, name: Seq<char>) -> Seq<char> {
    if package.len() == 0 {
        name
    } else {
        package + seq!['.'] + name
    }
}

/// `bytes` without `bytes[span.0..span.1]`.
pub open spec fn cut(bytes: Seq<u8>, span: (usize, usize)) -> Seq<u8> {
    bytes.subrange(0, span.0 as int) + bytes.subrange(span.1 as int, bytes.len() as int)
}

/// The class body `bytes` with its `main` method taken out, where it has
/// one.
pub open spec fn without_main(bytes: Seq<u8>) -> Seq<u8> {
    match search(MAIN_PATTERN@, bytes, 0) {
        Some(spans) => if spans_fit(bytes, 0, spans) {
            cut(bytes, spans[0]->0)
        } else {
            bytes
        },
        None => bytes,
    }
}

/// Whether the class body `bytes` declares a `main` method.
pub open spec fn has_main(bytes: Seq<u8>) -> bool {
    search(MAIN_PATTERN@, bytes, 0) matches Some(spans) && spans_fit(bytes, 0, spans)
}

pub proof fn lemma_without_main_len(bytes: Seq<u8>)
    ensures
        without_main(bytes).len() <= bytes.len(),
{
}

/// The main classes of the class `classname` whose body is `bytes`, in the
/// package `package`: the class itself where its body has a `main` method,
/// then those of each class declared in the rest of the body, in order. As
/// pairs of the simple and the qualified name.
pub open spec fn main_classes(classname: Seq<char>, bytes: Seq<u8>, package: Seq<char>) -> Seq<(Seq<char>, Seq<char>)>
    decreases bytes.len(), 1int, 0int,
{
    let own = if has_main(bytes) {
        seq![(classname, qualified(package, classname))]
    } else {
        Seq::empty()
    };
    let rest = without_main(bytes);
    proof {
        lemma_without_main_len(bytes);
    }
    own + inner_main_classes(rest, qualified(package, classname), all_matches(CLASS_PATTERN@, rest, 0))
}

/// The main classes of the classes that the matches `found` declare in
/// `bytes`, inside the class qualified as `outer`.
pub open spec fn inner_main_classes(bytes: Seq<u8>, outer: Seq<char>, found: Seq<Spans>) -> Seq<(Seq<char>, Seq<char>)>
    decreases bytes.len(), 0int, found.len(),
{
    if found.len() == 0 {
        Seq::empty()
    } else {
        let before = inner_main_classes(bytes, outer, found.drop_last());
        let spans = found.last();
        match group_text(bytes, spans, CLASS_GROUP as int) {
            Some(name) => if match_end(spans) >= 1 {
                match body_bytes(bytes, match_end(spans) - 1) {
                    Some(body) => {
                        proof {
                            lemma_body_shorter(bytes, match_end(spans) - 1);
                        }
                        before + main_classes(name, body, outer)
                    },
                    None => before,
                }
            } else {
                before
            },
            None => before,
        }
    }
}

/// `found` holds the main classes `expected`, all declared in `file`.
pub open spec fn lists(found: Seq<MainClass>, expected: Seq<(Seq<char>, Seq<char>)>, file: PathBuf) -> bool {
    &&& found.len() == expected.len()
    &&& forall|i: int|
        0 <= i < found.len() ==> {
            &&& (#[trigger] found[i]).classname@ == expected[i].0
            &&& found[i].full_package_name@ == expected[i].1
            &&& found[i].path == file
        }
}

/// Each main class that `find_main_class` reports has a qualified name that
/// ends with its simple name.
pub proof fn lemma_found_names(found: Seq<MainClass>, classname: Seq<char>, bytes: Seq<u8>, package: Seq<char>, file: PathBuf)
    requires
        lists(found, main_classes(classname, bytes, package), file),
    ensures
        forall|i: int| 0 <= i < found.len() ==> ends_with((#[trigger] found[i]).full_package_name@, found[i].classname@),
{
    lemma_main_class_names(classname, bytes, package);
    assert forall|i: int| 0 <= i < found.len() implies ends_with((#[trigger] found[i]).full_package_name@, found[i].classname@) by {
        assert(main_classes(classname, bytes, package)[i].1 == found[i].full_package_name@);
    }
}

/// `a` followed by `b` lists `x` followed by `y`.
proof fn lemma_lists_append(
    a: Seq<MainClass>,
    b: Seq<MainClass>,
    x: Seq<(Seq<char>, Seq<char>)>,
    y: Seq<(Seq<char>, Seq<char>)>,
    file: PathBuf,
)
    requires
        lists(a, x, file),
        lists(b, y, file),
    ensures
        lists(a + b, x + y, file),
{
    assert forall|i: int| 0 <= i < (a + b).len() implies {
        &&& (#[trigger] (a + b)[i]).classname@ == (x + y)[i].0
        &&& (a + b)[i].full_package_name@ == (x + y)[i].1
        &&& (a + b)[i].path == file
    } by {
        if i < a.len() {
        } else {
            assert((a + b)[i] == b[i - a.len()]);
            assert((x + y)[i] == y[i - x.len()]);
        }
    }
}

/// `content` with the bytes `content[from..to]` taken out, both ends on
/// character boundaries.
pub fn without_span(content: &str, from: usize, to: usize) -> (r: String)
    requires
        from <= to <= content.spec_bytes().len(),
        is_char_boundary(content.spec_bytes(), from as int),
        is_char_boundary(content.spec_bytes(), to as int),
    ensures
        encode_utf8(r@) == cut(content.spec_bytes(), (from, to)),
{
    proof {
        encode_utf8_valid_utf8(content@);
        is_char_boundary_start_end_of_seq(content.spec_bytes());
    }
    let len = content.as_bytes().len();
    let mut r = substring(content, 0, from);
    let tail = substring(content, to, len);
    let ghost head_chars = r@;
    push_str(&mut r, tail.as_str());
    proof {
        lemma_encode_concat(head_chars, tail@);
    }
    r
}

/// `package` followed by `.` and `name`, or `name` alone where the package is
/// empty.
fn qualify(package: &str, name: &str) -> (q: String)
    ensures
        q@ == qualified(package@, name@),
{
    let mut q = package.to_owned();
    if package.as_bytes().len() != 0 {
        push_char(&mut q, '.');
    }
    proof {
        if package@.len() == 0 {
            assert(encode_utf8(package@) == Seq::<u8>::empty());
        } else {
            assert(encode_utf8(package@).len() > 0) by {
                reveal_with_fuel(encode_utf8, 1);
            }
        }
    }
    push_str(&mut q, name);
    q
}

/// Finds the classes with a `main` method in the class `classname` whose
/// body is `content`, declared in `package` and in the file `file`: the class
/// itself if its body declares `main`, then, recursively, the classes
/// declared in the rest of its body.
pub fn find_main_class(classname: &str, content: &str, package: &str, file: &PathBuf) -> (found: Vec<MainClass>)
    ensures
        lists(found@, main_classes(classname@, content.spec_bytes(), package@), *file),
    decreases content.spec_bytes().len(),
{
    broadcast use vstd::utf8::group_utf8_lib;

    let ghost bytes = content.spec_bytes();
    let full_package = qualify(package, classname);
    let mut found: Vec<MainClass> = Vec::new();
    let removed = match find_at(MAIN_PATTERN, content, 0) {
        Some(spans) => {
            let (a, b) = match spans[0] {
                Some(span) => span,
                None => (0, 0),
            };
            assert(spans@[0] is Some);
            let r = without_span(content, a, b);
            found.push(
                MainClass {
                    path: copy_path(file),
                    classname: classname.to_owned(),
                    full_package_name: full_package.clone(),
                },
            );
            r
        },
        None => content.to_owned(),
    };
    let ghost rest = without_main(bytes);
    let removed_str = removed.as_str();
    assert(removed_str.spec_bytes() == rest);
    let ghost own = if has_main(bytes) {
        seq![(classname@, qualified(package@, classname@))]
    } else {
        Seq::empty()
    };
    assert(lists(found@, own, *file));
    let inner = find_all(CLASS_PATTERN, removed_str);
    let ghost all = all_matches(CLASS_PATTERN@, rest, 0);
    let ghost outer = qualified(package@, classname@);
    proof {
        lemma_without_main_len(bytes);
    }
    let mut i: usize = 0;
    while i < inner.len()
        invariant
            i <= inner@.len(),
            removed_str.spec_bytes() == rest,
            rest.len() <= bytes.len(),
            bytes == content.spec_bytes(),
            full_package@ == outer,
            inner@.map_values(|v: Vec<Option<(usize, usize)>>| v@) == all,
            forall|k: int| 0 <= k < inner@.len() ==> spans_fit(rest, 0, #[trigger] inner@[k]@),
            lists(found@, own + inner_main_classes(rest, outer, all.take(i as int)), *file),
        decreases inner@.len() - i,
    {
        let spans = &inner[i];
        assert(all[i as int] == spans@);
        assert(all.take(i + 1).drop_last() == all.take(i as int));
        let ghost before = inner_main_classes(rest, outer, all.take(i as int));
        if let Some(name) = group(removed_str, spans, CLASS_GROUP) {
            let end = match spans[0] {
                Some((_, e)) => e,
                None => 0,
            };
            assert(end as int == match_end(spans@));
            if end >= 1 {
                if let Some(body) = class_body(removed_str, end - 1) {
                    proof {
                        lemma_body_shorter(rest, end - 1);
                    }
                    let body_str = body.as_str();
                    assert(body_str.spec_bytes() == body_bytes(rest, end - 1)->0);
                    let mut classes = find_main_class(name.as_str(), body_str, full_package.as_str(), file);
                    let ghost prev = found@;
                    proof {
                        lemma_lists_append(prev, classes@, own + before, main_classes(name@, body_str.spec_bytes(), outer), *file);
                        assert(own + before + main_classes(name@, body_str.spec_bytes(), outer)
                            =~= own + (before + main_classes(name@, body_str.spec_bytes(), outer)));
                    }
                    found.append(&mut classes);
                }
            }
        }
        i = i + 1;
    }
    assert(all.take(i as int) == all);
    found
}

/// The main classes of a source file whose text is `bytes`: those of its
/// first type declaration, in the package that the file declares.
pub open spec fn source_main_classes(bytes: Seq<u8>) -> Seq<(Seq<char>, Seq<char>)> {
    let package = match search(PACKAGE_PATTERN@, bytes, 0) {
        Some(spans) => match group_text(bytes, spans, PACKAGE_GROUP as int) {
            Some(p) => p,
            None => Seq::empty(),
        },
        None => Seq::empty(),
    };
    match search(CLASS_PATTERN@, bytes, 0) {
        Some(spans) => if spans_fit(bytes, 0, spans) && match_end(spans) >= 1 {
            match (group_text(bytes, spans, CLASS_GROUP as int), body_bytes(bytes, match_end(spans) - 1)) {
                (Some(name), Some(body)) => main_classes(name, body, package),
                _ => Seq::empty(),
            }
        } else {
            Seq::empty()
        },
        None => Seq::empty(),
    }
}

/// The classes with a `main` method in the source file `file` whose text is
/// `content`: the first type declaration and the classes nested in it,
/// qualified by the package that the file declares.
pub fn main_classes_in(content: &str, file: &PathBuf) -> (found: Vec<MainClass>)
    ensures
        lists(found@, source_main_classes(content.spec_bytes()), *file),
{
    let ghost bytes = content.spec_bytes();
    let package = match find_at(PACKAGE_PATTERN, content, 0) {
        Some(spans) => match group(content, &spans, PACKAGE_GROUP) {
            Some(p) => p,
            None => String::new(),
        },
        None => String::new(),
    };
    let class = match find_at(CLASS_PATTERN, content, 0) {
        Some(spans) => spans,
        None => return Vec::new(),
    };
    let end = match class[0] {
        Some((_, e)) => e,
        None => 0,
    };
    assert(end as int == match_end(class@));
    if end < 1 {
        return Vec::new();
    }
    let classname = match group(content, &class, CLASS_GROUP) {
        Some(n) => n,
        None => return Vec::new(),
    };
    match class_body(content, end - 1) {
        Some(body) => find_main_class(classname.as_str(), body.as_str(), package.as_str(), file),
        None => Vec::new(),
    }
}


/// `text` ends with `suffix`.
pub open spec fn ends_with(text: Seq<char>, suffix: Seq<char>) -> bool {
    text.len() >= suffix.len() && text.subrange(text.len() - suffix.len(), text.len() as int) == suffix
}

/// Every name `qualified` builds ends with the simple name.
pub proof fn lemma_qualified_ends_with_name(package: Seq<char>, name: Seq<char>)
    ensures
        ends_with(qualified(package, name), name),
{
    let q = qualified(package, name);
    if package.len() == 0 {
        assert(q.subrange(0, q.len() as int) == q);
    } else {
        assert(q.subrange(q.len() - name.len(), q.len() as int) =~= name);
    }
}

/// Every main class found in a class body has a qualified name that ends
/// with its simple name.
pub proof fn lemma_main_class_names(classname: Seq<char>, bytes: Seq<u8>, package: Seq<char>)
    ensures
        forall|i: int|
            0 <= i < main_classes(classname, bytes, package).len() ==> ends_with(
                #[trigger] main_classes(classname, bytes, package)[i].1,
                main_classes(classname, bytes, package)[i].0,
            ),
    decreases bytes.len(), 1int, 0int,
{
    let own = if has_main(bytes) {
        seq![(classname, qualified(package, classname))]
    } else {
        Seq::empty()
    };
    let rest = without_main(bytes);
    let outer = qualified(package, classname);
    let all = all_matches(CLASS_PATTERN@, rest, 0);
    lemma_without_main_len(bytes);
    lemma_qualified_ends_with_name(package, classname);
    lemma_inner_main_class_names(rest, outer, all);
    let inner = inner_main_classes(rest, outer, all);
    let r = main_classes(classname, bytes, package);
    assert(r == own + inner);
    assert forall|i: int| 0 <= i < r.len() implies ends_with(#[trigger] r[i].1, r[i].0) by {
        if i >= own.len() {
            assert(r[i] == inner[i - own.len()]);
        }
    }
}

/// Every main class found in the classes that `found` declares has a
/// qualified name that ends with its simple name.
pub proof fn lemma_inner_main_class_names(bytes: Seq<u8>, outer: Seq<char>, found: Seq<Spans>)
    ensures
        forall|i: int|
            0 <= i < inner_main_classes(bytes, outer, found).len() ==> ends_with(
                #[trigger] inner_main_classes(bytes, outer, found)[i].1,
                inner_main_classes(bytes, outer, found)[i].0,
            ),
    decreases bytes.len(), 0int, found.len(),
{
    if found.len() > 0 {
        lemma_inner_main_class_names(bytes, outer, found.drop_last());
        let before = inner_main_classes(bytes, outer, found.drop_last());
        let spans = found.last();
        let r = inner_main_classes(bytes, outer, found);
        if let Some(name) = group_text(bytes, spans, CLASS_GROUP as int) {
            if match_end(spans) >= 1 {
                if let Some(body) = body_bytes(bytes, match_end(spans) - 1) {
                    lemma_body_shorter(bytes, match_end(spans) - 1);
                    lemma_main_class_names(name, body, outer);
                    let m = main_classes(name, body, outer);
                    assert(r == before + m);
                    assert forall|i: int| 0 <= i < r.len() implies ends_with(#[trigger] r[i].1, r[i].0) by {
                        if i >= before.len() {
                            assert(r[i] == m[i - before.len()]);
                        }
                    }
                }
            }
        }
    }
}


/// A found main class as values: its file, simple and qualified name.
pub open spec fn main_class_view(m: MainClass) -> (PathBuf, Seq<char>, Seq<char>) {
    (m.path, m.classname@, m.full_package_name@)
}

/// Names of main classes, each with the file that declares it.
pub open spec fn in_file(file: PathBuf, found: Seq<(Seq<char>, Seq<char>)>) -> Seq<(PathBuf, Seq<char>, Seq<char>)> {
    found.map_values(|x: (Seq<char>, Seq<char>)| (file, x.0, x.1))
}

/// The main classes of several source files, each given by its path and its
/// text: those of each file (see `source_main_classes`), file after file.
pub open spec fn sources_main_classes(sources: Seq<(PathBuf, String)>) -> Seq<(PathBuf, Seq<char>, Seq<char>)>
    decreases sources.len(),
{
    if sources.len() == 0 {
        Seq::empty()
    } else {
        sources_main_classes(sources.drop_last()) + in_file(
            sources.last().0,
            source_main_classes(encode_utf8(sources.last().1@)),
        )
    }
}

/// The classes with a `main` method in several source files, given by path
/// and text, file after file in the order given.
pub fn main_classes_in_sources(sources: &Vec<(PathBuf, String)>) -> (found: Vec<MainClass>)
    ensures
        found@.map_values(|m: MainClass| main_class_view(m)) == sources_main_classes(sources@),
{
    let mut found: Vec<MainClass> = Vec::new();
    let mut i: usize = 0;
    while i < sources.len()
        invariant
            i <= sources@.len(),
            found@.map_values(|m: MainClass| main_class_view(m)) == sources_main_classes(sources@.take(i as int)),
        decreases sources@.len() - i,
    {
        let text = sources[i].1.as_str();
        let mut part = main_classes_in(text, &sources[i].0);
        let ghost before = found@;
        let ghost expected = source_main_classes(text.spec_bytes());
        assert(sources@.take(i + 1).drop_last() =~= sources@.take(i as int));
        assert(sources@.take(i + 1).last() == sources@[i as int]);
        assert(text.spec_bytes() == encode_utf8(sources@[i as int].1@));
        assert(part@.map_values(|m: MainClass| main_class_view(m)) =~= in_file(sources@[i as int].0, expected));
        let ghost part_view = part@;
        found.append(&mut part);
        assert(found@ == before + part_view);
        assert(found@.map_values(|m: MainClass| main_class_view(m)) =~= before.map_values(
            |m: MainClass| main_class_view(m),
        ) + part_view.map_values(|m: MainClass| main_class_view(m)));
        i = i + 1;
    }
    assert(sources@.take(i as int) == sources@);
    found
}

#[verifier::external_type_specification]
#[verifier::external_body]
pub struct ExGlob(globset::Glob);

#[verifier::external_type_specification]
#[verifier::external_body]
pub struct ExGlobSetBuilder(globset::GlobSetBuilder);

#[verifier::external_type_specification]
#[verifier::external_body]
pub struct ExGlobSet(globset::GlobSet);

/// The pattern a `globset::Glob` was built from (its `glob` field, which
/// `Glob::glob` gives back).
pub uninterp spec fn glob_pattern(glob: globset::Glob) -> Seq<char>;

/// The patterns of the globs a `globset::GlobSetBuilder` holds (its `pats`
/// field), in the order they were added.
pub uninterp spec fn builder_patterns(builder: globset::GlobSetBuilder) -> Seq<Seq<char>>;

/// The number of globs a `globset::GlobSet` holds (its `len` field).
pub uninterp spec fn set_len(set: globset::GlobSet) -> nat;

/// Whether `globset::Glob::new` accepts a pattern.
pub uninterp spec fn glob_parses(pattern: Seq<char>) -> bool;

/// Whether `globset::GlobSetBuilder::build` succeeds on globs built, with the
/// default options, from these patterns.
pub uninterp spec fn globs_compile(patterns: Seq<Seq<char>>) -> bool;

/// Whether the glob built, with the default options, from `pattern` matches
/// `path` (`Glob::compile_matcher().is_match(path)`).
pub uninterp spec fn glob_matches(pattern: Seq<char>, path: PathBuf) -> bool;

/// What `globset::GlobSet::is_match` gives for a path.
pub uninterp spec fn set_accepts(set: globset::GlobSet, path: PathBuf) -> bool;

/// Whether `path.extension()` is `java`.
pub uninterp spec fn java_extension(path: PathBuf) -> bool;

/// Some glob of `patterns` matches `path`.
pub open spec fn any_glob_matches(patterns: Seq<Seq<char>>, path: PathBuf) -> bool {
    exists|i: int| 0 <= i < patterns.len() && glob_matches(#[trigger] patterns[i], path)
}

/// `globset::GlobSetBuilder::new`: a builder that holds no glob.
#[verifier::external_body]
fn new_builder() -> (builder: globset::GlobSetBuilder)
    ensures
        builder_patterns(builder) == Seq::<Seq<char>>::empty(),
{
    globset::GlobSetBuilder::new()
}

/// `globset::Glob::new`: the glob of `pattern`, or `None` where it does not
/// parse. Trusted: whether it parses is what `glob_parses` gives, and the
/// glob keeps the pattern it was built from.
#[verifier::external_body]
fn parse_glob(pattern: &str) -> (glob: Option<globset::Glob>)
    ensures
        glob is Some == glob_parses(pattern@),
        glob matches Some(g) ==> glob_pattern(g) == pattern@,
{
    globset::Glob::new(pattern).ok()
}

/// `globset::GlobSetBuilder::add`: pushes the glob onto the end of the
/// builder's list; nothing else changes.
#[verifier::external_body]
fn add_glob(builder: &mut globset::GlobSetBuilder, glob: globset::Glob)
    ensures
        builder_patterns(*final(builder)) == builder_patterns(*old(builder)).push(glob_pattern(glob)),
{
    builder.add(glob);
}

/// `globset::GlobSetBuilder::build`: the set of the builder's globs, or
/// `None` where compiling them fails. Trusted: it succeeds exactly where
/// `globs_compile` holds of the builder's patterns (nothing but the globs
/// goes into it), always where there is no glob (`GlobSet::new` returns
/// `GlobSet::empty()` then), the set counts one glob per pattern, and, as
/// `GlobSet::is_match` documents, the set matches a path exactly where one of
/// its globs does.
#[verifier::external_body]
fn build_set(builder: &globset::GlobSetBuilder) -> (set: Option<globset::GlobSet>)
    ensures
        set is Some == globs_compile(builder_patterns(*builder)),
        builder_patterns(*builder).len() == 0 ==> set is Some,
        set matches Some(s) ==> set_len(s) == builder_patterns(*builder).len(),
        set matches Some(s) ==> forall|path: PathBuf|
            #[trigger] set_accepts(s, path) == exists|i: int|
                0 <= i < builder_patterns(*builder).len() && glob_matches(
                    #[trigger] builder_patterns(*builder)[i],
                    path,
                ),
{
    builder.build().ok()
}

/// The rules of `rules` that are valid globs, in order.
pub open spec fn valid_globs(rules: Seq<Seq<char>>) -> Seq<Seq<char>>
    decreases rules.len(),
{
    if rules.len() == 0 {
        Seq::empty()
    } else if glob_parses(rules.last()) {
        valid_globs(rules.drop_last()).push(rules.last())
    } else {
        valid_globs(rules.drop_last())
    }
}

/// Compiles the exclusion rules into one glob set, skipping a rule that is
/// not a valid glob: `Some` exactly where the valid globs compile together
/// (always where there is none), holding one glob per valid rule and
/// matching a path exactly where the glob of a valid rule does.
pub fn build_globset(excluded: &[String]) -> (set: Option<globset::GlobSet>)
    ensures
        set is Some == globs_compile(valid_globs(excluded@.map_values(|r: String| r@))),
        valid_globs(excluded@.map_values(|r: String| r@)).len() == 0 ==> set is Some,
        set matches Some(s) ==> set_len(s) == valid_globs(excluded@.map_values(|r: String| r@)).len(),
        set matches Some(s) ==> forall|path: PathBuf|
            #[trigger] set_accepts(s, path) == any_glob_matches(
                valid_globs(excluded@.map_values(|r: String| r@)),
                path,
            ),
{
    let ghost rules = excluded@.map_values(|r: String| r@);
    let mut builder = new_builder();
    let mut i: usize = 0;
    while i < excluded.len()
        invariant
            i <= excluded@.len(),
            rules == excluded@.map_values(|r: String| r@),
            builder_patterns(builder) == valid_globs(rules.take(i as int)),
        decreases excluded@.len() - i,
    {
        assert(rules.take(i + 1).drop_last() == rules.take(i as int));
        assert(rules.take(i + 1).last() == excluded@[i as int]@);
        match parse_glob(excluded[i].as_str()) {
            Some(glob) => add_glob(&mut builder, glob),
            None => {},
        }
        i = i + 1;
    }
    assert(rules.take(i as int) == rules);
    build_set(&builder)
}

/// `globset::GlobSet::is_match` on a path.
#[verifier::external_body]
fn set_is_match(set: &globset::GlobSet, path: &PathBuf) -> (r: bool)
    ensures
        r == set_accepts(*set, *path),
{
    set.is_match(path)
}

/// `Path::extension`, compared with `java`.
#[verifier::external_body]
fn has_java_extension(path: &PathBuf) -> (r: bool)
    ensures
        r == java_extension(*path),
{
    path.extension().is_some_and(|e| e == "java")
}

/// Whether the exclusion set matches a walked entry: its path or its file
/// name `name`.
pub fn is_excluded(set: &globset::GlobSet, path: &PathBuf, name: &PathBuf) -> (r: bool)
    ensures
        r == (set_accepts(*set, *path) || set_accepts(*set, *name)),
{
    set_is_match(set, path) || set_is_match(set, name)
}

/// Whether a walked entry is a Java source to build: a file with the `java`
/// extension that the exclusion set does not match.
pub fn keep_java_file(set: &globset::GlobSet, path: &PathBuf, name: &PathBuf, is_file: bool) -> (r: bool)
    ensures
        r == (is_file && java_extension(*path) && !set_accepts(*set, *path) && !set_accepts(*set, *name)),
{
    is_file && has_java_extension(path) && !is_excluded(set, path, name)
}

/// Whether an entry of a directory enters the source graph: not matched by
/// the exclusion set, and a Java file or a directory.
pub fn keep_entry(set: &globset::GlobSet, path: &PathBuf, name: &PathBuf, is_dir: bool) -> (r: bool)
    ensures
        r == (!(set_accepts(*set, *path) || set_accepts(*set, *name)) && (java_extension(*path) || is_dir)),
{
    let ex = is_excluded(set, path, name);
    let is_java = has_java_extension(path) || is_dir;
    !ex && is_java
}

/// The paths of the entries that `keep_java_file` accepts, in order.
pub open spec fn selected(set: globset::GlobSet, entries: Seq<(PathBuf, PathBuf, bool)>) -> Seq<PathBuf>
    decreases entries.len(),
{
    if entries.len() == 0 {
        Seq::empty()
    } else {
        let e = entries.last();
        let before = selected(set, entries.drop_last());
        if e.2 && java_extension(e.0) && !set_accepts(set, e.0) && !set_accepts(set, e.1) {
            before.push(e.0)
        } else {
            before
        }
    }
}

/// The Java sources among walked entries, each given by its path, its file
/// name and whether it is a file, in walk order.
pub fn select_java_files(set: &globset::GlobSet, entries: &Vec<(PathBuf, PathBuf, bool)>) -> (files: Vec<PathBuf>)
    ensures
        files@ == selected(*set, entries@),
{
    let mut files: Vec<PathBuf> = Vec::new();
    let mut i: usize = 0;
    while i < entries.len()
        invariant
            i <= entries@.len(),
            files@ == selected(*set, entries@.take(i as int)),
        decreases entries@.len() - i,
    {
        assert(entries@.take(i + 1).drop_last() =~= entries@.take(i as int));
        assert(entries@.take(i + 1).last() == entries@[i as int]);
        let (path, name, is_file) = &entries[i];
        if keep_java_file(set, path, name, *is_file) {
            files.push(copy_path(path));
        }
        i = i + 1;
    }
    assert(entries@.take(i as int) =~= entries@);
    files
}

/// What the selection of Java sources gives: every selected path is the path
/// of an entry that is a file, has the `java` extension, and neither its path
/// nor its file name is matched by the exclusion set; every such entry's path
/// is selected; and entries keep their walk order.
pub proof fn lemma_selected_entries(set: globset::GlobSet, entries: Seq<(PathBuf, PathBuf, bool)>)
    ensures
        selected(set, entries).len() <= entries.len(),
        forall|k: int|
            #![trigger selected(set, entries)[k]]
            0 <= k < selected(set, entries).len() ==> exists|j: int|
                0 <= j < entries.len() && (#[trigger] entries[j]).0 == selected(set, entries)[k]
                    && entries[j].2 && java_extension(entries[j].0) && !set_accepts(set, entries[j].0)
                    && !set_accepts(set, entries[j].1),
        forall|j: int|
            0 <= j < entries.len() && entries[j].2 && java_extension(entries[j].0) && !set_accepts(
                set,
                entries[j].0,
            ) && !set_accepts(set, entries[j].1) ==> selected(set, entries).contains(
                (#[trigger] entries[j]).0,
            ),
        forall|j: int|
            0 <= j < entries.len() && set_accepts(set, (#[trigger] entries[j]).1) && (forall|i: int|
                0 <= i < entries.len() && entries[i].0 == entries[j].0 ==> i == j)
                ==> !selected(set, entries).contains(entries[j].0),
    decreases entries.len(),
{
    if entries.len() > 0 {
        let init = entries.drop_last();
        let e = entries.last();
        lemma_selected_entries(set, init);
        let before = selected(set, init);
        let r = selected(set, entries);
        assert forall|k: int| #![trigger r[k]] 0 <= k < r.len() implies exists|j: int|
            0 <= j < entries.len() && (#[trigger] entries[j]).0 == r[k] && entries[j].2
                && java_extension(entries[j].0) && !set_accepts(set, entries[j].0) && !set_accepts(
                set,
                entries[j].1,
            ) by {
            if k < before.len() {
                assert(r[k] == before[k]);
                let j = choose|j: int|
                    0 <= j < init.len() && (#[trigger] init[j]).0 == before[k] && init[j].2
                        && java_extension(init[j].0) && !set_accepts(set, init[j].0) && !set_accepts(
                        set,
                        init[j].1,
                    );
                assert(entries[j] == init[j]);
            } else {
                assert(entries[entries.len() - 1] == e);
            }
        }
        assert forall|j: int|
            0 <= j < entries.len() && entries[j].2 && java_extension(entries[j].0) && !set_accepts(
                set,
                entries[j].0,
            ) && !set_accepts(set, entries[j].1) implies r.contains((#[trigger] entries[j]).0) by {
            if j < init.len() {
                assert(init[j] == entries[j]);
                assert(before.contains(init[j].0));
                let k = choose|k: int| 0 <= k < before.len() && before[k] == init[j].0;
                assert(r[k] == before[k]);
            } else {
                assert(entries[j] == e);
                assert(r[r.len() - 1] == e.0);
            }
        }
        assert forall|j: int|
            0 <= j < entries.len() && set_accepts(set, (#[trigger] entries[j]).1) && (forall|i: int|
                0 <= i < entries.len() && entries[i].0 == entries[j].0 ==> i == j) implies !r.contains(
            entries[j].0,
        ) by {
            if r.contains(entries[j].0) {
                let k = choose|k: int| 0 <= k < r.len() && r[k] == entries[j].0;
                let i = choose|i: int|
                    0 <= i < entries.len() && (#[trigger] entries[i]).0 == r[k] && entries[i].2
                        && java_extension(entries[i].0) && !set_accepts(set, entries[i].0) && !set_accepts(
                        set,
                        entries[i].1,
                    );
                assert(i == j);
            }
        }
    }
}

} // verus!
