//! The source graph of a project: directories and Java files, with the
//! package of each, what each file imports, and its type declaration.

use std::path::PathBuf;
use vstd::prelude::*;
use vstd::string::StringSliceAdditionalSpecFns;

use crate::build::graph::class_info::{first_class, ClassInfo};
use crate::build::graph::package::{contains_package, package_named, package_views, Package, PackageView};
use crate::patterns::{
    all_matches, find_all, find_at, group, group_text, search, spans_fit, Spans, IMPORT_GROUP,
    IMPORT_PATTERN, PACKAGE_GROUP, PACKAGE_PATTERN, STATIC_GROUP,
};

verus! {

/// What a Java file's text says of the file: its package, what it imports,
/// and its first type declaration.
#[derive(Debug)]
pub struct FileFacts {
    /// The declared package name; empty where there is none.
    pub package: String,
    /// The imported names, each once, in order of first import.
    pub imports: Vec<Package>,
    /// The first type declaration.
    pub info: Option<ClassInfo>,
}

/// The package name that the UTF-8 text `bytes` declares; empty where it
/// declares none.
pub open spec fn package_text(bytes: Seq<u8>) -> Seq<char> {
    match search(PACKAGE_PATTERN@, bytes, 0) {
        Some(spans) => match group_text(bytes, spans, PACKAGE_GROUP as int) {
            Some(p) => p,
            None => Seq::empty(),
        },
        None => Seq::empty(),
    }
}

/// The packages that the import matches `found` name, in order.
pub open spec fn imported(bytes: Seq<u8>, found: Seq<Spans>) -> Seq<PackageView>
    decreases found.len(),
{
    if found.len() == 0 {
        Seq::empty()
    } else {
        let before = imported(bytes, found.drop_last());
        match group_text(bytes, found.last(), IMPORT_GROUP as int) {
            Some(name) => before.push(
                package_named(name, group_text(bytes, found.last(), STATIC_GROUP as int) is Some),
            ),
            None => before,
        }
    }
}

/// `s` with each element after its first occurrence left out.
pub open spec fn dedup<T>(s: Seq<T>) -> Seq<T>
    decreases s.len(),
{
    if s.len() == 0 {
        Seq::empty()
    } else {
        let d = dedup(s.drop_last());
        if d.contains(s.last()) {
            d
        } else {
            d.push(s.last())
        }
    }
}

/// The packages that the UTF-8 text `bytes` imports, each once, in order of
/// first import.
pub open spec fn imports_of(bytes: Seq<u8>) -> Seq<PackageView> {
    dedup(imported(bytes, all_matches(IMPORT_PATTERN@, bytes, 0)))
}

/// Reads the package, the imports and the first type declaration of a Java
/// file from its text.
pub fn file_facts(contents: &str) -> (f: FileFacts)
    ensures
        f.package@ == package_text(contents.spec_bytes()),
        package_views(f.imports@) == imports_of(contents.spec_bytes()),
        match f.info {
            Some(c) => first_class(contents.spec_bytes()) == Some(c@),
            None => first_class(contents.spec_bytes()) is None,
        },
{
    let ghost bytes = contents.spec_bytes();
    let package = match find_at(PACKAGE_PATTERN, contents, 0) {
        Some(spans) => match group(contents, &spans, PACKAGE_GROUP) {
            Some(p) => p,
            None => String::new(),
        },
        None => String::new(),
    };
    let found = find_all(IMPORT_PATTERN, contents);
    let ghost all = all_matches(IMPORT_PATTERN@, bytes, 0);
    let mut imports: Vec<Package> = Vec::new();
    let mut i: usize = 0;
    while i < found.len()
        invariant
            i <= found@.len(),
            bytes == contents.spec_bytes(),
            found@.map_values(|v: Vec<Option<(usize, usize)>>| v@) == all,
            forall|k: int| 0 <= k < found@.len() ==> spans_fit(bytes, 0, #[trigger] found@[k]@),
            package_views(imports@) == dedup(imported(bytes, all.take(i as int))),
        decreases found@.len() - i,
    {
        assert(all[i as int] == found@[i as int]@);
        assert(all.take(i + 1).drop_last() == all.take(i as int));
        let ghost before = imports@;
        let ghost prev = imported(bytes, all.take(i as int));
        let ghost sp = all[i as int];
        assert(all.take(i + 1).last() == sp);
        match group(contents, &found[i], IMPORT_GROUP) {
            Some(name) => {
                let is_static = group(contents, &found[i], STATIC_GROUP).is_some();
                let p = Package::from_string(name.as_str(), is_static);
                assert(imported(bytes, all.take(i + 1)) == prev.push(p@));
                assert(prev.push(p@).drop_last() == prev);
                if !contains_package(&imports, &p) {
                    imports.push(p);
                    assert(package_views(imports@) =~= package_views(before).push(p@));
                }
            },
            None => {
                assert(imported(bytes, all.take(i + 1)) == prev);
            },
        }
        i = i + 1;
    }
    assert(all.take(i as int) == all);
    let info = ClassInfo::create(contents);
    FileFacts { package, imports, info }
}

} // verus!

verus! {

/// A Java file in the source graph. `M` is what the file system said of the
/// file (its metadata), carried along unread.
#[derive(Debug)]
pub struct NodeFile<M> {
    /// The file's name.
    pub name: String,
    /// The package of the file's class: the declared package and the file's
    /// stem.
    pub package: Package,
    /// Where the file is.
    pub path: PathBuf,
    /// What the file depends on: its imports and the other files of its
    /// directory.
    pub dependencies: Vec<Package>,
    /// The file system's metadata of the file.
    pub meta: M,
    /// The file's first type declaration.
    pub info: Option<ClassInfo>,
}

/// A node of the source graph: a Java file, or a directory of nodes.
#[derive(Debug)]
pub enum Node<M> {
    File(NodeFile<M>),
    Directory { name: String, files: Vec<Node<M>>, package: Package },
}

/// The package of a file whose text is `bytes` and whose stem is `stem`: the
/// declared package with the stem appended.
pub open spec fn file_package(bytes: Seq<u8>, stem: Seq<char>) -> PackageView {
    PackageView {
        segments: package_named(package_text(bytes), false).segments.push(stem),
        is_static: false,
    }
}

/// The node of a Java file, from its name, stem, path, metadata and text:
/// its package, its imports as dependencies, and its type declaration.
pub fn file_node<M>(name: String, stem: &str, path: PathBuf, meta: M, contents: &str) -> (f: NodeFile<M>)
    ensures
        f.name == name,
        f.path == path,
        f.meta == meta,
        f.package@ == file_package(contents.spec_bytes(), stem@),
        package_views(f.dependencies@) == imports_of(contents.spec_bytes()),
        no_duplicates(package_views(f.dependencies@)),
        match f.info {
            Some(c) => first_class(contents.spec_bytes()) == Some(c@),
            None => first_class(contents.spec_bytes()) is None,
        },
{
    let facts = file_facts(contents);
    proof {
        lemma_dedup_no_duplicates(imported(contents.spec_bytes(), all_matches(IMPORT_PATTERN@, contents.spec_bytes(), 0)));
    }
    let mut package = Package::from_string(facts.package.as_str(), false);
    package.push(stem);
    NodeFile { name, package, path, dependencies: facts.imports, meta, info: facts.info }
}

/// The package of the first file node among `nodes`, where there is one.
pub open spec fn first_file_package<M>(nodes: Seq<Node<M>>) -> Option<PackageView>
    decreases nodes.len(),
{
    if nodes.len() == 0 {
        None
    } else {
        match nodes[0] {
            Node::File(f) => Some(f.package@),
            _ => first_file_package(nodes.drop_first()),
        }
    }
}

/// The package of a directory whose nodes are `nodes`: that of its first
/// file with the innermost segment replaced by `*`; no segment where it holds
/// no file.
pub open spec fn directory_package_of<M>(nodes: Seq<Node<M>>) -> PackageView {
    match first_file_package(nodes) {
        Some(p) => PackageView {
            segments: (if p.segments.len() == 0 {
                p.segments
            } else {
                p.segments.drop_last()
            }).push("*"@),
            is_static: p.is_static,
        },
        None => PackageView { segments: Seq::empty(), is_static: false },
    }
}

/// The package of a directory whose nodes are `files` (see
/// `directory_package_of`).
pub fn directory_package<M>(files: &Vec<Node<M>>) -> (p: Package)
    ensures
        p@ == directory_package_of(files@),
{
    let mut i: usize = 0;
    assert(files@.subrange(0, files@.len() as int) == files@);
    while i < files.len()
        invariant
            i <= files@.len(),
            first_file_package(files@) == first_file_package(files@.subrange(i as int, files@.len() as int)),
        decreases files@.len() - i,
    {
        assert(files@.subrange(i as int, files@.len() as int)[0] == files@[i as int]);
        match &files[i] {
            Node::File(f) => {
                let mut p = f.package.clone();
                p.pop();
                return p.join("*");
            },
            Node::Directory { .. } => {
                assert(files@.subrange(i as int, files@.len() as int).drop_first() =~= files@.subrange(
                    i + 1,
                    files@.len() as int,
                ));
            },
        }
        i = i + 1;
    }
    assert(files@.subrange(i as int, files@.len() as int).len() == 0);
    Package::empty()
}

/// The packages of the file nodes among `nodes`.
pub open spec fn file_packages<M>(nodes: Seq<Node<M>>) -> Set<PackageView> {
    Set::new(|p: PackageView| exists|i: int| 0 <= i < nodes.len() && (#[trigger] nodes[i] matches Node::File(f) && f.package@ == p))
}

/// `dedup` leaves no element twice.
pub proof fn lemma_dedup_no_duplicates<T>(s: Seq<T>)
    ensures
        no_duplicates(dedup(s)),
    decreases s.len(),
{
    if s.len() > 0 {
        lemma_dedup_no_duplicates(s.drop_last());
        let d = dedup(s.drop_last());
        if !d.contains(s.last()) {
            assert forall|i: int, j: int| 0 <= i < j < d.push(s.last()).len() implies d.push(s.last())[i] != d.push(s.last())[j] by {
                if j == d.len() {
                    assert(d[i] == d.push(s.last())[i]);
                }
            }
        }
    }
}

/// No element occurs twice.
pub open spec fn no_duplicates<T>(s: Seq<T>) -> bool {
    forall|i: int, j: int| 0 <= i < j < s.len() ==> s[i] != s[j]
}

/// What a sequence with one more element contains.
pub proof fn lemma_push_contains<T>(s: Seq<T>, x: T)
    ensures
        forall|p: T| #[trigger] s.push(x).contains(p) <==> (s.contains(p) || p == x),
{
    assert forall|p: T| #[trigger] s.push(x).contains(p) <==> (s.contains(p) || p == x) by {
        if s.contains(p) {
            let k = choose|k: int| 0 <= k < s.len() && s[k] == p;
            assert(s.push(x)[k] == p);
        }
        if p == x {
            assert(s.push(x)[s.len() as int] == p);
        }
        if s.push(x).contains(p) {
            let k = choose|k: int| 0 <= k < s.push(x).len() && s.push(x)[k] == p;
            if k < s.len() {
                assert(s[k] == p);
            }
        }
    }
}

/// Adds each package of `extra` that `deps` lacks.
fn add_missing(deps: &mut Vec<Package>, extra: &Vec<Package>)
    ensures
        forall|p: PackageView|
            #[trigger] package_views(final(deps)@).contains(p) <==> (package_views(old(deps)@).contains(p)
                || package_views(extra@).contains(p)),
        no_duplicates(package_views(old(deps)@)) ==> no_duplicates(package_views(final(deps)@)),
{
    let ghost start = package_views(deps@);
    let mut j: usize = 0;
    while j < extra.len()
        invariant
            j <= extra@.len(),
            forall|p: PackageView|
                #![trigger package_views(deps@).contains(p)]
                #![trigger package_views(extra@.take(j as int)).contains(p)]
                package_views(deps@).contains(p) <==> (start.contains(p) || package_views(
                    extra@.take(j as int),
                ).contains(p)),
            no_duplicates(start) ==> no_duplicates(package_views(deps@)),
        decreases extra@.len() - j,
    {
        let ghost before = package_views(deps@);
        assert(package_views(extra@.take(j + 1)) =~= package_views(extra@.take(j as int)).push(extra@[j as int]@));
        proof {
            lemma_push_contains(package_views(extra@.take(j as int)), extra@[j as int]@);
        }
        let present = contains_package(deps, &extra[j]);
        if present {
            assert(before.contains(extra@[j as int]@));
            assert forall|p: PackageView|
                package_views(deps@).contains(p) <==> (start.contains(p) || package_views(
                    extra@.take(j + 1),
                ).contains(p)) by {
                if p == extra@[j as int]@ {
                    assert(before.contains(p));
                }
            }
        } else {
            let p = extra[j].clone();
            deps.push(p);
            assert(package_views(deps@) =~= before.push(p@));
            proof {
                lemma_push_contains(before, p@);
                assert forall|q: PackageView|
                    package_views(deps@).contains(q) <==> (start.contains(q) || package_views(
                        extra@.take(j + 1),
                    ).contains(q)) by {
                    assert(package_views(deps@).contains(q) == before.push(p@).contains(q));
                    assert(package_views(extra@.take(j + 1)).contains(q) == package_views(
                        extra@.take(j as int),
                    ).push(extra@[j as int]@).contains(q));
                    assert(p@ == extra@[j as int]@);
                    assert(before.push(p@).contains(q) == (before.contains(q) || q == p@));
                    assert(before.contains(q) == (start.contains(q) || package_views(extra@.take(j as int)).contains(q)));
                }
                if no_duplicates(start) {
                    assert forall|a: int, b: int| 0 <= a < b < package_views(deps@).len() implies package_views(deps@)[a] != package_views(deps@)[b] by {
                        if b == before.len() {
                            assert(before.contains(before[a]));
                        }
                    }
                }
            }
        }
        j = j + 1;
    }
    assert(extra@.take(j as int) == extra@);
}

/// `deps` without every occurrence of `own`.
fn without_package(deps: &Vec<Package>, own: &Package) -> (kept: Vec<Package>)
    ensures
        forall|p: PackageView|
            #[trigger] package_views(kept@).contains(p) <==> (package_views(deps@).contains(p) && p != own@),
        no_duplicates(package_views(deps@)) ==> no_duplicates(package_views(kept@)),
{
    let mut kept: Vec<Package> = Vec::new();
    let mut j: usize = 0;
    while j < deps.len()
        invariant
            j <= deps@.len(),
            forall|p: PackageView|
                package_views(kept@).contains(p) <==> (package_views(deps@.take(j as int)).contains(p)
                    && p != own@),
            no_duplicates(package_views(deps@)) ==> no_duplicates(package_views(kept@)),
            forall|p: PackageView| package_views(kept@).contains(p) ==> package_views(deps@.take(j as int)).contains(p),
        decreases deps@.len() - j,
    {
        let ghost before = package_views(kept@);
        assert(package_views(deps@.take(j + 1)) =~= package_views(deps@.take(j as int)).push(deps@[j as int]@));
        proof {
            lemma_push_contains(package_views(deps@.take(j as int)), deps@[j as int]@);
        }
        if !deps[j].same(own) {
            let p = deps[j].clone();
            kept.push(p);
            assert(package_views(kept@) =~= before.push(p@));
            proof {
                lemma_push_contains(before, p@);
                if no_duplicates(package_views(deps@)) {
                    assert forall|a: int, b: int| 0 <= a < b < package_views(kept@).len() implies package_views(kept@)[a] != package_views(kept@)[b] by {
                        if b == before.len() {
                            assert(before.contains(before[a]));
                            let k = choose|k: int| 0 <= k < j && package_views(deps@.take(j as int))[k] == before[a];
                            assert(package_views(deps@)[k] == before[a]);
                            assert(package_views(deps@)[j as int] == p@);
                        }
                    }
                }
            }
        }
        j = j + 1;
    }
    assert(deps@.take(j as int) == deps@);
    kept
}

/// The packages of the file nodes among `nodes`, each once, in order.
fn sibling_packages<M>(files: &Vec<Node<M>>) -> (list: Vec<Package>)
    ensures
        forall|p: PackageView|
            #[trigger] package_views(list@).contains(p) <==> file_packages(files@).contains(p),
{
    let mut list: Vec<Package> = Vec::new();
    let mut i: usize = 0;
    while i < files.len()
        invariant
            i <= files@.len(),
            forall|p: PackageView|
                #[trigger] package_views(list@).contains(p) <==> file_packages(files@.take(i as int)).contains(p),
        decreases files@.len() - i,
    {
        let ghost before = package_views(list@);
        proof {
            assert forall|p: PackageView| #[trigger] file_packages(files@.take(i + 1)).contains(p) <==> (
                file_packages(files@.take(i as int)).contains(p) || (files@[i as int] matches Node::File(
                    f,
                ) && f.package@ == p)) by {
                if file_packages(files@.take(i + 1)).contains(p) {
                    let k = choose|k: int|
                        0 <= k < files@.take(i + 1).len() && (#[trigger] files@.take(i + 1)[k] matches Node::File(
                            f,
                        ) && f.package@ == p);
                    if k < i {
                        assert(files@.take(i as int)[k] == files@.take(i + 1)[k]);
                    }
                }
                if file_packages(files@.take(i as int)).contains(p) {
                    let k = choose|k: int|
                        0 <= k < files@.take(i as int).len() && (#[trigger] files@.take(i as int)[k] matches Node::File(
                            f,
                        ) && f.package@ == p);
                    assert(files@.take(i + 1)[k] == files@.take(i as int)[k]);
                }
                if files@[i as int] matches Node::File(f) && f.package@ == p {
                    assert(files@.take(i + 1)[i as int] == files@[i as int]);
                }
            }
        }
        match &files[i] {
            Node::File(f) => {
                if !contains_package(&list, &f.package) {
                    let p = f.package.clone();
                    list.push(p);
                    assert(package_views(list@) =~= before.push(p@));
                    proof {
                        lemma_push_contains(before, p@);
                    }
                }
            },
            Node::Directory { .. } => {},
        }
        i = i + 1;
    }
    assert(files@.take(i as int) == files@);
    list
}

/// A file node after dependency resolution keeps everything but its
/// dependencies, which become its old ones and the packages `siblings`,
/// less its own package; a directory node is left as it is.
pub open spec fn resolved<M>(before: Node<M>, after: Node<M>, siblings: Set<PackageView>) -> bool {
    match before {
        Node::File(f) => after matches Node::File(g) && {
            &&& g.name == f.name
            &&& g.package == f.package
            &&& g.path == f.path
            &&& g.meta == f.meta
            &&& g.info == f.info
            &&& forall|p: PackageView|
                #[trigger] package_views(g.dependencies@).contains(p) <==> ((package_views(
                    f.dependencies@,
                ).contains(p) || siblings.contains(p)) && p != f.package@)
            &&& no_duplicates(package_views(g.dependencies@))
        },
        _ => after == before,
    }
}

/// Resolves one file node's dependencies against the packages `siblings`.
fn resolve_file<M>(f: NodeFile<M>, siblings: &Vec<Package>) -> (g: NodeFile<M>)
    ensures
        resolved(
            Node::File(f),
            Node::File(g),
            Set::new(|p: PackageView| package_views(siblings@).contains(p)),
        ),
{
    let ghost f0 = f;
    let ghost sib = Set::new(|p: PackageView| package_views(siblings@).contains(p));
    let NodeFile { name, package, path, dependencies: imports, meta, info } = f;
    let ghost old_deps = package_views(imports@);
    let mut dependencies: Vec<Package> = Vec::new();
    assert(package_views(dependencies@) =~= Seq::<PackageView>::empty());
    add_missing(&mut dependencies, &imports);
    add_missing(&mut dependencies, siblings);
    let kept = without_package(&dependencies, &package);
    assert forall|p: PackageView|
        #[trigger] package_views(kept@).contains(p) <==> ((old_deps.contains(p) || sib.contains(p))
            && p != package@) by {
        assert(package_views(kept@).contains(p) == (package_views(dependencies@).contains(p) && p != package@));
        assert(!Seq::<PackageView>::empty().contains(p));
        assert(package_views(dependencies@).contains(p) == (old_deps.contains(p) || package_views(siblings@).contains(p)));
    }
    let g = NodeFile { name, package, path, dependencies: kept, meta, info };
    assert(g.package == f0.package);
    g
}

/// Resolves the dependencies between the nodes of one directory: each file
/// depends, besides what it imports, on the other files of the directory.
pub fn resolve_dependencies<M>(files: &mut Vec<Node<M>>)
    ensures
        final(files)@.len() == old(files)@.len(),
        forall|i: int|
            0 <= i < old(files)@.len() ==> resolved(
                #[trigger] old(files)@[i],
                final(files)@[i],
                file_packages(old(files)@),
            ),
{
    let ghost orig = files@;
    let list = sibling_packages(files);
    let ghost sib = Set::new(|p: PackageView| package_views(list@).contains(p));
    assert(sib =~= file_packages(orig));
    let mut i: usize = 0;
    while i < files.len()
        invariant
            files@.len() == orig.len(),
            i <= orig.len(),
            sib == file_packages(orig),
            sib == Set::new(|p: PackageView| package_views(list@).contains(p)),
            forall|k: int| 0 <= k < i ==> resolved(#[trigger] orig[k], files@[k], sib),
            forall|k: int| i <= k < orig.len() ==> #[trigger] files@[k] == orig[k],
        decreases orig.len() - i,
    {
        let ghost prev = files@;
        let node = files.remove(i);
        let after = match node {
            Node::File(f) => Node::File(resolve_file(f, &list)),
            other => other,
        };
        files.insert(i, after);
        assert(files@ =~= prev.update(i as int, files@[i as int]));
        assert(resolved(orig[i as int], files@[i as int], sib));
        assert forall|k: int| 0 <= k < i + 1 implies resolved(#[trigger] orig[k], files@[k], sib) by {
            if k < i {
                assert(files@[k] == prev[k]);
            }
        }
        i = i + 1;
    }
}

/// The node of a directory named `name` holding the nodes `files`: its
/// package (see `directory_package_of`), and the files' dependencies
/// resolved against each other.
pub fn directory_node<M>(name: String, files: Vec<Node<M>>) -> (n: Node<M>)
    ensures
        n matches Node::Directory { name: dir_name, files: nodes, package } && {
            &&& dir_name == name
            &&& package@ == directory_package_of(files@)
            &&& nodes@.len() == files@.len()
            &&& forall|i: int|
                0 <= i < files@.len() ==> resolved(
                    #[trigger] files@[i],
                    nodes@[i],
                    file_packages(files@),
                )
        },
{
    let package = directory_package(&files);
    let mut files = files;
    resolve_dependencies(&mut files);
    Node::Directory { name, files, package }
}

/// The nodes of the tree under `n`, depth first, each node before the nodes
/// under it, and the children of a directory taken last one first.
pub open spec fn dfs<M>(n: Node<M>) -> Seq<Node<M>>
    decreases n,
{
    match n {
        Node::File(_) => seq![n],
        Node::Directory { files, .. } => {
            proof {
                assert(decreases_to!(n => files));
                assert(decreases_to!(files => files@));
            }
            seq![n] + stack_dfs(files@)
        },
    }
}

/// The nodes that a depth-first walk visits from the stack `stack`: those
/// under its top first, then those under the rest.
pub open spec fn stack_dfs<M>(stack: Seq<Node<M>>) -> Seq<Node<M>>
    decreases stack,
{
    if stack.len() == 0 {
        Seq::empty()
    } else {
        proof {
            assert(decreases_to!(stack => stack[stack.len() - 1]));
        }
        dfs(stack.last()) + stack_dfs(stack.drop_last())
    }
}

/// The nodes that references point to.
pub open spec fn targets<M>(refs: Seq<&Node<M>>) -> Seq<Node<M>> {
    refs.map_values(|r: &Node<M>| *r)
}

/// A walk from a stack with more on top: the part above first.
pub proof fn lemma_stack_dfs_append<M>(base: Seq<Node<M>>, top: Seq<Node<M>>)
    ensures
        stack_dfs(base + top) == stack_dfs(top) + stack_dfs(base),
    decreases top.len(),
{
    if top.len() == 0 {
        assert(base + top == base);
        assert(stack_dfs(top) == Seq::<Node<M>>::empty());
        assert(stack_dfs(top) + stack_dfs(base) == stack_dfs(base));
    } else {
        lemma_stack_dfs_append(base, top.drop_last());
        assert((base + top).drop_last() == base + top.drop_last());
        assert((base + top).last() == top.last());
        assert(dfs(top.last()) + stack_dfs(top.drop_last()) + stack_dfs(base) == dfs(top.last()) + (
        stack_dfs(top.drop_last()) + stack_dfs(base)));
    }
}

/// The file nodes among `nodes`, in order.
pub open spec fn file_nodes<M>(nodes: Seq<Node<M>>) -> Seq<NodeFile<M>>
    decreases nodes.len(),
{
    if nodes.len() == 0 {
        Seq::empty()
    } else {
        match nodes.last() {
            Node::File(f) => file_nodes(nodes.drop_last()).push(f),
            _ => file_nodes(nodes.drop_last()),
        }
    }
}

/// What `==` on two `PathBuf`s gives (it compares their components).
pub uninterp spec fn paths_equal(a: PathBuf, b: PathBuf) -> bool;

/// `<PathBuf as PartialEq>::eq`.
#[verifier::external_body]
fn same_path(a: &PathBuf, b: &PathBuf) -> (r: bool)
    ensures
        r == paths_equal(*a, *b),
{
    a == b
}

impl<M> Node<M> {
    /// Every node of the tree, depth first: a directory before the nodes
    /// under it (see `dfs`).
    pub fn iter(&self) -> (nodes: Vec<&Node<M>>)
        ensures
            targets(nodes@) == dfs(*self),
    {
        let mut nodes: Vec<&Node<M>> = Vec::new();
        let mut stack: Vec<&Node<M>> = Vec::new();
        stack.push(self);
        assert(stack_dfs(targets(stack@)) == dfs(*self) + stack_dfs(Seq::<Node<M>>::empty())) by {
            assert(targets(stack@).drop_last() =~= Seq::<Node<M>>::empty());
        }
        assert(dfs(*self) + stack_dfs(Seq::<Node<M>>::empty()) =~= dfs(*self));
        assert(targets(nodes@) =~= Seq::<Node<M>>::empty());
        loop
            invariant
                targets(nodes@) + stack_dfs(targets(stack@)) == dfs(*self),
            ensures
                targets(nodes@) == dfs(*self),
            decreases stack_dfs(targets(stack@)).len(),
        {
            let ghost before_stack = targets(stack@);
            let ghost before_nodes = targets(nodes@);
            match stack.pop() {
                None => {
                    assert(targets(stack@).len() == 0);
                    assert(targets(nodes@) + Seq::<Node<M>>::empty() =~= targets(nodes@));
                    break;
                },
                Some(node) => {
                    let ghost base = targets(stack@);
                    assert(before_stack.drop_last() =~= base);
                    assert(before_stack.last() == *node);
                    assert(stack_dfs(before_stack) == dfs(*node) + stack_dfs(base));
                    match node {
                        Node::Directory { files, .. } => {
                            let mut j: usize = 0;
                            while j < files.len()
                                invariant
                                    j <= files@.len(),
                                    targets(stack@) == base + files@.take(j as int),
                                decreases files@.len() - j,
                            {
                                let ghost prev = stack@;
                                stack.push(&files[j]);
                                assert(stack@ == prev.push(&files[j as int]));
                                assert(targets(stack@) =~= targets(prev).push(files@[j as int]));
                                assert(files@.take(j + 1) =~= files@.take(j as int).push(files@[j as int]));
                                assert(targets(stack@) =~= base + files@.take(j + 1));
                                j = j + 1;
                            }
                            assert(files@.take(j as int) == files@);
                            proof {
                                lemma_stack_dfs_append(base, files@);
                            }
                            assert(dfs(*node) == seq![*node] + stack_dfs(files@));
                            assert(stack_dfs(targets(stack@)) == stack_dfs(files@) + stack_dfs(base));
                            assert(stack_dfs(before_stack) =~= seq![*node] + stack_dfs(targets(stack@)));
                        },
                        Node::File(_) => {
                            assert(dfs(*node) == seq![*node]);
                            assert(stack_dfs(before_stack) =~= seq![*node] + stack_dfs(targets(stack@)));
                        },
                    }
                    nodes.push(node);
                    assert(targets(nodes@) =~= before_nodes.push(*node));
                    assert(targets(nodes@) + stack_dfs(targets(stack@)) =~= before_nodes + (seq![*node] + stack_dfs(targets(stack@))));
                },
            }
        }
        nodes
    }

    /// Every file node of the tree, in the order of `iter`.
    pub fn files(&self) -> (found: Vec<&NodeFile<M>>)
        ensures
            file_targets(found@) == file_nodes(dfs(*self)),
    {
        let nodes = self.iter();
        let mut found: Vec<&NodeFile<M>> = Vec::new();
        let mut i: usize = 0;
        while i < nodes.len()
            invariant
                i <= nodes@.len(),
                file_targets(found@) == file_nodes(targets(nodes@).take(i as int)),
            decreases nodes@.len() - i,
        {
            let ghost before = found@;
            assert(targets(nodes@).take(i + 1).drop_last() =~= targets(nodes@).take(i as int));
            assert(targets(nodes@).take(i + 1).last() == *nodes@[i as int]);
            match nodes[i] {
                Node::File(f) => {
                    found.push(f);
                    assert(file_targets(found@) =~= file_targets(before).push(*f));
                },
                Node::Directory { .. } => {},
            }
            i = i + 1;
        }
        assert(targets(nodes@).take(i as int) =~= targets(nodes@));
        found
    }

    /// The first file node, in the order of `files`, whose path equals
    /// `path`.
    pub fn find_path(&self, path: &PathBuf) -> (found: Option<&NodeFile<M>>)
        ensures
            match found {
                Some(f) => exists|k: int| first_with_path(file_nodes(dfs(*self)), *path, k) && file_nodes(dfs(*self))[k] == *f,
                None => forall|k: int| 0 <= k < file_nodes(dfs(*self)).len() ==> !paths_equal(
                    #[trigger] file_nodes(dfs(*self))[k].path,
                    *path,
                ),
            },
    {
        let files = self.files();
        let ghost fs = file_nodes(dfs(*self));
        let mut i: usize = 0;
        while i < files.len()
            invariant
                i <= files@.len(),
                file_targets(files@) == fs,
                fs == file_nodes(dfs(*self)),
                forall|k: int| 0 <= k < i ==> !paths_equal(#[trigger] fs[k].path, *path),
            decreases files@.len() - i,
        {
            assert(fs[i as int] == *files@[i as int]);
            if same_path(&files[i].path, path) {
                assert(first_with_path(file_nodes(dfs(*self)), *path, i as int) && file_nodes(dfs(*self))[i as int] == *files@[i as int]);
                return Some(files[i]);
            }
            i = i + 1;
        }
        None
    }

    /// The file node whose package is `search`: the first such, in the order
    /// of `iter`.
    pub fn find_package(&self, search: &Package) -> (found: Option<&Node<M>>)
        ensures
            match found {
                Some(n) => exists|k: int| first_with_package(dfs(*self), search@, k) && dfs(*self)[k] == *n,
                None => forall|k: int| 0 <= k < dfs(*self).len() ==> !file_with_package(#[trigger] dfs(*self)[k], search@),
            },
            found matches Some(n) ==> *n is File,
    {
        let nodes = self.iter();
        let ghost ns = dfs(*self);
        let mut i: usize = 0;
        while i < nodes.len()
            invariant
                i <= nodes@.len(),
                targets(nodes@) == ns,
                ns == dfs(*self),
                forall|k: int| 0 <= k < i ==> !file_with_package(#[trigger] ns[k], search@),
            decreases nodes@.len() - i,
        {
            assert(ns[i as int] == *nodes@[i as int]);
            let hit = match nodes[i] {
                Node::File(f) => f.package.same(search),
                Node::Directory { .. } => false,
            };
            if hit {
                assert(first_with_package(dfs(*self), search@, i as int) && dfs(*self)[i as int] == *nodes@[i as int]);
                return Some(nodes[i]);
            }
            i = i + 1;
        }
        None
    }
}

/// The file nodes that references point to.
pub open spec fn file_targets<M>(refs: Seq<&NodeFile<M>>) -> Seq<NodeFile<M>> {
    refs.map_values(|r: &NodeFile<M>| *r)
}

/// `k` is the first position in `fs` of a file whose path equals `path`.
pub open spec fn first_with_path<M>(fs: Seq<NodeFile<M>>, path: PathBuf, k: int) -> bool {
    &&& 0 <= k < fs.len()
    &&& paths_equal(fs[k].path, path)
    &&& forall|j: int| 0 <= j < k ==> !paths_equal(#[trigger] fs[j].path, path)
}

/// `n` is a file node whose package is `search`.
pub open spec fn file_with_package<M>(n: Node<M>, search: PackageView) -> bool {
    n matches Node::File(f) && f.package@ == search
}

/// `k` is the first position in `ns` of a file node whose package is
/// `search`.
pub open spec fn first_with_package<M>(ns: Seq<Node<M>>, search: PackageView, k: int) -> bool {
    &&& 0 <= k < ns.len()
    &&& file_with_package(ns[k], search)
    &&& forall|j: int| 0 <= j < k ==> !file_with_package(#[trigger] ns[j], search)
}

/// The file nodes of a sequence of nodes are all its file nodes and nothing
/// else: every file node of `nodes` is among them, and each of them is a file
/// node of `nodes`, with no more of them than `nodes` holds.
pub proof fn lemma_file_nodes_are_the_files<M>(nodes: Seq<Node<M>>)
    ensures
        file_nodes(nodes).len() <= nodes.len(),
        forall|k: int|
            0 <= k < nodes.len() ==> (#[trigger] nodes[k] matches Node::File(f) ==> file_nodes(
                nodes,
            ).contains(f)),
        forall|j: int|
            #![trigger file_nodes(nodes)[j]]
            0 <= j < file_nodes(nodes).len() ==> exists|k: int|
                0 <= k < nodes.len() && #[trigger] nodes[k] == Node::File(file_nodes(nodes)[j]),
    decreases nodes.len(),
{
    if nodes.len() > 0 {
        let init = nodes.drop_last();
        lemma_file_nodes_are_the_files(init);
        let before = file_nodes(init);
        let r = file_nodes(nodes);
        assert forall|k: int|
            0 <= k < nodes.len() implies (#[trigger] nodes[k] matches Node::File(f) ==> r.contains(f)) by {
            if let Node::File(f) = nodes[k] {
                if k < init.len() {
                    assert(init[k] == nodes[k]);
                    let j = choose|j: int| 0 <= j < before.len() && before[j] == f;
                    assert(r[j] == before[j]);
                } else {
                    assert(r[r.len() - 1] == f);
                }
            }
        }
        assert forall|j: int| #![trigger r[j]] 0 <= j < r.len() implies exists|k: int|
            0 <= k < nodes.len() && #[trigger] nodes[k] == Node::File(r[j]) by {
            if j < before.len() {
                assert(r[j] == before[j]);
                let k = choose|k: int| 0 <= k < init.len() && #[trigger] init[k] == Node::File(before[j]);
                assert(nodes[k] == init[k]);
            } else {
                assert(nodes[nodes.len() - 1] == Node::File(r[j]));
            }
        }
    }
}

/// `Node::files` walks the same nodes as `Node::iter` and keeps every file
/// node of the walk, whatever the file holds.
pub proof fn lemma_files_of_walk<M>(root: Node<M>)
    ensures
        forall|k: int|
            0 <= k < dfs(root).len() ==> (#[trigger] dfs(root)[k] matches Node::File(f) ==> file_nodes(
                dfs(root),
            ).contains(f)),
        forall|j: int|
            #![trigger file_nodes(dfs(root))[j]]
            0 <= j < file_nodes(dfs(root)).len() ==> exists|k: int|
                0 <= k < dfs(root).len() && #[trigger] dfs(root)[k] == Node::File(file_nodes(dfs(root))[j]),
{
    lemma_file_nodes_are_the_files(dfs(root));
}

} // verus!
