# lazy_java

Source analysis for a small Java build tool, verified with Verus.

- `src/build/graph/class_info.rs`: brace matching (`class_body`) and the
  tree of type declarations of a Java file (`ClassInfo::create`).
- `src/build/graph/node.rs` and `package.rs`: the source graph (file and
  directory nodes, their packages and dependencies, depth-first walks).
- `src/utils/find_main.rs`: classes that declare a `main` method, and the
  glob set of exclusion rules.
- `src/patterns.rs`: the regular expressions for Java declarations and the
  searches with them (through the `regex` crate).
- `src/text.rs`: character-level helpers (trimming, splitting, substrings).
- `src/lib.rs`: Maven Central URLs and the project's folder and file names.
- `app/lib.rs`: walking a source tree, reading its files and building the
  source graph from the file system.

Byte offsets from searches are byte offsets into UTF-8 text; the contracts
speak of a text both as characters (`s@`) and as its UTF-8 bytes.
