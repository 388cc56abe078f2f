//! The regular expressions that recognise Java declarations, and searches
//! with them.
//!
//! A search reports the byte span of each capture group of the first match
//! at or after a starting offset; group 0 is the whole match, the others are
//! numbered by their opening parenthesis, as `regex::Captures::iter` numbers
//! them.

use vstd::prelude::*;
use vstd::utf8::*;
use vstd::string::StringSliceAdditionalSpecFns;

verus! {

/// `package a.b.c;` at the start of a file. Group 1: the package name.
pub const PACKAGE_PATTERN: &'static str = r"^\s*package\s*(?<package>.*);";

/// Group of `PACKAGE_PATTERN` that holds the package name.
pub const PACKAGE_GROUP: usize = 1;

/// An `import` statement. Groups: 1 the word `static`, where present, 2 the
/// imported name.
pub const IMPORT_PATTERN: &'static str = r"\s*import\s*(?<static>static)?\s*(?<import>\S+);";

/// Group of `IMPORT_PATTERN` that holds `static`.
pub const STATIC_GROUP: usize = 1;

/// Group of `IMPORT_PATTERN` that holds the imported name.
pub const IMPORT_GROUP: usize = 2;

/// A `main` method, from its signature to the last closing brace after it.
pub const MAIN_PATTERN: &'static str = r"(?m)public static void main(.*) \{(?<content>[\s\S]*)\}";

/// A type declaration up to the brace that opens its body. Groups: 1 the
/// kind (`class`, `interface`, `record`, `enum`, `@interface`), 2 the name,
/// 3 type parameters, 4 record components, 5 the `extends` clause, 6 the
/// `implements` clause, 7 the `permits` clause.
pub const CLASS_PATTERN: &'static str = r"(?m)^\s*(?:(?:public|protected|private|static|abstract|final|sealed|non-sealed|default|strictfp|synchronized)\s+|@[\w$][\w$.]*(?:\s*\([^)]*\))?\s+)*(?<type>class|interface|record|enum|@interface)\s+(?<class>[A-Za-z_$][A-Za-z0-9_$]*)(?<generics><[^>]*>)?(?<recordParams>\(\s*(?:[^()]|\([^()]*\))*\s*\))?(?:\s+extends\s+(?<extends>[^{\n]+?))?(?:\s+implements\s+(?<implements>[^{\n]+?))?(?:\s+permits\s+(?<permits>[^{\n]+?))?\s*\{";

/// Group of `CLASS_PATTERN` that holds the kind of declaration.
pub const TYPE_GROUP: usize = 1;

/// Group of `CLASS_PATTERN` that holds the declared name.
pub const CLASS_GROUP: usize = 2;

/// Group of `CLASS_PATTERN` that holds the `extends` clause.
pub const EXTENDS_GROUP: usize = 5;

/// Group of `CLASS_PATTERN` that holds the `implements` clause.
pub const IMPLEMENTS_GROUP: usize = 6;

/// The byte spans of a match's capture groups; `None` for a group that took
/// no part in the match.
pub type Spans = Seq<Option<(usize, usize)>>;

/// What `regex::Regex::new(pattern)` followed by `captures_at(haystack, start)`
/// reports: the spans of the first match that starts at or after byte
/// `start`, or `None` where there is no match (or the pattern does not
/// compile).
pub uninterp spec fn regex_captures_at(pattern: Seq<char>, haystack: Seq<char>, start: int) -> Option<Seq<Option<(usize, usize)>>>;

/// A span that lies in `bytes[start..]` and starts and ends on character
/// boundaries.
pub open spec fn span_fits(bytes: Seq<u8>, start: int, span: (usize, usize)) -> bool {
    &&& start <= span.0 <= span.1 <= bytes.len()
    &&& is_char_boundary(bytes, span.0 as int)
    &&& is_char_boundary(bytes, span.1 as int)
}

/// Spans as a match reports them: group 0 is present, and every span fits.
pub open spec fn spans_fit(bytes: Seq<u8>, start: int, spans: Spans) -> bool {
    &&& spans.len() >= 1
    &&& spans[0] is Some
    &&& forall|g: int| 0 <= g < spans.len() && (#[trigger] spans[g]) is Some ==> span_fits(bytes, start, spans[g]->0)
}

/// The first match of `pattern` in the UTF-8 text `bytes` at or after `start`.
pub open spec fn search(pattern: Seq<char>, bytes: Seq<u8>, start: int) -> Option<Spans> {
    regex_captures_at(pattern, decode_utf8(bytes), start)
}

/// Compiles `pattern` with `regex::Regex::new` and runs
/// `regex::Regex::captures_at` on `haystack` from byte `start`. Trusted: the
/// result is what the name `regex_captures_at` gives for these arguments, and,
/// as the `regex` documentation of `Captures` and `Match` states, group 0 is
/// always present and every span lies in `haystack[start..]` with both ends
/// on character boundaries.
#[verifier::external_body]
fn captures_at(pattern: &str, haystack: &str, start: usize) -> (spans: Option<Vec<Option<(usize, usize)>>>)
    requires
        start <= haystack.spec_bytes().len(),
    ensures
        match spans {
            Some(v) => regex_captures_at(pattern@, haystack@, start as int) == Some(v@) && spans_fit(
                haystack.spec_bytes(),
                start as int,
                v@,
            ),
            None => regex_captures_at(pattern@, haystack@, start as int) is None,
        },
{
    let re = regex::Regex::new(pattern).ok()?;
    let caps = re.captures_at(haystack, start)?;
    Some(caps.iter().map(|m| m.map(|m| (m.start(), m.end()))).collect())
}

/// The first match of `pattern` in `haystack` at or after byte `start`.
pub fn find_at(pattern: &str, haystack: &str, start: usize) -> (spans: Option<Vec<Option<(usize, usize)>>>)
    requires
        start <= haystack.spec_bytes().len(),
    ensures
        match spans {
            Some(v) => search(pattern@, haystack.spec_bytes(), start as int) == Some(v@) && spans_fit(
                haystack.spec_bytes(),
                start as int,
                v@,
            ),
            None => search(pattern@, haystack.spec_bytes(), start as int) is None,
        },
{
    proof {
        encode_utf8_decode_utf8(haystack@);
    }
    captures_at(pattern, haystack, start)
}

/// The end of a match (of group 0).
pub open spec fn match_end(spans: Spans) -> int {
    (spans[0]->0).1 as int
}

/// Every match of `pattern` in `bytes`, left to right, each search starting
/// where the previous match ended. An empty match at the search position
/// ends the sequence, after being reported.
pub open spec fn all_matches(pattern: Seq<char>, bytes: Seq<u8>, start: int) -> Seq<Spans>
    decreases bytes.len() - start,
{
    if start < 0 || start > bytes.len() {
        Seq::empty()
    } else {
        match search(pattern, bytes, start) {
            Some(spans) => if spans_fit(bytes, start, spans) {
                if match_end(spans) > start {
                    seq![spans] + all_matches(pattern, bytes, match_end(spans))
                } else {
                    seq![spans]
                }
            } else {
                Seq::empty()
            },
            None => Seq::empty(),
        }
    }
}

/// The text of group `g` of a match, where it took part.
pub open spec fn group_text(bytes: Seq<u8>, spans: Spans, g: int) -> Option<Seq<char>> {
    if 0 <= g < spans.len() {
        match spans[g] {
            Some(span) => Some(decode_utf8(bytes.subrange(span.0 as int, span.1 as int))),
            None => None,
        }
    } else {
        None
    }
}

/// The text of group `g` of a match in `haystack`, where it took part.
pub fn group(haystack: &str, spans: &Vec<Option<(usize, usize)>>, g: usize) -> (text: Option<String>)
    requires
        spans_fit(haystack.spec_bytes(), 0, spans@),
    ensures
        match text {
            Some(t) => group_text(haystack.spec_bytes(), spans@, g as int) == Some(t@),
            None => group_text(haystack.spec_bytes(), spans@, g as int) is None,
        },
{
    if g >= spans.len() {
        return None;
    }
    match spans[g] {
        Some((a, b)) => {
            assert(spans@[g as int] is Some);
            Some(crate::text::substring(haystack, a, b))
        },
        None => None,
    }
}

/// Every match of `pattern` in `haystack` (see `all_matches`).
pub fn find_all(pattern: &str, haystack: &str) -> (found: Vec<Vec<Option<(usize, usize)>>>)
    ensures
        found@.map_values(|v: Vec<Option<(usize, usize)>>| v@) == all_matches(
            pattern@,
            haystack.spec_bytes(),
            0,
        ),
        forall|i: int| 0 <= i < found@.len() ==> spans_fit(haystack.spec_bytes(), 0, #[trigger] found@[i]@),
{
    let ghost bytes = haystack.spec_bytes();
    let mut found: Vec<Vec<Option<(usize, usize)>>> = Vec::new();
    let mut pos: usize = 0;
    let len = haystack.as_bytes().len();
    loop
        invariant
            bytes == haystack.spec_bytes(),
            len == bytes.len(),
            pos <= len,
            found@.map_values(|v: Vec<Option<(usize, usize)>>| v@) + all_matches(pattern@, bytes, pos as int)
                == all_matches(pattern@, bytes, 0),
            forall|i: int| 0 <= i < found@.len() ==> spans_fit(bytes, 0, #[trigger] found@[i]@),
        decreases len - pos,
    {
        let ghost before = found@;
        match find_at(pattern, haystack, pos) {
            None => {
                assert(all_matches(pattern@, bytes, pos as int) == Seq::<Spans>::empty());
                assert(found@.map_values(|v: Vec<Option<(usize, usize)>>| v@) + Seq::<Spans>::empty()
                    =~= found@.map_values(|v: Vec<Option<(usize, usize)>>| v@));
                return found;
            },
            Some(spans) => {
                let end = match spans[0] {
                    Some((_, e)) => e,
                    None => 0,
                };
                let ghost sv = spans@;
                assert(spans_fit(bytes, pos as int, sv));
                assert(spans_fit(bytes, 0, sv));
                assert(sv[0] is Some);
                assert(end as int == match_end(sv));
                found.push(spans);
                assert(found@.map_values(|v: Vec<Option<(usize, usize)>>| v@) =~= before.map_values(
                    |v: Vec<Option<(usize, usize)>>| v@,
                ).push(sv));
                if end > pos {
                    assert(all_matches(pattern@, bytes, pos as int) == seq![sv] + all_matches(
                        pattern@,
                        bytes,
                        end as int,
                    ));
                    assert(before.map_values(|v: Vec<Option<(usize, usize)>>| v@).push(sv) + all_matches(pattern@, bytes, end as int)
                        =~= before.map_values(|v: Vec<Option<(usize, usize)>>| v@) + (seq![sv] + all_matches(pattern@, bytes, end as int)));
                    pos = end;
                } else {
                    assert(all_matches(pattern@, bytes, pos as int) == seq![sv]);
                    assert(before.map_values(|v: Vec<Option<(usize, usize)>>| v@) + seq![sv]
                        =~= before.map_values(|v: Vec<Option<(usize, usize)>>| v@).push(sv));
                    return found;
                }
            },
        }
    }
}

} // verus!
