//! Type declarations found in Java source text.

use vstd::prelude::*;
use vstd::utf8::*;
use vstd::string::StringSliceAdditionalSpecFns;

use crate::patterns::{
    all_matches, find_all, find_at, group, group_text, match_end, search, spans_fit, Spans,
    CLASS_GROUP, CLASS_PATTERN, EXTENDS_GROUP, IMPLEMENTS_GROUP, TYPE_GROUP,
};
use crate::text::{lemma_boundary_after_ascii, same_text, split, split_trimmed, substring, trim, trimmed};

verus! {

/// The byte `{`.
pub const OPEN_BRACE: u8 = 0x7B;

/// The byte `}`.
pub const CLOSE_BRACE: u8 = 0x7D;

/// How a byte changes the nesting of braces: `{` opens, `}` closes.
pub open spec fn brace_step(b: u8) -> int {
    if b == OPEN_BRACE {
        1
    } else if b == CLOSE_BRACE {
        -1
    } else {
        0
    }
}

/// Net nesting of braces over `bytes[from..to]`.
pub open spec fn nesting(bytes: Seq<u8>, from: int, to: int) -> int
    decreases to - from,
{
    if to <= from {
        0
    } else {
        nesting(bytes, from, to - 1) + brace_step(bytes[to - 1])
    }
}

/// `bytes[open]` is an opening brace.
pub open spec fn opens_at(bytes: Seq<u8>, open: int) -> bool {
    0 <= open < bytes.len() && bytes[open] == OPEN_BRACE
}

/// `bytes[close]` is the brace that closes the one at `open`: counting from
/// `open`, the nesting first comes back to zero just after `close`.
pub open spec fn closes_at(bytes: Seq<u8>, open: int, close: int) -> bool {
    &&& opens_at(bytes, open)
    &&& open < close < bytes.len()
    &&& nesting(bytes, open, close + 1) == 0
    &&& forall|k: int| open < k <= close ==> #[trigger] nesting(bytes, open, k) > 0
}

/// The body that `class_body` extracts: the bytes strictly between the brace
/// at `open` and its matching brace, or `None` where there is no brace at
/// `open` or it is never closed.
pub open spec fn body_bytes(bytes: Seq<u8>, open: int) -> Option<Seq<u8>> {
    if exists|close: int| closes_at(bytes, open, close) {
        let close = choose|close: int| closes_at(bytes, open, close);
        Some(bytes.subrange(open + 1, close))
    } else {
        None
    }
}

/// A byte sequence whose braces balance: no prefix closes more than it
/// opens, and the whole opens as many as it closes.
pub open spec fn balanced(bytes: Seq<u8>) -> bool {
    &&& nesting(bytes, 0, bytes.len() as int) == 0
    &&& forall|k: int| 0 <= k <= bytes.len() ==> nesting(bytes, 0, k) >= 0
}

/// A body is shorter than the text it was taken from.
pub proof fn lemma_body_shorter(bytes: Seq<u8>, open: int)
    requires
        body_bytes(bytes, open) is Some,
    ensures
        (body_bytes(bytes, open)->0).len() < bytes.len(),
{
}

/// Nesting is additive over adjacent ranges.
proof fn lemma_nesting_split(bytes: Seq<u8>, from: int, mid: int, to: int)
    requires
        from <= mid <= to,
    ensures
        nesting(bytes, from, to) == nesting(bytes, from, mid) + nesting(bytes, mid, to),
    decreases to - mid,
{
    if to > mid {
        lemma_nesting_split(bytes, from, mid, to - 1);
    }
}

/// Nesting only looks at the bytes in its range.
proof fn lemma_nesting_shift(bytes: Seq<u8>, from: int, to: int)
    requires
        0 <= from <= to <= bytes.len(),
    ensures
        forall|k: int|
            from <= k <= to ==> #[trigger] nesting(bytes.subrange(from, to), 0, k - from)
                == nesting(bytes, from, k),
{
    assert forall|k: int| from <= k <= to implies #[trigger] nesting(
        bytes.subrange(from, to),
        0,
        k - from,
    ) == nesting(bytes, from, k) by {
        lemma_nesting_shift_at(bytes, from, to, k);
    }
}

proof fn lemma_nesting_shift_at(bytes: Seq<u8>, from: int, to: int, k: int)
    requires
        0 <= from <= k <= to <= bytes.len(),
    ensures
        nesting(bytes.subrange(from, to), 0, k - from) == nesting(bytes, from, k),
    decreases k - from,
{
    if k > from {
        lemma_nesting_shift_at(bytes, from, to, k - 1);
    }
}

/// At most one brace closes the one at `open`.
pub proof fn lemma_close_unique(bytes: Seq<u8>, open: int, c1: int, c2: int)
    requires
        closes_at(bytes, open, c1),
        closes_at(bytes, open, c2),
    ensures
        c1 == c2,
{
    if c1 < c2 {
        assert(nesting(bytes, open, c1 + 1) > 0);
    } else if c2 < c1 {
        assert(nesting(bytes, open, c2 + 1) > 0);
    }
}

/// The body of a declaration is balanced: brace counting pairs every brace
/// inside it, so nested types and method bodies stay inside.
pub proof fn lemma_body_balanced(bytes: Seq<u8>, open: int)
    requires
        body_bytes(bytes, open) is Some,
    ensures
        balanced(body_bytes(bytes, open)->0),
{
    let close = choose|close: int| closes_at(bytes, open, close);
    let body = bytes.subrange(open + 1, close);
    lemma_nesting_shift(bytes, open + 1, close);
    reveal_with_fuel(nesting, 2);
    assert(nesting(bytes, open, open + 1) == 1);
    assert forall|k: int| 0 <= k <= body.len() implies nesting(body, 0, k) >= 0 by {
        assert(nesting(body, 0, (open + 1 + k) - (open + 1)) == nesting(bytes, open + 1, open + 1 + k));
        lemma_nesting_split(bytes, open, open + 1, open + 1 + k);
        assert(nesting(bytes, open, open + 1 + k) > 0);
    }
    assert(nesting(body, 0, (close) - (open + 1)) == nesting(bytes, open + 1, close));
    lemma_nesting_split(bytes, open, open + 1, close + 1);
    lemma_nesting_split(bytes, open + 1, close, close + 1);
    assert(nesting(bytes, open, close) > 0);
    lemma_nesting_split(bytes, open, open + 1, close);
}

/// Nesting does not see a byte other than a brace: replacing one such byte by
/// another leaves every nesting count unchanged.
proof fn lemma_nesting_update(bytes: Seq<u8>, i: int, x: u8, from: int, to: int)
    requires
        0 <= i < bytes.len(),
        bytes[i] != OPEN_BRACE && bytes[i] != CLOSE_BRACE,
        x != OPEN_BRACE && x != CLOSE_BRACE,
        0 <= from,
        to <= bytes.len(),
    ensures
        nesting(bytes.update(i, x), from, to) == nesting(bytes, from, to),
    decreases to - from,
{
    if to > from {
        lemma_nesting_update(bytes, i, x, from, to - 1);
        if to - 1 == i {
            assert(brace_step(bytes.update(i, x)[to - 1]) == 0);
        } else {
            assert(bytes.update(i, x)[to - 1] == bytes[to - 1]);
        }
    }
}

/// Only braces decide a body: replacing a byte that is not a brace by another
/// byte that is not a brace changes neither whether there is a body nor where
/// it ends.
pub proof fn lemma_body_ignores_other_bytes(bytes: Seq<u8>, open: int, i: int, x: u8)
    requires
        0 <= i < bytes.len(),
        bytes[i] != OPEN_BRACE && bytes[i] != CLOSE_BRACE,
        x != OPEN_BRACE && x != CLOSE_BRACE,
    ensures
        body_bytes(bytes.update(i, x), open) is Some == body_bytes(bytes, open) is Some,
        body_bytes(bytes, open) is Some ==> (body_bytes(bytes.update(i, x), open)->0).len() == (body_bytes(
            bytes,
            open,
        )->0).len(),
{
    let u = bytes.update(i, x);
    assert(opens_at(u, open) == opens_at(bytes, open)) by {
        if open != i && 0 <= open < bytes.len() {
            assert(u[open] == bytes[open]);
        }
    }
    assert forall|c: int| closes_at(u, open, c) <==> closes_at(bytes, open, c) by {
        if 0 <= open < c < bytes.len() {
            lemma_nesting_update(bytes, i, x, open, c + 1);
            assert forall|k: int| open < k <= c implies #[trigger] nesting(u, open, k) == nesting(bytes, open, k) by {
                lemma_nesting_update(bytes, i, x, open, k);
            }
            if closes_at(bytes, open, c) {
                assert forall|k: int| open < k <= c implies #[trigger] nesting(u, open, k) > 0 by {
                    assert(nesting(bytes, open, k) > 0);
                }
            }
            if closes_at(u, open, c) {
                assert forall|k: int| open < k <= c implies #[trigger] nesting(bytes, open, k) > 0 by {
                    assert(nesting(u, open, k) > 0);
                }
            }
        }
    }
    if body_bytes(bytes, open) is Some {
        let c1 = choose|c: int| closes_at(bytes, open, c);
        let c2 = choose|c: int| closes_at(u, open, c);
        lemma_close_unique(bytes, open, c1, c2);
    }
}

/// A brace, a text without braces, and a brace: the body is the text.
pub proof fn lemma_body_of_wrapped_text(t: Seq<u8>)
    requires
        forall|k: int| 0 <= k < t.len() ==> #[trigger] t[k] != OPEN_BRACE && t[k] != CLOSE_BRACE,
    ensures
        body_bytes(seq![OPEN_BRACE] + t + seq![CLOSE_BRACE], 0) == Some(t),
{
    let s = seq![OPEN_BRACE] + t + seq![CLOSE_BRACE];
    let close: int = t.len() as int + 1;
    assert forall|k: int| 0 < k <= close implies #[trigger] nesting(s, 0, k) == 1 by {
        lemma_wrapped_nesting(t, k);
    }
    lemma_wrapped_nesting(t, close);
    assert(nesting(s, 0, close + 1) == nesting(s, 0, close) + brace_step(s[close]));
    assert(closes_at(s, 0, close));
    let c = choose|c: int| closes_at(s, 0, c);
    lemma_close_unique(s, 0, c, close);
    assert(s.subrange(1, close) =~= t);
}

proof fn lemma_wrapped_nesting(t: Seq<u8>, k: int)
    requires
        forall|j: int| 0 <= j < t.len() ==> #[trigger] t[j] != OPEN_BRACE && t[j] != CLOSE_BRACE,
        0 < k <= t.len() + 1,
    ensures
        nesting(seq![OPEN_BRACE] + t + seq![CLOSE_BRACE], 0, k) == 1,
    decreases k,
{
    let s = seq![OPEN_BRACE] + t + seq![CLOSE_BRACE];
    if k == 1 {
        reveal_with_fuel(nesting, 2);
        assert(s[0] == OPEN_BRACE);
    } else {
        lemma_wrapped_nesting(t, k - 1);
        assert(s[k - 1] == t[k - 2]);
    }
}

/// Finds a declaration's body: the text between the opening brace at byte
/// offset `open_brace` and its matching closing brace (both excluded),
/// counting braces so that nested types and method bodies are handled.
/// `None` when `content` has no `{` at `open_brace` or it is never closed.
pub fn class_body(content: &str, open_brace: usize) -> (body: Option<String>)
    ensures
        match body_bytes(content.spec_bytes(), open_brace as int) {
            Some(b) => body matches Some(s) && encode_utf8(s@) == b && s@ == decode_utf8(b),
            None => body is None,
        },
{
    broadcast use vstd::utf8::group_utf8_lib;

    let bytes = content.as_bytes();
    let ghost sb = content.spec_bytes();
    proof {
        encode_utf8_valid_utf8(content@);
    }
    if open_brace >= bytes.len() || bytes[open_brace] != OPEN_BRACE {
        assert(!opens_at(sb, open_brace as int));
        return None;
    }
    let mut depth: usize = 0;
    let mut i: usize = open_brace;
    while i < bytes.len()
        invariant
            bytes@ == sb,
            sb == content.spec_bytes(),
            valid_utf8(sb),
            opens_at(sb, open_brace as int),
            open_brace <= i <= sb.len(),
            depth as int == nesting(sb, open_brace as int, i as int),
            depth <= i - open_brace,
            i > open_brace ==> depth > 0,
            forall|k: int| open_brace < k <= i ==> #[trigger] nesting(sb, open_brace as int, k) > 0,
        decreases sb.len() - i,
    {
        let b = bytes[i];
        if b == OPEN_BRACE {
            depth = depth + 1;
        } else if b == CLOSE_BRACE {
            if depth == 0 {
                return None;
            }
            depth = depth - 1;
            if depth == 0 {
                assert(closes_at(sb, open_brace as int, i as int));
                proof {
                    is_char_boundary_iff_not_is_continuation_byte(sb, i as int);
                    lemma_boundary_after_ascii(sb, open_brace as int);
                }
                assert(sb[i as int] == CLOSE_BRACE);
                assert(i > open_brace);
                let body = substring(content, open_brace + 1, i);
                proof {
                    let c = choose|c: int| closes_at(sb, open_brace as int, c);
                    lemma_close_unique(sb, open_brace as int, c, i as int);
                    assert(body_bytes(sb, open_brace as int) == Some(
                        sb.subrange(open_brace as int + 1, i as int),
                    ));
                }
                return Some(body);
            }
        }
        i = i + 1;
    }
    assert forall|c: int| !closes_at(sb, open_brace as int, c) by {
        if closes_at(sb, open_brace as int, c) {
            assert(nesting(sb, open_brace as int, c + 1) == 0);
        }
    }
    None
}


/// The kind of a type declaration.
#[derive(Clone, Copy, Debug, PartialEq, Eq, Structural, PartialOrd, Ord)]
pub enum ClassType {
    /// `@interface`: an annotation type.
    AtInterface,
    /// `class`.
    Class,
    /// `record`.
    Record,
    /// `enum`.
    Enum,
    /// `interface`.
    Interface,
}

impl Default for ClassType {
    fn default() -> (t: ClassType)
        ensures
            t == ClassType::AtInterface,
    {
        ClassType::AtInterface
    }
}

/// The kind that a keyword names, if it names one.
pub open spec fn class_type_named(keyword: Seq<char>) -> Option<ClassType> {
    if keyword == "@interface"@ {
        Some(ClassType::AtInterface)
    } else if keyword == "class"@ {
        Some(ClassType::Class)
    } else if keyword == "record"@ {
        Some(ClassType::Record)
    } else if keyword == "enum"@ {
        Some(ClassType::Enum)
    } else if keyword == "interface"@ {
        Some(ClassType::Interface)
    } else {
        None
    }
}

impl ClassType {
    /// The kind that `keyword` names: one of `@interface`, `class`, `record`,
    /// `enum`, `interface`, spelled exactly so.
    pub fn from_name(keyword: &str) -> (t: Option<ClassType>)
        ensures
            t == class_type_named(keyword@),
    {
        if same_text(keyword, "@interface") {
            Some(ClassType::AtInterface)
        } else if same_text(keyword, "class") {
            Some(ClassType::Class)
        } else if same_text(keyword, "record") {
            Some(ClassType::Record)
        } else if same_text(keyword, "enum") {
            Some(ClassType::Enum)
        } else if same_text(keyword, "interface") {
            Some(ClassType::Interface)
        } else {
            None
        }
    }
}

/// A word that names no kind of declaration.
#[derive(Debug, Clone, Copy, PartialEq, Eq)]
pub struct UnknownClassType;

impl std::str::FromStr for ClassType {
    type Err = UnknownClassType;

    fn from_str(keyword: &str) -> (parsed: Result<ClassType, UnknownClassType>)
        ensures
            parsed == match class_type_named(keyword@) {
                Some(t) => Ok(t),
                None => Err(UnknownClassType),
            },
    {
        match ClassType::from_name(keyword) {
            Some(t) => Ok(t),
            None => Err(UnknownClassType),
        }
    }
}

impl Clone for ClassInfo {
    fn clone(&self) -> (c: ClassInfo)
        ensures
            c@ == self@,
    {
        self.copy_of()
    }
}

/// A type declaration and the declarations nested in it.
#[derive(Debug)]
pub struct ClassInfo {
    /// The declared name.
    pub name: String,
    /// The `extends` clause, as written.
    pub extends: Option<String>,
    /// The types named in the `implements` clause.
    pub implements: Vec<String>,
    /// The kind of declaration.
    pub object_type: ClassType,
    /// The declarations found in the body, in order.
    pub sub_classes: Vec<ClassInfo>,
}

/// A `ClassInfo` as values.
pub struct ClassInfoView {
    pub name: Seq<char>,
    pub extends: Option<Seq<char>>,
    pub implements: Seq<Seq<char>>,
    pub object_type: ClassType,
    pub sub_classes: Seq<ClassInfoView>,
}

/// The values a `ClassInfo` holds, nested declarations included.
pub open spec fn class_info_view(c: ClassInfo) -> ClassInfoView
    decreases c,
{
    ClassInfoView {
        name: c.name@,
        extends: match c.extends {
            Some(e) => Some(e@),
            None => None,
        },
        implements: c.implements@.map_values(|s: String| s@),
        object_type: c.object_type,
        sub_classes: Seq::new(
            c.sub_classes@.len(),
            |i: int|
                if 0 <= i < c.sub_classes@.len() {
                    proof {
                        assert(decreases_to!(c => c.sub_classes));
                        assert(decreases_to!(c.sub_classes => c.sub_classes@));
                        assert(decreases_to!(c.sub_classes@ => c.sub_classes@[i]));
                    }
                    class_info_view(c.sub_classes@[i])
                } else {
                    ClassInfoView {
                        name: Seq::empty(),
                        extends: None,
                        implements: Seq::empty(),
                        object_type: ClassType::AtInterface,
                        sub_classes: Seq::empty(),
                    }
                },
        ),
    }
}

impl View for ClassInfo {
    type V = ClassInfoView;

    open spec fn view(&self) -> ClassInfoView {
        class_info_view(*self)
    }
}

/// The types an `implements` clause names: its text split at commas, each
/// piece trimmed; none where there is no clause.
pub open spec fn implemented(bytes: Seq<u8>, spans: Spans) -> Seq<Seq<char>> {
    match group_text(bytes, spans, IMPLEMENTS_GROUP as int) {
        Some(t) => split(t, ',').map_values(|p: Seq<char>| trim(p)),
        None => Seq::empty(),
    }
}

/// The declarations in a body: each match of the declaration pattern that
/// yields one, in order.
pub open spec fn nested_classes(body: Seq<u8>, found: Seq<Spans>) -> Seq<ClassInfoView>
    decreases body.len(), 1int, found.len(),
{
    if found.len() == 0 {
        Seq::empty()
    } else {
        let before = nested_classes(body, found.drop_last());
        match declared_class(body, found.last()) {
            Some(c) => before.push(c),
            None => before,
        }
    }
}

/// The declarations in the body that follows a declaration matched with
/// `spans` (the body opens with the last byte of the match).
pub open spec fn body_classes(bytes: Seq<u8>, spans: Spans) -> Seq<ClassInfoView>
    decreases bytes.len(), 0int, 0int,
{
    if match_end(spans) >= 1 {
        match body_bytes(bytes, match_end(spans) - 1) {
            Some(body) => {
                proof {
                    lemma_body_shorter(bytes, match_end(spans) - 1);
                }
                nested_classes(body, all_matches(CLASS_PATTERN@, body, 0))
            },
            None => Seq::empty(),
        }
    } else {
        Seq::empty()
    }
}

/// The declaration that a match of the declaration pattern in `bytes`
/// describes: `None` where the match lacks the name or the kind.
pub open spec fn declared_class(bytes: Seq<u8>, spans: Spans) -> Option<ClassInfoView>
    decreases bytes.len(), 0int, 1int,
{
    match (
        group_text(bytes, spans, CLASS_GROUP as int),
        group_text(bytes, spans, TYPE_GROUP as int),
    ) {
        (Some(name), Some(kind)) => Some(
            ClassInfoView {
                name: name,
                extends: group_text(bytes, spans, EXTENDS_GROUP as int),
                implements: implemented(bytes, spans),
                object_type: match class_type_named(kind) {
                    Some(t) => t,
                    None => ClassType::AtInterface,
                },
                sub_classes: body_classes(bytes, spans),
            },
        ),
        _ => None,
    }
}

/// A declaration is read from its match's groups: its name is the text of
/// the name group, its `extends` the text of the `extends` group, its
/// `implements` the trimmed comma-separated pieces of that group, and it
/// exists exactly when the match has a name and a kind.
pub proof fn lemma_declaration_reads_groups(bytes: Seq<u8>, spans: Spans)
    ensures
        declared_class(bytes, spans) is Some <==> (group_text(bytes, spans, CLASS_GROUP as int) is Some
            && group_text(bytes, spans, TYPE_GROUP as int) is Some),
        declared_class(bytes, spans) matches Some(c) ==> {
            &&& Some(c.name) == group_text(bytes, spans, CLASS_GROUP as int)
            &&& c.extends == group_text(bytes, spans, EXTENDS_GROUP as int)
            &&& c.implements == match group_text(bytes, spans, IMPLEMENTS_GROUP as int) {
                Some(t) => split(t, ',').map_values(|p: Seq<char>| trim(p)),
                None => Seq::empty(),
            }
        },
{
}

/// Nested declarations are described exactly as top-level ones: each one
/// in a body is what a match of the declaration pattern in that body
/// describes (with its name and `extends` clause read from that match's
/// groups), and each match in the body that describes a declaration gives
/// one of them.
pub proof fn lemma_nested_like_top(body: Seq<u8>, found: Seq<Spans>)
    ensures
        nested_classes(body, found).len() <= found.len(),
        forall|k: int|
            #![trigger nested_classes(body, found)[k]]
            0 <= k < nested_classes(body, found).len() ==> exists|j: int|
                0 <= j < found.len() && declared_class(body, #[trigger] found[j]) == Some(
                    nested_classes(body, found)[k],
                ) && Some(nested_classes(body, found)[k].name) == group_text(body, found[j], CLASS_GROUP as int)
                    && nested_classes(body, found)[k].extends == group_text(
                    body,
                    found[j],
                    EXTENDS_GROUP as int,
                ),
        forall|j: int|
            0 <= j < found.len() ==> (declared_class(body, #[trigger] found[j]) matches Some(c)
                ==> nested_classes(body, found).contains(c)),
    decreases found.len(),
{
    if found.len() > 0 {
        let init = found.drop_last();
        lemma_nested_like_top(body, init);
        let before = nested_classes(body, init);
        let r = nested_classes(body, found);
        assert forall|k: int| #![trigger r[k]] 0 <= k < r.len() implies exists|j: int|
            0 <= j < found.len() && declared_class(body, #[trigger] found[j]) == Some(r[k]) && Some(
                r[k].name,
            ) == group_text(body, found[j], CLASS_GROUP as int) && r[k].extends == group_text(
                body,
                found[j],
                EXTENDS_GROUP as int,
            ) by {
            if k < before.len() {
                assert(r[k] == before[k]);
                let j = choose|j: int|
                    0 <= j < init.len() && declared_class(body, #[trigger] init[j]) == Some(before[k])
                        && Some(before[k].name) == group_text(body, init[j], CLASS_GROUP as int)
                        && before[k].extends == group_text(body, init[j], EXTENDS_GROUP as int);
                assert(found[j] == init[j]);
            } else {
                let j = found.len() - 1;
                assert(found[j] == found.last());
                lemma_declaration_reads_groups(body, found[j]);
            }
        }
        assert forall|j: int|
            0 <= j < found.len() implies (declared_class(body, #[trigger] found[j]) matches Some(c)
                ==> r.contains(c)) by {
            if let Some(c) = declared_class(body, found[j]) {
                if j < init.len() {
                    assert(init[j] == found[j]);
                    let k = choose|k: int| 0 <= k < before.len() && before[k] == c;
                    assert(r[k] == before[k]);
                } else {
                    assert(found[j] == found.last());
                    assert(r[r.len() - 1] == c);
                }
            }
        }
    }
}

/// The first type declaration in the UTF-8 text `bytes`, with the
/// declarations nested in its body.
pub open spec fn first_class(bytes: Seq<u8>) -> Option<ClassInfoView> {
    match search(CLASS_PATTERN@, bytes, 0) {
        Some(spans) => if spans_fit(bytes, 0, spans) {
            declared_class(bytes, spans)
        } else {
            None
        },
        None => None,
    }
}

impl ClassInfo {
    /// A copy of the declaration tree.
    fn copy_of(&self) -> (c: ClassInfo)
        ensures
            c@ == self@,
        decreases self,
    {
        let extends = match &self.extends {
            Some(e) => Some(e.clone()),
            None => None,
        };
        let mut implements: Vec<String> = Vec::new();
        let mut i: usize = 0;
        while i < self.implements.len()
            invariant
                i <= self.implements@.len(),
                implements@.map_values(|s: String| s@) == self.implements@.map_values(|s: String| s@).take(i as int),
            decreases self.implements@.len() - i,
        {
            let ghost before = implements@;
            let t = self.implements[i].clone();
            assert(t@ == self.implements@[i as int]@);
            implements.push(t);
            assert(implements@.map_values(|s: String| s@) =~= before.map_values(|s: String| s@).push(t@));
            assert(self.implements@.map_values(|s: String| s@).take(i + 1) =~= self.implements@.map_values(
                |s: String| s@,
            ).take(i as int).push(self.implements@[i as int]@));
            i = i + 1;
        }
        assert(self.implements@.map_values(|s: String| s@).take(i as int) =~= self.implements@.map_values(|s: String| s@));
        let mut sub_classes: Vec<ClassInfo> = Vec::new();
        let mut j: usize = 0;
        while j < self.sub_classes.len()
            invariant
                j <= self.sub_classes@.len(),
                sub_classes@.len() == j,
                forall|k: int| 0 <= k < j ==> (#[trigger] sub_classes@[k])@ == self.sub_classes@[k]@,
            decreases self.sub_classes@.len() - j,
        {
            proof {
                assert(decreases_to!(self => self.sub_classes));
                assert(decreases_to!(self.sub_classes => self.sub_classes@));
                assert(decreases_to!(self.sub_classes@ => self.sub_classes@[j as int]));
            }
            let c = self.sub_classes[j].copy_of();
            sub_classes.push(c);
            j = j + 1;
        }
        let ghost subs = sub_classes@;
        let c = ClassInfo {
            name: self.name.clone(),
            extends,
            implements,
            object_type: self.object_type,
            sub_classes,
        };
        assert(c@.sub_classes =~= self@.sub_classes) by {
            assert(c.sub_classes@ == subs);
            assert forall|k: int| 0 <= k < subs.len() implies c@.sub_classes[k] == self@.sub_classes[k] by {
                assert(subs[k]@ == self.sub_classes@[k]@);
            }
        }
        assert(c@.extends == self@.extends);
        c
    }

    /// Parses the first type declaration in `content` into a `ClassInfo`,
    /// recursing into nested type declarations found inside its body.
    pub fn create(content: &str) -> (info: Option<ClassInfo>)
        ensures
            match info {
                Some(c) => first_class(content.spec_bytes()) == Some(c@),
                None => first_class(content.spec_bytes()) is None,
            },
    {
        match find_at(CLASS_PATTERN, content, 0) {
            Some(spans) => Self::from_captures(&spans, content),
            None => None,
        }
    }

    /// The declaration that the match `spans` of the declaration pattern in
    /// `content` describes, with the declarations nested in its body.
    pub fn from_captures(spans: &Vec<Option<(usize, usize)>>, content: &str) -> (info: Option<ClassInfo>)
        requires
            spans_fit(content.spec_bytes(), 0, spans@),
        ensures
            match info {
                Some(c) => declared_class(content.spec_bytes(), spans@) == Some(c@),
                None => declared_class(content.spec_bytes(), spans@) is None,
            },
        decreases content.spec_bytes().len(),
    {
        let ghost bytes = content.spec_bytes();
        let implements = match group(content, spans, IMPLEMENTS_GROUP) {
            Some(clause) => split_trimmed(clause.as_str(), ','),
            None => Vec::new(),
        };
        assert(implements@.map_values(|s: String| s@) == implemented(bytes, spans@));
        let end = match spans[0] {
            Some((_, e)) => e,
            None => 0,
        };
        assert(end as int == match_end(spans@));
        let mut sub_classes: Vec<ClassInfo> = Vec::new();
        if end >= 1 {
            match class_body(content, end - 1) {
                Some(body) => {
                    let ghost b = body_bytes(bytes, end - 1)->0;
                    proof {
                        lemma_body_shorter(bytes, end - 1);
                    }
                    let body_str = body.as_str();
                    assert(body_str.spec_bytes() == b);
                    let found = find_all(CLASS_PATTERN, body_str);
                    let ghost all = all_matches(CLASS_PATTERN@, b, 0);
                    let mut i: usize = 0;
                    while i < found.len()
                        invariant
                            i <= found@.len(),
                            body_str.spec_bytes() == b,
                            b.len() < bytes.len(),
                            bytes == content.spec_bytes(),
                            found@.map_values(|v: Vec<Option<(usize, usize)>>| v@) == all,
                            forall|k: int| 0 <= k < found@.len() ==> spans_fit(b, 0, #[trigger] found@[k]@),
                            Seq::new(sub_classes@.len(), |k: int| sub_classes@[k]@) == nested_classes(b, all.take(i as int)),
                        decreases found@.len() - i,
                    {
                        assert(all[i as int] == found@[i as int]@);
                        assert(all.take(i + 1).drop_last() == all.take(i as int));
                        let ghost before = sub_classes@;
                        match Self::from_captures(&found[i], body_str) {
                            Some(c) => {
                                sub_classes.push(c);
                                assert(Seq::new(sub_classes@.len(), |k: int| sub_classes@[k]@) =~= Seq::new(before.len(), |k: int| before[k]@).push(c@));
                            },
                            None => {},
                        }
                        i = i + 1;
                    }
                    assert(all.take(i as int) == all);
                },
                None => {},
            }
        }
        assert(Seq::new(sub_classes@.len(), |k: int| sub_classes@[k]@) == body_classes(bytes, spans@));
        let name = match group(content, spans, CLASS_GROUP) {
            Some(n) => n,
            None => return None,
        };
        let kind = match group(content, spans, TYPE_GROUP) {
            Some(k) => k,
            None => return None,
        };
        let extends = group(content, spans, EXTENDS_GROUP);
        let object_type = match ClassType::from_name(kind.as_str()) {
            Some(t) => t,
            None => ClassType::default(),
        };
        let ghost subs = sub_classes@;
        let info = ClassInfo { name, extends, implements, object_type, sub_classes };
        assert(info@.sub_classes.len() == subs.len());
        assert forall|k: int| 0 <= k < subs.len() implies info@.sub_classes[k] == subs[k]@ by {
            assert(info.sub_classes@ == subs);
        }
        assert(info@.sub_classes =~= Seq::new(subs.len(), |k: int| subs[k]@));
        Some(info)
    }

    /// Whether the declaration is an annotation processor: an annotation type,
    /// or a class that extends `AbstractProcessor`.
    pub fn is_processor(&self) -> (r: bool)
        ensures
            r == (self.object_type == ClassType::AtInterface || (self.extends matches Some(e) && trim(
                e@,
            ) == "AbstractProcessor"@)),
    {
        if self.object_type == ClassType::AtInterface {
            return true;
        }
        match &self.extends {
            Some(ext) => {
                let t = trimmed(ext.as_str());
                same_text(t.as_str(), "AbstractProcessor")
            },
            None => false,
        }
    }
}

/// The top-level declaration follows the same rule as nested ones: it is
/// what the first match of the declaration pattern describes, its `extends`
/// clause the text of that match's `extends` group, and its nested
/// declarations those of the body after the match.
pub proof fn lemma_first_class_reads_first_match(bytes: Seq<u8>)
    ensures
        first_class(bytes) matches Some(c) ==> exists|spans: Spans|
            search(CLASS_PATTERN@, bytes, 0) == Some(spans) && #[trigger] declared_class(bytes, spans) == Some(c)
                && c.extends == group_text(bytes, spans, EXTENDS_GROUP as int)
                && c.sub_classes == body_classes(bytes, spans),
{
    if let Some(c) = first_class(bytes) {
        let spans = search(CLASS_PATTERN@, bytes, 0)->0;
        lemma_declaration_reads_groups(bytes, spans);
        assert(declared_class(bytes, spans) == Some(c));
    }
}

} // verus!
