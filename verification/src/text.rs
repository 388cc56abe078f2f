//! Character-level helpers on `str` and `String`.

use vstd::prelude::*;
use vstd::std_specs::iter::IteratorSpec;
use vstd::utf8::*;
use vstd::string::StringSliceAdditionalSpecFns;

verus! {

broadcast use vstd::string::group_string_axioms;

/// `String::push`: appends one character.
#[verifier::external_body]
pub(crate) fn push_char(s: &mut String, c: char)
    ensures
        final(s)@ == old(s)@.push(c),
{
    s.push(c);
}

/// `String::push_str`: appends a string slice.
#[verifier::external_body]
pub(crate) fn push_str(s: &mut String, t: &str)
    ensures
        final(s)@ == old(s)@ + t@,
{
    s.push_str(t);
}

/// The characters of `s`, in order.
pub fn chars_of(s: &str) -> (v: Vec<char>)
    ensures
        v@ == s@,
{
    let mut v: Vec<char> = Vec::new();
    for c in iter: s.chars()
        invariant
            v@ == iter.seq().take(iter.index() as int),
            iter.seq() == s@,
    {
        v.push(c);
    }
    v
}


/// UTF-8: a byte that follows an ASCII byte in valid UTF-8 starts a character
/// (or the ASCII byte is the last one).
pub proof fn lemma_boundary_after_ascii(bytes: Seq<u8>, i: int)
    requires
        valid_utf8(bytes),
        0 <= i < bytes.len(),
        bytes[i] < 0x80,
    ensures
        is_char_boundary(bytes, i + 1),
{
    broadcast use vstd::utf8::group_utf8_lib;

    is_char_boundary_iff_not_is_continuation_byte(bytes, i);
    valid_utf8_split(bytes, i);
    let rest = bytes.subrange(i, bytes.len() as int);
    assert(rest.len() != 0);
    assert(valid_first_scalar(rest));
    assert(length_of_first_scalar(rest) == 1);
    assert(valid_utf8(pop_first_scalar(rest)));
    if i + 1 < bytes.len() {
        let tail = pop_first_scalar(rest);
        assert(tail.len() != 0);
        assert(tail[0] == bytes[i + 1]);
        assert(valid_first_scalar(tail));
        is_char_boundary_iff_not_is_continuation_byte(bytes, i + 1);
    } else {
        is_char_boundary_start_end_of_seq(bytes);
    }
}

/// A boundary of `bytes` that lies before a boundary `to` is a boundary of
/// the prefix `bytes[..to]`.
pub proof fn lemma_boundary_in_prefix(bytes: Seq<u8>, to: int, from: int)
    requires
        valid_utf8(bytes),
        0 <= from <= to <= bytes.len(),
        is_char_boundary(bytes, from),
        is_char_boundary(bytes, to),
    ensures
        valid_utf8(bytes.subrange(0, to)),
        is_char_boundary(bytes.subrange(0, to), from),
{
    broadcast use vstd::utf8::group_utf8_lib;

    valid_utf8_split(bytes, to);
    let head = bytes.subrange(0, to);
    if from == to {
        is_char_boundary_start_end_of_seq(head);
    } else if from == 0 {
        is_char_boundary_start_end_of_seq(head);
    } else {
        is_char_boundary_iff_not_is_continuation_byte(bytes, from);
        is_char_boundary_iff_not_is_continuation_byte(head, from);
    }
}

/// The text between two byte offsets that fall on character boundaries.
pub fn substring(s: &str, from: usize, to: usize) -> (r: String)
    requires
        from <= to <= s.spec_bytes().len(),
        is_char_boundary(s.spec_bytes(), from as int),
        is_char_boundary(s.spec_bytes(), to as int),
    ensures
        encode_utf8(r@) == s.spec_bytes().subrange(from as int, to as int),
        r@ == decode_utf8(s.spec_bytes().subrange(from as int, to as int)),
{
    broadcast use vstd::utf8::group_utf8_lib;

    proof {
        lemma_boundary_in_prefix(s.spec_bytes(), to as int, from as int);
    }
    let (head, _) = s.split_at(to);
    assert(head.spec_bytes() == s.spec_bytes().subrange(0, to as int));
    let (_, mid) = head.split_at(from);
    assert(mid.spec_bytes() == s.spec_bytes().subrange(from as int, to as int));
    let r = mid.to_owned();
    proof {
        encode_utf8_decode_utf8(mid@);
    }
    r
}


/// Whether a character has the Unicode `White_Space` property, which is
/// what `char::is_whitespace` tests: U+0009 to U+000D, U+0020, U+0085,
/// U+00A0, U+1680, U+2000 to U+200A, U+2028, U+2029, U+202F, U+205F, U+3000.
pub open spec fn white_space(c: char) -> bool {
    ||| ('\u{9}' <= c && c <= '\u{d}')
    ||| c == '\u{20}'
    ||| c == '\u{85}'
    ||| c == '\u{a0}'
    ||| c == '\u{1680}'
    ||| ('\u{2000}' <= c && c <= '\u{200a}')
    ||| c == '\u{2028}'
    ||| c == '\u{2029}'
    ||| c == '\u{202f}'
    ||| c == '\u{205f}'
    ||| c == '\u{3000}'
}

/// Whether `c` is white space (as `char::is_whitespace`).
pub fn is_whitespace(c: char) -> (r: bool)
    ensures
        r == white_space(c),
{
    ('\u{9}' <= c && c <= '\u{d}') || c == '\u{20}' || c == '\u{85}' || c == '\u{a0}'
        || c == '\u{1680}' || ('\u{2000}' <= c && c <= '\u{200a}') || c == '\u{2028}'
        || c == '\u{2029}' || c == '\u{202f}' || c == '\u{205f}' || c == '\u{3000}'
}

/// `s` without its leading white space.
pub open spec fn trim_start(s: Seq<char>) -> Seq<char>
    decreases s.len(),
{
    if s.len() > 0 && white_space(s[0]) {
        trim_start(s.drop_first())
    } else {
        s
    }
}

/// `s` without its trailing white space.
pub open spec fn trim_end(s: Seq<char>) -> Seq<char>
    decreases s.len(),
{
    if s.len() > 0 && white_space(s.last()) {
        trim_end(s.drop_last())
    } else {
        s
    }
}

/// `s` without leading and trailing white space, as `str::trim` gives it.
pub open spec fn trim(s: Seq<char>) -> Seq<char> {
    trim_end(trim_start(s))
}

/// The pieces of `s` around each `sep`, as `str::split` with a character
/// separator gives them, read from the left: the pieces already closed, and
/// the piece still open.
pub open spec fn split_state(s: Seq<char>, sep: char) -> (Seq<Seq<char>>, Seq<char>)
    decreases s.len(),
{
    if s.len() == 0 {
        (Seq::empty(), Seq::empty())
    } else {
        let (done, open) = split_state(s.drop_last(), sep);
        if s.last() == sep {
            (done.push(open), Seq::empty())
        } else {
            (done, open.push(s.last()))
        }
    }
}

/// The pieces of `s` between occurrences of `sep`; never empty.
pub open spec fn split(s: Seq<char>, sep: char) -> Seq<Seq<char>> {
    split_state(s, sep).0.push(split_state(s, sep).1)
}

/// A `String` holding `chars[from..to]`.
pub fn string_of(chars: &Vec<char>, from: usize, to: usize) -> (s: String)
    requires
        from <= to <= chars@.len(),
    ensures
        s@ == chars@.subrange(from as int, to as int),
{
    let mut s = String::new();
    let mut i = from;
    while i < to
        invariant
            from <= i <= to <= chars@.len(),
            s@ == chars@.subrange(from as int, i as int),
        decreases to - i,
    {
        push_char(&mut s, chars[i]);
        assert(chars@.subrange(from as int, i + 1) == chars@.subrange(from as int, i as int).push(
            chars@[i as int],
        ));
        i = i + 1;
    }
    s
}

proof fn lemma_trim_start_skip(s: Seq<char>, i: int)
    requires
        0 <= i <= s.len(),
        forall|k: int| 0 <= k < i ==> white_space(#[trigger] s[k]),
    ensures
        trim_start(s) == trim_start(s.subrange(i, s.len() as int)),
    decreases i,
{
    if i > 0 {
        assert(s.drop_first().subrange(i - 1, s.drop_first().len() as int) == s.subrange(i, s.len() as int));
        lemma_trim_start_skip(s.drop_first(), i - 1);
    } else {
        assert(s.subrange(0, s.len() as int) == s);
    }
}

proof fn lemma_trim_end_skip(s: Seq<char>, j: int)
    requires
        0 <= j <= s.len(),
        forall|k: int| j <= k < s.len() ==> white_space(#[trigger] s[k]),
    ensures
        trim_end(s) == trim_end(s.subrange(0, j)),
    decreases s.len() - j,
{
    if j < s.len() {
        assert(s.drop_last().subrange(0, j) == s.subrange(0, j));
        lemma_trim_end_skip(s.drop_last(), j);
    } else {
        assert(s.subrange(0, s.len() as int) == s);
    }
}

/// `s` without leading and trailing white space (`str::trim`).
pub fn trimmed(s: &str) -> (t: String)
    ensures
        t@ == trim(s@),
{
    let chars = chars_of(s);
    let mut i: usize = 0;
    while i < chars.len() && is_whitespace(chars[i])
        invariant
            i <= chars@.len(),
            chars@ == s@,
            forall|k: int| 0 <= k < i ==> white_space(#[trigger] chars@[k]),
        decreases chars@.len() - i,
    {
        i = i + 1;
    }
    proof {
        lemma_trim_start_skip(s@, i as int);
    }
    let ghost rest = s@.subrange(i as int, s@.len() as int);
    assert(trim_start(rest) == rest);
    let mut j: usize = chars.len();
    while j > i && is_whitespace(chars[j - 1])
        invariant
            i <= j <= chars@.len(),
            chars@ == s@,
            rest == s@.subrange(i as int, s@.len() as int),
            forall|k: int| j <= k < chars@.len() ==> white_space(#[trigger] chars@[k]),
        decreases j,
    {
        j = j - 1;
    }
    proof {
        lemma_trim_end_skip(rest, j - i);
        assert(rest.subrange(0, j - i) == s@.subrange(i as int, j as int));
        let mid = s@.subrange(i as int, j as int);
        if mid.len() > 0 {
            assert(mid.last() == chars@[j - 1]);
        }
    }
    string_of(&chars, i, j)
}

proof fn lemma_split_state_step(s: Seq<char>, i: int, sep: char)
    requires
        0 <= i < s.len(),
    ensures
        split_state(s.take(i + 1), sep) == ({
            let (done, open) = split_state(s.take(i), sep);
            if s[i] == sep {
                (done.push(open), Seq::<char>::empty())
            } else {
                (done, open.push(s[i]))
            }
        }),
{
    assert(s.take(i + 1).drop_last() == s.take(i));
}

/// The pieces of `s` between occurrences of `sep`, each trimmed of white
/// space, as `s.split(sep).map(str::trim)` gives them.
pub fn split_trimmed(s: &str, sep: char) -> (pieces: Vec<String>)
    ensures
        pieces@.map_values(|p: String| p@) == split(s@, sep).map_values(|p: Seq<char>| trim(p)),
{
    let chars = chars_of(s);
    let mut pieces: Vec<String> = Vec::new();
    let mut start: usize = 0;
    let mut i: usize = 0;
    assert(s@.take(0) == Seq::<char>::empty());
    while i < chars.len()
        invariant
            start <= i <= chars@.len(),
            chars@ == s@,
            split_state(s@.take(i as int), sep).1 == s@.subrange(start as int, i as int),
            pieces@.map_values(|p: String| p@) == split_state(s@.take(i as int), sep).0.map_values(
                |p: Seq<char>| trim(p),
            ),
        decreases chars@.len() - i,
    {
        proof {
            lemma_split_state_step(s@, i as int, sep);
        }
        let ghost before = pieces@;
        if chars[i] == sep {
            let piece = string_of(&chars, start, i);
            let t = trimmed(piece.as_str());
            pieces.push(t);
            assert(pieces@.map_values(|p: String| p@) =~= before.map_values(|p: String| p@).push(
                t@,
            ));
            assert(split_state(s@.take(i as int), sep).0.push(split_state(s@.take(i as int), sep).1).map_values(
                |p: Seq<char>| trim(p),
            ) =~= split_state(s@.take(i as int), sep).0.map_values(|p: Seq<char>| trim(p)).push(
                trim(split_state(s@.take(i as int), sep).1),
            ));
            start = i + 1;
        } else {
            assert(s@.subrange(start as int, i + 1) == s@.subrange(start as int, i as int).push(
                s@[i as int],
            ));
        }
        i = i + 1;
        assert(pieces@.map_values(|p: String| p@) == split_state(s@.take(i as int), sep).0.map_values(
            |p: Seq<char>| trim(p),
        ));
    }
    assert(s@.take(i as int) == s@);
    let last = string_of(&chars, start, i);
    let t = trimmed(last.as_str());
    let ghost before = pieces@;
    pieces.push(t);
    assert(pieces@.map_values(|p: String| p@) =~= before.map_values(|p: String| p@).push(t@));
    assert(split(s@, sep).map_values(|p: Seq<char>| trim(p)) =~= split_state(s@, sep).0.map_values(
        |p: Seq<char>| trim(p),
    ).push(trim(split_state(s@, sep).1)));
    assert(pieces@.map_values(|p: String| p@) == split(s@, sep).map_values(|p: Seq<char>| trim(p)));
    pieces
}

/// The pieces of `s` between occurrences of `sep`, as `s.split(sep)` gives
/// them.
pub fn split_pieces(s: &str, sep: char) -> (pieces: Vec<String>)
    ensures
        pieces@.map_values(|p: String| p@) == split(s@, sep),
{
    let chars = chars_of(s);
    let mut pieces: Vec<String> = Vec::new();
    let mut start: usize = 0;
    let mut i: usize = 0;
    assert(s@.take(0) == Seq::<char>::empty());
    while i < chars.len()
        invariant
            start <= i <= chars@.len(),
            chars@ == s@,
            split_state(s@.take(i as int), sep).1 == s@.subrange(start as int, i as int),
            pieces@.map_values(|p: String| p@) == split_state(s@.take(i as int), sep).0,
        decreases chars@.len() - i,
    {
        proof {
            lemma_split_state_step(s@, i as int, sep);
        }
        let ghost before = pieces@;
        if chars[i] == sep {
            let piece = string_of(&chars, start, i);
            pieces.push(piece);
            assert(pieces@.map_values(|p: String| p@) =~= before.map_values(|p: String| p@).push(
                piece@,
            ));
            start = i + 1;
        } else {
            assert(s@.subrange(start as int, i + 1) == s@.subrange(start as int, i as int).push(
                s@[i as int],
            ));
        }
        i = i + 1;
        assert(pieces@.map_values(|p: String| p@) == split_state(s@.take(i as int), sep).0);
    }
    assert(s@.take(i as int) == s@);
    let last = string_of(&chars, start, i);
    let ghost before = pieces@;
    pieces.push(last);
    assert(pieces@.map_values(|p: String| p@) =~= before.map_values(|p: String| p@).push(last@));
    pieces
}

/// Whether two texts hold the same characters.
pub fn same_text(a: &str, b: &str) -> (r: bool)
    ensures
        r == (a@ == b@),
{
    let x = chars_of(a);
    let y = chars_of(b);
    if x.len() != y.len() {
        return false;
    }
    let mut i: usize = 0;
    while i < x.len()
        invariant
            x@ == a@,
            y@ == b@,
            x@.len() == y@.len(),
            i <= x@.len(),
            forall|k: int| 0 <= k < i ==> x@[k] == y@[k],
        decreases x@.len() - i,
    {
        if x[i] != y[i] {
            return false;
        }
        i = i + 1;
    }
    assert(x@ == y@);
    true
}


/// UTF-8 encoding maps concatenation to concatenation.
pub proof fn lemma_encode_concat(x: Seq<char>, y: Seq<char>)
    ensures
        encode_utf8(x + y) == encode_utf8(x) + encode_utf8(y),
    decreases x.len(),
{
    if x.len() == 0 {
        assert(x + y == y);
        assert(encode_utf8(x) == Seq::<u8>::empty());
        assert(encode_utf8(x) + encode_utf8(y) == encode_utf8(y));
    } else {
        lemma_encode_concat(x.drop_first(), y);
        assert((x + y).drop_first() == x.drop_first() + y);
        assert((x + y)[0] == x[0]);
    }
}

} // verus!
