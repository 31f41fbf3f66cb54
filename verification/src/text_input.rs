//! The editing model of a single-line text input: content, selection and
//! the range that an input method has marked, moved by grapheme cluster
//! and edited by byte range. Offsets are byte offsets into the UTF-8
//! content; the input-method protocol speaks UTF-16 and is converted.
use crate::text::{
    char_index, is_boundary, lemma_char_index, lemma_encode_scalar_len, lemma_encode_utf8_concat, lemma_encode_utf8_single,
    lemma_encode_utf8_split, lemma_ends_are_boundaries, lemma_prefix_bytes_increase, prefix_bytes,
    str_chars, string_from_chars, trim_str, trimmed,
};
use crate::terminal_input::utf8_len;
use core::ops::Range;
use vstd::prelude::*;
use vstd::utf8::encode_utf8;

verus! {

// ---------------------------------------------------------------------------
// Model
// ---------------------------------------------------------------------------

/// What a [`TextInput`] holds, as mathematical values.
pub struct TextInputModel {
    /// The characters of the content.
    pub content: Seq<char>,
    /// Byte offset where the selection starts.
    pub start: usize,
    /// Byte offset where the selection ends.
    pub end: usize,
    /// The cursor sits at `start` rather than at `end`.
    pub reversed: bool,
    /// The byte range that an input method is composing, if any.
    pub marked: Option<(usize, usize)>,
    /// A mouse drag is extending the selection.
    pub selecting: bool,
    /// The text wraps over several visual lines.
    pub wrap: bool,
}

/// The byte length of the UTF-8 encoding of `s`.
pub open spec fn byte_len(s: Seq<char>) -> int {
    encode_utf8(s).len() as int
}

/// The cursor of a model: the end of the selection that moves.
pub open spec fn cursor_of(m: TextInputModel) -> int {
    if m.reversed {
        m.start as int
    } else {
        m.end as int
    }
}

/// `bytes[..start] + new + bytes[end..]`.
pub open spec fn spliced(bytes: Seq<u8>, start: int, end: int, new: Seq<u8>) -> Seq<u8> {
    bytes.subrange(0, start) + new + bytes.subrange(end, bytes.len() as int)
}

/// The characters of `s` with the byte range `start..end` replaced by
/// `new`, both ends being character boundaries.
pub open spec fn splice_chars(s: Seq<char>, start: int, end: int, new: Seq<char>) -> Seq<char> {
    s.take(char_index(s, start)) + new + s.skip(char_index(s, end))
}

/// An event that the input reports to its owner.
#[derive(Clone, Debug, PartialEq, Eq)]
pub enum TextInputEvent {
    /// Enter was pressed; the content, trimmed.
    Confirm(String),
    /// Escape was pressed.
    Cancel,
}

/// A selection in UTF-16 code units, as the input-method protocol wants it.
#[derive(Clone, Copy, Debug, PartialEq, Eq)]
pub struct Utf16Selection {
    pub start: usize,
    pub end: usize,
    pub reversed: bool,
}

/// A single-line text input's editing state.
pub struct TextInput {
    content: String,
    selected_range: Range<usize>,
    selection_reversed: bool,
    marked_range: Option<Range<usize>>,
    is_selecting: bool,
    wrap: bool,
}

/// A byte range as a pair of integers.
pub open spec fn range_pair(r: Range<usize>) -> (usize, usize) {
    (r.start, r.end)
}

impl View for TextInput {
    type V = TextInputModel;

    closed spec fn view(&self) -> TextInputModel {
        TextInputModel {
            content: self.content@,
            start: self.selected_range.start,
            end: self.selected_range.end,
            reversed: self.selection_reversed,
            marked: match self.marked_range {
                Some(r) => Some(range_pair(r)),
                None => None,
            },
            selecting: self.is_selecting,
            wrap: self.wrap,
        }
    }
}

// ---------------------------------------------------------------------------
// Grapheme clusters
// ---------------------------------------------------------------------------

/// The byte offsets at which `UnicodeSegmentation::grapheme_indices`
/// (extended clusters) starts the clusters of `s`, in the order it yields
/// them.
pub uninterp spec fn grapheme_offsets(s: Seq<char>) -> Seq<usize>;

/// Calls `UnicodeSegmentation::grapheme_indices(s, true)` and keeps the
/// offset of each cluster. Each cluster is a non-empty slice of `s`, so its
/// offset is a character boundary below the byte length of `s`.
#[verifier::external_body]
fn grapheme_starts(s: &str) -> (r: Vec<usize>)
    ensures
        r@ == grapheme_offsets(s@),
        forall|i: int|
            0 <= i < r.len() ==> is_boundary(s@, #[trigger] r[i] as int) && (r[i] as int)
                < byte_len(s@),
{
    unicode_segmentation::UnicodeSegmentation::grapheme_indices(s, true).map(|(i, _)| i).collect()
}

/// The last of `g[..n]` that lies below `offset`, else 0.
pub open spec fn last_below(g: Seq<usize>, offset: int, n: int) -> int
    decreases n,
{
    if n <= 0 {
        0
    } else if (g[n - 1] as int) < offset {
        g[n - 1] as int
    } else {
        last_below(g, offset, n - 1)
    }
}

/// The first of `g[k..]` that lies above `offset`, else `fallback`.
pub open spec fn first_above(g: Seq<usize>, offset: int, k: int, fallback: int) -> int
    decreases g.len() - k,
{
    if k < 0 || k >= g.len() {
        fallback
    } else if (g[k] as int) > offset {
        g[k] as int
    } else {
        first_above(g, offset, k + 1, fallback)
    }
}

/// The start of the grapheme cluster before `offset`, or 0.
pub open spec fn previous_boundary_of(s: Seq<char>, offset: int) -> int {
    last_below(grapheme_offsets(s), offset, grapheme_offsets(s).len() as int)
}

/// The start of the grapheme cluster after `offset`, or the byte length.
pub open spec fn next_boundary_of(s: Seq<char>, offset: int) -> int {
    first_above(grapheme_offsets(s), offset, 0, byte_len(s))
}

// ---------------------------------------------------------------------------
// Byte offsets, character indices and UTF-16
// ---------------------------------------------------------------------------

/// The number of UTF-16 code units of `c`.
pub open spec fn utf16_width(c: char) -> int {
    if (c as u32) < 0x10000 {
        1
    } else {
        2
    }
}

/// The number of UTF-8 bytes of `c`.
pub open spec fn utf8_width(c: char) -> int {
    vstd::utf8::encode_scalar(c as u32).len() as int
}

/// Walks the characters of `s`, stopping once `offset` bytes are passed,
/// and counts the UTF-16 code units walked over.
pub open spec fn utf16_offset(s: Seq<char>, offset: int) -> int
    decreases s.len(),
{
    if s.len() == 0 || offset <= 0 {
        0
    } else {
        utf16_width(s[0]) + utf16_offset(s.drop_first(), offset - utf8_width(s[0]))
    }
}

/// Walks the characters of `s`, stopping once `offset` UTF-16 code units
/// are passed, and counts the bytes walked over.
pub open spec fn utf8_offset(s: Seq<char>, offset: int) -> int
    decreases s.len(),
{
    if s.len() == 0 || offset <= 0 {
        0
    } else {
        utf8_width(s[0]) + utf8_offset(s.drop_first(), offset - utf16_width(s[0]))
    }
}

/// The number of UTF-16 code units of `c`.
fn utf16_len(c: char) -> (r: usize)
    ensures
        r == utf16_width(c),
{
    if (c as u32) < 0x10000 {
        1
    } else {
        2
    }
}

/// The walk of [`utf8_offset`] ends on a character boundary.
proof fn lemma_utf8_offset_boundary(s: Seq<char>, offset: int)
    ensures
        is_boundary(s, utf8_offset(s, offset)),
    decreases s.len(),
{
    if s.len() == 0 || offset <= 0 {
        lemma_ends_are_boundaries(s);
    } else {
        let t = s.drop_first();
        lemma_utf8_offset_boundary(t, offset - utf16_width(s[0]));
        let b = utf8_offset(t, offset - utf16_width(s[0]));
        let k = choose|k: int| 0 <= k <= t.len() && #[trigger] prefix_bytes(t, k) == b;
        assert(s.take(k + 1) =~= seq![s[0]] + t.take(k));
        lemma_encode_utf8_concat(seq![s[0]], t.take(k));
        lemma_encode_utf8_single(s[0]);
        assert(prefix_bytes(s, k + 1) == utf8_width(s[0]) + b);
    }
}

/// Converting a character boundary to UTF-16 and back gives it back.
pub proof fn law_utf16_round_trip(s: Seq<char>, b: int)
    requires
        is_boundary(s, b),
    ensures
        utf8_offset(s, utf16_offset(s, b)) == b,
    decreases s.len(),
{
    let k = choose|k: int| 0 <= k <= s.len() && #[trigger] prefix_bytes(s, k) == b;
    if k == 0 {
        assert(s.take(0) =~= Seq::<char>::empty());
        assert(encode_utf8(s.take(0)) =~= Seq::<u8>::empty());
    } else {
        let t = s.drop_first();
        assert(s.take(k) =~= seq![s[0]] + t.take(k - 1));
        lemma_encode_utf8_concat(seq![s[0]], t.take(k - 1));
        lemma_encode_utf8_single(s[0]);
        let b2 = b - utf8_width(s[0]);
        assert(prefix_bytes(t, k - 1) == b2);
        lemma_encode_scalar_len(s[0]);
        assert(is_boundary(t, b2));
        law_utf16_round_trip(t, b2);
        let u2 = utf16_offset(t, b2);
        assert(utf16_offset(s, b) == utf16_width(s[0]) + u2);
        assert(utf8_offset(s, utf16_offset(s, b)) == utf8_width(s[0]) + utf8_offset(t, u2));
    }
}

/// The index of the character that starts at byte `b` of `chars`.
fn char_index_for_byte(chars: &Vec<char>, b: usize) -> (k: usize)
    requires
        is_boundary(chars@, b as int),
    ensures
        k <= chars.len(),
        prefix_bytes(chars@, k as int) == b,
        k == char_index(chars@, b as int),
{
    let ghost s = chars@;
    let ghost kw = choose|k: int| 0 <= k <= s.len() && #[trigger] prefix_bytes(s, k) == b;
    let mut k: usize = 0;
    let mut acc: usize = 0;
    proof {
        lemma_ends_are_boundaries(s);
    }
    while acc < b
        invariant
            s == chars@,
            0 <= kw <= s.len(),
            prefix_bytes(s, kw) == b,
            k <= s.len(),
            acc == prefix_bytes(s, k as int),
            acc <= b,
        decreases s.len() - k,
    {
        proof {
            if kw <= k {
                lemma_prefix_bytes_increase(s, kw, k as int);
            }
            assert(k < kw);
            assert(kw <= chars.len());
            lemma_prefix_bytes_increase(s, k + 1, kw);
            assert(s.take(k + 1) =~= s.take(k as int) + seq![s[k as int]]);
            lemma_encode_utf8_concat(s.take(k as int), seq![s[k as int]]);
            lemma_encode_utf8_single(s[k as int]);
        }
        acc = acc + utf8_len(chars[k]);
        k = k + 1;
    }
    proof {
        lemma_char_index(s, b as int, k as int);
    }
    k
}

/// Replaces the byte range `start..end` of `content` by `new_text`.
fn splice_text(content: &str, start: usize, end: usize, new_text: &str) -> (r: String)
    requires
        is_boundary(content@, start as int),
        is_boundary(content@, end as int),
    ensures
        r@ == splice_chars(content@, start as int, end as int, new_text@),
        encode_utf8(r@) == spliced(encode_utf8(content@), start as int, end as int, encode_utf8(new_text@)),
{
    let chars = str_chars(content);
    let new_chars = str_chars(new_text);
    let ks = char_index_for_byte(&chars, start);
    let ke = char_index_for_byte(&chars, end);
    let mut out: Vec<char> = Vec::new();
    let mut i: usize = 0;
    while i < ks
        invariant
            ks <= chars.len(),
            i <= ks,
            out@ == chars@.take(i as int),
        decreases ks - i,
    {
        out.push(chars[i]);
        i = i + 1;
        assert(out@ =~= chars@.take(i as int));
    }
    let ghost head = out@;
    let mut j: usize = 0;
    while j < new_chars.len()
        invariant
            j <= new_chars.len(),
            out@ == head + new_chars@.take(j as int),
        decreases new_chars.len() - j,
    {
        out.push(new_chars[j]);
        j = j + 1;
        assert(out@ =~= head + new_chars@.take(j as int));
    }
    assert(new_chars@.take(new_chars.len() as int) =~= new_chars@);
    let ghost mid = out@;
    let mut i: usize = ke;
    while i < chars.len()
        invariant
            ke <= i <= chars.len(),
            out@ == mid + chars@.subrange(ke as int, i as int),
        decreases chars.len() - i,
    {
        out.push(chars[i]);
        i = i + 1;
        assert(out@ =~= mid + chars@.subrange(ke as int, i as int));
    }
    proof {
        let s = content@;
        assert(chars@.subrange(ke as int, chars.len() as int) =~= s.skip(ke as int));
        assert(out@ =~= s.take(ks as int) + new_text@ + s.skip(ke as int));
        lemma_encode_utf8_split(s, ks as int);
        lemma_encode_utf8_split(s, ke as int);
        lemma_encode_utf8_concat(s.take(ks as int) + new_text@, s.skip(ke as int));
        lemma_encode_utf8_concat(s.take(ks as int), new_text@);
    }
    string_from_chars(out.as_slice())
}

/// The text of the byte range `start..end` of `content`.
fn byte_range_text(content: &str, start: usize, end: usize) -> (r: String)
    requires
        is_boundary(content@, start as int),
        is_boundary(content@, end as int),
        start <= end,
    ensures
        r@ == content@.subrange(char_index(content@, start as int), char_index(content@, end as int)),
        encode_utf8(r@) == encode_utf8(content@).subrange(start as int, end as int),
{
    let chars = str_chars(content);
    let ks = char_index_for_byte(&chars, start);
    let ke = char_index_for_byte(&chars, end);
    proof {
        if ke < ks {
            lemma_prefix_bytes_increase(chars@, ke as int, ks as int);
        }
    }
    let mut out: Vec<char> = Vec::new();
    let mut i: usize = ks;
    while i < ke
        invariant
            ks <= i <= ke <= chars.len(),
            out@ == chars@.subrange(ks as int, i as int),
        decreases ke - i,
    {
        out.push(chars[i]);
        i = i + 1;
        assert(out@ =~= chars@.subrange(ks as int, i as int));
    }
    proof {
        let s = content@;
        let sub = s.subrange(ks as int, ke as int);
        assert(s.take(ke as int) =~= s.take(ks as int) + sub);
        lemma_encode_utf8_concat(s.take(ks as int), sub);
        lemma_encode_utf8_split(s, ks as int);
        lemma_encode_utf8_split(s, ke as int);
        let e = encode_utf8(s);
        let a = encode_utf8(s.take(ks as int));
        let c = encode_utf8(s.take(ke as int));
        assert(c == a + encode_utf8(sub));
        assert(c.subrange(a.len() as int, c.len() as int) =~= encode_utf8(sub));
        assert(c.subrange(start as int, end as int) =~= e.subrange(start as int, end as int));
    }
    string_from_chars(out.as_slice())
}


/// The byte length of `s`.
fn byte_length(s: &str) -> (r: usize)
    ensures
        r as int == byte_len(s@),
{
    s.as_bytes().len()
}

/// Replaces each line feed by a space.
fn newlines_to_spaces(s: &str) -> (r: String)
    ensures
        r@ == s@.map_values(|c: char| if c == '\n' { ' ' } else { c }),
{
    let chars = str_chars(s);
    let mut out: Vec<char> = Vec::new();
    let mut i: usize = 0;
    while i < chars.len()
        invariant
            i <= chars.len(),
            chars@ == s@,
            out@ == s@.take(i as int).map_values(|c: char| if c == '\n' { ' ' } else { c }),
        decreases chars.len() - i,
    {
        let c = chars[i];
        if c == '\n' {
            out.push(' ');
        } else {
            out.push(c);
        }
        i = i + 1;
        assert(out@ =~= s@.take(i as int).map_values(|c: char| if c == '\n' { ' ' } else { c }));
    }
    assert(s@.take(chars.len() as int) =~= s@);
    string_from_chars(out.as_slice())
}

/// A character takes no more UTF-16 code units than UTF-8 bytes.
proof fn lemma_utf16_le_utf8(c: char)
    ensures
        1 <= utf16_width(c) <= utf8_width(c),
{
    lemma_encode_scalar_len(c);
}

/// The UTF-16 offset of byte `offset` of `content`: see [`utf16_offset`].
fn utf16_offset_in(content: &str, offset: usize) -> (r: usize)
    ensures
        r as int == utf16_offset(content@, offset as int),
{
    let chars = str_chars(content);
    let total = byte_length(content);
    let ghost s = content@;
    let mut i: usize = 0;
    let mut u8c: usize = 0;
    let mut u16c: usize = 0;
    proof {
        lemma_ends_are_boundaries(s);
        assert(s.skip(0) =~= s);
    }
    while i < chars.len()
        invariant
            chars@ == s,
            total as int == byte_len(s),
            i <= s.len(),
            u8c as int == prefix_bytes(s, i as int),
            u16c <= u8c,
            utf16_offset(s, offset as int) == u16c + utf16_offset(s.skip(i as int), offset - u8c),
        ensures
            i == s.len() || u8c >= offset,
            utf16_offset(s, offset as int) == u16c + utf16_offset(s.skip(i as int), offset - u8c),
        decreases s.len() - i,
    {
        if u8c >= offset {
            break;
        }
        let c = chars[i];
        proof {
            let t = s.skip(i as int);
            assert(t[0] == c);
            assert(t.drop_first() =~= s.skip(i + 1));
            assert(s.take(i + 1) =~= s.take(i as int) + seq![c]);
            lemma_encode_utf8_concat(s.take(i as int), seq![c]);
            lemma_encode_utf8_single(c);
            lemma_encode_utf8_split(s, i + 1);
            lemma_utf16_le_utf8(c);
        }
        u16c = u16c + utf16_len(c);
        u8c = u8c + utf8_len(c);
        i = i + 1;
    }
    proof {
        if i == s.len() {
            assert(s.skip(i as int) =~= Seq::<char>::empty());
        }
    }
    u16c
}

/// The byte offset of UTF-16 offset `offset` of `content`: see
/// [`utf8_offset`].
fn utf8_offset_in(content: &str, offset: usize) -> (r: usize)
    ensures
        r as int == utf8_offset(content@, offset as int),
        is_boundary(content@, r as int),
{
    let chars = str_chars(content);
    let total = byte_length(content);
    let ghost s = content@;
    let mut i: usize = 0;
    let mut u8c: usize = 0;
    let mut u16c: usize = 0;
    proof {
        lemma_ends_are_boundaries(s);
        assert(s.skip(0) =~= s);
    }
    while i < chars.len()
        invariant
            chars@ == s,
            total as int == byte_len(s),
            i <= s.len(),
            u8c as int == prefix_bytes(s, i as int),
            u16c <= u8c,
            utf8_offset(s, offset as int) == u8c + utf8_offset(s.skip(i as int), offset - u16c),
        ensures
            i == s.len() || u16c >= offset,
            utf8_offset(s, offset as int) == u8c + utf8_offset(s.skip(i as int), offset - u16c),
        decreases s.len() - i,
    {
        if u16c >= offset {
            break;
        }
        let c = chars[i];
        proof {
            let t = s.skip(i as int);
            assert(t[0] == c);
            assert(t.drop_first() =~= s.skip(i + 1));
            assert(s.take(i + 1) =~= s.take(i as int) + seq![c]);
            lemma_encode_utf8_concat(s.take(i as int), seq![c]);
            lemma_encode_utf8_single(c);
            lemma_encode_utf8_split(s, i + 1);
            lemma_utf16_le_utf8(c);
        }
        u16c = u16c + utf16_len(c);
        u8c = u8c + utf8_len(c);
        i = i + 1;
    }
    proof {
        if i == s.len() {
            assert(s.skip(i as int) =~= Seq::<char>::empty());
        }
        lemma_utf8_offset_boundary(s, offset as int);
    }
    u8c
}

// ---------------------------------------------------------------------------
// Model transitions
// ---------------------------------------------------------------------------

/// An empty selection, as `Range::is_empty` sees it.
pub open spec fn sel_empty(m: TextInputModel) -> bool {
    !(m.start < m.end)
}

/// The model with the selection collapsed to `offset`.
pub open spec fn moved_to(m: TextInputModel, offset: usize) -> TextInputModel {
    TextInputModel { start: offset, end: offset, ..m }
}

/// The model with the moving end of the selection put at `offset`; the
/// ends are swapped, and the direction flipped, when they cross.
pub open spec fn selected_to(m: TextInputModel, offset: usize) -> TextInputModel {
    let s = if m.reversed {
        offset
    } else {
        m.start
    };
    let e = if m.reversed {
        m.end
    } else {
        offset
    };
    if e < s {
        TextInputModel { start: e, end: s, reversed: !m.reversed, ..m }
    } else {
        TextInputModel { start: s, end: e, ..m }
    }
}

/// The byte range that an edit replaces: the given UTF-16 range converted,
/// else the marked range, else the selection.
pub open spec fn edit_range(m: TextInputModel, range_utf16: Option<(usize, usize)>) -> (int, int) {
    match range_utf16 {
        Some((a, b)) => (utf8_offset(m.content, a as int), utf8_offset(m.content, b as int)),
        None => match m.marked {
            Some((a, b)) => (a as int, b as int),
            None => (m.start as int, m.end as int),
        },
    }
}

/// The range that an edit without a UTF-16 range replaces lies on
/// character boundaries.
pub open spec fn edit_range_ok(m: TextInputModel) -> bool {
    let (a, b) = edit_range(m, None);
    is_boundary(m.content, a) && is_boundary(m.content, b)
}

/// The model after `new` replaced the range of [`edit_range`]: the cursor
/// goes after the new text and nothing stays marked.
pub open spec fn replaced(m: TextInputModel, range_utf16: Option<(usize, usize)>, new: Seq<char>) -> TextInputModel {
    let (a, b) = edit_range(m, range_utf16);
    let at = a + byte_len(new);
    TextInputModel {
        content: splice_chars(m.content, a, b, new),
        start: at as usize,
        end: at as usize,
        marked: None,
        ..m
    }
}

/// The model after `new` replaced the range of [`edit_range`] and was
/// marked as being composed; the new selection, given in UTF-16 units of
/// the new content, is shifted by the ends of the replaced range.
pub open spec fn replaced_and_marked(
    m: TextInputModel,
    range_utf16: Option<(usize, usize)>,
    new: Seq<char>,
    sel_utf16: Option<(usize, usize)>,
) -> TextInputModel {
    let (a, b) = edit_range(m, range_utf16);
    let c = splice_chars(m.content, a, b, new);
    let at = a + byte_len(new);
    let (s, e) = match sel_utf16 {
        Some((x, y)) => (utf8_offset(c, x as int) + a, utf8_offset(c, y as int) + b),
        None => (at, at),
    };
    TextInputModel {
        content: c,
        start: s as usize,
        end: e as usize,
        marked: if new.len() > 0 {
            Some((a as usize, at as usize))
        } else {
            None
        },
        ..m
    }
}

/// A `Range` option as an option of pairs.
pub open spec fn opt_pair(r: Option<Range<usize>>) -> Option<(usize, usize)> {
    match r {
        Some(r) => Some(range_pair(r)),
        None => None,
    }
}

impl TextInput {
    /// A new input holding `initial_text`, all of it selected.
    pub fn new(initial_text: String) -> (r: Self)
        ensures
            r@.content == initial_text@,
            r@.start == 0,
            r@.end as int == byte_len(initial_text@),
            !r@.reversed,
            r@.marked is None,
            !r@.selecting,
            !r@.wrap,
    {
        let len = byte_length(initial_text.as_str());
        TextInput {
            content: initial_text,
            selected_range: Range { start: 0, end: len },
            selection_reversed: false,
            marked_range: None,
            is_selecting: false,
            wrap: false,
        }
    }

    /// The same input, wrapping its text over several visual lines.
    pub fn wrapping(self) -> (r: Self)
        ensures
            r@ == (TextInputModel { wrap: true, ..self@ }),
    {
        let mut r = self;
        r.wrap = true;
        r
    }

    /// The content.
    pub fn text(&self) -> (r: &str)
        ensures
            r@ == self@.content,
    {
        self.content.as_str()
    }

    /// The selection as a byte range.
    pub fn selected_range(&self) -> (r: Range<usize>)
        ensures
            r.start == self@.start,
            r.end == self@.end,
    {
        Range { start: self.selected_range.start, end: self.selected_range.end }
    }

    /// Collapses the selection to `offset`.
    pub fn move_to(&mut self, offset: usize)
        ensures
            final(self)@ == moved_to(old(self)@, offset),
    {
        self.selected_range = Range { start: offset, end: offset };
    }

    /// Where the cursor is: the moving end of the selection.
    pub fn cursor_offset(&self) -> (r: usize)
        ensures
            r == cursor_of(self@),
    {
        if self.selection_reversed {
            self.selected_range.start
        } else {
            self.selected_range.end
        }
    }

    /// Moves the moving end of the selection to `offset`, keeping the
    /// selection ordered.
    pub fn select_to(&mut self, offset: usize)
        ensures
            final(self)@ == selected_to(old(self)@, offset),
            final(self)@.start <= final(self)@.end,
    {
        if self.selection_reversed {
            self.selected_range.start = offset;
        } else {
            self.selected_range.end = offset;
        }
        if self.selected_range.end < self.selected_range.start {
            self.selection_reversed = !self.selection_reversed;
            self.selected_range = Range { start: self.selected_range.end, end: self.selected_range.start };
        }
    }

    /// The start of the grapheme cluster before `offset`, or 0.
    pub fn previous_boundary(&self, offset: usize) -> (r: usize)
        ensures
            r as int == previous_boundary_of(self@.content, offset as int),
            is_boundary(self@.content, r as int),
            r <= offset,
    {
        let g = grapheme_starts(self.content.as_str());
        let mut n: usize = g.len();
        while n > 0
            invariant
                n <= g.len(),
                g@ == grapheme_offsets(self@.content),
                forall|i: int| 0 <= i < g.len() ==> is_boundary(self@.content, #[trigger] g[i] as int),
                last_below(g@, offset as int, g.len() as int) == last_below(g@, offset as int, n as int),
            decreases n,
        {
            if g[n - 1] < offset {
                return g[n - 1];
            }
            n = n - 1;
        }
        proof {
            lemma_ends_are_boundaries(self@.content);
        }
        0
    }

    /// The start of the grapheme cluster after `offset`, or the byte length.
    pub fn next_boundary(&self, offset: usize) -> (r: usize)
        ensures
            r as int == next_boundary_of(self@.content, offset as int),
            is_boundary(self@.content, r as int),
            r > offset || r as int == byte_len(self@.content),
    {
        let g = grapheme_starts(self.content.as_str());
        let mut k: usize = 0;
        while k < g.len()
            invariant
                k <= g.len(),
                g@ == grapheme_offsets(self@.content),
                forall|i: int| 0 <= i < g.len() ==> is_boundary(self@.content, #[trigger] g[i] as int),
                first_above(g@, offset as int, 0, byte_len(self@.content)) == first_above(
                    g@,
                    offset as int,
                    k as int,
                    byte_len(self@.content),
                ),
            decreases g.len() - k,
        {
            if g[k] > offset {
                return g[k];
            }
            k = k + 1;
        }
        proof {
            lemma_ends_are_boundaries(self@.content);
        }
        byte_length(self.content.as_str())
    }
}

/// The content after an edit lies on boundaries that the edit keeps: the
/// cursor put after the new text is a boundary of the new content.
proof fn lemma_splice_boundary(s: Seq<char>, a: int, b: int, new: Seq<char>)
    requires
        is_boundary(s, a),
        is_boundary(s, b),
    ensures
        is_boundary(splice_chars(s, a, b, new), a + byte_len(new)),
        byte_len(splice_chars(s, a, b, new)) >= a + byte_len(new),
        0 <= a <= byte_len(s),
        0 <= b <= byte_len(s),
{
    let ka = char_index(s, a);
    let kb = char_index(s, b);
    let c = splice_chars(s, a, b, new);
    assert(c.take(ka + new.len()) =~= s.take(ka) + new);
    lemma_encode_utf8_concat(s.take(ka), new);
    lemma_encode_utf8_concat(s.take(ka) + new, s.skip(kb));
    lemma_encode_utf8_split(s, ka);
    lemma_encode_utf8_split(s, kb);
    lemma_char_index(c, a + byte_len(new), ka + new.len());
}

impl TextInput {
    /// The byte range that an edit replaces, see [`edit_range`].
    fn resolve_range(&self, range_utf16: &Option<Range<usize>>) -> (r: (usize, usize))
        requires
            range_utf16 is Some || edit_range_ok(self@),
        ensures
            r.0 as int == edit_range(self@, opt_pair(*range_utf16)).0,
            r.1 as int == edit_range(self@, opt_pair(*range_utf16)).1,
            is_boundary(self@.content, r.0 as int),
            is_boundary(self@.content, r.1 as int),
    {
        match range_utf16 {
            Some(r) => (
                utf8_offset_in(self.content.as_str(), r.start),
                utf8_offset_in(self.content.as_str(), r.end),
            ),
            None => match &self.marked_range {
                Some(m) => (m.start, m.end),
                None => (self.selected_range.start, self.selected_range.end),
            },
        }
    }

    /// The UTF-16 offset of byte offset `offset`.
    pub fn offset_to_utf16(&self, offset: usize) -> (r: usize)
        ensures
            r as int == utf16_offset(self@.content, offset as int),
    {
        utf16_offset_in(self.content.as_str(), offset)
    }

    /// The byte offset of UTF-16 offset `offset`; always a character
    /// boundary.
    pub fn offset_from_utf16(&self, offset: usize) -> (r: usize)
        ensures
            r as int == utf8_offset(self@.content, offset as int),
            is_boundary(self@.content, r as int),
    {
        utf8_offset_in(self.content.as_str(), offset)
    }

    /// A byte range in UTF-16 offsets.
    pub fn range_to_utf16(&self, range: &Range<usize>) -> (r: Range<usize>)
        ensures
            r.start as int == utf16_offset(self@.content, range.start as int),
            r.end as int == utf16_offset(self@.content, range.end as int),
    {
        Range { start: self.offset_to_utf16(range.start), end: self.offset_to_utf16(range.end) }
    }

    /// A UTF-16 range in byte offsets.
    pub fn range_from_utf16(&self, range_utf16: &Range<usize>) -> (r: Range<usize>)
        ensures
            r.start as int == utf8_offset(self@.content, range_utf16.start as int),
            r.end as int == utf8_offset(self@.content, range_utf16.end as int),
            is_boundary(self@.content, r.start as int),
            is_boundary(self@.content, r.end as int),
    {
        Range {
            start: self.offset_from_utf16(range_utf16.start),
            end: self.offset_from_utf16(range_utf16.end),
        }
    }

    /// Replaces the given UTF-16 range (else the marked range, else the
    /// selection) by `new_text`, puts the cursor after it and unmarks.
    pub fn replace_text_in_range(&mut self, range_utf16: Option<Range<usize>>, new_text: &str)
        requires
            range_utf16 is Some || edit_range_ok(old(self)@),
        ensures
            final(self)@ == replaced(old(self)@, opt_pair(range_utf16), new_text@),
            encode_utf8(final(self)@.content) == spliced(
                encode_utf8(old(self)@.content),
                edit_range(old(self)@, opt_pair(range_utf16)).0,
                edit_range(old(self)@, opt_pair(range_utf16)).1,
                encode_utf8(new_text@),
            ),
            is_boundary(final(self)@.content, final(self)@.start as int),
    {
        let range = self.resolve_range(&range_utf16);
        let new_content = splice_text(self.content.as_str(), range.0, range.1, new_text);
        let new_len = byte_length(new_text);
        let total = byte_length(new_content.as_str());
        proof {
            lemma_splice_boundary(self@.content, range.0 as int, range.1 as int, new_text@);
        }
        let at = range.0 + new_len;
        self.content = new_content;
        self.selected_range = Range { start: at, end: at };
        self.marked_range = None;
    }

    /// Replaces the given UTF-16 range (else the marked range, else the
    /// selection) by `new_text` and marks it as being composed; selects
    /// the given UTF-16 range shifted by the replaced range, or puts the
    /// cursor after the new text.
    pub fn replace_and_mark_text_in_range(
        &mut self,
        range_utf16: Option<Range<usize>>,
        new_text: &str,
        new_selected_range_utf16: Option<Range<usize>>,
    )
        requires
            range_utf16 is Some || edit_range_ok(old(self)@),
            ({
                let (a, b) = edit_range(old(self)@, opt_pair(range_utf16));
                let c = splice_chars(old(self)@.content, a, b, new_text@);
                match new_selected_range_utf16 {
                    Some(r) => utf8_offset(c, r.start as int) + a <= usize::MAX && utf8_offset(
                        c,
                        r.end as int,
                    ) + b <= usize::MAX,
                    None => true,
                }
            }),
        ensures
            final(self)@ == replaced_and_marked(
                old(self)@,
                opt_pair(range_utf16),
                new_text@,
                opt_pair(new_selected_range_utf16),
            ),
    {
        let range = self.resolve_range(&range_utf16);
        let new_content = splice_text(self.content.as_str(), range.0, range.1, new_text);
        let new_len = byte_length(new_text);
        let total = byte_length(new_content.as_str());
        proof {
            lemma_splice_boundary(self@.content, range.0 as int, range.1 as int, new_text@);
        }
        let at = range.0 + new_len;
        self.content = new_content;
        if !new_text.is_empty() {
            self.marked_range = Some(Range { start: range.0, end: at });
        } else {
            self.marked_range = None;
        }
        self.selected_range = match &new_selected_range_utf16 {
            Some(r) => {
                let s = utf8_offset_in(self.content.as_str(), r.start);
                let e = utf8_offset_in(self.content.as_str(), r.end);
                Range { start: s + range.0, end: e + range.1 }
            },
            None => Range { start: at, end: at },
        };
    }

    /// The text of the given UTF-16 range, with the range actually used.
    pub fn text_for_range(&self, range_utf16: Range<usize>, actual_range: &mut Option<Range<usize>>) -> (r: Option<String>)
        requires
            utf8_offset(self@.content, range_utf16.start as int) <= utf8_offset(
                self@.content,
                range_utf16.end as int,
            ),
        ensures
            ({
                let a = utf8_offset(self@.content, range_utf16.start as int);
                let b = utf8_offset(self@.content, range_utf16.end as int);
                &&& r is Some
                &&& r->0@ == self@.content.subrange(char_index(self@.content, a), char_index(self@.content, b))
                &&& encode_utf8(r->0@) == encode_utf8(self@.content).subrange(a, b)
                &&& opt_pair(*final(actual_range)) == Some(
                    (utf16_offset(self@.content, a) as usize, utf16_offset(self@.content, b) as usize),
                )
            }),
    {
        let range = self.range_from_utf16(&range_utf16);
        *actual_range = Some(self.range_to_utf16(&range));
        Some(byte_range_text(self.content.as_str(), range.start, range.end))
    }

    /// The selection in UTF-16 offsets.
    pub fn selected_text_range(&self) -> (r: Utf16Selection)
        ensures
            r.start as int == utf16_offset(self@.content, self@.start as int),
            r.end as int == utf16_offset(self@.content, self@.end as int),
            r.reversed == self@.reversed,
    {
        let range = self.range_to_utf16(&self.selected_range);
        Utf16Selection { start: range.start, end: range.end, reversed: self.selection_reversed }
    }

    /// The marked range in UTF-16 offsets.
    pub fn marked_text_range(&self) -> (r: Option<Range<usize>>)
        ensures
            match self@.marked {
                Some((a, b)) => opt_pair(r) == Some(
                    (
                        utf16_offset(self@.content, a as int) as usize,
                        utf16_offset(self@.content, b as int) as usize,
                    ),
                ),
                None => r is None,
            },
    {
        match &self.marked_range {
            Some(m) => Some(self.range_to_utf16(m)),
            None => None,
        }
    }

    /// Ends composition: nothing stays marked.
    pub fn unmark_text(&mut self)
        ensures
            final(self)@ == (TextInputModel { marked: None, ..old(self)@ }),
    {
        self.marked_range = None;
    }
}

/// The model after a one-cluster deletion step: an empty selection is
/// first stretched to `to`.
pub open spec fn stretched(m: TextInputModel, to: int) -> TextInputModel {
    if sel_empty(m) {
        selected_to(m, to as usize)
    } else {
        m
    }
}

/// The text that replaces a pasted line break: a space.
pub open spec fn pasted(text: Seq<char>) -> Seq<char> {
    text.map_values(|c: char| if c == '\n' { ' ' } else { c })
}

impl TextInput {
    /// Left arrow: collapses a selection to its start, else moves one
    /// grapheme cluster back.
    pub fn left(&mut self)
        ensures
            final(self)@ == if sel_empty(old(self)@) {
                moved_to(old(self)@, previous_boundary_of(old(self)@.content, cursor_of(old(self)@)) as usize)
            } else {
                moved_to(old(self)@, old(self)@.start)
            },
    {
        if !(self.selected_range.start < self.selected_range.end) {
            let to = self.previous_boundary(self.cursor_offset());
            self.move_to(to);
        } else {
            let to = self.selected_range.start;
            self.move_to(to);
        }
    }

    /// Right arrow: collapses a selection to its end, else moves one
    /// grapheme cluster forward from the end of the selection.
    pub fn right(&mut self)
        ensures
            final(self)@ == if sel_empty(old(self)@) {
                moved_to(old(self)@, next_boundary_of(old(self)@.content, old(self)@.end as int) as usize)
            } else {
                moved_to(old(self)@, old(self)@.end)
            },
    {
        if !(self.selected_range.start < self.selected_range.end) {
            let to = self.next_boundary(self.selected_range.end);
            self.move_to(to);
        } else {
            let to = self.selected_range.end;
            self.move_to(to);
        }
    }

    /// Shift-left: moves the cursor one grapheme cluster back, keeping the
    /// other end of the selection.
    pub fn select_left(&mut self)
        ensures
            final(self)@ == selected_to(
                old(self)@,
                previous_boundary_of(old(self)@.content, cursor_of(old(self)@)) as usize,
            ),
    {
        let to = self.previous_boundary(self.cursor_offset());
        self.select_to(to);
    }

    /// Shift-right: moves the cursor one grapheme cluster forward, keeping
    /// the other end of the selection.
    pub fn select_right(&mut self)
        ensures
            final(self)@ == selected_to(
                old(self)@,
                next_boundary_of(old(self)@.content, cursor_of(old(self)@)) as usize,
            ),
    {
        let to = self.next_boundary(self.cursor_offset());
        self.select_to(to);
    }

    /// Selects the whole content.
    pub fn select_all(&mut self)
        ensures
            final(self)@ == selected_to(moved_to(old(self)@, 0), byte_len(old(self)@.content) as usize),
    {
        self.move_to(0);
        let len = byte_length(self.content.as_str());
        self.select_to(len);
    }

    /// Home: the cursor to the start.
    pub fn home(&mut self)
        ensures
            final(self)@ == moved_to(old(self)@, 0),
    {
        self.move_to(0);
    }

    /// End: the cursor to the end.
    pub fn end(&mut self)
        ensures
            final(self)@ == moved_to(old(self)@, byte_len(old(self)@.content) as usize),
    {
        let len = byte_length(self.content.as_str());
        self.move_to(len);
    }

    /// Backspace: deletes the selection, or the grapheme cluster before
    /// the cursor.
    pub fn backspace(&mut self)
        requires
            edit_range_ok(old(self)@),
        ensures
            final(self)@ == replaced(
                stretched(old(self)@, previous_boundary_of(old(self)@.content, cursor_of(old(self)@))),
                None,
                Seq::<char>::empty(),
            ),
    {
        if !(self.selected_range.start < self.selected_range.end) {
            let to = self.previous_boundary(self.cursor_offset());
            self.select_to(to);
        }
        self.replace_text_in_range(None, "");
        proof {
            reveal_strlit("");
        }
    }

    /// Delete: deletes the selection, or the grapheme cluster after the
    /// cursor.
    pub fn delete(&mut self)
        requires
            edit_range_ok(old(self)@),
        ensures
            final(self)@ == replaced(
                stretched(old(self)@, next_boundary_of(old(self)@.content, cursor_of(old(self)@))),
                None,
                Seq::<char>::empty(),
            ),
    {
        if !(self.selected_range.start < self.selected_range.end) {
            let to = self.next_boundary(self.cursor_offset());
            self.select_to(to);
        }
        self.replace_text_in_range(None, "");
        proof {
            reveal_strlit("");
        }
    }

    /// Enter: reports the content, trimmed.
    pub fn confirm(&self) -> (r: TextInputEvent)
        ensures
            r matches TextInputEvent::Confirm(t) && t@ == trimmed(self@.content),
    {
        TextInputEvent::Confirm(trim_str(self.content.as_str()))
    }

    /// Escape: reports the cancellation.
    pub fn cancel(&self) -> (r: TextInputEvent)
        ensures
            r is Cancel,
    {
        TextInputEvent::Cancel
    }

    /// Pastes clipboard text over the marked range or the selection, line
    /// breaks turned into spaces.
    pub fn paste(&mut self, text: &str)
        requires
            edit_range_ok(old(self)@),
        ensures
            final(self)@ == replaced(old(self)@, None, pasted(text@)),
    {
        let flat = newlines_to_spaces(text);
        self.replace_text_in_range(None, flat.as_str());
    }

    /// The selected text, to be copied; nothing when the selection is empty.
    pub fn copy(&self) -> (r: Option<String>)
        requires
            !sel_empty(self@) ==> is_boundary(self@.content, self@.start as int) && is_boundary(
                self@.content,
                self@.end as int,
            ),
        ensures
            sel_empty(self@) ==> r is None,
            !sel_empty(self@) ==> r is Some && r->0@ == self@.content.subrange(
                char_index(self@.content, self@.start as int),
                char_index(self@.content, self@.end as int),
            ),
    {
        if self.selected_range.start < self.selected_range.end {
            Some(byte_range_text(self.content.as_str(), self.selected_range.start, self.selected_range.end))
        } else {
            None
        }
    }

    /// The selected text, to be copied, then deleted (the marked range, if
    /// any, is what the deletion removes); nothing when the selection is
    /// empty.
    pub fn cut(&mut self) -> (r: Option<String>)
        requires
            !sel_empty(old(self)@) ==> is_boundary(old(self)@.content, old(self)@.start as int)
                && is_boundary(old(self)@.content, old(self)@.end as int) && edit_range_ok(old(self)@),
        ensures
            sel_empty(old(self)@) ==> r is None && final(self)@ == old(self)@,
            !sel_empty(old(self)@) ==> r is Some && r->0@ == old(self)@.content.subrange(
                char_index(old(self)@.content, old(self)@.start as int),
                char_index(old(self)@.content, old(self)@.end as int),
            ) && final(self)@ == replaced(old(self)@, None, Seq::<char>::empty()),
    {
        if self.selected_range.start < self.selected_range.end {
            let text = byte_range_text(self.content.as_str(), self.selected_range.start, self.selected_range.end);
            self.replace_text_in_range(None, "");
            proof {
                reveal_strlit("");
            }
            Some(text)
        } else {
            None
        }
    }

    /// A press at text index `index`: starts a drag; with shift it extends
    /// the selection, else it moves the cursor.
    pub fn on_mouse_down(&mut self, index: usize, shift: bool)
        ensures
            final(self)@ == if shift {
                selected_to(TextInputModel { selecting: true, ..old(self)@ }, index)
            } else {
                moved_to(TextInputModel { selecting: true, ..old(self)@ }, index)
            },
    {
        self.is_selecting = true;
        if shift {
            self.select_to(index);
        } else {
            self.move_to(index);
        }
    }

    /// A release: ends the drag.
    pub fn on_mouse_up(&mut self)
        ensures
            final(self)@ == (TextInputModel { selecting: false, ..old(self)@ }),
    {
        self.is_selecting = false;
    }

    /// A move over text index `index`: extends the selection while dragging.
    pub fn on_mouse_move(&mut self, index: usize)
        ensures
            final(self)@ == if old(self)@.selecting {
                selected_to(old(self)@, index)
            } else {
                old(self)@
            },
    {
        if self.is_selecting {
            self.select_to(index);
        }
    }
}

/// Whatever the model, moving the cursor end of the selection leaves the
/// selection ordered, start before end.
pub proof fn law_selection_stays_ordered(m: TextInputModel, offset: usize)
    ensures
        selected_to(m, offset).start <= selected_to(m, offset).end,
        moved_to(m, offset).start == moved_to(m, offset).end,
{
}

/// What an edit writes is read back where it was written: after `new`
/// replaced `start..end`, the bytes from `start` are those of `new`, and
/// the bytes before `start` and after it are those that were there.
pub proof fn law_edit_reads_back(bytes: Seq<u8>, start: int, end: int, new: Seq<u8>)
    requires
        0 <= start <= bytes.len(),
        0 <= end <= bytes.len(),
    ensures
        spliced(bytes, start, end, new).subrange(start, start + new.len()) == new,
        spliced(bytes, start, end, new).subrange(0, start) == bytes.subrange(0, start),
        spliced(bytes, start, end, new).subrange(start + new.len(), spliced(bytes, start, end, new).len() as int)
            == bytes.subrange(end, bytes.len() as int),
{
    let r = spliced(bytes, start, end, new);
    assert(r.subrange(start, start + new.len()) =~= new);
    assert(r.subrange(0, start) =~= bytes.subrange(0, start));
    assert(r.subrange(start + new.len(), r.len() as int) =~= bytes.subrange(end, bytes.len() as int));
}

/// An edit leaves the input editable: the cursor lands on a character
/// boundary of the new content, so a following edit of the selection is
/// in order.
pub proof fn law_edit_keeps_cursor_on_boundary(m: TextInputModel, range_utf16: Option<(usize, usize)>, new: Seq<char>)
    requires
        range_utf16 is Some || edit_range_ok(m),
        edit_range(m, range_utf16).0 + byte_len(new) <= usize::MAX,
    ensures
        edit_range_ok(replaced(m, range_utf16, new)),
{
    let (a, b) = edit_range(m, range_utf16);
    match range_utf16 {
        Some((x, y)) => {
            lemma_utf8_offset_boundary(m.content, x as int);
            lemma_utf8_offset_boundary(m.content, y as int);
        },
        None => {},
    }
    lemma_splice_boundary(m.content, a, b, new);
}

/// Selecting everything and pressing backspace empties the input, when
/// nothing is being composed.
pub proof fn law_select_all_then_backspace_clears(m: TextInputModel)
    requires
        m.marked is None,
        byte_len(m.content) <= usize::MAX,
    ensures
        ({
            let all = selected_to(moved_to(m, 0), byte_len(m.content) as usize);
            let after = replaced(
                stretched(all, previous_boundary_of(all.content, cursor_of(all))),
                None,
                Seq::<char>::empty(),
            );
            after.content == Seq::<char>::empty() && after.start == 0 && after.end == 0
        }),
{
    let s = m.content;
    let all = selected_to(moved_to(m, 0), byte_len(s) as usize);
    lemma_ends_are_boundaries(s);
    assert(all.start == 0 && all.end as int == byte_len(s));
    if byte_len(s) == 0 {
        let g = grapheme_offsets(s);
        assert(last_below(g, 0, g.len() as int) == 0) by {
            lemma_nothing_below_start(g, 0, g.len() as int);
        }
    }
    let st = stretched(all, previous_boundary_of(all.content, cursor_of(all)));
    assert(st.start == 0 && st.end as int == byte_len(s));
    assert(s.take(0) + Seq::<char>::empty() + s.skip(s.len() as int) =~= Seq::<char>::empty());
}

/// Below offset 0 lies no offset: the walk back from 0 finds none.
proof fn lemma_nothing_below_start(g: Seq<usize>, offset: int, n: int)
    requires
        offset <= 0,
        n <= g.len(),
    ensures
        last_below(g, offset, n) == 0,
    decreases n,
{
    if n > 0 {
        lemma_nothing_below_start(g, offset, n - 1);
    }
}


// ---------------------------------------------------------------------------
// wrapped layout
// ---------------------------------------------------------------------------

/// The visual line that holds byte `cursor`, given the byte offsets at which
/// the wrapped lines start: the last line starting at or before it.
pub open spec fn line_holding(starts: Seq<usize>, cursor: int) -> int
    decreases starts.len(),
{
    if starts.len() == 0 {
        0
    } else if starts.last() <= cursor {
        starts.len() - 1
    } else {
        line_holding(starts.drop_last(), cursor)
    }
}

/// The visual line of the cursor and its byte offset within that line.
pub fn cursor_visual_line(starts: &Vec<usize>, cursor: usize) -> (r: (usize, usize))
    requires
        starts@.len() > 0,
        starts@[0] <= cursor,
    ensures
        r.0 == line_holding(starts@, cursor as int),
        r.0 < starts@.len(),
        r.1 == cursor - starts@[r.0 as int],
{
    let mut k = starts.len();
    assert(starts@.take(k as int) =~= starts@);
    while k > 1 && starts[k - 1] > cursor
        invariant
            1 <= k <= starts@.len(),
            line_holding(starts@, cursor as int) == line_holding(starts@.take(k as int), cursor as int),
        decreases k,
    {
        assert(starts@.take(k - 1) =~= starts@.take(k as int).drop_last());
        k = k - 1;
    }
    proof {
        if k == 1 && starts@[0] <= cursor {
            assert(starts@.take(1).last() == starts@[0]);
        }
        assert(starts@.take(k as int).last() == starts@[k - 1]);
    }
    let line = k - 1;
    (line, cursor - starts[line])
}

/// The end of visual line `i`: where the next one starts, or the end of the
/// text for the last.
pub open spec fn line_end_offset(starts: Seq<usize>, content_len: int, i: int) -> int {
    if i + 1 < starts.len() {
        starts[i + 1] as int
    } else {
        content_len
    }
}

/// The part of the selection on each visual line from `i` on that it
/// touches: the line and the selected span within it.
pub open spec fn spans_from(starts: Seq<usize>, content_len: int, sel_start: int, sel_end: int, i: int) -> Seq<
    (int, int, int),
>
    decreases starts.len() - i,
{
    if i < 0 || i >= starts.len() {
        Seq::empty()
    } else {
        let off = starts[i] as int;
        let s = if sel_start > off {
            sel_start
        } else {
            off
        };
        let end = line_end_offset(starts, content_len, i);
        let e = if sel_end < end {
            sel_end
        } else {
            end
        };
        (if s < e {
            seq![(i, s - off, e - off)]
        } else {
            Seq::empty()
        }) + spans_from(starts, content_len, sel_start, sel_end, i + 1)
    }
}

/// The selection's span on each visual line it touches (the line, and the
/// span's start and end within it); none for an empty selection.
pub fn selection_spans(starts: &Vec<usize>, content_len: usize, sel_start: usize, sel_end: usize) -> (r: Vec<
    (usize, usize, usize),
>)
    ensures
        r@.map_values(|x: (usize, usize, usize)| (x.0 as int, x.1 as int, x.2 as int)) == (if sel_start
            < sel_end {
            spans_from(starts@, content_len as int, sel_start as int, sel_end as int, 0)
        } else {
            Seq::empty()
        }),
{
    let mut out: Vec<(usize, usize, usize)> = Vec::new();
    if sel_start >= sel_end {
        return out;
    }
    let ghost all = spans_from(starts@, content_len as int, sel_start as int, sel_end as int, 0);
    let mut i: usize = 0;
    while i < starts.len()
        invariant
            i <= starts@.len(),
            sel_start < sel_end,
            all == spans_from(starts@, content_len as int, sel_start as int, sel_end as int, 0),
            out@.map_values(|x: (usize, usize, usize)| (x.0 as int, x.1 as int, x.2 as int)) + spans_from(
                starts@,
                content_len as int,
                sel_start as int,
                sel_end as int,
                i as int,
            ) == all,
        decreases starts@.len() - i,
    {
        let ghost before = out@.map_values(|x: (usize, usize, usize)| (x.0 as int, x.1 as int, x.2 as int));
        let off = starts[i];
        let start = if sel_start > off {
            sel_start
        } else {
            off
        };
        let line_end = if i + 1 < starts.len() {
            starts[i + 1]
        } else {
            content_len
        };
        let end = if sel_end < line_end {
            sel_end
        } else {
            line_end
        };
        if start < end {
            out.push((i, start - off, end - off));
            proof {
                assert(out@.map_values(|x: (usize, usize, usize)| (x.0 as int, x.1 as int, x.2 as int))
                    =~= before.push((i as int, start - off, end - off)));
            }
        }
        proof {
            let rest = spans_from(starts@, content_len as int, sel_start as int, sel_end as int, i + 1);
            let head: Seq<(int, int, int)> = if start < end {
                seq![(i as int, (start - off) as int, (end - off) as int)]
            } else {
                Seq::empty()
            };
            assert(spans_from(starts@, content_len as int, sel_start as int, sel_end as int, i as int)
                == head + rest);
            assert(before + (head + rest) =~= (before + head) + rest);
            if start < end {
                assert(before + head =~= before.push((i as int, start - off, end - off)));
            } else {
                assert(before + head =~= before);
            }
        }
        i = i + 1;
    }
    proof {
        let rest = spans_from(starts@, content_len as int, sel_start as int, sel_end as int, i as int);
        assert(rest =~= Seq::<(int, int, int)>::empty());
        let m = out@.map_values(|x: (usize, usize, usize)| (x.0 as int, x.1 as int, x.2 as int));
        assert(m + rest =~= m);
    }
    out
}

} // verus!
