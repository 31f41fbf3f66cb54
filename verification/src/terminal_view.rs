//! The text model of the terminal view: the lines of the viewport and their
//! byte offsets, word and line selection by double and triple click, and
//! the bytes that a paste or a file drop sends.
use vstd::prelude::*;
use vstd::utf8::encode_utf8;
use crate::status::{char_views, copy_chars, copy_range, split_chars, split_on};
use crate::terminal_input::{
    mouse_button_value, normal_mouse_sequence, normal_report, sgr_mouse_button_value, sgr_mouse_sequence,
    sgr_report,
};
use crate::text::{str_chars, string_from_chars};

verus! {

// ---------------------------------------------------------------------------
// shell quoting
// ---------------------------------------------------------------------------

/// Characters that a shell word can hold without quoting.
pub open spec fn is_shell_safe(c: char) -> bool {
    ('a' <= c && c <= 'z') || ('A' <= c && c <= 'Z') || ('0' <= c && c <= '9') || c == '_' || c
        == '-' || c == '.' || c == '/' || c == ':' || c == '@'
}

/// `s` with each `'` written as `'\''`.
pub open spec fn escape_single_quotes(s: Seq<char>) -> Seq<char>
    decreases s.len(),
{
    if s.len() == 0 {
        Seq::empty()
    } else {
        (if s[0] == '\'' {
            seq!['\'', '\\', '\'', '\'']
        } else {
            seq![s[0]]
        }) + escape_single_quotes(s.drop_first())
    }
}

/// How a path is written for a shell: `''` when empty, as it is when every
/// character is safe, otherwise in single quotes. (Checking characters is
/// checking bytes: a non-ASCII character's bytes are never safe.)
pub open spec fn shell_quoted(s: Seq<char>) -> Seq<char> {
    if s.len() == 0 {
        seq!['\'', '\'']
    } else if forall|i: int| 0 <= i < s.len() ==> is_shell_safe(#[trigger] s[i]) {
        s
    } else {
        seq!['\''] + escape_single_quotes(s) + seq!['\'']
    }
}

proof fn lemma_escape_push(s: Seq<char>, c: char)
    ensures
        escape_single_quotes(s.push(c)) == escape_single_quotes(s) + (if c == '\'' {
            seq!['\'', '\\', '\'', '\'']
        } else {
            seq![c]
        }),
    decreases s.len(),
{
    if s.len() > 0 {
        lemma_escape_push(s.drop_first(), c);
        assert(s.push(c).drop_first() =~= s.drop_first().push(c));
        assert(s.push(c)[0] == s[0]);
    } else {
        assert(s.push(c).drop_first() =~= Seq::<char>::empty());
        assert(s.push(c)[0] == c);
    }
    let tail = if c == '\'' {
        seq!['\'', '\\', '\'', '\'']
    } else {
        seq![c]
    };
    if s.len() > 0 {
        let h = if s[0] == '\'' {
            seq!['\'', '\\', '\'', '\'']
        } else {
            seq![s[0]]
        };
        assert(h + (escape_single_quotes(s.drop_first()) + tail) =~= (h + escape_single_quotes(
            s.drop_first(),
        )) + tail);
    } else {
        assert(escape_single_quotes(s.push(c)) =~= tail + escape_single_quotes(
            Seq::<char>::empty(),
        ));
        assert(escape_single_quotes(s.push(c)) =~= escape_single_quotes(s) + tail);
    }
}


/// The value of a shell word after quote removal, reading `t` as a POSIX
/// shell reads one word built from safe characters, single-quoted parts and
/// backslash escapes: inside single quotes every character stands for
/// itself up to the closing quote; outside, a backslash keeps the next
/// character. `None` when `t` is not such a single word (an unsafe
/// character outside quotes, such as a space that would split it, or an
/// unclosed quote). `quoted` says whether reading starts inside quotes.
pub open spec fn sh_word_value(t: Seq<char>, quoted: bool) -> Option<Seq<char>>
    decreases t.len(),
{
    if t.len() == 0 {
        if quoted {
            None
        } else {
            Some(Seq::empty())
        }
    } else if quoted {
        if t[0] == '\'' {
            sh_word_value(t.drop_first(), false)
        } else {
            match sh_word_value(t.drop_first(), true) {
                Some(v) => Some(seq![t[0]] + v),
                None => None,
            }
        }
    } else if t[0] == '\'' {
        sh_word_value(t.drop_first(), true)
    } else if t[0] == '\\' {
        if t.len() >= 2 {
            match sh_word_value(t.subrange(2, t.len() as int), false) {
                Some(v) => Some(seq![t[1]] + v),
                None => None,
            }
        } else {
            None
        }
    } else if is_shell_safe(t[0]) {
        match sh_word_value(t.drop_first(), false) {
            Some(v) => Some(seq![t[0]] + v),
            None => None,
        }
    } else {
        None
    }
}

proof fn lemma_safe_word_value(s: Seq<char>)
    requires
        forall|i: int| 0 <= i < s.len() ==> is_shell_safe(#[trigger] s[i]),
    ensures
        sh_word_value(s, false) == Some(s),
    decreases s.len(),
{
    if s.len() > 0 {
        assert(is_shell_safe(s[0]));
        assert forall|i: int| 0 <= i < s.drop_first().len() implies is_shell_safe(#[trigger] s.drop_first()[i]) by {
            assert(s.drop_first()[i] == s[i + 1]);
        }
        lemma_safe_word_value(s.drop_first());
        assert(seq![s[0]] + s.drop_first() =~= s);
    }
}

proof fn lemma_quoted_value(s: Seq<char>)
    ensures
        sh_word_value(escape_single_quotes(s) + seq!['\''], true) == Some(s),
    decreases s.len(),
{
    let t = escape_single_quotes(s) + seq!['\''];
    if s.len() == 0 {
        assert(escape_single_quotes(s) =~= Seq::<char>::empty());
        assert(t =~= seq!['\'']);
        assert(t.drop_first() =~= Seq::<char>::empty());
        assert(sh_word_value(t.drop_first(), false) == Some(Seq::<char>::empty()));
        assert(s =~= Seq::<char>::empty());
    } else {
        let rest = s.drop_first();
        let tr = escape_single_quotes(rest) + seq!['\''];
        lemma_quoted_value(rest);
        if s[0] == '\'' {
            assert(t =~= seq!['\'', '\\', '\'', '\''] + tr);
            let t1 = t.drop_first();
            assert(t1 =~= seq!['\\', '\'', '\''] + tr);
            let t2 = seq!['\''] + tr;
            assert(t1.subrange(2, t1.len() as int) =~= t2);
            assert(t2.drop_first() =~= tr);
            assert(t2[0] == '\'');
            assert(sh_word_value(t2, false) == Some(rest));
            assert(t1[0] == '\\' && t1[1] == '\'');
            assert(sh_word_value(t1, false) == Some(seq!['\''] + rest));
            assert(t[0] == '\'');
            assert(seq![t1[1]] + rest =~= s);
        } else {
            assert(t =~= seq![s[0]] + tr);
            assert(t.drop_first() =~= tr);
            assert(t[0] == s[0]);
            assert(seq![s[0]] + rest =~= s);
        }
    }
}

/// A quoted path reads back as one shell word whose value, after quote
/// removal, is the path itself.
pub proof fn law_shell_quote_round_trip(s: Seq<char>)
    ensures
        sh_word_value(shell_quoted(s), false) == Some(s),
{
    if s.len() == 0 {
        let t = seq!['\'', '\''];
        assert(t.drop_first() =~= seq!['\'']);
        assert(t.drop_first().drop_first() =~= Seq::<char>::empty());
        assert(sh_word_value(t.drop_first().drop_first(), false) == Some(Seq::<char>::empty()));
        assert(sh_word_value(t.drop_first(), true) == Some(Seq::<char>::empty()));
        assert(shell_quoted(s) == t);
        assert(s =~= Seq::<char>::empty());
    } else if forall|i: int| 0 <= i < s.len() ==> is_shell_safe(#[trigger] s[i]) {
        lemma_safe_word_value(s);
    } else {
        let t = seq!['\''] + escape_single_quotes(s) + seq!['\''];
        assert(t.drop_first() =~= escape_single_quotes(s) + seq!['\'']);
        assert(t[0] == '\'');
        assert(shell_quoted(s) == t);
        lemma_quoted_value(s);
    }
}

/// Quotes a path for a shell command line.
pub fn shell_quote(s: &str) -> (r: String)
    ensures
        r@ == shell_quoted(s@),
{
    let chars = str_chars(s);
    if chars.len() == 0 {
        let q = vec!['\'', '\''];
        assert(q@ =~= seq!['\'', '\'']);
        return string_from_chars(q.as_slice());
    }
    let mut all_safe = true;
    let mut i: usize = 0;
    while i < chars.len()
        invariant
            i <= chars@.len(),
            all_safe == (forall|j: int| 0 <= j < i ==> is_shell_safe(#[trigger] chars@[j])),
        decreases chars@.len() - i,
    {
        let c = chars[i];
        let safe = (c >= 'a' && c <= 'z') || (c >= 'A' && c <= 'Z') || (c >= '0' && c <= '9') || c
            == '_' || c == '-' || c == '.' || c == '/' || c == ':' || c == '@';
        if !safe {
            all_safe = false;
        }
        i = i + 1;
    }
    if all_safe {
        return s.to_owned();
    }
    let mut out: Vec<char> = Vec::new();
    out.push('\'');
    let mut k: usize = 0;
    while k < chars.len()
        invariant
            k <= chars@.len(),
            out@ == seq!['\''] + escape_single_quotes(chars@.subrange(0, k as int)),
        decreases chars@.len() - k,
    {
        let c = chars[k];
        proof {
            assert(chars@.subrange(0, k + 1) =~= chars@.subrange(0, k as int).push(c));
            lemma_escape_push(chars@.subrange(0, k as int), c);
        }
        if c == '\'' {
            out.push('\'');
            out.push('\\');
            out.push('\'');
            out.push('\'');
        } else {
            out.push(c);
        }
        proof {
            let tail = if c == '\'' {
                seq!['\'', '\\', '\'', '\'']
            } else {
                seq![c]
            };
            assert(out@ =~= seq!['\''] + escape_single_quotes(chars@.subrange(0, k as int)) + tail);
        }
        k = k + 1;
    }
    out.push('\'');
    assert(chars@.subrange(0, chars@.len() as int) =~= chars@);
    assert(out@ =~= seq!['\''] + escape_single_quotes(chars@) + seq!['\'']);
    string_from_chars(out.as_slice())
}

// ---------------------------------------------------------------------------
// viewport lines
// ---------------------------------------------------------------------------

/// The lines of a viewport dump: one trailing newline is dropped, an empty
/// dump has no lines, and the rest is split at newlines.
pub open spec fn viewport_lines_of(text: Seq<char>) -> Seq<Seq<char>> {
    let t = if text.len() > 0 && text.last() == '\n' {
        text.drop_last()
    } else {
        text
    };
    if t.len() == 0 {
        Seq::empty()
    } else {
        split_on(t, '\n')
    }
}

pub open spec fn string_views(v: Seq<String>) -> Seq<Seq<char>> {
    v.map_values(|s: String| s@)
}

/// Splits a viewport dump into its lines.
pub fn split_viewport_lines(viewport: &str) -> (r: Vec<String>)
    ensures
        string_views(r@) == viewport_lines_of(viewport@),
{
    let chars = str_chars(viewport);
    let end = if chars.len() > 0 && chars[chars.len() - 1] == '\n' {
        chars.len() - 1
    } else {
        chars.len()
    };
    let body = copy_chars(chars.as_slice(), 0, end);
    proof {
        if chars@.len() > 0 && chars@.last() == '\n' {
            assert(body@ =~= chars@.drop_last());
        } else {
            assert(body@ =~= chars@);
        }
    }
    let mut out: Vec<String> = Vec::new();
    if body.len() == 0 {
        assert(string_views(out@) =~= Seq::<Seq<char>>::empty());
        return out;
    }
    let parts = split_chars(body.as_slice(), '\n');
    let mut i: usize = 0;
    while i < parts.len()
        invariant
            i <= parts@.len(),
            string_views(out@) == char_views(parts@).subrange(0, i as int),
        decreases parts@.len() - i,
    {
        let ghost before = string_views(out@);
        out.push(string_from_chars(parts[i].as_slice()));
        proof {
            assert(string_views(out@) =~= before.push(parts@[i as int]@));
            assert(char_views(parts@).subrange(0, i + 1) =~= char_views(parts@).subrange(
                0,
                i as int,
            ).push(parts@[i as int]@));
        }
        i = i + 1;
    }
    assert(char_views(parts@).subrange(0, parts@.len() as int) =~= char_views(parts@));
    out
}

/// The bytes a line takes in the viewport text, its newline included.
pub open spec fn line_span(line: Seq<char>) -> nat {
    encode_utf8(line).len() + 1
}

/// The bytes the lines take together.
pub open spec fn spans_total(lines: Seq<Seq<char>>) -> nat
    decreases lines.len(),
{
    if lines.len() == 0 {
        0
    } else {
        spans_total(lines.drop_last()) + line_span(lines.last())
    }
}

proof fn lemma_spans_prefix(lines: Seq<Seq<char>>, i: int)
    requires
        0 <= i <= lines.len(),
    ensures
        spans_total(lines.subrange(0, i)) <= spans_total(lines),
        i < lines.len() ==> spans_total(lines.subrange(0, i)) + line_span(lines[i])
            <= spans_total(lines),
    decreases lines.len() - i,
{
    if i < lines.len() {
        lemma_spans_prefix(lines, i + 1);
        assert(lines.subrange(0, i + 1).drop_last() =~= lines.subrange(0, i));
    } else {
        assert(lines.subrange(0, i) =~= lines);
    }
}

/// A byte range of the viewport text picked by the mouse: from `anchor`,
/// where the pick started, to `active`, where it is now.
#[derive(Clone, Copy, Debug, PartialEq, Eq, Structural)]
pub struct ByteSelection {
    pub anchor: usize,
    pub active: usize,
}

impl ByteSelection {
    /// The start of the selected range.
    pub fn start(&self) -> (r: usize)
        ensures
            r == (if self.anchor <= self.active {
                self.anchor
            } else {
                self.active
            }),
    {
        if self.anchor <= self.active {
            self.anchor
        } else {
            self.active
        }
    }

    /// The end of the selected range.
    pub fn end(&self) -> (r: usize)
        ensures
            r == (if self.anchor <= self.active {
                self.active
            } else {
                self.anchor
            }),
    {
        if self.anchor <= self.active {
            self.active
        } else {
            self.anchor
        }
    }

    /// Whether nothing is selected.
    pub fn is_empty(&self) -> (r: bool)
        ensures
            r == (self.anchor == self.active),
    {
        self.anchor == self.active
    }
}

/// The viewport text of a terminal view: its lines, the byte offset at
/// which each starts in the text (each line followed by a newline), the
/// text's length and the current selection.
pub struct TerminalView {
    pub viewport_lines: Vec<String>,
    pub viewport_line_offsets: Vec<usize>,
    pub viewport_total_len: usize,
    pub selection: Option<ByteSelection>,
}

/// Whether `offsets` are the start offsets of `lines`.
pub open spec fn offsets_of(lines: Seq<Seq<char>>, offsets: Seq<usize>) -> bool {
    &&& offsets.len() == lines.len()
    &&& forall|i: int| 0 <= i < lines.len() ==> #[trigger] offsets[i] == spans_total(lines.subrange(0, i))
}

impl TerminalView {
    /// The offsets and length agree with the lines.
    pub open spec fn well_formed(&self) -> bool {
        &&& offsets_of(string_views(self.viewport_lines@), self.viewport_line_offsets@)
        &&& self.viewport_total_len == spans_total(string_views(self.viewport_lines@))
    }

    /// The byte offset at which each line starts.
    pub fn compute_viewport_line_offsets(lines: &[String]) -> (r: Vec<usize>)
        requires
            spans_total(string_views(lines@)) <= usize::MAX,
        ensures
            offsets_of(string_views(lines@), r@),
    {
        let ghost ls = string_views(lines@);
        let mut offsets: Vec<usize> = Vec::new();
        let mut offset: usize = 0;
        let mut i: usize = 0;
        while i < lines.len()
            invariant
                ls == string_views(lines@),
                spans_total(ls) <= usize::MAX,
                i <= lines@.len(),
                offset == spans_total(ls.subrange(0, i as int)),
                offsets@.len() == i,
                forall|j: int| 0 <= j < i ==> #[trigger] offsets@[j] == spans_total(ls.subrange(0, j)),
            decreases lines@.len() - i,
        {
            offsets.push(offset);
            proof {
                lemma_spans_prefix(ls, i as int);
                assert(ls.subrange(0, i + 1).drop_last() =~= ls.subrange(0, i as int));
                assert(ls[i as int] == lines@[i as int]@);
            }
            let n = lines[i].as_str().as_bytes().len();
            offset = offset + n + 1;
            i = i + 1;
        }
        offsets
    }

    /// The length of the viewport text.
    pub fn compute_viewport_total_len(lines: &[String]) -> (r: usize)
        requires
            spans_total(string_views(lines@)) <= usize::MAX,
        ensures
            r == spans_total(string_views(lines@)),
    {
        let ghost ls = string_views(lines@);
        let mut total: usize = 0;
        let mut i: usize = 0;
        while i < lines.len()
            invariant
                ls == string_views(lines@),
                spans_total(ls) <= usize::MAX,
                i <= lines@.len(),
                total == spans_total(ls.subrange(0, i as int)),
            decreases lines@.len() - i,
        {
            proof {
                lemma_spans_prefix(ls, i as int);
                assert(ls.subrange(0, i + 1).drop_last() =~= ls.subrange(0, i as int));
                assert(ls[i as int] == lines@[i as int]@);
            }
            let n = lines[i].as_str().as_bytes().len();
            total = total + n + 1;
            i = i + 1;
        }
        assert(ls.subrange(0, i as int) =~= ls);
        total
    }
}

/// The last row whose offset is at most `index`.
pub open spec fn row_at_or_before(offsets: Seq<usize>, index: int) -> Option<int>
    decreases offsets.len(),
{
    if offsets.len() == 0 {
        None
    } else if offsets.last() <= index {
        Some(offsets.len() - 1)
    } else {
        row_at_or_before(offsets.drop_last(), index)
    }
}

proof fn lemma_row_at_or_before(offsets: Seq<usize>, index: int, k: int)
    requires
        0 <= k <= offsets.len(),
        forall|j: int| k <= j < offsets.len() ==> offsets[j] > index,
    ensures
        row_at_or_before(offsets, index) == row_at_or_before(offsets.subrange(0, k), index),
    decreases offsets.len() - k,
{
    if k < offsets.len() {
        lemma_row_at_or_before(offsets.drop_last(), index, k);
        assert(offsets.drop_last().subrange(0, k) =~= offsets.subrange(0, k));
    } else {
        assert(offsets.subrange(0, k) =~= offsets);
    }
}

proof fn lemma_row_bounds(offsets: Seq<usize>, index: int)
    ensures
        row_at_or_before(offsets, index) matches Some(r) ==> 0 <= r < offsets.len() && offsets[r]
            <= index,
    decreases offsets.len(),
{
    if offsets.len() > 0 && !(offsets.last() <= index) {
        lemma_row_bounds(offsets.drop_last(), index);
    }
}

/// Bytes that a double click treats as part of a word: ASCII letters and
/// digits, `_`, `-` and `.`.
pub open spec fn is_word_byte(b: u8) -> bool {
    (97 <= b && b <= 122) || (65 <= b && b <= 90) || (48 <= b && b <= 57) || b == 95 || b == 45
        || b == 46
}

/// Whether a byte belongs to the class being extended: word bytes, or
/// spaces.
pub open spec fn in_class(b: u8, word: bool) -> bool {
    if word {
        is_word_byte(b)
    } else {
        b == 32
    }
}

/// The start of the run of class bytes that ends at `i`.
pub open spec fn run_start(b: Seq<u8>, i: int, word: bool) -> int
    decreases i,
{
    if i > 0 && i <= b.len() && in_class(b[i - 1], word) {
        run_start(b, i - 1, word)
    } else {
        i
    }
}

/// The end of the run of class bytes that starts at `i`.
pub open spec fn run_end(b: Seq<u8>, i: int, word: bool) -> int
    decreases b.len() - i,
{
    if 0 <= i < b.len() && in_class(b[i], word) {
        run_end(b, i + 1, word)
    } else {
        i
    }
}

/// The byte range, within a line's bytes, that a double click at `local`
/// selects: the whole word, the whole run of spaces, or the single byte.
pub open spec fn word_range(b: Seq<u8>, local: int) -> (int, int) {
    if is_word_byte(b[local]) {
        (run_start(b, local, true), run_end(b, local, true))
    } else if b[local] == 32 {
        (run_start(b, local, false), run_end(b, local, false))
    } else {
        (local, local + 1)
    }
}

proof fn lemma_run_start(b: Seq<u8>, i: int, word: bool)
    requires
        0 <= i <= b.len(),
    ensures
        0 <= run_start(b, i, word) <= i,
        forall|j: int| run_start(b, i, word) <= j < i ==> in_class(#[trigger] b[j], word),
        run_start(b, i, word) == 0 || !in_class(b[run_start(b, i, word) - 1], word),
    decreases i,
{
    if i > 0 && in_class(b[i - 1], word) {
        lemma_run_start(b, i - 1, word);
    }
}

proof fn lemma_run_end(b: Seq<u8>, i: int, word: bool)
    requires
        0 <= i <= b.len(),
    ensures
        i <= run_end(b, i, word) <= b.len(),
        forall|j: int| i <= j < run_end(b, i, word) ==> in_class(#[trigger] b[j], word),
        run_end(b, i, word) == b.len() || !in_class(b[run_end(b, i, word)], word),
    decreases b.len() - i,
{
    if i < b.len() && in_class(b[i], word) {
        lemma_run_end(b, i + 1, word);
    }
}

/// A double click selects the maximal run around the byte it hits: of word
/// bytes when that byte is one, of spaces when it is a space, and otherwise
/// just that byte.
pub proof fn law_word_range_is_the_maximal_run(b: Seq<u8>, local: int)
    requires
        0 <= local < b.len(),
    ensures
        ({
            let (s, e) = word_range(b, local);
            &&& 0 <= s <= local < e <= b.len()
            &&& if is_word_byte(b[local]) || b[local] == 32 {
                let w = is_word_byte(b[local]);
                &&& forall|j: int| s <= j < e ==> in_class(#[trigger] b[j], w)
                &&& s == 0 || !in_class(b[s - 1], w)
                &&& e == b.len() || !in_class(b[e], w)
            } else {
                s == local && e == local + 1
            }
        }),
{
    if is_word_byte(b[local]) || b[local] == 32 {
        let w = is_word_byte(b[local]);
        lemma_run_start(b, local, w);
        lemma_run_end(b, local, w);
        assert(in_class(b[local], w));
    }
}

/// Whether a byte is an ASCII letter or digit.
pub open spec fn is_ascii_alphanumeric_byte(b: u8) -> bool {
    let c = b as char;
    ('0' <= c && c <= '9') || ('a' <= c && c <= 'z') || ('A' <= c && c <= 'Z')
}

/// The bytes of a word are the ASCII letters and digits, `_`, `-` and `.`.
pub proof fn law_word_bytes(b: u8)
    ensures
        is_word_byte(b) <==> (is_ascii_alphanumeric_byte(b) || b as char == '_' || b as char == '-'
            || b as char == '.'),
{
}

/// Two neighbouring letters or digits belong to the same word: a double
/// click on either selects the same bytes.
pub proof fn law_letters_and_digits_share_a_word(b: Seq<u8>, i: int)
    requires
        0 <= i,
        i + 1 < b.len(),
        is_ascii_alphanumeric_byte(b[i]),
        is_ascii_alphanumeric_byte(b[i + 1]),
    ensures
        word_range(b, i) == word_range(b, i + 1),
{
    assert(is_word_byte(b[i]));
    assert(is_word_byte(b[i + 1]));
    assert(run_start(b, i + 1, true) == run_start(b, i, true));
    assert(run_end(b, i, true) == run_end(b, i + 1, true));
}

impl TerminalView {
    /// The row holding byte `index` of the viewport text, with its line and
    /// the offset at which the line starts.
    pub open spec fn row_for_index(&self, index: int) -> Option<(int, Seq<char>, int)> {
        match row_at_or_before(self.viewport_line_offsets@, index) {
            None => None,
            Some(r) => if r < self.viewport_lines@.len() {
                Some((r, self.viewport_lines@[r]@, self.viewport_line_offsets@[r] as int))
            } else {
                None
            },
        }
    }

    /// Finds the row holding byte `index` of the viewport text.
    pub fn viewport_row_for_index(&self, index: usize) -> (r: Option<(usize, &str, usize)>)
        ensures
            match r {
                None => self.row_for_index(index as int) is None,
                Some((row, line, offset)) => self.row_for_index(index as int) == Some(
                    (row as int, line@, offset as int),
                ),
            },
    {
        let offsets = &self.viewport_line_offsets;
        let mut k = offsets.len();
        while k > 0 && offsets[k - 1] > index
            invariant
                k <= offsets@.len(),
                forall|j: int| k <= j < offsets@.len() ==> offsets@[j] > index,
            decreases k,
        {
            k = k - 1;
        }
        proof {
            lemma_row_at_or_before(offsets@, index as int, k as int);
            if k > 0 {
                assert(offsets@.subrange(0, k as int).last() == offsets@[k - 1]);
            }
        }
        if k == 0 {
            proof {
                assert(offsets@.subrange(0, 0) =~= Seq::<usize>::empty());
            }
            return None;
        }
        let row = k - 1;
        if row >= self.viewport_lines.len() {
            return None;
        }
        Some((row, self.viewport_lines[row].as_str(), offsets[row]))
    }

    /// The selection that a double click at byte `index` makes: the word,
    /// the run of spaces or the single byte there (see `word_range`); none
    /// past the end of its line.
    pub open spec fn word_selection(&self, index: int) -> Option<ByteSelection> {
        match self.row_for_index(index) {
            None => None,
            Some((_, line, offset)) => {
                let b = encode_utf8(line);
                let local = index - offset;
                if local >= b.len() {
                    None
                } else {
                    let (start, end) = word_range(b, local);
                    Some(ByteSelection { anchor: (offset + start) as usize, active: (offset + end) as usize })
                }
            },
        }
    }

    /// The line holding byte `index`.
    pub open spec fn line_selection(&self, index: int) -> Option<ByteSelection> {
        match self.row_for_index(index) {
            None => None,
            Some((_, line, offset)) => Some(
                ByteSelection { anchor: offset as usize, active: (offset + encode_utf8(line).len()) as usize },
            ),
        }
    }

    /// The selection of a double click at byte `index`: see
    /// [`Self::word_selection`].
    pub fn select_word_at_index(&self, index: usize) -> (r: Option<ByteSelection>)
        requires
            self.well_formed(),
        ensures
            r == self.word_selection(index as int),
    {
        let (row, line, line_offset) = match self.viewport_row_for_index(index) {
            Some(x) => x,
            None => return None,
        };
        proof {
            lemma_row_bounds(self.viewport_line_offsets@, index as int);
            let ls = string_views(self.viewport_lines@);
            lemma_spans_prefix(ls, row as int);
            assert(ls[row as int] == line@);
        }
        let local = index - line_offset;
        let bytes = line.as_bytes();
        if local >= bytes.len() {
            return None;
        }
        let target_is_word = is_word_char(bytes[local]);
        let mut start = local;
        let mut end = local;
        if target_is_word || bytes[local] == 32 {
            let word = target_is_word;
            while start > 0 && class_byte(bytes[start - 1], word)
                invariant
                    start <= local < bytes@.len(),
                    run_start(bytes@, local as int, word) == run_start(bytes@, start as int, word),
                decreases start,
            {
                start = start - 1;
            }
            while end < bytes.len() && class_byte(bytes[end], word)
                invariant
                    local <= end <= bytes@.len(),
                    run_end(bytes@, local as int, word) == run_end(bytes@, end as int, word),
                decreases bytes@.len() - end,
            {
                end = end + 1;
            }
        } else {
            end = end + 1;
        }
        Some(ByteSelection { anchor: line_offset + start, active: line_offset + end })
    }

    /// The selection that a triple click at byte `index` makes: the whole
    /// line there.
    pub fn select_line_at_index(&self, index: usize) -> (r: Option<ByteSelection>)
        requires
            self.well_formed(),
        ensures
            r == self.line_selection(index as int),
    {
        let (row, line, line_offset) = match self.viewport_row_for_index(index) {
            Some(x) => x,
            None => return None,
        };
        proof {
            lemma_row_bounds(self.viewport_line_offsets@, index as int);
            let ls = string_views(self.viewport_lines@);
            lemma_spans_prefix(ls, row as int);
            assert(ls[row as int] == line@);
        }
        let n = line.as_bytes().len();
        Some(ByteSelection { anchor: line_offset, active: line_offset + n })
    }

    /// A view of the viewport dump `text`, with no selection; none when the
    /// text is too long for its offsets to be counted.
    pub fn from_viewport_text(text: &str) -> (r: Option<Self>)
        ensures
            match r {
                Some(v) => {
                    &&& v.well_formed()
                    &&& string_views(v.viewport_lines@) == viewport_lines_of(text@)
                    &&& v.selection is None
                },
                None => spans_total(viewport_lines_of(text@)) > usize::MAX,
            },
    {
        let lines = split_viewport_lines(text);
        let ghost ls = string_views(lines@);
        let mut total: usize = 0;
        let mut i: usize = 0;
        while i < lines.len()
            invariant
                ls == string_views(lines@),
                ls == viewport_lines_of(text@),
                i <= lines@.len(),
                total == spans_total(ls.subrange(0, i as int)),
            decreases lines@.len() - i,
        {
            proof {
                assert(ls.subrange(0, i + 1).drop_last() =~= ls.subrange(0, i as int));
                assert(ls[i as int] == lines@[i as int]@);
            }
            let n = lines[i].as_str().as_bytes().len();
            if total > usize::MAX - 1 || n > usize::MAX - 1 - total {
                proof {
                    lemma_spans_prefix(ls, i + 1);
                    assert(ls.subrange(0, i + 1).last() == ls[i as int]);
                    assert(spans_total(ls.subrange(0, i + 1)) == total + n + 1);
                }
                return None;
            }
            total = total + n + 1;
            i = i + 1;
        }
        assert(ls.subrange(0, i as int) =~= ls);
        let offsets = TerminalView::compute_viewport_line_offsets(lines.as_slice());
        Some(
            TerminalView {
                viewport_lines: lines,
                viewport_line_offsets: offsets,
                viewport_total_len: total,
                selection: None,
            },
        )
    }
}

/// Whether a byte counts as part of a word for a double click.
pub fn is_word_char(b: u8) -> (r: bool)
    ensures
        r == is_word_byte(b),
{
    (b >= 97 && b <= 122) || (b >= 65 && b <= 90) || (b >= 48 && b <= 57) || b == 95 || b == 45
        || b == 46
}

fn class_byte(b: u8, word: bool) -> (r: bool)
    ensures
        r == in_class(b, word),
{
    if word {
        is_word_char(b)
    } else {
        b == 32
    }
}

// ---------------------------------------------------------------------------
// paste and file drop
// ---------------------------------------------------------------------------

/// `s` without escape characters.
pub open spec fn without_escapes(s: Seq<char>) -> Seq<char>
    decreases s.len(),
{
    if s.len() == 0 {
        Seq::empty()
    } else {
        without_escapes(s.drop_last()) + (if s.last() == '\u{1b}' {
            Seq::empty()
        } else {
            seq![s.last()]
        })
    }
}

pub open spec fn paste_start() -> Seq<u8> {
    seq![27u8, 91u8, 50u8, 48u8, 48u8, 126u8]
}

pub open spec fn paste_end() -> Seq<u8> {
    seq![27u8, 91u8, 50u8, 48u8, 49u8, 126u8]
}

/// The bytes that pasting `text` sends: with bracketed paste on, the text
/// between the bracket markers; otherwise the text with its escape
/// characters removed, so that a clipboard cannot smuggle in terminal
/// commands.
pub open spec fn paste_bytes(text: Seq<char>, bracketed: bool) -> Seq<u8> {
    if bracketed {
        paste_start() + encode_utf8(text) + paste_end()
    } else {
        encode_utf8(without_escapes(text))
    }
}

fn string_bytes(s: &String) -> (r: Vec<u8>)
    ensures
        r@ == encode_utf8(s@),
{
    let b = s.as_str().as_bytes();
    copy_range(b, 0, b.len())
}

/// Builds the bytes that a paste of `text` sends.
pub fn paste_payload(text: &str, bracketed: bool) -> (r: Vec<u8>)
    ensures
        r@ == paste_bytes(text@, bracketed),
{
    let chars = str_chars(text);
    let mut kept: Vec<char> = Vec::new();
    if bracketed {
        kept = chars;
    } else {
        let mut i: usize = 0;
        while i < chars.len()
            invariant
                i <= chars@.len(),
                chars@ == text@,
                kept@ == without_escapes(chars@.subrange(0, i as int)),
            decreases chars@.len() - i,
        {
            proof {
                assert(chars@.subrange(0, i + 1).drop_last() =~= chars@.subrange(0, i as int));
            }
            if chars[i] != '\u{1b}' {
                kept.push(chars[i]);
            }
            proof {
                assert(kept@ =~= without_escapes(chars@.subrange(0, i + 1)));
            }
            i = i + 1;
        }
        assert(chars@.subrange(0, chars@.len() as int) =~= chars@);
    }
    let body = string_bytes(&string_from_chars(kept.as_slice()));
    if bracketed {
        let mut out: Vec<u8> = vec![27, 91, 50, 48, 48, 126];
        let mut i: usize = 0;
        while i < body.len()
            invariant
                i <= body@.len(),
                out@ == paste_start() + body@.subrange(0, i as int),
            decreases body@.len() - i,
        {
            out.push(body[i]);
            i = i + 1;
        }
        out.push(27);
        out.push(91);
        out.push(50);
        out.push(48);
        out.push(49);
        out.push(126);
        assert(body@.subrange(0, body@.len() as int) =~= body@);
        assert(out@ =~= paste_start() + body@ + paste_end());
        out
    } else {
        body
    }
}

/// The dropped paths quoted for a shell and separated by spaces.
pub open spec fn quoted_paths(paths: Seq<Seq<char>>) -> Seq<char>
    decreases paths.len(),
{
    if paths.len() == 0 {
        Seq::empty()
    } else if paths.len() == 1 {
        shell_quoted(paths[0])
    } else {
        quoted_paths(paths.drop_last()) + seq![' '] + shell_quoted(paths.last())
    }
}

/// The bytes that dropping files on the terminal sends: their paths,
/// quoted for a shell and separated by spaces, bracketed as a paste when
/// bracketed paste is on; nothing when no path was dropped.
pub fn file_drop_payload(paths: &Vec<String>, bracketed: bool) -> (r: Option<Vec<u8>>)
    ensures
        match r {
            None => paths@.len() == 0,
            Some(v) => paths@.len() > 0 && v@ == (if bracketed {
                paste_start() + encode_utf8(quoted_paths(string_views(paths@))) + paste_end()
            } else {
                encode_utf8(quoted_paths(string_views(paths@)))
            }),
        },
{
    if paths.len() == 0 {
        return None;
    }
    let ghost ps = string_views(paths@);
    let mut text: Vec<char> = Vec::new();
    let mut i: usize = 0;
    while i < paths.len()
        invariant
            ps == string_views(paths@),
            i <= paths@.len(),
            text@ == quoted_paths(ps.subrange(0, i as int)),
        decreases paths@.len() - i,
    {
        let quoted = shell_quote(paths[i].as_str());
        let q = str_chars(quoted.as_str());
        proof {
            assert(ps.subrange(0, i + 1).drop_last() =~= ps.subrange(0, i as int));
            assert(ps.subrange(0, i + 1).last() == paths@[i as int]@);
        }
        if i > 0 {
            text.push(' ');
        }
        let ghost t0 = text@;
        let mut k: usize = 0;
        while k < q.len()
            invariant
                k <= q@.len(),
                text@ == t0 + q@.subrange(0, k as int),
            decreases q@.len() - k,
        {
            text.push(q[k]);
            k = k + 1;
        }
        proof {
            assert(q@.subrange(0, q@.len() as int) =~= q@);
            if i == 0 {
                assert(ps.subrange(0, 0) =~= Seq::<Seq<char>>::empty());
                assert(text@ =~= quoted_paths(ps.subrange(0, i + 1)));
            } else {
                assert(text@ =~= quoted_paths(ps.subrange(0, i + 1)));
            }
        }
        i = i + 1;
    }
    assert(ps.subrange(0, i as int) =~= ps);
    let joined = string_from_chars(text.as_slice());
    Some(paste_payload_of_joined(&joined, bracketed))
}

fn paste_payload_of_joined(joined: &String, bracketed: bool) -> (r: Vec<u8>)
    ensures
        r@ == (if bracketed {
            paste_start() + encode_utf8(joined@) + paste_end()
        } else {
            encode_utf8(joined@)
        }),
{
    let body = string_bytes(joined);
    if bracketed {
        let mut out: Vec<u8> = vec![27, 91, 50, 48, 48, 126];
        let mut i: usize = 0;
        while i < body.len()
            invariant
                i <= body@.len(),
                out@ == paste_start() + body@.subrange(0, i as int),
            decreases body@.len() - i,
        {
            out.push(body[i]);
            i = i + 1;
        }
        out.push(27);
        out.push(91);
        out.push(50);
        out.push(48);
        out.push(49);
        out.push(126);
        assert(body@.subrange(0, body@.len() as int) =~= body@);
        assert(out@ =~= paste_start() + body@ + paste_end());
        out
    } else {
        body
    }
}

// ---------------------------------------------------------------------------
// clicks and scrolling
// ---------------------------------------------------------------------------

/// The click count of a mouse press: one more than the previous press's
/// (wrapping from three back to one) when it came soon enough and near
/// enough, one otherwise.
pub fn next_click_count(last_count: Option<u8>, close_to_last: bool) -> (r: u8)
    ensures
        r == (match last_count {
            Some(c) => if close_to_last {
                if c >= 3 {
                    1
                } else {
                    (c + 1) as u8
                }
            } else {
                1
            },
            None => 1,
        }),
{
    match last_count {
        Some(c) => {
            if close_to_last {
                if c >= 3 {
                    1
                } else {
                    c + 1
                }
            } else {
                1
            }
        },
        None => 1,
    }
}

/// What a scroll of a number of lines does.
#[derive(Clone, Copy, Debug, PartialEq, Eq, Structural)]
pub enum ScrollAction {
    /// Report wheel presses to the application: `steps` reports of this
    /// button value.
    Report { button: u8, steps: u32 },
    /// Send arrow keys (down when `down`) to an application on the
    /// alternate screen.
    Arrows { down: bool, steps: u32 },
    /// Scroll the terminal's own history by this many lines.
    Viewport(i32),
}

/// The number of repeats for a scroll: its size, at most ten.
pub open spec fn scroll_steps(delta: i32) -> u32 {
    let a = if delta < 0 {
        -(delta as int)
    } else {
        delta as int
    };
    if a > 10 {
        10
    } else {
        a as u32
    }
}

/// Routes a scroll of `delta_lines` (negative is up): to the application as
/// wheel reports when it asked for mouse reports and shift is not held; as
/// arrow keys on the alternate screen; otherwise to the terminal's history.
pub fn scroll_action(
    delta_lines: i32,
    has_input: bool,
    shift: bool,
    mouse_reporting: bool,
    alt_screen: bool,
    alt: bool,
    control: bool,
) -> (r: ScrollAction)
    ensures
        r == (if has_input && !shift && mouse_reporting {
            ScrollAction::Report {
                button: mouse_button_value(
                    if delta_lines < 0 {
                        64
                    } else {
                        65
                    },
                    false,
                    false,
                    alt,
                    control,
                ),
                steps: scroll_steps(delta_lines),
            }
        } else if alt_screen && has_input {
            ScrollAction::Arrows { down: delta_lines > 0, steps: scroll_steps(delta_lines) }
        } else {
            ScrollAction::Viewport(delta_lines)
        }),
{
    let steps: u32 = if delta_lines < -10 || delta_lines > 10 {
        10
    } else if delta_lines < 0 {
        (0 - delta_lines) as u32
    } else {
        delta_lines as u32
    };
    if has_input && !shift && mouse_reporting {
        let button: u8 = if delta_lines < 0 {
            64
        } else {
            65
        };
        let value = crate::terminal_input::sgr_mouse_button_value(button, false, false, alt, control);
        ScrollAction::Report { button: value, steps }
    } else if alt_screen && has_input {
        ScrollAction::Arrows { down: delta_lines > 0, steps }
    } else {
        ScrollAction::Viewport(delta_lines)
    }
}

// ---------------------------------------------------------------------------
// mouse presses, releases and moves
// ---------------------------------------------------------------------------

/// A mouse button.
#[derive(Clone, Copy, Debug, PartialEq, Eq, Structural)]
pub enum MouseButtonKind {
    Left,
    Middle,
    Right,
    Other,
}

/// The number a report gives a button: 0 left, 1 middle, 2 right.
pub open spec fn button_number(b: MouseButtonKind) -> Option<u8> {
    match b {
        MouseButtonKind::Left => Some(0),
        MouseButtonKind::Middle => Some(1),
        MouseButtonKind::Right => Some(2),
        MouseButtonKind::Other => None,
    }
}

/// The mouse works the selection rather than the application: shift is
/// held, nothing takes input, or the application asked for no reports.
pub open spec fn selecting_mode(shift: bool, has_input: bool, reporting: bool) -> bool {
    shift || !has_input || !reporting
}

/// Where a mouse press goes.
#[derive(Clone, Copy, Debug, PartialEq, Eq, Structural)]
pub enum PressRoute {
    Ignore,
    /// A left press works the selection.
    Select,
    /// The press of this button number is reported to the application.
    Report(u8),
}

/// Routes a mouse press: the press that focuses the window does nothing;
/// in selection mode a left press selects; otherwise the press of a left,
/// middle or right button is reported.
pub fn press_route(first_mouse: bool, button: MouseButtonKind, shift: bool, has_input: bool, reporting: bool) -> (r: PressRoute)
    ensures
        r == (if first_mouse {
            PressRoute::Ignore
        } else if selecting_mode(shift, has_input, reporting) {
            if button == MouseButtonKind::Left {
                PressRoute::Select
            } else {
                PressRoute::Ignore
            }
        } else {
            match button_number(button) {
                Some(n) => PressRoute::Report(n),
                None => PressRoute::Ignore,
            }
        }),
{
    if first_mouse {
        return PressRoute::Ignore;
    }
    if shift || !has_input || !reporting {
        return if button == MouseButtonKind::Left {
            PressRoute::Select
        } else {
            PressRoute::Ignore
        };
    }
    match button {
        MouseButtonKind::Left => PressRoute::Report(0),
        MouseButtonKind::Middle => PressRoute::Report(1),
        MouseButtonKind::Right => PressRoute::Report(2),
        MouseButtonKind::Other => PressRoute::Ignore,
    }
}

/// Where a mouse release goes.
#[derive(Clone, Copy, Debug, PartialEq, Eq, Structural)]
pub enum ReleaseRoute {
    Ignore,
    /// The release ends a selection.
    Select,
    /// The release of this button number is reported to the application.
    Report(u8),
}

/// Routes a mouse release: in selection mode it ends the selection;
/// otherwise the release of a left, middle or right button is reported.
pub fn release_route(button: MouseButtonKind, shift: bool, has_input: bool, reporting: bool) -> (r: ReleaseRoute)
    ensures
        r == (if selecting_mode(shift, has_input, reporting) {
            ReleaseRoute::Select
        } else {
            match button_number(button) {
                Some(n) => ReleaseRoute::Report(n),
                None => ReleaseRoute::Ignore,
            }
        }),
{
    if shift || !has_input || !reporting {
        return ReleaseRoute::Select;
    }
    match button {
        MouseButtonKind::Left => ReleaseRoute::Report(0),
        MouseButtonKind::Middle => ReleaseRoute::Report(1),
        MouseButtonKind::Right => ReleaseRoute::Report(2),
        MouseButtonKind::Other => ReleaseRoute::Ignore,
    }
}

/// Where a mouse move goes.
#[derive(Clone, Copy, Debug, PartialEq, Eq, Structural)]
pub enum MoveRoute {
    /// Motion with this button number (3 for none) is reported.
    Report(u8),
    /// A drag extends the selection.
    Drag,
}

/// Routes a mouse move: outside selection mode, motion is reported when
/// the application asked for all motion, or for motion with a button
/// held and one is; anything else may extend the selection.
pub fn move_route(
    shift: bool,
    has_input: bool,
    reporting: bool,
    any_event: bool,
    button_event: bool,
    pressed: Option<MouseButtonKind>,
) -> (r: MoveRoute)
    ensures
        r == (if !selecting_mode(shift, has_input, reporting) && (any_event || (button_event
            && pressed is Some)) {
            MoveRoute::Report(
                match pressed {
                    Some(b) => match button_number(b) {
                        Some(n) => n,
                        None => 3,
                    },
                    None => 3,
                },
            )
        } else {
            MoveRoute::Drag
        }),
{
    if !shift && has_input && reporting {
        let send_motion = if any_event {
            true
        } else if button_event {
            pressed.is_some()
        } else {
            false
        };
        if send_motion {
            let base: u8 = match pressed {
                Some(MouseButtonKind::Left) => 0,
                Some(MouseButtonKind::Middle) => 1,
                Some(MouseButtonKind::Right) => 2,
                Some(MouseButtonKind::Other) => 3,
                None => 3,
            };
            return MoveRoute::Report(base);
        }
    }
    MoveRoute::Drag
}

/// The bytes of a mouse report: the SGR form when the application asked
/// for it, else the classic form.
pub fn mouse_report(button_value: u8, col: u16, row: u16, pressed: bool, sgr: bool) -> (r: Vec<u8>)
    ensures
        r@ == (if sgr {
            encode_utf8(sgr_report(button_value, col, row, pressed))
        } else {
            normal_report(button_value, col, row)
        }),
{
    if sgr {
        let text = sgr_mouse_sequence(button_value, col, row, pressed);
        let bytes = text.as_str().as_bytes();
        let mut out: Vec<u8> = Vec::new();
        let mut i: usize = 0;
        while i < bytes.len()
            invariant
                i <= bytes@.len(),
                out@ == bytes@.subrange(0, i as int),
            decreases bytes@.len() - i,
        {
            out.push(bytes[i]);
            i = i + 1;
            assert(out@ =~= bytes@.subrange(0, i as int));
        }
        assert(bytes@.subrange(0, bytes@.len() as int) =~= bytes@);
        out
    } else {
        normal_mouse_sequence(button_value, col, row)
    }
}

/// The report of a button release: the SGR form releases the button; the
/// classic form has no release of its own and reports button 3.
pub fn release_report(base_button: u8, alt: bool, control: bool, col: u16, row: u16, sgr: bool) -> (r: Vec<u8>)
    ensures
        r@ == (if sgr {
            encode_utf8(sgr_report(mouse_button_value(base_button, false, false, alt, control), col, row, false))
        } else {
            normal_report(mouse_button_value(3, false, false, alt, control), col, row)
        }),
{
    let value = if sgr {
        sgr_mouse_button_value(base_button, false, false, alt, control)
    } else {
        sgr_mouse_button_value(3, false, false, alt, control)
    };
    mouse_report(value, col, row, false, sgr)
}

impl TerminalView {
    /// A left press in selection mode at byte `index`: a double click
    /// selects the word, a triple click the line (the selection stays where
    /// there is none), any other click starts an empty selection there.
    pub fn press_selection(&mut self, index: usize, click_count: u8)
        requires
            old(self).well_formed(),
        ensures
            final(self).viewport_lines@ == old(self).viewport_lines@,
            final(self).viewport_line_offsets@ == old(self).viewport_line_offsets@,
            final(self).viewport_total_len == old(self).viewport_total_len,
            final(self).selection == (if click_count == 2 {
                match old(self).word_selection(index as int) {
                    Some(s) => Some(s),
                    None => old(self).selection,
                }
            } else if click_count == 3 {
                match old(self).line_selection(index as int) {
                    Some(s) => Some(s),
                    None => old(self).selection,
                }
            } else {
                Some(ByteSelection { anchor: index, active: index })
            }),
    {
        if click_count == 2 {
            if let Some(sel) = self.select_word_at_index(index) {
                self.selection = Some(sel);
            }
        } else if click_count == 3 {
            if let Some(sel) = self.select_line_at_index(index) {
                self.selection = Some(sel);
            }
        } else {
            self.selection = Some(ByteSelection { anchor: index, active: index });
        }
    }

    /// Selects the whole viewport text.
    pub fn select_all(&mut self)
        ensures
            final(self).selection == Some(ByteSelection { anchor: 0, active: old(self).viewport_total_len }),
            final(self).viewport_lines@ == old(self).viewport_lines@,
            final(self).viewport_line_offsets@ == old(self).viewport_line_offsets@,
            final(self).viewport_total_len == old(self).viewport_total_len,
    {
        self.selection = Some(ByteSelection { anchor: 0, active: self.viewport_total_len });
    }

    /// A release in selection mode: an empty selection is dropped. The
    /// answer is whether there was a selection (the view redraws).
    pub fn release_selection(&mut self) -> (r: bool)
        ensures
            r == old(self).selection is Some,
            final(self).selection == (match old(self).selection {
                Some(s) => if s.anchor == s.active {
                    None
                } else {
                    Some(s)
                },
                None => None,
            }),
            final(self).viewport_lines@ == old(self).viewport_lines@,
            final(self).viewport_line_offsets@ == old(self).viewport_line_offsets@,
            final(self).viewport_total_len == old(self).viewport_total_len,
    {
        match self.selection {
            Some(s) => {
                if s.is_empty() {
                    self.selection = None;
                }
                true
            },
            None => false,
        }
    }

    /// A drag over byte `index`: the moving end of the selection follows.
    /// The answer is whether it moved.
    pub fn drag_selection(&mut self, index: usize) -> (r: bool)
        ensures
            r == (match old(self).selection {
                Some(s) => s.active != index,
                None => false,
            }),
            final(self).selection == (match old(self).selection {
                Some(s) => Some(ByteSelection { anchor: s.anchor, active: index }),
                None => None,
            }),
            final(self).viewport_lines@ == old(self).viewport_lines@,
            final(self).viewport_line_offsets@ == old(self).viewport_line_offsets@,
            final(self).viewport_total_len == old(self).viewport_total_len,
    {
        match self.selection {
            Some(s) => {
                if s.active != index {
                    self.selection = Some(ByteSelection { anchor: s.anchor, active: index });
                    true
                } else {
                    false
                }
            },
            None => false,
        }
    }
}

// ---------------------------------------------------------------------------
// laws
// ---------------------------------------------------------------------------

proof fn lemma_without_escapes_has_none(s: Seq<char>)
    ensures
        forall|i: int| 0 <= i < without_escapes(s).len() ==> #[trigger] without_escapes(s)[i] != '\u{1b}',
    decreases s.len(),
{
    if s.len() > 0 {
        lemma_without_escapes_has_none(s.drop_last());
        let a = without_escapes(s.drop_last());
        let b: Seq<char> = if s.last() == '\u{1b}' {
            Seq::empty()
        } else {
            seq![s.last()]
        };
        assert forall|i: int| 0 <= i < (a + b).len() implies #[trigger] (a + b)[i] != '\u{1b}' by {
            if i < a.len() {
                assert((a + b)[i] == a[i]);
            } else {
                assert((a + b)[i] == b[i - a.len()]);
            }
        }
    }
}

proof fn lemma_scalar_has_no_escape_byte(c: char)
    requires
        c != '\u{1b}',
    ensures
        forall|i: int| 0 <= i < vstd::utf8::encode_scalar(c as u32).len() ==> #[trigger] vstd::utf8::encode_scalar(c as u32)[i] != 27u8,
{
    vstd::utf8::char_is_scalar(c);
    let v = c as u32;
    assert(v != 27) by {
        vstd::utf8::char_u32_cast(c, v);
    }
    if v <= 0x7f {
        assert((v & 0x7f) as u8 != 27u8) by (bit_vector)
            requires
                v <= 0x7f,
                v != 27,
        ;
    } else {
        assert(0xC0u8 | ((v >> 6u32) & 0x1Fu32) as u8 >= 0x80u8) by (bit_vector);
        assert(0xE0u8 | ((v >> 12u32) & 0x0Fu32) as u8 >= 0x80u8) by (bit_vector);
        assert(0xF0u8 | ((v >> 18u32) & 0x7u32) as u8 >= 0x80u8) by (bit_vector);
        assert(0x80u8 | (v & 0x3Fu32) as u8 >= 0x80u8) by (bit_vector);
        assert(0x80u8 | ((v >> 6u32) & 0x3Fu32) as u8 >= 0x80u8) by (bit_vector);
        assert(0x80u8 | ((v >> 12u32) & 0x3Fu32) as u8 >= 0x80u8) by (bit_vector);
    }
}

proof fn lemma_encode_has_no_escape_byte(s: Seq<char>)
    requires
        forall|i: int| 0 <= i < s.len() ==> #[trigger] s[i] != '\u{1b}',
    ensures
        forall|i: int| 0 <= i < encode_utf8(s).len() ==> #[trigger] encode_utf8(s)[i] != 27u8,
    decreases s.len(),
{
    if s.len() > 0 {
        lemma_encode_has_no_escape_byte(s.drop_first());
        lemma_scalar_has_no_escape_byte(s[0]);
        let a = vstd::utf8::encode_scalar(s[0] as u32);
        let b = encode_utf8(s.drop_first());
        assert(encode_utf8(s) == a + b);
        assert forall|i: int| 0 <= i < (a + b).len() implies #[trigger] (a + b)[i] != 27u8 by {
            if i < a.len() {
                assert((a + b)[i] == a[i]);
            } else {
                assert((a + b)[i] == b[i - a.len()]);
                assert(s.drop_first()[0] == s[1]);
            }
        }
        assert forall|j: int| 0 <= j < s.drop_first().len() implies #[trigger] s.drop_first()[j]
            != '\u{1b}' by {
            assert(s.drop_first()[j] == s[j + 1]);
        }
    }
}

/// A paste without bracketed paste mode never sends an escape byte, so a
/// clipboard cannot inject terminal escape sequences.
pub proof fn law_plain_paste_has_no_escape(text: Seq<char>)
    ensures
        forall|i: int| 0 <= i < paste_bytes(text, false).len() ==> #[trigger] paste_bytes(text, false)[i]
            != 27u8,
{
    lemma_without_escapes_has_none(text);
    lemma_encode_has_no_escape_byte(without_escapes(text));
}

} // verus!
