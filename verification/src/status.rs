//! Parsing of `git status --porcelain=v1 -z` and `git diff --numstat -z`
//! output, and the rules that combine them into the list of changed files.
use vstd::prelude::*;
use crate::text::{
    lossy_string, lowercase_of, parse_unsigned, parse_unsigned_chars, str_chars,
    string_from_chars, to_lowercase, trim_end_ws, trim_start_ws, trim_str, trimmed, utf8_lossy,
    is_white_space, ascii_bytes, ascii_chars_of, ascii_lower, law_ascii_decodes_to_itself,
};

verus! {

// ---------------------------------------------------------------------------
// changes
// ---------------------------------------------------------------------------

/// One changed file of the working tree.
#[derive(Debug)]
pub struct GitChange {
    /// The path, or `old -> new` for a rename or copy.
    pub path: String,
    /// The two status letters of the porcelain format.
    pub status_code: String,
    /// The lowercased path by which changes are listed.
    pub sort_key: String,
    pub additions: Option<u32>,
    pub deletions: Option<u32>,
}

pub ghost struct GitChangeView {
    pub path: Seq<char>,
    pub status_code: Seq<char>,
    pub sort_key: Seq<char>,
    pub additions: Option<u32>,
    pub deletions: Option<u32>,
}

impl View for GitChange {
    type V = GitChangeView;

    open spec fn view(&self) -> GitChangeView {
        GitChangeView {
            path: self.path@,
            status_code: self.status_code@,
            sort_key: self.sort_key@,
            additions: self.additions,
            deletions: self.deletions,
        }
    }
}

pub open spec fn changes_view(cs: Seq<GitChange>) -> Seq<GitChangeView> {
    cs.map_values(|c: GitChange| c@)
}

// ---------------------------------------------------------------------------
// NUL-separated fields
// ---------------------------------------------------------------------------

/// Index of the first NUL byte of `b` (`b.len()` if there is none).
pub open spec fn first_nul(b: Seq<u8>) -> nat
    decreases b.len(),
{
    if b.len() == 0 {
        0
    } else if b[0] == 0 {
        0
    } else {
        1 + first_nul(b.drop_first())
    }
}

/// The non-empty fields of `b` between NUL bytes, in order.
pub open spec fn nonempty_fields(b: Seq<u8>) -> Seq<Seq<u8>>
    decreases b.len(),
{
    let i = first_nul(b) as int;
    if i >= b.len() {
        if b.len() > 0 {
            seq![b]
        } else {
            Seq::empty()
        }
    } else {
        (if i > 0 {
            seq![b.subrange(0, i)]
        } else {
            Seq::<Seq<u8>>::empty()
        }) + nonempty_fields(b.subrange(i + 1, b.len() as int))
    }
}

proof fn lemma_first_nul(b: Seq<u8>, k: int)
    requires
        0 <= k <= b.len(),
        forall|j: int| 0 <= j < k ==> b[j] != 0,
        k == b.len() || b[k] == 0,
    ensures
        first_nul(b) == k,
    decreases b.len(),
{
    if b.len() > 0 && k > 0 {
        lemma_first_nul(b.drop_first(), k - 1);
    }
}

pub open spec fn byte_views(v: Seq<Vec<u8>>) -> Seq<Seq<u8>> {
    v.map_values(|x: Vec<u8>| x@)
}

/// Copies `bytes[start..end]`.
pub fn copy_range(bytes: &[u8], start: usize, end: usize) -> (r: Vec<u8>)
    requires
        start <= end <= bytes@.len(),
    ensures
        r@ == bytes@.subrange(start as int, end as int),
{
    let mut r: Vec<u8> = Vec::new();
    let mut i = start;
    while i < end
        invariant
            start <= i <= end <= bytes@.len(),
            r@ == bytes@.subrange(start as int, i as int),
        decreases end - i,
    {
        r.push(bytes[i]);
        i = i + 1;
    }
    r
}

/// Splits `bytes` at NUL bytes and keeps the non-empty fields.
pub fn split_nonempty_fields(bytes: &[u8]) -> (r: Vec<Vec<u8>>)
    ensures
        byte_views(r@) == nonempty_fields(bytes@),
{
    let mut out: Vec<Vec<u8>> = Vec::new();
    let mut start: usize = 0;
    let mut i: usize = 0;
    let ghost b = bytes@;
    assert(b.subrange(0, b.len() as int) =~= b);
    assert(byte_views(out@) =~= Seq::<Seq<u8>>::empty());
    assert(Seq::<Seq<u8>>::empty() + nonempty_fields(b) =~= nonempty_fields(b));
    while i < bytes.len()
        invariant
            b == bytes@,
            start <= i <= b.len(),
            forall|j: int| start <= j < i ==> b[j] != 0,
            byte_views(out@) + nonempty_fields(b.subrange(start as int, b.len() as int))
                == nonempty_fields(b),
        decreases b.len() - i,
    {
        if bytes[i] == 0 {
            let ghost rest = b.subrange(start as int, b.len() as int);
            proof {
                lemma_first_nul(rest, i - start);
                assert(rest.subrange(0, i - start) =~= b.subrange(start as int, i as int));
                assert(rest.subrange(i - start + 1, rest.len() as int) =~= b.subrange(
                    i + 1,
                    b.len() as int,
                ));
            }
            if i > start {
                let field = copy_range(bytes, start, i);
                let ghost before = out@;
                out.push(field);
                proof {
                    assert(byte_views(out@) =~= byte_views(before) + seq![field@]);
                }
            }
            start = i + 1;
            proof {
                assert(byte_views(out@) + nonempty_fields(b.subrange(start as int, b.len() as int))
                    =~= nonempty_fields(b));
            }
        }
        i = i + 1;
    }
    let ghost rest = b.subrange(start as int, b.len() as int);
    proof {
        lemma_first_nul(rest, rest.len() as int);
    }
    if start < bytes.len() {
        let field = copy_range(bytes, start, bytes.len());
        let ghost before = out@;
        out.push(field);
        proof {
            assert(byte_views(out@) =~= byte_views(before) + seq![field@]);
            assert(byte_views(out@) =~= nonempty_fields(b));
        }
    } else {
        proof {
            assert(rest =~= Seq::<u8>::empty());
            assert(byte_views(out@) =~= nonempty_fields(b));
        }
    }
    out
}

// ---------------------------------------------------------------------------
// porcelain status
// ---------------------------------------------------------------------------

pub open spec fn arrow() -> Seq<char> {
    seq![' ', '-', '>', ' ']
}

/// Whether a status record names a rename or a copy, whose new path comes in
/// the next field.
pub open spec fn is_rename_or_copy(entry: Seq<u8>) -> bool {
    entry[0] == 82u8 || entry[0] == 67u8
}

/// The changes that a list of porcelain fields describes: each record of at
/// least four bytes is a status code, a space and a path; a rename or copy
/// takes the following field as its new path.
pub open spec fn status_records(fs: Seq<Seq<u8>>) -> Seq<GitChangeView>
    decreases fs.len(),
{
    if fs.len() == 0 {
        Seq::empty()
    } else {
        let e = fs[0];
        if e.len() < 4 {
            status_records(fs.drop_first())
        } else {
            let status_code = utf8_lossy(e.subrange(0, 2));
            let path = utf8_lossy(e.subrange(3, e.len() as int));
            if is_rename_or_copy(e) {
                let new_path = if fs.len() > 1 {
                    utf8_lossy(fs[1])
                } else {
                    Seq::empty()
                };
                let rest = if fs.len() > 1 {
                    fs.subrange(2, fs.len() as int)
                } else {
                    Seq::empty()
                };
                seq![
                    GitChangeView {
                        path: path + arrow() + new_path,
                        status_code,
                        sort_key: lowercase_of(new_path),
                        additions: None,
                        deletions: None,
                    },
                ] + status_records(rest)
            } else {
                seq![
                    GitChangeView {
                        path,
                        status_code,
                        sort_key: lowercase_of(path),
                        additions: None,
                        deletions: None,
                    },
                ] + status_records(fs.drop_first())
            }
        }
    }
}

/// The change that a record other than a rename or copy describes.
pub open spec fn plain_change(e: Seq<u8>) -> GitChangeView {
    let path = utf8_lossy(e.subrange(3, e.len() as int));
    GitChangeView {
        path,
        status_code: utf8_lossy(e.subrange(0, 2)),
        sort_key: lowercase_of(path),
        additions: None,
        deletions: None,
    }
}

/// Without renames or copies, the changes are the records of at least four
/// bytes, in order, each read as its status code and path; shorter records
/// are skipped.
pub proof fn law_plain_records_in_order(fs: Seq<Seq<u8>>)
    requires
        forall|k: int| 0 <= k < fs.len() && (#[trigger] fs[k]).len() >= 4 ==> !is_rename_or_copy(fs[k]),
    ensures
        status_records(fs) == fs.filter(|e: Seq<u8>| e.len() >= 4).map_values(|e: Seq<u8>| plain_change(e)),
    decreases fs.len(),
{
    let pred = |e: Seq<u8>| e.len() >= 4;
    if fs.len() == 0 {
        reveal_with_fuel(Seq::filter, 1);
        assert(fs.filter(pred) =~= Seq::<Seq<u8>>::empty());
        assert(fs.filter(pred).map_values(|e: Seq<u8>| plain_change(e)) =~= Seq::<GitChangeView>::empty());
    } else {
        let rest = fs.drop_first();
        assert forall|k: int| 0 <= k < rest.len() && (#[trigger] rest[k]).len() >= 4 implies !is_rename_or_copy(rest[k]) by {
            assert(rest[k] == fs[k + 1]);
        }
        law_plain_records_in_order(rest);
        let head = seq![fs[0]];
        assert(head + rest =~= fs);
        Seq::filter_distributes_over_add(head, rest, pred);
        assert(head.drop_last() =~= Seq::<Seq<u8>>::empty());
        assert(head.drop_last().filter(pred) =~= Seq::<Seq<u8>>::empty());
        let hf = head.filter(pred);
        let rf = rest.filter(pred);
        reveal_with_fuel(Seq::filter, 2);
        assert(hf + rf == fs.filter(pred));
        assert((hf + rf).map_values(|e: Seq<u8>| plain_change(e)) =~= hf.map_values(|e: Seq<u8>| plain_change(e))
            + rf.map_values(|e: Seq<u8>| plain_change(e)));
        if fs[0].len() >= 4 {
            assert(hf =~= seq![fs[0]]);
            assert(hf.map_values(|e: Seq<u8>| plain_change(e)) =~= seq![plain_change(fs[0])]);
        } else {
            assert(hf =~= Seq::<Seq<u8>>::empty());
            assert(hf.map_values(|e: Seq<u8>| plain_change(e)) =~= Seq::<GitChangeView>::empty());
        }
    }
}

/// An ASCII record other than a rename or copy reads as its own bytes: the
/// first two as the status code, those from the fourth on as the path, and
/// the path in ASCII lowercase as the sort key.
pub proof fn law_ascii_plain_change(e: Seq<u8>)
    requires
        ascii_bytes(e),
        e.len() >= 4,
    ensures
        plain_change(e) == (GitChangeView {
            path: ascii_chars_of(e.subrange(3, e.len() as int)),
            status_code: ascii_chars_of(e.subrange(0, 2)),
            sort_key: ascii_chars_of(e.subrange(3, e.len() as int)).map_values(|c: char| ascii_lower(c)),
            additions: None,
            deletions: None,
        }),
{
    let p = e.subrange(3, e.len() as int);
    let c = e.subrange(0, 2);
    assert(ascii_bytes(p)) by {
        assert forall|i: int| 0 <= i < p.len() implies #[trigger] p[i] < 128 by {
            assert(p[i] == e[i + 3]);
        }
    }
    assert(ascii_bytes(c)) by {
        assert forall|i: int| 0 <= i < c.len() implies #[trigger] c[i] < 128 by {
            assert(c[i] == e[i]);
        }
    }
    law_ascii_decodes_to_itself(p);
    law_ascii_decodes_to_itself(c);
    let pc = ascii_chars_of(p);
    assert(vstd::utf8::is_ascii_chars(pc)) by {
        assert forall|i: int| 0 <= i < pc.len() implies '\0' <= #[trigger] pc[i] <= '\u{7f}' by {
            assert(pc[i] == p[i] as char);
        }
    }
}

fn lossy_range(bytes: &Vec<u8>, start: usize, end: usize) -> (r: String)
    requires
        start <= end <= bytes@.len(),
    ensures
        r@ == utf8_lossy(bytes@.subrange(start as int, end as int)),
{
    let part = copy_range(bytes.as_slice(), start, end);
    lossy_string(part.as_slice())
}

/// Parses `git status --porcelain=v1 -z` output. The record type is read
/// from the first byte of the record: the status code's first character is
/// `R` or `C` exactly when that byte is.
pub fn parse_status_entries(bytes: &[u8]) -> (r: Vec<GitChange>)
    ensures
        changes_view(r@) == status_records(nonempty_fields(bytes@)),
{
    let fields = split_nonempty_fields(bytes);
    let ghost fs = byte_views(fields@);
    let mut changes: Vec<GitChange> = Vec::new();
    let mut j: usize = 0;
    assert(fs.subrange(0, fs.len() as int) =~= fs);
    assert(changes_view(changes@) =~= Seq::<GitChangeView>::empty());
    assert(Seq::<GitChangeView>::empty() + status_records(fs) =~= status_records(fs));
    while j < fields.len()
        invariant
            fs == byte_views(fields@),
            fs == nonempty_fields(bytes@),
            j <= fields@.len(),
            changes_view(changes@) + status_records(fs.subrange(j as int, fs.len() as int))
                == status_records(fs),
        decreases fields@.len() - j,
    {
        let ghost rest = fs.subrange(j as int, fs.len() as int);
        let entry = &fields[j];
        assert(rest[0] == entry@);
        assert(rest.drop_first() =~= fs.subrange(j + 1, fs.len() as int));
        if entry.len() < 4 {
            j = j + 1;
            continue;
        }
        let status_code = lossy_range(entry, 0, 2);
        let path = lossy_range(entry, 3, entry.len());
        let ghost before = changes@;
        if entry[0] == 82u8 || entry[0] == 67u8 {
            let new_path = if j + 1 < fields.len() {
                assert(rest[1] == fields@[j + 1]@);
                lossy_string(fields[j + 1].as_slice())
            } else {
                String::new()
            };
            let mut chars = str_chars(path.as_str());
            chars.push(' ');
            chars.push('-');
            chars.push('>');
            chars.push(' ');
            let new_chars = str_chars(new_path.as_str());
            let ghost c0 = chars@;
            let mut k: usize = 0;
            while k < new_chars.len()
                invariant
                    k <= new_chars@.len(),
                    chars@ == c0 + new_chars@.subrange(0, k as int),
                decreases new_chars@.len() - k,
            {
                chars.push(new_chars[k]);
                k = k + 1;
            }
            let display = string_from_chars(chars.as_slice());
            let sort_key = to_lowercase(new_path.as_str());
            changes.push(
                GitChange {
                    path: display,
                    status_code,
                    sort_key,
                    additions: None,
                    deletions: None,
                },
            );
            proof {
                assert(new_chars@.subrange(0, new_chars@.len() as int) =~= new_chars@);
                assert(chars@ =~= path@ + arrow() + new_path@);
                assert(changes_view(changes@) =~= changes_view(before) + seq![changes@.last()@]);
                if j + 1 < fields@.len() {
                    assert(rest.subrange(2, rest.len() as int) =~= fs.subrange(
                        j + 2,
                        fs.len() as int,
                    ));
                } else {
                    assert(fs.subrange(fs.len() as int, fs.len() as int) =~= Seq::<
                        Seq<u8>,
                    >::empty());
                }
            }
            j = if j + 1 < fields.len() {
                j + 2
            } else {
                j + 1
            };
        } else {
            let sort_key = to_lowercase(path.as_str());
            changes.push(
                GitChange { path, status_code, sort_key, additions: None, deletions: None },
            );
            proof {
                assert(changes_view(changes@) =~= changes_view(before) + seq![changes@.last()@]);
            }
            j = j + 1;
        }
    }
    proof {
        assert(fs.subrange(fs.len() as int, fs.len() as int) =~= Seq::<Seq<u8>>::empty());
        assert(changes_view(changes@) + Seq::<GitChangeView>::empty() =~= changes_view(changes@));
    }
    changes
}

// ---------------------------------------------------------------------------
// the numstat map
// ---------------------------------------------------------------------------

/// Lines added and deleted in a file; `None` where Git gave no count
/// (binary files).
pub type LineStat = (Option<u32>, Option<u32>);

/// The line statistics of files, keyed by path; each path occurs once.
pub struct NumstatMap {
    entries: Vec<(String, LineStat)>,
}

pub open spec fn entries_map(es: Seq<(String, LineStat)>) -> Map<Seq<char>, LineStat>
    decreases es.len(),
{
    if es.len() == 0 {
        Map::empty()
    } else {
        entries_map(es.drop_last()).insert(es.last().0@, es.last().1)
    }
}

pub open spec fn keys_unique(es: Seq<(String, LineStat)>) -> bool {
    forall|i: int, j: int| 0 <= i < j < es.len() ==> es[i].0@ != es[j].0@
}

impl View for NumstatMap {
    type V = Map<Seq<char>, LineStat>;

    closed spec fn view(&self) -> Map<Seq<char>, LineStat> {
        entries_map(self.entries@)
    }
}

proof fn lemma_map_has(es: Seq<(String, LineStat)>, i: int)
    requires
        keys_unique(es),
        0 <= i < es.len(),
    ensures
        entries_map(es).contains_key(es[i].0@),
        entries_map(es)[es[i].0@] == es[i].1,
    decreases es.len(),
{
    if i < es.len() - 1 {
        lemma_map_has(es.drop_last(), i);
    }
}

proof fn lemma_map_lacks(es: Seq<(String, LineStat)>, k: Seq<char>)
    requires
        forall|i: int| 0 <= i < es.len() ==> es[i].0@ != k,
    ensures
        !entries_map(es).contains_key(k),
    decreases es.len(),
{
    if es.len() > 0 {
        lemma_map_lacks(es.drop_last(), k);
    }
}

proof fn lemma_map_update(es: Seq<(String, LineStat)>, i: int, v: LineStat)
    requires
        keys_unique(es),
        0 <= i < es.len(),
    ensures
        entries_map(es.update(i, (es[i].0, v))) == entries_map(es).insert(es[i].0@, v),
    decreases es.len(),
{
    let es2 = es.update(i, (es[i].0, v));
    if i == es.len() - 1 {
        assert(es2.drop_last() =~= es.drop_last());
        assert(entries_map(es2) =~= entries_map(es).insert(es[i].0@, v));
    } else {
        assert(es2.drop_last() =~= es.drop_last().update(i, (es[i].0, v)));
        lemma_map_update(es.drop_last(), i, v);
        assert(entries_map(es2) =~= entries_map(es).insert(es[i].0@, v));
    }
}

/// The statistics a path has before any line of it is merged.
pub open spec fn stat_or_zero(m: Map<Seq<char>, LineStat>, path: Seq<char>) -> LineStat {
    if m.contains_key(path) {
        m[path]
    } else {
        (Some(0u32), Some(0u32))
    }
}

/// Whether adding `adds` and `dels` to the statistics of `path` stays within
/// `u32`.
pub open spec fn stat_fits(
    m: Map<Seq<char>, LineStat>,
    path: Seq<char>,
    adds: Option<u32>,
    dels: Option<u32>,
) -> bool {
    let cur = stat_or_zero(m, path);
    &&& match (cur.0, adds) {
        (Some(e), Some(a)) => e + a <= u32::MAX,
        _ => true,
    }
    &&& match (cur.1, dels) {
        (Some(e), Some(d)) => e + d <= u32::MAX,
        _ => true,
    }
}

/// A count plus another; unknown when either is unknown.
pub open spec fn add_count(cur: Option<u32>, more: Option<u32>) -> Option<u32> {
    match (cur, more) {
        (Some(e), Some(a)) => Some((e + a) as u32),
        _ => None,
    }
}

/// The map after merging one numstat line for `path`.
pub open spec fn merge_stat(
    m: Map<Seq<char>, LineStat>,
    path: Seq<char>,
    adds: Option<u32>,
    dels: Option<u32>,
) -> Map<Seq<char>, LineStat> {
    let cur = stat_or_zero(m, path);
    m.insert(path, (add_count(cur.0, adds), add_count(cur.1, dels)))
}

impl NumstatMap {
    #[verifier::type_invariant]
    spec fn inv(self) -> bool {
        keys_unique(self.entries@)
    }

    /// An empty map.
    pub fn new() -> (r: Self)
        ensures
            r@ == Map::<Seq<char>, LineStat>::empty(),
    {
        NumstatMap { entries: Vec::new() }
    }

    /// The number of paths.
    pub fn len(&self) -> (r: usize)
        ensures
            r == self@.len(),
    {
        proof {
            use_type_invariant(self);
            lemma_entries_len(self.entries@);
        }
        self.entries.len()
    }

    fn position(&self, path: &String) -> (r: Option<usize>)
        ensures
            match r {
                Some(i) => i < self.entries@.len() && self.entries@[i as int].0@ == path@,
                None => forall|i: int|
                    0 <= i < self.entries@.len() ==> self.entries@[i].0@ != path@,
            },
    {
        let mut i: usize = 0;
        while i < self.entries.len()
            invariant
                i <= self.entries@.len(),
                forall|j: int| 0 <= j < i ==> self.entries@[j].0@ != path@,
            decreases self.entries@.len() - i,
        {
            if self.entries[i].0 == *path {
                return Some(i);
            }
            i = i + 1;
        }
        None
    }

    /// The statistics of `path`, if it has any.
    pub fn get(&self, path: &str) -> (r: Option<&LineStat>)
        ensures
            match r {
                Some(v) => self@.contains_key(path@) && *v == self@[path@],
                None => !self@.contains_key(path@),
            },
    {
        proof {
            use_type_invariant(self);
        }
        let key = path.to_owned();
        match self.position(&key) {
            Some(i) => {
                proof {
                    lemma_map_has(self.entries@, i as int);
                }
                Some(&self.entries[i].1)
            },
            None => {
                proof {
                    lemma_map_lacks(self.entries@, path@);
                }
                None
            },
        }
    }

    /// A copy of the map.
    pub fn duplicate(&self) -> (r: Self)
        ensures
            r@ == self@,
    {
        proof {
            use_type_invariant(self);
        }
        let mut entries: Vec<(String, LineStat)> = Vec::new();
        let mut i: usize = 0;
        while i < self.entries.len()
            invariant
                i <= self.entries@.len(),
                entries@.len() == i,
                forall|j: int| 0 <= j < i ==> #[trigger] entries@[j].0@ == self.entries@[j].0@
                    && entries@[j].1 == self.entries@[j].1,
            decreases self.entries@.len() - i,
        {
            let name = self.entries[i].0.clone();
            entries.push((name, self.entries[i].1));
            i = i + 1;
        }
        proof {
            lemma_entries_map_same(entries@, self.entries@);
        }
        NumstatMap { entries }
    }

    /// Merges one numstat line when the sums stay within `u32`; reports
    /// whether it did (the map is unchanged otherwise).
    pub fn add_stat(&mut self, path: String, adds: Option<u32>, dels: Option<u32>) -> (r: bool)
        ensures
            r == stat_fits(old(self)@, path@, adds, dels),
            r ==> final(self)@ == merge_stat(old(self)@, path@, adds, dels),
            !r ==> final(self)@ == old(self)@,
    {
        proof {
            use_type_invariant(&*self);
        }
        match self.position(&path) {
            Some(i) => {
                let cur = self.entries[i].1;
                proof {
                    lemma_map_has(self.entries@, i as int);
                    assert(stat_or_zero(old(self)@, path@) == cur);
                }
                let fits_a = match (cur.0, adds) {
                    (Some(e), Some(x)) => x <= u32::MAX - e,
                    _ => true,
                };
                let fits_d = match (cur.1, dels) {
                    (Some(e), Some(x)) => x <= u32::MAX - e,
                    _ => true,
                };
                if !fits_a || !fits_d {
                    return false;
                }
                proof {
                    assert(stat_fits(old(self)@, path@, adds, dels));
                }
                let a = match (cur.0, adds) {
                    (Some(e), Some(x)) => Some(e + x),
                    _ => None,
                };
                let d = match (cur.1, dels) {
                    (Some(e), Some(x)) => Some(e + x),
                    _ => None,
                };
                let ghost es = self.entries@;
                let name = self.entries[i].0.clone();
                let mut entries: Vec<(String, LineStat)> = Vec::new();
                std::mem::swap(&mut entries, &mut self.entries);
                entries.set(i, (name, (a, d)));
                proof {
                    assert(entries@ =~= es.update(i as int, (es[i as int].0, (a, d))));
                    assert(keys_unique(entries@));
                }
                self.entries = entries;
                proof {
                    assert(self.entries@ =~= es.update(i as int, (es[i as int].0, (a, d))));
                    lemma_map_update(es, i as int, (a, d));
                    assert(self.entries@[i as int].0@ == es[i as int].0@);
                }
                true
            },
            None => {
                proof {
                    lemma_map_lacks(self.entries@, path@);
                    assert(stat_or_zero(old(self)@, path@) == (Some(0u32), Some(0u32)));
                    assert(stat_fits(old(self)@, path@, adds, dels));
                }
                let ghost es = self.entries@;
                let a = match adds {
                    Some(x) => Some(x),
                    None => None,
                };
                let d = match dels {
                    Some(x) => Some(x),
                    None => None,
                };
                let mut entries: Vec<(String, LineStat)> = Vec::new();
                std::mem::swap(&mut entries, &mut self.entries);
                entries.push((path, (a, d)));
                proof {
                    assert(entries@.drop_last() =~= es);
                    assert(keys_unique(entries@));
                }
                self.entries = entries;
                true
            },
        }
    }
}

proof fn lemma_entries_map_same(a: Seq<(String, LineStat)>, b: Seq<(String, LineStat)>)
    requires
        a.len() == b.len(),
        forall|j: int| 0 <= j < a.len() ==> #[trigger] a[j].0@ == b[j].0@ && a[j].1 == b[j].1,
    ensures
        entries_map(a) == entries_map(b),
        keys_unique(b) ==> keys_unique(a),
    decreases a.len(),
{
    if a.len() > 0 {
        lemma_entries_map_same(a.drop_last(), b.drop_last());
        assert(a.last().0@ == b.last().0@);
    }
}

proof fn lemma_entries_len(es: Seq<(String, LineStat)>)
    requires
        keys_unique(es),
    ensures
        entries_map(es).len() == es.len(),
        entries_map(es).dom().finite(),
    decreases es.len(),
{
    if es.len() > 0 {
        lemma_entries_len(es.drop_last());
        lemma_map_lacks(es.drop_last(), es.last().0@);
    }
}

// ---------------------------------------------------------------------------
// numstat output
// ---------------------------------------------------------------------------

/// Index of the first `c` in `s` (`s.len()` if there is none).
pub open spec fn index_of_char(s: Seq<char>, c: char) -> nat
    decreases s.len(),
{
    if s.len() == 0 {
        0
    } else if s[0] == c {
        0
    } else {
        1 + index_of_char(s.drop_first(), c)
    }
}

/// `s` split at every `sep`, as `str::split` does (an empty string gives one
/// empty part).
pub open spec fn split_on(s: Seq<char>, sep: char) -> Seq<Seq<char>>
    decreases s.len(),
{
    let i = index_of_char(s, sep) as int;
    if i >= s.len() {
        seq![s]
    } else {
        seq![s.subrange(0, i)] + split_on(s.subrange(i + 1, s.len() as int), sep)
    }
}

pub(crate) proof fn lemma_index_of_char(s: Seq<char>, c: char, k: int)
    requires
        0 <= k <= s.len(),
        forall|j: int| 0 <= j < k ==> s[j] != c,
        k == s.len() || s[k] == c,
    ensures
        index_of_char(s, c) == k,
    decreases s.len(),
{
    if s.len() > 0 && k > 0 {
        lemma_index_of_char(s.drop_first(), c, k - 1);
    }
}

pub open spec fn char_views(v: Seq<Vec<char>>) -> Seq<Seq<char>> {
    v.map_values(|x: Vec<char>| x@)
}

/// Copies `chars[start..end]`.
pub fn copy_chars(chars: &[char], start: usize, end: usize) -> (r: Vec<char>)
    requires
        start <= end <= chars@.len(),
    ensures
        r@ == chars@.subrange(start as int, end as int),
{
    let mut r: Vec<char> = Vec::new();
    let mut i = start;
    while i < end
        invariant
            start <= i <= end <= chars@.len(),
            r@ == chars@.subrange(start as int, i as int),
        decreases end - i,
    {
        r.push(chars[i]);
        i = i + 1;
    }
    r
}

/// Splits `chars` at every `sep`.
pub fn split_chars(chars: &[char], sep: char) -> (r: Vec<Vec<char>>)
    ensures
        char_views(r@) == split_on(chars@, sep),
{
    let mut out: Vec<Vec<char>> = Vec::new();
    let mut start: usize = 0;
    let mut i: usize = 0;
    let ghost s = chars@;
    assert(s.subrange(0, s.len() as int) =~= s);
    assert(char_views(out@) + split_on(s, sep) =~= split_on(s, sep));
    while i < chars.len()
        invariant
            s == chars@,
            start <= i <= s.len(),
            forall|j: int| start <= j < i ==> s[j] != sep,
            char_views(out@) + split_on(s.subrange(start as int, s.len() as int), sep) == split_on(
                s,
                sep,
            ),
        decreases s.len() - i,
    {
        if chars[i] == sep {
            let ghost rest = s.subrange(start as int, s.len() as int);
            proof {
                lemma_index_of_char(rest, sep, i - start);
                assert(rest.subrange(0, i - start) =~= s.subrange(start as int, i as int));
                assert(rest.subrange(i - start + 1, rest.len() as int) =~= s.subrange(
                    i + 1,
                    s.len() as int,
                ));
            }
            let part = copy_chars(chars, start, i);
            let ghost before = out@;
            out.push(part);
            start = i + 1;
            proof {
                assert(char_views(out@) =~= char_views(before) + seq![part@]);
                assert(char_views(out@) + split_on(s.subrange(start as int, s.len() as int), sep)
                    =~= split_on(s, sep));
            }
        }
        i = i + 1;
    }
    let ghost rest = s.subrange(start as int, s.len() as int);
    proof {
        lemma_index_of_char(rest, sep, rest.len() as int);
    }
    let part = copy_chars(chars, start, chars.len());
    let ghost before = out@;
    out.push(part);
    proof {
        assert(char_views(out@) =~= char_views(before) + seq![part@]);
        assert(char_views(out@) =~= split_on(s, sep));
    }
    out
}

/// The three tab-separated fields of a numstat line (added, deleted, path),
/// the last one holding the rest of the line; none without a tab. A line
/// with one tab has an empty path: it heads a rename, whose tab before the
/// empty path field was trimmed away with the line's whitespace.
pub open spec fn numstat_fields(line: Seq<char>) -> Option<(Seq<char>, Seq<char>, Seq<char>)> {
    let t1 = index_of_char(line, '\t') as int;
    if t1 >= line.len() {
        None
    } else {
        let r = line.subrange(t1 + 1, line.len() as int);
        let t2 = index_of_char(r, '\t') as int;
        if t2 >= r.len() {
            Some((line.subrange(0, t1), r, Seq::empty()))
        } else {
            Some((line.subrange(0, t1), r.subrange(0, t2), r.subrange(t2 + 1, r.len() as int)))
        }
    }
}

/// A count as `str::parse::<u32>` reads it; `None` for `-` and the like.
pub open spec fn parse_count(s: Seq<char>) -> Option<u32> {
    match parse_unsigned(s, u32::MAX as nat) {
        Some(v) => Some(v as u32),
        None => None,
    }
}

/// One parsed numstat line: the path and its counts.
pub type NumstatLine = (String, Option<u32>, Option<u32>);

pub open spec fn numstat_line_view(l: NumstatLine) -> (Seq<char>, Option<u32>, Option<u32>) {
    (l.0@, l.1, l.2)
}

/// The lines of `git diff --numstat -z` output, given as its NUL-separated
/// parts: each non-blank (trimmed) part with a tab is a line; an empty path
/// means a rename, whose new path is the part after the next one.
pub open spec fn numstat_records(parts: Seq<Seq<char>>) -> Seq<(Seq<char>, Option<u32>, Option<u32>)>
    decreases parts.len(),
{
    if parts.len() == 0 {
        Seq::empty()
    } else {
        let line = trimmed(parts[0]);
        if line.len() == 0 {
            numstat_records(parts.drop_first())
        } else {
            match numstat_fields(line) {
                None => numstat_records(parts.drop_first()),
                Some(f) => {
                    let adds = parse_count(f.0);
                    let dels = parse_count(f.1);
                    if f.2.len() == 0 {
                        let new_path = if parts.len() > 2 {
                            parts[2]
                        } else {
                            Seq::empty()
                        };
                        let rest = if parts.len() >= 3 {
                            parts.subrange(3, parts.len() as int)
                        } else {
                            Seq::empty()
                        };
                        (if new_path.len() > 0 {
                            seq![(new_path, adds, dels)]
                        } else {
                            Seq::empty()
                        }) + numstat_records(rest)
                    } else {
                        seq![(f.2, adds, dels)] + numstat_records(parts.drop_first())
                    }
                },
            }
        }
    }
}

/// Finds `c` in `chars[from..]`.
fn find_char(chars: &Vec<char>, from: usize, c: char) -> (r: usize)
    requires
        from <= chars@.len(),
    ensures
        from <= r <= chars@.len(),
        r == from + index_of_char(chars@.subrange(from as int, chars@.len() as int), c),
{
    let mut i = from;
    while i < chars.len() && chars[i] != c
        invariant
            from <= i <= chars@.len(),
            forall|j: int| from <= j < i ==> chars@[j] != c,
        decreases chars@.len() - i,
    {
        i = i + 1;
    }
    proof {
        let sub = chars@.subrange(from as int, chars@.len() as int);
        lemma_index_of_char(sub, c, i - from);
    }
    i
}

fn parse_count_chars(chars: &Vec<char>, start: usize, end: usize) -> (r: Option<u32>)
    requires
        start <= end <= chars@.len(),
    ensures
        r == parse_count(chars@.subrange(start as int, end as int)),
{
    let part = copy_chars(chars.as_slice(), start, end);
    match parse_unsigned_chars(part.as_slice(), u32::MAX as u64) {
        Some(v) => Some(v as u32),
        None => None,
    }
}

/// Parses the lines of `git diff --numstat -z` output.
#[verifier::rlimit(40)]
#[verifier::spinoff_prover]
pub fn parse_numstat_lines(text: &str) -> (r: Vec<NumstatLine>)
    ensures
        r@.map_values(|l: NumstatLine| numstat_line_view(l)) == numstat_records(
            split_on(text@, '\0'),
        ),
{
    let chars = str_chars(text);
    let parts = split_chars(chars.as_slice(), '\0');
    let ghost ps = char_views(parts@);
    let ghost all = numstat_records(ps);
    let mut out: Vec<NumstatLine> = Vec::new();
    let mut i: usize = 0;
    assert(ps.subrange(0, ps.len() as int) =~= ps);
    assert(out@.map_values(|l: NumstatLine| numstat_line_view(l)) + all =~= all);
    while i < parts.len()
        invariant
            ps == char_views(parts@),
            all == numstat_records(ps),
            i <= ps.len(),
            out@.map_values(|l: NumstatLine| numstat_line_view(l)) + numstat_records(
                ps.subrange(i as int, ps.len() as int),
            ) == all,
        decreases ps.len() - i,
    {
        let ghost rest = ps.subrange(i as int, ps.len() as int);
        let ghost before = out@.map_values(|l: NumstatLine| numstat_line_view(l));
        assert(rest[0] == parts@[i as int]@);
        assert(rest.drop_first() =~= ps.subrange(i + 1, ps.len() as int));
        let raw = string_from_chars(parts[i].as_slice());
        let line_str = trim_str(raw.as_str());
        let line = str_chars(line_str.as_str());
        if line.len() == 0 {
            i = i + 1;
            continue;
        }
        let t1 = find_char(&line, 0, '\t');
        assert(line@.subrange(0, line@.len() as int) =~= line@);
        if t1 >= line.len() {
            i = i + 1;
            continue;
        }
        let t2 = find_char(&line, t1 + 1, '\t');
        let ghost r = line@.subrange(t1 + 1, line@.len() as int);
        proof {
            if t2 < line.len() {
                assert(r.subrange(0, t2 - t1 - 1) =~= line@.subrange(t1 + 1, t2 as int));
                assert(r.subrange(t2 - t1, r.len() as int) =~= line@.subrange(
                    t2 + 1,
                    line@.len() as int,
                ));
            }
        }
        let dels_end = if t2 < line.len() {
            t2
        } else {
            line.len()
        };
        let adds = parse_count_chars(&line, 0, t1);
        let dels = parse_count_chars(&line, t1 + 1, dels_end);
        if t2 >= line.len() || t2 + 1 == line.len() {
            // a rename: the old path, then the new one
            let new_path: Vec<char> = if parts.len() - i > 2 {
                assert(rest[2] == parts@[i + 2]@);
                copy_chars(parts[i + 2].as_slice(), 0, parts[i + 2].len())
            } else {
                Vec::new()
            };
            proof {
                if i + 2 < parts.len() {
                    assert(parts@[i + 2]@.subrange(0, parts@[i + 2]@.len() as int)
                        =~= parts@[i + 2]@);
                }
                if t2 < line.len() {
                    assert(line@.subrange(t2 + 1, line@.len() as int) =~= Seq::<char>::empty());
                }
            }
            if new_path.len() > 0 {
                out.push((string_from_chars(new_path.as_slice()), adds, dels));
            }
            proof {
                if rest.len() >= 3 {
                    assert(rest.subrange(3, rest.len() as int) =~= ps.subrange(
                        i + 3,
                        ps.len() as int,
                    ));
                }
            }
            i = if parts.len() - i >= 3 {
                i + 3
            } else {
                parts.len()
            };
            proof {
                assert(ps.subrange(ps.len() as int, ps.len() as int) =~= Seq::<Seq<char>>::empty());
                assert(out@.map_values(|l: NumstatLine| numstat_line_view(l)) + numstat_records(
                    ps.subrange(i as int, ps.len() as int),
                ) =~= all);
            }
        } else {
            let path = copy_chars(line.as_slice(), t2 + 1, line.len());
            out.push((string_from_chars(path.as_slice()), adds, dels));
            i = i + 1;
            proof {
                assert(out@.map_values(|l: NumstatLine| numstat_line_view(l)) =~= before + seq![
                    (path@, adds, dels),
                ]);
            }
        }
    }
    proof {
        assert(ps.subrange(ps.len() as int, ps.len() as int) =~= Seq::<Seq<char>>::empty());
        assert(out@.map_values(|l: NumstatLine| numstat_line_view(l)) + Seq::empty()
            =~= out@.map_values(|l: NumstatLine| numstat_line_view(l)));
    }
    out
}

/// The map after merging the numstat lines in order.
pub open spec fn merge_all(
    m: Map<Seq<char>, LineStat>,
    recs: Seq<(Seq<char>, Option<u32>, Option<u32>)>,
) -> Map<Seq<char>, LineStat>
    decreases recs.len(),
{
    if recs.len() == 0 {
        m
    } else {
        merge_all(merge_stat(m, recs[0].0, recs[0].1, recs[0].2), recs.drop_first())
    }
}

/// Whether every sum made while merging the lines stays within `u32`.
pub open spec fn merge_all_fits(
    m: Map<Seq<char>, LineStat>,
    recs: Seq<(Seq<char>, Option<u32>, Option<u32>)>,
) -> bool
    decreases recs.len(),
{
    if recs.len() == 0 {
        true
    } else {
        stat_fits(m, recs[0].0, recs[0].1, recs[0].2) && merge_all_fits(
            merge_stat(m, recs[0].0, recs[0].1, recs[0].2),
            recs.drop_first(),
        )
    }
}

/// Merges numstat lines into `map`, all or none: when a sum would leave
/// `u32` the map is left unchanged and the answer is `false`.
pub fn merge_numstat_lines(lines: &Vec<NumstatLine>, map: &mut NumstatMap) -> (r: bool)
    ensures
        r == merge_all_fits(old(map)@, lines@.map_values(|l: NumstatLine| numstat_line_view(l))),
        r ==> final(map)@ == merge_all(
            old(map)@,
            lines@.map_values(|l: NumstatLine| numstat_line_view(l)),
        ),
        !r ==> final(map)@ == old(map)@,
{
    let ghost recs = lines@.map_values(|l: NumstatLine| numstat_line_view(l));
    let mut work = map.duplicate();
    let mut i: usize = 0;
    assert(recs.subrange(0, recs.len() as int) =~= recs);
    while i < lines.len()
        invariant
            recs == lines@.map_values(|l: NumstatLine| numstat_line_view(l)),
            i <= recs.len(),
            merge_all_fits(old(map)@, recs) == merge_all_fits(
                work@,
                recs.subrange(i as int, recs.len() as int),
            ),
            merge_all(old(map)@, recs) == merge_all(work@, recs.subrange(i as int, recs.len() as int)),
            map@ == old(map)@,
        decreases recs.len() - i,
    {
        let ghost rest = recs.subrange(i as int, recs.len() as int);
        assert(rest[0] == numstat_line_view(lines@[i as int]));
        assert(rest.drop_first() =~= recs.subrange(i + 1, recs.len() as int));
        let path = lines[i].0.clone();
        if !work.add_stat(path, lines[i].1, lines[i].2) {
            return false;
        }
        i = i + 1;
    }
    *map = work;
    true
}

/// Parses `git diff --numstat -z` output and merges its lines into `map`:
/// the counts of a path seen before are added to (an unknown count stays
/// unknown). Output whose sums would leave `u32` is not merged, and the
/// answer is `false`.
pub fn parse_numstat_output(bytes: &[u8], map: &mut NumstatMap) -> (r: bool)
    ensures
        ({
            let recs = numstat_records(split_on(utf8_lossy(bytes@), '\0'));
            &&& r == merge_all_fits(old(map)@, recs)
            &&& r ==> final(map)@ == merge_all(old(map)@, recs)
            &&& !r ==> final(map)@ == old(map)@
        }),
{
    let text = lossy_string(bytes);
    let lines = parse_numstat_lines(text.as_str());
    merge_numstat_lines(&lines, map)
}

/// Whether `s` holds neither a tab nor a NUL.
pub open spec fn no_tab_or_nul(s: Seq<char>) -> bool {
    forall|j: int| 0 <= j < s.len() ==> #[trigger] s[j] != '\t' && s[j] != '\0'
}

/// One numstat record, `adds\tdels\tpath` and a NUL, whose fields hold no
/// tab or NUL, which starts and ends with no whitespace, and whose path is
/// not empty, is read as exactly that path with its two counts.
pub proof fn law_single_numstat_record(a: Seq<char>, d: Seq<char>, p: Seq<char>)
    requires
        no_tab_or_nul(a),
        no_tab_or_nul(d),
        no_tab_or_nul(p),
        a.len() > 0,
        !is_white_space(a[0]),
        p.len() > 0,
        !is_white_space(p.last()),
    ensures
        numstat_records(split_on(a + seq!['\t'] + d + seq!['\t'] + p + seq!['\0'], '\0')) == seq![
            (p, parse_count(a), parse_count(d)),
        ],
{
    let r = d + seq!['\t'] + p;
    let line = a + seq!['\t'] + r;
    let text = line + seq!['\0'];
    assert(a + seq!['\t'] + d + seq!['\t'] + p + seq!['\0'] =~= text);
    assert forall|j: int| 0 <= j < r.len() implies r[j] != '\0' by {
        if j < d.len() {
            assert(r[j] == d[j]);
        } else if j > d.len() {
            assert(r[j] == p[j - d.len() - 1]);
        }
    }
    assert forall|j: int| 0 <= j < line.len() implies text[j] != '\0' by {
        assert(text[j] == line[j]);
        if j < a.len() {
            assert(line[j] == a[j]);
        } else if j > a.len() {
            assert(line[j] == r[j - a.len() - 1]);
        }
    }
    lemma_index_of_char(text, '\0', line.len() as int);
    assert(text.subrange(0, line.len() as int) =~= line);
    let tail = text.subrange(line.len() as int + 1, text.len() as int);
    assert(tail =~= Seq::<char>::empty());
    assert(index_of_char(tail, '\0') == 0);
    assert(split_on(tail, '\0') == seq![tail]);
    let parts = split_on(text, '\0');
    assert(parts =~= seq![line, Seq::<char>::empty()]);
    // the record has no edge whitespace
    assert(line[0] == a[0]);
    assert(trim_start_ws(line) == line);
    assert(line.last() == p.last());
    assert(trim_end_ws(line) == line);
    assert(trimmed(line) == line);
    // its fields
    assert forall|j: int| 0 <= j < a.len() implies line[j] != '\t' by {
        assert(line[j] == a[j]);
    }
    lemma_index_of_char(line, '\t', a.len() as int);
    assert(line.subrange(a.len() as int + 1, line.len() as int) =~= r);
    assert forall|j: int| 0 <= j < d.len() implies r[j] != '\t' by {
        assert(r[j] == d[j]);
    }
    lemma_index_of_char(r, '\t', d.len() as int);
    assert(line.subrange(0, a.len() as int) =~= a);
    assert(r.subrange(0, d.len() as int) =~= d);
    assert(r.subrange(d.len() as int + 1, r.len() as int) =~= p);
    assert(numstat_fields(line) == Some((a, d, p)));
    // the empty part after the NUL gives nothing
    let rest = parts.drop_first();
    assert(rest =~= seq![Seq::<char>::empty()]);
    assert(trimmed(Seq::<char>::empty()) =~= Seq::<char>::empty());
    assert(rest.drop_first() =~= Seq::<Seq<char>>::empty());
    assert(numstat_records(rest.drop_first()) =~= Seq::<(Seq<char>, Option<u32>, Option<u32>)>::empty());
    assert(trimmed(rest[0]).len() == 0);
    assert(numstat_records(rest) =~= Seq::<(Seq<char>, Option<u32>, Option<u32>)>::empty());
    assert(seq![(p, parse_count(a), parse_count(d))] + numstat_records(rest) =~= seq![
        (p, parse_count(a), parse_count(d)),
    ]);
}

// ---------------------------------------------------------------------------
// combining status and numstat
// ---------------------------------------------------------------------------

/// Whether `s` holds ` -> ` at `i`.
pub open spec fn arrow_at(s: Seq<char>, i: int) -> bool {
    0 <= i && i + 4 <= s.len() && s.subrange(i, i + 4) == arrow()
}

/// Index of the first ` -> ` in `s` (`s.len()` if there is none).
pub open spec fn first_arrow(s: Seq<char>) -> nat
    decreases s.len(),
{
    if s.len() < 4 {
        s.len()
    } else if s.subrange(0, 4) == arrow() {
        0
    } else {
        1 + first_arrow(s.drop_first())
    }
}

/// What follows the last ` -> ` of `s`; `s` itself when it has none.
pub open spec fn after_last_arrow(s: Seq<char>) -> Seq<char>
    decreases s.len(),
{
    let i = first_arrow(s) as int;
    if i + 4 <= s.len() {
        after_last_arrow(s.subrange(i + 4, s.len() as int))
    } else {
        s
    }
}

proof fn lemma_first_arrow_found(s: Seq<char>, k: int)
    requires
        arrow_at(s, k),
        forall|j: int| 0 <= j < k ==> !arrow_at(s, j),
    ensures
        first_arrow(s) == k,
    decreases s.len(),
{
    if k > 0 {
        let t = s.drop_first();
        assert forall|j: int| 0 <= j < k - 1 implies !arrow_at(t, j) by {
            assert(!arrow_at(s, j + 1));
            assert(t.subrange(j, j + 4) =~= s.subrange(j + 1, j + 5));
        }
        assert(t.subrange(k - 1, k + 3) =~= s.subrange(k, k + 4));
        assert(!arrow_at(s, 0));
        lemma_first_arrow_found(t, k - 1);
    }
}

proof fn lemma_first_arrow_none(s: Seq<char>)
    requires
        forall|j: int| 0 <= j ==> !arrow_at(s, j),
    ensures
        first_arrow(s) == s.len(),
    decreases s.len(),
{
    if s.len() >= 4 {
        let t = s.drop_first();
        assert forall|j: int| 0 <= j implies !arrow_at(t, j) by {
            assert(!arrow_at(s, j + 1));
            if j + 4 <= t.len() {
                assert(t.subrange(j, j + 4) =~= s.subrange(j + 1, j + 5));
            }
        }
        assert(!arrow_at(s, 0));
        lemma_first_arrow_none(t);
    }
}

/// The index of the first ` -> ` in `chars[from..]`, counted from the start
/// of `chars` (`chars.len()` if there is none).
pub fn find_arrow(chars: &Vec<char>, from: usize) -> (r: usize)
    requires
        from <= chars@.len(),
    ensures
        r == from + first_arrow(chars@.subrange(from as int, chars@.len() as int)),
        r <= chars@.len(),
{
    let ghost s = chars@.subrange(from as int, chars@.len() as int);
    let mut i = from;
    while chars.len() >= 4 && i <= chars.len() - 4
        invariant
            from <= i <= chars@.len(),
            s == chars@.subrange(from as int, chars@.len() as int),
            forall|j: int| 0 <= j < i - from ==> !arrow_at(s, j),
        decreases chars@.len() - i,
    {
        if chars[i] == ' ' && chars[i + 1] == '-' && chars[i + 2] == '>' && chars[i + 3] == ' ' {
            proof {
                assert(s.subrange(i - from, i - from + 4) =~= arrow());
                lemma_first_arrow_found(s, i - from);
            }
            return i;
        }
        proof {
            assert(!arrow_at(s, i - from)) by {
                if arrow_at(s, i - from) {
                    assert(s.subrange(i - from, i - from + 4)[0] == chars@[i as int]);
                    assert(s.subrange(i - from, i - from + 4)[1] == chars@[i + 1]);
                    assert(s.subrange(i - from, i - from + 4)[2] == chars@[i + 2]);
                    assert(s.subrange(i - from, i - from + 4)[3] == chars@[i + 3]);
                }
            }
        }
        i = i + 1;
    }
    proof {
        lemma_first_arrow_none(s);
    }
    chars.len()
}

/// The path under which a change's line counts are found: the new path of
/// a rename, the path itself otherwise.
pub fn change_lookup_path(change: &GitChange) -> (r: String)
    ensures
        r@ == after_last_arrow(change.path@),
{
    let chars = str_chars(change.path.as_str());
    let mut start: usize = 0;
    assert(chars@.subrange(0, chars@.len() as int) =~= chars@);
    loop
        invariant
            start <= chars@.len(),
            after_last_arrow(chars@.subrange(start as int, chars@.len() as int))
                == after_last_arrow(change.path@),
            chars@ == change.path@,
        decreases chars@.len() - start,
    {
        let i = find_arrow(&chars, start);
        if chars.len() >= 4 && i <= chars.len() - 4 {
            proof {
                let t = chars@.subrange(start as int, chars@.len() as int);
                assert(t.subrange(i - start + 4, t.len() as int) =~= chars@.subrange(
                    i + 4,
                    chars@.len() as int,
                ));
            }
            start = i + 4;
        } else {
            let tail = copy_chars(chars.as_slice(), start, chars.len());
            return string_from_chars(tail.as_slice());
        }
    }
}

/// Whether `s` holds exactly the characters of `lit`.
pub fn string_is(s: &String, lit: &str) -> (r: bool)
    ensures
        r == (s@ == lit@),
{
    *s == lit.to_owned()
}

/// An untracked file, whose lines are counted from the file itself.
pub open spec fn is_untracked(status_code: Seq<char>) -> bool {
    status_code == seq!['?', '?']
}

/// The paths whose lines must be counted from the working tree (untracked
/// files), one entry per change.
pub fn untracked_lookup_paths(changes: &Vec<GitChange>) -> (r: Vec<Option<String>>)
    ensures
        r@.len() == changes@.len(),
        forall|i: int|
            0 <= i < changes@.len() ==> match #[trigger] r@[i] {
                Some(p) => is_untracked(changes@[i].status_code@) && p@ == after_last_arrow(
                    changes@[i].path@,
                ),
                None => !is_untracked(changes@[i].status_code@),
            },
{
    let mut out: Vec<Option<String>> = Vec::new();
    let mut i: usize = 0;
    while i < changes.len()
        invariant
            i <= changes@.len(),
            out@.len() == i,
            forall|j: int|
                0 <= j < i ==> match #[trigger] out@[j] {
                    Some(p) => is_untracked(changes@[j].status_code@) && p@ == after_last_arrow(
                        changes@[j].path@,
                    ),
                    None => !is_untracked(changes@[j].status_code@),
                },
        decreases changes@.len() - i,
    {
        proof {
            reveal_strlit("??");
            assert("??"@ =~= seq!['?', '?']);
        }
        if string_is(&changes[i].status_code, "??") {
            out.push(Some(change_lookup_path(&changes[i])));
        } else {
            out.push(None);
        }
        i = i + 1;
    }
    out
}

/// A change with its line counts filled in: an untracked file gets the
/// counted lines as additions and no deletions; another gets the numstat
/// counts of its lookup path, when there are any.
pub open spec fn with_stats(
    c: GitChangeView,
    stats: Map<Seq<char>, LineStat>,
    counted: Option<u32>,
) -> GitChangeView {
    if is_untracked(c.status_code) {
        GitChangeView { additions: counted, deletions: Some(0u32), ..c }
    } else if stats.contains_key(after_last_arrow(c.path)) {
        let st = stats[after_last_arrow(c.path)];
        GitChangeView { additions: st.0, deletions: st.1, ..c }
    } else {
        c
    }
}

/// Whether `a` comes before `b` or equals it, character by character.
pub open spec fn key_le(a: Seq<char>, b: Seq<char>) -> bool
    decreases a.len(),
{
    if a.len() == 0 {
        true
    } else if b.len() == 0 {
        false
    } else if a[0] != b[0] {
        a[0] < b[0]
    } else {
        key_le(a.drop_first(), b.drop_first())
    }
}

/// `x` placed into `s` after every element whose key is not greater.
pub open spec fn insert_sorted(s: Seq<GitChangeView>, x: GitChangeView) -> Seq<GitChangeView>
    decreases s.len(),
{
    if s.len() == 0 {
        seq![x]
    } else if key_le(s.last().sort_key, x.sort_key) {
        s.push(x)
    } else {
        insert_sorted(s.drop_last(), x).push(s.last())
    }
}

/// The changes ordered by sort key; changes with equal keys keep their
/// order (a stable sort).
pub open spec fn sorted_by_key(s: Seq<GitChangeView>) -> Seq<GitChangeView>
    decreases s.len(),
{
    if s.len() == 0 {
        Seq::empty()
    } else {
        insert_sorted(sorted_by_key(s.drop_last()), s.last())
    }
}

fn key_le_exec(a: &String, b: &String) -> (r: bool)
    ensures
        r == key_le(a@, b@),
{
    let x = str_chars(a.as_str());
    let y = str_chars(b.as_str());
    let mut i: usize = 0;
    assert(x@.subrange(0, x@.len() as int) =~= x@);
    assert(y@.subrange(0, y@.len() as int) =~= y@);
    while i < x.len() && i < y.len() && x[i] == y[i]
        invariant
            i <= x@.len(),
            i <= y@.len(),
            key_le(x@, y@) == key_le(
                x@.subrange(i as int, x@.len() as int),
                y@.subrange(i as int, y@.len() as int),
            ),
        decreases x@.len() - i,
    {
        proof {
            let xs = x@.subrange(i as int, x@.len() as int);
            let ys = y@.subrange(i as int, y@.len() as int);
            assert(xs.drop_first() =~= x@.subrange(i + 1, x@.len() as int));
            assert(ys.drop_first() =~= y@.subrange(i + 1, y@.len() as int));
        }
        i = i + 1;
    }
    proof {
        assert(x@.subrange(0, x@.len() as int) =~= x@);
        assert(y@.subrange(0, y@.len() as int) =~= y@);
    }
    if i == x.len() {
        true
    } else if i == y.len() {
        false
    } else {
        proof {
            let xs = x@.subrange(i as int, x@.len() as int);
            let ys = y@.subrange(i as int, y@.len() as int);
            assert(xs[0] == x@[i as int] && ys[0] == y@[i as int]);
        }
        x[i] < y[i]
    }
}

proof fn lemma_insert_sorted_at(s: Seq<GitChangeView>, x: GitChangeView, j: int)
    requires
        0 <= j <= s.len(),
        forall|k: int| j <= k < s.len() ==> !key_le(#[trigger] s[k].sort_key, x.sort_key),
        j == 0 || key_le(s[j - 1].sort_key, x.sort_key),
    ensures
        insert_sorted(s, x) == s.insert(j, x),
    decreases s.len(),
{
    if s.len() == 0 {
        assert(s.insert(j, x) =~= seq![x]);
    } else if j == s.len() {
        assert(s.insert(j, x) =~= s.push(x));
    } else {
        assert(!key_le(s.last().sort_key, x.sort_key));
        lemma_insert_sorted_at(s.drop_last(), x, j);
        assert(s.drop_last().insert(j, x).push(s.last()) =~= s.insert(j, x));
    }
}

/// Sorts changes by sort key, keeping the order of equal keys.
pub fn sort_changes(changes: Vec<GitChange>) -> (r: Vec<GitChange>)
    ensures
        changes_view(r@) == sorted_by_key(changes_view(changes@)),
{
    let ghost input = changes_view(changes@);
    let mut rest = changes;
    let mut out: Vec<GitChange> = Vec::new();
    let ghost n = input.len();
    assert(input.subrange(0, 0) =~= Seq::<GitChangeView>::empty());
    assert(changes_view(out@) =~= Seq::<GitChangeView>::empty());
    assert(changes_view(rest@) =~= input.subrange(0, n as int));
    while rest.len() > 0
        invariant
            n == input.len(),
            rest@.len() <= n,
            changes_view(out@) == sorted_by_key(input.subrange(0, n - rest@.len())),
            changes_view(rest@) == input.subrange(n - rest@.len(), n as int),
        decreases rest@.len(),
    {
        let ghost done = n - rest@.len();
        let ghost old_rest = rest@;
        let c = rest.remove(0);
        let ghost xv = c@;
        assert(changes_view(old_rest)[0] == old_rest[0]@);
        assert(changes_view(rest@) =~= changes_view(old_rest).drop_first());
        assert(xv == input[done]);
        assert(input.subrange(0, done + 1).drop_last() =~= input.subrange(0, done));
        assert(changes_view(rest@) =~= input.subrange(done + 1, n as int));
        let mut j = out.len();
        while j > 0 && !key_le_exec(&out[j - 1].sort_key, &c.sort_key)
            invariant
                j <= out@.len(),
                forall|k: int|
                    j <= k < out@.len() ==> !key_le(
                        #[trigger] changes_view(out@)[k].sort_key,
                        xv.sort_key,
                    ),
                xv == c@,
            decreases j,
        {
            j = j - 1;
        }
        let ghost before = changes_view(out@);
        proof {
            lemma_insert_sorted_at(before, xv, j as int);
        }
        out.insert(j, c);
        proof {
            assert(changes_view(out@) =~= before.insert(j as int, xv));
        }
    }
    assert(input.subrange(0, n as int) =~= input);
    out
}

/// Fills in the line counts of the changes and sorts them by sort key.
/// `counted` holds, for each change, the lines counted from the working tree
/// (used for untracked files).
pub fn apply_change_stats(
    changes: Vec<GitChange>,
    numstat: &NumstatMap,
    counted: &Vec<Option<u32>>,
) -> (r: Vec<GitChange>)
    requires
        counted@.len() == changes@.len(),
    ensures
        changes_view(r@) == sorted_by_key(
            Seq::new(
                changes@.len(),
                |i: int| with_stats(changes@[i]@, numstat@, counted@[i]),
            ),
        ),
{
    let ghost target = Seq::new(
        changes@.len(),
        |i: int| with_stats(changes@[i]@, numstat@, counted@[i]),
    );
    let total = changes.len();
    let ghost n = changes@.len();
    let mut rest = changes;
    let mut done: Vec<GitChange> = Vec::new();
    let mut i: usize = 0;
    while rest.len() > 0
        invariant
            n == target.len(),
            n == total,
            i + rest@.len() == n,
            counted@.len() == n,
            changes_view(done@) == target.subrange(0, i as int),
            forall|k: int|
                0 <= k < rest@.len() ==> target[i + k] == with_stats(
                    #[trigger] rest@[k]@,
                    numstat@,
                    counted@[i + k],
                ),
        decreases rest@.len(),
    {
        let ghost old_rest = rest@;
        let mut c = rest.remove(0);
        proof {
            assert(target[i as int] == with_stats(old_rest[0]@, numstat@, counted@[i + 0]));
            reveal_strlit("??");
            assert("??"@ =~= seq!['?', '?']);
        }
        let ghost cv = c@;
        if string_is(&c.status_code, "??") {
            c.additions = counted[i];
            c.deletions = Some(0);
        } else {
            let key = change_lookup_path(&c);
            match numstat.get(key.as_str()) {
                Some(st) => {
                    c.additions = st.0;
                    c.deletions = st.1;
                },
                None => {},
            }
        }
        proof {
            assert(c@ == with_stats(cv, numstat@, counted@[i as int]));
        }
        let ghost before = changes_view(done@);
        done.push(c);
        proof {
            assert(changes_view(done@) =~= before.push(c@));
            assert(target.subrange(0, i + 1) =~= target.subrange(0, i as int).push(target[i as int]));
            assert forall|k: int| 0 <= k < rest@.len() implies target[i + 1 + k] == with_stats(
                #[trigger] rest@[k]@,
                numstat@,
                counted@[i + 1 + k],
            ) by {
                assert(rest@[k] == old_rest[k + 1]);
                assert(target[i + (k + 1)] == with_stats(old_rest[k + 1]@, numstat@, counted@[i + (k + 1)]));
            }
        }
        i = i + 1;
    }
    assert(target.subrange(0, n as int) =~= target);
    sort_changes(done)
}

// ---------------------------------------------------------------------------
// copying and comparing changes
// ---------------------------------------------------------------------------

impl GitChange {
    /// A copy of the change.
    pub fn duplicate(&self) -> (r: GitChange)
        ensures
            r@ == self@,
    {
        GitChange {
            path: self.path.clone(),
            status_code: self.status_code.clone(),
            sort_key: self.sort_key.clone(),
            additions: self.additions,
            deletions: self.deletions,
        }
    }

    /// Whether two changes are equal, field by field.
    pub fn same_as(&self, other: &GitChange) -> (r: bool)
        ensures
            r == (self@ == other@),
    {
        let same_adds = match (self.additions, other.additions) {
            (Some(a), Some(b)) => a == b,
            (None, None) => true,
            _ => false,
        };
        let same_dels = match (self.deletions, other.deletions) {
            (Some(a), Some(b)) => a == b,
            (None, None) => true,
            _ => false,
        };
        self.path == other.path && self.status_code == other.status_code && self.sort_key
            == other.sort_key && same_adds && same_dels
    }
}

/// A copy of a list of changes.
pub fn duplicate_changes(changes: &Vec<GitChange>) -> (r: Vec<GitChange>)
    ensures
        changes_view(r@) == changes_view(changes@),
{
    let mut out: Vec<GitChange> = Vec::new();
    let mut i: usize = 0;
    while i < changes.len()
        invariant
            i <= changes@.len(),
            changes_view(out@) == changes_view(changes@).subrange(0, i as int),
        decreases changes@.len() - i,
    {
        let ghost before = changes_view(out@);
        out.push(changes[i].duplicate());
        assert(changes_view(out@) =~= before.push(changes@[i as int]@));
        assert(changes_view(changes@).subrange(0, i + 1) =~= changes_view(changes@).subrange(
            0,
            i as int,
        ).push(changes@[i as int]@));
        i = i + 1;
    }
    assert(changes_view(changes@).subrange(0, i as int) =~= changes_view(changes@));
    out
}

/// Whether two lists of changes are equal.
pub fn changes_equal(a: &Vec<GitChange>, b: &Vec<GitChange>) -> (r: bool)
    ensures
        r == (changes_view(a@) == changes_view(b@)),
{
    if a.len() != b.len() {
        assert(changes_view(a@).len() != changes_view(b@).len());
        return false;
    }
    let mut i: usize = 0;
    while i < a.len()
        invariant
            a@.len() == b@.len(),
            i <= a@.len(),
            forall|j: int| 0 <= j < i ==> a@[j]@ == b@[j]@,
        decreases a@.len() - i,
    {
        if !a[i].same_as(&b[i]) {
            assert(changes_view(a@)[i as int] != changes_view(b@)[i as int]);
            return false;
        }
        i = i + 1;
    }
    assert(changes_view(a@) =~= changes_view(b@));
    true
}

// ---------------------------------------------------------------------------
// laws
// ---------------------------------------------------------------------------

proof fn lemma_key_le_total(a: Seq<char>, b: Seq<char>)
    ensures
        key_le(a, b) || key_le(b, a),
    decreases a.len(),
{
    if a.len() > 0 && b.len() > 0 && a[0] == b[0] {
        lemma_key_le_total(a.drop_first(), b.drop_first());
    }
}

proof fn lemma_key_le_trans(a: Seq<char>, b: Seq<char>, c: Seq<char>)
    requires
        key_le(a, b),
        key_le(b, c),
    ensures
        key_le(a, c),
    decreases a.len(),
{
    if a.len() > 0 && b.len() > 0 && c.len() > 0 && a[0] == b[0] && b[0] == c[0] {
        lemma_key_le_trans(a.drop_first(), b.drop_first(), c.drop_first());
    }
}

proof fn lemma_key_le_refl(a: Seq<char>)
    ensures
        key_le(a, a),
    decreases a.len(),
{
    if a.len() > 0 {
        lemma_key_le_refl(a.drop_first());
    }
}

/// Every change comes no later, by key, than every change after it.
pub open spec fn sorted_by_keys(s: Seq<GitChangeView>) -> bool {
    forall|i: int, j: int| 0 <= i < j < s.len() ==> key_le(#[trigger] s[i].sort_key, #[trigger] s[j].sort_key)
}

proof fn lemma_insert_sorted(s: Seq<GitChangeView>, x: GitChangeView)
    requires
        sorted_by_keys(s),
    ensures
        sorted_by_keys(insert_sorted(s, x)),
        insert_sorted(s, x).to_multiset() == s.to_multiset().insert(x),
    decreases s.len(),
{
    broadcast use vstd::seq_lib::to_multiset_build, vstd::seq_lib::to_multiset_contains;

    if s.len() == 0 {
        assert(seq![x] =~= Seq::<GitChangeView>::empty().push(x));
        assert(Seq::<GitChangeView>::empty().to_multiset() =~= vstd::multiset::Multiset::empty());
    } else if key_le(s.last().sort_key, x.sort_key) {
        let r = s.push(x);
        assert forall|i: int, j: int| 0 <= i < j < r.len() implies key_le(
            #[trigger] r[i].sort_key,
            #[trigger] r[j].sort_key,
        ) by {
            if j == s.len() {
                if i < s.len() - 1 {
                    lemma_key_le_trans(s[i].sort_key, s.last().sort_key, x.sort_key);
                }
            } else {
                assert(r[i] == s[i] && r[j] == s[j]);
            }
        }
    } else {
        let dl = s.drop_last();
        let last = s.last();
        assert(sorted_by_keys(dl)) by {
            assert forall|i: int, j: int| 0 <= i < j < dl.len() implies key_le(
                #[trigger] dl[i].sort_key,
                #[trigger] dl[j].sort_key,
            ) by {
                assert(dl[i] == s[i] && dl[j] == s[j]);
            }
        }
        lemma_insert_sorted(dl, x);
        let r0 = insert_sorted(dl, x);
        let r = r0.push(last);
        assert(s == dl.push(last));
        lemma_key_le_total(last.sort_key, x.sort_key);
        assert forall|k: int| 0 <= k < r0.len() implies key_le(#[trigger] r0[k].sort_key, last.sort_key) by {
            let y = r0[k];
            assert(r0.contains(y));
            assert(r0.to_multiset().count(y) > 0);
            if y != x {
                assert(dl.to_multiset().count(y) > 0);
                assert(dl.contains(y));
                let m = choose|m: int| 0 <= m < dl.len() && dl[m] == y;
                assert(s[m] == y);
                assert(key_le(s[m].sort_key, s[s.len() - 1].sort_key));
            }
        }
        assert forall|i: int, j: int| 0 <= i < j < r.len() implies key_le(
            #[trigger] r[i].sort_key,
            #[trigger] r[j].sort_key,
        ) by {
            if j == r0.len() {
                assert(r[i] == r0[i]);
            } else {
                assert(r[i] == r0[i] && r[j] == r0[j]);
            }
        }
        assert(r.to_multiset() =~= s.to_multiset().insert(x));
    }
}

/// Sorting changes by key gives them in key order and keeps every change:
/// the result is ordered and holds the same changes, as often, as the input.
pub proof fn law_sorted_changes_are_ordered(s: Seq<GitChangeView>)
    ensures
        sorted_by_keys(sorted_by_key(s)),
        sorted_by_key(s).to_multiset() == s.to_multiset(),
    decreases s.len(),
{
    broadcast use vstd::seq_lib::to_multiset_build;

    if s.len() == 0 {
        assert(sorted_by_key(s) =~= s);
    } else {
        law_sorted_changes_are_ordered(s.drop_last());
        lemma_insert_sorted(sorted_by_key(s.drop_last()), s.last());
        assert(s == s.drop_last().push(s.last()));
    }
}

/// Merging two numstat lines of one path adds their counts; a count that is
/// unknown in either line stays unknown.
pub proof fn law_numstat_counts_add_up(
    m: Map<Seq<char>, LineStat>,
    path: Seq<char>,
    a1: Option<u32>,
    d1: Option<u32>,
    a2: Option<u32>,
    d2: Option<u32>,
)
    requires
        !m.contains_key(path),
        stat_fits(m, path, a1, d1),
        stat_fits(merge_stat(m, path, a1, d1), path, a2, d2),
    ensures
        merge_stat(merge_stat(m, path, a1, d1), path, a2, d2)[path] == (
            match (a1, a2) {
                (Some(x), Some(y)) => Some((x + y) as u32),
                _ => None,
            },
            match (d1, d2) {
                (Some(x), Some(y)) => Some((x + y) as u32),
                _ => None,
            },
        ),
{
}

} // verus!
