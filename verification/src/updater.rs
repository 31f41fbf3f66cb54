//! The update check's decisions: reading version tags and choosing the
//! release asset to download.
use vstd::prelude::*;
use crate::branch::opt_view;
use crate::status::{char_views, copy_chars, index_of_char, lemma_index_of_char, split_chars, split_on};
use crate::text::{
    all_digits, decimal, is_ascii_digit, law_decimal_round_trip, lemma_decimal_digits, parse_unsigned,
    parse_unsigned_chars, str_chars,
};

verus! {

/// A version tag without its leading `v`, if it has one.
pub open spec fn strip_v(v: Seq<char>) -> Seq<char> {
    if v.len() > 0 && v[0] == 'v' {
        v.drop_first()
    } else {
        v
    }
}

/// The version a tag such as `v1.2.3` names: its first three dot-separated
/// parts read as numbers (later parts are ignored).
pub open spec fn semver_of(v: Seq<char>) -> Option<(u64, u64, u64)> {
    let parts = split_on(strip_v(v), '.');
    if parts.len() < 3 {
        None
    } else {
        match (
            parse_unsigned(parts[0], u64::MAX as nat),
            parse_unsigned(parts[1], u64::MAX as nat),
            parse_unsigned(parts[2], u64::MAX as nat),
        ) {
            (Some(a), Some(b), Some(c)) => Some((a as u64, b as u64, c as u64)),
            _ => None,
        }
    }
}

/// Reads a version tag.
pub fn parse_semver(v: &str) -> (r: Option<(u64, u64, u64)>)
    ensures
        r == semver_of(v@),
{
    let chars = str_chars(v);
    let start: usize = if chars.len() > 0 && chars[0] == 'v' {
        1
    } else {
        0
    };
    let body = copy_chars(chars.as_slice(), start, chars.len());
    proof {
        if start == 1 {
            assert(body@ =~= v@.drop_first());
        } else {
            assert(body@ =~= v@);
        }
    }
    let parts = split_chars(body.as_slice(), '.');
    if parts.len() < 3 {
        return None;
    }
    proof {
        assert(char_views(parts@)[0] == parts@[0]@);
        assert(char_views(parts@)[1] == parts@[1]@);
        assert(char_views(parts@)[2] == parts@[2]@);
    }
    let major = match parse_unsigned_chars(parts[0].as_slice(), u64::MAX) {
        Some(x) => x,
        None => return None,
    };
    let minor = match parse_unsigned_chars(parts[1].as_slice(), u64::MAX) {
        Some(x) => x,
        None => return None,
    };
    let patch = match parse_unsigned_chars(parts[2].as_slice(), u64::MAX) {
        Some(x) => x,
        None => return None,
    };
    Some((major, minor, patch))
}

/// Whether version `a` comes after version `b`.
pub open spec fn version_after(a: (u64, u64, u64), b: (u64, u64, u64)) -> bool {
    a.0 > b.0 || (a.0 == b.0 && (a.1 > b.1 || (a.1 == b.1 && a.2 > b.2)))
}

/// Whether the remote tag names a later version than the current one; no
/// when either cannot be read.
pub fn is_newer(remote: &str, current: &str) -> (r: bool)
    ensures
        r == (match (semver_of(remote@), semver_of(current@)) {
            (Some(a), Some(b)) => version_after(a, b),
            _ => false,
        }),
{
    match (parse_semver(remote), parse_semver(current)) {
        (Some(a), Some(b)) => a.0 > b.0 || (a.0 == b.0 && (a.1 > b.1 || (a.1 == b.1 && a.2 > b.2))),
        _ => false,
    }
}

/// A release available for download.
#[derive(Debug)]
pub struct UpdateInfo {
    pub version: String,
    pub download_url: String,
}

/// A file attached to a release: its name and download URL, each present
/// when the release lists it as a string.
#[derive(Debug)]
pub struct ReleaseAsset {
    pub name: Option<String>,
    pub browser_download_url: Option<String>,
}

/// Whether `s` holds `pat` somewhere.
pub open spec fn contains_text(s: Seq<char>, pat: Seq<char>) -> bool {
    exists|i: int| 0 <= i && i + pat.len() <= s.len() && #[trigger] s.subrange(i, i + pat.len()) == pat
}

/// Whether `s` ends with `pat`.
pub open spec fn ends_with_text(s: Seq<char>, pat: Seq<char>) -> bool {
    s.len() >= pat.len() && s.subrange(s.len() - pat.len(), s.len() as int) == pat
}

/// The macOS archive among a release's files: named with `macos` and
/// ending in `.tar.gz`.
pub open spec fn is_macos_archive(a: ReleaseAsset) -> bool {
    match a.name {
        Some(n) => contains_text(n@, "macos"@) && ends_with_text(n@, ".tar.gz"@),
        None => false,
    }
}

/// The first macOS archive from `i` on.
pub open spec fn first_macos_asset(assets: Seq<ReleaseAsset>, i: int) -> Option<int>
    decreases assets.len() - i,
{
    if i < 0 || i >= assets.len() {
        None
    } else if is_macos_archive(assets[i]) {
        Some(i)
    } else {
        first_macos_asset(assets, i + 1)
    }
}

proof fn lemma_first_macos_range(assets: Seq<ReleaseAsset>, i: int)
    ensures
        first_macos_asset(assets, i) matches Some(k) ==> i <= k < assets.len() && k >= 0,
    decreases assets.len() - i,
{
    if i >= 0 && i < assets.len() {
        lemma_first_macos_range(assets, i + 1);
    }
}

/// Whether `s[at..]` starts with `pat`.
fn matches_at(s: &Vec<char>, at: usize, pat: &Vec<char>) -> (r: bool)
    requires
        at + pat@.len() <= s@.len(),
    ensures
        r == (s@.subrange(at as int, at + pat@.len()) == pat@),
{
    let n = s.len();
    let mut k: usize = 0;
    while k < pat.len()
        invariant
            k <= pat@.len(),
            n == s@.len(),
            at + pat@.len() <= s@.len(),
            forall|j: int| 0 <= j < k ==> s@[at + j] == pat@[j],
        decreases pat@.len() - k,
    {
        if s[at + k] != pat[k] {
            assert(s@.subrange(at as int, at + pat@.len())[k as int] != pat@[k as int]);
            return false;
        }
        k = k + 1;
    }
    assert(s@.subrange(at as int, at + pat@.len()) =~= pat@);
    true
}

fn name_is_macos_archive(name: &String) -> (r: bool)
    ensures
        r == (contains_text(name@, "macos"@) && ends_with_text(name@, ".tar.gz"@)),
{
    let s = str_chars(name.as_str());
    let pat = str_chars("macos");
    proof {
        reveal_strlit("macos");
    }
    let n = s.len();
    let ext = str_chars(".tar.gz");
    let ends = s.len() >= ext.len() && matches_at(&s, s.len() - ext.len(), &ext);
    let mut found = false;
    let mut i: usize = 0;
    if s.len() >= pat.len() {
        while i <= s.len() - pat.len()
            invariant
                s@ == name@,
                pat@ == "macos"@,
                pat@.len() == 5,
                n == s@.len(),
                s@.len() >= pat@.len(),
                i <= s@.len() - pat@.len() + 1,
                found == (exists|j: int| 0 <= j < i && #[trigger] s@.subrange(j, j + pat@.len())
                    == pat@),
            decreases s@.len() - pat@.len() + 1 - i,
        {
            if matches_at(&s, i, &pat) {
                found = true;
            }
            i = i + 1;
        }
    }
    proof {
        if contains_text(name@, "macos"@) {
            let j = choose|j: int| 0 <= j && j + pat@.len() <= s@.len() && #[trigger] s@.subrange(
                j,
                j + pat@.len(),
            ) == pat@;
            assert(j < i);
        }
    }
    found && ends
}

/// What the latest release means for the running version: an error when
/// the release has no tag; nothing when its version is not newer; the
/// version and the URL of the first macOS archive otherwise, or an error
/// when there is no such archive or it has no URL.
pub fn update_from_release(tag: Option<String>, assets: &Option<Vec<ReleaseAsset>>, current: &str) -> (r: Result<Option<UpdateInfo>, String>)
    ensures
        match tag {
            None => r matches Err(e) && e@ == "Missing tag_name in release"@,
            Some(t) => if !(match (semver_of(t@), semver_of(current@)) {
                (Some(a), Some(b)) => version_after(a, b),
                _ => false,
            }) {
                r matches Ok(None)
            } else {
                match assets {
                    None => r matches Err(e) && e@ == "No macOS asset found in release"@,
                    Some(list) => match first_macos_asset(list@, 0) {
                        Some(k) => match list@[k].browser_download_url {
                            Some(u) => r matches Ok(Some(info)) && info.version@ == t@
                                && info.download_url@ == u@,
                            None => r matches Err(e) && e@ == "No macOS asset found in release"@,
                        },
                        None => r matches Err(e) && e@ == "No macOS asset found in release"@,
                    },
                }
            },
        },
{
    let tag = match tag {
        Some(t) => t,
        None => return Err("Missing tag_name in release".to_owned()),
    };
    if !is_newer(tag.as_str(), current) {
        return Ok(None);
    }
    let list = match assets {
        Some(l) => l,
        None => return Err("No macOS asset found in release".to_owned()),
    };
    proof {
        lemma_first_macos_range(list@, 0);
    }
    match find_macos_asset(list) {
        Some(k) => match &list[k].browser_download_url {
            Some(u) => Ok(Some(UpdateInfo { version: tag, download_url: u.clone() })),
            None => Err("No macOS asset found in release".to_owned()),
        },
        None => Err("No macOS asset found in release".to_owned()),
    }
}

fn find_macos_asset(list: &Vec<ReleaseAsset>) -> (r: Option<usize>)
    ensures
        match r {
            Some(k) => first_macos_asset(list@, 0) == Some(k as int),
            None => first_macos_asset(list@, 0) is None,
        },
{
    let mut i: usize = 0;
    while i < list.len()
        invariant
            i <= list@.len(),
            first_macos_asset(list@, 0) == first_macos_asset(list@, i as int),
        decreases list@.len() - i,
    {
        let hit = match &list[i].name {
            Some(n) => name_is_macos_archive(n),
            None => false,
        };
        if hit {
            return Some(i);
        }
        i = i + 1;
    }
    None
}


/// "Newer" is a strict order on versions: no version is newer than itself,
/// of two versions at most one is newer than the other, and it is
/// transitive.
pub proof fn law_newer_is_a_strict_order(a: (u64, u64, u64), b: (u64, u64, u64), c: (u64, u64, u64))
    ensures
        !version_after(a, a),
        version_after(a, b) ==> !version_after(b, a),
        version_after(a, b) && version_after(b, c) ==> version_after(a, c),
        a != b ==> version_after(a, b) || version_after(b, a),
{
}


/// Versions are ordered by major number first, then minor, then patch: a
/// larger major number is newer whatever follows; with the same major, a
/// larger minor is newer; with both the same, exactly a larger patch is
/// newer.
pub proof fn law_newer_is_lexicographic(a: (u64, u64, u64), b: (u64, u64, u64))
    ensures
        a.0 > b.0 ==> version_after(a, b),
        a.0 < b.0 ==> !version_after(a, b),
        a.0 == b.0 && a.1 > b.1 ==> version_after(a, b),
        a.0 == b.0 && a.1 < b.1 ==> !version_after(a, b),
        a.0 == b.0 && a.1 == b.1 ==> (version_after(a, b) <==> a.2 > b.2),
{
}

proof fn lemma_dotted_split(a: Seq<char>, b: Seq<char>, c: Seq<char>)
    requires
        all_digits(a),
        all_digits(b),
        all_digits(c),
    ensures
        split_on(a + seq!['.'] + b + seq!['.'] + c, '.') == seq![a, b, c],
{
    let body = a + seq!['.'] + b + seq!['.'] + c;
    assert forall|j: int| 0 <= j < a.len() implies body[j] != '.' by {
        assert(body[j] == a[j]);
        assert(is_ascii_digit(a[j]));
    }
    lemma_index_of_char(body, '.', a.len() as int);
    let r1 = body.subrange(a.len() as int + 1, body.len() as int);
    assert(r1 =~= b + seq!['.'] + c);
    assert(body.subrange(0, a.len() as int) =~= a);
    assert forall|j: int| 0 <= j < b.len() implies r1[j] != '.' by {
        assert(r1[j] == b[j]);
        assert(is_ascii_digit(b[j]));
    }
    lemma_index_of_char(r1, '.', b.len() as int);
    let r2 = r1.subrange(b.len() as int + 1, r1.len() as int);
    assert(r2 =~= c);
    assert(r1.subrange(0, b.len() as int) =~= b);
    assert forall|j: int| 0 <= j < c.len() implies r2[j] != '.' by {
        assert(is_ascii_digit(c[j]));
    }
    lemma_index_of_char(r2, '.', c.len() as int);
    assert(split_on(r2, '.') == seq![r2]);
    assert(split_on(r1, '.') =~= seq![b, c]);
    assert(split_on(body, '.') =~= seq![a, b, c]);
}

/// A version tag made of three decimal numbers joined by dots, with or
/// without a leading `v`, reads as those three numbers.
pub proof fn law_written_version_reads_back(major: u64, minor: u64, patch: u64, with_v: bool)
    ensures
        semver_of(
            (if with_v {
                seq!['v']
            } else {
                Seq::empty()
            }) + decimal(major as nat) + seq!['.'] + decimal(minor as nat) + seq!['.'] + decimal(
                patch as nat,
            ),
        ) == Some((major, minor, patch)),
{
    let a = decimal(major as nat);
    let b = decimal(minor as nat);
    let c = decimal(patch as nat);
    lemma_decimal_digits(major as nat);
    lemma_decimal_digits(minor as nat);
    lemma_decimal_digits(patch as nat);
    let body = a + seq!['.'] + b + seq!['.'] + c;
    let prefix: Seq<char> = if with_v {
        seq!['v']
    } else {
        Seq::empty()
    };
    let v = prefix + a + seq!['.'] + b + seq!['.'] + c;
    assert(body[0] == a[0]);
    assert(is_ascii_digit(a[0]));
    if with_v {
        assert(v[0] == 'v');
        assert(v.drop_first() =~= body);
    } else {
        assert(v =~= body);
    }
    assert(strip_v(v) == body);
    lemma_dotted_split(a, b, c);
    law_decimal_round_trip(major as nat, u64::MAX as nat);
    law_decimal_round_trip(minor as nat, u64::MAX as nat);
    law_decimal_round_trip(patch as nat, u64::MAX as nat);
}

} // verus!
