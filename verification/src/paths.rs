//! Repository-relative paths as character sequences: file names, stems,
//! extensions, the top directory, and joining.
//!
//! The file-name rules follow `std::path::Path` on Unix: `/` separates
//! components, empty and `.` components are skipped, and a trailing `..`
//! has no file name.

use crate::text::{chars_eq, push_chars, slice_chars, string_from_chars};
use std::path::Path;
use vstd::prelude::*;

verus! {

pub open spec fn dot() -> Seq<char> {
    seq!['.']
}

pub open spec fn dot_dot() -> Seq<char> {
    seq!['.', '.']
}

/// The file name of `s[..i]` followed by the piece `s[i..piece_end]`,
/// scanning backwards for the last real component.
pub open spec fn file_name_from(s: Seq<char>, i: int, piece_end: int) -> Seq<char>
    decreases i,
{
    if i <= 0 {
        let piece = s.subrange(0, piece_end);
        if piece.len() == 0 || piece == dot() || piece == dot_dot() {
            seq![]
        } else {
            piece
        }
    } else if s[i - 1] == '/' {
        let piece = s.subrange(i, piece_end);
        if piece.len() == 0 || piece == dot() {
            file_name_from(s, i - 1, i - 1)
        } else if piece == dot_dot() {
            seq![]
        } else {
            piece
        }
    } else {
        file_name_from(s, i - 1, piece_end)
    }
}

/// The last component of a path, or empty when it has none (`Path::file_name`
/// with a missing name read as empty).
pub open spec fn file_name_spec(s: Seq<char>) -> Seq<char> {
    file_name_from(s, s.len() as int, s.len() as int)
}

fn dot_chars() -> (res: Vec<char>)
    ensures
        res@ == dot(),
{
    let v = vec!['.'];
    assert(v@ =~= dot());
    v
}

fn dot_dot_chars() -> (res: Vec<char>)
    ensures
        res@ == dot_dot(),
{
    let v = vec!['.', '.'];
    assert(v@ =~= dot_dot());
    v
}

/// The file name of a path.
pub fn file_name(s: &Vec<char>) -> (res: Vec<char>)
    ensures
        res@ == file_name_spec(s@),
{
    let d = dot_chars();
    let dd = dot_dot_chars();
    let mut i = s.len();
    let mut piece_end = s.len();
    while i > 0
        invariant
            i <= piece_end <= s.len(),
            file_name_from(s@, i as int, piece_end as int) == file_name_spec(s@),
            d@ == dot(),
            dd@ == dot_dot(),
        decreases i,
    {
        if s[i - 1] == '/' {
            let piece = slice_chars(s, i, piece_end);
            if piece.len() == 0 || chars_eq(&piece, &d) {
                piece_end = i - 1;
                i = i - 1;
            } else if chars_eq(&piece, &dd) {
                return Vec::new();
            } else {
                return piece;
            }
        } else {
            i = i - 1;
        }
    }
    let piece = slice_chars(s, 0, piece_end);
    if piece.len() == 0 || chars_eq(&piece, &d) || chars_eq(&piece, &dd) {
        Vec::new()
    } else {
        piece
    }
}

/// Position of the last `.` in `s[..i]`, if any.
pub open spec fn last_dot_before(s: Seq<char>, i: int) -> Option<int>
    decreases i,
{
    if i <= 0 {
        None
    } else if s[i - 1] == '.' {
        Some(i - 1)
    } else {
        last_dot_before(s, i - 1)
    }
}

/// Where a file name splits into stem and extension: at its last `.`,
/// unless that dot is its first character (`Path::file_stem` and
/// `Path::extension`).
pub open spec fn ext_dot(name: Seq<char>) -> Option<int> {
    match last_dot_before(name, name.len() as int) {
        Some(k) => if k == 0 {
            None
        } else {
            Some(k)
        },
        None => None,
    }
}

/// The extension of a file name.
pub open spec fn extension_spec(name: Seq<char>) -> Option<Seq<char>> {
    match ext_dot(name) {
        Some(k) => Some(name.skip(k + 1)),
        None => None,
    }
}

/// The stem of a file name (the whole name when it has no extension).
pub open spec fn stem_spec(name: Seq<char>) -> Seq<char> {
    match ext_dot(name) {
        Some(k) => name.take(k),
        None => name,
    }
}

proof fn lemma_last_dot_bounds(s: Seq<char>, i: int)
    ensures
        last_dot_before(s, i) matches Some(k) ==> 0 <= k < i && s[k] == '.',
    decreases i,
{
    if i > 0 && s[i - 1] != '.' {
        lemma_last_dot_bounds(s, i - 1);
    }
}

fn find_ext_dot(name: &Vec<char>) -> (res: Option<usize>)
    ensures
        res matches Some(k) ==> ext_dot(name@) == Some(k as int) && k < name@.len(),
        res is None ==> ext_dot(name@) is None,
{
    let mut i = name.len();
    while i > 0
        invariant
            i <= name.len(),
            last_dot_before(name@, i as int) == last_dot_before(name@, name@.len() as int),
        decreases i,
    {
        if name[i - 1] == '.' {
            if i - 1 == 0 {
                return None;
            }
            return Some(i - 1);
        }
        i = i - 1;
    }
    None
}

/// The stem and extension of a file name.
pub fn stem_and_extension(name: &Vec<char>) -> (res: (Vec<char>, Option<Vec<char>>))
    ensures
        res.0@ == stem_spec(name@),
        match res.1 {
            Some(e) => extension_spec(name@) == Some(e@),
            None => extension_spec(name@) is None,
        },
{
    match find_ext_dot(name) {
        Some(k) => {
            let stem = slice_chars(name, 0, k);
            let ext = slice_chars(name, k + 1, name.len());
            assert(stem@ =~= name@.take(k as int));
            assert(ext@ =~= name@.skip(k + 1));
            (stem, Some(ext))
        },
        None => {
            let whole = slice_chars(name, 0, name.len());
            assert(whole@ =~= name@);
            (whole, None)
        },
    }
}

/// ASCII lower-casing of one character.
pub open spec fn ascii_lower(c: char) -> char {
    if 'A' <= c <= 'Z' {
        ((c as u32) + 32) as char
    } else {
        c
    }
}

/// `str::eq_ignore_ascii_case`.
pub open spec fn eq_ignore_ascii_case(a: Seq<char>, b: Seq<char>) -> bool {
    a.len() == b.len() && forall|i: int| 0 <= i < a.len() ==> ascii_lower(#[trigger] a[i]) == ascii_lower(b[i])
}

fn lower(c: char) -> (res: char)
    ensures
        res == ascii_lower(c),
{
    if 'A' <= c && c <= 'Z' {
        let v: u8 = (c as u8) + 32;
        v as char
    } else {
        c
    }
}

/// Whether two character sequences are equal ignoring ASCII case.
pub fn eq_ignore_case(a: &Vec<char>, b: &Vec<char>) -> (res: bool)
    ensures
        res == eq_ignore_ascii_case(a@, b@),
{
    if a.len() != b.len() {
        return false;
    }
    let mut i: usize = 0;
    while i < a.len()
        invariant
            i <= a.len() == b.len(),
            forall|j: int| 0 <= j < i ==> ascii_lower(#[trigger] a@[j]) == ascii_lower(b@[j]),
        decreases a.len() - i,
    {
        if lower(a[i]) != lower(b[i]) {
            return false;
        }
        i = i + 1;
    }
    true
}

/// The directory a repository-relative path sits in at the top level: the
/// text before its first `/`, or empty for a file at the root.
pub open spec fn top_dir_spec(rel: Seq<char>) -> Seq<char> {
    match first_slash(rel, 0) {
        Some(k) => rel.take(k),
        None => seq![],
    }
}

/// Position of the first `/` at or after `i`.
pub open spec fn first_slash(s: Seq<char>, i: int) -> Option<int>
    decreases s.len() - i,
{
    if i < 0 || i >= s.len() {
        None
    } else if s[i] == '/' {
        Some(i)
    } else {
        first_slash(s, i + 1)
    }
}

/// The top-level directory of a repository-relative path.
pub fn top_dir(rel: &Vec<char>) -> (res: Vec<char>)
    ensures
        res@ == top_dir_spec(rel@),
{
    let mut i: usize = 0;
    while i < rel.len()
        invariant
            i <= rel.len(),
            first_slash(rel@, i as int) == first_slash(rel@, 0),
        decreases rel.len() - i,
    {
        if rel[i] == '/' {
            return slice_chars(rel, 0, i);
        }
        i = i + 1;
    }
    Vec::new()
}

/// `Path::join` of a relative segment: a `/` goes between them unless the
/// base is empty or already ends with one.
pub open spec fn join_spec(base: Seq<char>, seg: Seq<char>) -> Seq<char> {
    if base.len() > 0 && base.last() != '/' {
        base + seq!['/'] + seg
    } else {
        base + seg
    }
}

/// Joins a relative segment onto a base path.
pub fn join(base: &Vec<char>, seg: &Vec<char>) -> (res: Vec<char>)
    ensures
        res@ == join_spec(base@, seg@),
{
    let mut out = slice_chars(base, 0, base.len());
    assert(out@ =~= base@);
    if base.len() > 0 && base[base.len() - 1] != '/' {
        out.push('/');
    }
    push_chars(&mut out, seg);
    out
}

/// A plain component: non-empty, without `/`, and neither `.` nor `..`.
pub open spec fn is_component(seg: Seq<char>) -> bool {
    seg.len() > 0 && seg != dot() && seg != dot_dot() && forall|j: int|
        0 <= j < seg.len() ==> #[trigger] seg[j] != '/'
}

proof fn lemma_file_name_piece(s: Seq<char>, i: int, piece_end: int)
    requires
        0 <= i <= piece_end <= s.len(),
        is_component(s.subrange(i, piece_end)),
        i == 0 || s[i - 1] == '/',
        forall|j: int| i <= j < piece_end ==> s[j] != '/',
    ensures
        file_name_from(s, piece_end, piece_end) == s.subrange(i, piece_end),
    decreases piece_end - i,
{
    lemma_file_name_scan(s, i, piece_end, piece_end);
}

proof fn lemma_file_name_scan(s: Seq<char>, i: int, k: int, piece_end: int)
    requires
        0 <= i <= k <= piece_end <= s.len(),
        is_component(s.subrange(i, piece_end)),
        i == 0 || s[i - 1] == '/',
        forall|j: int| i <= j < piece_end ==> s[j] != '/',
    ensures
        file_name_from(s, k, piece_end) == s.subrange(i, piece_end),
    decreases k - i,
{
    if k > i {
        assert(s[k - 1] != '/');
        lemma_file_name_scan(s, i, k - 1, piece_end);
    }
}

/// The file name of a path joined with a plain component is that
/// component.
pub proof fn lemma_file_name_of_join(base: Seq<char>, seg: Seq<char>)
    requires
        is_component(seg),
    ensures
        file_name_spec(join_spec(base, seg)) == seg,
{
    let p = join_spec(base, seg);
    let i = p.len() - seg.len();
    assert(p.subrange(i, p.len() as int) =~= seg);
    assert forall|j: int| i <= j < p.len() implies p[j] != '/' by {
        assert(p[j] == seg[j - i]);
    }
    if i > 0 {
        assert(p[i - 1] == '/');
    }
    lemma_file_name_piece(p, i, p.len() as int);
}

/// The path of `abs` relative to `root` as `Path::strip_prefix` computes it
/// (component-wise), when `root` is a prefix of it.
pub uninterp spec fn path_strip_prefix(root: Seq<char>, abs: Seq<char>) -> Option<Seq<char>>;

/// Trusted: `Path::strip_prefix`, whose result depends on the two paths
/// alone; the contract names it. Its text is taken with `to_str`, which
/// cannot fail for a path made from a `str`.
#[verifier::external_body]
fn strip_prefix(root: &str, abs: &str) -> (res: Option<String>)
    ensures
        match res {
            Some(r) => path_strip_prefix(root@, abs@) == Some(r@),
            None => path_strip_prefix(root@, abs@) is None,
        },
{
    Path::new(abs).strip_prefix(root).ok().and_then(|p| p.to_str()).map(String::from)
}

/// Backslashes replaced by slashes.
pub open spec fn forward_slashes(s: Seq<char>) -> Seq<char> {
    s.map_values(|c: char| if c == '\\' { '/' } else { c })
}

/// The repository-relative path of `abs`: `abs` with `root` stripped when
/// `root` is a prefix of it, else `abs` itself, with forward slashes.
pub open spec fn rel_path_spec(root: Seq<char>, abs: Seq<char>) -> Seq<char> {
    forward_slashes(
        match path_strip_prefix(root, abs) {
            Some(r) => r,
            None => abs,
        },
    )
}

/// The repository-relative path of an absolute path.
pub fn rel_path(root: &str, abs: &str) -> (res: String)
    ensures
        res@ == rel_path_spec(root@, abs@),
{
    let stripped = match strip_prefix(root, abs) {
        Some(r) => r,
        None => abs.to_owned(),
    };
    let s = crate::text::chars_of(stripped.as_str());
    let mut out: Vec<char> = Vec::new();
    let mut i: usize = 0;
    while i < s.len()
        invariant
            i <= s.len(),
            out@ == forward_slashes(s@.take(i as int)),
        decreases s.len() - i,
    {
        let c = s[i];
        out.push(if c == '\\' { '/' } else { c });
        i = i + 1;
        assert(forward_slashes(s@.take(i as int)) =~= forward_slashes(s@.take(i - 1 as int)).push(
            if c == '\\' { '/' } else { c },
        ));
    }
    assert(s@.take(s@.len() as int) =~= s@);
    string_from_chars(&out)
}

} // verus!
