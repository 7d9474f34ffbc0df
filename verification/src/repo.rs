//! Locating a repository's root, and which walked files count as documents.

use crate::paths::{eq_ignore_ascii_case, eq_ignore_case, extension_spec, file_name, file_name_spec, stem_and_extension};
use crate::text::{chars_of, slice_chars, string_from_chars};
use vstd::prelude::*;

verus! {

/// Position of the last `/` in `s`.
pub open spec fn last_slash(s: Seq<char>, i: int) -> Option<int>
    decreases i,
{
    if i <= 0 {
        None
    } else if s[i - 1] == '/' {
        Some(i - 1)
    } else {
        last_slash(s, i - 1)
    }
}

proof fn lemma_last_slash(s: Seq<char>, i: int)
    requires
        i <= s.len(),
    ensures
        last_slash(s, i) matches Some(j) ==> 0 <= j < i && s[j] == '/',
    decreases i,
{
    if i > 0 && s[i - 1] != '/' {
        lemma_last_slash(s, i - 1);
    }
}

/// The parent of a canonical path (absolute, no `.` or `..`, no repeated or
/// trailing `/`): the path without its last component; `/` has none.
pub open spec fn parent_spec(s: Seq<char>) -> Option<Seq<char>> {
    if s.len() == 0 || s == seq!['/'] {
        None
    } else {
        match last_slash(s, s.len() as int) {
            None => Some(seq![]),
            Some(j) => if j == 0 {
                Some(seq!['/'])
            } else {
                Some(s.take(j))
            },
        }
    }
}

/// A canonical path and its ancestors, nearest first (`Path::ancestors`).
pub open spec fn ancestors_spec(s: Seq<char>) -> Seq<Seq<char>>
    decreases s.len(),
{
    match parent_spec(s) {
        Some(p) => if p.len() < s.len() {
            seq![s] + ancestors_spec(p)
        } else {
            seq![s]
        },
        None => seq![s],
    }
}

fn parent(s: &Vec<char>) -> (res: Option<Vec<char>>)
    ensures
        match res {
            Some(p) => parent_spec(s@) == Some(p@) && p@.len() < s@.len(),
            None => parent_spec(s@) is None,
        },
{
    if s.len() == 0 || (s.len() == 1 && s[0] == '/') {
        assert(s@.len() == 1 ==> s@ =~= seq!['/']);
        return None;
    }
    assert(s@ != seq!['/']);
    let mut i = s.len();
    while i > 0 && s[i - 1] != '/'
        invariant
            i <= s.len(),
            last_slash(s@, i as int) == last_slash(s@, s@.len() as int),
        decreases i,
    {
        i = i - 1;
    }
    if i == 0 {
        Some(Vec::new())
    } else if i - 1 == 0 {
        let v = vec!['/'];
        assert(v@ =~= seq!['/']);
        Some(v)
    } else {
        Some(slice_chars(s, 0, i - 1))
    }
}

/// The ancestors of a canonical path, nearest first.
pub fn ancestors(path: &str) -> (res: Vec<String>)
    ensures
        res@.map_values(|s: String| s@) == ancestors_spec(path@),
{
    let mut out: Vec<String> = Vec::new();
    let mut cur = chars_of(path);
    let ghost start = path@;
    loop
        invariant
            out@.map_values(|s: String| s@) + ancestors_spec(cur@) == ancestors_spec(start),
            start == path@,
        decreases cur@.len(),
    {
        let ghost ov = out@.map_values(|s: String| s@);
        out.push(string_from_chars(&cur));
        assert(out@.map_values(|s: String| s@) =~= ov.push(cur@));
        match parent(&cur) {
            Some(p) => {
                assert(ancestors_spec(cur@) == seq![cur@] + ancestors_spec(p@));
                assert(ov.push(cur@) + ancestors_spec(p@) =~= ov + ancestors_spec(cur@));
                cur = p;
            },
            None => {
                assert(ancestors_spec(cur@) == seq![cur@]);
                assert(out@.map_values(|s: String| s@) =~= ancestors_spec(start));
                return out;
            },
        }
    }
}

/// Index of the first flag set in `flags[k..]`.
pub open spec fn first_set(flags: Seq<bool>, k: int) -> Option<int>
    decreases flags.len() - k,
{
    if k < 0 || k >= flags.len() {
        None
    } else if flags[k] {
        Some(k)
    } else {
        first_set(flags, k + 1)
    }
}

/// The repository root for a canonical starting directory: the nearest of
/// its ancestors (itself first) that holds `.git`, else the start itself.
/// `has_git[i]` tells whether the `i`-th ancestor holds `.git`.
pub open spec fn find_root_spec(start: Seq<char>, has_git: Seq<bool>) -> Seq<char> {
    match first_set(has_git, 0) {
        Some(i) => if i < ancestors_spec(start).len() {
            ancestors_spec(start)[i]
        } else {
            start
        },
        None => start,
    }
}

/// The repository root found for a start directory is that directory or
/// one of its ancestors.
pub proof fn lemma_root_is_ancestor(start: Seq<char>, has_git: Seq<bool>)
    ensures
        ancestors_spec(start)[0] == start,
        ancestors_spec(start).contains(find_root_spec(start, has_git)),
{
    let a = ancestors_spec(start);
    assert(a[0] == start);
    match first_set(has_git, 0) {
        Some(i) => {
            if i < a.len() {
                lemma_first_set_bounds(has_git, 0);
                assert(a[i] == find_root_spec(start, has_git));
            } else {
                assert(a[0] == find_root_spec(start, has_git));
            }
        },
        None => {
            assert(a[0] == find_root_spec(start, has_git));
        },
    }
}

proof fn lemma_first_set_bounds(flags: Seq<bool>, k: int)
    requires
        0 <= k,
    ensures
        first_set(flags, k) matches Some(i) ==> k <= i < flags.len() && flags[i],
    decreases flags.len() - k,
{
    if k < flags.len() && !flags[k] {
        lemma_first_set_bounds(flags, k + 1);
    }
}

/// Walks up from the canonical directory `start` to the nearest one
/// containing `.git`; returns `start` if none does. `has_git` holds, for
/// each of `ancestors(start)` in order, whether it contains `.git`.
pub fn find_root(start: &str, has_git: &Vec<bool>) -> (res: String)
    ensures
        res@ == find_root_spec(start@, has_git@),
{
    let anc = ancestors(start);
    let mut i: usize = 0;
    while i < has_git.len()
        invariant
            i <= has_git.len(),
            first_set(has_git@, i as int) == first_set(has_git@, 0),
            anc@.map_values(|s: String| s@) == ancestors_spec(start@),
        decreases has_git.len() - i,
    {
        if has_git[i] {
            if i < anc.len() {
                assert(anc@.map_values(|s: String| s@)[i as int] == anc@[i as int]@);
                return anc[i].as_str().to_owned();
            }
            return start.to_owned();
        }
        i = i + 1;
    }
    start.to_owned()
}

/// Directory names never walked.
pub open spec fn is_extra_ignored_spec(name: Seq<char>) -> bool {
    name == "node_modules"@ || name == "vendor"@ || name == "target"@ || name == "dist"@ || name
        == "build"@
}

fn str_is(a: &Vec<char>, b: &str) -> (res: bool)
    ensures
        res == (a@ == b@),
{
    let bc = chars_of(b);
    crate::text::chars_eq(a, &bc)
}

/// Whether a directory entry's name is one of the build and vendor
/// directories that the walk skips.
pub fn is_extra_ignored(name: &str) -> (res: bool)
    ensures
        res == is_extra_ignored_spec(name@),
{
    let n = chars_of(name);
    str_is(&n, "node_modules") || str_is(&n, "vendor") || str_is(&n, "target") || str_is(
        &n,
        "dist",
    ) || str_is(&n, "build")
}

/// Whether a path names a document: its extension is `md`, `mdx` or `txt`
/// in any ASCII case.
pub open spec fn is_doc_path_spec(path: Seq<char>) -> bool {
    match extension_spec(file_name_spec(path)) {
        Some(e) => eq_ignore_ascii_case(e, "md"@) || eq_ignore_ascii_case(e, "mdx"@)
            || eq_ignore_ascii_case(e, "txt"@),
        None => false,
    }
}

/// Whether a walked file is a document.
pub fn is_doc_path(path: &str) -> (res: bool)
    ensures
        res == is_doc_path_spec(path@),
{
    let p = chars_of(path);
    let name = file_name(&p);
    let (_stem, ext) = stem_and_extension(&name);
    match ext {
        Some(e) => {
            let md = chars_of("md");
            let mdx = chars_of("mdx");
            let txt = chars_of("txt");
            eq_ignore_case(&e, &md) || eq_ignore_case(&e, &mdx) || eq_ignore_case(&e, &txt)
        },
        None => false,
    }
}

} // verus!
