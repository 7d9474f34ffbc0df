//! Choosing the documents among the files a directory walk found: the
//! extension rule, the user's gitignore-style patterns, and the order in
//! which paths are listed (component by component, as paths compare).

use crate::paths::{dot, first_slash};
use crate::repo::{is_doc_path, is_doc_path_spec};
use crate::text::{chars_eq, chars_of, push_str, slice_chars, string_from_chars, string_views, views};
use ignore::gitignore::GitignoreBuilder;
use vstd::prelude::*;

verus! {

broadcast use vstd::seq_lib::group_to_multiset_ensures;

pub proof fn lemma_first_slash_bounds(s: Seq<char>, i: int)
    requires
        0 <= i,
    ensures
        first_slash(s, i) matches Some(k) ==> i <= k < s.len() && s[k] == '/',
    decreases s.len() - i,
{
    if i < s.len() && s[i] != '/' {
        lemma_first_slash_bounds(s, i + 1);
    }
}

proof fn lemma_first_slash_at(s: Seq<char>, i: int, k: int)
    requires
        0 <= i <= k <= s.len(),
        forall|j: int| i <= j < k ==> s[j] != '/',
        k == s.len() || s[k] == '/',
    ensures
        first_slash(s, i) == (if k < s.len() {
            Some(k)
        } else {
            None::<int>
        }),
    decreases k - i,
{
    if i < k {
        lemma_first_slash_at(s, i + 1, k);
    }
}

/// The named components of a path without its root: the pieces between
/// `/`s, skipping empty and `.` pieces.
pub open spec fn name_pieces(t: Seq<char>) -> Seq<Seq<char>>
    decreases t.len(),
{
    match first_slash(t, 0) {
        Some(k) => {
            proof {
                lemma_first_slash_bounds(t, 0);
            }
            let p = t.take(k);
            let rest = name_pieces(t.skip(k + 1));
            if p.len() > 0 && p != dot() {
                seq![p] + rest
            } else {
                rest
            }
        },
        None => if t.len() > 0 && t != dot() {
            seq![t]
        } else {
            seq![]
        },
    }
}

/// The components a path is compared by: a leading `/` is an empty first
/// component (the root, before any name), then the named pieces.
pub open spec fn components(s: Seq<char>) -> Seq<Seq<char>> {
    if s.len() > 0 && s[0] == '/' {
        seq![seq![]] + name_pieces(s.skip(1))
    } else {
        name_pieces(s)
    }
}

fn find_slash(t: &Vec<char>, from: usize) -> (res: usize)
    requires
        from <= t.len(),
    ensures
        from <= res <= t.len(),
        forall|j: int| from <= j < res ==> t@[j] != '/',
        res < t.len() ==> t@[res as int] == '/',
{
    let mut i = from;
    while i < t.len() && t[i] != '/'
        invariant
            from <= i <= t.len(),
            forall|j: int| from <= j < i ==> t@[j] != '/',
        decreases t.len() - i,
    {
        i = i + 1;
    }
    i
}

/// The components of a path.
pub fn path_components(s: &Vec<char>) -> (res: Vec<Vec<char>>)
    ensures
        views(res@) == components(s@),
{
    let mut out: Vec<Vec<char>> = Vec::new();
    let rooted = s.len() > 0 && s[0] == '/';
    let start: usize = if rooted {
        out.push(Vec::new());
        1
    } else {
        0
    };
    let ghost t = s@.skip(start as int);
    let ghost head = views(out@);
    assert(t.skip(0) =~= t);
    let d = vec!['.'];
    assert(d@ =~= dot());
    let mut pos = start;
    let mut done = false;
    while !done
        invariant
            start <= pos <= s.len(),
            t == s@.skip(start as int),
            d@ == dot(),
            head == (if rooted { seq![Seq::<char>::empty()] } else { Seq::<Seq<char>>::empty() }),
            !done ==> views(out@) + name_pieces(t.skip(pos - start)) == head
                + name_pieces(t),
            done ==> views(out@) == head + name_pieces(t),
        decreases (s.len() - pos) * 2 + (if done { 0int } else { 1int }),
    {
        let k = find_slash(s, pos);
        let ghost u = t.skip(pos - start);
        proof {
            assert forall|j: int| 0 <= j < k - pos implies u[j] != '/' by {
                assert(u[j] == s@[pos + j]);
            }
            if k < s.len() {
                assert(u[k - pos] == s@[k as int]);
            }
            lemma_first_slash_at(u, 0, k - pos);
        }
        let piece = slice_chars(s, pos, k);
        assert(piece@ =~= u.take(k - pos));
        let keep = piece.len() > 0 && !chars_eq(&piece, &d);
        let ghost before = views(out@);
        if keep {
            out.push(piece);
            assert(views(out@) =~= before.push(u.take(k - pos)));
        }
        if k < s.len() {
            proof {
                assert(u.skip(k - pos + 1) =~= t.skip(k + 1 - start));
                if keep {
                    assert(before + name_pieces(u) =~= before.push(u.take(k - pos)) + name_pieces(
                        u.skip(k - pos + 1),
                    ));
                }
            }
            pos = k + 1;
        } else {
            proof {
                assert(u.take(k - pos) =~= u);
                if keep {
                    assert(before + name_pieces(u) =~= before.push(u));
                } else {
                    assert(before + name_pieces(u) =~= before);
                }
            }
            done = true;
        }
    }
    proof {
        if !rooted {
            assert(t =~= s@);
        }
    }
    out
}

// ---------------------------------------------------------------------------
// Path order
// ---------------------------------------------------------------------------

/// `a` sorts before `b` character by character, a proper prefix first.
pub open spec fn chars_lt(a: Seq<char>, b: Seq<char>) -> bool
    decreases a.len(),
{
    if b.len() == 0 {
        false
    } else if a.len() == 0 {
        true
    } else if a[0] != b[0] {
        a[0] < b[0]
    } else {
        chars_lt(a.drop_first(), b.drop_first())
    }
}

/// `a` sorts before `b` component by component, a proper prefix first.
pub open spec fn comps_lt(a: Seq<Seq<char>>, b: Seq<Seq<char>>) -> bool
    decreases a.len(),
{
    if b.len() == 0 {
        false
    } else if a.len() == 0 {
        true
    } else if a[0] != b[0] {
        chars_lt(a[0], b[0])
    } else {
        comps_lt(a.drop_first(), b.drop_first())
    }
}

/// Path `x` sorts before path `y`: their components compare in that order.
pub open spec fn path_lt(x: Seq<char>, y: Seq<char>) -> bool {
    comps_lt(components(x), components(y))
}

/// No path is followed by one that sorts before it.
pub open spec fn paths_sorted(v: Seq<Seq<char>>) -> bool {
    forall|i: int| 0 <= i < v.len() - 1 ==> !path_lt(#[trigger] v[i + 1], v[i])
}

proof fn lemma_chars_lt_asym(a: Seq<char>, b: Seq<char>)
    ensures
        chars_lt(a, b) ==> !chars_lt(b, a),
    decreases a.len(),
{
    if a.len() > 0 && b.len() > 0 && a[0] == b[0] {
        lemma_chars_lt_asym(a.drop_first(), b.drop_first());
    }
}

proof fn lemma_comps_lt_asym(a: Seq<Seq<char>>, b: Seq<Seq<char>>)
    ensures
        comps_lt(a, b) ==> !comps_lt(b, a),
    decreases a.len(),
{
    if a.len() > 0 && b.len() > 0 {
        if a[0] == b[0] {
            lemma_comps_lt_asym(a.drop_first(), b.drop_first());
        } else {
            lemma_chars_lt_asym(a[0], b[0]);
        }
    }
}

proof fn lemma_chars_lt_irrefl(a: Seq<char>)
    ensures
        !chars_lt(a, a),
    decreases a.len(),
{
    if a.len() > 0 {
        lemma_chars_lt_irrefl(a.drop_first());
    }
}

proof fn lemma_chars_lt_trans(a: Seq<char>, b: Seq<char>, c: Seq<char>)
    requires
        chars_lt(a, b),
        chars_lt(b, c),
    ensures
        chars_lt(a, c),
    decreases a.len(),
{
    if a.len() > 0 && b.len() > 0 && c.len() > 0 && a[0] == b[0] && b[0] == c[0] {
        lemma_chars_lt_trans(a.drop_first(), b.drop_first(), c.drop_first());
    }
}

proof fn lemma_chars_lt_total(a: Seq<char>, b: Seq<char>)
    ensures
        a == b || chars_lt(a, b) || chars_lt(b, a),
    decreases a.len(),
{
    if a.len() > 0 && b.len() > 0 && a[0] == b[0] {
        lemma_chars_lt_total(a.drop_first(), b.drop_first());
        if a.drop_first() == b.drop_first() {
            assert(a =~= seq![a[0]] + a.drop_first());
            assert(b =~= seq![b[0]] + b.drop_first());
        }
    } else if a.len() == 0 && b.len() == 0 {
        assert(a =~= b);
    }
}

proof fn lemma_comps_lt_irrefl(a: Seq<Seq<char>>)
    ensures
        !comps_lt(a, a),
    decreases a.len(),
{
    if a.len() > 0 {
        lemma_comps_lt_irrefl(a.drop_first());
    }
}

proof fn lemma_comps_lt_trans(a: Seq<Seq<char>>, b: Seq<Seq<char>>, c: Seq<Seq<char>>)
    requires
        comps_lt(a, b),
        comps_lt(b, c),
    ensures
        comps_lt(a, c),
    decreases a.len(),
{
    if a.len() > 0 && b.len() > 0 && c.len() > 0 {
        if a[0] == b[0] && b[0] == c[0] {
            lemma_comps_lt_trans(a.drop_first(), b.drop_first(), c.drop_first());
        } else if a[0] != b[0] && b[0] != c[0] {
            lemma_chars_lt_trans(a[0], b[0], c[0]);
            if a[0] == c[0] {
                lemma_chars_lt_asym(a[0], b[0]);
            }
        }
    }
}

proof fn lemma_comps_lt_total(a: Seq<Seq<char>>, b: Seq<Seq<char>>)
    ensures
        a == b || comps_lt(a, b) || comps_lt(b, a),
    decreases a.len(),
{
    if a.len() > 0 && b.len() > 0 {
        if a[0] == b[0] {
            lemma_comps_lt_total(a.drop_first(), b.drop_first());
            if a.drop_first() == b.drop_first() {
                assert(a =~= seq![a[0]] + a.drop_first());
                assert(b =~= seq![b[0]] + b.drop_first());
            }
        } else {
            lemma_chars_lt_total(a[0], b[0]);
        }
    } else if a.len() == 0 && b.len() == 0 {
        assert(a =~= b);
    }
}

/// The path order is a strict order in which any two paths with different
/// components compare: irreflexive, transitive, and total up to equal
/// components.
pub proof fn lemma_path_order(x: Seq<char>, y: Seq<char>, z: Seq<char>)
    ensures
        !path_lt(x, x),
        path_lt(x, y) ==> !path_lt(y, x),
        path_lt(x, y) && path_lt(y, z) ==> path_lt(x, z),
        components(x) == components(y) || path_lt(x, y) || path_lt(y, x),
{
    lemma_comps_lt_irrefl(components(x));
    lemma_comps_lt_asym(components(x), components(y));
    if path_lt(x, y) && path_lt(y, z) {
        lemma_comps_lt_trans(components(x), components(y), components(z));
    }
    lemma_comps_lt_total(components(x), components(y));
}

/// A list in which no path is followed by one that sorts before it holds
/// no pair, near or far, in the wrong order.
pub proof fn lemma_sorted_all_pairs(v: Seq<Seq<char>>)
    requires
        paths_sorted(v),
    ensures
        forall|i: int, j: int| 0 <= i < j < v.len() ==> !path_lt(#[trigger] v[j], #[trigger] v[i]),
{
    assert forall|i: int, j: int| 0 <= i < j < v.len() implies !path_lt(
        #[trigger] v[j],
        #[trigger] v[i],
    ) by {
        lemma_sorted_from(v, i, j);
    }
}

proof fn lemma_sorted_from(v: Seq<Seq<char>>, i: int, j: int)
    requires
        paths_sorted(v),
        0 <= i < j < v.len(),
    ensures
        !path_lt(v[j], v[i]),
        components(v[i]) == components(v[j]) || path_lt(v[i], v[j]),
    decreases j - i,
{
    let k = j - 1;
    assert(!path_lt(v[k + 1], v[k]));
    lemma_path_order(v[k], v[j], v[j]);
    if k > i {
        lemma_sorted_from(v, i, k);
        lemma_path_order(v[i], v[k], v[j]);
        if components(v[i]) == components(v[k]) {
        } else if components(v[k]) == components(v[j]) {
        } else {
            lemma_comps_lt_trans(components(v[i]), components(v[k]), components(v[j]));
        }
    }
    lemma_path_order(v[i], v[j], v[j]);
    lemma_path_order(v[j], v[i], v[i]);
}

fn chars_lt_exec(a: &Vec<char>, b: &Vec<char>) -> (res: bool)
    ensures
        res == chars_lt(a@, b@),
{
    let mut i: usize = 0;
    assert(a@.skip(0) =~= a@);
    assert(b@.skip(0) =~= b@);
    while i < a.len() && i < b.len() && a[i] == b[i]
        invariant
            i <= a.len(),
            i <= b.len(),
            chars_lt(a@, b@) == chars_lt(a@.skip(i as int), b@.skip(i as int)),
        decreases a.len() - i,
    {
        assert(a@.skip(i as int).drop_first() =~= a@.skip(i + 1));
        assert(b@.skip(i as int).drop_first() =~= b@.skip(i + 1));
        i = i + 1;
    }
    if i == b.len() {
        false
    } else if i == a.len() {
        true
    } else {
        a[i] < b[i]
    }
}

fn comps_lt_exec(a: &Vec<Vec<char>>, b: &Vec<Vec<char>>) -> (res: bool)
    ensures
        res == comps_lt(views(a@), views(b@)),
{
    let ghost va = views(a@);
    let ghost vb = views(b@);
    let mut i: usize = 0;
    assert(va.skip(0) =~= va);
    assert(vb.skip(0) =~= vb);
    while i < a.len() && i < b.len() && chars_eq(&a[i], &b[i])
        invariant
            i <= a.len(),
            i <= b.len(),
            va == views(a@),
            vb == views(b@),
            comps_lt(va, vb) == comps_lt(va.skip(i as int), vb.skip(i as int)),
        decreases a.len() - i,
    {
        assert(va.skip(i as int).drop_first() =~= va.skip(i + 1));
        assert(vb.skip(i as int).drop_first() =~= vb.skip(i + 1));
        assert(va.skip(i as int)[0] == vb.skip(i as int)[0]);
        i = i + 1;
    }
    if i == b.len() {
        false
    } else if i == a.len() {
        true
    } else {
        assert(va.skip(i as int)[0] == a@[i as int]@);
        assert(vb.skip(i as int)[0] == b@[i as int]@);
        chars_lt_exec(&a[i], &b[i])
    }
}

// ---------------------------------------------------------------------------
// User ignore patterns
// ---------------------------------------------------------------------------

/// Whether `ignore`'s gitignore parser accepts one pattern line.
pub uninterp spec fn user_pattern_ok(pattern: Seq<char>) -> bool;

/// Whether a gitignore matcher builds from the pattern lines.
pub uninterp spec fn user_matcher_ok(patterns: Seq<Seq<char>>) -> bool;

/// Whether the gitignore matcher of the pattern lines, rooted at `root`,
/// ignores the file `path`.
pub uninterp spec fn user_ignored_spec(root: Seq<char>, patterns: Seq<Seq<char>>, path: Seq<char>) -> bool;

/// Trusted: `GitignoreBuilder::add_line` on a fresh builder, which fails
/// only when the line does not parse as a glob (the builder's root plays no
/// part); the contract names whether it succeeds.
#[verifier::external_body]
fn pattern_ok(pattern: &str) -> (res: bool)
    ensures
        res == user_pattern_ok(pattern@),
{
    GitignoreBuilder::new("").add_line(None, pattern).is_ok()
}

/// Trusted: `GitignoreBuilder::build` after `add_line` of every pattern
/// (each of which parses), which fails only when the glob set does not
/// build; the contract names whether it succeeds.
#[verifier::external_body]
fn matcher_ok(patterns: &Vec<String>) -> (res: bool)
    requires
        forall|i: int| 0 <= i < patterns@.len() ==> user_pattern_ok(#[trigger] patterns@[i]@),
    ensures
        res == user_matcher_ok(string_views(patterns@)),
{
    let mut b = GitignoreBuilder::new("");
    for p in patterns {
        let _ = b.add_line(None, p);
    }
    b.build().is_ok()
}

/// Trusted: builds the matcher as `GitignoreBuilder` does (rooted at
/// `root`, every pattern added by `add_line`) and asks
/// `Gitignore::matched(path, false).is_ignore()` of each path; the contract
/// names each answer as a function of the root, the patterns and the path.
#[verifier::external_body]
fn ignored_flags(root: &str, patterns: &Vec<String>, paths: &Vec<String>) -> (res: Vec<bool>)
    requires
        forall|i: int| 0 <= i < patterns@.len() ==> user_pattern_ok(#[trigger] patterns@[i]@),
        user_matcher_ok(string_views(patterns@)),
    ensures
        res@.len() == paths@.len(),
        forall|i: int|
            0 <= i < paths@.len() ==> res@[i] == user_ignored_spec(
                root@,
                string_views(patterns@),
                #[trigger] paths@[i]@,
            ),
{
    let mut b = GitignoreBuilder::new(root);
    for p in patterns {
        let _ = b.add_line(None, p);
    }
    match b.build() {
        Ok(m) => paths.iter().map(|p| m.matched(p, false).is_ignore()).collect(),
        Err(_) => paths.iter().map(|_| false).collect(),
    }
}

// ---------------------------------------------------------------------------
// Choosing the documents
// ---------------------------------------------------------------------------

/// Why the user's patterns could not be used.
#[derive(Debug, Clone, PartialEq, Eq)]
pub enum SelectError {
    /// This pattern, the first that does not parse, is no valid glob.
    InvalidPattern { pattern: String },
    /// Every pattern parses, but the matcher of them all does not build.
    Matcher,
}

impl SelectError {
    /// The message the error is reported with.
    pub fn message(&self) -> (res: String)
        ensures
            res@ == match self {
                SelectError::InvalidPattern { pattern } => "invalid user-ignore pattern: "@
                    + pattern@,
                SelectError::Matcher => "build user-ignore matcher"@,
            },
    {
        let mut out: Vec<char> = Vec::new();
        match self {
            SelectError::InvalidPattern { pattern } => {
                push_str(&mut out, "invalid user-ignore pattern: ");
                push_str(&mut out, pattern.as_str());
            },
            SelectError::Matcher => {
                push_str(&mut out, "build user-ignore matcher");
            },
        }
        string_from_chars(&out)
    }
}

/// The index of the first pattern that does not parse, if any.
pub open spec fn first_invalid(patterns: Seq<Seq<char>>, from: int) -> Option<int>
    decreases patterns.len() - from,
{
    if from < 0 || from >= patterns.len() {
        None
    } else if !user_pattern_ok(patterns[from]) {
        Some(from)
    } else {
        first_invalid(patterns, from + 1)
    }
}

/// Whether a walked file is kept: it names a document, and no user pattern
/// (when there are any) ignores it.
pub open spec fn keep_spec(root: Seq<char>, patterns: Seq<Seq<char>>, path: Seq<char>) -> bool {
    is_doc_path_spec(path) && !(patterns.len() > 0 && user_ignored_spec(root, patterns, path))
}

/// The walked files that are kept, in walk order.
pub open spec fn kept(root: Seq<char>, patterns: Seq<Seq<char>>, walked: Seq<Seq<char>>) -> Seq<Seq<char>>
    decreases walked.len(),
{
    if walked.len() == 0 {
        seq![]
    } else {
        let rest = kept(root, patterns, walked.drop_last());
        if keep_spec(root, patterns, walked.last()) {
            rest.push(walked.last())
        } else {
            rest
        }
    }
}

proof fn lemma_insert_sorted(s: Seq<Seq<char>>, p: int, x: Seq<char>)
    requires
        paths_sorted(s),
        0 <= p <= s.len(),
        p > 0 ==> !path_lt(x, s[p - 1]),
        p < s.len() ==> path_lt(x, s[p]),
    ensures
        paths_sorted(s.insert(p, x)),
{
    let t = s.insert(p, x);
    if p < s.len() {
        lemma_comps_lt_asym(components(x), components(s[p]));
    }
    assert forall|i: int| 0 <= i < t.len() - 1 implies !path_lt(#[trigger] t[i + 1], t[i]) by {
        if i + 1 < p {
            assert(t[i + 1] == s[i + 1] && t[i] == s[i]);
            assert(!path_lt(s[i + 1], s[i]));
        } else if i + 1 == p {
            assert(t[i + 1] == x && t[i] == s[p - 1]);
        } else if i == p {
            assert(t[i] == x && t[i + 1] == s[p]);
        } else {
            let j = i - 1;
            assert(t[i + 1] == s[j + 1] && t[i] == s[j]);
            assert(!path_lt(s[j + 1], s[j]));
        }
    }
}

/// The index at which `x` goes into the list: before the first entry it
/// sorts before, or at the end.
fn insert_position(out_comps: &Vec<Vec<Vec<char>>>, xc: &Vec<Vec<char>>) -> (res: usize)
    ensures
        res <= out_comps.len(),
        forall|q: int|
            0 <= q < res ==> !comps_lt(views(xc@), views(#[trigger] out_comps@[q]@)),
        res < out_comps.len() ==> comps_lt(views(xc@), views(out_comps@[res as int]@)),
{
    let mut p: usize = 0;
    while p < out_comps.len() && !comps_lt_exec(xc, &out_comps[p])
        invariant
            p <= out_comps.len(),
            forall|q: int|
                0 <= q < p ==> !comps_lt(views(xc@), views(#[trigger] out_comps@[q]@)),
        decreases out_comps.len() - p,
    {
        p = p + 1;
    }
    p
}

/// Chooses the documents among the walked files: with no user patterns,
/// every file whose extension is `md`, `mdx` or `txt`; with patterns, an
/// invalid one (the first) or a matcher that does not build is an error,
/// and files the patterns ignore are dropped. The result is sorted as paths
/// compare.
pub fn select_docs(root: &str, user_ignores: &Vec<String>, walked: &Vec<String>) -> (res: Result<
    Vec<String>,
    SelectError,
>)
    ensures
        ({
            let pats = string_views(user_ignores@);
            match res {
                Err(SelectError::InvalidPattern { pattern }) => pats.len() > 0 && (first_invalid(
                    pats,
                    0,
                ) matches Some(k) && pattern@ == pats[k]),
                Err(SelectError::Matcher) => pats.len() > 0 && first_invalid(pats, 0) is None
                    && !user_matcher_ok(pats),
                Ok(v) => (pats.len() == 0 || (first_invalid(pats, 0) is None && user_matcher_ok(
                    pats,
                ))) && paths_sorted(string_views(v@)) && string_views(v@).to_multiset()
                    == kept(root@, pats, string_views(walked@)).to_multiset(),
            }
        }),
{
    let ghost pats = string_views(user_ignores@);
    let n = user_ignores.len();
    let mut flags: Vec<bool> = Vec::new();
    if n > 0 {
        let mut j: usize = 0;
        while j < n
            invariant
                n == user_ignores.len(),
                pats == string_views(user_ignores@),
                j <= n,
                forall|q: int| 0 <= q < j ==> user_pattern_ok(#[trigger] pats[q]),
                first_invalid(pats, 0) == first_invalid(pats, j as int),
            decreases n - j,
        {
            if !pattern_ok(user_ignores[j].as_str()) {
                let pattern = user_ignores[j].clone();
                return Err(SelectError::InvalidPattern { pattern });
            }
            j = j + 1;
        }
        assert(first_invalid(pats, n as int) is None);
        assert forall|q: int| 0 <= q < user_ignores@.len() implies user_pattern_ok(
            #[trigger] user_ignores@[q]@,
        ) by {
            assert(pats[q] == user_ignores@[q]@);
        }
        if !matcher_ok(user_ignores) {
            return Err(SelectError::Matcher);
        }
        flags = ignored_flags(root, user_ignores, walked);
    }
    let ghost ws = string_views(walked@);
    let mut out: Vec<String> = Vec::new();
    let mut out_comps: Vec<Vec<Vec<char>>> = Vec::new();
    let mut i: usize = 0;
    while i < walked.len()
        invariant
            i <= walked.len(),
            ws == string_views(walked@),
            pats == string_views(user_ignores@),
            n == user_ignores.len(),
            n > 0 ==> flags@.len() == walked@.len(),
            n > 0 ==> forall|q: int|
                0 <= q < walked@.len() ==> flags@[q] == user_ignored_spec(
                    root@,
                    pats,
                    #[trigger] ws[q],
                ),
            out_comps@.len() == out@.len(),
            forall|q: int|
                0 <= q < out@.len() ==> views(#[trigger] out_comps@[q]@) == components(
                    out@[q]@,
                ),
            paths_sorted(string_views(out@)),
            string_views(out@).to_multiset() == kept(root@, pats, ws.take(i as int)).to_multiset(),
        decreases walked.len() - i,
    {
        let w = &walked[i];
        let ignored = n > 0 && flags[i];
        let keep = is_doc_path(w.as_str()) && !ignored;
        proof {
            assert(ws.take(i + 1).drop_last() =~= ws.take(i as int));
            assert(ws.take(i + 1).last() == w@);
            assert(keep == keep_spec(root@, pats, w@));
        }
        if keep {
            let xc = path_components(&chars_of(w.as_str()));
            let p = insert_position(&out_comps, &xc);
            let ghost before = string_views(out@);
            let ghost before_out = out@;
            let ghost before_comps = out_comps@;
            proof {
                assert(views(xc@) == components(w@));
                if p > 0 {
                    assert(!comps_lt(views(xc@), views(out_comps@[p - 1]@)));
                    assert(before[p - 1] == out@[p - 1]@);
                }
                if p < out_comps.len() {
                    assert(before[p as int] == out@[p as int]@);
                }
                lemma_insert_sorted(before, p as int, w@);
            }
            out.insert(p, w.clone());
            out_comps.insert(p, xc);
            proof {
                assert(string_views(out@) =~= before.insert(p as int, w@));
                assert forall|q: int| 0 <= q < out@.len() implies views(
                    #[trigger] out_comps@[q]@,
                ) == components(out@[q]@) by {
                    if q < p {
                    } else if q == p {
                    } else {
                        assert(out_comps@[q] == before_comps[q - 1]);
                        assert(out@[q] == before_out[q - 1]);
                    }
                }
            }
        }
        i = i + 1;
    }
    proof {
        assert(ws.take(walked.len() as int) =~= ws);
    }
    Ok(out)
}

} // verus!
