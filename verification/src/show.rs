//! Target parsing, code stripping and token budgets for showing documents
//! and sections.

use crate::text::{
    chars_of, dec, fmt_usize, is_fence, newline_pos, push_chars, push_str, slice_chars,
    split_inclusive_nl, starts_with, starts_with_chars, string_from_chars, find_newline,
    is_fence_line, lemma_prefix_while, prefix_while,
};
use crate::db::LookupError;
use crate::parse::concat;
use crate::token::{cl100k_encode, truncate, truncated_text, window_end};
use vstd::prelude::*;

verus! {

// ---------------------------------------------------------------------------
// Targets
// ---------------------------------------------------------------------------

/// One thing to show: a doc (ID prefix or path) and maybe a section prefix.
#[derive(Debug, Clone, PartialEq, Eq)]
pub struct Target {
    pub doc: String,
    pub section: Option<String>,
}

pub open spec fn target_view(t: Target) -> (Seq<char>, Option<Seq<char>>) {
    (
        t.doc@,
        match t.section {
            Some(s) => Some(s@),
            None => None,
        },
    )
}

pub open spec fn sec_prefix() -> Seq<char> {
    seq!['s', 'e', 'c', ':']
}

/// Strip an optional `sec:` prefix so users can paste from outline output.
pub open spec fn strip_sec_prefix_spec(s: Seq<char>) -> Seq<char> {
    if starts_with(s, sec_prefix()) {
        s.skip(4)
    } else {
        s
    }
}

fn sec_prefix_chars() -> (res: Vec<char>)
    ensures
        res@ == sec_prefix(),
{
    let v = vec!['s', 'e', 'c', ':'];
    assert(v@ =~= sec_prefix());
    v
}

/// Strip an optional `sec:` prefix.
pub fn strip_sec_prefix(s: &Vec<char>) -> (res: Vec<char>)
    ensures
        res@ == strip_sec_prefix_spec(s@),
{
    let p = sec_prefix_chars();
    if starts_with_chars(s, &p) {
        slice_chars(s, 4, s.len())
    } else {
        slice_chars(s, 0, s.len())
    }
}

pub open spec fn not_colon(c: char) -> bool {
    c != ':'
}

/// Position of the first `:`, or the length.
pub open spec fn colon_pos(s: Seq<char>) -> nat {
    prefix_while(s, |c: char| not_colon(c))
}

pub open spec fn contains_char(s: Seq<char>, c: char) -> bool {
    exists|i: int| 0 <= i < s.len() && s[i] == c
}

/// `char::is_ascii_hexdigit`.
pub open spec fn is_ascii_hex(c: char) -> bool {
    ('0' <= c && c <= '9') || ('a' <= c && c <= 'f') || ('A' <= c && c <= 'F')
}

/// One target: `doc:section` splits at the first `:` (the section losing an
/// optional `sec:` prefix); anything else is a whole doc.
pub open spec fn target_spec(t: Seq<char>) -> (Seq<char>, Option<Seq<char>>) {
    let k = colon_pos(t);
    if k < t.len() {
        (t.take(k as int), Some(strip_sec_prefix_spec(t.skip(k + 1 as int))))
    } else {
        (t, None)
    }
}

/// Whether two arguments are the backwards-compatible `doc section` form:
/// the first has no `:`, and the second starts with `sec:` or is a hex ID
/// (after stripping `sec:`) containing no `/`.
pub open spec fn is_doc_section_pair(ts: Seq<Seq<char>>) -> bool {
    &&& ts.len() == 2
    &&& !contains_char(ts[0], ':')
    &&& (starts_with(ts[1], sec_prefix()) || !contains_char(ts[1], '/'))
    &&& (starts_with(ts[1], sec_prefix()) || forall|i: int|
        0 <= i < strip_sec_prefix_spec(ts[1]).len() ==> is_ascii_hex(
            #[trigger] strip_sec_prefix_spec(ts[1])[i],
        ))
}

/// How the `show` arguments are read.
pub open spec fn parse_targets_spec(ts: Seq<Seq<char>>) -> Seq<(Seq<char>, Option<Seq<char>>)> {
    if is_doc_section_pair(ts) {
        seq![(ts[0], Some(strip_sec_prefix_spec(ts[1])))]
    } else {
        ts.map_values(|t: Seq<char>| target_spec(t))
    }
}

/// `show DOC sec:SEC` (two arguments, as pasted from an outline) reads the
/// same as `show DOC:sec:SEC`: the section of `DOC` with ID prefix `SEC`.
pub proof fn lemma_pasted_section_form(d: Seq<char>, x: Seq<char>)
    requires
        !contains_char(d, ':'),
    ensures
        parse_targets_spec(seq![d, sec_prefix() + x]) == seq![(d, Some(x))],
        parse_targets_spec(seq![d + seq![':'] + sec_prefix() + x]) == seq![(d, Some(x))],
{
    let two = seq![d, sec_prefix() + x];
    assert((sec_prefix() + x).take(4) =~= sec_prefix());
    assert((sec_prefix() + x).skip(4) =~= x);
    assert(is_doc_section_pair(two));
    let t = d + seq![':'] + sec_prefix() + x;
    assert forall|j: int| 0 <= j < d.len() implies not_colon(#[trigger] t[j]) by {
        assert(t[j] == d[j]);
        if t[j] == ':' {
            assert(d[j] == ':');
        }
    }
    assert(t[d.len() as int] == ':');
    lemma_prefix_while(t, |c: char| not_colon(c), d.len() as int);
    assert(t.take(d.len() as int) =~= d);
    assert(t.skip(d.len() + 1 as int) =~= sec_prefix() + x);
    let one = seq![t];
    assert(!is_doc_section_pair(one));
    assert(one.map_values(|u: Seq<char>| target_spec(u)) =~= seq![(d, Some(x))]);
}

fn find_char(s: &Vec<char>, c: char) -> (res: usize)
    ensures
        res <= s.len(),
        forall|j: int| 0 <= j < res ==> s@[j] != c,
        res < s.len() ==> s@[res as int] == c,
{
    let mut i: usize = 0;
    while i < s.len() && s[i] != c
        invariant
            i <= s.len(),
            forall|j: int| 0 <= j < i ==> s@[j] != c,
        decreases s.len() - i,
    {
        i = i + 1;
    }
    i
}

fn all_hex(s: &Vec<char>) -> (res: bool)
    ensures
        res == forall|i: int| 0 <= i < s@.len() ==> is_ascii_hex(#[trigger] s@[i]),
{
    let mut i: usize = 0;
    while i < s.len()
        invariant
            i <= s.len(),
            forall|j: int| 0 <= j < i ==> is_ascii_hex(#[trigger] s@[j]),
        decreases s.len() - i,
    {
        let c = s[i];
        if !(('0' <= c && c <= '9') || ('a' <= c && c <= 'f') || ('A' <= c && c <= 'F')) {
            assert(!is_ascii_hex(s@[i as int]));
            return false;
        }
        i = i + 1;
    }
    true
}

fn split_target(t: &Vec<char>) -> (res: (Vec<char>, Option<Vec<char>>))
    ensures
        (
            res.0@,
            match res.1 {
                Some(s) => Some(s@),
                None => None,
            },
        ) == target_spec(t@),
{
    let k = find_char(t, ':');
    proof {
        let p = |c: char| not_colon(c);
        assert forall|j: int| 0 <= j < k implies p(#[trigger] t@[j]) by {}
        lemma_prefix_while(t@, p, k as int);
    }
    if k < t.len() {
        let d = slice_chars(t, 0, k);
        let rest = slice_chars(t, k + 1, t.len());
        assert(d@ =~= t@.take(k as int));
        assert(rest@ =~= t@.skip(k + 1));
        (d, Some(strip_sec_prefix(&rest)))
    } else {
        let d = slice_chars(t, 0, t.len());
        assert(d@ =~= t@);
        (d, None)
    }
}

fn to_target(doc: &Vec<char>, section: &Option<Vec<char>>) -> (res: Target)
    ensures
        target_view(res) == (
            doc@,
            match section {
                Some(s) => Some(s@),
                None => None,
            },
        ),
{
    Target {
        doc: string_from_chars(doc),
        section: match section {
            Some(s) => Some(string_from_chars(s)),
            None => None,
        },
    }
}

/// Reads the `show` arguments: each is `doc`, `doc:section` or
/// `doc:sec:section`; two arguments `doc section` (the second starting with
/// `sec:`, or a hex ID with no `/`) mean one section of one doc.
pub fn parse_targets(targets: &Vec<String>) -> (res: Vec<Target>)
    ensures
        res@.map_values(|t: Target| target_view(t)) == parse_targets_spec(
            targets@.map_values(|s: String| s@),
        ),
{
    let ghost ts = targets@.map_values(|s: String| s@);
    if targets.len() == 2 {
        let t0 = chars_of(targets[0].as_str());
        let t1 = chars_of(targets[1].as_str());
        assert(t0@ == ts[0] && t1@ == ts[1]);
        let p = sec_prefix_chars();
        let has_sec = starts_with_chars(&t1, &p);
        let c0 = find_char(&t0, ':');
        let s1 = find_char(&t1, '/');
        proof {
            if c0 < t0.len() {
                assert(contains_char(ts[0], ':'));
            }
            if s1 < t1.len() {
                assert(contains_char(ts[1], '/'));
            }
        }
        if c0 == t0.len() && (has_sec || s1 == t1.len()) {
            let sec = strip_sec_prefix(&t1);
            if has_sec || all_hex(&sec) {
                let mut out: Vec<Target> = Vec::new();
                out.push(to_target(&t0, &Some(sec)));
                assert(is_doc_section_pair(ts));
                assert(out@.map_values(|t: Target| target_view(t)) =~= parse_targets_spec(ts));
                return out;
            }
        }
    }
    let mut out: Vec<Target> = Vec::new();
    let mut i: usize = 0;
    while i < targets.len()
        invariant
            i <= targets.len(),
            ts == targets@.map_values(|s: String| s@),
            out@.map_values(|t: Target| target_view(t)) == ts.take(i as int).map_values(
                |t: Seq<char>| target_spec(t),
            ),
        decreases targets.len() - i,
    {
        let t = chars_of(targets[i].as_str());
        let (d, s) = split_target(&t);
        let ghost before = out@.map_values(|t: Target| target_view(t));
        let tg = to_target(&d, &s);
        out.push(tg);
        i = i + 1;
        assert(out@.map_values(|t: Target| target_view(t)) =~= before.push(target_spec(ts[i - 1])));
        assert(ts.take(i as int).map_values(|t: Seq<char>| target_spec(t)) =~= ts.take(
            i - 1,
        ).map_values(|t: Seq<char>| target_spec(t)).push(target_spec(ts[i - 1])));
    }
    assert(ts.take(i as int) =~= ts);
    assert(!is_doc_section_pair(ts));
    out
}

// ---------------------------------------------------------------------------
// Code stripping
// ---------------------------------------------------------------------------

/// `[code: N lines]` followed by a newline.
pub open spec fn placeholder(n: nat) -> Seq<char> {
    seq!['[', 'c', 'o', 'd', 'e', ':', ' '] + dec(n) + seq![' ', 'l', 'i', 'n', 'e', 's', ']', '\n']
}

/// Code stripping over the newline-terminated pieces `ps[i..]`: prose is
/// kept as is, each fenced block (fences included) becomes a placeholder
/// with its number of body lines, and an unclosed fence with a non-empty
/// body still gets one.
pub open spec fn strip_code_from(ps: Seq<Seq<char>>, i: int, in_fence: bool, count: nat) -> Seq<
    char,
>
    decreases ps.len() - i,
{
    if i < 0 || i >= ps.len() {
        if in_fence && count > 0 {
            placeholder(count)
        } else {
            seq![]
        }
    } else if is_fence(ps[i]) {
        if in_fence {
            placeholder(count) + strip_code_from(ps, i + 1, false, 0)
        } else {
            strip_code_from(ps, i + 1, true, count)
        }
    } else if in_fence {
        strip_code_from(ps, i + 1, in_fence, count + 1)
    } else {
        ps[i] + strip_code_from(ps, i + 1, in_fence, count)
    }
}

/// `text` with each fenced code block replaced by a `[code: N lines]`
/// placeholder when `no_code`, else unchanged.
pub open spec fn prepare_spec(text: Seq<char>, no_code: bool) -> Seq<char> {
    if !no_code {
        text
    } else {
        strip_code_from(split_inclusive_nl(text), 0, false, 0)
    }
}

/// The pieces that code stripping emits over `ps[i..]`: kept prose lines
/// and placeholders, in order.
pub open spec fn code_pieces(ps: Seq<Seq<char>>, i: int, in_fence: bool, count: nat) -> Seq<
    Seq<char>,
>
    decreases ps.len() - i,
{
    if i < 0 || i >= ps.len() {
        if in_fence && count > 0 {
            seq![placeholder(count)]
        } else {
            seq![]
        }
    } else if is_fence(ps[i]) {
        if in_fence {
            seq![placeholder(count)] + code_pieces(ps, i + 1, false, 0)
        } else {
            code_pieces(ps, i + 1, true, count)
        }
    } else if in_fence {
        code_pieces(ps, i + 1, in_fence, count + 1)
    } else {
        seq![ps[i]] + code_pieces(ps, i + 1, in_fence, count)
    }
}

/// Pieces laid end to end.
pub open spec fn flat(pieces: Seq<Seq<char>>) -> Seq<char>
    decreases pieces.len(),
{
    if pieces.len() == 0 {
        seq![]
    } else {
        pieces[0] + flat(pieces.drop_first())
    }
}

/// Non-empty lines with a newline, if any, only at their end, every one
/// but the last ending in a newline.
pub open spec fn well_split(pieces: Seq<Seq<char>>) -> bool {
    forall|k: int|
        0 <= k < pieces.len() ==> {
            &&& (#[trigger] pieces[k]).len() > 0
            &&& forall|j: int| 0 <= j < pieces[k].len() - 1 ==> pieces[k][j] != '\n'
            &&& k < pieces.len() - 1 ==> pieces[k].last() == '\n'
        }
}

proof fn lemma_dec_digits(n: nat)
    ensures
        forall|j: int| 0 <= j < dec(n).len() ==> '0' <= #[trigger] dec(n)[j] <= '9',
        dec(n).len() > 0,
    decreases n,
{
    if n >= 10 {
        lemma_dec_digits(n / 10);
        let d = dec(n);
        assert forall|j: int| 0 <= j < d.len() implies '0' <= #[trigger] d[j] <= '9' by {
            if j < d.len() - 1 {
                assert(d[j] == dec(n / 10)[j]);
            }
        }
    }
}

proof fn lemma_placeholder_line(n: nat)
    ensures
        placeholder(n).len() > 0,
        placeholder(n).last() == '\n',
        forall|j: int| 0 <= j < placeholder(n).len() - 1 ==> #[trigger] placeholder(n)[j] != '\n',
        !is_fence(placeholder(n)),
{
    lemma_dec_digits(n);
    let p = placeholder(n);
    let d = dec(n);
    assert forall|j: int| 0 <= j < p.len() - 1 implies #[trigger] p[j] != '\n' by {
        if 7 <= j < 7 + d.len() {
            assert(p[j] == d[j - 7]);
        }
    }
    lemma_prefix_while(p, |c: char| crate::text::is_ws(c), 0);
    assert(crate::text::trim_start(p) =~= p);
    assert(p.take(3)[0] == '[');
}

proof fn lemma_split_well(s: Seq<char>)
    ensures
        well_split(split_inclusive_nl(s)),
    decreases s.len(),
{
    if s.len() > 0 {
        let k = newline_pos(s);
        crate::text::lemma_prefix_while_facts(s, |c: char| crate::text::not_newline(c));
        let r = split_inclusive_nl(s);
        if k >= s.len() {
            assert(r == seq![s]);
        } else {
            lemma_split_well(s.skip(k + 1 as int));
            let rest = split_inclusive_nl(s.skip(k + 1 as int));
            assert(r == seq![s.take(k + 1 as int)] + rest);
            assert forall|m: int| 0 <= m < r.len() implies {
                &&& (#[trigger] r[m]).len() > 0
                &&& forall|j: int| 0 <= j < r[m].len() - 1 ==> r[m][j] != '\n'
                &&& m < r.len() - 1 ==> r[m].last() == '\n'
            } by {
                if m > 0 {
                    assert(r[m] == rest[m - 1]);
                } else {
                    assert(r[0] == s.take(k + 1 as int));
                    assert forall|j: int| 0 <= j < r[0].len() - 1 implies r[0][j] != '\n' by {
                        assert(r[0][j] == s[j]);
                        assert(crate::text::not_newline(s[j]));
                    }
                }
            }
        }
    }
}

proof fn lemma_code_pieces_flat(ps: Seq<Seq<char>>, i: int, in_fence: bool, count: nat)
    requires
        0 <= i,
    ensures
        strip_code_from(ps, i, in_fence, count) == flat(code_pieces(ps, i, in_fence, count)),
    decreases ps.len() - i,
{
    if i < ps.len() {
        if is_fence(ps[i]) {
            if in_fence {
                lemma_code_pieces_flat(ps, i + 1, false, 0);
                let r = code_pieces(ps, i + 1, false, 0);
                assert((seq![placeholder(count)] + r).drop_first() =~= r);
                assert((seq![placeholder(count)] + r)[0] == placeholder(count));
            } else {
                lemma_code_pieces_flat(ps, i + 1, true, count);
            }
        } else if in_fence {
            lemma_code_pieces_flat(ps, i + 1, in_fence, count + 1);
        } else {
            lemma_code_pieces_flat(ps, i + 1, in_fence, count);
            let r = code_pieces(ps, i + 1, in_fence, count);
            assert((seq![ps[i]] + r).drop_first() =~= r);
            assert((seq![ps[i]] + r)[0] == ps[i]);
        }
    } else {
        assert(flat(Seq::<Seq<char>>::empty()) == Seq::<char>::empty());
        if in_fence && count > 0 {
            assert(seq![placeholder(count)].drop_first() =~= Seq::<Seq<char>>::empty());
            assert(placeholder(count) + Seq::<char>::empty() =~= placeholder(count));
        }
    }
}

proof fn lemma_code_pieces_well(ps: Seq<Seq<char>>, i: int, in_fence: bool, count: nat)
    requires
        0 <= i,
        well_split(ps),
    ensures
        well_split(code_pieces(ps, i, in_fence, count)),
        forall|k: int|
            0 <= k < code_pieces(ps, i, in_fence, count).len() ==> !is_fence(
                #[trigger] code_pieces(ps, i, in_fence, count)[k],
            ),
        i >= ps.len() && !in_fence ==> code_pieces(ps, i, in_fence, count).len() == 0,
    decreases ps.len() - i,
{
    let r = code_pieces(ps, i, in_fence, count);
    lemma_placeholder_line(count);
    lemma_placeholder_line(0);
    if i < ps.len() {
        if is_fence(ps[i]) {
            if in_fence {
                lemma_code_pieces_well(ps, i + 1, false, 0);
                let t = code_pieces(ps, i + 1, false, 0);
                assert forall|k: int| 0 <= k < r.len() implies {
                    &&& (#[trigger] r[k]).len() > 0
                    &&& forall|j: int| 0 <= j < r[k].len() - 1 ==> r[k][j] != '\n'
                    &&& k < r.len() - 1 ==> r[k].last() == '\n'
                } && !is_fence(r[k]) by {
                    if k > 0 {
                        assert(r[k] == t[k - 1]);
                    }
                }
            } else {
                lemma_code_pieces_well(ps, i + 1, true, count);
            }
        } else if in_fence {
            lemma_code_pieces_well(ps, i + 1, in_fence, count + 1);
        } else {
            lemma_code_pieces_well(ps, i + 1, in_fence, count);
            let t = code_pieces(ps, i + 1, in_fence, count);
            assert(ps[i].len() > 0);
            assert forall|k: int| 0 <= k < r.len() implies {
                &&& (#[trigger] r[k]).len() > 0
                &&& forall|j: int| 0 <= j < r[k].len() - 1 ==> r[k][j] != '\n'
                &&& k < r.len() - 1 ==> r[k].last() == '\n'
            } && !is_fence(r[k]) by {
                if k > 0 {
                    assert(r[k] == t[k - 1]);
                } else {
                    assert(r[0] == ps[i]);
                    if r.len() > 1 {
                        assert(i < ps.len() - 1);
                    }
                }
            }
        }
    }
}

proof fn lemma_split_of_flat(pieces: Seq<Seq<char>>)
    requires
        well_split(pieces),
    ensures
        split_inclusive_nl(flat(pieces)) == pieces,
    decreases pieces.len(),
{
    if pieces.len() > 0 {
        let p = pieces[0];
        let rest = pieces.drop_first();
        assert(well_split(rest)) by {
            assert forall|k: int| 0 <= k < rest.len() implies {
                &&& (#[trigger] rest[k]).len() > 0
                &&& forall|j: int| 0 <= j < rest[k].len() - 1 ==> rest[k][j] != '\n'
                &&& k < rest.len() - 1 ==> rest[k].last() == '\n'
            } by {
                assert(rest[k] == pieces[k + 1]);
            }
        }
        lemma_split_of_flat(rest);
        let s = flat(pieces);
        assert(s == p + flat(rest));
        assert(p.len() > 0);
        if rest.len() == 0 {
            assert(flat(rest) == Seq::<char>::empty());
            assert(s =~= p);
            if p.last() == '\n' {
                assert forall|j: int| 0 <= j < p.len() - 1 implies crate::text::not_newline(
                    #[trigger] s[j],
                ) by {}
                lemma_prefix_while(s, |c: char| crate::text::not_newline(c), p.len() - 1);
                assert(s.take(p.len() as int) =~= s);
                assert(s.skip(p.len() as int) =~= Seq::<char>::empty());
                assert(split_inclusive_nl(Seq::<char>::empty()) == Seq::<Seq<char>>::empty());
                assert(seq![p] + Seq::<Seq<char>>::empty() =~= pieces);
            } else {
                assert forall|j: int| 0 <= j < p.len() implies crate::text::not_newline(
                    #[trigger] s[j],
                ) by {
                    if j == p.len() - 1 {
                        assert(s[j] == p.last());
                    }
                }
                lemma_prefix_while(s, |c: char| crate::text::not_newline(c), p.len() as int);
                assert(seq![s] =~= pieces);
            }
        } else {
            assert(p.last() == '\n');
            assert forall|j: int| 0 <= j < p.len() - 1 implies crate::text::not_newline(
                #[trigger] s[j],
            ) by {
                assert(s[j] == p[j]);
            }
            assert(s[p.len() - 1] == p.last());
            lemma_prefix_while(s, |c: char| crate::text::not_newline(c), p.len() - 1);
            assert(s.take(p.len() as int) =~= p);
            assert(s.skip(p.len() as int) =~= flat(rest));
            assert(seq![p] + rest =~= pieces);
        }
    }
}

proof fn lemma_strip_no_fences(ps: Seq<Seq<char>>, i: int)
    requires
        0 <= i <= ps.len(),
        forall|k: int| 0 <= k < ps.len() ==> !is_fence(#[trigger] ps[k]),
    ensures
        strip_code_from(ps, i, false, 0) == flat(ps.skip(i)),
    decreases ps.len() - i,
{
    if i < ps.len() {
        lemma_strip_no_fences(ps, i + 1);
        assert(ps.skip(i).drop_first() =~= ps.skip(i + 1));
        assert(ps.skip(i)[0] == ps[i]);
    } else {
        assert(ps.skip(i) =~= Seq::<Seq<char>>::empty());
    }
}

/// A line taken with its newline: it ends in `'\n'` and holds no other.
pub open spec fn nl_line(l: Seq<char>) -> bool {
    l.len() > 0 && l.last() == '\n' && forall|j: int| 0 <= j < l.len() - 1 ==> l[j] != '\n'
}

proof fn lemma_split_flat_prefix(x: Seq<Seq<char>>, r: Seq<char>)
    requires
        forall|k: int| 0 <= k < x.len() ==> nl_line(#[trigger] x[k]),
    ensures
        split_inclusive_nl(flat(x) + r) == x + split_inclusive_nl(r),
    decreases x.len(),
{
    if x.len() == 0 {
        assert(flat(x) + r =~= r);
        assert(x + split_inclusive_nl(r) =~= split_inclusive_nl(r));
    } else {
        let l = x[0];
        let tail = x.drop_first();
        assert forall|k: int| 0 <= k < tail.len() implies nl_line(#[trigger] tail[k]) by {
            assert(tail[k] == x[k + 1]);
        }
        lemma_split_flat_prefix(tail, r);
        let s = flat(x) + r;
        assert(nl_line(l));
        assert(s =~= l + (flat(tail) + r));
        let k = l.len() - 1;
        assert forall|j: int| 0 <= j < k implies crate::text::not_newline(#[trigger] s[j]) by {
            assert(s[j] == l[j]);
        }
        assert(s[k] == l[k]);
        crate::text::lemma_prefix_while(s, |c: char| crate::text::not_newline(c), k);
        assert(s.take(k + 1) =~= l);
        assert(s.skip(k + 1) =~= flat(tail) + r);
        assert(x =~= seq![l] + tail);
        assert(x + split_inclusive_nl(r) =~= seq![l] + (tail + split_inclusive_nl(r)));
    }
}

proof fn lemma_strip_shift(ps: Seq<Seq<char>>, d: int, i: int, f: bool, c: nat)
    requires
        0 <= d <= i,
        d <= ps.len(),
    ensures
        strip_code_from(ps, i, f, c) == strip_code_from(ps.skip(d), i - d, f, c),
    decreases ps.len() - i,
{
    if i < ps.len() {
        assert(ps.skip(d)[i - d] == ps[i]);
        lemma_strip_shift(ps, d, i + 1, false, 0);
        lemma_strip_shift(ps, d, i + 1, true, c);
        lemma_strip_shift(ps, d, i + 1, f, c);
        lemma_strip_shift(ps, d, i + 1, f, c + 1);
    }
}

proof fn lemma_strip_prose(ps: Seq<Seq<char>>, i: int, m: int)
    requires
        0 <= i <= m <= ps.len(),
        forall|k: int| i <= k < m ==> !is_fence(#[trigger] ps[k]),
    ensures
        strip_code_from(ps, i, false, 0) == flat(ps.subrange(i, m)) + strip_code_from(ps, m, false, 0),
    decreases m - i,
{
    if i < m {
        lemma_strip_prose(ps, i + 1, m);
        let sub = ps.subrange(i, m);
        assert(sub[0] == ps[i]);
        assert(sub.drop_first() =~= ps.subrange(i + 1, m));
        assert(ps[i] + (flat(ps.subrange(i + 1, m)) + strip_code_from(ps, m, false, 0)) =~= (ps[i]
            + flat(ps.subrange(i + 1, m))) + strip_code_from(ps, m, false, 0));
    } else {
        assert(ps.subrange(i, m) =~= Seq::<Seq<char>>::empty());
        assert(flat(ps.subrange(i, m)) + strip_code_from(ps, m, false, 0) =~= strip_code_from(
            ps,
            m,
            false,
            0,
        ));
    }
}

proof fn lemma_strip_body(ps: Seq<Seq<char>>, i: int, m: int, c: nat)
    requires
        0 <= i <= m <= ps.len(),
        forall|k: int| i <= k < m ==> !is_fence(#[trigger] ps[k]),
    ensures
        strip_code_from(ps, i, true, c) == strip_code_from(ps, m, true, (c + (m - i)) as nat),
    decreases m - i,
{
    if i < m {
        lemma_strip_body(ps, i + 1, m, c + 1);
    }
}

/// Each fenced block becomes one placeholder counting only its own body
/// lines: a text made of prose lines, an opening fence, body lines, a
/// closing fence and then any rest comes out as the prose, a placeholder
/// for the body's line count, and the rest prepared on its own.
pub proof fn lemma_prepare_block(
    pre: Seq<Seq<char>>,
    open: Seq<char>,
    body: Seq<Seq<char>>,
    close: Seq<char>,
    rest: Seq<char>,
)
    requires
        forall|k: int| 0 <= k < pre.len() ==> nl_line(#[trigger] pre[k]) && !is_fence(pre[k]),
        forall|k: int| 0 <= k < body.len() ==> nl_line(#[trigger] body[k]) && !is_fence(body[k]),
        nl_line(open),
        nl_line(close),
        is_fence(open),
        is_fence(close),
    ensures
        prepare_spec(flat(pre + seq![open] + body + seq![close]) + rest, true) == flat(pre)
            + placeholder(body.len()) + prepare_spec(rest, true),
{
    let x = pre + seq![open] + body + seq![close];
    let m = pre.len() as int;
    let n = body.len() as int;
    assert forall|k: int| 0 <= k < x.len() implies nl_line(#[trigger] x[k]) by {
        if k < m {
            assert(x[k] == pre[k]);
        } else if k == m {
            assert(x[k] == open);
        } else if k < m + 1 + n {
            assert(x[k] == body[k - m - 1]);
        } else {
            assert(x[k] == close);
        }
    }
    lemma_split_flat_prefix(x, rest);
    let ps = x + split_inclusive_nl(rest);
    assert forall|k: int| 0 <= k < m implies !is_fence(#[trigger] ps[k]) by {
        assert(ps[k] == pre[k]);
    }
    assert forall|k: int| m + 1 <= k < m + 1 + n implies !is_fence(#[trigger] ps[k]) by {
        assert(ps[k] == body[k - m - 1]);
    }
    assert(ps[m] == open);
    assert(ps[m + 1 + n] == close);
    lemma_strip_prose(ps, 0, m);
    assert(ps.subrange(0, m) =~= pre);
    lemma_strip_body(ps, m + 1, m + 1 + n, 0);
    lemma_strip_shift(ps, m + 2 + n, m + 2 + n, false, 0);
    assert(ps.skip(m + 2 + n) =~= split_inclusive_nl(rest));
    assert(flat(pre) + (placeholder(n as nat) + prepare_spec(rest, true)) =~= flat(pre)
        + placeholder(n as nat) + prepare_spec(rest, true));
}

/// Prose lines before any fence are kept exactly as they are, and what
/// follows is prepared on its own.
pub proof fn lemma_prepare_prose(pre: Seq<Seq<char>>, rest: Seq<char>)
    requires
        forall|k: int| 0 <= k < pre.len() ==> nl_line(#[trigger] pre[k]) && !is_fence(pre[k]),
    ensures
        prepare_spec(flat(pre) + rest, true) == flat(pre) + prepare_spec(rest, true),
{
    let m = pre.len() as int;
    lemma_split_flat_prefix(pre, rest);
    let ps = pre + split_inclusive_nl(rest);
    assert forall|k: int| 0 <= k < m implies !is_fence(#[trigger] ps[k]) by {
        assert(ps[k] == pre[k]);
    }
    lemma_strip_prose(ps, 0, m);
    assert(ps.subrange(0, m) =~= pre);
    lemma_strip_shift(ps, m, m, false, 0);
    assert(ps.skip(m) =~= split_inclusive_nl(rest));
}

pub proof fn lemma_prepare_laws(text: Seq<char>)
    ensures
        forall|k: int|
            0 <= k < split_inclusive_nl(prepare_spec(text, true)).len() ==> !is_fence(
                #[trigger] split_inclusive_nl(prepare_spec(text, true))[k],
            ),
        prepare_spec(prepare_spec(text, true), true) == prepare_spec(text, true),
{
    let ps = split_inclusive_nl(text);
    lemma_split_well(text);
    lemma_code_pieces_flat(ps, 0, false, 0);
    lemma_code_pieces_well(ps, 0, false, 0);
    let pieces = code_pieces(ps, 0, false, 0);
    lemma_split_of_flat(pieces);
    lemma_strip_no_fences(pieces, 0);
    assert(pieces.skip(0) =~= pieces);
}

/// Executable `split_inclusive_nl`.
pub fn split_inclusive_lines(s: &Vec<char>) -> (res: Vec<Vec<char>>)
    ensures
        crate::text::views(res@) == split_inclusive_nl(s@),
{
    let mut out: Vec<Vec<char>> = Vec::new();
    let mut pos: usize = 0;
    assert(s@.skip(0) =~= s@);
    assert(crate::text::views(out@) + split_inclusive_nl(s@) =~= split_inclusive_nl(s@));
    while pos < s.len()
        invariant
            pos <= s.len(),
            split_inclusive_nl(s@) == crate::text::views(out@) + split_inclusive_nl(
                s@.skip(pos as int),
            ),
        decreases s.len() - pos,
    {
        let k = find_newline(s, pos);
        let ghost rest = s@.skip(pos as int);
        let ghost before = crate::text::views(out@);
        let end = if k < s.len() {
            k + 1
        } else {
            k
        };
        let piece = slice_chars(s, pos, end);
        let ghost pv = piece@;
        out.push(piece);
        assert(crate::text::views(out@) =~= before.push(pv));
        if k < s.len() {
            assert(rest.take(k - pos + 1) =~= pv);
            assert(rest.skip(k - pos + 1) =~= s@.skip(k + 1));
        } else {
            assert(rest =~= pv);
            assert(s@.skip(end as int) =~= Seq::<char>::empty());
            assert(split_inclusive_nl(s@.skip(end as int)) =~= Seq::<Seq<char>>::empty());
        }
        pos = end;
    }
    assert(crate::text::views(out@) + split_inclusive_nl(s@.skip(pos as int))
        =~= crate::text::views(out@));
    out
}

fn push_placeholder(out: &mut Vec<char>, n: usize)
    ensures
        final(out)@ == old(out)@ + placeholder(n as nat),
{
    let ghost start = out@;
    push_str(out, "[code: ");
    let d = fmt_usize(n);
    push_chars(out, &d);
    push_str(out, " lines]\n");
    proof {
        reveal_strlit("[code: ");
        reveal_strlit(" lines]\n");
        assert(out@ =~= start + placeholder(n as nat));
    }
}

/// If `no_code`, replace each fenced code block with `[code: N lines]`
/// placeholder. Otherwise return the input unchanged.
pub fn prepare_chars(text: &Vec<char>, no_code: bool) -> (res: Vec<char>)
    ensures
        res@ == prepare_spec(text@, no_code),
{
    if !no_code {
        return slice_chars(text, 0, text.len());
    }
    let ps = split_inclusive_lines(text);
    let ghost pv = crate::text::views(ps@);
    let mut out: Vec<char> = Vec::new();
    let mut in_fence = false;
    let mut count: usize = 0;
    let mut i: usize = 0;
    assert(out@ + strip_code_from(pv, 0, false, 0) =~= strip_code_from(pv, 0, false, 0));
    while i < ps.len()
        invariant
            i <= ps.len(),
            pv == crate::text::views(ps@),
            count <= i,
            prepare_spec(text@, no_code) == out@ + strip_code_from(pv, i as int, in_fence, count as nat),
        decreases ps.len() - i,
    {
        let line = &ps[i];
        assert(pv[i as int] == line@);
        let ghost before = out@;
        if is_fence_line(line) {
            if in_fence {
                let ghost c0 = count;
                push_placeholder(&mut out, count);
                count = 0;
                in_fence = false;
                assert(before + (placeholder(c0 as nat) + strip_code_from(pv, i + 1, false, 0))
                    =~= out@ + strip_code_from(pv, i + 1, false, 0));
            } else {
                in_fence = true;
            }
        } else if in_fence {
            count = count + 1;
        } else {
            push_chars(&mut out, line);
            assert(before + (line@ + strip_code_from(pv, i + 1, in_fence, count as nat)) =~= out@ + strip_code_from(pv, i + 1, in_fence, count as nat));
        }
        i = i + 1;
    }
    if in_fence && count > 0 {
        push_placeholder(&mut out, count);
    } else {
        assert(out@ + Seq::<char>::empty() =~= out@);
    }
    out
}

/// If `budget.no_code`, replaces each fenced code block with a
/// `[code: N lines]` placeholder; otherwise returns the text unchanged.
pub fn prepare(text: &str, budget: &Budget) -> (res: String)
    ensures
        res@ == prepare_spec(text@, budget.no_code),
{
    let c = chars_of(text);
    let out = prepare_chars(&c, budget.no_code);
    string_from_chars(&out)
}

// ---------------------------------------------------------------------------
// Token budgets
// ---------------------------------------------------------------------------

/// The token budget of a `show`.
#[derive(Debug, Clone, Copy, PartialEq, Eq)]
pub struct Budget {
    pub max_tokens: Option<usize>,
    pub start_token: usize,
    pub no_code: bool,
}

/// The text to emit under a budget: the `truncate` window when a maximum
/// is set, else the whole text.
pub open spec fn budget_text(text: Seq<char>, budget: Budget) -> Seq<char> {
    match budget.max_tokens {
        Some(max) => truncated_text(text, budget.start_token as nat, max as nat),
        None => text,
    }
}

/// Apply token budget for plain-text output. Returns the (possibly
/// truncated) text.
pub fn maybe_truncate(text: &str, budget: &Budget) -> (res: String)
    ensures
        res@ == budget_text(text@, *budget),
{
    match budget.max_tokens {
        Some(max) => truncate(text, budget.start_token, max).text,
        None => text.to_owned(),
    }
}

/// The `end_token` reported with a budget: the start plus the number of
/// tokens that fit, `start + min(max, total - start)`, or the start itself
/// when it is past the end.
pub open spec fn end_token_spec(start: nat, max: nat, total: nat) -> nat {
    if start < total {
        start + if max < total - start {
            max
        } else {
            (total - start) as nat
        }
    } else {
        start
    }
}

/// `start + min(max, total.saturating_sub(start))`.
pub fn end_token(start: usize, max: usize, total: usize) -> (res: usize)
    ensures
        res == end_token_spec(start as nat, max as nat, total as nat),
{
    if start < total {
        let room = total - start;
        start + if max < room {
            max
        } else {
            room
        }
    } else {
        start
    }
}

/// The `end_token` reported with a budget is where the truncation window
/// ends whenever the start lies within the text.
pub proof fn lemma_end_token_is_window_end(start: nat, max: nat, total: nat)
    requires
        start <= total,
    ensures
        end_token_spec(start, max, total) == window_end(total, start, max),
{
}

/// The stored contents of a doc's sections, in order, laid end to end: the
/// full document.
pub fn join_contents(blobs: &Vec<Vec<u8>>) -> (res: Vec<u8>)
    ensures
        res@ == concat(blobs@.map_values(|b: Vec<u8>| b@)),
{
    let ghost parts = blobs@.map_values(|b: Vec<u8>| b@);
    let mut out: Vec<u8> = Vec::new();
    let mut i: usize = 0;
    while i < blobs.len()
        invariant
            i <= blobs.len(),
            parts == blobs@.map_values(|b: Vec<u8>| b@),
            out@ == concat(parts.take(i as int)),
        decreases blobs.len() - i,
    {
        let ghost before = out@;
        let b = &blobs[i];
        let mut j: usize = 0;
        while j < b.len()
            invariant
                j <= b.len(),
                out@ == before + b@.take(j as int),
            decreases b.len() - j,
        {
            out.push(b[j]);
            j = j + 1;
            assert(b@.take(j as int) =~= b@.take(j - 1 as int).push(b@[j - 1 as int]));
        }
        assert(b@.take(b@.len() as int) =~= b@);
        assert(parts.take(i + 1).drop_last() =~= parts.take(i as int));
        assert(parts.take(i + 1).last() == b@);
        i = i + 1;
    }
    assert(parts.take(parts.len() as int) =~= parts);
    out
}

/// The budget fields of structured `show` output.
#[derive(Debug, Clone, Copy, PartialEq, Eq)]
pub struct Window {
    pub start_token: usize,
    pub end_token: usize,
    pub truncated: bool,
}

/// What structured `show` output holds for a doc or a section.
#[derive(Debug, Clone)]
pub struct ShowContent {
    pub doc_id: String,
    pub path: String,
    pub title: Option<String>,
    pub section_id: Option<String>,
    pub heading: Option<String>,
    pub tokens: i64,
    /// The (prepared) text, cut to the token window when a budget is set.
    pub content: String,
    /// The token window, when a budget is set.
    pub window: Option<Window>,
}

pub open spec fn opt_view(o: Option<String>) -> Option<Seq<char>> {
    match o {
        Some(s) => Some(s@),
        None => None,
    }
}

/// The content and budget fields for prepared text `raw` under `budget`.
pub open spec fn content_fields(raw: Seq<char>, budget: Budget) -> (Seq<char>, Option<Window>) {
    match budget.max_tokens {
        Some(max) => {
            let total = cl100k_encode(raw).len();
            (
                truncated_text(raw, budget.start_token as nat, max as nat),
                Some(
                    Window {
                        start_token: budget.start_token,
                        end_token: end_token_spec(budget.start_token as nat, max as nat, total)
                            as usize,
                        truncated: window_end(total, budget.start_token as nat, max as nat)
                            < total,
                    },
                ),
            )
        },
        None => (raw, None),
    }
}

/// Builds the structured output of a doc or section: its identity fields as
/// given, and the prepared text `raw` under the budget, with the token
/// window it was cut to.
pub fn content_json(
    doc_id: &str,
    path: &str,
    title: Option<String>,
    section_id: Option<String>,
    heading: Option<String>,
    tokens: i64,
    raw: &str,
    budget: &Budget,
) -> (res: ShowContent)
    ensures
        res.doc_id@ == doc_id@,
        res.path@ == path@,
        opt_view(res.title) == opt_view(title),
        opt_view(res.section_id) == opt_view(section_id),
        opt_view(res.heading) == opt_view(heading),
        res.tokens == tokens,
        (res.content@, res.window) == content_fields(raw@, *budget),
{
    let (content, window) = match budget.max_tokens {
        Some(max) => {
            let t = truncate(raw, budget.start_token, max);
            let end = end_token(budget.start_token, max, t.total_tokens);
            (
                t.text,
                Some(Window { start_token: budget.start_token, end_token: end, truncated: t.truncated }),
            )
        },
        None => (raw.to_owned(), None),
    };
    ShowContent {
        doc_id: doc_id.to_owned(),
        path: path.to_owned(),
        title,
        section_id,
        heading,
        tokens,
        content,
        window,
    }
}

// ---------------------------------------------------------------------------
// Section lookup
// ---------------------------------------------------------------------------

/// A stored section found by ID prefix.
#[derive(Debug, Clone)]
pub struct SectionHit {
    pub section_id: String,
    pub heading: String,
    pub tokens: i64,
    pub content: Vec<u8>,
}

/// The sections of `doc_id` whose IDs start with `sec_prefix`: resolved
/// when exactly one matches, else an error naming the prefix.
pub fn resolve_section(doc_id: &str, sec_prefix: &str, rows: Vec<SectionHit>) -> (res: Result<
    SectionHit,
    LookupError,
>)
    ensures
        rows@.len() == 1 <==> res is Ok,
        res matches Ok(hit) ==> hit == rows@[0],
        rows@.len() == 0 ==> (res matches Err(LookupError::NoSection { prefix, doc_id: d })
            && prefix@ == sec_prefix@ && d@ == doc_id@),
        rows@.len() > 1 ==> (res matches Err(LookupError::AmbiguousSection { prefix, candidates })
            && prefix@ == sec_prefix@ && candidates@.len() == rows@.len() && forall|i: int|
            0 <= i < rows@.len() ==> (#[trigger] candidates@[i])@ == rows@[i].section_id@),
{
    if rows.len() == 0 {
        return Err(LookupError::NoSection { prefix: sec_prefix.to_owned(), doc_id: doc_id.to_owned() });
    }
    if rows.len() == 1 {
        let mut r = rows;
        let hit = r.pop().unwrap();
        return Ok(hit);
    }
    let mut ids: Vec<String> = Vec::new();
    let mut i: usize = 0;
    while i < rows.len()
        invariant
            i <= rows.len(),
            ids@.len() == i,
            forall|j: int| 0 <= j < i ==> (#[trigger] ids@[j])@ == rows@[j].section_id@,
        decreases rows.len() - i,
    {
        ids.push(copy_string(&rows[i].section_id));
        i = i + 1;
    }
    Err(LookupError::AmbiguousSection { prefix: sec_prefix.to_owned(), candidates: ids })
}

/// A copy of a string.
fn copy_string(s: &String) -> (res: String)
    ensures
        res@ == s@,
{
    s.as_str().to_owned()
}

} // verus!
