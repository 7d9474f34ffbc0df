//! First-sentence snippets and fenced-code accounting for section text.

use crate::text::{
    find_newline, is_blank, is_blank_chars, is_fence, is_fence_line, join, join_chars, lines, lines_of,
    newline_pos, push_chars, slice_chars, string_from_chars, trim, trim_chars, views, words, words_of,
    is_word, is_ws, lemma_join_push, lemma_prefix_while, not_newline, strip_cr, lemma_words_are_words, lemma_words_of_join,
};
use crate::token::{cl100k_encode, count};
use vstd::prelude::*;

verus! {

// ---------------------------------------------------------------------------
// Sentence ends
// ---------------------------------------------------------------------------

/// `.`, `!` or `?`.
pub open spec fn is_terminator(c: char) -> bool {
    c == '.' || c == '!' || c == '?'
}

/// Characters that may follow a terminator for it to end a sentence.
pub open spec fn may_follow_terminator(c: char) -> bool {
    c == ' ' || c == '\t' || c == ')' || c == '"' || c == '\'' || c == '`'
}

pub open spec fn is_ascii_digit(c: char) -> bool {
    '0' <= c && c <= '9'
}

pub open spec fn is_ascii_letter(c: char) -> bool {
    ('a' <= c && c <= 'z') || ('A' <= c && c <= 'Z')
}

/// Whether the `.` at `i` closes an abbreviation of single letters and dots
/// such as `e.g.` or `i.e.`.
pub open spec fn closes_abbreviation(s: Seq<char>, i: int) -> bool {
    i >= 3 && s[i] == '.' && is_ascii_letter(s[i - 1]) && s[i - 2] == '.' && is_ascii_letter(s[i - 3])
}

/// Scans `s` from index `i` (inside a backtick code span when `in_tick`) for
/// the first real sentence terminator: `.`, `!` or `?` outside backticks,
/// not a `.` right after an ASCII digit (list markers like `1.`), not the
/// `.` that closes an abbreviation like `e.g.`, followed
/// by the end of the text, whitespace (space or tab), `)`, a quote or a
/// backtick. Yields the position just past it.
pub open spec fn sentence_end_from(s: Seq<char>, i: int, in_tick: bool) -> Option<int>
    decreases s.len() - i,
{
    if i < 0 || i >= s.len() {
        None
    } else {
        let c = s[i];
        if c == '`' {
            sentence_end_from(s, i + 1, !in_tick)
        } else if in_tick {
            sentence_end_from(s, i + 1, in_tick)
        } else if is_terminator(c) && !(c == '.' && i > 0 && is_ascii_digit(s[i - 1]))
            && !closes_abbreviation(s, i) && (i + 1 >= s.len() || may_follow_terminator(s[i + 1])) {
            Some(i + 1)
        } else {
            sentence_end_from(s, i + 1, in_tick)
        }
    }
}

/// Position just past the first real sentence terminator of `s`.
pub open spec fn sentence_end(s: Seq<char>) -> Option<int> {
    sentence_end_from(s, 0, false)
}

/// A sentence end lies within the text, after at least one character.
pub proof fn lemma_sentence_end_bounds(s: Seq<char>, i: int, in_tick: bool)
    requires
        0 <= i,
    ensures
        sentence_end_from(s, i, in_tick) matches Some(k) ==> i < k <= s.len(),
    decreases s.len() - i,
{
    if i < s.len() {
        lemma_sentence_end_bounds(s, i + 1, true);
        lemma_sentence_end_bounds(s, i + 1, false);
    }
}

/// Number of backticks among the first `i` characters of `s`.
pub open spec fn ticks_before(s: Seq<char>, i: int) -> nat
    decreases i,
{
    if i <= 0 || s.len() == 0 {
        0
    } else if i > s.len() {
        ticks_before(s, s.len() as int)
    } else {
        ticks_before(s, i - 1) + if s[i - 1] == '`' {
            1nat
        } else {
            0nat
        }
    }
}

/// Whether the character at `i` ends a sentence: it is `.`, `!` or `?`;
/// an even number of backticks precede it (it is outside any code span);
/// it is not a `.` after an ASCII digit nor the `.` closing an
/// abbreviation like `e.g.`; and the text ends after it or a space, tab,
/// `)`, quote or backtick follows.
pub open spec fn ends_sentence_at(s: Seq<char>, i: int) -> bool {
    &&& 0 <= i < s.len()
    &&& (s[i] == '.' || s[i] == '!' || s[i] == '?')
    &&& ticks_before(s, i) % 2 == 0
    &&& !(s[i] == '.' && i > 0 && '0' <= s[i - 1] && s[i - 1] <= '9')
    &&& !(s[i] == '.' && i >= 3 && (('a' <= s[i - 1] && s[i - 1] <= 'z') || ('A' <= s[i - 1]
        && s[i - 1] <= 'Z')) && s[i - 2] == '.' && (('a' <= s[i - 3] && s[i - 3] <= 'z') || (
    'A' <= s[i - 3] && s[i - 3] <= 'Z')))
    &&& (i + 1 == s.len() || s[i + 1] == ' ' || s[i + 1] == '\t' || s[i + 1] == ')' || s[i + 1]
        == '"' || s[i + 1] == '\'' || s[i + 1] == '`')
}

proof fn lemma_sentence_end_scan(s: Seq<char>, i: int)
    requires
        0 <= i <= s.len(),
    ensures
        ({
            let r = sentence_end_from(s, i, ticks_before(s, i) % 2 == 1);
            &&& r matches Some(k) ==> i < k <= s.len() && ends_sentence_at(s, k - 1) && forall|
                j: int,
            | i <= j < k - 1 ==> !ends_sentence_at(s, j)
            &&& r is None ==> forall|j: int| i <= j < s.len() ==> !ends_sentence_at(s, j)
        }),
    decreases s.len() - i,
{
    if i < s.len() {
        lemma_sentence_end_scan(s, i + 1);
        assert(ticks_before(s, i + 1) == ticks_before(s, i) + if s[i] == '`' {
            1nat
        } else {
            0nat
        });
    }
}

/// Where the first sentence ends: just past the first character that ends
/// a sentence (see `ends_sentence_at`), and nowhere when none does.
pub proof fn lemma_sentence_end_law(s: Seq<char>)
    ensures
        sentence_end(s) matches Some(k) ==> ends_sentence_at(s, k - 1) && forall|j: int|
            0 <= j < k - 1 ==> !ends_sentence_at(s, j),
        sentence_end(s) is None ==> forall|j: int| 0 <= j < s.len() ==> !ends_sentence_at(s, j),
        forall|j: int| #[trigger] ends_sentence_at(s, j) ==> (sentence_end(s) matches Some(k) && k
            <= j + 1),
{
    lemma_sentence_end_scan(s, 0);
    assert(ticks_before(s, 0) == 0);
}

fn is_letter(c: char) -> (res: bool)
    ensures
        res == is_ascii_letter(c),
{
    ('a' <= c && c <= 'z') || ('A' <= c && c <= 'Z')
}

/// Executable `sentence_end`.
pub fn find_sentence_end(s: &Vec<char>) -> (res: Option<usize>)
    ensures
        match res {
            Some(k) => sentence_end(s@) == Some(k as int),
            None => sentence_end(s@) is None,
        },
{
    let mut in_tick = false;
    let mut i: usize = 0;
    while i < s.len()
        invariant
            i <= s.len(),
            sentence_end(s@) == sentence_end_from(s@, i as int, in_tick),
        decreases s.len() - i,
    {
        let c = s[i];
        if c == '`' {
            in_tick = !in_tick;
        } else if !in_tick && (c == '.' || c == '!' || c == '?') {
            let after_digit = c == '.' && i > 0 && s[i - 1] >= '0' && s[i - 1] <= '9';
            let abbreviation = c == '.' && i >= 3 && is_letter(s[i - 1]) && s[i - 2] == '.'
                && is_letter(s[i - 3]);
            if !after_digit && !abbreviation {
                if i + 1 >= s.len() {
                    return Some(i + 1);
                }
                let n = s[i + 1];
                if n == ' ' || n == '\t' || n == ')' || n == '"' || n == '\'' || n == '`' {
                    return Some(i + 1);
                }
            }
        }
        i = i + 1;
    }
    None
}

// ---------------------------------------------------------------------------
// Inline HTML
// ---------------------------------------------------------------------------

/// Whether a `<` is open (unclosed by `>`) after reading all of `s`.
pub open spec fn in_tag_after(s: Seq<char>) -> bool
    decreases s.len(),
{
    if s.len() == 0 {
        false
    } else if s.last() == '<' {
        true
    } else if s.last() == '>' {
        false
    } else {
        in_tag_after(s.drop_last())
    }
}

/// `s` with inline HTML tags removed: every `<` and `>` is dropped, and so is
/// every character read while a `<` is open.
pub open spec fn strip_html_spec(s: Seq<char>) -> Seq<char>
    decreases s.len(),
{
    if s.len() == 0 {
        seq![]
    } else {
        let p = s.drop_last();
        let c = s.last();
        if c == '<' || c == '>' || in_tag_after(p) {
            strip_html_spec(p)
        } else {
            strip_html_spec(p).push(c)
        }
    }
}

/// Text without `<` or `>`.
pub open spec fn tag_free(s: Seq<char>) -> bool {
    forall|i: int| 0 <= i < s.len() ==> #[trigger] s[i] != '<' && s[i] != '>'
}

proof fn lemma_not_in_tag(s: Seq<char>)
    requires
        tag_free(s),
    ensures
        !in_tag_after(s),
    decreases s.len(),
{
    if s.len() > 0 {
        assert(s.last() == s[s.len() - 1]);
        assert forall|i: int| 0 <= i < s.drop_last().len() implies #[trigger] s.drop_last()[i] != '<'
            && s.drop_last()[i] != '>' by {
            assert(s.drop_last()[i] == s[i]);
        }
        lemma_not_in_tag(s.drop_last());
    }
}

/// Tag stripping leaves no `<` or `>`, gives tag-free text back unchanged,
/// and so changes nothing the second time.
pub proof fn lemma_strip_html_laws(s: Seq<char>)
    ensures
        tag_free(strip_html_spec(s)),
        tag_free(s) ==> strip_html_spec(s) == s,
        strip_html_spec(strip_html_spec(s)) == strip_html_spec(s),
    decreases s.len(),
{
    if s.len() > 0 {
        let p = s.drop_last();
        lemma_strip_html_laws(p);
        let r = strip_html_spec(s);
        let rp = strip_html_spec(p);
        assert forall|i: int| 0 <= i < r.len() implies #[trigger] r[i] != '<' && r[i] != '>' by {
            if i < rp.len() {
                assert(r[i] == rp[i]);
            }
        }
        if tag_free(s) {
            assert forall|i: int| 0 <= i < p.len() implies #[trigger] p[i] != '<' && p[i] != '>' by {
                assert(p[i] == s[i]);
            }
            lemma_not_in_tag(p);
            assert(s.last() == s[s.len() - 1]);
            assert(p.push(s.last()) =~= s);
        }
    }
    lemma_strip_html_identity(strip_html_spec(s));
}

proof fn lemma_strip_html_identity(s: Seq<char>)
    requires
        tag_free(s),
    ensures
        strip_html_spec(s) == s,
    decreases s.len(),
{
    if s.len() > 0 {
        let p = s.drop_last();
        assert forall|i: int| 0 <= i < p.len() implies #[trigger] p[i] != '<' && p[i] != '>' by {
            assert(p[i] == s[i]);
        }
        lemma_strip_html_identity(p);
        lemma_not_in_tag(p);
        assert(s.last() == s[s.len() - 1]);
        assert(p.push(s.last()) =~= s);
    }
}

/// Removes inline HTML tags: everything from `<` through the next `>`.
pub fn strip_html(s: &Vec<char>) -> (res: Vec<char>)
    ensures
        res@ == strip_html_spec(s@),
{
    let mut out: Vec<char> = Vec::new();
    let mut in_tag = false;
    let mut i: usize = 0;
    while i < s.len()
        invariant
            i <= s.len(),
            out@ == strip_html_spec(s@.take(i as int)),
            in_tag == in_tag_after(s@.take(i as int)),
        decreases s.len() - i,
    {
        let c = s[i];
        if c == '<' {
            in_tag = true;
        } else if c == '>' {
            in_tag = false;
        } else if !in_tag {
            out.push(c);
        }
        i = i + 1;
        assert(s@.take(i as int).drop_last() =~= s@.take(i - 1 as int));
    }
    assert(s@.take(s@.len() as int) =~= s@);
    out
}

// ---------------------------------------------------------------------------
// Fenced code
// ---------------------------------------------------------------------------

/// The bodies of fenced code blocks among `ls[i..]` (each line followed by
/// `'\n'`, fence lines excluded), starting inside a fence when `in_fence`.
pub open spec fn fenced_from(ls: Seq<Seq<char>>, i: int, in_fence: bool) -> Seq<char>
    decreases ls.len() - i,
{
    if i < 0 || i >= ls.len() {
        seq![]
    } else if is_fence(ls[i]) {
        fenced_from(ls, i + 1, !in_fence)
    } else if in_fence {
        ls[i].push('\n') + fenced_from(ls, i + 1, in_fence)
    } else {
        fenced_from(ls, i + 1, in_fence)
    }
}

/// Text of all fenced code bodies of `text`.
pub open spec fn fenced_text(text: Seq<char>) -> Seq<char> {
    fenced_from(lines(text), 0, false)
}

/// Lines laid end to end, each followed by `'\n'`.
pub open spec fn nl_text(ls: Seq<Seq<char>>) -> Seq<char>
    decreases ls.len(),
{
    if ls.len() == 0 {
        seq![]
    } else {
        ls[0].push('\n') + nl_text(ls.drop_first())
    }
}

/// A line as `str::lines` yields it back: no `'\n'` in it and no trailing
/// `'\r'`.
pub open spec fn plain_line(l: Seq<char>) -> bool {
    (forall|j: int| 0 <= j < l.len() ==> l[j] != '\n') && !(l.len() > 0 && l.last() == '\r')
}

proof fn lemma_lines_nl_text(ls: Seq<Seq<char>>, r: Seq<char>)
    requires
        forall|k: int| 0 <= k < ls.len() ==> plain_line(#[trigger] ls[k]),
    ensures
        lines(nl_text(ls) + r) == ls + lines(r),
    decreases ls.len(),
{
    if ls.len() == 0 {
        assert(nl_text(ls) + r =~= r);
        assert(ls + lines(r) =~= lines(r));
    } else {
        let l = ls[0];
        let tail = ls.drop_first();
        assert forall|k: int| 0 <= k < tail.len() implies plain_line(#[trigger] tail[k]) by {
            assert(tail[k] == ls[k + 1]);
        }
        lemma_lines_nl_text(tail, r);
        let s = nl_text(ls) + r;
        assert(plain_line(l));
        assert(s =~= l.push('\n') + (nl_text(tail) + r));
        assert forall|j: int| 0 <= j < l.len() implies not_newline(#[trigger] s[j]) by {
            assert(s[j] == l[j]);
        }
        assert(s[l.len() as int] == '\n');
        lemma_prefix_while(s, |c: char| not_newline(c), l.len() as int);
        assert(s.take(l.len() as int) =~= l);
        assert(strip_cr(l) == l);
        assert(s.skip(l.len() + 1 as int) =~= nl_text(tail) + r);
        assert(ls =~= seq![l] + tail);
        assert(ls + lines(r) =~= seq![l] + (tail + lines(r)));
    }
}

proof fn lemma_fenced_shift(ps: Seq<Seq<char>>, d: int, i: int, f: bool)
    requires
        0 <= d <= i,
        d <= ps.len(),
    ensures
        fenced_from(ps, i, f) == fenced_from(ps.skip(d), i - d, f),
    decreases ps.len() - i,
{
    if i < ps.len() {
        assert(ps.skip(d)[i - d] == ps[i]);
        lemma_fenced_shift(ps, d, i + 1, true);
        lemma_fenced_shift(ps, d, i + 1, false);
    }
}

proof fn lemma_fenced_prose(ps: Seq<Seq<char>>, i: int, m: int)
    requires
        0 <= i <= m <= ps.len(),
        forall|k: int| i <= k < m ==> !is_fence(#[trigger] ps[k]),
    ensures
        fenced_from(ps, i, false) == fenced_from(ps, m, false),
    decreases m - i,
{
    if i < m {
        lemma_fenced_prose(ps, i + 1, m);
    }
}

proof fn lemma_fenced_body(ps: Seq<Seq<char>>, i: int, m: int)
    requires
        0 <= i <= m <= ps.len(),
        forall|k: int| i <= k < m ==> !is_fence(#[trigger] ps[k]),
    ensures
        fenced_from(ps, i, true) == nl_text(ps.subrange(i, m)) + fenced_from(ps, m, true),
    decreases m - i,
{
    if i < m {
        lemma_fenced_body(ps, i + 1, m);
        let sub = ps.subrange(i, m);
        assert(sub[0] == ps[i]);
        assert(sub.drop_first() =~= ps.subrange(i + 1, m));
        assert(nl_text(sub) == ps[i].push('\n') + nl_text(ps.subrange(i + 1, m)));
        assert(fenced_from(ps, i, true) == ps[i].push('\n') + fenced_from(ps, i + 1, true));
        assert(ps[i].push('\n') + (nl_text(ps.subrange(i + 1, m)) + fenced_from(ps, m, true))
            =~= (ps[i].push('\n') + nl_text(ps.subrange(i + 1, m))) + fenced_from(ps, m, true));
    } else {
        assert(ps.subrange(i, m) =~= Seq::<Seq<char>>::empty());
        assert(nl_text(ps.subrange(i, m)) + fenced_from(ps, m, true) =~= fenced_from(ps, m, true));
    }
}

/// The code text of a document is taken block by block: for a text made of
/// prose lines, an opening fence, body lines, a closing fence and then any
/// rest, it is the block's body lines (each with its newline) followed by
/// the code text of the rest. Every closed block counts, not only the
/// first, and each counts only its own body.
pub proof fn lemma_fenced_text_block(
    pre: Seq<Seq<char>>,
    open: Seq<char>,
    body: Seq<Seq<char>>,
    close: Seq<char>,
    rest: Seq<char>,
)
    requires
        forall|k: int| 0 <= k < pre.len() ==> plain_line(#[trigger] pre[k]) && !is_fence(pre[k]),
        forall|k: int| 0 <= k < body.len() ==> plain_line(#[trigger] body[k]) && !is_fence(body[k]),
        plain_line(open),
        plain_line(close),
        is_fence(open),
        is_fence(close),
    ensures
        fenced_text(nl_text(pre + seq![open] + body + seq![close]) + rest) == nl_text(body)
            + fenced_text(rest),
{
    let x = pre + seq![open] + body + seq![close];
    let m = pre.len() as int;
    let n = body.len() as int;
    assert forall|k: int| 0 <= k < x.len() implies plain_line(#[trigger] x[k]) by {
        if k < m {
            assert(x[k] == pre[k]);
        } else if k == m {
            assert(x[k] == open);
        } else if k < m + 1 + n {
            assert(x[k] == body[k - m - 1]);
        } else {
            assert(x[k] == close);
        }
    }
    lemma_lines_nl_text(x, rest);
    let ps = x + lines(rest);
    assert forall|k: int| 0 <= k < m implies !is_fence(#[trigger] ps[k]) by {
        assert(ps[k] == pre[k]);
    }
    assert forall|k: int| m + 1 <= k < m + 1 + n implies !is_fence(#[trigger] ps[k]) by {
        assert(ps[k] == body[k - m - 1]);
    }
    assert(ps[m] == open);
    assert(ps[m + 1 + n] == close);
    lemma_fenced_prose(ps, 0, m);
    lemma_fenced_body(ps, m + 1, m + 1 + n);
    assert(ps.subrange(m + 1, m + 1 + n) =~= body);
    lemma_fenced_shift(ps, m + 2 + n, m + 2 + n, false);
    assert(ps.skip(m + 2 + n) =~= lines(rest));
}

/// Prose lines before any fence hold no code: the code text of such lines
/// followed by a rest is the code text of the rest.
pub proof fn lemma_fenced_text_prose(pre: Seq<Seq<char>>, rest: Seq<char>)
    requires
        forall|k: int| 0 <= k < pre.len() ==> plain_line(#[trigger] pre[k]) && !is_fence(pre[k]),
    ensures
        fenced_text(nl_text(pre) + rest) == fenced_text(rest),
{
    let m = pre.len() as int;
    lemma_lines_nl_text(pre, rest);
    let ps = pre + lines(rest);
    assert forall|k: int| 0 <= k < m implies !is_fence(#[trigger] ps[k]) by {
        assert(ps[k] == pre[k]);
    }
    lemma_fenced_prose(ps, 0, m);
    lemma_fenced_shift(ps, m, m, false);
    assert(ps.skip(m) =~= lines(rest));
}

/// when there is none.
pub open spec fn code_tokens_spec(text: Seq<char>) -> nat {
    let buf = fenced_text(text);
    if buf.len() == 0 {
        0
    } else {
        cl100k_encode(buf).len()
    }
}

/// Sum of tokens inside fenced code blocks (fence markers excluded).
pub fn count_code_tokens(text: &Vec<char>) -> (res: usize)
    ensures
        res == code_tokens_spec(text@),
{
    let ls = lines_of(text);
    let mut buf: Vec<char> = Vec::new();
    let mut in_fence = false;
    let mut i: usize = 0;
    proof {
        assert(buf@ + fenced_from(views(ls@), 0, false) =~= fenced_from(views(ls@), 0, false));
    }
    while i < ls.len()
        invariant
            i <= ls.len(),
            views(ls@) == lines(text@),
            fenced_text(text@) == buf@ + fenced_from(views(ls@), i as int, in_fence),
        decreases ls.len() - i,
    {
        let line = &ls[i];
        assert(views(ls@)[i as int] == line@);
        if is_fence_line(line) {
            in_fence = !in_fence;
        } else if in_fence {
            let ghost before = buf@;
            push_chars(&mut buf, line);
            buf.push('\n');
            assert(buf@ =~= before + line@.push('\n'));
            assert(before + (line@.push('\n') + fenced_from(views(ls@), i + 1, in_fence)) =~= buf@
                + fenced_from(views(ls@), i + 1, in_fence));
        }
        i = i + 1;
    }
    assert(buf@ + fenced_from(views(ls@), i as int, in_fence) =~= buf@);
    if buf.len() == 0 {
        0
    } else {
        let s = string_from_chars(&buf);
        count(s.as_str())
    }
}

// ---------------------------------------------------------------------------
// Snippets
// ---------------------------------------------------------------------------

/// The section body a snippet is taken from: the text after the heading
/// line when the text starts with `#`, else the whole text.
pub open spec fn snippet_body(text: Seq<char>) -> Seq<char> {
    if text.len() > 0 && text[0] == '#' {
        let k = newline_pos(text);
        if k < text.len() {
            text.skip(k + 1 as int)
        } else {
            seq![]
        }
    } else {
        text
    }
}

/// The first-sentence scan over `ls[i..]`: prose lines outside fences are
/// trimmed and joined with single spaces until a blank line after some
/// text, or until the collected text holds a sentence end.
pub open spec fn scan_from(ls: Seq<Seq<char>>, i: int, out: Seq<char>, in_fence: bool) -> Seq<
    char,
>
    decreases ls.len() - i,
{
    if i < 0 || i >= ls.len() {
        out
    } else if is_fence(ls[i]) {
        scan_from(ls, i + 1, out, !in_fence)
    } else if in_fence {
        scan_from(ls, i + 1, out, in_fence)
    } else if is_blank(ls[i]) {
        if out.len() > 0 {
            out
        } else {
            scan_from(ls, i + 1, out, in_fence)
        }
    } else {
        let out2 = (if out.len() > 0 {
            out.push(' ')
        } else {
            out
        }) + trim(ls[i]);
        if sentence_end(out2) is Some {
            out2
        } else {
            scan_from(ls, i + 1, out2, in_fence)
        }
    }
}

/// The fallback when no prose was found: the first non-blank line inside a
/// fence, trimmed.
pub open spec fn fence_first_from(ls: Seq<Seq<char>>, i: int, in_fence: bool) -> Seq<char>
    decreases ls.len() - i,
{
    if i < 0 || i >= ls.len() {
        seq![]
    } else if is_fence(ls[i]) {
        fence_first_from(ls, i + 1, !in_fence)
    } else if in_fence && !is_blank(ls[i]) {
        trim(ls[i])
    } else {
        fence_first_from(ls, i + 1, in_fence)
    }
}

/// Maximum number of words in a snippet.
pub const SNIPPET_WORDS: usize = 25;

/// First sentence of a section, at most 25 words (then an ellipsis):
/// the heading line skipped, fenced code and HTML tags stripped, ending at
/// the first sentence terminator or blank line.
pub open spec fn snippet_spec(text: Seq<char>) -> Seq<char> {
    let ws = sentence_words(text);
    if ws.len() > SNIPPET_WORDS {
        join(ws.take(SNIPPET_WORDS as int), seq![' ']).push('…')
    } else {
        join(ws, seq![' '])
    }
}

/// The words of a section's first sentence, before the word cap.
pub open spec fn sentence_words(text: Seq<char>) -> Seq<Seq<char>> {
    let ls = lines(snippet_body(text));
    let first = scan_from(ls, 0, seq![], false);
    let picked = if first.len() == 0 {
        fence_first_from(ls, 0, false)
    } else {
        first
    };
    let stripped = strip_html_spec(picked);
    let cut = match sentence_end(stripped) {
        Some(k) => k,
        None => stripped.len() as int,
    };
    words(stripped.take(cut))
}

/// A snippet has at most `SNIPPET_WORDS` words: the first sentence's words
/// when there are that few, else its first `SNIPPET_WORDS` words with an
/// ellipsis after the last.
pub proof fn lemma_snippet_word_cap(text: Seq<char>)
    ensures
        words(snippet_spec(text)).len() <= SNIPPET_WORDS,
        sentence_words(text).len() <= SNIPPET_WORDS ==> words(snippet_spec(text)) == sentence_words(
            text,
        ),
        sentence_words(text).len() > SNIPPET_WORDS ==> words(snippet_spec(text)).len()
            == SNIPPET_WORDS && snippet_spec(text).last() == '…',
{
    let ws = sentence_words(text);
    let ls = lines(snippet_body(text));
    let first = scan_from(ls, 0, seq![], false);
    let picked = if first.len() == 0 {
        fence_first_from(ls, 0, false)
    } else {
        first
    };
    let stripped = strip_html_spec(picked);
    let cut = match sentence_end(stripped) {
        Some(k) => k,
        None => stripped.len() as int,
    };
    lemma_words_are_words(stripped.take(cut));
    assert(ws == words(stripped.take(cut)));
    if ws.len() > SNIPPET_WORDS {
        let v = ws.take(SNIPPET_WORDS as int);
        lemma_join_push(v, seq![' '], '…');
        let u = v.update(v.len() - 1, v.last().push('…'));
        assert forall|i: int| 0 <= i < u.len() implies is_word(#[trigger] u[i]) by {
            if i < u.len() - 1 {
                assert(u[i] == ws[i]);
            } else {
                assert(u[i] == ws[i].push('…'));
                assert(is_word(ws[i]));
                assert forall|j: int| 0 <= j < u[i].len() implies !is_ws(#[trigger] u[i][j]) by {
                    if j < ws[i].len() {
                        assert(u[i][j] == ws[i][j]);
                    }
                }
            }
        }
        lemma_words_of_join(u);
    } else {
        lemma_words_of_join(ws);
    }
}

fn snippet_body_chars(text: &Vec<char>) -> (res: Vec<char>)
    ensures
        res@ == snippet_body(text@),
{
    if text.len() > 0 && text[0] == '#' {
        let k = find_newline(text, 0);
        assert(text@.skip(0) =~= text@);
        if k < text.len() {
            slice_chars(text, k + 1, text.len())
        } else {
            Vec::new()
        }
    } else {
        slice_chars(text, 0, text.len())
    }
}

fn scan_lines(ls: &Vec<Vec<char>>) -> (res: Vec<char>)
    ensures
        res@ == scan_from(views(ls@), 0, seq![], false),
{
    let mut out: Vec<char> = Vec::new();
    let mut in_fence = false;
    let mut i: usize = 0;
    while i < ls.len()
        invariant
            i <= ls.len(),
            scan_from(views(ls@), 0, seq![], false) == scan_from(
                views(ls@),
                i as int,
                out@,
                in_fence,
            ),
        decreases ls.len() - i,
    {
        let line = &ls[i];
        assert(views(ls@)[i as int] == line@);
        if is_fence_line(line) {
            in_fence = !in_fence;
        } else if !in_fence {
            if is_blank_chars(line) {
                if out.len() > 0 {
                    return out;
                }
            } else {
                if out.len() > 0 {
                    out.push(' ');
                }
                let t = trim_chars(line);
                push_chars(&mut out, &t);
                if find_sentence_end(&out).is_some() {
                    return out;
                }
            }
        }
        i = i + 1;
    }
    out
}

fn fence_first(ls: &Vec<Vec<char>>) -> (res: Vec<char>)
    ensures
        res@ == fence_first_from(views(ls@), 0, false),
{
    let mut in_fence = false;
    let mut i: usize = 0;
    while i < ls.len()
        invariant
            i <= ls.len(),
            fence_first_from(views(ls@), 0, false) == fence_first_from(
                views(ls@),
                i as int,
                in_fence,
            ),
        decreases ls.len() - i,
    {
        let line = &ls[i];
        assert(views(ls@)[i as int] == line@);
        if is_fence_line(line) {
            in_fence = !in_fence;
        } else if in_fence && !is_blank_chars(line) {
            return trim_chars(line);
        }
        i = i + 1;
    }
    Vec::new()
}

/// First sentence of a section body, at most 25 words.
pub fn extract_snippet(text: &Vec<char>) -> (res: Vec<char>)
    ensures
        res@ == snippet_spec(text@),
{
    let body = snippet_body_chars(text);
    let ls = lines_of(&body);
    let first = scan_lines(&ls);
    let picked = if first.len() == 0 {
        fence_first(&ls)
    } else {
        first
    };
    let stripped = strip_html(&picked);
    let cut = match find_sentence_end(&stripped) {
        Some(k) => k,
        None => stripped.len(),
    };
    proof {
        lemma_sentence_end_bounds(stripped@, 0, false);
    }
    let sentence = slice_chars(&stripped, 0, cut);
    assert(sentence@ =~= stripped@.take(cut as int));
    let ws = words_of(&sentence);
    let sep = vec![' '];
    assert(sep@ =~= seq![' ']);
    if ws.len() > SNIPPET_WORDS {
        let mut out = join_chars(&ws, SNIPPET_WORDS, &sep);
        out.push('…');
        out
    } else {
        let out = join_chars(&ws, ws.len(), &sep);
        assert(views(ws@).take(ws.len() as int) =~= views(ws@));
        out
    }
}

} // verus!
