//! Character-sequence utilities shared by the parsers and renderers.
//!
//! Strings are modelled as `Seq<char>`; the executable counterparts work on
//! `Vec<char>` and are proved to agree with the specifications, which follow
//! the documented behaviour of the corresponding `str` methods.

use vstd::prelude::*;

verus! {


// ---------------------------------------------------------------------------
// Conversions between `str`/`String` and character vectors
// ---------------------------------------------------------------------------

/// The characters of a string slice, in order.
pub fn chars_of(s: &str) -> (res: Vec<char>)
    ensures
        res@ == s@,
{
    let mut out: Vec<char> = Vec::new();
    for c in it: s.chars()
        invariant
            out@ == it.seq().take(it.index() as int),
    {
        out.push(c);
    }
    out
}

/// Appends the characters of `s` to `out`.
pub fn push_str(out: &mut Vec<char>, s: &str)
    ensures
        final(out)@ == old(out)@ + s@,
{
    let ghost start = out@;
    for c in it: s.chars()
        invariant
            out@ == start + it.seq().take(it.index() as int),
    {
        out.push(c);
    }
}

/// Appends all of `s` to `out`.
pub fn push_chars(out: &mut Vec<char>, s: &Vec<char>)
    ensures
        final(out)@ == old(out)@ + s@,
{
    let ghost start = out@;
    let mut i: usize = 0;
    while i < s.len()
        invariant
            i <= s.len(),
            out@ == start + s@.take(i as int),
        decreases s.len() - i,
    {
        out.push(s[i]);
        i = i + 1;
        assert(s@.take(i as int) =~= s@.take(i - 1 as int).push(s@[i - 1 as int]));
    }
    assert(s@.take(s@.len() as int) =~= s@);
}

/// Builds a `String` holding exactly the given characters.
///
/// Trusted: `String`'s `FromIterator<&char>` implementation, which std
/// documents as pushing each character in order; the contract claims that
/// the result's characters are `chars`.
#[verifier::external_body]
pub(crate) fn string_from_chars(chars: &Vec<char>) -> (res: String)
    ensures
        res@ == chars@,
{
    chars.iter().collect()
}

/// The sub-vector `s[lo..hi]`.
pub fn slice_chars(s: &Vec<char>, lo: usize, hi: usize) -> (res: Vec<char>)
    requires
        lo <= hi <= s.len(),
    ensures
        res@ == s@.subrange(lo as int, hi as int),
{
    let mut out: Vec<char> = Vec::new();
    let mut i = lo;
    while i < hi
        invariant
            lo <= i <= hi <= s.len(),
            out@ == s@.subrange(lo as int, i as int),
        decreases hi - i,
    {
        out.push(s[i]);
        i = i + 1;
        assert(s@.subrange(lo as int, i as int) =~= s@.subrange(lo as int, i - 1 as int).push(
            s@[i - 1 as int],
        ));
    }
    out
}

/// The sub-vector `s[lo..hi]` of a byte slice.
pub fn slice_bytes(s: &[u8], lo: usize, hi: usize) -> (res: Vec<u8>)
    requires
        lo <= hi <= s@.len(),
    ensures
        res@ == s@.subrange(lo as int, hi as int),
{
    let mut out: Vec<u8> = Vec::new();
    let mut i = lo;
    while i < hi
        invariant
            lo <= i <= hi <= s@.len(),
            out@ == s@.subrange(lo as int, i as int),
        decreases hi - i,
    {
        out.push(s[i]);
        i = i + 1;
        assert(s@.subrange(lo as int, i as int) =~= s@.subrange(lo as int, i - 1 as int).push(
            s@[i - 1 as int],
        ));
    }
    out
}

/// Whether two character vectors are equal.
pub fn chars_eq(a: &Vec<char>, b: &Vec<char>) -> (res: bool)
    ensures
        res == (a@ == b@),
{
    if a.len() != b.len() {
        return false;
    }
    let mut i: usize = 0;
    while i < a.len()
        invariant
            i <= a.len() == b.len(),
            a@.take(i as int) == b@.take(i as int),
        decreases a.len() - i,
    {
        if a[i] != b[i] {
            assert(a@[i as int] != b@[i as int]);
            return false;
        }
        i = i + 1;
        assert(a@.take(i as int) =~= a@.take(i - 1 as int).push(a@[i - 1 as int]));
        assert(b@.take(i as int) =~= b@.take(i - 1 as int).push(b@[i - 1 as int]));
    }
    assert(a@ =~= a@.take(a@.len() as int));
    assert(b@ =~= b@.take(b@.len() as int));
    true
}

// ---------------------------------------------------------------------------
// Prefix scanning
// ---------------------------------------------------------------------------

/// The length of the longest prefix of `s` whose characters all satisfy `p`.
pub open spec fn prefix_while(s: Seq<char>, p: spec_fn(char) -> bool) -> nat
    decreases s.len(),
{
    if s.len() > 0 && p(s[0]) {
        1 + prefix_while(s.drop_first(), p)
    } else {
        0
    }
}

/// `prefix_while` is characterised by its two defining facts.
pub proof fn lemma_prefix_while(s: Seq<char>, p: spec_fn(char) -> bool, k: int)
    requires
        0 <= k <= s.len(),
        forall|j: int| 0 <= j < k ==> p(#[trigger] s[j]),
        k == s.len() || !p(s[k]),
    ensures
        prefix_while(s, p) == k,
    decreases s.len(),
{
    if k > 0 {
        assert(p(s[0]));
        assert forall|j: int| 0 <= j < k - 1 implies p(#[trigger] s.drop_first()[j]) by {
            assert(s.drop_first()[j] == s[j + 1]);
        }
        lemma_prefix_while(s.drop_first(), p, k - 1);
    }
}

/// The facts that characterise `prefix_while`.
pub proof fn lemma_prefix_while_facts(s: Seq<char>, p: spec_fn(char) -> bool)
    ensures
        prefix_while(s, p) <= s.len(),
        forall|j: int| 0 <= j < prefix_while(s, p) ==> p(#[trigger] s[j]),
        prefix_while(s, p) == s.len() || !p(s[prefix_while(s, p) as int]),
    decreases s.len(),
{
    if s.len() > 0 && p(s[0]) {
        lemma_prefix_while_facts(s.drop_first(), p);
        assert forall|j: int| 0 <= j < prefix_while(s, p) implies p(#[trigger] s[j]) by {
            if j > 0 {
                assert(s[j] == s.drop_first()[j - 1]);
            }
        }
        if prefix_while(s, p) < s.len() {
            assert(s[prefix_while(s, p) as int] == s.drop_first()[prefix_while(
                s.drop_first(),
                p,
            ) as int]);
        }
    }
}

// ---------------------------------------------------------------------------
// Whitespace and trimming
// ---------------------------------------------------------------------------

/// Unicode `White_Space`, the property `char::is_whitespace` tests.
pub open spec fn is_ws(c: char) -> bool {
    let u = c as u32;
    ||| (0x09 <= u && u <= 0x0d)
    ||| u == 0x20
    ||| u == 0x85
    ||| u == 0xa0
    ||| u == 0x1680
    ||| (0x2000 <= u && u <= 0x200a)
    ||| u == 0x2028
    ||| u == 0x2029
    ||| u == 0x202f
    ||| u == 0x205f
    ||| u == 0x3000
}

pub open spec fn not_ws(c: char) -> bool {
    !is_ws(c)
}

/// Executable `is_ws`.
pub fn is_whitespace(c: char) -> (res: bool)
    ensures
        res == is_ws(c),
{
    let u = c as u32;
    (0x09 <= u && u <= 0x0d) || u == 0x20 || u == 0x85 || u == 0xa0 || u == 0x1680 || (0x2000
        <= u && u <= 0x200a) || u == 0x2028 || u == 0x2029 || u == 0x202f || u == 0x205f || u
        == 0x3000
}

/// Number of leading whitespace characters.
pub open spec fn leading_ws(s: Seq<char>) -> nat {
    prefix_while(s, |c: char| is_ws(c))
}

/// Number of trailing whitespace characters.
pub open spec fn trailing_ws(s: Seq<char>) -> nat {
    prefix_while(s.reverse(), |c: char| is_ws(c))
}

/// `str::trim_start`.
pub open spec fn trim_start(s: Seq<char>) -> Seq<char> {
    s.skip(leading_ws(s) as int)
}

/// `str::trim_end`.
pub open spec fn trim_end(s: Seq<char>) -> Seq<char> {
    s.take(s.len() - trailing_ws(s))
}

/// `str::trim`.
pub open spec fn trim(s: Seq<char>) -> Seq<char> {
    trim_end(trim_start(s))
}

/// Index of the first non-whitespace character of `s`, or its length.
pub fn leading_ws_len(s: &Vec<char>) -> (res: usize)
    ensures
        res == leading_ws(s@),
        res <= s.len(),
{
    let mut i: usize = 0;
    while i < s.len() && is_whitespace(s[i])
        invariant
            i <= s.len(),
            forall|j: int| 0 <= j < i ==> is_ws(#[trigger] s@[j]),
        decreases s.len() - i,
    {
        i = i + 1;
    }
    proof {
        let p = |c: char| is_ws(c);
        assert forall|j: int| 0 <= j < i implies p(#[trigger] s@[j]) by {}
        lemma_prefix_while(s@, p, i as int);
    }
    i
}

/// Number of trailing whitespace characters of `s`.
pub fn trailing_ws_len(s: &Vec<char>) -> (res: usize)
    ensures
        res == trailing_ws(s@),
        res <= s.len(),
{
    let mut i: usize = 0;
    while i < s.len() && is_whitespace(s[s.len() - 1 - i])
        invariant
            i <= s.len(),
            forall|j: int| 0 <= j < i ==> is_ws(#[trigger] s@.reverse()[j]),
        decreases s.len() - i,
    {
        assert(s@.reverse()[i as int] == s@[s.len() - 1 - i]);
        i = i + 1;
    }
    proof {
        let p = |c: char| is_ws(c);
        assert forall|j: int| 0 <= j < i implies p(#[trigger] s@.reverse()[j]) by {}
        if i < s.len() {
            assert(s@.reverse()[i as int] == s@[s.len() - 1 - i]);
        }
        lemma_prefix_while(s@.reverse(), p, i as int);
    }
    i
}

/// Executable `trim_start`.
pub fn trim_start_chars(s: &Vec<char>) -> (res: Vec<char>)
    ensures
        res@ == trim_start(s@),
{
    let k = leading_ws_len(s);
    slice_chars(s, k, s.len())
}

/// Executable `trim_end`.
pub fn trim_end_chars(s: &Vec<char>) -> (res: Vec<char>)
    ensures
        res@ == trim_end(s@),
{
    let k = trailing_ws_len(s);
    let r = slice_chars(s, 0, s.len() - k);
    assert(r@ =~= s@.take(s.len() - k));
    r
}

/// Executable `trim`.
pub fn trim_chars(s: &Vec<char>) -> (res: Vec<char>)
    ensures
        res@ == trim(s@),
{
    let t = trim_start_chars(s);
    trim_end_chars(&t)
}

/// Whether `s` is empty or all whitespace (`trim(s).is_empty()`).
pub open spec fn is_blank(s: Seq<char>) -> bool {
    trim(s).len() == 0
}

/// A sequence is blank exactly when all its characters are whitespace.
pub proof fn lemma_blank_iff_all_ws(s: Seq<char>)
    ensures
        is_blank(s) <==> forall|j: int| 0 <= j < s.len() ==> is_ws(#[trigger] s[j]),
{
    let p = |c: char| is_ws(c);
    lemma_prefix_while_facts(s, p);
    let k = leading_ws(s);
    let t = trim_start(s);
    lemma_prefix_while_facts(t.reverse(), p);
    if forall|j: int| 0 <= j < s.len() ==> is_ws(#[trigger] s[j]) {
        if k < s.len() {
            assert(p(s[k as int]));
        }
        assert(t.len() == 0);
        assert(t.reverse().len() == 0);
    } else {
        let j = choose|j: int| 0 <= j < s.len() && !is_ws(#[trigger] s[j]);
        assert(k <= j) by {
            if k > j {
                assert(p(s[j]));
            }
        }
        assert(t.len() > 0);
        assert(t[0] == s[k as int]);
        assert(!p(t[0])) by {
            if k == s.len() {
            } else {
            }
        }
        assert(t.reverse()[t.len() - 1] == t[0]);
        let m = trailing_ws(t);
        assert(m < t.len()) by {
            if m == t.len() {
                assert(p(t.reverse()[t.len() - 1]));
            }
        }
    }
}

/// Whether every character is whitespace.
pub fn is_blank_chars(s: &Vec<char>) -> (res: bool)
    ensures
        res == is_blank(s@),
{
    proof {
        lemma_blank_iff_all_ws(s@);
    }
    let k = leading_ws_len(s);
    proof {
        lemma_prefix_while_facts(s@, |c: char| is_ws(c));
        if k < s.len() {
            assert(!is_ws(s@[k as int]));
        }
    }
    k == s.len()
}

// ---------------------------------------------------------------------------
// Prefixes
// ---------------------------------------------------------------------------

/// `str::starts_with` for a sequence prefix.
pub open spec fn starts_with(s: Seq<char>, p: Seq<char>) -> bool {
    p.len() <= s.len() && s.take(p.len() as int) == p
}

/// Executable `starts_with`.
pub fn starts_with_chars(s: &Vec<char>, p: &Vec<char>) -> (res: bool)
    ensures
        res == starts_with(s@, p@),
{
    if p.len() > s.len() {
        return false;
    }
    let mut i: usize = 0;
    while i < p.len()
        invariant
            i <= p.len() <= s.len(),
            s@.take(i as int) == p@.take(i as int),
        decreases p.len() - i,
    {
        if s[i] != p[i] {
            assert(s@.take(p.len() as int)[i as int] != p@[i as int]);
            return false;
        }
        i = i + 1;
        assert(s@.take(i as int) =~= s@.take(i - 1 as int).push(s@[i - 1 as int]));
        assert(p@.take(i as int) =~= p@.take(i - 1 as int).push(p@[i - 1 as int]));
    }
    assert(p@.take(p.len() as int) =~= p@);
    true
}

/// Three copies of `c` (a code-fence marker when `c` is a backtick or tilde).
pub open spec fn triple(c: char) -> Seq<char> {
    seq![c, c, c]
}

/// Whether a line opens or closes a fenced code block: after leading
/// whitespace it starts with three backticks or three tildes.
pub open spec fn is_fence(line: Seq<char>) -> bool {
    let t = trim_start(line);
    starts_with(t, triple('`')) || starts_with(t, triple('~'))
}

/// Executable `is_fence`.
pub fn is_fence_line(line: &Vec<char>) -> (res: bool)
    ensures
        res == is_fence(line@),
{
    let t = trim_start_chars(line);
    let bt = vec!['`', '`', '`'];
    let tl = vec!['~', '~', '~'];
    assert(bt@ =~= triple('`'));
    assert(tl@ =~= triple('~'));
    starts_with_chars(&t, &bt) || starts_with_chars(&t, &tl)
}

// ---------------------------------------------------------------------------
// Lines
// ---------------------------------------------------------------------------

pub open spec fn not_newline(c: char) -> bool {
    c != '\n'
}

/// Position of the first `'\n'` in `s`, or `s.len()` when there is none.
pub open spec fn newline_pos(s: Seq<char>) -> nat {
    prefix_while(s, |c: char| not_newline(c))
}

/// Drops one trailing `'\r'`.
pub open spec fn strip_cr(s: Seq<char>) -> Seq<char> {
    if s.len() > 0 && s.last() == '\r' {
        s.drop_last()
    } else {
        s
    }
}

/// `str::lines`: pieces separated by `'\n'`; a piece that ended in `'\n'`
/// also loses one trailing `'\r'`; no empty final piece after a trailing
/// newline.
pub open spec fn lines(s: Seq<char>) -> Seq<Seq<char>>
    decreases s.len(),
{
    if s.len() == 0 {
        seq![]
    } else {
        let k = newline_pos(s);
        if k >= s.len() {
            seq![s]
        } else {
            seq![strip_cr(s.take(k as int))] + lines(s.skip(k + 1 as int))
        }
    }
}

/// `str::split_inclusive('\n')`: pieces each ending in `'\n'`, except
/// possibly the last; no empty final piece.
pub open spec fn split_inclusive_nl(s: Seq<char>) -> Seq<Seq<char>>
    decreases s.len(),
{
    if s.len() == 0 {
        seq![]
    } else {
        let k = newline_pos(s);
        if k >= s.len() {
            seq![s]
        } else {
            seq![s.take(k + 1 as int)] + split_inclusive_nl(s.skip(k + 1 as int))
        }
    }
}

/// Position of the first `'\n'` at or after `from`, or `s.len()`.
pub fn find_newline(s: &Vec<char>, from: usize) -> (res: usize)
    requires
        from <= s.len(),
    ensures
        from <= res <= s.len(),
        res - from == newline_pos(s@.skip(from as int)),
{
    let mut i = from;
    while i < s.len() && s[i] != '\n'
        invariant
            from <= i <= s.len(),
            forall|j: int| from <= j < i ==> s@[j] != '\n',
        decreases s.len() - i,
    {
        i = i + 1;
    }
    proof {
        let t = s@.skip(from as int);
        let p = |c: char| not_newline(c);
        assert forall|j: int| 0 <= j < i - from implies p(#[trigger] t[j]) by {
            assert(t[j] == s@[j + from]);
        }
        if i < s.len() {
            assert(t[i - from] == s@[i as int]);
        }
        lemma_prefix_while(t, p, i - from);
    }
    i
}

/// The character sequences held by a vector of character vectors.
pub open spec fn views(v: Seq<Vec<char>>) -> Seq<Seq<char>> {
    v.map_values(|x: Vec<char>| x@)
}

/// One step of `lines`: the first line of `s[pos..]` ends at `k`.
proof fn lemma_lines_step(s: Seq<char>, pos: int, k: int)
    requires
        0 <= pos < s.len(),
        pos <= k <= s.len(),
        k - pos == newline_pos(s.skip(pos)),
    ensures
        k == s.len() ==> lines(s.skip(pos)) == seq![s.subrange(pos, k)],
        k < s.len() ==> lines(s.skip(pos)) == seq![strip_cr(s.subrange(pos, k))] + lines(
            s.skip(k + 1),
        ),
{
    let rest = s.skip(pos);
    assert(rest.take(k - pos) =~= s.subrange(pos, k));
    if k < s.len() {
        assert(rest.skip(k - pos + 1) =~= s.skip(k + 1));
    }
    if k == s.len() {
        assert(rest =~= s.subrange(pos, k));
    }
}

/// Executable `lines`.
pub fn lines_of(s: &Vec<char>) -> (res: Vec<Vec<char>>)
    ensures
        views(res@) == lines(s@),
{
    let mut out: Vec<Vec<char>> = Vec::new();
    let mut pos: usize = 0;
    assert(s@.skip(0) =~= s@);
    assert(views(out@) + lines(s@) =~= lines(s@));
    while pos < s.len()
        invariant
            pos <= s.len(),
            lines(s@) == views(out@) + lines(s@.skip(pos as int)),
        decreases s.len() - pos,
    {
        let k = find_newline(s, pos);
        proof {
            lemma_lines_step(s@, pos as int, k as int);
        }
        let ghost before = views(out@);
        let mut piece = slice_chars(s, pos, k);
        let ghost raw = piece@;
        if k < s.len() && piece.len() > 0 && piece[piece.len() - 1] == '\r' {
            piece.pop();
        }
        let ghost pv = piece@;
        assert(k < s.len() ==> pv =~= strip_cr(raw));
        assert(k == s.len() ==> pv == raw);
        out.push(piece);
        assert(views(out@) =~= before.push(pv));
        if k == s.len() {
            pos = k;
            assert(lines(s@.skip(pos as int)) =~= Seq::<Seq<char>>::empty());
        } else {
            pos = k + 1;
        }
    }
    assert(views(out@) + lines(s@.skip(pos as int)) =~= views(out@));
    out
}

// ---------------------------------------------------------------------------
// Words (`str::split_whitespace`) and joining
// ---------------------------------------------------------------------------

/// `str::split_whitespace`: the maximal runs of non-whitespace characters.
pub open spec fn words(s: Seq<char>) -> Seq<Seq<char>>
    decreases s.len(),
{
    let t = trim_start(s);
    if t.len() == 0 {
        seq![]
    } else {
        let k = prefix_while(t, |c: char| not_ws(c));
        proof {
            lemma_prefix_while_facts(s, |c: char| is_ws(c));
            lemma_prefix_while_facts(t, |c: char| not_ws(c));
            assert(t[0] == s[leading_ws(s) as int]);
        }
        seq![t.take(k as int)] + words(t.skip(k as int))
    }
}

/// A run of non-whitespace characters.
pub open spec fn is_word(w: Seq<char>) -> bool {
    w.len() > 0 && forall|j: int| 0 <= j < w.len() ==> !is_ws(#[trigger] w[j])
}

/// The words of `s` are non-empty and hold no whitespace.
pub proof fn lemma_words_are_words(s: Seq<char>)
    ensures
        forall|i: int| 0 <= i < words(s).len() ==> is_word(#[trigger] words(s)[i]),
    decreases s.len(),
{
    let t = trim_start(s);
    lemma_prefix_while_facts(s, |c: char| is_ws(c));
    if t.len() > 0 {
        let k = prefix_while(t, |c: char| not_ws(c));
        lemma_prefix_while_facts(t, |c: char| not_ws(c));
        assert(t[0] == s[leading_ws(s) as int]);
        lemma_words_are_words(t.skip(k as int));
        let w = words(s);
        assert(w == seq![t.take(k as int)] + words(t.skip(k as int)));
        assert forall|i: int| 0 <= i < w.len() implies is_word(#[trigger] w[i]) by {
            if i == 0 {
                assert(w[0] == t.take(k as int));
                assert forall|j: int| 0 <= j < w[0].len() implies !is_ws(#[trigger] w[0][j]) by {
                    assert(w[0][j] == t[j]);
                    assert(not_ws(t[j]));
                }
            } else {
                assert(w[i] == words(t.skip(k as int))[i - 1]);
            }
        }
    }
}

/// A single word is its own only word.
pub proof fn lemma_words_of_word(w: Seq<char>)
    requires
        is_word(w),
    ensures
        words(w) == seq![w],
{
    lemma_prefix_while(w, |c: char| is_ws(c), 0);
    assert(trim_start(w) =~= w);
    lemma_prefix_while(w, |c: char| not_ws(c), w.len() as int);
    assert(w.take(w.len() as int) =~= w);
    assert(w.skip(w.len() as int) =~= Seq::<char>::empty());
    lemma_prefix_while(Seq::<char>::empty(), |c: char| is_ws(c), 0);
    assert(words(Seq::<char>::empty()) == Seq::<Seq<char>>::empty());
}

/// A whitespace character separates words: the words of `a`, a whitespace
/// character and `b` are the words of `a` followed by those of `b`.
pub proof fn lemma_words_sep(a: Seq<char>, sep: char, b: Seq<char>)
    requires
        is_ws(sep),
    ensures
        words(a + seq![sep] + b) == words(a) + words(b),
    decreases a.len(),
{
    let s = a + seq![sep] + b;
    let la = leading_ws(a);
    lemma_prefix_while_facts(a, |c: char| is_ws(c));
    lemma_prefix_while_facts(b, |c: char| is_ws(c));
    if la == a.len() {
        let lb = leading_ws(b);
        assert forall|j: int| 0 <= j < a.len() + 1 + lb implies is_ws(#[trigger] s[j]) by {
            if j < a.len() {
                assert(s[j] == a[j]);
            } else if j == a.len() {
                assert(s[j] == sep);
            } else {
                assert(s[j] == b[j - a.len() - 1]);
            }
        }
        if a.len() + 1 + lb < s.len() {
            assert(s[(a.len() + 1 + lb) as int] == b[lb as int]);
        }
        lemma_prefix_while(s, |c: char| is_ws(c), (a.len() + 1 + lb) as int);
        assert(trim_start(s) =~= trim_start(b));
        assert(trim_start(a) =~= Seq::<char>::empty());
        assert(words(a) == Seq::<Seq<char>>::empty());
        assert(words(s) == words(b));
        assert(words(a) + words(b) =~= words(b));
    } else {
        assert forall|j: int| 0 <= j < la implies is_ws(#[trigger] s[j]) by {
            assert(s[j] == a[j]);
        }
        assert(s[la as int] == a[la as int]);
        lemma_prefix_while(s, |c: char| is_ws(c), la as int);
        let ta = trim_start(a);
        let t = trim_start(s);
        assert(t =~= ta + seq![sep] + b);
        assert(ta[0] == a[la as int]);
        let ka = prefix_while(ta, |c: char| not_ws(c));
        lemma_prefix_while_facts(ta, |c: char| not_ws(c));
        assert forall|j: int| 0 <= j < ka implies not_ws(#[trigger] t[j]) by {
            assert(t[j] == ta[j]);
        }
        if ka < ta.len() {
            assert(t[ka as int] == ta[ka as int]);
        } else {
            assert(t[ka as int] == sep);
        }
        lemma_prefix_while(t, |c: char| not_ws(c), ka as int);
        let rest = ta.skip(ka as int);
        assert(t.skip(ka as int) =~= rest + seq![sep] + b);
        assert(t.take(ka as int) =~= ta.take(ka as int));
        lemma_words_sep(rest, sep, b);
        assert(words(s) == seq![ta.take(ka as int)] + words(rest + seq![sep] + b));
        assert(words(a) == seq![ta.take(ka as int)] + words(rest));
        assert(words(s) =~= words(a) + words(b));
    }
}

/// Concatenation of `ws` with `sep` between consecutive elements.
pub open spec fn join(ws: Seq<Seq<char>>, sep: Seq<char>) -> Seq<char>
    decreases ws.len(),
{
    if ws.len() == 0 {
        seq![]
    } else if ws.len() == 1 {
        ws[0]
    } else {
        join(ws.drop_last(), sep) + sep + ws.last()
    }
}

/// Words joined by single spaces split back into the same words.
pub proof fn lemma_words_of_join(ws: Seq<Seq<char>>)
    requires
        forall|i: int| 0 <= i < ws.len() ==> is_word(#[trigger] ws[i]),
    ensures
        words(join(ws, seq![' '])) == ws,
    decreases ws.len(),
{
    if ws.len() == 0 {
        lemma_prefix_while(Seq::<char>::empty(), |c: char| is_ws(c), 0);
        assert(words(Seq::<char>::empty()) =~= ws);
    } else if ws.len() == 1 {
        lemma_words_of_word(ws[0]);
        assert(seq![ws[0]] =~= ws);
    } else {
        let p = ws.drop_last();
        assert forall|i: int| 0 <= i < p.len() implies is_word(#[trigger] p[i]) by {
            assert(p[i] == ws[i]);
        }
        lemma_words_of_join(p);
        assert(join(ws, seq![' ']) == join(p, seq![' ']) + seq![' '] + ws.last());
        lemma_words_sep(join(p, seq![' ']), ' ', ws.last());
        assert(is_word(ws[ws.len() - 1]));
        lemma_words_of_word(ws.last());
        assert(p + seq![ws.last()] =~= ws);
    }
}

/// Appending a character to a join appends it to the last element.
pub proof fn lemma_join_push(ws: Seq<Seq<char>>, sep: Seq<char>, c: char)
    requires
        ws.len() > 0,
    ensures
        join(ws, sep).push(c) == join(ws.update(ws.len() - 1, ws.last().push(c)), sep),
{
    let u = ws.update(ws.len() - 1, ws.last().push(c));
    if ws.len() == 1 {
        assert(u[0] == ws[0].push(c));
    } else {
        assert(u.drop_last() =~= ws.drop_last());
        assert(join(u, sep) == join(u.drop_last(), sep) + sep + u.last());
        assert(join(ws, sep).push(c) =~= join(ws.drop_last(), sep) + sep + ws.last().push(c));
    }
}

/// First index at or after `from` whose character is not whitespace.
pub fn skip_ws(s: &Vec<char>, from: usize) -> (res: usize)
    requires
        from <= s.len(),
    ensures
        from <= res <= s.len(),
        res - from == prefix_while(s@.skip(from as int), |c: char| is_ws(c)),
{
    let mut i = from;
    while i < s.len() && is_whitespace(s[i])
        invariant
            from <= i <= s.len(),
            forall|j: int| from <= j < i ==> is_ws(#[trigger] s@[j]),
        decreases s.len() - i,
    {
        i = i + 1;
    }
    proof {
        let t = s@.skip(from as int);
        let p = |c: char| is_ws(c);
        assert forall|j: int| 0 <= j < i - from implies p(#[trigger] t[j]) by {
            assert(t[j] == s@[j + from]);
        }
        if i < s.len() {
            assert(t[i - from] == s@[i as int]);
        }
        lemma_prefix_while(t, p, i - from);
    }
    i
}

/// First index at or after `from` whose character is whitespace.
pub fn skip_non_ws(s: &Vec<char>, from: usize) -> (res: usize)
    requires
        from <= s.len(),
    ensures
        from <= res <= s.len(),
        res - from == prefix_while(s@.skip(from as int), |c: char| not_ws(c)),
{
    let mut i = from;
    while i < s.len() && !is_whitespace(s[i])
        invariant
            from <= i <= s.len(),
            forall|j: int| from <= j < i ==> not_ws(#[trigger] s@[j]),
        decreases s.len() - i,
    {
        i = i + 1;
    }
    proof {
        let t = s@.skip(from as int);
        let p = |c: char| not_ws(c);
        assert forall|j: int| 0 <= j < i - from implies p(#[trigger] t[j]) by {
            assert(t[j] == s@[j + from]);
        }
        if i < s.len() {
            assert(t[i - from] == s@[i as int]);
        }
        lemma_prefix_while(t, p, i - from);
    }
    i
}

/// One step of `words`: whitespace runs to `a`, the next word to `b`.
proof fn lemma_words_step(s: Seq<char>, pos: int, a: int, b: int)
    requires
        0 <= pos <= a <= b <= s.len(),
        a - pos == prefix_while(s.skip(pos), |c: char| is_ws(c)),
        b - a == prefix_while(s.skip(a), |c: char| not_ws(c)),
    ensures
        a == s.len() ==> words(s.skip(pos)) == Seq::<Seq<char>>::empty(),
        a < s.len() ==> b > a && words(s.skip(pos)) == seq![s.subrange(a, b)] + words(s.skip(b)),
{
    let x = s.skip(pos);
    assert(trim_start(x) =~= s.skip(a));
    if a < s.len() {
        let t = s.skip(a);
        lemma_prefix_while_facts(t, |c: char| not_ws(c));
        lemma_prefix_while_facts(x, |c: char| is_ws(c));
        assert(t[0] == x[a - pos]);
        assert(t.take(b - a) =~= s.subrange(a, b));
        assert(t.skip(b - a) =~= s.skip(b));
    }
}

/// Executable `words`.
pub fn words_of(s: &Vec<char>) -> (res: Vec<Vec<char>>)
    ensures
        views(res@) == words(s@),
{
    let mut out: Vec<Vec<char>> = Vec::new();
    let mut pos: usize = 0;
    assert(s@.skip(0) =~= s@);
    assert(views(out@) + words(s@) =~= words(s@));
    while pos < s.len()
        invariant
            pos <= s.len(),
            words(s@) == views(out@) + words(s@.skip(pos as int)),
        decreases s.len() - pos,
    {
        let ghost before = views(out@);
        let a = skip_ws(s, pos);
        if a == s.len() {
            let b = a;
            proof {
                lemma_words_step(s@, pos as int, a as int, b as int);
            }
            pos = a;
        } else {
            let b = skip_non_ws(s, a);
            proof {
                lemma_words_step(s@, pos as int, a as int, b as int);
            }
            let w = slice_chars(s, a, b);
            let ghost wv = w@;
            out.push(w);
            assert(views(out@) =~= before.push(wv));
            pos = b;
        }
    }
    assert(views(out@) + words(s@.skip(pos as int)) =~= views(out@));
    out
}

/// Executable `join` of `ws[0..n]`.
pub fn join_chars(ws: &Vec<Vec<char>>, n: usize, sep: &Vec<char>) -> (res: Vec<char>)
    requires
        n <= ws.len(),
    ensures
        res@ == join(views(ws@).take(n as int), sep@),
{
    let mut out: Vec<char> = Vec::new();
    let mut i: usize = 0;
    while i < n
        invariant
            i <= n <= ws.len(),
            out@ == join(views(ws@).take(i as int), sep@),
        decreases n - i,
    {
        let ghost prev = views(ws@).take(i as int);
        if i > 0 {
            push_chars(&mut out, sep);
        }
        push_chars(&mut out, &ws[i]);
        i = i + 1;
        let ghost cur = views(ws@).take(i as int);
        assert(cur.drop_last() =~= prev);
        assert(cur.last() == ws@[i - 1]@);
        if i == 1 {
            assert(out@ =~= cur[0]);
        }
    }
    out
}

/// The character sequences held by a vector of strings.
pub open spec fn string_views(v: Seq<String>) -> Seq<Seq<char>> {
    v.map_values(|x: String| x@)
}

/// `slice::join` of strings with a separator.
pub fn join_strings(ws: &Vec<String>, sep: &str) -> (res: Vec<char>)
    ensures
        res@ == join(string_views(ws@), sep@),
{
    let mut out: Vec<char> = Vec::new();
    let mut i: usize = 0;
    while i < ws.len()
        invariant
            i <= ws.len(),
            out@ == join(string_views(ws@).take(i as int), sep@),
        decreases ws.len() - i,
    {
        let ghost prev = string_views(ws@).take(i as int);
        if i > 0 {
            push_str(&mut out, sep);
        }
        push_str(&mut out, ws[i].as_str());
        i = i + 1;
        let ghost cur = string_views(ws@).take(i as int);
        assert(cur.drop_last() =~= prev);
        assert(cur.last() == ws@[i - 1]@);
        if i == 1 {
            assert(out@ =~= cur[0]);
        }
    }
    assert(string_views(ws@).take(ws@.len() as int) =~= string_views(ws@));
    out
}

// ---------------------------------------------------------------------------
// Decimal formatting
// ---------------------------------------------------------------------------

/// The ASCII digit for `d < 10`.
pub open spec fn digit_char(d: nat) -> char {
    (d + 48) as char
}

/// Decimal representation of a natural number (no leading zeros).
pub open spec fn dec(n: nat) -> Seq<char>
    decreases n,
{
    if n < 10 {
        seq![digit_char(n)]
    } else {
        dec(n / 10).push(digit_char(n % 10))
    }
}

/// `{}` formatting of an integer: an optional `-` and the decimal digits.
pub open spec fn fmt_int(v: int) -> Seq<char> {
    if v < 0 {
        seq!['-'] + dec((-v) as nat)
    } else {
        dec(v as nat)
    }
}

/// `k` copies of `c` (none when `k <= 0`).
pub open spec fn repeat(c: char, k: int) -> Seq<char> {
    Seq::new(if k > 0 { k as nat } else { 0 }, |_i: int| c)
}

/// `{:0w}` formatting of an integer: the sign, then zeros up to a total
/// width of `w`, then the digits.
pub open spec fn fmt_int_zero_pad(v: int, w: nat) -> Seq<char> {
    let digits = dec(if v < 0 { (-v) as nat } else { v as nat });
    let sign: Seq<char> = if v < 0 { seq!['-'] } else { seq![] };
    sign + repeat('0', w - sign.len() - digits.len()) + digits
}

/// `{:>w}`: right-aligned in a field of `w` characters.
pub open spec fn pad_left(s: Seq<char>, w: nat) -> Seq<char> {
    repeat(' ', w - s.len()) + s
}

/// `{:<w}`: left-aligned in a field of `w` characters.
pub open spec fn pad_right(s: Seq<char>, w: nat) -> Seq<char> {
    s + repeat(' ', w - s.len())
}

/// Decimal digits of `n`.
pub fn dec_u64(n: u64) -> (res: Vec<char>)
    ensures
        res@ == dec(n as nat),
    decreases n,
{
    if n < 10 {
        let c = ((n as u8) + 48) as char;
        vec![c]
    } else {
        let mut v = dec_u64(n / 10);
        let c = (((n % 10) as u8) + 48) as char;
        v.push(c);
        v
    }
}

/// `{}` of an `i64`.
pub fn fmt_i64(v: i64) -> (res: Vec<char>)
    ensures
        res@ == fmt_int(v as int),
{
    if v < 0 {
        let mag: u64 = (-(v as i128)) as u64;
        let d = dec_u64(mag);
        let mut out = vec!['-'];
        push_chars(&mut out, &d);
        out
    } else {
        dec_u64(v as u64)
    }
}

/// `{}` of a `usize`.
pub fn fmt_usize(v: usize) -> (res: Vec<char>)
    ensures
        res@ == fmt_int(v as int),
{
    dec_u64(v as u64)
}

/// Appends `k` copies of `c`.
pub fn push_repeat(out: &mut Vec<char>, c: char, k: usize)
    ensures
        final(out)@ == old(out)@ + repeat(c, k as int),
{
    let ghost start = out@;
    let mut i: usize = 0;
    while i < k
        invariant
            i <= k,
            out@ == start + repeat(c, i as int),
        decreases k - i,
    {
        out.push(c);
        i = i + 1;
        assert(repeat(c, i as int) =~= repeat(c, i - 1 as int).push(c));
    }
}

/// `{:0w}` of an `i64`.
pub fn fmt_i64_zero_pad(v: i64, w: usize) -> (res: Vec<char>)
    ensures
        res@ == fmt_int_zero_pad(v as int, w as nat),
{
    let mag: u64 = if v < 0 {
        (-(v as i128)) as u64
    } else {
        v as u64
    };
    let digits = dec_u64(mag);
    let mut out: Vec<char> = Vec::new();
    let sign_len: usize = if v < 0 { 1 } else { 0 };
    if v < 0 {
        out.push('-');
    }
    let used = sign_len as u128 + digits.len() as u128;
    let pad: usize = if (w as u128) > used { (w as u128 - used) as usize } else { 0 };
    push_repeat(&mut out, '0', pad);
    push_chars(&mut out, &digits);
    proof {
        let sign: Seq<char> = if v < 0 { seq!['-'] } else { seq![] };
        assert(repeat('0', pad as int) =~= repeat('0', w - sign.len() - digits@.len()));
        if v < 0 {
            assert(out@ =~= sign + repeat('0', w - sign.len() - digits@.len()) + digits@);
        } else {
            assert(out@ =~= sign + repeat('0', w - sign.len() - digits@.len()) + digits@);
        }
    }
    out
}

/// `{:>w}` of a character sequence.
pub fn pad_left_chars(s: &Vec<char>, w: usize) -> (res: Vec<char>)
    ensures
        res@ == pad_left(s@, w as nat),
{
    let mut out: Vec<char> = Vec::new();
    let pad: usize = if w > s.len() { w - s.len() } else { 0 };
    push_repeat(&mut out, ' ', pad);
    push_chars(&mut out, s);
    assert(repeat(' ', pad as int) =~= repeat(' ', w - s@.len()));
    out
}

/// `{:<w}` of a character sequence.
pub fn pad_right_chars(s: &Vec<char>, w: usize) -> (res: Vec<char>)
    ensures
        res@ == pad_right(s@, w as nat),
{
    let mut out: Vec<char> = Vec::new();
    push_chars(&mut out, s);
    let pad: usize = if w > s.len() { w - s.len() } else { 0 };
    push_repeat(&mut out, ' ', pad);
    assert(repeat(' ', pad as int) =~= repeat(' ', w - s@.len()));
    out
}

} // verus!
