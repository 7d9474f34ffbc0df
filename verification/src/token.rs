//! Token counting and token-budget truncation with the `cl100k_base`
//! encoding.

use tiktoken_rs::cl100k_base_singleton;
use vstd::prelude::*;

verus! {

/// The `cl100k_base` ordinary (no special tokens) encoding of `text`.
pub uninterp spec fn cl100k_encode(text: Seq<char>) -> Seq<u32>;

/// Decoding of a token sequence with `cl100k_base`: `None` when the tokens'
/// bytes are not valid UTF-8 or a token is unknown.
pub uninterp spec fn cl100k_decode(tokens: Seq<u32>) -> Option<Seq<char>>;

/// Trusted: `CoreBPE::encode_ordinary` of the process-wide `cl100k_base`
/// singleton; the contract names its result as a function of the text, and
/// states that decoding the tokens gives the text back: the pattern's
/// matches cover every character, and each piece's tokens are the byte-pair
/// encoding of its bytes, which `decode` concatenates again (so only the
/// empty text has no tokens).
/// Not stated: the encoder unwraps its regex matches and would panic if the
/// regex engine gave up on an input.
#[verifier::external_body]
fn encode_ordinary(text: &str) -> (res: Vec<u32>)
    ensures
        res@ == cl100k_encode(text@),
        cl100k_decode(res@) == Some(text@),
        res@.len() == 0 ==> text@.len() == 0,
{
    cl100k_base_singleton().encode_ordinary(text)
}

/// Trusted: `CoreBPE::decode` of the `cl100k_base` singleton, with its error
/// mapped to `None`; the contract names its result as a function of the
/// tokens.
#[verifier::external_body]
fn decode(tokens: &Vec<u32>) -> (res: Option<String>)
    ensures
        res is Some <==> cl100k_decode(tokens@) is Some,
        res matches Some(s) ==> cl100k_decode(tokens@) == Some(s@),
{
    cl100k_base_singleton().decode(tokens).ok()
}

/// Count tokens for `text` using the `cl100k_base` encoding.
pub fn count(text: &str) -> (res: usize)
    ensures
        res == cl100k_encode(text@).len(),
{
    encode_ordinary(text).len()
}

/// Result of truncating text to a token budget.
pub struct Truncated {
    pub text: String,
    pub total_tokens: usize,
    pub truncated: bool,
}

/// First token of the window: `start`, clamped to the token count.
pub open spec fn window_begin(total: nat, start: nat) -> nat {
    if start < total {
        start
    } else {
        total
    }
}

/// One past the last token of the window: `max` tokens after the begin,
/// clamped to the token count.
pub open spec fn window_end(total: nat, start: nat, max: nat) -> nat {
    let b = window_begin(total, start);
    if b + max < total {
        b + max
    } else {
        total
    }
}

/// The token window `[begin, end)` of `total` tokens that skips `start`
/// tokens and keeps at most `max`.
pub fn token_window(total: usize, start: usize, max: usize) -> (res: (usize, usize))
    ensures
        res.0 == window_begin(total as nat, start as nat),
        res.1 == window_end(total as nat, start as nat, max as nat),
        res.0 <= res.1 <= total,
{
    let begin = if start < total {
        start
    } else {
        total
    };
    let end = if max < total - begin {
        begin + max
    } else {
        total
    };
    (begin, end)
}

/// The text that `truncate` keeps: the decoding of the window's tokens, or
/// nothing when the window is empty or does not decode.
pub open spec fn truncated_text(text: Seq<char>, start: nat, max: nat) -> Seq<char> {
    let toks = cl100k_encode(text);
    let b = window_begin(toks.len(), start);
    let e = window_end(toks.len(), start, max);
    if b == e {
        seq![]
    } else {
        match cl100k_decode(toks.subrange(b as int, e as int)) {
            Some(s) => s,
            None => seq![],
        }
    }
}

fn sub_tokens(s: &Vec<u32>, lo: usize, hi: usize) -> (res: Vec<u32>)
    requires
        lo <= hi <= s.len(),
    ensures
        res@ == s@.subrange(lo as int, hi as int),
{
    let mut out: Vec<u32> = Vec::new();
    let mut i = lo;
    while i < hi
        invariant
            lo <= i <= hi <= s.len(),
            out@ == s@.subrange(lo as int, i as int),
        decreases hi - i,
    {
        out.push(s[i]);
        i = i + 1;
        assert(s@.subrange(lo as int, i as int) =~= s@.subrange(lo as int, i - 1 as int).push(
            s@[i - 1 as int],
        ));
    }
    out
}

/// Skip `start` tokens, then take up to `max` tokens from `text`.
/// Returns the decoded text slice and whether it was truncated.
pub fn truncate(text: &str, start: usize, max: usize) -> (res: Truncated)
    ensures
        res.total_tokens == cl100k_encode(text@).len(),
        res.truncated == (window_end(res.total_tokens as nat, start as nat, max as nat)
            < res.total_tokens),
        res.text@ == truncated_text(text@, start as nat, max as nat),
        start >= res.total_tokens ==> res.text@.len() == 0 && !res.truncated,
        start == 0 && max >= res.total_tokens ==> res.text@ == text@ && !res.truncated,
{
    let tokens = encode_ordinary(text);
    let total_tokens = tokens.len();
    let (begin, end) = token_window(total_tokens, start, max);
    proof {
        assert(tokens@.subrange(0, total_tokens as int) =~= tokens@);
        if total_tokens == 0 {
            assert(tokens@ =~= Seq::<u32>::empty());
        }
    }
    let truncated = end < total_tokens;
    let decoded = if begin == end {
        String::new()
    } else {
        let slice = sub_tokens(&tokens, begin, end);
        match decode(&slice) {
            Some(s) => s,
            None => String::new(),
        }
    };
    Truncated { text: decoded, total_tokens, truncated }
}

/// Pages tile the token stream: the page that starts where another one
/// ended begins exactly there, so consecutive `start` values taken from
/// each page's end cover every token once.
pub proof fn lemma_pages_tile(total: nat, start: nat, max: nat)
    ensures
        window_begin(total, window_end(total, start, max)) == window_end(total, start, max),
        window_begin(total, start) <= window_end(total, start, max) <= total,
        window_end(total, start, max) - window_begin(total, start) <= max,
{
}

/// A window that reaches the end of the tokens is not truncated, and one
/// that stops before it is: `truncated` says whether tokens remain.
pub proof fn lemma_truncated_iff_tokens_remain(total: nat, start: nat, max: nat)
    ensures
        (window_end(total, start, max) < total) <==> (window_begin(total, start) + max < total),
{
}

} // verus!
