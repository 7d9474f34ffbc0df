//! The plain-text table of search results.

use crate::index::{ellipsis, truncate};
use crate::text::{
    chars_of, fmt_i64, fmt_int, pad_left, pad_left_chars, pad_right, pad_right_chars, push_chars,
    push_str, string_from_chars,
};
use vstd::prelude::*;

verus! {

/// The table header of search results.
pub open spec fn header_spec() -> Seq<char> {
    "| Doc      | Sec    | Path                           | Heading                        | Tokens | Score |\n|----------|--------|--------------------------------|--------------------------------|--------|-------|\n"@
}

/// The table header of search results (two lines).
pub fn header() -> (res: String)
    ensures
        res@ == header_spec(),
{
    let mut out: Vec<char> = Vec::new();
    push_str(
        &mut out,
        "| Doc      | Sec    | Path                           | Heading                        | Tokens | Score |\n|----------|--------|--------------------------------|--------------------------------|--------|-------|\n",
    );
    string_from_chars(&out)
}

/// The table line of one hit; `score` is the score already written with
/// two decimals.
pub open spec fn hit_line_spec(
    doc_id: Seq<char>,
    section_id: Seq<char>,
    path: Seq<char>,
    heading: Seq<char>,
    tokens: int,
    score: Seq<char>,
) -> Seq<char> {
    "| "@ + pad_right(doc_id, 8) + " | "@ + pad_right(section_id, 6) + " | "@ + pad_right(
        ellipsis(path, 30),
        30,
    ) + " | "@ + pad_right(ellipsis(heading, 30), 30) + " | "@ + pad_left(fmt_int(tokens), 6)
        + " | "@ + pad_left(score, 5) + " |\n"@
}

fn padded_right(s: &str, w: usize) -> (res: Vec<char>)
    ensures
        res@ == pad_right(s@, w as nat),
{
    let c = chars_of(s);
    pad_right_chars(&c, w)
}

/// Renders the table line of one hit.
pub fn hit_line(
    doc_id: &str,
    section_id: &str,
    path: &str,
    heading: &str,
    tokens: i64,
    score: &str,
) -> (res: String)
    ensures
        res@ == hit_line_spec(doc_id@, section_id@, path@, heading@, tokens as int, score@),
{
    let mut out: Vec<char> = Vec::new();
    push_str(&mut out, "| ");
    let a = padded_right(doc_id, 8);
    push_chars(&mut out, &a);
    push_str(&mut out, " | ");
    let b = padded_right(section_id, 6);
    push_chars(&mut out, &b);
    push_str(&mut out, " | ");
    let p = truncate(path, 30);
    let c = padded_right(p.as_str(), 30);
    push_chars(&mut out, &c);
    push_str(&mut out, " | ");
    let h = truncate(heading, 30);
    let d = padded_right(h.as_str(), 30);
    push_chars(&mut out, &d);
    push_str(&mut out, " | ");
    let t = fmt_i64(tokens);
    let e = pad_left_chars(&t, 6);
    push_chars(&mut out, &e);
    push_str(&mut out, " | ");
    let sc = chars_of(score);
    let f = pad_left_chars(&sc, 5);
    push_chars(&mut out, &f);
    push_str(&mut out, " |\n");
    string_from_chars(&out)
}

} // verus!
