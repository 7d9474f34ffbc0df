//! The cross-document table of contents: every document's headings, without
//! snippets.

use crate::db::SectionRow;
use crate::outline::{doc_line, push_doc_line, push_section_head, section_head};
use crate::text::{push_str, string_from_chars};
use vstd::prelude::*;

verus! {

pub open spec fn toc_lines(secs: Seq<SectionRow>) -> Seq<char>
    decreases secs.len(),
{
    if secs.len() == 0 {
        seq![]
    } else {
        toc_lines(secs.drop_last()) + section_head(secs.last()) + ")\n"@
    }
}

/// The table-of-contents entry of a document.
pub open spec fn toc_text(doc_id: Seq<char>, rel_path: Seq<char>, total_tokens: int, secs: Seq<
    SectionRow,
>) -> Seq<char> {
    doc_line(doc_id, rel_path, total_tokens) + toc_lines(secs)
}

/// Renders one document's entry of the table of contents.
pub fn render_text(doc_id: &str, rel_path: &str, total_tokens: i64, secs: &Vec<SectionRow>) -> (res:
    String)
    ensures
        res@ == toc_text(doc_id@, rel_path@, total_tokens as int, secs@),
{
    let mut out: Vec<char> = Vec::new();
    push_doc_line(&mut out, doc_id, rel_path, total_tokens);
    let ghost head = out@;
    let mut i: usize = 0;
    while i < secs.len()
        invariant
            i <= secs.len(),
            out@ == head + toc_lines(secs@.take(i as int)),
        decreases secs.len() - i,
    {
        let ghost before = out@;
        push_section_head(&mut out, &secs[i]);
        push_str(&mut out, ")\n");
        proof {
            assert(secs@.take(i + 1).drop_last() =~= secs@.take(i as int));
            assert(secs@.take(i + 1).last() == secs@[i as int]);
            assert(out@ =~= before + section_head(secs@[i as int]) + ")\n"@);
        }
        i = i + 1;
    }
    assert(secs@.take(secs@.len() as int) =~= secs@);
    string_from_chars(&out)
}

} // verus!
