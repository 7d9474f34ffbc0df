//! Per-document outlines: one line per section with its ID and token
//! counts, followed by the section's snippet.

use crate::db::SectionRow;
use crate::text::{fmt_i64, fmt_int, push_chars, push_str, repeat, string_from_chars};
use vstd::prelude::*;

verus! {

/// The `#` marks of a section heading: one per level, at least one.
pub open spec fn hashes(level: int) -> Seq<char> {
    repeat('#', if level < 1 { 1 } else { level })
}

/// Appends the `#` marks of a heading level.
pub fn push_hashes(out: &mut Vec<char>, level: i64)
    ensures
        final(out)@ == old(out)@ + hashes(level as int),
{
    let n: i64 = if level < 1 {
        1
    } else {
        level
    };
    let ghost start = out@;
    let mut k: i64 = 0;
    while k < n
        invariant
            0 <= k <= n,
            out@ == start + repeat('#', k as int),
        decreases n - k,
    {
        out.push('#');
        k = k + 1;
        assert(repeat('#', k as int) =~= repeat('#', k - 1 as int).push('#'));
    }
    assert(repeat('#', n as int) =~= hashes(level as int));
}

/// The first line of an outline or table of contents.
pub open spec fn doc_line(doc_id: Seq<char>, rel_path: Seq<char>, total_tokens: int) -> Seq<char> {
    rel_path + "  ["@ + doc_id + "]  "@ + fmt_int(total_tokens) + " tokens\n"@
}

/// Appends `doc_line`.
pub fn push_doc_line(out: &mut Vec<char>, doc_id: &str, rel_path: &str, total_tokens: i64)
    ensures
        final(out)@ == old(out)@ + doc_line(doc_id@, rel_path@, total_tokens as int),
{
    push_str(out, rel_path);
    push_str(out, "  [");
    push_str(out, doc_id);
    push_str(out, "]  ");
    let t = fmt_i64(total_tokens);
    push_chars(out, &t);
    push_str(out, " tokens\n");
}

/// The heading line of a section, up to its token count.
pub open spec fn section_head(s: SectionRow) -> Seq<char> {
    hashes(s.level as int) + " "@ + s.heading@ + "  [sec:"@ + s.section_id@ + "]  ("@ + fmt_int(
        s.tokens as int,
    ) + " tokens"@
}

/// Appends `section_head`.
pub fn push_section_head(out: &mut Vec<char>, s: &SectionRow)
    ensures
        final(out)@ == old(out)@ + section_head(*s),
{
    push_hashes(out, s.level);
    push_str(out, " ");
    push_str(out, s.heading.as_str());
    push_str(out, "  [sec:");
    push_str(out, s.section_id.as_str());
    push_str(out, "]  (");
    let t = fmt_i64(s.tokens);
    push_chars(out, &t);
    push_str(out, " tokens");
}

/// The outline block of one section: heading line with code tokens when
/// there are any, the snippet when non-empty, and a blank line.
pub open spec fn outline_block(s: SectionRow) -> Seq<char> {
    section_head(s) + (if s.code_tokens > 0 {
        ", "@ + fmt_int(s.code_tokens as int) + " code"@
    } else {
        seq![]
    }) + ")\n"@ + (if s.snippet@.len() > 0 {
        s.snippet@ + "\n"@
    } else {
        seq![]
    }) + "\n"@
}

pub open spec fn outline_blocks(secs: Seq<SectionRow>) -> Seq<char>
    decreases secs.len(),
{
    if secs.len() == 0 {
        seq![]
    } else {
        outline_blocks(secs.drop_last()) + outline_block(secs.last())
    }
}

/// The outline of a document.
pub open spec fn outline_text(doc_id: Seq<char>, rel_path: Seq<char>, total_tokens: int, secs: Seq<
    SectionRow,
>) -> Seq<char> {
    doc_line(doc_id, rel_path, total_tokens) + "\n"@ + outline_blocks(secs)
}

/// Renders a document's outline.
pub fn render_text(doc_id: &str, rel_path: &str, total_tokens: i64, sections: &Vec<SectionRow>) -> (res:
    String)
    ensures
        res@ == outline_text(doc_id@, rel_path@, total_tokens as int, sections@),
{
    let mut out: Vec<char> = Vec::new();
    push_doc_line(&mut out, doc_id, rel_path, total_tokens);
    push_str(&mut out, "\n");
    let ghost head = out@;
    let mut i: usize = 0;
    while i < sections.len()
        invariant
            i <= sections.len(),
            out@ == head + outline_blocks(sections@.take(i as int)),
        decreases sections.len() - i,
    {
        let ghost before = out@;
        let s = &sections[i];
        push_section_head(&mut out, s);
        if s.code_tokens > 0 {
            push_str(&mut out, ", ");
            let c = fmt_i64(s.code_tokens);
            push_chars(&mut out, &c);
            push_str(&mut out, " code");
        }
        push_str(&mut out, ")\n");
        let snip = crate::text::chars_of(s.snippet.as_str());
        if snip.len() > 0 {
            push_chars(&mut out, &snip);
            push_str(&mut out, "\n");
        }
        push_str(&mut out, "\n");
        proof {
            assert(sections@.take(i + 1).drop_last() =~= sections@.take(i as int));
            assert(sections@.take(i + 1).last() == sections@[i as int]);
            assert(out@ =~= before + outline_block(sections@[i as int]));
        }
        i = i + 1;
    }
    assert(sections@.take(sections@.len() as int) =~= sections@);
    string_from_chars(&out)
}

} // verus!
