//! The document listing: a table per top-level directory, and the grouped
//! summary behind the structured output.

use crate::calendar::{date_chars, date_text, datetime_text, format_datetime};
use crate::db::DocRow;
use crate::paths::{file_name, file_name_spec};
use crate::text::{
    chars_eq, chars_of, fmt_i64, fmt_int, pad_left, pad_left_chars, pad_right, pad_right_chars,
    push_chars, push_str, slice_chars, string_from_chars,
};
use vstd::prelude::*;

verus! {

/// `s` cut to at most `max` characters, the last one an ellipsis when cut.
pub open spec fn ellipsis(s: Seq<char>, max: nat) -> Seq<char> {
    if s.len() <= max {
        s
    } else {
        s.take(if max >= 1 { max - 1 } else { 0 }) + seq!['…']
    }
}

fn ellipsis_chars(s: &Vec<char>, max: usize) -> (res: Vec<char>)
    ensures
        res@ == ellipsis(s@, max as nat),
{
    if s.len() <= max {
        slice_chars(s, 0, s.len())
    } else {
        let keep = if max >= 1 {
            max - 1
        } else {
            0
        };
        let mut out = slice_chars(s, 0, keep);
        out.push('…');
        out
    }
}

/// Shorten `s` to at most `max` characters, ending in `…` when cut.
pub fn truncate(s: &str, max: usize) -> (res: String)
    ensures
        res@ == ellipsis(s@, max as nat),
{
    let c = chars_of(s);
    let out = ellipsis_chars(&c, max);
    string_from_chars(&out)
}

pub open spec fn header_line() -> Seq<char> {
    "| ID       | File                 | Title                          | Tokens | Modified   |\n"@
}

pub open spec fn rule_line() -> Seq<char> {
    "|----------|----------------------|--------------------------------|--------|------------|\n"@
}

/// The label of a directory group: `./` for the repository root.
pub open spec fn dir_label(dir: Seq<char>) -> Seq<char> {
    if dir.len() == 0 {
        seq!['.', '/']
    } else {
        dir.push('/')
    }
}

/// Whether row `k` opens a new directory group.
pub open spec fn starts_group(rows: Seq<(DocRow, i64)>, k: int) -> bool {
    k == 0 || rows[k].0.dir@ != rows[k - 1].0.dir@
}

/// The group heading and table header printed before row `k`, if it opens
/// a group (groups after the first are separated by a blank line).
pub open spec fn group_header(rows: Seq<(DocRow, i64)>, k: int) -> Seq<char> {
    if starts_group(rows, k) {
        (if k > 0 {
            seq!['\n']
        } else {
            seq![]
        }) + dir_label(rows[k].0.dir@) + seq!['\n'] + header_line() + rule_line()
    } else {
        seq![]
    }
}

/// The table line of one document.
pub open spec fn row_line(r: DocRow) -> Seq<char> {
    "| "@ + pad_right(r.doc_id@, 8) + " | "@ + pad_right(ellipsis(file_name_spec(r.rel_path@), 20), 20)
        + " | "@ + pad_right(ellipsis(r.title@, 30), 30) + " | "@ + pad_left(
        fmt_int(r.tokens as int),
        6,
    ) + " | "@ + date_text(r.mtime_unix as int) + " |\n"@
}

/// The listing text of rows sorted by directory.
pub open spec fn index_text(rows: Seq<(DocRow, i64)>) -> Seq<char>
    decreases rows.len(),
{
    if rows.len() == 0 {
        seq![]
    } else {
        let k = rows.len() - 1;
        index_text(rows.drop_last()) + group_header(rows, k as int) + row_line(rows[k as int].0)
    }
}

fn str_eq(a: &str, b: &str) -> (res: bool)
    ensures
        res == (a@ == b@),
{
    let x = chars_of(a);
    let y = chars_of(b);
    chars_eq(&x, &y)
}

fn row_line_chars(r: &DocRow) -> (res: Vec<char>)
    ensures
        res@ == row_line(*r),
{
    let mut out: Vec<char> = Vec::new();
    push_str(&mut out, "| ");
    let id = chars_of(r.doc_id.as_str());
    let id_p = pad_right_chars(&id, 8);
    push_chars(&mut out, &id_p);
    push_str(&mut out, " | ");
    let rel = chars_of(r.rel_path.as_str());
    let name = file_name(&rel);
    let name_e = ellipsis_chars(&name, 20);
    let name_p = pad_right_chars(&name_e, 20);
    push_chars(&mut out, &name_p);
    push_str(&mut out, " | ");
    let title = chars_of(r.title.as_str());
    let title_e = ellipsis_chars(&title, 30);
    let title_p = pad_right_chars(&title_e, 30);
    push_chars(&mut out, &title_p);
    push_str(&mut out, " | ");
    let tok = fmt_i64(r.tokens);
    let tok_p = pad_left_chars(&tok, 6);
    push_chars(&mut out, &tok_p);
    push_str(&mut out, " | ");
    let date = date_chars(r.mtime_unix);
    push_chars(&mut out, &date);
    push_str(&mut out, " |\n");
    out
}

/// Renders the listing: rows grouped by directory, each group headed by its
/// label and the table header.
pub fn render_text(rows: &Vec<(DocRow, i64)>) -> (res: String)
    ensures
        res@ == index_text(rows@),
{
    let mut out: Vec<char> = Vec::new();
    let mut i: usize = 0;
    while i < rows.len()
        invariant
            i <= rows.len(),
            out@ == index_text(rows@.take(i as int)),
        decreases rows.len() - i,
    {
        let ghost before = out@;
        let opens = i == 0 || !str_eq(rows[i].0.dir.as_str(), rows[i - 1].0.dir.as_str());
        if opens {
            if i > 0 {
                out.push('\n');
            }
            let dir = chars_of(rows[i].0.dir.as_str());
            if dir.len() == 0 {
                out.push('.');
                out.push('/');
            } else {
                push_str(&mut out, rows[i].0.dir.as_str());
                out.push('/');
            }
            out.push('\n');
            push_str(
                &mut out,
                "| ID       | File                 | Title                          | Tokens | Modified   |\n",
            );
            push_str(
                &mut out,
                "|----------|----------------------|--------------------------------|--------|------------|\n",
            );
        }
        let line = row_line_chars(&rows[i].0);
        push_chars(&mut out, &line);
        proof {
            let t = rows@.take(i + 1);
            assert(t.drop_last() =~= rows@.take(i as int));
            assert(t[i as int] == rows@[i as int]);
            if i > 0 {
                assert(t[i - 1] == rows@[i - 1]);
            }
            assert(group_header(t, i as int) =~= group_header(rows@, i as int));
            if opens {
                if rows@[i as int].0.dir@.len() == 0 {
                    assert(dir_label(rows@[i as int].0.dir@) =~= seq!['.', '/']);
                }
                assert(out@ =~= before + group_header(rows@, i as int) + row_line(rows@[i as int].0));
            } else {
                assert(out@ =~= before + group_header(rows@, i as int) + row_line(rows@[i as int].0));
            }
        }
        i = i + 1;
    }
    assert(rows@.take(rows@.len() as int) =~= rows@);
    string_from_chars(&out)
}

// ---------------------------------------------------------------------------
// Structured listing
// ---------------------------------------------------------------------------

/// One document of the structured listing.
#[derive(Debug, Clone)]
pub struct IndexEntry {
    pub id: String,
    pub path: String,
    pub file: String,
    pub title: String,
    pub tokens: i64,
    pub section_count: i64,
    /// Last modification, ISO-8601 UTC.
    pub modified: String,
}

/// Mathematical model of an `IndexEntry`.
pub struct EntryView {
    pub id: Seq<char>,
    pub path: Seq<char>,
    pub file: Seq<char>,
    pub title: Seq<char>,
    pub tokens: int,
    pub section_count: int,
    pub modified: Seq<char>,
}

impl View for IndexEntry {
    type V = EntryView;

    open spec fn view(&self) -> EntryView {
        EntryView {
            id: self.id@,
            path: self.path@,
            file: self.file@,
            title: self.title@,
            tokens: self.tokens as int,
            section_count: self.section_count as int,
            modified: self.modified@,
        }
    }
}

/// The documents of one directory, in listing order.
#[derive(Debug, Clone)]
pub struct DirGroup {
    pub dir: String,
    pub docs: Vec<IndexEntry>,
}

pub open spec fn entry_views(e: Seq<IndexEntry>) -> Seq<EntryView> {
    e.map_values(|x: IndexEntry| x@)
}

pub open spec fn group_view(g: DirGroup) -> (Seq<char>, Seq<EntryView>) {
    (g.dir@, entry_views(g.docs@))
}

pub open spec fn group_views(g: Seq<DirGroup>) -> Seq<(Seq<char>, Seq<EntryView>)> {
    g.map_values(|x: DirGroup| group_view(x))
}

/// The listing entry of a row and its section count.
pub open spec fn entry_spec(r: DocRow, section_count: i64) -> EntryView {
    EntryView {
        id: r.doc_id@,
        path: r.rel_path@,
        file: file_name_spec(r.rel_path@),
        title: r.title@,
        tokens: r.tokens as int,
        section_count: section_count as int,
        modified: datetime_text(r.mtime_unix as int),
    }
}

/// Rows sorted by directory, grouped into runs of the same directory.
pub open spec fn groups_spec(rows: Seq<(DocRow, i64)>) -> Seq<(Seq<char>, Seq<EntryView>)>
    decreases rows.len(),
{
    if rows.len() == 0 {
        seq![]
    } else {
        let k = rows.len() - 1;
        let g = groups_spec(rows.drop_last());
        let e = entry_spec(rows[k as int].0, rows[k as int].1);
        if starts_group(rows, k as int) {
            g.push((rows[k as int].0.dir@, seq![e]))
        } else {
            g.update(g.len() - 1, (g.last().0, g.last().1.push(e)))
        }
    }
}

/// Total tokens of the rows.
pub open spec fn token_sum(rows: Seq<(DocRow, i64)>) -> int
    decreases rows.len(),
{
    if rows.len() == 0 {
        0
    } else {
        token_sum(rows.drop_last()) + rows.last().0.tokens
    }
}

/// Every running total of the rows' tokens fits in an `i64`.
pub open spec fn sums_fit(rows: Seq<(DocRow, i64)>) -> bool {
    forall|k: int| 0 <= k <= rows.len() ==> i64::MIN <= #[trigger] token_sum(rows.take(k)) <= i64::MAX
}

proof fn lemma_groups_nonempty(rows: Seq<(DocRow, i64)>)
    ensures
        rows.len() > 0 ==> groups_spec(rows).len() > 0,
        rows.len() > 0 ==> groups_spec(rows).last().0 == rows.last().0.dir@,
    decreases rows.len(),
{
    if rows.len() > 1 {
        lemma_groups_nonempty(rows.drop_last());
    }
}

/// The summary behind the structured listing.
#[derive(Debug, Clone)]
pub struct IndexListing {
    pub total_docs: usize,
    pub total_tokens: i64,
    pub groups: Vec<DirGroup>,
}

fn entry_of(r: &DocRow, section_count: i64) -> (res: IndexEntry)
    ensures
        res@ == entry_spec(*r, section_count),
{
    let rel = chars_of(r.rel_path.as_str());
    let name = file_name(&rel);
    IndexEntry {
        id: r.doc_id.as_str().to_owned(),
        path: r.rel_path.as_str().to_owned(),
        file: string_from_chars(&name),
        title: r.title.as_str().to_owned(),
        tokens: r.tokens,
        section_count,
        modified: format_datetime(r.mtime_unix),
    }
}

/// Groups rows sorted by directory into per-directory runs, with the
/// document count and total tokens.
pub fn listing(rows: &Vec<(DocRow, i64)>) -> (res: IndexListing)
    requires
        sums_fit(rows@),
    ensures
        res.total_docs == rows@.len(),
        res.total_tokens == token_sum(rows@),
        group_views(res.groups@) == groups_spec(rows@),
{
    let mut groups: Vec<DirGroup> = Vec::new();
    let mut cur_dir = String::new();
    let mut cur_docs: Vec<IndexEntry> = Vec::new();
    let mut total: i64 = 0;
    let mut i: usize = 0;
    while i < rows.len()
        invariant
            i <= rows.len(),
            sums_fit(rows@),
            total == token_sum(rows@.take(i as int)),
            i == 0 ==> groups@.len() == 0,
            i > 0 ==> cur_dir@ == rows@[i - 1].0.dir@,
            i > 0 ==> group_views(groups@).push((cur_dir@, entry_views(cur_docs@))) == groups_spec(
                rows@.take(i as int),
            ),
        decreases rows.len() - i,
    {
        let ghost t = rows@.take(i + 1);
        proof {
            assert(t.drop_last() =~= rows@.take(i as int));
            assert(t[i as int] == rows@[i as int]);
            if i > 0 {
                assert(t[i - 1] == rows@[i - 1]);
            }
            assert(rows@.take(i + 1).len() == i + 1);
            assert(i64::MIN <= token_sum(rows@.take(i + 1)) <= i64::MAX);
        }
        let e = entry_of(&rows[i].0, rows[i].1);
        let opens = i == 0 || !str_eq(rows[i].0.dir.as_str(), cur_dir.as_str());
        total = total + rows[i].0.tokens;
        if opens {
            let ghost prev = groups_spec(rows@.take(i as int));
            if i > 0 {
                let ghost gv = group_views(groups@);
                let finished = DirGroup { dir: cur_dir, docs: cur_docs };
                groups.push(finished);
                assert(group_views(groups@) =~= gv.push(group_view(finished)));
            } else {
                assert(rows@.take(0) =~= Seq::<(DocRow, i64)>::empty());
                assert(group_views(groups@) =~= prev);
            }
            assert(group_views(groups@) == prev);
            assert(starts_group(t, i as int));
            assert(groups_spec(t) == prev.push((rows@[i as int].0.dir@, seq![e@])));
            cur_dir = rows[i].0.dir.as_str().to_owned();
            cur_docs = Vec::new();
            cur_docs.push(e);
            proof {
                assert(entry_views(cur_docs@) =~= seq![e@]);
                assert(group_views(groups@).push((cur_dir@, entry_views(cur_docs@))) =~= groups_spec(t));
            }
        } else {
            let ghost old_docs = entry_views(cur_docs@);
            cur_docs.push(e);
            proof {
                assert(entry_views(cur_docs@) =~= old_docs.push(e@));
                let g = groups_spec(rows@.take(i as int));
                assert(group_views(groups@).push((cur_dir@, entry_views(cur_docs@))) =~= g.update(
                    g.len() - 1,
                    (g.last().0, g.last().1.push(e@)),
                ));
            }
        }
        i = i + 1;
    }
    assert(rows@.take(rows@.len() as int) =~= rows@);
    if rows.len() > 0 {
        let ghost gv = group_views(groups@);
        let last = DirGroup { dir: cur_dir, docs: cur_docs };
        groups.push(last);
        assert(group_views(groups@) =~= gv.push(group_view(last)));
    } else {
        assert(group_views(groups@) =~= groups_spec(rows@));
    }
    IndexListing { total_docs: rows.len(), total_tokens: total, groups }
}

/// The entries of groups laid end to end.
pub open spec fn group_entries(groups: Seq<(Seq<char>, Seq<EntryView>)>) -> Seq<EntryView>
    decreases groups.len(),
{
    if groups.len() == 0 {
        seq![]
    } else {
        group_entries(groups.drop_last()) + groups.last().1
    }
}

/// The listing's groups hold every row once, in order: their entries laid
/// end to end are the rows' entries, no group is empty, and neighbouring
/// groups are different directories (each row's directory labels its
/// group).
pub proof fn lemma_groups_partition_rows(rows: Seq<(DocRow, i64)>)
    ensures
        group_entries(groups_spec(rows)) == rows.map_values(
            |r: (DocRow, i64)| entry_spec(r.0, r.1),
        ),
        forall|g: int| 0 <= g < groups_spec(rows).len() ==> (#[trigger] groups_spec(rows)[g]).1.len() > 0,
        forall|g: int|
            0 < g < groups_spec(rows).len() ==> (#[trigger] groups_spec(rows)[g]).0 != groups_spec(
                rows,
            )[g - 1].0,
    decreases rows.len(),
{
    if rows.len() > 0 {
        let prev = rows.drop_last();
        lemma_groups_partition_rows(prev);
        lemma_groups_nonempty(rows);
        lemma_groups_nonempty(prev);
        let k = rows.len() - 1;
        let g = groups_spec(prev);
        let e = entry_spec(rows[k as int].0, rows[k as int].1);
        let out = groups_spec(rows);
        assert(rows.map_values(|r: (DocRow, i64)| entry_spec(r.0, r.1)) =~= prev.map_values(
            |r: (DocRow, i64)| entry_spec(r.0, r.1),
        ).push(e));
        if starts_group(rows, k as int) {
            assert(out == g.push((rows[k as int].0.dir@, seq![e])));
            assert(out.drop_last() =~= g);
            assert(group_entries(out) =~= group_entries(g) + seq![e]);
            if k > 0 {
                assert(g.last().0 == prev.last().0.dir@);
                assert(prev.last() == rows[k - 1]);
            }
            assert forall|i: int| 0 < i < out.len() implies (#[trigger] out[i]).0 != out[i - 1].0 by {
                if i < out.len() - 1 {
                    assert(out[i] == g[i]);
                    assert(out[i - 1] == g[i - 1]);
                }
            }
        } else {
            let n = g.len();
            let upd = g.update(n - 1, (g.last().0, g.last().1.push(e)));
            assert(out == upd);
            assert(upd.drop_last() =~= g.drop_last());
            assert(group_entries(g) == group_entries(g.drop_last()) + g.last().1);
            assert(group_entries(out) =~= group_entries(g) + seq![e]);
            assert forall|i: int| 0 < i < out.len() implies (#[trigger] out[i]).0 != out[i - 1].0 by {
                assert(out[i].0 == g[i].0);
                assert(out[i - 1].0 == g[i - 1].0);
            }
        }
    }
}

} // verus!
