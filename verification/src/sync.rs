//! The bookkeeping of a sync pass: when a scan is fresh enough to skip,
//! which files are new, changed, unchanged or gone, and the rows stored for
//! a document.

use crate::db::{DocRow, DocStat, SectionRow};
use crate::id::{doc_id, hex_prefix_spec, is_hex_id};
use crate::parse::{concat, contents, parse, parse_spec, section_views, text_of, text_of_bytes, Section, SectionView};
use crate::paths::{
    eq_ignore_ascii_case, eq_ignore_case, extension_spec, file_name, file_name_spec, stem_and_extension,
    stem_spec, top_dir, top_dir_spec,
};
use crate::text::{
    chars_of, dec, digit_char, fmt_int, fmt_usize, is_whitespace, is_ws, lemma_prefix_while, lines, lines_of,
    prefix_while, push_chars, slice_chars, string_from_chars, trim, trim_chars, views,
};
use vstd::utf8::encode_utf8;
use vstd::prelude::*;

verus! {

/// How long an automatic scan stays fresh, in seconds.
pub const AUTO_INDEX_TTL: u64 = 5;

/// Summary of one sync pass.
#[derive(Debug, Clone, PartialEq, Eq)]
pub struct SyncReport {
    pub added: usize,
    pub changed: usize,
    pub removed: usize,
    /// Files skipped due to non-UTF-8 content.
    pub skipped_binary: Vec<String>,
    /// True when TTL short-circuited the walk.
    pub skipped: bool,
}

impl Default for SyncReport {
    fn default() -> (res: SyncReport)
        ensures
            res.added == 0,
            res.changed == 0,
            res.removed == 0,
            res.skipped_binary@.len() == 0,
            !res.skipped,
    {
        SyncReport { added: 0, changed: 0, removed: 0, skipped_binary: Vec::new(), skipped: false }
    }
}

impl SyncReport {
    /// The report of a pass that the freshness check skipped.
    pub fn skipped_pass() -> (res: SyncReport)
        ensures
            res.added == 0,
            res.changed == 0,
            res.removed == 0,
            res.skipped_binary@.len() == 0,
            res.skipped,
    {
        SyncReport { added: 0, changed: 0, removed: 0, skipped_binary: Vec::new(), skipped: true }
    }
}

// ---------------------------------------------------------------------------
// Freshness
// ---------------------------------------------------------------------------

pub open spec fn is_digit(c: char) -> bool {
    '0' <= c <= '9'
}

/// Value of a run of decimal digits.
pub open spec fn digits_value(s: Seq<char>) -> int
    decreases s.len(),
{
    if s.len() == 0 {
        0
    } else {
        digits_value(s.drop_last()) * 10 + (s.last() as int - '0' as int)
    }
}

/// Whether a number's text starts with a sign.
pub open spec fn has_sign(s: Seq<char>) -> bool {
    s.len() > 0 && (s[0] == '-' || s[0] == '+')
}

/// A number's text without its sign.
pub open spec fn unsigned_part(s: Seq<char>) -> Seq<char> {
    if has_sign(s) {
        s.skip(1)
    } else {
        s
    }
}

/// `str::parse::<i64>`: an optional `+` or `-`, then one or more ASCII
/// digits, and a value that fits in `i64`.
pub open spec fn parse_i64_spec(s: Seq<char>) -> Option<int> {
    let neg = s.len() > 0 && s[0] == '-';
    let body = unsigned_part(s);
    let v = if neg {
        -digits_value(body)
    } else {
        digits_value(body)
    };
    if body.len() > 0 && (forall|i: int| 0 <= i < body.len() ==> is_digit(#[trigger] body[i]))
        && i64::MIN <= v <= i64::MAX {
        Some(v)
    } else {
        None
    }
}

proof fn lemma_digits_value_nonneg(s: Seq<char>)
    requires
        forall|i: int| 0 <= i < s.len() ==> is_digit(#[trigger] s[i]),
    ensures
        digits_value(s) >= 0,
    decreases s.len(),
{
    if s.len() > 0 {
        lemma_digits_value_nonneg(s.drop_last());
    }
}

proof fn lemma_digit_char(d: nat)
    requires
        d < 10,
    ensures
        digit_char(d) as int == d + 48,
        is_digit(digit_char(d)),
{
}

proof fn lemma_dec_digits(n: nat)
    ensures
        dec(n).len() > 0,
        forall|i: int| 0 <= i < dec(n).len() ==> is_digit(#[trigger] dec(n)[i]),
        digits_value(dec(n)) == n,
    decreases n,
{
    if n < 10 {
        lemma_digit_char(n);
        assert(dec(n).drop_last() =~= Seq::<char>::empty());
        assert(digits_value(Seq::<char>::empty()) == 0);
        assert(digits_value(dec(n)) == digits_value(dec(n).drop_last()) * 10 + (dec(n).last() as int
            - '0' as int));
    } else {
        lemma_dec_digits(n / 10);
        lemma_digit_char(n % 10);
        let d = dec(n / 10).push(digit_char(n % 10));
        assert(d.drop_last() =~= dec(n / 10));
        assert(digits_value(d) == digits_value(d.drop_last()) * 10 + (d.last() as int - '0' as int));
        assert((n / 10) * 10 + n % 10 == n);
        assert forall|i: int| 0 <= i < d.len() implies is_digit(#[trigger] d[i]) by {
            if i < d.len() - 1 {
                assert(d[i] == dec(n / 10)[i]);
            }
        }
    }
}

/// The scan time as written (decimal, `{}` formatting) reads back as the
/// same number: what a freshness check parses is what the last scan stored.
pub proof fn lemma_scan_time_round_trip(v: i64)
    ensures
        parse_i64_spec(fmt_int(v as int)) == Some(v as int),
{
    if v < 0 {
        let m = (-v) as nat;
        lemma_dec_digits(m);
        let s = fmt_int(v as int);
        assert(s.skip(1) =~= dec(m));
        assert(unsigned_part(s) == dec(m));
    } else {
        lemma_dec_digits(v as nat);
        assert(is_digit(dec(v as nat)[0]));
    }
}

/// Parses a decimal `i64` as `str::parse` does.
pub fn parse_i64(s: &str) -> (res: Option<i64>)
    ensures
        match res {
            Some(v) => parse_i64_spec(s@) == Some(v as int),
            None => parse_i64_spec(s@) is None,
        },
{
    let c = chars_of(s);
    let n = c.len();
    let neg = n > 0 && c[0] == '-';
    let start: usize = if n > 0 && (c[0] == '-' || c[0] == '+') {
        1
    } else {
        0
    };
    let ghost body = unsigned_part(c@);
    assert(body =~= c@.skip(start as int));
    if start >= n {
        return None;
    }
    // Accumulate the magnitude with a bound just past the i64 range.
    let limit: u64 = 9223372036854775808;
    let mut mag: u64 = 0;
    let mut i: usize = start;
    while i < n
        invariant
            start <= i <= n == c@.len(),
            body == c@.skip(start as int),
            body == unsigned_part(c@),
            c@ == s@,
            neg == (c@.len() > 0 && c@[0] == '-'),
            forall|j: int| 0 <= j < i - start ==> is_digit(#[trigger] body[j]),
            mag == digits_value(body.take(i - start)),
            mag <= limit,
            limit == 9223372036854775808,
        decreases n - i,
    {
        let d = c[i];
        if !('0' <= d && d <= '9') {
            assert(!is_digit(body[i - start]));
            return None;
        }
        assert(body[i - start] == c@[i as int]);
        let dv: u64 = (d as u32 - '0' as u32) as u64;
        assert(dv <= 9);
        assert(body.take(i + 1 - start).drop_last() =~= body.take(i - start));
        assert(body.take(i + 1 - start).last() == d);
        if mag > (limit - dv) / 10 {
            proof {
                lemma_digits_value_nonneg(body.take(i - start));
                assert(digits_value(body.take(i + 1 - start)) == mag * 10 + dv);
                assert(mag * 10 + dv > limit) by (nonlinear_arith)
                    requires
                        mag > (limit - dv) / 10,
                        dv <= 9,
                ;
                if forall|j: int| 0 <= j < body.len() ==> is_digit(#[trigger] body[j]) {
                    lemma_prefix_grows(body, i + 1 - start, body.len() as int);
                    assert(body.take(body.len() as int) =~= body);
                    assert(digits_value(body) > limit);
                }
            }
            return None;
        }
        mag = mag * 10 + dv;
        i = i + 1;
    }
    assert(body.take(n - start) =~= body);
    if neg {
        let v: i128 = -(mag as i128);
        Some(v as i64)
    } else {
        if mag > 9223372036854775807 {
            return None;
        }
        Some(mag as i64)
    }
}

/// Digits appended to a digit run never make its value smaller.
proof fn lemma_prefix_grows(s: Seq<char>, a: int, b: int)
    requires
        0 <= a <= b <= s.len(),
        forall|j: int| 0 <= j < b ==> is_digit(#[trigger] s[j]),
    ensures
        digits_value(s.take(b)) >= digits_value(s.take(a)),
    decreases b - a,
{
    if a < b {
        lemma_prefix_grows(s, a, b - 1);
        assert(s.take(b).drop_last() =~= s.take(b - 1));
        lemma_digits_value_nonneg(s.take(b - 1));
        assert(s[b - 1] == s.take(b).last());
        assert(is_digit(s[b - 1]));
    }
}

pub open spec fn str_opt_view(o: Option<&str>) -> Option<Seq<char>> {
    match o {
        Some(s) => Some(s@),
        None => None,
    }
}

/// The last scan time recorded (unreadable or absent values read as 0).
pub open spec fn last_scan_value(last_scan: Option<Seq<char>>) -> int {
    match last_scan {
        Some(v) => match parse_i64_spec(v) {
            Some(x) => x,
            None => 0,
        },
        None => 0,
    }
}

/// Whether a scan recorded at `last_scan` is still fresh at `now`.
pub open spec fn recent_enough_spec(last_scan: Option<Seq<char>>, now: int, ttl_secs: int) -> bool {
    match last_scan {
        None => false,
        Some(_) => {
            let last = last_scan_value(last_scan);
            now >= last && ttl_secs <= i64::MAX && now - last < ttl_secs
        },
    }
}

/// Whether the previous scan, recorded as `last_scan`, happened less than
/// `ttl_secs` before `now` (never when no scan is recorded or the clock went
/// backwards).
pub fn recent_enough(last_scan: Option<&str>, now: i64, ttl_secs: u64) -> (res: bool)
    requires
        last_scan is Some && now >= last_scan_value(str_opt_view(last_scan)) ==> now
            - last_scan_value(str_opt_view(last_scan)) <= i64::MAX,
    ensures
        res == recent_enough_spec(str_opt_view(last_scan), now as int, ttl_secs as int),
{
    match last_scan {
        None => false,
        Some(v) => {
            let last: i64 = match parse_i64(v) {
                Some(x) => x,
                None => 0,
            };
            if ttl_secs > 9223372036854775807 {
                return false;
            }
            now >= last && now - last < ttl_secs as i64
        },
    }
}

// ---------------------------------------------------------------------------
// Planning a pass
// ---------------------------------------------------------------------------

/// What the walk found of one file.
#[derive(Debug, Clone)]
pub struct FileSeen {
    pub rel_path: String,
    pub mtime_unix: i64,
    pub size_bytes: i64,
    /// Whether the file's bytes are valid UTF-8.
    pub is_utf8: bool,
}

/// How a file compares with what the index holds.
#[derive(Debug, Clone, Copy, PartialEq, Eq)]
pub enum Change {
    Unchanged,
    Changed,
    Added,
}

/// The last of `existing[..k]` stored under `rel` (a later entry for the
/// same path supersedes an earlier one).
pub open spec fn last_index(existing: Seq<DocStat>, rel: Seq<char>, k: int) -> Option<int>
    decreases k,
{
    if k <= 0 {
        None
    } else if existing[k - 1].rel_path@ == rel {
        Some(k - 1)
    } else {
        last_index(existing, rel, k - 1)
    }
}

/// How a walked file compares with the stored stats: unchanged when the
/// stored modification time and size both match.
pub open spec fn change_spec(existing: Seq<DocStat>, f: FileSeen) -> Change {
    match last_index(existing, f.rel_path@, existing.len() as int) {
        Some(j) => if existing[j].mtime_unix == f.mtime_unix && existing[j].size_bytes
            == f.size_bytes {
            Change::Unchanged
        } else {
            Change::Changed
        },
        None => Change::Added,
    }
}

/// Paths of the files skipped as not UTF-8, in walk order.
pub open spec fn skipped_spec(files: Seq<FileSeen>) -> Seq<Seq<char>>
    decreases files.len(),
{
    if files.len() == 0 {
        seq![]
    } else {
        skipped_spec(files.drop_last()) + if !files.last().is_utf8 {
            seq![files.last().rel_path@]
        } else {
            seq![]
        }
    }
}

/// Number of UTF-8 files with the given change.
pub open spec fn count_spec(existing: Seq<DocStat>, files: Seq<FileSeen>, c: Change) -> nat
    decreases files.len(),
{
    if files.len() == 0 {
        0
    } else {
        count_spec(existing, files.drop_last(), c) + if files.last().is_utf8 && change_spec(
            existing,
            files.last(),
        ) == c {
            1nat
        } else {
            0nat
        }
    }
}

/// Indices of the files to (re)index: UTF-8 and new or changed, in order.
pub open spec fn upserts_spec(existing: Seq<DocStat>, files: Seq<FileSeen>) -> Seq<int>
    decreases files.len(),
{
    if files.len() == 0 {
        seq![]
    } else {
        upserts_spec(existing, files.drop_last()) + if files.last().is_utf8 && change_spec(
            existing,
            files.last(),
        ) != Change::Unchanged {
            seq![files.len() - 1]
        } else {
            seq![]
        }
    }
}

/// Whether some walked file has path `rel`.
pub open spec fn seen(files: Seq<FileSeen>, rel: Seq<char>) -> bool {
    exists|i: int| 0 <= i < files.len() && (#[trigger] files[i]).rel_path@ == rel
}

/// Doc IDs of `existing[..k]` whose paths the walk no longer found (one per
/// stored path).
pub open spec fn removed_spec(existing: Seq<DocStat>, files: Seq<FileSeen>, k: int) -> Seq<Seq<char>>
    decreases k,
{
    if k <= 0 {
        seq![]
    } else {
        let s = existing[k - 1];
        removed_spec(existing, files, k - 1) + if last_index(
            existing,
            s.rel_path@,
            existing.len() as int,
        ) == Some(k - 1) && !seen(files, s.rel_path@) {
            seq![s.doc_id@]
        } else {
            seq![]
        }
    }
}

/// The decisions of a sync pass.
#[derive(Debug, Clone)]
pub struct SyncPlan {
    pub report: SyncReport,
    /// Indices into the walked files of those to (re)index.
    pub upserts: Vec<usize>,
    /// Doc IDs to delete.
    pub removed: Vec<String>,
}

fn str_eq(a: &String, b: &String) -> (res: bool)
    ensures
        res == (a@ == b@),
{
    let x = chars_of(a.as_str());
    let y = chars_of(b.as_str());
    crate::text::chars_eq(&x, &y)
}

proof fn lemma_last_index_is_last(existing: Seq<DocStat>, rel: Seq<char>, k: int, j: int)
    requires
        0 <= j < k <= existing.len(),
        existing[j].rel_path@ == rel,
        forall|m: int| j < m < k ==> (#[trigger] existing[m]).rel_path@ != rel,
    ensures
        last_index(existing, rel, k) == Some(j),
    decreases k,
{
    if k - 1 > j {
        lemma_last_index_is_last(existing, rel, k - 1, j);
    }
}

proof fn lemma_last_index_none(existing: Seq<DocStat>, rel: Seq<char>, k: int)
    requires
        0 <= k <= existing.len(),
        forall|m: int| 0 <= m < k ==> (#[trigger] existing[m]).rel_path@ != rel,
    ensures
        last_index(existing, rel, k) is None,
    decreases k,
{
    if k > 0 {
        lemma_last_index_none(existing, rel, k - 1);
    }
}

/// How a walked file is classified, in terms of the stored stats: with no
/// stored entry for its path it is added; otherwise the last stored entry
/// for the path decides, and the file is unchanged exactly when both its
/// modification time and its size equal that entry's, changed as soon as
/// either differs.
pub proof fn lemma_change_law(existing: Seq<DocStat>, f: FileSeen, j: int)
    ensures
        (forall|m: int| 0 <= m < existing.len() ==> (#[trigger] existing[m]).rel_path@
            != f.rel_path@) ==> change_spec(existing, f) == Change::Added,
        (0 <= j < existing.len() && existing[j].rel_path@ == f.rel_path@ && forall|m: int|
            j < m < existing.len() ==> (#[trigger] existing[m]).rel_path@ != f.rel_path@) ==> {
            &&& change_spec(existing, f) != Change::Added
            &&& (change_spec(existing, f) == Change::Unchanged <==> (existing[j].mtime_unix
                == f.mtime_unix && existing[j].size_bytes == f.size_bytes))
            &&& (existing[j].mtime_unix != f.mtime_unix ==> change_spec(existing, f)
                == Change::Changed)
            &&& (existing[j].size_bytes != f.size_bytes ==> change_spec(existing, f)
                == Change::Changed)
        },
{
    if forall|m: int| 0 <= m < existing.len() ==> (#[trigger] existing[m]).rel_path@
        != f.rel_path@ {
        lemma_last_index_none(existing, f.rel_path@, existing.len() as int);
    }
    if 0 <= j < existing.len() && existing[j].rel_path@ == f.rel_path@ && forall|m: int|
        j < m < existing.len() ==> (#[trigger] existing[m]).rel_path@ != f.rel_path@ {
        lemma_last_index_is_last(existing, f.rel_path@, existing.len() as int, j);
    }
}

/// Classifies one walked file against the stored stats.
pub fn classify(existing: &Vec<DocStat>, f: &FileSeen) -> (res: Change)
    ensures
        res == change_spec(existing@, *f),
{
    let mut k = existing.len();
    while k > 0
        invariant
            k <= existing.len(),
            last_index(existing@, f.rel_path@, k as int) == last_index(
                existing@,
                f.rel_path@,
                existing@.len() as int,
            ),
        decreases k,
    {
        if str_eq(&existing[k - 1].rel_path, &f.rel_path) {
            if existing[k - 1].mtime_unix == f.mtime_unix && existing[k - 1].size_bytes
                == f.size_bytes {
                return Change::Unchanged;
            }
            return Change::Changed;
        }
        k = k - 1;
    }
    Change::Added
}

fn seen_exec(files: &Vec<FileSeen>, rel: &String) -> (res: bool)
    ensures
        res == seen(files@, rel@),
{
    let mut i: usize = 0;
    while i < files.len()
        invariant
            i <= files.len(),
            forall|j: int| 0 <= j < i ==> (#[trigger] files@[j]).rel_path@ != rel@,
        decreases files.len() - i,
    {
        if str_eq(&files[i].rel_path, rel) {
            return true;
        }
        i = i + 1;
    }
    false
}

fn is_last_for_path(existing: &Vec<DocStat>, j: usize) -> (res: bool)
    requires
        j < existing@.len(),
    ensures
        res == (last_index(existing@, existing@[j as int].rel_path@, existing@.len() as int) == Some(
            j as int,
        )),
{
    let mut k = existing.len();
    while k > j + 1
        invariant
            j + 1 <= k <= existing.len(),
            last_index(existing@, existing@[j as int].rel_path@, k as int) == last_index(
                existing@,
                existing@[j as int].rel_path@,
                existing@.len() as int,
            ),
        decreases k,
    {
        if str_eq(&existing[k - 1].rel_path, &existing[j].rel_path) {
            return false;
        }
        k = k - 1;
    }
    true
}

/// Plans a sync pass from the stored stats and the files the walk found:
/// non-UTF-8 files are skipped, new and changed files are (re)indexed and
/// counted, and stored docs whose paths were not found are removed.
pub fn plan_sync(existing: &Vec<DocStat>, files: &Vec<FileSeen>) -> (res: SyncPlan)
    ensures
        res.report.skipped_binary@.map_values(|s: String| s@) == skipped_spec(files@),
        res.report.added == count_spec(existing@, files@, Change::Added),
        res.report.changed == count_spec(existing@, files@, Change::Changed),
        res.report.removed == res.removed@.len(),
        !res.report.skipped,
        res.upserts@.map_values(|i: usize| i as int) == upserts_spec(existing@, files@),
        res.removed@.map_values(|s: String| s@) == removed_spec(
            existing@,
            files@,
            existing@.len() as int,
        ),
{
    let mut skipped_binary: Vec<String> = Vec::new();
    let mut upserts: Vec<usize> = Vec::new();
    let mut added: usize = 0;
    let mut changed: usize = 0;
    let mut i: usize = 0;
    while i < files.len()
        invariant
            i <= files.len(),
            skipped_binary@.map_values(|s: String| s@) == skipped_spec(files@.take(i as int)),
            added == count_spec(existing@, files@.take(i as int), Change::Added),
            changed == count_spec(existing@, files@.take(i as int), Change::Changed),
            added + changed <= i,
            upserts@.map_values(|x: usize| x as int) == upserts_spec(existing@, files@.take(i as int)),
        decreases files.len() - i,
    {
        let ghost t = files@.take(i + 1);
        proof {
            assert(t.drop_last() =~= files@.take(i as int));
            assert(t.last() == files@[i as int]);
        }
        let f = &files[i];
        if !f.is_utf8 {
            let ghost sb = skipped_binary@.map_values(|s: String| s@);
            skipped_binary.push(f.rel_path.as_str().to_owned());
            assert(skipped_binary@.map_values(|s: String| s@) =~= sb.push(f.rel_path@));
            assert(upserts_spec(existing@, t) =~= upserts_spec(existing@, files@.take(i as int)));
        } else {
            assert(skipped_spec(t) =~= skipped_spec(files@.take(i as int)));
            let c = classify(existing, f);
            match c {
                Change::Unchanged => {
                    assert(upserts_spec(existing@, t) =~= upserts_spec(
                        existing@,
                        files@.take(i as int),
                    ));
                },
                Change::Changed => {
                    changed = changed + 1;
                    let ghost u = upserts@.map_values(|x: usize| x as int);
                    upserts.push(i);
                    assert(upserts@.map_values(|x: usize| x as int) =~= u.push(i as int));
                },
                Change::Added => {
                    added = added + 1;
                    let ghost u = upserts@.map_values(|x: usize| x as int);
                    upserts.push(i);
                    assert(upserts@.map_values(|x: usize| x as int) =~= u.push(i as int));
                },
            }
        }
        i = i + 1;
    }
    proof {
        assert(files@.take(files@.len() as int) =~= files@);
    }
    let mut removed: Vec<String> = Vec::new();
    let mut k: usize = 0;
    while k < existing.len()
        invariant
            k <= existing.len(),
            removed@.len() <= k,
            removed@.map_values(|s: String| s@) == removed_spec(existing@, files@, k as int),
        decreases existing.len() - k,
    {
        let ghost rv = removed@.map_values(|s: String| s@);
        if is_last_for_path(existing, k) && !seen_exec(files, &existing[k].rel_path) {
            removed.push(existing[k].doc_id.as_str().to_owned());
            assert(removed@.map_values(|s: String| s@) =~= rv.push(existing@[k as int].doc_id@));
        }
        k = k + 1;
    }
    let n_removed = removed.len();
    SyncPlan {
        report: SyncReport { added, changed, removed: n_removed, skipped_binary, skipped: false },
        upserts,
        removed,
    }
}

/// No two stored stats share a path.
pub open spec fn distinct_paths(existing: Seq<DocStat>) -> bool {
    forall|j: int, k: int|
        0 <= j < k < existing.len() ==> (#[trigger] existing[j]).rel_path@ != (
        #[trigger] existing[k]).rel_path@
}

/// Every UTF-8 file of the walk is stored with its path, modification time
/// and size.
pub open spec fn files_stored(existing: Seq<DocStat>, files: Seq<FileSeen>) -> bool {
    forall|i: int|
        0 <= i < files.len() && (#[trigger] files[i]).is_utf8 ==> exists|j: int|
            0 <= j < existing.len() && (#[trigger] existing[j]).rel_path@ == files[i].rel_path@
                && existing[j].mtime_unix == files[i].mtime_unix && existing[j].size_bytes
                == files[i].size_bytes
}

/// Every stored path was found by the walk.
pub open spec fn stored_paths_walked(existing: Seq<DocStat>, files: Seq<FileSeen>) -> bool {
    forall|j: int| 0 <= j < existing.len() ==> seen(files, (#[trigger] existing[j]).rel_path@)
}

proof fn lemma_last_index_unique(existing: Seq<DocStat>, rel: Seq<char>, j: int, k: int)
    requires
        distinct_paths(existing),
        0 <= j < k <= existing.len(),
        existing[j].rel_path@ == rel,
    ensures
        last_index(existing, rel, k) == Some(j),
    decreases k,
{
    if k - 1 != j {
        assert(existing[j].rel_path@ != existing[k - 1].rel_path@);
        lemma_last_index_unique(existing, rel, j, k - 1);
    }
}

proof fn lemma_nothing_to_index(existing: Seq<DocStat>, files: Seq<FileSeen>)
    requires
        distinct_paths(existing),
        files_stored(existing, files),
    ensures
        count_spec(existing, files, Change::Added) == 0,
        count_spec(existing, files, Change::Changed) == 0,
        upserts_spec(existing, files).len() == 0,
    decreases files.len(),
{
    if files.len() > 0 {
        let prefix = files.drop_last();
        assert forall|i: int| 0 <= i < prefix.len() && (#[trigger] prefix[i]).is_utf8 implies exists|
            j: int,
        |
            0 <= j < existing.len() && (#[trigger] existing[j]).rel_path@ == prefix[i].rel_path@
                && existing[j].mtime_unix == prefix[i].mtime_unix && existing[j].size_bytes
                == prefix[i].size_bytes by {
            assert(prefix[i] == files[i]);
        }
        lemma_nothing_to_index(existing, prefix);
        let f = files.last();
        if f.is_utf8 {
            assert(files[files.len() - 1] == f);
            let j = choose|j: int|
                0 <= j < existing.len() && (#[trigger] existing[j]).rel_path@ == f.rel_path@
                    && existing[j].mtime_unix == f.mtime_unix && existing[j].size_bytes
                    == f.size_bytes;
            lemma_last_index_unique(existing, f.rel_path@, j, existing.len() as int);
            assert(change_spec(existing, f) == Change::Unchanged);
        }
    }
}

proof fn lemma_nothing_removed(existing: Seq<DocStat>, files: Seq<FileSeen>, k: int)
    requires
        stored_paths_walked(existing, files),
        0 <= k <= existing.len(),
    ensures
        removed_spec(existing, files, k).len() == 0,
    decreases k,
{
    if k > 0 {
        lemma_nothing_removed(existing, files, k - 1);
        assert(seen(files, existing[k - 1].rel_path@));
    }
}

/// A pass over files that are all stored as they are finds nothing to do:
/// when the stored stats hold every UTF-8 file of the walk with its time
/// and size (one entry per path) and every stored path is walked, nothing
/// is added, changed, re-indexed or removed.
pub proof fn lemma_unchanged_pass_is_quiet(existing: Seq<DocStat>, files: Seq<FileSeen>)
    requires
        distinct_paths(existing),
        files_stored(existing, files),
        stored_paths_walked(existing, files),
    ensures
        count_spec(existing, files, Change::Added) == 0,
        count_spec(existing, files, Change::Changed) == 0,
        upserts_spec(existing, files).len() == 0,
        removed_spec(existing, files, existing.len() as int).len() == 0,
{
    lemma_nothing_to_index(existing, files);
    lemma_nothing_removed(existing, files, existing.len() as int);
}

/// What a pass re-indexes is exactly what it counts as added or changed,
/// and it never re-indexes a file that is not UTF-8.
pub proof fn lemma_upserts_are_counted(existing: Seq<DocStat>, files: Seq<FileSeen>)
    ensures
        upserts_spec(existing, files).len() == count_spec(existing, files, Change::Added)
            + count_spec(existing, files, Change::Changed),
        forall|k: int|
            0 <= k < upserts_spec(existing, files).len() ==> {
                let i = #[trigger] upserts_spec(existing, files)[k];
                &&& 0 <= i < files.len()
                &&& files[i].is_utf8
                &&& change_spec(existing, files[i]) != Change::Unchanged
            },
    decreases files.len(),
{
    if files.len() > 0 {
        let prefix = files.drop_last();
        lemma_upserts_are_counted(existing, prefix);
        let u = upserts_spec(existing, files);
        let up = upserts_spec(existing, prefix);
        assert forall|k: int| 0 <= k < u.len() implies {
            let i = #[trigger] u[k];
            &&& 0 <= i < files.len()
            &&& files[i].is_utf8
            &&& change_spec(existing, files[i]) != Change::Unchanged
        } by {
            if k < up.len() {
                assert(u[k] == up[k]);
                assert(prefix[up[k]] == files[up[k]]);
            } else {
                assert(u[k] == files.len() - 1);
            }
        }
    }
}

/// Doc IDs of the stored docs in `existing[..k]` whose paths the walk did
/// not find, in stored order.
pub open spec fn unwalked_ids(existing: Seq<DocStat>, files: Seq<FileSeen>, k: int) -> Seq<Seq<char>>
    decreases k,
{
    if k <= 0 {
        seq![]
    } else {
        unwalked_ids(existing, files, k - 1) + if !seen(files, existing[k - 1].rel_path@) {
            seq![existing[k - 1].doc_id@]
        } else {
            seq![]
        }
    }
}

/// With one stored entry per path, a pass removes exactly the stored docs
/// whose paths the walk did not find.
pub proof fn lemma_removed_are_unwalked(existing: Seq<DocStat>, files: Seq<FileSeen>, k: int)
    requires
        0 <= k <= existing.len(),
        distinct_paths(existing),
    ensures
        removed_spec(existing, files, k) == unwalked_ids(existing, files, k),
    decreases k,
{
    if k > 0 {
        lemma_removed_are_unwalked(existing, files, k - 1);
        lemma_last_index_unique(existing, existing[k - 1].rel_path@, k - 1, existing.len() as int);
    }
}

// ---------------------------------------------------------------------------
// Titles
// ---------------------------------------------------------------------------

/// `char::is_alphanumeric` (Unicode Alphabetic or Numeric), named as a
/// function of the character.
pub uninterp spec fn alphanumeric(c: char) -> bool;

/// Trusted: `char::is_alphanumeric`, which std documents as true exactly
/// for characters with the Unicode `Alphabetic` property or a numeric
/// general category; the contract names the result.
#[verifier::external_body]
fn is_alphanumeric(c: char) -> (res: bool)
    ensures
        res == alphanumeric(c),
{
    c.is_alphanumeric()
}

/// An ASCII letter or digit.
pub open spec fn ascii_alnum(c: char) -> bool {
    'a' <= c <= 'z' || 'A' <= c <= 'Z' || '0' <= c <= '9'
}

/// A character that makes a word count: among ASCII characters the
/// letters and digits (which are exactly the ASCII characters that
/// `char::is_alphanumeric` accepts), beyond ASCII what
/// `char::is_alphanumeric` accepts.
pub open spec fn word_char(c: char) -> bool {
    if c <= '\x7f' {
        ascii_alnum(c)
    } else {
        alphanumeric(c)
    }
}

/// Whether some whitespace-separated word of `s` holds an alphanumeric
/// character: one such word is enough.
pub open spec fn has_enough_words_spec(s: Seq<char>) -> bool {
    exists|i: int| 0 <= i < s.len() && !is_ws(#[trigger] s[i]) && word_char(s[i])
}

/// At least one word containing an alphanumeric character.
pub fn has_enough_words(s: &Vec<char>) -> (res: bool)
    ensures
        res == has_enough_words_spec(s@),
{
    let mut i: usize = 0;
    while i < s.len()
        invariant
            i <= s.len(),
            forall|j: int| 0 <= j < i ==> !(!is_ws(#[trigger] s@[j]) && word_char(s@[j])),
        decreases s.len() - i,
    {
        let c = s[i];
        let counts = if c <= '\x7f' {
            ('a' <= c && c <= 'z') || ('A' <= c && c <= 'Z') || ('0' <= c && c <= '9')
        } else {
            is_alphanumeric(c)
        };
        assert(counts == word_char(c));
        if !is_whitespace(c) && counts {
            return true;
        }
        i = i + 1;
    }
    false
}

/// Index of the first level-1 section.
pub open spec fn first_h1(secs: Seq<SectionView>, k: int) -> Option<int>
    decreases secs.len() - k,
{
    if k < 0 || k >= secs.len() {
        None
    } else if secs[k].level == 1 {
        Some(k)
    } else {
        first_h1(secs, k + 1)
    }
}

/// A line as a title candidate: trimmed, leading `#` marks dropped, and
/// trimmed again.
pub open spec fn title_candidate(line: Seq<char>) -> Seq<char> {
    let t = trim(line);
    trim(t.skip(prefix_while(t, |c: char| c == '#') as int))
}

/// The first line from `ls[k..]` whose candidate has enough words.
pub open spec fn first_title_line(ls: Seq<Seq<char>>, k: int) -> Option<Seq<char>>
    decreases ls.len() - k,
{
    if k < 0 || k >= ls.len() {
        None
    } else if has_enough_words_spec(title_candidate(ls[k])) {
        Some(title_candidate(ls[k]))
    } else {
        first_title_line(ls, k + 1)
    }
}

/// The title of a document: its first H1 when that has enough words; else
/// the first line with enough words (trimmed, without leading `#`); else
/// the file stem. "Enough words" is one word holding an alphanumeric
/// character, as the word test documents and does.
pub open spec fn title_spec(secs: Seq<SectionView>, bytes: Seq<u8>, stem: Seq<char>) -> Seq<char> {
    match first_h1(secs, 0) {
        Some(h) if has_enough_words_spec(secs[h].heading) => secs[h].heading,
        _ => match first_title_line(lines(text_of(bytes)), 0) {
            Some(t) => t,
            None => stem,
        },
    }
}

proof fn lemma_first_h1_at(secs: Seq<SectionView>, k: int, h: int)
    requires
        0 <= k <= h < secs.len(),
        secs[h].level == 1,
        forall|m: int| k <= m < h ==> (#[trigger] secs[m]).level != 1,
    ensures
        first_h1(secs, k) == Some(h),
    decreases h - k,
{
    if k < h {
        lemma_first_h1_at(secs, k + 1, h);
    }
}

proof fn lemma_first_h1_none(secs: Seq<SectionView>, k: int)
    requires
        0 <= k <= secs.len(),
        forall|m: int| k <= m < secs.len() ==> (#[trigger] secs[m]).level != 1,
    ensures
        first_h1(secs, k) is None,
    decreases secs.len() - k,
{
    if k < secs.len() {
        lemma_first_h1_none(secs, k + 1);
    }
}

proof fn lemma_first_title_line_at(ls: Seq<Seq<char>>, k: int, i: int)
    requires
        0 <= k <= i < ls.len(),
        has_enough_words_spec(title_candidate(ls[i])),
        forall|m: int| k <= m < i ==> !has_enough_words_spec(title_candidate(#[trigger] ls[m])),
    ensures
        first_title_line(ls, k) == Some(title_candidate(ls[i])),
    decreases i - k,
{
    if k < i {
        lemma_first_title_line_at(ls, k + 1, i);
    }
}

proof fn lemma_first_title_line_none(ls: Seq<Seq<char>>, k: int)
    requires
        0 <= k <= ls.len(),
        forall|m: int| k <= m < ls.len() ==> !has_enough_words_spec(title_candidate(#[trigger] ls[m])),
    ensures
        first_title_line(ls, k) is None,
    decreases ls.len() - k,
{
    if k < ls.len() {
        lemma_first_title_line_none(ls, k + 1);
    }
}

/// Whether the first level-1 section, if there is one, has a heading with
/// a word holding an alphanumeric character.
pub open spec fn first_h1_has_words(secs: Seq<SectionView>) -> bool {
    exists|h: int|
        0 <= h < secs.len() && (#[trigger] secs[h]).level == 1 && (forall|m: int|
            0 <= m < h ==> (#[trigger] secs[m]).level != 1) && has_enough_words_spec(
            secs[h].heading,
        )
}

/// The title rules, in order: the heading of the first level-1 section
/// when it has a word with an alphanumeric character, whatever lines come
/// before it; otherwise the first line (trimmed, leading `#` dropped) that
/// has such a word; otherwise the file stem.
pub proof fn lemma_title_law(secs: Seq<SectionView>, bytes: Seq<u8>, stem: Seq<char>, h: int, i: int)
    ensures
        (0 <= h < secs.len() && secs[h].level == 1 && (forall|m: int|
            0 <= m < h ==> (#[trigger] secs[m]).level != 1) && has_enough_words_spec(
            secs[h].heading,
        )) ==> title_spec(secs, bytes, stem) == secs[h].heading,
        ({
            let ls = lines(text_of(bytes));
            !first_h1_has_words(secs) && 0 <= i < ls.len() && has_enough_words_spec(
                title_candidate(ls[i]),
            ) && (forall|m: int|
                0 <= m < i ==> !has_enough_words_spec(title_candidate(#[trigger] ls[m])))
        }) ==> title_spec(secs, bytes, stem) == title_candidate(lines(text_of(bytes))[i]),
        ({
            let ls = lines(text_of(bytes));
            !first_h1_has_words(secs) && (forall|m: int|
                0 <= m < ls.len() ==> !has_enough_words_spec(title_candidate(#[trigger] ls[m])))
        }) ==> title_spec(secs, bytes, stem) == stem,
{
    let ls = lines(text_of(bytes));
    if 0 <= h < secs.len() && secs[h].level == 1 && (forall|m: int|
        0 <= m < h ==> (#[trigger] secs[m]).level != 1) {
        lemma_first_h1_at(secs, 0, h);
    }
    if !first_h1_has_words(secs) {
        match first_h1(secs, 0) {
            Some(g) => {
                lemma_first_h1_bounds(secs, 0);
                assert(!has_enough_words_spec(secs[g].heading));
            },
            None => {},
        }
        if 0 <= i < ls.len() && has_enough_words_spec(title_candidate(ls[i])) && (forall|m: int|
            0 <= m < i ==> !has_enough_words_spec(title_candidate(#[trigger] ls[m]))) {
            lemma_first_title_line_at(ls, 0, i);
        }
        if forall|m: int|
            0 <= m < ls.len() ==> !has_enough_words_spec(title_candidate(#[trigger] ls[m])) {
            lemma_first_title_line_none(ls, 0);
        }
    }
}

proof fn lemma_first_h1_bounds(secs: Seq<SectionView>, k: int)
    requires
        0 <= k,
    ensures
        first_h1(secs, k) matches Some(g) ==> k <= g < secs.len() && secs[g].level == 1 && forall|
            m: int,
        | k <= m < g ==> (#[trigger] secs[m]).level != 1,
    decreases secs.len() - k,
{
    if k < secs.len() {
        lemma_first_h1_bounds(secs, k + 1);
    }
}

fn title_candidate_chars(line: &Vec<char>) -> (res: Vec<char>)
    ensures
        res@ == title_candidate(line@),
{
    let t = trim_chars(line);
    let mut k: usize = 0;
    while k < t.len() && t[k] == '#'
        invariant
            k <= t.len(),
            forall|j: int| 0 <= j < k ==> t@[j] == '#',
        decreases t.len() - k,
    {
        k = k + 1;
    }
    proof {
        lemma_prefix_while(t@, |c: char| c == '#', k as int);
    }
    let rest = slice_chars(&t, k, t.len());
    assert(rest@ =~= t@.skip(k as int));
    trim_chars(&rest)
}

/// Picks a document's title from its sections, bytes and file stem: the
/// first H1, else the first line, that has one word holding an alphanumeric
/// character; else the stem.
pub fn derive_title(sections: &Vec<Section>, bytes: &[u8], stem: &str) -> (res: String)
    ensures
        res@ == title_spec(section_views(sections@), bytes@, stem@),
{
    let ghost sv = section_views(sections@);
    let mut k: usize = 0;
    while k < sections.len() && sections[k].level != 1
        invariant
            k <= sections.len(),
            sv == section_views(sections@),
            first_h1(sv, k as int) == first_h1(sv, 0),
        decreases sections.len() - k,
    {
        k = k + 1;
    }
    if k < sections.len() {
        let h = chars_of(sections[k].heading.as_str());
        proof {
            assert(sv[k as int] == sections@[k as int]@);
            assert(first_h1(sv, k as int) == Some(k as int));
        }
        if has_enough_words(&h) {
            return sections[k].heading.as_str().to_owned();
        }
    } else {
        assert(first_h1(sv, k as int) is None);
    }
    let text = text_of_bytes(bytes);
    let ls = lines_of(&text);
    let mut i: usize = 0;
    while i < ls.len()
        invariant
            i <= ls.len(),
            views(ls@) == lines(text_of(bytes@)),
            first_title_line(views(ls@), i as int) == first_title_line(views(ls@), 0),
            sv == section_views(sections@),
            !(first_h1(sv, 0) matches Some(h) && has_enough_words_spec(sv[h].heading)),
        decreases ls.len() - i,
    {
        let t = title_candidate_chars(&ls[i]);
        assert(views(ls@)[i as int] == ls@[i as int]@);
        if has_enough_words(&t) {
            return string_from_chars(&t);
        }
        i = i + 1;
    }
    stem.to_owned()
}

// ---------------------------------------------------------------------------
// Rows of one document
// ---------------------------------------------------------------------------

/// How many of `secs[..k]` share the ID of `secs[k]`.
pub open spec fn id_count_before(secs: Seq<SectionView>, k: int, j: int) -> nat
    decreases j,
{
    if j <= 0 {
        0
    } else {
        id_count_before(secs, k, j - 1) + if secs[j - 1].id == secs[k].id {
            1nat
        } else {
            0nat
        }
    }
}

/// The stored ID of section `k`: its content ID the first time it occurs
/// in the document, else the content ID, `_` and the number of earlier
/// occurrences.
pub open spec fn unique_id(secs: Seq<SectionView>, k: int) -> Seq<char> {
    let n = id_count_before(secs, k, k);
    if n == 0 {
        secs[k].id
    } else {
        secs[k].id + seq!['_'] + fmt_int(n as int)
    }
}

proof fn lemma_dec_nonempty(n: nat)
    ensures
        dec(n).len() >= 1,
        dec(n).last() == digit_char(n % 10),
        n >= 10 ==> dec(n).len() >= 2 && dec(n).drop_last() == dec(n / 10),
        n < 10 ==> dec(n).len() == 1,
    decreases n,
{
    if n >= 10 {
        lemma_dec_nonempty(n / 10);
        assert(dec(n).drop_last() =~= dec(n / 10));
    }
}

/// Decimal digits name one number.
proof fn lemma_dec_injective(a: nat, b: nat)
    requires
        dec(a) == dec(b),
    ensures
        a == b,
    decreases a,
{
    lemma_dec_nonempty(a);
    lemma_dec_nonempty(b);
    let da = (a % 10) as nat;
    let db = (b % 10) as nat;
    assert(digit_char(da) == digit_char(db));
    assert(((da + 48) as char) as u32 == da + 48);
    assert(((db + 48) as char) as u32 == db + 48);
    assert(da == db);
    if a >= 10 {
        assert(b >= 10);
        lemma_dec_injective(a / 10, b / 10);
    } else {
        assert(b < 10);
    }
}

proof fn lemma_count_same_id(secs: Seq<SectionView>, j: int, k: int, m: int)
    requires
        0 <= j < secs.len(),
        0 <= k < secs.len(),
        secs[j].id == secs[k].id,
    ensures
        id_count_before(secs, j, m) == id_count_before(secs, k, m),
    decreases m,
{
    if m > 0 {
        lemma_count_same_id(secs, j, k, m - 1);
    }
}

proof fn lemma_count_grows(secs: Seq<SectionView>, k: int, a: int, b: int)
    requires
        0 <= a <= b,
    ensures
        id_count_before(secs, k, a) <= id_count_before(secs, k, b),
    decreases b - a,
{
    if a < b {
        lemma_count_grows(secs, k, a, b - 1);
    }
}

/// With six-character content IDs, the stored IDs of a document's sections
/// are pairwise distinct.
pub proof fn lemma_unique_ids_distinct(secs: Seq<SectionView>)
    requires
        forall|k: int| 0 <= k < secs.len() ==> (#[trigger] secs[k]).id.len() == 6,
    ensures
        forall|j: int, k: int|
            0 <= j < k < secs.len() ==> unique_id(secs, j) != unique_id(secs, k),
{
    assert forall|j: int, k: int| 0 <= j < k < secs.len() implies unique_id(secs, j) != unique_id(
        secs,
        k,
    ) by {
        let nj = id_count_before(secs, j, j);
        let nk = id_count_before(secs, k, k);
        let uj = unique_id(secs, j);
        let uk = unique_id(secs, k);
        assert(secs[j].id.len() == 6 && secs[k].id.len() == 6);
        lemma_dec_nonempty(nj);
        lemma_dec_nonempty(nk);
        if secs[j].id == secs[k].id {
            lemma_count_same_id(secs, j, k, k);
            lemma_count_grows(secs, j, j + 1, k);
            assert(nk >= nj + 1);
            if nj > 0 && uj == uk {
                assert(uj.skip(7) =~= fmt_int(nj as int));
                assert(uk.skip(7) =~= fmt_int(nk as int));
                lemma_dec_injective(nj, nk);
            }
        } else {
            if nj > 0 && nk > 0 && uj == uk {
                assert(uj.take(6) =~= secs[j].id);
                assert(uk.take(6) =~= secs[k].id);
            }
            if nj == 0 && nk == 0 {
                assert(uj == secs[j].id);
            }
        }
    }
}

/// Running totals of the sections' token counts (each read as `i64`).
pub open spec fn section_token_sum(secs: Seq<SectionView>) -> int
    decreases secs.len(),
{
    if secs.len() == 0 {
        0
    } else {
        section_token_sum(secs.drop_last()) + (secs.last().tokens as i64) as int
    }
}

pub open spec fn section_sums_fit(secs: Seq<SectionView>) -> bool {
    forall|k: int|
        0 <= k <= secs.len() ==> i64::MIN <= #[trigger] section_token_sum(secs.take(k))
            <= i64::MAX
}

/// Whether a file path names a markdown document (`.md` or `.mdx`, any
/// ASCII case).
pub open spec fn is_markdown_path(path: Seq<char>) -> bool {
    match extension_spec(file_name_spec(path)) {
        Some(e) => eq_ignore_ascii_case(e, "md"@) || eq_ignore_ascii_case(e, "mdx"@),
        None => false,
    }
}

/// The stored section row of section `k` of a document.
pub open spec fn section_row_spec(doc_id: Seq<char>, secs: Seq<SectionView>, k: int) -> (
    Seq<char>,
    Seq<char>,
    int,
    int,
    Seq<char>,
    Seq<char>,
    Seq<char>,
    int,
    int,
    Seq<u8>,
) {
    let s = secs[k];
    (
        doc_id,
        unique_id(secs, k),
        (k as i64) as int,
        s.level as int,
        s.heading,
        s.heading_path,
        s.snippet,
        (s.tokens as i64) as int,
        (s.code_tokens as i64) as int,
        s.content,
    )
}

pub open spec fn section_row_view(r: SectionRow) -> (
    Seq<char>,
    Seq<char>,
    int,
    int,
    Seq<char>,
    Seq<char>,
    Seq<char>,
    int,
    int,
    Seq<u8>,
) {
    (
        r.doc_id@,
        r.section_id@,
        r.seq as int,
        r.level as int,
        r.heading@,
        r.heading_path@,
        r.snippet@,
        r.tokens as int,
        r.code_tokens as int,
        r.content@,
    )
}

/// Everything stored for one document.
pub struct DocRows {
    pub row: DocRow,
    /// The parsed sections (with their content IDs) for the search index.
    pub sections: Vec<Section>,
    /// The section rows, with IDs made unique within the document (each
    /// repeat of a content ID gets `_` and its number of earlier occurrences).
    pub section_rows: Vec<SectionRow>,
}

fn count_id_before(sections: &Vec<Section>, k: usize) -> (res: usize)
    requires
        k < sections@.len(),
    ensures
        res == id_count_before(section_views(sections@), k as int, k as int),
{
    let ghost sv = section_views(sections@);
    let mut n: usize = 0;
    let mut j: usize = 0;
    while j < k
        invariant
            j <= k < sections@.len(),
            sv == section_views(sections@),
            n == id_count_before(sv, k as int, j as int),
            n <= j,
        decreases k - j,
    {
        if str_eq(&sections[j].id, &sections[k].id) {
            n = n + 1;
        }
        j = j + 1;
    }
    n
}

fn unique_id_exec(sections: &Vec<Section>, k: usize) -> (res: String)
    requires
        k < sections@.len(),
    ensures
        res@ == unique_id(section_views(sections@), k as int),
{
    let n = count_id_before(sections, k);
    if n == 0 {
        sections[k].id.as_str().to_owned()
    } else {
        let mut out = chars_of(sections[k].id.as_str());
        out.push('_');
        let num = fmt_usize(n);
        push_chars(&mut out, &num);
        string_from_chars(&out)
    }
}

fn markdown_and_stem(abs: &str) -> (res: (bool, String))
    ensures
        res.0 == is_markdown_path(abs@),
        res.1@ == stem_spec(file_name_spec(abs@)),
{
    let abs_c = chars_of(abs);
    let name = file_name(&abs_c);
    let (stem_c, ext) = stem_and_extension(&name);
    let is_markdown = match ext {
        Some(e) => {
            let md = chars_of("md");
            let mdx = chars_of("mdx");
            eq_ignore_case(&e, &md) || eq_ignore_case(&e, &mdx)
        },
        None => false,
    };
    (is_markdown, string_from_chars(&stem_c))
}

fn token_total(sections: &Vec<Section>) -> (res: Option<i64>)
    ensures
        res is None <==> !section_sums_fit(section_views(sections@)),
        res matches Some(t) ==> t == section_token_sum(section_views(sections@)),
{
    let ghost secs = section_views(sections@);
    let mut total: i64 = 0;
    let mut k: usize = 0;
    while k < sections.len()
        invariant
            k <= sections.len(),
            secs == section_views(sections@),
            total == section_token_sum(secs.take(k as int)),
            forall|j: int| 0 <= j <= k ==> i64::MIN <= #[trigger] section_token_sum(secs.take(j))
                <= i64::MAX,
        decreases sections.len() - k,
    {
        let t: i64 = sections[k].tokens as i64;
        proof {
            assert(secs[k as int] == sections@[k as int]@);
            assert(t == (secs[k as int].tokens as i64));
            assert(secs.take(k + 1).drop_last() =~= secs.take(k as int));
            assert(secs.take(k + 1).last() == secs[k as int]);
        }
        let next: i128 = total as i128 + t as i128;
        if next < -9223372036854775808 || next > 9223372036854775807 {
            assert(next == section_token_sum(secs.take(k + 1)));
            assert(!(i64::MIN <= section_token_sum(secs.take(k + 1)) <= i64::MAX));
            assert(!section_sums_fit(secs));
            return None;
        }
        total = next as i64;
        k = k + 1;
    }
    assert(secs.take(secs.len() as int) =~= secs);
    Some(total)
}

fn section_row(id: &String, sections: &Vec<Section>, k: usize) -> (res: SectionRow)
    requires
        k < sections@.len(),
    ensures
        section_row_view(res) == section_row_spec(id@, section_views(sections@), k as int),
{
    let s = &sections[k];
    let ghost secs = section_views(sections@);
    assert(secs[k as int] == sections@[k as int]@);
    let sid = unique_id_exec(sections, k);
    let content = crate::text::slice_bytes(s.content.as_slice(), 0, s.content.len());
    assert(content@ =~= s.content@);
    SectionRow {
        doc_id: id.as_str().to_owned(),
        section_id: sid,
        seq: k as i64,
        level: s.level as i64,
        heading: s.heading.as_str().to_owned(),
        heading_path: s.heading_path.as_str().to_owned(),
        snippet: s.snippet.as_str().to_owned(),
        tokens: s.tokens as i64,
        code_tokens: s.code_tokens as i64,
        content,
    }
}

fn section_rows(id: &String, sections: &Vec<Section>) -> (res: Vec<SectionRow>)
    ensures
        res@.len() == sections@.len(),
        forall|k: int|
            0 <= k < sections@.len() ==> section_row_view(#[trigger] res@[k]) == section_row_spec(
                id@,
                section_views(sections@),
                k,
            ),
{
    let mut rows: Vec<SectionRow> = Vec::new();
    let mut k: usize = 0;
    while k < sections.len()
        invariant
            k <= sections.len(),
            rows@.len() == k,
            forall|j: int|
                0 <= j < k ==> section_row_view(#[trigger] rows@[j]) == section_row_spec(
                    id@,
                    section_views(sections@),
                    j,
                ),
        decreases sections.len() - k,
    {
        let r = section_row(id, sections, k);
        rows.push(r);
        k = k + 1;
    }
    rows
}

/// The rows stored for the document at `abs` (repository-relative path
/// `rel`) with the given bytes and file stats: its sections parsed as
/// markdown or plain text by extension, its doc row with the summed token
/// count and derived title, and one row per section. `None` when the
/// section token counts do not add up within `i64`.
pub fn doc_rows(abs: &str, rel: &str, bytes: &[u8], mtime: i64, size: i64) -> (res: Option<DocRows>)
    ensures
        ({
            let name = file_name_spec(abs@);
            let stem = stem_spec(name);
            let secs = parse_spec(bytes@, stem, is_markdown_path(abs@));
            let id = hex_prefix_spec(encode_utf8(rel@), 8);
            &&& res is None <==> !section_sums_fit(secs)
            &&& res matches Some(d) ==> {
                &&& section_views(d.sections@) == secs
                &&& d.row.doc_id@ == id
                &&& d.row.rel_path@ == rel@
                &&& d.row.dir@ == top_dir_spec(rel@)
                &&& d.row.title@ == title_spec(secs, bytes@, stem)
                &&& d.row.tokens == section_token_sum(secs)
                &&& d.row.mtime_unix == mtime
                &&& d.row.size_bytes == size
                &&& d.row.is_markdown == is_markdown_path(abs@)
                &&& d.section_rows@.len() == secs.len()
                &&& forall|k: int|
                    0 <= k < secs.len() ==> section_row_view(#[trigger] d.section_rows@[k])
                        == section_row_spec(id, secs, k)
                &&& forall|j: int, k: int|
                    0 <= j < k < secs.len() ==> (#[trigger] d.section_rows@[j]).section_id@ != (
                    #[trigger] d.section_rows@[k]).section_id@
            }
        }),
{
    let (is_markdown, stem) = markdown_and_stem(abs);
    let sections = parse(bytes, stem.as_str(), is_markdown);
    let total = match token_total(&sections) {
        Some(t) => t,
        None => return None,
    };
    let id = doc_id(rel);
    let rel_c = chars_of(rel);
    let dir_c = top_dir(&rel_c);
    let title = derive_title(&sections, bytes, stem.as_str());
    let rows = section_rows(&id, &sections);
    proof {
        let secs = section_views(sections@);
        assert forall|k: int| 0 <= k < secs.len() implies (#[trigger] secs[k]).id.len() == 6 by {
            assert(secs[k] == sections@[k]@);
            assert(is_hex_id(sections@[k].id@, 6));
        }
        lemma_unique_ids_distinct(secs);
        assert forall|j: int, k: int| 0 <= j < k < secs.len() implies (
        #[trigger] rows@[j]).section_id@ != (#[trigger] rows@[k]).section_id@ by {
            assert(section_row_view(rows@[j]) == section_row_spec(id@, secs, j));
            assert(section_row_view(rows@[k]) == section_row_spec(id@, secs, k));
        }
    }
    let row = DocRow {
        doc_id: id,
        rel_path: rel.to_owned(),
        dir: string_from_chars(&dir_c),
        title,
        tokens: total,
        mtime_unix: mtime,
        size_bytes: size,
        is_markdown,
    };
    Some(DocRows { row, sections, section_rows: rows })
}

/// The stored section rows of a document, read back in sequence order and
/// laid end to end, hold exactly the bytes of its sections; with
/// `lemma_sections_cover` and `lemma_plain_text_single_section`, that is the
/// whole file.
pub proof fn lemma_stored_rows_hold_contents(id: Seq<char>, secs: Seq<SectionView>)
    ensures
        concat(Seq::new(secs.len(), |k: int| section_row_spec(id, secs, k).9)) == contents(secs),
        forall|k: int| 0 <= k < secs.len() ==> #[trigger] section_row_spec(id, secs, k).2 == (k as i64) as int,
{
    assert(Seq::new(secs.len(), |k: int| section_row_spec(id, secs, k).9) =~= secs.map_values(
        |x: SectionView| x.content,
    ));
}

} // verus!
