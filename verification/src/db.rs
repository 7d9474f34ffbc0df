//! The rows the index stores, and the rules for resolving a user's doc-ID
//! prefix or path to one document.

use crate::text::{join, join_strings, push_str, string_from_chars, string_views};
use vstd::prelude::*;

verus! {

/// Version stamped into a fresh index database.
pub const SCHEMA_VERSION: i64 = 1;

/// Row returned for staleness checks.
#[derive(Debug, Clone, PartialEq, Eq)]
pub struct DocStat {
    pub doc_id: String,
    pub rel_path: String,
    pub mtime_unix: i64,
    pub size_bytes: i64,
}

/// Full row written during sync.
#[derive(Debug, Clone)]
pub struct DocRow {
    pub doc_id: String,
    pub rel_path: String,
    pub dir: String,
    pub title: String,
    pub tokens: i64,
    pub mtime_unix: i64,
    pub size_bytes: i64,
    pub is_markdown: bool,
}

/// One stored section of a document.
#[derive(Debug, Clone)]
pub struct SectionRow {
    pub doc_id: String,
    pub section_id: String,
    pub seq: i64,
    pub level: i64,
    pub heading: String,
    pub heading_path: String,
    pub snippet: String,
    pub tokens: i64,
    pub code_tokens: i64,
    pub content: Vec<u8>,
}

/// Why a doc or section reference could not be resolved.
#[derive(Debug, Clone, PartialEq, Eq)]
pub enum LookupError {
    /// Nothing matches the doc reference.
    NoDoc { input: String },
    /// Several docs share the ID prefix (the candidates found, in order).
    AmbiguousDoc { prefix: String, candidates: Vec<String> },
    /// No section of the doc matches the section prefix.
    NoSection { prefix: String, doc_id: String },
    /// Several sections of the doc share the prefix.
    AmbiguousSection { prefix: String, candidates: Vec<String> },
}

pub open spec fn quoted(s: Seq<char>) -> Seq<char> {
    seq!['\''] + s + seq!['\'']
}

/// The message of a lookup error.
pub open spec fn lookup_message(e: LookupError) -> Seq<char> {
    match e {
        LookupError::NoDoc { input } => "no doc matching "@ + quoted(input@),
        LookupError::AmbiguousDoc { prefix, candidates } => "doc id "@ + quoted(prefix@)
            + " matches multiple: "@ + join(string_views(candidates@), ", "@),
        LookupError::NoSection { prefix, doc_id } => "no section matching "@ + quoted(prefix@)
            + " in doc "@ + doc_id@,
        LookupError::AmbiguousSection { prefix, candidates } => "section id "@ + quoted(
            prefix@,
        ) + " matches multiple: "@ + join(string_views(candidates@), ", "@),
    }
}

impl LookupError {
    /// The message shown to the user.
    pub fn message(&self) -> (res: String)
        ensures
            res@ == lookup_message(*self),
    {
        let mut out: Vec<char> = Vec::new();
        match self {
            LookupError::NoDoc { input } => {
                push_str(&mut out, "no doc matching ");
                out.push('\'');
                push_str(&mut out, input.as_str());
                out.push('\'');
            },
            LookupError::AmbiguousDoc { prefix, candidates } => {
                push_str(&mut out, "doc id ");
                out.push('\'');
                push_str(&mut out, prefix.as_str());
                out.push('\'');
                push_str(&mut out, " matches multiple: ");
                let j = join_strings(candidates, ", ");
                crate::text::push_chars(&mut out, &j);
            },
            LookupError::NoSection { prefix, doc_id } => {
                push_str(&mut out, "no section matching ");
                out.push('\'');
                push_str(&mut out, prefix.as_str());
                out.push('\'');
                push_str(&mut out, " in doc ");
                push_str(&mut out, doc_id.as_str());
            },
            LookupError::AmbiguousSection { prefix, candidates } => {
                push_str(&mut out, "section id ");
                out.push('\'');
                push_str(&mut out, prefix.as_str());
                out.push('\'');
                push_str(&mut out, " matches multiple: ");
                let j = join_strings(candidates, ", ");
                crate::text::push_chars(&mut out, &j);
            },
        }
        proof {
            match self {
                LookupError::NoDoc { input } => {
                    assert(out@ =~= lookup_message(*self));
                },
                LookupError::AmbiguousDoc { prefix, candidates } => {
                    assert(out@ =~= lookup_message(*self));
                },
                LookupError::NoSection { prefix, doc_id } => {
                    assert(out@ =~= lookup_message(*self));
                },
                LookupError::AmbiguousSection { prefix, candidates } => {
                    assert(out@ =~= lookup_message(*self));
                },
            }
        }
        string_from_chars(&out)
    }
}

/// Resolve a doc-ID prefix given the IDs that start with it (in ID order):
/// exactly one match resolves, none or several is an error.
pub fn resolve_doc_id(prefix: &str, matches: Vec<String>) -> (res: Result<String, LookupError>)
    ensures
        matches@.len() == 1 <==> res is Ok,
        res matches Ok(id) ==> id@ == matches@[0]@,
        matches@.len() == 0 ==> (res matches Err(LookupError::NoDoc { input }) && input@
            == prefix@),
        matches@.len() > 1 ==> (res matches Err(LookupError::AmbiguousDoc { prefix: p, candidates })
            && p@ == prefix@ && candidates@ == matches@),
{
    if matches.len() == 0 {
        Err(LookupError::NoDoc { input: prefix.to_owned() })
    } else if matches.len() == 1 {
        let mut m = matches;
        let id = m.pop().unwrap();
        Ok(id)
    } else {
        Err(LookupError::AmbiguousDoc { prefix: prefix.to_owned(), candidates: matches })
    }
}

/// Resolve a doc reference: as an ID prefix first (`matches` are the IDs
/// starting with it); when that does not give exactly one doc, as a
/// repository-relative path (`by_path` is the ID stored for that path).
pub fn resolve_doc_id_or_path(input: &str, matches: Vec<String>, by_path: Option<String>) -> (res:
    Result<String, LookupError>)
    ensures
        matches@.len() == 1 ==> (res matches Ok(id) && id@ == matches@[0]@),
        matches@.len() != 1 ==> match by_path {
            Some(p) => res matches Ok(id) && id@ == p@,
            None => res matches Err(LookupError::NoDoc { input: i }) && i@ == input@,
        },
{
    match resolve_doc_id(input, matches) {
        Ok(id) => Ok(id),
        Err(_) => match by_path {
            Some(id) => Ok(id),
            None => Err(LookupError::NoDoc { input: input.to_owned() }),
        },
    }
}

} // verus!
