//! The `ignore` command's decisions: which change a request asks for, and
//! what is reported afterwards.

use crate::text::{fmt_usize, fmt_int, push_chars, push_str, string_from_chars, string_views};
use vstd::prelude::*;

verus! {

/// The `ignore` command's arguments.
#[derive(Debug)]
pub struct IgnoreArgs {
    /// Patterns to add.
    pub add: Vec<String>,
    /// List the patterns (also what happens when nothing else is asked).
    pub list: bool,
    /// A pattern to remove.
    pub remove: Option<String>,
    /// Remove every pattern.
    pub clear: bool,
}

impl Default for IgnoreArgs {
    fn default() -> (res: IgnoreArgs)
        ensures
            res.add@.len() == 0,
            !res.list,
            res.remove is None,
            !res.clear,
    {
        IgnoreArgs { add: Vec::new(), list: false, remove: None, clear: false }
    }
}

/// What an `ignore` request does to the stored patterns.
#[derive(Debug, Clone, PartialEq, Eq)]
pub enum IgnoreAction {
    /// Remove every pattern.
    Clear,
    /// Remove one pattern.
    Remove(String),
    /// Add patterns, then list.
    Add(Vec<String>),
    /// Only list.
    List,
}

/// The action of a request: clearing wins over removing, which wins over
/// adding; with none of them the patterns are listed.
pub open spec fn action_spec(args: IgnoreArgs) -> IgnoreAction {
    if args.clear {
        IgnoreAction::Clear
    } else if args.remove is Some {
        IgnoreAction::Remove(args.remove->0)
    } else if args.add@.len() > 0 {
        IgnoreAction::Add(args.add)
    } else {
        IgnoreAction::List
    }
}

/// Decides what an `ignore` request does.
pub fn run(args: IgnoreArgs) -> (res: IgnoreAction)
    ensures
        res == action_spec(args),
{
    if args.clear {
        return IgnoreAction::Clear;
    }
    match args.remove {
        Some(p) => IgnoreAction::Remove(p),
        None => {
            if args.add.len() > 0 {
                IgnoreAction::Add(args.add)
            } else {
                IgnoreAction::List
            }
        },
    }
}

/// The message reported after an action (`removed` tells whether a removed
/// pattern existed).
pub open spec fn message_spec(action: IgnoreAction, removed: bool) -> Seq<char> {
    match action {
        IgnoreAction::Clear => "cleared all user-ignore patterns"@,
        IgnoreAction::Remove(p) => if removed {
            "removed: "@ + p@
        } else {
            "no such pattern: "@ + p@
        },
        IgnoreAction::Add(ps) => "added "@ + fmt_int(ps@.len() as int) + " pattern(s)"@,
        IgnoreAction::List => seq![],
    }
}

/// The message reported after an action.
pub fn message(action: &IgnoreAction, removed: bool) -> (res: String)
    ensures
        res@ == message_spec(*action, removed),
{
    let mut out: Vec<char> = Vec::new();
    match action {
        IgnoreAction::Clear => {
            push_str(&mut out, "cleared all user-ignore patterns");
        },
        IgnoreAction::Remove(p) => {
            if removed {
                push_str(&mut out, "removed: ");
            } else {
                push_str(&mut out, "no such pattern: ");
            }
            push_str(&mut out, p.as_str());
        },
        IgnoreAction::Add(ps) => {
            push_str(&mut out, "added ");
            let n = fmt_usize(ps.len());
            push_chars(&mut out, &n);
            push_str(&mut out, " pattern(s)");
        },
        IgnoreAction::List => {},
    }
    proof {
        match action {
            IgnoreAction::List => {
                assert(out@ =~= message_spec(*action, removed));
            },
            _ => {
                assert(out@ =~= message_spec(*action, removed));
            },
        }
    }
    string_from_chars(&out)
}

/// The plain-text report: the message on its own line when non-empty, then
/// one pattern per line.
pub open spec fn emit_text_spec(patterns: Seq<Seq<char>>, message: Seq<char>) -> Seq<char>
    decreases patterns.len(),
{
    if patterns.len() == 0 {
        if message.len() > 0 {
            message.push('\n')
        } else {
            seq![]
        }
    } else {
        emit_text_spec(patterns.drop_last(), message) + patterns.last().push('\n')
    }
}

/// Renders the plain-text report.
pub fn emit_text(patterns: &Vec<String>, message: &str) -> (res: String)
    ensures
        res@ == emit_text_spec(string_views(patterns@), message@),
{
    let mut out: Vec<char> = Vec::new();
    let m = crate::text::chars_of(message);
    if m.len() > 0 {
        push_chars(&mut out, &m);
        out.push('\n');
    }
    assert(out@ =~= emit_text_spec(string_views(patterns@).take(0), message@));
    let mut i: usize = 0;
    while i < patterns.len()
        invariant
            i <= patterns.len(),
            out@ == emit_text_spec(string_views(patterns@).take(i as int), message@),
        decreases patterns.len() - i,
    {
        push_str(&mut out, patterns[i].as_str());
        out.push('\n');
        proof {
            let t = string_views(patterns@).take(i + 1);
            assert(t.drop_last() =~= string_views(patterns@).take(i as int));
            assert(t.last() == patterns@[i as int]@);
        }
        i = i + 1;
    }
    assert(string_views(patterns@).take(patterns@.len() as int) =~= string_views(patterns@));
    string_from_chars(&out)
}

} // verus!
