use mdpeek::ignore_cmd::{emit_text, message, run, IgnoreAction, IgnoreArgs};

fn args(add: &[&str], remove: Option<&str>, clear: bool) -> IgnoreArgs {
    IgnoreArgs {
        add: add.iter().map(|s| s.to_string()).collect(),
        list: false,
        remove: remove.map(String::from),
        clear,
    }
}

#[test]
fn request_precedence() {
    assert_eq!(run(args(&["x"], Some("y"), true)), IgnoreAction::Clear);
    assert_eq!(run(args(&["x"], Some("y"), false)), IgnoreAction::Remove("y".into()));
    assert_eq!(run(args(&["x", "z"], None, false)), IgnoreAction::Add(vec!["x".into(), "z".into()]));
    assert_eq!(run(args(&[], None, false)), IgnoreAction::List);
    assert_eq!(run(IgnoreArgs::default()), IgnoreAction::List);
}

#[test]
fn messages() {
    assert_eq!(message(&IgnoreAction::Clear, false), "cleared all user-ignore patterns");
    assert_eq!(message(&IgnoreAction::Remove("drafts/**".into()), true), "removed: drafts/**");
    assert_eq!(message(&IgnoreAction::Remove("CHANGELOG*".into()), false), "no such pattern: CHANGELOG*");
    assert_eq!(message(&IgnoreAction::Add(vec!["a".into(), "b".into()]), false), "added 2 pattern(s)");
    assert_eq!(message(&IgnoreAction::List, false), "");
}

#[test]
fn text_report() {
    let pats = vec!["CHANGELOG*".to_string(), "drafts/**".to_string()];
    assert_eq!(emit_text(&pats, "added 2 pattern(s)"), "added 2 pattern(s)\nCHANGELOG*\ndrafts/**\n");
    assert_eq!(emit_text(&pats, ""), "CHANGELOG*\ndrafts/**\n");
    assert_eq!(emit_text(&vec![], "cleared all user-ignore patterns"), "cleared all user-ignore patterns\n");
    assert_eq!(emit_text(&vec![], ""), "");
}
