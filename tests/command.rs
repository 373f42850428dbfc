use goto::command::{
    Action, CompletionSuggestion, DetermineAction, Invocation, ShellRcPath, SplitCompletionTarget,
    UsageError,
};

fn none() -> Invocation {
    Invocation {
        add: None,
        bulkAdd: None,
        addForce: false,
        copy: None,
        remove: None,
        list: None,
        listGlob: false,
        listRegex: false,
        listKeywordOnly: false,
        listPathOnly: false,
        listRequireBoth: false,
        listWithin: None,
        listHere: false,
        listMaxDepth: None,
        listJson: false,
        listLimit: None,
        printPath: false,
        cursor: false,
        code: false,
        noCreate: false,
        showSortMode: false,
        expire: None,
        installWrapper: false,
        installWrapperRc: None,
        installWrapperForce: false,
        completeMode: None,
        completeInput: None,
        target: None,
    }
}

#[test]
fn no_flags_means_help() {
    assert!(matches!(DetermineAction(&none()), Ok(Action::Help)));
}

#[test]
fn target_means_jump() {
    let mut inv = none();
    inv.target = Some("base/nested".to_string());
    inv.noCreate = true;
    match DetermineAction(&inv) {
        Ok(Action::Jump { target, runCursor, create }) => {
            assert_eq!(target, "base/nested");
            assert!(!runCursor);
            assert!(!create);
        }
        _ => panic!("expected a jump"),
    }
}

#[test]
fn add_with_one_value_uses_basename() {
    let mut inv = none();
    inv.add = Some(vec!["/tmp/alpha".to_string()]);
    inv.expire = Some(77);
    match DetermineAction(&inv) {
        Ok(Action::Add { keyword, path, expire }) => {
            assert_eq!(keyword, "alpha");
            assert_eq!(path, "/tmp/alpha");
            assert_eq!(expire, Some(77));
        }
        _ => panic!("expected an add"),
    }
}

#[test]
fn usage_rules_are_checked() {
    let mut inv = none();
    inv.listJson = true;
    assert!(matches!(DetermineAction(&inv), Err(UsageError::ListFlagWithoutList)));
    let mut inv = none();
    inv.remove = Some("a".to_string());
    inv.printPath = true;
    assert!(matches!(DetermineAction(&inv), Err(UsageError::SeveralActions)));
    let mut inv = none();
    inv.expire = Some(1);
    assert!(matches!(DetermineAction(&inv), Err(UsageError::ExpireWithoutAdd)));
    let mut inv = none();
    inv.addForce = true;
    assert!(matches!(DetermineAction(&inv), Err(UsageError::ForceWithoutAdd)));
    let mut inv = none();
    inv.target = Some("base".to_string());
    inv.cursor = true;
    inv.code = true;
    assert!(matches!(DetermineAction(&inv), Err(UsageError::CursorAndCode)));
    let mut inv = none();
    inv.printPath = true;
    assert!(matches!(DetermineAction(&inv), Err(UsageError::PrintPathUsage)));
}

#[test]
fn list_builds_search() {
    let mut inv = none();
    inv.list = Some("pro".to_string());
    inv.listLimit = Some(3);
    inv.listHere = true;
    match DetermineAction(&inv) {
        Ok(Action::Search { options, outputJson, here }) => {
            assert_eq!(options.query, "pro");
            assert_eq!(options.limit, Some(3));
            assert!(!outputJson);
            assert!(here);
        }
        _ => panic!("expected a search"),
    }
    let mut inv = none();
    inv.list = Some(String::new());
    inv.listGlob = true;
    assert!(matches!(DetermineAction(&inv), Err(UsageError::QueryMissing)));
    let mut inv = none();
    inv.list = Some("(".to_string());
    inv.listRegex = true;
    assert!(matches!(DetermineAction(&inv), Err(UsageError::BadPattern(_))));
}

#[test]
fn install_and_complete_come_first() {
    let mut inv = none();
    inv.installWrapper = true;
    inv.expire = Some(3);
    assert!(matches!(DetermineAction(&inv), Ok(Action::InstallWrapper { force: false, .. })));
    let mut inv = none();
    inv.completeMode = Some("keywords".to_string());
    inv.expire = Some(3);
    match DetermineAction(&inv) {
        Ok(Action::Complete { mode, input }) => {
            assert_eq!(mode, "keywords");
            assert_eq!(input, "");
        }
        _ => panic!("expected completion"),
    }
}

#[test]
fn completion_target_parts() {
    assert!(SplitCompletionTarget("base").is_none());
    let p = SplitCompletionTarget("base/s").unwrap();
    assert_eq!(p.keyword, "base");
    assert_eq!(p.parent, None);
    assert_eq!(p.prefix, "s");
    let q = SplitCompletionTarget("base/a/b/c").unwrap();
    assert_eq!(q.keyword, "base");
    assert_eq!(q.parent, Some("a/b".to_string()));
    assert_eq!(q.prefix, "c");
    assert_eq!(CompletionSuggestion(&p, "src", true), "base/src/");
    assert_eq!(CompletionSuggestion(&q, "cat", false), "base/a/b/cat");
}

#[test]
fn shell_rc_by_shell() {
    assert_eq!(ShellRcPath(Some("/h".to_string()), "/bin/zsh", None), "/h/.zshrc");
    assert_eq!(ShellRcPath(Some("/h".to_string()), "/bin/zsh", Some("/z".to_string())), "/z/.zshrc");
    assert_eq!(ShellRcPath(Some("/h".to_string()), "/usr/bin/bash", None), "/h/.bashrc");
    assert_eq!(ShellRcPath(None, "fish", None), "./.profile");
}

#[test]
fn code_alone_does_not_open_cursor() {
    let mut inv = none();
    inv.target = Some("base".to_string());
    inv.code = true;
    assert!(matches!(DetermineAction(&inv), Ok(Action::Jump { runCursor: false, .. })));
    inv.code = false;
    inv.cursor = true;
    assert!(matches!(DetermineAction(&inv), Ok(Action::Jump { runCursor: true, .. })));
}

#[test]
fn scoping_flags_alone_are_not_usage_errors() {
    let mut inv = none();
    inv.listHere = true;
    inv.listWithin = Some("/w".to_string());
    inv.listMaxDepth = Some(1);
    assert!(matches!(DetermineAction(&inv), Ok(Action::Help)));
}

#[test]
fn confirmation_answers() {
    assert!(goto::command::IsConfirmation("y\n"));
    assert!(goto::command::IsConfirmation("  YES "));
    assert!(goto::command::IsConfirmation("Yes"));
    assert!(!goto::command::IsConfirmation("no"));
    assert!(!goto::command::IsConfirmation(""));
    assert!(!goto::command::IsConfirmation("yess"));
}
