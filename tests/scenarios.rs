#![allow(non_snake_case)]

use goto::command::{
    Action, CompletionSuggestion, DetermineAction, Invocation, ShellRcPath, SplitCompletionTarget,
    UsageError,
};
use goto::error::StoreError;
use goto::matching::SearchMode;
use goto::paths::ConfigPaths;
use goto::search::SearchOptions;
use goto::store::{AddBehavior, AddOutcome, PathProbe, SortMode, Store};
use goto::wrapper::{PlanWrapperInstall, WrapperAction, WrapperPresentIn};

const HOME: &str = "/tmp/home";

fn paths() -> ConfigPaths {
    ConfigPaths {
        configFile: format!("{HOME}/.goto/to_dirs"),
        metaFile: format!("{HOME}/.goto/to_dirs_meta"),
        userConfigFile: format!("{HOME}/.goto/to_zsh_config"),
        recentFile: format!("{HOME}/.goto/to_dirs_recent"),
    }
}

fn fresh() -> Store {
    Store::Load(paths(), "", "", "", "", 100).0
}

fn MakeDir(name: &str) -> String {
    format!("{HOME}/{name}")
}

fn probe(path: &str) -> PathProbe {
    PathProbe { exists: true, isDir: true, canonical: Some(path.to_string()) }
}

fn assumeYes() -> AddBehavior {
    AddBehavior { force: false, assumeYes: true }
}

fn listAll(store: &Store, query: &str, pathOnly: bool, within: Option<String>, maxDepth: Option<usize>) -> Vec<String> {
    let options = SearchOptions {
        query: query.to_string(),
        matchKeyword: false,
        matchPath: pathOnly,
        requireBoth: false,
        mode: SearchMode::Substring(query.to_string()),
        limit: None,
        within,
        maxDepth,
    };
    store.Search(&options).into_iter().map(|r| r.keyword).collect()
}

fn noFlags() -> Invocation {
    Invocation {
        add: None,
        bulkAdd: None,
        addForce: false,
        copy: None,
        remove: None,
        list: None,
        listGlob: false,
        listRegex: false,
        listKeywordOnly: false,
        listPathOnly: false,
        listRequireBoth: false,
        listWithin: None,
        listHere: false,
        listMaxDepth: None,
        listJson: false,
        listLimit: None,
        printPath: false,
        cursor: false,
        code: false,
        noCreate: false,
        showSortMode: false,
        expire: None,
        installWrapper: false,
        installWrapperRc: None,
        installWrapperForce: false,
        completeMode: None,
        completeInput: None,
        target: None,
    }
}

#[test]
fn HelpDisplaysWhenNoArgs() {
    assert!(matches!(DetermineAction(&noFlags()), Ok(Action::Help)));
    assert!(fresh().SortedKeywords().is_empty());
}

#[test]
fn AddAndListShortcut() {
    let mut store = fresh();
    let projectDir = MakeDir("project");
    let outcome = store.AddShortcut("proj", &probe(&projectDir), None, &assumeYes(), false).unwrap();
    assert!(matches!(outcome, AddOutcome::Added { .. }));
    assert!(listAll(&store, "", false, None, None).contains(&"proj".to_string()));
    assert!(store.ResolveJump("proj").unwrap().targetPath.contains(&projectDir));
}

#[test]
fn AddWithoutKeywordUsesBasename() {
    let dir = MakeDir("alpha");
    let mut flags = noFlags();
    flags.add = Some(vec![dir.clone()]);
    let (keyword, path) = match DetermineAction(&flags) {
        Ok(Action::Add { keyword, path, .. }) => (keyword, path),
        _ => panic!("expected an add"),
    };
    assert!(keyword.contains("alpha"));
    let mut store = fresh();
    store.AddShortcut(&keyword, &probe(&path), None, &assumeYes(), false).unwrap();
    assert!(store.SaveEntries().contains("alpha="));
}

#[test]
fn CopyWithNewKeywordKeepsPath() {
    let mut store = fresh();
    let dir = MakeDir("source");
    store.AddShortcut("src", &probe(&dir), None, &assumeYes(), false).unwrap();
    let notADir = PathProbe { exists: false, isDir: false, canonical: None };
    store.CopyShortcut("src", "clone", &notADir, &probe(&dir), &assumeYes(), false).unwrap();
    assert!(listAll(&store, "", false, None, None).contains(&"clone".to_string()));
    assert_eq!(store.ResolveJump("clone").unwrap().targetPath, dir);
}

#[test]
fn JumpCreatesWhenAllowed() {
    let mut store = fresh();
    let base = MakeDir("base");
    store.AddShortcut("base", &probe(&base), None, &assumeYes(), false).unwrap();
    let mut flags = noFlags();
    flags.target = Some("base/nested/deeper".to_string());
    assert!(matches!(DetermineAction(&flags), Ok(Action::Jump { create: true, .. })));
    let resolved = store.ResolveJump("base/nested/deeper").unwrap();
    assert_eq!(resolved.targetPath, format!("{base}/nested/deeper"));
    store.UpdateRecentUsage(&resolved.keyword, 500);
    assert!(store.SaveRecents().contains("base="));
}

#[test]
fn JumpWithoutCreateFailsWhenFlagSet() {
    let mut flags = noFlags();
    flags.target = Some("base/nested".to_string());
    flags.noCreate = true;
    assert!(matches!(DetermineAction(&flags), Ok(Action::Jump { create: false, .. })));
}

#[test]
fn CodeAndCursorAreMutuallyExclusive() {
    let mut flags = noFlags();
    flags.target = Some("base".to_string());
    flags.cursor = true;
    flags.code = true;
    assert!(matches!(DetermineAction(&flags), Err(UsageError::CursorAndCode)));
}

#[test]
fn ShowSortModePrintsCurrent() {
    let mut store = fresh();
    assert_eq!(store.sortMode, SortMode::Alpha);
    store.SetSortMode("recent").unwrap();
    let preference = store.SavePreference("");
    let reloaded = Store::Load(paths(), "", "", "", &preference, 100).0;
    assert_eq!(reloaded.sortMode, SortMode::Recent);
}

#[test]
fn CompleteKeywordsFiltersByPrefix() {
    let mut store = fresh();
    store.AddShortcut("app", &probe(&MakeDir("apple")), None, &assumeYes(), false).unwrap();
    store.AddShortcut("ban", &probe(&MakeDir("banana")), None, &assumeYes(), false).unwrap();
    let found = store.CompleteKeywords("a");
    assert!(found.contains(&"app".to_string()));
    assert!(!found.contains(&"ban".to_string()));
}

#[test]
fn CompleteTargetsAddsSubpaths() {
    let parts = SplitCompletionTarget("base/s").unwrap();
    assert_eq!(parts.keyword, "base");
    assert!("src".starts_with(parts.prefix.as_str()));
    assert!(CompletionSuggestion(&parts, "src", true).contains("base/src/"));
}

#[test]
fn SearchFiltersByKeywordAndPath() {
    let mut store = fresh();
    store.AddShortcut("alpha", &probe(&MakeDir("alpha")), None, &assumeYes(), false).unwrap();
    store.AddShortcut("proj", &probe(&MakeDir("projects/client-a")), None, &assumeYes(), false).unwrap();
    let found = listAll(&store, "proj", true, None, None);
    assert!(found.contains(&"proj".to_string()));
    assert!(!found.contains(&"alpha".to_string()));
}

#[test]
fn ListHereScopesToCurrentDir() {
    let mut store = fresh();
    let workspace = MakeDir("workspace");
    store.AddShortcut("in", &probe(&format!("{workspace}/inside")), None, &assumeYes(), false).unwrap();
    store.AddShortcut("out", &probe(&MakeDir("outside")), None, &assumeYes(), false).unwrap();
    let found = listAll(&store, "", false, Some(workspace), None);
    assert!(found.contains(&"in".to_string()));
    assert!(!found.contains(&"out".to_string()));
}

#[test]
fn ListWithinScopesToProvidedRoot() {
    let mut store = fresh();
    let workspace = MakeDir("workspace");
    store.AddShortcut("nested", &probe(&format!("{workspace}/nested")), None, &assumeYes(), false).unwrap();
    store.AddShortcut("elsewhere", &probe(&MakeDir("elsewhere")), None, &assumeYes(), false).unwrap();
    let found = listAll(&store, "", false, Some(workspace), None);
    assert!(found.contains(&"nested".to_string()));
    assert!(!found.contains(&"elsewhere".to_string()));
}

#[test]
fn ListMaxDepthLimitsResults() {
    let mut store = fresh();
    let workspace = MakeDir("workspace");
    store.AddShortcut("root", &probe(&workspace), None, &assumeYes(), false).unwrap();
    store.AddShortcut("deep", &probe(&format!("{workspace}/deep/nested")), None, &assumeYes(), false).unwrap();
    let found = listAll(&store, "", false, Some(workspace), Some(0));
    assert!(found.contains(&"root".to_string()));
    assert!(!found.contains(&"deep".to_string()));
}

#[test]
fn SearchAliasListsAllWhenEmpty() {
    let mut store = fresh();
    store.AddShortcut("one", &probe(&MakeDir("first")), None, &assumeYes(), false).unwrap();
    store.AddShortcut("two", &probe(&MakeDir("second")), None, &assumeYes(), false).unwrap();
    let found = listAll(&store, "", false, None, None);
    assert!(found.contains(&"one".to_string()));
    assert!(found.contains(&"two".to_string()));
}

#[test]
fn AddSameKeywordSamePathIsNoOp() {
    let mut store = fresh();
    let dir = MakeDir("alpha");
    store.AddShortcut("alpha", &probe(&dir), None, &assumeYes(), false).unwrap();
    let again = store.AddShortcut("alpha", &probe(&dir), None, &assumeYes(), false).unwrap();
    assert!(matches!(again, AddOutcome::AlreadyPresent { .. }));
}

#[test]
fn AddSameKeywordDifferentPathRequiresForce() {
    let mut store = fresh();
    let first = MakeDir("one");
    let second = MakeDir("two");
    store.AddShortcut("proj", &probe(&first), None, &assumeYes(), false).unwrap();
    let refused = store.AddShortcut("proj", &probe(&second), None, &assumeYes(), false);
    assert!(matches!(refused, Err(StoreError::AlreadyExists { .. })));
    let force = AddBehavior { force: true, assumeYes: true };
    let replaced = store.AddShortcut("proj", &probe(&second), None, &force, false).unwrap();
    assert!(matches!(replaced, AddOutcome::Replaced { .. }));
    assert!(store.SaveEntries().contains(second.as_str()));
}

#[test]
fn AddDifferentKeywordSamePathHonorsAssumeYes() {
    let mut store = fresh();
    let dir = MakeDir("shared");
    store.AddShortcut("one", &probe(&dir), None, &assumeYes(), false).unwrap();
    let withoutAssume = AddBehavior { force: false, assumeYes: false };
    let refused = store.AddShortcut("two", &probe(&dir), None, &withoutAssume, false);
    assert!(matches!(refused, Err(StoreError::AbortedByUser { .. })));
    match store.AddShortcut("two", &probe(&dir), None, &assumeYes(), false).unwrap() {
        AddOutcome::Added { duplicateKeywords, .. } => {
            assert_eq!(duplicateKeywords, vec!["one".to_string()])
        }
        _ => panic!("expected Added"),
    }
}

#[test]
fn CheckWrapperFlagDetectsPresence() {
    let snippet = "# >>> goto init >>>\nbody\n# <<< goto init <<<";
    let present = "# >>> goto init >>>\nGOTO_FUNC_PATH=\"${XDG_CONFIG_HOME:-$HOME/.config}/zsh/plugins/goto/goto.zsh\"\n# <<< goto init <<<\n";
    assert!(WrapperPresentIn(present, snippet, "body"));
    assert!(!WrapperPresentIn("# empty\n", snippet, "body"));
}

#[test]
fn InstallWrapperAddsWhenMissing() {
    let rc = ShellRcPath(Some(HOME.to_string()), "/bin/zsh", Some(format!("{HOME}/zdot")));
    assert_eq!(rc, format!("{HOME}/zdot/.zshrc"));
    let snippet = "# >>> goto init >>>\nbody\n# <<< goto init <<<";
    let (contents, action) = PlanWrapperInstall("", snippet, "body", false);
    assert_eq!(action, WrapperAction::Added);
    assert!(contents.contains("# >>> goto init >>>"));
    let (_, second) = PlanWrapperInstall(&contents, snippet, "body", false);
    assert_eq!(second, WrapperAction::Skipped);
}
