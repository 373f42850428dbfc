use goto::error::StoreError;
use goto::paths::{DeriveKeywordFromPath, ParseAddArgs, ResolvePath};
use goto::records::{parse_entries, parse_preference, parse_stamps, render_preference_text};
use goto::store::{SortMode, Store};
use goto::paths::ConfigPaths;
use goto::wrapper::{
    PlanWrapperInstall, ReplaceWrapperBlock, WRAPPER_END, WRAPPER_START, WrapperAction,
    WrapperPresentIn, remove_text,
};

#[test]
fn derive_keyword_takes_last_component() {
    assert_eq!(DeriveKeywordFromPath("/home/me/project").unwrap(), "project");
    assert_eq!(DeriveKeywordFromPath("/home/me/project/").unwrap(), "project");
    assert_eq!(DeriveKeywordFromPath("relative").unwrap(), "relative");
    assert!(matches!(DeriveKeywordFromPath("/"), Err(StoreError::InvalidPath(_))));
    assert!(matches!(DeriveKeywordFromPath("a/.."), Err(StoreError::InvalidPath(_))));
}

#[test]
fn parse_add_args_forms() {
    let both = ParseAddArgs(&vec!["proj".to_string(), "/x/y".to_string()]).unwrap();
    assert_eq!(both, ("proj".to_string(), "/x/y".to_string()));
    let one = ParseAddArgs(&vec!["/x/alpha".to_string()]).unwrap();
    assert_eq!(one, ("alpha".to_string(), "/x/alpha".to_string()));
    assert!(matches!(ParseAddArgs(&vec![]), Err(StoreError::InvalidPath(_))));
}

#[test]
fn resolve_path_prefers_environment() {
    assert_eq!(ResolvePath(Some("/custom".to_string()), "/home/me/.goto", "to_dirs"), "/custom");
    assert_eq!(ResolvePath(Some(String::new()), "/home/me/.goto", "to_dirs"), "/home/me/.goto/to_dirs");
    assert_eq!(ResolvePath(None, "/home/me/.goto/", "to_dirs"), "/home/me/.goto/to_dirs");
}

#[test]
fn stamps_parse_numbers_strictly() {
    let s = parse_stamps("a=1\nb=-1\nc=18446744073709551615\nd=18446744073709551616\ne=+\nf= 3 \n");
    let got: Vec<(String, u64)> = s.into_iter().map(|x| (x.keyword, x.value)).collect();
    assert_eq!(
        got,
        vec![("a".to_string(), 1), ("c".to_string(), u64::MAX), ("f".to_string(), 3)]
    );
}

#[test]
fn entries_parse_keeps_order() {
    let e = parse_entries("b=/2\na=/1\n\n=x\ny=\n");
    let got: Vec<(String, String)> = e.into_iter().map(|x| (x.keyword, x.path)).collect();
    assert_eq!(got, vec![("b".to_string(), "/2".to_string()), ("a".to_string(), "/1".to_string())]);
}

#[test]
fn preference_round_trip() {
    let text = render_preference_text("x=1\nsort_order=alpha\n", SortMode::Added);
    assert_eq!(text, "x=1\nsort_order=added\n");
    assert_eq!(parse_preference(&text), SortMode::Added);
}

#[test]
fn duplicate_records_keep_first_position() {
    let paths = ConfigPaths {
        configFile: "c".to_string(),
        metaFile: "m".to_string(),
        userConfigFile: "u".to_string(),
        recentFile: "r".to_string(),
    };
    let (store, _) = Store::Load(paths, "a=/1\nb=/2\na=/3\n", "", "", "", 0);
    assert_eq!(store.SaveEntries(), "a=/3\nb=/2\n");
}

#[test]
fn replace_wrapper_block_in_place() {
    let text = format!("before\n{}\nold body\n{}\nafter\n", WRAPPER_START, WRAPPER_END);
    let snippet = format!("{}\nnew body\n{}", WRAPPER_START, WRAPPER_END);
    assert_eq!(
        ReplaceWrapperBlock(&text, &snippet),
        format!("before\n{}\nnew body\n{}\nafter\n", WRAPPER_START, WRAPPER_END)
    );
    let glued = format!("x{}y{}z", WRAPPER_START, WRAPPER_END);
    assert_eq!(ReplaceWrapperBlock(&glued, "S"), "x\nS\nz");
    assert_eq!(ReplaceWrapperBlock("no block here", "S"), "no block here");
    let unclosed = format!("{}\nbody\n", WRAPPER_START);
    assert_eq!(ReplaceWrapperBlock(&unclosed, "S"), unclosed);
}

#[test]
fn complete_keywords_filters_by_prefix() {
    let paths = ConfigPaths {
        configFile: "c".to_string(),
        metaFile: "m".to_string(),
        userConfigFile: "u".to_string(),
        recentFile: "r".to_string(),
    };
    let (store, _) = Store::Load(paths, "apple=/a\nbanana=/b\napricot=/c\n", "", "", "", 0);
    assert_eq!(store.CompleteKeywords("ap"), vec!["apple", "apricot"]);
    assert_eq!(store.CompleteKeywords("").len(), 3);
    assert!(store.CompleteKeywords("z").is_empty());
}

#[test]
fn saved_files_read_back() {
    let paths = ConfigPaths {
        configFile: "c".to_string(),
        metaFile: "m".to_string(),
        userConfigFile: "u".to_string(),
        recentFile: "r".to_string(),
    };
    let (store, _) = Store::Load(paths.clone(), "z=/z\na b=/with space\nq=/q\n", "q=99999\n", "z=12\nq=0\n", "", 10);
    let entries = store.SaveEntries();
    let expiries = store.SaveExpiries();
    let recents = store.SaveRecents();
    let (again, purged) = Store::Load(paths, &entries, &expiries, &recents, "", 10);
    assert!(!purged);
    assert_eq!(again.SaveEntries(), entries);
    assert_eq!(again.SaveExpiries(), expiries);
    assert_eq!(again.SaveRecents(), recents);
    assert_eq!(parse_stamps(&recents).len(), 2);
}

#[test]
fn wrapper_install_plans() {
    let body = "echo hi";
    let snippet = format!("{}\n{}\n{}", WRAPPER_START, body, WRAPPER_END);
    let (fresh, action) = PlanWrapperInstall("# empty", &snippet, body, false);
    assert_eq!(action, WrapperAction::Added);
    assert_eq!(fresh, format!("# empty\n{}\n", snippet));
    assert!(WrapperPresentIn(&fresh, &snippet, body));
    assert!(!WrapperPresentIn("# empty\n", &snippet, body));
    let (same, skipped) = PlanWrapperInstall(&fresh, &snippet, body, false);
    assert_eq!(skipped, WrapperAction::Skipped);
    assert_eq!(same, fresh);
    let (again, forced) = PlanWrapperInstall(&fresh, &snippet, body, true);
    assert_eq!(forced, WrapperAction::Skipped);
    assert_eq!(again, fresh);
    let bare = "a\necho hi\nb\n";
    let (moved, updated) = PlanWrapperInstall(bare, &snippet, body, true);
    assert_eq!(updated, WrapperAction::Updated);
    assert_eq!(moved, format!("a\n\nb\n{}\n", snippet));
    assert_eq!(remove_text("xabyabz", "ab"), "xyz");
    assert_eq!(remove_text("aaa", "aa"), "a");
}

#[test]
fn derive_keyword_skips_dot_components() {
    assert_eq!(DeriveKeywordFromPath("a/.").unwrap(), "a");
    assert_eq!(DeriveKeywordFromPath("./x").unwrap(), "x");
    assert_eq!(DeriveKeywordFromPath("/a//b").unwrap(), "b");
    assert!(matches!(DeriveKeywordFromPath("."), Err(StoreError::InvalidPath(_))));
    assert!(matches!(DeriveKeywordFromPath(""), Err(StoreError::InvalidPath(_))));
    assert!(matches!(DeriveKeywordFromPath(".."), Err(StoreError::InvalidPath(_))));
}

#[test]
fn load_drops_expiry_records_without_entries() {
    let paths = ConfigPaths {
        configFile: "c".to_string(),
        metaFile: "m".to_string(),
        userConfigFile: "u".to_string(),
        recentFile: "r".to_string(),
    };
    let (store, rewrite) = Store::Load(paths.clone(), "a=/a\n", "a=500\nghost=900\n", "", "", 10);
    assert!(rewrite);
    assert_eq!(store.SaveExpiries(), "a=500\n");
    let (_, clean) = Store::Load(paths, "a=/a\n", "a=500\n", "", "", 10);
    assert!(!clean);
}
