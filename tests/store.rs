#![allow(non_snake_case)]

use goto::error::StoreError;
use goto::paths::ConfigPaths;
use goto::store::{AddBehavior, AddOutcome, BulkMatch, ParseSortMode, PathProbe, SortMode, Store};

fn paths() -> ConfigPaths {
    ConfigPaths {
        configFile: "/cfg/to_dirs".to_string(),
        metaFile: "/cfg/to_dirs_meta".to_string(),
        userConfigFile: "/cfg/to_zsh_config".to_string(),
        recentFile: "/cfg/to_dirs_recent".to_string(),
    }
}

fn load(entries: &str, expiry: &str, recent: &str, pref: &str, now: u64) -> (Store, bool) {
    Store::Load(paths(), entries, expiry, recent, pref, now)
}

fn empty() -> Store {
    load("", "", "", "", 1000).0
}

fn dir(path: &str) -> PathProbe {
    PathProbe { exists: true, isDir: true, canonical: Some(path.to_string()) }
}

fn plain() -> AddBehavior {
    AddBehavior { force: false, assumeYes: false }
}

fn forced() -> AddBehavior {
    AddBehavior { force: true, assumeYes: false }
}

fn keywords(store: &Store) -> Vec<String> {
    store.SortedKeywords()
}

#[test]
fn add_same_keyword_same_path_twice_is_already_present() {
    let mut store = empty();
    let first = store.AddShortcut("proj", &dir("/a"), None, &plain(), false).unwrap();
    assert!(matches!(first, AddOutcome::Added { .. }));
    let second = store.AddShortcut("proj", &dir("/a"), None, &plain(), false).unwrap();
    match second {
        AddOutcome::AlreadyPresent { path, expiry, expiryChanged } => {
            assert_eq!(path, "/a");
            assert_eq!(expiry, None);
            assert!(!expiryChanged);
        }
        _ => panic!("expected AlreadyPresent"),
    }
    assert_eq!(store.entries.len(), 1);
    assert_eq!(store.SaveEntries(), "proj=/a\n");
}

#[test]
fn already_present_updates_expiry() {
    let mut store = empty();
    store.AddShortcut("proj", &dir("/a"), Some(50), &plain(), false).unwrap();
    let again = store.AddShortcut("proj", &dir("/a"), Some(90), &plain(), false).unwrap();
    assert!(matches!(again, AddOutcome::AlreadyPresent { expiryChanged: true, expiry: Some(90), .. }));
    assert_eq!(store.ExpiryFor("proj"), Some(90));
    let cleared = store.AddShortcut("proj", &dir("/a"), None, &plain(), false).unwrap();
    assert!(matches!(cleared, AddOutcome::AlreadyPresent { expiryChanged: true, expiry: None, .. }));
    assert_eq!(store.ExpiryFor("proj"), None);
    assert_eq!(store.SaveExpiries(), "");
}

#[test]
fn add_conflict_requires_force() {
    let mut store = empty();
    store.AddShortcut("proj", &dir("/a"), None, &plain(), false).unwrap();
    let err = store.AddShortcut("proj", &dir("/b"), None, &plain(), false).unwrap_err();
    match err {
        StoreError::AlreadyExists { keyword, existing, requested } => {
            assert_eq!(keyword, "proj");
            assert_eq!(existing, "/a");
            assert_eq!(requested, "/b");
        }
        _ => panic!("expected AlreadyExists"),
    }
    assert_eq!(store.SaveEntries(), "proj=/a\n");
    let replaced = store.AddShortcut("proj", &dir("/b"), None, &forced(), false).unwrap();
    match replaced {
        AddOutcome::Replaced { previousPath, newPath, .. } => {
            assert_eq!(previousPath, "/a");
            assert_eq!(newPath, "/b");
        }
        _ => panic!("expected Replaced"),
    }
    let file = store.SaveEntries();
    assert!(file.contains("proj=/b"));
    assert!(!file.contains("/a"));
}

#[test]
fn replace_keeps_position() {
    let mut store = load("one=/1\ntwo=/2\nthree=/3\n", "", "", "sort_order=added\n", 0).0;
    store.AddShortcut("two", &dir("/22"), None, &forced(), false).unwrap();
    assert_eq!(store.SaveEntries(), "one=/1\ntwo=/22\nthree=/3\n");
}

#[test]
fn invalid_target_is_rejected() {
    let mut store = empty();
    let missing = PathProbe { exists: false, isDir: false, canonical: None };
    assert!(matches!(
        store.AddShortcut("x", &missing, None, &plain(), false),
        Err(StoreError::InvalidPath(_))
    ));
    let file = PathProbe { exists: true, isDir: false, canonical: Some("/f".to_string()) };
    assert!(matches!(
        store.AddShortcut("x", &file, None, &plain(), false),
        Err(StoreError::InvalidPath(_))
    ));
    let unresolved = PathProbe { exists: true, isDir: true, canonical: None };
    assert!(matches!(
        store.AddShortcut("x", &unresolved, None, &plain(), false),
        Err(StoreError::InvalidPath(_))
    ));
    assert!(store.entries.is_empty());
}

#[test]
fn duplicate_path_needs_confirmation() {
    let mut store = empty();
    store.AddShortcut("one", &dir("/shared"), None, &plain(), false).unwrap();
    let err = store.AddShortcut("two", &dir("/shared"), None, &plain(), false).unwrap_err();
    match err {
        StoreError::AbortedByUser { keyword, path, duplicates } => {
            assert_eq!(keyword, "two");
            assert_eq!(path, "/shared");
            assert_eq!(duplicates, vec!["one".to_string()]);
        }
        _ => panic!("expected AbortedByUser"),
    }
    assert_eq!(store.entries.len(), 1);
    let yes = AddBehavior { force: false, assumeYes: true };
    let added = store.AddShortcut("two", &dir("/shared"), None, &yes, false).unwrap();
    match added {
        AddOutcome::Added { duplicateKeywords, .. } => {
            assert_eq!(duplicateKeywords, vec!["one".to_string()])
        }
        _ => panic!("expected Added"),
    }
    let confirmed = store.AddShortcut("three", &dir("/shared"), None, &plain(), true).unwrap();
    match confirmed {
        AddOutcome::Added { duplicateKeywords, .. } => {
            assert_eq!(duplicateKeywords, vec!["one".to_string(), "two".to_string()])
        }
        _ => panic!("expected Added"),
    }
}

#[test]
fn resolve_jump_uses_longest_prefix() {
    let mut store = empty();
    store.AddShortcut("base", &dir("/home/base"), None, &plain(), false).unwrap();
    let j = store.ResolveJump("base/nested/deeper").unwrap();
    assert_eq!(j.keyword, "base");
    assert_eq!(j.basePath, "/home/base");
    assert_eq!(j.targetPath, "/home/base/nested/deeper");
    store.AddShortcut("base/nested", &dir("/srv/nested"), None, &plain(), false).unwrap();
    let j = store.ResolveJump("base/nested/deeper").unwrap();
    assert_eq!(j.keyword, "base/nested");
    assert_eq!(j.targetPath, "/srv/nested/deeper");
    let exact = store.ResolveJump("base").unwrap();
    assert_eq!(exact.targetPath, "/home/base");
    let slashes = store.ResolveJump("base//x").unwrap();
    assert_eq!(slashes.targetPath, "/home/base/x");
}

#[test]
fn resolve_jump_unknown_is_not_found() {
    let store = load("base=/home/base\n", "", "", "", 0).0;
    assert!(matches!(store.ResolveJump("other/x"), Err(StoreError::NotFound(_))));
    assert!(matches!(store.ResolveJump("bas"), Err(StoreError::NotFound(_))));
}

#[test]
fn load_purges_expired_entries() {
    let (store, purged) = load("old=/x\nnew=/y\nkeep=/z\n", "old=100\nnew=500\n", "", "", 200);
    assert!(purged);
    assert_eq!(store.SaveEntries(), "new=/y\nkeep=/z\n");
    assert_eq!(store.SaveExpiries(), "new=500\n");
    assert_eq!(store.ExpiryFor("old"), None);
    assert!(store.ResolveJump("old").is_err());
    let (_, none) = load("a=/a\n", "a=300\n", "", "", 200);
    assert!(!none);
    let (boundary, cut) = load("a=/a\n", "a=200\n", "", "", 200);
    assert!(cut);
    assert!(boundary.entries.is_empty());
}

#[test]
fn load_reads_records_loosely() {
    let (store, _) = load(
        "a=/one\r\n  =/blank\nnoequals\nb= \nc=/three=x\n",
        "a= +42 \nb=zz\n",
        "c=7\nc=9\n",
        "theme=dark\n sort_order = added \n",
        0,
    );
    assert_eq!(store.SaveEntries(), "a=/one\nc=/three=x\n");
    assert_eq!(store.ExpiryFor("a"), Some(42));
    assert_eq!(store.SaveExpiries(), "a=42\n");
    assert_eq!(store.SaveRecents(), "c=9\n");
    assert_eq!(store.sortMode, SortMode::Added);
}

#[test]
fn preference_defaults_to_alpha() {
    assert_eq!(load("", "", "", "", 0).0.sortMode, SortMode::Alpha);
    assert_eq!(load("", "", "", "sort_order=bogus\n", 0).0.sortMode, SortMode::Alpha);
    assert_eq!(load("", "", "", "sort_order=recent\nsort_order=added\n", 0).0.sortMode, SortMode::Recent);
}

#[test]
fn set_sort_mode_rewrites_preference() {
    let mut store = empty();
    store.SetSortMode("recent").unwrap();
    assert_eq!(store.sortMode, SortMode::Recent);
    assert_eq!(
        store.SavePreference("theme=dark\nsort_order=alpha\nlast=1"),
        "theme=dark\nlast=1\nsort_order=recent\n"
    );
    assert!(matches!(store.SetSortMode("newest"), Err(StoreError::InvalidSortMode(_))));
    assert_eq!(store.sortMode, SortMode::Recent);
}

#[test]
fn parse_sort_mode_names() {
    assert_eq!(ParseSortMode("added").unwrap(), SortMode::Added);
    assert_eq!(ParseSortMode("alpha").unwrap(), SortMode::Alpha);
    assert_eq!(ParseSortMode("recent").unwrap(), SortMode::Recent);
    assert!(matches!(ParseSortMode("Alpha"), Err(StoreError::InvalidSortMode(_))));
}

#[test]
fn alpha_order_is_natural() {
    let store = load("item10=/10\nitem2=/2\nItem3=/3\nitem1=/1\n", "", "", "", 0).0;
    assert_eq!(keywords(&store), vec!["Item3", "item1", "item2", "item10"]);
}

#[test]
fn added_order_is_insertion_order() {
    let store = load("b=/b\na=/a\nc=/c\n", "", "", "sort_order=added\n", 0).0;
    assert_eq!(keywords(&store), vec!["b", "a", "c"]);
}

#[test]
fn recent_order_puts_latest_first() {
    let mut store = load("a=/a\nb=/b\nc=/c\nd=/d\n", "", "a=5\nb=9\nd=5\n", "sort_order=recent\n", 0).0;
    assert_eq!(keywords(&store), vec!["b", "a", "d", "c"]);
    store.UpdateRecentUsage("c", 20);
    assert_eq!(keywords(&store), vec!["c", "b", "a", "d"]);
    assert_eq!(store.SaveRecents(), "a=5\nb=9\nd=5\nc=20\n");
}

#[test]
fn remove_clears_all_maps() {
    let mut store = load("a=/a\nb=/b\n", "a=5000\nb=6000\n", "a=1\nb=2\n", "", 0).0;
    store.RemoveShortcut("a").unwrap();
    assert_eq!(store.SaveEntries(), "b=/b\n");
    assert_eq!(store.SaveExpiries(), "b=6000\n");
    assert_eq!(store.SaveRecents(), "b=2\n");
    assert!(store.ResolveJump("a").is_err());
    assert_eq!(store.ResolveJump("b").unwrap().targetPath, "/b");
    assert!(matches!(store.RemoveShortcut("a"), Err(StoreError::NotFound(_))));
}

#[test]
fn copy_under_new_keyword_keeps_path() {
    let mut store = empty();
    store.AddShortcut("source", &dir("/src"), None, &plain(), false).unwrap();
    let notDir = PathProbe { exists: false, isDir: false, canonical: None };
    let yes = AddBehavior { force: false, assumeYes: true };
    store.CopyShortcut("source", "clone", &notDir, &dir("/src"), &yes, false).unwrap();
    assert_eq!(store.ResolveJump("clone").unwrap().targetPath, "/src");
    store.CopyShortcut("source", "/other/place", &dir("/other/place"), &dir("/src"), &yes, false).unwrap();
    assert_eq!(store.ResolveJump("place").unwrap().targetPath, "/other/place");
    assert!(matches!(
        store.CopyShortcut("nothing", "x", &notDir, &dir("/src"), &yes, false),
        Err(StoreError::NotFound(_))
    ));
}

#[test]
fn bulk_add_skips_known_keywords() {
    let mut store = load("one=/elsewhere\n", "", "", "sort_order=added\n", 0).0;
    let matches = vec![
        BulkMatch { path: "/roots/one".to_string(), probe: dir("/roots/one") },
        BulkMatch { path: "/roots/file.txt".to_string(), probe: PathProbe { exists: true, isDir: false, canonical: Some("/roots/file.txt".to_string()) } },
        BulkMatch { path: "/roots/two".to_string(), probe: dir("/roots/two") },
        BulkMatch { path: "/roots/three".to_string(), probe: dir("/elsewhere") },
    ];
    let added = store.AddBulk(&matches, &plain()).unwrap();
    assert_eq!(added, vec!["two".to_string(), "three".to_string()]);
    assert_eq!(store.SaveEntries(), "one=/elsewhere\ntwo=/roots/two\nthree=/elsewhere\n");
}
