use goto::error::StoreError;
use goto::matching::{GlobPattern, RegexPattern, SearchMode, contains_text};
use goto::paths::ConfigPaths;
use goto::search::SearchOptions;
use goto::store::Store;

fn store(entries: &str, pref: &str) -> Store {
    let paths = ConfigPaths {
        configFile: "c".to_string(),
        metaFile: "m".to_string(),
        userConfigFile: "u".to_string(),
        recentFile: "r".to_string(),
    };
    Store::Load(paths, entries, "production=900\n", "", pref, 0).0
}

fn options(mode: SearchMode, limit: Option<usize>) -> SearchOptions {
    SearchOptions {
        query: String::new(),
        matchKeyword: false,
        matchPath: false,
        requireBoth: false,
        mode,
        limit,
        within: None,
        maxDepth: None,
    }
}

fn hits(store: &Store, options: &SearchOptions) -> Vec<String> {
    store.Search(options).into_iter().map(|r| r.keyword).collect()
}

#[test]
fn substring_search_over_both_fields() {
    let s = store("proj=/x\nproduction=/y\nother=/z\n", "");
    let found = s.Search(&options(SearchMode::Substring("pro".to_string()), None));
    assert_eq!(found.len(), 2);
    assert_eq!(found[0].keyword, "production");
    assert_eq!(found[0].path, "/y");
    assert_eq!(found[0].expiry, Some(900));
    assert_eq!(found[1].keyword, "proj");
    assert_eq!(found[1].expiry, None);
    let first = hits(&s, &options(SearchMode::Substring("pro".to_string()), Some(1)));
    assert_eq!(first, vec!["production"]);
    let none = hits(&s, &options(SearchMode::Substring("pro".to_string()), Some(0)));
    assert!(none.is_empty());
}

#[test]
fn substring_search_follows_sort_mode() {
    let s = store("proj=/x\nproduction=/y\n", "sort_order=added\n");
    assert_eq!(hits(&s, &options(SearchMode::Substring("pro".to_string()), None)), vec!["proj", "production"]);
    assert_eq!(hits(&s, &options(SearchMode::Substring("pro".to_string()), Some(1))), vec!["proj"]);
}

#[test]
fn substring_search_ignores_case() {
    let s = store("Proj=/X\nalpha=/Projects/A\n", "");
    assert_eq!(hits(&s, &options(SearchMode::Substring("PROJ".to_string()), None)), vec!["Proj", "alpha"]);
    let empty = hits(&s, &options(SearchMode::Substring(String::new()), None));
    assert_eq!(empty.len(), 2);
}

#[test]
fn search_field_selection() {
    let s = store("alpha=/projects/client-a\nproj=/x\n", "");
    let mut keywordOnly = options(SearchMode::Substring("proj".to_string()), None);
    keywordOnly.matchKeyword = true;
    assert_eq!(hits(&s, &keywordOnly), vec!["proj"]);
    let mut pathOnly = options(SearchMode::Substring("proj".to_string()), None);
    pathOnly.matchPath = true;
    assert_eq!(hits(&s, &pathOnly), vec!["alpha"]);
    let mut both = options(SearchMode::Substring("a".to_string()), None);
    both.requireBoth = true;
    assert_eq!(hits(&s, &both), vec!["alpha"]);
}

#[test]
fn glob_search_matches_whole_text() {
    let s = store("proj=/x\nproduction=/y\nmyproj=/z\n", "");
    let g = GlobPattern::new("pro*").unwrap();
    let mut o = options(SearchMode::Glob(g), None);
    o.matchKeyword = true;
    assert_eq!(hits(&s, &o), vec!["production", "proj"]);
    assert!(matches!(GlobPattern::new("a***"), Err(StoreError::PatternError(_))));
}

#[test]
fn regex_search_ignores_case() {
    let s = store("proj=/x\nproduction=/y\nmyproj=/z\n", "");
    let x = RegexPattern::new("^PROJ").unwrap();
    let mut o = options(SearchMode::Regex(x), None);
    o.matchKeyword = true;
    assert_eq!(hits(&s, &o), vec!["proj"]);
    assert!(matches!(RegexPattern::new("(unclosed"), Err(StoreError::PatternError(_))));
}

#[test]
fn search_within_and_depth() {
    let s = store("root=/w\ninside=/w/inside\ndeep=/w/deep/nested\nout=/elsewhere\nsibling=/wx\n", "sort_order=added\n");
    let mut o = options(SearchMode::Substring(String::new()), None);
    o.within = Some("/w".to_string());
    assert_eq!(hits(&s, &o), vec!["root", "inside", "deep"]);
    o.maxDepth = Some(1);
    assert_eq!(hits(&s, &o), vec!["root", "inside"]);
    o.maxDepth = Some(0);
    assert_eq!(hits(&s, &o), vec!["root"]);
    o.within = Some("/w/".to_string());
    o.maxDepth = None;
    assert_eq!(hits(&s, &o), vec!["root", "inside", "deep"]);
}

#[test]
fn contains_text_finds_runs() {
    assert!(contains_text("production", "duct"));
    assert!(contains_text("abc", ""));
    assert!(!contains_text("abc", "abcd"));
    assert!(!contains_text("abc", "ac"));
}
