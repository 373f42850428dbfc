//! Choosing what one invocation of the tool does from its parsed flags.
use vstd::prelude::*;
use crate::matching::{GlobPattern, RegexPattern, SearchMode, glob_parses, regex_builds};
use crate::paths::{ParseAddArgs, base_name};
use crate::search::SearchOptions;
use crate::matching::{lower_of, lowercase};
use crate::records::chars_equal;
use crate::text::{append_chars, chars_of, string_from, sub_chars, trim, trimmed};

verus! {

/// The flags of one invocation that decide its action.
#[derive(Clone, Debug)]
pub struct Invocation {
    pub add: Option<Vec<String>>,
    pub bulkAdd: Option<String>,
    pub addForce: bool,
    pub copy: Option<Vec<String>>,
    pub remove: Option<String>,
    pub list: Option<String>,
    pub listGlob: bool,
    pub listRegex: bool,
    pub listKeywordOnly: bool,
    pub listPathOnly: bool,
    pub listRequireBoth: bool,
    pub listWithin: Option<String>,
    pub listHere: bool,
    pub listMaxDepth: Option<usize>,
    pub listJson: bool,
    pub listLimit: Option<usize>,
    pub printPath: bool,
    pub cursor: bool,
    pub code: bool,
    pub noCreate: bool,
    pub showSortMode: bool,
    pub expire: Option<u64>,
    pub installWrapper: bool,
    pub installWrapperRc: Option<String>,
    pub installWrapperForce: bool,
    pub completeMode: Option<String>,
    pub completeInput: Option<String>,
    pub target: Option<String>,
}

/// What an invocation does.
#[derive(Debug)]
pub enum Action {
    Help,
    ShowSort,
    Add { keyword: String, path: String, expire: Option<u64> },
    AddBulk { pattern: String },
    Copy { existing: String, newValue: String },
    Remove { keyword: String },
    PrintPath { target: String },
    InstallWrapper { rcPath: Option<String>, force: bool },
    Jump { target: String, runCursor: bool, create: bool },
    Complete { mode: String, input: String },
    /// A search; with `here`, its scope is the current directory.
    Search { options: SearchOptions, outputJson: bool, here: bool },
}

/// Why the flags of an invocation do not make an action.
#[derive(Clone, Debug)]
pub enum UsageError {
    /// A listing flag was given without `--list`.
    ListFlagWithoutList,
    /// More than one primary action was asked for.
    SeveralActions,
    /// `--expire` was given without `--add`.
    ExpireWithoutAdd,
    /// `--force` was given without `--add`, `--copy` or `--bulk-add`.
    ForceWithoutAdd,
    /// `--cursor` and `--code` were both given.
    CursorAndCode,
    /// `--add` was given no path, or a path without a last component.
    AddUsage,
    /// `--copy` was given fewer than two values.
    CopyUsage,
    /// `--print-path` was given no target.
    PrintPathUsage,
    /// `--glob` or `--regex` was given an empty query.
    QueryMissing,
    /// The query does not compile as a glob or a regular expression.
    BadPattern(String),
}

impl Invocation {
    pub open spec fn list_flags_used(&self) -> bool {
        self.listKeywordOnly || self.listPathOnly || self.listRequireBoth || self.listGlob
            || self.listRegex || self.listJson || self.listLimit is Some
    }

    /// How many primary actions are asked for.
    pub open spec fn primary_count(&self) -> int {
        (if self.list is Some { 1int } else { 0 }) + (if self.add is Some { 1int } else { 0 }) + (
        if self.showSortMode { 1int } else { 0 }) + (if self.bulkAdd is Some { 1int } else { 0 })
            + (if self.copy is Some { 1int } else { 0 }) + (if self.remove is Some { 1int } else { 0 })
            + (if self.printPath { 1int } else { 0 })
    }

    /// The usage rule that the flags break, checked in this order, if any.
    pub open spec fn broken_rule(&self) -> Option<UsageError> {
        if self.list_flags_used() && self.list is None {
            Some(UsageError::ListFlagWithoutList)
        } else if self.primary_count() > 1 {
            Some(UsageError::SeveralActions)
        } else if self.expire is Some && self.add is None {
            Some(UsageError::ExpireWithoutAdd)
        } else if self.addForce && self.add is None && self.copy is None && self.bulkAdd is None {
            Some(UsageError::ForceWithoutAdd)
        } else if self.cursor && self.code {
            Some(UsageError::CursorAndCode)
        } else {
            None
        }
    }
}

/// The search options of `--list` with query `q`.
pub open spec fn list_options_match(inv: Invocation, q: Seq<char>, o: SearchOptions) -> bool {
    &&& o.query@ == q
    &&& o.matchKeyword == inv.listKeywordOnly
    &&& o.matchPath == inv.listPathOnly
    &&& o.requireBoth == inv.listRequireBoth
    &&& o.limit == inv.listLimit
    &&& o.within == inv.listWithin
    &&& o.maxDepth == inv.listMaxDepth
    &&& if inv.listGlob {
        o.mode matches SearchMode::Glob(g) && g@ == q
    } else if inv.listRegex {
        o.mode matches SearchMode::Regex(x) && x@ == q
    } else {
        o.mode matches SearchMode::Substring(s) && s@ == q
    }
}

/// The action of a `--list` with query `query`.
pub fn BuildListAction(inv: &Invocation, query: &String) -> (r: Result<Action, UsageError>)
    ensures
        list_result(*inv, query@, r),
{
    let empty = query.as_str().is_empty();
    if empty && (inv.listGlob || inv.listRegex) {
        return Err(UsageError::QueryMissing);
    }
    let mode = if inv.listGlob {
        match GlobPattern::new(query.as_str()) {
            Ok(g) => SearchMode::Glob(g),
            Err(_) => {
                return Err(UsageError::BadPattern(query.clone()));
            },
        }
    } else if inv.listRegex {
        match RegexPattern::new(query.as_str()) {
            Ok(x) => SearchMode::Regex(x),
            Err(_) => {
                return Err(UsageError::BadPattern(query.clone()));
            },
        }
    } else {
        SearchMode::Substring(query.clone())
    };
    Ok(
        Action::Search {
            options: SearchOptions {
                query: query.clone(),
                matchKeyword: inv.listKeywordOnly,
                matchPath: inv.listPathOnly,
                requireBoth: inv.listRequireBoth,
                mode,
                limit: inv.listLimit,
                within: inv.listWithin.clone(),
                maxDepth: inv.listMaxDepth,
            },
            outputJson: inv.listJson,
            here: inv.listHere,
        },
    )
}

fn count_if(b: bool) -> (r: usize)
    ensures
        r == (if b { 1int } else { 0 }),
{
    if b {
        1
    } else {
        0
    }
}

/// The action of `--add` with the values `inv.add`.
pub open spec fn add_result(inv: Invocation, r: Result<Action, UsageError>) -> bool {
    let values = inv.add->0@;
    if values.len() == 0 || (values.len() == 1 && base_name(values[0]@) is None) {
        r matches Err(UsageError::AddUsage)
    } else {
        &&& r matches Ok(Action::Add { keyword, path, expire })
        &&& keyword@ == if values.len() == 1 {
            base_name(values[0]@)->0
        } else {
            values[0]@
        }
        &&& path@ == if values.len() == 1 {
            values[0]@
        } else {
            values[1]@
        }
        &&& expire == inv.expire
    }
}

/// The action of `--list` with query `q`.
pub open spec fn list_result(inv: Invocation, q: Seq<char>, r: Result<Action, UsageError>) -> bool {
    if q.len() == 0 && (inv.listGlob || inv.listRegex) {
        r matches Err(UsageError::QueryMissing)
    } else if (inv.listGlob && !glob_parses(q)) || (!inv.listGlob && inv.listRegex
        && !regex_builds(q)) {
        r matches Err(UsageError::BadPattern(_))
    } else {
        &&& r matches Ok(Action::Search { options, outputJson, here })
        &&& list_options_match(inv, q, options)
        &&& outputJson == inv.listJson
        &&& here == inv.listHere
    }
}

/// The action of the first primary flag given, in the order add, bulk
/// add, copy, show sort, remove, list, print path; else a jump to the
/// target; else help.
pub open spec fn primary_result(inv: Invocation, r: Result<Action, UsageError>) -> bool {
    if inv.add is Some {
        add_result(inv, r)
    } else if inv.bulkAdd is Some {
        r matches Ok(Action::AddBulk { pattern }) && pattern == inv.bulkAdd->0
    } else if inv.copy is Some {
        if inv.copy->0.len() < 2 {
            r matches Err(UsageError::CopyUsage)
        } else {
            r matches Ok(Action::Copy { existing, newValue }) && existing == inv.copy->0@[0]
                && newValue == inv.copy->0@[1]
        }
    } else if inv.showSortMode {
        r matches Ok(Action::ShowSort)
    } else if inv.remove is Some {
        r matches Ok(Action::Remove { keyword }) && keyword == inv.remove->0
    } else if inv.list is Some {
        list_result(inv, inv.list->0@, r)
    } else if inv.printPath {
        match inv.target {
            Some(t) => r matches Ok(Action::PrintPath { target }) && target == t,
            None => r matches Err(UsageError::PrintPathUsage),
        }
    } else {
        match inv.target {
            Some(t) => r matches Ok(Action::Jump { target, runCursor, create }) && target == t
                && runCursor == inv.cursor && create == !inv.noCreate,
            None => r matches Ok(Action::Help),
        }
    }
}

fn PrimaryAction(inv: &Invocation) -> (r: Result<Action, UsageError>)
    ensures
        primary_result(*inv, r),
{
    if let Some(values) = &inv.add {
        return match ParseAddArgs(values) {
            Ok(kp) => Ok(Action::Add { keyword: kp.0, path: kp.1, expire: inv.expire }),
            Err(_) => Err(UsageError::AddUsage),
        };
    }
    if let Some(pattern) = &inv.bulkAdd {
        return Ok(Action::AddBulk { pattern: pattern.clone() });
    }
    if let Some(values) = &inv.copy {
        if values.len() < 2 {
            return Err(UsageError::CopyUsage);
        }
        return Ok(Action::Copy { existing: values[0].clone(), newValue: values[1].clone() });
    }
    if inv.showSortMode {
        return Ok(Action::ShowSort);
    }
    if let Some(keyword) = &inv.remove {
        return Ok(Action::Remove { keyword: keyword.clone() });
    }
    if let Some(query) = &inv.list {
        return BuildListAction(inv, query);
    }
    if inv.printPath {
        return match &inv.target {
            Some(t) => Ok(Action::PrintPath { target: t.clone() }),
            None => Err(UsageError::PrintPathUsage),
        };
    }
    match &inv.target {
        Some(t) => Ok(
            Action::Jump { target: t.clone(), runCursor: inv.cursor, create: !inv.noCreate },
        ),
        None => Ok(Action::Help),
    }
}

/// The action that the flags ask for. Installing the wrapper and completing
/// come first; then the usage rules are checked; then the primary action.
pub fn DetermineAction(inv: &Invocation) -> (r: Result<Action, UsageError>)
    ensures
        inv.installWrapper ==> (r matches Ok(Action::InstallWrapper { rcPath, force }) && rcPath
            == inv.installWrapperRc && force == inv.installWrapperForce),
        !inv.installWrapper && inv.completeMode is Some ==> (r matches Ok(
            Action::Complete { mode, input },
        ) && mode == inv.completeMode->0 && input@ == match inv.completeInput {
            Some(s) => s@,
            None => Seq::<char>::empty(),
        }),
        !inv.installWrapper && inv.completeMode is None ==> match inv.broken_rule() {
            Some(e) => r == Err::<Action, UsageError>(e),
            None => primary_result(*inv, r),
        },
{
    if inv.installWrapper {
        return Ok(
            Action::InstallWrapper {
                rcPath: inv.installWrapperRc.clone(),
                force: inv.installWrapperForce,
            },
        );
    }
    if let Some(mode) = &inv.completeMode {
        let input = match &inv.completeInput {
            Some(s) => s.clone(),
            None => String::new(),
        };
        return Ok(Action::Complete { mode: mode.clone(), input });
    }
    let listFlagsUsed = inv.listKeywordOnly || inv.listPathOnly || inv.listRequireBoth
        || inv.listGlob || inv.listRegex || inv.listJson || inv.listLimit.is_some();
    if listFlagsUsed && inv.list.is_none() {
        return Err(UsageError::ListFlagWithoutList);
    }
    let actions = count_if(inv.list.is_some()) + count_if(inv.add.is_some()) + count_if(
        inv.showSortMode,
    ) + count_if(inv.bulkAdd.is_some()) + count_if(inv.copy.is_some()) + count_if(
        inv.remove.is_some(),
    ) + count_if(inv.printPath);
    if actions > 1 {
        return Err(UsageError::SeveralActions);
    }
    if inv.expire.is_some() && inv.add.is_none() {
        return Err(UsageError::ExpireWithoutAdd);
    }
    if inv.addForce && inv.add.is_none() && inv.copy.is_none() && inv.bulkAdd.is_none() {
        return Err(UsageError::ForceWithoutAdd);
    }
    if inv.cursor && inv.code {
        return Err(UsageError::CursorAndCode);
    }
    PrimaryAction(inv)
}

/// `i` is the first position of `c` in `s`.
pub open spec fn first_of(s: Seq<char>, c: char, i: int) -> bool {
    0 <= i < s.len() && s[i] == c && forall|j: int| 0 <= j < i ==> #[trigger] s[j] != c
}

/// `i` is the last position of `c` in `s`.
pub open spec fn last_of(s: Seq<char>, c: char, i: int) -> bool {
    0 <= i < s.len() && s[i] == c && forall|j: int| i < j < s.len() ==> #[trigger] s[j] != c
}

fn find_char(s: &Vec<char>, c: char) -> (r: Option<usize>)
    ensures
        match r {
            Some(i) => first_of(s@, c, i as int),
            None => forall|j: int| 0 <= j < s.len() ==> #[trigger] s@[j] != c,
        },
{
    let mut i: usize = 0;
    while i < s.len()
        invariant
            i <= s.len(),
            forall|j: int| 0 <= j < i ==> #[trigger] s@[j] != c,
        decreases s.len() - i,
    {
        if s[i] == c {
            return Some(i);
        }
        i = i + 1;
    }
    None
}

fn rfind_char(s: &Vec<char>, c: char) -> (r: Option<usize>)
    ensures
        match r {
            Some(i) => last_of(s@, c, i as int),
            None => forall|j: int| 0 <= j < s.len() ==> #[trigger] s@[j] != c,
        },
{
    let mut i: usize = s.len();
    while i > 0
        invariant
            i <= s.len(),
            forall|j: int| i <= j < s.len() ==> #[trigger] s@[j] != c,
        decreases i,
    {
        if s[i - 1] == c {
            return Some(i - 1);
        }
        i = i - 1;
    }
    None
}

/// A completion target cut up: the keyword before the first `/`, the
/// directories between it and the last `/` (if there is a further one), and
/// the partial name after that.
#[derive(Clone, Debug)]
pub struct TargetParts {
    pub keyword: String,
    pub parent: Option<String>,
    pub prefix: String,
}

/// Cuts a completion target at its first `/`, and what follows at its last
/// `/`; `None` when it holds no `/`.
pub fn SplitCompletionTarget(input: &str) -> (r: Option<TargetParts>)
    ensures
        (forall|j: int| 0 <= j < input@.len() ==> #[trigger] input@[j] != '/') <==> r is None,
        r matches Some(t) ==> exists|i: int| {
            let rest = input@.subrange(i + 1, input@.len() as int);
            &&& #[trigger] first_of(input@, '/', i)
            &&& t.keyword@ == input@.subrange(0, i)
            &&& match t.parent {
                None => t.prefix@ == rest && forall|j: int| 0 <= j < rest.len() ==> #[trigger] rest[j] != '/',
                Some(p) => exists|k: int| #[trigger] last_of(rest, '/', k) && p@ == rest.subrange(0, k)
                    && t.prefix@ == rest.subrange(k + 1, rest.len() as int),
            }
        },
{
    let t = chars_of(input);
    match find_char(&t, '/') {
        None => None,
        Some(i) => {
            assert(first_of(t@, '/', i as int));
            assert(i < t.len());
            let rest = sub_chars(&t, i + 1, t.len());
            let keyword = string_from(&sub_chars(&t, 0, i));
            match rfind_char(&rest, '/') {
                None => {
                    let r = TargetParts { keyword, parent: None, prefix: string_from(&rest) };
                    assert(first_of(input@, '/', i as int));
                    Some(r)
                },
                Some(k) => {
                    let r = TargetParts {
                        keyword,
                        parent: Some(string_from(&sub_chars(&rest, 0, k))),
                        prefix: string_from(&sub_chars(&rest, k + 1, rest.len())),
                    };
                    assert(last_of(rest@, '/', k as int));
                    assert(first_of(input@, '/', i as int));
                    Some(r)
                },
            }
        },
    }
}

/// The completion offered for entry `name` found under a target: keyword,
/// `/`, the parent directories and `/` when there are any, the name, and a
/// final `/` for a directory.
pub fn CompletionSuggestion(parts: &TargetParts, name: &str, isDir: bool) -> (r: String)
    ensures
        r@ == parts.keyword@ + seq!['/'] + match parts.parent {
            Some(p) => if p@.len() > 0 {
                p@ + seq!['/']
            } else {
                Seq::<char>::empty()
            },
            None => Seq::<char>::empty(),
        } + name@ + if isDir {
            seq!['/']
        } else {
            Seq::<char>::empty()
        },
{
    let mut out = chars_of(parts.keyword.as_str());
    out.push('/');
    let ghost a = out@;
    match &parts.parent {
        Some(p) => {
            let pc = chars_of(p.as_str());
            if pc.len() > 0 {
                append_chars(&mut out, &pc);
                out.push('/');
            } else {
                assert(out@ == a + Seq::<char>::empty());
            }
        },
        None => {
            assert(out@ == a + Seq::<char>::empty());
        },
    }
    let ghost b = out@;
    append_chars(&mut out, &chars_of(name));
    if isDir {
        out.push('/');
    } else {
        assert(out@ == b + name@ + Seq::<char>::empty());
    }
    string_from(&out)
}

pub open spec fn ends_with(s: Seq<char>, t: Seq<char>) -> bool {
    t.len() <= s.len() && s.subrange(s.len() - t.len(), s.len() as int) == t
}

fn ends_with_chars(s: &Vec<char>, t: &Vec<char>) -> (r: bool)
    ensures
        r == ends_with(s@, t@),
{
    if t.len() > s.len() {
        return false;
    }
    let off = s.len() - t.len();
    let mut i: usize = 0;
    while i < t.len()
        invariant
            off + t.len() == s.len(),
            i <= t.len(),
            forall|j: int| 0 <= j < i ==> s@[off + j] == t@[j],
        decreases t.len() - i,
    {
        if s[off + i] != t[i] {
            assert(s@.subrange(off as int, s.len() as int)[i as int] != t@[i as int]);
            return false;
        }
        i = i + 1;
    }
    assert(s@.subrange(off as int, s.len() as int) =~= t@);
    true
}

pub open spec fn zsh_rc() -> Seq<char> {
    seq!['/', '.', 'z', 's', 'h', 'r', 'c']
}

pub open spec fn bash_rc() -> Seq<char> {
    seq!['/', '.', 'b', 'a', 's', 'h', 'r', 'c']
}

pub open spec fn profile_rc() -> Seq<char> {
    seq!['/', '.', 'p', 'r', 'o', 'f', 'i', 'l', 'e']
}

/// The start-up file of the user's shell: `.zshrc` under `ZDOTDIR` (or the
/// home directory) for zsh, `.bashrc` for bash, else `.profile`; the home
/// directory is `.` when unknown.
pub fn ShellRcPath(home: Option<String>, shell: &str, zdotdir: Option<String>) -> (r: String)
    ensures
        ({
            let h = match home {
                Some(x) => x@,
                None => seq!['.'],
            };
            r@ == if ends_with(shell@, seq!['z', 's', 'h']) {
                (match zdotdir {
                    Some(z) => z@,
                    None => h,
                }) + zsh_rc()
            } else if ends_with(shell@, seq!['b', 'a', 's', 'h']) {
                h + bash_rc()
            } else {
                h + profile_rc()
            }
        }),
{
    let h: Vec<char> = match &home {
        Some(x) => chars_of(x.as_str()),
        None => vec!['.'],
    };
    let sh = chars_of(shell);
    if ends_with_chars(&sh, &vec!['z', 's', 'h']) {
        let mut out = match &zdotdir {
            Some(z) => chars_of(z.as_str()),
            None => h,
        };
        append_chars(&mut out, &vec!['/', '.', 'z', 's', 'h', 'r', 'c']);
        return string_from(&out);
    }
    let mut out = h;
    if ends_with_chars(&sh, &vec!['b', 'a', 's', 'h']) {
        append_chars(&mut out, &vec!['/', '.', 'b', 'a', 's', 'h', 'r', 'c']);
    } else {
        append_chars(&mut out, &vec!['/', '.', 'p', 'r', 'o', 'f', 'i', 'l', 'e']);
    }
    string_from(&out)
}

/// Whether an answer to a yes/no prompt accepts: trimmed and lowercased, it
/// is `y` or `yes`.
pub fn IsConfirmation(answer: &str) -> (r: bool)
    ensures
        r == (lower_of(trim(answer@)) == seq!['y'] || lower_of(trim(answer@)) == seq!['y', 'e', 's']),
{
    let a = chars_of(answer);
    let t = string_from(&trimmed(&a, 0, a.len()));
    assert(a@.subrange(0, a.len() as int) == a@);
    let lowered = chars_of(lowercase(t.as_str()).as_str());
    let short = vec!['y'];
    let long = vec!['y', 'e', 's'];
    assert(short@ =~= seq!['y']);
    assert(long@ =~= seq!['y', 'e', 's']);
    chars_equal(&lowered, &short) || chars_equal(&lowered, &long)
}

} // verus!
