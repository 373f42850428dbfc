//! The shortcut store: entries in insertion order, expiry and recency
//! stamps, and every operation on them.
use vstd::prelude::*;
use crate::error::StoreError;
use crate::keyed::{
    lemma_key_index_in, apply_stamp, find_entry, has_key, key_index, key_map, keys_unique, lemma_key_at,
    lemma_push_map, lemma_remove_map, lemma_update_map, remove_stamp, same_text, set_stamp,
    stamp_for, with_stamp,
};
use crate::paths::{ConfigPaths, DeriveKeywordFromPath, base_name};
use crate::records::{
    entry_records, mode_named, parse_entries, parse_preference, parse_stamps, preference_of,
    render_entries, render_entries_text, render_preference, render_preference_text,
    render_stamps, render_stamps_text, sort_mode_named, stamp_records,
};
use crate::text::{append_chars, chars_of, join_path, string_from, sub_chars};

pub use crate::matching::SearchMode;
pub use crate::search::{SearchOptions, SearchResult};

verus! {

/// How keywords are ordered when listed.
#[derive(Clone, Copy, Debug, PartialEq, Eq, Structural)]
pub enum SortMode {
    Added,
    Alpha,
    Recent,
}

/// One saved shortcut: a keyword and the canonical path it names.
#[derive(Clone, Debug)]
pub struct ShortcutEntry {
    pub keyword: String,
    pub path: String,
}

/// One record of the expiry or recency map: a keyword and an instant in
/// seconds since the epoch.
#[derive(Clone, Debug)]
pub struct Stamp {
    pub keyword: String,
    pub value: u64,
}

impl View for ShortcutEntry {
    type V = (Seq<char>, Seq<char>);

    open spec fn view(&self) -> (Seq<char>, Seq<char>) {
        (self.keyword@, self.path@)
    }
}

impl View for Stamp {
    type V = (Seq<char>, u64);

    open spec fn view(&self) -> (Seq<char>, u64) {
        (self.keyword@, self.value)
    }
}

pub open spec fn entries_view(v: Seq<ShortcutEntry>) -> Seq<(Seq<char>, Seq<char>)> {
    v.map_values(|e: ShortcutEntry| e@)
}

pub open spec fn stamps_view(v: Seq<Stamp>) -> Seq<(Seq<char>, u64)> {
    v.map_values(|s: Stamp| s@)
}

pub open spec fn strings_view(v: Seq<String>) -> Seq<Seq<char>> {
    v.map_values(|s: String| s@)
}

/// How an add treats a conflict.
#[derive(Clone, Copy, Debug)]
pub struct AddBehavior {
    /// Replace a keyword's path, and add a path saved under other keywords,
    /// without asking.
    pub force: bool,
    /// Add a path saved under other keywords without asking.
    pub assumeYes: bool,
}

/// What the file system said of a target directory: whether it exists, is a
/// directory, and its canonical form if it has one.
#[derive(Clone, Debug)]
pub struct PathProbe {
    pub exists: bool,
    pub isDir: bool,
    pub canonical: Option<String>,
}

impl PathProbe {
    /// The target exists, is a directory and has a canonical form.
    pub open spec fn usable(&self) -> bool {
        self.exists && self.isDir && self.canonical is Some
    }

    pub open spec fn canonical_view(&self) -> Seq<char> {
        self.canonical->0@
    }
}

/// What a successful add did.
#[derive(Clone, Debug)]
pub enum AddOutcome {
    /// A new entry was appended.
    Added { path: String, expiry: Option<u64>, duplicateKeywords: Vec<String> },
    /// The keyword already named this path; only its expiry may have changed.
    AlreadyPresent { path: String, expiry: Option<u64>, expiryChanged: bool },
    /// The keyword's path was overwritten in place.
    Replaced { previousPath: String, newPath: String, expiry: Option<u64> },
}

/// The keywords other than `k` whose entries hold path `p`, in entry order.
pub open spec fn others_at(s: Seq<(Seq<char>, Seq<char>)>, p: Seq<char>, k: Seq<char>) -> Seq<
    Seq<char>,
>
    decreases s.len(),
{
    if s.len() == 0 {
        seq![]
    } else {
        let prev = others_at(s.drop_last(), p, k);
        if s.last().1 == p && s.last().0 != k {
            prev.push(s.last().0)
        } else {
            prev
        }
    }
}

/// What an add does to the store `old`, leaving `new` and returning `r`:
/// see `Store::AddShortcut`.
pub open spec fn add_effect(
    old: Store,
    new: Store,
    keyword: Seq<char>,
    target: PathProbe,
    expire: Option<u64>,
    behavior: AddBehavior,
    confirmed: bool,
    r: Result<AddOutcome, StoreError>,
) -> bool {
    &&& new.wf()
    &&& new.paths == old.paths
    &&& new.sortMode == old.sortMode
    &&& new.recents == old.recents
    &&& r is Err ==> new == old
    &&& !target.usable() ==> (r is Err && r->Err_0 is InvalidPath)
    &&& target.usable() ==> ({
        let p = target.canonical_view();
        let k = keyword;
        let s = old.entry_seq();
        let dups = others_at(s, p, k);
        if old.path_map().contains_key(k) {
            if old.path_map()[k] == p {
                &&& r matches Ok(AddOutcome::AlreadyPresent { path, expiry, expiryChanged })
                &&& path@ == p
                &&& expiry == expire
                &&& expiryChanged == (old.expiry_map().get(k) != expire)
                &&& new.entries == old.entries
                &&& new.expiry_map() == with_stamp(old.expiry_map(), k, expire)
            } else if !behavior.force {
                &&& r matches Err(StoreError::AlreadyExists { keyword: kw, existing, requested })
                &&& kw@ == k
                &&& existing@ == old.path_map()[k]
                &&& requested@ == p
            } else {
                &&& r matches Ok(AddOutcome::Replaced { previousPath, newPath, expiry })
                &&& previousPath@ == old.path_map()[k]
                &&& newPath@ == p
                &&& expiry == expire
                &&& new.entry_seq() == s.update(old.index()[k], (k, p))
                &&& new.expiry_map() == with_stamp(old.expiry_map(), k, expire)
            }
        } else if dups.len() > 0 && !behavior.force && !behavior.assumeYes && !confirmed {
            &&& r matches Err(StoreError::AbortedByUser { keyword: kw, path, duplicates })
            &&& kw@ == k
            &&& path@ == p
            &&& strings_view(duplicates@) == dups
        } else {
            &&& r matches Ok(AddOutcome::Added { path, expiry, duplicateKeywords })
            &&& path@ == p
            &&& expiry == expire
            &&& strings_view(duplicateKeywords@) == dups
            &&& new.entry_seq() == s.push((k, p))
            &&& new.expiry_map() == with_stamp(old.expiry_map(), k, expire)
        }
    })
}

/// The in-memory store: entries in insertion order, expiry and recency
/// stamps keyed by keyword, the sort mode, and where the files live.
pub struct Store {
    pub entries: Vec<ShortcutEntry>,
    pub expiries: Vec<Stamp>,
    pub recents: Vec<Stamp>,
    pub paths: ConfigPaths,
    pub sortMode: SortMode,
}

impl Store {
    /// The entries as (keyword, path) pairs, in insertion order.
    pub open spec fn entry_seq(&self) -> Seq<(Seq<char>, Seq<char>)> {
        entries_view(self.entries@)
    }

    /// Each keyword and its position among the entries.
    pub open spec fn index(&self) -> Map<Seq<char>, int> {
        key_index(self.entry_seq())
    }

    /// Each keyword and its path.
    pub open spec fn path_map(&self) -> Map<Seq<char>, Seq<char>> {
        key_map(self.entry_seq())
    }

    pub open spec fn expiry_map(&self) -> Map<Seq<char>, u64> {
        key_map(stamps_view(self.expiries@))
    }

    pub open spec fn recency_map(&self) -> Map<Seq<char>, u64> {
        key_map(stamps_view(self.recents@))
    }

    /// Keywords are unique among the entries and among each map's records,
    /// and every expiry record belongs to an entry.
    pub open spec fn wf(&self) -> bool {
        &&& keys_unique(self.entry_seq())
        &&& keys_unique(stamps_view(self.expiries@))
        &&& keys_unique(stamps_view(self.recents@))
        &&& forall|k: Seq<char>| #[trigger] self.expiry_map().contains_key(k) ==> self.path_map().contains_key(k)
    }

    /// The keywords of the entries, in insertion order.
    pub open spec fn keyword_seq(&self) -> Seq<Seq<char>> {
        self.entry_seq().map_values(|e: (Seq<char>, Seq<char>)| e.0)
    }

    /// The expiry instant recorded for `keyword`.
    pub fn ExpiryFor(&self, keyword: &str) -> (r: Option<u64>)
        requires
            self.wf(),
        ensures
            r == self.expiry_map().get(keyword@),
    {
        stamp_for(&self.expiries, keyword)
    }

    fn duplicate_keywords(&self, keyword: &str, path: &String) -> (r: Vec<String>)
        ensures
            strings_view(r@) == others_at(self.entry_seq(), path@, keyword@),
    {
        let mut out: Vec<String> = Vec::new();
        let mut i: usize = 0;
        while i < self.entries.len()
            invariant
                i <= self.entries.len(),
                strings_view(out@) == others_at(
                    self.entry_seq().subrange(0, i as int),
                    path@,
                    keyword@,
                ),
            decreases self.entries.len() - i,
        {
            let e = &self.entries[i];
            proof {
                let s = self.entry_seq().subrange(0, i + 1);
                assert(s.drop_last() == self.entry_seq().subrange(0, i as int));
                assert(s.last() == e@);
            }
            if same_text(e.path.as_str(), path.as_str()) && !same_text(e.keyword.as_str(), keyword) {
                let kw = e.keyword.clone();
                assert(strings_view(out@.push(kw)) == strings_view(out@).push(kw@));
                out.push(kw);
            }
            i = i + 1;
        }
        assert(self.entry_seq().subrange(0, self.entries.len() as int) == self.entry_seq());
        out
    }

    /// Saves `keyword` for the directory that `target` describes.
    ///
    /// The target must exist, be a directory and have a canonical form, else
    /// `InvalidPath`. If the keyword already names that canonical path, only
    /// its expiry is set (or cleared). If it names another path, the path is
    /// overwritten in place under `force`, else `AlreadyExists`. A new keyword
    /// whose path other keywords already hold is added only under `force`,
    /// `assumeYes`, or `confirmed` (the user said yes), else `AbortedByUser`.
    /// A failed add changes nothing.
    pub fn AddShortcut(
        &mut self,
        keyword: &str,
        target: &PathProbe,
        expire: Option<u64>,
        behavior: &AddBehavior,
        confirmed: bool,
    ) -> (r: Result<AddOutcome, StoreError>)
        requires
            old(self).wf(),
        ensures
            add_effect(*old(self), *final(self), keyword@, *target, expire, *behavior, confirmed, r),
    {
        if !target.exists || !target.isDir {
            return Err(StoreError::InvalidPath(String::from_str(keyword)));
        }
        let absPath: String = match &target.canonical {
            Some(c) => c.clone(),
            None => {
                return Err(StoreError::InvalidPath(String::from_str(keyword)));
            },
        };
        let ghost s = self.entry_seq();
        let duplicateKeywords = self.duplicate_keywords(keyword, &absPath);
        match find_entry(&self.entries, keyword) {
            Some(position) => {
                proof {
                    lemma_key_at(s, position as int);
                }
                let existingPath = self.entries[position].path.clone();
                if same_text(existingPath.as_str(), absPath.as_str()) {
                    let previous = stamp_for(&self.expiries, keyword);
                    apply_stamp(&mut self.expiries, keyword, expire);
                    let expiryChanged = match (previous, expire) {
                        (Some(a), Some(b)) => a != b,
                        (None, None) => false,
                        _ => true,
                    };
                    return Ok(AddOutcome::AlreadyPresent { path: existingPath, expiry: expire, expiryChanged });
                }
                if !behavior.force {
                    return Err(
                        StoreError::AlreadyExists {
                            keyword: String::from_str(keyword),
                            existing: existingPath,
                            requested: absPath,
                        },
                    );
                }
                let kw = self.entries[position].keyword.clone();
                self.entries.set(position, ShortcutEntry { keyword: kw, path: absPath.clone() });
                proof {
                    assert(self.entry_seq() =~= s.update(position as int, (s[position as int].0, absPath@)));
                    lemma_update_map(s, position as int, absPath@);
                }
                apply_stamp(&mut self.expiries, keyword, expire);
                Ok(AddOutcome::Replaced { previousPath: existingPath, newPath: absPath, expiry: expire })
            },
            None => {
                if duplicateKeywords.len() > 0 && !behavior.force && !behavior.assumeYes && !confirmed {
                    return Err(
                        StoreError::AbortedByUser {
                            keyword: String::from_str(keyword),
                            path: absPath,
                            duplicates: duplicateKeywords,
                        },
                    );
                }
                let e = ShortcutEntry { keyword: String::from_str(keyword), path: absPath.clone() };
                self.entries.push(e);
                proof {
                    assert(self.entry_seq() =~= s.push(e@));
                    lemma_push_map(s, e@);
                }
                apply_stamp(&mut self.expiries, keyword, expire);
                Ok(AddOutcome::Added { path: absPath, expiry: expire, duplicateKeywords })
            },
        }
    }
}

/// Where a jump leads: the keyword that matched, its saved path, and that
/// path with the rest of the input appended.
#[derive(Clone, Debug)]
pub struct ResolvedJump {
    pub keyword: String,
    pub basePath: String,
    pub targetPath: String,
}

/// `p` ends a slash-delimited prefix of `s`: the end of `s`, or a `/`.
pub open spec fn is_cut(s: Seq<char>, p: int) -> bool {
    p == s.len() || (0 <= p < s.len() && s[p] == '/')
}

/// `s` without its leading slashes.
pub open spec fn trim_slashes(s: Seq<char>) -> Seq<char>
    decreases s.len(),
{
    if s.len() > 0 && s[0] == '/' {
        trim_slashes(s.drop_first())
    } else {
        s
    }
}

proof fn lemma_trim_slashes_skip(s: Seq<char>, k: int)
    requires
        0 <= k <= s.len(),
        forall|j: int| 0 <= j < k ==> #[trigger] s[j] == '/',
    ensures
        trim_slashes(s) == trim_slashes(s.subrange(k, s.len() as int)),
    decreases k,
{
    if k > 0 {
        lemma_trim_slashes_skip(s.drop_first(), k - 1);
        assert(s.drop_first().subrange(k - 1, s.drop_first().len() as int) == s.subrange(
            k,
            s.len() as int,
        ));
    } else {
        assert(s.subrange(0, s.len() as int) == s);
    }
}

/// What resolving `input` against `s` returns: see `Store::ResolveJump`.
pub open spec fn jump_result(s: Store, input: Seq<char>, r: Result<ResolvedJump, StoreError>) -> bool {
    &&& (exists|p: int| #[trigger] s.registered_cut(input, p)) <==> r is Ok
    &&& r matches Err(e) ==> e is NotFound
    &&& r matches Ok(j) ==> {
        let p = j.keyword@.len() as int;
        &&& p <= input.len()
        &&& j.keyword@ == input.subrange(0, p)
        &&& s.registered_cut(input, p)
        &&& forall|q: int| p < q <= input.len() ==> !#[trigger] s.registered_cut(input, q)
        &&& j.basePath@ == s.path_map()[j.keyword@]
        &&& j.targetPath@ == join_path(j.basePath@, trim_slashes(input.subrange(p, input.len() as int)))
    }
}

/// The sort mode that `raw` names: `added`, `alpha` or `recent`.
pub fn ParseSortMode(raw: &str) -> (r: Result<SortMode, StoreError>)
    ensures
        match sort_mode_named(raw@) {
            Some(m) => r == Ok::<SortMode, StoreError>(m),
            None => r matches Err(StoreError::InvalidSortMode(s)) && s@ == raw@,
        },
{
    match mode_named(&chars_of(raw)) {
        Some(m) => Ok(m),
        None => Err(StoreError::InvalidSortMode(String::from_str(raw))),
    }
}

impl Store {
    /// A registered keyword ends at cut `p` of `s`.
    pub open spec fn registered_cut(&self, s: Seq<char>, p: int) -> bool {
        is_cut(s, p) && self.path_map().contains_key(s.subrange(0, p))
    }

    /// Sets the sort mode to the one `mode` names, else `InvalidSortMode` and
    /// no change.
    pub fn SetSortMode(&mut self, mode: &str) -> (r: Result<(), StoreError>)
        ensures
            final(self).entries == old(self).entries,
            final(self).expiries == old(self).expiries,
            final(self).recents == old(self).recents,
            final(self).paths == old(self).paths,
            match sort_mode_named(mode@) {
                Some(m) => r is Ok && final(self).sortMode == m,
                None => r matches Err(StoreError::InvalidSortMode(_)) && final(self).sortMode
                    == old(self).sortMode,
            },
    {
        let parsed = ParseSortMode(mode)?;
        self.sortMode = parsed;
        Ok(())
    }

    /// The entry saved under `keyword`, else `NotFound`.
    pub fn FetchEntry(&self, keyword: &str) -> (r: Result<ShortcutEntry, StoreError>)
        requires
            self.wf(),
        ensures
            self.path_map().contains_key(keyword@) <==> r is Ok,
            r matches Ok(e) ==> e.keyword@ == keyword@ && e.path@ == self.path_map()[keyword@],
            r matches Err(e) ==> e is NotFound,
    {
        match find_entry(&self.entries, keyword) {
            Some(i) => {
                proof {
                    lemma_key_at(self.entry_seq(), i as int);
                }
                Ok(
                    ShortcutEntry {
                        keyword: self.entries[i].keyword.clone(),
                        path: self.entries[i].path.clone(),
                    },
                )
            },
            None => Err(StoreError::NotFound(String::from_str(keyword))),
        }
    }

    /// Removes the entry for `keyword` together with its expiry and recency
    /// stamps, else `NotFound` and no change.
    pub fn RemoveShortcut(&mut self, keyword: &str) -> (r: Result<(), StoreError>)
        requires
            old(self).wf(),
        ensures
            remove_effect(*old(self), *final(self), keyword@, r),
    {
        let ghost s = self.entry_seq();
        let position = match find_entry(&self.entries, keyword) {
            Some(i) => i,
            None => {
                return Err(StoreError::NotFound(String::from_str(keyword)));
            },
        };
        proof {
            lemma_key_at(s, position as int);
            lemma_remove_map(s, position as int);
        }
        self.entries.remove(position);
        assert(self.entry_seq() =~= s.remove(position as int));
        remove_stamp(&mut self.expiries, keyword);
        remove_stamp(&mut self.recents, keyword);
        assert forall|k: Seq<char>| #[trigger] self.expiry_map().contains_key(k) implies self.path_map().contains_key(k) by {
            assert(old(self).expiry_map().contains_key(k));
        }
        Ok(())
    }

    /// Records a jump through `keyword` at instant `now`.
    pub fn UpdateRecentUsage(&mut self, keyword: &str, now: u64)
        requires
            old(self).wf(),
        ensures
            final(self).wf(),
            final(self).entries == old(self).entries,
            final(self).expiries == old(self).expiries,
            final(self).paths == old(self).paths,
            final(self).sortMode == old(self).sortMode,
            final(self).recency_map() == old(self).recency_map().insert(keyword@, now),
    {
        let ghost before = *self;
        set_stamp(&mut self.recents, keyword, now);
        assert(self.expiry_map() == before.expiry_map());
        assert(self.path_map() == before.path_map());
    }

    /// The text of the recency file for the current stamps.
    pub fn SaveRecents(&self) -> (r: String)
        ensures
            r@ == render_stamps(stamps_view(self.recents@)),
    {
        render_stamps_text(&self.recents)
    }

    /// The text of the expiry file for the current stamps.
    pub fn SaveExpiries(&self) -> (r: String)
        ensures
            r@ == render_stamps(stamps_view(self.expiries@)),
    {
        render_stamps_text(&self.expiries)
    }

    /// The text of the entries file: one `keyword=path` line per entry, in
    /// insertion order.
    pub fn SaveEntries(&self) -> (r: String)
        ensures
            r@ == render_entries(self.entry_seq()),
    {
        render_entries_text(&self.entries)
    }

    /// The preference file `existing` rewritten for the current sort mode.
    pub fn SavePreference(&self, existing: &str) -> (r: String)
        ensures
            r@ == render_preference(existing@, self.sortMode),
    {
        render_preference_text(existing, self.sortMode)
    }

    /// Resolves a jump target: the longest slash-delimited prefix of `input`
    /// that is a registered keyword wins, and what follows it, without its
    /// leading slashes, is appended to that keyword's path. `NotFound` when
    /// no prefix is registered.
    pub fn ResolveJump(&self, input: &str) -> (r: Result<ResolvedJump, StoreError>)
        requires
            self.wf(),
        ensures
            jump_result(*self, input@, r),
    {
        let t = chars_of(input);
        let n = t.len();
        let mut q: usize = n;
        loop
            invariant
                self.wf(),
                t@ == input@,
                n == t.len(),
                q <= n,
                forall|x: int| q < x <= n ==> !#[trigger] self.registered_cut(input@, x),
            decreases q,
        {
            if q == n || t[q] == '/' {
                let prefix = string_from(&sub_chars(&t, 0, q));
                match find_entry(&self.entries, prefix.as_str()) {
                    Some(i) => {
                        proof {
                            lemma_key_at(self.entry_seq(), i as int);
                            assert(self.entry_seq()[i as int].0 == input@.subrange(0, q as int));
                            assert(self.registered_cut(input@, q as int));
                        }
                        let mut a = q;
                        while a < n && t[a] == '/'
                            invariant
                                q <= a <= n,
                                n == t.len(),
                                forall|j: int| q <= j < a ==> #[trigger] t@[j] == '/',
                            decreases n - a,
                        {
                            a = a + 1;
                        }
                        let ghost rest = t@.subrange(q as int, n as int);
                        proof {
                            assert forall|j: int| 0 <= j < a - q implies #[trigger] rest[j] == '/' by {
                                assert(rest[j] == t@[q + j]);
                            }
                            lemma_trim_slashes_skip(rest, a - q);
                            assert(rest.subrange(a - q, rest.len() as int) == t@.subrange(a as int, n as int));
                            let u = t@.subrange(a as int, n as int);
                            if u.len() > 0 {
                                assert(u[0] == t@[a as int]);
                            }
                        }
                        let base = self.entries[i].path.clone();
                        let baseChars = chars_of(base.as_str());
                        let mut target = chars_of(base.as_str());
                        if a < n {
                            if baseChars.len() > 0 && baseChars[baseChars.len() - 1] != '/' {
                                target.push('/');
                            }
                            append_chars(&mut target, &sub_chars(&t, a, n));
                        }
                        let j = ResolvedJump {
                            keyword: self.entries[i].keyword.clone(),
                            basePath: base,
                            targetPath: string_from(&target),
                        };
                        proof {
                            assert(j.keyword@.len() == q);
                            assert(j.keyword@ == input@.subrange(0, q as int));
                            assert(j.targetPath@ == join_path(
                                j.basePath@,
                                trim_slashes(input@.subrange(q as int, input@.len() as int)),
                            ));
                            assert(self.registered_cut(input@, q as int));
                        }
                        return Ok(j);
                    },
                    None => {
                        assert(!self.path_map().contains_key(input@.subrange(0, q as int)));
                    },
                }
            }
            if q == 0 {
                assert forall|p: int| !#[trigger] self.registered_cut(input@, p) by {
                    if 0 <= p <= n && p != 0 {
                    }
                }
                return Err(StoreError::NotFound(String::from_str(input)));
            }
            q = q - 1;
        }
    }
}

/// The map that a run of stamp records builds: a later record for a keyword
/// replaces an earlier one.
pub open spec fn records_map(recs: Seq<(Seq<char>, u64)>) -> Map<Seq<char>, u64>
    decreases recs.len(),
{
    if recs.len() == 0 {
        Map::empty()
    } else {
        records_map(recs.drop_last()).insert(recs.last().0, recs.last().1)
    }
}

/// `k` has an expiry instant and it is not after `now`.
pub open spec fn expired(exp: Map<Seq<char>, u64>, k: Seq<char>, now: u64) -> bool {
    exp.contains_key(k) && exp[k] <= now
}

/// The entries that survive loading: records of expired keywords dropped; a
/// later record for a keyword replaces the path of the earlier one in place.
pub open spec fn live_entries(
    raw: Seq<(Seq<char>, Seq<char>)>,
    exp: Map<Seq<char>, u64>,
    now: u64,
) -> Seq<(Seq<char>, Seq<char>)>
    decreases raw.len(),
{
    if raw.len() == 0 {
        seq![]
    } else {
        let prev = live_entries(raw.drop_last(), exp, now);
        let e = raw.last();
        if expired(exp, e.0, now) {
            prev
        } else if has_key(prev, e.0) {
            prev.update(key_index(prev)[e.0], e)
        } else {
            prev.push(e)
        }
    }
}

/// The expiry records that survive loading: those of the surviving entries.
/// The records of entries that expired, and of keywords that have no entry,
/// are gone.
pub open spec fn surviving_expiries(
    raw: Seq<(Seq<char>, Seq<char>)>,
    exp: Map<Seq<char>, u64>,
    now: u64,
) -> Map<Seq<char>, u64> {
    Map::new(
        |k: Seq<char>| exp.contains_key(k) && has_key(live_entries(raw, exp, now), k),
        |k: Seq<char>| exp[k],
    )
}

/// No entry whose expiry instant is not after `now` survives loading.
pub proof fn lemma_live_not_expired(
    raw: Seq<(Seq<char>, Seq<char>)>,
    exp: Map<Seq<char>, u64>,
    now: u64,
    k: Seq<char>,
)
    requires
        expired(exp, k, now),
    ensures
        !has_key(live_entries(raw, exp, now), k),
    decreases raw.len(),
{
    if raw.len() > 0 {
        let prev = live_entries(raw.drop_last(), exp, now);
        lemma_live_not_expired(raw.drop_last(), exp, now, k);
        let e = raw.last();
        let cur = live_entries(raw, exp, now);
        if !expired(exp, e.0, now) {
            if has_key(cur, k) {
                let i = choose|i: int| 0 <= i < cur.len() && #[trigger] cur[i].0 == k;
                if has_key(prev, e.0) {
                    let at = key_index(prev)[e.0];
                    lemma_key_index_in(prev, e.0);
                    if i == at {
                        assert(cur[i] == e);
                    } else {
                        assert(cur[i] == prev[i]);
                    }
                } else {
                    if i < prev.len() {
                        assert(cur[i] == prev[i]);
                    }
                }
            }
        }
    }
}

/// Whether loading drops any entry.
pub open spec fn any_expired(
    raw: Seq<(Seq<char>, Seq<char>)>,
    exp: Map<Seq<char>, u64>,
    now: u64,
) -> bool {
    exists|i: int| 0 <= i < raw.len() && expired(exp, #[trigger] raw[i].0, now)
}

/// `s` is the store that the texts of its four files give at instant `now`:
/// see `Store::Load`.
pub open spec fn loaded(
    s: Store,
    entriesText: Seq<char>,
    expiryText: Seq<char>,
    recentText: Seq<char>,
    preferenceText: Seq<char>,
    now: u64,
) -> bool {
    let raw = entry_records(entriesText);
    let exp = records_map(stamp_records(expiryText));
    &&& s.wf()
    &&& s.entry_seq() == live_entries(raw, exp, now)
    &&& s.expiry_map() == surviving_expiries(raw, exp, now)
    &&& s.recency_map() == records_map(stamp_records(recentText))
    &&& s.sortMode == preference_of(preferenceText)
}

/// What removing `keyword` from `old` does, leaving `new` and returning `r`:
/// see `Store::RemoveShortcut`.
pub open spec fn remove_effect(old: Store, new: Store, keyword: Seq<char>, r: Result<(), StoreError>) -> bool {
    &&& new.wf()
    &&& new.paths == old.paths
    &&& new.sortMode == old.sortMode
    &&& old.path_map().contains_key(keyword) <==> r is Ok
    &&& r is Err ==> r->Err_0 is NotFound && new == old
    &&& r is Ok ==> {
        &&& new.entry_seq() == old.entry_seq().remove(old.index()[keyword])
        &&& new.index().dom() == old.index().dom().remove(keyword)
        &&& new.path_map() == old.path_map().remove(keyword)
        &&& new.expiry_map() == old.expiry_map().remove(keyword)
        &&& new.recency_map() == old.recency_map().remove(keyword)
    }
}

proof fn lemma_has_key_take<V>(s: Seq<(Seq<char>, V)>, i: int, k: Seq<char>)
    requires
        0 <= i < s.len(),
    ensures
        has_key(s.take(i + 1), k) <==> has_key(s.take(i), k) || s[i].0 == k,
{
    let a = s.take(i);
    let b = s.take(i + 1);
    if has_key(a, k) {
        let j = choose|j: int| 0 <= j < a.len() && #[trigger] a[j].0 == k;
        assert(b[j].0 == k);
    }
    if s[i].0 == k {
        assert(b[i].0 == k);
    }
    if has_key(b, k) && s[i].0 != k {
        let j = choose|j: int| 0 <= j < b.len() && #[trigger] b[j].0 == k;
        assert(j != i);
        assert(a[j].0 == k);
    }
}

/// The stamps that a run of records builds, one per keyword.
fn collect_stamps(recs: &Vec<Stamp>) -> (r: Vec<Stamp>)
    ensures
        keys_unique(stamps_view(r@)),
        key_map(stamps_view(r@)) == records_map(stamps_view(recs@)),
{
    let mut out: Vec<Stamp> = Vec::new();
    let mut i: usize = 0;
    assert(key_map(stamps_view(out@)) =~= Map::<Seq<char>, u64>::empty());
    while i < recs.len()
        invariant
            i <= recs.len(),
            keys_unique(stamps_view(out@)),
            key_map(stamps_view(out@)) == records_map(stamps_view(recs@).take(i as int)),
        decreases recs.len() - i,
    {
        proof {
            let t = stamps_view(recs@).take(i + 1);
            assert(t.drop_last() == stamps_view(recs@).take(i as int));
            assert(t.last() == recs@[i as int]@);
        }
        set_stamp(&mut out, recs[i].keyword.as_str(), recs[i].value);
        i = i + 1;
    }
    assert(stamps_view(recs@).take(recs.len() as int) == stamps_view(recs@));
    out
}

impl Store {
    /// Builds the store from the texts of its four files, dropping every
    /// entry whose expiry instant is not after `now` together with that
    /// expiry record, and every expiry record of a keyword with no entry.
    /// The flag tells whether an expiry record was dropped (always so when
    /// an entry expired), i.e. whether the entries and expiry files must be
    /// rewritten.
    pub fn Load(
        paths: ConfigPaths,
        entriesText: &str,
        expiryText: &str,
        recentText: &str,
        preferenceText: &str,
        now: u64,
    ) -> (r: (Store, bool))
        ensures
            r.0.paths == paths,
            loaded(r.0, entriesText@, expiryText@, recentText@, preferenceText@, now),
            r.1 <==> r.0.expiry_map() != records_map(stamp_records(expiryText@)),
            any_expired(entry_records(entriesText@), records_map(stamp_records(expiryText@)), now)
                ==> r.1,
    {
        let initial = collect_stamps(&parse_stamps(expiryText));
        let recents = collect_stamps(&parse_stamps(recentText));
        let raw = parse_entries(entriesText);
        let ghost rv = entry_records(entriesText@);
        let ghost exp = records_map(stamp_records(expiryText@));
        let mut entries: Vec<ShortcutEntry> = Vec::new();
        let mut i: usize = 0;
        while i < raw.len()
            invariant
                i <= raw.len(),
                entries_view(raw@) == rv,
                keys_unique(stamps_view(initial@)),
                key_map(stamps_view(initial@)) == exp,
                keys_unique(entries_view(entries@)),
                entries_view(entries@) == live_entries(rv.take(i as int), exp, now),
            decreases raw.len() - i,
        {
            let e = &raw[i];
            let k = e.keyword.as_str();
            let ghost prev = entries_view(entries@);
            proof {
                let t = rv.take(i + 1);
                assert(t.drop_last() == rv.take(i as int));
                assert(t.last() == rv[i as int]);
                assert(rv[i as int] == e@);
            }
            let isExpired = match stamp_for(&initial, k) {
                Some(t) => t <= now,
                None => false,
            };
            assert(isExpired == expired(exp, rv[i as int].0, now));
            if !isExpired {
                match find_entry(&entries, k) {
                    Some(j) => {
                        proof {
                            lemma_key_at(prev, j as int);
                            lemma_update_map(prev, j as int, e.path@);
                        }
                        entries.set(
                            j,
                            ShortcutEntry { keyword: e.keyword.clone(), path: e.path.clone() },
                        );
                        assert(entries_view(entries@) =~= prev.update(j as int, e@));
                    },
                    None => {
                        let ne = ShortcutEntry { keyword: e.keyword.clone(), path: e.path.clone() };
                        proof {
                            lemma_push_map(prev, ne@);
                        }
                        entries.push(ne);
                        assert(entries_view(entries@) =~= prev.push(e@));
                    },
                }
            }
            i = i + 1;
        }
        assert(rv.take(raw.len() as int) == rv);
        let ghost live = entries_view(entries@);
        let ghost iv = stamps_view(initial@);
        let mut expiries: Vec<Stamp> = Vec::new();
        let mut dropped = false;
        let mut m: usize = 0;
        assert(key_map(stamps_view(expiries@)) =~= Map::new(
            |k: Seq<char>| has_key(iv.take(0), k) && has_key(live, k),
            |k: Seq<char>| exp[k],
        ));
        while m < initial.len()
            invariant
                m <= initial.len(),
                iv == stamps_view(initial@),
                keys_unique(iv),
                key_map(iv) == exp,
                live == entries_view(entries@),
                keys_unique(stamps_view(expiries@)),
                key_map(stamps_view(expiries@)) == Map::new(
                    |k: Seq<char>| has_key(iv.take(m as int), k) && has_key(live, k),
                    |k: Seq<char>| exp[k],
                ),
                dropped == exists|j: int| 0 <= j < m && !has_key(live, #[trigger] iv[j].0),
            decreases initial.len() - m,
        {
            let st = &initial[m];
            let ghost before = stamps_view(expiries@);
            proof {
                lemma_key_at(iv, m as int);
                assert(iv[m as int] == st@);
                assert forall|kk: Seq<char>| #[trigger] has_key(iv.take(m + 1), kk) <==> has_key(
                    iv.take(m as int),
                    kk,
                ) || iv[m as int].0 == kk by {
                    lemma_has_key_take(iv, m as int, kk);
                }
                if has_key(iv.take(m as int), st.keyword@) {
                    let j = choose|j: int| 0 <= j < m && #[trigger] iv.take(m as int)[j].0 == st.keyword@;
                    assert(iv[j].0 != iv[m as int].0);
                }
                assert(!key_map(before).contains_key(st.keyword@));
            }
            match find_entry(&entries, st.keyword.as_str()) {
                Some(jj) => {
                    let kept = Stamp { keyword: st.keyword.clone(), value: st.value };
                    proof {
                        assert(live[jj as int].0 == st.keyword@);
                        assert(has_key(live, iv[m as int].0));
                        lemma_push_map(before, kept@);
                    }
                    expiries.push(kept);
                    assert(stamps_view(expiries@) =~= before.push(kept@));
                    assert(key_map(stamps_view(expiries@)) =~= Map::new(
                        |k: Seq<char>| has_key(iv.take(m + 1), k) && has_key(live, k),
                        |k: Seq<char>| exp[k],
                    ));
                },
                None => {
                    assert(!has_key(live, iv[m as int].0));
                    dropped = true;
                    assert(key_map(stamps_view(expiries@)) =~= Map::new(
                        |k: Seq<char>| has_key(iv.take(m + 1), k) && has_key(live, k),
                        |k: Seq<char>| exp[k],
                    ));
                },
            }
            m = m + 1;
        }
        proof {
            assert(iv.take(initial.len() as int) == iv);
            let sv = surviving_expiries(rv, exp, now);
            assert(key_map(stamps_view(expiries@)) =~= sv);
            if dropped {
                let j = choose|j: int| 0 <= j < initial.len() && !has_key(live, #[trigger] iv[j].0);
                lemma_key_at(iv, j);
                assert(!sv.contains_key(iv[j].0));
            }
            if sv != exp {
                if !(sv =~= exp) {
                    let k = choose|k: Seq<char>| !(sv.contains_key(k) <==> exp.contains_key(k)) || (sv.contains_key(k) && sv[k] != exp[k]);
                    assert(exp.contains_key(k));
                    lemma_key_index_in(iv, k);
                    let j = key_index(iv)[k];
                    assert(!has_key(live, iv[j].0));
                }
            }
            if any_expired(rv, exp, now) {
                let j = choose|j: int| 0 <= j < rv.len() && expired(exp, #[trigger] rv[j].0, now);
                lemma_live_not_expired(rv, exp, now, rv[j].0);
                assert(!sv.contains_key(rv[j].0));
            }
        }
        let sortMode = parse_preference(preferenceText);
        (Store { entries, expiries, recents, paths, sortMode }, dropped)
    }
}

/// A copy's new value names a path: it is absolute, or an existing directory.
pub open spec fn names_path(value: Seq<char>, probe: PathProbe) -> bool {
    (value.len() > 0 && value[0] == '/') || (probe.exists && probe.isDir)
}

/// What adding every match of a bulk pattern, in order, does to the entries
/// `s`: the entries after it and the keywords added, or `None` where it
/// fails. A match that is not a directory, or whose last component is
/// already a keyword, is passed over.
pub open spec fn bulk_effect(
    s: Seq<(Seq<char>, Seq<char>)>,
    ms: Seq<(Seq<char>, PathProbe)>,
) -> Option<(Seq<(Seq<char>, Seq<char>)>, Seq<Seq<char>>)>
    decreases ms.len(),
{
    if ms.len() == 0 {
        Some((s, seq![]))
    } else {
        match bulk_effect(s, ms.drop_last()) {
            None => None,
            Some(acc) => {
                let m = ms.last();
                if !(m.1.exists && m.1.isDir) {
                    Some(acc)
                } else {
                    match base_name(m.0) {
                        None => None,
                        Some(k) => if has_key(acc.0, k) {
                            Some(acc)
                        } else if !m.1.usable() {
                            None
                        } else {
                            Some((acc.0.push((k, m.1.canonical_view())), acc.1.push(k)))
                        },
                    }
                }
            },
        }
    }
}

proof fn lemma_bulk_none_extends(
    s: Seq<(Seq<char>, Seq<char>)>,
    ms: Seq<(Seq<char>, PathProbe)>,
    j: int,
)
    requires
        0 <= j <= ms.len(),
        bulk_effect(s, ms.take(j)) is None,
    ensures
        bulk_effect(s, ms) is None,
    decreases ms.len() - j,
{
    if j == ms.len() {
        assert(ms.take(j) == ms);
    } else {
        assert(ms.take(j + 1).drop_last() == ms.take(j));
        lemma_bulk_none_extends(s, ms, j + 1);
    }
}

/// `m` without the keys in `ks`.
pub open spec fn without_keys(m: Map<Seq<char>, u64>, ks: Seq<Seq<char>>) -> Map<Seq<char>, u64>
    decreases ks.len(),
{
    if ks.len() == 0 {
        m
    } else {
        without_keys(m, ks.drop_last()).remove(ks.last())
    }
}

/// One match of a bulk pattern: the path as matched, and what the file
/// system said of it.
#[derive(Clone, Debug)]
pub struct BulkMatch {
    pub path: String,
    pub probe: PathProbe,
}

pub open spec fn bulk_view(v: Seq<BulkMatch>) -> Seq<(Seq<char>, PathProbe)> {
    v.map_values(|m: BulkMatch| (m.path@, m.probe))
}

impl Store {
    /// Saves the path of `existing` under a further keyword. When `newValue`
    /// names a path (absolute, or an existing directory, as `newValueProbe`
    /// tells), that path is added under its last component; otherwise
    /// `newValue` is the new keyword and the existing path, which
    /// `storedProbe` describes, is reused. The add follows the rules of
    /// `AddShortcut`, with no expiry. `NotFound` when `existing` is no keyword.
    pub fn CopyShortcut(
        &mut self,
        existing: &str,
        newValue: &str,
        newValueProbe: &PathProbe,
        storedProbe: &PathProbe,
        behavior: &AddBehavior,
        confirmed: bool,
    ) -> (r: Result<AddOutcome, StoreError>)
        requires
            old(self).wf(),
        ensures
            final(self).wf(),
            !old(self).path_map().contains_key(existing@) ==> (r matches Err(e) && e is NotFound
                && *final(self) == *old(self)),
            old(self).path_map().contains_key(existing@) ==> if names_path(newValue@, *newValueProbe) {
                match base_name(newValue@) {
                    None => r matches Err(e) && e is InvalidPath && *final(self) == *old(self),
                    Some(k) => add_effect(
                        *old(self),
                        *final(self),
                        k,
                        *newValueProbe,
                        None,
                        *behavior,
                        confirmed,
                        r,
                    ),
                }
            } else {
                add_effect(
                    *old(self),
                    *final(self),
                    newValue@,
                    *storedProbe,
                    None,
                    *behavior,
                    confirmed,
                    r,
                )
            },
    {
        let _existingEntry = self.FetchEntry(existing)?;
        let nv = chars_of(newValue);
        let targetIsPath = (nv.len() > 0 && nv[0] == '/') || (newValueProbe.exists
            && newValueProbe.isDir);
        if targetIsPath {
            let destKeyword = DeriveKeywordFromPath(newValue)?;
            self.AddShortcut(destKeyword.as_str(), newValueProbe, None, behavior, confirmed)
        } else {
            self.AddShortcut(newValue, storedProbe, None, behavior, confirmed)
        }
    }

    /// Adds every directory among `matches`, in order, under its last
    /// component, passing over those whose keyword is already saved; a path
    /// saved under other keywords is added without asking. Returns the
    /// keywords added. Where a match has no last component, or no canonical
    /// form, the add stops there with an error.
    pub fn AddBulk(&mut self, matches: &Vec<BulkMatch>, behavior: &AddBehavior) -> (r: Result<
        Vec<String>,
        StoreError,
    >)
        requires
            old(self).wf(),
        ensures
            final(self).wf(),
            final(self).paths == old(self).paths,
            final(self).sortMode == old(self).sortMode,
            final(self).recents == old(self).recents,
            r is Ok <==> bulk_effect(old(self).entry_seq(), bulk_view(matches@)) is Some,
            r matches Ok(added) ==> {
                let e = bulk_effect(old(self).entry_seq(), bulk_view(matches@))->0;
                &&& final(self).entry_seq() == e.0
                &&& strings_view(added@) == e.1
                &&& final(self).expiry_map() == without_keys(old(self).expiry_map(), e.1)
            },
    {
        let ghost s0 = self.entry_seq();
        let ghost x0 = self.expiry_map();
        let mut added: Vec<String> = Vec::new();
        let mut i: usize = 0;
        assert(without_keys(x0, strings_view(added@)) =~= x0);
        while i < matches.len()
            invariant
                self.wf(),
                i <= matches.len(),
                s0 == old(self).entry_seq(),
                x0 == old(self).expiry_map(),
                self.paths == old(self).paths,
                self.sortMode == old(self).sortMode,
                self.recents == old(self).recents,
                bulk_effect(s0, bulk_view(matches@).take(i as int)) == Some(
                    (self.entry_seq(), strings_view(added@)),
                ),
                self.expiry_map() == without_keys(x0, strings_view(added@)),
            decreases matches.len() - i,
        {
            let m = &matches[i];
            let ghost pre = (self.entry_seq(), strings_view(added@));
            proof {
                let t = bulk_view(matches@).take(i + 1);
                assert(t.drop_last() == bulk_view(matches@).take(i as int));
                assert(t.last() == (m.path@, m.probe));
            }
            if m.probe.exists && m.probe.isDir {
                let keyword = match DeriveKeywordFromPath(m.path.as_str()) {
                    Ok(k) => k,
                    Err(e) => {
                        proof {
                            let t = bulk_view(matches@).take(i + 1);
                            assert(base_name(t.last().0) is None);
                            assert(t.last().1.exists && t.last().1.isDir);
                            assert(bulk_effect(s0, t.drop_last()) == Some(pre));
                            assert(bulk_effect(s0, t) is None);
                            lemma_bulk_none_extends(s0, bulk_view(matches@), i + 1);
                        }
                        return Err(e);
                    },
                };
                let known = match find_entry(&self.entries, keyword.as_str()) {
                    Some(j) => {
                        proof {
                            lemma_key_at(self.entry_seq(), j as int);
                            assert(has_key(self.entry_seq(), keyword@));
                        }
                        true
                    },
                    None => false,
                };
                if !known {
                    let ghost before = *self;
                    let outcome = self.AddShortcut(keyword.as_str(), &m.probe, None, behavior, true);
                    match outcome {
                        Ok(_) => {
                            let ghost before_added = strings_view(added@);
                            added.push(keyword);
                            proof {
                                assert(strings_view(added@) == before_added.push(keyword@));
                                assert(strings_view(added@).drop_last() == before_added);
                                assert(self.expiry_map() =~= without_keys(x0, strings_view(added@)));
                            }
                        },
                        Err(e) => {
                            proof {
                                lemma_bulk_none_extends(s0, bulk_view(matches@), i + 1);
                            }
                            return Err(e);
                        },
                    }
                }
            }
            i = i + 1;
        }
        assert(bulk_view(matches@).take(matches.len() as int) == bulk_view(matches@));
        Ok(added)
    }
}

} // verus!
