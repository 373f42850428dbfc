//! Searching the store: which entries a query selects, scoped to a
//! directory and limited in number.
use vstd::prelude::*;
use crate::keyed::{find_entry, lemma_key_at, stamp_for};
use crate::matching::SearchMode;
use crate::records::{chars_equal, line_views};
use crate::sorting::lemma_sort_by_contains;
use crate::store::{Store, strings_view};
use crate::text::{chars_of, sub_chars};

verus! {

/// The non-empty pieces of `t` between slashes, from the piece that starts at
/// `start`, scanning at `i`.
pub open spec fn segs_from(t: Seq<char>, start: int, i: int) -> Seq<Seq<char>>
    decreases t.len() - i,
{
    if i >= t.len() {
        if 0 <= start < t.len() {
            seq![t.subrange(start, t.len() as int)]
        } else {
            seq![]
        }
    } else if i >= 0 && t[i] == '/' {
        (if 0 <= start < i {
            seq![t.subrange(start, i)]
        } else {
            seq![]
        }) + segs_from(t, i + 1, i + 1)
    } else {
        segs_from(t, start, i + 1)
    }
}

/// The components of a path: its non-empty pieces between slashes.
pub open spec fn segments(t: Seq<char>) -> Seq<Seq<char>> {
    segs_from(t, 0, 0)
}

pub open spec fn is_absolute(t: Seq<char>) -> bool {
    t.len() > 0 && t[0] == '/'
}

/// `path` lies under `root`: both absolute or both relative, and the
/// components of `root` begin those of `path`.
pub open spec fn under(path: Seq<char>, root: Seq<char>) -> bool {
    &&& is_absolute(path) == is_absolute(root)
    &&& segments(root).len() <= segments(path).len()
    &&& segments(path).take(segments(root).len() as int) == segments(root)
}

/// How many components `path` has beyond those of `root`.
pub open spec fn depth_below(path: Seq<char>, root: Seq<char>) -> int {
    segments(path).len() - segments(root).len()
}

/// Splits a path into its components.
pub fn segments_of(t: &Vec<char>) -> (r: Vec<Vec<char>>)
    ensures
        line_views(r@) == segments(t@),
{
    let mut out: Vec<Vec<char>> = Vec::new();
    let mut start: usize = 0;
    let mut i: usize = 0;
    while i < t.len()
        invariant
            start <= i <= t.len(),
            segments(t@) == line_views(out@) + segs_from(t@, start as int, i as int),
        decreases t.len() - i,
    {
        if t[i] == '/' {
            let ghost rest = segs_from(t@, i + 1, i + 1);
            if start < i {
                let piece = sub_chars(t, start, i);
                proof {
                    assert(segs_from(t@, start as int, i as int) == seq![piece@] + rest);
                    assert(line_views(out@.push(piece)) == line_views(out@).push(piece@));
                    assert(line_views(out@) + (seq![piece@] + rest) == line_views(out@).push(piece@)
                        + rest);
                }
                out.push(piece);
            } else {
                assert(segs_from(t@, start as int, i as int) == Seq::<Seq<char>>::empty() + rest);
                assert(Seq::<Seq<char>>::empty() + rest == rest);
            }
            start = i + 1;
        }
        i = i + 1;
    }
    if start < t.len() {
        let piece = sub_chars(t, start, t.len());
        proof {
            assert(line_views(out@.push(piece)) == line_views(out@).push(piece@));
        }
        out.push(piece);
    } else {
        assert(line_views(out@) + seq![] == line_views(out@));
    }
    out
}

/// Whether the components `a` begin the components `b`.
fn begins(a: &Vec<Vec<char>>, b: &Vec<Vec<char>>) -> (r: bool)
    ensures
        r == (a.len() <= b.len() && line_views(b@).take(a.len() as int) == line_views(a@)),
{
    if a.len() > b.len() {
        return false;
    }
    let mut i: usize = 0;
    while i < a.len()
        invariant
            a.len() <= b.len(),
            i <= a.len(),
            forall|j: int| 0 <= j < i ==> a@[j]@ == b@[j]@,
        decreases a.len() - i,
    {
        if !chars_equal(&a[i], &b[i]) {
            assert(line_views(b@).take(a.len() as int)[i as int] != line_views(a@)[i as int]);
            return false;
        }
        i = i + 1;
    }
    assert(line_views(b@).take(a.len() as int) =~= line_views(a@));
    true
}

/// One search hit: the keyword, its path and its expiry instant.
#[derive(Clone, Debug)]
pub struct SearchResult {
    pub keyword: String,
    pub path: String,
    pub expiry: Option<u64>,
}

/// A search: the query and how it is matched, which fields it is matched
/// against, an optional directory the paths must lie under (and how deep),
/// and an optional cap on the number of hits.
#[derive(Debug)]
pub struct SearchOptions {
    pub query: String,
    pub matchKeyword: bool,
    pub matchPath: bool,
    pub requireBoth: bool,
    pub mode: SearchMode,
    pub limit: Option<usize>,
    pub within: Option<String>,
    pub maxDepth: Option<usize>,
}

impl SearchOptions {
    /// Keywords are searched: when asked, or when neither field is asked.
    pub open spec fn keyword_field(&self) -> bool {
        if self.matchKeyword || self.matchPath {
            self.matchKeyword
        } else {
            true
        }
    }

    /// Paths are searched: when asked, or when neither field is asked.
    pub open spec fn path_field(&self) -> bool {
        if self.matchKeyword || self.matchPath {
            self.matchPath
        } else {
            true
        }
    }

    pub open spec fn in_scope(&self, path: Seq<char>) -> bool {
        match self.within {
            None => true,
            Some(root) => under(path, root@) && match self.maxDepth {
                None => true,
                Some(d) => depth_below(path, root@) <= d,
            },
        }
    }

    /// Whether the entry `kw → path` is a hit.
    pub open spec fn selects(&self, kw: Seq<char>, path: Seq<char>) -> bool {
        let km = self.keyword_field() && self.mode.spec_matches(kw);
        let pm = self.path_field() && self.mode.spec_matches(path);
        self.in_scope(path) && if self.requireBoth && self.keyword_field() && self.path_field() {
            km && pm
        } else {
            km || pm
        }
    }
}

/// The keywords of `ks` whose entries `opts` selects, in order.
pub open spec fn chosen(pm: Map<Seq<char>, Seq<char>>, opts: SearchOptions, ks: Seq<Seq<char>>) -> Seq<
    Seq<char>,
>
    decreases ks.len(),
{
    if ks.len() == 0 {
        seq![]
    } else {
        let prev = chosen(pm, opts, ks.drop_last());
        if opts.selects(ks.last(), pm[ks.last()]) {
            prev.push(ks.last())
        } else {
            prev
        }
    }
}

proof fn lemma_chosen_prefix(
    pm: Map<Seq<char>, Seq<char>>,
    opts: SearchOptions,
    ks: Seq<Seq<char>>,
    a: int,
)
    requires
        0 <= a <= ks.len(),
    ensures
        chosen(pm, opts, ks.take(a)).len() <= chosen(pm, opts, ks).len(),
        chosen(pm, opts, ks).take(chosen(pm, opts, ks.take(a)).len() as int) == chosen(
            pm,
            opts,
            ks.take(a),
        ),
    decreases ks.len(),
{
    if a == ks.len() {
        assert(ks.take(a) == ks);
    } else {
        let dl = ks.drop_last();
        assert(dl.take(a) == ks.take(a));
        lemma_chosen_prefix(pm, opts, dl, a);
        let l = chosen(pm, opts, ks.take(a)).len() as int;
        assert(chosen(pm, opts, ks).take(l) =~= chosen(pm, opts, dl).take(l));
    }
}

/// The keywords a search returns: the selected ones in sort order, at most
/// `limit` of them.
pub open spec fn search_hits(s: Store, opts: SearchOptions) -> Seq<Seq<char>> {
    let c = chosen(s.path_map(), opts, s.sorted_keywords());
    match opts.limit {
        Some(n) => if n < c.len() {
            c.take(n as int)
        } else {
            c
        },
        None => c,
    }
}

pub open spec fn hit_keywords(v: Seq<SearchResult>) -> Seq<Seq<char>> {
    v.map_values(|r: SearchResult| r.keyword@)
}

impl Store {
    /// The entries that `options` selects, in the current sort order, each
    /// with its path and expiry; scanning stops once `limit` hits are found.
    pub fn Search(&self, options: &SearchOptions) -> (r: Vec<SearchResult>)
        requires
            self.wf(),
        ensures
            hit_keywords(r@) == search_hits(*self, *options),
            forall|i: int|
                0 <= i < r.len() ==> {
                    &&& self.path_map().contains_key(#[trigger] r@[i].keyword@)
                    &&& r@[i].path@ == self.path_map()[r@[i].keyword@]
                    &&& r@[i].expiry == self.expiry_map().get(r@[i].keyword@)
                },
    {
        let mut results: Vec<SearchResult> = Vec::new();
        match options.limit {
            Some(n) => if n == 0 {
                return results;
            },
            None => {},
        }
        let keywords = self.SortedKeywords();
        let ghost ks = self.sorted_keywords();
        let ghost pm = self.path_map();
        let matchKeyword = if options.matchKeyword || options.matchPath {
            options.matchKeyword
        } else {
            true
        };
        let matchPath = if options.matchKeyword || options.matchPath {
            options.matchPath
        } else {
            true
        };
        let rootSegs: Option<(bool, Vec<Vec<char>>)> = match &options.within {
            Some(root) => {
                let rc = chars_of(root.as_str());
                let abs = rc.len() > 0 && rc[0] == '/';
                Some((abs, segments_of(&rc)))
            },
            None => None,
        };
        let mut i: usize = 0;
        while i < keywords.len()
            invariant
                self.wf(),
                strings_view(keywords@) == ks,
                ks == self.sorted_keywords(),
                pm == self.path_map(),
                i <= keywords.len(),
                matchKeyword == options.keyword_field(),
                matchPath == options.path_field(),
                match options.within {
                    None => rootSegs is None,
                    Some(root) => rootSegs matches Some(rs) && rs.0 == is_absolute(root@)
                        && line_views(rs.1@) == segments(root@),
                },
                hit_keywords(results@) == chosen(pm, *options, ks.take(i as int)),
                forall|j: int|
                    0 <= j < results.len() ==> {
                        &&& pm.contains_key(#[trigger] results@[j].keyword@)
                        &&& results@[j].path@ == pm[results@[j].keyword@]
                        &&& results@[j].expiry == self.expiry_map().get(results@[j].keyword@)
                    },
                match options.limit {
                    Some(n) => results.len() < n,
                    None => true,
                },
            decreases keywords.len() - i,
        {
            let kw = &keywords[i];
            proof {
                assert(ks[i as int] == kw@);
                assert(ks.contains(kw@));
                lemma_sort_by_contains(self.keyword_seq(), self.before(), kw@);
                let j = choose|j: int| 0 <= j < self.keyword_seq().len() && self.keyword_seq()[j] == kw@;
                assert(self.entry_seq()[j].0 == kw@);
                lemma_key_at(self.entry_seq(), j);
                let t = ks.take(i + 1);
                assert(t.drop_last() == ks.take(i as int));
                assert(t.last() == kw@);
            }
            let position = match find_entry(&self.entries, kw.as_str()) {
                Some(p) => p,
                None => {
                    assert(false);
                    i = i + 1;
                    continue;
                },
            };
            proof {
                lemma_key_at(self.entry_seq(), position as int);
            }
            let entry = &self.entries[position];
            let inScope = match &rootSegs {
                None => true,
                Some(rs) => {
                    let pc = chars_of(entry.path.as_str());
                    let abs = pc.len() > 0 && pc[0] == '/';
                    let ps = segments_of(&pc);
                    if abs == rs.0 && begins(&rs.1, &ps) {
                        match options.maxDepth {
                            None => true,
                            Some(d) => ps.len() - rs.1.len() <= d,
                        }
                    } else {
                        false
                    }
                },
            };
            let keywordMatches = if matchKeyword {
                options.mode.matches(entry.keyword.as_str())
            } else {
                false
            };
            let pathMatches = if matchPath {
                options.mode.matches(entry.path.as_str())
            } else {
                false
            };
            let selected = inScope && if options.requireBoth && matchKeyword && matchPath {
                keywordMatches && pathMatches
            } else {
                keywordMatches || pathMatches
            };
            assert(selected == options.selects(kw@, pm[kw@]));
            if selected {
                let hit = SearchResult {
                    keyword: entry.keyword.clone(),
                    path: entry.path.clone(),
                    expiry: stamp_for(&self.expiries, entry.keyword.as_str()),
                };
                let ghost before = results@;
                results.push(hit);
                assert(hit_keywords(results@) =~= hit_keywords(before).push(kw@));
                let full = match options.limit {
                    Some(n) => results.len() >= n,
                    None => false,
                };
                if full {
                    proof {
                        lemma_chosen_prefix(pm, *options, ks, i + 1);
                    }
                    return results;
                }
            }
            i = i + 1;
        }
        assert(ks.take(keywords.len() as int) == ks);
        results
    }
}

} // verus!
