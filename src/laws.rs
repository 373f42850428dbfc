//! Properties that hold across the store's operations, proved from their
//! contracts.
use vstd::prelude::*;
use crate::error::StoreError;
use crate::keyed::{has_key, key_index, keys_unique, lemma_key_index_in, lemma_push_map, lemma_update_map};
use crate::records::{
    entry_records, law_entries_file_round_trip, law_stamps_file_round_trip, render_entries,
    render_stamps, stamp_records, writable_entry, writable_stamp,
};
use crate::search::{SearchOptions, chosen, search_hits};
use std::cmp::Ordering;
use crate::sorting::{natural_cmp, insert_by, last_jump, lemma_insert_by_multiset, lemma_sort_by_multiset, sort_by};
use crate::store::{
    AddBehavior, AddOutcome, PathProbe, ResolvedJump, SortMode, Store, add_effect, expired,
    jump_result, lemma_live_not_expired, live_entries, loaded, records_map, remove_effect, stamps_view, surviving_expiries,
};
use crate::keyed::key_map;

verus! {

proof fn lemma_added_names(s0: Store, s1: Store, k: Seq<char>, target: PathProbe, e: Option<u64>, b: AddBehavior, c: bool, r: Result<AddOutcome, StoreError>)
    requires
        s0.wf(),
        add_effect(s0, s1, k, target, e, b, c, r),
        r is Ok,
    ensures
        target.usable(),
        s1.path_map().contains_key(k),
        s1.path_map()[k] == target.canonical_view(),
{
    let p = target.canonical_view();
    let s = s0.entry_seq();
    if s0.path_map().contains_key(k) {
        if s0.path_map()[k] == p {
        } else {
            lemma_key_index_in(s, k);
            let i = key_index(s)[k];
            assert(s.update(i, (k, p)) == s.update(i, (s[i].0, p)));
            lemma_update_map(s, i, p);
        }
    } else {
        lemma_push_map(s, (k, p));
    }
}

/// Adding a keyword for a directory a second time, once the first add has
/// succeeded, reports `AlreadyPresent` and adds no entry.
pub proof fn law_add_twice_is_already_present(
    s0: Store,
    s1: Store,
    s2: Store,
    keyword: Seq<char>,
    target: PathProbe,
    e1: Option<u64>,
    e2: Option<u64>,
    b1: AddBehavior,
    b2: AddBehavior,
    c1: bool,
    c2: bool,
    r1: Result<AddOutcome, StoreError>,
    r2: Result<AddOutcome, StoreError>,
)
    requires
        s0.wf(),
        add_effect(s0, s1, keyword, target, e1, b1, c1, r1),
        r1 is Ok,
        add_effect(s1, s2, keyword, target, e2, b2, c2, r2),
    ensures
        r2 matches Ok(AddOutcome::AlreadyPresent { .. }),
        s2.entries == s1.entries,
        keys_unique(s2.entry_seq()),
{
    lemma_added_names(s0, s1, keyword, target, e1, b1, c1, r1);
}

/// Adding a keyword that names one directory for another fails with
/// `AlreadyExists`, changing nothing, unless `force` is given; with `force` it
/// reports `Replaced`, the keyword names the new directory in the same
/// position, and no other keyword changes.
pub proof fn law_conflict_needs_force(
    s: Store,
    s2: Store,
    keyword: Seq<char>,
    target: PathProbe,
    e: Option<u64>,
    b: AddBehavior,
    c: bool,
    r: Result<AddOutcome, StoreError>,
)
    requires
        s.wf(),
        s.path_map().contains_key(keyword),
        target.usable(),
        s.path_map()[keyword] != target.canonical_view(),
        add_effect(s, s2, keyword, target, e, b, c, r),
    ensures
        !b.force ==> (r matches Err(StoreError::AlreadyExists { .. }) && s2 == s),
        b.force ==> {
            &&& r matches Ok(AddOutcome::Replaced { .. })
            &&& s2.path_map() == s.path_map().insert(keyword, target.canonical_view())
            &&& s2.index() == s.index()
            &&& s2.entry_seq().contains((keyword, target.canonical_view()))
            &&& !s2.entry_seq().contains((keyword, s.path_map()[keyword]))
        },
{
    if b.force {
        let p = target.canonical_view();
        let q = s.entry_seq();
        lemma_key_index_in(q, keyword);
        let i = key_index(q)[keyword];
        assert(q.update(i, (keyword, p)) == q.update(i, (q[i].0, p)));
        lemma_update_map(q, i, p);
        let t = s2.entry_seq();
        assert(t[i] == (keyword, p));
        if t.contains((keyword, s.path_map()[keyword])) {
            let j = choose|j: int| 0 <= j < t.len() && t[j] == (keyword, s.path_map()[keyword]);
            assert(t[j].0 == t[i].0);
            if j != i {
                if j < i {
                    assert(t[j].0 != t[i].0);
                } else {
                    assert(t[i].0 != t[j].0);
                }
            }
        }
    }
}

/// A registered keyword that ends at a later slash of the input, or at its
/// end, wins over a shorter one.
pub proof fn law_longest_prefix_wins(s: Store, input: Seq<char>, j: ResolvedJump, q: int)
    requires
        jump_result(s, input, Ok(j)),
        s.registered_cut(input, q),
    ensures
        q <= j.keyword@.len(),
{
    if q > j.keyword@.len() {
        assert(q <= input.len());
    }
}

/// Loading drops every entry whose expiry instant is not after `now`: it is
/// not among the entries nor in the index, and no expiry record for it is
/// left to write back.
pub proof fn law_load_purges_expired(
    s: Store,
    entriesText: Seq<char>,
    expiryText: Seq<char>,
    recentText: Seq<char>,
    preferenceText: Seq<char>,
    now: u64,
    keyword: Seq<char>,
)
    requires
        loaded(s, entriesText, expiryText, recentText, preferenceText, now),
        has_key(entry_records(entriesText), keyword),
        expired(records_map(stamp_records(expiryText)), keyword, now),
    ensures
        !has_key(s.entry_seq(), keyword),
        !s.index().contains_key(keyword),
        !s.path_map().contains_key(keyword),
        !has_key(stamps_view(s.expiries@), keyword),
{
    lemma_live_not_expired(
        entry_records(entriesText),
        records_map(stamp_records(expiryText)),
        now,
        keyword,
    );
    assert(!s.expiry_map().contains_key(keyword));
}

proof fn lemma_chosen_same(
    pm: Map<Seq<char>, Seq<char>>,
    a: SearchOptions,
    b: SearchOptions,
    ks: Seq<Seq<char>>,
)
    requires
        a.matchKeyword == b.matchKeyword,
        a.matchPath == b.matchPath,
        a.requireBoth == b.requireBoth,
        a.mode == b.mode,
        a.within == b.within,
        a.maxDepth == b.maxDepth,
    ensures
        chosen(pm, a, ks) == chosen(pm, b, ks),
    decreases ks.len(),
{
    if ks.len() > 0 {
        lemma_chosen_same(pm, a, b, ks.drop_last());
        assert(a.selects(ks.last(), pm[ks.last()]) == b.selects(ks.last(), pm[ks.last()]));
    }
}

/// A search capped at `n` hits returns the first `n` hits of the same search
/// without a cap, in the same order.
pub proof fn law_limit_keeps_first_hits(s: Store, capped: SearchOptions, open: SearchOptions, n: usize)
    requires
        capped.limit == Some(n),
        open.limit is None,
        capped.matchKeyword == open.matchKeyword,
        capped.matchPath == open.matchPath,
        capped.requireBoth == open.requireBoth,
        capped.mode == open.mode,
        capped.within == open.within,
        capped.maxDepth == open.maxDepth,
    ensures
        search_hits(s, capped) == search_hits(s, open).take(
            if n < search_hits(s, open).len() { n as int } else { search_hits(s, open).len() as int },
        ),
{
    lemma_chosen_same(s.path_map(), capped, open, s.sorted_keywords());
    let all = search_hits(s, open);
    if n >= all.len() {
        assert(all.take(all.len() as int) == all);
    }
}

/// Every listing order only reorders the keywords: each occurs as often as
/// among the entries.
pub proof fn law_sorting_only_reorders(s: Store)
    ensures
        s.sorted_keywords().to_multiset() == s.keyword_seq().to_multiset(),
        s.sorted_keywords().len() == s.keyword_seq().len(),
{
    lemma_sort_by_multiset(s.keyword_seq(), s.before());
}

pub open spec fn latest_first(m: Map<Seq<char>, u64>, ks: Seq<Seq<char>>) -> bool {
    forall|i: int, j: int|
        0 <= i < j < ks.len() ==> last_jump(m, #[trigger] ks[i]) >= last_jump(m, #[trigger] ks[j])
}

proof fn lemma_insert_latest_first(m: Map<Seq<char>, u64>, x: Seq<char>, ks: Seq<Seq<char>>)
    requires
        latest_first(m, ks),
    ensures
        latest_first(m, insert_by(x, ks, |a: Seq<char>, b: Seq<char>| last_jump(m, b) < last_jump(m, a))),
    decreases ks.len(),
{
    let before = |a: Seq<char>, b: Seq<char>| last_jump(m, b) < last_jump(m, a);
    if ks.len() == 0 || !before(x, ks.last()) {
        let r = ks.push(x);
        assert forall|i: int, j: int| 0 <= i < j < r.len() implies last_jump(m, #[trigger] r[i]) >= last_jump(m, #[trigger] r[j]) by {
            if j == ks.len() {
                assert(last_jump(m, ks[i]) >= last_jump(m, ks.last()));
            }
        }
    } else {
        let dl = ks.drop_last();
        assert(latest_first(m, dl));
        lemma_insert_latest_first(m, x, dl);
        let inner = insert_by(x, dl, before);
        lemma_insert_by_multiset(x, dl, before);
        let r = inner.push(ks.last());
        assert forall|i: int, j: int| 0 <= i < j < r.len() implies last_jump(m, #[trigger] r[i]) >= last_jump(m, #[trigger] r[j]) by {
            if j == inner.len() {
                let y = inner[i];
                assert(inner.to_multiset().count(y) > 0) by {
                    broadcast use vstd::seq_lib::to_multiset_contains;
                    assert(inner.contains(y));
                }
                if y != x {
                    assert(dl.to_multiset().count(y) > 0);
                    assert(dl.contains(y)) by {
                        broadcast use vstd::seq_lib::to_multiset_contains;
                    }
                    let k = choose|k: int| 0 <= k < dl.len() && dl[k] == y;
                    assert(ks[k] == y);
                }
            }
        }
    }
}

proof fn lemma_sort_latest_first(m: Map<Seq<char>, u64>, ks: Seq<Seq<char>>)
    ensures
        latest_first(m, sort_by(ks, |a: Seq<char>, b: Seq<char>| last_jump(m, b) < last_jump(m, a))),
    decreases ks.len(),
{
    if ks.len() > 0 {
        lemma_sort_latest_first(m, ks.drop_last());
        lemma_insert_latest_first(
            m,
            ks.last(),
            sort_by(ks.drop_last(), |a: Seq<char>, b: Seq<char>| last_jump(m, b) < last_jump(m, a)),
        );
    }
}

/// In `Recent` mode the most recently visited keyword comes first: the
/// instants of the last jumps never increase along the listing, and
/// keywords never visited (instant 0) come last.
pub proof fn law_recent_is_latest_first(s: Store)
    requires
        s.sortMode == SortMode::Recent,
    ensures
        latest_first(s.recency_map(), s.sorted_keywords()),
{
    let m = s.recency_map();
    assert(s.before() == |a: Seq<char>, b: Seq<char>| last_jump(m, b) < last_jump(m, a));
    lemma_sort_latest_first(m, s.keyword_seq());
}

/// Removing a keyword takes it out of the entries, the index, and the
/// expiry and recency records, so none of the three files written from
/// them holds it.
pub proof fn law_remove_clears_everywhere(
    s: Store,
    s2: Store,
    keyword: Seq<char>,
    r: Result<(), StoreError>,
)
    requires
        s.wf(),
        remove_effect(s, s2, keyword, r),
        r is Ok,
    ensures
        !has_key(s2.entry_seq(), keyword),
        !s2.index().contains_key(keyword),
        !has_key(stamps_view(s2.expiries@), keyword),
        !has_key(stamps_view(s2.recents@), keyword),
{
    assert(!s2.path_map().contains_key(keyword));
    assert(!s2.expiry_map().contains_key(keyword));
    assert(!s2.recency_map().contains_key(keyword));
}

proof fn lemma_live_unchanged(raw: Seq<(Seq<char>, Seq<char>)>, exp: Map<Seq<char>, u64>, now: u64)
    requires
        keys_unique(raw),
        forall|i: int| 0 <= i < raw.len() ==> !expired(exp, #[trigger] raw[i].0, now),
    ensures
        live_entries(raw, exp, now) == raw,
    decreases raw.len(),
{
    if raw.len() > 0 {
        let dl = raw.drop_last();
        assert forall|i: int, j: int| 0 <= i < j < dl.len() implies #[trigger] dl[i].0 != #[trigger] dl[j].0 by {
            assert(raw[i].0 != raw[j].0);
        }
        assert forall|i: int| 0 <= i < dl.len() implies !expired(exp, #[trigger] dl[i].0, now) by {
            assert(dl[i] == raw[i]);
        }
        lemma_live_unchanged(dl, exp, now);
        assert(!expired(exp, raw.last().0, now));
        if has_key(dl, raw.last().0) {
            let i = choose|i: int| 0 <= i < dl.len() && #[trigger] dl[i].0 == raw.last().0;
            assert(raw[i].0 != raw[raw.len() - 1].0);
        }
        assert(dl.push(raw.last()) == raw);
    }
}

proof fn lemma_records_map_unique(s: Seq<(Seq<char>, u64)>)
    requires
        keys_unique(s),
    ensures
        records_map(s) == key_map(s),
    decreases s.len(),
{
    if s.len() == 0 {
        assert(key_map(s) =~= Map::<Seq<char>, u64>::empty());
    } else {
        let dl = s.drop_last();
        assert forall|i: int, j: int| 0 <= i < j < dl.len() implies #[trigger] dl[i].0 != #[trigger] dl[j].0 by {
            assert(s[i].0 != s[j].0);
        }
        lemma_records_map_unique(dl);
        if has_key(dl, s.last().0) {
            let i = choose|i: int| 0 <= i < dl.len() && #[trigger] dl[i].0 == s.last().0;
            assert(s[i].0 != s[s.len() - 1].0);
        }
        lemma_push_map(dl, s.last());
        assert(dl.push(s.last()) == s);
    }
}

/// Loading the files that the store writes gives back the same entries, in
/// the same order, and the same expiry and recency stamps, provided each
/// record can be written as one line and no entry has expired by then.
pub proof fn law_reload_gives_same_store(
    s: Store,
    s2: Store,
    preferenceText: Seq<char>,
    now: u64,
)
    requires
        s.wf(),
        forall|i: int| 0 <= i < s.entry_seq().len() ==> writable_entry(#[trigger] s.entry_seq()[i]),
        forall|i: int| 0 <= i < s.expiries@.len() ==> writable_stamp(#[trigger] stamps_view(s.expiries@)[i]),
        forall|i: int| 0 <= i < s.recents@.len() ==> writable_stamp(#[trigger] stamps_view(s.recents@)[i]),
        forall|k: Seq<char>| #[trigger] s.path_map().contains_key(k) ==> !expired(s.expiry_map(), k, now),
        loaded(
            s2,
            render_entries(s.entry_seq()),
            render_stamps(stamps_view(s.expiries@)),
            render_stamps(stamps_view(s.recents@)),
            preferenceText,
            now,
        ),
    ensures
        s2.entry_seq() == s.entry_seq(),
        s2.expiry_map() == s.expiry_map(),
        s2.recency_map() == s.recency_map(),
{
    let e = s.entry_seq();
    let x = stamps_view(s.expiries@);
    let r = stamps_view(s.recents@);
    law_entries_file_round_trip(e);
    assert forall|i: int| 0 <= i < x.len() implies writable_stamp(#[trigger] x[i]) by {
        assert(x.len() == s.expiries@.len());
    }
    assert forall|i: int| 0 <= i < r.len() implies writable_stamp(#[trigger] r[i]) by {
        assert(r.len() == s.recents@.len());
    }
    law_stamps_file_round_trip(x);
    law_stamps_file_round_trip(r);
    lemma_records_map_unique(x);
    lemma_records_map_unique(r);
    assert forall|i: int| 0 <= i < e.len() implies !expired(s.expiry_map(), #[trigger] e[i].0, now) by {
        assert(has_key(e, e[i].0));
        assert(s.path_map().contains_key(e[i].0));
    }
    lemma_live_unchanged(e, s.expiry_map(), now);
    assert forall|k: Seq<char>| #[trigger] has_key(e, k) && s.expiry_map().contains_key(k) implies s.expiry_map()[k] > now by {
        assert(s.path_map().contains_key(k));
    }
    assert(surviving_expiries(e, s.expiry_map(), now) =~= s.expiry_map());
}

/// No later keyword of `ks` goes strictly before an earlier one.
pub open spec fn in_order(ks: Seq<Seq<char>>, before: spec_fn(Seq<char>, Seq<char>) -> bool) -> bool {
    forall|i: int, j: int| 0 <= i < j < ks.len() ==> !before(#[trigger] ks[j], #[trigger] ks[i])
}

/// `before` is a strict weak order: asymmetric, and "not before" is
/// transitive.
pub open spec fn strict_weak(before: spec_fn(Seq<char>, Seq<char>) -> bool) -> bool {
    &&& forall|a: Seq<char>, b: Seq<char>| #[trigger] before(a, b) ==> !before(b, a)
    &&& forall|a: Seq<char>, b: Seq<char>, c: Seq<char>|
        !#[trigger] before(a, b) && !#[trigger] before(b, c) ==> !before(a, c)
}

proof fn lemma_insert_in_order(
    x: Seq<char>,
    ks: Seq<Seq<char>>,
    before: spec_fn(Seq<char>, Seq<char>) -> bool,
)
    requires
        strict_weak(before),
        in_order(ks, before),
    ensures
        in_order(insert_by(x, ks, before), before),
    decreases ks.len(),
{
    if ks.len() == 0 || !before(x, ks.last()) {
        let r = ks.push(x);
        assert forall|i: int, j: int| 0 <= i < j < r.len() implies !before(#[trigger] r[j], #[trigger] r[i]) by {
            if j == ks.len() {
                if i < ks.len() - 1 {
                    assert(!before(ks[ks.len() - 1], ks[i]));
                    assert(!before(x, ks[ks.len() - 1]));
                }
            } else {
                assert(r[i] == ks[i] && r[j] == ks[j]);
            }
        }
    } else {
        let dl = ks.drop_last();
        assert(in_order(dl, before)) by {
            assert forall|i: int, j: int| 0 <= i < j < dl.len() implies !before(#[trigger] dl[j], #[trigger] dl[i]) by {
                assert(dl[i] == ks[i] && dl[j] == ks[j]);
            }
        }
        lemma_insert_in_order(x, dl, before);
        let inner = insert_by(x, dl, before);
        lemma_insert_by_multiset(x, dl, before);
        let r = inner.push(ks.last());
        assert forall|i: int, j: int| 0 <= i < j < r.len() implies !before(#[trigger] r[j], #[trigger] r[i]) by {
            if j == inner.len() {
                let y = inner[i];
                assert(inner.to_multiset().count(y) > 0) by {
                    broadcast use vstd::seq_lib::to_multiset_contains;
                    assert(inner.contains(y));
                }
                if y != x {
                    assert(dl.to_multiset().count(y) > 0);
                    assert(dl.contains(y)) by {
                        broadcast use vstd::seq_lib::to_multiset_contains;
                    }
                    let k = choose|k: int| 0 <= k < dl.len() && dl[k] == y;
                    assert(ks[k] == y);
                    assert(!before(ks[ks.len() - 1], ks[k]));
                } else {
                    assert(before(x, ks.last()));
                }
            } else {
                assert(r[i] == inner[i] && r[j] == inner[j]);
            }
        }
    }
}

proof fn lemma_sort_in_order(ks: Seq<Seq<char>>, before: spec_fn(Seq<char>, Seq<char>) -> bool)
    requires
        strict_weak(before),
    ensures
        in_order(sort_by(ks, before), before),
    decreases ks.len(),
{
    if ks.len() > 0 {
        lemma_sort_in_order(ks.drop_last(), before);
        lemma_insert_in_order(ks.last(), sort_by(ks.drop_last(), before), before);
    }
}

/// In `Alpha` mode the listing is in natural order: no keyword comes after
/// one that natural comparison puts after it. This holds whenever
/// `natord::compare`'s "less than" is a strict weak order, which is what
/// the hypothesis asks.
pub proof fn law_alpha_is_natural_order(s: Store)
    requires
        s.sortMode == SortMode::Alpha,
        strict_weak(|a: Seq<char>, b: Seq<char>| natural_cmp(a, b) == Ordering::Less),
    ensures
        forall|i: int, j: int|
            0 <= i < j < s.sorted_keywords().len() ==> natural_cmp(
                #[trigger] s.sorted_keywords()[j],
                #[trigger] s.sorted_keywords()[i],
            ) != Ordering::Less,
{
    let before = |a: Seq<char>, b: Seq<char>| natural_cmp(a, b) == Ordering::Less;
    assert(s.before() == before);
    lemma_sort_in_order(s.keyword_seq(), before);
    let r = s.sorted_keywords();
    assert forall|i: int, j: int| 0 <= i < j < r.len() implies natural_cmp(#[trigger] r[j], #[trigger] r[i]) != Ordering::Less by {
        assert(!before(r[j], r[i]));
    }
}

/// After a removal, each of the three files written from the store reads
/// back as exactly the store's entries, expiry records and recency records,
/// and none of them holds a record of the removed keyword (when each record
/// can be written as one line).
pub proof fn law_remove_clears_files(
    s: Store,
    s2: Store,
    keyword: Seq<char>,
    r: Result<(), StoreError>,
)
    requires
        s.wf(),
        remove_effect(s, s2, keyword, r),
        r is Ok,
        forall|i: int| 0 <= i < s2.entry_seq().len() ==> writable_entry(#[trigger] s2.entry_seq()[i]),
        forall|i: int| 0 <= i < s2.expiries@.len() ==> writable_stamp(#[trigger] stamps_view(s2.expiries@)[i]),
        forall|i: int| 0 <= i < s2.recents@.len() ==> writable_stamp(#[trigger] stamps_view(s2.recents@)[i]),
    ensures
        entry_records(render_entries(s2.entry_seq())) == s2.entry_seq(),
        stamp_records(render_stamps(stamps_view(s2.expiries@))) == stamps_view(s2.expiries@),
        stamp_records(render_stamps(stamps_view(s2.recents@))) == stamps_view(s2.recents@),
        !has_key(entry_records(render_entries(s2.entry_seq())), keyword),
        !has_key(stamp_records(render_stamps(stamps_view(s2.expiries@))), keyword),
        !has_key(stamp_records(render_stamps(stamps_view(s2.recents@))), keyword),
{
    let x = stamps_view(s2.expiries@);
    let y = stamps_view(s2.recents@);
    assert forall|i: int| 0 <= i < x.len() implies writable_stamp(#[trigger] x[i]) by {
        assert(x.len() == s2.expiries@.len());
    }
    assert forall|i: int| 0 <= i < y.len() implies writable_stamp(#[trigger] y[i]) by {
        assert(y.len() == s2.recents@.len());
    }
    law_entries_file_round_trip(s2.entry_seq());
    law_stamps_file_round_trip(x);
    law_stamps_file_round_trip(y);
    law_remove_clears_everywhere(s, s2, keyword, r);
}

} // verus!
