//! The listing orders: insertion order, natural order of keywords, and most
//! recent jump first.
use vstd::prelude::*;
use std::cmp::Ordering;
use crate::keyed::stamp_for;
use crate::store::{SortMode, Store, strings_view};
use crate::text::chars_of;

verus! {

/// What `natord::compare` returns for two texts.
pub uninterp spec fn natural_cmp(a: Seq<char>, b: Seq<char>) -> Ordering;

/// Relies on `natord::compare`: the natural (digit-run aware) comparison of
/// two texts, a function of the two texts alone.
#[verifier::external_body]
fn natural_compare(a: &str, b: &str) -> (r: Ordering)
    ensures
        r == natural_cmp(a@, b@),
{
    natord::compare(a, b)
}

/// The stable insertion of `x` into `s`: it moves left past the elements
/// that it goes strictly before.
pub open spec fn insert_by(
    x: Seq<char>,
    s: Seq<Seq<char>>,
    before: spec_fn(Seq<char>, Seq<char>) -> bool,
) -> Seq<Seq<char>>
    decreases s.len(),
{
    if s.len() == 0 || !before(x, s.last()) {
        s.push(x)
    } else {
        insert_by(x, s.drop_last(), before).push(s.last())
    }
}

/// The stable sort of `s` by `before` (the order any stable sort gives
/// when `before` is a strict weak order).
pub open spec fn sort_by(s: Seq<Seq<char>>, before: spec_fn(Seq<char>, Seq<char>) -> bool) -> Seq<
    Seq<char>,
>
    decreases s.len(),
{
    if s.len() == 0 {
        seq![]
    } else {
        insert_by(s.last(), sort_by(s.drop_last(), before), before)
    }
}

/// The instant of the last jump through `k`, 0 where there was none.
pub open spec fn last_jump(m: Map<Seq<char>, u64>, k: Seq<char>) -> u64 {
    if m.contains_key(k) {
        m[k]
    } else {
        0
    }
}

proof fn lemma_insert_at(
    x: Seq<char>,
    s: Seq<Seq<char>>,
    before: spec_fn(Seq<char>, Seq<char>) -> bool,
    j: int,
)
    requires
        0 <= j <= s.len(),
        forall|m: int| j <= m < s.len() ==> before(x, #[trigger] s[m]),
        j == 0 || !before(x, s[j - 1]),
    ensures
        insert_by(x, s, before) == s.take(j).push(x) + s.skip(j),
    decreases s.len(),
{
    if j == s.len() {
        assert(s.take(j) == s);
        assert(s.skip(j) =~= Seq::<Seq<char>>::empty());
        assert(s.push(x) + s.skip(j) =~= s.push(x));
    } else {
        let t = s.drop_last();
        assert(before(x, s[s.len() - 1]));
        assert forall|m: int| j <= m < t.len() implies before(x, #[trigger] t[m]) by {
            assert(t[m] == s[m]);
        }
        if j > 0 {
            assert(t[j - 1] == s[j - 1]);
        }
        lemma_insert_at(x, t, before, j);
        assert(t.take(j) == s.take(j));
        assert((t.take(j).push(x) + t.skip(j)).push(s.last()) =~= s.take(j).push(x) + s.skip(j));
    }
}

impl Store {
    /// "`a` is listed strictly before `b`" in the current sort mode.
    pub open spec fn before(&self) -> spec_fn(Seq<char>, Seq<char>) -> bool {
        let recents = self.recency_map();
        match self.sortMode {
            SortMode::Added => |a: Seq<char>, b: Seq<char>| false,
            SortMode::Alpha => |a: Seq<char>, b: Seq<char>| natural_cmp(a, b) == Ordering::Less,
            SortMode::Recent => |a: Seq<char>, b: Seq<char>|
                last_jump(recents, b) < last_jump(recents, a),
        }
    }

    /// The keywords in the current sort mode's order.
    pub open spec fn sorted_keywords(&self) -> Seq<Seq<char>> {
        sort_by(self.keyword_seq(), self.before())
    }

    fn listed_before(&self, a: &String, b: &String) -> (r: bool)
        requires
            self.wf(),
        ensures
            r == (self.before())(a@, b@),
    {
        match self.sortMode {
            SortMode::Added => false,
            SortMode::Alpha => {
                let c = natural_compare(a.as_str(), b.as_str());
                match c {
                    Ordering::Less => true,
                    _ => false,
                }
            },
            SortMode::Recent => {
                let ta = match stamp_for(&self.recents, a.as_str()) {
                    Some(t) => t,
                    None => 0,
                };
                let tb = match stamp_for(&self.recents, b.as_str()) {
                    Some(t) => t,
                    None => 0,
                };
                tb < ta
            },
        }
    }

    /// The keywords in the order of the current sort mode: insertion order
    /// for `Added`, natural order for `Alpha`, latest jump first for
    /// `Recent` (never-visited keywords count as instant 0); ties keep
    /// insertion order.
    pub fn SortedKeywords(&self) -> (r: Vec<String>)
        requires
            self.wf(),
        ensures
            strings_view(r@) == self.sorted_keywords(),
    {
        let mut out: Vec<String> = Vec::new();
        let mut i: usize = 0;
        while i < self.entries.len()
            invariant
                self.wf(),
                i <= self.entries.len(),
                strings_view(out@) == sort_by(self.keyword_seq().take(i as int), self.before()),
            decreases self.entries.len() - i,
        {
            let x = self.entries[i].keyword.clone();
            let mut j = out.len();
            while j > 0 && self.listed_before(&x, &out[j - 1])
                invariant
                    self.wf(),
                    j <= out.len(),
                    forall|m: int| j <= m < out.len() ==> (self.before())(x@, #[trigger] out@[m]@),
                decreases j,
            {
                j = j - 1;
            }
            proof {
                let s = strings_view(out@);
                assert forall|m: int| j <= m < s.len() implies (self.before())(x@, #[trigger] s[m]) by {
                    assert(s[m] == out@[m]@);
                }
                if j > 0 {
                    assert(s[j - 1] == out@[j - 1]@);
                }
                lemma_insert_at(x@, s, self.before(), j as int);
                let t = self.keyword_seq().take(i + 1);
                assert(t.drop_last() == self.keyword_seq().take(i as int));
                assert(t.last() == x@);
            }
            let ghost s0 = strings_view(out@);
            out.insert(j, x);
            assert(strings_view(out@) =~= s0.take(j as int).push(x@) + s0.skip(j as int));
            i = i + 1;
        }
        assert(self.keyword_seq().take(self.entries.len() as int) =~= self.keyword_seq());
        out
    }
}

pub proof fn lemma_insert_by_multiset(
    x: Seq<char>,
    s: Seq<Seq<char>>,
    before: spec_fn(Seq<char>, Seq<char>) -> bool,
)
    ensures
        insert_by(x, s, before).to_multiset() == s.to_multiset().insert(x),
    decreases s.len(),
{
    broadcast use vstd::seq_lib::to_multiset_build;

    if s.len() == 0 || !before(x, s.last()) {
    } else {
        let t = s.drop_last();
        lemma_insert_by_multiset(x, t, before);
        assert(s == t.push(s.last()));
        assert(insert_by(x, s, before).to_multiset() =~= s.to_multiset().insert(x));
    }
}

/// Sorting only reorders: the result holds each keyword as often as the
/// input does.
pub proof fn lemma_sort_by_multiset(s: Seq<Seq<char>>, before: spec_fn(Seq<char>, Seq<char>) -> bool)
    ensures
        sort_by(s, before).to_multiset() == s.to_multiset(),
        sort_by(s, before).len() == s.len(),
    decreases s.len(),
{
    broadcast use vstd::seq_lib::to_multiset_build, vstd::seq_lib::to_multiset_len;

    if s.len() > 0 {
        let t = s.drop_last();
        lemma_sort_by_multiset(t, before);
        lemma_insert_by_multiset(s.last(), sort_by(t, before), before);
        assert(s == t.push(s.last()));
    } else {
        assert(sort_by(s, before) =~= s);
    }
    assert(sort_by(s, before).to_multiset().len() == s.to_multiset().len());
}

pub proof fn lemma_sort_by_contains(
    s: Seq<Seq<char>>,
    before: spec_fn(Seq<char>, Seq<char>) -> bool,
    x: Seq<char>,
)
    ensures
        sort_by(s, before).contains(x) <==> s.contains(x),
{
    broadcast use vstd::seq_lib::to_multiset_contains;

    lemma_sort_by_multiset(s, before);
    assert(sort_by(s, before).to_multiset().count(x) == s.to_multiset().count(x));
}

/// The keywords of `ks` that begin with `p`, in order.
pub open spec fn with_prefix(ks: Seq<Seq<char>>, p: Seq<char>) -> Seq<Seq<char>>
    decreases ks.len(),
{
    if ks.len() == 0 {
        seq![]
    } else {
        let prev = with_prefix(ks.drop_last(), p);
        if p.len() <= ks.last().len() && ks.last().take(p.len() as int) == p {
            prev.push(ks.last())
        } else {
            prev
        }
    }
}

fn starts_with(s: &Vec<char>, p: &Vec<char>) -> (r: bool)
    ensures
        r == (p.len() <= s.len() && s@.take(p.len() as int) == p@),
{
    if p.len() > s.len() {
        return false;
    }
    let mut i: usize = 0;
    while i < p.len()
        invariant
            p.len() <= s.len(),
            i <= p.len(),
            forall|j: int| 0 <= j < i ==> s@[j] == p@[j],
        decreases p.len() - i,
    {
        if s[i] != p[i] {
            assert(s@.take(p.len() as int)[i as int] != p@[i as int]);
            return false;
        }
        i = i + 1;
    }
    assert(s@.take(p.len() as int) =~= p@);
    true
}

impl Store {
    /// Completions for a keyword: the keywords in listing order that begin
    /// with `input`.
    pub fn CompleteKeywords(&self, input: &str) -> (r: Vec<String>)
        requires
            self.wf(),
        ensures
            strings_view(r@) == with_prefix(self.sorted_keywords(), input@),
    {
        let all = self.SortedKeywords();
        let p = chars_of(input);
        let mut out: Vec<String> = Vec::new();
        let mut i: usize = 0;
        while i < all.len()
            invariant
                i <= all.len(),
                p@ == input@,
                strings_view(out@) == with_prefix(strings_view(all@).take(i as int), input@),
            decreases all.len() - i,
        {
            proof {
                let t = strings_view(all@).take(i + 1);
                assert(t.drop_last() == strings_view(all@).take(i as int));
                assert(t.last() == all@[i as int]@);
            }
            if starts_with(&chars_of(all[i].as_str()), &p) {
                let k = all[i].clone();
                assert(strings_view(out@.push(k)) == strings_view(out@).push(k@));
                out.push(k);
            }
            i = i + 1;
        }
        assert(strings_view(all@).take(all.len() as int) == strings_view(all@));
        out
    }
}

} // verus!
