//! Sequences of records keyed by text, read as maps: the model of the entry
//! index and of the expiry and recency stamps.
use vstd::prelude::*;
use crate::store::{ShortcutEntry, Stamp, entries_view, stamps_view};
use crate::text::chars_of;

verus! {

/// No key occurs twice.
pub open spec fn keys_unique<V>(s: Seq<(Seq<char>, V)>) -> bool {
    forall|i: int, j: int| 0 <= i < j < s.len() ==> #[trigger] s[i].0 != #[trigger] s[j].0
}

pub open spec fn has_key<V>(s: Seq<(Seq<char>, V)>, k: Seq<char>) -> bool {
    exists|i: int| 0 <= i < s.len() && #[trigger] s[i].0 == k
}

/// Each key and the position of its record.
pub open spec fn key_index<V>(s: Seq<(Seq<char>, V)>) -> Map<Seq<char>, int> {
    Map::new(
        |k: Seq<char>| has_key(s, k),
        |k: Seq<char>| choose|i: int| 0 <= i < s.len() && #[trigger] s[i].0 == k,
    )
}

/// Each key and the value of its record.
pub open spec fn key_map<V>(s: Seq<(Seq<char>, V)>) -> Map<Seq<char>, V> {
    Map::new(|k: Seq<char>| has_key(s, k), |k: Seq<char>| s[key_index(s)[k]].1)
}

pub proof fn lemma_key_at<V>(s: Seq<(Seq<char>, V)>, i: int)
    requires
        keys_unique(s),
        0 <= i < s.len(),
    ensures
        key_index(s).contains_key(s[i].0),
        key_index(s)[s[i].0] == i,
        key_map(s).contains_key(s[i].0),
        key_map(s)[s[i].0] == s[i].1,
{
    assert(has_key(s, s[i].0));
    let j = key_index(s)[s[i].0];
    assert(0 <= j < s.len() && s[j].0 == s[i].0);
    if j != i {
        if j < i {
            assert(s[j].0 != s[i].0);
        } else {
            assert(s[i].0 != s[j].0);
        }
    }
}

/// Whether two texts are equal.
pub fn same_text(a: &str, b: &str) -> (r: bool)
    ensures
        r == (a@ == b@),
{
    let x = chars_of(a);
    let y = chars_of(b);
    if x.len() != y.len() {
        assert(x@.len() != y@.len());
        return false;
    }
    let mut i: usize = 0;
    while i < x.len()
        invariant
            x@ == a@,
            y@ == b@,
            x.len() == y.len(),
            i <= x.len(),
            forall|j: int| 0 <= j < i ==> x@[j] == y@[j],
        decreases x.len() - i,
    {
        if x[i] != y[i] {
            assert(x@[i as int] != y@[i as int]);
            return false;
        }
        i = i + 1;
    }
    assert(x@ =~= y@);
    true
}

/// Where the entry for `k` stands.
pub fn find_entry(v: &Vec<ShortcutEntry>, k: &str) -> (r: Option<usize>)
    ensures
        match r {
            Some(i) => i < v.len() && v@[i as int].keyword@ == k@,
            None => !has_key(entries_view(v@), k@),
        },
{
    let mut i: usize = 0;
    while i < v.len()
        invariant
            i <= v.len(),
            forall|j: int| 0 <= j < i ==> v@[j].keyword@ != k@,
        decreases v.len() - i,
    {
        if same_text(v[i].keyword.as_str(), k) {
            return Some(i);
        }
        i = i + 1;
    }
    assert forall|j: int| 0 <= j < v.len() implies #[trigger] entries_view(v@)[j].0 != k@ by {
        assert(entries_view(v@)[j] == v@[j]@);
    }
    None
}

/// Where the stamp for `k` stands.
pub fn find_stamp(v: &Vec<Stamp>, k: &str) -> (r: Option<usize>)
    ensures
        match r {
            Some(i) => i < v.len() && v@[i as int].keyword@ == k@,
            None => !has_key(stamps_view(v@), k@),
        },
{
    let mut i: usize = 0;
    while i < v.len()
        invariant
            i <= v.len(),
            forall|j: int| 0 <= j < i ==> v@[j].keyword@ != k@,
        decreases v.len() - i,
    {
        if same_text(v[i].keyword.as_str(), k) {
            return Some(i);
        }
        i = i + 1;
    }
    assert forall|j: int| 0 <= j < v.len() implies #[trigger] stamps_view(v@)[j].0 != k@ by {
        assert(stamps_view(v@)[j] == v@[j]@);
    }
    None
}

/// The value stamped for `k`, if any.
pub fn stamp_for(v: &Vec<Stamp>, k: &str) -> (r: Option<u64>)
    requires
        keys_unique(stamps_view(v@)),
    ensures
        r == key_map(stamps_view(v@)).get(k@),
{
    match find_stamp(v, k) {
        Some(i) => {
            proof {
                lemma_key_at(stamps_view(v@), i as int);
            }
            Some(v[i].value)
        },
        None => None,
    }
}

pub proof fn lemma_push_map<V>(s: Seq<(Seq<char>, V)>, kv: (Seq<char>, V))
    requires
        keys_unique(s),
        !has_key(s, kv.0),
    ensures
        keys_unique(s.push(kv)),
        key_map(s.push(kv)) == key_map(s).insert(kv.0, kv.1),
        key_index(s.push(kv)) == key_index(s).insert(kv.0, s.len() as int),
{
    let t = s.push(kv);
    assert forall|i: int, j: int| 0 <= i < j < t.len() implies #[trigger] t[i].0 != #[trigger] t[j].0 by {
        if j == s.len() {
            assert(s[i].0 == t[i].0);
        } else {
            assert(s[i].0 != s[j].0);
        }
    }
    lemma_key_at(t, s.len() as int);
    assert forall|k: Seq<char>| #[trigger] has_key(t, k) <==> has_key(s, k) || k == kv.0 by {
        if has_key(s, k) {
            let i = choose|i: int| 0 <= i < s.len() && #[trigger] s[i].0 == k;
            assert(t[i].0 == k);
        }
        if has_key(t, k) && k != kv.0 {
            let i = choose|i: int| 0 <= i < t.len() && #[trigger] t[i].0 == k;
            assert(i != s.len());
            assert(s[i].0 == k);
        }
    }
    assert forall|k: Seq<char>| has_key(s, k) implies key_index(t)[k] == key_index(s)[k]
        && key_map(t)[k] == key_map(s)[k] by {
        lemma_key_index_in(s, k);
        let i = key_index(s)[k];
        lemma_key_at(s, i);
        assert(t[i] == s[i]);
        lemma_key_at(t, i);
    }
    assert(key_map(t) =~= key_map(s).insert(kv.0, kv.1));
    assert(key_index(t) =~= key_index(s).insert(kv.0, s.len() as int));
}

pub proof fn lemma_key_index_in<V>(s: Seq<(Seq<char>, V)>, k: Seq<char>)
    requires
        has_key(s, k),
    ensures
        0 <= key_index(s)[k] < s.len(),
        s[key_index(s)[k]].0 == k,
{
}

pub proof fn lemma_update_map<V>(s: Seq<(Seq<char>, V)>, i: int, v: V)
    requires
        keys_unique(s),
        0 <= i < s.len(),
    ensures
        keys_unique(s.update(i, (s[i].0, v))),
        key_map(s.update(i, (s[i].0, v))) == key_map(s).insert(s[i].0, v),
        key_index(s.update(i, (s[i].0, v))) == key_index(s),
{
    let t = s.update(i, (s[i].0, v));
    assert forall|a: int, b: int| 0 <= a < b < t.len() implies #[trigger] t[a].0 != #[trigger] t[b].0 by {
        assert(t[a].0 == s[a].0 && t[b].0 == s[b].0);
    }
    assert forall|k: Seq<char>| #[trigger] has_key(t, k) <==> has_key(s, k) by {
        if has_key(s, k) {
            let j = choose|j: int| 0 <= j < s.len() && #[trigger] s[j].0 == k;
            assert(t[j].0 == k);
        }
        if has_key(t, k) {
            let j = choose|j: int| 0 <= j < t.len() && #[trigger] t[j].0 == k;
            assert(s[j].0 == k);
        }
    }
    lemma_key_at(t, i);
    lemma_key_at(s, i);
    assert forall|k: Seq<char>| has_key(s, k) implies key_index(t)[k] == key_index(s)[k]
        && (k != s[i].0 ==> key_map(t)[k] == key_map(s)[k]) by {
        lemma_key_index_in(s, k);
        let j = key_index(s)[k];
        lemma_key_at(s, j);
        lemma_key_at(t, j);
    }
    assert(key_map(t) =~= key_map(s).insert(s[i].0, v));
    assert(key_index(t) =~= key_index(s));
}

pub proof fn lemma_remove_map<V>(s: Seq<(Seq<char>, V)>, i: int)
    requires
        keys_unique(s),
        0 <= i < s.len(),
    ensures
        keys_unique(s.remove(i)),
        key_map(s.remove(i)) == key_map(s).remove(s[i].0),
        !key_index(s.remove(i)).contains_key(s[i].0),
        key_index(s.remove(i)).dom() == key_index(s).dom().remove(s[i].0),
{
    let t = s.remove(i);
    assert forall|a: int, b: int| 0 <= a < b < t.len() implies #[trigger] t[a].0 != #[trigger] t[b].0 by {
        let a2 = if a < i { a } else { a + 1 };
        let b2 = if b < i { b } else { b + 1 };
        assert(t[a] == s[a2] && t[b] == s[b2]);
        assert(s[a2].0 != s[b2].0);
    }
    assert forall|k: Seq<char>| #[trigger] has_key(t, k) <==> has_key(s, k) && k != s[i].0 by {
        if has_key(s, k) && k != s[i].0 {
            let j = choose|j: int| 0 <= j < s.len() && #[trigger] s[j].0 == k;
            if j < i {
                assert(t[j].0 == k);
            } else {
                assert(j != i);
                assert(t[j - 1].0 == k);
            }
        }
        if has_key(t, k) {
            let j = choose|j: int| 0 <= j < t.len() && #[trigger] t[j].0 == k;
            let j2 = if j < i { j } else { j + 1 };
            assert(s[j2].0 == k);
            assert(j2 != i);
            assert(s[j2].0 != s[i].0) by {
                if j2 < i {
                } else {
                }
            }
        }
    }
    assert forall|k: Seq<char>| has_key(t, k) implies key_map(t)[k] == key_map(s)[k] by {
        lemma_key_index_in(t, k);
        let j = key_index(t)[k];
        let j2 = if j < i { j } else { j + 1 };
        assert(t[j] == s[j2]);
        lemma_key_at(t, j);
        lemma_key_at(s, j2);
    }
    assert(key_map(t) =~= key_map(s).remove(s[i].0));
    assert(key_index(t).dom() =~= key_index(s).dom().remove(s[i].0));
}

/// `m` with the stamp for `k` set to `e`, or removed where `e` is `None`.
pub open spec fn with_stamp(m: Map<Seq<char>, u64>, k: Seq<char>, e: Option<u64>) -> Map<Seq<char>, u64> {
    match e {
        Some(t) => m.insert(k, t),
        None => m.remove(k),
    }
}

/// Sets the stamp for `k` to `value`.
pub fn set_stamp(v: &mut Vec<Stamp>, k: &str, value: u64)
    requires
        keys_unique(stamps_view(old(v)@)),
    ensures
        keys_unique(stamps_view(final(v)@)),
        key_map(stamps_view(final(v)@)) == key_map(stamps_view(old(v)@)).insert(k@, value),
{
    let ghost s = stamps_view(v@);
    match find_stamp(v, k) {
        Some(i) => {
            let kw = v[i].keyword.clone();
            v.set(i, Stamp { keyword: kw, value });
            proof {
                assert(stamps_view(v@) =~= s.update(i as int, (s[i as int].0, value)));
                lemma_update_map(s, i as int, value);
            }
        },
        None => {
            let st = Stamp { keyword: String::from_str(k), value };
            v.push(st);
            proof {
                assert(stamps_view(v@) =~= s.push(st@));
                lemma_push_map(s, st@);
            }
        },
    }
}

/// Removes the stamp for `k`, if there is one.
pub fn remove_stamp(v: &mut Vec<Stamp>, k: &str)
    requires
        keys_unique(stamps_view(old(v)@)),
    ensures
        keys_unique(stamps_view(final(v)@)),
        key_map(stamps_view(final(v)@)) == key_map(stamps_view(old(v)@)).remove(k@),
{
    let ghost s = stamps_view(v@);
    match find_stamp(v, k) {
        Some(i) => {
            v.remove(i);
            proof {
                assert(stamps_view(v@) =~= s.remove(i as int));
                lemma_remove_map(s, i as int);
            }
        },
        None => {
            assert(key_map(s) =~= key_map(s).remove(k@));
        },
    }
}

/// Sets the stamp for `k` to `e`, or removes it where `e` is `None`.
pub fn apply_stamp(v: &mut Vec<Stamp>, k: &str, e: Option<u64>)
    requires
        keys_unique(stamps_view(old(v)@)),
    ensures
        keys_unique(stamps_view(final(v)@)),
        key_map(stamps_view(final(v)@)) == with_stamp(key_map(stamps_view(old(v)@)), k@, e),
{
    match e {
        Some(t) => set_stamp(v, k, t),
        None => remove_stamp(v, k),
    }
}

} // verus!
