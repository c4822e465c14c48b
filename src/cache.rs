//! The tile cache: a mapping from tile key to an optional decoded image.
//!
//! A key that is absent has never been requested; a key mapped to `None` was
//! tried and has no image (a confirmed negative); a key mapped to `Some` holds
//! the decoded image, which the cache owns until it hands it back on removal.
use vstd::prelude::*;
use crate::camera::TileKey;

verus! {

/// No two entries share a key.
pub open spec fn keys_unique<V>(s: Seq<(TileKey, V)>) -> bool {
    forall|i: int, j: int|
        0 <= i < s.len() && 0 <= j < s.len() && i != j ==> #[trigger] s[i].0 != #[trigger] s[j].0
}

pub open spec fn has_key<V>(s: Seq<(TileKey, V)>, k: TileKey) -> bool {
    exists|i: int| 0 <= i < s.len() && #[trigger] s[i].0 == k
}

/// The mapping that a sequence of (key, value) entries stands for.
pub open spec fn entries_view<V>(s: Seq<(TileKey, V)>) -> Map<TileKey, V> {
    Map::new(
        |k: TileKey| has_key(s, k),
        |k: TileKey| s[choose|i: int| 0 <= i < s.len() && #[trigger] s[i].0 == k].1,
    )
}

pub proof fn lemma_entries_view_at<V>(s: Seq<(TileKey, V)>, i: int)
    requires
        keys_unique(s),
        0 <= i < s.len(),
    ensures
        entries_view(s).contains_key(s[i].0),
        entries_view(s)[s[i].0] == s[i].1,
{
    let k = s[i].0;
    assert(has_key(s, k));
    let j = choose|j: int| 0 <= j < s.len() && #[trigger] s[j].0 == k;
    assert(s[j].0 == s[i].0);
}

/// Cached tiles, each present or confirmed missing.
pub struct TileCache<I> {
    entries: Vec<(TileKey, Option<I>)>,
}

impl<I> View for TileCache<I> {
    type V = Map<TileKey, Option<I>>;

    closed spec fn view(&self) -> Map<TileKey, Option<I>> {
        entries_view(self.entries@)
    }
}

impl<I> TileCache<I> {
    pub closed spec fn wf(&self) -> bool {
        keys_unique(self.entries@)
    }

    /// The entries in the order that iteration visits them.
    pub closed spec fn entry_seq(&self) -> Seq<(TileKey, Option<I>)> {
        self.entries@
    }

    pub proof fn lemma_entry_seq(&self)
        requires
            self.wf(),
        ensures
            keys_unique(self.entry_seq()),
            self@ == entries_view(self.entry_seq()),
    {
    }

    /// An empty cache.
    pub fn new() -> (r: Self)
        ensures
            r.wf(),
            r@ == Map::<TileKey, Option<I>>::empty(),
    {
        let r = TileCache { entries: Vec::new() };
        assert(r@ =~= Map::<TileKey, Option<I>>::empty());
        r
    }

    /// Number of entries, present or confirmed missing.
    pub fn len(&self) -> (r: usize)
        ensures
            r == self.entry_seq().len(),
    {
        self.entries.len()
    }

    /// The entry at position `i` of the iteration order.
    pub fn entry_at(&self, i: usize) -> (r: &(TileKey, Option<I>))
        requires
            i < self.entry_seq().len(),
        ensures
            *r == self.entry_seq()[i as int],
    {
        &self.entries[i]
    }

    fn find(&self, key: &TileKey) -> (r: Option<usize>)
        requires
            self.wf(),
        ensures
            match r {
                Some(i) => i < self.entries@.len() && self.entries@[i as int].0 == *key,
                None => !has_key(self.entries@, *key),
            },
    {
        let mut i: usize = 0;
        while i < self.entries.len()
            invariant
                i <= self.entries@.len(),
                forall|j: int| 0 <= j < i ==> #[trigger] self.entries@[j].0 != *key,
            decreases self.entries@.len() - i,
        {
            if self.entries[i].0 == *key {
                return Some(i);
            }
            i = i + 1;
        }
        None
    }

    /// Whether the key has an entry (present or confirmed missing).
    pub fn contains_key(&self, key: &TileKey) -> (r: bool)
        requires
            self.wf(),
        ensures
            r == self@.contains_key(*key),
    {
        match self.find(key) {
            Some(i) => {
                proof {
                    lemma_entries_view_at(self.entries@, i as int);
                }
                true
            },
            None => false,
        }
    }

    /// The entry for `key`, if there is one.
    pub fn get(&self, key: &TileKey) -> (r: Option<&Option<I>>)
        requires
            self.wf(),
        ensures
            r.is_some() == self@.contains_key(*key),
            r.is_some() ==> *r.unwrap() == self@[*key],
    {
        match self.find(key) {
            Some(i) => {
                proof {
                    lemma_entries_view_at(self.entries@, i as int);
                }
                Some(&self.entries[i].1)
            },
            None => None,
        }
    }

    /// Removes the entry for `key` and hands it back.
    pub fn remove(&mut self, key: &TileKey) -> (r: Option<Option<I>>)
        requires
            old(self).wf(),
        ensures
            final(self).wf(),
            final(self)@ == old(self)@.remove(*key),
            r == (if old(self)@.contains_key(*key) {
                Some(old(self)@[*key])
            } else {
                None
            }),
    {
        match self.find(key) {
            Some(i) => {
                proof {
                    lemma_entries_view_at(self.entries@, i as int);
                }
                let ghost before = self.entries@;
                let entry = self.entries.remove(i);
                proof {
                    let after = self.entries@;
                    assert(after =~= before.remove(i as int));
                    assert forall|a: int, b: int|
                        0 <= a < after.len() && 0 <= b < after.len() && a != b implies #[trigger] after[a].0
                        != #[trigger] after[b].0 by {
                        let a0 = if a < i { a } else { a + 1 };
                        let b0 = if b < i { b } else { b + 1 };
                        assert(after[a] == before[a0]);
                        assert(after[b] == before[b0]);
                    }
                    assert forall|k: TileKey|
                        #[trigger] entries_view(after).contains_key(k) == entries_view(before).remove(
                            *key,
                        ).contains_key(k) by {
                        if has_key(after, k) {
                            let a = choose|a: int| 0 <= a < after.len() && #[trigger] after[a].0 == k;
                            let a0 = if a < i { a } else { a + 1 };
                            assert(before[a0].0 == k);
                        }
                        if has_key(before, k) && k != *key {
                            let b = choose|b: int| 0 <= b < before.len() && #[trigger] before[b].0 == k;
                            assert(b != i);
                            let b1 = if b < i { b } else { b - 1 };
                            assert(after[b1].0 == k);
                        }
                    }
                    assert forall|k: TileKey| #[trigger]
                        entries_view(after).contains_key(k) implies entries_view(after)[k]
                        == entries_view(before)[k] by {
                        let a = choose|a: int| 0 <= a < after.len() && #[trigger] after[a].0 == k;
                        let a0 = if a < i { a } else { a + 1 };
                        assert(after[a] == before[a0]);
                        lemma_entries_view_at(after, a);
                        lemma_entries_view_at(before, a0);
                    }
                    assert(entries_view(after) =~= entries_view(before).remove(*key));
                }
                Some(entry.1)
            },
            None => {
                proof {
                    assert(entries_view(self.entries@).remove(*key) =~= entries_view(self.entries@));
                }
                None
            },
        }
    }

    /// Records the outcome of a load for `key`, replacing any earlier entry.
    pub fn insert(&mut self, key: TileKey, value: Option<I>) -> (r: Option<Option<I>>)
        requires
            old(self).wf(),
        ensures
            final(self).wf(),
            final(self)@ == old(self)@.insert(key, value),
            r == (if old(self)@.contains_key(key) {
                Some(old(self)@[key])
            } else {
                None
            }),
    {
        let previous = self.remove(&key);
        assert(!self@.contains_key(key));
        let ghost before = self.entries@;
        self.entries.push((key, value));
        proof {
            let after = self.entries@;
            assert(!has_key(before, key));
            assert forall|a: int, b: int|
                0 <= a < after.len() && 0 <= b < after.len() && a != b implies #[trigger] after[a].0
                != #[trigger] after[b].0 by {
                if a == before.len() as int {
                    assert(before[b].0 == after[b].0);
                } else if b == before.len() as int {
                    assert(before[a].0 == after[a].0);
                } else {
                    assert(before[a].0 == after[a].0);
                    assert(before[b].0 == after[b].0);
                }
            }
            lemma_entries_view_at(after, before.len() as int);
            assert forall|k: TileKey| #[trigger]
                entries_view(after).contains_key(k) == entries_view(before).insert(
                    key,
                    value,
                ).contains_key(k) by {
                if has_key(after, k) && k != key {
                    let a = choose|a: int| 0 <= a < after.len() && #[trigger] after[a].0 == k;
                    assert(before[a].0 == k);
                }
                if has_key(before, k) {
                    let b = choose|b: int| 0 <= b < before.len() && #[trigger] before[b].0 == k;
                    assert(after[b].0 == k);
                }
            }
            assert forall|k: TileKey| #[trigger]
                entries_view(after).contains_key(k) && k != key implies entries_view(after)[k]
                == entries_view(before)[k] by {
                let a = choose|a: int| 0 <= a < after.len() && #[trigger] after[a].0 == k;
                assert(a < before.len());
                assert(after[a] == before[a]);
                lemma_entries_view_at(after, a);
                lemma_entries_view_at(before, a);
            }
            assert(entries_view(after) =~= entries_view(before).insert(key, value));
        }
        previous
    }

    /// Keeps the entries whose flag is set and hands back the others, both in
    /// their iteration order. `keep` says of each key what its flag says.
    pub(crate) fn retain_flagged(&mut self, keep: Ghost<spec_fn(TileKey) -> bool>, flags: &Vec<bool>) -> (removed: Vec<
        (TileKey, Option<I>),
    >)
        requires
            old(self).wf(),
            flags@.len() == old(self).entry_seq().len(),
            forall|i: int|
                0 <= i < flags@.len() ==> #[trigger] flags@[i] == keep@(old(self).entry_seq()[i].0),
        ensures
            final(self).wf(),
            final(self)@ == old(self)@.filter_keys(keep@),
            keys_unique(removed@),
            entries_view(removed@) == old(self)@.filter_keys(|k: TileKey| !keep@(k)),
    {
        let mut rest: Vec<(TileKey, Option<I>)> = Vec::new();
        std::mem::swap(&mut self.entries, &mut rest);
        let ghost src = rest@;
        let n = rest.len();
        let mut kept: Vec<(TileKey, Option<I>)> = Vec::new();
        let mut removed: Vec<(TileKey, Option<I>)> = Vec::new();
        let ghost mut kidx: Seq<int> = Seq::empty();
        let ghost mut ridx: Seq<int> = Seq::empty();
        let mut i: usize = 0;
        while i < n
            invariant
                n == src.len(),
                keys_unique(src),
                flags@.len() == n,
                forall|t: int| 0 <= t < n ==> #[trigger] flags@[t] == keep@(src[t].0),
                i <= n,
                rest@ == src.subrange(i as int, n as int),
                kept@.len() == kidx.len(),
                removed@.len() == ridx.len(),
                forall|j: int|
                    0 <= j < kidx.len() ==> 0 <= #[trigger] kidx[j] < i && kept@[j] == src[kidx[j]] && keep@(
                        src[kidx[j]].0,
                    ),
                forall|j: int|
                    0 <= j < ridx.len() ==> 0 <= #[trigger] ridx[j] < i && removed@[j] == src[ridx[j]]
                        && !keep@(src[ridx[j]].0),
                forall|a: int, b: int| 0 <= a < b < kidx.len() ==> #[trigger] kidx[a] < #[trigger] kidx[b],
                forall|a: int, b: int| 0 <= a < b < ridx.len() ==> #[trigger] ridx[a] < #[trigger] ridx[b],
                forall|t: int| 0 <= t < i ==> #[trigger] picked(kidx, t) || picked(ridx, t),
            decreases n - i,
        {
            let entry = rest.remove(0);
            assert(entry == src[i as int]);
            let ghost old_kidx = kidx;
            let ghost old_ridx = ridx;
            if flags[i] {
                proof {
                    kidx = kidx.push(i as int);
                }
                kept.push(entry);
            } else {
                proof {
                    ridx = ridx.push(i as int);
                }
                removed.push(entry);
            }
            proof {
                assert forall|t: int| 0 <= t < i + 1 implies #[trigger] picked(kidx, t) || picked(ridx, t) by {
                    if t == i {
                        if flags@[t] {
                            assert(kidx[kidx.len() - 1] == t);
                        } else {
                            assert(ridx[ridx.len() - 1] == t);
                        }
                    } else {
                        assert(picked(old_kidx, t) || picked(old_ridx, t));
                        if picked(old_kidx, t) {
                            let j = choose|j: int| 0 <= j < old_kidx.len() && #[trigger] old_kidx[j] == t;
                            assert(kidx[j] == t);
                        } else {
                            let j = choose|j: int| 0 <= j < old_ridx.len() && #[trigger] old_ridx[j] == t;
                            assert(ridx[j] == t);
                        }
                    }
                }
            }
            i = i + 1;
        }
        proof {
            lemma_sub_entries(src, kept@, kidx, keep@);
            lemma_sub_entries(src, removed@, ridx, |k: TileKey| !keep@(k));
            assert forall|t: int| 0 <= t < n && #[trigger] keep@(src[t].0) implies picked(kidx, t) by {
                assert(picked(kidx, t) || picked(ridx, t));
                if !picked(kidx, t) {
                    let j = choose|j: int| 0 <= j < ridx.len() && #[trigger] ridx[j] == t;
                }
            }
            assert forall|t: int| 0 <= t < n && !(#[trigger] keep@(src[t].0)) implies picked(ridx, t) by {
                assert(picked(kidx, t) || picked(ridx, t));
                if !picked(ridx, t) {
                    let j = choose|j: int| 0 <= j < kidx.len() && #[trigger] kidx[j] == t;
                }
            }
            lemma_sub_entries_complete(src, kept@, kidx, keep@);
            lemma_sub_entries_complete(src, removed@, ridx, |k: TileKey| !keep@(k));
        }
        self.entries = kept;
        removed
    }
}

pub open spec fn picked(idx: Seq<int>, t: int) -> bool {
    exists|j: int| 0 <= j < idx.len() && #[trigger] idx[j] == t
}

/// `sub` picks, in increasing order, entries of `src` whose keys satisfy `p`.
proof fn lemma_sub_entries<V>(src: Seq<(TileKey, V)>, sub: Seq<(TileKey, V)>, idx: Seq<int>, p: spec_fn(TileKey) -> bool)
    requires
        keys_unique(src),
        sub.len() == idx.len(),
        forall|j: int| 0 <= j < idx.len() ==> 0 <= #[trigger] idx[j] < src.len() && sub[j] == src[idx[j]] && p(src[idx[j]].0),
        forall|a: int, b: int| 0 <= a < b < idx.len() ==> #[trigger] idx[a] < #[trigger] idx[b],
    ensures
        keys_unique(sub),
        forall|k: TileKey| #[trigger] entries_view(sub).contains_key(k) ==> entries_view(src).contains_key(k) && p(k),
        forall|k: TileKey| #[trigger] entries_view(sub).contains_key(k) ==> entries_view(sub)[k] == entries_view(src)[k],
{
    assert forall|a: int, b: int| 0 <= a < sub.len() && 0 <= b < sub.len() && a != b implies #[trigger] sub[a].0
        != #[trigger] sub[b].0 by {
        if a < b {
            assert(idx[a] < idx[b]);
        } else {
            assert(idx[b] < idx[a]);
        }
    }
    assert forall|k: TileKey| #[trigger] entries_view(sub).contains_key(k) implies entries_view(src).contains_key(k)
        && p(k) && entries_view(sub)[k] == entries_view(src)[k] by {
        let j = choose|j: int| 0 <= j < sub.len() && #[trigger] sub[j].0 == k;
        assert(sub[j] == src[idx[j]]);
        lemma_entries_view_at(sub, j);
        lemma_entries_view_at(src, idx[j]);
    }
}

/// Every entry of `src` whose key satisfies `p` was picked into `sub`.
proof fn lemma_sub_entries_complete<V>(src: Seq<(TileKey, V)>, sub: Seq<(TileKey, V)>, idx: Seq<int>, p: spec_fn(TileKey) -> bool)
    requires
        keys_unique(src),
        sub.len() == idx.len(),
        forall|j: int| 0 <= j < idx.len() ==> 0 <= #[trigger] idx[j] < src.len() && sub[j] == src[idx[j]] && p(src[idx[j]].0),
        forall|a: int, b: int| 0 <= a < b < idx.len() ==> #[trigger] idx[a] < #[trigger] idx[b],
        forall|t: int| 0 <= t < src.len() && #[trigger] p(src[t].0) ==> picked(idx, t),
    ensures
        entries_view(sub) == entries_view(src).filter_keys(p),
{
    lemma_sub_entries(src, sub, idx, p);
    assert forall|k: TileKey| #[trigger] entries_view(src).filter_keys(p).contains_key(k) implies entries_view(sub).contains_key(k) by {
        let t = choose|t: int| 0 <= t < src.len() && #[trigger] src[t].0 == k;
        assert(p(src[t].0));
        let j = choose|j: int| 0 <= j < idx.len() && #[trigger] idx[j] == t;
        assert(sub[j].0 == k);
    }
    assert(entries_view(sub) =~= entries_view(src).filter_keys(p));
}

} // verus!
