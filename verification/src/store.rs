//! The result store: a mapping from `(path index, tag)` to a captured item.
//!
//! Each key holds at most one item; inserting under an existing key replaces
//! the previous item, as the last write wins. The view of a store is the
//! mathematical map of its entries.

use crate::ifd::IFDItem;
use vstd::prelude::*;

verus! {

/// The map described by a list of key/item pairs, later pairs overriding
/// earlier ones.
pub open spec fn entries_map(s: Seq<((u16, u16), IFDItem)>) -> Map<(u16, u16), IFDItem>
    decreases s.len(),
{
    if s.len() == 0 {
        Map::empty()
    } else {
        entries_map(s.drop_last()).insert(s.last().0, s.last().1)
    }
}

/// Keys occur at most once in the entry list.
pub open spec fn keys_unique(s: Seq<((u16, u16), IFDItem)>) -> bool {
    forall|i: int, j: int| 0 <= i < j < s.len() ==> s[i].0 != s[j].0
}

/// A key is in the map exactly when some pair of the list holds it, and with
/// unique keys each pair's item is the one the map holds for its key.
pub proof fn lemma_entries_map(s: Seq<((u16, u16), IFDItem)>)
    ensures
        forall|k: (u16, u16)|
            #[trigger] entries_map(s).contains_key(k) <==> exists|i: int|
                0 <= i < s.len() && s[i].0 == k,
        keys_unique(s) ==> forall|i: int|
            0 <= i < s.len() ==> entries_map(s).contains_key(#[trigger] s[i].0) && entries_map(s)[s[i].0]
                == s[i].1,
    decreases s.len(),
{
    if s.len() > 0 {
        lemma_entries_map(s.drop_last());
        assert forall|k: (u16, u16)| #[trigger]
            entries_map(s).contains_key(k) implies exists|i: int|
            0 <= i < s.len() && s[i].0 == k by {
            if k == s.last().0 {
                assert(s[s.len() - 1].0 == k);
            } else {
                assert(entries_map(s.drop_last()).contains_key(k));
                let i = choose|i: int| 0 <= i < s.drop_last().len() && s.drop_last()[i].0 == k;
                assert(s[i] == s.drop_last()[i]);
                assert(s[i].0 == k);
            }
        }
        assert forall|k: (u16, u16)|
            (exists|i: int| 0 <= i < s.len() && s[i].0 == k) implies #[trigger] entries_map(
            s,
        ).contains_key(k) by {
            let i = choose|i: int| 0 <= i < s.len() && s[i].0 == k;
            if i < s.len() - 1 {
                assert(s.drop_last()[i] == s[i]);
                assert(exists|j: int|
                    0 <= j < s.drop_last().len() && s.drop_last()[j].0 == k);
                assert(entries_map(s.drop_last()).contains_key(k));
            }
        }
        if keys_unique(s) {
            assert(keys_unique(s.drop_last()));
            assert forall|i: int| 0 <= i < s.len() implies entries_map(s).contains_key(
                #[trigger] s[i].0,
            ) && entries_map(s)[s[i].0] == s[i].1 by {
                if i < s.len() - 1 {
                    assert(s.drop_last()[i] == s[i]);
                    assert(s[i].0 != s.last().0);
                }
            }
        }
    }
}

/// Updating the pair at a position whose key is `k` makes the map of the list
/// hold the new item for `k` and keeps every other key.
proof fn lemma_entries_map_update(s: Seq<((u16, u16), IFDItem)>, at: int, item: IFDItem)
    requires
        keys_unique(s),
        0 <= at < s.len(),
    ensures
        entries_map(s.update(at, (s[at].0, item))) == entries_map(s).insert(s[at].0, item),
    decreases s.len(),
{
    let k = s[at].0;
    let s2 = s.update(at, (k, item));
    if at == s.len() - 1 {
        assert(s2.drop_last() =~= s.drop_last());
        assert(entries_map(s2) == entries_map(s.drop_last()).insert(k, item));
        assert(entries_map(s).insert(k, item) == entries_map(s.drop_last()).insert(
            s.last().0,
            s.last().1,
        ).insert(k, item));
        assert(entries_map(s.drop_last()).insert(s.last().0, s.last().1).insert(k, item)
            =~= entries_map(s.drop_last()).insert(k, item));
    } else {
        assert(keys_unique(s.drop_last()));
        assert(s.drop_last()[at] == s[at]);
        lemma_entries_map_update(s.drop_last(), at, item);
        assert(s2.drop_last() =~= s.drop_last().update(at, (k, item)));
        assert(s2.last() == s.last());
        assert(entries_map(s2) == entries_map(s.drop_last()).insert(k, item).insert(
            s.last().0,
            s.last().1,
        ));
        assert(s[at].0 != s.last().0);
        assert(entries_map(s.drop_last()).insert(k, item).insert(s.last().0, s.last().1)
            =~= entries_map(s.drop_last()).insert(s.last().0, s.last().1).insert(k, item));
    }
}

/// The store of captured items, keyed by `(path index, tag)`.
#[derive(Debug)]
pub struct ResultStore {
    entries: Vec<((u16, u16), IFDItem)>,
}

impl View for ResultStore {
    type V = Map<(u16, u16), IFDItem>;

    closed spec fn view(&self) -> Map<(u16, u16), IFDItem> {
        entries_map(self.entries@)
    }
}

impl ResultStore {
    /// The entry list behind the map; an iteration order for callers, not
    /// part of the mapping itself.
    pub closed spec fn spec_entries(&self) -> Seq<((u16, u16), IFDItem)> {
        self.entries@
    }

    /// Every key of the store occurs exactly once in its entry list.
    pub closed spec fn wf(&self) -> bool {
        keys_unique(self.entries@)
    }

    /// A store holds at most one entry per `(path index, tag)` key: distinct
    /// positions of the entry list always carry distinct keys, and the item
    /// of a key is the item at its one position.
    pub proof fn lemma_key_unique(&self)
        requires
            self.wf(),
        ensures
            forall|i: int, j: int|
                0 <= i < j < self.spec_entries().len() ==> self.spec_entries()[i].0
                    != self.spec_entries()[j].0,
            forall|i: int|
                0 <= i < self.spec_entries().len() ==> self@.contains_key(
                    #[trigger] self.spec_entries()[i].0,
                ) && self@[self.spec_entries()[i].0] == self.spec_entries()[i].1,
    {
        lemma_entries_map(self.entries@);
    }

    /// An empty store.
    pub fn new() -> (r: ResultStore)
        ensures
            r@ == Map::<(u16, u16), IFDItem>::empty(),
            r.wf(),
    {
        ResultStore { entries: Vec::new() }
    }

    /// The number of keys held.
    pub fn len(&self) -> (r: usize)
        requires
            self.wf(),
        ensures
            r == self.spec_entries().len(),
    {
        self.entries.len()
    }

    /// Inserts an item under a key, replacing any previous item of that key.
    pub fn insert(&mut self, key: (u16, u16), item: IFDItem)
        requires
            old(self).wf(),
        ensures
            final(self).wf(),
            final(self)@ == old(self)@.insert(key, item),
    {
        let n = self.entries.len();
        let mut i: usize = 0;
        while i < n
            invariant
                old(self).wf(),
                self.entries@ == old(self).entries@,
                n == self.entries@.len(),
                i <= n,
                forall|j: int| 0 <= j < i ==> self.entries@[j].0 != key,
            decreases n - i,
        {
            if self.entries[i].0 .0 == key.0 && self.entries[i].0 .1 == key.1 {
                proof {
                    assert(self.entries@[i as int].0 == key);
                    lemma_entries_map_update(self.entries@, i as int, item);
                }
                self.entries[i] = (key, item);
                proof {
                    assert(self.entries@ =~= old(self).entries@.update(
                        i as int,
                        (old(self).entries@[i as int].0, item),
                    ));
                    assert forall|a: int, b: int|
                        0 <= a < b < self.entries@.len() implies self.entries@[a].0
                        != self.entries@[b].0 by {
                        assert(old(self).entries@[a].0 != old(self).entries@[b].0);
                    }
                }
                return ;
            }
            i = i + 1;
        }
        proof {
            lemma_entries_map(self.entries@);
            if self@.contains_key(key) {
                let j = choose|j: int|
                    0 <= j < self.entries@.len() && self.entries@[j].0 == key;
                assert(false);
            }
        }
        self.entries.push((key, item));
        proof {
            assert(self.entries@.drop_last() =~= old(self).entries@);
            assert(self.entries@.last() == (key, item));
            assert forall|a: int, b: int|
                0 <= a < b < self.entries@.len() implies self.entries@[a].0
                != self.entries@[b].0 by {
                if b == self.entries@.len() - 1 {
                    assert(self.entries@[a] == old(self).entries@[a]);
                    assert(self.entries@[a].0 != key);
                } else {
                    assert(self.entries@[a] == old(self).entries@[a]);
                    assert(self.entries@[b] == old(self).entries@[b]);
                }
            }
        }
    }

    /// The item stored under a key, if any.
    pub fn get(&self, key: &(u16, u16)) -> (r: Option<&IFDItem>)
        requires
            self.wf(),
        ensures
            r is Some <==> self@.contains_key(*key),
            r is Some ==> *r.unwrap() == self@[*key],
    {
        let n = self.entries.len();
        let mut i: usize = 0;
        while i < n
            invariant
                self.wf(),
                n == self.entries@.len(),
                i <= n,
                forall|j: int| 0 <= j < i ==> self.entries@[j].0 != *key,
            decreases n - i,
        {
            if self.entries[i].0 .0 == key.0 && self.entries[i].0 .1 == key.1 {
                proof {
                    lemma_entries_map(self.entries@);
                    assert(self.entries@[i as int].0 == *key);
                }
                return Some(&self.entries[i].1);
            }
            i = i + 1;
        }
        proof {
            lemma_entries_map(self.entries@);
            if self@.contains_key(*key) {
                let j = choose|j: int|
                    0 <= j < self.entries@.len() && self.entries@[j].0 == *key;
                assert(false);
            }
        }
        None
    }

    /// The key/item pair at a position of the entry list, for iteration.
    pub fn entry_at(&self, i: usize) -> (r: &((u16, u16), IFDItem))
        requires
            i < self.spec_entries().len(),
        ensures
            *r == self.spec_entries()[i as int],
    {
        &self.entries[i]
    }
}

} // verus!
