//! A small string-to-string map, the shape in which Kubernetes metadata
//! carries annotations and labels.

use vstd::prelude::*;

verus! {

/// The entries of a map as pairs of character sequences.
pub type Entries = Seq<(Seq<char>, Seq<char>)>;

/// The value of the first entry whose key is `key`, if any.
pub open spec fn lookup(entries: Entries, key: Seq<char>) -> Option<Seq<char>>
    decreases entries.len(),
{
    if entries.len() == 0 {
        None
    } else {
        let earlier = lookup(entries.drop_last(), key);
        if earlier is Some {
            earlier
        } else if entries.last().0 == key {
            Some(entries.last().1)
        } else {
            None
        }
    }
}

/// Appending entries never changes a lookup that already succeeds.
pub proof fn lemma_lookup_prefix(entries: Entries, n: int, key: Seq<char>)
    requires
        0 <= n <= entries.len(),
        lookup(entries.take(n), key) is Some,
    ensures
        lookup(entries, key) == lookup(entries.take(n), key),
    decreases entries.len() - n,
{
    if n < entries.len() {
        assert(entries.take(n + 1).drop_last() =~= entries.take(n));
        lemma_lookup_prefix(entries, n + 1, key);
    } else {
        assert(entries.take(n) =~= entries);
    }
}

/// A lookup fails exactly when no entry has the key.
pub proof fn lemma_lookup_none(entries: Entries, key: Seq<char>)
    ensures
        lookup(entries, key) is None <==> forall|i: int|
            0 <= i < entries.len() ==> #[trigger] entries[i].0 != key,
    decreases entries.len(),
{
    if entries.len() > 0 {
        lemma_lookup_none(entries.drop_last(), key);
        if lookup(entries, key) is None {
            assert forall|i: int| 0 <= i < entries.len() implies #[trigger] entries[i].0 != key by {
                if i < entries.len() - 1 {
                    assert(entries.drop_last()[i] == entries[i]);
                }
            }
        } else {
            if lookup(entries.drop_last(), key) is Some {
                let j = choose|j: int|
                    0 <= j < entries.drop_last().len() && #[trigger] entries.drop_last()[j].0
                        == key;
                assert(entries[j].0 == key);
            } else {
                assert(entries[entries.len() - 1].0 == key);
            }
        }
    }
}

/// The character sequences of a list of string pairs.
pub open spec fn pairs_view(pairs: Seq<(String, String)>) -> Entries {
    pairs.map_values(|e: (String, String)| (e.0@, e.1@))
}

/// A successful lookup comes from an entry with that key and value.
pub proof fn lemma_lookup_some(entries: Entries, key: Seq<char>)
    requires
        lookup(entries, key) is Some,
    ensures
        exists|i: int|
            0 <= i < entries.len() && entries[i].0 == key && entries[i].1 == lookup(
                entries,
                key,
            )->0,
    decreases entries.len(),
{
    if lookup(entries.drop_last(), key) is Some {
        lemma_lookup_some(entries.drop_last(), key);
        let i = choose|i: int|
            0 <= i < entries.drop_last().len() && entries.drop_last()[i].0 == key
                && entries.drop_last()[i].1 == lookup(entries.drop_last(), key)->0;
        assert(entries[i] == entries.drop_last()[i]);
    } else {
        assert(entries[entries.len() - 1] == entries.last());
    }
}

/// With distinct keys, looking up an entry's key finds that entry's value.
pub proof fn lemma_lookup_entry(entries: Entries, i: int)
    requires
        keys_distinct(entries),
        0 <= i < entries.len(),
    ensures
        lookup(entries, entries[i].0) == Some(entries[i].1),
    decreases entries.len(),
{
    let pre = entries.drop_last();
    if i < entries.len() - 1 {
        assert(keys_distinct(pre)) by {
            assert forall|a: int, b: int| 0 <= a < b < pre.len() implies pre[a].0 != pre[b].0 by {
                assert(pre[a] == entries[a] && pre[b] == entries[b]);
            }
        }
        assert(pre[i] == entries[i]);
        lemma_lookup_entry(pre, i);
    } else {
        lemma_lookup_none(pre, entries[i].0);
        assert forall|j: int| 0 <= j < pre.len() implies #[trigger] pre[j].0 != entries[i].0 by {
            assert(pre[j] == entries[j]);
        }
    }
}

/// Whether no two entries share a key.
pub open spec fn keys_distinct(entries: Entries) -> bool {
    forall|i: int, j: int| 0 <= i < j < entries.len() ==> entries[i].0 != entries[j].0
}

/// A map from strings to strings; each key is stored at most once, and the
/// key stored last comes last.
#[derive(Debug)]
pub struct StringMap {
    entries: Vec<(String, String)>,
}

impl StringMap {
    /// Each key is stored at most once.
    #[verifier::type_invariant]
    spec fn keys_unique(self) -> bool {
        keys_distinct(pairs_view(self.entries@))
    }

    /// The entries as character sequences.
    pub closed spec fn entries_view(&self) -> Entries {
        pairs_view(self.entries@)
    }

    /// The value stored under `key`, if any.
    pub open spec fn spec_get(&self, key: Seq<char>) -> Option<Seq<char>> {
        lookup(self.entries_view(), key)
    }

    /// A map with no entries.
    pub fn new() -> (m: StringMap)
        ensures
            forall|k: Seq<char>| #[trigger] m.spec_get(k) is None,
            keys_distinct(m.entries_view()),
    {
        let m = StringMap { entries: Vec::new() };
        assert(m.entries_view() =~= Seq::<(Seq<char>, Seq<char>)>::empty());
        m
    }

    /// Stores `value` under `key`, replacing what was stored there before.
    pub fn insert(&mut self, key: String, value: String)
        ensures
            keys_distinct(final(self).entries_view()),
            final(self).spec_get(key@) == Some(value@),
            forall|k: Seq<char>|
                k != key@ ==> #[trigger] final(self).spec_get(k) == old(self).spec_get(k),
    {
        proof {
            use_type_invariant(&*self);
        }
        let ghost old_entries = self.entries_view();
        let mut kept: Vec<(String, String)> = Vec::new();
        let n = self.entries.len();
        let mut i: usize = 0;
        while i < n
            invariant
                n == self.entries.len(),
                i <= n,
                old_entries == self.entries_view(),
                keys_distinct(old_entries),
                keys_distinct(pairs_view(kept@)),
                forall|j: int|
                    0 <= j < kept@.len() ==> exists|m: int|
                        0 <= m < i && #[trigger] pairs_view(kept@)[j].0 == old_entries[m].0,
                forall|k: Seq<char>|
                    #[trigger] lookup(pairs_view(kept@), k) == if k == key@ {
                        None
                    } else {
                        lookup(old_entries.take(i as int), k)
                    },
            decreases n - i,
        {
            let ghost before = pairs_view(kept@);
            let entry = &self.entries[i];
            let same = entry.0 == key;
            if !same {
                kept.push((entry.0.clone(), entry.1.clone()));
            }
            proof {
                let after = pairs_view(kept@);
                if !same {
                    assert(after.len() == before.len() + 1);
                    assert(after[after.len() - 1].0 == old_entries[i as int].0);
                    assert forall|j: int| 0 <= j < before.len() implies after[j] == before[j] by {}
                    assert forall|a: int, b: int| 0 <= a < b < after.len() implies after[a].0
                        != after[b].0 by {
                        if b == after.len() - 1 {
                            assert(after[a] == before[a]);
                            let m = choose|m: int|
                                0 <= m < i && #[trigger] before[a].0 == old_entries[m].0;
                            assert(old_entries[m].0 != old_entries[i as int].0);
                        } else {
                            assert(after[a] == before[a] && after[b] == before[b]);
                        }
                    }
                    assert forall|j: int| 0 <= j < after.len() implies exists|m: int|
                        0 <= m < i + 1 && #[trigger] after[j].0 == old_entries[m].0 by {
                        if j == after.len() - 1 {
                            assert(after[j].0 == old_entries[i as int].0);
                        } else {
                            assert(after[j] == before[j]);
                            let m = choose|m: int|
                                0 <= m < i && #[trigger] before[j].0 == old_entries[m].0;
                        }
                    }
                } else {
                    assert(after =~= before);
                    assert forall|j: int| 0 <= j < after.len() implies exists|m: int|
                        0 <= m < i + 1 && #[trigger] after[j].0 == old_entries[m].0 by {
                        let m = choose|m: int|
                            0 <= m < i && #[trigger] before[j].0 == old_entries[m].0;
                    }
                }
                assert(old_entries[i as int] == (self.entries@[i as int].0@, self.entries@[i as int].1@));
                assert(old_entries.take(i + 1).drop_last() =~= old_entries.take(i as int));
                if !same {
                    assert(after.drop_last() =~= before);
                }
                assert forall|k: Seq<char>|
                    #[trigger] lookup(after, k) == if k == key@ {
                        None
                    } else {
                        lookup(old_entries.take(i + 1), k)
                    } by {
                    if !same {
                        assert(lookup(after, k) == lookup(
                            after.drop_last(),
                            k,
                        ) || lookup(after.drop_last(), k) is None);
                    } else {
                        assert(after =~= before);
                    }
                }
            }
            i = i + 1;
        }
        let ghost before = pairs_view(kept@);
        let ghost new_key = key@;
        let ghost new_value = value@;
        kept.push((key, value));
        proof {
            let after = pairs_view(kept@);
            assert(after.drop_last() =~= before);
            assert(old_entries.take(n as int) =~= old_entries);
            assert(lookup(before, new_key) is None);
            lemma_lookup_none(before, new_key);
            assert forall|a: int, b: int| 0 <= a < b < after.len() implies after[a].0
                != after[b].0 by {
                if b == after.len() - 1 {
                    assert(after[a] == before[a]);
                } else {
                    assert(after[a] == before[a] && after[b] == before[b]);
                }
            }
            assert(after[after.len() - 1] == (new_key, new_value));
            assert(lookup(after, new_key) == Some(new_value));
            assert forall|k: Seq<char>| k != new_key implies #[trigger] lookup(after, k) == lookup(
                old_entries,
                k,
            ) by {
                assert(lookup(before, k) == lookup(old_entries, k));
            }
        }
        self.entries = kept;
    }

    /// Whether the map has no entries.
    pub fn is_empty(&self) -> (r: bool)
        ensures
            r == forall|k: Seq<char>| #[trigger] self.spec_get(k) is None,
    {
        proof {
            use_type_invariant(self);
        }
        if self.entries.len() == 0 {
            assert forall|k: Seq<char>| #[trigger] self.spec_get(k) is None by {
                lemma_lookup_none(self.entries_view(), k);
            }
            true
        } else {
            proof {
                lemma_lookup_entry(self.entries_view(), 0);
                assert(self.spec_get(self.entries_view()[0].0) is Some);
            }
            false
        }
    }

    /// Whether every key of this map is stored in `other` with the same
    /// value.
    pub fn is_subset_of(&self, other: &StringMap) -> (r: bool)
        ensures
            r == forall|k: Seq<char>|
                #[trigger] self.spec_get(k) is Some ==> other.spec_get(k) == self.spec_get(k),
    {
        proof {
            use_type_invariant(self);
        }
        let ghost es = self.entries_view();
        let n = self.entries.len();
        for i in 0..n
            invariant
                n == self.entries@.len(),
                es == self.entries_view(),
                keys_distinct(es),
                forall|j: int| 0 <= j < i ==> other.spec_get(#[trigger] es[j].0) == Some(es[j].1),
        {
            let entry = &self.entries[i];
            assert(es[i as int] == (entry.0@, entry.1@));
            let found = other.get(entry.0.as_str());
            let same = match found {
                Some(v) => *v == entry.1,
                None => false,
            };
            if !same {
                proof {
                    lemma_lookup_entry(es, i as int);
                    assert(self.spec_get(es[i as int].0) == Some(es[i as int].1));
                    assert(other.spec_get(es[i as int].0) != self.spec_get(es[i as int].0));
                }
                return false;
            }
        }
        proof {
            assert forall|k: Seq<char>| #[trigger] self.spec_get(k) is Some implies other.spec_get(k)
                == self.spec_get(k) by {
                lemma_lookup_some(es, k);
            }
        }
        true
    }

    /// The value stored under `key`, if any.
    pub fn get(&self, key: &str) -> (r: Option<&String>)
        ensures
            match r {
                Some(v) => self.spec_get(key@) == Some(v@),
                None => self.spec_get(key@) is None,
            },
    {
        let wanted = key.to_owned();
        let n = self.entries.len();
        let ghost es = self.entries_view();
        for i in 0..n
            invariant
                n == self.entries.len(),
                es == self.entries_view(),
                wanted@ == key@,
                forall|j: int| 0 <= j < i ==> #[trigger] es[j].0 != key@,
        {
            if self.entries[i].0 == wanted {
                proof {
                    assert(es[i as int] == (self.entries@[i as int].0@, self.entries@[i as int].1@));
                    lemma_lookup_none(es.take(i as int), key@);
                    assert(es.take(i + 1).drop_last() =~= es.take(i as int));
                    lemma_lookup_prefix(es, i + 1, key@);
                }
                return Some(&self.entries[i].1);
            }
            assert(es[i as int] == (self.entries@[i as int].0@, self.entries@[i as int].1@));
        }
        proof {
            lemma_lookup_none(es, key@);
        }
        None
    }
}

impl Clone for StringMap {
    /// A copy of the map, with the same entries in the same order.
    fn clone(&self) -> (r: StringMap)
        ensures
            r.entries_view() == self.entries_view(),
    {
        proof {
            use_type_invariant(self);
        }
        let mut entries: Vec<(String, String)> = Vec::new();
        let n = self.entries.len();
        for i in 0..n
            invariant
                n == self.entries.len(),
                keys_distinct(pairs_view(self.entries@)),
                pairs_view(entries@) == pairs_view(self.entries@).take(i as int),
        {
            let entry = &self.entries[i];
            let ghost before = entries@;
            entries.push((entry.0.clone(), entry.1.clone()));
            assert(pairs_view(self.entries@)[i as int] == (entry.0@, entry.1@));
            assert(pairs_view(entries@) =~= pairs_view(before).push((entry.0@, entry.1@)));
            assert(pairs_view(entries@) =~= pairs_view(self.entries@).take(i + 1));
        }
        assert(pairs_view(self.entries@).take(n as int) =~= pairs_view(self.entries@));
        StringMap { entries }
    }

}

} // verus!
