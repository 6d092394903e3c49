//! A string-to-string map (labels, environment variables) with its keys kept
//! unique, so that it means what a `HashMap<String, String>` means.

use vstd::prelude::*;

verus! {

/// The map that a list of distinct-keyed entries denotes.
pub open spec fn entries_map(entries: Seq<(String, String)>) -> Map<Seq<char>, Seq<char>>
    decreases entries.len(),
{
    if entries.len() == 0 {
        Map::empty()
    } else {
        entries_map(entries.drop_last()).insert(entries.last().0@, entries.last().1@)
    }
}

pub open spec fn keys_unique(entries: Seq<(String, String)>) -> bool {
    forall|i: int, j: int|
        0 <= i < entries.len() && 0 <= j < entries.len() && i != j ==> #[trigger] entries[i].0@
            != #[trigger] entries[j].0@
}

/// A map from strings to strings. Each key occurs once.
#[derive(Debug)]
pub struct StringMap {
    entries: Vec<(String, String)>,
}

impl View for StringMap {
    type V = Map<Seq<char>, Seq<char>>;

    closed spec fn view(&self) -> Map<Seq<char>, Seq<char>> {
        entries_map(self.entries@)
    }
}

proof fn lemma_entries_map_dom(entries: Seq<(String, String)>)
    ensures
        forall|k: Seq<char>|
            #[trigger] entries_map(entries).dom().contains(k) <==> exists|i: int|
                0 <= i < entries.len() && entries[i].0@ == k,
        entries_map(entries).dom().finite(),
    decreases entries.len(),
{
    if entries.len() > 0 {
        let init = entries.drop_last();
        lemma_entries_map_dom(init);
        assert forall|k: Seq<char>|
            #[trigger] entries_map(entries).dom().contains(k) <==> exists|i: int|
                0 <= i < entries.len() && entries[i].0@ == k by {
            if entries_map(entries).dom().contains(k) {
                if k == entries.last().0@ {
                    assert(entries[entries.len() - 1].0@ == k);
                } else {
                    let i = choose|i: int| 0 <= i < init.len() && init[i].0@ == k;
                    assert(entries[i].0@ == k);
                }
            }
            if exists|i: int| 0 <= i < entries.len() && entries[i].0@ == k {
                let i = choose|i: int| 0 <= i < entries.len() && entries[i].0@ == k;
                if i < entries.len() - 1 {
                    assert(init[i].0@ == k);
                }
            }
        }
    }
}

/// With unique keys, the entry at `i` gives the value of its key.
proof fn lemma_entries_map_value(entries: Seq<(String, String)>, i: int)
    requires
        keys_unique(entries),
        0 <= i < entries.len(),
    ensures
        entries_map(entries).dom().contains(entries[i].0@),
        entries_map(entries)[entries[i].0@] == entries[i].1@,
    decreases entries.len(),
{
    let init = entries.drop_last();
    if i < entries.len() - 1 {
        assert(keys_unique(init)) by {
            assert forall|a: int, b: int|
                0 <= a < init.len() && 0 <= b < init.len() && a != b implies #[trigger] init[a].0@
                != #[trigger] init[b].0@ by {
                assert(init[a] == entries[a] && init[b] == entries[b]);
            }
        }
        lemma_entries_map_value(init, i);
        assert(entries[i].0@ != entries[entries.len() - 1].0@);
        assert(init[i] == entries[i]);
    }
}

impl Clone for StringMap {
    fn clone(&self) -> (r: StringMap)
        ensures
            r@ == self@,
            r.entry_seq() == self.entry_seq(),
    {
        proof {
            use_type_invariant(self);
        }
        let n = self.entries.len();
        let mut entries: Vec<(String, String)> = Vec::new();
        for i in 0..n
            invariant
                n == self.entries@.len(),
                entries@ == self.entries@.subrange(0, i as int),
        {
            let k = self.entries[i].0.clone();
            let v = self.entries[i].1.clone();
            entries.push((k, v));
            assert(entries@ =~= self.entries@.subrange(0, i + 1));
        }
        assert(entries@ =~= self.entries@);
        StringMap { entries }
    }
}

impl StringMap {
    #[verifier::type_invariant]
    closed spec fn wf(self) -> bool {
        keys_unique(self.entries@)
    }

    /// The entries, in insertion order.
    pub closed spec fn entry_seq(self) -> Seq<(String, String)> {
        self.entries@
    }

    proof fn lemma_view_matches_entries(self)
        requires
            keys_unique(self.entries@),
        ensures
            keys_unique(self.entry_seq()),
            self@ == entries_map(self.entry_seq()),
            forall|k: Seq<char>|
                #[trigger] self@.dom().contains(k) <==> exists|i: int|
                    0 <= i < self.entry_seq().len() && self.entry_seq()[i].0@ == k,
            forall|i: int|
                0 <= i < self.entry_seq().len() ==> #[trigger] self@[self.entry_seq()[i].0@]
                    == self.entry_seq()[i].1@,
            self@.dom().finite(),
    {
        lemma_entries_map_dom(self.entries@);
        assert forall|i: int|
            0 <= i < self.entry_seq().len() implies #[trigger] self@[self.entry_seq()[i].0@]
            == self.entry_seq()[i].1@ by {
            lemma_entries_map_value(self.entries@, i);
        }
    }

    /// An empty map.
    pub fn new() -> (m: StringMap)
        ensures
            m@ == Map::<Seq<char>, Seq<char>>::empty(),
            m.entry_seq().len() == 0,
    {
        StringMap { entries: Vec::new() }
    }

    /// The number of keys.
    pub fn len(&self) -> (n: usize)
        ensures
            n == self.entry_seq().len(),
            n == self@.dom().len(),
    {
        proof {
            use_type_invariant(self);
            self.lemma_len();
        }
        self.entries.len()
    }

    proof fn lemma_len(self)
        requires
            keys_unique(self.entries@),
        ensures
            self@.dom().len() == self.entries@.len(),
    {
        lemma_unique_len(self.entries@);
    }

    /// Whether the map has no keys.
    pub fn is_empty(&self) -> (b: bool)
        ensures
            b == (self@.dom().len() == 0),
            b == (self.entry_seq().len() == 0),
    {
        self.len() == 0
    }

    fn position(&self, key: &str) -> (r: Option<usize>)
        ensures
            match r {
                Some(i) => i < self.entries@.len() && self.entries@[i as int].0@ == key@,
                None => forall|i: int|
                    0 <= i < self.entries@.len() ==> #[trigger] self.entries@[i].0@ != key@,
            },
    {
        let n = self.entries.len();
        for i in 0..n
            invariant
                n == self.entries@.len(),
                forall|j: int| 0 <= j < i ==> #[trigger] self.entries@[j].0@ != key@,
        {
            if crate::text::str_eq(self.entries[i].0.as_str(), key) {
                return Some(i);
            }
        }
        None
    }

    /// The value of `key`, if the map has it.
    pub fn get(&self, key: &str) -> (r: Option<&str>)
        ensures
            r is Some <==> self@.dom().contains(key@),
            r matches Some(v) ==> v@ == self@[key@],
    {
        proof {
            use_type_invariant(self);
            self.lemma_view_matches_entries();
        }
        match self.position(key) {
            Some(i) => {
                proof {
                    assert(self.entry_seq()[i as int].0@ == key@);
                }
                Some(self.entries[i].1.as_str())
            },
            None => {
                proof {
                    if self@.dom().contains(key@) {
                        let j = choose|j: int|
                            0 <= j < self.entry_seq().len() && self.entry_seq()[j].0@ == key@;
                        assert(self.entries@[j].0@ != key@);
                    }
                }
                None
            },
        }
    }

    /// Sets `key` to `value`, replacing the value it had.
    pub fn insert(&mut self, key: String, value: String)
        ensures
            final(self)@ == old(self)@.insert(key@, value@),
    {
        proof {
            use_type_invariant(&*self);
        }
        let ghost before = self.entries@;
        match self.position(key.as_str()) {
            Some(i) => {
                let mut entries: Vec<(String, String)> = Vec::new();
                std::mem::swap(&mut entries, &mut self.entries);
                entries.set(i, (key, value));
                proof {
                    lemma_update_entry(before, i as int, key, value);
                }
                self.entries = entries;
            },
            None => {
                let mut entries: Vec<(String, String)> = Vec::new();
                std::mem::swap(&mut entries, &mut self.entries);
                entries.push((key, value));
                proof {
                    assert(entries@.drop_last() =~= before);
                    assert forall|a: int, b: int|
                        0 <= a < entries@.len() && 0 <= b < entries@.len() && a != b implies #[trigger] entries@[a].0@
                        != #[trigger] entries@[b].0@ by {
                        if a < before.len() && b < before.len() {
                            assert(entries@[a] == before[a] && entries@[b] == before[b]);
                        } else if a < before.len() {
                            assert(entries@[a] == before[a]);
                        } else {
                            assert(entries@[b] == before[b]);
                        }
                    }
                }
                self.entries = entries;
            },
        }
    }

    /// Whether every key of `other` is in this map with the same value.
    pub fn contains_all(&self, other: &StringMap) -> (b: bool)
        ensures
            b == (forall|k: Seq<char>|
                #[trigger] other@.dom().contains(k) ==> self@.dom().contains(k) && self@[k]
                    == other@[k]),
    {
        proof {
            use_type_invariant(other);
            other.lemma_view_matches_entries();
        }
        let n = other.entries.len();
        for i in 0..n
            invariant
                n == other.entries@.len(),
                keys_unique(other.entries@),
                forall|j: int|
                    #![trigger other.entries@[j]]
                    0 <= j < i ==> self@.dom().contains(other.entries@[j].0@) && self@[other.entries@[j].0@]
                        == other.entries@[j].1@,
        {
            let key = other.entries[i].0.as_str();
            let want = other.entries[i].1.as_str();
            match self.get(key) {
                Some(v) => {
                    if !crate::text::str_eq(v, want) {
                        proof {
                            other.lemma_view_matches_entries();
                            assert(other@[other.entries@[i as int].0@] == other.entries@[i as int].1@);
                            assert(other@.dom().contains(other.entries@[i as int].0@));
                        }
                        return false;
                    }
                },
                None => {
                    proof {
                        other.lemma_view_matches_entries();
                        assert(other@.dom().contains(other.entries@[i as int].0@));
                    }
                    return false;
                },
            }
        }
        proof {
            other.lemma_view_matches_entries();
            assert forall|k: Seq<char>|
                #[trigger] other@.dom().contains(k) implies self@.dom().contains(k) && self@[k]
                == other@[k] by {
                let j = choose|j: int| 0 <= j < other.entries@.len() && other.entries@[j].0@ == k;
                assert(other@[other.entries@[j].0@] == other.entries@[j].1@);
            }
        }
        true
    }

    /// The key of the entry at `i`, in insertion order.
    pub fn key_at(&self, i: usize) -> (k: &str)
        requires
            i < self.entry_seq().len(),
        ensures
            k@ == self.entry_seq()[i as int].0@,
    {
        self.entries[i].0.as_str()
    }

    /// The value of the entry at `i`, in insertion order.
    pub fn value_at(&self, i: usize) -> (v: &str)
        requires
            i < self.entry_seq().len(),
        ensures
            v@ == self.entry_seq()[i as int].1@,
    {
        self.entries[i].1.as_str()
    }
}

proof fn lemma_unique_len(entries: Seq<(String, String)>)
    requires
        keys_unique(entries),
    ensures
        entries_map(entries).dom().len() == entries.len(),
    decreases entries.len(),
{
    if entries.len() > 0 {
        let init = entries.drop_last();
        assert(keys_unique(init)) by {
            assert forall|a: int, b: int|
                0 <= a < init.len() && 0 <= b < init.len() && a != b implies #[trigger] init[a].0@
                != #[trigger] init[b].0@ by {
                assert(init[a] == entries[a] && init[b] == entries[b]);
            }
        }
        lemma_unique_len(init);
        lemma_entries_map_dom(init);
        let k = entries.last().0@;
        if entries_map(init).dom().contains(k) {
            let i = choose|i: int| 0 <= i < init.len() && init[i].0@ == k;
            assert(entries[i].0@ == entries[entries.len() - 1].0@);
        }
    }
}

/// Replacing the value of an existing key.
proof fn lemma_update_entry(entries: Seq<(String, String)>, i: int, key: String, value: String)
    requires
        keys_unique(entries),
        0 <= i < entries.len(),
        entries[i].0@ == key@,
    ensures
        keys_unique(entries.update(i, (key, value))),
        entries_map(entries.update(i, (key, value))) == entries_map(entries).insert(key@, value@),
    decreases entries.len(),
{
    let upd = entries.update(i, (key, value));
    assert forall|a: int, b: int|
        0 <= a < upd.len() && 0 <= b < upd.len() && a != b implies #[trigger] upd[a].0@
        != #[trigger] upd[b].0@ by {
        assert(upd[a].0@ == entries[a].0@);
        assert(upd[b].0@ == entries[b].0@);
    }
    let init = entries.drop_last();
    let last = entries.len() - 1;
    assert(keys_unique(init)) by {
        assert forall|a: int, b: int|
            0 <= a < init.len() && 0 <= b < init.len() && a != b implies #[trigger] init[a].0@
            != #[trigger] init[b].0@ by {
            assert(init[a] == entries[a] && init[b] == entries[b]);
        }
    }
    if i == last {
        assert(upd.drop_last() =~= init);
        lemma_entries_map_dom(init);
        if entries_map(init).dom().contains(key@) {
            let j = choose|j: int| 0 <= j < init.len() && init[j].0@ == key@;
            assert(entries[j].0@ == entries[last].0@);
        }
        assert(entries_map(upd) =~= entries_map(entries).insert(key@, value@));
    } else {
        lemma_update_entry(init, i, key, value);
        assert(upd.drop_last() =~= init.update(i, (key, value)));
        assert(entries[last].0@ != key@);
        assert(entries_map(upd) =~= entries_map(entries).insert(key@, value@));
    }
}

} // verus!
