//! The in-memory index: a name-to-entry mapping kept in insertion order.
//!
//! The index is the sole source of truth for what an archive currently
//! contains.  Inserting a name that is already present replaces its entry in
//! place (shadowing); removing deletes the binding.  Its mathematical model
//! is the map from name bytes to entry records built by folding the bindings
//! in order.

use vstd::prelude::*;

use crate::codec::bytes_eq;
use crate::entry::Entry;

verus! {

/// One name-to-entry binding held by the index.
pub struct IndexEntry {
    /// The entry's name, as raw bytes.
    pub name: Vec<u8>,
    /// The entry's metadata record.
    pub entry: Entry,
}

/// The mathematical image of one binding.
pub ghost struct IndexPair {
    /// The entry's name bytes.
    pub name: Seq<u8>,
    /// The entry's metadata record.
    pub entry: Entry,
}

impl View for IndexEntry {
    type V = IndexPair;

    open spec fn view(&self) -> IndexPair {
        IndexPair { name: self.name@, entry: self.entry }
    }
}

/// The map described by a sequence of bindings: later bindings win.
pub open spec fn map_of(pairs: Seq<IndexPair>) -> Map<Seq<u8>, Entry>
    decreases pairs.len(),
{
    if pairs.len() == 0 {
        Map::empty()
    } else {
        map_of(pairs.drop_last()).insert(pairs.last().name, pairs.last().entry)
    }
}

/// Whether some binding uses this name.
pub open spec fn pairs_contain(pairs: Seq<IndexPair>, name: Seq<u8>) -> bool {
    exists|i: int| 0 <= i < pairs.len() && pairs[i].name == name
}

/// The position of the binding with this name.  Meaningful only when the
/// name occurs and the bindings are well formed, which make it unique.
pub open spec fn pair_index_of(pairs: Seq<IndexPair>, name: Seq<u8>) -> int {
    choose|i: int| 0 <= i < pairs.len() && pairs[i].name == name
}

/// Well-formed bindings: names are pairwise distinct and every record's
/// name length matches its name.
pub open spec fn pairs_wf(pairs: Seq<IndexPair>) -> bool {
    &&& forall|i: int, j: int|
        0 <= i < j < pairs.len() ==> pairs[i].name != pairs[j].name
    &&& forall|i: int|
        0 <= i < pairs.len() ==> (#[trigger] pairs[i]).entry.name_len == pairs[i].name.len()
}

/// A name is in the map exactly when some binding carries it.
pub proof fn lemma_map_of_contains(pairs: Seq<IndexPair>, name: Seq<u8>)
    ensures
        map_of(pairs).contains_key(name) <==> pairs_contain(pairs, name),
    decreases pairs.len(),
{
    if pairs.len() > 0 {
        lemma_map_of_contains(pairs.drop_last(), name);
        if pairs.last().name == name {
            assert(pairs[pairs.len() - 1].name == name);
        } else if pairs_contain(pairs.drop_last(), name) {
            let i = choose|i: int|
                0 <= i < pairs.drop_last().len() && pairs.drop_last()[i].name == name;
            assert(pairs[i].name == name);
        } else if pairs_contain(pairs, name) {
            let i = choose|i: int| 0 <= i < pairs.len() && pairs[i].name == name;
            assert(i < pairs.len() - 1 ==> pairs.drop_last()[i].name == name);
        }
    }
}

/// With distinct names, each binding gives its name's value in the map.
pub proof fn lemma_map_of_get(pairs: Seq<IndexPair>, i: int)
    requires
        forall|a: int, b: int| 0 <= a < b < pairs.len() ==> pairs[a].name != pairs[b].name,
        0 <= i < pairs.len(),
    ensures
        map_of(pairs).contains_key(pairs[i].name),
        map_of(pairs)[pairs[i].name] == pairs[i].entry,
    decreases pairs.len(),
{
    if i == pairs.len() - 1 {
    } else {
        lemma_map_of_get(pairs.drop_last(), i);
        assert(pairs.drop_last()[i] == pairs[i]);
        assert(pairs[i].name != pairs[pairs.len() - 1].name);
    }
}

/// Replacing the binding at a position replaces that name in the map.
pub proof fn lemma_map_of_update(pairs: Seq<IndexPair>, i: int, e: Entry)
    requires
        forall|a: int, b: int| 0 <= a < b < pairs.len() ==> pairs[a].name != pairs[b].name,
        0 <= i < pairs.len(),
    ensures
        map_of(pairs.update(i, IndexPair { name: pairs[i].name, entry: e })) == map_of(
            pairs,
        ).insert(pairs[i].name, e),
    decreases pairs.len(),
{
    let p = IndexPair { name: pairs[i].name, entry: e };
    let updated = pairs.update(i, p);
    if i == pairs.len() - 1 {
        assert(updated.drop_last() =~= pairs.drop_last());
        assert(map_of(updated) =~= map_of(pairs).insert(pairs[i].name, e));
    } else {
        lemma_map_of_update(pairs.drop_last(), i, e);
        assert(updated.drop_last() =~= pairs.drop_last().update(i, p));
        assert(pairs.drop_last()[i] == pairs[i]);
        assert(updated.last() == pairs.last());
        assert(pairs[i].name != pairs.last().name);
        assert(map_of(updated) == map_of(pairs.drop_last()).insert(pairs[i].name, e).insert(
            pairs.last().name,
            pairs.last().entry,
        ));
        assert(map_of(pairs.drop_last()).insert(pairs[i].name, e).insert(
            pairs.last().name,
            pairs.last().entry,
        ) =~= map_of(pairs).insert(pairs[i].name, e));
    }
}

/// Appending a binding inserts its name into the map.
pub proof fn lemma_map_of_push(pairs: Seq<IndexPair>, p: IndexPair)
    ensures
        map_of(pairs.push(p)) == map_of(pairs).insert(p.name, p.entry),
{
    assert(pairs.push(p).drop_last() =~= pairs);
}

/// Removing the binding at a position removes that name from the map.
pub proof fn lemma_map_of_remove(pairs: Seq<IndexPair>, i: int)
    requires
        forall|a: int, b: int| 0 <= a < b < pairs.len() ==> pairs[a].name != pairs[b].name,
        0 <= i < pairs.len(),
    ensures
        map_of(pairs.remove(i)) == map_of(pairs).remove(pairs[i].name),
    decreases pairs.len(),
{
    if i == pairs.len() - 1 {
        lemma_map_of_contains(pairs.drop_last(), pairs[i].name);
        assert(forall|j: int|
            0 <= j < pairs.drop_last().len() ==> (#[trigger] pairs.drop_last()[j]).name
                == pairs[j].name);
        assert(!pairs_contain(pairs.drop_last(), pairs[i].name));
        assert(pairs.remove(i) =~= pairs.drop_last());
        assert(map_of(pairs.drop_last()) =~= map_of(pairs).remove(pairs[i].name));
    } else {
        lemma_map_of_remove(pairs.drop_last(), i);
        assert(pairs.remove(i).drop_last() =~= pairs.drop_last().remove(i));
        assert(pairs.remove(i).last() == pairs.last());
        assert(pairs.drop_last()[i] == pairs[i]);
        assert(pairs[i].name != pairs.last().name);
        assert(map_of(pairs.remove(i)) == map_of(pairs.drop_last().remove(i)).insert(
            pairs.last().name,
            pairs.last().entry,
        ));
        assert(map_of(pairs.drop_last()).remove(pairs[i].name).insert(
            pairs.last().name,
            pairs.last().entry,
        ) =~= map_of(pairs).remove(pairs[i].name));
    }
}

/// The in-memory index.
pub struct IndexMap {
    /// The bindings, in insertion order.
    pub entries: Vec<IndexEntry>,
}

impl View for IndexMap {
    type V = Seq<IndexPair>;

    open spec fn view(&self) -> Seq<IndexPair> {
        self.entries@.map_values(|ie: IndexEntry| ie@)
    }
}

impl IndexMap {
    /// The map this index describes.
    pub open spec fn spec_map(&self) -> Map<Seq<u8>, Entry> {
        map_of(self@)
    }

    /// Well-formed index: distinct names whose recorded lengths match.
    pub open spec fn wf(&self) -> bool {
        pairs_wf(self@)
    }

    /// Builds an empty index.
    pub fn new() -> (r: IndexMap)
        ensures
            r@ == Seq::<IndexPair>::empty(),
            r.wf(),
    {
        let r = IndexMap { entries: Vec::new() };
        proof {
            assert(r@ =~= Seq::<IndexPair>::empty());
        }
        r
    }

    /// Number of entries in the index.
    pub fn len(&self) -> (r: usize)
        ensures
            r == self@.len(),
    {
        self.entries.len()
    }

    /// Whether the index holds no entries.
    pub fn is_empty(&self) -> (r: bool)
        ensures
            r == (self@.len() == 0),
    {
        self.entries.len() == 0
    }

    /// Drops every entry.
    pub fn clear(&mut self)
        ensures
            final(self)@ == Seq::<IndexPair>::empty(),
            final(self).wf(),
    {
        self.entries.clear();
        proof {
            assert(final(self)@ =~= Seq::<IndexPair>::empty());
        }
    }

    /// The position of a name's binding, if the name is present.
    fn position_of(&self, name: &[u8]) -> (r: Option<usize>)
        ensures
            match r {
                Some(i) => 0 <= i < self@.len() && self@[i as int].name == name@,
                None => !pairs_contain(self@, name@),
            },
    {
        let n = self.entries.len();
        let mut i: usize = 0;
        while i < n
            invariant
                n == self@.len(),
                i <= n,
                forall|j: int| 0 <= j < i ==> self@[j].name != name@,
            decreases n - i,
        {
            if bytes_eq(self.entries[i].name.as_slice(), name) {
                return Some(i);
            }
            i = i + 1;
        }
        None
    }

    /// Looks a name up.
    pub fn get(&self, name: &[u8]) -> (r: Option<&Entry>)
        requires
            self.wf(),
        ensures
            r is Some <==> self.spec_map().contains_key(name@),
            r matches Some(e) ==> *e == self.spec_map()[name@],
    {
        proof {
            lemma_map_of_contains(self@, name@);
        }
        match self.position_of(name) {
            Some(i) => {
                proof {
                    lemma_map_of_get(self@, i as int);
                }
                Some(&self.entries[i].entry)
            },
            None => None,
        }
    }

    /// Whether a name is present.
    pub fn contains_key(&self, name: &[u8]) -> (r: bool)
        requires
            self.wf(),
        ensures
            r == self.spec_map().contains_key(name@),
    {
        self.get(name).is_some()
    }

    /// Binds a name to an entry, replacing any existing binding in place.
    pub fn insert(&mut self, name: Vec<u8>, entry: Entry)
        requires
            old(self).wf(),
            entry.name_len == name@.len(),
        ensures
            final(self).wf(),
            final(self).spec_map() == old(self).spec_map().insert(name@, entry),
            old(self).spec_map().contains_key(name@) ==> final(self)@ == old(self)@.update(
                pair_index_of(old(self)@, name@),
                IndexPair { name: name@, entry },
            ) && final(self)@.len() == old(self)@.len(),
            !old(self).spec_map().contains_key(name@) ==> final(self)@ == old(self)@.push(
                IndexPair { name: name@, entry },
            ) && final(self)@.len() == old(self)@.len() + 1,
    {
        proof {
            lemma_map_of_contains(self@, name@);
        }
        match self.position_of(name.as_slice()) {
            Some(i) => {
                let ghost orig = self@;
                let ghost k = pair_index_of(orig, name@);
                self.entries[i] = IndexEntry { name, entry };
                proof {
                    assert(0 <= k < orig.len() && orig[k].name == name@);
                    assert(k == i as int);
                    assert(final(self)@ =~= orig.update(i as int, IndexPair { name: name@, entry }));
                    lemma_map_of_update(orig, i as int, entry);
                    assert(forall|a: int, b: int|
                        0 <= a < b < final(self)@.len() ==> final(self)@[a].name
                            != final(self)@[b].name);
                }
            },
            None => {
                let ghost orig = self@;
                self.entries.push(IndexEntry { name, entry });
                proof {
                    assert(final(self)@ =~= orig.push(IndexPair { name: name@, entry }));
                    lemma_map_of_push(orig, IndexPair { name: name@, entry });
                    assert(forall|a: int, b: int|
                        0 <= a < b < final(self)@.len() ==> final(self)@[a].name
                            != final(self)@[b].name);
                }
            },
        }
    }

    /// Unbinds a name; reports whether it was present.
    pub fn remove(&mut self, name: &[u8]) -> (r: bool)
        requires
            old(self).wf(),
        ensures
            final(self).wf(),
            r == old(self).spec_map().contains_key(name@),
            final(self).spec_map() == old(self).spec_map().remove(name@),
            r ==> final(self)@ == old(self)@.remove(pair_index_of(old(self)@, name@))
                && final(self)@.len() + 1 == old(self)@.len(),
            !r ==> final(self)@ == old(self)@,
    {
        proof {
            lemma_map_of_contains(self@, name@);
        }
        match self.position_of(name) {
            Some(i) => {
                let ghost orig = self@;
                let ghost k = pair_index_of(orig, name@);
                self.entries.remove(i);
                proof {
                    assert(0 <= k < orig.len() && orig[k].name == name@);
                    assert(k == i as int);
                    assert(final(self)@ =~= orig.remove(i as int));
                    lemma_map_of_remove(orig, i as int);
                    assert(forall|a: int, b: int|
                        0 <= a < b < final(self)@.len() ==> final(self)@[a].name
                            != final(self)@[b].name);
                }
                true
            },
            None => {
                proof {
                    if self.spec_map().contains_key(name@) {
                        lemma_map_of_contains(self@, name@);
                    }
                    assert(self.spec_map() =~= self.spec_map().remove(name@)) by {
                        lemma_map_of_contains(self@, name@);
                    }
                }
                false
            },
        }
    }

    /// The name bound at a position, for walking the index.
    pub fn name_at(&self, i: usize) -> (r: &Vec<u8>)
        requires
            i < self@.len(),
        ensures
            r@ == self@[i as int].name,
    {
        &self.entries[i].name
    }

    /// The entry bound at a position, for walking the index.
    pub fn entry_at(&self, i: usize) -> (r: &Entry)
        requires
            i < self@.len(),
        ensures
            *r == self@[i as int].entry,
    {
        &self.entries[i].entry
    }
}

} // verus!
