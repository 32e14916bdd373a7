//! The code table: each name with its codeword.

use vstd::prelude::*;
use vstd::hash_map::StringHashMap;

verus! {

/// A table from names to codewords, in which no name stands twice.
///
/// The view is the map from each name to its codeword, a sequence of bits.
/// The entries stand in the order in which their names first came in, and
/// an index from each name to the place of its entry finds them.
pub struct HuffmanCodeMap {
    entries: Vec<(String, Vec<u8>)>,
    index: StringHashMap<usize>,
}

/// Whether some entry has the name.
spec fn has_name(entries: Seq<(String, Vec<u8>)>, name: Seq<char>) -> bool {
    exists|i: int| 0 <= i < entries.len() && (#[trigger] entries[i]).0@ == name
}

/// The place of an entry with the name.
spec fn place_of(entries: Seq<(String, Vec<u8>)>, name: Seq<char>) -> int {
    choose|i: int| 0 <= i < entries.len() && (#[trigger] entries[i]).0@ == name
}

/// No two entries have one name.
spec fn distinct_names(entries: Seq<(String, Vec<u8>)>) -> bool {
    forall|i: int, j: int|
        0 <= i < j < entries.len() ==> (#[trigger] entries[i]).0@ != (#[trigger] entries[j]).0@
}

/// The map that the entries spell out.
spec fn map_of(entries: Seq<(String, Vec<u8>)>) -> Map<Seq<char>, Seq<u8>> {
    Map::new(
        |name: Seq<char>| has_name(entries, name),
        |name: Seq<char>| entries[place_of(entries, name)].1@,
    )
}

/// The index knows every entry's place, and nothing else.
spec fn indexed(entries: Seq<(String, Vec<u8>)>, index: Map<Seq<char>, usize>) -> bool {
    &&& forall|i: int|
        0 <= i < entries.len() ==> index.dom().contains((#[trigger] entries[i]).0@)
            && index[entries[i].0@] == i
    &&& forall|name: Seq<char>| #[trigger]
        index.dom().contains(name) ==> index[name] < entries.len()
            && entries[index[name] as int].0@ == name
}

impl View for HuffmanCodeMap {
    type V = Map<Seq<char>, Seq<u8>>;

    closed spec fn view(&self) -> Map<Seq<char>, Seq<u8>> {
        map_of(self.entries@)
    }
}

impl HuffmanCodeMap {
    /// The names of the table, in the order in which they first came in.
    pub closed spec fn names(&self) -> Seq<Seq<char>> {
        self.entries@.map_values(|e: (String, Vec<u8>)| e.0@)
    }

    /// No name stands twice, and the table has as many entries as its map
    /// has names.
    pub closed spec fn wf(&self) -> bool {
        &&& distinct_names(self.entries@)
        &&& indexed(self.entries@, self.index@)
        &&& self@.dom().finite()
        &&& self@.dom().len() == self.entries@.len()
    }

    /// The empty table.
    pub fn new() -> (table: HuffmanCodeMap)
        ensures
            table.wf(),
            table@ == Map::<Seq<char>, Seq<u8>>::empty(),
            table.names() == Seq::<Seq<char>>::empty(),
    {
        let table = HuffmanCodeMap { entries: Vec::new(), index: StringHashMap::new() };
        assert(table@ =~= Map::<Seq<char>, Seq<u8>>::empty());
        assert(table.names() =~= Seq::<Seq<char>>::empty());
        table
    }

    /// In a sound table the names are those of the map, each once.
    pub proof fn lemma_names(&self)
        requires
            self.wf(),
        ensures
            self.names().no_duplicates(),
            self.names().len() == self@.len(),
            forall|name: Seq<char>| self.names().contains(name) <==> self@.dom().contains(name),
    {
        let names = self.names();
        let all = self.entries@;
        assert forall|name: Seq<char>| names.contains(name) <==> self@.dom().contains(name) by {
            if names.contains(name) {
                let i = choose|i: int| 0 <= i < names.len() && names[i] == name;
                assert(all[i].0@ == name);
            }
            if has_name(all, name) {
                let i = place_of(all, name);
                assert(names[i] == name);
            }
        }
    }

    /// The number of names in the table.
    pub fn len(&self) -> (n: usize)
        requires
            self.wf(),
        ensures
            n == self@.len(),
            n == self.names().len(),
    {
        self.entries.len()
    }

    /// The place of the entry with the name, if there is one.
    fn find(&self, name: &String) -> (place: Option<usize>)
        requires
            self.wf(),
        ensures
            place.is_some() <==> has_name(self.entries@, name@),
            place matches Some(i) ==> i < self.entries@.len() && self.entries@[i as int].0@
                == name@,
    {
        match self.index.get(name.as_str()) {
            Some(place) => Some(*place),
            None => {
                assert(!has_name(self.entries@, name@)) by {
                    if has_name(self.entries@, name@) {
                        let i = place_of(self.entries@, name@);
                        assert(self.index@.dom().contains(self.entries@[i].0@));
                    }
                }
                None
            },
        }
    }

    /// The codeword of the name, if the table has the name.
    pub fn get(&self, name: &String) -> (code: Option<&Vec<u8>>)
        requires
            self.wf(),
        ensures
            code.is_some() <==> self@.dom().contains(name@),
            code matches Some(bits) ==> bits@ == self@[name@],
    {
        match self.find(name) {
            None => None,
            Some(i) => {
                assert(place_of(self.entries@, name@) == i);
                Some(&self.entries[i].1)
            },
        }
    }

    /// Gives the name the codeword, in place of the one it had, if any.
    pub fn insert(&mut self, name: String, code: Vec<u8>)
        requires
            old(self).wf(),
        ensures
            final(self).wf(),
            final(self)@ == old(self)@.insert(name@, code@),
            final(self).names() == if old(self).names().contains(name@) {
                old(self).names()
            } else {
                old(self).names().push(name@)
            },
    {
        proof {
            self.lemma_names();
        }
        let ghost before = self.entries@;
        let ghost key = name@;
        let ghost bits = code@;
        match self.find(&name) {
            Some(i) => {
                self.entries.set(i, (name, code));
                proof {
                    let after = self.entries@;
                    assert forall|n: Seq<char>| has_name(after, n) == has_name(before, n) by {
                        if has_name(before, n) {
                            let k = place_of(before, n);
                            assert(after[k].0@ == n);
                        }
                        if has_name(after, n) {
                            let k = place_of(after, n);
                            assert(before[k].0@ == n);
                        }
                    }
                    assert forall|n: Seq<char>| has_name(after, n) implies map_of(after)[n] == (
                    if n == key {
                        bits
                    } else {
                        map_of(before)[n]
                    }) by {
                        let k = place_of(after, n);
                        let l = place_of(before, n);
                        assert(before[k].0@ == n);
                        assert(k == l);
                    }
                    assert(before[i as int].0@ == key);
                    assert(map_of(after) =~= map_of(before).insert(key, bits));
                    assert(map_of(after).dom() =~= map_of(before).dom());
                    assert(self.names() =~= old(self).names());
                }
            },
            None => {
                let place = self.entries.len();
                self.index.insert(name.clone(), place);
                self.entries.push((name, code));
                proof {
                    let after = self.entries@;
                    assert(after[before.len() as int].0@ == key);
                    assert forall|n: Seq<char>| has_name(after, n) == (n == key || has_name(
                        before,
                        n,
                    )) by {
                        if has_name(before, n) {
                            let k = place_of(before, n);
                            assert(after[k].0@ == n);
                        }
                        if has_name(after, n) && n != key {
                            let k = place_of(after, n);
                            assert(before[k].0@ == n);
                        }
                    }
                    assert forall|n: Seq<char>| has_name(after, n) implies map_of(after)[n] == (
                    if n == key {
                        bits
                    } else {
                        map_of(before)[n]
                    }) by {
                        let k = place_of(after, n);
                        if n != key {
                            let l = place_of(before, n);
                            assert(after[l].0@ == n);
                            assert(k == l);
                        } else {
                            assert(k == before.len());
                        }
                    }
                    assert(map_of(after) =~= map_of(before).insert(key, bits));
                    assert(map_of(after).dom() =~= map_of(before).dom().insert(key));
                    assert(self.names() =~= old(self).names().push(key));
                }
            },
        }
    }

    /// The entries of the table: each name with its codeword, in the order
    /// of the names.
    pub fn entries(&self) -> (entries: &Vec<(String, Vec<u8>)>)
        requires
            self.wf(),
        ensures
            entries@.len() == self.names().len(),
            forall|i: int|
                0 <= i < entries@.len() ==> (#[trigger] entries@[i]).0@ == self.names()[i]
                    && entries@[i].1@ == self@[self.names()[i]],
    {
        proof {
            let all = self.entries@;
            assert forall|i: int| 0 <= i < all.len() implies (#[trigger] all[i]).0@
                == self.names()[i] && all[i].1@ == self@[self.names()[i]] by {
                assert(place_of(all, all[i].0@) == i);
            }
        }
        &self.entries
    }
}

} // verus!
