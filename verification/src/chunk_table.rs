//! A table of named chunks in which each name occurs at most once.

use vstd::prelude::*;
use crate::bytecode::Chunk;

verus! {

/// The map that a list of named chunks stands for.
pub open spec fn entries_map(s: Seq<(String, Chunk)>) -> Map<Seq<char>, Chunk>
    decreases s.len(),
{
    if s.len() == 0 {
        Map::empty()
    } else {
        entries_map(s.drop_last()).insert(s.last().0@, s.last().1)
    }
}

/// No two entries share a name.
pub open spec fn distinct_names(s: Seq<(String, Chunk)>) -> bool {
    forall|i: int, j: int| 0 <= i < j < s.len() ==> s[i].0@ != s[j].0@
}

/// An entry's name maps to its chunk.
proof fn lemma_entries_map_has(s: Seq<(String, Chunk)>, i: int)
    requires
        distinct_names(s),
        0 <= i < s.len(),
    ensures
        entries_map(s).contains_key(s[i].0@),
        entries_map(s)[s[i].0@] == s[i].1,
    decreases s.len(),
{
    if i < s.len() - 1 {
        lemma_entries_map_has(s.drop_last(), i);
    }
}

/// A name that no entry has is absent from the map.
proof fn lemma_entries_map_absent(s: Seq<(String, Chunk)>, k: Seq<char>)
    requires
        forall|i: int| 0 <= i < s.len() ==> s[i].0@ != k,
    ensures
        !entries_map(s).contains_key(k),
    decreases s.len(),
{
    if s.len() > 0 {
        lemma_entries_map_absent(s.drop_last(), k);
    }
}

/// Named chunks, each name at most once.
pub struct ChunkTable {
    entries: Vec<(String, Chunk)>,
}

impl View for ChunkTable {
    type V = Map<Seq<char>, Chunk>;

    closed spec fn view(&self) -> Map<Seq<char>, Chunk> {
        entries_map(self.entries@)
    }
}

impl ChunkTable {
    #[verifier::type_invariant]
    closed spec fn names_distinct(self) -> bool {
        distinct_names(self.entries@)
    }

    /// The names, in the order they were added.
    pub closed spec fn names(self) -> Seq<Seq<char>> {
        self.entries@.map_values(|e: (String, Chunk)| e.0@)
    }

    /// An empty table.
    pub fn new() -> (t: ChunkTable)
        ensures
            t@ == Map::<Seq<char>, Chunk>::empty(),
            t.names() == Seq::<Seq<char>>::empty(),
    {
        ChunkTable { entries: Vec::new() }
    }

    /// The position of the entry named `name`, if any.
    fn find(&self, name: &String) -> (r: Option<usize>)
        ensures
            r matches Some(i) ==> i < self.entries@.len() && self.entries@[i as int].0@ == name@,
            r is None ==> forall|i: int| 0 <= i < self.entries@.len() ==> self.entries@[i].0@ != name@,
    {
        let mut i: usize = 0;
        while i < self.entries.len()
            invariant
                0 <= i <= self.entries@.len(),
                forall|j: int| 0 <= j < i ==> self.entries@[j].0@ != name@,
            decreases self.entries@.len() - i,
        {
            if self.entries[i].0 == *name {
                return Some(i);
            }
            i = i + 1;
        }
        None
    }

    /// Whether a chunk is named `name`.
    pub fn contains(&self, name: &String) -> (b: bool)
        ensures
            b == self@.contains_key(name@),
    {
        proof {
            use_type_invariant(self);
        }
        match self.find(name) {
            Some(i) => {
                proof {
                    lemma_entries_map_has(self.entries@, i as int);
                }
                true
            },
            None => {
                proof {
                    lemma_entries_map_absent(self.entries@, name@);
                }
                false
            },
        }
    }

    /// The chunk named `name`, if any.
    pub fn get(&self, name: &String) -> (r: Option<&Chunk>)
        ensures
            r matches Some(c) ==> self@.contains_key(name@) && *c == self@[name@],
            r is None ==> !self@.contains_key(name@),
    {
        proof {
            use_type_invariant(self);
        }
        match self.find(name) {
            Some(i) => {
                proof {
                    lemma_entries_map_has(self.entries@, i as int);
                }
                Some(&self.entries[i].1)
            },
            None => {
                proof {
                    lemma_entries_map_absent(self.entries@, name@);
                }
                None
            },
        }
    }

    /// Names `chunk` by `name`, replacing the chunk that had that name; a new
    /// name goes after the others.
    pub fn insert(&mut self, name: String, chunk: Chunk)
        ensures
            final(self)@ == old(self)@.insert(name@, chunk),
            final(self).names() == if old(self)@.contains_key(name@) {
                old(self).names()
            } else {
                old(self).names().push(name@)
            },
    {
        proof {
            use_type_invariant(&*self);
        }
        let found = self.find(&name);
        let ghost old_entries = self.entries@;
        let ghost key = name@;
        let mut entries: Vec<(String, Chunk)> = Vec::new();
        std::mem::swap(&mut entries, &mut self.entries);
        match found {
            Some(i) => {
                entries.set(i, (name, chunk));
                proof {
                    lemma_set_entry(old_entries, i as int, key, chunk, entries@);
                    lemma_entries_map_has(old_entries, i as int);
                    assert(entries@.map_values(|e: (String, Chunk)| e.0@) =~= old_entries.map_values(
                        |e: (String, Chunk)| e.0@,
                    ));
                }
            },
            None => {
                entries.push((name, chunk));
                proof {
                    lemma_entries_map_absent(old_entries, key);
                    assert(entries@.map_values(|e: (String, Chunk)| e.0@) =~= old_entries.map_values(
                        |e: (String, Chunk)| e.0@,
                    ).push(key));
                    assert(entries@.drop_last() == old_entries);
                    assert forall|a: int, b: int| 0 <= a < b < entries@.len() implies entries@[a].0@ != entries@[b].0@ by {
                        if b < entries@.len() - 1 {
                            assert(old_entries[a].0@ != old_entries[b].0@);
                        }
                    }
                }
            },
        }
        self.entries = entries;
    }

    /// The names of all chunks, in the order they were first added.
    pub fn names_vec(&self) -> (r: Vec<String>)
        ensures
            r@.len() == self.names().len(),
            forall|i: int| 0 <= i < r@.len() ==> r@[i]@ == self.names()[i],
            forall|i: int, j: int| 0 <= i < j < r@.len() ==> r@[i]@ != r@[j]@,
            forall|k: Seq<char>| self@.contains_key(k) <==> self.names().contains(k),
            forall|k: Seq<char>|
                self@.contains_key(k) <==> exists|i: int| 0 <= i < r@.len() && #[trigger] r@[i]@ == k,
    {
        proof {
            use_type_invariant(self);
            assert forall|k: Seq<char>| self@.contains_key(k) <==> self.names().contains(k) by {
                if self.names().contains(k) {
                    let i = choose|i: int| 0 <= i < self.names().len() && self.names()[i] == k;
                    lemma_entries_map_has(self.entries@, i);
                } else {
                    assert forall|i: int| 0 <= i < self.entries@.len() implies self.entries@[i].0@ != k by {
                        assert(self.names()[i] == self.entries@[i].0@);
                    }
                    lemma_entries_map_absent(self.entries@, k);
                }
            }
        }
        let mut out: Vec<String> = Vec::new();
        let mut i: usize = 0;
        while i < self.entries.len()
            invariant
                0 <= i <= self.entries@.len(),
                out@.len() == i,
                forall|j: int| 0 <= j < i ==> out@[j]@ == self.entries@[j].0@,
            decreases self.entries@.len() - i,
        {
            out.push(self.entries[i].0.clone());
            i = i + 1;
        }
        proof {
            assert forall|k: Seq<char>|
                self@.contains_key(k) <==> exists|i: int| 0 <= i < out@.len() && #[trigger] out@[i]@ == k by {
                if self@.contains_key(k) {
                    assert(self.names().contains(k));
                    let i = choose|i: int| 0 <= i < self.names().len() && self.names()[i] == k;
                    assert(self.names()[i] == self.entries@[i].0@);
                    assert(out@[i]@ == k);
                }
                if exists|i: int| 0 <= i < out@.len() && #[trigger] out@[i]@ == k {
                    let i = choose|i: int| 0 <= i < out@.len() && #[trigger] out@[i]@ == k;
                    assert(self.names()[i] == self.entries@[i].0@);
                    assert(self.names()[i] == k);
                    assert(self.names().contains(k));
                }
            }
        }
        out
    }
}

/// Replacing the chunk of an existing name keeps the names distinct and
/// updates the map at that name.
proof fn lemma_set_entry(
    s: Seq<(String, Chunk)>,
    i: int,
    key: Seq<char>,
    chunk: Chunk,
    t: Seq<(String, Chunk)>,
)
    requires
        distinct_names(s),
        0 <= i < s.len(),
        s[i].0@ == key,
        t.len() == s.len(),
        t[i].0@ == key,
        t[i].1 == chunk,
        forall|j: int| 0 <= j < s.len() && j != i ==> t[j] == s[j],
    ensures
        distinct_names(t),
        entries_map(t) == entries_map(s).insert(key, chunk),
    decreases s.len(),
{
    assert(distinct_names(t)) by {
        assert forall|a: int, b: int| 0 <= a < b < t.len() implies t[a].0@ != t[b].0@ by {
            assert(s[a].0@ != s[b].0@);
        }
    }
    if i == s.len() - 1 {
        assert(t.drop_last() == s.drop_last());
        assert(entries_map(s).insert(key, chunk) =~= entries_map(s.drop_last()).insert(key, chunk));
    } else {
        lemma_set_entry(s.drop_last(), i, key, chunk, t.drop_last());
        assert(s.last().0@ != key);
        assert(t.last() == s.last());
        assert(entries_map(t) =~= entries_map(s).insert(key, chunk));
    }
}

} // verus!
