//! A table of values kept under distinct names, in the order the names came in.
use vstd::prelude::*;

verus! {

/// Values under names, no name twice, oldest name first.
pub struct NameTable<V> {
    entries: Vec<(String, V)>,
}

impl<V> NameTable<V> {
    /// The names with their values, oldest name first.
    pub closed spec fn entries(&self) -> Seq<(Seq<char>, V)> {
        self.entries@.map_values(|e: (String, V)| (e.0@, e.1))
    }

    /// The names, oldest first.
    pub open spec fn names(&self) -> Seq<Seq<char>> {
        self.entries().map_values(|e: (Seq<char>, V)| e.0)
    }

    /// The values, in the order of their names.
    pub open spec fn values(&self) -> Seq<V> {
        self.entries().map_values(|e: (Seq<char>, V)| e.1)
    }

    /// No name stands twice in the table.
    #[verifier::type_invariant]
    pub open spec fn well_formed(&self) -> bool {
        self.names().no_duplicates()
    }

    /// The value under `name`, if the table has that name.
    pub open spec fn lookup(&self, name: Seq<char>) -> Option<V> {
        if self.names().contains(name) {
            Some(self.values()[self.names().index_of(name)])
        } else {
            None
        }
    }

    /// An empty table.
    pub fn new() -> (table: Self)
        ensures
            table.entries() == Seq::<(Seq<char>, V)>::empty(),
    {
        let table = NameTable { entries: Vec::new() };
        assert(table.entries() =~= Seq::<(Seq<char>, V)>::empty());
        table
    }

    /// The number of names.
    pub fn len(&self) -> (n: usize)
        ensures
            n == self.entries().len(),
    {
        self.entries.len()
    }

    /// The place of `name` in the table, if it is there.
    pub fn position(&self, name: &String) -> (place: Option<usize>)
        ensures
            place == (if self.names().contains(name@) {
                Some(self.names().index_of(name@) as usize)
            } else {
                None::<usize>
            }),
            match place {
                Some(i) => i < self.entries().len() && self.names()[i as int] == name@,
                None => !self.names().contains(name@),
            },
    {
        proof {
            use_type_invariant(self);
        }
        let mut i: usize = 0;
        while i < self.entries.len()
            invariant
                i <= self.entries@.len(),
                self.names().no_duplicates(),
                forall|j: int| 0 <= j < i ==> self.names()[j] != name@,
            decreases self.entries@.len() - i,
        {
            if self.entries[i].0 == *name {
                assert(self.names()[i as int] == name@);
                return Some(i);
            }
            i = i + 1;
        }
        assert(!self.names().contains(name@));
        None
    }

    /// The value at place `i`.
    pub fn value_at(&self, i: usize) -> (value: &V)
        requires
            i < self.entries().len(),
        ensures
            *value == self.values()[i as int],
    {
        &self.entries[i].1
    }

    /// Puts `value` at place `i`, under the name already there, and hands back the value
    /// that was there.
    pub fn replace_at(&mut self, i: usize, value: V) -> (previous: V)
        requires
            i < old(self).entries().len(),
        ensures
            previous == old(self).values()[i as int],
            final(self).entries() == old(self).entries().update(
                i as int,
                (old(self).names()[i as int], value),
            ),
    {
        proof {
            use_type_invariant(&*self);
        }
        let ghost before = self.entries();
        let mut entries: Vec<(String, V)> = Vec::new();
        std::mem::swap(&mut entries, &mut self.entries);
        let (name, previous) = entries.remove(i);
        entries.insert(i, (name, value));
        let ghost after = entries@.map_values(|e: (String, V)| (e.0@, e.1));
        assert(after =~= before.update(i as int, (before[i as int].0, value)));
        assert(after.map_values(|e: (Seq<char>, V)| e.0) =~= before.map_values(
            |e: (Seq<char>, V)| e.0,
        ));
        self.entries = entries;
        previous
    }

    /// Puts `value` under `name`: in the place of the name where the table has it, at the
    /// end where it has not. Hands back the value that stood under the name.
    pub fn insert(&mut self, name: String, value: V) -> (previous: Option<V>)
        ensures
            previous == old(self).lookup(name@),
            final(self).entries() == (if old(self).names().contains(name@) {
                old(self).entries().update(old(self).names().index_of(name@), (name@, value))
            } else {
                old(self).entries().push((name@, value))
            }),
    {
        proof {
            use_type_invariant(&*self);
        }
        let found = self.position(&name);
        match found {
            Some(i) => {
                let ghost before = self.entries();
                assert(before[i as int].0 == name@);
                assert(before[i as int].1 == self.values()[i as int]);
                let previous = self.replace_at(i, value);
                Some(previous)
            },
            None => {
                let ghost before = self.entries();
                let mut entries: Vec<(String, V)> = Vec::new();
                std::mem::swap(&mut entries, &mut self.entries);
                let ghost key = name@;
                entries.push((name, value));
                let ghost after = entries@.map_values(|e: (String, V)| (e.0@, e.1));
                assert(after =~= before.push((key, value)));
                let ghost names = after.map_values(|e: (Seq<char>, V)| e.0);
                assert(names =~= before.map_values(|e: (Seq<char>, V)| e.0).push(key));
                self.entries = entries;
                None
            },
        }
    }
}

} // verus!
