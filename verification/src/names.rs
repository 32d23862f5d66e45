//! Maps from names to values.

use vstd::prelude::*;

verus! {

/// A finite map from names to values, kept in the order of first insertion.
///
/// No name occurs twice, so the map that the structure stands for is read off
/// directly: a name is bound to the value stored beside it.
#[derive(Debug)]
pub struct NameMap<V> {
    names: Vec<String>,
    values: Vec<V>,
}

impl<V> NameMap<V> {
    /// Names and values pair up, and no name occurs twice.
    pub closed spec fn wf(&self) -> bool {
        &&& self.names@.len() == self.values@.len()
        &&& forall|i: int, j: int|
            0 <= i < j < self.names@.len() ==> self.names@[i]@ != self.names@[j]@
    }

    /// The names in order of first insertion.
    pub closed spec fn keys(&self) -> Seq<Seq<char>> {
        Seq::new(self.names@.len(), |i: int| self.names@[i]@)
    }

    /// The values, each at the index of its name in `keys`.
    pub closed spec fn entries(&self) -> Seq<V> {
        self.values@
    }

    /// The index at which `name` is stored, if it is bound.
    pub open spec fn position(&self, name: Seq<char>) -> Option<int> {
        if self.keys().contains(name) {
            Some(self.keys().index_of(name))
        } else {
            None
        }
    }

    /// The map this structure stands for.
    pub open spec fn view(&self) -> Map<Seq<char>, V> {
        Map::new(
            |name: Seq<char>| self.keys().contains(name),
            |name: Seq<char>| self.entries()[self.keys().index_of(name)],
        )
    }

    /// In a well-formed map names and values pair up and no name occurs twice.
    pub proof fn lemma_shape(&self)
        requires
            self.wf(),
        ensures
            self.keys().len() == self.entries().len(),
            self.keys().no_duplicates(),
    {
    }

    /// The empty map.
    pub fn new() -> (r: Self)
        ensures
            r.wf(),
            r@ == Map::<Seq<char>, V>::empty(),
            r.keys() == Seq::<Seq<char>>::empty(),
            r.entries() == Seq::<V>::empty(),
    {
        let r = NameMap { names: Vec::new(), values: Vec::new() };
        assert(r.keys() =~= Seq::<Seq<char>>::empty());
        assert(r@ =~= Map::<Seq<char>, V>::empty());
        r
    }

    /// The number of names.
    pub fn len(&self) -> (n: usize)
        requires
            self.wf(),
        ensures
            n == self.keys().len(),
            n == self.entries().len(),
    {
        self.names.len()
    }

    /// The index of `name`, if it is bound.
    pub fn find(&self, name: &String) -> (r: Option<usize>)
        requires
            self.wf(),
        ensures
            r is Some <==> self@.contains_key(name@),
            r is Some <==> self.keys().contains(name@),
            r is Some ==> 0 <= r->0 < self.keys().len() && r->0 < self.entries().len()
                && self.keys()[r->0 as int] == name@
                && self.keys().index_of(name@) == r->0,
    {
        let mut i: usize = 0;
        while i < self.names.len()
            invariant
                self.wf(),
                i <= self.names@.len(),
                forall|j: int| 0 <= j < i ==> self.names@[j]@ != name@,
            decreases self.names@.len() - i,
        {
            if self.names[i] == *name {
                assert(self.keys()[i as int] == name@);
                assert(self.keys().contains(name@));
                proof {
                    let k = self.keys().index_of(name@);
                    assert(self.keys()[k] == name@);
                    if k != i as int {
                        if k < i {
                            assert(self.names@[k]@ != self.names@[i as int]@);
                        } else {
                            assert(self.names@[i as int]@ != self.names@[k]@);
                        }
                    }
                }
                return Some(i);
            }
            i += 1;
        }
        proof {
            if self.keys().contains(name@) {
                let k = self.keys().index_of(name@);
                assert(self.keys()[k] == name@);
                assert(self.names@[k]@ == name@);
            }
        }
        None
    }

    /// Whether `name` is bound.
    pub fn contains_key(&self, name: &String) -> (r: bool)
        requires
            self.wf(),
        ensures
            r == self@.contains_key(name@),
    {
        self.find(name).is_some()
    }

    /// The value bound to `name`, if there is one.
    pub fn get(&self, name: &String) -> (r: Option<&V>)
        requires
            self.wf(),
        ensures
            r is Some <==> self@.contains_key(name@),
            r is Some ==> *r->0 == self@[name@],
    {
        match self.find(name) {
            Some(i) => Some(&self.values[i]),
            None => None,
        }
    }

    /// The name stored at index `i`.
    pub fn key_at(&self, i: usize) -> (r: &String)
        requires
            self.wf(),
            i < self.keys().len(),
        ensures
            r@ == self.keys()[i as int],
    {
        &self.names[i]
    }

    /// The value stored at index `i`.
    pub fn value_at(&self, i: usize) -> (r: &V)
        requires
            self.wf(),
            i < self.entries().len(),
        ensures
            *r == self.entries()[i as int],
    {
        &self.values[i]
    }

    /// Binds `name` to `value`, and returns the value that was bound to it
    /// before, if any. A new name goes to the end; a known name keeps its place.
    pub fn insert(&mut self, name: String, value: V) -> (r: Option<V>)
        requires
            old(self).wf(),
        ensures
            final(self).wf(),
            final(self)@ == old(self)@.insert(name@, value),
            r is Some <==> old(self)@.contains_key(name@),
            old(self)@.contains_key(name@) <==> old(self).keys().contains(name@),
            r is Some ==> r->0 == old(self)@[name@],
            old(self)@.contains_key(name@) ==> final(self).keys() == old(self).keys()
                && final(self).entries() == old(self).entries().update(
                old(self).keys().index_of(name@),
                value,
            ),
            !old(self)@.contains_key(name@) ==> final(self).keys() == old(self).keys().push(name@)
                && final(self).entries() == old(self).entries().push(value),
    {
        let ghost before = *self;
        match self.find(&name) {
            Some(i) => {
                let mut value = value;
                std::mem::swap(&mut self.values[i], &mut value);
                proof {
                    assert(self.names@ == before.names@);
                    assert(self.keys() =~= before.keys());
                    assert(self.entries() =~= before.entries().update(i as int, self.values@[i as int]));
                    assert(self@ =~= before@.insert(name@, self.values@[i as int]));
                }
                Some(value)
            },
            None => {
                self.names.push(name);
                self.values.push(value);
                proof {
                    assert forall|i: int, j: int| 0 <= i < j < self.names@.len() implies self.names@[i]@
                        != self.names@[j]@ by {
                        if j == before.names@.len() {
                            assert(before.keys()[i] == before.names@[i]@);
                            assert(!before.keys().contains(name@));
                        } else {
                            assert(before.names@[i]@ != before.names@[j]@);
                        }
                    }
                    assert(self.keys() =~= before.keys().push(name@));
                    assert forall|k: Seq<char>| before.keys().contains(k) implies self.keys().index_of(k)
                        == before.keys().index_of(k) by {
                        let a = before.keys().index_of(k);
                        assert(self.keys()[a] == k);
                        let b = self.keys().index_of(k);
                        assert(self.keys().contains(k));
                        assert(self.keys()[b] == k);
                        if b != a {
                            if b == before.keys().len() {
                                assert(name@ == k);
                            } else {
                                assert(before.keys()[b] == k);
                            }
                        }
                    }
                    assert(self.keys().contains(name@)) by {
                        assert(self.keys()[before.keys().len() as int] == name@);
                    }
                    assert(self.keys().index_of(name@) == before.keys().len()) by {
                        let b = self.keys().index_of(name@);
                        assert(self.keys()[b] == name@);
                        if b != before.keys().len() {
                            assert(before.keys()[b] == name@);
                            assert(before.keys().contains(name@));
                        }
                    }
                    assert forall|k: Seq<char>| self.keys().contains(k) implies (k == name@
                        || before.keys().contains(k)) by {
                        let b = self.keys().index_of(k);
                        assert(self.keys()[b] == k);
                        if b != before.keys().len() {
                            assert(before.keys()[b] == k);
                        }
                    }
                    assert forall|k: Seq<char>| before.keys().contains(k) implies self.keys().contains(k) by {
                        let a = before.keys().index_of(k);
                        assert(self.keys()[a] == k);
                    }
                    assert(self@ =~= before@.insert(name@, value));
                }
                None
            },
        }
    }
}

} // verus!
