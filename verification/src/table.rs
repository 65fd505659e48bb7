//! A table of values under names.

use crate::text::str_eq;
use vstd::prelude::*;

verus! {

/// Values under names. No name occurs twice.
pub struct Table<V> {
    rows: Vec<(String, V)>,
}

impl<V> Table<V> {
    /// Row `i` has a name.
    spec fn named(self, i: int, name: Seq<char>) -> bool {
        0 <= i < self.rows@.len() && self.rows@[i].0@ == name
    }

    /// The row with a name.
    spec fn row(self, name: Seq<char>) -> int {
        choose|i: int| #[trigger] self.named(i, name)
    }

    /// The names of the rows.
    spec fn row_names(self) -> Seq<Seq<char>> {
        Seq::new(self.rows@.len(), |i: int| self.rows@[i].0@)
    }

    /// No name occurs twice.
    pub closed spec fn wf(self) -> bool {
        self.row_names().no_duplicates()
    }
}

impl<V> View for Table<V> {
    type V = Map<Seq<char>, V>;

    closed spec fn view(&self) -> Map<Seq<char>, V> {
        Map::new(
            |name: Seq<char>| exists|i: int| #[trigger] self.named(i, name),
            |name: Seq<char>| self.rows@[self.row(name)].1,
        )
    }
}

impl<V> Table<V> {
    proof fn lemma_row(self, i: int)
        requires
            0 <= i < self.rows@.len(),
            self.wf(),
        ensures
            self.row(self.rows@[i].0@) == i,
            self@.dom().contains(self.rows@[i].0@),
            self@[self.rows@[i].0@] == self.rows@[i].1,
    {
        let name = self.rows@[i].0@;
        assert(self.named(i, name));
        let j = self.row(name);
        assert(self.named(j, name));
        assert(self.row_names()[i] == self.row_names()[j]);
    }

    /// The names of a table are finite, as many as its rows.
    proof fn lemma_names(self)
        requires
            self.wf(),
        ensures
            self@.dom() =~= self.row_names().to_set(),
            self@.dom().finite(),
            self@.dom().len() == self.rows@.len(),
    {
        let names = self.row_names();
        assert forall|name: Seq<char>| self@.dom().contains(name) implies names.to_set().contains(
            name,
        ) by {
            let i = choose|i: int| #[trigger] self.named(i, name);
            assert(names[i] == name);
        }
        assert forall|name: Seq<char>| names.to_set().contains(name) implies self@.dom().contains(
            name,
        ) by {
            let i = choose|i: int| 0 <= i < self.row_names().len() && self.row_names()[i] == name;
            assert(self.named(i, name));
        }
        assert(self@.dom() =~= self.row_names().to_set());
        self.row_names().unique_seq_to_set();
    }

    /// A table without rows.
    pub fn new() -> (t: Self)
        ensures
            t.wf(),
            t@ == Map::<Seq<char>, V>::empty(),
    {
        let t = Table { rows: Vec::new() };
        assert(t@ =~= Map::<Seq<char>, V>::empty());
        t
    }

    fn find(&self, name: &str) -> (i: Option<usize>)
        ensures
            i is Some <==> self@.dom().contains(name@),
            i is Some ==> self.named(i->Some_0 as int, name@),
    {
        for i in 0..self.rows.len()
            invariant
                forall|j: int| 0 <= j < i ==> !#[trigger] self.named(j, name@),
        {
            if str_eq(self.rows[i].0.as_str(), name) {
                assert(self.named(i as int, name@));
                return Some(i);
            }
        }
        None
    }

    /// There is a value under a name.
    pub fn contains(&self, name: &str) -> (r: bool)
        ensures
            r == self@.dom().contains(name@),
    {
        self.find(name).is_some()
    }

    /// The value under a name.
    pub fn get(&self, name: &str) -> (v: Option<&V>)
        requires
            self.wf(),
        ensures
            v is Some <==> self@.dom().contains(name@),
            v is Some ==> *v->Some_0 == self@[name@],
    {
        match self.find(name) {
            Some(i) => {
                proof {
                    self.lemma_row(i as int);
                }
                Some(&self.rows[i].1)
            },
            None => None,
        }
    }

    /// Puts a value under a name, in place of any that was there.
    pub fn insert(&mut self, name: &str, value: V)
        requires
            old(self).wf(),
        ensures
            final(self).wf(),
            final(self)@ == old(self)@.insert(name@, value),
    {
        let ghost before = *self;
        match self.find(name) {
            Some(i) => {
                let key: String = name.to_owned();
                self.rows.set(i, (key, value));
                proof {
                    assert(self.row_names() =~= before.row_names());
                    assert forall|n: Seq<char>|
                        #![trigger self@.dom().contains(n)]
                        #![trigger self@[n]]
                        self@.dom().contains(n) == before@.insert(
                        name@,
                        value,
                    ).dom().contains(n) && (self@.dom().contains(n) ==> self@[n] == before@.insert(
                        name@,
                        value,
                    )[n]) by {
                        if before@.dom().contains(n) {
                            let k = before.row(n);
                            assert(before.named(k, n));
                            assert(self.named(k, n));
                            self.lemma_row(k);
                            before.lemma_row(k);
                            if k == i {
                                assert(n == name@);
                            } else {
                                assert(before.row_names()[k] != before.row_names()[i as int]);
                            }
                        }
                        if self@.dom().contains(n) {
                            let k = self.row(n);
                            assert(self.named(k, n));
                            assert(self.row_names()[k] == before.row_names()[k]);
                            assert(before.named(k, n));
                        }
                        self.lemma_row(i as int);
                    }
                    assert(self@ =~= before@.insert(name@, value));
                }
            },
            None => {
                let key: String = name.to_owned();
                proof {
                    let after = before.row_names().push(name@);
                    assert forall|i: int, j: int|
                        0 <= i < after.len() && 0 <= j < after.len() && i != j implies after[i]
                        != after[j] by {
                        if i == after.len() - 1 {
                            assert(!before.named(j, name@));
                        } else if j == after.len() - 1 {
                            assert(!before.named(i, name@));
                        } else {
                            assert(before.row_names()[i] != before.row_names()[j]);
                        }
                    }
                }
                self.rows.push((key, value));
                proof {
                    let last = before.rows@.len() as int;
                    assert(self.row_names() =~= before.row_names().push(name@));
                    assert forall|n: Seq<char>|
                        #![trigger self@.dom().contains(n)]
                        #![trigger self@[n]]
                        self@.dom().contains(n) == before@.insert(
                        name@,
                        value,
                    ).dom().contains(n) && (self@.dom().contains(n) ==> self@[n] == before@.insert(
                        name@,
                        value,
                    )[n]) by {
                        if before@.dom().contains(n) {
                            let k = before.row(n);
                            assert(before.named(k, n));
                            assert(self.named(k, n));
                            self.lemma_row(k);
                            before.lemma_row(k);
                        }
                        if self@.dom().contains(n) {
                            let k = self.row(n);
                            assert(self.named(k, n));
                            if k < last {
                                assert(before.named(k, n));
                            }
                        }
                        self.lemma_row(last);
                    }
                    assert(self@ =~= before@.insert(name@, value));
                }
            },
        }
    }

    /// Takes the value under a name out of the table.
    pub fn remove(&mut self, name: &str) -> (v: Option<V>)
        requires
            old(self).wf(),
        ensures
            final(self).wf(),
            final(self)@ == old(self)@.remove(name@),
            v is Some <==> old(self)@.dom().contains(name@),
            v is Some ==> v->Some_0 == old(self)@[name@],
    {
        let ghost before = *self;
        match self.find(name) {
            Some(i) => {
                let row: (String, V) = self.rows.remove(i);
                proof {
                    before.lemma_row(i as int);
                    assert(self.row_names() =~= before.row_names().remove(i as int));
                    assert forall|n: Seq<char>|
                        #![trigger self@.dom().contains(n)]
                        #![trigger self@[n]]
                        self@.dom().contains(n) == before@.remove(
                        name@,
                    ).dom().contains(n) && (self@.dom().contains(n) ==> self@[n]
                        == before@.remove(name@)[n]) by {
                        if before@.dom().contains(n) && n != name@ {
                            let k = before.row(n);
                            assert(before.named(k, n));
                            let m = if k < i {
                                k
                            } else {
                                k - 1
                            };
                            assert(self.named(m, n));
                            self.lemma_row(m);
                            before.lemma_row(k);
                        }
                        if self@.dom().contains(n) {
                            let m = self.row(n);
                            assert(self.named(m, n));
                            let k = if m < i {
                                m
                            } else {
                                m + 1
                            };
                            assert(before.named(k, n));
                            assert(before.row_names()[k] != before.row_names()[i as int]);
                        }
                    }
                    assert(self@ =~= before@.remove(name@));
                }
                Some(row.1)
            },
            None => {
                assert(before@.remove(name@) =~= before@);
                None
            },
        }
    }

    /// The number of rows.
    pub fn len(&self) -> (n: usize)
        requires
            self.wf(),
        ensures
            n == self@.dom().len(),
            self@.dom().finite(),
    {
        proof {
            self.lemma_names();
        }
        self.rows.len()
    }

    /// The names of the table.
    pub fn names(&self) -> (names: Vec<String>)
        requires
            self.wf(),
        ensures
            crate::text::texts(names@).no_duplicates(),
            crate::text::texts(names@).to_set() == self@.dom(),
    {
        let mut names: Vec<String> = Vec::new();
        for i in 0..self.rows.len()
            invariant
                names@.len() == i,
                forall|j: int| 0 <= j < i ==> #[trigger] names@[j]@ == self.rows@[j].0@,
        {
            names.push(self.rows[i].0.as_str().to_owned());
        }
        proof {
            self.lemma_names();
            assert(crate::text::texts(names@) =~= self.row_names());
        }
        names
    }
}

} // verus!
