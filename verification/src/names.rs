//! A table from names to values that keeps its entries in the order in which they came.

use vstd::prelude::*;

verus! {

/// A table with one value for each of its names.
#[derive(Debug)]
#[verifier::reject_recursive_types(V)]
pub struct NameMap<V> {
    names: Vec<String>,
    values: Vec<V>,
}

/// The texts of a list of strings.
pub open spec fn texts(names: Seq<String>) -> Seq<Seq<char>> {
    Seq::new(names.len(), |i: int| names[i]@)
}

/// A list of names with one name taken out.
pub open spec fn without(names: Seq<Seq<char>>, name: Seq<char>) -> Seq<Seq<char>> {
    names.filter(|other: Seq<char>| other != name)
}

impl<V> View for NameMap<V> {
    type V = Map<Seq<char>, V>;

    closed spec fn view(&self) -> Map<Seq<char>, V> {
        Map::new(
            |name: Seq<char>| self.order().contains(name),
            |name: Seq<char>| self.values@[self.order().index_of(name)],
        )
    }
}

impl<V> NameMap<V> {
    /// The names in their order.
    pub closed spec fn order(&self) -> Seq<Seq<char>> {
        texts(self.names@)
    }

    /// Whether each name has one value and occurs once.
    pub closed spec fn wf(&self) -> bool {
        &&& self.names@.len() == self.values@.len()
        &&& self.order().no_duplicates()
    }

    /// What a well-formed table is: its names are those of its order, each of them once.
    pub proof fn lemma_order(&self)
        requires
            self.wf(),
        ensures
            self.order().no_duplicates(),
            forall|name: Seq<char>| #[trigger]
                self@.contains_key(name) <==> self.order().contains(name),
    {
    }

    proof fn lemma_entry(&self, index: int)
        requires
            self.wf(),
            0 <= index < self.names@.len(),
        ensures
            self.order()[index] == self.names@[index]@,
            self@.contains_key(self.order()[index]),
            self@[self.order()[index]] == self.values@[index],
    {
        let name = self.order()[index];
        assert(self.order().contains(name));
        let found = self.order().index_of(name);
        assert(self.order()[found] == name);
    }

    proof fn lemma_entries(&self)
        requires
            self.wf(),
        ensures
            forall|i: int|
                #![trigger self.order()[i]]
                #![trigger self.values@[i]]
                0 <= i < self.names@.len() ==> self@.contains_key(self.order()[i])
                    && self@[self.order()[i]] == self.values@[i],
    {
        assert forall|i: int|
            #![trigger self.order()[i]]
            #![trigger self.values@[i]]
            0 <= i < self.names@.len() implies self@.contains_key(self.order()[i])
            && self@[self.order()[i]] == self.values@[i] by {
            self.lemma_entry(i);
        }
    }

    /// A table is the map that has its names and its values.
    proof fn lemma_is(&self, map: Map<Seq<char>, V>)
        requires
            self.wf(),
            forall|i: int|
                0 <= i < self.names@.len() ==> map.contains_key(#[trigger] self.order()[i])
                    && map[self.order()[i]] == self.values@[i],
            forall|name: Seq<char>| #[trigger]
                map.contains_key(name) ==> self.order().contains(name),
        ensures
            self@ == map,
    {
        self.lemma_entries();
        assert forall|name: Seq<char>| #[trigger] self@.contains_key(name) implies map.contains_key(
            name,
        ) && self@[name] == map[name] by {
            let index = self.order().index_of(name);
            assert(self.order()[index] == name);
        }
        assert(self@ =~= map);
    }

    /// A table without entries.
    pub fn new() -> (result: Self)
        ensures
            result.wf(),
            result@ == Map::<Seq<char>, V>::empty(),
            result.order() == Seq::<Seq<char>>::empty(),
    {
        let result = NameMap { names: Vec::new(), values: Vec::new() };
        assert(result.order() =~= Seq::<Seq<char>>::empty());
        assert(result@ =~= Map::<Seq<char>, V>::empty());
        result
    }

    /// How many names the table has.
    pub fn len(&self) -> (result: usize)
        ensures
            result == self.order().len(),
    {
        self.names.len()
    }

    /// The name at a place of the order.
    pub fn name_at(&self, index: usize) -> (result: &String)
        requires
            index < self.order().len(),
        ensures
            result@ == self.order()[index as int],
    {
        &self.names[index]
    }

    fn position(&self, name: &String) -> (result: Option<usize>)
        ensures
            match result {
                Some(index) => index < self.names@.len() && self.order()[index as int] == name@,
                None => !self.order().contains(name@),
            },
    {
        let mut index: usize = 0;
        while index < self.names.len()
            invariant
                index <= self.names@.len(),
                forall|i: int| 0 <= i < index ==> self.order()[i] != name@,
            decreases self.names@.len() - index,
        {
            if self.names[index] == *name {
                return Some(index);
            }
            index = index + 1;
        }
        None
    }

    /// The value of a name.
    pub fn get(&self, name: &String) -> (result: Option<&V>)
        requires
            self.wf(),
        ensures
            match result {
                Some(value) => self@.contains_key(name@) && *value == self@[name@],
                None => !self@.contains_key(name@),
            },
    {
        match self.position(name) {
            Some(index) => {
                proof {
                    self.lemma_entry(index as int);
                }
                Some(&self.values[index])
            },
            None => None,
        }
    }

    /// Gives a name a value. A name that is there already keeps its place.
    pub fn insert(&mut self, name: &String, value: V)
        requires
            old(self).wf(),
        ensures
            final(self).wf(),
            final(self)@ == old(self)@.insert(name@, value),
            final(self).order() == (if old(self)@.contains_key(name@) {
                old(self).order()
            } else {
                old(self).order().push(name@)
            }),
    {
        proof {
            self.lemma_entries();
        }
        let ghost target = self@.insert(name@, value);
        match self.position(name) {
            Some(index) => {
                self.values[index] = value;
                assert(self.order() == old(self).order());
            },
            None => {
                self.names.push(name.clone());
                self.values.push(value);
                assert(self.order() =~= old(self).order().push(name@));
                assert(self.order()[old(self).order().len() as int] == name@);
                assert forall|key: Seq<char>| old(self).order().contains(key) implies
                    self.order().contains(key) by {
                    let i = old(self).order().index_of(key);
                    assert(self.order()[i] == key);
                }
            },
        }
        proof {
            assert forall|i: int| 0 <= i < self.names@.len() implies target.contains_key(
                #[trigger] self.order()[i],
            ) && target[self.order()[i]] == self.values@[i] by {
                if i < old(self).names@.len() {
                    assert(self.order()[i] == old(self).order()[i]);
                }
            }
            self.lemma_is(target);
        }
    }

    /// Takes a name out. The others keep their order.
    pub fn remove(&mut self, name: &String)
        requires
            old(self).wf(),
        ensures
            final(self).wf(),
            final(self)@ == old(self)@.remove(name@),
            final(self).order() == without(old(self).order(), name@),
    {
        proof {
            self.lemma_entries();
        }
        let ghost target = self@.remove(name@);
        let ghost before = self.order();
        match self.position(name) {
            Some(index) => {
                let _ = self.names.remove(index);
                let _ = self.values.remove(index);
                proof {
                    assert(self.order() =~= before.remove(index as int));
                    lemma_filter_out(before, index as int, name@);
                    assert forall|i: int| 0 <= i < self.names@.len() implies target.contains_key(
                        #[trigger] self.order()[i],
                    ) && target[self.order()[i]] == self.values@[i] by {
                        let j = if i < index {
                            i
                        } else {
                            i + 1
                        };
                        assert(self.order()[i] == before[j]);
                        assert(self.values@[i] == old(self).values@[j]);
                    }
                    assert forall|key: Seq<char>| #[trigger] target.contains_key(key) implies
                        self.order().contains(key) by {
                        let j = before.index_of(key);
                        assert(before[j] == key);
                        let i = if j < index {
                            j
                        } else {
                            j - 1
                        };
                        assert(self.order()[i] == key);
                    }
                    self.lemma_is(target);
                }
            },
            None => {
                proof {
                    lemma_filter_all(before, name@);
                    assert(self@ =~= target);
                }
            },
        }
    }

    /// The value of a name, to be changed in its place.
    pub fn get_mut(&mut self, name: &String) -> (result: Option<&mut V>)
        requires
            old(self).wf(),
        ensures
            match result {
                Some(value) => {
                    &&& old(self)@.contains_key(name@)
                    &&& *value == old(self)@[name@]
                    &&& final(self).wf()
                    &&& final(self)@ == old(self)@.insert(name@, *final(value))
                    &&& final(self).order() == old(self).order()
                },
                None => !old(self)@.contains_key(name@) && *final(self) == *old(self),
            },
    {
        match self.position(name) {
            Some(index) => Some(&mut self.values[index]),
            None => None,
        }
    }
}

/// A sequence without a name stays as it is where that name is filtered out.
proof fn lemma_filter_all(names: Seq<Seq<char>>, name: Seq<char>)
    requires
        !names.contains(name),
    ensures
        without(names, name) == names,
    decreases names.len(),
{
    reveal(Seq::filter);
    if names.len() > 0 {
        let shorter = names.drop_last();
        assert forall|i: int| 0 <= i < shorter.len() implies shorter[i] != name by {
            assert(shorter[i] == names[i]);
        }
        lemma_filter_all(shorter, name);
        assert(names[names.len() - 1] != name);
        assert(shorter.push(names.last()) =~= names);
    }
}

/// Where a name occurs once, filtering it out is removing it.
proof fn lemma_filter_out(names: Seq<Seq<char>>, index: int, name: Seq<char>)
    requires
        names.no_duplicates(),
        0 <= index < names.len(),
        names[index] == name,
    ensures
        without(names, name) == names.remove(index),
    decreases names.len(),
{
    reveal(Seq::filter);
    let shorter = names.drop_last();
    if index == names.len() - 1 {
        assert forall|i: int| 0 <= i < shorter.len() implies shorter[i] != name by {
            assert(shorter[i] == names[i]);
        }
        lemma_filter_all(shorter, name);
        assert(names.remove(index) =~= shorter);
    } else {
        lemma_filter_out(shorter, index, name);
        assert(names[names.len() - 1] != name);
        assert(shorter.remove(index).push(names.last()) =~= names.remove(index));
    }
}

/// What is left of a list of names without one of them: nothing of an empty list, and of a longer
/// one what is left of it without its last name, followed by that one unless it is the one that
/// goes.
pub proof fn law_without(names: Seq<Seq<char>>, last: Seq<char>, name: Seq<char>)
    ensures
        without(Seq::empty(), name) == Seq::<Seq<char>>::empty(),
        without(names.push(last), name) == (if last == name {
            without(names, name)
        } else {
            without(names, name).push(last)
        }),
{
    reveal(Seq::filter);
    assert(names.push(last).drop_last() =~= names);
    assert(names.push(last).last() == last);
}

/// The texts of some names are those of each of them, in their order.
pub proof fn law_texts(names: Seq<String>, i: int)
    ensures
        texts(names).len() == names.len(),
        0 <= i < names.len() ==> texts(names)[i] == names[i]@,
{
}

} // verus!
