//! Sets of names and tables keyed by names, both kept in the order of the names.

use crate::order::lemma_absent;
use crate::order::lemma_inserted;
use crate::order::lemma_take_more;
use crate::text::lemma_text_order;
use crate::text::rank_texts;
use crate::text::sorted_texts;
use crate::text::text_less;
use crate::text::texts;
use crate::text::Rank;
use vstd::prelude::*;

verus! {

/// A set of names, held in increasing order.
#[derive(Debug)]
pub struct NameSet {
    pub items: Vec<String>,
}

impl View for NameSet {
    type V = Set<Seq<char>>;

    open spec fn view(&self) -> Set<Seq<char>> {
        self.names().to_set()
    }
}

impl NameSet {
    /// The names in increasing order.
    pub open spec fn names(&self) -> Seq<Seq<char>> {
        texts(self.items@)
    }

    pub open spec fn wf(&self) -> bool {
        sorted_texts(self.names())
    }

    pub fn new() -> (set: NameSet)
        ensures
            set.wf(),
            set@ == Set::<Seq<char>>::empty(),
            set.names() == Seq::<Seq<char>>::empty(),
    {
        let set = NameSet { items: Vec::new() };
        proof {
            assert(set.names() =~= Seq::<Seq<char>>::empty());
            assert(set@ =~= Set::<Seq<char>>::empty());
        }
        set
    }

    /// The place of the first name that does not come before `name`, and whether it is `name`.
    fn place(&self, name: &str) -> (found: (usize, bool))
        requires
            self.wf(),
        ensures
            found.0 <= self.items.len(),
            found.1 ==> found.0 < self.items.len() && self.names()[found.0 as int] == name@,
            !found.1 ==> !self@.contains(name@),
            forall|k: int|
                0 <= k < found.0 ==> text_less()(#[trigger] self.names()[k], name@),
            !found.1 ==> forall|k: int|
                found.0 <= k < self.items.len() ==> text_less()(
                    name@,
                    #[trigger] self.names()[k],
                ),
    {
        let mut i: usize = 0;
        proof {
            lemma_text_order();
        }
        while i < self.items.len()
            invariant
                i <= self.items.len(),
                self.wf(),
                crate::order::strict_total(text_less()),
                forall|k: int| 0 <= k < i ==> text_less()(#[trigger] self.names()[k], name@),
            decreases self.items.len() - i,
        {
            match rank_texts(self.items[i].as_str(), name) {
                Rank::Before => {
                    assert(self.names()[i as int] == self.items@[i as int]@);
                },
                Rank::Same => {
                    assert(self.names()[i as int] == name@);
                    return (i, true);
                },
                Rank::After => {
                    proof {
                        assert(text_less()(name@, self.names()[i as int]));
                        assert forall|k: int| i <= k < self.items.len() implies text_less()(
                            name@,
                            #[trigger] self.names()[k],
                        ) by {
                            if k > i {
                                assert(text_less()(
                                    self.names()[i as int],
                                    self.names()[k],
                                ));
                            }
                        }
                        lemma_absent(self.names(), name@, i as int, text_less());
                    }
                    return (i, false);
                },
            }
            i += 1;
        }
        proof {
            lemma_absent(self.names(), name@, i as int, text_less());
        }
        (i, false)
    }

    pub fn contains(&self, name: &str) -> (found: bool)
        requires
            self.wf(),
        ensures
            found == self@.contains(name@),
    {
        let (i, found) = self.place(name);
        proof {
            if found {
                assert(self.names().contains(name@));
            }
        }
        found
    }

    /// Adds a name; says whether it was new.
    pub fn insert(&mut self, name: String) -> (new: bool)
        requires
            old(self).wf(),
        ensures
            final(self).wf(),
            final(self)@ == old(self)@.insert(name@),
            new == !old(self)@.contains(name@),
            final(self).names().len() == old(self).names().len() + if new {
                1int
            } else {
                0
            },
    {
        let (i, found) = self.place(name.as_str());
        if found {
            proof {
                assert(self.names().contains(name@));
                assert(self@ =~= self@.insert(name@));
            }
            return false;
        }
        let ghost before = self.names();
        let ghost text = name@;
        self.items.insert(i, name);
        proof {
            lemma_text_order();
            lemma_inserted(before, text, i as int, text_less());
            assert(self.names() =~= before.insert(i as int, text));
            assert(self@ =~= before.to_set().insert(text));
        }
        true
    }

    /// Takes a name out; says whether it was there.
    pub fn remove(&mut self, name: &str) -> (removed: bool)
        requires
            old(self).wf(),
        ensures
            final(self).wf(),
            final(self)@ == old(self)@.remove(name@),
            removed == old(self)@.contains(name@),
            final(self).names().len() == old(self).names().len() - if removed {
                1int
            } else {
                0
            },
    {
        let (i, found) = self.place(name);
        if !found {
            proof {
                assert(self@ =~= self@.remove(name@));
            }
            return false;
        }
        let ghost before = self.names();
        self.items.remove(i);
        proof {
            lemma_text_order();
            let after = self.names();
            assert(after =~= before.remove(i as int));
            assert(before.contains(name@));
            assert forall|a: int, b: int| 0 <= a < b < after.len() implies text_less()(
                #[trigger] after[a],
                #[trigger] after[b],
            ) by {
                let x = if a < i { a } else { a + 1 };
                let y = if b < i { b } else { b + 1 };
                assert(text_less()(before[x], before[y]));
            }
            assert forall|x: Seq<char>|
                #![trigger after.contains(x)]
                after.contains(x) <==> before.contains(x) && x != name@ by {
                if after.contains(x) {
                    let k = after.index_of(x);
                    let j = if k < i { k } else { k + 1 };
                    assert(before[j] == x);
                    if j < i {
                        assert(text_less()(before[j], before[i as int]));
                    } else {
                        assert(text_less()(before[i as int], before[j]));
                    }
                }
                if before.contains(x) && x != name@ {
                    let k = before.index_of(x);
                    let j = if k < i { k } else { k - 1 };
                    assert(after[j] == x);
                }
            }
            assert(self@ =~= before.to_set().remove(name@));
        }
        true
    }

    pub fn len(&self) -> (n: usize)
        ensures
            n == self.names().len(),
    {
        self.items.len()
    }

    pub fn is_empty(&self) -> (empty: bool)
        ensures
            empty == (self@ == Set::<Seq<char>>::empty()),
    {
        proof {
            if self.names().len() > 0 {
                assert(self@.contains(self.names()[0]));
            } else {
                assert(self@ =~= Set::<Seq<char>>::empty());
            }
        }
        self.items.len() == 0
    }

    /// The names that both sets hold.
    pub fn intersection(&self, other: &NameSet) -> (both: NameSet)
        requires
            self.wf(),
            other.wf(),
        ensures
            both.wf(),
            both@ == self@.intersect(other@),
    {
        let mut both = NameSet::new();
        let mut i: usize = 0;
        proof {
            assert(self.names().take(0).to_set() =~= Set::<Seq<char>>::empty());
            assert(both@ =~= self.names().take(0).to_set().intersect(other@));
        }
        while i < self.items.len()
            invariant
                i <= self.items.len(),
                self.wf(),
                other.wf(),
                both.wf(),
                both@ == self.names().take(i as int).to_set().intersect(other@),
            decreases self.items.len() - i,
        {
            let ghost before = self.names().take(i as int);
            let ghost name = self.names()[i as int];
            proof {
                lemma_take_more(self.names(), i as int);
            }
            if other.contains(self.items[i].as_str()) {
                both.insert(self.items[i].clone());
                proof {
                    assert(both@ =~= before.to_set().insert(name).intersect(other@));
                }
            } else {
                proof {
                    assert(both@ =~= before.to_set().insert(name).intersect(other@));
                }
            }
            i += 1;
        }
        proof {
            assert(self.names().take(i as int) =~= self.names());
        }
        both
    }
}

impl Clone for NameSet {
    fn clone(&self) -> (set: NameSet)
        ensures
            set.names() == self.names(),
            set@ == self@,
            set.wf() == self.wf(),
    {
        let mut items: Vec<String> = Vec::new();
        let mut i: usize = 0;
        while i < self.items.len()
            invariant
                i <= self.items.len(),
                items@ == self.items@.take(i as int),
            decreases self.items.len() - i,
        {
            items.push(self.items[i].clone());
            proof {
                assert(self.items@.take(i + 1) =~= self.items@.take(i as int).push(
                    self.items@[i as int],
                ));
            }
            i += 1;
        }
        proof {
            assert(self.items@.take(i as int) =~= self.items@);
        }
        NameSet { items }
    }
}

/// A table from names to values, held in increasing order of the names.
#[derive(Debug)]
pub struct NameMap<V> {
    pub entries: Vec<(String, V)>,
}

impl<V> View for NameMap<V> {
    type V = Map<Seq<char>, V>;

    /// Meant for a table that is `wf`: no name stands in it twice.
    open spec fn view(&self) -> Map<Seq<char>, V> {
        Map::new(
            |name: Seq<char>| self.names().contains(name),
            |name: Seq<char>| self.entries@[self.names().index_of(name)].1,
        )
    }
}

impl<V> NameMap<V> {
    /// The names in increasing order.
    pub open spec fn names(&self) -> Seq<Seq<char>> {
        Seq::new(self.entries@.len(), |i: int| self.entries@[i].0@)
    }

    pub open spec fn wf(&self) -> bool {
        sorted_texts(self.names())
    }

    /// The value at a place is what the table gives for the name there.
    pub proof fn lemma_at(&self, i: int)
        requires
            self.wf(),
            0 <= i < self.entries@.len(),
        ensures
            self@.contains_key(self.names()[i]),
            self@[self.names()[i]] == self.entries@[i].1,
            self.names().index_of(self.names()[i]) == i,
    {
        lemma_text_order();
        let name = self.names()[i];
        assert(self.names().contains(name));
        let j = self.names().index_of(name);
        assert(0 <= j < self.names().len() && self.names()[j] == name);
        if j < i {
            assert(text_less()(self.names()[j], self.names()[i]));
        }
        if i < j {
            assert(text_less()(self.names()[i], self.names()[j]));
        }
    }

    pub fn new() -> (map: NameMap<V>)
        ensures
            map.wf(),
            map@ == Map::<Seq<char>, V>::empty(),
            map.entries@.len() == 0,
    {
        let map = NameMap { entries: Vec::new() };
        proof {
            assert(map@ =~= Map::<Seq<char>, V>::empty());
        }
        map
    }

    fn place(&self, name: &str) -> (found: (usize, bool))
        requires
            self.wf(),
        ensures
            found.0 <= self.entries.len(),
            found.1 ==> found.0 < self.entries.len() && self.names()[found.0 as int] == name@,
            !found.1 ==> !self.names().contains(name@),
            forall|k: int|
                0 <= k < found.0 ==> text_less()(#[trigger] self.names()[k], name@),
            !found.1 ==> forall|k: int|
                found.0 <= k < self.entries.len() ==> text_less()(
                    name@,
                    #[trigger] self.names()[k],
                ),
    {
        let mut i: usize = 0;
        proof {
            lemma_text_order();
        }
        while i < self.entries.len()
            invariant
                i <= self.entries.len(),
                self.wf(),
                crate::order::strict_total(text_less()),
                forall|k: int| 0 <= k < i ==> text_less()(#[trigger] self.names()[k], name@),
            decreases self.entries.len() - i,
        {
            match rank_texts(self.entries[i].0.as_str(), name) {
                Rank::Before => {
                    assert(self.names()[i as int] == self.entries@[i as int].0@);
                },
                Rank::Same => {
                    assert(self.names()[i as int] == name@);
                    return (i, true);
                },
                Rank::After => {
                    proof {
                        assert(text_less()(name@, self.names()[i as int]));
                        assert forall|k: int| i <= k < self.entries.len() implies text_less()(
                            name@,
                            #[trigger] self.names()[k],
                        ) by {
                            if k > i {
                                assert(text_less()(
                                    self.names()[i as int],
                                    self.names()[k],
                                ));
                            }
                        }
                        lemma_absent(self.names(), name@, i as int, text_less());
                    }
                    return (i, false);
                },
            }
            i += 1;
        }
        proof {
            lemma_absent(self.names(), name@, i as int, text_less());
        }
        (i, false)
    }

    /// The place of a name in the table.
    pub fn find(&self, name: &str) -> (at: Option<usize>)
        requires
            self.wf(),
        ensures
            at is Some <==> self@.contains_key(name@),
            at matches Some(i) ==> i < self.entries.len() && self.names()[i as int] == name@
                && self@[name@] == self.entries@[i as int].1,
    {
        let (i, found) = self.place(name);
        if found {
            proof {
                self.lemma_at(i as int);
            }
            Some(i)
        } else {
            None
        }
    }

    /// The value for a name.
    pub fn get(&self, name: &str) -> (value: Option<&V>)
        requires
            self.wf(),
        ensures
            value is Some <==> self@.contains_key(name@),
            value matches Some(v) ==> *v == self@[name@],
    {
        match self.find(name) {
            Some(i) => Some(&self.entries[i].1),
            None => None,
        }
    }

    pub fn contains_key(&self, name: &str) -> (found: bool)
        requires
            self.wf(),
        ensures
            found == self@.contains_key(name@),
    {
        self.find(name).is_some()
    }

    /// Sets the value for a name; a value that it had before is dropped.
    pub fn insert(&mut self, name: String, value: V)
        requires
            old(self).wf(),
        ensures
            final(self).wf(),
            final(self)@ == old(self)@.insert(name@, value),
    {
        let (i, found) = self.place(name.as_str());
        let ghost before = *self;
        let ghost text = name@;
        if found {
            self.entries.remove(i);
            self.entries.insert(i, (name, value));
            proof {
                assert(self.names() =~= before.names());
                assert forall|n: Seq<char>| self.names().contains(n) implies self@[n]
                    == before@.insert(text, value)[n] by {
                    let k = self.names().index_of(n);
                    assert(self.names()[k] == n);
                    self.lemma_at(k);
                    before.lemma_at(k);
                    self.lemma_at(i as int);
                }
                assert(self.names().contains(text));
                assert(self@ =~= before@.insert(text, value));
            }
        } else {
            self.entries.insert(i, (name, value));
            proof {
                lemma_text_order();
                lemma_inserted(before.names(), text, i as int, text_less());
                assert(self.names() =~= before.names().insert(i as int, text));
                assert forall|n: Seq<char>|
                    self.names().contains(n) <==> before@.insert(text, value).contains_key(n) by {
                    assert(self.names().to_set().contains(n)
                        == before.names().to_set().insert(text).contains(n));
                }
                assert forall|n: Seq<char>| self.names().contains(n) implies self@[n]
                    == before@.insert(text, value)[n] by {
                    let k = self.names().index_of(n);
                    assert(self.names()[k] == n);
                    self.lemma_at(k);
                    self.lemma_at(i as int);
                    if k < i {
                        assert(before.names()[k] == n);
                        before.lemma_at(k);
                    } else if k > i {
                        assert(before.names()[k - 1] == n);
                        before.lemma_at(k - 1);
                    }
                }
                assert(self@ =~= before@.insert(text, value));
            }
        }
    }

    /// Takes the entry at a place out of the table.
    pub fn remove_at(&mut self, i: usize) -> (entry: (String, V))
        requires
            old(self).wf(),
            i < old(self).entries@.len(),
        ensures
            final(self).wf(),
            entry == old(self).entries@[i as int],
            final(self).entries@ == old(self).entries@.remove(i as int),
            final(self).names() == old(self).names().remove(i as int),
            final(self)@ == old(self)@.remove(entry.0@),
    {
        let ghost before = *self;
        let entry = self.entries.remove(i);
        proof {
            let text = entry.0@;
            assert(before.names()[i as int] == text);
            assert(self.names() =~= before.names().remove(i as int));
            lemma_text_order();
            assert forall|a: int, b: int| 0 <= a < b < self.names().len() implies text_less()(
                #[trigger] self.names()[a],
                #[trigger] self.names()[b],
            ) by {
                let x = if a < i { a } else { a + 1 };
                let y = if b < i { b } else { b + 1 };
                assert(text_less()(before.names()[x], before.names()[y]));
            }
            assert forall|n: Seq<char>|
                #![trigger self.names().contains(n)]
                self.names().contains(n) <==> before.names().contains(n) && n != text by {
                if self.names().contains(n) {
                    let k = self.names().index_of(n);
                    let x = if k < i { k } else { k + 1 };
                    assert(before.names()[x] == n);
                    before.lemma_at(x);
                    before.lemma_at(i as int);
                }
                if before.names().contains(n) && n != text {
                    let k = before.names().index_of(n);
                    let x = if k < i { k } else { k - 1 };
                    assert(self.names()[x] == n);
                }
            }
            assert forall|n: Seq<char>| self.names().contains(n) implies self@[n] == before@[n] by {
                let k = self.names().index_of(n);
                let x = if k < i { k } else { k + 1 };
                assert(self.names()[k] == n);
                assert(before.names()[x] == n);
                self.lemma_at(k);
                before.lemma_at(x);
            }
            assert(self@ =~= before@.remove(text));
        }
        entry
    }

    pub fn len(&self) -> (n: usize)
        ensures
            n == self.entries@.len(),
    {
        self.entries.len()
    }

    /// The names, in increasing order.
    pub fn name_list(&self) -> (list: Vec<String>)
        ensures
            texts(list@) == self.names(),
    {
        let mut list: Vec<String> = Vec::new();
        let mut i: usize = 0;
        while i < self.entries.len()
            invariant
                i <= self.entries.len(),
                list.len() == i,
                forall|k: int| 0 <= k < i ==> #[trigger] list@[k]@ == self.names()[k],
            decreases self.entries.len() - i,
        {
            list.push(self.entries[i].0.clone());
            i += 1;
        }
        proof {
            assert(texts(list@) =~= self.names());
        }
        list
    }
}

} // verus!
