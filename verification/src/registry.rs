//! Keyed storage: a concurrent map finds the slot, the slots hold the values.

use dashmap::DashMap;
use vstd::prelude::*;

verus! {

/// `dashmap::DashMap`, the concurrent hash map behind every registry.
#[verifier::external_type_specification]
#[verifier::external_body]
#[verifier::reject_recursive_types(K)]
#[verifier::reject_recursive_types(V)]
#[verifier::reject_recursive_types(S)]
pub struct ExDashMap<K, V, S>(DashMap<K, V, S>);

/// The keys of a slot index and the slot under each of them.
pub uninterp spec fn index_entries(index: DashMap<i32, usize>) -> Map<i32, usize>;

/// Calls `DashMap::new`: nothing is in the map.
#[verifier::external_body]
fn index_new() -> (r: DashMap<i32, usize>)
    ensures
        index_entries(r).dom() == Set::<i32>::empty(),
{
    DashMap::new()
}

/// Calls `DashMap::get` and copies the slot out: the slot under `key`, if there is one.
#[verifier::external_body]
fn index_get(index: &DashMap<i32, usize>, key: i32) -> (r: Option<usize>)
    ensures
        r == if index_entries(*index).dom().contains(key) {
            Some(index_entries(*index)[key])
        } else {
            None
        },
{
    index.get(&key).map(|slot| *slot)
}

/// Calls `DashMap::insert`: `key` then stands for `slot`, whatever it stood for before,
/// and every other key is as it was.
#[verifier::external_body]
fn index_insert(index: &mut DashMap<i32, usize>, key: i32, slot: usize)
    ensures
        index_entries(*final(index)) == index_entries(*old(index)).insert(key, slot),
{
    index.insert(key, slot);
}

/// Calls `DashMap::remove`: `key` is gone and every other key is as it was.
#[verifier::external_body]
fn index_remove(index: &mut DashMap<i32, usize>, key: i32)
    ensures
        index_entries(*final(index)) == index_entries(*old(index)).remove(key),
{
    index.remove(&key);
}

/// Values under integer keys. The slots stand one behind the other; the index says
/// which slot a key has.
pub struct Registry<V> {
    index: DashMap<i32, usize>,
    slots: Vec<(i32, V)>,
}

impl<V> View for Registry<V> {
    type V = Map<i32, V>;

    closed spec fn view(&self) -> Map<i32, V> {
        Map::new(
            |key: i32| index_entries(self.index).dom().contains(key),
            |key: i32| self.slots@[index_entries(self.index)[key] as int].1,
        )
    }
}

impl<V> Registry<V> {
    /// The index leads every key to its own slot, and every slot has its key there.
    pub closed spec fn wf(&self) -> bool {
        let entries = index_entries(self.index);
        &&& forall|key: i32| #[trigger]
            entries.dom().contains(key) ==> entries[key] < self.slots@.len()
                && self.slots@[entries[key] as int].0 == key
        &&& forall|i: int|
            0 <= i < self.slots@.len() ==> entries.dom().contains((#[trigger] self.slots@[i]).0)
                && entries[self.slots@[i].0] == i
    }

    /// The keys in the order of their slots.
    pub closed spec fn spec_keys(&self) -> Seq<i32> {
        Seq::new(self.slots@.len(), |i: int| self.slots@[i].0)
    }

    /// The keys of the slots are those of the contents, each of them once.
    pub proof fn lemma_keys(&self)
        requires
            self.wf(),
        ensures
            self.spec_keys().no_duplicates(),
            forall|key: i32| self.spec_keys().contains(key) <==> self@.dom().contains(key),
    {
        let entries = index_entries(self.index);
        assert forall|i: int, j: int|
            0 <= i < self.spec_keys().len() && 0 <= j < self.spec_keys().len() && i
                != j implies self.spec_keys()[i] != self.spec_keys()[j] by {
            assert(entries[self.slots@[i].0] == i);
            assert(entries[self.slots@[j].0] == j);
        }
        assert forall|key: i32|
            self.spec_keys().contains(key) <==> self@.dom().contains(key) by {
            if self@.dom().contains(key) {
                assert(self.spec_keys()[entries[key] as int] == key);
            }
            if self.spec_keys().contains(key) {
                let i = choose|i: int|
                    0 <= i < self.spec_keys().len() && self.spec_keys()[i] == key;
                assert(entries.dom().contains(self.slots@[i].0));
            }
        }
    }

    /// A registry that holds nothing.
    pub fn new() -> (r: Registry<V>)
        ensures
            r.wf(),
            r@ == Map::<i32, V>::empty(),
            r.spec_keys() == Seq::<i32>::empty(),
    {
        let r = Registry { index: index_new(), slots: Vec::new() };
        assert(r@ =~= Map::<i32, V>::empty());
        assert(r.spec_keys() =~= Seq::<i32>::empty());
        r
    }

    /// How many keys there are.
    pub fn len(&self) -> (n: usize)
        requires
            self.wf(),
        ensures
            n == self.spec_keys().len(),
    {
        self.slots.len()
    }

    /// Whether there is something under `key`.
    pub fn contains_key(&self, key: i32) -> (r: bool)
        requires
            self.wf(),
        ensures
            r == self@.dom().contains(key),
    {
        index_get(&self.index, key).is_some()
    }

    /// What stands under `key`.
    pub fn get(&self, key: i32) -> (r: Option<&V>)
        requires
            self.wf(),
        ensures
            r is Some <==> self@.dom().contains(key),
            r matches Some(v) ==> *v == self@[key],
    {
        match index_get(&self.index, key) {
            Some(slot) => Some(&self.slots[slot].1),
            None => None,
        }
    }

    /// What stands under `key`, to be changed in place.
    pub fn get_mut(&mut self, key: i32) -> (r: Option<&mut V>)
        requires
            old(self).wf(),
        ensures
            r is Some <==> old(self)@.dom().contains(key),
            r is None ==> *final(self) == *old(self),
            r matches Some(v) ==> {
                &&& *v == old(self)@[key]
                &&& final(self).wf()
                &&& final(self)@ == old(self)@.insert(key, *final(v))
                &&& final(self).spec_keys() == old(self).spec_keys()
            },
    {
        match index_get(&self.index, key) {
            Some(slot) => Some(&mut self.slots[slot].1),
            None => None,
        }
    }

    /// The keys in the order of their slots.
    pub fn keys(&self) -> (r: Vec<i32>)
        requires
            self.wf(),
        ensures
            r@ == self.spec_keys(),
            r@.no_duplicates(),
            forall|key: i32| r@.contains(key) <==> self@.dom().contains(key),
    {
        let mut keys: Vec<i32> = Vec::new();
        let mut i: usize = 0;
        while i < self.slots.len()
            invariant
                i <= self.slots@.len(),
                keys@ == self.spec_keys().take(i as int),
            decreases self.slots@.len() - i,
        {
            keys.push(self.slots[i].0);
            i += 1;
            assert(keys@ =~= self.spec_keys().take(i as int));
        }
        assert(keys@ =~= self.spec_keys());
        proof {
            self.lemma_keys();
        }
        keys
    }

    /// Puts `value` under `key`, in place of what stood there.
    pub fn insert(&mut self, key: i32, value: V)
        requires
            old(self).wf(),
        ensures
            final(self).wf(),
            final(self)@ == old(self)@.insert(key, value),
            old(self)@.dom().contains(key) ==> final(self).spec_keys() == old(self).spec_keys(),
            !old(self)@.dom().contains(key) ==> final(self).spec_keys() == old(
                self,
            ).spec_keys().push(key),
    {
        let ghost before = *self;
        let ghost entries = index_entries(self.index);
        match index_get(&self.index, key) {
            Some(slot) => {
                self.slots.set(slot, (key, value));
                assert(self.spec_keys() =~= before.spec_keys());
                assert forall|other: i32| #[trigger]
                    entries.dom().contains(other) && other != key implies entries[other]
                    != slot by {}
            },
            None => {
                let slot: usize = self.slots.len();
                self.slots.push((key, value));
                index_insert(&mut self.index, key, slot);
                assert(self.spec_keys() =~= before.spec_keys().push(key));
                assert(forall|i: int|
                    0 <= i < before.slots@.len() ==> self.slots@[i] == before.slots@[i]);
                assert forall|i: int| 0 <= i < before.slots@.len() implies (
                #[trigger] self.slots@[i]).0 != key by {
                    assert(entries.dom().contains(before.slots@[i].0));
                }
            },
        }
        assert(self@ =~= before@.insert(key, value));
    }

    /// Takes out what stands under `key`. The last slot moves into its place.
    pub fn remove(&mut self, key: i32) -> (r: Option<V>)
        requires
            old(self).wf(),
        ensures
            final(self).wf(),
            final(self)@ == old(self)@.remove(key),
            r is Some <==> old(self)@.dom().contains(key),
            r matches Some(v) ==> v == old(self)@[key],
    {
        let ghost before = *self;
        let ghost entries = index_entries(self.index);
        let slot: usize = match index_get(&self.index, key) {
            Some(slot) => slot,
            None => {
                assert(self@ =~= before@.remove(key));
                return None;
            },
        };
        let last: usize = self.slots.len() - 1;
        let moved: i32 = self.slots[last].0;
        let (_, value) = self.slots.swap_remove(slot);
        proof {
            assert(entries[before.slots@[last as int].0] == last);
            assert(entries[before.slots@[slot as int].0] == slot);
        }
        if moved != key {
            index_insert(&mut self.index, moved, slot);
        }
        index_remove(&mut self.index, key);
        proof {
            let after = index_entries(self.index);
            assert forall|k: i32| #[trigger] after.dom().contains(k) implies after[k]
                < self.slots@.len() && self.slots@[after[k] as int].0 == k by {
                assert(entries.dom().contains(k));
            }
            assert forall|i: int| 0 <= i < self.slots@.len() implies after.dom().contains(
                (#[trigger] self.slots@[i]).0,
            ) && after[self.slots@[i].0] == i by {
                let old_i = if i == slot { last as int } else { i };
                assert(self.slots@[i] == before.slots@[old_i]);
                assert(entries.dom().contains(before.slots@[old_i].0));
                assert(entries[before.slots@[old_i].0] == old_i);
            }
            assert(self@.dom() =~= before@.remove(key).dom());
            assert forall|k: i32| self@.dom().contains(k) implies self@[k] == before@[k] by {
                assert(entries.dom().contains(k));
            }
            assert(self@ =~= before@.remove(key));
        }
        Some(value)
    }

    /// Puts the entries in, one after the other.
    pub fn stock(&mut self, entries: Vec<(i32, V)>)
        requires
            old(self).wf(),
        ensures
            final(self).wf(),
            final(self)@ == stocked(old(self)@, entries@),
    {
        let ghost start = self@;
        assert(entries@.take(0) =~= Seq::empty());
        for entry in it: entries
            invariant
                it.seq() == entries@,
                self.wf(),
                start == old(self)@,
                self@ == stocked(start, entries@.take(it.index() as int)),
        {
            let ghost i = it.index() as int;
            assert(entry == entries@[i]);
            assert(entries@.take(i + 1).drop_last() =~= entries@.take(i));
            self.insert(entry.0, entry.1);
        }
        assert(entries@.take(entries@.len() as int) =~= entries@);
    }
}

/// The contents after the entries have been put in, one after the other.
pub open spec fn stocked<K, V>(before: Map<K, V>, entries: Seq<(K, V)>) -> Map<K, V>
    decreases entries.len(),
{
    if entries.len() == 0 {
        before
    } else {
        stocked(before, entries.drop_last()).insert(entries.last().0, entries.last().1)
    }
}

/// Of several entries of a key the last one stands.
pub proof fn law_last_entry_stands<K, V>(before: Map<K, V>, entries: Seq<(K, V)>, at: int)
    requires
        0 <= at < entries.len(),
        forall|i: int| at < i < entries.len() ==> (#[trigger] entries[i]).0 != entries[at].0,
    ensures
        stocked(before, entries).dom().contains(entries[at].0),
        stocked(before, entries)[entries[at].0] == entries[at].1,
    decreases entries.len(),
{
    if at < entries.len() - 1 {
        let front = entries.drop_last();
        assert(entries[entries.len() - 1].0 != entries[at].0);
        assert forall|i: int| at < i < front.len() implies (#[trigger] front[i]).0
            != front[at].0 by {
            assert(front[i] == entries[i]);
        }
        law_last_entry_stands(before, front, at);
    }
}

/// A key without an entry keeps what it had.
pub proof fn law_other_keys_stay<K, V>(before: Map<K, V>, entries: Seq<(K, V)>, key: K)
    requires
        forall|i: int| 0 <= i < entries.len() ==> (#[trigger] entries[i]).0 != key,
    ensures
        stocked(before, entries).dom().contains(key) == before.dom().contains(key),
        before.dom().contains(key) ==> stocked(before, entries)[key] == before[key],
    decreases entries.len(),
{
    if entries.len() > 0 {
        let front = entries.drop_last();
        assert(entries[entries.len() - 1].0 != key);
        assert forall|i: int| 0 <= i < front.len() implies (#[trigger] front[i]).0 != key by {
            assert(front[i] == entries[i]);
        }
        law_other_keys_stay(before, front, key);
    }
}

/// The names of a slot index and the slot under each of them.
pub uninterp spec fn name_entries(index: DashMap<String, usize>) -> Map<Seq<char>, usize>;

/// Calls `DashMap::new`: nothing is in the map.
#[verifier::external_body]
fn names_new() -> (r: DashMap<String, usize>)
    ensures
        name_entries(r).dom() == Set::<Seq<char>>::empty(),
{
    DashMap::new()
}

/// Calls `DashMap::get` and copies the slot out: the slot under `name`, if there is one.
#[verifier::external_body]
fn names_get(index: &DashMap<String, usize>, name: &str) -> (r: Option<usize>)
    ensures
        r == if name_entries(*index).dom().contains(name@) {
            Some(name_entries(*index)[name@])
        } else {
            None
        },
{
    index.get(name).map(|slot| *slot)
}

/// Calls `DashMap::insert`: `name` then stands for `slot`, whatever it stood for before,
/// and every other name is as it was.
#[verifier::external_body]
fn names_insert(index: &mut DashMap<String, usize>, name: String, slot: usize)
    ensures
        name_entries(*final(index)) == name_entries(*old(index)).insert(name@, slot),
{
    index.insert(name, slot);
}

/// Values under names. The slots stand one behind the other; the index says which slot a name
/// has.
pub struct NamedRegistry<V> {
    index: DashMap<String, usize>,
    slots: Vec<(String, V)>,
}

impl<V> View for NamedRegistry<V> {
    type V = Map<Seq<char>, V>;

    closed spec fn view(&self) -> Map<Seq<char>, V> {
        Map::new(
            |name: Seq<char>| name_entries(self.index).dom().contains(name),
            |name: Seq<char>| self.slots@[name_entries(self.index)[name] as int].1,
        )
    }
}

impl<V> NamedRegistry<V> {
    /// The index leads every name to its own slot, and every slot has its name there.
    pub closed spec fn wf(&self) -> bool {
        let entries = name_entries(self.index);
        &&& forall|name: Seq<char>| #[trigger]
            entries.dom().contains(name) ==> entries[name] < self.slots@.len()
                && self.slots@[entries[name] as int].0@ == name
        &&& forall|i: int|
            0 <= i < self.slots@.len() ==> entries.dom().contains((#[trigger] self.slots@[i]).0@)
                && entries[self.slots@[i].0@] == i
    }

    /// The names in the order of their slots.
    pub closed spec fn spec_names(&self) -> Seq<Seq<char>> {
        Seq::new(self.slots@.len(), |i: int| self.slots@[i].0@)
    }

    /// The names of the slots are those of the contents, each of them once.
    pub proof fn lemma_names(&self)
        requires
            self.wf(),
        ensures
            self.spec_names().no_duplicates(),
            forall|name: Seq<char>|
                self.spec_names().contains(name) <==> self@.dom().contains(name),
            self@.dom().finite(),
            self@.dom().len() == self.spec_names().len(),
    {
        let entries = name_entries(self.index);
        let names = self.spec_names();
        assert forall|i: int, j: int|
            0 <= i < names.len() && 0 <= j < names.len() && i != j implies names[i]
            != names[j] by {
            assert(entries[self.slots@[i].0@] == i);
            assert(entries[self.slots@[j].0@] == j);
        }
        assert forall|name: Seq<char>|
            names.contains(name) <==> self@.dom().contains(name) by {
            if self@.dom().contains(name) {
                assert(names[entries[name] as int] == name);
            }
            if names.contains(name) {
                let i = choose|i: int| 0 <= i < names.len() && names[i] == name;
                assert(entries.dom().contains(self.slots@[i].0@));
            }
        }
        names.unique_seq_to_set();
        assert(names.to_set() =~= self@.dom());
    }

    /// A registry that holds nothing.
    pub fn new() -> (r: NamedRegistry<V>)
        ensures
            r.wf(),
            r@ == Map::<Seq<char>, V>::empty(),
    {
        let r = NamedRegistry { index: names_new(), slots: Vec::new() };
        assert(r@ =~= Map::<Seq<char>, V>::empty());
        r
    }

    /// How many names there are.
    pub fn len(&self) -> (n: usize)
        requires
            self.wf(),
        ensures
            n == self.spec_names().len(),
            n == self@.dom().len(),
    {
        proof {
            self.lemma_names();
        }
        self.slots.len()
    }

    /// What stands under the name of a slot.
    pub fn value_at(&self, i: usize) -> (r: &V)
        requires
            self.wf(),
            i < self.spec_names().len(),
        ensures
            self@.dom().contains(self.spec_names()[i as int]),
            *r == self@[self.spec_names()[i as int]],
    {
        assert(name_entries(self.index).dom().contains(self.slots@[i as int].0@));
        &self.slots[i].1
    }

    /// What stands under a name.
    pub fn get(&self, name: &str) -> (r: Option<&V>)
        requires
            self.wf(),
        ensures
            r is Some <==> self@.dom().contains(name@),
            r matches Some(v) ==> *v == self@[name@],
    {
        match names_get(&self.index, name) {
            Some(slot) => Some(&self.slots[slot].1),
            None => None,
        }
    }

    /// Puts `value` under `name`, in place of what stood there, and says whether there was
    /// something.
    pub fn insert(&mut self, name: String, value: V) -> (existed: bool)
        requires
            old(self).wf(),
        ensures
            final(self).wf(),
            final(self)@ == old(self)@.insert(name@, value),
            existed == old(self)@.dom().contains(name@),
    {
        let ghost before = *self;
        let ghost entries = name_entries(self.index);
        let ghost key = name@;
        let existed: bool = match names_get(&self.index, name.as_str()) {
            Some(slot) => {
                self.slots.set(slot, (name, value));
                assert forall|other: Seq<char>| #[trigger]
                    entries.dom().contains(other) && other != key implies entries[other]
                    != slot by {}
                true
            },
            None => {
                let slot: usize = self.slots.len();
                names_insert(&mut self.index, name.clone(), slot);
                self.slots.push((name, value));
                assert(forall|i: int|
                    0 <= i < before.slots@.len() ==> self.slots@[i] == before.slots@[i]);
                assert forall|i: int| 0 <= i < before.slots@.len() implies (
                #[trigger] self.slots@[i]).0@ != key by {
                    assert(entries.dom().contains(before.slots@[i].0@));
                }
                false
            },
        };
        assert(self@ =~= before@.insert(key, value));
        existed
    }

    /// Puts the entries in, one after the other.
    pub fn stock(&mut self, entries: Vec<(String, V)>)
        requires
            old(self).wf(),
        ensures
            final(self).wf(),
            final(self)@ == stocked(old(self)@, by_name(entries@)),
    {
        let ghost start = self@;
        let ghost named = by_name(entries@);
        assert(named.take(0) =~= Seq::empty());
        for entry in it: entries
            invariant
                it.seq() == entries@,
                named == by_name(entries@),
                self.wf(),
                start == old(self)@,
                self@ == stocked(start, named.take(it.index() as int)),
        {
            let ghost i = it.index() as int;
            assert(entry == entries@[i]);
            assert(named.take(i + 1).drop_last() =~= named.take(i));
            self.insert(entry.0, entry.1);
        }
        assert(named.take(named.len() as int) =~= named);
    }
}

/// Entries with their names as texts.
pub open spec fn by_name<V>(entries: Seq<(String, V)>) -> Seq<(Seq<char>, V)> {
    Seq::new(entries.len(), |i: int| (entries[i].0@, entries[i].1))
}

} // verus!
