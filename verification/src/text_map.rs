//! A small map from texts to values.

use vstd::prelude::*;

use crate::duplicate::Duplicate;

verus! {

/// Values under texts, in the order in which the texts came.
#[derive(Debug, PartialEq, Eq)]
pub struct TextMap<V> {
    entries: Vec<(String, V)>,
}

/// The map that a row of entries makes: the last value under each text.
pub open spec fn latest<V: DeepView>(entries: Seq<(String, V)>) -> Map<Seq<char>, V::V>
    decreases entries.len(),
{
    if entries.len() == 0 {
        Map::empty()
    } else {
        latest(entries.drop_last()).insert(entries.last().0@, entries.last().1.deep_view())
    }
}

impl<V: DeepView> DeepView for TextMap<V> {
    type V = Map<Seq<char>, V::V>;

    closed spec fn deep_view(&self) -> Map<Seq<char>, V::V> {
        latest(self.entries@)
    }
}

impl<V: DeepView> TextMap<V> {
    /// The empty map.
    pub fn new() -> (map: Self)
        ensures
            map.deep_view() == Map::<Seq<char>, V::V>::empty(),
    {
        TextMap { entries: Vec::new() }
    }

    /// The texts and their values.
    pub fn entries(&self) -> (entries: &Vec<(String, V)>)
        ensures
            latest(entries@) == self.deep_view(),
    {
        &self.entries
    }

    fn position(&self, key: &str) -> (position: Option<usize>)
        ensures
            match position {
                Some(i) => {
                    &&& i < self.entries@.len()
                    &&& self.entries@[i as int].0@ == key@
                    &&& forall|j: int|
                        i < j < self.entries@.len() ==> #[trigger] self.entries@[j].0@ != key@
                },
                None => forall|j: int|
                    0 <= j < self.entries@.len() ==> #[trigger] self.entries@[j].0@ != key@,
            },
    {
        let wanted = key.to_owned();
        let mut i: usize = self.entries.len();
        while i > 0
            invariant
                i <= self.entries@.len(),
                wanted@ == key@,
                forall|j: int| i <= j < self.entries@.len() ==> #[trigger] self.entries@[j].0@
                    != key@,
            decreases i,
        {
            i -= 1;
            if self.entries[i].0 == wanted {
                return Some(i);
            }
        }
        None
    }

    /// Puts `value` under `key`, in place of the value that stood there.
    pub fn insert(&mut self, key: String, value: V)
        ensures
            final(self).deep_view() == old(self).deep_view().insert(key@, value.deep_view()),
    {
        match self.position(key.as_str()) {
            Some(i) => {
                proof {
                    lemma_replaced(self.entries@, i as nat, key, value);
                }
                self.entries.set(i, (key, value));
            },
            None => {
                self.entries.push((key, value));
                assert(self.entries@.drop_last() == old(self).entries@);
            },
        }
    }

    /// The value under `key`.
    pub fn get(&self, key: &str) -> (value: Option<&V>)
        ensures
            match value {
                Some(value) => self.deep_view().contains_key(key@) && self.deep_view()[key@]
                    == value.deep_view(),
                None => !self.deep_view().contains_key(key@),
            },
    {
        match self.position(key) {
            Some(i) => {
                proof {
                    lemma_found(self.entries@, i as nat);
                }
                Some(&self.entries[i].1)
            },
            None => {
                proof {
                    lemma_absent(self.entries@, key@);
                }
                None
            },
        }
    }

    /// A map holds finitely many texts.
    pub proof fn finite(&self)
        ensures
            self.deep_view().dom().finite(),
    {
        lemma_latest_finite(self.entries@);
    }
}

impl<V: Duplicate> Duplicate for TextMap<V> {
    fn duplicate(&self) -> (copy: Self) {
        let mut entries: Vec<(String, V)> = Vec::new();
        let mut i: usize = 0;
        while i < self.entries.len()
            invariant
                i == entries@.len() <= self.entries@.len(),
                latest(entries@) == latest(self.entries@.take(i as int)),
            decreases self.entries@.len() - i,
        {
            let ghost before = entries@;
            entries.push((self.entries[i].0.clone(), self.entries[i].1.duplicate()));
            assert(entries@.drop_last() == before);
            assert(self.entries@.take(i + 1).drop_last() == self.entries@.take(i as int));
            i += 1;
        }
        assert(self.entries@.take(i as int) == self.entries@);
        TextMap { entries }
    }
}

proof fn lemma_absent<V: DeepView>(entries: Seq<(String, V)>, key: Seq<char>)
    requires
        forall|j: int| 0 <= j < entries.len() ==> #[trigger] entries[j].0@ != key,
    ensures
        !latest(entries).contains_key(key),
    decreases entries.len(),
{
    if entries.len() > 0 {
        let before = entries.drop_last();
        assert forall|j: int| 0 <= j < before.len() implies #[trigger] before[j].0@ != key by {
            assert(before[j] == entries[j]);
        }
        lemma_absent(before, key);
    }
}

proof fn lemma_found<V: DeepView>(entries: Seq<(String, V)>, i: nat)
    requires
        i < entries.len(),
        forall|j: int| i < j < entries.len() ==> #[trigger] entries[j].0@ != entries[i as int].0@,
    ensures
        latest(entries).contains_key(entries[i as int].0@),
        latest(entries)[entries[i as int].0@] == entries[i as int].1.deep_view(),
    decreases entries.len(),
{
    if i + 1 < entries.len() {
        let before = entries.drop_last();
        assert forall|j: int| i < j < before.len() implies #[trigger] before[j].0@
            != before[i as int].0@ by {
            assert(before[j] == entries[j]);
        }
        lemma_found(before, i);
        assert(entries.last() == entries[entries.len() - 1]);
    }
}

proof fn lemma_replaced<V: DeepView>(entries: Seq<(String, V)>, i: nat, key: String, value: V)
    requires
        i < entries.len(),
        entries[i as int].0@ == key@,
        forall|j: int| i < j < entries.len() ==> #[trigger] entries[j].0@ != key@,
    ensures
        latest(entries.update(i as int, (key, value))) == latest(entries).insert(
            key@,
            value.deep_view(),
        ),
    decreases entries.len(),
{
    let updated = entries.update(i as int, (key, value));
    let before = entries.drop_last();
    if i + 1 == entries.len() {
        assert(updated.drop_last() == before);
    } else {
        assert forall|j: int| i < j < before.len() implies #[trigger] before[j].0@ != key@ by {
            assert(before[j] == entries[j]);
        }
        lemma_replaced(before, i, key, value);
        assert(updated.drop_last() == before.update(i as int, (key, value)));
        assert(entries.last() == entries[entries.len() - 1]);
        assert(entries.last().0@ != key@);
        assert(latest(updated) == latest(entries).insert(key@, value.deep_view()));
    }
}

proof fn lemma_latest_finite<V: DeepView>(entries: Seq<(String, V)>)
    ensures
        latest(entries).dom().finite(),
    decreases entries.len(),
{
    if entries.len() > 0 {
        lemma_latest_finite(entries.drop_last());
    }
}

} // verus!
