//! The record of the objects that were put.
use vstd::prelude::*;

verus! {

/// What a new datastore file starts with: no objects.
pub const EMPTY_DATASTORE: &'static str = "{}";

/// An object and how it is cut into parts.
#[derive(Debug, PartialEq, Eq)]
pub struct Object {
    pub key: String,
    pub total_size: u64,
    pub part_size: u64,
    pub parts_len: u64,
}

impl Clone for Object {
    fn clone(&self) -> (r: Self)
        ensures
            r == *self,
    {
        Object {
            key: self.key.clone(),
            total_size: self.total_size,
            part_size: self.part_size,
            parts_len: self.parts_len,
        }
    }
}

/// The objects by key.
#[derive(Debug)]
pub struct Datastore {
    entries: Vec<(String, Object)>,
}

/// The keys of the entries are all different.
pub open spec fn keys_distinct(entries: Seq<(String, Object)>) -> bool {
    forall|i: int, j: int|
        0 <= i < j < entries.len() ==> (#[trigger] entries[i]).0@ != (#[trigger] entries[j]).0@
}

/// What a list of entries records: of two entries with one key the later one counts.
pub open spec fn recorded(entries: Seq<(String, Object)>) -> Map<Seq<char>, Object>
    decreases entries.len(),
{
    if entries.len() == 0 {
        Map::empty()
    } else {
        recorded(entries.drop_last()).insert(entries.last().0@, entries.last().1)
    }
}

proof fn lemma_recorded(entries: Seq<(String, Object)>)
    ensures
        forall|key: Seq<char>| #[trigger]
            recorded(entries).contains_key(key) ==> exists|i: int|
                0 <= i < entries.len() && (#[trigger] entries[i]).0@ == key && entries[i].1
                    == recorded(entries)[key],
        forall|i: int|
            0 <= i < entries.len() ==> recorded(entries).contains_key(
                (#[trigger] entries[i]).0@,
            ),
        keys_distinct(entries) ==> forall|i: int|
            0 <= i < entries.len() ==> recorded(entries)[(#[trigger] entries[i]).0@]
                == entries[i].1,
    decreases entries.len(),
{
    if entries.len() > 0 {
        let front = entries.drop_last();
        lemma_recorded(front);
        assert forall|key: Seq<char>| #[trigger] recorded(entries).contains_key(key) implies exists|
            i: int,
        |
            0 <= i < entries.len() && (#[trigger] entries[i]).0@ == key && entries[i].1
                == recorded(entries)[key] by {
            if key == entries.last().0@ {
                assert(entries[entries.len() - 1].0@ == key);
            } else {
                assert(recorded(front).contains_key(key));
                let i = choose|i: int|
                    0 <= i < front.len() && (#[trigger] front[i]).0@ == key && front[i].1
                        == recorded(front)[key];
                assert(entries[i] == front[i]);
            }
        }
        assert forall|i: int| 0 <= i < entries.len() implies recorded(entries).contains_key(
            (#[trigger] entries[i]).0@,
        ) by {
            if i < front.len() {
                assert(entries[i] == front[i]);
            }
        }
        if keys_distinct(entries) {
            assert(keys_distinct(front)) by {
                assert forall|i: int, j: int| 0 <= i < j < front.len() implies (
                #[trigger] front[i]).0@ != (#[trigger] front[j]).0@ by {
                    assert(front[i] == entries[i] && front[j] == entries[j]);
                }
            }
            assert forall|i: int| 0 <= i < entries.len() implies recorded(
                entries,
            )[(#[trigger] entries[i]).0@] == entries[i].1 by {
                if i < front.len() {
                    assert(entries[i] == front[i]);
                    assert(entries[i].0@ != entries[entries.len() - 1].0@);
                }
            }
        }
    }
}

impl View for Datastore {
    type V = Map<Seq<char>, Object>;

    closed spec fn view(&self) -> Map<Seq<char>, Object> {
        recorded(self.entries@)
    }
}

impl Datastore {
    /// Every key is recorded once.
    pub closed spec fn wf(self) -> bool {
        keys_distinct(self.entries@)
    }

    /// The datastore that was saved, or an empty one where none was.
    pub fn new(saved: Option<Vec<(String, Object)>>) -> (store: Datastore)
        ensures
            store.wf(),
            match saved {
                Some(entries) => store@ == recorded(entries@),
                None => store@ == Map::<Seq<char>, Object>::empty(),
            },
    {
        let mut store = Datastore { entries: Vec::new() };
        match saved {
            Some(entries) => {
                let ghost all = entries@;
                let mut i: usize = 0;
                proof {
                    assert(all.take(0) =~= Seq::<(String, Object)>::empty());
                }
                while i < entries.len()
                    invariant
                        all == entries@,
                        0 <= i <= entries.len(),
                        store.wf(),
                        store@ == recorded(all.take(i as int)),
                    decreases entries.len() - i,
                {
                    store.insert(entries[i].0.clone(), entries[i].1.clone());
                    proof {
                        assert(all.take(i + 1).drop_last() =~= all.take(i as int));
                    }
                    i += 1;
                }
                proof {
                    assert(all.take(i as int) =~= all);
                }
            },
            None => {},
        }
        store
    }

    /// The position of the entry of `key`.
    fn position(&self, key: &String) -> (r: Option<usize>)
        requires
            self.wf(),
        ensures
            match r {
                Some(i) => i < self.entries.len() && self.entries[i as int].0@ == key@,
                None => !self@.contains_key(key@),
            },
    {
        let mut i: usize = 0;
        while i < self.entries.len()
            invariant
                0 <= i <= self.entries.len(),
                forall|k: int| 0 <= k < i ==> (#[trigger] self.entries@[k]).0@ != key@,
            decreases self.entries.len() - i,
        {
            if self.entries[i].0 == *key {
                return Some(i);
            }
            i += 1;
        }
        proof {
            lemma_recorded(self.entries@);
        }
        None
    }

    fn insert(&mut self, key: String, obj: Object)
        requires
            old(self).wf(),
        ensures
            final(self).wf(),
            final(self)@ == old(self)@.insert(key@, obj),
    {
        let ghost before = self.entries@;
        match self.position(&key) {
            Some(i) => {
                let ghost name = key@;
                self.entries.set(i, (key, obj));
                proof {
                    let after = self.entries@;
                    assert forall|a: int, b: int| 0 <= a < b < after.len() implies (
                    #[trigger] after[a]).0@ != (#[trigger] after[b]).0@ by {
                        assert(before[a].0@ != before[b].0@);
                    }
                    lemma_recorded(before);
                    lemma_recorded(after);
                    assert forall|k: Seq<char>| recorded(after).contains_key(k) == recorded(
                        before,
                    ).insert(name, obj).contains_key(k) by {
                        if recorded(after).contains_key(k) {
                            let j = choose|j: int|
                                0 <= j < after.len() && (#[trigger] after[j]).0@ == k && after[j].1
                                    == recorded(after)[k];
                            assert(before[j].0@ == k);
                        }
                        if recorded(before).contains_key(k) {
                            let j = choose|j: int|
                                0 <= j < before.len() && (#[trigger] before[j]).0@ == k
                                    && before[j].1 == recorded(before)[k];
                            assert(after[j].0@ == k);
                        }
                        if k == name {
                            assert(after[i as int].0@ == k);
                        }
                    }
                    assert forall|k: Seq<char>| recorded(after).contains_key(k) implies recorded(
                        after,
                    )[k] == recorded(before).insert(name, obj)[k] by {
                        let j = choose|j: int|
                            0 <= j < after.len() && (#[trigger] after[j]).0@ == k && after[j].1
                                == recorded(after)[k];
                        if j != i {
                            assert(after[j] == before[j]);
                            assert(before[i as int].0@ == name);
                            if j < i {
                                assert(before[j].0@ != before[i as int].0@);
                            } else {
                                assert(before[i as int].0@ != before[j].0@);
                            }
                        }
                    }
                    assert(recorded(after) =~= recorded(before).insert(name, obj));
                }
            },
            None => {
                let ghost name = key@;
                self.entries.push((key, obj));
                proof {
                    let after = self.entries@;
                    assert(after.drop_last() =~= before);
                    lemma_recorded(before);
                    assert forall|a: int, b: int| 0 <= a < b < after.len() implies (
                    #[trigger] after[a]).0@ != (#[trigger] after[b]).0@ by {
                        assert(after[a] == before[a]);
                        if b < before.len() {
                            assert(after[b] == before[b]);
                        } else {
                            assert(recorded(before).contains_key(before[a].0@));
                        }
                    }
                }
            },
        }
    }

    /// Records an object under its key; what was recorded there before is gone.
    pub fn put(&mut self, obj: Object)
        requires
            old(self).wf(),
        ensures
            final(self).wf(),
            final(self)@ == old(self)@.insert(obj.key@, obj),
    {
        let key: String = obj.key.clone();
        self.insert(key, obj);
    }

    /// The object that is recorded under `key`.
    pub fn get(&self, key: &str) -> (r: Option<Object>)
        requires
            self.wf(),
        ensures
            r == (if self@.contains_key(key@) {
                Some(self@[key@])
            } else {
                None
            }),
    {
        let name: String = String::from_str(key);
        match self.position(&name) {
            Some(i) => {
                proof {
                    lemma_recorded(self.entries@);
                }
                Some(self.entries[i].1.clone())
            },
            None => None,
        }
    }

    /// The entries to save: each key once, with its object.
    pub fn entries(&self) -> (r: &Vec<(String, Object)>)
        requires
            self.wf(),
        ensures
            recorded(r@) == self@,
            keys_distinct(r@),
    {
        &self.entries
    }
}

/// Whether an object of that key was put.
pub fn object_exist(store: &Datastore, key: &str) -> (r: bool)
    requires
        store.wf(),
    ensures
        r == store@.contains_key(key@),
{
    store.get(key).is_some()
}

/// An object that was put is found, and what is recorded under other keys stays.
pub proof fn law_put_is_found(before: Datastore, obj: Object, after: Datastore)
    requires
        after@ == before@.insert(obj.key@, obj),
    ensures
        after@.contains_key(obj.key@),
        after@[obj.key@] == obj,
        forall|key: Seq<char>|
            key != obj.key@ ==> (#[trigger] after@.contains_key(key) == before@.contains_key(key))
                && after@[key] == before@[key],
{
}

/// The entries that were saved, read back in any order, make the same datastore.
pub proof fn law_saved_is_restored(
    store: Datastore,
    saved: Seq<(String, Object)>,
    read: Seq<(String, Object)>,
)
    requires
        recorded(saved) == store@,
        keys_distinct(saved),
        read.to_multiset() == saved.to_multiset(),
    ensures
        recorded(read) == store@,
{
    read.to_multiset_ensures();
    saved.to_multiset_ensures();
    lemma_recorded(read);
    lemma_recorded(saved);
    assert forall|i: int| 0 <= i < read.len() implies saved.contains(#[trigger] read[i]) by {
        assert(read.contains(read[i]));
        assert(saved.to_multiset().count(read[i]) > 0);
    }
    assert forall|i: int| 0 <= i < saved.len() implies read.contains(#[trigger] saved[i]) by {
        assert(saved.contains(saved[i]));
        assert(read.to_multiset().count(saved[i]) > 0);
    }
    assert forall|key: Seq<char>| recorded(read).contains_key(key) == recorded(
        saved,
    ).contains_key(key) by {
        if recorded(read).contains_key(key) {
            let i = choose|i: int|
                0 <= i < read.len() && (#[trigger] read[i]).0@ == key && read[i].1 == recorded(
                    read,
                )[key];
            let j = choose|j: int| 0 <= j < saved.len() && saved[j] == read[i];
            assert(recorded(saved).contains_key(saved[j].0@));
        }
        if recorded(saved).contains_key(key) {
            let i = choose|i: int|
                0 <= i < saved.len() && (#[trigger] saved[i]).0@ == key && saved[i].1 == recorded(
                    saved,
                )[key];
            let j = choose|j: int| 0 <= j < read.len() && read[j] == saved[i];
            assert(recorded(read).contains_key(read[j].0@));
        }
    }
    assert forall|key: Seq<char>| recorded(read).contains_key(key) implies recorded(read)[key]
        == recorded(saved)[key] by {
        let i = choose|i: int|
            0 <= i < read.len() && (#[trigger] read[i]).0@ == key && read[i].1 == recorded(
                read,
            )[key];
        let j = choose|j: int| 0 <= j < saved.len() && saved[j] == read[i];
        assert(recorded(saved)[saved[j].0@] == saved[j].1);
    }
    assert(recorded(read) =~= recorded(saved));
}

/// A list of entries records just the keys that are in it, and under each the object of the last
/// entry that has it.
pub proof fn law_last_entry_counts(entries: Seq<(String, Object)>, i: int)
    requires
        0 <= i < entries.len(),
        forall|j: int| i < j < entries.len() ==> (#[trigger] entries[j]).0@ != entries[i].0@,
    ensures
        recorded(entries).contains_key(entries[i].0@),
        recorded(entries)[entries[i].0@] == entries[i].1,
    decreases entries.len(),
{
    if i < entries.len() - 1 {
        let front = entries.drop_last();
        assert forall|j: int| i < j < front.len() implies (#[trigger] front[j]).0@
            != front[i].0@ by {
            assert(front[j] == entries[j]);
        }
        law_last_entry_counts(front, i);
        assert(entries[entries.len() - 1].0@ != entries[i].0@);
    }
}

/// A key that no entry has is not recorded.
pub proof fn law_other_keys_are_not_recorded(entries: Seq<(String, Object)>, key: Seq<char>)
    requires
        forall|i: int| 0 <= i < entries.len() ==> (#[trigger] entries[i]).0@ != key,
    ensures
        !recorded(entries).contains_key(key),
{
    lemma_recorded(entries);
}

} // verus!
