//! Small collections of strings: a table from string to string and a set of strings.
use vstd::prelude::*;

use crate::text::strings;

verus! {

/// The table that a list of entries stands for: a later entry for a key overrides an earlier one.
pub open spec fn entries_map(entries: Seq<(String, String)>) -> Map<Seq<char>, Seq<char>>
    decreases entries.len(),
{
    if entries.len() == 0 {
        Map::empty()
    } else {
        entries_map(entries.drop_last()).insert(entries.last().0@, entries.last().1@)
    }
}

/// A table from string to string.
#[derive(Debug)]
pub struct Table {
    pub entries: Vec<(String, String)>,
}

impl View for Table {
    type V = Map<Seq<char>, Seq<char>>;

    open spec fn view(&self) -> Map<Seq<char>, Seq<char>> {
        entries_map(self.entries@)
    }
}

/// No entry from `from` on has the key.
spec fn absent_from(entries: Seq<(String, String)>, key: Seq<char>, from: int) -> bool {
    forall|i: int| from <= i < entries.len() ==> #[trigger] entries[i].0@ != key
}

/// Entries for other keys at the end say nothing of a key.
proof fn lemma_skip_tail(entries: Seq<(String, String)>, key: Seq<char>, from: int)
    requires
        0 <= from <= entries.len(),
        absent_from(entries, key, from),
    ensures
        entries_map(entries).contains_key(key) == entries_map(entries.take(from)).contains_key(key),
        entries_map(entries)[key] == entries_map(entries.take(from))[key],
    decreases entries.len() - from,
{
    if from < entries.len() {
        let shorter = entries.drop_last();
        assert(entries.last().0@ != key);
        assert forall|i: int| from <= i < shorter.len() implies #[trigger] shorter[i].0@ != key by {
            assert(shorter[i] == entries[i]);
        }
        lemma_skip_tail(shorter, key, from);
        assert(shorter.take(from) =~= entries.take(from));
    } else {
        assert(entries.take(from) =~= entries);
    }
}

/// Replacing the last entry for a key is an insertion.
proof fn lemma_update_last(entries: Seq<(String, String)>, at: int, entry: (String, String))
    requires
        0 <= at < entries.len(),
        entries[at].0@ == entry.0@,
        absent_from(entries, entry.0@, at + 1),
    ensures
        entries_map(entries.update(at, entry)) == entries_map(entries).insert(entry.0@, entry.1@),
    decreases entries.len(),
{
    let updated = entries.update(at, entry);
    let shorter = entries.drop_last();
    if at == entries.len() - 1 {
        assert(updated.drop_last() =~= shorter);
        assert(updated.last() == entry);
        assert(entries_map(updated) =~= entries_map(entries).insert(entry.0@, entry.1@));
    } else {
        assert(entries.last().0@ != entry.0@);
        assert forall|i: int| at + 1 <= i < shorter.len() implies #[trigger] shorter[i].0@
            != entry.0@ by {
            assert(shorter[i] == entries[i]);
        }
        lemma_update_last(shorter, at, entry);
        assert(updated.drop_last() =~= shorter.update(at, entry));
        assert(updated.last() == entries.last());
        assert(entries_map(updated) =~= entries_map(entries).insert(entry.0@, entry.1@));
    }
}

impl Clone for Table {
    fn clone(&self) -> (r: Self)
        ensures
            r@ == self@,
    {
        let mut entries: Vec<(String, String)> = Vec::new();
        for i in 0..self.entries.len()
            invariant
                entries@ == self.entries@.take(i as int),
        {
            entries.push((self.entries[i].0.clone(), self.entries[i].1.clone()));
            assert(entries@ =~= self.entries@.take(i + 1));
        }
        assert(self.entries@.take(self.entries@.len() as int) =~= self.entries@);
        Table { entries }
    }
}

impl Table {
    /// A table without entries.
    pub fn new() -> (r: Self)
        ensures
            r@ == Map::<Seq<char>, Seq<char>>::empty(),
    {
        Table { entries: Vec::new() }
    }

    /// The last entry for the key.
    fn position(&self, key: &String) -> (r: Option<usize>)
        ensures
            match r {
                Some(i) => i < self.entries.len() && self.entries@[i as int].0@ == key@
                    && absent_from(self.entries@, key@, i + 1),
                None => absent_from(self.entries@, key@, 0),
            },
    {
        let mut i: usize = self.entries.len();
        while i > 0
            invariant
                i <= self.entries.len(),
                absent_from(self.entries@, key@, i as int),
            decreases i,
        {
            i = i - 1;
            if self.entries[i].0 == *key {
                return Some(i);
            }
        }
        None
    }

    /// The value of the key.
    pub fn get(&self, key: &String) -> (r: Option<&String>)
        ensures
            match r {
                Some(value) => self@.contains_key(key@) && value@ == self@[key@],
                None => !self@.contains_key(key@),
            },
    {
        match self.position(key) {
            Some(i) => {
                proof {
                    lemma_skip_tail(self.entries@, key@, i + 1);
                    let head = self.entries@.take(i + 1);
                    assert(head.last() == self.entries@[i as int]);
                }
                Some(&self.entries[i].1)
            },
            None => {
                proof {
                    lemma_skip_tail(self.entries@, key@, 0);
                    assert(self.entries@.take(0) =~= Seq::empty());
                }
                None
            },
        }
    }

    /// Gives the key a value; an earlier value is lost.
    pub fn insert(&mut self, key: String, value: String)
        ensures
            final(self)@ == old(self)@.insert(key@, value@),
    {
        match self.position(&key) {
            Some(i) => {
                let ghost entry = (key, value);
                proof {
                    lemma_update_last(self.entries@, i as int, entry);
                }
                self.entries.set(i, (key, value));
            },
            None => {
                let ghost before = self.entries@;
                self.entries.push((key, value));
                assert(self.entries@.drop_last() =~= before);
            },
        }
    }

    /// Takes the key and its value out.
    pub fn remove(&mut self, key: &str)
        ensures
            final(self)@ == old(self)@.remove(key@),
    {
        let key = key.to_owned();
        let mut kept: Vec<(String, String)> = Vec::new();
        let ghost all = self.entries@;
        assert(entries_map(kept@) =~= entries_map(all.take(0)).remove(key@));
        for i in 0..self.entries.len()
            invariant
                self.entries@ == all,
                entries_map(kept@) == entries_map(all.take(i as int)).remove(key@),
        {
            let ghost before = kept@;
            assert(all.take(i + 1).drop_last() =~= all.take(i as int));
            if self.entries[i].0 != key {
                kept.push((self.entries[i].0.clone(), self.entries[i].1.clone()));
                assert(kept@.drop_last() =~= before);
            }
            assert(entries_map(kept@) =~= entries_map(all.take(i + 1)).remove(key@));
        }
        assert(all.take(all.len() as int) =~= all);
        self.entries = kept;
    }
}

/// A set of strings.
#[derive(Debug)]
pub struct Keys {
    pub items: Vec<String>,
}

impl View for Keys {
    type V = Set<Seq<char>>;

    open spec fn view(&self) -> Set<Seq<char>> {
        strings(self.items@).to_set()
    }
}

impl Keys {
    /// No keys.
    pub fn new() -> (r: Self)
        ensures
            r@ == Set::<Seq<char>>::empty(),
    {
        let r = Keys { items: Vec::new() };
        assert(r@ =~= Set::<Seq<char>>::empty());
        r
    }

    /// Whether the key is there.
    pub fn contains(&self, key: &String) -> (r: bool)
        ensures
            r == self@.contains(key@),
    {
        for i in 0..self.items.len()
            invariant
                forall|j: int| 0 <= j < i ==> strings(self.items@)[j] != key@,
        {
            if self.items[i] == *key {
                assert(strings(self.items@)[i as int] == key@);
                return true;
            }
        }
        false
    }

    /// Adds the key; tells whether it was new.
    pub fn insert(&mut self, key: String) -> (r: bool)
        ensures
            final(self)@ == old(self)@.insert(key@),
            r == !old(self)@.contains(key@),
    {
        let present = self.contains(&key);
        if present {
            assert(self@ =~= old(self)@.insert(key@));
            return false;
        }
        let ghost before = strings(self.items@);
        self.items.push(key);
        assert(strings(self.items@) =~= before.push(key@));
        proof {
            assert forall|k: Seq<char>| self@.contains(k) == old(self)@.insert(key@).contains(k) by {
                if before.contains(k) {
                    let i = choose|i: int| 0 <= i < before.len() && before[i] == k;
                    assert(strings(self.items@)[i] == k);
                }
                assert(strings(self.items@)[before.len() as int] == key@);
            }
        }
        assert(self@ =~= old(self)@.insert(key@));
        true
    }
}

/// A further entry gives its key its value, whatever the key had before, and changes no other key.
pub proof fn later_entries_count(entries: Seq<(String, String)>, entry: (String, String), key: Seq<
    char,
>)
    ensures
        entries_map(Seq::empty()) == Map::<Seq<char>, Seq<char>>::empty(),
        entries_map(entries.push(entry)).contains_key(entry.0@),
        entries_map(entries.push(entry))[entry.0@] == entry.1@,
        key != entry.0@ ==> entries_map(entries.push(entry)).contains_key(key) == entries_map(
            entries,
        ).contains_key(key),
        key != entry.0@ ==> entries_map(entries.push(entry))[key] == entries_map(entries)[key],
{
    assert(entries.push(entry).drop_last() =~= entries);
}

/// A set holds the keys that are listed in it, and no others.
pub proof fn sets_hold_what_is_listed(keys: Keys, key: Seq<char>)
    ensures
        keys@.contains(key) <==> exists|i: int|
            0 <= i < keys.items@.len() && (#[trigger] keys.items@[i])@ == key,
{
    let list = strings(keys.items@);
    if keys@.contains(key) {
        let i = choose|i: int| 0 <= i < list.len() && list[i] == key;
        assert(keys.items@[i]@ == key);
    }
    if exists|i: int| 0 <= i < keys.items@.len() && (#[trigger] keys.items@[i])@ == key {
        let i = choose|i: int| 0 <= i < keys.items@.len() && (#[trigger] keys.items@[i])@ == key;
        assert(list[i] == key);
    }
}

} // verus!
