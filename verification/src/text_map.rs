//! A map whose keys are texts.

use vstd::prelude::*;
use crate::text::same_text;

verus! {

/// A map from texts to values. No text occurs twice.
#[derive(Debug)]
pub struct TextMap<V> {
    entries: Vec<(String, V)>,
}

impl<V> View for TextMap<V> {
    type V = Map<Seq<char>, V>;

    closed spec fn view(&self) -> Map<Seq<char>, V> {
        Map::new(
            |key: Seq<char>| exists|i: int| self.entry_at(key, i),
            |key: Seq<char>| self.entries@[choose|i: int| self.entry_at(key, i)].1,
        )
    }
}

impl<V> TextMap<V> {
    #[verifier::type_invariant]
    spec fn no_key_twice(self) -> bool {
        forall|i: int, j: int|
            0 <= i < j < self.entries@.len() ==> (#[trigger] self.entries@[i]).0@ != (
            #[trigger] self.entries@[j]).0@
    }

    spec fn entry_at(self, key: Seq<char>, i: int) -> bool {
        0 <= i < self.entries@.len() && self.entries@[i].0@ == key
    }

    /// The map without entries.
    pub fn new() -> (map: TextMap<V>)
        ensures
            map@ == Map::<Seq<char>, V>::empty(),
    {
        let map = TextMap { entries: Vec::new() };
        assert(map@ =~= Map::<Seq<char>, V>::empty());
        map
    }

    /// The value at a key.
    pub fn get(&self, key: &str) -> (value: Option<&V>)
        ensures
            match value {
                Some(value) => self@.contains_key(key@) && *value == self@[key@],
                None => !self@.contains_key(key@),
            },
    {
        proof {
            use_type_invariant(self);
        }
        let mut i: usize = 0;
        while i < self.entries.len()
            invariant
                i <= self.entries@.len(),
                self.no_key_twice(),
                forall|j: int| 0 <= j < i ==> (#[trigger] self.entries@[j]).0@ != key@,
            decreases self.entries@.len() - i,
        {
            if same_text(self.entries[i].0.as_str(), key) {
                assert(self.entry_at(key@, i as int));
                return Some(&self.entries[i].1);
            }
            i += 1;
        }
        None
    }

    /// Puts a value at a key, in place of the one that was there, if any.
    pub fn insert(&mut self, key: String, value: V)
        ensures
            final(self)@ == old(self)@.insert(key@, value),
    {
        proof {
            use_type_invariant(&*self);
        }
        let mut entries: Vec<(String, V)> = Vec::new();
        let ghost before = *self;
        std::mem::swap(&mut entries, &mut self.entries);
        let mut i: usize = 0;
        while i < entries.len()
            invariant
                i <= entries@.len(),
                before == *old(self),
                entries == before.entries,
                before.no_key_twice(),
                forall|j: int| 0 <= j < i ==> (#[trigger] before.entries@[j]).0@ != key@,
            decreases entries@.len() - i,
        {
            if same_text(entries[i].0.as_str(), key.as_str()) {
                entries.set(i, (key, value));
                self.entries = entries;
                proof {
                    lemma_inserted(before, *self, i as int, key@, value);
                }
                return ;
            }
            i += 1;
        }
        entries.push((key, value));
        self.entries = entries;
        proof {
            lemma_inserted(before, *self, i as int, key@, value);
        }
    }
}

/// Writing an entry where its key stood, or at the end if it stood nowhere, inserts it.
proof fn lemma_inserted<V>(
    before: TextMap<V>,
    after: TextMap<V>,
    at: int,
    key: Seq<char>,
    value: V,
)
    requires
        before.no_key_twice(),
        after.no_key_twice(),
        0 <= at <= before.entries@.len(),
        after.entries@.len() == if at < before.entries@.len() {
            before.entries@.len()
        } else {
            before.entries@.len() + 1
        },
        after.entries@[at].0@ == key,
        after.entries@[at].1 == value,
        at < before.entries@.len() ==> before.entries@[at].0@ == key,
        forall|j: int|
            0 <= j < before.entries@.len() && j != at ==> #[trigger] after.entries@[j]
                == before.entries@[j],
    ensures
        after@ == before@.insert(key, value),
{
    let inserted = before@.insert(key, value);
    assert(after.entry_at(key, at));
    assert forall|k: Seq<char>| #[trigger] after@.dom().contains(k) == inserted.dom().contains(k) by {
        if before@.contains_key(k) {
            let i = choose|i: int| before.entry_at(k, i);
            assert(k != key ==> after.entry_at(k, i));
        }
        if after@.contains_key(k) && k != key {
            let i = choose|i: int| after.entry_at(k, i);
            assert(before.entry_at(k, i));
        }
    }
    assert forall|k: Seq<char>| #[trigger] after@.dom().contains(k) implies after@[k]
        == inserted[k] by {
        let i = choose|i: int| after.entry_at(k, i);
        assert(after.entry_at(k, i));
        if k == key {
            assert(after.entries@[i].0@ == after.entries@[at].0@);
        } else {
            assert(before.entry_at(k, i));
            let j = choose|j: int| before.entry_at(k, j);
            assert(before.entries@[i].0@ == before.entries@[j].0@);
        }
    }
    assert(after@ =~= inserted);
}

} // verus!
