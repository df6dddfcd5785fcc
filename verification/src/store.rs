//! The server's key-value store: string keys to string values.
use vstd::prelude::*;

verus! {

/// The keys of a list of entries are pairwise distinct.
pub open spec fn keys_distinct(e: Seq<(String, String)>) -> bool {
    forall|i: int, j: int|
        0 <= i < e.len() && 0 <= j < e.len() && i != j ==> #[trigger] e[i].0@ != #[trigger] e[j].0@
}

/// Some entry has the key `k`.
pub open spec fn has_key(e: Seq<(String, String)>, k: Seq<char>) -> bool {
    exists|i: int| 0 <= i < e.len() && #[trigger] e[i].0@ == k
}

/// The map that a list of entries with distinct keys stands for.
pub open spec fn entries_map(e: Seq<(String, String)>) -> Map<Seq<char>, Seq<char>> {
    Map::new(
        |k: Seq<char>| has_key(e, k),
        |k: Seq<char>| e[choose|i: int| 0 <= i < e.len() && #[trigger] e[i].0@ == k].1@,
    )
}

/// An entry's key maps to the entry's value.
pub proof fn lemma_entries_map_at(e: Seq<(String, String)>, i: int)
    requires
        keys_distinct(e),
        0 <= i < e.len(),
    ensures
        entries_map(e).contains_key(e[i].0@),
        entries_map(e)[e[i].0@] == e[i].1@,
{
    let k = e[i].0@;
    assert(has_key(e, k));
    let c = choose|c: int| 0 <= c < e.len() && #[trigger] e[c].0@ == k;
    assert(c == i);
}

/// A key-value store. Each key occurs at most once.
///
/// The entries are a list of pairs with distinct keys rather than std's
/// `HashMap<String, String>`: vstd specifies `HashMap` only for keys that
/// obey its hash-table key model, which it grants to primitive types and
/// not to `String`, so a map keyed by `String` would carry no contract that
/// the store's own contracts could rest on.
pub struct Store {
    entries: Vec<(String, String)>,
}

impl View for Store {
    type V = Map<Seq<char>, Seq<char>>;

    closed spec fn view(&self) -> Map<Seq<char>, Seq<char>> {
        entries_map(self.entries@)
    }
}

impl Store {
    #[verifier::type_invariant]
    spec fn distinct(self) -> bool {
        keys_distinct(self.entries@)
    }

    /// An empty store.
    pub fn new() -> (res: Store)
        ensures
            res@ == Map::<Seq<char>, Seq<char>>::empty(),
    {
        let res = Store { entries: Vec::new() };
        assert(res@ =~= Map::<Seq<char>, Seq<char>>::empty());
        res
    }

    /// The index of the entry with key `key`.
    fn position(&self, key: &String) -> (res: Option<usize>)
        ensures
            res matches Some(i) ==> i < self.entries@.len() && self.entries@[i as int].0@ == key@,
            res is None ==> !has_key(self.entries@, key@),
    {
        let mut i: usize = 0;
        while i < self.entries.len()
            invariant
                i <= self.entries@.len(),
                forall|j: int| 0 <= j < i ==> self.entries@[j].0@ != key@,
            decreases self.entries@.len() - i,
        {
            if self.entries[i].0 == *key {
                return Some(i);
            }
            i = i + 1;
        }
        None
    }

    /// The value stored under `key`, if any.
    pub fn get(&self, key: &String) -> (res: Option<String>)
        ensures
            res is Some <==> self@.contains_key(key@),
            res matches Some(v) ==> v@ == self@[key@],
    {
        proof {
            use_type_invariant(self);
        }
        match self.position(key) {
            Some(i) => {
                proof {
                    lemma_entries_map_at(self.entries@, i as int);
                }
                Some(self.entries[i].1.clone())
            },
            None => None,
        }
    }

    /// Whether some value is stored under `key`.
    pub fn contains_key(&self, key: &String) -> (res: bool)
        ensures
            res == self@.contains_key(key@),
    {
        self.position(key).is_some()
    }

    /// Stores `value` under `key`, replacing what was stored there.
    pub fn insert(&mut self, key: String, value: String)
        ensures
            final(self)@ == old(self)@.insert(key@, value@),
    {
        proof {
            use_type_invariant(&*self);
        }
        let ghost old_entries = self.entries@;
        let found = self.position(&key);
        let mut entries: Vec<(String, String)> = Vec::new();
        std::mem::swap(&mut entries, &mut self.entries);
        assert(entries@ == old_entries);
        match found {
            Some(i) => {
                entries.set(i, (key, value));
            },
            None => {
                entries.push((key, value));
            },
        }
        let ghost e = entries@;
        assert(keys_distinct(e));
        assert forall|k: Seq<char>| #[trigger]
            entries_map(e).contains_key(k) == entries_map(old_entries).insert(
                key@,
                value@,
            ).contains_key(k) by {
            if has_key(e, k) {
                let w = choose|w: int| 0 <= w < e.len() && #[trigger] e[w].0@ == k;
                if k != key@ {
                    assert(old_entries[w].0@ == k);
                }
            }
            if has_key(old_entries, k) {
                let w = choose|w: int| 0 <= w < old_entries.len() && #[trigger] old_entries[w].0@
                    == k;
                assert(e[w].0@ == k);
            }
            if k == key@ {
                match found {
                    Some(i) => assert(e[i as int].0@ == k),
                    None => assert(e[e.len() - 1].0@ == k),
                }
            }
        }
        assert forall|k: Seq<char>| #[trigger]
            entries_map(e).contains_key(k) implies entries_map(e)[k] == entries_map(
            old_entries,
        ).insert(key@, value@)[k] by {
            let w = choose|w: int| 0 <= w < e.len() && #[trigger] e[w].0@ == k;
            lemma_entries_map_at(e, w);
            if k != key@ {
                assert(old_entries[w] == e[w]);
                lemma_entries_map_at(old_entries, w);
            }
        }
        assert(entries_map(e) =~= entries_map(old_entries).insert(key@, value@));
        self.entries = entries;
    }
}

} // verus!
