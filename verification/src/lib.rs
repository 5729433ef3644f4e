//! An in-process key-value store: a mutable mapping from string keys to
//! string values with `get`, `set` and `remove` operations, plus an `open`
//! entry point reserved for a future persistence-backed variant.
//!
//! Every operation is specified against the store's view, a
//! `Map<Seq<char>, Seq<char>>` from key contents to value contents.

use vstd::prelude::*;

verus! {

/// A store-level failure. No in-memory operation can produce one; the type
/// exists so that a future persistence-backed store can report I/O errors
/// without changing any call site.
#[derive(Debug)]
pub struct KVErr {
    msg: String,
}

impl View for KVErr {
    type V = Seq<char>;

    closed spec fn view(&self) -> Seq<char> {
        self.msg@
    }
}

impl KVErr {
    /// The failure's message.
    pub fn message(&self) -> (r: String)
        ensures
            r@ == self@,
    {
        self.msg.clone()
    }
}

/// The result of a store operation.
pub type KVResult<T> = Result<T, KVErr>;

/// Relies on std::path::PathBuf only as an opaque value: `open` names a
/// backing location with it but never reads it in the current,
/// memory-resident scope.
#[verifier::external_type_specification]
#[verifier::external_body]
pub struct ExPathBuf(std::path::PathBuf);

/// An in-memory mapping from string keys to string values. Keys are unique;
/// no ordering is guaranteed.
pub struct KvStore {
    entries: Vec<(String, String)>,
}

/// Whether no two entries share a key.
spec fn keys_unique(entries: Seq<(String, String)>) -> bool {
    forall|i: int, j: int|
        0 <= i < j < entries.len() ==> entries[i].0@ != entries[j].0@
}

/// The mapping that a sequence of entries denotes: later entries win.
spec fn map_of(entries: Seq<(String, String)>) -> Map<Seq<char>, Seq<char>>
    decreases entries.len(),
{
    if entries.len() == 0 {
        Map::empty()
    } else {
        map_of(entries.drop_last()).insert(entries.last().0@, entries.last().1@)
    }
}

/// A key is in the denoted mapping exactly when some entry carries it.
proof fn lemma_map_of_contains(entries: Seq<(String, String)>)
    ensures
        forall|k: Seq<char>|
            #[trigger] map_of(entries).contains_key(k) <==> exists|i: int|
                0 <= i < entries.len() && entries[i].0@ == k,
    decreases entries.len(),
{
    if entries.len() > 0 {
        let prefix = entries.drop_last();
        lemma_map_of_contains(prefix);
        assert forall|k: Seq<char>|
            #[trigger] map_of(entries).contains_key(k) <==> exists|i: int|
                0 <= i < entries.len() && entries[i].0@ == k by {
            if map_of(entries).contains_key(k) {
                if k == entries.last().0@ {
                    assert(entries[entries.len() - 1].0@ == k);
                } else {
                    assert(map_of(prefix).contains_key(k));
                    let i = choose|i: int| 0 <= i < prefix.len() && prefix[i].0@ == k;
                    assert(entries[i].0@ == k);
                }
            }
            if exists|i: int| 0 <= i < entries.len() && entries[i].0@ == k {
                let i = choose|i: int| 0 <= i < entries.len() && entries[i].0@ == k;
                if i < entries.len() - 1 {
                    assert(prefix[i].0@ == k);
                    assert(map_of(prefix).contains_key(k));
                } else {
                    assert(k == entries.last().0@);
                }
            }
        }
    }
}

/// Dropping the last entry preserves key uniqueness.
proof fn lemma_keys_unique_drop_last(entries: Seq<(String, String)>)
    requires
        keys_unique(entries),
        entries.len() > 0,
    ensures
        keys_unique(entries.drop_last()),
{
    let prefix = entries.drop_last();
    assert forall|i: int, j: int|
        0 <= i < j < prefix.len() implies prefix[i].0@ != prefix[j].0@ by {
        assert(entries[i].0@ != entries[j].0@);
    }
}

/// With unique keys, each entry's key maps to that entry's value.
proof fn lemma_map_of_index(entries: Seq<(String, String)>, i: int)
    requires
        keys_unique(entries),
        0 <= i < entries.len(),
    ensures
        map_of(entries).contains_key(entries[i].0@),
        map_of(entries)[entries[i].0@] == entries[i].1@,
    decreases entries.len(),
{
    let prefix = entries.drop_last();
    if i < entries.len() - 1 {
        lemma_keys_unique_drop_last(entries);
        lemma_map_of_index(prefix, i);
        assert(prefix[i] == entries[i]);
        assert(entries[i].0@ != entries[entries.len() - 1].0@);
    }
}

/// With unique keys, deleting the entry at position `i` deletes exactly that
/// entry's key from the denoted mapping.
proof fn lemma_map_of_remove(entries: Seq<(String, String)>, i: int)
    requires
        keys_unique(entries),
        0 <= i < entries.len(),
    ensures
        keys_unique(entries.remove(i)),
        map_of(entries.remove(i)) == map_of(entries).remove(entries[i].0@),
    decreases entries.len(),
{
    let shortened = entries.remove(i);
    entries.remove_ensures(i);
    assert forall|a: int, b: int|
        0 <= a < b < shortened.len() implies shortened[a].0@ != shortened[b].0@ by {
        if b < i {
            assert(entries[a].0@ != entries[b].0@);
        } else if a < i {
            assert(entries[a].0@ != entries[b + 1].0@);
        } else {
            assert(entries[a + 1].0@ != entries[b + 1].0@);
        }
    }
    let key = entries[i].0@;
    let prefix = entries.drop_last();
    lemma_keys_unique_drop_last(entries);
    lemma_map_of_contains(prefix);
    if i == entries.len() - 1 {
        assert(shortened =~= prefix);
        assert(!map_of(prefix).contains_key(key));
        assert(map_of(shortened) =~= map_of(entries).remove(key));
    } else {
        lemma_map_of_remove(prefix, i);
        assert(shortened.drop_last() =~= prefix.remove(i));
        assert(shortened.last() == entries.last());
        assert(map_of(shortened) == map_of(prefix.remove(i)).insert(
            entries.last().0@,
            entries.last().1@,
        ));
        assert(prefix[i] == entries[i]);
        assert(key != entries.last().0@);
        assert(map_of(prefix).remove(key).insert(entries.last().0@, entries.last().1@)
            =~= map_of(prefix).insert(entries.last().0@, entries.last().1@).remove(key));
    }
}

impl View for KvStore {
    type V = Map<Seq<char>, Seq<char>>;

    closed spec fn view(&self) -> Map<Seq<char>, Seq<char>> {
        map_of(self.entries@)
    }
}

impl KvStore {
    #[verifier::type_invariant]
    spec fn wf(self) -> bool {
        keys_unique(self.entries@)
    }

    /// Returns an empty store.
    pub fn new() -> (s: KvStore)
        ensures
            s@ == Map::<Seq<char>, Seq<char>>::empty(),
    {
        KvStore { entries: Vec::new() }
    }

    /// Initializes a store from persisted state at `path`. A placeholder for
    /// a future persistence-backed variant: in the current, memory-resident
    /// scope it always succeeds with an empty store and does not read `path`.
    pub fn open(path: &std::path::PathBuf) -> (r: KVResult<KvStore>)
        ensures
            match r {
                Ok(s) => s@ == Map::<Seq<char>, Seq<char>>::empty(),
                Err(_) => false,
            },
    {
        Ok(KvStore::new())
    }

    /// The position of the entry carrying `key`, if one does.
    fn position_of(&self, key: &String) -> (r: Option<usize>)
        ensures
            match r {
                Some(i) => i < self.entries@.len() && self.entries@[i as int].0@ == key@,
                None => forall|j: int|
                    0 <= j < self.entries@.len() ==> self.entries@[j].0@ != key@,
            },
    {
        let n = self.entries.len();
        let mut i: usize = 0;
        while i < n
            invariant
                n == self.entries@.len(),
                i <= n,
                forall|j: int| 0 <= j < i ==> self.entries@[j].0@ != key@,
            decreases n - i,
        {
            if self.entries[i].0 == *key {
                return Some(i);
            }
            i = i + 1;
        }
        None
    }

    /// Looks up `key`: the associated value if present, or an explicit
    /// "absent" result (not an error) if the key is not in the mapping.
    /// No side effects; always succeeds.
    pub fn get(&self, key: String) -> (r: KVResult<Option<String>>)
        ensures
            match r {
                Ok(found) => match found {
                    Some(value) => self@.contains_key(key@) && value@ == self@[key@],
                    None => !self@.contains_key(key@),
                },
                Err(_) => false,
            },
    {
        proof {
            use_type_invariant(&*self);
            lemma_map_of_contains(self.entries@);
        }
        match self.position_of(&key) {
            Some(i) => {
                proof {
                    lemma_map_of_index(self.entries@, i as int);
                }
                Ok(Some(self.entries[i].1.clone()))
            },
            None => Ok(None),
        }
    }

    /// Inserts or overwrites the mapping entry for `key` with `value`.
    /// Always succeeds; afterwards the store's view is the old view with
    /// `key` bound to `value`.
    pub fn set(&mut self, key: String, value: String) -> (r: KVResult<()>)
        ensures
            r is Ok,
            final(self)@ == old(self)@.insert(key@, value@),
    {
        proof {
            use_type_invariant(&*self);
        }
        let ghost entries0 = self.entries@;
        let position = self.position_of(&key);
        let mut entries: Vec<(String, String)> = Vec::new();
        std::mem::swap(&mut entries, &mut self.entries);
        match position {
            Some(i) => {
                proof {
                    lemma_map_of_remove(entries0, i as int);
                }
                entries.remove(i);
                proof {
                    lemma_map_of_contains(entries@);
                    assert(!map_of(entries@).contains_key(key@));
                }
                entries.push((key, value));
                proof {
                    assert(entries@.drop_last() =~= entries0.remove(i as int));
                    assert(map_of(entries0).remove(entries0[i as int].0@).insert(
                        entries@.last().0@,
                        entries@.last().1@,
                    ) =~= map_of(entries0).insert(entries@.last().0@, entries@.last().1@));
                }
            },
            None => {
                entries.push((key, value));
                proof {
                    assert(entries@.drop_last() =~= entries0);
                }
            },
        }
        self.entries = entries;
        Ok(())
    }

    /// Deletes the mapping entry for `key` if present; a no-op if absent
    /// (not an error). Always succeeds; afterwards the store's view is the
    /// old view without `key`.
    pub fn remove(&mut self, key: String) -> (r: KVResult<()>)
        ensures
            r is Ok,
            final(self)@ == old(self)@.remove(key@),
    {
        proof {
            use_type_invariant(&*self);
        }
        let ghost entries0 = self.entries@;
        let position = self.position_of(&key);
        match position {
            Some(i) => {
                let mut entries: Vec<(String, String)> = Vec::new();
                std::mem::swap(&mut entries, &mut self.entries);
                proof {
                    lemma_map_of_remove(entries0, i as int);
                }
                entries.remove(i);
                self.entries = entries;
            },
            None => {
                proof {
                    lemma_map_of_contains(entries0);
                    assert(!map_of(entries0).contains_key(key@));
                    assert(map_of(entries0).remove(key@) =~= map_of(entries0));
                }
            },
        }
        Ok(())
    }
}

/// Setting a key and then getting it yields the value just written: after
/// `set(k, v)` turns a store's view `m` into `m.insert(k, v)`, `get(k)`
/// finds `k` bound to `v`.
pub proof fn lemma_set_then_get(m: Map<Seq<char>, Seq<char>>, k: Seq<char>, v: Seq<char>)
    ensures
        m.insert(k, v).contains_key(k),
        m.insert(k, v)[k] == v,
{
}

/// On a freshly constructed store every key is absent: `new` (and the
/// placeholder `open`) yield the empty view, and `get` reports "absent",
/// never an error, for any key looked up in it.
pub proof fn lemma_fresh_store_all_absent(k: Seq<char>)
    ensures
        !Map::<Seq<char>, Seq<char>>::empty().contains_key(k),
{
}

/// Last write wins: two `set`s on the same key leave the store exactly as
/// the second alone would, so a `get` of that key yields the second value.
pub proof fn lemma_last_write_wins(
    m: Map<Seq<char>, Seq<char>>,
    k: Seq<char>,
    v1: Seq<char>,
    v2: Seq<char>,
)
    ensures
        m.insert(k, v1).insert(k, v2) == m.insert(k, v2),
        m.insert(k, v1).insert(k, v2)[k] == v2,
{
    assert(m.insert(k, v1).insert(k, v2) =~= m.insert(k, v2));
}

/// Removing a key makes it absent: after `remove(k)` turns a store's view
/// `m` into `m.remove(k)`, `get(k)` reports "absent".
pub proof fn lemma_remove_then_get(m: Map<Seq<char>, Seq<char>>, k: Seq<char>)
    ensures
        !m.remove(k).contains_key(k),
{
}

/// Removing an absent key is a no-op: the store's view is unchanged, and
/// `remove` itself has no precondition and never fails.
pub proof fn lemma_remove_absent_is_noop(m: Map<Seq<char>, Seq<char>>, k: Seq<char>)
    requires
        !m.contains_key(k),
    ensures
        m.remove(k) == m,
{
    assert(m.remove(k) =~= m);
}

} // verus!
