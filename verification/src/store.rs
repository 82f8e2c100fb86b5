use vstd::prelude::*;

use crate::error::RustVaultError;
use crate::protocol::{Command, CommandModel};
use crate::text::str_eq;

verus! {

// ---------------------------------------------------------------------------
// The keyspace model
//
// A store is modelled as a map from key characters to value characters. The
// executable representation is an association list with pairwise distinct
// keys; `kv_map` reads the list as a map.
// ---------------------------------------------------------------------------

/// The map an association list spells, later pairs overwriting earlier ones.
pub open spec fn kv_map(s: Seq<(String, String)>) -> Map<Seq<char>, Seq<char>>
    decreases s.len()
{
    if s.len() == 0 {
        Map::empty()
    } else {
        kv_map(s.drop_last()).insert(s.last().0@, s.last().1@)
    }
}

/// Pairwise distinct keys.
pub open spec fn unique_keys(s: Seq<(String, String)>) -> bool {
    forall|i: int, j: int| 0 <= i < j < s.len() ==> s[i].0@ != s[j].0@
}

/// How a command changes a keyspace: `Put` overwrites or inserts, `Delete`
/// removes, `Get` changes nothing.
pub open spec fn apply_mutation(
    m: Map<Seq<char>, Seq<char>>,
    c: CommandModel,
) -> Map<Seq<char>, Seq<char>> {
    match c {
        CommandModel::Put { key, value } => m.insert(key, value),
        CommandModel::Delete { key } => m.remove(key),
        CommandModel::Get { .. } => m,
    }
}

/// With distinct keys, the map of an association list is finite, has one
/// entry per pair, and maps each listed key to its listed value.
pub proof fn lemma_kv_map_props(s: Seq<(String, String)>)
    requires
        unique_keys(s),
    ensures
        kv_map(s).dom().finite(),
        kv_map(s).dom().len() == s.len(),
        forall|i: int|
            0 <= i < s.len() ==> kv_map(s).contains_key(#[trigger] s[i].0@) && kv_map(s)[s[i].0@]
                == s[i].1@,
        forall|k: Seq<char>|
            #[trigger] kv_map(s).contains_key(k) ==> exists|i: int|
                0 <= i < s.len() && #[trigger] s[i].0@ == k,
    decreases s.len(),
{
    if s.len() > 0 {
        let pre = s.drop_last();
        assert(unique_keys(pre));
        lemma_kv_map_props(pre);
        let lk = s.last().0@;
        assert(!kv_map(pre).contains_key(lk)) by {
            if kv_map(pre).contains_key(lk) {
                let i = choose|i: int| 0 <= i < pre.len() && #[trigger] pre[i].0@ == lk;
                assert(s[i].0@ == s[s.len() - 1].0@);
            }
        }
        assert forall|i: int| 0 <= i < s.len() implies kv_map(s).contains_key(
            #[trigger] s[i].0@,
        ) && kv_map(s)[s[i].0@] == s[i].1@ by {
            if i < s.len() - 1 {
                assert(pre[i] == s[i]);
                assert(s[i].0@ != lk);
            }
        }
        assert forall|k: Seq<char>| #[trigger] kv_map(s).contains_key(k) implies exists|i: int|
            0 <= i < s.len() && #[trigger] s[i].0@ == k by {
            if k == lk {
                assert(s[s.len() - 1].0@ == k);
            } else {
                let i = choose|i: int| 0 <= i < pre.len() && #[trigger] pre[i].0@ == k;
                assert(s[i].0@ == k);
            }
        }
    }
}

/// Replacing the pair at `i` by one with the same key turns the map into an
/// overwriting insert.
pub proof fn lemma_kv_map_update(s: Seq<(String, String)>, i: int, p: (String, String))
    requires
        unique_keys(s),
        0 <= i < s.len(),
        s[i].0@ == p.0@,
    ensures
        kv_map(s.update(i, p)) == kv_map(s).insert(p.0@, p.1@),
        unique_keys(s.update(i, p)),
    decreases s.len(),
{
    let t = s.update(i, p);
    assert(unique_keys(t));
    if i == s.len() - 1 {
        assert(t.drop_last() =~= s.drop_last());
        assert(t.last() == p);
        assert(kv_map(s.drop_last()).insert(p.0@, p.1@) =~= kv_map(s.drop_last()).insert(
            s.last().0@,
            s.last().1@,
        ).insert(p.0@, p.1@));
    } else {
        assert(t.drop_last() =~= s.drop_last().update(i, p));
        assert(t.last() == s.last());
        assert(unique_keys(s.drop_last()));
        assert(s.drop_last()[i] == s[i]);
        lemma_kv_map_update(s.drop_last(), i, p);
        assert(p.0@ != s.last().0@);
        assert(kv_map(s.drop_last()).insert(p.0@, p.1@).insert(s.last().0@, s.last().1@)
            =~= kv_map(s.drop_last()).insert(s.last().0@, s.last().1@).insert(p.0@, p.1@));
    }
}

/// Removing the pair at `i` removes exactly its key from the map.
pub proof fn lemma_kv_map_remove(s: Seq<(String, String)>, i: int)
    requires
        unique_keys(s),
        0 <= i < s.len(),
    ensures
        kv_map(s.remove(i)) == kv_map(s).remove(s[i].0@),
        unique_keys(s.remove(i)),
    decreases s.len(),
{
    let t = s.remove(i);
    let k = s[i].0@;
    assert(unique_keys(t));
    lemma_kv_map_props(s);
    if i == s.len() - 1 {
        assert(t =~= s.drop_last());
        assert(unique_keys(s.drop_last()));
        lemma_kv_map_props(s.drop_last());
        assert(!kv_map(s.drop_last()).contains_key(k)) by {
            if kv_map(s.drop_last()).contains_key(k) {
                let j = choose|j: int|
                    0 <= j < s.drop_last().len() && #[trigger] s.drop_last()[j].0@ == k;
                assert(s[j].0@ == s[s.len() - 1].0@);
            }
        }
        assert(kv_map(s.drop_last()) =~= kv_map(s).remove(k));
    } else {
        assert(t.drop_last() =~= s.drop_last().remove(i));
        assert(t.last() == s.last());
        assert(unique_keys(s.drop_last()));
        assert(s.drop_last()[i] == s[i]);
        lemma_kv_map_remove(s.drop_last(), i);
        assert(k != s.last().0@);
        assert(kv_map(s.drop_last()).remove(k).insert(s.last().0@, s.last().1@) =~= kv_map(
            s.drop_last(),
        ).insert(s.last().0@, s.last().1@).remove(k));
    }
}

// ---------------------------------------------------------------------------
// The store interface and its in-memory implementation
// ---------------------------------------------------------------------------

/// The interface of a key-value store: a keyspace, read and mutated under
/// exact contracts. Every operation returns `Ok`; the `Result` is part of
/// the interface so that callers wiring in durability can surface failures
/// of their own.
pub trait Store: Sized {
    /// The keyspace this store holds.
    spec fn keyspace(&self) -> Map<Seq<char>, Seq<char>>;

    /// The store's internal well-formedness.
    spec fn inv(&self) -> bool;

    /// Associates `key` with `value`, overwriting any prior mapping.
    fn set(&mut self, key: String, value: String) -> (r: Result<(), RustVaultError>)
        requires
            old(self).inv(),
        ensures
            final(self).inv(),
            r is Ok,
            final(self).keyspace() == old(self).keyspace().insert(key@, value@),
    ;

    /// Looks a key up; the returned value is the one the keyspace maps it to.
    fn get(&self, key: &str) -> (r: Result<Option<String>, RustVaultError>)
        requires
            self.inv(),
        ensures
            match r {
                Ok(Some(v)) => self.keyspace().contains_key(key@) && v@ == self.keyspace()[key@],
                Ok(None) => !self.keyspace().contains_key(key@),
                Err(_) => false,
            },
    ;

    /// Removes a key; reports whether it was present.
    fn delete(&mut self, key: &str) -> (r: Result<bool, RustVaultError>)
        requires
            old(self).inv(),
        ensures
            final(self).inv(),
            final(self).keyspace() == old(self).keyspace().remove(key@),
            r matches Ok(was) && was == old(self).keyspace().contains_key(key@),
    ;

    /// Reports whether a key is present.
    fn contains(&self, key: &str) -> (r: Result<bool, RustVaultError>)
        requires
            self.inv(),
        ensures
            r matches Ok(b) && b == self.keyspace().contains_key(key@),
    ;

    /// A snapshot of the keyspace as key-value pairs with distinct keys.
    fn get_all(&self) -> (r: Result<Vec<(String, String)>, RustVaultError>)
        requires
            self.inv(),
        ensures
            r matches Ok(snap) && kv_map(snap@) == self.keyspace() && unique_keys(snap@),
    ;

    /// Empties the keyspace.
    fn clear(&mut self) -> (r: Result<(), RustVaultError>)
        requires
            old(self).inv(),
        ensures
            final(self).inv(),
            r is Ok,
            final(self).keyspace() == Map::<Seq<char>, Seq<char>>::empty(),
    ;

    /// The number of live mappings.
    fn len(&self) -> (r: Result<usize, RustVaultError>)
        requires
            self.inv(),
        ensures
            r matches Ok(n) && n == self.keyspace().dom().len(),
    ;
}

/// An in-memory key-value store: an association list with distinct keys.
pub struct MemoryStore {
    data: Vec<(String, String)>,
}

impl MemoryStore {
    /// An empty store.
    pub fn new() -> (s: MemoryStore)
        ensures
            s.inv(),
            s.keyspace() == Map::<Seq<char>, Seq<char>>::empty(),
    {
        MemoryStore { data: Vec::new() }
    }

    /// The position of `key` in the list, if present.
    fn find(&self, key: &str) -> (r: Option<usize>)
        ensures
            match r {
                Some(i) => i < self.data@.len() && self.data@[i as int].0@ == key@,
                None => forall|i: int| 0 <= i < self.data@.len() ==> self.data@[i].0@ != key@,
            },
    {
        let mut i: usize = 0;
        while i < self.data.len()
            invariant
                0 <= i <= self.data@.len(),
                forall|k: int| 0 <= k < i ==> self.data@[k].0@ != key@,
            decreases self.data@.len() - i,
        {
            let pair = &self.data[i];
            if str_eq(pair.0.as_str(), key) {
                return Some(i);
            }
            i = i + 1;
        }
        None
    }

    /// Applies one command to the keyspace, without durability wiring: `Put`
    /// and `Delete` mutate it, `Get` leaves it unchanged. Replay applies
    /// logged commands through this function.
    pub fn apply_command(&mut self, command: Command) -> (r: Result<(), RustVaultError>)
        requires
            old(self).inv(),
        ensures
            final(self).inv(),
            r is Ok,
            final(self).keyspace() == apply_mutation(old(self).keyspace(), command@),
    {
        match command {
            Command::Put { key, value } => self.set(key, value),
            Command::Delete { key } => {
                match self.delete(key.as_str()) {
                    Ok(_) => Ok(()),
                    Err(e) => Err(e),
                }
            }
            Command::Get { .. } => Ok(()),
        }
    }
}

impl Store for MemoryStore {
    closed spec fn keyspace(&self) -> Map<Seq<char>, Seq<char>> {
        kv_map(self.data@)
    }

    closed spec fn inv(&self) -> bool {
        unique_keys(self.data@)
    }

    fn set(&mut self, key: String, value: String) -> (r: Result<(), RustVaultError>) {
        match self.find(key.as_str()) {
            Some(i) => {
                proof {
                    lemma_kv_map_update(self.data@, i as int, (key, value));
                }
                let removed = self.data.remove(i);
                self.data.insert(i, (key, value));
                proof {
                    assert(self.data@ =~= old(self).data@.update(i as int, (key, value)));
                }
            }
            None => {
                proof {
                    let ghost pushed = self.data@.push((key, value));
                    assert(pushed.drop_last() =~= self.data@);
                    assert(unique_keys(pushed));
                }
                self.data.push((key, value));
            }
        }
        Ok(())
    }

    fn get(&self, key: &str) -> (r: Result<Option<String>, RustVaultError>) {
        proof {
            lemma_kv_map_props(self.data@);
        }
        match self.find(key) {
            Some(i) => {
                let pair = &self.data[i];
                Ok(Some(pair.1.clone()))
            }
            None => {
                proof {
                    if kv_map(self.data@).contains_key(key@) {
                        let j = choose|j: int|
                            0 <= j < self.data@.len() && #[trigger] self.data@[j].0@ == key@;
                        assert(false);
                    }
                }
                Ok(None)
            }
        }
    }

    fn delete(&mut self, key: &str) -> (r: Result<bool, RustVaultError>) {
        proof {
            lemma_kv_map_props(self.data@);
        }
        match self.find(key) {
            Some(i) => {
                proof {
                    lemma_kv_map_remove(self.data@, i as int);
                }
                let removed = self.data.remove(i);
                Ok(true)
            }
            None => {
                proof {
                    if kv_map(self.data@).contains_key(key@) {
                        let j = choose|j: int|
                            0 <= j < self.data@.len() && #[trigger] self.data@[j].0@ == key@;
                        assert(false);
                    }
                    assert(kv_map(self.data@).remove(key@) =~= kv_map(self.data@));
                }
                Ok(false)
            }
        }
    }

    fn contains(&self, key: &str) -> (r: Result<bool, RustVaultError>) {
        proof {
            lemma_kv_map_props(self.data@);
        }
        match self.find(key) {
            Some(_) => Ok(true),
            None => {
                proof {
                    if kv_map(self.data@).contains_key(key@) {
                        let j = choose|j: int|
                            0 <= j < self.data@.len() && #[trigger] self.data@[j].0@ == key@;
                        assert(false);
                    }
                }
                Ok(false)
            }
        }
    }

    fn get_all(&self) -> (r: Result<Vec<(String, String)>, RustVaultError>) {
        let mut out: Vec<(String, String)> = Vec::new();
        let mut i: usize = 0;
        while i < self.data.len()
            invariant
                0 <= i <= self.data@.len(),
                out@.len() == i,
                forall|k: int| 0 <= k < i ==> out@[k] == self.data@[k],
            decreases self.data@.len() - i,
        {
            let pair = &self.data[i];
            out.push((pair.0.clone(), pair.1.clone()));
            i = i + 1;
        }
        proof {
            assert(out@ =~= self.data@);
        }
        Ok(out)
    }

    fn clear(&mut self) -> (r: Result<(), RustVaultError>) {
        self.data.clear();
        Ok(())
    }

    fn len(&self) -> (r: Result<usize, RustVaultError>) {
        proof {
            lemma_kv_map_props(self.data@);
        }
        Ok(self.data.len())
    }
}

} // verus!
