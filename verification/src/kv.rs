//! A minimal in-memory key-value store, the engine's simplest relative.

use vstd::prelude::*;

verus! {

/// A plain in-memory key-value store: the simplest engine, with no log and
/// no persistence. Later entries for a key shadow earlier ones.
pub struct KvStore {
    entries: Vec<(String, String)>,
}

impl KvStore {
    /// The logical contents: each key mapped to the value it was last set to.
    pub closed spec fn contents(self) -> Map<Seq<char>, Seq<char>> {
        Self::assoc_map(self.entries@)
    }

    /// The map denoted by an association list; later pairs win.
    pub open spec fn assoc_map(s: Seq<(String, String)>) -> Map<Seq<char>, Seq<char>>
        decreases s.len(),
    {
        if s.len() == 0 {
            Map::empty()
        } else {
            Self::assoc_map(s.drop_last()).insert(s.last().0@, s.last().1@)
        }
    }

    /// The last position holding `key`, or -1 when the key is absent.
    pub open spec fn last_entry(s: Seq<(String, String)>, key: Seq<char>) -> int
        decreases s.len(),
    {
        if s.len() == 0 {
            -1
        } else if s.last().0@ == key {
            s.len() - 1
        } else {
            Self::last_entry(s.drop_last(), key)
        }
    }

    /// The association list denotes its keys: the map holds a key exactly
    /// when some pair carries it, and then the value of the last such pair.
    proof fn lemma_assoc_map(s: Seq<(String, String)>, key: Seq<char>)
        ensures
            ({
                let i = Self::last_entry(s, key);
                &&& -1 <= i < s.len()
                &&& Self::assoc_map(s).dom().contains(key) <==> i >= 0
                &&& i >= 0 ==> s[i].0@ == key && Self::assoc_map(s)[key] == s[i].1@
                &&& forall|j: int| i < j < s.len() ==> s[j].0@ != key
            }),
        decreases s.len(),
    {
        if s.len() > 0 && s.last().0@ != key {
            Self::lemma_assoc_map(s.drop_last(), key);
            let i = Self::last_entry(s, key);
            if i >= 0 {
                assert(s.drop_last()[i] == s[i]);
            }
            assert forall|j: int| i < j < s.len() implies s[j].0@ != key by {
                if j < s.len() - 1 {
                    assert(s.drop_last()[j] == s[j]);
                }
            }
        }
    }

    /// A fresh, empty store.
    pub fn new() -> (r: KvStore)
        ensures
            r.contents() == Map::<Seq<char>, Seq<char>>::empty(),
    {
        let r = KvStore { entries: Vec::new() };
        proof {
            assert(r.entries@ =~= Seq::<(String, String)>::empty());
            assert(r.contents() =~= Map::<Seq<char>, Seq<char>>::empty());
        }
        r
    }

    /// Sets `key` to `value`, shadowing any earlier value.
    pub fn set(&mut self, key: String, value: String)
        ensures
            final(self).contents() == old(self).contents().insert(key@, value@),
    {
        self.entries.push((key, value));
        proof {
            assert(self.entries@.drop_last() =~= old(self).entries@);
        }
    }

    /// The value `key` was last set to, or nothing when it is absent or was
    /// removed since.
    pub fn get(&self, key: String) -> (r: Option<String>)
        ensures
            match r {
                Some(v) => self.contents().dom().contains(key@) && v@ == self.contents()[key@],
                None => !self.contents().dom().contains(key@),
            },
    {
        proof {
            Self::lemma_assoc_map(self.entries@, key@);
        }
        let ghost fi = Self::last_entry(self.entries@, key@);
        let n: usize = self.entries.len();
        let mut i: usize = n;
        while i > 0
            invariant
                0 <= i <= n,
                n == self.entries@.len(),
                -1 <= fi < n,
                fi >= 0 ==> self.entries@[fi].0@ == key@ && self.contents()[key@]
                    == self.entries@[fi].1@ && self.contents().dom().contains(key@),
                fi >= 0 <==> self.contents().dom().contains(key@),
                forall|j: int| fi < j < n ==> self.entries@[j].0@ != key@,
                forall|j: int| i <= j < n ==> self.entries@[j].0@ != key@,
            decreases i,
        {
            i = i - 1;
            let entry = &self.entries[i];
            if entry.0.eq(&key) {
                proof {
                    assert(fi == i as int);
                }
                return Some(entry.1.clone());
            }
        }
        None
    }

    /// Removes `key`; a later `get` finds nothing until it is set again.
    pub fn remove(&mut self, key: String)
        ensures
            final(self).contents() == old(self).contents().remove(key@),
    {
        let n: usize = self.entries.len();
        let mut kept: Vec<(String, String)> = Vec::new();
        let mut i: usize = 0;
        while i < n
            invariant
                0 <= i <= n,
                n == self.entries@.len(),
                Self::assoc_map(kept@) == Self::assoc_map(self.entries@.take(i as int)).remove(
                    key@,
                ),
            decreases n - i,
        {
            let entry = &self.entries[i];
            let ghost kept0 = kept@;
            if !entry.0.eq(&key) {
                kept.push((entry.0.clone(), entry.1.clone()));
                proof {
                    assert(kept@.drop_last() =~= kept0);
                    assert(self.entries@.take(i + 1).drop_last() =~= self.entries@.take(i as int));
                    assert(Self::assoc_map(kept@) =~= Self::assoc_map(
                        self.entries@.take(i + 1),
                    ).remove(key@));
                }
            } else {
                proof {
                    assert(self.entries@.take(i + 1).drop_last() =~= self.entries@.take(i as int));
                    assert(Self::assoc_map(kept@) =~= Self::assoc_map(
                        self.entries@.take(i + 1),
                    ).remove(key@));
                }
            }
            i = i + 1;
        }
        proof {
            assert(self.entries@.take(n as int) =~= self.entries@);
        }
        self.entries = kept;
    }
}

impl Default for KvStore {
    /// The default store is the empty one.
    fn default() -> (r: KvStore)
        ensures
            r.contents() == Map::<Seq<char>, Seq<char>>::empty(),
    {
        KvStore::new()
    }
}

} // verus!
