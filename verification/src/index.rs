//! The in-memory index: the current value of every live key.

use crate::command::{apply_all, views, Command};
use vstd::hash_map::StringHashMap;
use vstd::prelude::*;

verus! {

/// A mapping from key to current value; a key that is absent has no live
/// value.
pub struct Index {
    map: StringHashMap<String>,
}

impl View for Index {
    type V = Map<Seq<char>, Seq<char>>;

    closed spec fn view(&self) -> Map<Seq<char>, Seq<char>> {
        Map::new(|k: Seq<char>| self.map@.contains_key(k), |k: Seq<char>| self.map@[k]@)
    }
}

impl Index {
    /// An index with no key.
    pub fn new() -> (r: Index)
        ensures
            r@ == Map::<Seq<char>, Seq<char>>::empty(),
    {
        let r = Index { map: StringHashMap::new() };
        assert(r@ =~= Map::<Seq<char>, Seq<char>>::empty());
        r
    }

    /// Applies one command: `Put` inserts or overwrites, `Delete` removes the
    /// key if present. Never fails.
    pub fn apply(&mut self, cmd: &Command)
        ensures
            final(self)@ == cmd@.apply(old(self)@),
    {
        match cmd {
            Command::Put(k, v) => {
                self.map.insert(k.clone(), v.clone());
                assert(self@ =~= old(self)@.insert(k@, v@));
            },
            Command::Delete(k) => {
                self.map.remove(k.as_str());
                assert(self@ =~= old(self)@.remove(k@));
            },
        }
    }

    /// The value bound to `key`, if any. Changes nothing.
    pub fn get(&self, key: &str) -> (r: Option<String>)
        ensures
            r is Some <==> self@.contains_key(key@),
            r matches Some(v) ==> v@ == self@[key@],
    {
        match self.map.get(key) {
            Some(v) => Some(v.clone()),
            None => None,
        }
    }

    /// Applies a batch of commands, first to last.
    pub fn apply_batch(&mut self, batch: &Vec<Command>)
        ensures
            final(self)@ == apply_all(old(self)@, views(batch@)),
    {
        let mut i: usize = 0;
        let ghost all = views(batch@);
        while i < batch.len()
            invariant
                i <= batch.len(),
                all == views(batch@),
                self@ == apply_all(old(self)@, all.take(i as int)),
            decreases batch.len() - i,
        {
            proof {
                assert(all.take(i + 1).drop_last() =~= all.take(i as int));
                assert(all.take(i + 1).last() == batch@[i as int]@);
            }
            self.apply(&batch[i]);
            i += 1;
        }
        proof {
            assert(all.take(batch@.len() as int) =~= all);
        }
    }
}

} // verus!
