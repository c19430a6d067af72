use crate::task::TaskId;
use vstd::prelude::*;

verus! {

/// The shard that a key belongs to, of the given number of shards.
pub open spec fn shard_of(key: TaskId, shard_amount: nat) -> int {
    key as int % shard_amount as int
}

/// Lists of ids, as plain sequences.
pub open spec fn lists(shards: Seq<Vec<TaskId>>) -> Seq<Seq<TaskId>> {
    Seq::new(shards.len(), |i: int| shards[i]@)
}

/// The same lists, with a key appended to the list of its shard.
pub open spec fn with_key(lists: Seq<Seq<TaskId>>, key: TaskId) -> Seq<Seq<TaskId>> {
    let shard = shard_of(key, lists.len());
    lists.update(shard, lists[shard].push(key))
}

/// Whether a key stands in one of the lists.
pub open spec fn listed(lists: Seq<Seq<TaskId>>, key: TaskId) -> bool {
    exists|i: int| 0 <= i < lists.len() && (#[trigger] lists[i]).contains(key)
}

/// The keys that stand in the lists.
pub open spec fn listed_keys(lists: Seq<Seq<TaskId>>) -> Set<TaskId> {
    Set::new(|key: TaskId| listed(lists, key))
}

/// A number of lists, none of which holds a key.
pub open spec fn no_keys(shard_amount: nat) -> Seq<Seq<TaskId>> {
    Seq::new(shard_amount, |i: int| Seq::empty())
}

/// An append-only list of task ids, in shards. A key belongs to one shard.
pub struct Sharded {
    shards: Vec<Vec<TaskId>>,
}

impl View for Sharded {
    type V = Seq<Seq<TaskId>>;

    closed spec fn view(&self) -> Seq<Seq<TaskId>> {
        lists(self.shards@)
    }
}

impl Sharded {
    fn empty_shards(shard_amount: usize) -> (shards: Vec<Vec<TaskId>>)
        ensures
            lists(shards@) == no_keys(shard_amount as nat),
    {
        let mut shards: Vec<Vec<TaskId>> = Vec::new();
        for i in 0..shard_amount
            invariant
                shards.len() == i,
                forall|j: int| 0 <= j < i ==> (#[trigger] shards[j])@ == Seq::<TaskId>::empty(),
        {
            shards.push(Vec::new());
        }
        assert(lists(shards@) =~= no_keys(shard_amount as nat));
        shards
    }

    pub fn new(shard_amount: usize) -> (sharded: Sharded)
        ensures
            sharded@ == no_keys(shard_amount as nat),
    {
        Sharded { shards: Self::empty_shards(shard_amount) }
    }

    /// Appends a key to the list of its shard.
    pub fn push(&mut self, key: TaskId)
        requires
            old(self)@.len() > 0,
        ensures
            final(self)@ == with_key(old(self)@, key),
    {
        let shard: usize = (key as u64 % self.shards.len() as u64) as usize;
        self.shards[shard].push(key);
        assert(self@ =~= with_key(old(self)@, key));
    }

    /// Takes all the lists and leaves as many empty ones.
    pub fn take(&mut self) -> (taken: Vec<Vec<TaskId>>)
        ensures
            lists(taken@) == old(self)@,
            final(self)@ == no_keys(old(self)@.len()),
    {
        let mut shards = Self::empty_shards(self.shards.len());
        std::mem::swap(&mut shards, &mut self.shards);
        shards
    }
}

} // verus!
