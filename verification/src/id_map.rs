use vstd::prelude::*;

use crate::ids::TaskId;

verus! {

/// The number of distinct task identifiers.
pub const ID_SPACE: usize = 256;

/// The keys present in the first `n` slots, in increasing order.
pub open spec fn keys_upto<V>(slots: Seq<Option<V>>, n: int) -> Seq<TaskId>
    decreases n,
{
    if n <= 0 {
        Seq::empty()
    } else {
        let rest = keys_upto(slots, n - 1);
        if slots[n - 1] is Some {
            rest.push(TaskId((n - 1) as u8))
        } else {
            rest
        }
    }
}

/// A sequence of task identifiers in strictly increasing order.
pub open spec fn strictly_increasing(s: Seq<TaskId>) -> bool {
    forall|i: int, j: int| 0 <= i < j < s.len() ==> s[i].0 < s[j].0
}

/// Facts about `keys_upto`: it is strictly increasing, bounded by `n`, and
/// holds exactly the occupied slots below `n`.
pub proof fn lemma_keys_upto<V>(slots: Seq<Option<V>>, n: int)
    requires
        0 <= n <= 256,
    ensures
        strictly_increasing(keys_upto(slots, n)),
        forall|i: int| 0 <= i < keys_upto(slots, n).len() ==> keys_upto(slots, n)[i].0 < n,
        forall|k: TaskId| #[trigger] keys_upto(slots, n).contains(k) <==> (k.0 < n && slots[k.0 as int] is Some),
        keys_upto(slots, n).len() <= n,
    decreases n,
{
    if n > 0 {
        lemma_keys_upto(slots, n - 1);
        let rest = keys_upto(slots, n - 1);
        if slots[n - 1] is Some {
            let k = TaskId((n - 1) as u8);
            assert(keys_upto(slots, n) == rest.push(k));
            assert forall|t: TaskId| #[trigger] keys_upto(slots, n).contains(t) <==> (t.0 < n && slots[t.0 as int] is Some) by {
                if t.0 == n - 1 {
                    assert(rest.push(k)[rest.len() as int] == t);
                } else if keys_upto(slots, n).contains(t) {
                    let i = choose|i: int| 0 <= i < rest.push(k).len() && rest.push(k)[i] == t;
                    assert(rest.contains(t));
                } else if t.0 < n && slots[t.0 as int] is Some {
                    assert(rest.contains(t));
                    let i = choose|i: int| 0 <= i < rest.len() && rest[i] == t;
                    assert(rest.push(k)[i] == t);
                }
            }
        }
    }
}

/// A table from task identifiers to values, with one slot per identifier.
///
/// Its keys come out in increasing order, so everything derived from a
/// walk over the table is deterministic.
pub struct IdMap<V> {
    slots: Vec<Option<V>>,
}

impl<V> View for IdMap<V> {
    type V = Map<TaskId, V>;

    closed spec fn view(&self) -> Map<TaskId, V> {
        Map::new(
            |k: TaskId| (k.0 as int) < self.slots@.len() && self.slots@[k.0 as int] is Some,
            |k: TaskId| self.slots@[k.0 as int]->Some_0,
        )
    }
}

impl<V> IdMap<V> {
    /// The keys of the table in increasing order.
    pub closed spec fn key_seq(&self) -> Seq<TaskId> {
        keys_upto(self.slots@, self.bound())
    }

    /// The number of slots that may hold a key.
    closed spec fn bound(&self) -> int {
        if self.slots@.len() < 256 { self.slots@.len() as int } else { 256 }
    }

    /// The keys come in strictly increasing order and are exactly the domain.
    pub proof fn lemma_key_seq(&self)
        ensures
            strictly_increasing(self.key_seq()),
            forall|k: TaskId| #[trigger] self.key_seq().contains(k) <==> self@.contains_key(k),
            self.key_seq().len() <= 256,
            self@.dom().finite(),
    {
        lemma_keys_upto(self.slots@, self.bound());
        assert forall|k: TaskId| #[trigger] self.key_seq().contains(k) <==> self@.contains_key(k) by {
            assert(k.0 < 256);
        }
        assert(self@.dom() =~= self.key_seq().to_set());
        vstd::seq_lib::seq_to_set_is_finite(self.key_seq());
    }

    /// An empty table.
    pub fn new() -> (r: Self)
        ensures
            r@ == Map::<TaskId, V>::empty(),
    {
        let slots: Vec<Option<V>> = Vec::new();
        let r = IdMap { slots };
        assert(r@ =~= Map::<TaskId, V>::empty());
        r
    }

    /// Whether the table holds a value for `k`.
    pub fn contains_key(&self, k: TaskId) -> (r: bool)
        ensures
            r == self@.contains_key(k),
    {
        (k.0 as usize) < self.slots.len() && self.slots[k.0 as usize].is_some()
    }

    /// The value for `k`, if any.
    pub fn get(&self, k: TaskId) -> (r: Option<&V>)
        ensures
            r matches Some(v) ==> self@.contains_key(k) && *v == self@[k],
            r is None ==> !self@.contains_key(k),
    {
        if (k.0 as usize) < self.slots.len() {
            self.slots[k.0 as usize].as_ref()
        } else {
            None
        }
    }

    /// Stores `v` under `k`, returning the value previously stored there.
    pub fn insert(&mut self, k: TaskId, v: V) -> (r: Option<V>)
        ensures
            final(self)@ == old(self)@.insert(k, v),
            r matches Some(p) ==> old(self)@.contains_key(k) && p == old(self)@[k],
            r is None ==> !old(self)@.contains_key(k),
    {
        while self.slots.len() <= k.0 as usize
            invariant
                self@ == old(self)@,
            decreases k.0 + 1 - self.slots@.len(),
        {
            self.slots.push(None);
            proof {
                assert(self@ =~= old(self)@);
            }
        }
        let mut tmp: Option<V> = Some(v);
        self.slots.set_and_swap(k.0 as usize, &mut tmp);
        proof {
            assert(self@ =~= old(self)@.insert(k, v));
        }
        tmp
    }

    /// Removes the value stored under `k`, returning it.
    pub fn remove(&mut self, k: TaskId) -> (r: Option<V>)
        ensures
            final(self)@ == old(self)@.remove(k),
            r matches Some(p) ==> old(self)@.contains_key(k) && p == old(self)@[k],
            r is None ==> !old(self)@.contains_key(k),
    {
        if (k.0 as usize) < self.slots.len() {
            let mut tmp: Option<V> = None;
            self.slots.set_and_swap(k.0 as usize, &mut tmp);
            proof {
                assert(self@ =~= old(self)@.remove(k));
            }
            tmp
        } else {
            proof {
                assert(self@ =~= old(self)@.remove(k));
            }
            None
        }
    }

    /// The keys of the table, in increasing order.
    pub fn keys(&self) -> (r: Vec<TaskId>)
        ensures
            r@ == self.key_seq(),
    {
        let n: usize = if self.slots.len() < ID_SPACE { self.slots.len() } else { ID_SPACE };
        let mut r: Vec<TaskId> = Vec::new();
        let mut i: usize = 0;
        while i < n
            invariant
                i <= n,
                n == self.bound(),
                n <= self.slots@.len(),
                n <= ID_SPACE,
                r@ == keys_upto(self.slots@, i as int),
            decreases n - i,
        {
            if self.slots[i].is_some() {
                r.push(TaskId(i as u8));
            }
            i = i + 1;
        }
        r
    }

    /// The number of keys in the table.
    pub fn len(&self) -> (r: usize)
        ensures
            r == self.key_seq().len(),
    {
        let ks = self.keys();
        ks.len()
    }
}

} // verus!
