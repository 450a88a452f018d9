//! The allocation ledger: live allocations keyed by address.
use std::collections::HashMap;
use vstd::prelude::*;
use vstd::std_specs::hash::group_hash_axioms;

verus! {

broadcast use group_hash_axioms;

/// One live allocation: where it is, how large it is and which call-tree
/// node it is attributed to.
#[derive(Clone, Copy, Debug, PartialEq, Eq, Structural)]
pub struct Allocation {
    pub address: usize,
    pub size: usize,
    pub node: usize,
}

/// The bytes that `r` contributes to a sum restricted to `sel`: every
/// record counts when `sel` is `None`, only those of node `n` when it is
/// `Some(n)`.
pub open spec fn weight(r: Allocation, sel: Option<usize>) -> int {
    match sel {
        None => r.size as int,
        Some(n) => if r.node == n { r.size as int } else { 0 },
    }
}

/// Sum of the sizes of the records selected by `sel`.
pub open spec fn bytes_where(recs: Seq<Allocation>, sel: Option<usize>) -> int
    decreases recs.len(),
{
    if recs.len() == 0 {
        0
    } else {
        bytes_where(recs.drop_last(), sel) + weight(recs.last(), sel)
    }
}

/// Sum of the sizes of all records.
pub open spec fn live_bytes(recs: Seq<Allocation>) -> int {
    bytes_where(recs, None)
}

/// Sum of the sizes of the records attributed to `node`.
pub open spec fn node_bytes(recs: Seq<Allocation>, node: usize) -> int {
    bytes_where(recs, Some(node))
}

/// No two records share an address.
pub open spec fn distinct_addresses(recs: Seq<Allocation>) -> bool {
    forall|i: int, j: int|
        0 <= i < recs.len() && 0 <= j < recs.len() && i != j ==> #[trigger] recs[i].address
            != #[trigger] recs[j].address
}

pub proof fn lemma_bytes_nonneg(recs: Seq<Allocation>, sel: Option<usize>)
    ensures
        bytes_where(recs, sel) >= 0,
    decreases recs.len(),
{
    if recs.len() > 0 {
        lemma_bytes_nonneg(recs.drop_last(), sel);
    }
}

pub proof fn lemma_bytes_push(recs: Seq<Allocation>, r: Allocation, sel: Option<usize>)
    ensures
        bytes_where(recs.push(r), sel) == bytes_where(recs, sel) + weight(r, sel),
{
    assert(recs.push(r).drop_last() =~= recs);
}

pub proof fn lemma_bytes_remove(recs: Seq<Allocation>, i: int, sel: Option<usize>)
    requires
        0 <= i < recs.len(),
    ensures
        bytes_where(recs.remove(i), sel) == bytes_where(recs, sel) - weight(recs[i], sel),
    decreases recs.len(),
{
    if i == recs.len() - 1 {
        assert(recs.remove(i) =~= recs.drop_last());
    } else {
        lemma_bytes_remove(recs.drop_last(), i, sel);
        assert(recs.remove(i).drop_last() =~= recs.drop_last().remove(i));
        assert(recs.remove(i).last() == recs.last());
    }
}

/// `recs` with the record at `i` taken out and the last one moved into its
/// place.
pub open spec fn swap_out(recs: Seq<Allocation>, i: int) -> Seq<Allocation> {
    recs.update(i, recs.last()).drop_last()
}

pub proof fn lemma_bytes_update(recs: Seq<Allocation>, i: int, v: Allocation, sel: Option<usize>)
    requires
        0 <= i < recs.len(),
    ensures
        bytes_where(recs.update(i, v), sel) == bytes_where(recs, sel) - weight(recs[i], sel)
            + weight(v, sel),
    decreases recs.len(),
{
    if i == recs.len() - 1 {
        assert(recs.update(i, v).drop_last() =~= recs.drop_last());
    } else {
        lemma_bytes_update(recs.drop_last(), i, v, sel);
        assert(recs.update(i, v).drop_last() =~= recs.drop_last().update(i, v));
    }
}

pub proof fn lemma_bytes_swap_out(recs: Seq<Allocation>, i: int, sel: Option<usize>)
    requires
        0 <= i < recs.len(),
    ensures
        bytes_where(swap_out(recs, i), sel) == bytes_where(recs, sel) - weight(recs[i], sel),
{
    lemma_bytes_update(recs, i, recs.last(), sel);
    let u = recs.update(i, recs.last());
    assert(u.last() == recs.last());
}

/// A record's weight never exceeds the sum it belongs to.
pub proof fn lemma_bytes_contains(recs: Seq<Allocation>, i: int, sel: Option<usize>)
    requires
        0 <= i < recs.len(),
    ensures
        weight(recs[i], sel) <= bytes_where(recs, sel),
{
    lemma_bytes_remove(recs, i, sel);
    lemma_bytes_nonneg(recs.remove(i), sel);
}

/// Bytes of a node that no record is attributed to are zero.
pub proof fn lemma_bytes_absent(recs: Seq<Allocation>, node: usize)
    requires
        forall|i: int| 0 <= i < recs.len() ==> (#[trigger] recs[i]).node != node,
    ensures
        node_bytes(recs, node) == 0,
    decreases recs.len(),
{
    if recs.len() > 0 {
        assert(recs.last() == recs[recs.len() - 1]);
        assert forall|i: int| 0 <= i < recs.drop_last().len() implies (
        #[trigger] recs.drop_last()[i]).node != node by {
            assert(recs.drop_last()[i] == recs[i]);
        }
        lemma_bytes_absent(recs.drop_last(), node);
    }
}

/// `recs` without the record at `address`, if there is one.
pub open spec fn retire(recs: Seq<Allocation>, address: usize) -> Seq<Allocation> {
    if exists|i: int| 0 <= i < recs.len() && #[trigger] recs[i].address == address {
        swap_out(recs, choose|i: int| 0 <= i < recs.len() && #[trigger] recs[i].address == address)
    } else {
        recs
    }
}

/// The size of the record at `address`, or zero if there is none.
pub open spec fn retired_bytes(recs: Seq<Allocation>, address: usize) -> int {
    if exists|i: int| 0 <= i < recs.len() && #[trigger] recs[i].address == address {
        recs[choose|i: int| 0 <= i < recs.len() && #[trigger] recs[i].address == address].size as int
    } else {
        0
    }
}

pub proof fn lemma_retire_at(recs: Seq<Allocation>, i: int)
    requires
        distinct_addresses(recs),
        0 <= i < recs.len(),
    ensures
        retire(recs, recs[i].address) == swap_out(recs, i),
        retired_bytes(recs, recs[i].address) == recs[i].size,
{
    let a = recs[i].address;
    assert(exists|j: int| 0 <= j < recs.len() && #[trigger] recs[j].address == a);
    let c = choose|j: int| 0 <= j < recs.len() && #[trigger] recs[j].address == a;
    assert(c == i);
}

/// Live allocations, at most `capacity` of them, with distinct addresses,
/// and an index from each address to its record's position.
pub struct Ledger {
    records: Vec<Allocation>,
    index: HashMap<usize, usize>,
    capacity: usize,
}

impl Ledger {
    pub closed spec fn records(&self) -> Seq<Allocation> {
        self.records@
    }

    pub closed spec fn capacity(&self) -> nat {
        self.capacity as nat
    }

    pub closed spec fn indexed(&self) -> bool {
        &&& forall|a: usize|
            #[trigger] self.index@.contains_key(a) ==> self.index@[a] < self.records@.len()
                && self.records@[self.index@[a] as int].address == a
        &&& forall|i: int|
            0 <= i < self.records@.len() ==> self.index@.contains_key(
                (#[trigger] self.records@[i]).address,
            ) && self.index@[self.records@[i].address] == i
    }

    pub open spec fn wf(&self) -> bool {
        &&& self.records().len() <= self.capacity()
        &&& distinct_addresses(self.records())
        &&& self.indexed()
    }

    /// Whether some live record sits at `address`.
    pub open spec fn holds(&self, address: usize) -> bool {
        exists|i: int| 0 <= i < self.records().len() && #[trigger] self.records()[i].address == address
    }

    pub fn new(capacity: usize) -> (r: Ledger)
        ensures
            r.wf(),
            r.records() == Seq::<Allocation>::empty(),
            r.capacity() == capacity,
    {
        Ledger { records: Vec::new(), index: HashMap::new(), capacity }
    }

    pub fn is_full(&self) -> (r: bool)
        requires
            self.wf(),
        ensures
            r == (self.records().len() == self.capacity()),
    {
        self.records.len() == self.capacity
    }

    /// Position of the record at `address`, if one is live.
    pub fn find(&self, address: usize) -> (r: Option<usize>)
        requires
            self.wf(),
        ensures
            match r {
                Some(i) => i < self.records().len() && self.records()[i as int].address == address,
                None => !self.holds(address),
            },
    {
        match self.index.get(&address) {
            Some(i) => Some(*i),
            None => {
                proof {
                    assert forall|j: int| 0 <= j < self.records().len() implies #[trigger] self.records()[j].address
                        != address by {
                        assert(self.index@.contains_key(self.records@[j].address));
                    }
                }
                None
            },
        }
    }

    /// Retires the record at position `i`, moving the last record into its
    /// place, and hands it back.
    pub fn remove_at(&mut self, i: usize) -> (r: Allocation)
        requires
            old(self).wf(),
            i < old(self).records().len(),
        ensures
            final(self).wf(),
            r == old(self).records()[i as int],
            final(self).records() == swap_out(old(self).records(), i as int),
            final(self).capacity() == old(self).capacity(),
    {
        let ghost s = self.records@;
        let ghost m = self.index@;
        let last = self.records.len() - 1;
        let r = self.records[i];
        let moved = self.records[last];
        self.index.remove(&r.address);
        if i < last {
            self.index.insert(moved.address, i);
        }
        self.records.swap_remove(i);
        proof {
            let t = self.records@;
            assert(t == s.update(i as int, s.last()).drop_last());
            assert forall|a: int, b: int|
                0 <= a < t.len() && 0 <= b < t.len() && a != b
                implies #[trigger] t[a].address != #[trigger] t[b].address by {
                let a0 = if a == i { last as int } else { a };
                let b0 = if b == i { last as int } else { b };
                assert(t[a] == s[a0]);
                assert(t[b] == s[b0]);
            }
            assert forall|k: int| 0 <= k < t.len() implies self.index@.contains_key(
                (#[trigger] t[k]).address,
            ) && self.index@[t[k].address] == k by {
                if k == i {
                    assert(t[k] == moved);
                } else {
                    assert(t[k] == s[k]);
                    assert(m[s[k].address] == k);
                    assert(s[k].address != r.address);
                    assert(s[k].address != moved.address);
                }
            }
            assert forall|a: usize| #[trigger] self.index@.contains_key(a) implies self.index@[a]
                < t.len() && t[self.index@[a] as int].address == a by {
                if i < last && a == moved.address {
                } else {
                    assert(m.contains_key(a));
                    let k = m[a] as int;
                    assert(s[k].address == a);
                    assert(a != r.address);
                    assert(k != i);
                    if k == last {
                        assert(a == moved.address);
                    }
                    assert(t[k] == s[k]);
                }
            }
        }
        r
    }

    /// Installs a record at an address that holds none.
    pub fn insert(&mut self, r: Allocation)
        requires
            old(self).wf(),
            !old(self).holds(r.address),
            old(self).records().len() < old(self).capacity(),
        ensures
            final(self).wf(),
            final(self).records() == old(self).records().push(r),
            final(self).capacity() == old(self).capacity(),
    {
        let ghost m = self.index@;
        let n = self.records.len();
        self.index.insert(r.address, n);
        self.records.push(r);
        proof {
            let s = old(self).records();
            assert(!m.contains_key(r.address)) by {
                if m.contains_key(r.address) {
                    assert(s[m[r.address] as int].address == r.address);
                }
            }
            assert forall|k: int| 0 <= k < self.records@.len() implies self.index@.contains_key(
                (#[trigger] self.records@[k]).address,
            ) && self.index@[self.records@[k].address] == k by {
                if k < n {
                    assert(self.records@[k] == s[k]);
                    assert(s[k].address != r.address);
                }
            }
            assert forall|a: usize| #[trigger] self.index@.contains_key(a) implies self.index@[a]
                < self.records@.len() && self.records@[self.index@[a] as int].address == a by {
                if a != r.address {
                    assert(self.records@[m[a] as int] == s[m[a] as int]);
                }
            }
            assert forall|a: int, b: int|
                0 <= a < self.records@.len() && 0 <= b < self.records@.len() && a != b
                implies #[trigger] self.records@[a].address != #[trigger] self.records@[b].address by {
                if a == s.len() {
                    assert(s[b].address != r.address);
                } else if b == s.len() {
                    assert(s[a].address != r.address);
                } else {
                    assert(self.records@[a] == s[a]);
                    assert(self.records@[b] == s[b]);
                }
            }
        }
    }

    /// Forgets every record.
    pub fn clear(&mut self)
        requires
            old(self).wf(),
        ensures
            final(self).wf(),
            final(self).records() == Seq::<Allocation>::empty(),
            final(self).capacity() == old(self).capacity(),
    {
        self.records.clear();
        self.index.clear();
    }
}

} // verus!
