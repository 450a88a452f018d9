//! The command processor: the single owner of the ledger, the call tree,
//! the function table and the peak snapshot, through which every event
//! passes.
use crate::calltree::{
    children_total, lemma_children_total, lemma_paths_distinct, lemma_root_sum, lemma_subtree_children, own_sum, path_of,
    subtree_sum, CallFrame, CallTree,
};
use crate::flamegraph::{folded, frames_known, render};
use crate::ledger::{
    lemma_bytes_absent, lemma_bytes_contains, lemma_bytes_push, lemma_bytes_swap_out,
    lemma_retire_at, live_bytes, node_bytes, retire, retired_bytes, swap_out, distinct_addresses, Allocation, Ledger,
};
use crate::registry::{at_line, entered, left, Callstack, Function, FunctionRegistry, StackFrame};
use vstd::prelude::*;

verus! {

/// Whether every frame of `stack` names one of the first `n` functions.
pub open spec fn stack_known(stack: Seq<StackFrame>, n: nat) -> bool {
    forall|i: int| 0 <= i < stack.len() ==> (#[trigger] stack[i]).function < n
}

/// The tracking engine: the function table, the call tree, the ledger of
/// live allocations, the live total, the peak with its snapshot, and the
/// count of dropped events. Every event goes through one of its methods.
pub struct CommandProcessor {
    functions: FunctionRegistry,
    tree: CallTree,
    ledger: Ledger,
    current: usize,
    peak: usize,
    snapshot: Vec<usize>,
    lost: usize,
}

impl CommandProcessor {
    /// Interned functions, by id.
    pub closed spec fn functions(&self) -> Seq<(Seq<char>, Seq<char>)> {
        self.functions@
    }

    /// The live allocations.
    pub closed spec fn live(&self) -> Seq<Allocation> {
        self.ledger.records()
    }

    /// How many live allocations the ledger can hold.
    pub closed spec fn capacity(&self) -> nat {
        self.ledger.capacity()
    }

    /// Bytes currently live.
    pub closed spec fn total_live(&self) -> nat {
        self.current as nat
    }

    /// The largest number of live bytes seen.
    pub closed spec fn peak(&self) -> nat {
        self.peak as nat
    }

    /// Direct bytes of each call-tree node at the peak.
    pub closed spec fn snapshot(&self) -> Seq<usize> {
        self.snapshot@
    }

    /// Events dropped because the ledger was full, a total would not fit, or
    /// the call stack named an unknown function.
    pub closed spec fn lost(&self) -> nat {
        self.lost as nat
    }

    pub closed spec fn node_count(&self) -> nat {
        self.tree.len() as nat
    }

    pub closed spec fn parents(&self) -> Seq<usize> {
        self.tree.parents()
    }

    pub closed spec fn frames(&self) -> Seq<CallFrame> {
        self.tree.frames()
    }

    /// Bytes attributed directly to each node.
    pub closed spec fn own(&self) -> Seq<usize> {
        self.tree.own()
    }

    /// Aggregate bytes of each node's subtree.
    pub closed spec fn aggregates(&self) -> Seq<usize> {
        self.tree.totals()
    }

    /// The call path of node `j`.
    pub open spec fn path(&self, j: int) -> Seq<CallFrame> {
        path_of(self.parents(), self.frames(), j)
    }

    /// The folded-stack report of the peak snapshot.
    pub open spec fn flamegraph(&self) -> Seq<u8> {
        folded(
            self.functions(),
            self.parents(),
            self.frames(),
            self.snapshot(),
            self.snapshot().len() as int,
        )
    }

    /// The state right after construction or a reset: nothing live, a bare
    /// root, no peak and no lost events.
    pub open spec fn is_fresh(&self) -> bool {
        &&& self.live() == Seq::<Allocation>::empty()
        &&& self.node_count() == 1
        &&& self.parents() == seq![0usize]
        &&& self.frames() == seq![CallFrame { function: 0, line: 0 }]
        &&& self.own() == seq![0usize]
        &&& self.aggregates() == seq![0usize]
        &&& self.total_live() == 0
        &&& self.peak() == 0
        &&& self.snapshot() == Seq::<usize>::empty()
        &&& self.lost() == 0
    }

    pub closed spec fn wf(&self) -> bool {
        &&& self.functions.wf()
        &&& self.ledger.wf()
        &&& self.tree.wf()
        &&& forall|i: int| 0 <= i < self.live().len() ==> (#[trigger] self.live()[i]).node < self.tree.len()
        &&& forall|j: int|
            0 <= j < self.tree.len() ==> #[trigger] self.tree.own()[j] == node_bytes(self.live(), j as usize)
        &&& self.current == live_bytes(self.live())
        &&& self.tree.direct_total() == self.current
        &&& self.current <= self.peak
        &&& self.snapshot@.len() <= self.tree.len()
        &&& own_sum(self.snapshot@, self.snapshot@.len() as int) == self.peak
        &&& frames_known(&self.tree, &self.functions)
    }

    /// A processor whose ledger holds at most `capacity` live allocations.
    pub fn new(capacity: usize) -> (r: CommandProcessor)
        ensures
            r.wf(),
            r.is_fresh(),
            r.capacity() == capacity,
            r.functions() == Seq::<(Seq<char>, Seq<char>)>::empty(),
    {
        let r = CommandProcessor {
            functions: FunctionRegistry::new(),
            tree: CallTree::new(),
            ledger: Ledger::new(capacity),
            current: 0,
            peak: 0,
            snapshot: Vec::new(),
            lost: 0,
        };
        proof {
            assert(r.tree.own()[0] == node_bytes(r.live(), 0));
        }
        r
    }

    pub fn total_live_bytes(&self) -> (r: usize)
        ensures
            r == self.total_live(),
    {
        self.current
    }

    pub fn peak_bytes(&self) -> (r: usize)
        ensures
            r == self.peak(),
    {
        self.peak
    }

    /// How many call-tree nodes there are; node 0 is the root.
    pub fn nodes(&self) -> (r: usize)
        requires
            self.wf(),
        ensures
            r == self.node_count(),
    {
        self.tree.node_count()
    }

    pub fn node_parent(&self, j: usize) -> (r: usize)
        requires
            self.wf(),
            j < self.node_count(),
        ensures
            r == self.parents()[j as int],
    {
        self.tree.parent(j)
    }

    /// Bytes attributed directly to node `j`.
    pub fn node_own_bytes(&self, j: usize) -> (r: usize)
        requires
            self.wf(),
            j < self.node_count(),
        ensures
            r == self.own()[j as int],
    {
        self.tree.own_bytes(j)
    }

    /// Aggregate bytes of the subtree of node `j`.
    pub fn node_aggregate_bytes(&self, j: usize) -> (r: usize)
        requires
            self.wf(),
            j < self.node_count(),
        ensures
            r == self.aggregates()[j as int],
    {
        self.tree.total_bytes(j)
    }

    pub fn lost_events(&self) -> (r: usize)
        ensures
            r == self.lost(),
    {
        self.lost
    }

    /// Removes the live record at position `i`, taking its bytes away from
    /// its node and every ancestor.
    fn retire_at(&mut self, i: usize)
        requires
            old(self).wf(),
            i < old(self).live().len(),
        ensures
            final(self).wf(),
            final(self).live() == swap_out(old(self).live(), i as int),
            final(self).total_live() == old(self).total_live() - old(self).live()[i as int].size,
            final(self).functions() == old(self).functions(),
            final(self).parents() == old(self).parents(),
            final(self).frames() == old(self).frames(),
            final(self).capacity() == old(self).capacity(),
            final(self).peak() == old(self).peak(),
            final(self).snapshot() == old(self).snapshot(),
            final(self).lost() == old(self).lost(),
    {
        let ghost recs = self.ledger.records();
        let ghost own0 = self.tree.own();
        let r = self.ledger.remove_at(i);
        proof {
            lemma_bytes_contains(recs, i as int, Some(r.node));
            lemma_bytes_contains(recs, i as int, None);
            assert(own0[r.node as int] == node_bytes(recs, r.node));
        }
        self.tree.attribute(r.node, r.size, false);
        self.current = self.current - r.size;
        proof {
            lemma_bytes_swap_out(recs, i as int, None);
            assert forall|j: int| 0 <= j < self.tree.len() implies #[trigger] self.tree.own()[j]
                == node_bytes(self.live(), j as usize) by {
                assert(own0[j] == node_bytes(recs, j as usize));
                lemma_bytes_swap_out(recs, i as int, Some(j as usize));
            }
            assert forall|k: int| 0 <= k < self.live().len() implies (#[trigger] self.live()[k]).node
                < self.tree.len() by {
                let k0 = if k == i { recs.len() - 1 } else { k };
                assert(self.live()[k] == recs[k0]);
            }
        }
    }

    /// Installs `r`, attributing its bytes to its node, and takes a snapshot
    /// if the live total exceeds the peak.
    fn install(&mut self, r: Allocation)
        requires
            old(self).wf(),
            !old(self).ledger.holds(r.address),
            old(self).live().len() < old(self).capacity(),
            old(self).total_live() + r.size <= usize::MAX,
            r.node < old(self).node_count(),
        ensures
            final(self).wf(),
            final(self).live() == old(self).live().push(r),
            final(self).total_live() == old(self).total_live() + r.size,
            final(self).functions() == old(self).functions(),
            final(self).parents() == old(self).parents(),
            final(self).frames() == old(self).frames(),
            final(self).capacity() == old(self).capacity(),
            final(self).lost() == old(self).lost(),
            final(self).peak() == if final(self).total_live() > old(self).peak() {
                final(self).total_live()
            } else {
                old(self).peak()
            },
            final(self).snapshot() == if final(self).total_live() > old(self).peak() {
                final(self).own()
            } else {
                old(self).snapshot()
            },
    {
        let ghost recs = self.ledger.records();
        let ghost own0 = self.tree.own();
        self.ledger.insert(r);
        self.tree.attribute(r.node, r.size, true);
        self.current = self.current + r.size;
        proof {
            lemma_bytes_push(recs, r, None);
            assert forall|j: int| 0 <= j < self.tree.len() implies #[trigger] self.tree.own()[j]
                == node_bytes(self.live(), j as usize) by {
                assert(own0[j] == node_bytes(recs, j as usize));
                lemma_bytes_push(recs, r, Some(j as usize));
            }
            assert forall|k: int| 0 <= k < self.live().len() implies (#[trigger] self.live()[k]).node
                < self.tree.len() by {
                if k < recs.len() {
                    assert(self.live()[k] == recs[k]);
                }
            }
        }
        if self.current > self.peak {
            self.peak = self.current;
            self.snapshot = self.tree.own_copy();
        }
    }

    /// The node of the path an allocation at line `line` of the top frame
    /// of `stack` belongs to, created along with its missing ancestors.
    fn resolve(&mut self, stack: &Callstack, line: u16) -> (r: usize)
        requires
            old(self).wf(),
            stack_known(stack@, old(self).functions().len()),
        ensures
            final(self).wf(),
            r < final(self).node_count(),
            final(self).path(r as int) == at_line(stack@, line),
            final(self).node_count() >= old(self).node_count(),
            forall|j: int|
                0 <= j < old(self).node_count() ==> #[trigger] final(self).path(j) == old(self).path(j),
            final(self).live() == old(self).live(),
            final(self).total_live() == old(self).total_live(),
            final(self).functions() == old(self).functions(),
            final(self).capacity() == old(self).capacity(),
            final(self).peak() == old(self).peak(),
            final(self).snapshot() == old(self).snapshot(),
            final(self).lost() == old(self).lost(),
    {
        let ghost target = at_line(stack@, line);
        let depth = stack.depth();
        let mut cur: usize = 0;
        let mut i: usize = 0;
        proof {
            assert(target.take(0) =~= Seq::<CallFrame>::empty());
        }
        while i < depth
            invariant
                self.wf(),
                depth == stack@.len(),
                target.len() == depth,
                target == at_line(stack@, line),
                i <= depth,
                cur < self.tree.len(),
                self.path(cur as int) == target.take(i as int),
                self.tree.len() >= old(self).tree.len(),
                forall|j: int|
                    0 <= j < old(self).node_count() ==> #[trigger] self.path(j) == old(self).path(j),
                self.live() == old(self).live(),
                self.current == old(self).current,
                self.functions() == old(self).functions(),
                self.capacity() == old(self).capacity(),
                self.peak == old(self).peak,
                self.snapshot@ == old(self).snapshot@,
                self.lost == old(self).lost,
                stack_known(stack@, self.functions().len()),
            decreases depth - i,
        {
            let f = stack.frame(i);
            let frame = if i + 1 == depth {
                CallFrame { function: f.function, line }
            } else {
                CallFrame { function: f.function, line: stack.frame(i + 1).caller_line }
            };
            let ghost before = self.tree;
            proof {
                assert(forall|k: int|
                    0 <= k < self.live().len() ==> (#[trigger] self.live()[k]).node < before.len());
                assert(frames_known(&before, &self.functions));
                assert forall|j: int| 0 <= j < old(self).node_count() implies #[trigger] before.path(j)
                    == old(self).path(j) by {
                    assert(self.path(j) == old(self).path(j));
                }
            }
            let next = self.tree.child(cur, frame);
            proof {
                let n0 = before.len();
                assert(frame == target[i as int]);
                assert(self.tree.parents()[next as int] < next);
                assert(self.tree.path(cur as int) == before.path(cur as int));
                assert(self.path(next as int) == self.path(cur as int).push(frame));
                assert(target.take(i + 1) =~= target.take(i as int).push(frame));
                assert forall|k: int| 0 <= k < self.live().len() implies (
                #[trigger] self.live()[k]).node < self.tree.len() by {}
                assert forall|j: int| 0 <= j < self.tree.len() implies #[trigger] self.tree.own()[j]
                    == node_bytes(self.live(), j as usize) by {
                    if j >= n0 {
                        lemma_bytes_absent(self.live(), j as usize);
                    }
                }
                assert forall|j: int| 0 < j < self.tree.len() implies (
                #[trigger] self.tree.frames()[j]).function < self.functions@.len() by {
                    if j < n0 {
                        assert(self.tree.frames()[j] == self.tree.frames().subrange(0, n0)[j]);
                        assert(before.frames()[j].function < self.functions@.len());
                    } else {
                        assert(j == next);
                    }
                }
                assert forall|j: int| 0 <= j < old(self).node_count() implies #[trigger] self.path(j)
                    == old(self).path(j) by {
                    assert(self.tree.path(j) == before.path(j));
                    assert(before.path(j) == old(self).path(j));
                    assert(self.path(j) == self.tree.path(j));
                }
            }
            cur = next;
            i += 1;
        }
        proof {
            assert(target.take(depth as int) =~= target);
        }
        cur
    }

    /// Whether every frame of `stack` names a known function.
    pub fn knows_stack(&self, stack: &Callstack) -> (r: bool)
        ensures
            r == stack_known(stack@, self.functions().len()),
    {
        let n = self.functions.len();
        let depth = stack.depth();
        let mut i: usize = 0;
        while i < depth
            invariant
                depth == stack@.len(),
                n == self.functions().len(),
                i <= depth,
                forall|k: int| 0 <= k < i ==> (#[trigger] stack@[k]).function < n,
            decreases depth - i,
        {
            if stack.frame(i).function >= n {
                return false;
            }
            i += 1;
        }
        true
    }

    /// Records an allocation of `size` bytes at `address`, made at line
    /// `line_number` of the top frame of `stack`. A record still live at the
    /// same address is retired first. The new record is dropped, and counted
    /// as lost, when the ledger is full, when the live total would not fit in
    /// a `usize`, or when `stack` names a function this processor never saw.
    pub fn add_allocation(&mut self, stack: &Callstack, address: usize, size: usize, line_number: u16)
        requires
            old(self).wf(),
        ensures
            final(self).wf(),
            allocation_added(*old(self), *final(self), stack@, address, size, line_number),
    {
        let ghost live0 = self.live();
        match self.ledger.find(address) {
            Some(i) => {
                proof {
                    lemma_retire_at(live0, i as int);
                }
                self.retire_at(i);
                proof {
                    assert forall|k: int| 0 <= k < self.live().len() implies #[trigger] self.live()[k].address
                        != address by {
                        let k0 = if k == i { live0.len() - 1 } else { k };
                        assert(self.live()[k] == live0[k0]);
                    }
                }
            },
            None => {},
        }
        proof {
            assert(self.live() == retire(live0, address));
            assert(!self.ledger.holds(address));
        }
        if self.ledger.is_full() || size > usize::MAX - self.current || !self.knows_stack(stack) {
            if self.lost < usize::MAX {
                self.lost = self.lost + 1;
            }
            return;
        }
        let ghost parents_before = self.parents();
        let ghost frames_before = self.frames();
        let node = self.resolve(stack, line_number);
        let ghost parents_after = self.parents();
        let ghost frames_after = self.frames();
        proof {
            assert forall|j: int| 0 <= j < old(self).node_count() implies path_of(parents_after, frames_after, j)
                == path_of(parents_before, frames_before, j) by {
                assert(self.path(j) == path_of(parents_after, frames_after, j));
            }
        }
        self.install(Allocation { address, size, node });
        proof {
            assert forall|j: int| 0 <= j < old(self).node_count() implies #[trigger] self.path(j)
                == old(self).path(j) by {
                assert(self.path(j) == path_of(parents_after, frames_after, j));
                assert(old(self).path(j) == path_of(parents_before, frames_before, j));
            }
        }
    }

    /// Retires the live allocation at `address`; an unknown address changes
    /// nothing.
    pub fn free_allocation(&mut self, address: usize)
        requires
            old(self).wf(),
        ensures
            final(self).wf(),
            allocation_freed(*old(self), *final(self), address),
    {
        match self.ledger.find(address) {
            Some(i) => {
                proof {
                    lemma_retire_at(self.live(), i as int);
                }
                self.retire_at(i);
            },
            None => {},
        }
    }

    /// Enters `module_name.function_name` from line `parent_line_number` of
    /// the current top frame of `stack`, at line `line_number`.
    pub fn start_call(
        &mut self,
        stack: &mut Callstack,
        parent_line_number: u16,
        module_name: &str,
        function_name: &str,
        line_number: u16,
    )
        requires
            old(self).wf(),
        ensures
            final(self).wf(),
            call_started(
                *old(self),
                *final(self),
                old(stack)@,
                final(stack)@,
                parent_line_number,
                module_name@,
                function_name@,
                line_number,
            ),
    {
        let id = self.functions.intern(Function::new(module_name, function_name));
        stack.start_call(parent_line_number, id, line_number);
        proof {
            assert(frames_known(&self.tree, &self.functions));
        }
    }

    /// Clears the ledger, the call tree, the peak and the lost-event count;
    /// interned functions stay.
    pub fn reset(&mut self)
        requires
            old(self).wf(),
        ensures
            final(self).wf(),
            was_reset(*old(self), *final(self)),
    {
        self.tree.clear();
        self.ledger.clear();
        self.current = 0;
        self.peak = 0;
        self.snapshot = Vec::new();
        self.lost = 0;
        proof {
            assert(self.tree.own()[0] == node_bytes(self.live(), 0));
            assert(own_sum(self.snapshot@, 0) == 0);
        }
    }

    /// The folded-stack report of the peak snapshot, as UTF-8 bytes.
    pub fn dump_peak_to_flamegraph(&self) -> (r: Vec<u8>)
        requires
            self.wf(),
        ensures
            r@ == self.flamegraph(),
    {
        render(&self.functions, &self.tree, &self.snapshot)
    }
}

/// What `add_allocation` does: the record at `address`, if any, is
/// retired; the new one is installed at the node of the allocation's call
/// path unless it is dropped (ledger full, total out of range, or a call
/// stack naming an unknown function), in which case the event is counted as
/// lost; a live total above the old peak becomes the peak, with a copy of
/// the direct bytes of every node as its snapshot.
pub open spec fn allocation_added(
    o: CommandProcessor,
    n: CommandProcessor,
    stack: Seq<StackFrame>,
    address: usize,
    size: usize,
    line_number: u16,
) -> bool {
    let kept = retire(o.live(), address);
    let dropped = kept.len() == o.capacity() || live_bytes(kept) + size > usize::MAX
        || !stack_known(stack, o.functions().len());
    &&& n.functions() == o.functions()
    &&& n.capacity() == o.capacity()
    &&& forall|j: int| 0 <= j < o.node_count() ==> #[trigger] n.path(j) == o.path(j)
    &&& n.total_live() == live_bytes(n.live())
    &&& dropped ==> n.live() == kept
    &&& dropped ==> n.node_count() == o.node_count()
    &&& dropped ==> n.parents() == o.parents()
    &&& dropped ==> n.frames() == o.frames()
    &&& dropped ==> n.lost() == if o.lost() < usize::MAX {
        o.lost() + 1
    } else {
        o.lost()
    }
    &&& !dropped ==> n.live() == kept.push(
        Allocation { address, size, node: n.live().last().node },
    )
    &&& !dropped ==> n.path(n.live().last().node as int) == at_line(stack, line_number)
    &&& !dropped ==> n.lost() == o.lost()
    &&& n.peak() == if n.total_live() > o.peak() {
        n.total_live()
    } else {
        o.peak()
    }
    &&& n.snapshot() == if n.total_live() > o.peak() {
        n.own()
    } else {
        o.snapshot()
    }
}

/// What `free_allocation` does: the record at `address`, if any, is retired
/// and its bytes leave the live total; nothing else changes.
pub open spec fn allocation_freed(o: CommandProcessor, n: CommandProcessor, address: usize) -> bool {
    &&& n.live() == retire(o.live(), address)
    &&& n.total_live() == o.total_live() - retired_bytes(o.live(), address)
    &&& n.functions() == o.functions()
    &&& n.node_count() == o.node_count()
    &&& n.parents() == o.parents()
    &&& n.frames() == o.frames()
    &&& n.capacity() == o.capacity()
    &&& n.peak() == o.peak()
    &&& n.snapshot() == o.snapshot()
    &&& n.lost() == o.lost()
}

/// What `start_call` does: the function is interned, and the stack moves on
/// to a new top frame for it; the tracked memory is untouched.
pub open spec fn call_started(
    o: CommandProcessor,
    n: CommandProcessor,
    stack_before: Seq<StackFrame>,
    stack_after: Seq<StackFrame>,
    parent_line_number: u16,
    module_name: Seq<char>,
    function_name: Seq<char>,
    line_number: u16,
) -> bool {
    &&& o.functions().contains((module_name, function_name)) ==> n.functions() == o.functions()
    &&& !o.functions().contains((module_name, function_name)) ==> n.functions()
        == o.functions().push((module_name, function_name))
    &&& stack_after.len() > 0
    &&& stack_after.last().function < n.functions().len()
    &&& n.functions()[stack_after.last().function as int] == (module_name, function_name)
    &&& stack_after == entered(
        stack_before,
        parent_line_number,
        stack_after.last().function,
        line_number,
    )
    &&& n.live() == o.live()
    &&& n.total_live() == o.total_live()
    &&& n.node_count() == o.node_count()
    &&& n.own() == o.own()
    &&& n.aggregates() == o.aggregates()
    &&& n.parents() == o.parents()
    &&& n.frames() == o.frames()
    &&& n.capacity() == o.capacity()
    &&& n.peak() == o.peak()
    &&& n.snapshot() == o.snapshot()
    &&& n.lost() == o.lost()
}

/// What `reset` does: everything tracked is cleared; interned functions and
/// the ledger's capacity stay.
pub open spec fn was_reset(o: CommandProcessor, n: CommandProcessor) -> bool {
    &&& n.is_fresh()
    &&& n.functions() == o.functions()
    &&& n.capacity() == o.capacity()
}

/// An allocation at an address with no live record, when it is not
/// dropped, adds exactly one record and its size to the live total.
pub proof fn lemma_fresh_allocation(
    o: CommandProcessor,
    n: CommandProcessor,
    stack: Seq<StackFrame>,
    address: usize,
    size: usize,
    line_number: u16,
)
    requires
        o.wf(),
        allocation_added(o, n, stack, address, size, line_number),
        forall|i: int| 0 <= i < o.live().len() ==> #[trigger] o.live()[i].address != address,
        o.live().len() < o.capacity(),
        o.total_live() + size <= usize::MAX,
        stack_known(stack, o.functions().len()),
    ensures
        n.live() == o.live().push(Allocation { address, size, node: n.live().last().node }),
        n.total_live() == o.total_live() + size,
        n.path(n.live().last().node as int) == at_line(stack, line_number),
{
    assert(retire(o.live(), address) == o.live());
    lemma_bytes_push(o.live(), Allocation { address, size, node: n.live().last().node }, None);
}

/// An allocation at an address that is still live first retires the old
/// record: the live total loses the old size and gains the new one.
pub proof fn lemma_stale_reuse(
    o: CommandProcessor,
    n: CommandProcessor,
    stack: Seq<StackFrame>,
    address: usize,
    size: usize,
    line_number: u16,
    i: int,
)
    requires
        o.wf(),
        allocation_added(o, n, stack, address, size, line_number),
        0 <= i < o.live().len(),
        o.live()[i].address == address,
        o.total_live() - o.live()[i].size + size <= usize::MAX,
        stack_known(stack, o.functions().len()),
    ensures
        n.live() == swap_out(o.live(), i).push(
            Allocation { address, size, node: n.live().last().node },
        ),
        n.total_live() == o.total_live() - o.live()[i].size + size,
        n.peak() == if n.total_live() > o.peak() {
            n.total_live()
        } else {
            o.peak()
        },
{
    lemma_retire_at(o.live(), i);
    lemma_bytes_swap_out(o.live(), i, None);
    lemma_bytes_push(
        swap_out(o.live(), i),
        Allocation { address, size, node: n.live().last().node },
        None,
    );
}

/// Freeing an address with no live record changes nothing tracked: not
/// the ledger, the live total, the peak, or any node's bytes.
pub proof fn lemma_free_unknown(o: CommandProcessor, n: CommandProcessor, address: usize)
    requires
        o.wf(),
        n.wf(),
        allocation_freed(o, n, address),
        forall|i: int| 0 <= i < o.live().len() ==> #[trigger] o.live()[i].address != address,
    ensures
        n.live() == o.live(),
        n.total_live() == o.total_live(),
        n.peak() == o.peak(),
        n.snapshot() == o.snapshot(),
        n.own() == o.own(),
        n.aggregates() == o.aggregates(),
{
    assert(retire(o.live(), address) == o.live());
    assert(n.own() =~= o.own());
    assert(n.aggregates() =~= o.aggregates());
}

/// The live total is the sum of the sizes of the live allocations.
pub proof fn lemma_ledger_balance(p: &CommandProcessor)
    requires
        p.wf(),
    ensures
        p.total_live() == live_bytes(p.live()),
{
}

/// A node's aggregate is its own direct bytes plus the aggregates of its
/// children, which is its own direct bytes plus those of every node below
/// it; the root's aggregate is the live total.
pub proof fn lemma_call_tree_conservation(p: &CommandProcessor, k: int)
    requires
        p.wf(),
        0 <= k < p.node_count(),
    ensures
        p.aggregates()[k] == p.own()[k] + children_total(
            p.parents(),
            p.aggregates(),
            k,
            p.node_count() as int,
        ),
        p.aggregates()[k] == subtree_sum(p.parents(), p.own(), k, p.node_count() as int),
        p.aggregates()[0] == p.total_live(),
{
    let n = p.node_count() as int;
    lemma_root_sum(p.parents(), p.own(), n);
    lemma_subtree_children(p.parents(), p.own(), k, n);
    lemma_children_total(p.parents(), p.own(), p.aggregates(), k, n);
}

/// An allocation never lowers the peak, and the peak after it is the larger
/// of the peak before and the live total after: over a session the peak is
/// the largest live total observed.
pub proof fn lemma_peak_monotone(
    o: CommandProcessor,
    n: CommandProcessor,
    stack: Seq<StackFrame>,
    address: usize,
    size: usize,
    line_number: u16,
)
    requires
        allocation_added(o, n, stack, address, size, line_number),
    ensures
        n.peak() >= o.peak(),
        n.peak() >= n.total_live(),
        n.peak() == o.peak() || n.peak() == n.total_live(),
{
}

/// Each call path has at most one node: distinct nodes have distinct paths.
pub proof fn lemma_one_node_per_path(p: &CommandProcessor, i: int, j: int)
    requires
        p.wf(),
        0 <= i < p.node_count(),
        0 <= j < p.node_count(),
        i != j,
    ensures
        p.path(i) != p.path(j),
{
    if p.path(i) == p.path(j) {
        lemma_paths_distinct(p.parents(), p.frames(), i, j);
    }
}

/// No function is interned twice, so equal names always get the same id.
pub proof fn lemma_functions_distinct(p: &CommandProcessor)
    requires
        p.wf(),
    ensures
        forall|i: int, j: int|
            0 <= i < p.functions().len() && 0 <= j < p.functions().len() && i != j
                ==> #[trigger] p.functions()[i] != #[trigger] p.functions()[j],
{
}

/// The tree has one entry per node in each of its vectors; each node's
/// direct bytes are the sizes of the live allocations attributed to it;
/// every allocation is attributed to a node; live addresses are distinct.
pub proof fn lemma_own_matches_ledger(p: &CommandProcessor)
    requires
        p.wf(),
    ensures
        p.own().len() == p.node_count(),
        p.parents().len() == p.node_count(),
        p.frames().len() == p.node_count(),
        p.aggregates().len() == p.node_count(),
        distinct_addresses(p.live()),
        forall|j: int| 0 <= j < p.node_count() ==> #[trigger] p.own()[j] == node_bytes(p.live(), j as usize),
        forall|i: int| 0 <= i < p.live().len() ==> (#[trigger] p.live()[i]).node < p.node_count(),
{
}

/// The peak is never below the live total.
pub proof fn lemma_peak_bounds_live(p: &CommandProcessor)
    requires
        p.wf(),
    ensures
        p.total_live() <= p.peak(),
{
}

/// The bytes of the peak snapshot add up to the peak.
pub proof fn lemma_snapshot_matches_peak(p: &CommandProcessor)
    requires
        p.wf(),
    ensures
        own_sum(p.snapshot(), p.snapshot().len() as int) == p.peak(),
{
}

/// Right after a reset the report is empty.
pub proof fn lemma_reset_report_empty(a: CommandProcessor, b: CommandProcessor)
    requires
        was_reset(a, b),
    ensures
        b.flamegraph() == Seq::<u8>::empty(),
{
}

/// Two processors agree on everything that can be observed of them.
pub open spec fn same_state(a: &CommandProcessor, b: &CommandProcessor) -> bool {
    &&& a.functions() == b.functions()
    &&& a.capacity() == b.capacity()
    &&& a.live() == b.live()
    &&& a.parents() == b.parents()
    &&& a.frames() == b.frames()
    &&& a.own() == b.own()
    &&& a.aggregates() == b.aggregates()
    &&& a.total_live() == b.total_live()
    &&& a.peak() == b.peak()
    &&& a.snapshot() == b.snapshot()
    &&& a.lost() == b.lost()
}

/// Resetting twice is resetting once: a second reset leaves the same state
/// as the first.
pub proof fn lemma_reset_idempotent(a: CommandProcessor, b: CommandProcessor, c: CommandProcessor)
    requires
        was_reset(a, b),
        was_reset(b, c),
    ensures
        same_state(&b, &c),
{
}

/// The report depends only on the snapshot, the tree's paths and the
/// function table, so two dumps with nothing changed between them agree.
pub proof fn lemma_flamegraph_deterministic(a: &CommandProcessor, b: &CommandProcessor)
    requires
        a.snapshot() == b.snapshot(),
        a.parents() == b.parents(),
        a.frames() == b.frames(),
        a.functions() == b.functions(),
    ensures
        a.flamegraph() == b.flamegraph(),
{
}

} // verus!
