//! The call tree: one node per call-path prefix seen, with the bytes
//! attributed directly to each node and the aggregate of its subtree.
use vstd::prelude::*;

verus! {

/// A frame of a call path: an interned function and the line currently
/// executing in it.
#[derive(Clone, Copy, Debug, PartialEq, Eq, Structural)]
pub struct CallFrame {
    pub function: usize,
    pub line: u16,
}

/// Whether node `j` lies in the subtree rooted at node `k` (a node lies in
/// its own subtree). Parents always have smaller indices than children.
pub open spec fn descends(parents: Seq<usize>, j: int, k: int) -> bool
    decreases j,
{
    if j == k {
        true
    } else if j <= 0 || j >= parents.len() || parents[j] >= j {
        false
    } else {
        descends(parents, parents[j] as int, k)
    }
}

/// Bytes attributed directly to the nodes among the first `n` that lie in
/// the subtree of `k`.
pub open spec fn subtree_sum(parents: Seq<usize>, own: Seq<usize>, k: int, n: int) -> int
    decreases n,
{
    if n <= 0 {
        0
    } else {
        subtree_sum(parents, own, k, n - 1) + if descends(parents, n - 1, k) {
            own[n - 1] as int
        } else {
            0
        }
    }
}

/// Sum of the first `n` entries of `own`.
pub open spec fn own_sum(own: Seq<usize>, n: int) -> int
    decreases n,
{
    if n <= 0 {
        0
    } else {
        own_sum(own, n - 1) + own[n - 1] as int
    }
}

/// The call path that leads from the root to node `j`.
pub open spec fn path_of(parents: Seq<usize>, frames: Seq<CallFrame>, j: int) -> Seq<CallFrame>
    decreases j,
{
    if j <= 0 || j >= parents.len() || parents[j] >= j {
        Seq::empty()
    } else {
        path_of(parents, frames, parents[j] as int).push(frames[j])
    }
}

pub proof fn lemma_descends_le(parents: Seq<usize>, j: int, k: int)
    requires
        descends(parents, j, k),
    ensures
        k <= j,
    decreases j,
{
    if j != k {
        lemma_descends_le(parents, parents[j] as int, k);
    }
}

pub proof fn lemma_descends_trans(parents: Seq<usize>, a: int, b: int, c: int)
    requires
        descends(parents, a, b),
        descends(parents, b, c),
    ensures
        descends(parents, a, c),
    decreases a,
{
    if a != b {
        lemma_descends_trans(parents, parents[a] as int, b, c);
    }
}

/// Whether `c` is a child of `k`.
pub open spec fn is_child(parents: Seq<usize>, c: int, k: int) -> bool {
    0 < c < parents.len() && parents[c] == k && k < c
}

/// Sum, over the children of `k` among the first `c` nodes, of their
/// subtree sums taken over the first `m` nodes.
pub open spec fn children_sum(parents: Seq<usize>, own: Seq<usize>, k: int, c: int, m: int) -> int
    decreases c,
{
    if c <= 0 {
        0
    } else {
        children_sum(parents, own, k, c - 1, m) + if is_child(parents, c - 1, k) {
            subtree_sum(parents, own, c - 1, m)
        } else {
            0
        }
    }
}

/// Sum of `values` over the children of `k` among the first `c` nodes.
pub open spec fn children_total(parents: Seq<usize>, values: Seq<usize>, k: int, c: int) -> int
    decreases c,
{
    if c <= 0 {
        0
    } else {
        children_total(parents, values, k, c - 1) + if is_child(parents, c - 1, k) {
            values[c - 1] as int
        } else {
            0
        }
    }
}

pub proof fn lemma_children_total(
    parents: Seq<usize>,
    own: Seq<usize>,
    totals: Seq<usize>,
    k: int,
    c: int,
)
    requires
        0 <= c <= parents.len(),
        totals.len() == parents.len(),
        forall|j: int|
            0 <= j < parents.len() ==> #[trigger] totals[j] == subtree_sum(
                parents,
                own,
                j,
                parents.len() as int,
            ),
    ensures
        children_total(parents, totals, k, c) == children_sum(
            parents,
            own,
            k,
            c,
            parents.len() as int,
        ),
    decreases c,
{
    if c > 0 {
        lemma_children_total(parents, own, totals, k, c - 1);
    }
}

spec fn hits(parents: Seq<usize>, k: int, c: int, x: int, v: int) -> int
    decreases c,
{
    if c <= 0 {
        0
    } else {
        hits(parents, k, c - 1, x, v) + if is_child(parents, c - 1, k) && descends(parents, x, c - 1) {
            v
        } else {
            0
        }
    }
}

/// The child of `k` on the way from `k` down to `x`.
spec fn child_towards(parents: Seq<usize>, x: int, k: int) -> int
    decreases x,
{
    if x <= 0 || x >= parents.len() || parents[x] >= x || parents[x] == k {
        x
    } else {
        child_towards(parents, parents[x] as int, k)
    }
}

proof fn lemma_child_towards(parents: Seq<usize>, x: int, k: int)
    requires
        descends(parents, x, k),
        x != k,
    ensures
        is_child(parents, child_towards(parents, x, k), k),
        descends(parents, x, child_towards(parents, x, k)),
    decreases x,
{
    if parents[x] != k {
        lemma_child_towards(parents, parents[x] as int, k);
        let t = child_towards(parents, parents[x] as int, k);
        assert(descends(parents, x, parents[x] as int)) by {
            assert(descends(parents, parents[x] as int, parents[x] as int));
        }
        lemma_descends_trans(parents, x, parents[x] as int, t);
    } else {
        assert(descends(parents, x, x));
    }
}

proof fn lemma_descends_chain(parents: Seq<usize>, p: int, k: int, c: int)
    requires
        descends(parents, p, k),
        descends(parents, p, c),
        k <= c,
    ensures
        descends(parents, c, k),
    decreases p,
{
    if p != k && p != c {
        lemma_descends_chain(parents, parents[p] as int, k, c);
    } else if p == k {
        lemma_descends_le(parents, p, c);
    }
}

proof fn lemma_child_unique(parents: Seq<usize>, x: int, k: int, c1: int, c2: int)
    requires
        is_child(parents, c1, k),
        is_child(parents, c2, k),
        descends(parents, x, c1),
        descends(parents, x, c2),
    ensures
        c1 == c2,
{
    if c1 < c2 {
        lemma_descends_chain(parents, x, c1, c2);
        assert(descends(parents, parents[c2] as int, c1));
        lemma_descends_le(parents, k, c1);
    } else if c2 < c1 {
        lemma_descends_chain(parents, x, c2, c1);
        assert(descends(parents, parents[c1] as int, c2));
        lemma_descends_le(parents, k, c2);
    }
}

proof fn lemma_hits(parents: Seq<usize>, k: int, c: int, x: int, v: int)
    requires
        0 <= c <= parents.len(),
        0 <= x < parents.len(),
        0 <= k < parents.len(),
    ensures
        hits(parents, k, c, x, v) == if descends(parents, x, k) && x != k && child_towards(
            parents,
            x,
            k,
        ) < c {
            v
        } else {
            0
        },
    decreases c,
{
    if c > 0 {
        lemma_hits(parents, k, c - 1, x, v);
        let y = c - 1;
        if is_child(parents, y, k) && descends(parents, x, y) {
            assert(descends(parents, y, k)) by {
                assert(descends(parents, k, k));
            }
            lemma_descends_trans(parents, x, y, k);
            lemma_descends_le(parents, x, y);
            assert(x != k);
            lemma_child_towards(parents, x, k);
            lemma_child_unique(parents, x, k, y, child_towards(parents, x, k));
            assert(child_towards(parents, x, k) == y);
        } else if descends(parents, x, k) && x != k {
            lemma_child_towards(parents, x, k);
            assert(child_towards(parents, x, k) != y);
        }
    } else if descends(parents, x, k) && x != k {
        lemma_child_towards(parents, x, k);
    }
}

proof fn lemma_children_step(parents: Seq<usize>, own: Seq<usize>, k: int, c: int, m: int)
    requires
        0 <= m < own.len(),
    ensures
        children_sum(parents, own, k, c, m + 1) == children_sum(parents, own, k, c, m) + hits(
            parents,
            k,
            c,
            m,
            own[m] as int,
        ),
    decreases c,
{
    if c > 0 {
        lemma_children_step(parents, own, k, c - 1, m);
    }
}

proof fn lemma_children_zero(parents: Seq<usize>, own: Seq<usize>, k: int, c: int)
    ensures
        children_sum(parents, own, k, c, 0) == 0,
    decreases c,
{
    if c > 0 {
        lemma_children_zero(parents, own, k, c - 1);
    }
}

/// A subtree's sum is the root's own bytes plus the subtree sums of its
/// children.
pub proof fn lemma_subtree_children(parents: Seq<usize>, own: Seq<usize>, k: int, m: int)
    requires
        0 <= k < parents.len(),
        0 <= m <= parents.len(),
        own.len() == parents.len(),
        forall|i: int| 0 < i < parents.len() ==> #[trigger] parents[i] < i,
    ensures
        subtree_sum(parents, own, k, m) == (if k < m {
            own[k] as int
        } else {
            0
        }) + children_sum(parents, own, k, parents.len() as int, m),
    decreases m,
{
    let n = parents.len() as int;
    if m == 0 {
        lemma_children_zero(parents, own, k, n);
    } else {
        let x = m - 1;
        lemma_subtree_children(parents, own, k, x);
        lemma_children_step(parents, own, k, n, x);
        lemma_hits(parents, k, n, x, own[x] as int);
        if descends(parents, x, k) && x != k {
            lemma_child_towards(parents, x, k);
        }
    }
}

/// Every node lies in the root's subtree.
pub proof fn lemma_descends_root(parents: Seq<usize>, j: int)
    requires
        0 <= j < parents.len(),
        forall|i: int| 0 < i < parents.len() ==> #[trigger] parents[i] < i,
    ensures
        descends(parents, j, 0),
    decreases j,
{
    if j > 0 {
        lemma_descends_root(parents, parents[j] as int);
    }
}

/// The root's subtree sums the direct bytes of every node.
pub proof fn lemma_root_sum(parents: Seq<usize>, own: Seq<usize>, n: int)
    requires
        n <= parents.len(),
        forall|i: int| 0 < i < parents.len() ==> #[trigger] parents[i] < i,
    ensures
        subtree_sum(parents, own, 0, n) == own_sum(own, n),
    decreases n,
{
    if n > 0 {
        lemma_root_sum(parents, own, n - 1);
        lemma_descends_root(parents, n - 1);
    }
}

pub proof fn lemma_descends_push(parents: Seq<usize>, x: usize, j: int, k: int)
    requires
        0 <= j < parents.len(),
    ensures
        descends(parents.push(x), j, k) == descends(parents, j, k),
    decreases j,
{
    if j != k && j > 0 && parents[j] < j {
        lemma_descends_push(parents, x, parents[j] as int, k);
    }
}

pub proof fn lemma_path_push(parents: Seq<usize>, frames: Seq<CallFrame>, x: usize, f: CallFrame, j: int)
    requires
        0 <= j < parents.len(),
        frames.len() == parents.len(),
    ensures
        path_of(parents.push(x), frames.push(f), j) == path_of(parents, frames, j),
    decreases j,
{
    if j > 0 && parents[j] < j {
        lemma_path_push(parents, frames, x, f, parents[j] as int);
    }
}

pub proof fn lemma_subtree_nonneg(parents: Seq<usize>, own: Seq<usize>, k: int, n: int)
    ensures
        subtree_sum(parents, own, k, n) >= 0,
    decreases n,
{
    if n > 0 {
        lemma_subtree_nonneg(parents, own, k, n - 1);
    }
}

pub proof fn lemma_subtree_le_total(parents: Seq<usize>, own: Seq<usize>, k: int, n: int)
    ensures
        subtree_sum(parents, own, k, n) <= own_sum(own, n),
    decreases n,
{
    if n > 0 {
        lemma_subtree_le_total(parents, own, k, n - 1);
    }
}

/// A subtree's sum covers the direct bytes of each of its nodes.
pub proof fn lemma_subtree_covers(parents: Seq<usize>, own: Seq<usize>, k: int, p: int, n: int)
    requires
        0 <= p < n,
        descends(parents, p, k),
    ensures
        subtree_sum(parents, own, k, n) >= own[p] as int,
    decreases n,
{
    if p == n - 1 {
        lemma_subtree_nonneg(parents, own, k, n - 1);
    } else {
        lemma_subtree_covers(parents, own, k, p, n - 1);
    }
}

/// Changing the direct bytes of node `p` by `d` changes the sum of every
/// subtree that holds `p` by `d`, and no other.
pub proof fn lemma_subtree_update(
    parents: Seq<usize>,
    own: Seq<usize>,
    own2: Seq<usize>,
    p: int,
    d: int,
    k: int,
    n: int,
)
    requires
        0 <= p < own.len(),
        own2.len() == own.len(),
        n <= own.len(),
        own2[p] == own[p] + d,
        forall|j: int| 0 <= j < own.len() && j != p ==> own2[j] == own[j],
    ensures
        subtree_sum(parents, own2, k, n) == subtree_sum(parents, own, k, n) + if p < n && descends(
            parents,
            p,
            k,
        ) {
            d
        } else {
            0
        },
        own_sum(own2, n) == own_sum(own, n) + if p < n {
            d
        } else {
            0
        },
    decreases n,
{
    if n > 0 {
        lemma_subtree_update(parents, own, own2, p, d, k, n - 1);
    }
}

pub proof fn lemma_subtree_extend(parents: Seq<usize>, own: Seq<usize>, x: usize, k: int, n: int)
    requires
        n <= parents.len(),
        n <= own.len(),
    ensures
        subtree_sum(parents.push(x), own.push(0), k, n) == subtree_sum(parents, own, k, n),
        own_sum(own.push(0), n) == own_sum(own, n),
    decreases n,
{
    if n > 0 {
        lemma_subtree_extend(parents, own, x, k, n - 1);
        lemma_descends_push(parents, x, n - 1, k);
    }
}

pub proof fn lemma_subtree_of_new_node(parents: Seq<usize>, own: Seq<usize>, n: int)
    requires
        0 <= n,
    ensures
        subtree_sum(parents, own, n, n) == 0,
    decreases n,
{
    if n > 0 {
        lemma_subtree_of_new_node(parents, own, n - 1);
        if descends(parents, n - 1, n) {
            lemma_descends_le(parents, n - 1, n);
        }
        assert(subtree_sum(parents, own, n, n - 1) == 0) by {
            lemma_subtree_shift(parents, own, n, n - 1);
        }
    }
}

proof fn lemma_subtree_shift(parents: Seq<usize>, own: Seq<usize>, k: int, n: int)
    requires
        0 <= n <= k,
    ensures
        subtree_sum(parents, own, k, n) == 0,
    decreases n,
{
    if n > 0 {
        lemma_subtree_shift(parents, own, k, n - 1);
        if descends(parents, n - 1, k) {
            lemma_descends_le(parents, n - 1, k);
        }
    }
}

/// Whether node `j` is on the sibling list that starts at `c`.
pub open spec fn on_list(next: Seq<usize>, c: int, j: int) -> bool
    decreases c,
{
    if c <= 0 || c >= next.len() {
        false
    } else if c == j {
        true
    } else if next[c] >= c {
        false
    } else {
        on_list(next, next[c] as int, j)
    }
}

proof fn lemma_on_list_push(next: Seq<usize>, x: usize, c: int, j: int)
    requires
        c < next.len(),
    ensures
        on_list(next.push(x), c, j) == on_list(next, c, j),
    decreases c,
{
    if c > 0 && c != j && next[c] < c {
        lemma_on_list_push(next, x, next[c] as int, j);
    }
}

/// Whether no two nodes other than the root share both parent and frame.
pub open spec fn children_distinct(parents: Seq<usize>, frames: Seq<CallFrame>) -> bool {
    forall|i: int, j: int|
        0 < i < parents.len() && 0 < j < parents.len() && i != j && #[trigger] parents[i]
            == #[trigger] parents[j] ==> frames[i] != frames[j]
}

/// Distinct nodes have distinct paths.
pub proof fn lemma_paths_distinct(parents: Seq<usize>, frames: Seq<CallFrame>, i: int, j: int)
    requires
        frames.len() == parents.len(),
        forall|k: int| 0 < k < parents.len() ==> #[trigger] parents[k] < k,
        children_distinct(parents, frames),
        0 <= i < parents.len(),
        0 <= j < parents.len(),
        path_of(parents, frames, i) == path_of(parents, frames, j),
    ensures
        i == j,
    decreases i + j,
{
    let pi = path_of(parents, frames, i);
    let pj = path_of(parents, frames, j);
    if i > 0 && j > 0 {
        assert(pi.drop_last() =~= path_of(parents, frames, parents[i] as int));
        assert(pj.drop_last() =~= path_of(parents, frames, parents[j] as int));
        lemma_paths_distinct(parents, frames, parents[i] as int, parents[j] as int);
        assert(frames[i] == pi.last());
        assert(frames[j] == pj.last());
    } else if i > 0 {
        assert(pi.len() > 0);
    } else if j > 0 {
        assert(pj.len() > 0);
    }
}

/// Nodes are kept in parallel vectors; node 0 is the root, whose path is
/// empty. The children of a node form a list, newest first, through
/// `first_child` and `next_sibling`, where 0 ends a list (the root is no
/// one's child).
pub struct CallTree {
    parents: Vec<usize>,
    frames: Vec<CallFrame>,
    own: Vec<usize>,
    totals: Vec<usize>,
    first_child: Vec<usize>,
    next_sibling: Vec<usize>,
}

impl CallTree {
    pub closed spec fn parents(&self) -> Seq<usize> {
        self.parents@
    }

    pub closed spec fn frames(&self) -> Seq<CallFrame> {
        self.frames@
    }

    /// Bytes attributed directly to each node.
    pub closed spec fn own(&self) -> Seq<usize> {
        self.own@
    }

    /// Aggregate bytes of each node's subtree.
    pub closed spec fn totals(&self) -> Seq<usize> {
        self.totals@
    }

    pub open spec fn len(&self) -> int {
        self.parents().len() as int
    }

    pub open spec fn path(&self, j: int) -> Seq<CallFrame> {
        path_of(self.parents(), self.frames(), j)
    }

    pub open spec fn direct_total(&self) -> int {
        own_sum(self.own(), self.len())
    }

    /// A tree of the root alone, holding no bytes.
    pub open spec fn is_bare(&self) -> bool {
        &&& self.parents() == seq![0usize]
        &&& self.frames() == seq![CallFrame { function: 0, line: 0 }]
        &&& self.own() == seq![0usize]
        &&& self.totals() == seq![0usize]
        &&& self.direct_total() == 0
    }

    /// The child lists stay within the tree and go down in index.
    pub closed spec fn links_ok(&self) -> bool {
        &&& self.first_child@.len() == self.parents@.len()
        &&& self.next_sibling@.len() == self.parents@.len()
        &&& forall|j: int| 0 <= j < self.parents@.len() ==> #[trigger] self.first_child@[j] < self.parents@.len()
        &&& forall|j: int| 0 < j < self.parents@.len() ==> #[trigger] self.next_sibling@[j] < j
        &&& forall|j: int|
            0 < j < self.parents@.len() ==> on_list(
                self.next_sibling@,
                self.first_child@[#[trigger] self.parents@[j] as int] as int,
                j,
            )
    }

    pub open spec fn wf(&self) -> bool {
        &&& 1 <= self.len() <= usize::MAX
        &&& children_distinct(self.parents(), self.frames())
        &&& self.frames().len() == self.len()
        &&& self.own().len() == self.len()
        &&& self.totals().len() == self.len()
        &&& self.links_ok()
        &&& forall|j: int| 0 < j < self.len() ==> #[trigger] self.parents()[j] < j
        &&& forall|k: int|
            0 <= k < self.len() ==> #[trigger] self.totals()[k] == subtree_sum(
                self.parents(),
                self.own(),
                k,
                self.len(),
            )
        &&& self.direct_total() <= usize::MAX
    }

    pub fn new() -> (r: CallTree)
        ensures
            r.wf(),
            r.is_bare(),
    {
        let r = CallTree {
            parents: vec![0],
            frames: vec![CallFrame { function: 0, line: 0 }],
            own: vec![0],
            totals: vec![0],
            first_child: vec![0],
            next_sibling: vec![0],
        };
        proof {
            assert(own_sum(r.own@, 1) == own_sum(r.own@, 0) + r.own@[0]);
            assert(descends(r.parents@, 0, 0));
            assert(subtree_sum(r.parents@, r.own@, 0, 0) == 0);
            assert(subtree_sum(r.parents@, r.own@, 0, 1) == 0);
            assert(r.parents@ =~= seq![0usize]);
            assert(r.frames@ =~= seq![CallFrame { function: 0, line: 0 }]);
            assert(r.own@ =~= seq![0usize]);
            assert(r.totals@ =~= seq![0usize]);
        }
        r
    }

    pub fn node_count(&self) -> (r: usize)
        requires
            self.wf(),
        ensures
            r == self.len(),
    {
        self.parents.len()
    }

    pub fn parent(&self, j: usize) -> (r: usize)
        requires
            self.wf(),
            j < self.len(),
        ensures
            r == self.parents()[j as int],
    {
        self.parents[j]
    }

    pub fn frame(&self, j: usize) -> (r: CallFrame)
        requires
            self.wf(),
            j < self.len(),
        ensures
            r == self.frames()[j as int],
    {
        self.frames[j]
    }

    pub fn own_bytes(&self, j: usize) -> (r: usize)
        requires
            self.wf(),
            j < self.len(),
        ensures
            r == self.own()[j as int],
    {
        self.own[j]
    }

    pub fn total_bytes(&self, j: usize) -> (r: usize)
        requires
            self.wf(),
            j < self.len(),
        ensures
            r == self.totals()[j as int],
    {
        self.totals[j]
    }

    /// A copy of the direct bytes of every node.
    pub fn own_copy(&self) -> (r: Vec<usize>)
        ensures
            r@ == self.own(),
    {
        let r = self.own.clone();
        proof {
            assert(r@ =~= self.own@);
        }
        r
    }

    /// The child of `parent` reached through `frame`, created if it is new.
    pub fn child(&mut self, parent: usize, frame: CallFrame) -> (r: usize)
        requires
            old(self).wf(),
            parent < old(self).len(),
        ensures
            final(self).wf(),
            0 < r < final(self).len(),
            final(self).parents()[r as int] == parent,
            final(self).frames()[r as int] == frame,
            final(self).len() == old(self).len() || (final(self).len() == old(self).len() + 1
                && r == old(self).len()),
            final(self).parents().subrange(0, old(self).len()) == old(self).parents(),
            final(self).frames().subrange(0, old(self).len()) == old(self).frames(),
            final(self).own() == old(self).own() || final(self).own() == old(self).own().push(0),
            final(self).own().len() == final(self).len(),
            forall|i: int|
                0 < i < old(self).len() && old(self).parents()[i] == parent && old(self).frames()[i]
                    == frame ==> r == i,
            final(self).direct_total() == old(self).direct_total(),
            forall|j: int|
                0 <= j < old(self).len() ==> #[trigger] final(self).path(j) == old(self).path(j),
            forall|j: int|
                0 <= j < old(self).len() ==> #[trigger] final(self).own()[j] == old(self).own()[j],
    {
        let n = self.parents.len();
        let mut j: usize = self.first_child[parent];
        while j != 0
            invariant
                self.wf(),
                n == self.len(),
                parent < n,
                j < n,
                forall|i: int|
                    0 < i < n && self.parents()[i] == parent && self.frames()[i] == frame && on_list(
                        self.next_sibling@,
                        self.first_child@[parent as int] as int,
                        i,
                    ) ==> on_list(self.next_sibling@, j as int, i),
            decreases j,
        {
            if self.parents[j] == parent && self.frames[j] == frame {
                proof {
                    assert(self.parents@.subrange(0, n as int) =~= self.parents@);
                    assert(self.frames@.subrange(0, n as int) =~= self.frames@);
                }
                return j;
            }
            j = self.next_sibling[j];
        }
        proof {
            assert forall|i: int| 0 < i < n && self.parents()[i] == parent implies self.frames()[i]
                != frame by {
                assert(on_list(self.next_sibling@, self.first_child@[self.parents@[i] as int] as int, i));
            }
        }
        let ghost ofc = self.first_child@;
        let ghost ons = self.next_sibling@;
        let ghost op = self.parents@;
        let ghost of = self.frames@;
        let ghost oo = self.own@;
        let ghost ot = self.totals@;
        self.parents.push(parent);
        self.frames.push(frame);
        self.own.push(0);
        self.totals.push(0);
        let sibling = self.first_child[parent];
        self.next_sibling.push(sibling);
        self.first_child.push(0);
        self.first_child.set(parent, n);
        let count = self.parents.len();
        proof {
            assert(count == n + 1);
            assert forall|j: int| 0 < j < self.parents@.len() implies on_list(
                self.next_sibling@,
                self.first_child@[#[trigger] self.parents@[j] as int] as int,
                j,
            ) by {
                if j == n {
                    assert(self.first_child@[parent as int] == n);
                } else {
                    assert(self.parents@[j] == op[j]);
                    assert(on_list(ons, ofc[op[j] as int] as int, j));
                    if op[j] == parent {
                        lemma_on_list_push(ons, sibling, ofc[parent as int] as int, j);
                        assert(self.next_sibling@[n as int] == ofc[parent as int]);
                    } else {
                        assert(op[j] < j);
                        assert(self.first_child@[op[j] as int] == ofc[op[j] as int]);
                        lemma_on_list_push(ons, sibling, ofc[op[j] as int] as int, j);
                    }
                }
            }
            assert forall|a: int, b: int|
                0 < a < self.parents@.len() && 0 < b < self.parents@.len() && a != b
                    && #[trigger] self.parents@[a] == #[trigger] self.parents@[b] implies self.frames@[a]
                != self.frames@[b] by {
                if a < n && b < n {
                    assert(self.parents@[a] == op[a] && self.parents@[b] == op[b]);
                    assert(self.frames@[a] == of[a] && self.frames@[b] == of[b]);
                } else if a == n {
                    assert(op[b] == parent);
                    assert(of[b] != frame);
                } else {
                    assert(op[a] == parent);
                    assert(of[a] != frame);
                }
            }
            assert forall|k: int| 0 <= k < self.len() implies #[trigger] self.first_child@[k] < self.len() by {
                if k != parent && k < n {
                    assert(self.first_child@[k] == ofc[k]);
                }
            }
            assert(self.parents@.subrange(0, n as int) =~= op);
            assert(self.frames@.subrange(0, n as int) =~= of);
            lemma_subtree_extend(op, oo, parent, 0, n as int);
            assert(own_sum(self.own@, n + 1) == own_sum(oo, n as int));
            assert forall|k: int| 0 <= k < self.len() implies #[trigger] self.totals@[k]
                == subtree_sum(self.parents@, self.own@, k, self.len()) by {
                lemma_subtree_extend(op, oo, parent, k, n as int);
                if k == n {
                    lemma_subtree_of_new_node(self.parents@, self.own@, n as int);
                } else {
                    lemma_descends_push(op, parent, k, k);
                    assert(ot[k] == subtree_sum(op, oo, k, n as int));
                }
            }
            assert forall|j: int| 0 <= j < n implies #[trigger] path_of(
                self.parents@,
                self.frames@,
                j,
            ) == path_of(op, of, j) by {
                lemma_path_push(op, of, parent, frame, j);
            }
            assert(self.parents@ == op.push(parent));
            assert(self.frames@ == of.push(frame));
        }
        n
    }

    /// Adds `amount` to the direct bytes of node `p` (or takes it away when
    /// `increase` is false), and to the aggregate of every ancestor of `p`.
    pub fn attribute(&mut self, p: usize, amount: usize, increase: bool)
        requires
            old(self).wf(),
            p < old(self).len(),
            increase ==> old(self).direct_total() + amount <= usize::MAX,
            !increase ==> old(self).own()[p as int] >= amount,
        ensures
            final(self).wf(),
            final(self).parents() == old(self).parents(),
            final(self).frames() == old(self).frames(),
            final(self).own().len() == old(self).own().len(),
            forall|j: int|
                0 <= j < old(self).own().len() && j != p ==> #[trigger] final(self).own()[j] == old(
                    self,
                ).own()[j],
            final(self).own()[p as int] == if increase {
                old(self).own()[p as int] + amount
            } else {
                old(self).own()[p as int] - amount
            },
            final(self).direct_total() == if increase {
                old(self).direct_total() + amount
            } else {
                old(self).direct_total() - amount
            },
    {
        let ghost n = self.len();
        let ghost oo = self.own@;
        let ghost ot = self.totals@;
        let ghost d: int = if increase { amount as int } else { -(amount as int) };
        proof {
            lemma_subtree_covers(self.parents@, oo, p as int, p as int, n);
            lemma_subtree_le_total(self.parents@, oo, p as int, n);
        }
        let o = self.own[p];
        let no = if increase { o + amount } else { o - amount };
        self.own.set(p, no);
        proof {
            lemma_subtree_update(self.parents@, oo, self.own@, p as int, d, 0, n);
        }
        let mut cur = p;
        while cur != 0
            invariant
                self.parents@.len() == n,
                self.frames@.len() == n,
                self.own@.len() == n,
                self.totals@.len() == n,
                self.parents@ == old(self).parents@,
                self.frames@ == old(self).frames@,
                self.first_child@ == old(self).first_child@,
                self.next_sibling@ == old(self).next_sibling@,
                self.own@ == oo.update(p as int, no),
                forall|j: int| 0 < j < n ==> #[trigger] self.parents@[j] < j,
                cur < n,
                descends(self.parents@, p as int, cur as int),
                forall|k: int|
                    0 <= k < n ==> #[trigger] self.totals@[k] == ot[k] + if descends(
                        self.parents@,
                        p as int,
                        k,
                    ) && !descends(self.parents@, cur as int, k) {
                        d
                    } else {
                        0
                    },
                forall|k: int| 0 <= k < n ==> #[trigger] ot[k] == subtree_sum(self.parents@, oo, k, n),
                own_sum(oo, n) <= usize::MAX,
                increase ==> own_sum(oo, n) + amount <= usize::MAX,
                !increase ==> oo[p as int] >= amount,
                d == if increase { amount as int } else { -(amount as int) },
                p < n,
            decreases cur,
        {
            proof {
                lemma_descends_le(self.parents@, p as int, cur as int);
                if !descends(self.parents@, cur as int, cur as int) {
                    assert(false);
                }
                lemma_subtree_le_total(self.parents@, oo, cur as int, n);
                lemma_subtree_covers(self.parents@, oo, cur as int, p as int, n);
            }
            let t = self.totals[cur];
            let nt = if increase { t + amount } else { t - amount };
            self.totals.set(cur, nt);
            let next = self.parents[cur];
            proof {
                assert(self.parents@[cur as int] < cur);
                assert(descends(self.parents@, next as int, next as int));
                assert(descends(self.parents@, cur as int, next as int));
                lemma_descends_trans(self.parents@, p as int, cur as int, next as int);
                assert forall|k: int| 0 <= k < n implies #[trigger] self.totals@[k] == ot[k] + if descends(
                    self.parents@,
                    p as int,
                    k,
                ) && !descends(self.parents@, next as int, k) {
                    d
                } else {
                    0
                } by {
                    if k == cur {
                        if descends(self.parents@, next as int, k) {
                            lemma_descends_le(self.parents@, next as int, k);
                        }
                    }
                }
            }
            cur = next;
        }
        proof {
            lemma_subtree_le_total(self.parents@, oo, 0, n);
            lemma_subtree_covers(self.parents@, oo, 0, p as int, n);
        }
        let t = self.totals[0];
        let nt = if increase { t + amount } else { t - amount };
        self.totals.set(0, nt);
        proof {
            assert forall|k: int| 0 <= k < n implies #[trigger] self.totals@[k] == subtree_sum(
                self.parents@,
                self.own@,
                k,
                n,
            ) by {
                lemma_subtree_update(self.parents@, oo, self.own@, p as int, d, k, n);
            }
        }
    }

    /// Drops every node but the root, whose bytes return to zero.
    pub fn clear(&mut self)
        ensures
            final(self).wf(),
            final(self).is_bare(),
    {
        *self = CallTree::new();
    }
}

} // verus!
