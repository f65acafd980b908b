//! A concrete backing implementation of `DepGraph`: adjacency lists over
//! module indexes `0 .. n`, with a parallel list of lazy flags.

use vstd::prelude::*;
use crate::graph::{graph_wf, DepGraph};
use crate::item_set::{item_set_contents, ItemSet};
use crate::Item;

verus! {

broadcast use vstd::set::group_set_axioms, vstd::seq_lib::lemma_seq_contains_after_push;

/// The set of module identifiers `0 .. n`.
pub open spec fn item_range(n: nat) -> Set<Item>
    decreases n,
{
    if n == 0 {
        Set::empty()
    } else {
        item_range((n - 1) as nat).insert(Item((n - 1) as usize))
    }
}

/// `item_range(n)` is finite, has `n` members, and holds exactly the
/// identifiers below `n`.
pub proof fn lemma_item_range(n: nat)
    requires
        n <= usize::MAX,
    ensures
        item_range(n).finite(),
        item_range(n).len() == n,
        forall|m: Item| item_range(n).contains(m) <==> m.0 < n,
    decreases n,
{
    if n > 0 {
        lemma_item_range((n - 1) as nat);
        assert(!item_range((n - 1) as nat).contains(Item((n - 1) as usize)));
    }
}


/// A direct edge in a raw adjacency structure: `a` is a row and `b` one of
/// its targets.
pub open spec fn rows_edge(dl: Seq<Vec<Item>>, a: Item, b: Item) -> bool {
    a.0 < dl.len() && dl[a.0 as int]@.contains(b)
}

/// A nonempty walk along `rows_edge` edges.
pub open spec fn rows_is_path(dl: Seq<Vec<Item>>, p: Seq<Item>) -> bool {
    &&& p.len() >= 1
    &&& forall|i: int| 0 <= i < p.len() - 1 ==> rows_edge(dl, #[trigger] p[i], p[i + 1])
}

/// Some walk leads from `from` to `to` in the raw adjacency structure.
pub open spec fn rows_reach(dl: Seq<Vec<Item>>, from: Item, to: Item) -> bool {
    exists|p: Seq<Item>| rows_is_path(dl, p) && p.first() == from && p.last() == to
}

proof fn rows_reach_refl(dl: Seq<Vec<Item>>, m: Item)
    ensures
        rows_reach(dl, m, m),
{
    let p = seq![m];
    assert(rows_is_path(dl, p) && p.first() == m && p.last() == m);
}

proof fn rows_reach_step(dl: Seq<Vec<Item>>, a: Item, x: Item, d: Item)
    requires
        rows_reach(dl, a, x),
        rows_edge(dl, x, d),
    ensures
        rows_reach(dl, a, d),
{
    let p = choose|p: Seq<Item>| rows_is_path(dl, p) && p.first() == a && p.last() == x;
    let q = p.push(d);
    assert forall|i: int| 0 <= i < q.len() - 1 implies rows_edge(dl, #[trigger] q[i], q[i + 1]) by {
        if i < p.len() - 1 {
            assert(q[i] == p[i] && q[i + 1] == p[i + 1]);
        } else {
            assert(q[i] == p.last() && q[i + 1] == d);
        }
    }
    assert(rows_is_path(dl, q) && q.first() == a && q.last() == d);
}

proof fn rows_closed_covers_path(dl: Seq<Vec<Item>>, s: Set<Item>, p: Seq<Item>)
    requires
        rows_is_path(dl, p),
        s.contains(p.first()),
        forall|x: Item, d: Item|
            #[trigger] s.contains(x) && #[trigger] rows_edge(dl, x, d) ==> s.contains(d),
    ensures
        s.contains(p.last()),
    decreases p.len(),
{
    if p.len() > 1 {
        let q = p.drop_last();
        assert(rows_is_path(dl, q));
        assert(q.first() == p.first());
        rows_closed_covers_path(dl, s, q);
        assert(rows_edge(dl, p[p.len() - 2], p.last()));
        assert(q.last() == p[p.len() - 2]);
    }
}

/// An in-memory dependency graph over the modules `0 .. n`: one outgoing
/// adjacency row and one incoming adjacency row per module, plus one lazy
/// flag per outgoing edge.
pub struct VecGraph {
    /// Outgoing adjacency: the targets of each module's edges.
    pub dep_lists: Vec<Vec<Item>>,
    /// Incoming adjacency: the sources of each module's edges.
    pub dependant_lists: Vec<Vec<Item>>,
    /// One lazy flag per outgoing edge, parallel to `dep_lists`.
    pub lazy_lists: Vec<Vec<bool>>,
}

impl VecGraph {
    /// The lazy flags of `from`'s outgoing edges, parallel to `dep_seq`.
    pub open spec fn lazy_seq(&self, from: Item) -> Seq<bool> {
        if from.0 < self.lazy_lists@.len() {
            self.lazy_lists@[from.0 as int]@
        } else {
            Seq::empty()
        }
    }

    /// The three adjacency structures line up: one incoming row and one
    /// flag row per module, and one flag per outgoing edge.
    pub open spec fn rows_wf(&self) -> bool {
        &&& self.dependant_lists@.len() == self.dep_lists@.len()
        &&& self.lazy_lists@.len() == self.dep_lists@.len()
        &&& forall|m: Item| (#[trigger] self.lazy_seq(m)).len() == self.dep_seq(m).len()
    }

    /// A graph of `n` modules and no edges.
    pub fn new(n: usize) -> (r: VecGraph)
        ensures
            graph_wf(&r),
            r.rows_wf(),
            r.node_set() == item_range(n as nat),
            forall|m: Item| #[trigger] r.dep_seq(m) == Seq::<Item>::empty(),
            forall|m: Item| #[trigger] r.dependant_seq(m) == Seq::<Item>::empty(),
    {
        let mut dep_lists: Vec<Vec<Item>> = Vec::new();
        let mut dependant_lists: Vec<Vec<Item>> = Vec::new();
        let mut lazy_lists: Vec<Vec<bool>> = Vec::new();
        let mut i: usize = 0;
        while i < n
            invariant
                i <= n,
                dep_lists@.len() == i,
                dependant_lists@.len() == i,
                lazy_lists@.len() == i,
                forall|k: int| 0 <= k < i ==> (#[trigger] dep_lists@[k])@.len() == 0,
                forall|k: int| 0 <= k < i ==> (#[trigger] dependant_lists@[k])@.len() == 0,
                forall|k: int| 0 <= k < i ==> (#[trigger] lazy_lists@[k])@.len() == 0,
            decreases n - i,
        {
            dep_lists.push(Vec::new());
            dependant_lists.push(Vec::new());
            lazy_lists.push(Vec::new());
            i = i + 1;
        }
        let r = VecGraph { dep_lists, dependant_lists, lazy_lists };
        proof {
            lemma_item_range(n as nat);
            assert forall|m: Item| #[trigger] r.dep_seq(m) == Seq::<Item>::empty() by {
                if m.0 < r.dep_lists@.len() {
                    assert(r.dep_seq(m) =~= Seq::<Item>::empty());
                }
            }
            assert forall|m: Item| #[trigger] r.dependant_seq(m) == Seq::<Item>::empty() by {
                if m.0 < r.dependant_lists@.len() {
                    assert(r.dependant_seq(m) =~= Seq::<Item>::empty());
                }
            }
            assert forall|m: Item| (#[trigger] r.lazy_seq(m)).len() == r.dep_seq(m).len() by {
                if m.0 < r.lazy_lists@.len() {
                    assert(r.lazy_seq(m).len() == 0);
                }
            }
        }
        r
    }

    /// Adds the directed edge `from -> to` with the given lazy flag. The
    /// edge must not already be present.
    pub fn add_edge(&mut self, from: Item, to: Item, is_lazy: bool)
        requires
            graph_wf(&*old(self)),
            old(self).rows_wf(),
            old(self).node_set().contains(from),
            old(self).node_set().contains(to),
            !old(self).dep_seq(from).contains(to),
        ensures
            graph_wf(&*final(self)),
            final(self).rows_wf(),
            final(self).node_set() == old(self).node_set(),
            final(self).dep_seq(from) == old(self).dep_seq(from).push(to),
            forall|m: Item| m != from ==> #[trigger] final(self).dep_seq(m) == old(self).dep_seq(m),
            final(self).dependant_seq(to) == old(self).dependant_seq(to).push(from),
            forall|m: Item|
                m != to ==> #[trigger] final(self).dependant_seq(m) == old(self).dependant_seq(m),
            final(self).edge_is_lazy(from, to) == is_lazy,
            forall|a: Item, b: Item|
                a != from || b != to ==> #[trigger] final(self).edge_is_lazy(a, b) == old(
                    self,
                ).edge_is_lazy(a, b),
    {
        let ghost g0 = *self;
        let n = self.dep_lists.len();
        proof {
            lemma_item_range(n as nat);
        }
        let dep_row = &mut self.dep_lists[from.0];
        dep_row.push(to);
        let lazy_row = &mut self.lazy_lists[from.0];
        lazy_row.push(is_lazy);
        let dependant_row = &mut self.dependant_lists[to.0];
        dependant_row.push(from);
        proof {
            lemma_add_edge_model(g0, *self, from, to, is_lazy);
        }
    }
}

impl DepGraph for VecGraph {
    open spec fn node_set(&self) -> Set<Item> {
        item_range(self.dep_lists@.len() as nat)
    }

    open spec fn dep_seq(&self, module: Item) -> Seq<Item> {
        if module.0 < self.dep_lists@.len() {
            self.dep_lists@[module.0 as int]@
        } else {
            Seq::empty()
        }
    }

    open spec fn dependant_seq(&self, module: Item) -> Seq<Item> {
        if module.0 < self.dependant_lists@.len() {
            self.dependant_lists@[module.0 as int]@
        } else {
            Seq::empty()
        }
    }

    open spec fn edge_is_lazy(&self, from: Item, to: Item) -> bool {
        exists|j: int|
            0 <= j < self.dep_seq(from).len() && j < self.lazy_seq(from).len() && self.dep_seq(
                from,
            )[j] == to && self.lazy_seq(from)[j]
    }

    fn deps(&self, module: Item) -> (r: Vec<Item>) {
        let n = self.dep_lists.len();
        proof {
            lemma_item_range(n as nat);
        }
        let row = &self.dep_lists[module.0];
        let mut r: Vec<Item> = Vec::new();
        let mut i: usize = 0;
        while i < row.len()
            invariant
                i <= row@.len(),
                r@.len() == i,
                forall|k: int| 0 <= k < i ==> r@[k] == row@[k],
            decreases row@.len() - i,
        {
            r.push(row[i]);
            i = i + 1;
        }
        proof {
            assert(r@ =~= self.dep_seq(module));
        }
        r
    }

    fn depandants(&self, module: Item) -> (r: Vec<Item>) {
        let mut r: Vec<Item> = Vec::new();
        if module.0 < self.dependant_lists.len() {
            let row = &self.dependant_lists[module.0];
            let mut i: usize = 0;
            while i < row.len()
                invariant
                    i <= row@.len(),
                    r@.len() == i,
                    forall|k: int| 0 <= k < i ==> r@[k] == row@[k],
                decreases row@.len() - i,
            {
                r.push(row[i]);
                i = i + 1;
            }
            proof {
                assert(r@ =~= self.dependant_seq(module));
            }
        } else {
            proof {
                assert(r@ =~= self.dependant_seq(module));
            }
        }
        r
    }

    fn get_edge(&self, from: Item, to: Item) -> (r: crate::EdgeData) {
        let n = self.dep_lists.len();
        proof {
            lemma_item_range(n as nat);
        }
        let row = &self.dep_lists[from.0];
        let mut flag = false;
        if from.0 < self.lazy_lists.len() {
            let lazy_row = &self.lazy_lists[from.0];
            let mut i: usize = 0;
            while i < row.len()
                invariant
                    i <= row@.len(),
                    flag == exists|j: int|
                        0 <= j < i && j < lazy_row@.len() && row@[j] == to && lazy_row@[j],
                decreases row@.len() - i,
            {
                if i < lazy_row.len() {
                    if row[i] == to && lazy_row[i] {
                        flag = true;
                        proof {
                            assert(0 <= i < row@.len() && (i as int) < lazy_row@.len()
                                && row@[i as int] == to && lazy_row@[i as int]);
                        }
                    }
                }
                proof {
                    if flag {
                        let j = choose|j: int|
                            0 <= j < i + 1 && j < lazy_row@.len() && row@[j] == to && lazy_row@[j];
                        assert(0 <= j < i + 1 && j < lazy_row@.len() && row@[j] == to
                            && lazy_row@[j]);
                    }
                }
                i = i + 1;
            }
            proof {
                assert(flag == self.edge_is_lazy(from, to));
            }
        } else {
            proof {
                assert(self.lazy_seq(from).len() == 0);
                assert(!self.edge_is_lazy(from, to));
            }
        }
        crate::EdgeData { is_lazy: flag }
    }

    #[verifier::loop_isolation(false)]
    #[verifier::rlimit(50)]
    fn has_path_connecting(&self, from: Item, to: Item) -> (r: bool) {
        let ghost dl = self.dep_lists@;
        let n = self.dep_lists.len();
        proof {
            lemma_item_range(n as nat);
        }
        if from.0 == to.0 {
            proof {
                assert(from == to);
                let p = seq![from];
                assert(p.len() >= 1 && p.first() == from && p.last() == to);
                assert(forall|i: int|
                    0 <= i < p.len() - 1 ==> self.dep_seq(#[trigger] p[i]).contains(p[i + 1]));
            }
            return true;
        }
        let mut done = ItemSet::new();
        let mut queue: Vec<Item> = Vec::new();
        queue.push(from);
        let mut head: usize = 0;
        proof {
            rows_reach_refl(dl, from);
            assert(queue@[0] == from);
        }
        while head < queue.len()
            invariant
                head <= queue.len(),
                from != to,
                dl == self.dep_lists@,
                n == dl.len(),
                item_set_contents(done).finite(),
                forall|m: Item| #[trigger] item_set_contents(done).contains(m) ==> m.0 < n,
                forall|i: int| 0 <= i < queue@.len() ==> (#[trigger] queue@[i]).0 < n,
                forall|m: Item| #[trigger]
                    item_set_contents(done).contains(m) ==> rows_reach(dl, from, m),
                forall|i: int|
                    0 <= i < queue@.len() ==> rows_reach(dl, from, #[trigger] queue@[i]),
                item_set_contents(done).contains(from) || (exists|i: int|
                    head <= i < queue@.len() && queue@[i] == from),
                forall|x: Item, d: Item|
                    #[trigger] item_set_contents(done).contains(x) && #[trigger] rows_edge(
                        dl,
                        x,
                        d,
                    ) ==> d != to && (d.0 >= n || item_set_contents(done).contains(d) || (
                    exists|i: int| head <= i < queue@.len() && queue@[i] == d)),
            decreases
                item_range(n as nat).len() - item_set_contents(done).len(),
                queue.len() - head,
        {
            let ghost h0 = head as int;
            let cur = queue[head];
            proof {
                assert(queue@[h0] == cur);
            }
            head = head + 1;
            if !done.contains(cur) {
                proof {
                    assert forall|m: Item|
                        item_set_contents(done).contains(m) implies item_range(n as nat).contains(
                        m,
                    ) by {}
                    vstd::set_lib::lemma_len_subset(
                        item_set_contents(done),
                        item_range(n as nat),
                    );
                }
                done.insert(cur);
                proof {
                    if !item_set_contents(done).contains(from) {
                        let k = choose|k: int| h0 <= k < queue@.len() && queue@[k] == from;
                        assert(k != h0);
                        assert(head <= k < queue@.len() && queue@[k] == from);
                    }
                    assert forall|x: Item, d: Item|
                        #[trigger] item_set_contents(done).contains(x) && x != cur && #[trigger]
                        rows_edge(dl, x, d) && d.0 < n && !item_set_contents(done).contains(
                        d,
                    ) implies exists|k: int| head <= k < queue@.len() && queue@[k] == d by {
                        let k = choose|k: int| h0 <= k < queue@.len() && queue@[k] == d;
                        assert(k != h0);
                        assert(queue@[k] == d);
                    }
                    assert forall|m: Item|
                        item_set_contents(done).contains(m) implies item_range(n as nat).contains(
                        m,
                    ) by {}
                    vstd::set_lib::lemma_len_subset(
                        item_set_contents(done),
                        item_range(n as nat),
                    );
                }
                let row = &self.dep_lists[cur.0];
                let mut i: usize = 0;
                while i < row.len()
                    invariant
                        i <= row@.len(),
                        head <= queue.len(),
                        from != to,
                        dl == self.dep_lists@,
                        n == dl.len(),
                        cur.0 < n,
                        row@ == dl[cur.0 as int]@,
                        item_set_contents(done).contains(cur),
                        rows_reach(dl, from, cur),
                        forall|k: int| 0 <= k < queue@.len() ==> (#[trigger] queue@[k]).0 < n,
                        forall|k: int|
                            0 <= k < queue@.len() ==> rows_reach(dl, from, #[trigger] queue@[k]),
                        item_set_contents(done).contains(from) || (exists|k: int|
                            head <= k < queue@.len() && queue@[k] == from),
                        forall|x: Item, d: Item|
                            #[trigger] item_set_contents(done).contains(x) && x != cur
                                && #[trigger] rows_edge(dl, x, d) ==> d != to && (d.0 >= n
                                || item_set_contents(done).contains(d) || (exists|k: int|
                                head <= k < queue@.len() && queue@[k] == d)),
                        forall|j: int|
                            0 <= j < i ==> (#[trigger] row@[j]) != to && (row@[j].0 >= n
                                || item_set_contents(done).contains(row@[j]) || (exists|k: int|
                                head <= k < queue@.len() && queue@[k] == row@[j])),
                    decreases row@.len() - i,
                {
                    let ghost q0 = queue@;
                    let dep = row[i];
                    proof {
                        assert(row@[i as int] == dep);
                        assert(dl[cur.0 as int]@.contains(dep));
                        assert(rows_edge(dl, cur, dep));
                        rows_reach_step(dl, from, cur, dep);
                    }
                    if dep.0 == to.0 {
                        proof {
                            assert(dep == to);
                            let p = choose|p: Seq<Item>|
                                rows_is_path(dl, p) && p.first() == from && p.last() == to;
                            assert forall|k: int|
                                0 <= k < p.len() - 1 implies self.dep_seq(
                                #[trigger] p[k],
                            ).contains(p[k + 1]) by {
                                assert(rows_edge(dl, p[k], p[k + 1]));
                            }
                            assert(p.len() >= 1 && p.first() == from && p.last() == to);
                        }
                        return true;
                    }
                    if dep.0 < n {
                        queue.push(dep);
                        proof {
                            assert(queue@ == q0.push(dep));
                            assert(queue@[queue@.len() - 1] == dep);
                            if !item_set_contents(done).contains(from) {
                                let k = choose|k: int| head <= k < q0.len() && q0[k] == from;
                                assert(queue@[k] == from);
                            }
                            assert forall|x: Item, d: Item|
                                #[trigger] item_set_contents(done).contains(x) && x != cur
                                    && #[trigger] rows_edge(dl, x, d) && d.0 < n
                                    && !item_set_contents(done).contains(d) implies exists|k: int|
                                head <= k < queue@.len() && queue@[k] == d by {
                                let k = choose|k: int| head <= k < q0.len() && q0[k] == d;
                                assert(queue@[k] == d);
                            }
                            assert forall|j: int|
                                0 <= j < i + 1 && (#[trigger] row@[j]).0 < n
                                    && !item_set_contents(done).contains(row@[j]) implies exists|
                                k: int,
                            | head <= k < queue@.len() && queue@[k] == row@[j] by {
                                if j < i {
                                    let k = choose|k: int|
                                        head <= k < q0.len() && q0[k] == row@[j];
                                    assert(queue@[k] == row@[j]);
                                } else {
                                    assert(row@[j] == dep);
                                    assert(queue@[queue@.len() - 1] == dep);
                                }
                            }
                        }
                    }
                    i = i + 1;
                }
                proof {
                    assert forall|x: Item, d: Item|
                        #[trigger] item_set_contents(done).contains(x) && #[trigger] rows_edge(
                            dl,
                            x,
                            d,
                        ) implies d != to && (d.0 >= n || item_set_contents(done).contains(d) || (
                    exists|k: int| head <= k < queue@.len() && queue@[k] == d)) by {
                        if x == cur {
                            let j = choose|j: int|
                                0 <= j < dl[cur.0 as int]@.len() && dl[cur.0 as int]@[j] == d;
                            assert(row@[j] == d);
                            assert(row@[j] != to);
                        }
                    }
                }
            } else {
                proof {
                    if !item_set_contents(done).contains(from) {
                        let k = choose|k: int| h0 <= k < queue@.len() && queue@[k] == from;
                        assert(k != h0);
                        assert(head <= k < queue@.len() && queue@[k] == from);
                    }
                    assert forall|x: Item, d: Item|
                        #[trigger] item_set_contents(done).contains(x) && #[trigger] rows_edge(
                            dl,
                            x,
                            d,
                        ) && d.0 < n && !item_set_contents(done).contains(d) implies exists|k: int|
                        head <= k < queue@.len() && queue@[k] == d by {
                        let k = choose|k: int| h0 <= k < queue@.len() && queue@[k] == d;
                        assert(k != h0);
                        assert(queue@[k] == d);
                    }
                }
            }
        }
        proof {
            if exists|p: Seq<Item>|
                p.len() >= 1 && p.first() == from && p.last() == to && (forall|i: int|
                    0 <= i < p.len() - 1 ==> self.dep_seq(#[trigger] p[i]).contains(p[i + 1])) {
                let p = choose|p: Seq<Item>|
                    p.len() >= 1 && p.first() == from && p.last() == to && (forall|i: int|
                        0 <= i < p.len() - 1 ==> self.dep_seq(#[trigger] p[i]).contains(p[i + 1]));
                assert forall|i: int|
                    0 <= i < p.len() - 1 implies rows_edge(dl, #[trigger] p[i], p[i + 1]) by {
                    assert(self.dep_seq(p[i]).contains(p[i + 1]));
                    if p[i].0 >= dl.len() {
                        assert(self.dep_seq(p[i]) == Seq::<Item>::empty());
                    }
                }
                assert(rows_is_path(dl, p));
                let s = item_set_contents(done).union(Set::new(|m: Item| m.0 >= n));
                assert(s.contains(from));
                assert forall|x: Item, d: Item|
                    #[trigger] s.contains(x) && #[trigger] rows_edge(dl, x, d) implies s.contains(
                    d,
                ) by {
                    if item_set_contents(done).contains(x) {
                        assert(d != to);
                    } else {
                        assert(x.0 >= n);
                    }
                }
                assert(p.len() >= 2);
                let q = p.drop_last();
                assert(rows_is_path(dl, q));
                assert(q.first() == from);
                rows_closed_covers_path(dl, s, q);
                let prev = q.last();
                assert(p[p.len() - 2] == prev);
                assert(rows_edge(dl, prev, p[p.len() - 1]));
                if item_set_contents(done).contains(prev) {
                    assert(p.last() != to);
                } else {
                    assert(prev.0 >= n);
                }
            }
        }
        false
    }
}

/// Relates the adjacency rows of the graph after one `add_edge` to the
/// graph model before it: the new edge appears in both directions, every
/// other row and flag is unchanged, and well-formedness is preserved.
proof fn lemma_add_edge_model(g0: VecGraph, g1: VecGraph, from: Item, to: Item, is_lazy: bool)
    requires
        g0.dep_lists@.len() <= usize::MAX,
        graph_wf(&g0),
        g0.rows_wf(),
        g0.node_set().contains(from),
        g0.node_set().contains(to),
        !g0.dep_seq(from).contains(to),
        g1.dep_lists@ == g0.dep_lists@.update(
            from.0 as int,
            g1.dep_lists@[from.0 as int],
        ),
        g1.dep_lists@[from.0 as int]@ == g0.dep_lists@[from.0 as int]@.push(to),
        g1.lazy_lists@ == g0.lazy_lists@.update(from.0 as int, g1.lazy_lists@[from.0 as int]),
        g1.lazy_lists@[from.0 as int]@ == g0.lazy_lists@[from.0 as int]@.push(is_lazy),
        g1.dependant_lists@ == g0.dependant_lists@.update(
            to.0 as int,
            g1.dependant_lists@[to.0 as int],
        ),
        g1.dependant_lists@[to.0 as int]@ == g0.dependant_lists@[to.0 as int]@.push(from),
    ensures
        graph_wf(&g1),
        g1.rows_wf(),
        g1.node_set() == g0.node_set(),
        g1.dep_seq(from) == g0.dep_seq(from).push(to),
        forall|m: Item| m != from ==> #[trigger] g1.dep_seq(m) == g0.dep_seq(m),
        g1.dependant_seq(to) == g0.dependant_seq(to).push(from),
        forall|m: Item| m != to ==> #[trigger] g1.dependant_seq(m) == g0.dependant_seq(m),
        g1.edge_is_lazy(from, to) == is_lazy,
        forall|a: Item, b: Item|
            a != from || b != to ==> #[trigger] g1.edge_is_lazy(a, b) == g0.edge_is_lazy(a, b),
{
    let n = g0.dep_lists@.len();
    lemma_item_range(n as nat);
    assert(n <= usize::MAX);
    assert(g1.dep_lists@.len() == n);
    assert(from.0 < n && to.0 < n);
    assert(g1.dep_seq(from) == g0.dep_seq(from).push(to));
    assert(g1.dependant_seq(to) == g0.dependant_seq(to).push(from));
    assert forall|m: Item| m != from implies #[trigger] g1.dep_seq(m) == g0.dep_seq(m) by {
        if m.0 < n {
            assert(g1.dep_lists@[m.0 as int] == g0.dep_lists@[m.0 as int]);
        }
    }
    assert forall|m: Item| m != to implies #[trigger] g1.dependant_seq(m) == g0.dependant_seq(
        m,
    ) by {
        if m.0 < n {
            assert(g1.dependant_lists@[m.0 as int] == g0.dependant_lists@[m.0 as int]);
        }
    }
    assert forall|m: Item| m != from implies g1.lazy_seq(m) == g0.lazy_seq(m) by {
        if m.0 < n {
            assert(g1.lazy_lists@[m.0 as int] == g0.lazy_lists@[m.0 as int]);
        }
    }
    let olen = g0.dep_seq(from).len();
    assert(g0.lazy_seq(from).len() == olen);
    // The new edge's flag: only the appended index can name `to`.
    assert(g1.dep_seq(from)[olen as int] == to && g1.lazy_seq(from)[olen as int] == is_lazy);
    assert forall|j: int| 0 <= j < olen implies g1.dep_seq(from)[j] != to by {
        assert(g1.dep_seq(from)[j] == g0.dep_seq(from)[j]);
        assert(g0.dep_seq(from).contains(g0.dep_seq(from)[j]));
    }
    if is_lazy {
        assert(g1.edge_is_lazy(from, to));
    } else {
        assert forall|j: int|
            0 <= j < g1.dep_seq(from).len() && j < g1.lazy_seq(from).len() && g1.dep_seq(from)[j]
                == to implies !g1.lazy_seq(from)[j] by {
            assert(j == olen);
        }
    }
    assert forall|a: Item, b: Item|
        a != from || b != to implies #[trigger] g1.edge_is_lazy(a, b) == g0.edge_is_lazy(a, b) by {
        if a != from {
            assert(g1.dep_seq(a) == g0.dep_seq(a));
            assert(g1.lazy_seq(a) == g0.lazy_seq(a));
        } else {
            // Same source, different target: the appended index cannot
            // witness b, and the old indexes carry over unchanged.
            if g1.edge_is_lazy(a, b) {
                let j = choose|j: int|
                    0 <= j < g1.dep_seq(a).len() && j < g1.lazy_seq(a).len() && g1.dep_seq(a)[j]
                        == b && g1.lazy_seq(a)[j];
                assert(j != olen);
                assert(g0.dep_seq(a)[j] == b && g0.lazy_seq(a)[j]);
                assert(g0.edge_is_lazy(a, b));
            }
            if g0.edge_is_lazy(a, b) {
                let j = choose|j: int|
                    0 <= j < g0.dep_seq(a).len() && j < g0.lazy_seq(a).len() && g0.dep_seq(a)[j]
                        == b && g0.lazy_seq(a)[j];
                assert(g1.dep_seq(a)[j] == b && g1.lazy_seq(a)[j]);
                assert(g1.edge_is_lazy(a, b));
            }
        }
    }
    // Well-formedness of the extended graph.
    assert forall|a: Item, b: Item|
        g1.node_set().contains(a) && #[trigger] g1.dep_seq(a).contains(b) implies g1.node_set()
        .contains(b) by {
        if a == from {
            assert(g0.dep_seq(a).contains(b) || b == to);
        } else {
            assert(g0.dep_seq(a).contains(b));
        }
    }
    assert forall|a: Item, b: Item|
        g1.node_set().contains(a) && #[trigger] g1.dependant_seq(a).contains(b) implies g1
        .node_set().contains(b) by {
        if a == to {
            assert(g0.dependant_seq(a).contains(b) || b == from);
        } else {
            assert(g0.dependant_seq(a).contains(b));
        }
    }
    assert forall|a: Item, b: Item|
        #![trigger g1.dep_seq(a).contains(b)]
        #![trigger g1.dependant_seq(b).contains(a)]
        g1.node_set().contains(a) && g1.node_set().contains(b) implies (g1.dep_seq(a).contains(b)
        <==> g1.dependant_seq(b).contains(a)) by {
        if a == from && b == to {
            assert(g1.dep_seq(a).contains(to));
            assert(g1.dependant_seq(b).contains(from));
        } else if a == from {
            assert(g1.dep_seq(a).contains(b) <==> (g0.dep_seq(a).contains(b) || b == to));
            assert(g1.dependant_seq(b) == g0.dependant_seq(b));
        } else if b == to {
            assert(g1.dependant_seq(b).contains(a) <==> (g0.dependant_seq(b).contains(a) || a
                == from));
            assert(g1.dep_seq(a) == g0.dep_seq(a));
        } else {
            assert(g1.dep_seq(a) == g0.dep_seq(a));
            assert(g1.dependant_seq(b) == g0.dependant_seq(b));
        }
    }
    assert forall|m: Item| g1.node_set().contains(m) implies (#[trigger] g1.dep_seq(
        m,
    )).no_duplicates() by {
        if m == from {
            let s = g1.dep_seq(m);
            assert forall|i: int, j: int|
                0 <= i < s.len() && 0 <= j < s.len() && i != j implies s[i] != s[j] by {
                if i < olen && j < olen {
                    assert(g0.dep_seq(m)[i] == s[i] && g0.dep_seq(m)[j] == s[j]);
                    assert(g0.dep_seq(m).no_duplicates());
                } else if i == olen {
                    assert(g0.dep_seq(m).contains(g0.dep_seq(m)[j]));
                } else {
                    assert(g0.dep_seq(m).contains(g0.dep_seq(m)[i]));
                }
            }
        } else {
            assert(g1.dep_seq(m) == g0.dep_seq(m));
        }
    }
    assert(!g0.dependant_seq(to).contains(from));
    assert forall|m: Item| g1.node_set().contains(m) implies (#[trigger] g1.dependant_seq(
        m,
    )).no_duplicates() by {
        if m == to {
            let s = g1.dependant_seq(m);
            let dlen = g0.dependant_seq(m).len();
            assert forall|i: int, j: int|
                0 <= i < s.len() && 0 <= j < s.len() && i != j implies s[i] != s[j] by {
                if i < dlen && j < dlen {
                    assert(g0.dependant_seq(m)[i] == s[i] && g0.dependant_seq(m)[j] == s[j]);
                    assert(g0.dependant_seq(m).no_duplicates());
                } else if i == dlen {
                    assert(g0.dependant_seq(m).contains(g0.dependant_seq(m)[j]));
                } else {
                    assert(g0.dependant_seq(m).contains(g0.dependant_seq(m)[i]));
                }
            }
        } else {
            assert(g1.dependant_seq(m) == g0.dependant_seq(m));
        }
    }
    assert forall|m: Item| (#[trigger] g1.lazy_seq(m)).len() == g1.dep_seq(m).len() by {
        if m != from {
            assert(g1.lazy_seq(m) == g0.lazy_seq(m));
            assert(g1.dep_seq(m) == g0.dep_seq(m));
        }
    }
    assert(g1.node_set() == g0.node_set());
}

} // verus!
