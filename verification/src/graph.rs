//! A directed graph over integer labels, with breadth-first and depth-first
//! walks and an unweighted shortest-path search.
//!
//! Nodes are stored once each, in insertion order, and edges as index lists
//! per node. The walks return labels of the graph without repetition,
//! starting at the requested node; the path search returns a genuine path:
//! consecutive entries are joined by edges, from the start label to the end
//! label.

use std::collections::VecDeque;
use vstd::prelude::*;

verus! {

pub struct Graph {
    nodes: Vec<u64>,
    edges: Vec<Vec<usize>>,
}

impl Graph {
    /// The node labels, in insertion order.
    pub closed spec fn nodes_spec(&self) -> Seq<u64> {
        self.nodes@
    }

    /// The outgoing edge targets of each node, as indices into the node
    /// list.
    pub closed spec fn edges_spec(&self) -> Seq<Seq<usize>> {
        Seq::new(self.edges@.len(), |i: int| self.edges@[i]@)
    }

    pub open spec fn has_node(&self, node: u64) -> bool {
        self.nodes_spec().contains(node)
    }

    /// The position of a label the graph holds.
    pub open spec fn index_of(&self, node: u64) -> int {
        choose|i: int| 0 <= i < self.nodes_spec().len() && self.nodes_spec()[i] == node
    }

    /// One edge list per node, targets in range, and no label twice.
    pub closed spec fn well_formed(&self) -> bool {
        &&& self.edges@.len() == self.nodes@.len()
        &&& (forall|i: int, j: int|
            0 <= i < self.edges@.len() && 0 <= j < self.edges@[i]@.len()
                ==> (#[trigger] self.edges@[i]@[j]) < self.nodes@.len())
        &&& (forall|i: int, j: int|
            0 <= i < j < self.nodes@.len() ==> self.nodes@[i] != self.nodes@[j])
    }

    pub fn new() -> (g: Self)
        ensures
            g.well_formed(),
            g.nodes_spec() == Seq::<u64>::empty(),
    {
        Graph { nodes: Vec::new(), edges: Vec::new() }
    }

    fn find_node(&self, node: u64) -> (r: Option<usize>)
        requires
            self.well_formed(),
        ensures
            match r {
                Some(i) => i < self.nodes_spec().len() && self.nodes_spec()[i as int] == node
                    && self.has_node(node) && self.index_of(node) == i,
                None => !self.has_node(node),
            },
    {
        let mut i: usize = 0;
        while i < self.nodes.len()
            invariant
                self.well_formed(),
                i <= self.nodes@.len(),
                forall|k: int| 0 <= k < i ==> self.nodes@[k] != node,
            decreases self.nodes@.len() - i,
        {
            if self.nodes[i] == node {
                proof {
                    assert(self.nodes_spec()[i as int] == node);
                    let j = choose|j: int|
                        0 <= j < self.nodes_spec().len() && self.nodes_spec()[j] == node;
                    assert(j == i);
                }
                return Some(i);
            }
            i = i + 1;
        }
        proof {
            if self.has_node(node) {
                let j = choose|j: int|
                    0 <= j < self.nodes_spec().len() && self.nodes_spec()[j] == node;
            }
        }
        None
    }

    /// Adds a label if it is new and returns its position either way.
    pub fn add_node(&mut self, node: u64) -> (r: usize)
        requires
            old(self).well_formed(),
            old(self).nodes_spec().len() < usize::MAX,
        ensures
            final(self).well_formed(),
            final(self).has_node(node),
            r == final(self).index_of(node),
            r < final(self).nodes_spec().len(),
            final(self).nodes_spec()[r as int] == node,
            old(self).has_node(node) ==> *final(self) == *old(self),
            !old(self).has_node(node) ==> final(self).nodes_spec() == old(self).nodes_spec().push(
                node,
            ) && final(self).edges_spec() == old(self).edges_spec().push(Seq::<usize>::empty()),
    {
        match self.find_node(node) {
            Some(i) => i,
            None => {
                let ghost pre = *self;
                let index = self.nodes.len();
                self.nodes.push(node);
                self.edges.push(Vec::new());
                proof {
                    assert(self.edges_spec() =~= pre.edges_spec().push(Seq::<usize>::empty()));
                    assert(self.nodes_spec()[index as int] == node);
                    assert forall|i: int, j: int|
                        0 <= i < j < self.nodes@.len() implies self.nodes@[i] != self.nodes@[j] by {
                        if j == index {
                            assert(pre.nodes_spec()[i] == self.nodes@[i]);
                            if self.nodes@[i] == node {
                                assert(pre.has_node(node));
                            }
                        }
                    }
                    let k = choose|k: int|
                        0 <= k < self.nodes_spec().len() && self.nodes_spec()[k] == node;
                    assert(k == index) by {
                        if k < index {
                            assert(pre.nodes_spec()[k] == node);
                            assert(pre.has_node(node));
                        }
                    }
                }
                index
            },
        }
    }

    /// Adds both labels as needed and an edge from the first to the second.
    pub fn add_edge(&mut self, from: u64, to: u64)
        requires
            old(self).well_formed(),
            old(self).nodes_spec().len() + 2 <= usize::MAX,
        ensures
            final(self).well_formed(),
            final(self).has_node(from),
            final(self).has_node(to),
            final(self).edges_spec()[final(self).index_of(from)] == if old(self).has_node(from)
                && old(self).has_node(to) {
                old(self).edges_spec()[old(self).index_of(from)].push(
                    final(self).index_of(to) as usize,
                )
            } else {
                final(self).edges_spec()[final(self).index_of(from)]
            },
    {
        let ghost pre = *self;
        let from_idx = self.add_node(from);
        let to_idx = self.add_node(to);
        let ghost mid = *self;
        proof {
            assert(mid.nodes_spec()[from_idx as int] == from);
            assert(mid.nodes_spec()[to_idx as int] == to);
        }
        let mut row = self.edges.remove(from_idx);
        row.push(to_idx);
        self.edges.insert(from_idx, row);
        proof {
            assert(self.nodes@ == mid.nodes@);
            assert(self.edges@ =~= mid.edges@.update(
                from_idx as int,
                self.edges@[from_idx as int],
            ));
            assert(self.edges@[from_idx as int]@ =~= mid.edges_spec()[from_idx as int].push(
                to_idx,
            ));
            assert forall|i: int, j: int|
                0 <= i < self.edges@.len() && 0 <= j
                    < self.edges@[i]@.len() implies (#[trigger] self.edges@[i]@[j])
                < self.nodes@.len() by {
                if i != from_idx {
                    assert(self.edges@[i] == mid.edges@[i]);
                } else {
                    if j < self.edges@[i]@.len() - 1 {
                        assert(self.edges@[i]@[j] == mid.edges@[i]@[j]);
                    } else {
                        assert(self.edges@[i]@[j] == to_idx);
                    }
                }
            }
            assert(self.nodes_spec()[from_idx as int] == from);
            assert(self.nodes_spec()[to_idx as int] == to);
            assert(self.has_node(from) && self.has_node(to));
            let cf = self.index_of(from);
            assert(0 <= cf < self.nodes_spec().len() && self.nodes_spec()[cf] == from);
            assert(cf == from_idx);
            let ct = self.index_of(to);
            assert(0 <= ct < self.nodes_spec().len() && self.nodes_spec()[ct] == to);
            assert(ct == to_idx);
            assert(self.edges_spec()[from_idx as int] == mid.edges_spec()[from_idx as int].push(
                to_idx,
            ));
            if pre.has_node(from) && pre.has_node(to) {
                assert(mid == pre);
                assert(mid.index_of(from) == from_idx);
                assert(mid.edges_spec()[from_idx as int] == pre.edges_spec()[pre.index_of(from)]);
            }
        }
    }

    /// The outgoing edge targets of a label the graph holds.
    pub fn get_neighbors(&self, node: &u64) -> (r: Option<&Vec<usize>>)
        requires
            self.well_formed(),
        ensures
            match r {
                Some(v) => self.has_node(*node) && v@ == self.edges_spec()[self.index_of(*node)],
                None => !self.has_node(*node),
            },
    {
        match self.find_node(*node) {
            Some(i) => Some(&self.edges[i]),
            None => None,
        }
    }

    pub fn node_count(&self) -> (r: usize)
        ensures
            r == self.nodes_spec().len(),
    {
        self.nodes.len()
    }
}


/// The queue's indices as mathematical integers.
pub open spec fn ints_of(q: Seq<usize>) -> Seq<int> {
    Seq::new(q.len(), |i: int| q[i] as int)
}

/// No value appears twice.
pub open spec fn distinct_ints(s: Seq<int>) -> bool {
    forall|i: int, j: int| 0 <= i < j < s.len() ==> s[i] != s[j]
}

/// How many positions still hold `false`.
pub open spec fn count_false(s: Seq<bool>) -> nat
    decreases s.len(),
{
    if s.len() == 0 {
        0
    } else {
        count_false(s.drop_last()) + (if s.last() {
            0nat
        } else {
            1nat
        })
    }
}

proof fn lemma_distinct_bounded(s: Seq<int>, n: int)
    requires
        distinct_ints(s),
        forall|k: int| 0 <= k < s.len() ==> 0 <= #[trigger] s[k] < n,
        0 <= n,
    ensures
        s.len() <= n,
{
    assert(s.no_duplicates());
    s.unique_seq_to_set();
    assert(s.to_set().subset_of(vstd::set_lib::set_int_range(0, n)));
    vstd::set_lib::lemma_int_range(0, n);
    vstd::set_lib::lemma_len_subset(s.to_set(), vstd::set_lib::set_int_range(0, n));
}

proof fn lemma_count_false_update(s: Seq<bool>, i: int)
    requires
        0 <= i < s.len(),
        !s[i],
    ensures
        count_false(s.update(i, true)) == count_false(s) - 1,
    decreases s.len(),
{
    let t = s.update(i, true);
    if i == s.len() - 1 {
        assert(t.drop_last() =~= s.drop_last());
    } else {
        assert(t.drop_last() =~= s.drop_last().update(i, true));
        assert(t.last() == s.last());
        lemma_count_false_update(s.drop_last(), i);
    }
}

proof fn lemma_count_false_monotone(a: Seq<bool>, b: Seq<bool>)
    requires
        a.len() == b.len(),
        forall|i: int| 0 <= i < a.len() && a[i] ==> #[trigger] b[i],
    ensures
        count_false(b) <= count_false(a),
    decreases a.len(),
{
    if a.len() > 0 {
        lemma_count_false_monotone(a.drop_last(), b.drop_last());
        assert(a.last() ==> b.last());
    }
}

impl Graph {
    /// The labels reachable from `start` in breadth-first order: every
    /// returned label is a node of the graph, none repeats, and the walk
    /// begins at `start`. An unknown start yields nothing.
    pub fn bfs(&self, start: &u64) -> (r: Vec<u64>)
        requires
            self.well_formed(),
        ensures
            !self.has_node(*start) ==> r@ == Seq::<u64>::empty(),
            self.has_node(*start) ==> r@.len() >= 1 && r@[0] == *start,
            forall|k: int| 0 <= k < r@.len() ==> self.nodes_spec().contains(#[trigger] r@[k]),
            forall|k: int, m: int| 0 <= k < m < r@.len() ==> r@[k] != r@[m],
            forall|u: int, e: int|
                0 <= u < self.nodes_spec().len() && r@.contains(self.nodes_spec()[u]) && 0 <= e
                    < self.edges_spec()[u].len() ==> r@.contains(
                    self.nodes_spec()[#[trigger] self.edges_spec()[u][e] as int],
                ),
    {
        let start_idx = match self.find_node(*start) {
            Some(i) => i,
            None => {
                let empty: Vec<u64> = Vec::new();
                proof {
                    assert(empty@ =~= Seq::<u64>::empty());
                }
                return empty;
            },
        };
        let n = self.nodes.len();
        let mut visited: Vec<bool> = vec![false; n];
        let mut queue: VecDeque<usize> = VecDeque::new();
        let mut result: Vec<u64> = Vec::new();
        queue.push_back(start_idx);
        visited.set(start_idx, true);
        let ghost mut done: Seq<int> = Seq::empty();
        proof {
            assert(done + ints_of(queue@) =~= seq![start_idx as int]);
            assert forall|i: int|
                0 <= i < n implies visited@[i] == (done + ints_of(queue@)).contains(i) by {
                if i == start_idx {
                    assert((done + ints_of(queue@))[0] == i);
                } else {
                    if (done + ints_of(queue@)).contains(i) {
                        let w = choose|w: int|
                            0 <= w < (done + ints_of(queue@)).len() && (done + ints_of(queue@))[w]
                                == i;
                        assert(w == 0);
                    }
                }
            }
        }
        while queue.len() > 0
            invariant
                self.well_formed(),
                n == self.nodes@.len(),
                visited@.len() == n,
                start_idx < n,
                self.nodes@[start_idx as int] == *start,
                forall|k: int|
                    0 <= k < (done + ints_of(queue@)).len() ==> 0 <= #[trigger] (done + ints_of(
                        queue@,
                    ))[k] < n,
                distinct_ints(done + ints_of(queue@)),
                forall|i: int| 0 <= i < n ==> visited@[i] == (done + ints_of(queue@)).contains(i),
                result@.len() == done.len(),
                forall|k: int|
                    0 <= k < done.len() ==> #[trigger] result@[k] == self.nodes@[done[k]],
                done.len() == 0 ==> ints_of(queue@) =~= seq![start_idx as int],
                done.len() > 0 ==> done[0] == start_idx,
                forall|u: int, e: int|
                    done.contains(u) && 0 <= e < self.edges@[u]@.len() ==> (done + ints_of(
                        queue@,
                    )).contains(#[trigger] self.edges@[u]@[e] as int),
            decreases n - done.len(),
        {
            proof {
                lemma_distinct_bounded(done + ints_of(queue@), n as int);
            }
            let ghost all_pre = done + ints_of(queue@);
            let ghost q_pre = queue@;
            let cur = match queue.pop_front() {
                Some(c) => c,
                None => {
                    proof {
                        assert(false);
                    }
                    0
                },
            };
            proof {
                assert(ints_of(q_pre)[0] == cur as int);
                assert(all_pre[done.len() as int] == cur as int);
                assert(0 <= cur < n);
            }
            result.push(self.nodes[cur]);
            proof {
                assert(ints_of(q_pre) =~= seq![cur as int] + ints_of(queue@));
                done = done.push(cur as int);
                assert(done + ints_of(queue@) =~= all_pre);
                assert(done[0] == all_pre[0]);
                assert(done[0] == start_idx as int) by {
                    if done.len() == 1 {
                        assert(all_pre[0] == cur as int);
                    }
                }
                assert(result@[done.len() - 1] == self.nodes@[done[done.len() - 1]]);
                assert forall|u: int| done.drop_last().contains(u) implies done.contains(u) by {
                    let w = choose|w: int|
                        0 <= w < done.drop_last().len() && done.drop_last()[w] == u;
                    assert(done[w] == u);
                }
            }
            let row_len = self.edges[cur].len();
            let mut j: usize = 0;
            while j < row_len
                invariant
                    self.well_formed(),
                    n == self.nodes@.len(),
                    visited@.len() == n,
                    cur < n,
                    row_len == self.edges@[cur as int]@.len(),
                    j <= row_len,
                    forall|k: int|
                        0 <= k < (done + ints_of(queue@)).len() ==> 0 <= #[trigger] (done
                            + ints_of(queue@))[k] < n,
                    distinct_ints(done + ints_of(queue@)),
                    forall|i: int|
                        0 <= i < n ==> visited@[i] == (done + ints_of(queue@)).contains(i),
                    result@.len() == done.len(),
                    forall|k: int|
                        0 <= k < done.len() ==> #[trigger] result@[k] == self.nodes@[done[k]],
                    done.len() > 0 && done[0] == start_idx,
                    done.last() == cur as int,
                    forall|u: int, e: int|
                        done.drop_last().contains(u) && 0 <= e < self.edges@[u]@.len() ==> (done
                            + ints_of(queue@)).contains(#[trigger] self.edges@[u]@[e] as int),
                    forall|e: int|
                        0 <= e < j ==> (done + ints_of(queue@)).contains(
                            #[trigger] self.edges@[cur as int]@[e] as int,
                        ),
                decreases row_len - j,
            {
                let nb = self.edges[cur][j];
                let ghost all_at_head = done + ints_of(queue@);
                proof {
                    assert(self.edges@[cur as int]@[j as int] == nb);
                }
                if !visited[nb] {
                    let ghost all_before = done + ints_of(queue@);
                    visited.set(nb, true);
                    queue.push_back(nb);
                    proof {
                        assert(ints_of(queue@) =~= ints_of(queue@.drop_last()).push(nb as int));
                        assert(done + ints_of(queue@) =~= all_before.push(nb as int));
                        assert(!all_before.contains(nb as int));
                        let all_now = done + ints_of(queue@);
                        assert forall|a: int, b: int|
                            0 <= a < b < all_now.len() implies all_now[a] != all_now[b] by {
                            if b == all_now.len() - 1 {
                                assert(all_now[a] == all_before[a]);
                                if all_now[a] == nb as int {
                                    assert(all_before.contains(nb as int));
                                }
                            } else {
                                assert(all_now[a] == all_before[a] && all_now[b] == all_before[b]);
                            }
                        }
                        assert forall|i: int|
                            0 <= i < n implies visited@[i] == all_now.contains(i) by {
                            if i == nb {
                                assert(all_now[all_now.len() - 1] == i);
                            } else {
                                if all_before.contains(i) {
                                    let w = choose|w: int|
                                        0 <= w < all_before.len() && all_before[w] == i;
                                    assert(all_now[w] == i);
                                }
                                if all_now.contains(i) {
                                    let w = choose|w: int|
                                        0 <= w < all_now.len() && all_now[w] == i;
                                    assert(w < all_before.len());
                                    assert(all_before[w] == i);
                                }
                            }
                        }
                        assert forall|x: int|
                            all_at_head.contains(x) implies all_now.contains(x) by {
                            let w = choose|w: int|
                                0 <= w < all_at_head.len() && all_at_head[w] == x;
                            assert(all_now[w] == x);
                        }
                        assert(all_now.contains(nb as int)) by {
                            assert(all_now[all_now.len() - 1] == nb as int);
                        }
                        assert forall|u: int, e: int|
                            done.drop_last().contains(u) && 0 <= e
                                < self.edges@[u]@.len() implies all_now.contains(
                            #[trigger] self.edges@[u]@[e] as int,
                        ) by {
                            assert(all_at_head.contains(self.edges@[u]@[e] as int));
                        }
                        assert forall|e: int|
                            0 <= e < j + 1 implies all_now.contains(
                            #[trigger] self.edges@[cur as int]@[e] as int,
                        ) by {
                            if e < j {
                                assert(all_at_head.contains(self.edges@[cur as int]@[e] as int));
                            }
                        }
                    }
                } else {
                    proof {
                        assert(all_at_head.contains(nb as int));
                    }
                }
                j = j + 1;
            }
            proof {
                assert forall|u: int, e: int|
                    done.contains(u) && 0 <= e < self.edges@[u]@.len() implies (done + ints_of(
                    queue@,
                )).contains(#[trigger] self.edges@[u]@[e] as int) by {
                    let w = choose|w: int| 0 <= w < done.len() && done[w] == u;
                    if w == done.len() - 1 {
                        assert(u == cur as int);
                    } else {
                        assert(done.drop_last()[w] == u);
                        assert(done.drop_last().contains(u));
                    }
                }
            }
        }
        proof {
            assert(ints_of(queue@) =~= Seq::<int>::empty());
            assert(done + ints_of(queue@) =~= done);
            assert(visited@[start_idx as int]);
            assert(done.contains(start_idx as int));
            assert(done.len() > 0);
            assert(result@[0] == self.nodes@[start_idx as int]);
            assert forall|k: int|
                0 <= k < result@.len() implies self.nodes_spec().contains(#[trigger] result@[k]) by {
                assert(result@[k] == self.nodes@[done[k]]);
            }
            assert forall|k: int, m: int|
                0 <= k < m < result@.len() implies result@[k] != result@[m] by {
                assert(result@[k] == self.nodes@[done[k]]);
                assert(result@[m] == self.nodes@[done[m]]);
                assert(done[k] != done[m]);
            }
            assert forall|u: int, e: int|
                0 <= u < self.nodes_spec().len() && result@.contains(self.nodes_spec()[u]) && 0
                    <= e < self.edges_spec()[u].len() implies result@.contains(
                self.nodes_spec()[#[trigger] self.edges_spec()[u][e] as int],
            ) by {
                let k = choose|k: int| 0 <= k < result@.len() && result@[k] == self.nodes@[u];
                assert(result@[k] == self.nodes@[done[k]]);
                assert(done[k] == u);
                assert(done.contains(u));
                let tgt = self.edges@[u]@[e] as int;
                assert(done.contains(tgt));
                let w = choose|w: int| 0 <= w < done.len() && done[w] == tgt;
                assert(result@[w] == self.nodes@[tgt]);
            }
        }
        result
    }

    /// The labels reachable from `start` in depth-first order, with the same
    /// guarantees as the breadth-first walk.
    pub fn dfs(&self, start: &u64) -> (r: Vec<u64>)
        requires
            self.well_formed(),
        ensures
            !self.has_node(*start) ==> r@ == Seq::<u64>::empty(),
            self.has_node(*start) ==> r@.len() >= 1 && r@[0] == *start,
            forall|k: int| 0 <= k < r@.len() ==> self.nodes_spec().contains(#[trigger] r@[k]),
            forall|k: int, m: int| 0 <= k < m < r@.len() ==> r@[k] != r@[m],
            forall|u: int, e: int|
                0 <= u < self.nodes_spec().len() && r@.contains(self.nodes_spec()[u]) && 0 <= e
                    < self.edges_spec()[u].len() ==> r@.contains(
                    self.nodes_spec()[#[trigger] self.edges_spec()[u][e] as int],
                ),
    {
        let start_idx = match self.find_node(*start) {
            Some(i) => i,
            None => {
                let empty: Vec<u64> = Vec::new();
                proof {
                    assert(empty@ =~= Seq::<u64>::empty());
                }
                return empty;
            },
        };
        let n = self.nodes.len();
        let mut visited: Vec<bool> = vec![false; n];
        let mut result: Vec<u64> = Vec::new();
        self.dfs_recursive(start_idx, &mut visited, &mut result);
        proof {
            assert(result@[0] == self.nodes@[start_idx as int]);
            assert forall|k: int|
                0 <= k < result@.len() implies self.nodes_spec().contains(#[trigger] result@[k]) by {
                let w = choose|w: int|
                    0 <= w < self.nodes@.len() && visited@[w] && self.nodes@[w] == result@[k];
            }
            assert forall|u: int, e: int|
                0 <= u < self.nodes_spec().len() && result@.contains(self.nodes_spec()[u]) && 0
                    <= e < self.edges_spec()[u].len() implies result@.contains(
                self.nodes_spec()[#[trigger] self.edges_spec()[u][e] as int],
            ) by {
                let k = choose|k: int| 0 <= k < result@.len() && result@[k] == self.nodes@[u];
                let w = choose|w: int|
                    0 <= w < self.nodes@.len() && visited@[w] && self.nodes@[w] == result@[k];
                assert(w == u);
                assert(visited@[u]);
                let tgt = self.edges@[u]@[e] as int;
                assert(visited@[tgt]);
            }
        }
        result
    }

    fn dfs_recursive(&self, node: usize, visited: &mut Vec<bool>, result: &mut Vec<u64>)
        requires
            self.well_formed(),
            node < self.nodes@.len(),
            old(visited)@.len() == self.nodes@.len(),
            !old(visited)@[node as int],
            forall|k: int, m: int| 0 <= k < m < old(result)@.len() ==> old(result)@[k] != old(result)@[m],
            forall|k: int|
                0 <= k < old(result)@.len() ==> exists|w: int|
                    0 <= w < self.nodes@.len() && old(visited)@[w] && self.nodes@[w] == #[trigger] old(result)@[k],
        ensures
            final(visited)@.len() == old(visited)@.len(),
            forall|i: int|
                0 <= i < old(visited)@.len() && old(visited)@[i] ==> #[trigger] final(visited)@[i],
            final(visited)@[node as int],
            forall|k: int, m: int|
                0 <= k < m < final(result)@.len() ==> final(result)@[k] != final(result)@[m],
            forall|k: int|
                0 <= k < final(result)@.len() ==> exists|w: int|
                    0 <= w < self.nodes@.len() && final(visited)@[w] && self.nodes@[w]
                        == #[trigger] final(result)@[k],
            forall|u: int, e: int|
                0 <= u < self.nodes@.len() && final(visited)@[u] && !old(visited)@[u] && 0 <= e
                    < self.edges@[u]@.len() ==> final(visited)@[#[trigger] self.edges@[u]@[e] as int],
            forall|u: int|
                0 <= u < self.nodes@.len() && #[trigger] final(visited)@[u] && !old(visited)@[u]
                    ==> final(result)@.contains(self.nodes@[u]),
            final(result)@.len() > old(result)@.len(),
            final(result)@.subrange(0, old(result)@.len() as int) == old(result)@,
            final(result)@[old(result)@.len() as int] == self.nodes@[node as int],
        decreases count_false(old(visited)@),
    {
        let ghost pre_visited = visited@;
        let ghost pre_result = result@;
        visited.set(node, true);
        result.push(self.nodes[node]);
        proof {
            lemma_count_false_update(pre_visited, node as int);
            assert forall|k: int, m: int|
                0 <= k < m < result@.len() implies result@[k] != result@[m] by {
                if m == result@.len() - 1 {
                    let w = choose|w: int|
                        0 <= w < self.nodes@.len() && pre_visited[w] && self.nodes@[w]
                            == result@[k];
                    assert(w != node);
                }
            }
            assert forall|k: int|
                0 <= k < result@.len() implies exists|w: int|
                0 <= w < self.nodes@.len() && visited@[w] && self.nodes@[w] == #[trigger] result@[k] by {
                if k < result@.len() - 1 {
                    let w = choose|w: int|
                        0 <= w < self.nodes@.len() && pre_visited[w] && self.nodes@[w]
                            == result@[k];
                    assert(visited@[w]);
                } else {
                    assert(visited@[node as int] && self.nodes@[node as int] == result@[k]);
                }
            }
            assert(result@.subrange(0, pre_result.len() as int) =~= pre_result);
            assert forall|i: int|
                0 <= i < pre_visited.len() && pre_visited[i] implies #[trigger] visited@[i] by {
                assert(visited@ == pre_visited.update(node as int, true));
            }
            assert(result@.contains(self.nodes@[node as int])) by {
                assert(result@[result@.len() - 1] == self.nodes@[node as int]);
            }
        }
        let row_len = self.edges[node].len();
        let mut j: usize = 0;
        while j < row_len
            invariant
                self.well_formed(),
                node < self.nodes@.len(),
                row_len == self.edges@[node as int]@.len(),
                j <= row_len,
                pre_visited == old(visited)@,
                pre_result == old(result)@,
                pre_visited.len() == self.nodes@.len(),
                visited@.len() == self.nodes@.len(),
                visited@[node as int],
                forall|i: int|
                    0 <= i < pre_visited.len() && pre_visited[i] ==> #[trigger] visited@[i],
                count_false(visited@) < count_false(pre_visited),
                forall|k: int, m: int| 0 <= k < m < result@.len() ==> result@[k] != result@[m],
                forall|k: int|
                    0 <= k < result@.len() ==> exists|w: int|
                        0 <= w < self.nodes@.len() && visited@[w] && self.nodes@[w]
                            == #[trigger] result@[k],
                forall|u: int, e: int|
                    0 <= u < self.nodes@.len() && visited@[u] && !pre_visited[u] && u != node && 0
                        <= e < self.edges@[u]@.len() ==> visited@[
                        #[trigger] self.edges@[u]@[e] as int
                    ],
                forall|e: int|
                    0 <= e < j ==> visited@[#[trigger] self.edges@[node as int]@[e] as int],
                forall|u: int|
                    0 <= u < self.nodes@.len() && #[trigger] visited@[u] && !pre_visited[u]
                        ==> result@.contains(self.nodes@[u]),
                result@.len() > pre_result.len(),
                result@.subrange(0, pre_result.len() as int) == pre_result,
                result@[pre_result.len() as int] == self.nodes@[node as int],
            decreases row_len - j,
        {
            let nb = self.edges[node][j];
            if !visited[nb] {
                let ghost mid_visited = visited@;
                let ghost mid_result = result@;
                self.dfs_recursive(nb, visited, result);
                proof {
                    lemma_count_false_monotone(mid_visited, visited@);
                    assert(count_false(visited@) < count_false(pre_visited));
                    assert forall|i: int|
                        0 <= i < pre_visited.len() && pre_visited[i] implies #[trigger] visited@[i] by {
                        assert(mid_visited[i]);
                    }
                    assert(visited@[node as int]) by {
                        assert(mid_visited[node as int]);
                    }
                    assert(result@.subrange(0, mid_result.len() as int) == mid_result);
                    assert(result@.subrange(0, pre_result.len() as int) =~= result@.subrange(
                        0,
                        mid_result.len() as int,
                    ).subrange(0, pre_result.len() as int));
                    assert(mid_result.subrange(0, pre_result.len() as int) == pre_result);
                    assert(result@[pre_result.len() as int] == result@.subrange(
                        0,
                        mid_result.len() as int,
                    )[pre_result.len() as int]);
                    assert forall|u: int, e: int|
                        0 <= u < self.nodes@.len() && visited@[u] && !pre_visited[u] && u != node
                            && 0 <= e < self.edges@[u]@.len() implies visited@[
                        #[trigger] self.edges@[u]@[e] as int
                    ] by {
                        if mid_visited[u] {
                            assert(visited@[self.edges@[u]@[e] as int]) by {
                                assert(mid_visited[self.edges@[u]@[e] as int]);
                            }
                        }
                    }
                    assert forall|u: int|
                        0 <= u < self.nodes@.len() && #[trigger] visited@[u]
                            && !pre_visited[u] implies result@.contains(self.nodes@[u]) by {
                        if mid_visited[u] {
                            assert(mid_result.contains(self.nodes@[u]));
                            let w = choose|w: int|
                                0 <= w < mid_result.len() && mid_result[w] == self.nodes@[u];
                            assert(result@.subrange(0, mid_result.len() as int)[w]
                                == self.nodes@[u]);
                            assert(result@[w] == self.nodes@[u]);
                        } else {
                            assert(!mid_visited[u]);
                        }
                    }
                    assert forall|e: int|
                        0 <= e < j implies visited@[
                        #[trigger] self.edges@[node as int]@[e] as int
                    ] by {
                        assert(mid_visited[self.edges@[node as int]@[e] as int]);
                    }
                }
            }
            j = j + 1;
        }
        proof {
            lemma_count_false_monotone(pre_visited, visited@);
        }
    }
}


/// The labels of an index path.
pub open spec fn labels_of(g: &Graph, idxs: Seq<int>) -> Seq<u64> {
    Seq::new(idxs.len(), |k: int| g.nodes_spec()[idxs[k]])
}

/// Consecutive indices are joined by edges of the graph.
pub open spec fn is_index_path(g: &Graph, idxs: Seq<int>) -> bool {
    &&& (forall|k: int| 0 <= k < idxs.len() ==> 0 <= #[trigger] idxs[k] < g.nodes_spec().len())
    &&& (forall|k: int|
        0 <= k < idxs.len() - 1 ==> g.edges_spec()[#[trigger] idxs[k]].contains(
            idxs[k + 1] as usize,
        ))
}

/// `p` lists the labels of some edge-joined index path of `g`.
pub open spec fn is_path(g: &Graph, p: Seq<u64>) -> bool {
    exists|idxs: Seq<int>| is_index_path(g, idxs) && #[trigger] labels_of(g, idxs) == p
}

impl Graph {
    /// An unweighted shortest-path search from `start` to `end`. A returned
    /// path is genuine: it begins at `start`, ends at `end`, and every
    /// consecutive pair is joined by an edge. A missing endpoint yields
    /// nothing.
    pub fn shortest_path(&self, start: &u64, end: &u64) -> (r: Option<Vec<u64>>)
        requires
            self.well_formed(),
        ensures
            match r {
                Some(p) => {
                    &&& p@.len() >= 1
                    &&& p@[0] == *start
                    &&& p@.last() == *end
                    &&& is_path(self, p@)
                },
                None => true,
            },
            !self.has_node(*start) || !self.has_node(*end) ==> r is None,
    {
        let start_idx = match self.find_node(*start) {
            Some(i) => i,
            None => {
                return None;
            },
        };
        let end_idx = match self.find_node(*end) {
            Some(i) => i,
            None => {
                return None;
            },
        };
        let n = self.nodes.len();
        let mut distances: Vec<usize> = vec![usize::MAX; n];
        let mut previous: Vec<Option<usize>> = vec![None; n];
        let mut visited: Vec<bool> = vec![false; n];
        distances.set(start_idx, 0);
        let mut round: usize = 0;
        while round < n
            invariant
                self.well_formed(),
                n == self.nodes@.len(),
                start_idx < n,
                end_idx < n,
                round <= n,
                distances@.len() == n,
                previous@.len() == n,
                visited@.len() == n,
                distances@[start_idx as int] == 0,
                forall|v: int|
                    0 <= v < n ==> match #[trigger] previous@[v] {
                        Some(u) => u < n && self.edges_spec()[u as int].contains(v as usize)
                            && distances@[u as int] < distances@[v] && distances@[v] < usize::MAX,
                        None => true,
                    },
                forall|v: int|
                    0 <= v < n && #[trigger] distances@[v] < usize::MAX && previous@[v] is None
                        ==> v == start_idx,
            decreases n - round,
        {
            let mut min_distance: usize = usize::MAX;
            let mut min_node: Option<usize> = None;
            let mut i: usize = 0;
            while i < n
                invariant
                    n == distances@.len(),
                    n == visited@.len(),
                    i <= n,
                    match min_node {
                        Some(m) => m < n && min_distance == distances@[m as int] && min_distance
                            < usize::MAX,
                        None => min_distance == usize::MAX,
                    },
                decreases n - i,
            {
                if !visited[i] && distances[i] < min_distance {
                    min_distance = distances[i];
                    min_node = Some(i);
                }
                i = i + 1;
            }
            let current = match min_node {
                Some(m) => m,
                None => {
                    return None;
                },
            };
            visited.set(current, true);
            if current == end_idx {
                break ;
            }
            let row_len = self.edges[current].len();
            let mut j: usize = 0;
            while j < row_len
                invariant
                    self.well_formed(),
                    n == self.nodes@.len(),
                    start_idx < n,
                    current < n,
                    row_len == self.edges@[current as int]@.len(),
                    j <= row_len,
                    distances@.len() == n,
                    previous@.len() == n,
                    distances@[start_idx as int] == 0,
                    distances@[current as int] < usize::MAX,
                    forall|v: int|
                        0 <= v < n ==> match #[trigger] previous@[v] {
                            Some(u) => u < n && self.edges_spec()[u as int].contains(v as usize)
                                && distances@[u as int] < distances@[v] && distances@[v]
                                < usize::MAX,
                            None => true,
                        },
                    forall|v: int|
                        0 <= v < n && #[trigger] distances@[v] < usize::MAX && previous@[v] is None
                            ==> v == start_idx,
                decreases row_len - j,
            {
                let neighbor = self.edges[current][j];
                let new_distance = distances[current] + 1;
                if new_distance < distances[neighbor] {
                    let ghost pre_d = distances@;
                    let ghost pre_p = previous@;
                    distances.set(neighbor, new_distance);
                    previous.set(neighbor, Some(current));
                    proof {
                        assert(self.edges_spec()[current as int].contains(neighbor));
                        assert forall|v: int|
                            0 <= v < n implies match #[trigger] previous@[v] {
                            Some(u) => u < n && self.edges_spec()[u as int].contains(v as usize)
                                && distances@[u as int] < distances@[v] && distances@[v]
                                < usize::MAX,
                            None => true,
                        } by {
                            if v != neighbor {
                                assert(previous@[v] == pre_p[v]);
                                match pre_p[v] {
                                    Some(u) => {
                                        assert(pre_d[u as int] < pre_d[v]);
                                        assert(distances@[u as int] <= pre_d[u as int]);
                                    },
                                    None => {},
                                }
                            }
                        }
                    }
                }
                j = j + 1;
            }
            round = round + 1;
        }
        if distances[end_idx] == usize::MAX {
            return None;
        }
        let mut rev: Vec<usize> = Vec::new();
        rev.push(end_idx);
        let mut cur = end_idx;
        let mut step: Option<usize> = previous[cur];
        while step.is_some()
            invariant
                step == previous@[cur as int],
                self.well_formed(),
                n == self.nodes@.len(),
                start_idx < n,
                end_idx < n,
                cur < n,
                distances@.len() == n,
                previous@.len() == n,
                distances@[cur as int] < usize::MAX,
                rev@.len() >= 1,
                rev@[0] == end_idx,
                rev@.last() == cur,
                forall|k: int| 0 <= k < rev@.len() ==> (#[trigger] rev@[k]) < n,
                forall|k: int|
                    0 <= k < rev@.len() - 1 ==> self.edges_spec()[rev@[k + 1] as int].contains(
                        #[trigger] rev@[k],
                    ),
                forall|v: int|
                    0 <= v < n ==> match #[trigger] previous@[v] {
                        Some(u) => u < n && self.edges_spec()[u as int].contains(v as usize)
                            && distances@[u as int] < distances@[v] && distances@[v] < usize::MAX,
                        None => true,
                    },
                forall|v: int|
                    0 <= v < n && #[trigger] distances@[v] < usize::MAX && previous@[v] is None
                        ==> v == start_idx,
            decreases distances@[cur as int],
        {
            let prev_node = match step {
                Some(u) => u,
                None => {
                    proof {
                        assert(false);
                    }
                    0
                },
            };
            rev.push(prev_node);
            cur = prev_node;
            step = previous[cur];
        }
        proof {
            assert(cur == start_idx);
        }
        let mut path: Vec<u64> = Vec::new();
        let len = rev.len();
        let mut k: usize = 0;
        while k < len
            invariant
                self.well_formed(),
                n == self.nodes@.len(),
                len == rev@.len(),
                k <= len,
                forall|m: int| 0 <= m < rev@.len() ==> (#[trigger] rev@[m]) < n,
                path@.len() == k,
                forall|m: int|
                    0 <= m < k ==> #[trigger] path@[m] == self.nodes@[rev@[len - 1 - m] as int],
            decreases len - k,
        {
            path.push(self.nodes[rev[len - 1 - k]]);
            k = k + 1;
        }
        proof {
            let fwd = Seq::new(rev@.len(), |m: int| rev@[rev@.len() - 1 - m] as int);
            assert forall|m: int| 0 <= m < fwd.len() - 1 implies self.edges_spec()[
                #[trigger] fwd[m]
            ].contains(fwd[m + 1] as usize) by {
                let a = rev@.len() - 1 - m;
                assert(self.edges_spec()[rev@[a] as int].contains(rev@[a - 1]));
            }
            assert(is_index_path(self, fwd));
            assert(labels_of(self, fwd) =~= path@);
            assert(is_path(self, path@));
            assert(path@[0] == self.nodes@[rev@[len - 1] as int]);
            assert(rev@[len - 1] == start_idx);
            assert(path@.last() == self.nodes@[rev@[0] as int]);
        }
        Some(path)
    }
}

} // verus!
