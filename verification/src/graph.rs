//! Directed graphs over the nodes `0..l`, held as a square boolean matrix in
//! row-major order, and breadth-first search for a path with the fewest hops.

use vstd::prelude::*;

verus! {

/// `adj` has one entry for each ordered pair of the `l` nodes.
pub open spec fn is_square(adj: Seq<bool>, l: int) -> bool {
    0 <= l && adj.len() == l * l
}

/// There is an edge from `u` to `v`.
pub open spec fn has_edge(adj: Seq<bool>, l: int, u: int, v: int) -> bool {
    &&& 0 <= u < l
    &&& 0 <= v < l
    &&& adj[l * u + v]
}

/// `p` leads from `og` to `tg` along edges: it starts at `og`, ends at `tg`,
/// and each node but the last has an edge to the one after it.
pub open spec fn is_path(adj: Seq<bool>, l: int, p: Seq<usize>, og: int, tg: int) -> bool {
    &&& p.len() > 0
    &&& p[0] == og
    &&& p[p.len() - 1] == tg
    &&& forall|i: int| 0 <= i < p.len() ==> (#[trigger] p[i]) < l
    &&& forall|i: int| 0 <= i < p.len() - 1 ==> has_edge(adj, l, (#[trigger] p[i]) as int, p[i + 1] as int)
}

/// Some path leads from `og` to `tg`.
pub open spec fn reachable(adj: Seq<bool>, l: int, og: int, tg: int) -> bool {
    exists|p: Seq<usize>| is_path(adj, l, p, og, tg)
}

/// `p` leads from `og` to `tg`, and no path between them has fewer nodes.
pub open spec fn is_shortest_path(adj: Seq<bool>, l: int, p: Seq<usize>, og: int, tg: int) -> bool {
    &&& is_path(adj, l, p, og, tg)
    &&& forall|q: Seq<usize>| is_path(adj, l, q, og, tg) ==> p.len() <= q.len()
}

/// `d` is the fewest hops in which a path leads from `og` to `v`.
pub open spec fn is_distance(adj: Seq<bool>, l: int, og: int, v: int, d: int) -> bool {
    &&& exists|p: Seq<usize>| is_path(adj, l, p, og, v) && p.len() == d + 1
    &&& forall|q: Seq<usize>| is_path(adj, l, q, og, v) ==> d + 1 <= q.len()
}

/// The position of the pair `(v, i)` in a matrix of side `l` is in bounds.
pub proof fn lemma_cell_in_bounds(l: int, v: int, i: int)
    requires
        0 <= v < l,
        0 <= i < l,
    ensures
        0 <= l * v <= l * v + i < l * l,
{
    assert(0 <= l * v) by (nonlinear_arith)
        requires
            0 <= v < l,
    ;
    assert(l * v + i < l * l) by (nonlinear_arith)
        requires
            0 <= v < l,
            0 <= i < l,
    {
        assert(l * v + l <= l * l) by {
            assert(l * (v + 1) <= l * l);
            assert(l * (v + 1) == l * v + l);
        }
    }
}

/// The nodes that `v` has an edge to, in rising order.
pub fn neighs(adj: &Vec<bool>, l: usize, v: usize) -> (ns: Vec<usize>)
    requires
        is_square(adj@, l as int),
        v < l,
    ensures
        forall|k: int| 0 <= k < ns.len() ==> has_edge(adj@, l as int, v as int, (#[trigger] ns[k]) as int),
        forall|i: int| has_edge(adj@, l as int, v as int, i) ==> ns@.contains(i as usize),
        forall|j: int, k: int| 0 <= j < k < ns.len() ==> ns[j] < ns[k],
{
    let mut ns: Vec<usize> = Vec::new();
    let mut i: usize = 0;
    while i < l
        invariant
            is_square(adj@, l as int),
            v < l,
            i <= l,
            forall|k: int| 0 <= k < ns.len() ==> (#[trigger] ns[k]) < i && has_edge(adj@, l as int, v as int, ns[k] as int),
            forall|n: int| 0 <= n < i && has_edge(adj@, l as int, v as int, n) ==> ns@.contains(n as usize),
            forall|j: int, k: int| 0 <= j < k < ns.len() ==> ns[j] < ns[k],
        decreases l - i,
    {
        proof {
            lemma_cell_in_bounds(l as int, v as int, i as int);
            assert(adj@.len() == (l as int) * (l as int));
            assert((l as int) * (v as int) + (i as int) < adj.len());
        }
        if adj[l * v + i] {
            let ghost before = ns@;
            ns.push(i);
            assert(ns@[before.len() as int] == i);
            assert forall|n: int| 0 <= n < i + 1 && has_edge(adj@, l as int, v as int, n) implies ns@.contains(n as usize) by {
                if n < i {
                    assert(before.contains(n as usize));
                    let k = choose|k: int| 0 <= k < before.len() && before[k] == n as usize;
                    assert(ns@[k] == n as usize);
                }
            }
        }
        i += 1;
    }
    ns
}

/// The number of `true` entries of `s`.
spec fn count_true(s: Seq<bool>) -> nat
    decreases s.len(),
{
    if s.len() == 0 {
        0
    } else {
        count_true(s.drop_last()) + if s.last() {
            1nat
        } else {
            0nat
        }
    }
}

proof fn lemma_count_true_bound(s: Seq<bool>)
    ensures
        count_true(s) <= s.len(),
    decreases s.len(),
{
    if s.len() > 0 {
        lemma_count_true_bound(s.drop_last());
    }
}

proof fn lemma_count_true_set(s: Seq<bool>, i: int)
    requires
        0 <= i < s.len(),
        !s[i],
    ensures
        count_true(s.update(i, true)) == count_true(s) + 1,
    decreases s.len(),
{
    let t = s.update(i, true);
    if i == s.len() - 1 {
        assert(t.drop_last() =~= s.drop_last());
    } else {
        lemma_count_true_set(s.drop_last(), i);
        assert(t.drop_last() =~= s.drop_last().update(i, true));
    }
}

/// A breadth-first search from one node, as far as it has come.
struct Search {
    /// Whether each node has been found.
    seen: Vec<bool>,
    /// For a node that has been found, the hops from the origin to it.
    dist: Vec<usize>,
    /// For a node that has been found, the node it was found from.
    from: Vec<usize>,
    /// The nodes that have been found, in the order in which they were.
    queue: Vec<usize>,
    /// The nodes of `queue` before this place have had their edges followed.
    head: usize,
    /// Where in `queue` each node that has been found stands.
    pos: Ghost<Seq<int>>,
}

impl Search {
    /// What holds of a search from `og` in the graph `adj` while it runs.
    spec fn ok(&self, adj: Seq<bool>, l: int, og: int) -> bool {
        let seen = self.seen@;
        let dist = self.dist@;
        let from = self.from@;
        let queue = self.queue@;
        let pos = self.pos@;
        let head = self.head as int;
        &&& is_square(adj, l)
        &&& 0 <= og < l
        &&& seen.len() == l
        &&& dist.len() == l
        &&& from.len() == l
        &&& pos.len() == l
        &&& 0 <= head <= queue.len()
        &&& queue.len() == count_true(seen)
        &&& seen[og]
        &&& dist[og] == 0
        &&& forall|i: int|
            0 <= i < queue.len() ==> {
                &&& (#[trigger] queue[i]) < l
                &&& seen[queue[i] as int]
                &&& dist[queue[i] as int] <= i
            }
        &&& forall|v: int|
            0 <= v < l && seen[v] ==> 0 <= (#[trigger] pos[v]) < queue.len() && queue[pos[v]] == v
        &&& forall|i: int, j: int|
            0 <= i <= j < queue.len() ==> dist[(#[trigger] queue[i]) as int] <= dist[(
            #[trigger] queue[j]) as int]
        &&& forall|j: int|
            head < queue.len() && 0 <= j < queue.len() ==> dist[(#[trigger] queue[j]) as int]
                <= dist[queue[head] as int] + 1
        &&& forall|v: int|
            0 <= v < l && seen[v] && v != og ==> {
                &&& (#[trigger] from[v]) < l
                &&& seen[from[v] as int]
                &&& dist[v] == dist[from[v] as int] + 1
                &&& has_edge(adj, l, from[v] as int, v)
            }
        &&& forall|i: int, n: int|
            0 <= i < head && #[trigger] has_edge(adj, l, queue[i] as int, n) ==> seen[n] && dist[n]
                <= dist[queue[i] as int] + 1
    }

    /// Every node found at a distance under `bound` has had its edges followed.
    spec fn followed_below(&self, bound: int) -> bool {
        forall|v: int|
            0 <= v < self.seen@.len() && self.seen@[v] && self.dist@[v] < bound ==> (
            #[trigger] self.pos@[v]) < self.head
    }

    /// Every node that a path of at most `bound` hops reaches has been found,
    /// at a distance of no more hops than the path has, once every node found
    /// at a distance under `bound` has had its edges followed.
    proof fn lemma_found_within(&self, adj: Seq<bool>, l: int, og: int, bound: int, p: Seq<usize>, x: int)
        requires
            self.ok(adj, l, og),
            is_path(adj, l, p, og, x),
            self.followed_below(bound),
            p.len() - 1 <= bound,
        ensures
            0 <= x < l,
            self.seen@[x],
            self.dist@[x] <= p.len() - 1,
        decreases p.len(),
    {
        if p.len() > 1 {
            let q = p.drop_last();
            let y = q[q.len() - 1] as int;
            assert(is_path(adj, l, q, og, y)) by {
                assert forall|i: int| 0 <= i < q.len() - 1 implies has_edge(
                    adj,
                    l,
                    (#[trigger] q[i]) as int,
                    q[i + 1] as int,
                ) by {
                    assert(q[i] == p[i]);
                    assert(q[i + 1] == p[i + 1]);
                }
            }
            self.lemma_found_within(adj, l, og, bound, q, y);
            assert(p[p.len() - 2] == y);
            assert(has_edge(adj, l, p[p.len() - 2] as int, p[p.len() - 2 + 1] as int));
            assert(has_edge(adj, l, y, x));
            assert(self.seen@[y] && self.dist@[y] < bound);
            assert(self.pos@[y] < self.head);
            assert(self.queue@[self.pos@[y]] == y);
            assert(has_edge(adj, l, self.queue@[self.pos@[y]] as int, x));
        }
    }

    /// A node that has been found at a distance is reached by a path of as
    /// many hops.
    proof fn lemma_found_has_path(&self, adj: Seq<bool>, l: int, og: int, v: int) -> (p: Seq<usize>)
        requires
            self.ok(adj, l, og),
            l <= usize::MAX,
            0 <= v < l,
            self.seen@[v],
        ensures
            is_path(adj, l, p, og, v),
            p.len() == self.dist@[v] + 1,
        decreases self.dist@[v],
    {
        if v == og {
            seq![og as usize]
        } else {
            let u = self.from@[v];
            assert(u < l && self.seen@[u as int] && has_edge(adj, l, u as int, v));
            let q = self.lemma_found_has_path(adj, l, og, u as int);
            let p = q.push(v as usize);
            assert(p[q.len() - 1] == u && p[q.len() as int] == v);
            assert forall|i: int| 0 <= i < p.len() - 1 implies has_edge(
                adj,
                l,
                (#[trigger] p[i]) as int,
                p[i + 1] as int,
            ) by {
                if i < q.len() - 1 {
                    assert(p[i] == q[i]);
                    assert(p[i + 1] == q[i + 1]);
                }
            }
            p
        }
    }

    /// The search from `og` that has found `og` alone.
    fn start(adj: &Vec<bool>, l: usize, og: usize) -> (s: Search)
        requires
            is_square(adj@, l as int),
            og < l,
        ensures
            s.ok(adj@, l as int, og as int),
            s.head == 0,
    {
        let mut seen = vec![false; l];
        let dist = vec![0usize; l];
        let from = vec![og; l];
        let mut queue: Vec<usize> = Vec::new();
        proof {
            lemma_count_true_zero(seen@);
            lemma_count_true_set(seen@, og as int);
        }
        seen.set(og, true);
        queue.push(og);
        let s = Search { seen, dist, from, queue, head: 0, pos: Ghost(Seq::new(l as nat, |v: int| 0int)) };
        proof {
            assert(s.queue@[0] == og);
        }
        s
    }

    /// Records that the edge from the node at `head` to `n` has been followed.
    fn reach(&mut self, Ghost(adj): Ghost<Seq<bool>>, Ghost(og): Ghost<int>, n: usize)
        requires
            old(self).ok(adj, old(self).seen@.len() as int, og),
            old(self).head < old(self).queue@.len(),
            has_edge(
                adj,
                old(self).seen@.len() as int,
                old(self).queue@[old(self).head as int] as int,
                n as int,
            ),
        ensures
            final(self).ok(adj, old(self).seen@.len() as int, og),
            final(self).head == old(self).head,
            final(self).seen@.len() == old(self).seen@.len(),
            final(self).queue@.len() >= old(self).queue@.len(),
            final(self).queue@[old(self).head as int] == old(self).queue@[old(self).head as int],
            final(self).seen@[n as int],
            final(self).dist@[n as int] <= final(self).dist@[old(self).queue@[old(self).head as int] as int]
                + 1,
            forall|m: int|
                0 <= m < old(self).seen@.len() && old(self).seen@[m] ==> final(self).seen@[m]
                    && final(self).dist@[m] == old(self).dist@[m],
    {
        let ghost l = self.seen@.len() as int;
        let v = self.queue[self.head];
        if !self.seen[n] {
            let ghost seen0 = self.seen@;
            let ghost dist0 = self.dist@;
            let ghost from0 = self.from@;
            let ghost queue0 = self.queue@;
            let ghost pos0 = self.pos@;
            let head = self.head;
            let found = self.queue.len();
            assert(self.dist@[self.queue@[head as int] as int] <= head < found);
            let d = self.dist[v] + 1;
            self.seen.set(n, true);
            self.dist.set(n, d);
            self.from.set(n, v);
            self.queue.push(n);
            proof {
                self.pos@ = self.pos@.update(n as int, queue0.len() as int);
                let seen = self.seen@;
                let dist = self.dist@;
                let from = self.from@;
                let queue = self.queue@;
                let pos = self.pos@;
                lemma_count_true_set(seen0, n as int);
                assert forall|i: int| 0 <= i < queue0.len() implies (#[trigger] queue0[i]) != n by {
                    assert(seen0[queue0[i] as int]);
                }
                assert forall|i: int| 0 <= i < queue.len() implies {
                    &&& (#[trigger] queue[i]) < l
                    &&& seen[queue[i] as int]
                    &&& dist[queue[i] as int] <= i
                } by {
                    if i < queue0.len() {
                        assert(queue[i] == queue0[i]);
                    }
                }
                assert forall|w: int| 0 <= w < l && seen[w] implies 0 <= (#[trigger] pos[w])
                    < queue.len() && queue[pos[w]] == w by {
                    if w != n {
                        assert(seen0[w]);
                        assert(pos[w] == pos0[w]);
                        assert(queue0[pos0[w]] == w);
                    }
                }
                assert forall|i: int, j: int| 0 <= i <= j < queue.len() implies dist[(
                #[trigger] queue[i]) as int] <= dist[(#[trigger] queue[j]) as int] by {
                    if j < queue0.len() {
                        assert(queue[i] == queue0[i]);
                        assert(queue[j] == queue0[j]);
                    } else if i < queue0.len() {
                        assert(queue[i] == queue0[i]);
                        assert(dist0[queue0[i] as int] <= dist0[queue0[head as int] as int] + 1);
                    }
                }
                assert forall|j: int| head < queue.len() && 0 <= j < queue.len() implies dist[(
                #[trigger] queue[j]) as int] <= dist[queue[head as int] as int] + 1 by {
                    if j < queue0.len() {
                        assert(queue[j] == queue0[j]);
                    }
                }
                assert forall|w: int| 0 <= w < l && seen[w] && w != og implies {
                    &&& (#[trigger] from[w]) < l
                    &&& seen[from[w] as int]
                    &&& dist[w] == dist[from[w] as int] + 1
                    &&& has_edge(adj, l, from[w] as int, w)
                } by {
                    if w != n {
                        assert(seen0[w]);
                        assert(from[w] == from0[w]);
                        assert(from0[w] != n);
                    }
                }
                assert forall|i: int, m: int|
                    0 <= i < head && #[trigger] has_edge(adj, l, queue[i] as int, m) implies seen[m]
                    && dist[m] <= dist[queue[i] as int] + 1 by {
                    assert(queue[i] == queue0[i]);
                    assert(has_edge(adj, l, queue0[i] as int, m));
                    assert(seen0[m]);
                }
            }
        } else {
            proof {
                assert(self.queue@[self.pos@[n as int]] == n);
            }
        }
    }

    /// Follows every edge of the node at `head`, then moves `head` past it.
    fn expand(&mut self, adj: &Vec<bool>, Ghost(og): Ghost<int>)
        requires
            old(self).ok(adj@, old(self).seen@.len() as int, og),
            old(self).head < old(self).queue@.len(),
        ensures
            final(self).ok(adj@, old(self).seen@.len() as int, og),
            final(self).head == old(self).head + 1,
            final(self).seen@.len() == old(self).seen@.len(),
    {
        let l = self.seen.len();
        let v = self.queue[self.head];
        let ns = neighs(adj, l, v);
        let mut k: usize = 0;
        while k < ns.len()
            invariant
                self.ok(adj@, l as int, og),
                self.seen@.len() == l,
                self.head == old(self).head,
                self.head < self.queue@.len(),
                v == self.queue@[self.head as int],
                k <= ns.len(),
                forall|j: int|
                    0 <= j < ns.len() ==> has_edge(adj@, l as int, v as int, (#[trigger] ns[j]) as int),
                forall|j: int|
                    0 <= j < k ==> self.seen@[(#[trigger] ns[j]) as int] && self.dist@[ns[j] as int]
                        <= self.dist@[v as int] + 1,
            decreases ns.len() - k,
        {
            self.reach(Ghost(adj@), Ghost(og), ns[k]);
            k += 1;
        }
        proof {
            let queue = self.queue@;
            assert forall|i: int, m: int|
                0 <= i < self.head + 1 && #[trigger] has_edge(
                    adj@,
                    l as int,
                    queue[i] as int,
                    m,
                ) implies self.seen@[m] && self.dist@[m] <= self.dist@[queue[i] as int] + 1 by {
                if i == self.head {
                    assert(ns@.contains(m as usize));
                    let j = choose|j: int| 0 <= j < ns.len() && ns[j] == m as usize;
                    assert(self.seen@[ns[j] as int]);
                }
            }
            assert(forall|j: int|
                0 <= j < queue.len() ==> self.dist@[queue[self.head as int] as int] <= self.dist@[(
                #[trigger] queue[j]) as int] || j < self.head);
        }
        let found = self.queue.len();
        assert(self.head < found);
        self.head += 1;
    }

    /// The path by which `tg` was found, from `og` to `tg`.
    fn trace(&self, Ghost(adj): Ghost<Seq<bool>>, Ghost(og): Ghost<int>, tg: usize) -> (path: Vec<usize>)
        requires
            self.ok(adj, self.seen@.len() as int, og),
            tg < self.seen@.len(),
            self.seen@[tg as int],
        ensures
            is_path(adj, self.seen@.len() as int, path@, og, tg as int),
            path@.len() == self.dist@[tg as int] + 1,
    {
        let ghost l = self.seen@.len() as int;
        let d = self.dist[tg];
        let found = self.queue.len();
        proof {
            assert(self.queue@[self.pos@[tg as int]] == tg);
            assert(d <= self.pos@[tg as int] < found);
        }
        let mut path = vec![tg; d + 1];
        let mut i: usize = d;
        let mut cur: usize = tg;
        while i > 0
            invariant
                self.ok(adj, l, og),
                l == self.seen@.len(),
                path.len() == d + 1,
                i <= d,
                cur < l,
                self.seen@[cur as int],
                self.dist@[cur as int] == i,
                path[i as int] == cur,
                path[d as int] == tg,
                forall|j: int| i <= j <= d ==> (#[trigger] path[j]) < l,
                forall|j: int| i <= j < d ==> has_edge(adj, l, (#[trigger] path[j]) as int, path[j + 1] as int),
            decreases i,
        {
            let prev = self.from[cur];
            let ghost path0 = path@;
            proof {
                assert(self.from@[cur as int] == prev);
            }
            i -= 1;
            path.set(i, prev);
            proof {
                assert forall|j: int| i <= j < d implies has_edge(
                    adj,
                    l,
                    (#[trigger] path[j]) as int,
                    path[j + 1] as int,
                ) by {
                    if j > i {
                        assert(path[j] == path0[j]);
                        assert(path[j + 1] == path0[j + 1]);
                    } else {
                        assert(path[j + 1] == path0[j + 1]);
                    }
                }
            }
            cur = prev;
        }
        proof {
            assert(cur != og ==> self.dist@[cur as int] == self.dist@[self.from@[cur as int] as int] + 1);
        }
        path
    }
}

/// For each node, the fewest hops in which a path leads from `og` to it, or
/// `None` where no path leads to it.
pub fn hops(adj: &Vec<bool>, l: usize, og: usize) -> (r: Vec<Option<usize>>)
    requires
        is_square(adj@, l as int),
        og < l,
    ensures
        r.len() == l,
        forall|v: int|
            0 <= v < l ==> match #[trigger] r[v] {
                Some(d) => is_distance(adj@, l as int, og as int, v, d as int),
                None => !reachable(adj@, l as int, og as int, v),
            },
{
    let mut s = Search::start(adj, l, og);
    while s.head < s.queue.len()
        invariant
            s.ok(adj@, l as int, og as int),
        decreases l - s.head,
    {
        proof {
            lemma_count_true_bound(s.seen@);
        }
        s.expand(adj, Ghost(og as int));
    }
    let mut r: Vec<Option<usize>> = Vec::new();
    let mut v: usize = 0;
    while v < l
        invariant
            s.ok(adj@, l as int, og as int),
            s.head == s.queue@.len(),
            v <= l,
            r.len() == v,
            forall|w: int|
                0 <= w < v ==> match #[trigger] r[w] {
                    Some(d) => is_distance(adj@, l as int, og as int, w, d as int),
                    None => !reachable(adj@, l as int, og as int, w),
                },
        decreases l - v,
    {
        let ghost before = r@;
        if s.seen[v] {
            proof {
                let p = s.lemma_found_has_path(adj@, l as int, og as int, v as int);
                assert forall|q: Seq<usize>| is_path(adj@, l as int, q, og as int, v as int) implies s.dist@[v as int]
                    + 1 <= q.len() by {
                    assert(s.followed_below(q.len() - 1));
                    s.lemma_found_within(adj@, l as int, og as int, q.len() - 1, q, v as int);
                }
            }
            r.push(Some(s.dist[v]));
        } else {
            proof {
                assert forall|q: Seq<usize>| !is_path(adj@, l as int, q, og as int, v as int) by {
                    if is_path(adj@, l as int, q, og as int, v as int) {
                        assert(s.followed_below(q.len() - 1));
                        s.lemma_found_within(adj@, l as int, og as int, q.len() - 1, q, v as int);
                    }
                }
            }
            r.push(None);
        }
        proof {
            assert forall|w: int| 0 <= w < v + 1 implies match #[trigger] r[w] {
                Some(d) => is_distance(adj@, l as int, og as int, w, d as int),
                None => !reachable(adj@, l as int, og as int, w),
            } by {
                if w < v {
                    assert(r[w] == before[w]);
                }
            }
        }
        v += 1;
    }
    r
}

/// A path with the fewest hops from `og` to `tg`, both ends included, or
/// `None` where there is none: where an end is not a node, where `adj` is
/// not a square of side `l`, or where no path leads from `og` to `tg`.
///
/// The search is breadth-first: every edge costs one hop, so the first time
/// a node is found it is found by a path with the fewest hops.
pub fn shortest_path(adj: &Vec<bool>, l: usize, og: usize, tg: usize) -> (r: Option<Vec<usize>>)
    ensures
        r is None <==> (og >= l || tg >= l || !is_square(adj@, l as int) || !reachable(
            adj@,
            l as int,
            og as int,
            tg as int,
        )),
        r matches Some(p) ==> is_shortest_path(adj@, l as int, p@, og as int, tg as int),
{
    if og >= l || tg >= l {
        return None;
    }
    match l.checked_mul(l) {
        Some(cells) => {
            if adj.len() != cells {
                return None;
            }
        },
        None => {
            assert(adj@.len() == adj.len());
            return None;
        },
    }
    let mut s = Search::start(adj, l, og);
    while s.head < s.queue.len() && s.queue[s.head] != tg
        invariant
            s.ok(adj@, l as int, og as int),
            tg < l,
        decreases l - s.head,
    {
        proof {
            lemma_count_true_bound(s.seen@);
        }
        s.expand(adj, Ghost(og as int));
    }
    if !s.seen[tg] {
        proof {
            assert forall|p: Seq<usize>| !is_path(adj@, l as int, p, og as int, tg as int) by {
                if is_path(adj@, l as int, p, og as int, tg as int) {
                    assert(s.followed_below(p.len() - 1));
                    s.lemma_found_within(adj@, l as int, og as int, p.len() - 1, p, tg as int);
                }
            }
        }
        return None;
    }
    let path = s.trace(Ghost(adj@), Ghost(og as int), tg);
    proof {
        let d = s.dist@[tg as int] as int;
        assert forall|q: Seq<usize>| is_path(adj@, l as int, q, og as int, tg as int) implies path@.len()
            <= q.len() by {
            if q.len() - 1 < d {
                let bound = if s.head < s.queue.len() {
                    d
                } else {
                    q.len() - 1
                };
                assert forall|v: int| 0 <= v < l && s.seen@[v] && s.dist@[v] < bound implies (
                #[trigger] s.pos@[v]) < s.head by {
                    if s.head < s.queue.len() {
                        assert(s.queue@[s.head as int] == tg);
                        if s.pos@[v] >= s.head {
                            assert(s.dist@[s.queue@[s.head as int] as int] <= s.dist@[s.queue@[s.pos@[v]] as int]);
                        }
                    }
                }
                s.lemma_found_within(adj@, l as int, og as int, bound, q, tg as int);
            }
        }
    }
    Some(path)
}

proof fn lemma_count_true_zero(s: Seq<bool>)
    requires
        forall|i: int| 0 <= i < s.len() ==> !s[i],
    ensures
        count_true(s) == 0,
    decreases s.len(),
{
    if s.len() > 0 {
        lemma_count_true_zero(s.drop_last());
    }
}

} // verus!
