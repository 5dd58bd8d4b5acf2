//! What can be reached from an article along the links of the articles held:
//! round by round, and along routes.

use crate::article::Article;
use crate::collector::{held, views, Pages};
use crate::url::{names, URL};
use crate::urlset::{lemma_push_to_set, UrlSet};
use vstd::prelude::*;

verus! {

/// The names that the article named `u` links to, as far as it is held.
pub open spec fn links(g: Pages, u: Seq<char>) -> Set<Seq<char>> {
    if g.contains_key(u) {
        g[u].references.to_set()
    } else {
        Set::empty()
    }
}

/// The names that some article named in `s` links to.
pub open spec fn successors(g: Pages, s: Set<Seq<char>>) -> Set<Seq<char>> {
    Set::new(|v: Seq<char>| exists|u: Seq<char>| s.contains(u) && #[trigger] links(g, u).contains(v))
}

/// The names that some article named in `ns` links to.
pub open spec fn gathered(g: Pages, ns: Seq<Seq<char>>) -> Set<Seq<char>>
    decreases ns.len(),
{
    if ns.len() == 0 {
        Set::empty()
    } else {
        gathered(g, ns.drop_last()) + links(g, ns.last())
    }
}

/// The names that were in a frontier before round `k`.
pub open spec fn visited(g: Pages, start: Seq<char>, k: nat) -> Set<Seq<char>>
    decreases k, 0nat,
{
    if k == 0 {
        Set::empty()
    } else {
        visited(g, start, (k - 1) as nat) + frontier(g, start, (k - 1) as nat)
    }
}

/// The frontier of round `k`: `start` alone in round 0; after that the names
/// that the articles of the frontier before link to and that have been in no
/// frontier yet.
pub open spec fn frontier(g: Pages, start: Seq<char>, k: nat) -> Set<Seq<char>>
    decreases k, 1nat,
{
    if k == 0 {
        set![start]
    } else {
        successors(g, frontier(g, start, (k - 1) as nat)) - visited(g, start, k)
    }
}

/// The articles of every frontier before round `k` are held.
pub open spec fn explored(g: Pages, start: Seq<char>, k: nat) -> bool {
    forall|j: nat| j < k ==> (#[trigger] frontier(g, start, j)).subset_of(g.dom())
}

/// `r` leads from `og` to `tg` through `g` along links, by names of `within`
/// alone: it begins with `og`, ends with `tg`, and each article but the last
/// is held and links to the one after it.
pub open spec fn is_route(
    g: Pages,
    within: Set<Seq<char>>,
    r: Seq<Seq<char>>,
    og: Seq<char>,
    tg: Seq<char>,
) -> bool {
    &&& r.len() > 0
    &&& r[0] == og
    &&& r[r.len() - 1] == tg
    &&& forall|i: int| 0 <= i < r.len() ==> within.contains(#[trigger] r[i])
    &&& forall|i: int| 0 <= i < r.len() - 1 ==> links(g, #[trigger] r[i]).contains(r[i + 1])
}

/// Some route leads from `og` to `tg`.
pub open spec fn joined(g: Pages, within: Set<Seq<char>>, og: Seq<char>, tg: Seq<char>) -> bool {
    exists|r: Seq<Seq<char>>| is_route(g, within, r, og, tg)
}

/// `r` is a route from `og` to `tg`, and no route between them is shorter.
pub open spec fn is_shortest_route(
    g: Pages,
    within: Set<Seq<char>>,
    r: Seq<Seq<char>>,
    og: Seq<char>,
    tg: Seq<char>,
) -> bool {
    &&& is_route(g, within, r, og, tg)
    &&& forall|q: Seq<Seq<char>>| is_route(g, within, q, og, tg) ==> r.len() <= q.len()
}

/// No route leads from `og` to `tg`, and none can come of fetching more:
/// every article that a route leads to from `og` is held.
pub open spec fn parted(g: Pages, within: Set<Seq<char>>, og: Seq<char>, tg: Seq<char>) -> bool {
    &&& !joined(g, within, og, tg)
    &&& forall|u: Seq<char>| #[trigger] joined(g, within, og, u) ==> g.contains_key(u)
}

/// `gathered` does not depend on order or number.
pub proof fn lemma_gathered(g: Pages, ns: Seq<Seq<char>>)
    ensures
        gathered(g, ns) == successors(g, ns.to_set()),
    decreases ns.len(),
{
    if ns.len() == 0 {
        assert(gathered(g, ns) =~= successors(g, ns.to_set()));
    } else {
        let init = ns.drop_last();
        lemma_gathered(g, init);
        assert(init.push(ns.last()) =~= ns);
        lemma_push_to_set(init, ns.last());
        assert forall|v: Seq<char>| gathered(g, ns).contains(v) <==> successors(g, ns.to_set()).contains(
            v,
        ) by {
            if gathered(g, init).contains(v) {
                let u = choose|u: Seq<char>| init.to_set().contains(u) && #[trigger] links(g, u).contains(v);
                assert(ns.to_set().contains(u) && links(g, u).contains(v));
            }
            if links(g, ns.last()).contains(v) {
                assert(ns.to_set().contains(ns.last()));
            }
            if successors(g, ns.to_set()).contains(v) {
                let u = choose|u: Seq<char>| ns.to_set().contains(u) && #[trigger] links(g, u).contains(v);
                if u != ns.last() {
                    assert(init.to_set().contains(u) && links(g, u).contains(v));
                    assert(successors(g, init.to_set()).contains(v));
                }
            }
        }
        assert(gathered(g, ns) =~= successors(g, ns.to_set()));
    }
}

/// The articles that were in a frontier before round `k` are held, where
/// those frontiers are explored.
pub proof fn lemma_visited_is_held(g: Pages, start: Seq<char>, k: nat)
    requires
        explored(g, start, k),
    ensures
        visited(g, start, k).subset_of(g.dom()),
    decreases k,
{
    if k > 0 {
        lemma_visited_is_held(g, start, (k - 1) as nat);
        assert(frontier(g, start, (k - 1) as nat).subset_of(g.dom()));
    }
}

/// The frontier of a round holds nothing that was visited before the round.
pub proof fn lemma_frontier_is_new(g: Pages, start: Seq<char>, k: nat)
    ensures
        visited(g, start, k).disjoint(frontier(g, start, k)),
{
}

/// What was visited before a round was visited before every later round.
pub proof fn lemma_visited_grows(g: Pages, start: Seq<char>, a: nat, b: nat)
    requires
        a <= b,
    ensures
        visited(g, start, a).subset_of(visited(g, start, b)),
    decreases b,
{
    if a < b {
        lemma_visited_grows(g, start, a, (b - 1) as nat);
    }
}

/// What was visited before a round was in the frontier of a round before it.
pub proof fn lemma_visited_was_in_frontier(g: Pages, start: Seq<char>, k: nat, x: Seq<char>) -> (j: nat)
    requires
        visited(g, start, k).contains(x),
    ensures
        j < k,
        frontier(g, start, j).contains(x),
    decreases k,
{
    if frontier(g, start, (k - 1) as nat).contains(x) {
        (k - 1) as nat
    } else {
        lemma_visited_was_in_frontier(g, start, (k - 1) as nat, x)
    }
}

/// No name is in the frontiers of two rounds.
pub proof fn lemma_frontiers_are_apart(g: Pages, start: Seq<char>, a: nat, b: nat, x: Seq<char>)
    requires
        frontier(g, start, a).contains(x),
        frontier(g, start, b).contains(x),
    ensures
        a == b,
{
    if a < b {
        assert(visited(g, start, a + 1).contains(x));
        lemma_visited_grows(g, start, a + 1, b);
        assert(visited(g, start, b).contains(x));
    } else if b < a {
        assert(visited(g, start, b + 1).contains(x));
        lemma_visited_grows(g, start, b + 1, a);
        assert(visited(g, start, a).contains(x));
    }
}

/// A route from `start` of so many articles leads by articles visited
/// before the round of that number.
pub proof fn lemma_route_is_visited(g: Pages, start: Seq<char>, r: Seq<Seq<char>>, x: Seq<char>)
    requires
        is_route(g, Set::full(), r, start, x),
    ensures
        is_route(g, visited(g, start, r.len()), r, start, x),
    decreases r.len(),
{
    let n = r.len();
    if n == 1 {
        assert(frontier(g, start, 0).contains(start));
        assert(visited(g, start, 1).contains(start));
    } else {
        let init = r.drop_last();
        let y = init[init.len() - 1];
        assert(is_route(g, Set::full(), init, start, y)) by {
            assert forall|i: int| 0 <= i < init.len() - 1 implies links(g, #[trigger] init[i]).contains(
                init[i + 1],
            ) by {
                assert(init[i] == r[i]);
                assert(init[i + 1] == r[i + 1]);
            }
        }
        lemma_route_is_visited(g, start, init, y);
        lemma_visited_grows(g, start, init.len(), n);
        assert(r[n - 2] == y);
        assert(links(g, r[n - 2]).contains(r[n - 2 + 1]));
        assert(visited(g, start, init.len()).contains(init[init.len() - 1]));
        let j = lemma_visited_was_in_frontier(g, start, init.len(), y);
        assert(successors(g, frontier(g, start, j)).contains(x));
        assert(visited(g, start, j + 2).contains(x)) by {
            assert(((j + 1) - 1) as nat == j);
            assert(((j + 2) - 1) as nat == j + 1);
            if !visited(g, start, j + 1).contains(x) {
                assert(frontier(g, start, j + 1).contains(x));
            }
        }
        lemma_visited_grows(g, start, j + 2, n);
        assert forall|i: int| 0 <= i < r.len() implies visited(g, start, n).contains(#[trigger] r[i]) by {
            if i < n - 1 {
                assert(r[i] == init[i]);
                assert(visited(g, start, init.len()).contains(init[i]));
            }
        }
    }
}

/// To each name of the frontier of a round a route of as many hops leads,
/// by articles visited before the next round.
pub proof fn lemma_frontier_has_route(g: Pages, start: Seq<char>, k: nat, x: Seq<char>) -> (r: Seq<Seq<char>>)
    requires
        frontier(g, start, k).contains(x),
    ensures
        is_route(g, visited(g, start, k + 1), r, start, x),
        r.len() == k + 1,
    decreases k,
{
    assert(((k + 1) - 1) as nat == k);
    if k == 0 {
        seq![start]
    } else {
        let j = (k - 1) as nat;
        let u = choose|u: Seq<char>| frontier(g, start, j).contains(u) && #[trigger] links(g, u).contains(x);
        let q = lemma_frontier_has_route(g, start, j, u);
        lemma_visited_grows(g, start, k, k + 1);
        let r = q.push(x);
        assert(r[q.len() - 1] == u && r[q.len() as int] == x);
        assert forall|i: int| 0 <= i < r.len() - 1 implies links(g, #[trigger] r[i]).contains(r[i + 1]) by {
            if i < q.len() - 1 {
                assert(r[i] == q[i]);
                assert(r[i + 1] == q[i + 1]);
            }
        }
        assert forall|i: int| 0 <= i < r.len() implies visited(g, start, k + 1).contains(#[trigger] r[i]) by {
            if i < q.len() {
                assert(r[i] == q[i]);
                assert(visited(g, start, k).contains(q[i]));
            }
        }
        r
    }
}

/// Once a frontier is empty, nothing more is visited.
pub proof fn lemma_walk_ends(g: Pages, start: Seq<char>, k: nat, m: nat)
    requires
        frontier(g, start, k) == Set::<Seq<char>>::empty(),
        k <= m,
    ensures
        frontier(g, start, m) == Set::<Seq<char>>::empty(),
        visited(g, start, m) == visited(g, start, k),
    decreases m,
{
    if k < m {
        lemma_walk_ends(g, start, k, (m - 1) as nat);
        assert(visited(g, start, m) =~= visited(g, start, k));
        assert(frontier(g, start, m) =~= Set::<Seq<char>>::empty());
    }
}

/// A route by some names is a route by more names.
pub proof fn lemma_route_within_more(
    g: Pages,
    less: Set<Seq<char>>,
    more: Set<Seq<char>>,
    r: Seq<Seq<char>>,
    og: Seq<char>,
    tg: Seq<char>,
)
    requires
        is_route(g, less, r, og, tg),
        less.subset_of(more),
    ensures
        is_route(g, more, r, og, tg),
{
}

/// A walk from an article outwards, round by round.
pub(crate) struct Walk {
    /// The names that were in a frontier before this round.
    pub(crate) visited: UrlSet,
    /// The frontier of this round.
    pub(crate) frontier: UrlSet,
    /// Which round this is.
    pub(crate) round: Ghost<nat>,
}

impl Walk {
    /// The walk stands in its round of the walk from `start` through `g`.
    pub(crate) open spec fn ok(&self, g: Pages, start: Seq<char>) -> bool {
        &&& self.visited.wf()
        &&& self.frontier.wf()
        &&& self.visited@ == visited(g, start, self.round@)
        &&& self.frontier@ == frontier(g, start, self.round@)
    }

    /// The walk from `url` in round 0.
    pub(crate) fn start(url: &URL) -> (w: Walk)
        ensures
            w.round@ == 0,
            w.visited.order().len() == 0,
            forall|g: Pages| w.ok(g, url@),
    {
        let mut frontier = UrlSet::new();
        frontier.insert(url);
        let w = Walk { visited: UrlSet::new(), frontier, round: Ghost(0) };
        proof {
            assert(w.frontier@ =~= set![url@]);
        }
        w
    }

    /// Puts the frontier into the names visited.
    pub(crate) fn fold(&mut self)
        requires
            old(self).visited.wf(),
            old(self).frontier.wf(),
            old(self).visited@.disjoint(old(self).frontier@),
        ensures
            final(self).visited.wf(),
            final(self).frontier == old(self).frontier,
            final(self).round == old(self).round,
            final(self).visited@ == old(self).visited@ + old(self).frontier@,
            final(self).visited.order().len() == old(self).visited.order().len() + old(
                self,
            ).frontier.order().len(),
    {
        let ghost before = self.visited@;
        let ghost order = self.frontier.order();
        let items = self.frontier.as_vec();
        let mut i: usize = 0;
        proof {
            self.frontier.lemma_order();
            assert(order.take(0).to_set() =~= Set::<Seq<char>>::empty());
            assert(before + order.take(0).to_set() =~= before);
        }
        while i < items.len()
            invariant
                i <= items.len(),
                names(items@) == order,
                order.no_duplicates(),
                order.to_set() == old(self).frontier@,
                before.disjoint(old(self).frontier@),
                self.frontier == old(self).frontier,
                self.round == old(self).round,
                self.visited.wf(),
                self.visited@ == before + order.take(i as int).to_set(),
                self.visited.order().len() == old(self).visited.order().len() + i,
            decreases items.len() - i,
        {
            proof {
                assert(order.to_set().contains(order[i as int]));
                if order.take(i as int).to_set().contains(order[i as int]) {
                    let j = choose|j: int|
                        0 <= j < order.take(i as int).len() && order.take(i as int)[j] == order[i as int];
                    assert(order[j] == order[i as int]);
                }
            }
            self.visited.insert(&items[i]);
            proof {
                assert(order.take(i + 1) =~= order.take(i as int).push(order[i as int]));
                lemma_push_to_set(order.take(i as int), order[i as int]);
                assert(before + order.take(i + 1).to_set() =~= (before + order.take(i as int).to_set()).insert(
                    order[i as int],
                ));
            }
            i += 1;
        }
        proof {
            assert(order.take(order.len() as int) =~= order);
        }
    }

    /// Puts into `next` the names that `a` links to and that have not been
    /// visited.
    fn gather(&self, next: &mut UrlSet, a: &Article, Ghost(g): Ghost<Pages>, Ghost(n): Ghost<Seq<char>>)
        requires
            self.visited.wf(),
            old(next).wf(),
            g.contains_key(n),
            g[n] == a@,
        ensures
            final(next).wf(),
            final(next)@ == old(next)@ + (links(g, n) - self.visited@),
    {
        let ghost before = next@;
        let refs = a.references();
        let ghost order = names(refs@);
        let mut j: usize = 0;
        proof {
            assert(order.take(0).to_set() =~= Set::<Seq<char>>::empty());
            assert(before + (order.take(0).to_set() - self.visited@) =~= before);
        }
        while j < refs.len()
            invariant
                j <= refs.len(),
                order == names(refs@),
                self.visited.wf(),
                next.wf(),
                next@ == before + (order.take(j as int).to_set() - self.visited@),
            decreases refs.len() - j,
        {
            let ghost was = next@;
            if !self.visited.contains(&refs[j]) {
                next.insert(&refs[j]);
            }
            proof {
                assert(order.take(j + 1) =~= order.take(j as int).push(order[j as int]));
                lemma_push_to_set(order.take(j as int), order[j as int]);
                assert(next@ =~= before + (order.take(j + 1).to_set() - self.visited@));
            }
            j += 1;
        }
        proof {
            assert(order.take(order.len() as int) =~= order);
        }
    }

    /// Goes on to the next round. `arts` are the articles of the frontier.
    pub(crate) fn advance(&mut self, arts: &Vec<Article>, Ghost(g): Ghost<Pages>, Ghost(start): Ghost<Seq<char>>)
        requires
            old(self).ok(g, start),
            old(self).frontier@.subset_of(g.dom()),
            views(arts@) == held(g, old(self).frontier.order()),
        ensures
            final(self).ok(g, start),
            final(self).round@ == old(self).round@ + 1,
            final(self).visited.order().len() == old(self).visited.order().len() + old(
                self,
            ).frontier.order().len(),
    {
        let ghost order = self.frontier.order();
        proof {
            lemma_frontier_is_new(g, start, self.round@);
            self.frontier.lemma_order();
            assert(views(arts@).len() == arts.len());
            assert(held(g, order).len() == order.len());
        }
        self.fold();
        let mut next = UrlSet::new();
        let mut i: usize = 0;
        proof {
            assert(order.take(0) =~= Seq::<Seq<char>>::empty());
            assert(next@ =~= gathered(g, order.take(0)) - self.visited@);
        }
        while i < arts.len()
            invariant
                i <= arts.len(),
                arts.len() == order.len(),
                views(arts@) == held(g, order),
                order.to_set().subset_of(g.dom()),
                self.visited.wf(),
                self.visited@ == visited(g, start, old(self).round@) + frontier(g, start, old(self).round@),
                self.round == old(self).round,
                next.wf(),
                next@ == gathered(g, order.take(i as int)) - self.visited@,
            decreases arts.len() - i,
        {
            proof {
                assert(views(arts@)[i as int] == held(g, order)[i as int]);
                assert(order.to_set().contains(order[i as int]));
                assert(order.take(i + 1).drop_last() =~= order.take(i as int));
                assert(order.take(i + 1).last() == order[i as int]);
            }
            let ghost was = next@;
            self.gather(&mut next, &arts[i], Ghost(g), Ghost(order[i as int]));
            proof {
                assert(gathered(g, order.take(i + 1)) == gathered(g, order.take(i as int)) + links(
                    g,
                    order[i as int],
                ));
                assert(next@ =~= gathered(g, order.take(i + 1)) - self.visited@);
            }
            i += 1;
        }
        proof {
            assert(order.take(order.len() as int) =~= order);
            lemma_gathered(g, order);
        }
        self.frontier = next;
        proof {
            let k = old(self).round@;
            self.round@ = k + 1;
            assert(order.to_set() == frontier(g, start, k));
            assert(((k + 1) - 1) as nat == k);
            assert(visited(g, start, k + 1) == visited(g, start, k) + frontier(g, start, k));
            assert(frontier(g, start, k + 1) == successors(g, frontier(g, start, k)) - visited(
                g,
                start,
                k + 1,
            ));
        }
    }
}

} // verus!
