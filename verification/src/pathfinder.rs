//! The links among a list of articles as a matrix, and what its paths say of
//! routes among the articles.

use crate::collector::Pages;
use crate::graph::{has_edge, is_path, is_shortest_path, is_square, reachable};
use crate::reach::{is_route, is_shortest_route, joined, links, parted};
use crate::url::{names, URL};
use vstd::prelude::*;

verus! {

/// `adj` holds, for each two places of `ns`, whether the article named at
/// the first is held and links to the article named at the second.
pub open spec fn depicts(adj: Seq<bool>, g: Pages, ns: Seq<Seq<char>>) -> bool {
    &&& is_square(adj, ns.len() as int)
    &&& forall|i: int, j: int|
        0 <= i < ns.len() && 0 <= j < ns.len() ==> (#[trigger] has_edge(adj, ns.len() as int, i, j)
            == links(g, ns[i]).contains(ns[j]))
}

/// The names that stand in `ns` at the places `p`.
pub open spec fn named(ns: Seq<Seq<char>>, p: Seq<usize>) -> Seq<Seq<char>> {
    p.map_values(|i: usize| ns[i as int])
}

/// A path of the matrix is a route among the articles.
pub proof fn lemma_path_is_route(adj: Seq<bool>, g: Pages, ns: Seq<Seq<char>>, p: Seq<usize>, oi: int, ti: int)
    requires
        depicts(adj, g, ns),
        is_path(adj, ns.len() as int, p, oi, ti),
    ensures
        is_route(g, ns.to_set(), named(ns, p), ns[oi], ns[ti]),
        named(ns, p).len() == p.len(),
{
    let r = named(ns, p);
    let l = ns.len() as int;
    assert forall|i: int| 0 <= i < r.len() implies ns.to_set().contains(#[trigger] r[i]) by {
        assert(p[i] < l);
        assert(ns[p[i] as int] == r[i]);
    }
    assert forall|i: int| 0 <= i < r.len() - 1 implies links(g, #[trigger] r[i]).contains(r[i + 1]) by {
        assert(p[i] < l);
        assert(has_edge(adj, l, p[i] as int, p[i + 1] as int));
    }
}

/// A route among the articles is a path of the matrix, of the same length.
pub proof fn lemma_route_is_path(
    adj: Seq<bool>,
    g: Pages,
    ns: Seq<Seq<char>>,
    r: Seq<Seq<char>>,
    oi: int,
    ti: int,
) -> (p: Seq<usize>)
    requires
        depicts(adj, g, ns),
        ns.len() <= usize::MAX,
        0 <= oi < ns.len(),
        0 <= ti < ns.len(),
        ns[oi] == ns[ti] ==> oi == ti,
        is_route(g, ns.to_set(), r, ns[oi], ns[ti]),
    ensures
        is_path(adj, ns.len() as int, p, oi, ti),
        p.len() == r.len(),
{
    let l = ns.len() as int;
    let at = |i: int|
        if i == 0 {
            oi as usize
        } else if i == r.len() - 1 {
            ti as usize
        } else {
            (choose|j: int| 0 <= j < l && ns[j] == r[i]) as usize
        };
    let p = Seq::new(r.len(), at);
    assert forall|i: int| 0 <= i < p.len() implies (#[trigger] p[i]) < l && ns[p[i] as int] == r[i] by {
        assert(ns.to_set().contains(r[i]));
        assert(ns.contains(r[i]));
        if i != 0 && i != r.len() - 1 {
            let j = choose|j: int| 0 <= j < l && ns[j] == r[i];
            assert(0 <= j < l && ns[j] == r[i]);
        }
    }
    assert forall|i: int| 0 <= i < p.len() - 1 implies has_edge(
        adj,
        l,
        (#[trigger] p[i]) as int,
        p[i + 1] as int,
    ) by {
        assert(p[i] < l && ns[p[i] as int] == r[i]);
        assert(p[i + 1] < l && ns[p[i + 1] as int] == r[i + 1]);
        assert(links(g, r[i]).contains(r[i + 1]));
        assert(has_edge(adj, l, p[i] as int, p[i + 1] as int) == links(g, ns[p[i] as int]).contains(
            ns[p[i + 1] as int],
        ));
    }
    p
}

/// A place that the matrix reaches names an article that a route leads to.
pub proof fn lemma_reached_is_joined(adj: Seq<bool>, g: Pages, ns: Seq<Seq<char>>, oi: int, i: int)
    requires
        depicts(adj, g, ns),
        reachable(adj, ns.len() as int, oi, i),
    ensures
        joined(g, ns.to_set(), ns[oi], ns[i]),
{
    let p = choose|p: Seq<usize>| is_path(adj, ns.len() as int, p, oi, i);
    lemma_path_is_route(adj, g, ns, p, oi, i);
}

/// An article that a route leads to is named at a place that the matrix
/// reaches by a path of the same length.
pub proof fn lemma_joined_is_reached(
    adj: Seq<bool>,
    g: Pages,
    ns: Seq<Seq<char>>,
    r: Seq<Seq<char>>,
    oi: int,
    u: Seq<char>,
) -> (found: (int, Seq<usize>))
    requires
        depicts(adj, g, ns),
        ns.len() <= usize::MAX,
        0 <= oi < ns.len(),
        is_route(g, ns.to_set(), r, ns[oi], u),
    ensures
        0 <= found.0 < ns.len(),
        ns[found.0] == u,
        u == ns[oi] ==> found.0 == oi,
        is_path(adj, ns.len() as int, found.1, oi, found.0),
        found.1.len() == r.len(),
{
    assert(ns.to_set().contains(r[r.len() - 1]));
    assert(ns.contains(u));
    let i = if u == ns[oi] {
        oi
    } else {
        choose|j: int| 0 <= j < ns.len() && ns[j] == u
    };
    let p = lemma_route_is_path(adj, g, ns, r, oi, i);
    (i, p)
}

/// A shortest path of the matrix is a shortest route among the articles.
pub proof fn lemma_shortest_path_is_route(
    adj: Seq<bool>,
    g: Pages,
    ns: Seq<Seq<char>>,
    p: Seq<usize>,
    oi: int,
    ti: int,
)
    requires
        depicts(adj, g, ns),
        ns.len() <= usize::MAX,
        0 <= oi < ns.len(),
        0 <= ti < ns.len(),
        ns[oi] == ns[ti] ==> oi == ti,
        is_shortest_path(adj, ns.len() as int, p, oi, ti),
    ensures
        is_shortest_route(g, ns.to_set(), named(ns, p), ns[oi], ns[ti]),
{
    lemma_path_is_route(adj, g, ns, p, oi, ti);
    assert forall|q: Seq<Seq<char>>| is_route(g, ns.to_set(), q, ns[oi], ns[ti]) implies named(ns, p).len()
        <= q.len() by {
        let p2 = lemma_route_is_path(adj, g, ns, q, oi, ti);
    }
}

/// Where the matrix reaches no place but such whose articles are held, and
/// does not reach the target, no route leads to the target and none can
/// come of fetching more.
pub proof fn lemma_unreached_is_parted(
    adj: Seq<bool>,
    g: Pages,
    ns: Seq<Seq<char>>,
    oi: int,
    ti: int,
)
    requires
        depicts(adj, g, ns),
        ns.len() <= usize::MAX,
        0 <= oi < ns.len(),
        0 <= ti < ns.len(),
        ns[oi] == ns[ti] ==> oi == ti,
        !reachable(adj, ns.len() as int, oi, ti),
        forall|i: int|
            0 <= i < ns.len() && #[trigger] reachable(adj, ns.len() as int, oi, i) ==> g.contains_key(ns[i]),
    ensures
        parted(g, ns.to_set(), ns[oi], ns[ti]),
{
    let set = ns.to_set();
    if joined(g, set, ns[oi], ns[ti]) {
        let r = choose|r: Seq<Seq<char>>| is_route(g, set, r, ns[oi], ns[ti]);
        let p = lemma_route_is_path(adj, g, ns, r, oi, ti);
        assert(reachable(adj, ns.len() as int, oi, ti));
    }
    assert forall|u: Seq<char>| #[trigger] joined(g, set, ns[oi], u) implies g.contains_key(u) by {
        let r = choose|r: Seq<Seq<char>>| is_route(g, set, r, ns[oi], u);
        let found = lemma_joined_is_reached(adj, g, ns, r, oi, u);
        assert(is_path(adj, ns.len() as int, found.1, oi, found.0));
        assert(reachable(adj, ns.len() as int, oi, found.0));
    }
}

/// The first place of `ns` at which the article `u` is named.
pub fn position(ns: &Vec<URL>, u: &URL) -> (r: Option<usize>)
    ensures
        match r {
            Some(i) => i < ns.len() && ns[i as int]@ == u@ && forall|j: int| 0 <= j < i ==> ns[j]@ != u@,
            None => !names(ns@).to_set().contains(u@),
        },
{
    let mut i: usize = 0;
    while i < ns.len()
        invariant
            i <= ns.len(),
            forall|j: int| 0 <= j < i ==> ns[j]@ != u@,
        decreases ns.len() - i,
    {
        if ns[i].same(u) {
            return Some(i);
        }
        i += 1;
    }
    proof {
        if names(ns@).contains(u@) {
            let j = choose|j: int| 0 <= j < names(ns@).len() && names(ns@)[j] == u@;
            assert(ns[j]@ == u@);
        }
    }
    None
}

/// The places that are nearest to the origin among those whose articles are
/// not held, where they are nearer than `limit` less one. `dist` holds the
/// distance of each place from the origin.
pub fn nearest_unknown(known: &Vec<bool>, dist: &Vec<Option<usize>>, limit: Option<usize>) -> (r: Vec<usize>)
    requires
        known.len() == dist.len(),
    ensures
        forall|k: int|
            0 <= k < r.len() ==> {
                &&& (#[trigger] r[k]) < known.len()
                &&& !known[r[k] as int]
                &&& dist[r[k] as int] is Some
                &&& limit is Some ==> dist[r[k] as int]->Some_0 + 1 < limit->Some_0
            },
        r.len() == 0 ==> forall|i: int|
            0 <= i < known.len() && !known[i] && (#[trigger] dist[i]) is Some ==> limit is Some
                && dist[i]->Some_0 + 1 >= limit->Some_0,
        forall|k: int, i: int|
            0 <= k < r.len() && 0 <= i < known.len() && !known[i] && (#[trigger] dist[i]) is Some ==> dist[(
            #[trigger] r[k]) as int]->Some_0 <= dist[i]->Some_0,
        forall|i: int|
            0 <= i < known.len() && !known[i] && r.len() > 0 && #[trigger] dist[i] == dist[r[0] as int]
                ==> r@.contains(i as usize),
        forall|j: int, k: int| 0 <= j < k < r.len() ==> r[j] < r[k],
{
    let l = known.len();
    let mut best: Option<usize> = None;
    let mut i: usize = 0;
    while i < l
        invariant
            l == known.len(),
            l == dist.len(),
            i <= l,
            best matches Some(b) ==> (limit is Some ==> b + 1 < limit->Some_0),
            best matches Some(b) ==> exists|j: int|
                0 <= j < i && !known[j] && #[trigger] dist[j] == Some(b),
            best is None ==> forall|j: int|
                0 <= j < i && !known[j] && (#[trigger] dist[j]) is Some ==> limit is Some
                    && dist[j]->Some_0 + 1 >= limit->Some_0,
            best matches Some(b) ==> forall|j: int|
                0 <= j < i && !known[j] && (#[trigger] dist[j]) is Some ==> b <= dist[j]->Some_0,
        decreases l - i,
    {
        if !known[i] {
            match dist[i] {
                Some(d) => {
                    let near = match limit {
                        Some(m) => d < m && d + 1 < m,
                        None => true,
                    };
                    let better = match best {
                        Some(b) => d < b,
                        None => true,
                    };
                    if near && better {
                        best = Some(d);
                    }
                },
                None => {},
            }
        }
        i += 1;
    }
    let mut r: Vec<usize> = Vec::new();
    match best {
        None => {},
        Some(b) => {
            let mut i: usize = 0;
            while i < l
                invariant
                    l == known.len(),
                    l == dist.len(),
                    i <= l,
                    limit is Some ==> b + 1 < limit->Some_0,
                    forall|k: int|
                        0 <= k < r.len() ==> {
                            &&& (#[trigger] r[k]) < i
                            &&& !known[r[k] as int]
                            &&& dist[r[k] as int] == Some(b)
                        },
                    forall|j: int|
                        0 <= j < i && !known[j] && #[trigger] dist[j] == Some(b) ==> r@.contains(j as usize),
                    forall|j: int|
                        0 <= j < l && !known[j] && (#[trigger] dist[j]) is Some ==> b <= dist[j]->Some_0,
                    forall|j: int, k: int| 0 <= j < k < r.len() ==> r[j] < r[k],
                decreases l - i,
            {
                if !known[i] {
                    match dist[i] {
                        Some(d) => {
                            if d == b {
                                let ghost before = r@;
                                r.push(i);
                                proof {
                                    assert(r@[before.len() as int] == i);
                                    assert forall|j: int|
                                        0 <= j < i + 1 && !known[j] && #[trigger] dist[j] == Some(
                                            b,
                                        ) implies r@.contains(j as usize) by {
                                        if j < i {
                                            let k = choose|k: int| 0 <= k < before.len() && before[k] == j as usize;
                                            assert(r@[k] == j as usize);
                                        }
                                    }
                                }
                            }
                        },
                        None => {},
                    }
                }
                i += 1;
            }
            proof {
                if r.len() == 0 {
                    let j = choose|j: int| 0 <= j < l && !known[j] && #[trigger] dist[j] == Some(b);
                    assert(r@.contains(j as usize));
                }
            }
        },
    }
    r
}

} // verus!
