//! The articles that have been fetched, and the queries that are answered
//! from them.
//!
//! A `Collector` fetches nothing itself. A query is answered from the pages
//! that the collector holds; where a page is wanting, the answer names the
//! pages to fetch. The caller fetches them, hands them over with `store`, and
//! asks again.

use crate::article::{parsed, Article, ArticleErr, ArticleView};
use crate::graph::{has_edge, hops, is_path, lemma_cell_in_bounds, reachable, shortest_path};
use crate::order::sort;
use crate::pathfinder::{
    depicts, lemma_joined_is_reached, lemma_reached_is_joined, lemma_shortest_path_is_route,
    lemma_unreached_is_parted, named, nearest_unknown, position,
};
use crate::reach::{
    explored, frontier, is_route, is_shortest_route, joined, lemma_frontier_has_route,
    lemma_frontier_is_new, lemma_frontiers_are_apart, lemma_route_is_visited, lemma_route_within_more,
    lemma_visited_grows, lemma_visited_is_held, lemma_visited_was_in_frontier, lemma_walk_ends, links,
    parted, visited, Walk,
};
use crate::url::{names, URL};
use crate::urlset::{lemma_push_to_set, UrlSet};
use vstd::hash_map::StringHashMap;
use vstd::prelude::*;
use vstd::set_lib::lemma_len_subset;
use vstd::string::StringExecFns;

verus! {

/// Why a query has no answer.
#[derive(Debug, PartialEq, Eq)]
pub enum CollectionErr {
    /// A page could not be fetched.
    RequestError,
    /// No route leads from the origin to the target among the articles
    /// that were to be searched, or these are too many to be searched.
    PathFindingError,
    /// A page was fetched and could not be read.
    ParseError(ArticleErr),
}

impl CollectionErr {
    /// What went wrong, in words.
    pub open spec fn message(&self) -> Seq<char> {
        match self {
            CollectionErr::RequestError => "HTTP request failed."@,
            CollectionErr::PathFindingError => "Could not find path in given neighbourhood."@,
            CollectionErr::ParseError(e) => e.message(),
        }
    }

    /// What went wrong, in words.
    pub fn to_string(&self) -> (s: String)
        ensures
            s@ == self.message(),
    {
        match self {
            CollectionErr::RequestError => String::from_str("HTTP request failed."),
            CollectionErr::PathFindingError => String::from_str(
                "Could not find path in given neighbourhood.",
            ),
            CollectionErr::ParseError(e) => e.to_string(),
        }
    }
}

/// How far a query has come.
#[derive(Debug, PartialEq, Eq)]
pub enum Step<T> {
    /// The answer.
    Done(T),
    /// The pages that are wanting. Once they are fetched and stored, the
    /// query can be asked again.
    Fetch(Vec<URL>),
}

/// What came back for one page: its markup, or nothing where the page could
/// not be fetched.
#[derive(Debug)]
pub struct Fetched {
    pub url: URL,
    pub body: Option<String>,
}

/// The articles held, by name.
pub type Pages = Map<Seq<char>, ArticleView>;

/// Every article is held under its own name.
pub open spec fn keyed(g: Pages) -> bool {
    forall|k: Seq<char>| #[trigger] g.contains_key(k) ==> g[k].url == k
}

/// `arts` as plain values.
pub open spec fn views(arts: Seq<Article>) -> Seq<ArticleView> {
    arts.map_values(|a: Article| a@)
}

/// The articles that `g` holds under the names `ns`, in the order of `ns`.
pub open spec fn held(g: Pages, ns: Seq<Seq<char>>) -> Seq<ArticleView> {
    ns.map_values(|n: Seq<char>| g[n])
}

/// How many names at the beginning of `ns` are held in `g`.
pub open spec fn held_prefix(g: Pages, ns: Seq<Seq<char>>) -> nat
    decreases ns.len(),
{
    if ns.len() == 0 {
        0
    } else if g.contains_key(ns[0]) {
        1 + held_prefix(g, ns.drop_first())
    } else {
        0
    }
}

/// The names of `ns` that are not held in `g`, in the order of `ns`, each as
/// often as it occurs.
pub open spec fn wanting(g: Pages, ns: Seq<Seq<char>>) -> Seq<Seq<char>>
    decreases ns.len(),
{
    if ns.len() == 0 {
        Seq::empty()
    } else if g.contains_key(ns.last()) {
        wanting(g, ns.drop_last())
    } else {
        wanting(g, ns.drop_last()).push(ns.last())
    }
}

/// The names of the articles `vs`, in order.
pub open spec fn titles(vs: Seq<ArticleView>) -> Seq<Seq<char>> {
    vs.map_values(|a: ArticleView| a.url)
}

/// `s` lists the names of `set`, each once.
pub open spec fn lists(s: Seq<Seq<char>>, set: Set<Seq<char>>) -> bool {
    s.no_duplicates() && s.to_set() == set
}

/// How many rounds a walk of depth `depth` makes.
pub open spec fn rounds_of(depth: u32) -> nat {
    if depth == 0 {
        0
    } else {
        (depth - 1) as nat
    }
}

/// A matrix of `n` rows and `n` columns can be addressed.
pub open spec fn fits(n: nat) -> bool {
    n * n <= usize::MAX
}

/// `wanting` holds exactly the names of `ns` that are not held, and none
/// twice where `ns` holds none twice.
pub proof fn lemma_wanting(g: Pages, ns: Seq<Seq<char>>)
    ensures
        wanting(g, ns).to_set() == ns.to_set() - g.dom(),
        ns.no_duplicates() ==> wanting(g, ns).no_duplicates(),
    decreases ns.len(),
{
    if ns.len() == 0 {
        assert(wanting(g, ns).to_set() =~= ns.to_set() - g.dom());
    } else {
        let init = ns.drop_last();
        lemma_wanting(g, init);
        assert(init.push(ns.last()) =~= ns);
        lemma_push_to_set(init, ns.last());
        if g.contains_key(ns.last()) {
            assert(wanting(g, ns).to_set() =~= ns.to_set() - g.dom());
        } else {
            lemma_push_to_set(wanting(g, init), ns.last());
            assert(wanting(g, ns).to_set() =~= ns.to_set() - g.dom());
            if ns.no_duplicates() {
                if wanting(g, init).contains(ns.last()) {
                    assert(wanting(g, init).to_set().contains(ns.last()));
                    assert(init.to_set().contains(ns.last()));
                    let i = choose|i: int| 0 <= i < init.len() && init[i] == ns.last();
                    assert(ns[i] == ns[ns.len() - 1]);
                }
            }
        }
        if ns.no_duplicates() {
            assert(init.no_duplicates());
        }
    }
}

/// `p` plus `by`, or the greatest number where that is too great.
pub open spec fn counted(p: usize, by: int) -> usize {
    if p + by > usize::MAX {
        usize::MAX
    } else {
        (p + by) as usize
    }
}

/// What the page `p` says of its article, or why it says nothing.
pub open spec fn read(p: Fetched) -> Result<ArticleView, CollectionErr> {
    match p.body {
        None => Err(CollectionErr::RequestError),
        Some(site) => match parsed(p.url@, site@) {
            Some(a) => Ok(a),
            None => Err(CollectionErr::ParseError(ArticleErr::UnexpectedEOL)),
        },
    }
}

/// Why the first page of `ps` that says nothing does so.
pub open spec fn first_failure(ps: Seq<Fetched>) -> Option<CollectionErr>
    decreases ps.len(),
{
    if ps.len() == 0 {
        None
    } else {
        match first_failure(ps.drop_last()) {
            Some(e) => Some(e),
            None => match read(ps.last()) {
                Err(e) => Some(e),
                Ok(_) => None,
            },
        }
    }
}

/// Where one page says nothing, the pages have a first that says nothing.
pub proof fn lemma_one_failure_fails(ps: Seq<Fetched>, i: int)
    requires
        0 <= i < ps.len(),
        read(ps[i]) is Err,
    ensures
        first_failure(ps) is Some,
    decreases ps.len(),
{
    if i < ps.len() - 1 {
        lemma_one_failure_fails(ps.drop_last(), i);
    }
}

/// `g` with the articles of the pages `ps` taken in, in the order of `ps`.
/// An article that is held already stays as it is.
pub open spec fn stored(g: Pages, ps: Seq<Fetched>) -> Pages
    decreases ps.len(),
{
    if ps.len() == 0 {
        g
    } else {
        let h = stored(g, ps.drop_last());
        let p = ps.last();
        if h.contains_key(p.url@) {
            h
        } else {
            h.insert(p.url@, read(p)->Ok_0)
        }
    }
}

/// Taking pages in removes no article and changes none.
pub proof fn lemma_stored_keeps(g: Pages, ps: Seq<Fetched>)
    ensures
        g.submap_of(stored(g, ps)),
    decreases ps.len(),
{
    if ps.len() > 0 {
        lemma_stored_keeps(g, ps.drop_last());
    }
}

/// After pages are taken in, the article of each of them is held.
pub proof fn lemma_stored_holds(g: Pages, ps: Seq<Fetched>, i: int)
    requires
        0 <= i < ps.len(),
    ensures
        stored(g, ps).contains_key(ps[i].url@),
    decreases ps.len(),
{
    if i < ps.len() - 1 {
        lemma_stored_holds(g, ps.drop_last(), i);
    }
}

/// Taking in pages that say what their articles are keeps every article
/// under its own name.
pub proof fn lemma_stored_keyed(g: Pages, ps: Seq<Fetched>)
    requires
        keyed(g),
        first_failure(ps) is None,
    ensures
        keyed(stored(g, ps)),
    decreases ps.len(),
{
    if ps.len() > 0 {
        lemma_stored_keyed(g, ps.drop_last());
    }
}

proof fn lemma_held_prefix(g: Pages, ns: Seq<Seq<char>>, k: int)
    requires
        0 <= k <= ns.len(),
        forall|j: int| 0 <= j < k ==> g.contains_key(#[trigger] ns[j]),
        k < ns.len() ==> !g.contains_key(ns[k]),
    ensures
        held_prefix(g, ns) == k,
    decreases ns.len(),
{
    if k > 0 {
        let t = ns.drop_first();
        assert forall|j: int| 0 <= j < k - 1 implies g.contains_key(#[trigger] t[j]) by {
            assert(t[j] == ns[j + 1]);
        }
        assert(g.contains_key(ns[0]));
        lemma_held_prefix(g, t, k - 1);
    }
}

/// The articles that have been fetched, and a count of the lookups made.
pub struct Collector {
    cache: StringHashMap<Article>,
    processed: usize,
}

impl View for Collector {
    type V = Pages;

    closed spec fn view(&self) -> Pages {
        self.cache@.map_values(|a: Article| a@)
    }
}

impl Collector {
    #[verifier::type_invariant]
    spec fn well_formed(self) -> bool {
        &&& self.cache@.dom().finite()
        &&& forall|k: Seq<char>| #[trigger] self.cache@.contains_key(k) ==> self.cache@[k]@.url == k
    }

    /// How many lookups have been made.
    pub closed spec fn lookups(&self) -> usize {
        self.processed
    }

    /// A collector that holds no article and has made no lookup.
    pub fn new() -> (c: Collector)
        ensures
            c@ == Map::<Seq<char>, ArticleView>::empty(),
            c.lookups() == 0,
    {
        let c = Collector { cache: StringHashMap::new(), processed: 0 };
        proof {
            assert(c@ =~= Map::<Seq<char>, ArticleView>::empty());
        }
        c
    }

    /// How many lookups have been made.
    pub fn processed(&self) -> (n: usize)
        ensures
            n == self.lookups(),
    {
        self.processed
    }

    /// Every article is held under its own name.
    fn note_keyed(&self)
        ensures
            keyed(self@),
            self@.dom().finite(),
    {
        proof {
            use_type_invariant(self);
            assert forall|k: Seq<char>| #[trigger] self@.contains_key(k) implies self@[k].url == k by {
                assert(self.cache@.contains_key(k));
            }
            assert(self@.dom() =~= self.cache@.dom());
        }
    }

    /// How many articles are held.
    pub fn len(&self) -> (n: usize)
        ensures
            self@.dom().finite(),
            n == self@.dom().len(),
    {
        proof {
            use_type_invariant(self);
            assert(self@.dom() =~= self.cache@.dom());
        }
        self.cache.len()
    }

    /// Counts `by` lookups.
    fn count(&mut self, by: usize)
        ensures
            final(self)@ == old(self)@,
            final(self).lookups() == counted(old(self).lookups(), by as int),
            keyed(final(self)@),
    {
        proof {
            use_type_invariant(&*self);
        }
        self.processed = self.processed.saturating_add(by);
        self.note_keyed();
    }

    /// The article named `url`, where it is held.
    fn peek(&self, url: &URL) -> (r: Option<Article>)
        ensures
            keyed(self@),
            match r {
                Some(a) => self@.contains_key(url@) && a@ == self@[url@],
                None => !self@.contains_key(url@),
            },
    {
        self.note_keyed();
        match self.cache.get(url.as_str()) {
            Some(a) => Some(a.clone()),
            None => None,
        }
    }

    /// Looks up the article named `url`, and counts the lookup. `None` says
    /// that the article is not held: its page is to be fetched and stored.
    pub fn get(&mut self, url: &URL) -> (r: Option<Article>)
        ensures
            final(self)@ == old(self)@,
            final(self).lookups() == counted(old(self).lookups(), 1),
            match r {
                Some(a) => old(self)@.contains_key(url@) && a@ == old(self)@[url@] && a@.url == url@,
                None => !old(self)@.contains_key(url@),
            },
    {
        self.count(1);
        self.peek(url)
    }

    /// Looks up the articles named `urls` one by one, in their order, and
    /// stops at the first that is not held. The answer holds the article of
    /// each name, at the place of the name.
    pub fn get_list_stable(&mut self, urls: &Vec<URL>) -> (r: Step<Vec<Article>>)
        ensures
            final(self)@ == old(self)@,
            match r {
                Step::Done(arts) => {
                    &&& held_prefix(old(self)@, names(urls@)) == urls.len()
                    &&& views(arts@) == held(old(self)@, names(urls@))
                    &&& titles(views(arts@)) == names(urls@)
                    &&& final(self).lookups() == counted(old(self).lookups(), urls.len() as int)
                },
                Step::Fetch(ms) => {
                    &&& held_prefix(old(self)@, names(urls@)) < urls.len()
                    &&& names(ms@) == seq![urls[held_prefix(old(self)@, names(urls@)) as int]@]
                    &&& final(self).lookups() == counted(
                        old(self).lookups(),
                        held_prefix(old(self)@, names(urls@)) as int + 1,
                    )
                },
            },
    {
        let mut arts: Vec<Article> = Vec::new();
        let mut i: usize = 0;
        while i < urls.len()
            invariant
                i <= urls.len(),
                self@ == old(self)@,
                self.lookups() == counted(old(self).lookups(), i as int),
                arts.len() == i,
                forall|j: int| 0 <= j < i ==> self@.contains_key(#[trigger] names(urls@)[j]),
                forall|j: int| 0 <= j < i ==> (#[trigger] arts[j])@ == self@[urls[j]@],
                forall|j: int| 0 <= j < i ==> (#[trigger] arts[j])@.url == urls[j]@,
            decreases urls.len() - i,
        {
            match self.get(&urls[i]) {
                Some(a) => {
                    arts.push(a);
                },
                None => {
                    let mut ms: Vec<URL> = Vec::new();
                    ms.push(urls[i].clone());
                    proof {
                        lemma_held_prefix(self@, names(urls@), i as int);
                        assert(names(ms@) =~= seq![urls[i as int]@]);
                    }
                    return Step::Fetch(ms);
                },
            }
            i += 1;
        }
        proof {
            lemma_held_prefix(self@, names(urls@), i as int);
            assert(views(arts@) =~= held(self@, names(urls@)));
            assert(titles(views(arts@)) =~= names(urls@));
        }
        Step::Done(arts)
    }

    /// Looks up the articles named `urls` together. Where all are held, the
    /// answer holds the article of each name, at the place of the name.
    /// Where some are not, the answer names those, each as often as it
    /// occurs in `urls`.
    pub fn get_list(&mut self, urls: &Vec<URL>) -> (r: Step<Vec<Article>>)
        ensures
            final(self)@ == old(self)@,
            final(self).lookups() == counted(old(self).lookups(), urls.len() as int),
            keyed(old(self)@),
            match r {
                Step::Done(arts) => {
                    &&& wanting(old(self)@, names(urls@)).len() == 0
                    &&& views(arts@) == held(old(self)@, names(urls@))
                    &&& titles(views(arts@)) == names(urls@)
                },
                Step::Fetch(ms) => {
                    &&& ms.len() > 0
                    &&& names(ms@) == wanting(old(self)@, names(urls@))
                },
            },
    {
        self.count(urls.len());
        let mut arts: Vec<Article> = Vec::new();
        let mut ms: Vec<URL> = Vec::new();
        let mut i: usize = 0;
        proof {
            assert(names(urls@).take(0) =~= Seq::<Seq<char>>::empty());
            assert(names(ms@) =~= Seq::<Seq<char>>::empty());
        }
        while i < urls.len()
            invariant
                i <= urls.len(),
                self@ == old(self)@,
                self.lookups() == counted(old(self).lookups(), urls.len() as int),
                keyed(self@),
                names(ms@) == wanting(self@, names(urls@).take(i as int)),
                ms.len() == 0 ==> arts.len() == i,
                ms.len() == 0 ==> forall|j: int| 0 <= j < i ==> (#[trigger] arts[j])@ == self@[urls[j]@],
                ms.len() == 0 ==> forall|j: int| 0 <= j < i ==> (#[trigger] arts[j])@.url == urls[j]@,
            decreases urls.len() - i,
        {
            let ghost before = names(ms@);
            proof {
                assert(names(urls@).take(i + 1).drop_last() =~= names(urls@).take(i as int));
                assert(names(urls@).take(i + 1).last() == urls[i as int]@);
            }
            match self.peek(&urls[i]) {
                Some(a) => {
                    arts.push(a);
                },
                None => {
                    ms.push(urls[i].clone());
                    proof {
                        assert(names(ms@) =~= before.push(urls[i as int]@));
                    }
                },
            }
            i += 1;
        }
        proof {
            assert(names(urls@).take(urls.len() as int) =~= names(urls@));
        }
        if ms.len() == 0 {
            proof {
                assert(names(ms@).len() == 0);
                assert(views(arts@) =~= held(self@, names(urls@)));
                assert(titles(views(arts@)) =~= names(urls@));
            }
            Step::Done(arts)
        } else {
            Step::Fetch(ms)
        }
    }

    /// Takes in the pages that were fetched. Where one of them could not be
    /// fetched or cannot be read, none is taken in, and the error is that of
    /// the first such page. An article that is held already stays as it is.
    pub fn store(&mut self, pages: Vec<Fetched>) -> (r: Result<(), CollectionErr>)
        ensures
            final(self).lookups() == old(self).lookups(),
            keyed(old(self)@),
            match r {
                Ok(_) => {
                    &&& first_failure(pages@) is None
                    &&& final(self)@ == stored(old(self)@, pages@)
                    &&& old(self)@.submap_of(final(self)@)
                    &&& forall|i: int| 0 <= i < pages.len() ==> final(self)@.contains_key(#[trigger] pages[i].url@)
                },
                Err(e) => first_failure(pages@) == Some(e) && final(self)@ == old(self)@,
            },
    {
        self.note_keyed();
        let ghost all = pages@;
        let mut arts: Vec<Article> = Vec::new();
        proof {
            assert(all.take(0) =~= Seq::<Fetched>::empty());
        }
        for p in it: pages
            invariant
                it.seq() == all,
                self@ == old(self)@,
                self.lookups() == old(self).lookups(),
                keyed(self@),
                arts.len() == it.index(),
                first_failure(all.take(it.index())) is None,
                forall|j: int|
                    0 <= j < it.index() ==> read(all[j]) == Ok::<ArticleView, CollectionErr>(
                        (#[trigger] arts[j])@,
                    ),
                forall|j: int| 0 <= j < it.index() ==> (#[trigger] arts[j])@.url == all[j].url@,
        {
            let ghost i = it.index();
            proof {
                assert(all.take(i + 1).drop_last() =~= all.take(i));
                assert(all.take(i + 1).last() == p);
            }
            let Fetched { url, body } = p;
            match body {
                None => {
                    proof {
                        lemma_first_failure_stays(all.take(i + 1), all.skip(i + 1));
                        assert(all.take(i + 1) + all.skip(i + 1) =~= all);
                    }
                    return Err(CollectionErr::RequestError);
                },
                Some(site) => match Article::parse(url, site) {
                    Ok(a) => {
                        arts.push(a);
                    },
                    Err(e) => {
                        proof {
                            lemma_first_failure_stays(all.take(i + 1), all.skip(i + 1));
                            assert(all.take(i + 1) + all.skip(i + 1) =~= all);
                        }
                        return Err(CollectionErr::ParseError(e));
                    },
                },
            }
        }
        proof {
            assert(all.take(all.len() as int) =~= all);
        }
        let n = arts.len();
        let mut i: usize = 0;
        while i < n
            invariant
                i <= n,
                n == arts.len(),
                n == all.len(),
                self.lookups() == old(self).lookups(),
                keyed(old(self)@),
                self@ == stored(old(self)@, all.take(i as int)),
                forall|j: int|
                    0 <= j < n ==> read(all[j]) == Ok::<ArticleView, CollectionErr>((#[trigger] arts[j])@),
                forall|j: int| 0 <= j < n ==> (#[trigger] arts[j])@.url == all[j].url@,
            decreases n - i,
        {
            proof {
                assert(all.take(i + 1).drop_last() =~= all.take(i as int));
                assert(all.take(i + 1).last() == all[i as int]);
            }
            let a = &arts[i];
            self.keep(a);
            i += 1;
        }
        proof {
            assert(all.take(n as int) =~= all);
            lemma_stored_keeps(old(self)@, all);
            assert forall|i: int| 0 <= i < all.len() implies self@.contains_key(#[trigger] all[i].url@) by {
                lemma_stored_holds(old(self)@, all, i);
            }
        }
        Ok(())
    }

    /// The articles that a walk of `depth - 1` rounds from `url` has visited:
    /// in each round it visits the articles of its frontier, and its next
    /// frontier holds the names that those link to and that were in no
    /// frontier yet. The frontier that the last round leaves is not visited.
    /// A depth of 0 or 1 makes no round and gives no article.
    ///
    /// Where the articles of a frontier are not all held, the answer names
    /// those of the first such frontier that are not.
    pub fn get_neighbourhood(&mut self, url: &URL, depth: u32) -> (r: Step<Vec<Article>>)
        ensures
            final(self)@ == old(self)@,
            depth <= 1 ==> (r matches Step::Done(arts) && arts@.len() == 0),
            match r {
                Step::Done(arts) => {
                    &&& explored(old(self)@, url@, rounds_of(depth))
                    &&& lists(titles(views(arts@)), visited(old(self)@, url@, rounds_of(depth)))
                    &&& views(arts@) == held(old(self)@, titles(views(arts@)))
                    &&& final(self).lookups() == counted(old(self).lookups(), 2 * arts.len())
                },
                Step::Fetch(ms) => exists|k: nat|
                    {
                        &&& k < rounds_of(depth)
                        &&& explored(old(self)@, url@, k)
                        &&& ms.len() > 0
                        &&& lists(names(ms@), #[trigger] frontier(old(self)@, url@, k) - old(self)@.dom())
                        &&& final(self).lookups() == counted(
                            old(self).lookups(),
                            (visited(old(self)@, url@, k).len() + frontier(old(self)@, url@, k).len()) as int,
                        )
                    },
            },
    {
        let ghost g = self@;
        let mut walk = Walk::start(url);
        let mut k: u32 = 1;
        while k < depth
            invariant
                1 <= k,
                k <= depth || (depth == 0 && k == 1),
                g == old(self)@,
                self@ == g,
                self.lookups() == counted(old(self).lookups(), walk.visited.order().len() as int),
                walk.ok(g, url@),
                walk.round@ == k - 1,
                explored(g, url@, (k - 1) as nat),
            decreases depth - k,
        {
            let ghost order = walk.frontier.order();
            proof {
                walk.frontier.lemma_order();
                walk.visited.lemma_order();
                lemma_wanting(g, order);
            }
            match self.get_list(walk.frontier.as_vec()) {
                Step::Fetch(ms) => {
                    proof {
                        let j = (k - 1) as nat;
                        assert(lists(names(ms@), frontier(g, url@, j) - g.dom()));
                        assert(visited(g, url@, j).len() == walk.visited.order().len());
                        assert(frontier(g, url@, j).len() == order.len());
                    }
                    return Step::Fetch(ms);
                },
                Step::Done(arts) => {
                    proof {
                        assert(wanting(g, order) =~= Seq::<Seq<char>>::empty());
                        assert(order.to_set() - g.dom() =~= Set::<Seq<char>>::empty());
                        assert(order.to_set().subset_of(g.dom())) by {
                            assert forall|x: Seq<char>| order.to_set().contains(x) implies g.dom().contains(
                                x,
                            ) by {
                                if !g.dom().contains(x) {
                                    assert((order.to_set() - g.dom()).contains(x));
                                }
                            }
                        }
                    }
                    walk.advance(&arts, Ghost(g), Ghost(url@));
                },
            }
            k += 1;
        }
        let ghost order = walk.visited.order();
        proof {
            assert(walk.round@ == rounds_of(depth));
            walk.visited.lemma_order();
            lemma_wanting(g, order);
            lemma_visited_is_held(g, url@, rounds_of(depth));
            assert(order.to_set() - g.dom() =~= Set::<Seq<char>>::empty());
        }
        match self.get_list(walk.visited.as_vec()) {
            Step::Done(arts) => {
                proof {
                    assert(titles(views(arts@)) =~= order) by {
                        assert forall|i: int| 0 <= i < order.len() implies titles(views(arts@))[i]
                            == order[i] by {
                            assert(order.to_set().contains(order[i]));
                            assert(g.contains_key(order[i]));
                            assert(views(arts@)[i] == g[order[i]]);
                        }
                    }
                    assert(views(arts@).len() == arts@.len());
                    assert(arts@.len() == order.len());
                    if depth <= 1 {
                        assert(order.to_set() == Set::<Seq<char>>::empty());
                        if order.len() > 0 {
                            assert(order.to_set().contains(order[0]));
                        }
                    }
                }
                Step::Done(arts)
            },
            Step::Fetch(ms) => {
                proof {
                    assert(names(ms@).to_set().contains(names(ms@)[0]));
                }
                Step::Fetch(ms)
            },
        }
    }

    /// One row of the matrix of `ns`, put behind the rows before it: for
    /// each place, whether the article named at place `i` is held and links
    /// to the article named there. Says whether the article is held.
    fn row(&self, ns: &Vec<URL>, i: usize, adj: &mut Vec<bool>) -> (known: bool)
        requires
            i < ns.len(),
        ensures
            known == self@.contains_key(ns[i as int]@),
            final(adj)@.len() == old(adj)@.len() + ns.len(),
            forall|k: int| 0 <= k < old(adj)@.len() ==> final(adj)@[k] == old(adj)@[k],
            forall|j: int|
                0 <= j < ns.len() ==> final(adj)@[old(adj)@.len() + j] == links(self@, ns[i as int]@).contains(
                    #[trigger] ns[j]@,
                ),
    {
        let l = ns.len();
        let ghost before = adj@;
        let ghost g = self@;
        let ghost n = ns[i as int]@;
        match self.peek(&ns[i]) {
            Some(a) => {
                let refs = a.references();
                let mut set = UrlSet::new();
                let mut k: usize = 0;
                proof {
                    assert(names(refs@).take(0).to_set() =~= Set::<Seq<char>>::empty());
                }
                while k < refs.len()
                    invariant
                        k <= refs.len(),
                        set.wf(),
                        set@ == names(refs@).take(k as int).to_set(),
                    decreases refs.len() - k,
                {
                    set.insert(&refs[k]);
                    proof {
                        assert(names(refs@).take(k + 1) =~= names(refs@).take(k as int).push(refs[k as int]@));
                        lemma_push_to_set(names(refs@).take(k as int), refs[k as int]@);
                    }
                    k += 1;
                }
                proof {
                    assert(names(refs@).take(refs.len() as int) =~= names(refs@));
                    assert(set@ == links(g, n));
                }
                let mut j: usize = 0;
                while j < l
                    invariant
                        j <= l,
                        l == ns.len(),
                        set.wf(),
                        set@ == links(g, n),
                        adj@.len() == before.len() + j,
                        forall|k: int| 0 <= k < before.len() ==> adj@[k] == before[k],
                        forall|m: int|
                            0 <= m < j ==> adj@[before.len() + m] == links(g, n).contains(#[trigger] ns[m]@),
                    decreases l - j,
                {
                    adj.push(set.contains(&ns[j]));
                    j += 1;
                }
                true
            },
            None => {
                let mut j: usize = 0;
                while j < l
                    invariant
                        j <= l,
                        l == ns.len(),
                        links(g, n) == Set::<Seq<char>>::empty(),
                        adj@.len() == before.len() + j,
                        forall|k: int| 0 <= k < before.len() ==> adj@[k] == before[k],
                        forall|m: int|
                            0 <= m < j ==> adj@[before.len() + m] == links(g, n).contains(#[trigger] ns[m]@),
                    decreases l - j,
                {
                    adj.push(false);
                    j += 1;
                }
                false
            },
        }
    }

    /// The matrix of the links among the articles named in `ns`, and for
    /// each place whether its article is held.
    fn adjacency(&self, ns: &Vec<URL>) -> (r: (Vec<bool>, Vec<bool>))
        requires
            ns.len() * ns.len() <= usize::MAX,
        ensures
            depicts(r.0@, self@, names(ns@)),
            r.1.len() == ns.len(),
            forall|i: int| 0 <= i < ns.len() ==> r.1[i] == self@.contains_key(#[trigger] ns[i]@),
    {
        let l = ns.len();
        let ghost g = self@;
        let mut adj: Vec<bool> = Vec::new();
        let mut known: Vec<bool> = Vec::new();
        let mut i: usize = 0;
        proof {
            assert(l * 0 == 0) by (nonlinear_arith);
        }
        while i < l
            invariant
                i <= l,
                l == ns.len(),
                self@ == g,
                adj@.len() == l * i,
                known.len() == i,
                forall|a: int| 0 <= a < i ==> known[a] == g.contains_key(#[trigger] ns[a]@),
                forall|a: int, b: int|
                    0 <= a < i && 0 <= b < l ==> (#[trigger] has_edge(adj@, l as int, a, b) == links(
                        g,
                        ns[a]@,
                    ).contains(ns[b]@)),
            decreases l - i,
        {
            let ghost before = adj@;
            let k = self.row(ns, i, &mut adj);
            known.push(k);
            proof {
                assert(l * (i + 1) == l * i + l) by (nonlinear_arith);
                assert forall|a: int, b: int| 0 <= a < i + 1 && 0 <= b < l implies (#[trigger] has_edge(
                    adj@,
                    l as int,
                    a,
                    b,
                ) == links(g, ns[a]@).contains(ns[b]@)) by {
                    lemma_cell_in_bounds(l as int, a, b);
                    if a < i {
                        assert(l * a + b < l * i) by (nonlinear_arith)
                            requires
                                0 <= a < i,
                                0 <= b < l,
                        {
                            assert(l * a + l <= l * i) by {
                                assert(l * (a + 1) <= l * i);
                                assert(l * (a + 1) == l * a + l);
                            }
                        }
                        assert(has_edge(before, l as int, a, b) == links(g, ns[a]@).contains(ns[b]@));
                        assert(adj@[l * a + b] == before[l * a + b]);
                    } else {
                        assert(adj@[before.len() + b] == links(g, ns[i as int]@).contains(ns[b]@));
                    }
                }
            }
            i += 1;
        }
        proof {
            assert forall|a: int, b: int|
                0 <= a < names(ns@).len() && 0 <= b < names(ns@).len() implies (#[trigger] has_edge(
                adj@,
                names(ns@).len() as int,
                a,
                b,
            ) == links(g, names(ns@)[a]).contains(names(ns@)[b])) by {
                assert(has_edge(adj@, l as int, a, b) == links(g, ns[a]@).contains(ns[b]@));
            }
        }
        (adj, known)
    }

    /// The articles named at the places `p` of `ns`, in the order of `p`,
    /// or the first of them that is not held.
    fn along(&mut self, ns: &Vec<URL>, p: &Vec<usize>) -> (r: Step<Vec<Article>>)
        requires
            forall|k: int| 0 <= k < p.len() ==> (#[trigger] p[k]) < ns.len(),
        ensures
            final(self)@ == old(self)@,
            final(self).lookups() >= old(self).lookups(),
            match r {
                Step::Done(arts) => {
                    &&& views(arts@) == held(old(self)@, named(names(ns@), p@))
                    &&& titles(views(arts@)) == named(names(ns@), p@)
                    &&& final(self).lookups() == counted(old(self).lookups(), p.len() as int)
                },
                Step::Fetch(ms) => exists|k: int|
                    {
                        &&& 0 <= k < p.len()
                        &&& names(ms@) == seq![#[trigger] ns[p[k] as int]@]
                        &&& !old(self)@.contains_key(ns[p[k] as int]@)
                    },
            },
    {
        let ghost g = self@;
        let ghost route = named(names(ns@), p@);
        let mut arts: Vec<Article> = Vec::new();
        let mut k: usize = 0;
        while k < p.len()
            invariant
                k <= p.len(),
                self@ == g,
                g == old(self)@,
                route == named(names(ns@), p@),
                self.lookups() == counted(old(self).lookups(), k as int),
                forall|j: int| 0 <= j < p.len() ==> (#[trigger] p[j]) < ns.len(),
                arts.len() == k,
                forall|j: int| 0 <= j < k ==> (#[trigger] arts[j])@ == g[route[j]],
                forall|j: int| 0 <= j < k ==> (#[trigger] arts[j])@.url == route[j],
            decreases p.len() - k,
        {
            let i = p[k];
            proof {
                assert(route[k as int] == ns[i as int]@);
            }
            match self.get(&ns[i]) {
                Some(a) => {
                    arts.push(a);
                },
                None => {
                    let mut ms: Vec<URL> = Vec::new();
                    ms.push(ns[i].clone());
                    proof {
                        assert(names(ms@) =~= seq![ns[p[k as int] as int]@]);
                    }
                    return Step::Fetch(ms);
                },
            }
            k += 1;
        }
        proof {
            assert(views(arts@) =~= held(g, route));
            assert(titles(views(arts@)) =~= route);
        }
        Step::Done(arts)
    }

    /// The articles named at the places `near` of `ns`.
    fn pick(ns: &Vec<URL>, near: &Vec<usize>) -> (ms: Vec<URL>)
        requires
            forall|k: int| 0 <= k < near.len() ==> (#[trigger] near[k]) < ns.len(),
        ensures
            ms.len() == near.len(),
            forall|k: int| 0 <= k < near.len() ==> (#[trigger] ms[k])@ == ns[near[k] as int]@,
    {
        let mut ms: Vec<URL> = Vec::new();
        let mut k: usize = 0;
        while k < near.len()
            invariant
                k <= near.len(),
                ms.len() == k,
                forall|j: int| 0 <= j < near.len() ==> (#[trigger] near[j]) < ns.len(),
                forall|j: int| 0 <= j < k ==> (#[trigger] ms[j])@ == ns[near[j] as int]@,
            decreases near.len() - k,
        {
            ms.push(ns[near[k]].clone());
            k += 1;
        }
        ms
    }

    /// The articles along a shortest route from `og` to `tg` that leads by
    /// articles named in `ns` alone, both ends included. The route is found
    /// in the matrix of the links among the names of `ns`, put in order.
    ///
    /// Fails where `og` or `tg` is not named in `ns`, where `ns` is too long
    /// for its matrix to be addressed, and where no route leads to `tg` while
    /// every article that a route leads to is held.
    ///
    /// Before a route is given, the articles nearer to `og` than the one
    /// before `tg` are asked for, the nearest first: so no article that is
    /// not held can make the route shorter. Then the article of `tg` itself
    /// is asked for.
    pub fn find_path(&mut self, og: &URL, tg: &URL, ns: Vec<URL>) -> (r: Result<
        Step<Vec<Article>>,
        CollectionErr,
    >)
        ensures
            final(self)@ == old(self)@,
            r is Err <==> {
                ||| !names(ns@).to_set().contains(og@)
                ||| !names(ns@).to_set().contains(tg@)
                ||| ns.len() * ns.len() > usize::MAX
                ||| parted(old(self)@, names(ns@).to_set(), og@, tg@)
            },
            match r {
                Ok(Step::Done(arts)) => {
                    &&& is_shortest_route(old(self)@, names(ns@).to_set(), titles(views(arts@)), og@, tg@)
                    &&& views(arts@) == held(old(self)@, titles(views(arts@)))
                    &&& forall|u: Seq<char>, q: Seq<Seq<char>>|
                        !old(self)@.contains_key(u) && #[trigger] is_route(
                            old(self)@,
                            names(ns@).to_set(),
                            q,
                            og@,
                            u,
                        ) ==> arts.len() <= q.len() + 1
                    &&& final(self).lookups() == counted(old(self).lookups(), arts.len() as int)
                },
                Ok(Step::Fetch(ms)) => {
                    &&& ms.len() > 0
                    &&& forall|k: int|
                        0 <= k < ms.len() ==> {
                            &&& !old(self)@.contains_key(#[trigger] ms[k]@)
                            &&& joined(old(self)@, names(ns@).to_set(), og@, ms[k]@)
                        }
                    &&& final(self).lookups() == old(self).lookups()
                },
                Err(e) => e == CollectionErr::PathFindingError && final(self).lookups() == old(self).lookups(),
            },
    {
        let ghost g = self@;
        let ns = sort(&ns);
        let ghost nn = names(ns@);
        let ghost set = nn.to_set();
        let l = ns.len();
        let oi = match position(&ns, og) {
            Some(i) => i,
            None => {
                return Err(CollectionErr::PathFindingError);
            },
        };
        let ti = match position(&ns, tg) {
            Some(i) => i,
            None => {
                return Err(CollectionErr::PathFindingError);
            },
        };
        if l.checked_mul(l).is_none() {
            return Err(CollectionErr::PathFindingError);
        }
        proof {
            assert(nn[oi as int] == og@ && nn[ti as int] == tg@);
            assert(set.contains(nn[oi as int]) && set.contains(nn[ti as int]));
        }
        let (adj, known) = self.adjacency(&ns);
        let dist = hops(&adj, l, oi);
        let near = nearest_unknown(&known, &dist, dist[ti]);
        if near.len() > 0 {
            let ms = Collector::pick(&ns, &near);
            proof {
                assert forall|k: int| 0 <= k < ms.len() implies {
                    &&& !g.contains_key(#[trigger] ms[k]@)
                    &&& joined(g, set, og@, ms[k]@)
                } by {
                    let i = near[k] as int;
                    assert(ms[k]@ == ns[i]@);
                    assert(dist[i] is Some);
                    assert(reachable(adj@, l as int, oi as int, i));
                    lemma_reached_is_joined(adj@, g, nn, oi as int, i);
                }
                let i0 = near[0] as int;
                assert(ms[0]@ == nn[i0]);
                assert(joined(g, set, og@, nn[i0]));
                assert(!parted(g, set, og@, tg@));
            }
            return Ok(Step::Fetch(ms));
        }
        match shortest_path(&adj, l, oi, ti) {
            None => {
                proof {
                    assert(dist[ti as int] is None);
                    assert forall|i: int|
                        0 <= i < nn.len() && #[trigger] reachable(adj@, l as int, oi as int, i) implies g.contains_key(
                        nn[i],
                    ) by {
                        assert(dist[i] is Some);
                        assert(known[i] == g.contains_key(ns[i]@));
                    }
                    lemma_unreached_is_parted(adj@, g, nn, oi as int, ti as int);
                }
                Err(CollectionErr::PathFindingError)
            },
            Some(p) => {
                proof {
                    lemma_shortest_path_is_route(adj@, g, nn, p@, oi as int, ti as int);
                    assert(joined(g, set, og@, tg@));
                    assert(dist[ti as int] is Some);
                    let d = dist[ti as int]->Some_0;
                    assert(p@.len() == d + 1) by {
                        let w = choose|w: Seq<usize>|
                            is_path(adj@, l as int, w, oi as int, ti as int) && w.len() == d + 1;
                        assert(is_path(adj@, l as int, p@, oi as int, ti as int));
                    }
                    assert forall|u: Seq<char>, q: Seq<Seq<char>>|
                        !g.contains_key(u) && #[trigger] is_route(g, set, q, og@, u) implies p@.len() <= q.len()
                        + 1 by {
                        let found = lemma_joined_is_reached(adj@, g, nn, q, oi as int, u);
                        let i = found.0;
                        assert(reachable(adj@, l as int, oi as int, i));
                        assert(dist[i] is Some);
                        assert(known[i] == g.contains_key(ns[i]@));
                    }
                }
                if !known[ti] {
                    let mut ms: Vec<URL> = Vec::new();
                    ms.push(tg.clone());
                    proof {
                        assert(!g.contains_key(ms[0]@));
                    }
                    return Ok(Step::Fetch(ms));
                }
                let r = self.along(&ns, &p);
                proof {
                    if r is Done {
                        let arts = r->Done_0;
                        assert(arts.len() == views(arts@).len());
                        assert(titles(views(arts@)).len() == views(arts@).len());
                        assert(named(nn, p@).len() == p@.len());
                    } else {
                        let ms = r->Fetch_0;
                        let k = choose|k: int|
                            {
                                &&& 0 <= k < p.len()
                                &&& names(ms@) == seq![#[trigger] ns[p[k] as int]@]
                                &&& !g.contains_key(ns[p[k] as int]@)
                            };
                        if k < p.len() - 1 {
                            assert(has_edge(adj@, l as int, p[k] as int, p[k + 1] as int));
                            assert(links(g, nn[p[k] as int]).contains(nn[p[k + 1] as int]));
                        } else {
                            assert(p[k] == ti);
                        }
                    }
                }
                Ok(r)
            },
        }
    }

    /// The articles along a shortest route from `og` to `tg`, both ends
    /// included.
    ///
    /// Walks from `og` round by round, as for a neighbourhood, until a
    /// frontier names `tg`. That frontier is put to the articles visited, and
    /// the route is sought among them. Fails where a frontier is empty
    /// before one names `tg`: then no route leads to `tg`. Fails too where
    /// the articles visited are too many for their matrix to be addressed.
    pub fn get_path(&mut self, og: &URL, tg: &URL) -> (r: Result<Step<Vec<Article>>, CollectionErr>)
        ensures
            final(self)@ == old(self)@,
            r is Err <==> {
                ||| parted(old(self)@, Set::full(), og@, tg@)
                ||| exists|k: nat|
                    {
                        &&& explored(old(self)@, og@, k)
                        &&& (#[trigger] frontier(old(self)@, og@, k)).contains(tg@)
                        &&& !fits(visited(old(self)@, og@, k + 1).len())
                    }
            },
            match r {
                Ok(Step::Done(arts)) => {
                    &&& is_shortest_route(old(self)@, Set::full(), titles(views(arts@)), og@, tg@)
                    &&& views(arts@) == held(old(self)@, titles(views(arts@)))
                    &&& forall|u: Seq<char>, q: Seq<Seq<char>>|
                        !old(self)@.contains_key(u) && #[trigger] is_route(old(self)@, Set::full(), q, og@, u)
                            ==> arts.len() <= q.len() + 1
                    &&& final(self).lookups() == counted(
                        old(self).lookups(),
                        (visited(old(self)@, og@, (arts.len() - 1) as nat).len() + arts.len()) as int,
                    )
                },
                Ok(Step::Fetch(ms)) => {
                    &&& ms.len() > 0
                    &&& forall|k: int|
                        0 <= k < ms.len() ==> {
                            &&& !old(self)@.contains_key(#[trigger] ms[k]@)
                            &&& joined(old(self)@, Set::full(), og@, ms[k]@)
                        }
                    &&& exists|k: nat|
                        {
                            &&& #[trigger] explored(old(self)@, og@, k)
                            &&& if frontier(old(self)@, og@, k).contains(tg@) {
                                final(self).lookups() == counted(
                                    old(self).lookups(),
                                    visited(old(self)@, og@, k).len() as int,
                                )
                            } else {
                                &&& lists(names(ms@), frontier(old(self)@, og@, k) - old(self)@.dom())
                                &&& final(self).lookups() == counted(
                                    old(self).lookups(),
                                    (visited(old(self)@, og@, k).len() + frontier(old(self)@, og@, k).len()) as int,
                                )
                            }
                        }
                },
                Err(e) => {
                    &&& e == CollectionErr::PathFindingError
                    &&& exists|k: nat|
                        {
                            &&& #[trigger] explored(old(self)@, og@, k)
                            &&& frontier(old(self)@, og@, k).contains(tg@) || frontier(old(self)@, og@, k)
                                == Set::<Seq<char>>::empty()
                            &&& final(self).lookups() == counted(
                                old(self).lookups(),
                                visited(old(self)@, og@, k).len() as int,
                            )
                        }
                },
            },
    {
        let ghost g = self@;
        let ghost all = Set::<Seq<char>>::full();
        let bound = self.len();
        let mut walk = Walk::start(og);
        while !walk.frontier.contains(tg)
            invariant
                g == old(self)@,
                self@ == g,
                all == Set::<Seq<char>>::full(),
                g.dom().finite(),
                bound == g.dom().len(),
                self.lookups() == counted(old(self).lookups(), walk.visited.order().len() as int),
                walk.ok(g, og@),
                explored(g, og@, walk.round@),
                forall|j: nat| j < walk.round@ ==> !(#[trigger] frontier(g, og@, j)).contains(tg@),
                walk.visited.order().len() <= bound,
            decreases bound - walk.visited.order().len(),
        {
            let ghost k = walk.round@;
            let ghost order = walk.frontier.order();
            proof {
                walk.frontier.lemma_order();
                lemma_wanting(g, order);
            }
            if walk.frontier.len() == 0 {
                proof {
                    assert(frontier(g, og@, k) =~= Set::<Seq<char>>::empty()) by {
                        assert forall|x: Seq<char>| !frontier(g, og@, k).contains(x) by {
                            if order.to_set().contains(x) {
                                let i = choose|i: int| 0 <= i < order.len() && order[i] == x;
                            }
                        }
                    }
                    lemma_visited_is_held(g, og@, k);
                    assert forall|u: Seq<char>| #[trigger] joined(g, all, og@, u) implies visited(
                        g,
                        og@,
                        k,
                    ).contains(u) by {
                        let q = choose|q: Seq<Seq<char>>| is_route(g, all, q, og@, u);
                        lemma_route_is_visited(g, og@, q, u);
                        assert(visited(g, og@, q.len()).contains(q[q.len() - 1]));
                        if q.len() <= k {
                            lemma_visited_grows(g, og@, q.len(), k);
                        } else {
                            lemma_walk_ends(g, og@, k, q.len());
                        }
                    }
                    if joined(g, all, og@, tg@) {
                        let j = lemma_visited_was_in_frontier(g, og@, k, tg@);
                        assert(!frontier(g, og@, j).contains(tg@));
                    }
                    assert(parted(g, all, og@, tg@));
                    walk.visited.lemma_order();
                    assert(explored(g, og@, k) && frontier(g, og@, k) == Set::<Seq<char>>::empty());
                    assert(self.lookups() == counted(old(self).lookups(), visited(g, og@, k).len() as int));
                }
                return Err(CollectionErr::PathFindingError);
            }
            match self.get_list(walk.frontier.as_vec()) {
                Step::Fetch(ms) => {
                    proof {
                        assert(names(ms@).len() == ms.len());
                        assert forall|i: int| 0 <= i < ms.len() implies {
                            &&& !g.contains_key(#[trigger] ms[i]@)
                            &&& joined(g, all, og@, ms[i]@)
                            &&& frontier(g, og@, k).contains(ms[i]@)
                        } by {
                            assert(names(ms@)[i] == ms[i]@);
                            assert(names(ms@).to_set().contains(ms[i]@));
                            assert(frontier(g, og@, k).contains(ms[i]@));
                            let q = lemma_frontier_has_route(g, og@, k, ms[i]@);
                            lemma_route_within_more(g, visited(g, og@, k + 1), all, q, og@, ms[i]@);
                        }
                        assert(joined(g, all, og@, ms[0]@) && !g.contains_key(ms[0]@));
                        assert(frontier(g, og@, k).contains(ms[0]@));
                        assert(!parted(g, all, og@, tg@));
                        walk.visited.lemma_order();
                        assert(explored(g, og@, k) && !frontier(g, og@, k).contains(tg@));
                        assert(lists(names(ms@), frontier(g, og@, k) - g.dom()));
                        assert(self.lookups() == counted(
                            old(self).lookups(),
                            (visited(g, og@, k).len() + frontier(g, og@, k).len()) as int,
                        ));
                        assert forall|m: nat|
                            !(explored(g, og@, m) && (#[trigger] frontier(g, og@, m)).contains(tg@)) by {
                            if explored(g, og@, m) && frontier(g, og@, m).contains(tg@) {
                                if m > k {
                                    assert(frontier(g, og@, k).subset_of(g.dom()));
                                    assert(frontier(g, og@, k).contains(ms[0]@));
                                }
                            }
                        }
                    }
                    return Ok(Step::Fetch(ms));
                },
                Step::Done(arts) => {
                    proof {
                        assert(wanting(g, order) =~= Seq::<Seq<char>>::empty());
                        assert(order.to_set() - g.dom() =~= Set::<Seq<char>>::empty());
                        assert(order.to_set().subset_of(g.dom())) by {
                            assert forall|x: Seq<char>| order.to_set().contains(x) implies g.dom().contains(
                                x,
                            ) by {
                                if !g.dom().contains(x) {
                                    assert((order.to_set() - g.dom()).contains(x));
                                }
                            }
                        }
                    }
                    walk.advance(&arts, Ghost(g), Ghost(og@));
                    proof {
                        assert(explored(g, og@, k + 1)) by {
                            assert forall|j: nat| j < k + 1 implies (#[trigger] frontier(g, og@, j)).subset_of(
                                g.dom(),
                            ) by {}
                        }
                        lemma_visited_is_held(g, og@, k + 1);
                        walk.visited.lemma_order();
                        lemma_len_subset(walk.visited@, g.dom());
                    }
                },
            }
        }
        let ghost k = walk.round@;
        let ghost set = visited(g, og@, k + 1);
        proof {
            lemma_frontier_is_new(g, og@, k);
            assert(((k + 1) - 1) as nat == k);
            walk.visited.lemma_order();
            assert(self.lookups() == counted(old(self).lookups(), visited(g, og@, k).len() as int));
        }
        walk.fold();
        proof {
            walk.visited.lemma_order();
            assert(walk.visited@ == set);
        }
        let nodes = walk.visited.into_vec();
        let res = self.find_path(og, tg, nodes);
        proof {
            let w = lemma_frontier_has_route(g, og@, k, tg@);
            assert(set.contains(w[0]) && set.contains(w[w.len() - 1]));
            assert(joined(g, set, og@, tg@));
            lemma_route_within_more(g, set, all, w, og@, tg@);
            assert(joined(g, all, og@, tg@));
            assert(!parted(g, all, og@, tg@));
            assert(!parted(g, set, og@, tg@));
            names(nodes@).unique_seq_to_set();
            assert(nodes.len() == set.len());
            assert(explored(g, og@, k) && frontier(g, og@, k).contains(tg@));
            if res is Err {
                assert(!fits(visited(g, og@, k + 1).len()));
                assert(self.lookups() == counted(old(self).lookups(), visited(g, og@, k).len() as int));
            } else {
                assert(fits(set.len()));
                assert forall|m: nat|
                    !(explored(g, og@, m) && (#[trigger] frontier(g, og@, m)).contains(tg@) && !fits(
                        visited(g, og@, m + 1).len(),
                    )) by {
                    if frontier(g, og@, m).contains(tg@) {
                        lemma_frontiers_are_apart(g, og@, m, k, tg@);
                    }
                }
                let step = res->Ok_0;
                if step is Done {
                    let arts = step->Done_0;
                    let route = titles(views(arts@));
                    assert(route.len() == arts.len());
                    lemma_route_within_more(g, set, all, route, og@, tg@);
                    assert(route.len() <= w.len());
                    assert(route.len() == k + 1) by {
                        lemma_route_is_visited(g, og@, route, tg@);
                        assert(visited(g, og@, route.len()).contains(route[route.len() - 1]));
                        let j = lemma_visited_was_in_frontier(g, og@, route.len(), tg@);
                        lemma_frontiers_are_apart(g, og@, j, k, tg@);
                    }
                    assert forall|q: Seq<Seq<char>>| is_route(g, all, q, og@, tg@) implies route.len()
                        <= q.len() by {
                        lemma_route_is_visited(g, og@, q, tg@);
                        if q.len() <= k + 1 {
                            lemma_visited_grows(g, og@, q.len(), k + 1);
                            lemma_route_within_more(g, visited(g, og@, q.len()), set, q, og@, tg@);
                        }
                    }
                    assert forall|u: Seq<char>, q: Seq<Seq<char>>|
                        !g.contains_key(u) && #[trigger] is_route(g, all, q, og@, u) implies arts.len()
                        <= q.len() + 1 by {
                        lemma_route_is_visited(g, og@, q, u);
                        if q.len() <= k + 1 {
                            lemma_visited_grows(g, og@, q.len(), k + 1);
                            lemma_route_within_more(g, visited(g, og@, q.len()), set, q, og@, u);
                        }
                    }
                } else {
                    let ms = step->Fetch_0;
                    assert forall|i: int| 0 <= i < ms.len() implies joined(g, all, og@, #[trigger] ms[i]@) by {
                        let q = choose|q: Seq<Seq<char>>| is_route(g, set, q, og@, ms[i]@);
                        lemma_route_within_more(g, set, all, q, og@, ms[i]@);
                    }
                    assert(self.lookups() == counted(old(self).lookups(), visited(g, og@, k).len() as int));
                }
            }
        }
        res
    }

    /// Takes in the article `a`, unless an article of its name is held.
    fn keep(&mut self, a: &Article)
        ensures
            final(self).lookups() == old(self).lookups(),
            final(self)@ == if old(self)@.contains_key(a@.url) {
                old(self)@
            } else {
                old(self)@.insert(a@.url, a@)
            },
    {
        proof {
            use_type_invariant(&*self);
        }
        if !self.cache.contains_key(a.name()) {
            let ghost before = self.cache@;
            let b = a.clone();
            let mut cache = StringHashMap::new();
            std::mem::swap(&mut self.cache, &mut cache);
            cache.insert(a.name().to_owned(), b);
            std::mem::swap(&mut self.cache, &mut cache);
            proof {
                assert(self.cache@ == before.insert(a@.url, b));
                assert(self@ =~= old(self)@.insert(a@.url, a@));
            }
        }
    }
}

/// The first page that says nothing is the same with more pages behind.
proof fn lemma_first_failure_stays(a: Seq<Fetched>, b: Seq<Fetched>)
    requires
        first_failure(a) is Some,
    ensures
        first_failure(a + b) == first_failure(a),
    decreases b.len(),
{
    if b.len() == 0 {
        assert(a + b =~= a);
    } else {
        lemma_first_failure_stays(a, b.drop_last());
        assert((a + b).drop_last() =~= a + b.drop_last());
    }
}

} // verus!
