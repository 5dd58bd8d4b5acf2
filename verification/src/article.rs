//! An article and the articles that it refers to, read from its page.

use crate::config::{REFERENCE_PREFIX, WIKI_ARTICLE_PREFIX};
use crate::text::{
    begins_with, chars_of, find, index_of, lemma_index_of_is_first, lines, slice_of, without_cr,
};
use crate::url::{body_of, names, URL};
use crate::urlset::UrlSet;
use vstd::prelude::*;
use vstd::string::StringExecFns;

verus! {

/// Why the page of an article could not be read.
#[derive(Debug, PartialEq, Eq)]
pub enum ArticleErr {
    /// A link begins on a line and the line ends before the link's address does.
    UnexpectedEOL,
}

impl ArticleErr {
    /// What went wrong, in words.
    pub open spec fn message(&self) -> Seq<char> {
        "Line ended while parsing URL"@
    }

    /// What went wrong, in words.
    pub fn to_string(&self) -> (s: String)
        ensures
            s@ == self.message(),
    {
        String::from_str("Line ended while parsing URL")
    }
}

/// How a link to an article begins in the markup of a page.
pub open spec fn anchor() -> Seq<char> {
    REFERENCE_PREFIX@ + WIKI_ARTICLE_PREFIX@
}

/// The addresses that the links of one line hold, from left to right, or
/// `None` where the line ends inside a link.
///
/// A link begins wherever `anchor` stands. Its address begins behind
/// `REFERENCE_PREFIX` and ends before the next `"`; the search for the next
/// link goes on behind that `"`.
pub open spec fn links_in_line(line: Seq<char>) -> Option<Seq<Seq<char>>>
    decreases line.len(),
{
    if line.len() == 0 {
        Some(Seq::empty())
    } else if anchor().is_prefix_of(line) {
        let rest = line.skip(REFERENCE_PREFIX@.len() as int);
        let q = index_of(rest, '"');
        if 0 <= q < rest.len() {
            match links_in_line(rest.skip(q + 1)) {
                Some(more) => Some(seq![rest.take(q)] + more),
                None => None,
            }
        } else {
            None
        }
    } else {
        links_in_line(line.skip(1))
    }
}

/// The addresses that the links of the lines `ls` hold, in the order of the
/// page, or `None` where one of the lines ends inside a link.
pub open spec fn links_in(ls: Seq<Seq<char>>) -> Option<Seq<Seq<char>>>
    decreases ls.len(),
{
    if ls.len() == 0 {
        Some(Seq::empty())
    } else {
        match (links_in(ls.drop_last()), links_in_line(ls.last())) {
            (Some(before), Some(here)) => Some(before + here),
            _ => None,
        }
    }
}

/// The names of the articles that the addresses `hrefs` give, each once, in
/// the order in which they first occur. An address of no article gives none.
pub open spec fn references_of(hrefs: Seq<Seq<char>>) -> Seq<Seq<char>>
    decreases hrefs.len(),
{
    if hrefs.len() == 0 {
        Seq::empty()
    } else {
        let before = references_of(hrefs.drop_last());
        match body_of(hrefs.last()) {
            Ok(n) => if before.contains(n) {
                before
            } else {
                before.push(n)
            },
            Err(_) => before,
        }
    }
}

/// An article as plain values: its name and the names it refers to.
pub struct ArticleView {
    pub url: Seq<char>,
    pub references: Seq<Seq<char>>,
}

/// What the page `site` says of the article named `url`, or `None` where a
/// line of it ends inside a link.
pub open spec fn parsed(url: Seq<char>, site: Seq<char>) -> Option<ArticleView> {
    match links_in(lines(site)) {
        Some(hrefs) => Some(ArticleView { url, references: references_of(hrefs) }),
        None => None,
    }
}

/// No name occurs twice in `references_of`.
pub proof fn lemma_references_are_distinct(hrefs: Seq<Seq<char>>)
    ensures
        references_of(hrefs).no_duplicates(),
    decreases hrefs.len(),
{
    if hrefs.len() > 0 {
        lemma_references_are_distinct(hrefs.drop_last());
    }
}

/// `references_of` holds exactly the names that the addresses give.
pub proof fn lemma_references_are_the_names(hrefs: Seq<Seq<char>>, n: Seq<char>)
    ensures
        references_of(hrefs).contains(n) <==> exists|i: int|
            0 <= i < hrefs.len() && body_of(#[trigger] hrefs[i]) == Ok::<Seq<char>, crate::url::Rejection>(n),
    decreases hrefs.len(),
{
    if hrefs.len() > 0 {
        let init = hrefs.drop_last();
        let before = references_of(init);
        lemma_references_are_the_names(init, n);
        if references_of(hrefs).contains(n) {
            if before.contains(n) {
                let i = choose|i: int|
                    0 <= i < init.len() && body_of(#[trigger] init[i]) == Ok::<Seq<char>, crate::url::Rejection>(n);
                assert(hrefs[i] == init[i]);
            } else {
                assert(body_of(hrefs.last()) is Ok);
                let m = body_of(hrefs.last())->Ok_0;
                assert(references_of(hrefs) == before.push(m));
                let j = choose|j: int| 0 <= j < before.push(m).len() && before.push(m)[j] == n;
                if j < before.len() {
                    assert(before[j] == n);
                }
                assert(m == n);
                assert(hrefs[hrefs.len() - 1] == hrefs.last());
            }
        }
        if exists|i: int|
            0 <= i < hrefs.len() && body_of(#[trigger] hrefs[i]) == Ok::<Seq<char>, crate::url::Rejection>(n) {
            let i = choose|i: int|
                0 <= i < hrefs.len() && body_of(#[trigger] hrefs[i]) == Ok::<Seq<char>, crate::url::Rejection>(n);
            if i < init.len() {
                assert(init[i] == hrefs[i]);
                assert(before.contains(n));
                if !(body_of(hrefs.last()) is Ok) || before.contains(body_of(hrefs.last())->Ok_0) {
                } else {
                    let m = body_of(hrefs.last())->Ok_0;
                    let k = choose|k: int| 0 <= k < before.len() && before[k] == n;
                    assert(before.push(m)[k] == n);
                }
            } else {
                if !before.contains(n) {
                    assert(before.push(n)[before.len() as int] == n);
                }
            }
        }
    }
}

/// Where one of the first lines ends inside a link, the page has such a line.
proof fn lemma_links_in_none(a: Seq<Seq<char>>, b: Seq<Seq<char>>)
    requires
        links_in(a) is None,
    ensures
        links_in(a + b) is None,
    decreases b.len(),
{
    if b.len() == 0 {
        assert(a + b =~= a);
    } else {
        lemma_links_in_none(a, b.drop_last());
        assert((a + b).drop_last() =~= a + b.drop_last());
    }
}

/// An article: its name, and the names of the articles that its page links to.
#[derive(Debug, PartialEq, Eq)]
pub struct Article {
    url: URL,
    references: Vec<URL>,
}

impl View for Article {
    type V = ArticleView;

    closed spec fn view(&self) -> ArticleView {
        ArticleView { url: self.url@, references: names(self.references@) }
    }
}

impl Clone for Article {
    fn clone(&self) -> (r: Self)
        ensures
            r@ == self@,
    {
        proof {
            use_type_invariant(self);
        }
        let references = self.references.clone();
        proof {
            assert(references@ =~= self.references@);
        }
        Article { url: self.url.clone(), references }
    }
}

/// What reading a page has found so far.
struct Reading {
    /// The names found, each once, in the order in which they were found.
    references: UrlSet,
    /// The addresses of the links read.
    hrefs: Ghost<Seq<Seq<char>>>,
}

impl Reading {
    spec fn ok(&self) -> bool {
        &&& self.references.wf()
        &&& self.references.order() == references_of(self.hrefs@)
    }

    fn new() -> (r: Reading)
        ensures
            r.ok(),
            r.hrefs@ == Seq::<Seq<char>>::empty(),
    {
        Reading { references: UrlSet::new(), hrefs: Ghost(Seq::empty()) }
    }

    /// Takes in the link whose address is `href`.
    fn add(&mut self, href: &Vec<char>)
        requires
            old(self).ok(),
        ensures
            final(self).ok(),
            final(self).hrefs@ == old(self).hrefs@.push(href@),
    {
        proof {
            self.references.lemma_order();
            assert(self.hrefs@.push(href@).drop_last() =~= self.hrefs@);
            self.hrefs@ = self.hrefs@.push(href@);
        }
        match URL::from_chars(href) {
            Ok(u) => {
                self.references.insert(&u);
            },
            Err(_) => {},
        }
    }

    /// Takes in the links of the line `cs[lo..hi]`. Says whether the line
    /// ends outside any link.
    fn read_line(&mut self, cs: &Vec<char>, lo: usize, hi: usize, anchor: &Vec<char>, skip: usize) -> (whole:
        bool)
        requires
            old(self).ok(),
            lo <= hi <= cs.len(),
            anchor@ == self::anchor(),
            skip == REFERENCE_PREFIX@.len(),
        ensures
            final(self).ok(),
            whole == links_in_line(cs@.subrange(lo as int, hi as int)) is Some,
            whole ==> final(self).hrefs@ == old(self).hrefs@ + links_in_line(
                cs@.subrange(lo as int, hi as int),
            )->Some_0,
    {
        let ghost line = cs@.subrange(lo as int, hi as int);
        let ghost before = self.hrefs@;
        let ghost mut here: Seq<Seq<char>> = Seq::empty();
        let mut at: usize = lo;
        proof {
            assert(line.skip(0) =~= line);
            assert(before + here =~= before);
            assert(Seq::<Seq<char>>::empty() + links_in_line(line)->Some_0 =~= links_in_line(line)->Some_0);
        }
        while at < hi
            invariant
                self.ok(),
                lo <= at <= hi <= cs.len(),
                line == cs@.subrange(lo as int, hi as int),
                anchor@ == self::anchor(),
                skip == REFERENCE_PREFIX@.len(),
                self.hrefs@ == before + here,
                links_in_line(line) is Some <==> links_in_line(line.skip(at - lo)) is Some,
                links_in_line(line) is Some ==> links_in_line(line)->Some_0 == here + links_in_line(
                    line.skip(at - lo),
                )->Some_0,
            decreases hi - at,
        {
            let ghost tail = line.skip(at - lo);
            proof {
                assert(tail =~= cs@.subrange(at as int, hi as int));
            }
            if begins_with(cs, at, hi, anchor) {
                proof {
                    assert(skip <= anchor@.len() <= tail.len());
                }
                let start = at + skip;
                let ghost rest = tail.skip(skip as int);
                proof {
                    assert(rest =~= cs@.subrange(start as int, hi as int));
                    lemma_index_of_is_first(rest, '"');
                }
                let end = find(cs, start, hi, '"');
                if end == hi {
                    return false;
                }
                let href = slice_of(cs, start, end);
                proof {
                    let q = index_of(rest, '"');
                    assert(href@ =~= rest.take(q));
                    assert(rest.skip(q + 1) =~= line.skip(end + 1 - lo));
                    if links_in_line(line) is Some {
                        let more = links_in_line(rest.skip(q + 1))->Some_0;
                        assert(here + (seq![href@] + more) =~= here.push(href@) + more);
                    }
                    assert(before + here.push(href@) =~= (before + here).push(href@));
                    here = here.push(href@);
                }
                self.add(&href);
                at = end + 1;
            } else {
                proof {
                    assert(tail.skip(1) =~= line.skip(at + 1 - lo));
                }
                at += 1;
            }
        }
        proof {
            assert(line.skip(hi - lo).len() == 0);
            assert(here + Seq::<Seq<char>>::empty() =~= here);
        }
        true
    }
}

impl Article {
    #[verifier::type_invariant]
    spec fn well_formed(self) -> bool {
        names(self.references@).no_duplicates()
    }

    /// The article named `url` that refers to no article.
    pub fn new(url: URL) -> (a: Article)
        ensures
            a@ == (ArticleView { url: url@, references: Seq::empty() }),
    {
        let a = Article { url, references: Vec::new() };
        proof {
            assert(names(a.references@) =~= Seq::<Seq<char>>::empty());
        }
        a
    }

    /// The article named `url` as its page `site` shows it: it refers to each
    /// article that a link of the page leads to, once. A link whose address
    /// is that of no article is passed over. Fails where a line of the page
    /// ends inside a link.
    pub fn parse(url: URL, site: String) -> (r: Result<Article, ArticleErr>)
        ensures
            match r {
                Ok(a) => parsed(url@, site@) == Some(a@),
                Err(e) => e == ArticleErr::UnexpectedEOL && parsed(url@, site@) is None,
            },
    {
        let cs = chars_of(site.as_str());
        let n = cs.len();
        let mut mark = chars_of(REFERENCE_PREFIX);
        let skip = mark.len();
        let mut path = chars_of(WIKI_ARTICLE_PREFIX);
        mark.append(&mut path);
        let mut reading = Reading::new();
        let ghost mut done: Seq<Seq<char>> = Seq::empty();
        let mut at: usize = 0;
        proof {
            assert(cs@.skip(0) =~= cs@);
            assert(done + lines(cs@) =~= lines(cs@));
        }
        while at < n
            invariant
                n == cs.len(),
                at <= n,
                cs@ == site@,
                mark@ == anchor(),
                skip == REFERENCE_PREFIX@.len(),
                reading.ok(),
                lines(cs@) == done + lines(cs@.skip(at as int)),
                links_in(done) == Some(reading.hrefs@),
            decreases n - at,
        {
            let end = find(&cs, at, n, '\n');
            let ghost tail = cs@.skip(at as int);
            proof {
                assert(tail =~= cs@.subrange(at as int, n as int));
                lemma_index_of_is_first(tail, '\n');
            }
            let stop: usize = if end < n && end > at && cs[end - 1] == '\r' {
                end - 1
            } else {
                end
            };
            let next: usize = if end < n {
                end + 1
            } else {
                n
            };
            let ghost line = cs@.subrange(at as int, stop as int);
            proof {
                let k = index_of(tail, '\n');
                assert(k == end - at);
                if end < n {
                    assert(tail.take(k) =~= cs@.subrange(at as int, end as int));
                    assert(line =~= without_cr(tail.take(k)));
                    assert(tail.skip(k + 1) =~= cs@.skip(next as int));
                } else {
                    assert(line =~= tail);
                    assert(cs@.skip(next as int) =~= Seq::<char>::empty());
                    assert(seq![line] + lines(cs@.skip(next as int)) =~= seq![line]);
                }
                assert(lines(tail) == seq![line] + lines(cs@.skip(next as int)));
                assert(done + (seq![line] + lines(cs@.skip(next as int))) =~= done.push(line) + lines(
                    cs@.skip(next as int),
                ));
                assert(done.push(line).drop_last() =~= done);
            }
            if !reading.read_line(&cs, at, stop, &mark, skip) {
                proof {
                    assert(links_in(done.push(line)) is None);
                    lemma_links_in_none(done.push(line), lines(cs@.skip(next as int)));
                }
                return Err(ArticleErr::UnexpectedEOL);
            }
            proof {
                done = done.push(line);
            }
            at = next;
        }
        proof {
            assert(cs@.skip(n as int) =~= Seq::<char>::empty());
            assert(done + Seq::<Seq<char>>::empty() =~= done);
            lemma_references_are_distinct(reading.hrefs@);
        }
        Ok(Article { url, references: reading.references.into_vec() })
    }

    /// The name of the article.
    pub fn get_url(&self) -> (u: URL)
        ensures
            u@ == self@.url,
    {
        self.url.clone()
    }

    /// The name of the article, as it stands in its address.
    pub fn name(&self) -> (s: &str)
        ensures
            s@ == self@.url,
    {
        self.url.as_str()
    }

    /// The names of the articles that this one refers to.
    pub fn references(&self) -> (r: &Vec<URL>)
        ensures
            names(r@) == self@.references,
            self@.references.no_duplicates(),
    {
        proof {
            use_type_invariant(self);
        }
        &self.references
    }
}

} // verus!
