//! A plain test of whether an address is that of an article.

use crate::text::{begins_with, chars_of};
use crate::url::{first_prefix_of, texts, Rejection};
use vstd::prelude::*;
use vstd::string::StringExecFns;

verus! {

/// How the address of every article begins.
pub const WIKI_ARTICLE_PREFIX: &'static str = "https://en.wikipedia.org/wiki/";

/// How a page that is no article can begin, behind `WIKI_ARTICLE_PREFIX`.
pub const WIKI_ARTICLE_BLACKLIST: [&'static str; 4] = ["Main_Page", "Help:", "Wikipedia:", "Special:"];

/// Why an address is not that of an article.
#[derive(Debug, PartialEq, Eq)]
pub enum ArticleErr {
    /// The address does not begin with `WIKI_ARTICLE_PREFIX`.
    MissingPrefix,
    /// The page is of a kind that is no article. Holds the beginning that
    /// says so.
    BlacklistedPrefix(String),
}

impl View for ArticleErr {
    type V = Rejection;

    open spec fn view(&self) -> Rejection {
        match self {
            ArticleErr::MissingPrefix => Rejection::MissingPrefix,
            ArticleErr::BlacklistedPrefix(p) => Rejection::BlacklistedPrefix(p@),
        }
    }
}

impl ArticleErr {
    /// What went wrong, in words.
    pub open spec fn message(&self) -> Seq<char> {
        match self {
            ArticleErr::MissingPrefix => "Missing prefix."@,
            ArticleErr::BlacklistedPrefix(p) => "Blacklisted article prefix found. ("@ + p@ + ")"@,
        }
    }

    /// What went wrong, in words.
    pub fn to_string(&self) -> (s: String)
        ensures
            s@ == self.message(),
    {
        match self {
            ArticleErr::MissingPrefix => String::from_str("Missing prefix."),
            ArticleErr::BlacklistedPrefix(p) => String::from_str(
                "Blacklisted article prefix found. (",
            ).concat(p.as_str()).concat(")"),
        }
    }
}

/// `s` without `p` at its beginning, as often as `p` stands there.
pub open spec fn without_leading(s: Seq<char>, p: Seq<char>) -> Seq<char>
    decreases s.len(),
{
    if p.len() > 0 && p.is_prefix_of(s) {
        without_leading(s.skip(p.len() as int), p)
    } else {
        s
    }
}

/// Why `s` is not the address of an article, if it is not: it does not
/// begin with `WIKI_ARTICLE_PREFIX`, or what follows every such beginning
/// begins with a text of `WIKI_ARTICLE_BLACKLIST`.
pub open spec fn refused(s: Seq<char>) -> Option<Rejection> {
    if !WIKI_ARTICLE_PREFIX@.is_prefix_of(s) {
        Some(Rejection::MissingPrefix)
    } else {
        match first_prefix_of(without_leading(s, WIKI_ARTICLE_PREFIX@), texts(WIKI_ARTICLE_BLACKLIST@)) {
            Some(p) => Some(Rejection::BlacklistedPrefix(p)),
            None => None,
        }
    }
}

/// Tests whether `url` is the address of an article.
pub fn validate_wikipedia_article(url: &str) -> (r: Result<(), ArticleErr>)
    ensures
        match r {
            Ok(_) => refused(url@) is None,
            Err(e) => refused(url@) == Some(e@),
        },
{
    let cs = chars_of(url);
    let n = cs.len();
    let prefix = chars_of(WIKI_ARTICLE_PREFIX);
    proof {
        assert(cs@.subrange(0, n as int) =~= cs@);
    }
    if !begins_with(&cs, 0, n, &prefix) {
        return Err(ArticleErr::MissingPrefix);
    }
    let mut at: usize = 0;
    if prefix.len() > 0 {
        while begins_with(&cs, at, n, &prefix)
            invariant
                at <= n,
                n == cs.len(),
                prefix.len() > 0,
                prefix@ == WIKI_ARTICLE_PREFIX@,
                without_leading(cs@, prefix@) == without_leading(cs@.subrange(at as int, n as int), prefix@),
            decreases n - at,
        {
            proof {
                let tail = cs@.subrange(at as int, n as int);
                assert(tail.skip(prefix.len() as int) =~= cs@.subrange(at + prefix.len(), n as int));
                assert(without_leading(tail, prefix@) == without_leading(
                    tail.skip(prefix.len() as int),
                    prefix@,
                ));
            }
            at += prefix.len();
        }
    }
    let ghost rest = cs@.subrange(at as int, n as int);
    proof {
        assert(without_leading(cs@, WIKI_ARTICLE_PREFIX@) == rest);
    }
    let ghost list = texts(WIKI_ARTICLE_BLACKLIST@);
    let mut i: usize = 0;
    proof {
        assert(list.skip(0) =~= list);
    }
    while i < 4
        invariant
            at <= n,
            n == cs.len(),
            i <= 4,
            rest == cs@.subrange(at as int, n as int),
            cs@ == url@,
            WIKI_ARTICLE_PREFIX@.is_prefix_of(url@),
            without_leading(url@, WIKI_ARTICLE_PREFIX@) == rest,
            list == texts(WIKI_ARTICLE_BLACKLIST@),
            list.len() == 4,
            first_prefix_of(rest, list) == first_prefix_of(rest, list.skip(i as int)),
        decreases 4 - i,
    {
        let p = WIKI_ARTICLE_BLACKLIST[i];
        let pat = chars_of(p);
        proof {
            assert(list.skip(i as int)[0] == pat@);
            assert(list.skip(i as int).drop_first() =~= list.skip(i + 1));
        }
        if begins_with(&cs, at, n, &pat) {
            return Err(ArticleErr::BlacklistedPrefix(String::from_str(p)));
        }
        i += 1;
    }
    Ok(())
}

} // verus!
