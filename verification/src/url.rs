//! The name of an article, as found in its address.

use crate::config::{
    WIKI_ARTICLE_PREFIX, WIKI_ARTICLE_PREFIX_BLACKLIST, WIKI_ARTICLE_SUFFIX_BLACKLIST, WIKI_DOMAIN,
};
use crate::text::{
    begins_with, chars_of, ends_with, find, index_of, lemma_index_of, lemma_index_of_is_first, lines,
    slice_of, string_of, without_cr,
};
use vstd::prelude::*;
use vstd::string::StringExecFns;

verus! {

/// Why a text is not the address of an article.
#[derive(Debug, PartialEq, Eq)]
pub enum URLErr {
    /// The text does not begin with `WIKI_ARTICLE_PREFIX`, with or without
    /// `WIKI_DOMAIN` before it.
    MissingPrefix,
    /// The page is of a kind that is no article. Holds the beginning that
    /// says so, or nothing where the name holds a colon.
    BlacklistedPrefix(String),
    /// The page is of a kind that is no article. Holds the ending that says so.
    BlacklistedSuffix(String),
}

/// What a `URLErr` says, with texts as sequences of characters.
pub enum Rejection {
    MissingPrefix,
    BlacklistedPrefix(Seq<char>),
    BlacklistedSuffix(Seq<char>),
}

impl View for URLErr {
    type V = Rejection;

    open spec fn view(&self) -> Rejection {
        match self {
            URLErr::MissingPrefix => Rejection::MissingPrefix,
            URLErr::BlacklistedPrefix(p) => Rejection::BlacklistedPrefix(p@),
            URLErr::BlacklistedSuffix(p) => Rejection::BlacklistedSuffix(p@),
        }
    }
}

impl URLErr {
    /// What went wrong, in words.
    pub open spec fn message(&self) -> Seq<char> {
        match self {
            URLErr::MissingPrefix => "Missing prefix."@,
            URLErr::BlacklistedPrefix(p) => "Blacklisted article prefix found. ("@ + p@ + ")"@,
            URLErr::BlacklistedSuffix(p) => "Blacklisted article suffix found. ("@ + p@ + ")"@,
        }
    }

    /// What went wrong, in words.
    pub fn to_string(&self) -> (s: String)
        ensures
            s@ == self.message(),
    {
        match self {
            URLErr::MissingPrefix => String::from_str("Missing prefix."),
            URLErr::BlacklistedPrefix(p) => String::from_str("Blacklisted article prefix found. (").concat(
                p.as_str(),
            ).concat(")"),
            URLErr::BlacklistedSuffix(p) => String::from_str("Blacklisted article suffix found. (").concat(
                p.as_str(),
            ).concat(")"),
        }
    }
}

/// The texts of `list`.
pub open spec fn texts(list: Seq<&'static str>) -> Seq<Seq<char>> {
    list.map_values(|p: &'static str| p@)
}

/// The first text of `list` that `s` begins with.
pub open spec fn first_prefix_of(s: Seq<char>, list: Seq<Seq<char>>) -> Option<Seq<char>>
    decreases list.len(),
{
    if list.len() == 0 {
        None
    } else if list[0].is_prefix_of(s) {
        Some(list[0])
    } else {
        first_prefix_of(s, list.drop_first())
    }
}

/// The first text of `list` that `s` ends with.
pub open spec fn first_suffix_of(s: Seq<char>, list: Seq<Seq<char>>) -> Option<Seq<char>>
    decreases list.len(),
{
    if list.len() == 0 {
        None
    } else if list[0].is_suffix_of(s) {
        Some(list[0])
    } else {
        first_suffix_of(s, list.drop_first())
    }
}

/// `s` behind `WIKI_DOMAIN`, where it begins with that.
pub open spec fn without_domain(s: Seq<char>) -> Seq<char> {
    if WIKI_DOMAIN@.is_prefix_of(s) {
        s.skip(WIKI_DOMAIN@.len() as int)
    } else {
        s
    }
}

/// The name of the article whose address `s` is, or why `s` is no such
/// address.
///
/// The address may begin with `WIKI_DOMAIN` and must go on with
/// `WIKI_ARTICLE_PREFIX`. What follows may hold no colon and may not begin
/// with a text of `WIKI_ARTICLE_PREFIX_BLACKLIST`. The name is what follows
/// up to the first `#`, and may not end with a text of
/// `WIKI_ARTICLE_SUFFIX_BLACKLIST`.
pub open spec fn body_of(s: Seq<char>) -> Result<Seq<char>, Rejection> {
    let path = without_domain(s);
    if !WIKI_ARTICLE_PREFIX@.is_prefix_of(path) {
        Err(Rejection::MissingPrefix)
    } else {
        let rest = path.skip(WIKI_ARTICLE_PREFIX@.len() as int);
        let name = rest.take(index_of(rest, '#'));
        if rest.contains(':') {
            Err(Rejection::BlacklistedPrefix(Seq::empty()))
        } else if let Some(p) = first_prefix_of(rest, texts(WIKI_ARTICLE_PREFIX_BLACKLIST@)) {
            Err(Rejection::BlacklistedPrefix(p))
        } else if let Some(p) = first_suffix_of(name, texts(WIKI_ARTICLE_SUFFIX_BLACKLIST@)) {
            Err(Rejection::BlacklistedSuffix(p))
        } else {
            Ok(name)
        }
    }
}

/// `n` can be the name of an article.
pub open spec fn is_article_name(n: Seq<char>) -> bool {
    &&& !n.contains(':')
    &&& !n.contains('#')
    &&& first_prefix_of(n, texts(WIKI_ARTICLE_PREFIX_BLACKLIST@)) is None
    &&& first_suffix_of(n, texts(WIKI_ARTICLE_SUFFIX_BLACKLIST@)) is None
}

/// The address of the article named `n`.
pub open spec fn address_of(n: Seq<char>) -> Seq<char> {
    WIKI_DOMAIN@ + WIKI_ARTICLE_PREFIX@ + n
}

/// `n` with a space for each underscore.
pub open spec fn readable(n: Seq<char>) -> Seq<char> {
    n.map_values(
        |c: char|
            if c == '_' {
                ' '
            } else {
                c
            },
    )
}

/// The names that the lines `ls` give, in the order of the lines. A line
/// that is no address of an article gives none.
pub open spec fn bodies_of(ls: Seq<Seq<char>>) -> Seq<Seq<char>>
    decreases ls.len(),
{
    if ls.len() == 0 {
        Seq::empty()
    } else {
        match body_of(ls[0]) {
            Ok(n) => seq![n] + bodies_of(ls.drop_first()),
            Err(_) => bodies_of(ls.drop_first()),
        }
    }
}

/// The names of `us`, in order.
pub open spec fn names(us: Seq<URL>) -> Seq<Seq<char>> {
    us.map_values(|u: URL| u@)
}

proof fn lemma_no_prefix_of_shorter(s: Seq<char>, k: int, list: Seq<Seq<char>>)
    requires
        0 <= k <= s.len(),
        first_prefix_of(s, list) is None,
    ensures
        first_prefix_of(s.take(k), list) is None,
    decreases list.len(),
{
    if list.len() > 0 {
        if list[0].is_prefix_of(s.take(k)) {
            assert(list[0] =~= s.subrange(0, list[0].len() as int));
        }
        lemma_no_prefix_of_shorter(s, k, list.drop_first());
    }
}

/// A name that `body_of` gives can be the name of an article.
pub proof fn lemma_body_is_article_name(s: Seq<char>)
    requires
        body_of(s) is Ok,
    ensures
        is_article_name(body_of(s)->Ok_0),
{
    let path = without_domain(s);
    let rest = path.skip(WIKI_ARTICLE_PREFIX@.len() as int);
    let k = index_of(rest, '#');
    let name = rest.take(k);
    lemma_index_of_is_first(rest, '#');
    lemma_no_prefix_of_shorter(rest, k, texts(WIKI_ARTICLE_PREFIX_BLACKLIST@));
    if name.contains(':') {
        let i = choose|i: int| 0 <= i < name.len() && name[i] == ':';
        assert(rest[i] == ':');
    }
    if name.contains('#') {
        let i = choose|i: int| 0 <= i < name.len() && name[i] == '#';
        assert(rest[i] == '#');
    }
}

/// The address of an article gives the article's name back.
pub proof fn lemma_address_gives_name(n: Seq<char>)
    requires
        is_article_name(n),
    ensures
        body_of(address_of(n)) == Ok::<Seq<char>, Rejection>(n),
{
    let s = address_of(n);
    assert(WIKI_DOMAIN@ =~= s.subrange(0, WIKI_DOMAIN@.len() as int));
    let path = without_domain(s);
    assert(path =~= WIKI_ARTICLE_PREFIX@ + n);
    assert(WIKI_ARTICLE_PREFIX@ =~= path.subrange(0, WIKI_ARTICLE_PREFIX@.len() as int));
    let rest = path.skip(WIKI_ARTICLE_PREFIX@.len() as int);
    assert(rest =~= n);
    lemma_index_of(n, '#', n.len() as int);
    assert(n.take(n.len() as int) =~= n);
}

/// The name of an article of the encyclopedia.
#[derive(Debug, Hash, PartialEq, Eq, PartialOrd, Ord)]
pub struct URL {
    name: String,
}

impl View for URL {
    type V = Seq<char>;

    closed spec fn view(&self) -> Seq<char> {
        self.name@
    }
}

impl Clone for URL {
    fn clone(&self) -> (r: Self)
        ensures
            r == *self,
    {
        proof {
            use_type_invariant(self);
        }
        URL { name: self.name.clone() }
    }
}

/// Where in `cs` the name of the article stands whose address `cs` is.
fn body_range(cs: &Vec<char>) -> (r: Result<(usize, usize), URLErr>)
    ensures
        match r {
            Ok((lo, hi)) => lo <= hi <= cs.len() && body_of(cs@) == Ok::<Seq<char>, Rejection>(
                cs@.subrange(lo as int, hi as int),
            ),
            Err(e) => body_of(cs@) == Err::<Seq<char>, Rejection>(e@),
        },
{
    let n = cs.len();
    let domain = chars_of(WIKI_DOMAIN);
    let prefix = chars_of(WIKI_ARTICLE_PREFIX);
    proof {
        assert(cs@.subrange(0, n as int) =~= cs@);
    }
    let at: usize = if begins_with(cs, 0, n, &domain) {
        domain.len()
    } else {
        0
    };
    let ghost path = without_domain(cs@);
    proof {
        assert(path =~= cs@.subrange(at as int, n as int));
    }
    if !begins_with(cs, at, n, &prefix) {
        return Err(URLErr::MissingPrefix);
    }
    let lo = at + prefix.len();
    let ghost rest = path.skip(WIKI_ARTICLE_PREFIX@.len() as int);
    proof {
        assert(rest =~= cs@.subrange(lo as int, n as int));
        lemma_index_of_is_first(rest, ':');
    }
    if find(cs, lo, n, ':') < n {
        return Err(URLErr::BlacklistedPrefix(String::new()));
    }
    match first_prefix(cs, lo, n) {
        Some(p) => {
            return Err(URLErr::BlacklistedPrefix(p));
        },
        None => {},
    }
    let hi = find(cs, lo, n, '#');
    proof {
        assert(rest.take(index_of(rest, '#')) =~= cs@.subrange(lo as int, hi as int));
    }
    match first_suffix(cs, lo, hi) {
        Some(p) => Err(URLErr::BlacklistedSuffix(p)),
        None => Ok((lo, hi)),
    }
}

/// The first text of `WIKI_ARTICLE_PREFIX_BLACKLIST` that `cs[lo..hi]` begins with.
fn first_prefix(cs: &Vec<char>, lo: usize, hi: usize) -> (r: Option<String>)
    requires
        lo <= hi <= cs.len(),
    ensures
        match r {
            Some(p) => first_prefix_of(
                cs@.subrange(lo as int, hi as int),
                texts(WIKI_ARTICLE_PREFIX_BLACKLIST@),
            ) == Some(p@),
            None => first_prefix_of(
                cs@.subrange(lo as int, hi as int),
                texts(WIKI_ARTICLE_PREFIX_BLACKLIST@),
            ) is None,
        },
{
    let ghost s = cs@.subrange(lo as int, hi as int);
    let ghost list = texts(WIKI_ARTICLE_PREFIX_BLACKLIST@);
    let mut i: usize = 0;
    proof {
        assert(list.skip(0) =~= list);
    }
    while i < 8
        invariant
            lo <= hi <= cs.len(),
            i <= 8,
            s == cs@.subrange(lo as int, hi as int),
            list == texts(WIKI_ARTICLE_PREFIX_BLACKLIST@),
            list.len() == 8,
            first_prefix_of(s, list) == first_prefix_of(s, list.skip(i as int)),
        decreases 8 - i,
    {
        let p = WIKI_ARTICLE_PREFIX_BLACKLIST[i];
        let pat = chars_of(p);
        proof {
            assert(list.skip(i as int)[0] == pat@);
            assert(list.skip(i as int).drop_first() =~= list.skip(i + 1));
        }
        if begins_with(cs, lo, hi, &pat) {
            return Some(String::from_str(p));
        }
        i += 1;
    }
    None
}

/// The first text of `WIKI_ARTICLE_SUFFIX_BLACKLIST` that `cs[lo..hi]` ends with.
fn first_suffix(cs: &Vec<char>, lo: usize, hi: usize) -> (r: Option<String>)
    requires
        lo <= hi <= cs.len(),
    ensures
        match r {
            Some(p) => first_suffix_of(
                cs@.subrange(lo as int, hi as int),
                texts(WIKI_ARTICLE_SUFFIX_BLACKLIST@),
            ) == Some(p@),
            None => first_suffix_of(
                cs@.subrange(lo as int, hi as int),
                texts(WIKI_ARTICLE_SUFFIX_BLACKLIST@),
            ) is None,
        },
{
    let ghost s = cs@.subrange(lo as int, hi as int);
    let ghost list = texts(WIKI_ARTICLE_SUFFIX_BLACKLIST@);
    let mut i: usize = 0;
    proof {
        assert(list.skip(0) =~= list);
    }
    while i < 1
        invariant
            lo <= hi <= cs.len(),
            i <= 1,
            s == cs@.subrange(lo as int, hi as int),
            list == texts(WIKI_ARTICLE_SUFFIX_BLACKLIST@),
            list.len() == 1,
            first_suffix_of(s, list) == first_suffix_of(s, list.skip(i as int)),
        decreases 1 - i,
    {
        let p = WIKI_ARTICLE_SUFFIX_BLACKLIST[i];
        let pat = chars_of(p);
        proof {
            assert(list.skip(i as int)[0] == pat@);
            assert(list.skip(i as int).drop_first() =~= list.skip(i + 1));
        }
        if ends_with(cs, lo, hi, &pat) {
            return Some(String::from_str(p));
        }
        i += 1;
    }
    None
}

impl URL {
    #[verifier::type_invariant]
    spec fn well_formed(self) -> bool {
        is_article_name(self.name@)
    }

    /// The name of the article whose address `url` is.
    pub fn new(url: &str) -> (r: Result<URL, URLErr>)
        ensures
            match r {
                Ok(u) => body_of(url@) == Ok::<Seq<char>, Rejection>(u@),
                Err(e) => body_of(url@) == Err::<Seq<char>, Rejection>(e@),
            },
    {
        match URL::extract_body(url) {
            Ok(body) => {
                proof {
                    lemma_body_is_article_name(url@);
                }
                Ok(URL { name: body.to_owned() })
            },
            Err(e) => Err(e),
        }
    }

    /// The name of the article whose address the characters `cs` are.
    pub fn from_chars(cs: &Vec<char>) -> (r: Result<URL, URLErr>)
        ensures
            match r {
                Ok(u) => body_of(cs@) == Ok::<Seq<char>, Rejection>(u@),
                Err(e) => body_of(cs@) == Err::<Seq<char>, Rejection>(e@),
            },
    {
        match body_range(cs) {
            Ok((lo, hi)) => {
                proof {
                    lemma_body_is_article_name(cs@);
                }
                Ok(URL { name: string_of(cs, lo, hi) })
            },
            Err(e) => Err(e),
        }
    }

    /// The names of the articles whose addresses stand in `contents`, one to
    /// a line, in the order of the lines. A line that is no address of an
    /// article is passed over.
    pub fn new_list(contents: &String) -> (r: Vec<URL>)
        ensures
            names(r@) == bodies_of(lines(contents@)),
    {
        let cs = chars_of(contents.as_str());
        let n = cs.len();
        let mut r: Vec<URL> = Vec::new();
        let mut at: usize = 0;
        proof {
            assert(cs@.skip(0) =~= cs@);
            assert(names(r@) =~= Seq::<Seq<char>>::empty());
            assert(names(r@) + bodies_of(lines(cs@.skip(0))) =~= bodies_of(lines(cs@)));
        }
        while at < n
            invariant
                n == cs.len(),
                at <= n,
                cs@ == contents@,
                bodies_of(lines(cs@)) == names(r@) + bodies_of(lines(cs@.skip(at as int))),
            decreases n - at,
        {
            let end = find(&cs, at, n, '\n');
            let ghost tail = cs@.skip(at as int);
            let ghost before = names(r@);
            proof {
                assert(tail =~= cs@.subrange(at as int, n as int));
                lemma_index_of_is_first(tail, '\n');
            }
            let stop: usize = if end < n && end > at && cs[end - 1] == '\r' {
                end - 1
            } else {
                end
            };
            let next: usize = if end < n {
                end + 1
            } else {
                n
            };
            let line = slice_of(&cs, at, stop);
            proof {
                let k = index_of(tail, '\n');
                assert(k == end - at);
                if end < n {
                    assert(tail.take(k) =~= cs@.subrange(at as int, end as int));
                    assert(line@ =~= without_cr(tail.take(k)));
                    assert(tail.skip(k + 1) =~= cs@.skip(next as int));
                    assert(lines(tail) == seq![line@] + lines(cs@.skip(next as int)));
                } else {
                    assert(line@ =~= tail);
                    assert(lines(tail) == seq![line@]);
                    assert(cs@.skip(next as int) =~= Seq::<char>::empty());
                    assert(lines(tail) =~= seq![line@] + lines(cs@.skip(next as int)));
                }
                assert(lines(tail)[0] == line@);
                assert(lines(tail).drop_first() =~= lines(cs@.skip(next as int)));
            }
            match URL::from_chars(&line) {
                Ok(u) => {
                    r.push(u);
                    proof {
                        assert(names(r@) =~= before + seq![u@]);
                        assert(before + (seq![u@] + bodies_of(lines(cs@.skip(next as int)))) =~= (before
                            + seq![u@]) + bodies_of(lines(cs@.skip(next as int))));
                    }
                },
                Err(_) => {},
            }
            at = next;
        }
        proof {
            assert(cs@.skip(n as int) =~= Seq::<char>::empty());
            assert(names(r@) + Seq::<Seq<char>>::empty() =~= names(r@));
        }
        r
    }

    /// The name of the article whose address `url` is, as a part of `url`.
    pub fn extract_body(url: &str) -> (r: Result<&str, URLErr>)
        ensures
            match r {
                Ok(b) => body_of(url@) == Ok::<Seq<char>, Rejection>(b@),
                Err(e) => body_of(url@) == Err::<Seq<char>, Rejection>(e@),
            },
    {
        let cs = chars_of(url);
        match body_range(&cs) {
            Ok((lo, hi)) => Ok(url.substring_char(lo, hi)),
            Err(e) => Err(e),
        }
    }

    /// The address of the article.
    pub fn to_string(&self) -> (s: String)
        ensures
            s@ == address_of(self@),
            body_of(s@) == Ok::<Seq<char>, Rejection>(self@),
    {
        proof {
            use_type_invariant(self);
            lemma_address_gives_name(self@);
        }
        let mut s = String::from_str(WIKI_DOMAIN);
        s.append(WIKI_ARTICLE_PREFIX);
        s.append(self.name.as_str());
        s
    }

    /// The name of the article as it is read: with a space for each underscore.
    pub fn get_name(&self) -> (s: String)
        ensures
            s@ == readable(self@),
    {
        let cs = chars_of(self.name.as_str());
        let mut s = String::new();
        let mut i: usize = 0;
        while i < cs.len()
            invariant
                i <= cs.len(),
                s@ == readable(cs@.take(i as int)),
            decreases cs.len() - i,
        {
            let c = cs[i];
            s.push(
                if c == '_' {
                    ' '
                } else {
                    c
                },
            );
            proof {
                assert(readable(cs@.take(i + 1)) =~= readable(cs@.take(i as int)).push(
                    if c == '_' {
                        ' '
                    } else {
                        c
                    },
                ));
            }
            i += 1;
        }
        proof {
            assert(cs@.take(cs.len() as int) =~= cs@);
        }
        s
    }

    /// The name of the article as it stands in its address.
    pub fn as_str(&self) -> (s: &str)
        ensures
            s@ == self@,
    {
        self.name.as_str()
    }

    /// Whether `self` and `other` name the same article.
    pub fn same(&self, other: &URL) -> (r: bool)
        ensures
            r == (self@ == other@),
    {
        self.name == other.name
    }
}

} // verus!
