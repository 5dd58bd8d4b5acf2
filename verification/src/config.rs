//! The names under which the encyclopedia is read, and what the program is
//! asked to do.

use crate::text::{chars_of, lines};
use crate::url::{bodies_of, names, URL};
use vstd::prelude::*;
use vstd::std_specs::iter::IteratorSpec;
use vstd::string::StringExecFns;

verus! {

/// The path under which every article of the encyclopedia stands.
pub const WIKI_ARTICLE_PREFIX: &'static str = "/wiki/";

/// The scheme and host of the encyclopedia.
pub const WIKI_DOMAIN: &'static str = "https://en.wikipedia.org";

/// How a page that is no article can begin, behind `WIKI_ARTICLE_PREFIX`.
pub const WIKI_ARTICLE_PREFIX_BLACKLIST: [&'static str; 8] = [
    "Category:",
    "Talk:",
    "Main_Page",
    "Help:",
    "Wikipedia:",
    "Special:",
    "File:",
    "Portal:",
];

/// How a page that is no article can end.
pub const WIKI_ARTICLE_SUFFIX_BLACKLIST: [&'static str; 1] = ["_(disambiguation)"];

/// How a link begins in the markup of a page.
pub const REFERENCE_PREFIX: &'static str = "<a href=\"";

/// Why the program cannot begin.
#[derive(Debug, PartialEq, Eq)]
pub enum ConfigErr {
    /// An argument is wanting: the depth of the search, or the file of addresses.
    TooFewArguments,
    /// There are arguments behind the file of addresses.
    TooManyArguments,
    /// The argument that should give the depth of the search is no number.
    /// Holds that argument.
    IntParseError(String),
    /// The file names no article.
    NoValidUrls,
}

impl ConfigErr {
    /// What went wrong, in words.
    pub open spec fn message(&self) -> Seq<char> {
        match self {
            ConfigErr::TooFewArguments => "Found too few arguments. (expected: 2)"@,
            ConfigErr::TooManyArguments => "Found too many arguments. (expected: 2)"@,
            ConfigErr::IntParseError(arg) => "Could not parse search depth. (found "@ + arg@ + ")"@,
            ConfigErr::NoValidUrls => "Found no valid urls in the file."@,
        }
    }

    /// What went wrong, in words.
    pub fn to_string(&self) -> (s: String)
        ensures
            s@ == self.message(),
    {
        match self {
            ConfigErr::TooFewArguments => String::from_str("Found too few arguments. (expected: 2)"),
            ConfigErr::TooManyArguments => String::from_str("Found too many arguments. (expected: 2)"),
            ConfigErr::IntParseError(arg) => String::from_str("Could not parse search depth. (found ").concat(
                arg.as_str(),
            ).concat(")"),
            ConfigErr::NoValidUrls => String::from_str("Found no valid urls in the file."),
        }
    }
}

/// What a `ConfigErr` says, with texts as sequences of characters.
pub enum Refusal {
    TooFewArguments,
    TooManyArguments,
    IntParseError(Seq<char>),
    NoValidUrls,
}

impl View for ConfigErr {
    type V = Refusal;

    open spec fn view(&self) -> Refusal {
        match self {
            ConfigErr::TooFewArguments => Refusal::TooFewArguments,
            ConfigErr::TooManyArguments => Refusal::TooManyArguments,
            ConfigErr::IntParseError(arg) => Refusal::IntParseError(arg@),
            ConfigErr::NoValidUrls => Refusal::NoValidUrls,
        }
    }
}

/// The number that the decimal digits `s` write, or `None` where `s` holds
/// anything but digits.
pub open spec fn number_of(s: Seq<char>) -> Option<nat>
    decreases s.len(),
{
    if s.len() == 0 {
        Some(0)
    } else {
        match number_of(s.drop_last()) {
            Some(v) => if '0' <= s.last() <= '9' {
                Some(v * 10 + (s.last() as nat - '0' as nat) as nat)
            } else {
                None
            },
            None => None,
        }
    }
}

/// The depth that the argument `s` gives: the number that its digits write,
/// where it is made of one digit or more, with or without a `+` before them,
/// and the number is no greater than a `u32` can be.
pub open spec fn depth_of(s: Seq<char>) -> Option<u32> {
    let digits = if s.len() > 0 && s[0] == '+' {
        s.skip(1)
    } else {
        s
    };
    match number_of(digits) {
        Some(v) => if digits.len() > 0 && v <= u32::MAX {
            Some(v as u32)
        } else {
            None
        },
        None => None,
    }
}

/// What the arguments `args` ask for: the depth of the search and the name
/// of the file of addresses. The first argument is the program's own name
/// and is passed over.
pub open spec fn asked(args: Seq<Seq<char>>) -> Result<(u32, Seq<char>), Refusal> {
    if args.len() < 2 {
        Err(Refusal::TooFewArguments)
    } else if depth_of(args[1]) is None {
        Err(Refusal::IntParseError(args[1]))
    } else if args.len() < 3 {
        Err(Refusal::TooFewArguments)
    } else if args.len() > 3 {
        Err(Refusal::TooManyArguments)
    } else {
        Ok((depth_of(args[1])->Some_0, args[2]))
    }
}

/// The depth that the argument `arg` gives.
pub fn parse_depth(arg: &str) -> (r: Option<u32>)
    ensures
        r == depth_of(arg@),
{
    let cs = chars_of(arg);
    let n = cs.len();
    let from: usize = if n > 0 && cs[0] == '+' {
        1
    } else {
        0
    };
    if from == n {
        return None;
    }
    let ghost digits = cs@.skip(from as int);
    let mut acc: u64 = 0;
    let mut over = false;
    let mut i: usize = from;
    proof {
        assert(digits.take(0) =~= Seq::<char>::empty());
        assert(cs@.skip(0) =~= cs@);
        assert(digits == if arg@.len() > 0 && arg@[0] == '+' {
            arg@.skip(1)
        } else {
            arg@
        });
    }
    while i < n
        invariant
            from <= i <= n,
            from < n,
            n == cs.len(),
            cs@ == arg@,
            digits == cs@.skip(from as int),
            digits == if arg@.len() > 0 && arg@[0] == '+' {
                arg@.skip(1)
            } else {
                arg@
            },
            number_of(digits.take(i - from)) is Some,
            over ==> number_of(digits.take(i - from))->Some_0 > u32::MAX,
            !over ==> number_of(digits.take(i - from))->Some_0 == acc,
            acc <= u32::MAX,
        decreases n - i,
    {
        let c = cs[i];
        proof {
            assert(digits.take(i + 1 - from).drop_last() =~= digits.take(i - from));
            assert(digits.take(i + 1 - from).last() == c);
        }
        if !('0' <= c && c <= '9') {
            proof {
                lemma_number_of_none(digits, i + 1 - from);
            }
            return None;
        }
        if !over {
            let next = acc * 10 + (c as u64 - '0' as u64);
            if next > u32::MAX as u64 {
                over = true;
            } else {
                acc = next;
            }
        }
        i += 1;
    }
    proof {
        assert(digits.take(n - from) =~= digits);
    }
    if over {
        None
    } else {
        Some(acc as u32)
    }
}

/// Where the first characters of `s` are not all digits, `s` writes no number.
proof fn lemma_number_of_none(s: Seq<char>, k: int)
    requires
        0 <= k <= s.len(),
        number_of(s.take(k)) is None,
    ensures
        number_of(s) is None,
    decreases s.len() - k,
{
    if k < s.len() {
        assert(s.take(k + 1).drop_last() =~= s.take(k));
        lemma_number_of_none(s, k + 1);
    } else {
        assert(s.take(k) =~= s);
    }
}

/// What the program is asked to do.
pub struct Config {
    /// The articles to begin with.
    pub urls: Vec<URL>,
    /// How deep to search.
    pub depth: u32,
}

impl Config {
    /// What the arguments `args` of the program ask for: the depth of the
    /// search, and the name of the file that holds the addresses of the
    /// articles to begin with.
    pub fn arguments(args: &Vec<String>) -> (r: Result<(u32, String), ConfigErr>)
        ensures
            match r {
                Ok((depth, path)) => asked(args@.map_values(|a: String| a@)) == Ok::<
                    (u32, Seq<char>),
                    Refusal,
                >((depth, path@)),
                Err(e) => asked(args@.map_values(|a: String| a@)) == Err::<(u32, Seq<char>), Refusal>(e@),
            },
    {
        if args.len() < 2 {
            return Err(ConfigErr::TooFewArguments);
        }
        let depth = match parse_depth(args[1].as_str()) {
            Some(d) => d,
            None => {
                return Err(ConfigErr::IntParseError(args[1].clone()));
            },
        };
        if args.len() < 3 {
            return Err(ConfigErr::TooFewArguments);
        }
        if args.len() > 3 {
            return Err(ConfigErr::TooManyArguments);
        }
        Ok((depth, args[2].clone()))
    }

    /// A search of depth `depth` from the articles whose addresses stand in
    /// `contents`, one to a line. A line that is no address of an article is
    /// passed over. Fails where no line is one.
    pub fn new(depth: u32, contents: &String) -> (r: Result<Config, ConfigErr>)
        ensures
            match r {
                Ok(c) => {
                    &&& c.depth == depth
                    &&& names(c.urls@) == bodies_of(lines(contents@))
                    &&& c.urls.len() > 0
                },
                Err(e) => e == ConfigErr::NoValidUrls && bodies_of(lines(contents@)).len() == 0,
            },
    {
        let urls = URL::new_list(contents);
        proof {
            assert(names(urls@).len() == urls@.len());
        }
        if urls.len() == 0 {
            return Err(ConfigErr::NoValidUrls);
        }
        Ok(Config { urls, depth })
    }

    /// The articles to begin with, one after the other.
    pub fn iter_urls(&self) -> (r: std::slice::Iter<'_, URL>)
        ensures
            r.remaining().len() == self.urls.len(),
            forall|i: int| 0 <= i < self.urls.len() ==> *(#[trigger] r.remaining()[i]) == self.urls[i],
    {
        broadcast use vstd::std_specs::slice::axiom_spec_slice_iter;

        self.urls.as_slice().iter()
    }
}

} // verus!
