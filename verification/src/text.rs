//! Text as a sequence of characters: searching it, cutting it into lines,
//! and going between strings and vectors of characters.

use vstd::prelude::*;

verus! {

/// `String::push` appends one character to the end of the string.
pub assume_specification[ String::push ](s: &mut String, ch: char)
    ensures
        final(s)@ == old(s)@.push(ch),
;

/// Where `c` first stands in `s`; the length of `s` where it does not occur.
pub open spec fn index_of(s: Seq<char>, c: char) -> int
    decreases s.len(),
{
    if s.len() == 0 {
        0
    } else if s[0] == c {
        0
    } else {
        1 + index_of(s.drop_first(), c)
    }
}

/// `index_of` is the one place `k` before which `c` does not occur and at
/// which it does, or the length.
pub proof fn lemma_index_of(s: Seq<char>, c: char, k: int)
    requires
        0 <= k <= s.len(),
        forall|i: int| 0 <= i < k ==> s[i] != c,
        k < s.len() ==> s[k] == c,
    ensures
        index_of(s, c) == k,
    decreases s.len(),
{
    if k > 0 {
        let t = s.drop_first();
        assert forall|i: int| 0 <= i < k - 1 implies t[i] != c by {
            assert(t[i] == s[i + 1]);
        }
        lemma_index_of(t, c, k - 1);
    }
}

/// `index_of` is within the text, `c` stands there, and not before.
pub proof fn lemma_index_of_is_first(s: Seq<char>, c: char)
    ensures
        0 <= index_of(s, c) <= s.len(),
        index_of(s, c) < s.len() ==> s[index_of(s, c)] == c,
        forall|i: int| 0 <= i < index_of(s, c) ==> s[i] != c,
    decreases s.len(),
{
    if s.len() > 0 && s[0] != c {
        let t = s.drop_first();
        lemma_index_of_is_first(t, c);
        assert forall|i: int| 0 <= i < index_of(s, c) implies s[i] != c by {
            if i > 0 {
                assert(s[i] == t[i - 1]);
            }
        }
    }
}

/// `line` without the carriage return at its end, if it has one.
pub open spec fn without_cr(line: Seq<char>) -> Seq<char> {
    if line.len() > 0 && line.last() == '\r' {
        line.drop_last()
    } else {
        line
    }
}

/// The lines of `s`. A line ends at a line feed, or at a carriage return
/// that a line feed follows; neither belongs to the line. What stands behind
/// the last line feed is a line too, unless it is empty.
pub open spec fn lines(s: Seq<char>) -> Seq<Seq<char>>
    decreases s.len(),
{
    if s.len() == 0 {
        Seq::empty()
    } else {
        let k = index_of(s, '\n');
        if 0 <= k < s.len() {
            seq![without_cr(s.take(k))] + lines(s.skip(k + 1))
        } else {
            seq![s]
        }
    }
}

/// The characters of `s`, in order.
pub fn chars_of(s: &str) -> (cs: Vec<char>)
    ensures
        cs@ == s@,
{
    broadcast use vstd::string::axiom_spec_iter;

    let mut cs: Vec<char> = Vec::new();
    for c in it: s.chars()
        invariant
            it.seq() == s@,
            cs@ == s@.take(it.index()),
    {
        cs.push(c);
        assert(s@.take(it.index() + 1) =~= s@.take(it.index()).push(c));
    }
    assert(s@.take(s@.len() as int) =~= s@);
    cs
}

/// The string made of the characters `cs[lo..hi]`.
pub fn string_of(cs: &Vec<char>, lo: usize, hi: usize) -> (s: String)
    requires
        lo <= hi <= cs.len(),
    ensures
        s@ == cs@.subrange(lo as int, hi as int),
{
    let mut s = String::new();
    let mut i: usize = lo;
    while i < hi
        invariant
            lo <= i <= hi <= cs.len(),
            s@ == cs@.subrange(lo as int, i as int),
        decreases hi - i,
    {
        s.push(cs[i]);
        i += 1;
    }
    s
}

/// The characters `cs[lo..hi]`.
pub fn slice_of(cs: &Vec<char>, lo: usize, hi: usize) -> (r: Vec<char>)
    requires
        lo <= hi <= cs.len(),
    ensures
        r@ == cs@.subrange(lo as int, hi as int),
{
    let mut r: Vec<char> = Vec::new();
    let mut i: usize = lo;
    while i < hi
        invariant
            lo <= i <= hi <= cs.len(),
            r@ == cs@.subrange(lo as int, i as int),
        decreases hi - i,
    {
        r.push(cs[i]);
        i += 1;
    }
    r
}

/// Where `c` first stands in `cs[lo..hi]`; `hi` where it does not occur there.
pub fn find(cs: &Vec<char>, lo: usize, hi: usize, c: char) -> (r: usize)
    requires
        lo <= hi <= cs.len(),
    ensures
        lo <= r <= hi,
        r == lo + index_of(cs@.subrange(lo as int, hi as int), c),
{
    let mut i: usize = lo;
    while i < hi && cs[i] != c
        invariant
            lo <= i <= hi <= cs.len(),
            forall|j: int| lo <= j < i ==> cs[j] != c,
        decreases hi - i,
    {
        i += 1;
    }
    proof {
        lemma_index_of(cs@.subrange(lo as int, hi as int), c, i - lo);
    }
    i
}

/// Whether `cs[lo..hi]` begins with `pat`.
pub fn begins_with(cs: &Vec<char>, lo: usize, hi: usize, pat: &Vec<char>) -> (r: bool)
    requires
        lo <= hi <= cs.len(),
    ensures
        r == pat@.is_prefix_of(cs@.subrange(lo as int, hi as int)),
{
    let n = pat.len();
    if n > hi - lo {
        return false;
    }
    let ghost window = cs@.subrange(lo as int, hi as int);
    let mut i: usize = 0;
    while i < n
        invariant
            lo <= hi <= cs.len(),
            n == pat.len(),
            n <= hi - lo,
            i <= n,
            window == cs@.subrange(lo as int, hi as int),
            forall|j: int| 0 <= j < i ==> pat[j] == window[j],
        decreases n - i,
    {
        if pat[i] != cs[lo + i] {
            proof {
                assert(window[i as int] == cs[lo + i]);
                assert(window.subrange(0, n as int)[i as int] != pat[i as int]);
            }
            return false;
        }
        i += 1;
    }
    proof {
        assert(pat@ =~= window.subrange(0, n as int));
    }
    true
}

/// Whether `cs[lo..hi]` ends with `pat`.
pub fn ends_with(cs: &Vec<char>, lo: usize, hi: usize, pat: &Vec<char>) -> (r: bool)
    requires
        lo <= hi <= cs.len(),
    ensures
        r == pat@.is_suffix_of(cs@.subrange(lo as int, hi as int)),
{
    let n = pat.len();
    if n > hi - lo {
        return false;
    }
    let ghost window = cs@.subrange(lo as int, hi as int);
    let from = hi - n;
    let mut i: usize = 0;
    while i < n
        invariant
            lo <= hi <= cs.len(),
            n == pat.len(),
            n <= hi - lo,
            from == hi - n,
            i <= n,
            window == cs@.subrange(lo as int, hi as int),
            forall|j: int| 0 <= j < i ==> pat[j] == window[window.len() - n + j],
        decreases n - i,
    {
        if pat[i] != cs[from + i] {
            proof {
                assert(window[window.len() - n + i] == cs[from + i]);
                assert(window.subrange(window.len() - n, window.len() as int)[i as int] != pat[i as int]);
            }
            return false;
        }
        i += 1;
    }
    proof {
        assert(pat@ =~= window.subrange(window.len() - n, window.len() as int));
    }
    true
}

} // verus!
