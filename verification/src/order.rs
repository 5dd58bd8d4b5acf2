//! The order of article names, and putting names in order.

use crate::text::chars_of;
use crate::url::{names, URL};
use vstd::prelude::*;

verus! {

/// `a` stands before `b` or is `b`: at the first place where they differ
/// `a` has the lesser character, or `a` ends there.
pub open spec fn in_order(a: Seq<char>, b: Seq<char>) -> bool
    decreases a.len(),
{
    if a.len() == 0 {
        true
    } else if b.len() == 0 {
        false
    } else if a[0] == b[0] {
        in_order(a.drop_first(), b.drop_first())
    } else {
        a[0] < b[0]
    }
}

/// Each name of `s` stands before those behind it, or is one of them.
pub open spec fn sorted(s: Seq<Seq<char>>) -> bool {
    forall|i: int, j: int| 0 <= i <= j < s.len() ==> in_order(#[trigger] s[i], #[trigger] s[j])
}

/// Of two names one stands before the other, unless they are the same.
pub proof fn lemma_in_order_total(a: Seq<char>, b: Seq<char>)
    ensures
        in_order(a, b) || in_order(b, a),
    decreases a.len(),
{
    if a.len() > 0 && b.len() > 0 && a[0] == b[0] {
        lemma_in_order_total(a.drop_first(), b.drop_first());
    }
}

/// What stands before a name stands before all that the name stands before.
pub proof fn lemma_in_order_trans(a: Seq<char>, b: Seq<char>, c: Seq<char>)
    requires
        in_order(a, b),
        in_order(b, c),
    ensures
        in_order(a, c),
    decreases a.len(),
{
    if a.len() > 0 && a[0] == b[0] && b[0] == c[0] {
        lemma_in_order_trans(a.drop_first(), b.drop_first(), c.drop_first());
    }
}

/// Two names that stand before each other are the same.
pub proof fn lemma_in_order_same(a: Seq<char>, b: Seq<char>)
    requires
        in_order(a, b),
        in_order(b, a),
    ensures
        a == b,
    decreases a.len(),
{
    if a.len() > 0 {
        lemma_in_order_same(a.drop_first(), b.drop_first());
        assert(a =~= seq![a[0]] + a.drop_first());
        assert(b =~= seq![b[0]] + b.drop_first());
    } else {
        assert(a =~= b);
    }
}

/// Whether `a` stands before `b` or is `b`.
pub fn precedes(a: &Vec<char>, b: &Vec<char>) -> (r: bool)
    ensures
        r == in_order(a@, b@),
{
    let mut i: usize = 0;
    proof {
        assert(a@.skip(0) =~= a@);
        assert(b@.skip(0) =~= b@);
    }
    while i < a.len() && i < b.len() && a[i] == b[i]
        invariant
            i <= a.len(),
            i <= b.len(),
            in_order(a@, b@) == in_order(a@.skip(i as int), b@.skip(i as int)),
        decreases a.len() - i,
    {
        proof {
            assert(a@.skip(i as int).drop_first() =~= a@.skip(i + 1));
            assert(b@.skip(i as int).drop_first() =~= b@.skip(i + 1));
        }
        i += 1;
    }
    if i == a.len() {
        true
    } else if i == b.len() {
        false
    } else {
        a[i] < b[i]
    }
}

/// With `x` put in at place `j`, a sequence holds what it held, and `x`.
proof fn lemma_insert_to_multiset<A>(s: Seq<A>, j: int, x: A)
    requires
        0 <= j <= s.len(),
    ensures
        s.insert(j, x).to_multiset() == s.to_multiset().insert(x),
{
    let t = s.insert(j, x);
    t.to_multiset_ensures();
    assert(t.remove(j) =~= s);
    assert(t[j] == x);
    assert(t.contains(x));
    assert(t.to_multiset() =~= s.to_multiset().insert(x));
}

/// The names of `ns` in order.
pub fn sort(ns: &Vec<URL>) -> (r: Vec<URL>)
    ensures
        sorted(names(r@)),
        names(r@).to_multiset() == names(ns@).to_multiset(),
        names(r@).to_set() == names(ns@).to_set(),
        r.len() == ns.len(),
{
    let mut r: Vec<URL> = Vec::new();
    let mut keys: Vec<Vec<char>> = Vec::new();
    let mut i: usize = 0;
    proof {
        assert(names(ns@).take(0) =~= Seq::<Seq<char>>::empty());
        assert(names(r@) =~= Seq::<Seq<char>>::empty());
    }
    while i < ns.len()
        invariant
            i <= ns.len(),
            r.len() == i,
            keys.len() == i,
            forall|k: int| 0 <= k < i ==> (#[trigger] keys[k])@ == r[k]@,
            sorted(names(r@)),
            names(r@).to_multiset() == names(ns@).take(i as int).to_multiset(),
        decreases ns.len() - i,
    {
        let key = chars_of(ns[i].as_str());
        let mut j: usize = 0;
        while j < keys.len() && precedes(&keys[j], &key)
            invariant
                j <= keys.len(),
                keys.len() == r.len(),
                forall|k: int| 0 <= k < keys.len() ==> (#[trigger] keys[k])@ == r[k]@,
                forall|k: int| 0 <= k < j ==> in_order(#[trigger] names(r@)[k], key@),
            decreases keys.len() - j,
        {
            proof {
                assert(names(r@)[j as int] == keys[j as int]@);
            }
            j += 1;
        }
        let ghost before = names(r@);
        let ghost was = keys@;
        proof {
            assert forall|k: int| j <= k < before.len() implies in_order(key@, #[trigger] before[k]) by {
                assert(before[j as int] == keys[j as int]@);
                lemma_in_order_total(before[j as int], key@);
                lemma_in_order_trans(key@, before[j as int], before[k]);
            }
        }
        r.insert(j, ns[i].clone());
        keys.insert(j, key);
        proof {
            let x = ns[i as int]@;
            assert(names(r@) =~= before.insert(j as int, x));
            lemma_insert_to_multiset(before, j as int, x);
            assert(names(ns@).take(i + 1) =~= names(ns@).take(i as int).push(x));
            names(ns@).take(i as int).to_multiset_ensures();
            assert forall|a: int, b: int| 0 <= a <= b < names(r@).len() implies in_order(
                #[trigger] names(r@)[a],
                #[trigger] names(r@)[b],
            ) by {
                let s = names(r@);
                if a == b {
                    lemma_in_order_total(s[a], s[a]);
                } else if b < j {
                    assert(s[a] == before[a] && s[b] == before[b]);
                } else if b == j {
                    assert(s[a] == before[a]);
                } else if a < j {
                    assert(s[a] == before[a] && s[b] == before[b - 1]);
                } else if a == j {
                    assert(s[b] == before[b - 1]);
                } else {
                    assert(s[a] == before[a - 1] && s[b] == before[b - 1]);
                }
            }
            assert forall|k: int| 0 <= k < keys.len() implies (#[trigger] keys[k])@ == r[k]@ by {
                if k < j {
                    assert(keys[k] == was[k]);
                } else if k > j {
                    assert(keys[k] == was[k - 1]);
                }
            }
        }
        i += 1;
    }
    proof {
        assert(names(ns@).take(ns.len() as int) =~= names(ns@));
        let a = names(r@);
        let b = names(ns@);
        a.to_multiset_ensures();
        b.to_multiset_ensures();
        assert(a.to_set() =~= b.to_set()) by {
            assert forall|x: Seq<char>| a.to_set().contains(x) <==> b.to_set().contains(x) by {
                assert(a.contains(x) <==> a.to_multiset().count(x) > 0);
                assert(b.contains(x) <==> b.to_multiset().count(x) > 0);
            }
        }
    }
    r
}

} // verus!
