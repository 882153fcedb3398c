//! Putting things in order: one sort, proved once, for every list the
//! printed page orders.

use vstd::prelude::*;
use vstd::multiset::Multiset;
use vstd::relations::{sorted_by, strongly_connected, transitive};
use vstd::seq_lib::lemma_multiset_commutative;

verus! {

broadcast use vstd::seq_lib::group_to_multiset_ensures;

/// A total preorder: every two things compare, and comparison chains.
pub open spec fn total_preorder<T>(le: spec_fn(T, T) -> bool) -> bool {
    transitive(le) && strongly_connected(le)
}

/// Inserting an element adds it to the multiset.
proof fn lemma_insert_multiset<T>(s: Seq<T>, p: int, x: T)
    requires
        0 <= p <= s.len(),
    ensures
        s.insert(p, x).to_multiset() =~= s.to_multiset().insert(x),
{
    let left = s.subrange(0, p);
    let right = s.subrange(p, s.len() as int);
    assert(s =~= left + right);
    lemma_multiset_commutative(left.push(x), right);
    lemma_multiset_commutative(left, right);
}

/// Sorts `items` into the order `le` describes, which `leq` computes.
///
/// What comes out holds exactly what went in, and every element is `le` every
/// element after it.
pub fn sort_by<T, F: Fn(&T, &T) -> bool>(items: Vec<T>, leq: F, Ghost(le): Ghost<spec_fn(T, T) -> bool>) -> (sorted: Vec<T>)
    requires
        total_preorder(le),
        forall|a: &T, b: &T| #[trigger] leq.requires((a, b)),
        forall|a: &T, b: &T, r: bool| leq.ensures((a, b), r) ==> r == le(*a, *b),
    ensures
        sorted@.to_multiset() == items@.to_multiset(),
        sorted_by(sorted@, le),
        sorted@.len() == items@.len(),
{
    let mut input = items;
    let mut out: Vec<T> = Vec::new();
    let ghost given = input@;
    proof {
        assert(out@.to_multiset().add(input@.to_multiset()) =~= given.to_multiset());
    }
    while input.len() > 0
        invariant
            total_preorder(le),
            forall|a: &T, b: &T| #[trigger] leq.requires((a, b)),
            forall|a: &T, b: &T, r: bool| leq.ensures((a, b), r) ==> r == le(*a, *b),
            out@.to_multiset().add(input@.to_multiset()) == given.to_multiset(),
            sorted_by(out@, le),
        decreases input@.len(),
    {
        let ghost before = input@;
        let x = input.pop().unwrap();
        proof {
            assert(before =~= input@.push(x));
        }
        let mut p: usize = 0;
        while p < out.len() && !leq(&x, &out[p])
            invariant
                0 <= p <= out@.len(),
                forall|a: &T, b: &T| #[trigger] leq.requires((a, b)),
                forall|a: &T, b: &T, r: bool| leq.ensures((a, b), r) ==> r == le(*a, *b),
                forall|k: int| 0 <= k < p ==> !le(x, #[trigger] out@[k]),
            decreases out@.len() - p,
        {
            p = p + 1;
        }
        let ghost old_out = out@;
        out.insert(p, x);
        proof {
            lemma_insert_multiset(old_out, p as int, x);
            assert(out@ == old_out.insert(p as int, x));
            old_out.insert_ensures(p as int, x);
            assert forall|i: int, j: int| 0 <= i < j < out@.len() implies #[trigger] le(
                out@[i],
                out@[j],
            ) by {
                if j < p {
                    assert(le(old_out[i], old_out[j]));
                } else if j == p {
                    assert(!le(x, old_out[i]));
                    assert(le(old_out[i], x) || le(x, old_out[i]));
                } else if i < p {
                    assert(out@[j] == old_out[j - 1]);
                    assert(out@[i] == old_out[i]);
                    assert(le(old_out[i], old_out[j - 1]));
                } else if i == p {
                    assert(out@[j] == old_out[j - 1]);
                    assert(le(x, old_out[p as int]));
                    if j - 1 > p {
                        assert(le(old_out[p as int], old_out[j - 1]));
                    }
                } else {
                    assert(le(old_out[i - 1], old_out[j - 1]));
                }
            }
            assert(out@.to_multiset().add(input@.to_multiset()) =~= old_out.to_multiset().add(
                before.to_multiset(),
            ));
        }
    }
    proof {
        assert(input@.to_multiset() =~= Multiset::empty());
        assert(out@.to_multiset().add(Multiset::empty()) =~= out@.to_multiset());
        assert(out@.len() == out@.to_multiset().len());
        assert(given.len() == given.to_multiset().len());
    }
    out
}

} // verus!
