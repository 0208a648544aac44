//! A small verified insertion sort, generic over any type that carries a
//! total preorder on its views. Queries use it to hand results out in a
//! deterministic order.

use vstd::prelude::*;
use vstd::multiset::Multiset;
use vstd::seq_lib::lemma_multiset_commutative;

verus! {

/// A type whose views are ordered by `le`: total and transitive, with an
/// executable comparison. (Ties are allowed; the sort keeps every element.)
pub trait OrderedRec: View + Sized {
    spec fn le(a: Self::V, b: Self::V) -> bool;

    /// `le` is total and transitive.
    proof fn lemma_le_order(a: Self::V, b: Self::V, c: Self::V)
        ensures
            Self::le(a, b) || Self::le(b, a),
            Self::le(a, b) && Self::le(b, c) ==> Self::le(a, c),
    ;

    /// The executable comparison agrees with `le`.
    fn le_exec(&self, other: &Self) -> (r: bool)
        ensures
            r == Self::le(self@, other@),
    ;
}

/// The views of the elements, in order.
pub open spec fn views_seq<T: View>(s: Seq<T>) -> Seq<T::V> {
    s.map_values(|x: T| x@)
}

/// Inserting an element anywhere adds exactly it to the multiset.
proof fn lemma_insert_to_multiset<A>(s: Seq<A>, k: int, x: A)
    requires
        0 <= k <= s.len(),
    ensures
        s.insert(k, x).to_multiset() == s.to_multiset().insert(x),
{
    broadcast use vstd::seq_lib::group_to_multiset_ensures;

    let a = s.take(k);
    let b = s.skip(k);
    assert(s =~= a + b);
    assert(s.insert(k, x) =~= a + (seq![x] + b));
    lemma_multiset_commutative(a, b);
    lemma_multiset_commutative(a, seq![x] + b);
    lemma_multiset_commutative(seq![x], b);
    assert(seq![x] =~= Seq::<A>::empty().push(x));
    assert(Seq::<A>::empty().to_multiset() =~= Multiset::<A>::empty());
    assert(seq![x].to_multiset() =~= Multiset::<A>::empty().insert(x));
    assert(s.insert(k, x).to_multiset() =~= s.to_multiset().insert(x));
}

/// Sort by `le`: the result holds the same elements (as a multiset of views)
/// and its views are pairwise ordered.
pub fn sort_by_order<T: OrderedRec>(input: Vec<T>) -> (out: Vec<T>)
    ensures
        views_seq(out@).to_multiset() == views_seq(input@).to_multiset(),
        forall|i: int, j: int|
            0 <= i < j < out@.len() ==> T::le(
                #[trigger] views_seq(out@)[i],
                #[trigger] views_seq(out@)[j],
            ),
        out@.len() == input@.len(),
{
    broadcast use vstd::seq_lib::group_to_multiset_ensures;

    let mut src = input;
    let mut out: Vec<T> = Vec::new();
    proof {
        assert(views_seq(out@) =~= Seq::<T::V>::empty());
        assert(views_seq(src@) =~= views_seq(input@));
        assert(views_seq(out@).to_multiset().add(views_seq(src@).to_multiset())
            =~= views_seq(input@).to_multiset());
    }
    while src.len() != 0
        invariant
            views_seq(out@).to_multiset().add(views_seq(src@).to_multiset()) == views_seq(
                input@,
            ).to_multiset(),
            forall|m: int, n: int| 0 <= m < n < out@.len() ==> #[trigger] T::le(
                out@[m]@,
                out@[n]@,
            ),
            out@.len() + src@.len() == input@.len(),
        decreases src@.len(),
    {
        let ghost prev_src = src@;
        let ghost prev_out = out@;
        let x = src.remove(0);
        proof {
            assert(views_seq(prev_src) =~= views_seq(src@).insert(0, x@));
            lemma_insert_to_multiset(views_seq(src@), 0, x@);
        }
        // Find the first position whose element is not `le` the new one.
        let mut k: usize = 0;
        while k < out.len() && out[k].le_exec(&x)
            invariant
                k <= out@.len(),
                forall|m: int| 0 <= m < k ==> #[trigger] T::le(out@[m]@, x@),
                out@ == prev_out,
            decreases out@.len() - k,
        {
            k = k + 1;
        }
        proof {
            if k < out@.len() {
                assert(!T::le(out@[k as int]@, x@));
                T::lemma_le_order(x@, out@[k as int]@, x@);
                assert(T::le(x@, out@[k as int]@));
            }
        }
        out.insert(k, x);
        proof {
            let vold = views_seq(prev_out);
            let vnew = views_seq(out@);
            assert(out@ =~= prev_out.insert(k as int, x));
            assert(vnew =~= vold.insert(k as int, x@));
            vold.insert_ensures(k as int, x@);
            lemma_insert_to_multiset(vold, k as int, x@);
            assert(forall|m: int| 0 <= m < prev_out.len() ==> #[trigger] vold[m]
                == prev_out[m]@);
            assert forall|i: int, j: int| 0 <= i < j < out@.len() implies #[trigger] T::le(
                out@[i]@,
                out@[j]@,
            ) by {
                assert(out@[i]@ == vnew[i]);
                assert(out@[j]@ == vnew[j]);
                if j < k {
                    assert(vnew[i] == vold[i] && vnew[j] == vold[j]);
                    assert(T::le(prev_out[i]@, prev_out[j]@));
                } else if i == k as int {
                    assert(vnew[i] == x@);
                    assert(vnew[j] == vold[j - 1]);
                    assert(T::le(x@, prev_out[k as int]@));
                    if j - 1 > k {
                        assert(T::le(prev_out[k as int]@, prev_out[j - 1]@));
                    }
                    T::lemma_le_order(x@, vold[k as int], vold[j - 1]);
                } else if j == k as int {
                    assert(vnew[i] == vold[i]);
                    assert(vnew[j] == x@);
                    assert(T::le(prev_out[i]@, x@));
                } else if i < k {
                    // i before the new element, j after it
                    assert(vnew[i] == vold[i] && vnew[j] == vold[j - 1]);
                    if i < j - 1 {
                        assert(T::le(prev_out[i]@, prev_out[j - 1]@));
                    } else {
                        // adjacent across the insertion point: i == j - 1 == k - 1
                        assert(T::le(prev_out[i]@, x@));
                        assert(T::le(x@, prev_out[k as int]@));
                        T::lemma_le_order(vold[i], x@, vold[k as int]);
                    }
                } else {
                    assert(vnew[i] == vold[i - 1] && vnew[j] == vold[j - 1]);
                    assert(T::le(prev_out[i - 1]@, prev_out[j - 1]@));
                }
            };
        }
    }
    proof {
        assert(views_seq(src@) =~= Seq::<T::V>::empty());
        assert(views_seq(out@).to_multiset().add(Seq::<T::V>::empty().to_multiset())
            =~= views_seq(out@).to_multiset());
        assert forall|i: int, j: int| 0 <= i < j < out@.len() implies T::le(
            #[trigger] views_seq(out@)[i],
            #[trigger] views_seq(out@)[j],
        ) by {
            assert(T::le(out@[i]@, out@[j]@));
            assert(views_seq(out@)[i] == out@[i]@);
        };
    }
    out
}

} // verus!
