//! The ordering that the tree relies on, stated over vstd's specification of
//! `PartialEq` and `PartialOrd`.
use vstd::prelude::*;
use vstd::std_specs::cmp::{PartialEqSpec, PartialOrdSpec};
use core::cmp::Ordering;

verus! {

/// `a` compares strictly less than `b`.
pub open spec fn lt<T: PartialOrd>(a: T, b: T) -> bool {
    a.partial_cmp_spec(&b) == Some(Ordering::Less)
}

/// `==` and `<` on `T` behave as their specifications say, `==` is identity,
/// and `<` is a strict total order.
pub open spec fn is_strict_total_order<T: PartialOrd>() -> bool {
    &&& T::obeys_eq_spec()
    &&& T::obeys_partial_cmp_spec()
    &&& forall|a: T, b: T| #[trigger] a.eq_spec(&b) <==> a == b
    &&& forall|a: T, b: T| #[trigger] lt(a, b) ==> !lt(b, a)
    &&& forall|a: T, b: T| a != b ==> #[trigger] lt(a, b) || #[trigger] lt(b, a)
    &&& forall|a: T, b: T, c: T| #[trigger] lt(a, b) && #[trigger] lt(b, c) ==> lt(a, c)
}

/// A sequence whose elements increase strictly from left to right.
pub open spec fn strictly_increasing<T: PartialOrd>(s: Seq<T>) -> bool {
    forall|i: int, j: int| 0 <= i < j < s.len() ==> #[trigger] lt(s[i], s[j])
}

/// A strictly increasing sequence is determined by the set of its elements.
pub proof fn lemma_increasing_unique<T: PartialOrd>(a: Seq<T>, b: Seq<T>)
    requires
        is_strict_total_order::<T>(),
        strictly_increasing(a),
        strictly_increasing(b),
        a.to_set() == b.to_set(),
    ensures
        a == b,
    decreases a.len(),
{
    if a.len() == 0 {
        if b.len() > 0 {
            assert(b.to_set().contains(b[0]));
        }
        assert(a =~= b);
    } else {
        assert(a.to_set().contains(a[0]));
        assert(b.to_set().contains(a[0]));
        let j = choose|j: int| 0 <= j < b.len() && b[j] == a[0];
        assert(b.to_set().contains(b[0]));
        assert(a.to_set().contains(b[0]));
        let i = choose|i: int| 0 <= i < a.len() && a[i] == b[0];
        if j > 0 {
            assert(lt(b[0], b[j]));
            if i > 0 {
                assert(lt(a[0], a[i]));
            }
            assert(false);
        }
        let a1 = a.drop_first();
        let b1 = b.drop_first();
        assert forall|x: T| a1.to_set().contains(x) implies b1.to_set().contains(x) by {
            let k = choose|k: int| 0 <= k < a1.len() && a1[k] == x;
            assert(lt(a[0], a[k + 1]));
            assert(b.to_set().contains(x));
            let m = choose|m: int| 0 <= m < b.len() && b[m] == x;
            assert(m != 0);
            assert(b1[m - 1] == x);
        }
        assert forall|x: T| b1.to_set().contains(x) implies a1.to_set().contains(x) by {
            let k = choose|k: int| 0 <= k < b1.len() && b1[k] == x;
            assert(lt(b[0], b[k + 1]));
            assert(a.to_set().contains(x));
            let m = choose|m: int| 0 <= m < a.len() && a[m] == x;
            assert(m != 0);
            assert(a1[m - 1] == x);
        }
        assert(a1.to_set() =~= b1.to_set());
        lemma_increasing_unique(a1, b1);
        assert(b[0] == a[0]);
        assert(a.len() == b.len());
        assert forall|k: int| 0 <= k < a.len() implies a[k] == b[k] by {
            if k > 0 {
                assert(a1[k - 1] == b1[k - 1]);
            }
        }
        assert(a =~= b);
    }
}

/// `i32` meets the ordering that the tree asks of its elements.
pub proof fn lemma_i32_is_strict_total_order()
    ensures
        is_strict_total_order::<i32>(),
{
}

} // verus!
