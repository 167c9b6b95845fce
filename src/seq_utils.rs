//! Small routines over sequences of integers.
use vstd::prelude::*;

verus! {

/// The sum of the values of `s`, as an unbounded integer.
pub open spec fn sum_of(s: Seq<i32>) -> int
    decreases s.len(),
{
    if s.len() == 0 {
        0
    } else {
        sum_of(s.drop_last()) + s.last()
    }
}

proof fn lemma_sum_bound(s: Seq<i32>)
    ensures
        -2147483648 * s.len() <= sum_of(s) <= 2147483647 * s.len(),
    decreases s.len(),
{
    if s.len() > 0 {
        lemma_sum_bound(s.drop_last());
    }
}

/// The sum of the slice's values. The result type is wide enough for any
/// slice, so the sum is exact.
pub fn sum(slice: &[i32]) -> (r: i128)
    ensures
        r == sum_of(slice@),
{
    let mut acc: i128 = 0;
    let mut i: usize = 0;
    while i < slice.len()
        invariant
            i <= slice@.len(),
            acc == sum_of(slice@.take(i as int)),
        decreases slice@.len() - i,
    {
        proof {
            lemma_sum_bound(slice@.take(i as int));
            assert(slice@.take(i as int + 1).drop_last() == slice@.take(i as int));
        }
        acc = acc + slice[i] as i128;
        i = i + 1;
    }
    assert(slice@.take(i as int) == slice@);
    acc
}

/// The values of `s` with every repetition of an earlier value left out,
/// first occurrences kept in order.
pub open spec fn dedup_of(s: Seq<i32>) -> Seq<i32>
    decreases s.len(),
{
    if s.len() == 0 {
        Seq::empty()
    } else if s.drop_last().contains(s.last()) {
        dedup_of(s.drop_last())
    } else {
        dedup_of(s.drop_last()).push(s.last())
    }
}

/// Returns the values of `vs` with later repetitions removed; the first
/// occurrence of each value keeps its place.
pub fn dedup(vs: &Vec<i32>) -> (r: Vec<i32>)
    ensures
        r@ == dedup_of(vs@),
{
    let mut r: Vec<i32> = Vec::new();
    let mut i: usize = 0;
    while i < vs.len()
        invariant
            i <= vs@.len(),
            r@ == dedup_of(vs@.take(i as int)),
        decreases vs@.len() - i,
    {
        let x = vs[i];
        let mut seen = false;
        let mut j: usize = 0;
        while j < i
            invariant
                j <= i < vs@.len(),
                x == vs@[i as int],
                seen <==> exists|k: int| 0 <= k < j && vs@[k] == x,
            decreases i - j,
        {
            if vs[j] == x {
                seen = true;
            }
            j = j + 1;
        }
        proof {
            let p = vs@.take(i as int + 1);
            assert(p.drop_last() =~= vs@.take(i as int));
            assert(p.last() == x);
            if seen {
                let k = choose|k: int| 0 <= k < i && vs@[k] == x;
                assert(p.drop_last()[k] == x);
            }
            if p.drop_last().contains(x) {
                let k = choose|k: int| 0 <= k < i && p.drop_last()[k] == x;
                assert(vs@[k] == x);
            }
        }
        if !seen {
            r.push(x);
        }
        i = i + 1;
    }
    assert(vs@.take(i as int) =~= vs@);
    r
}

/// The values of `s` at the positions where `keep` holds, in order.
pub open spec fn kept(s: Seq<i32>, keep: Seq<bool>) -> Seq<i32>
    decreases s.len(),
{
    if s.len() == 0 {
        Seq::empty()
    } else if keep[s.len() - 1] {
        kept(s.drop_last(), keep).push(s.last())
    } else {
        kept(s.drop_last(), keep)
    }
}

/// Returns the values of `vs` on which `pred` holds, in order.
pub fn filter<F: Fn(i32) -> bool>(vs: &Vec<i32>, pred: &F) -> (r: Vec<i32>)
    requires
        forall|x: i32| #[trigger] pred.requires((x,)),
    ensures
        exists|keep: Seq<bool>|
            {
                &&& keep.len() == vs@.len()
                &&& forall|i: int|
                    0 <= i < vs@.len() ==> #[trigger] pred.ensures((vs@[i],), keep[i])
                &&& r@ == kept(vs@, keep)
            },
{
    let mut r: Vec<i32> = Vec::new();
    let ghost mut keep: Seq<bool> = Seq::empty();
    let mut i: usize = 0;
    while i < vs.len()
        invariant
            i <= vs@.len(),
            keep.len() == i,
            forall|x: i32| #[trigger] pred.requires((x,)),
            forall|k: int| 0 <= k < i ==> #[trigger] pred.ensures((vs@[k],), keep[k]),
            r@ == kept(vs@.take(i as int), keep),
        decreases vs@.len() - i,
    {
        let x = vs[i];
        let b = pred(x);
        proof {
            let p = vs@.take(i as int + 1);
            assert(p.drop_last() =~= vs@.take(i as int));
            lemma_kept_prefix(vs@.take(i as int), keep, keep.push(b));
        }
        if b {
            r.push(x);
        }
        proof {
            keep = keep.push(b);
        }
        i = i + 1;
    }
    assert(vs@.take(i as int) =~= vs@);
    r
}

proof fn lemma_kept_prefix(s: Seq<i32>, a: Seq<bool>, b: Seq<bool>)
    requires
        s.len() <= a.len(),
        s.len() <= b.len(),
        forall|k: int| 0 <= k < s.len() ==> a[k] == b[k],
    ensures
        kept(s, a) == kept(s, b),
    decreases s.len(),
{
    if s.len() > 0 {
        lemma_kept_prefix(s.drop_last(), a, b);
    }
}

} // verus!
