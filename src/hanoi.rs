//! Moves that solve the Tower of Hanoi.
use vstd::prelude::*;

verus! {

/// One of the three pegs.
#[derive(Clone, Copy, Debug, PartialEq, Eq, Structural)]
pub enum Peg {
    A,
    B,
    C,
}

/// A move of the top disk of the first peg onto the second.
pub type Move = (Peg, Peg);

/// The moves that carry `n` disks from `src` to `dst`, using `aux` on the
/// way: the top `n - 1` to `aux`, the largest to `dst`, the `n - 1` onto it.
pub open spec fn moves_of(n: nat, src: Peg, aux: Peg, dst: Peg) -> Seq<Move>
    decreases n,
{
    if n == 0 {
        Seq::empty()
    } else {
        moves_of((n - 1) as nat, src, dst, aux) + seq![(src, dst)] + moves_of(
            (n - 1) as nat,
            aux,
            src,
            dst,
        )
    }
}

/// Two to the power `n`.
pub open spec fn pow2(n: nat) -> nat
    decreases n,
{
    if n == 0 {
        1
    } else {
        2 * pow2((n - 1) as nat)
    }
}

/// Solving `n` disks takes `2^n - 1` moves.
pub proof fn lemma_moves_len(n: nat, src: Peg, aux: Peg, dst: Peg)
    ensures
        moves_of(n, src, aux, dst).len() + 1 == pow2(n),
    decreases n,
{
    if n > 0 {
        lemma_moves_len((n - 1) as nat, src, dst, aux);
        lemma_moves_len((n - 1) as nat, aux, src, dst);
    }
}

/// The moves that carry `num_disks` disks from `src` to `dst` by way of `aux`.
pub fn hanoi(num_disks: u32, src: Peg, aux: Peg, dst: Peg) -> (r: Vec<Move>)
    ensures
        r@ == moves_of(num_disks as nat, src, aux, dst),
        r@.len() + 1 == pow2(num_disks as nat),
    decreases num_disks,
{
    proof {
        lemma_moves_len(num_disks as nat, src, aux, dst);
    }
    if num_disks == 0 {
        return Vec::new();
    }
    let mut r = hanoi(num_disks - 1, src, dst, aux);
    r.push((src, dst));
    let mut rest = hanoi(num_disks - 1, aux, src, dst);
    r.append(&mut rest);
    r
}

} // verus!
