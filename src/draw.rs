//! Turning a randomness seed into a position among the staked accounts.
//!
//! The whole seed is read as one big-endian number and reduced modulo the number
//! of accounts, so a seed much wider than that number gives a nearly uniform pick.
use vstd::prelude::*;
use vstd::arithmetic::div_mod::{lemma_add_mod_noop, lemma_mul_mod_noop_left};

verus! {

/// The seed's bytes read as a big-endian number.
pub open spec fn seed_value(seed: Seq<u8>) -> nat
    decreases seed.len(),
{
    if seed.len() == 0 {
        0
    } else {
        seed_value(seed.drop_last()) * 256 + seed.last() as nat
    }
}

/// The position a draw with `seed` picks among `n` accounts.
pub open spec fn draw_position(seed: Seq<u8>, n: nat) -> nat {
    seed_value(seed) % n
}

/// Computes `draw_position(seed, n)` without building the seed's full value.
pub fn draw_index(seed: &Vec<u8>, n: usize) -> (r: usize)
    requires
        n > 0,
    ensures
        r == draw_position(seed@, n as nat),
        r < n,
{
    let m: u128 = n as u128;
    let mut acc: u128 = 0;
    let mut i: usize = 0;
    proof {
        assert(seed@.take(0) =~= Seq::<u8>::empty());
    }
    while i < seed.len()
        invariant
            m == n,
            n > 0,
            i <= seed@.len(),
            acc < m,
            acc == seed_value(seed@.take(i as int)) % (n as nat),
        decreases seed.len() - i,
    {
        let b = seed[i];
        proof {
            let v = seed_value(seed@.take(i as int)) as int;
            assert(seed@.take(i + 1).drop_last() =~= seed@.take(i as int));
            assert(seed@.take(i + 1).last() == b);
            lemma_mul_mod_noop_left(v, 256, n as int);
            lemma_add_mod_noop(v * 256, b as int, n as int);
            lemma_add_mod_noop((v % (n as int)) * 256, b as int, n as int);
        }
        acc = (acc * 256 + b as u128) % m;
        i = i + 1;
    }
    proof {
        assert(seed@.take(seed@.len() as int) =~= seed@);
    }
    acc as usize
}

} // verus!
