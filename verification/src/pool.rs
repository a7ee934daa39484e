//! Piece randomization: a refillable draw pool that flattens the long-run
//! piece frequency toward uniform while allowing short local imbalance.

use vstd::prelude::*;

verus! {

/// Relies on rand::random_range over `0..n` with the thread-local
/// generator: the range is non-empty because `n >= 1` (rand panics on an
/// empty range), and the drawn value lies inside it.
#[verifier::external_body]
fn random_below(n: usize) -> (r: usize)
    requires
        1 <= n,
    ensures
        r < n,
{
    rand::random_range(0..n)
}

/// The draw pool: a bag of piece indices. A full pool holds each of the
/// seven indices four times; drawing removes one entry chosen at random,
/// and an exhausted pool is refilled before the draw.
pub struct PiecePool {
    pub pool: Vec<usize>,
}

/// Every entry of the pool is a piece index.
pub open spec fn pool_wf(p: PiecePool) -> bool {
    forall|k: int| 0 <= k < p.pool@.len() ==> p.pool@[k] < 7
}

/// The freshly refilled pool: indices 0 through 6, four entries each.
pub open spec fn full_pool() -> Seq<usize> {
    Seq::new(28, |k: int| (k / 4) as usize)
}

impl PiecePool {
    /// An empty pool; the first draw fills it.
    pub fn new() -> (p: PiecePool)
        ensures
            pool_wf(p),
            p.pool@.len() == 0,
    {
        PiecePool { pool: Vec::new() }
    }

    /// Draw one piece index. An empty pool is first refilled with every
    /// piece index four times; one entry, picked by the generator, is then
    /// removed and returned. So 28 consecutive draws from an empty pool
    /// yield every piece index exactly four times, in some order.
    pub fn draw(&mut self) -> (index: usize)
        requires
            pool_wf(*old(self)),
        ensures
            pool_wf(*final(self)),
            index < 7,
            old(self).pool@.len() == 0 ==> final(self).pool@.to_multiset().insert(index)
                == full_pool().to_multiset(),
            old(self).pool@.len() > 0 ==> final(self).pool@.to_multiset().insert(index)
                == old(self).pool@.to_multiset(),
    {
        if self.pool.len() == 0 {
            let mut piece: usize = 0;
            while piece < 7
                invariant
                    piece <= 7,
                    self.pool@.len() == 4 * piece,
                    forall|k: int| 0 <= k < 4 * piece ==> self.pool@[k] == k / 4,
                decreases 7 - piece,
            {
                self.pool.push(piece);
                self.pool.push(piece);
                self.pool.push(piece);
                self.pool.push(piece);
                piece += 1;
            }
            proof {
                assert(self.pool@ =~= full_pool());
            }
        }
        let ghost filled = self.pool@;
        let k = random_below(self.pool.len());
        let index = self.pool.remove(k);
        proof {
            vstd::seq_lib::to_multiset_remove(filled, k as int);
            filled.to_multiset_ensures();
            assert(filled.contains(index));
            assert(filled.to_multiset().count(index) > 0);
            assert(self.pool@.to_multiset().insert(index) =~= filled.to_multiset());
        }
        index
    }
}

} // verus!
