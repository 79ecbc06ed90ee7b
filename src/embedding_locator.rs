//! Locators: which host positions take part in embedding, and in which order.
use vstd::prelude::*;

verus! {

/// A strategy that picks the host positions to embed into. The same locator gives the
/// same positions every time it is asked for the same host length.
pub trait EmbeddingLocator {
    /// The positions picked for a host of `host_len` bytes, in order.
    spec fn spec_indices(&self, host_len: nat) -> Seq<usize>;

    /// The positions picked for a host of `host_len` bytes, in order; each lies below
    /// `host_len`.
    fn iter_indices(&self, host_len: usize) -> (r: Vec<usize>)
        ensures
            r@ == self.spec_indices(host_len as nat),
            forall|k: int| 0 <= k < r@.len() ==> #[trigger] r@[k] < host_len,
    ;
}

/// Every position, from 0 up.
#[derive(Clone)]
pub struct LinearTraversal;

/// The positions `0 .. n`.
pub open spec fn all_positions(n: nat) -> Seq<usize> {
    Seq::new(n, |i: int| i as usize)
}

impl EmbeddingLocator for LinearTraversal {
    open spec fn spec_indices(&self, host_len: nat) -> Seq<usize> {
        all_positions(host_len)
    }

    fn iter_indices(&self, host_len: usize) -> (r: Vec<usize>) {
        let mut r: Vec<usize> = Vec::new();
        let mut i: usize = 0;
        while i < host_len
            invariant
                i <= host_len,
                r@ == all_positions(i as nat),
            decreases host_len - i,
        {
            r.push(i);
            i = i + 1;
            assert(r@ =~= all_positions(i as nat));
        }
        r
    }
}

/// The positions whose heat-map value reaches the threshold, in ascending order, among
/// those below the host length.
#[derive(Debug, Clone)]
pub struct HeatmapTraversal<'a> {
    /// One score per host position.
    pub heatmap: &'a [u8],
    /// The least score a position must have to be picked.
    pub threshold: u8,
}

/// The positions below `n` whose score in `heatmap` is at least `threshold`, ascending.
pub open spec fn hot_positions(heatmap: Seq<u8>, threshold: u8, n: nat) -> Seq<usize> {
    all_positions(n).filter(|i: usize| heatmap[i as int] >= threshold)
}

impl<'a> EmbeddingLocator for HeatmapTraversal<'a> {
    open spec fn spec_indices(&self, host_len: nat) -> Seq<usize> {
        let n = if self.heatmap@.len() <= host_len {
            self.heatmap@.len()
        } else {
            host_len
        };
        hot_positions(self.heatmap@, self.threshold, n)
    }

    fn iter_indices(&self, host_len: usize) -> (r: Vec<usize>) {
        let n = if self.heatmap.len() <= host_len {
            self.heatmap.len()
        } else {
            host_len
        };
        let mut r: Vec<usize> = Vec::new();
        let mut i: usize = 0;
        while i < n
            invariant
                i <= n,
                n <= self.heatmap@.len(),
                n <= host_len,
                r@ == hot_positions(self.heatmap@, self.threshold, i as nat),
                forall|k: int| 0 <= k < r@.len() ==> #[trigger] r@[k] < i,
            decreases n - i,
        {
            proof {
                assert(all_positions(i as nat + 1) =~= all_positions(i as nat).push(i));
                all_positions(i as nat).lemma_filter_push(
                    i,
                    |p: usize| self.heatmap@[p as int] >= self.threshold,
                );
            }
            if self.heatmap[i] >= self.threshold {
                r.push(i);
            }
            i = i + 1;
        }
        r
    }
}

/// An explicit list of positions, in its own order, without those past the host.
#[derive(Debug, Clone)]
pub struct PositionListTraversal<'a> {
    /// The positions to embed into.
    pub positions: &'a [usize],
}

/// The entries of `positions` below `n`, in their order.
pub open spec fn positions_below(positions: Seq<usize>, n: nat) -> Seq<usize> {
    positions.filter(|p: usize| p < n)
}

impl<'a> EmbeddingLocator for PositionListTraversal<'a> {
    open spec fn spec_indices(&self, host_len: nat) -> Seq<usize> {
        positions_below(self.positions@, host_len)
    }

    fn iter_indices(&self, host_len: usize) -> (r: Vec<usize>) {
        let mut r: Vec<usize> = Vec::new();
        let mut i: usize = 0;
        while i < self.positions.len()
            invariant
                i <= self.positions@.len(),
                r@ == positions_below(self.positions@.take(i as int), host_len as nat),
                forall|k: int| 0 <= k < r@.len() ==> #[trigger] r@[k] < host_len,
            decreases self.positions@.len() - i,
        {
            let p = self.positions[i];
            proof {
                assert(self.positions@.take(i as int + 1) =~= self.positions@.take(i as int).push(
                    p,
                ));
                self.positions@.take(i as int).lemma_filter_push(
                    p,
                    |q: usize| q < host_len as nat,
                );
            }
            if p < host_len {
                r.push(p);
            }
            i = i + 1;
        }
        proof {
            assert(self.positions@.take(i as int) =~= self.positions@);
        }
        r
    }
}

} // verus!
