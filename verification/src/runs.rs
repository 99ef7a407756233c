//! Runs: parts of a slice that lie side by side.

use vstd::prelude::*;

verus! {

/// A part of the slice that is to be merged: from the first index up to the second.
pub type Run = (usize, usize);

/// The number of elements in a run.
pub open spec fn run_len(run: Run) -> int {
    run.1 - run.0
}

/// The index at which a run starts.
pub open spec fn start_of(run: Run) -> int {
    run.0 as int
}

/// The index behind a run.
pub open spec fn end_of(run: Run) -> int {
    run.1 as int
}

/// The runs of `rs` lie side by side from `lo` up to `hi`, none of them empty.
pub open spec fn tiled(rs: Seq<Run>, lo: int, hi: int) -> bool {
    &&& rs.len() == 0 ==> lo == hi
    &&& rs.len() > 0 ==> rs[0].0 == lo && rs[rs.len() - 1].1 == hi
    &&& forall|t: int| 0 <= t < rs.len() ==> (#[trigger] rs[t]).0 < rs[t].1
    &&& forall|t: int| 0 <= t < rs.len() - 1 ==> (#[trigger] rs[t]).1 == rs[t + 1].0
}

/// Runs that lie side by side lie in the order of their indices.
pub proof fn lemma_tiled(rs: Seq<Run>, lo: int, hi: int, t: int, u: int)
    requires
        tiled(rs, lo, hi),
        0 <= t <= u < rs.len(),
    ensures
        lo <= rs[t].0 < rs[t].1 <= rs[u].1 <= hi,
{
    lemma_tiled_up(rs, lo, hi, 0, t);
    lemma_tiled_up(rs, lo, hi, t, u);
    lemma_tiled_up(rs, lo, hi, u, rs.len() - 1);
}

/// Of runs that lie side by side, a later one does not start or end before an earlier one.
pub proof fn lemma_tiled_up(rs: Seq<Run>, lo: int, hi: int, t: int, u: int)
    requires
        tiled(rs, lo, hi),
        0 <= t <= u < rs.len(),
    ensures
        rs[t].0 <= rs[u].0,
        rs[t].1 <= rs[u].1,
    decreases u - t,
{
    if t < u {
        lemma_tiled_up(rs, lo, hi, t + 1, u);
    }
}

/// The length of a sequence as an integer.
pub open spec fn len_of<T>(s: Seq<T>) -> int {
    s.len() as int
}

} // verus!
