//! The mathematical model of the tour-cutting transform.
//!
//! Everything here is specification-level: the cut positions of a tour, the
//! orientation rule, and the full sequence of subtours that a cut produces.
//! The executable code in [`crate::cutter`] is proved equal to `cut_model`,
//! and the laws in [`crate::laws`] are proved of `cut_model`.

use vstd::prelude::*;

verus! {

/// The ascending sequence of positions `i < n` at which the tour's node is a
/// member of `subset`.
pub open spec fn cut_indices_up_to(tour: Seq<u32>, subset: Seq<u32>, n: int) -> Seq<int>
    decreases n,
{
    if n <= 0 {
        Seq::empty()
    } else if subset.contains(tour[n - 1]) {
        cut_indices_up_to(tour, subset, n - 1).push(n - 1)
    } else {
        cut_indices_up_to(tour, subset, n - 1)
    }
}

/// The ascending sequence of all positions of `tour` whose node is a member
/// of `subset`.
pub open spec fn cut_indices(tour: Seq<u32>, subset: Seq<u32>) -> Seq<int> {
    cut_indices_up_to(tour, subset, tour.len() as int)
}

/// What `cut_indices` promises: every entry is a valid position, the entries
/// are strictly ascending, and a position is listed exactly when its node is
/// a member of `subset`.
pub open spec fn idxs_wf(tour: Seq<u32>, subset: Seq<u32>, idxs: Seq<int>) -> bool {
    &&& forall|j: int| 0 <= j < idxs.len() ==> 0 <= #[trigger] idxs[j] < tour.len()
    &&& forall|j1: int, j2: int|
        0 <= j1 < j2 < idxs.len() ==> #[trigger] idxs[j1] < #[trigger] idxs[j2]
    &&& forall|i: int|
        0 <= i < tour.len() ==> (subset.contains(#[trigger] tour[i]) <==> idxs.contains(i))
}

/// The orientation rule: a piece that starts at a member of `subset` is kept,
/// any other piece is reversed.
pub open spec fn normalize(piece: Seq<u32>, subset: Seq<u32>) -> Seq<u32> {
    if piece.len() > 0 && subset.contains(piece[0]) {
        piece
    } else {
        piece.reverse()
    }
}

/// A non-empty piece is emitted after orientation; an empty piece is dropped.
pub open spec fn emit_piece(piece: Seq<u32>, subset: Seq<u32>) -> Seq<Seq<u32>> {
    if piece.len() == 0 {
        Seq::empty()
    } else {
        seq![normalize(piece, subset)]
    }
}

/// The subtours emitted while walking the cut positions `idxs[k..]`, where
/// `prev` is the position of the last node already emitted (`-1` before the
/// first piece).
///
/// Every position but the last closes the piece `tour[prev + 1 ..= idxs[k]]`.
/// The last position does the same when it is the tour's final position;
/// otherwise the tour wraps around and two pieces are emitted: the free
/// remainder `tour[prev + 1 .. idxs[k]]` and the tail `tour[idxs[k] ..]`.
pub open spec fn subtours_from(
    tour: Seq<u32>,
    subset: Seq<u32>,
    idxs: Seq<int>,
    k: int,
    prev: int,
) -> Seq<Seq<u32>>
    decreases idxs.len() - k,
{
    if k < 0 || k >= idxs.len() {
        Seq::empty()
    } else if k == idxs.len() - 1 && idxs[k] != tour.len() - 1 {
        emit_piece(tour.subrange(prev + 1, idxs[k]), subset) + emit_piece(
            tour.subrange(idxs[k], tour.len() as int),
            subset,
        )
    } else {
        emit_piece(tour.subrange(prev + 1, idxs[k] + 1), subset) + subtours_from(
            tour,
            subset,
            idxs,
            k + 1,
            idxs[k],
        )
    }
}

/// A non-empty piece kept in its original orientation; an empty piece is
/// dropped.
pub open spec fn emit_raw(piece: Seq<u32>) -> Seq<Seq<u32>> {
    if piece.len() == 0 {
        Seq::empty()
    } else {
        seq![piece]
    }
}

/// The pieces of the tour in their original orientation, walking the cut
/// positions `idxs[k..]` as `subtours_from` does, but before the orientation
/// rule is applied. Empty pieces are dropped, so these pieces correspond one
/// to one to the emitted subtours.
pub open spec fn raw_pieces_from(tour: Seq<u32>, idxs: Seq<int>, k: int, prev: int) -> Seq<
    Seq<u32>,
>
    decreases idxs.len() - k,
{
    if k < 0 || k >= idxs.len() {
        Seq::empty()
    } else if k == idxs.len() - 1 && idxs[k] != tour.len() - 1 {
        emit_raw(tour.subrange(prev + 1, idxs[k])) + emit_raw(
            tour.subrange(idxs[k], tour.len() as int),
        )
    } else {
        emit_raw(tour.subrange(prev + 1, idxs[k] + 1)) + raw_pieces_from(tour, idxs, k + 1, idxs[k])
    }
}

/// The non-empty pieces of the tour in their original orientation, in
/// emission order.
pub open spec fn raw_pieces(tour: Seq<u32>, subset: Seq<u32>) -> Seq<Seq<u32>> {
    raw_pieces_from(tour, cut_indices(tour, subset), 0, -1)
}

/// The full result of cutting `tour` at the members of `subset`.
pub open spec fn cut_model(tour: Seq<u32>, subset: Seq<u32>) -> Seq<Seq<u32>> {
    subtours_from(tour, subset, cut_indices(tour, subset), 0, -1)
}

/// The orientation rule applied to each piece of a collection.
pub open spec fn oriented(pieces: Seq<Seq<u32>>, subset: Seq<u32>) -> Seq<Seq<u32>> {
    pieces.map_values(|p: Seq<u32>| normalize(p, subset))
}

/// The abstract contents of a vector of subtours.
pub open spec fn views(subtours: Seq<Vec<u32>>) -> Seq<Seq<u32>> {
    subtours.map_values(|s: Vec<u32>| s@)
}

/// A sequence of positions as mathematical integers.
pub open spec fn as_ints(positions: Seq<usize>) -> Seq<int> {
    positions.map_values(|p: usize| p as int)
}

/// `cut_indices_up_to` is well formed over the prefix it covers.
proof fn lemma_cut_indices_up_to_wf(tour: Seq<u32>, subset: Seq<u32>, n: int)
    requires
        0 <= n <= tour.len(),
    ensures
        forall|j: int|
            0 <= j < cut_indices_up_to(tour, subset, n).len() ==> 0 <= #[trigger] cut_indices_up_to(
                tour,
                subset,
                n,
            )[j] < n,
        forall|j1: int, j2: int|
            0 <= j1 < j2 < cut_indices_up_to(tour, subset, n).len() ==> #[trigger] cut_indices_up_to(
                tour,
                subset,
                n,
            )[j1] < #[trigger] cut_indices_up_to(tour, subset, n)[j2],
        forall|i: int|
            0 <= i < n ==> (subset.contains(#[trigger] tour[i]) <==> cut_indices_up_to(
                tour,
                subset,
                n,
            ).contains(i)),
    decreases n,
{
    if n > 0 {
        lemma_cut_indices_up_to_wf(tour, subset, n - 1);
        let shorter = cut_indices_up_to(tour, subset, n - 1);
        let longer = cut_indices_up_to(tour, subset, n);
        if subset.contains(tour[n - 1]) {
            assert(longer == shorter.push(n - 1));
            assert forall|i: int| 0 <= i < n implies (subset.contains(#[trigger] tour[i])
                <==> longer.contains(i)) by {
                if i == n - 1 {
                    assert(longer[longer.len() - 1] == n - 1);
                    assert(longer.contains(n - 1));
                } else {
                    if shorter.contains(i) {
                        let w = choose|w: int| 0 <= w < shorter.len() && shorter[w] == i;
                        assert(longer[w] == i);
                    }
                    if longer.contains(i) {
                        let w = choose|w: int| 0 <= w < longer.len() && longer[w] == i;
                        assert(w < shorter.len());
                        assert(shorter[w] == i);
                    }
                }
            }
        } else {
            assert(longer == shorter);
            assert forall|i: int| 0 <= i < n implies (subset.contains(#[trigger] tour[i])
                <==> longer.contains(i)) by {
                if i == n - 1 {
                    if longer.contains(i) {
                        let w = choose|w: int| 0 <= w < longer.len() && longer[w] == i;
                        assert(0 <= longer[w] < n - 1);
                    }
                }
            }
        }
    }
}

/// The derived cut positions are well formed: in range, strictly ascending,
/// and listing exactly the positions whose node is a member of `subset`.
pub proof fn lemma_cut_indices_wf(tour: Seq<u32>, subset: Seq<u32>)
    ensures
        idxs_wf(tour, subset, cut_indices(tour, subset)),
{
    lemma_cut_indices_up_to_wf(tour, subset, tour.len() as int);
}

/// Between two cut positions that are adjacent in `idxs` (or before the
/// first), no position is a cut position.
pub proof fn lemma_no_cut_between(
    tour: Seq<u32>,
    subset: Seq<u32>,
    idxs: Seq<int>,
    k: int,
    p: int,
)
    requires
        idxs_wf(tour, subset, idxs),
        0 <= k < idxs.len(),
        p < idxs[k],
        k == 0 ==> -1 < p,
        k > 0 ==> idxs[k - 1] < p,
    ensures
        !idxs.contains(p),
        0 <= p < tour.len() ==> !subset.contains(tour[p]),
{
    if idxs.contains(p) {
        let w = choose|w: int| 0 <= w < idxs.len() && idxs[w] == p;
        if w < k {
            assert(w <= k - 1);
            if w < k - 1 {
                assert(idxs[w] < idxs[k - 1]);
            }
            assert(false);
        } else {
            assert(k < w ==> idxs[k] < idxs[w]);
            assert(false);
        }
    }
    if 0 <= p < tour.len() {
        assert(subset.contains(tour[p]) ==> idxs.contains(p));
    }
}

} // verus!
