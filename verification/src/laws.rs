//! Structural properties of the cut, proved of the model.

use crate::model::cut_model;
use crate::model::cut_indices;
use crate::model::cut_indices_up_to;
use crate::model::emit_piece;
use crate::model::emit_raw;
use crate::model::idxs_wf;
use crate::model::lemma_cut_indices_wf;
use crate::model::lemma_no_cut_between;
use crate::model::normalize;
use crate::model::oriented;
use crate::model::raw_pieces;
use crate::model::raw_pieces_from;
use crate::model::subtours_from;
use vstd::prelude::*;
use vstd::seq_lib::lemma_flatten_concat;

verus! {

/// Concatenating the pieces of the tail of the walk, in their original
/// orientation, rebuilds the tail of the tour.
proof fn lemma_from_flatten(tour: Seq<u32>, subset: Seq<u32>, idxs: Seq<int>, k: int, prev: int)
    requires
        idxs_wf(tour, subset, idxs),
        0 <= k < idxs.len(),
        -1 <= prev < idxs[k],
    ensures
        raw_pieces_from(tour, idxs, k, prev).flatten() == tour.subrange(
            prev + 1,
            tour.len() as int,
        ),
    decreases idxs.len() - k,
{
    let n = tour.len() as int;
    assert(0 <= idxs[k] < n);
    if k == idxs.len() - 1 && idxs[k] != n - 1 {
        let free = tour.subrange(prev + 1, idxs[k]);
        let tail = tour.subrange(idxs[k], n);
        assert(tail.len() > 0);
        assert(seq![tail].drop_first() =~= Seq::<Seq<u32>>::empty());
        assert(seq![tail].flatten() == tail + Seq::<Seq<u32>>::empty().flatten());
        assert(tail + Seq::<Seq<u32>>::empty().flatten() =~= tail);
        if free.len() == 0 {
            assert(prev + 1 == idxs[k]);
            assert(emit_raw(free) + seq![tail] =~= seq![tail]);
            assert(tail =~= tour.subrange(prev + 1, n));
        } else {
            lemma_flatten_concat(seq![free], seq![tail]);
            assert(seq![free].drop_first() =~= Seq::<Seq<u32>>::empty());
            assert(seq![free].flatten() == free + Seq::<Seq<u32>>::empty().flatten());
            assert(free + Seq::<Seq<u32>>::empty().flatten() =~= free);
            assert(emit_raw(free) + seq![tail] == seq![free] + seq![tail]);
            assert(free + tail =~= tour.subrange(prev + 1, n));
        }
    } else {
        let piece = tour.subrange(prev + 1, idxs[k] + 1);
        assert(piece.len() > 0);
        let rest = raw_pieces_from(tour, idxs, k + 1, idxs[k]);
        if k == idxs.len() - 1 {
            assert(idxs[k] == n - 1);
            assert(rest =~= Seq::<Seq<u32>>::empty());
            assert(seq![piece] + rest =~= seq![piece]);
            assert(seq![piece].drop_first() =~= Seq::<Seq<u32>>::empty());
            assert(seq![piece].flatten() == piece + Seq::<Seq<u32>>::empty().flatten());
            assert(piece + Seq::<Seq<u32>>::empty().flatten() =~= piece);
            assert(piece =~= tour.subrange(prev + 1, n));
        } else {
            assert(idxs[k] < idxs[k + 1]);
            lemma_from_flatten(tour, subset, idxs, k + 1, idxs[k]);
            lemma_flatten_concat(seq![piece], rest);
            assert(seq![piece].drop_first() =~= Seq::<Seq<u32>>::empty());
            assert(seq![piece].flatten() == piece + Seq::<Seq<u32>>::empty().flatten());
            assert(piece + Seq::<Seq<u32>>::empty().flatten() =~= piece);
            assert(piece + tour.subrange(idxs[k] + 1, n) =~= tour.subrange(prev + 1, n));
        }
    }
}

/// The emitted subtours of the tail of the walk are exactly its raw pieces
/// with the orientation rule applied to each.
proof fn lemma_from_oriented(tour: Seq<u32>, subset: Seq<u32>, idxs: Seq<int>, k: int, prev: int)
    requires
        idxs_wf(tour, subset, idxs),
        0 <= k < idxs.len(),
        -1 <= prev < idxs[k],
    ensures
        subtours_from(tour, subset, idxs, k, prev) == oriented(
            raw_pieces_from(tour, idxs, k, prev),
            subset,
        ),
        forall|i: int|
            0 <= i < raw_pieces_from(tour, idxs, k, prev).len() ==> #[trigger] raw_pieces_from(
                tour,
                idxs,
                k,
                prev,
            )[i].len() > 0,
    decreases idxs.len() - k,
{
    let n = tour.len() as int;
    assert(0 <= idxs[k] < n);
    if k == idxs.len() - 1 && idxs[k] != n - 1 {
        let free = tour.subrange(prev + 1, idxs[k]);
        let tail = tour.subrange(idxs[k], n);
        assert(tail.len() > 0);
        assert(emit_piece(free, subset) + emit_piece(tail, subset) =~= oriented(
            emit_raw(free) + emit_raw(tail),
            subset,
        ));
    } else {
        let piece = tour.subrange(prev + 1, idxs[k] + 1);
        assert(piece.len() > 0);
        if k == idxs.len() - 1 {
            assert(subtours_from(tour, subset, idxs, k + 1, idxs[k]) =~= Seq::<Seq<u32>>::empty());
            assert(raw_pieces_from(tour, idxs, k + 1, idxs[k]) =~= Seq::<Seq<u32>>::empty());
        } else {
            assert(idxs[k] < idxs[k + 1]);
            lemma_from_oriented(tour, subset, idxs, k + 1, idxs[k]);
        }
        assert(emit_piece(piece, subset) + subtours_from(tour, subset, idxs, k + 1, idxs[k])
            =~= oriented(emit_raw(piece) + raw_pieces_from(tour, idxs, k + 1, idxs[k]), subset));
    }
}

/// Completeness: concatenating the raw pieces, in emission order, rebuilds
/// the tour exactly, and each emitted subtour is the orientation rule
/// applied to its raw piece — so reversing back every subtour whose raw
/// piece did not start at a cut node recovers a partition of the tour.
///
/// With no cut position at all there are no pieces, so at least one is
/// required here.
pub proof fn lemma_completeness(tour: Seq<u32>, subset: Seq<u32>)
    requires
        tour.len() > 0,
        cut_indices(tour, subset).len() > 0,
    ensures
        raw_pieces(tour, subset).flatten() == tour,
        cut_model(tour, subset) == oriented(raw_pieces(tour, subset), subset),
        forall|i: int|
            0 <= i < raw_pieces(tour, subset).len() ==> #[trigger] raw_pieces(
                tour,
                subset,
            )[i].len() > 0,
        forall|i: int|
            0 <= i < raw_pieces(tour, subset).len() ==> #[trigger] cut_model(tour, subset)[i]
                == normalize(raw_pieces(tour, subset)[i], subset),
{
    let idxs = cut_indices(tour, subset);
    lemma_cut_indices_wf(tour, subset);
    lemma_from_flatten(tour, subset, idxs, 0, -1);
    lemma_from_oriented(tour, subset, idxs, 0, -1);
    assert(tour.subrange(0, tour.len() as int) =~= tour);
}

/// Undoing the orientation rule: a piece that started at a cut node was
/// kept, any other piece is recovered by reversing the emitted subtour.
pub proof fn lemma_normalize_undo(piece: Seq<u32>, subset: Seq<u32>)
    requires
        piece.len() > 0,
    ensures
        subset.contains(piece[0]) ==> normalize(piece, subset) == piece,
        !subset.contains(piece[0]) ==> normalize(piece, subset).reverse() == piece,
{
    if !subset.contains(piece[0]) {
        assert(piece.reverse().reverse() =~= piece);
    }
}

/// Re-applying the orientation rule to a subtour that already starts at a
/// member of `subset` is a no-op.
pub proof fn lemma_normalize_idempotent(piece: Seq<u32>, subset: Seq<u32>)
    requires
        piece.len() > 0,
        subset.contains(piece[0]),
    ensures
        normalize(piece, subset) == piece,
{
}

/// A subtour is anchored when it is non-empty and either starts at a member
/// of `subset` or contains no member of `subset` at all.
pub open spec fn anchored_subtour(s: Seq<u32>, subset: Seq<u32>) -> bool {
    &&& s.len() > 0
    &&& subset.contains(s[0]) || (forall|j: int|
        0 <= j < s.len() ==> !subset.contains(#[trigger] s[j]))
}

/// Every subtour emitted over the tail of the walk is anchored.
proof fn lemma_from_anchored(tour: Seq<u32>, subset: Seq<u32>, idxs: Seq<int>, k: int, prev: int)
    requires
        idxs_wf(tour, subset, idxs),
        0 <= k < idxs.len(),
        -1 <= prev < idxs[k],
        k == 0 ==> prev == -1,
        k > 0 ==> prev == idxs[k - 1],
    ensures
        forall|i: int|
            0 <= i < subtours_from(tour, subset, idxs, k, prev).len() ==> anchored_subtour(
                #[trigger] subtours_from(tour, subset, idxs, k, prev)[i],
                subset,
            ),
    decreases idxs.len() - k,
{
    let n = tour.len() as int;
    assert(0 <= idxs[k] < n);
    assert(subset.contains(tour[idxs[k]])) by {
        assert(idxs.contains(idxs[k]));
    }
    assert forall|p: int| prev < p < idxs[k] implies !subset.contains(#[trigger] tour[p]) by {
        lemma_no_cut_between(tour, subset, idxs, k, p);
    }
    let result = subtours_from(tour, subset, idxs, k, prev);
    if k == idxs.len() - 1 && idxs[k] != n - 1 {
        let free = tour.subrange(prev + 1, idxs[k]);
        let tail = tour.subrange(idxs[k], n);
        assert(result == emit_piece(free, subset) + emit_piece(tail, subset));
        assert(subset.contains(tail[0]));
        assert(anchored_subtour(normalize(tail, subset), subset));
        if free.len() > 0 {
            assert forall|j: int| 0 <= j < free.len() implies !subset.contains(
                #[trigger] free[j],
            ) by {
                assert(free[j] == tour[prev + 1 + j]);
            }
            let rev = free.reverse();
            assert forall|j: int| 0 <= j < rev.len() implies !subset.contains(
                #[trigger] rev[j],
            ) by {
                assert(rev[j] == free[free.len() - 1 - j]);
            }
            assert(normalize(free, subset) == rev);
            assert(anchored_subtour(normalize(free, subset), subset));
        }
        assert forall|i: int| 0 <= i < result.len() implies anchored_subtour(
            #[trigger] result[i],
            subset,
        ) by {
            if free.len() > 0 && i == 0 {
                assert(result[i] == normalize(free, subset));
            } else {
                assert(result[i] == normalize(tail, subset));
            }
        }
    } else {
        let piece = tour.subrange(prev + 1, idxs[k] + 1);
        let rest = subtours_from(tour, subset, idxs, k + 1, idxs[k]);
        assert(result == emit_piece(piece, subset) + rest);
        assert(piece.len() > 0);
        assert(piece[piece.len() - 1] == tour[idxs[k]]);
        if subset.contains(piece[0]) {
            assert(anchored_subtour(normalize(piece, subset), subset));
        } else {
            let rev = piece.reverse();
            assert(rev[0] == piece[piece.len() - 1]);
            assert(subset.contains(rev[0]));
            assert(anchored_subtour(normalize(piece, subset), subset));
        }
        if k < idxs.len() - 1 {
            assert(idxs[k] < idxs[k + 1]);
            lemma_from_anchored(tour, subset, idxs, k + 1, idxs[k]);
        } else {
            assert(rest =~= Seq::<Seq<u32>>::empty());
        }
        assert forall|i: int| 0 <= i < result.len() implies anchored_subtour(
            #[trigger] result[i],
            subset,
        ) by {
            if i == 0 {
                assert(result[i] == normalize(piece, subset));
            } else {
                assert(result[i] == rest[i - 1]);
            }
        }
    }
}

/// Boundary anchoring: every emitted subtour is non-empty, and whenever it
/// contains a member of `subset` at all, its first node is one.
pub proof fn lemma_boundary_anchoring(tour: Seq<u32>, subset: Seq<u32>)
    ensures
        forall|i: int|
            0 <= i < cut_model(tour, subset).len() ==> anchored_subtour(
                #[trigger] cut_model(tour, subset)[i],
                subset,
            ),
        forall|i: int|
            0 <= i < cut_model(tour, subset).len() ==> ((exists|j: int|
                0 <= j < cut_model(tour, subset)[i].len() && subset.contains(
                    #[trigger] cut_model(tour, subset)[i][j],
                )) ==> subset.contains(#[trigger] cut_model(tour, subset)[i][0])),
{
    lemma_cut_indices_wf(tour, subset);
    let idxs = cut_indices(tour, subset);
    if idxs.len() > 0 {
        lemma_from_anchored(tour, subset, idxs, 0, -1);
    }
}

/// The number of subtours emitted over the tail of the walk: one for each
/// remaining cut position, and one more when the tour wraps around and the
/// free remainder before the last cut position is non-empty.
proof fn lemma_from_len(tour: Seq<u32>, subset: Seq<u32>, idxs: Seq<int>, k: int, prev: int)
    requires
        idxs_wf(tour, subset, idxs),
        0 <= k < idxs.len(),
        -1 <= prev < idxs[k],
    ensures
        subtours_from(tour, subset, idxs, k, prev).len() == idxs.len() - 1 - k + (if idxs.last()
            == tour.len() - 1 {
            1int
        } else {
            let fprev = if k == idxs.len() - 1 {
                prev
            } else {
                idxs[idxs.len() - 2]
            };
            if fprev + 1 < idxs.last() {
                2int
            } else {
                1int
            }
        }),
    decreases idxs.len() - k,
{
    let n = tour.len() as int;
    assert(0 <= idxs[k] < n);
    if k == idxs.len() - 1 && idxs[k] != n - 1 {
        let free = tour.subrange(prev + 1, idxs[k]);
        let tail = tour.subrange(idxs[k], n);
        assert(tail.len() > 0);
        assert(free.len() == idxs[k] - prev - 1);
    } else {
        assert(tour.subrange(prev + 1, idxs[k] + 1).len() > 0);
        if k < idxs.len() - 1 {
            assert(idxs[k] < idxs[k + 1]);
            lemma_from_len(tour, subset, idxs, k + 1, idxs[k]);
        } else {
            assert(subtours_from(tour, subset, idxs, k + 1, idxs[k]) =~= Seq::<Seq<u32>>::empty());
        }
    }
}

/// Cardinality: with no cut position there are no subtours; with the last
/// cut position at the tour's end there are exactly as many subtours as cut
/// positions; otherwise the wraparound adds one extra piece exactly when the
/// free remainder before the last cut position is non-empty.
pub proof fn lemma_cardinality(tour: Seq<u32>, subset: Seq<u32>)
    ensures
        ({
            let idxs = cut_indices(tour, subset);
            let m = cut_model(tour, subset);
            &&& idxs.len() == 0 ==> m.len() == 0
            &&& (idxs.len() > 0 && idxs.last() == tour.len() - 1) ==> m.len() == idxs.len()
            &&& (idxs.len() > 0 && idxs.last() != tour.len() - 1) ==> m.len() == idxs.len() - 1 + (
            if (if idxs.len() == 1 {
                -1int
            } else {
                idxs[idxs.len() - 2]
            }) + 1 < idxs.last() {
                2int
            } else {
                1int
            })
        }),
{
    lemma_cut_indices_wf(tour, subset);
    let idxs = cut_indices(tour, subset);
    if idxs.len() > 0 {
        lemma_from_len(tour, subset, idxs, 0, -1);
    }
}

/// With no position listed, the walk emits nothing.
proof fn lemma_indices_of_empty_subset(tour: Seq<u32>, subset: Seq<u32>, n: int)
    requires
        subset.len() == 0,
    ensures
        cut_indices_up_to(tour, subset, n) == Seq::<int>::empty(),
    decreases n,
{
    if n > 0 {
        assert(!subset.contains(tour[n - 1]));
        lemma_indices_of_empty_subset(tour, subset, n - 1);
    }
}

/// An empty cut set yields an empty result, whatever the tour.
pub proof fn lemma_empty_subset(tour: Seq<u32>, subset: Seq<u32>)
    requires
        subset.len() == 0,
    ensures
        cut_model(tour, subset) == Seq::<Seq<u32>>::empty(),
{
    lemma_indices_of_empty_subset(tour, subset, tour.len() as int);
}

} // verus!
