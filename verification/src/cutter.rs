//! The executable cut, proved equal to the model.

use crate::model::cut_model;
use crate::model::cut_indices;
use crate::model::cut_indices_up_to;
use crate::model::emit_piece;
use crate::model::idxs_wf;
use crate::model::lemma_cut_indices_wf;
use crate::model::normalize;
use crate::model::subtours_from;
use crate::model::views;
use crate::model::as_ints;
use vstd::prelude::*;

verus! {

/// Whether `x` occurs among `nodes`.
fn contains_node(nodes: &Vec<u32>, x: u32) -> (found: bool)
    ensures
        found == nodes@.contains(x),
{
    let mut i: usize = 0;
    while i < nodes.len()
        invariant
            i <= nodes@.len(),
            forall|j: int| 0 <= j < i ==> nodes@[j] != x,
        decreases nodes@.len() - i,
    {
        if nodes[i] == x {
            assert(nodes@.contains(x)) by {
                assert(nodes@[i as int] == x);
            }
            return true;
        }
        i += 1;
    }
    false
}

/// A fresh copy of `tour[from .. to]`.
fn copy_range(tour: &Vec<u32>, from: usize, to: usize) -> (piece: Vec<u32>)
    requires
        from <= to <= tour@.len(),
    ensures
        piece@ == tour@.subrange(from as int, to as int),
{
    let mut piece: Vec<u32> = Vec::new();
    let mut i: usize = from;
    assert(piece@ =~= tour@.subrange(from as int, from as int));
    while i < to
        invariant
            from <= i <= to <= tour@.len(),
            piece@ == tour@.subrange(from as int, i as int),
        decreases to - i,
    {
        piece.push(tour[i]);
        assert(piece@ =~= tour@.subrange(from as int, i as int + 1));
        i += 1;
    }
    piece
}

/// A fresh copy of `piece` with its elements in reverse order.
fn reversed(piece: &Vec<u32>) -> (rev: Vec<u32>)
    ensures
        rev@ == piece@.reverse(),
{
    let mut rev: Vec<u32> = Vec::new();
    let mut i: usize = 0;
    while i < piece.len()
        invariant
            i <= piece@.len(),
            rev@.len() == i,
            forall|j: int| 0 <= j < i ==> rev@[j] == piece@[piece@.len() - 1 - j],
        decreases piece@.len() - i,
    {
        rev.push(piece[piece.len() - 1 - i]);
        i += 1;
    }
    assert(rev@ =~= piece@.reverse());
    rev
}

/// Applies the orientation rule: a piece whose first node is a member of
/// `subset` is kept as it is, any other piece is reversed.
pub fn normalize_subtour(piece: Vec<u32>, subset: &Vec<u32>) -> (oriented: Vec<u32>)
    ensures
        oriented@ == normalize(piece@, subset@),
{
    if piece.len() > 0 && contains_node(subset, piece[0]) {
        piece
    } else {
        reversed(&piece)
    }
}

/// Appends `piece` to the emitted subtours if it is non-empty, oriented by
/// the rule of `normalize`.
fn push_subtour(subtours: &mut Vec<Vec<u32>>, piece: Vec<u32>, subset: &Vec<u32>)
    ensures
        views(final(subtours)@) == views(old(subtours)@) + emit_piece(piece@, subset@),
{
    if piece.len() > 0 {
        let oriented = normalize_subtour(piece, subset);
        let ghost before = subtours@;
        subtours.push(oriented);
        assert(views(subtours@) =~= views(before) + emit_piece(piece@, subset@));
    } else {
        assert(views(subtours@) =~= views(subtours@) + emit_piece(piece@, subset@));
    }
}

/// Splits the closed tour `tour` at every node that is a member of `subset`.
///
/// A piece is closed immediately after each occurrence of a cut node. When
/// the last cut node is not at the tour's final position, the remaining tail
/// is emitted as two pieces: the free remainder before the last cut node,
/// then the stretch from the last cut node to the end, which cyclically
/// joins the front of the tour. Every emitted piece is non-empty and is
/// oriented by the rule of `normalize`: it starts at a cut node whenever it
/// contains one. The result is exactly `cut_model(tour@, subset@)`.
///
/// An empty tour has no last position to compare against, so it is ruled
/// out by precondition rather than given a made-up result.
pub fn cut(tour: Vec<u32>, subset: Vec<u32>) -> (subtours: Vec<Vec<u32>>)
    requires
        tour@.len() > 0,
    ensures
        views(subtours@) == cut_model(tour@, subset@),
{
    let mut subtours: Vec<Vec<u32>> = Vec::new();
    let mut idxs: Vec<usize> = Vec::new();
    let mut i: usize = 0;
    assert(as_ints(idxs@) =~= cut_indices_up_to(tour@, subset@, 0));
    while i < tour.len()
        invariant
            i <= tour@.len(),
            forall|j: int| 0 <= j < idxs@.len() ==> #[trigger] idxs@[j] < i,
            as_ints(idxs@) == cut_indices_up_to(tour@, subset@, i as int),
        decreases tour@.len() - i,
    {
        let ghost before = idxs@;
        if contains_node(&subset, tour[i]) {
            idxs.push(i);
            assert(as_ints(idxs@) =~= as_ints(before).push(i as int));
        }
        assert(as_ints(idxs@) =~= cut_indices_up_to(tour@, subset@, i as int + 1));
        i += 1;
    }
    let ghost gidxs: Seq<int> = cut_indices(tour@, subset@);
    proof {
        assert(as_ints(idxs@) == gidxs);
        lemma_cut_indices_wf(tour@, subset@);
    }

    let tour_len: usize = tour.len();
    let last_ix: usize = tour_len - 1;
    let mut start: usize = 0;
    let mut e: usize = 0;
    assert(views(subtours@) =~= Seq::<Seq<u32>>::empty());
    assert(Seq::<Seq<u32>>::empty() + subtours_from(tour@, subset@, gidxs, 0, -1) =~= cut_model(
        tour@,
        subset@,
    ));
    while e < idxs.len()
        invariant
            tour@.len() > 0,
            tour_len == tour@.len(),
            last_ix == tour@.len() - 1,
            gidxs == cut_indices(tour@, subset@),
            as_ints(idxs@) == gidxs,
            idxs_wf(tour@, subset@, gidxs),
            e <= idxs@.len(),
            0 <= start <= tour@.len(),
            e < idxs@.len() ==> start <= gidxs[e as int],
            views(subtours@) + subtours_from(tour@, subset@, gidxs, e as int, start as int - 1)
                == cut_model(tour@, subset@),
        decreases idxs@.len() - e,
    {
        let idx: usize = idxs[e];
        assert(idx as int == gidxs[e as int]);
        assert(0 <= gidxs[e as int] < tour@.len());
        let ghost emitted = views(subtours@);
        let ghost rest = subtours_from(tour@, subset@, gidxs, e as int, start as int - 1);
        if e == idxs.len() - 1 && idx != last_ix {
            let free_piece = copy_range(&tour, start, idx);
            let tail_piece = copy_range(&tour, idx, tour.len());
            push_subtour(&mut subtours, free_piece, &subset);
            push_subtour(&mut subtours, tail_piece, &subset);
            proof {
                let free = emit_piece(tour@.subrange(start as int, idx as int), subset@);
                let tail = emit_piece(tour@.subrange(idx as int, tour@.len() as int), subset@);
                assert(rest == free + tail);
                assert((emitted + free) + tail =~= emitted + (free + tail));
                assert(views(subtours@) == emitted + rest);
                assert(subtours_from(tour@, subset@, gidxs, e as int + 1, start as int - 1)
                    =~= Seq::<Seq<u32>>::empty());
                assert(emitted + rest + Seq::<Seq<u32>>::empty() =~= emitted + rest);
            }
        } else {
            assert(idx < tour_len);
            let piece = copy_range(&tour, start, idx + 1);
            push_subtour(&mut subtours, piece, &subset);
            proof {
                let head = emit_piece(tour@.subrange(start as int, idx as int + 1), subset@);
                let tail = subtours_from(tour@, subset@, gidxs, e as int + 1, idx as int);
                assert(rest == head + tail);
                assert((emitted + head) + tail =~= emitted + (head + tail));
                assert(e as int + 1 < gidxs.len() ==> gidxs[e as int] < gidxs[e as int + 1]);
            }
            start = idx + 1;
        }
        e += 1;
    }
    assert(subtours_from(tour@, subset@, gidxs, e as int, start as int - 1) =~= Seq::<
        Seq<u32>,
    >::empty());
    assert(views(subtours@) + Seq::<Seq<u32>>::empty() =~= views(subtours@));
    subtours
}

} // verus!
