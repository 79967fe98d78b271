//! The backtracking search over pieces and orientations.
//!
//! The solver always works on the lowest free board cell in row-major order.
//! Every canonical orientation contains its local cell (0, 0) as the
//! leftmost cell of its topmost row, so anchoring an orientation at the
//! target cell covers the target itself; filling the lowest free cell first
//! is therefore a complete strategy, not a heuristic.

use vstd::prelude::*;

use crate::board::Board;
use crate::board::Placement;
use crate::board::PlacementView;
use crate::board::lemma_place_unplace_restores;
use crate::piece::Pentomino;
use crate::piece::catalog_wf;
use crate::piece::lex_leq;
use crate::piece::pent_wf;
use crate::piece::shape_ok;
use crate::piece::translate_cells;

verus! {

/// Placement `p` anchors orientation `p.orientation` of catalog piece
/// `p.piece` at (p.x, p.y) and records exactly that orientation's cells.
pub open spec fn placement_from_catalog(cs: Seq<Pentomino>, p: PlacementView) -> bool {
    &&& 0 <= p.piece < cs.len()
    &&& 0 <= p.orientation < cs[p.piece]@.len()
    &&& p.cells == translate_cells(cs[p.piece]@[p.orientation], p.x, p.y)
}

pub open spec fn placements_match(cs: Seq<Pentomino>, pls: Seq<PlacementView>) -> bool {
    forall|j: int| 0 <= j < pls.len() ==> placement_from_catalog(cs, #[trigger] pls[j])
}

pub open spec fn pieces_distinct(pls: Seq<PlacementView>) -> bool {
    forall|j: int, k: int|
        0 <= j < k < pls.len() ==> (#[trigger] pls[j]).piece != (#[trigger] pls[k]).piece
}

/// The pool holds the catalog indices of the unplaced pieces: all valid, no
/// repeats, and none of them already on the board.
pub open spec fn pool_ok(cs: Seq<Pentomino>, pool: Seq<usize>, pls: Seq<PlacementView>) -> bool {
    &&& forall|k: int| 0 <= k < pool.len() ==> (#[trigger] pool[k]) < cs.len()
    &&& pool.no_duplicates()
    &&& forall|k: int, j: int|
        0 <= k < pool.len() && 0 <= j < pls.len() ==> (#[trigger] pool[k]) != (
        #[trigger] pls[j]).piece
}

/// Every board cell with row-major index below `bound` is occupied.
pub open spec fn prefix_occupied(b: Board, bound: int) -> bool {
    forall|ax: int, ay: int|
        b.in_board(ax, ay) && ay * b.width + ax < bound ==> b.occ(ax, ay)
}

/// An accepted covering: every placement takes a catalog orientation, no
/// piece is used twice, all covered cells lie on the board, no two
/// placements overlap, and every board cell is covered by some placement.
pub open spec fn is_exact_cover(cs: Seq<Pentomino>, w: int, h: int, sol: Seq<PlacementView>)
    -> bool {
    &&& placements_match(cs, sol)
    &&& pieces_distinct(sol)
    &&& forall|j: int| 0 <= j < sol.len() ==> (#[trigger] sol[j]).cells.len() == 5 && sol[
        j].cells.no_duplicates() && (forall|i: int|
        0 <= i < sol[j].cells.len() ==> 0 <= (#[trigger] sol[j].cells[i]).0 < w && 0 <= sol[
            j].cells[i].1 < h)
    &&& forall|j: int, k: int, cx: int, cy: int|
        0 <= j < sol.len() && 0 <= k < sol.len() && j != k && (#[trigger] sol[j].cells.contains(
            (cx, cy),
        )) ==> !(#[trigger] sol[k].cells.contains((cx, cy)))
    &&& forall|cx: int, cy: int| 0 <= cx < w && 0 <= cy < h ==> #[trigger] sol_covers(
        sol,
        cx,
        cy,
    )
}

/// Some placement of `sol` covers board cell (cx, cy).
pub open spec fn sol_covers(sol: Seq<PlacementView>, cx: int, cy: int) -> bool {
    exists|j: int| 0 <= j < sol.len() && (#[trigger] sol[j]).cells.contains((cx, cy))
}

/// Some pool entry is piece `p`.
pub open spec fn pool_has(pool: Seq<usize>, p: int) -> bool {
    exists|k: int| 0 <= k < pool.len() && (#[trigger] pool[k]) as int == p
}

/// Every cell of every placement of `ext` is a free board cell of `b`.
pub open spec fn ext_cells_free(b: Board, ext: Seq<PlacementView>) -> bool {
    forall|j: int, t: int|
        0 <= j < ext.len() && 0 <= t < (#[trigger] ext[j]).cells.len() ==> b.in_board(
            (#[trigger] ext[j].cells[t]).0,
            ext[j].cells[t].1,
        ) && !b.occ(ext[j].cells[t].0, ext[j].cells[t].1)
}

/// Laid over board `b`, the placements of `ext` would finish it: each one
/// takes a catalog orientation and a piece still in `pool` (no piece twice),
/// they cover only free board cells, none of them overlap, and together
/// they cover every free cell.
pub open spec fn completes(cs: Seq<Pentomino>, b: Board, pool: Seq<usize>, ext: Seq<PlacementView>)
    -> bool {
    &&& placements_match(cs, ext)
    &&& pieces_distinct(ext)
    &&& forall|j: int| 0 <= j < ext.len() ==> pool_has(pool, (#[trigger] ext[j]).piece)
    &&& ext_cells_free(b, ext)
    &&& forall|j: int, k: int, cx: int, cy: int|
        0 <= j < ext.len() && 0 <= k < ext.len() && j != k && (#[trigger] ext[j].cells.contains(
            (cx, cy),
        )) ==> !(#[trigger] ext[k].cells.contains((cx, cy)))
    &&& forall|cx: int, cy: int|
        b.in_board(cx, cy) && !b.occ(cx, cy) ==> #[trigger] sol_covers(ext, cx, cy)
}

proof fn lemma_lex_lin_le(w: int, a: (int, int), b: (int, int))
    requires
        0 < w,
        0 <= a.0 < w,
        0 <= b.0 < w,
        lex_leq(a, b),
    ensures
        a.1 * w + a.0 <= b.1 * w + b.0,
{
    assert(a.1 * w + a.0 <= b.1 * w + b.0) by (nonlinear_arith)
        requires
            0 < w,
            0 <= a.0 < w,
            0 <= b.0 < w,
            a.1 < b.1 || (a.1 == b.1 && a.0 <= b.0),
    ;
}

/// A recorded solution, seen as the mathematical list of its placements.
pub open spec fn sol_view(s: Seq<Placement>) -> Seq<PlacementView> {
    s.map_values(|p: Placement| p@)
}

/// The list of recorded solutions, each as its placement list.
pub open spec fn sols_view(s: Seq<Vec<Placement>>) -> Seq<Seq<PlacementView>> {
    s.map_values(|v: Vec<Placement>| sol_view(v@))
}

fn clone_placement(p: &Placement) -> (r: Placement)
    ensures
        r@ == p@,
{
    let mut cells: Vec<(i32, i32)> = Vec::new();
    let mut i: usize = 0;
    while i < p.cells.len()
        invariant
            i <= p.cells@.len(),
            cells@.len() == i,
            forall|k: int| 0 <= k < i ==> #[trigger] cells@[k] == p.cells@[k],
        decreases p.cells@.len() - i,
    {
        cells.push(p.cells[i]);
        i = i + 1;
    }
    proof {
        assert(cells@ =~= p.cells@);
    }
    Placement { x: p.x, y: p.y, piece: p.piece, orientation: p.orientation, cells }
}

fn clone_placements(v: &Vec<Placement>) -> (r: Vec<Placement>)
    ensures
        sol_view(r@) == sol_view(v@),
{
    let mut r: Vec<Placement> = Vec::new();
    let mut i: usize = 0;
    while i < v.len()
        invariant
            i <= v@.len(),
            r@.len() == i,
            forall|k: int| 0 <= k < i ==> #[trigger] sol_view(r@)[k] == sol_view(v@)[k],
        decreases v@.len() - i,
    {
        let p = clone_placement(&v[i]);
        let ghost old_r = r@;
        r.push(p);
        proof {
            assert forall|k: int| 0 <= k <= i implies #[trigger] sol_view(r@)[k] == sol_view(
                v@,
            )[k] by {
                if k < i {
                    assert(r@[k] == old_r[k]);
                    assert(sol_view(old_r)[k] == sol_view(v@)[k]);
                }
            }
        }
        i = i + 1;
    }
    proof {
        assert(sol_view(r@) =~= sol_view(v@));
    }
    r
}

/// After the placement covering the target is laid down, the rest of the
/// extension finishes the resulting board with the reduced pool.
proof fn lemma_rest_completes(
    cs: Seq<Pentomino>,
    b0: Board,
    b1: Board,
    pool0: Seq<usize>,
    pool1: Seq<usize>,
    ext: Seq<PlacementView>,
    je: int,
    i_star: int,
    tcells: Seq<(int, int)>,
)
    requires
        completes(cs, b0, pool0, ext),
        0 <= je < ext.len(),
        0 <= i_star < pool0.len(),
        (pool0[i_star] as int) == ext[je].piece,
        pool1 == pool0.remove(i_star),
        tcells == ext[je].cells,
        b1.width == b0.width,
        b1.height == b0.height,
        forall|ax: int, ay: int| b0.valid_cell(ax, ay) ==> #[trigger] b1.occ(ax, ay) == (b0.occ(
            ax,
            ay,
        ) || tcells.contains((ax, ay))),
    ensures
        completes(cs, b1, pool1, ext.remove(je)),
{
    let ext1 = ext.remove(je);
    let e = ext[je];
    assert forall|j2: int| 0 <= j2 < ext1.len() implies #[trigger] ext1[j2] == (if j2 < je {
        ext[j2]
    } else {
        ext[j2 + 1]
    }) by {}
    assert forall|k2: int| 0 <= k2 < pool1.len() implies #[trigger] pool1[k2] == (if k2 < i_star {
        pool0[k2]
    } else {
        pool0[k2 + 1]
    }) by {}

    assert forall|j2: int| 0 <= j2 < ext1.len() implies placement_from_catalog(
        cs,
        #[trigger] ext1[j2],
    ) by {
        let ja: int = if j2 < je { j2 } else { j2 + 1 };
        assert(ext1[j2] == ext[ja]);
        assert(placement_from_catalog(cs, ext[ja]));
    }
    assert forall|j2: int, k2: int| 0 <= j2 < k2 < ext1.len() implies (
    #[trigger] ext1[j2]).piece != (#[trigger] ext1[k2]).piece by {
        let ja: int = if j2 < je { j2 } else { j2 + 1 };
        let ka: int = if k2 < je { k2 } else { k2 + 1 };
        assert(ext1[j2] == ext[ja] && ext1[k2] == ext[ka]);
        assert(ja < ka);
        assert(ext[ja].piece != ext[ka].piece);
    }
    assert forall|j2: int| 0 <= j2 < ext1.len() implies pool_has(
        pool1,
        (#[trigger] ext1[j2]).piece,
    ) by {
        let ja: int = if j2 < je { j2 } else { j2 + 1 };
        assert(ext1[j2] == ext[ja]);
        assert(pool_has(pool0, ext[ja].piece));
        let k = choose|k: int|
            0 <= k < pool0.len() && (#[trigger] pool0[k]) as int == ext[ja].piece;
        if ja < je {
            assert(ext[ja].piece != ext[je].piece);
        } else {
            assert(ext[je].piece != ext[ja].piece);
        }
        assert(k != i_star);
        if k < i_star {
            assert((pool1[k] as int) == ext1[j2].piece);
        } else {
            assert((pool1[k - 1] as int) == ext1[j2].piece);
        }
    }
    assert forall|j2: int, t: int|
        0 <= j2 < ext1.len() && 0 <= t < (#[trigger] ext1[j2]).cells.len() implies b1.in_board(
        (#[trigger] ext1[j2].cells[t]).0,
        ext1[j2].cells[t].1,
    ) && !b1.occ(ext1[j2].cells[t].0, ext1[j2].cells[t].1) by {
        let ja: int = if j2 < je { j2 } else { j2 + 1 };
        assert(ext1[j2] == ext[ja]);
        let cc = ext[ja].cells[t];
        assert(b0.in_board((#[trigger] ext[ja].cells[t]).0, ext[ja].cells[t].1) && !b0.occ(
            ext[ja].cells[t].0,
            ext[ja].cells[t].1,
        ));
        assert(b1.in_board(cc.0, cc.1));
        assert(b0.valid_cell(cc.0, cc.1));
        if tcells.contains((cc.0, cc.1)) {
            assert(ext[je].cells.contains((cc.0, cc.1)));
            assert(ext[ja].cells.contains((cc.0, cc.1)));
            assert(false);
        }
        assert(b1.occ(cc.0, cc.1) == (b0.occ(cc.0, cc.1) || tcells.contains((cc.0, cc.1))));
    }
    assert forall|j2: int, k2: int, cx: int, cy: int|
        0 <= j2 < ext1.len() && 0 <= k2 < ext1.len() && j2 != k2 && (
        #[trigger] ext1[j2].cells.contains((cx, cy))) implies !(
        #[trigger] ext1[k2].cells.contains((cx, cy))) by {
        let ja: int = if j2 < je { j2 } else { j2 + 1 };
        let ka: int = if k2 < je { k2 } else { k2 + 1 };
        assert(ext1[j2] == ext[ja] && ext1[k2] == ext[ka]);
        assert(ext[ja].cells.contains((cx, cy)));
        assert(!ext[ka].cells.contains((cx, cy)));
    }
    assert forall|cx: int, cy: int| b1.in_board(cx, cy) && !b1.occ(cx, cy) implies
        #[trigger] sol_covers(ext1, cx, cy) by {
        assert(b0.in_board(cx, cy));
        assert(b0.valid_cell(cx, cy));
        assert(b1.occ(cx, cy) == (b0.occ(cx, cy) || tcells.contains((cx, cy))));
        assert(!b0.occ(cx, cy) && !tcells.contains((cx, cy)));
        assert(sol_covers(ext, cx, cy));
        let ja = choose|j: int| 0 <= j < ext.len() && (#[trigger] ext[j]).cells.contains(
            (cx, cy),
        );
        assert(ja != je);
        let j2: int = if ja < je { ja } else { ja - 1 };
        assert(ext1[j2] == ext[ja]);
        assert(ext1[j2].cells.contains((cx, cy)));
        assert(sol_covers(ext1, cx, cy));
    }
    assert(completes(cs, b1, pool1, ext1));
}

/// One node of the backtracking search with target cell (x, y): tries every
/// still-unplaced piece in pool order and every one of its orientations in
/// generator order, anchored at the target; on success recurses on the next
/// free cell, and records the covering when no free cell is left. On return
/// the board and the pool are exactly as they were; everything appended to
/// `solutions` is an exact cover. With `exhaustive` set, the search keeps
/// trying the remaining orientations and pieces after an accepted covering;
/// without it, the call frame that completed the board returns right after
/// its first accept.
#[verifier::loop_isolation(false)]
#[verifier::rlimit(100)]
pub fn solve_recursively(
    board: &mut Board,
    x: i32,
    y: i32,
    catalog: &Vec<Pentomino>,
    pool: &mut Vec<usize>,
    solutions: &mut Vec<Vec<Placement>>,
    exhaustive: bool,
)
    requires
        old(board).wf(),
        catalog_wf(catalog@),
        placements_match(catalog@, old(board).pls()),
        pieces_distinct(old(board).pls()),
        pool_ok(catalog@, old(pool)@, old(board).pls()),
        old(board).in_board(x as int, y as int),
        !old(board).occ(x as int, y as int),
        prefix_occupied(*old(board), (y as int) * old(board).width + x as int),
    ensures
        final(board).width == old(board).width,
        final(board).height == old(board).height,
        final(board).grid_cache@ == old(board).grid_cache@,
        final(board).pls() == old(board).pls(),
        final(board).wf(),
        final(pool)@ == old(pool)@,
        sols_view(final(solutions)@).len() >= sols_view(old(solutions)@).len(),
        forall|j: int| 0 <= j < sols_view(old(solutions)@).len() ==> #[trigger] sols_view(
            final(solutions)@,
        )[j] == sols_view(old(solutions)@)[j],
        forall|j: int|
            sols_view(old(solutions)@).len() <= j < sols_view(final(solutions)@).len()
                ==> is_exact_cover(
                catalog@,
                old(board).width as int,
                old(board).height as int,
                #[trigger] sols_view(final(solutions)@)[j],
            ),
        (exists|ext: Seq<PlacementView>| #[trigger] completes(
            catalog@,
            *old(board),
            old(pool)@,
            ext,
        )) ==> sols_view(final(solutions)@).len() > sols_view(old(solutions)@).len(),
    decreases old(pool)@.len(),
{
    let ghost g0 = old(board).grid_cache@;
    let ghost pls0 = old(board).pls();
    let ghost pool0 = old(pool)@;
    let ghost w = old(board).width as int;
    let ghost h = old(board).height as int;
    let ghost start = (y as int) * w + x as int;
    let ghost sols0 = sols_view(old(solutions)@);

    // If an extension finishing the board exists, its placement covering the
    // target cell must be anchored exactly there: every cell it covers is
    // still free, hence at or after the target in row-major order, and its
    // anchor is the row-major-first of its cells. The search tries that very
    // piece and orientation, so it is bound to accept something.
    let ghost has_ext = exists|ext: Seq<PlacementView>| #[trigger] completes(
        catalog@,
        *old(board),
        pool0,
        ext,
    );
    let ghost ext0: Seq<PlacementView> = if has_ext {
        choose|ext: Seq<PlacementView>| #[trigger] completes(catalog@, *old(board), pool0, ext)
    } else {
        Seq::empty()
    };
    let ghost je: int = if has_ext {
        choose|j: int| 0 <= j < ext0.len() && (#[trigger] ext0[j]).cells.contains(
            (x as int, y as int),
        )
    } else {
        0
    };
    proof {
        if has_ext {
            assert(completes(catalog@, *old(board), pool0, ext0));
            assert(sol_covers(ext0, x as int, y as int));
            let j0 = choose|j: int| 0 <= j < ext0.len() && (#[trigger] ext0[j]).cells.contains(
                (x as int, y as int),
            );
            assert(0 <= je < ext0.len() && ext0[je].cells.contains((x as int, y as int)));
            let e = ext0[je];
            assert(placement_from_catalog(catalog@, e));
            let shape = catalog@[e.piece]@[e.orientation];
            assert(pent_wf(catalog@[e.piece]));
            assert(shape_ok(shape));
            assert(e.cells == translate_cells(shape, e.x, e.y));
            assert(e.cells.len() == 5);
            let t0 = choose|t: int| 0 <= t < e.cells.len() && e.cells[t] == (x as int, y as int);
            assert(e.cells[0] == (e.x + shape[0].0, e.y + shape[0].1));
            assert(e.cells[0] == (e.x, e.y));
            if t0 > 0 {
                assert(crate::piece::lex_fn()(shape[0], shape[t0]));
                assert(lex_leq(shape[0], shape[t0]));
            }
            assert(e.cells[t0] == (e.x + shape[t0].0, e.y + shape[t0].1));
            assert(lex_leq(e.cells[0], e.cells[t0]));
            assert(old(board).in_board(e.cells[0].0, e.cells[0].1));
            assert(old(board).in_board(e.cells[t0].0, e.cells[t0].1));
            lemma_lex_lin_le(w, e.cells[0], e.cells[t0]);
            assert(!old(board).occ(e.cells[0].0, e.cells[0].1));
            assert(e.cells[0].1 * w + e.cells[0].0 >= start);
            assert(e.cells[0].1 * w + e.cells[0].0 == start);
            crate::board::lemma_lin_injective(
                w,
                e.cells[0].0,
                e.cells[0].1,
                x as int,
                y as int,
            );
            assert(e.x == x as int && e.y == y as int);
        }
    }
    let ghost i_star: int = if has_ext {
        choose|k: int| 0 <= k < pool0.len() && (#[trigger] pool0[k]) as int == ext0[je].piece
    } else {
        0
    };
    let ghost o_star: int = if has_ext { ext0[je].orientation } else { 0 };
    proof {
        if has_ext {
            assert(pool_has(pool0, ext0[je].piece));
            assert(0 <= i_star < pool0.len() && (pool0[i_star] as int) == ext0[je].piece);
        }
    }

    let mut i: usize = 0;
    while i < pool.len()
        invariant
            i <= pool@.len(),
            board.width == old(board).width,
            board.height == old(board).height,
            board.grid_cache@ == g0,
            board.pls() == pls0,
            board.wf(),
            pool@ == pool0,
            sols_view(solutions@).len() >= sols0.len(),
            forall|j: int| 0 <= j < sols0.len() ==> #[trigger] sols_view(solutions@)[j]
                == sols0[j],
            forall|j: int|
                sols0.len() <= j < sols_view(solutions@).len() ==> is_exact_cover(
                    catalog@,
                    w,
                    h,
                    #[trigger] sols_view(solutions@)[j],
                ),
            has_ext ==> completes(catalog@, *old(board), pool0, ext0),
            has_ext ==> 0 <= je < ext0.len() && ext0[je].x == x as int && ext0[je].y == y as int
                && 0 <= i_star < pool0.len() && (pool0[i_star] as int) == ext0[je].piece
                && o_star == ext0[je].orientation,
            has_ext ==> sols_view(solutions@).len() > sols0.len() || i as int <= i_star,
        decreases pool@.len() - i,
    {
        let piece = pool.remove(i);
        proof {
            assert(pool@ == pool0.remove(i as int));
            assert(piece == pool0[i as int]);
            assert forall|k: int| 0 <= k < pool@.len() implies #[trigger] pool@[k] == if k
                < i {
                pool0[k]
            } else {
                pool0[k + 1]
            } by {}
        }
        let pent = &catalog[piece];
        proof {
            assert(pent_wf(catalog@[piece as int]));
        }
        let mut orientation: usize = 0;
        while orientation < pent.shapes.len()
            invariant
                orientation <= pent.shapes@.len(),
                i < pool0.len(),
                piece == pool0[i as int],
                piece < catalog@.len(),
                pent == &catalog[piece as int],
                board.width == old(board).width,
                board.height == old(board).height,
                board.grid_cache@ == g0,
                board.pls() == pls0,
                board.wf(),
                pool@ == pool0.remove(i as int),
                sols_view(solutions@).len() >= sols0.len(),
                forall|j: int| 0 <= j < sols0.len() ==> #[trigger] sols_view(solutions@)[j]
                    == sols0[j],
                forall|j: int|
                    sols0.len() <= j < sols_view(solutions@).len() ==> is_exact_cover(
                        catalog@,
                        w,
                        h,
                        #[trigger] sols_view(solutions@)[j],
                    ),
                has_ext ==> completes(catalog@, *old(board), pool0, ext0),
                has_ext ==> 0 <= je < ext0.len() && ext0[je].x == x as int && ext0[je].y
                    == y as int && 0 <= i_star < pool0.len() && (pool0[i_star] as int)
                    == ext0[je].piece && o_star == ext0[je].orientation,
                has_ext ==> sols_view(solutions@).len() > sols0.len() || (i as int) < i_star || (
                i as int == i_star && orientation as int <= o_star),
            decreases pent.shapes@.len() - orientation,
        {
            let shape = &pent.shapes[orientation];
            proof {
                assert(shape_ok(shape@));
                assert(shape@ == catalog@[piece as int]@[orientation as int]);
            }
            let ghost b_pre = *board;
            let ghost tcells = translate_cells(shape@, x as int, y as int);
            let ghost pv = PlacementView {
                x: x as int,
                y: y as int,
                piece: piece as int,
                orientation: orientation as int,
                cells: tcells,
            };
            let res = board.push(x, y, shape, piece, orientation);
            match res {
                Result::Err(()) => {
                    proof {
                        if has_ext && sols_view(solutions@).len() == sols0.len() && i as int
                            == i_star && orientation as int == o_star {
                            // this attempt places the extension's own
                            // placement for the target cell; its five cells
                            // are all free, so it cannot have conflicted
                            let e = ext0[je];
                            assert(placement_from_catalog(catalog@, e));
                            assert(piece as int == e.piece);
                            assert(orientation as int == e.orientation);
                            assert(shape@ == catalog@[e.piece]@[e.orientation]);
                            assert(tcells == e.cells);
                            let t = choose|t: int|
                                0 <= t < 5 && b_pre.occ((#[trigger] tcells[t]).0, tcells[t].1);
                            assert(e.cells.len() == 5);
                            assert(!old(board).occ(
                                (#[trigger] ext0[je].cells[t]).0,
                                ext0[je].cells[t].1,
                            ));
                            assert(false);
                        }
                    }
                },
                Result::Ok(()) => {
                    proof {
                        assert(board.pls() == pls0.push(pv));
                        // the target cell itself is now covered: cell (0, 0)
                        // of the canonical shape lands on (x, y)
                        assert(shape@[0] == (0int, 0int));
                        assert(tcells[0] == (x as int, y as int));
                        assert(tcells.contains((x as int, y as int)));
                        assert(board.occ(x as int, y as int));
                        // search-state facts for the deeper node
                        assert forall|j: int| 0 <= j < board.pls().len() implies
                            placement_from_catalog(catalog@, #[trigger] board.pls()[j]) by {
                            if j < pls0.len() {
                                assert(board.pls()[j] == pls0[j]);
                            } else {
                                assert(board.pls()[j] == pv);
                            }
                        }
                        assert forall|j: int, k: int| 0 <= j < k < board.pls().len() implies (
                        #[trigger] board.pls()[j]).piece != (#[trigger] board.pls()[k]).piece by {
                            if k < pls0.len() {
                            } else {
                                assert(board.pls()[k] == pv);
                                assert(pool0[i as int] != pls0[j].piece);
                            }
                        }
                        assert forall|k: int, j: int|
                            0 <= k < pool@.len() && 0 <= j < board.pls().len() implies (
                        #[trigger] pool@[k]) != (#[trigger] board.pls()[j]).piece by {
                            let pk = pool@[k];
                            if k < i {
                                assert(pk == pool0[k]);
                            } else {
                                assert(pk == pool0[k + 1]);
                            }
                            if j < pls0.len() {
                                assert(board.pls()[j] == pls0[j]);
                            } else {
                                assert(board.pls()[j] == pv);
                                assert(pv.piece == pool0[i as int]);
                            }
                        }
                        assert(pool@.no_duplicates());
                        assert(prefix_occupied(*board, start)) by {
                            assert forall|ax: int, ay: int|
                                board.in_board(ax, ay) && ay * board.width + ax < start implies
                                board.occ(ax, ay) by {
                                assert(old(board).in_board(ax, ay));
                                assert(old(board).occ(ax, ay));
                                assert(b_pre.occ(ax, ay));
                            }
                        }
                    }
                    let next = board.next_free_square_from(x, y);
                    let ghost b_mid = *board;
                    match next {
                        Option::Some(c) => {
                            proof {
                                assert(prefix_occupied(
                                    *board,
                                    (c.1 as int) * board.width + c.0,
                                ));
                                if has_ext && sols_view(solutions@).len() == sols0.len() && i
                                    as int == i_star && orientation as int == o_star {
                                    // the rest of the extension finishes the
                                    // board left by this placement, so the
                                    // deeper search is bound to accept
                                    let e = ext0[je];
                                    assert(placement_from_catalog(catalog@, e));
                                    assert(piece as int == e.piece);
                                    assert(orientation as int == e.orientation);
                                    assert(shape@ == catalog@[e.piece]@[e.orientation]);
                                    assert(tcells == e.cells);
                                    assert forall|ax: int, ay: int|
                                        old(board).valid_cell(ax, ay) implies #[trigger] board
                                        .occ(ax, ay) == (old(board).occ(ax, ay)
                                        || tcells.contains((ax, ay))) by {
                                        assert(b_pre.valid_cell(ax, ay));
                                        assert(board.occ(ax, ay) == (b_pre.occ(ax, ay)
                                            || tcells.contains((ax, ay))));
                                        assert(b_pre.occ(ax, ay) == old(board).occ(ax, ay));
                                    }
                                    lemma_rest_completes(
                                        catalog@,
                                        *old(board),
                                        *board,
                                        pool0,
                                        pool@,
                                        ext0,
                                        je,
                                        i_star,
                                        tcells,
                                    );
                                    assert(completes(
                                        catalog@,
                                        *board,
                                        pool@,
                                        ext0.remove(je),
                                    ));
                                }
                            }
                            solve_recursively(
                                board,
                                c.0,
                                c.1,
                                catalog,
                                pool,
                                solutions,
                                exhaustive,
                            );
                            board.pop();
                            proof {
                                assert(board.pls() =~= pls0);
                                lemma_place_unplace_restores(b_pre, b_mid, *board, tcells);
                                assert(board.grid_cache@ == g0);
                            }
                        },
                        Option::None => {
                            proof {
                                // every board cell is occupied, so the active
                                // placements form an exact cover
                                assert forall|cx: int, cy: int|
                                    0 <= cx < w && 0 <= cy < h implies #[trigger] sol_covers(
                                    board.pls(),
                                    cx,
                                    cy,
                                ) by {
                                    if cy * w + cx < start {
                                        assert(old(board).in_board(cx, cy));
                                        assert(old(board).occ(cx, cy));
                                        assert(b_pre.occ(cx, cy));
                                        assert(board.occ(cx, cy));
                                    } else {
                                        assert(board.occ(cx, cy));
                                    }
                                    assert(board.covered(cx, cy));
                                    let j = choose|j: int|
                                        0 <= j < board.pls().len() && (
                                        #[trigger] board.pls()[j]).cells.contains((cx, cy));
                                    assert(board.pls()[j].cells.contains((cx, cy)));
                                }
                                assert forall|j: int| 0 <= j < board.pls().len() implies (
                                #[trigger] board.pls()[j]).cells.len() == 5 && board.pls()[
                                j].cells.no_duplicates() && (forall|t: int|
                                    0 <= t < board.pls()[j].cells.len() ==> 0 <= (
                                    #[trigger] board.pls()[j].cells[t]).0 < w && 0 <= board.pls()[
                                    j].cells[t].1 < h) by {
                                    assert(board.placement_ok(j));
                                }
                                assert(is_exact_cover(catalog@, w, h, board.pls()));
                            }
                            let sol = clone_placements(&board.pentominos);
                            let ghost old_sols = solutions@;
                            solutions.push(sol);
                            proof {
                                assert(sols_view(solutions@) =~= sols_view(old_sols).push(
                                    sol_view(sol@),
                                ));
                                assert(sol_view(sol@) == board.pls());
                            }
                            board.pop();
                            proof {
                                assert(board.pls() =~= pls0);
                                lemma_place_unplace_restores(b_pre, b_mid, *board, tcells);
                                assert(board.grid_cache@ == g0);
                            }
                            if !exhaustive {
                                pool.insert(i, piece);
                                proof {
                                    assert(pool@ =~= pool0);
                                }
                                return ;
                            }
                        },
                    }
                },
            }
            orientation = orientation + 1;
        }
        pool.insert(i, piece);
        proof {
            assert(pool@ =~= pool0);
        }
        i = i + 1;
    }
    proof {
        if has_ext && sols_view(solutions@).len() == sols0.len() {
            assert(i as int <= i_star);
            assert(i_star < pool0.len());
            assert(false);
        }
    }
}

/// The row-major index of cell `t` of placement `p`.
pub open spec fn lin_of(p: PlacementView, w: int, t: int) -> int {
    p.cells[t].1 * w + p.cells[t].0
}

/// The row-major indices of all cells of all placements of `sol`, placement
/// by placement.
pub open spec fn lin_seq(sol: Seq<PlacementView>, w: int) -> Seq<int>
    decreases sol.len(),
{
    if sol.len() == 0 {
        Seq::empty()
    } else {
        lin_seq(sol.drop_last(), w) + Seq::new(5, |t: int| lin_of(sol.last(), w, t))
    }
}

/// Index `v` is the row-major index of some cell of some placement of `sol`.
pub open spec fn from_some_cell(sol: Seq<PlacementView>, w: int, v: int) -> bool {
    exists|j: int, t: int| 0 <= j < sol.len() && 0 <= t < 5 && v == #[trigger] lin_of(sol[j], w, t)
}

/// Structural requirements on a set of placements: five distinct board
/// cells each, and no overlap between placements.
pub open spec fn placements_tidy(w: int, h: int, sol: Seq<PlacementView>) -> bool {
    &&& forall|j: int| 0 <= j < sol.len() ==> (#[trigger] sol[j]).cells.len() == 5 && sol[
        j].cells.no_duplicates() && (forall|t: int|
        0 <= t < 5 ==> 0 <= (#[trigger] sol[j].cells[t]).0 < w && 0 <= sol[j].cells[t].1 < h)
    &&& forall|j: int, k: int, cx: int, cy: int|
        0 <= j < sol.len() && 0 <= k < sol.len() && j != k && (#[trigger] sol[j].cells.contains(
            (cx, cy),
        )) ==> !(#[trigger] sol[k].cells.contains((cx, cy)))
}

proof fn lemma_lin_seq_props(w: int, h: int, sol: Seq<PlacementView>)
    requires
        0 < w,
        0 < h,
        placements_tidy(w, h, sol),
    ensures
        lin_seq(sol, w).len() == 5 * sol.len(),
        lin_seq(sol, w).no_duplicates(),
        forall|i: int| 0 <= i < lin_seq(sol, w).len() ==> #[trigger] from_some_cell(
            sol,
            w,
            lin_seq(sol, w)[i],
        ),
        forall|j: int, t: int| 0 <= j < sol.len() && 0 <= t < 5 ==> lin_seq(sol, w).contains(
            #[trigger] lin_of(sol[j], w, t),
        ),
    decreases sol.len(),
{
    if sol.len() == 0 {
        assert(lin_seq(sol, w) =~= Seq::<int>::empty());
    } else {
        let rest = sol.drop_last();
        let last = sol.last();
        let n = sol.len() - 1;
        assert(placements_tidy(w, h, rest)) by {
            assert forall|j: int| 0 <= j < rest.len() implies (#[trigger] rest[j]).cells.len()
                == 5 && rest[j].cells.no_duplicates() && (forall|t: int|
                0 <= t < 5 ==> 0 <= (#[trigger] rest[j].cells[t]).0 < w && 0 <= rest[
                    j].cells[t].1 < h) by {
                assert(rest[j] == sol[j]);
            }
            assert forall|j: int, k: int, cx: int, cy: int|
                0 <= j < rest.len() && 0 <= k < rest.len() && j != k && (
                #[trigger] rest[j].cells.contains((cx, cy))) implies !(
                #[trigger] rest[k].cells.contains((cx, cy))) by {
                assert(sol[j].cells.contains((cx, cy)));
                assert(!sol[k].cells.contains((cx, cy)));
            }
        }
        lemma_lin_seq_props(w, h, rest);
        let a = lin_seq(rest, w);
        let b = Seq::new(5, |t: int| lin_of(last, w, t));
        let ls = lin_seq(sol, w);
        assert(ls == a + b);
        assert(ls.len() == 5 * sol.len());

        // every entry is the index of some placement cell
        assert forall|i: int| 0 <= i < ls.len() implies #[trigger] from_some_cell(
            sol,
            w,
            ls[i],
        ) by {
            if i < a.len() {
                assert(ls[i] == a[i]);
                assert(from_some_cell(rest, w, a[i]));
                let (j, t): (int, int) = choose|j: int, t: int|
                    0 <= j < rest.len() && 0 <= t < 5 && a[i] == #[trigger] lin_of(rest[j], w, t);
                assert(rest[j] == sol[j]);
                assert(ls[i] == lin_of(sol[j], w, t));
            } else {
                let t = i - a.len();
                assert(ls[i] == b[t]);
                assert(sol[n] == last);
                assert(ls[i] == lin_of(sol[n], w, t));
            }
        }
        assert forall|i: int| 0 <= i < lin_seq(sol, w).len() implies #[trigger] from_some_cell(
            sol,
            w,
            lin_seq(sol, w)[i],
        ) by {
            assert(lin_seq(sol, w)[i] == ls[i]);
            assert(from_some_cell(sol, w, ls[i]));
        }
        assert forall|j: int, t: int| 0 <= j < sol.len() && 0 <= t < 5 implies ls.contains(
            #[trigger] lin_of(sol[j], w, t),
        ) by {
            if j < n {
                assert(rest[j] == sol[j]);
                assert(a.contains(lin_of(rest[j], w, t)));
                let i = choose|i: int| 0 <= i < a.len() && a[i] == lin_of(rest[j], w, t);
                assert(ls[i] == a[i]);
                assert(ls.contains(lin_of(sol[j], w, t)));
            } else {
                assert(sol[j] == last);
                assert(ls[a.len() + t] == b[t]);
                assert(b[t] == lin_of(sol[j], w, t));
                assert(ls.contains(lin_of(sol[j], w, t)));
            }
        }

        // no two entries coincide: indices are injective on board cells, the
        // cells of one placement are distinct, and placements are disjoint
        assert forall|p: int, q: int|
            0 <= p < ls.len() && 0 <= q < ls.len() && p != q implies ls[p] != ls[q] by {
            if ls[p] == ls[q] {
                assert(from_some_cell(sol, w, ls[p]));
                assert(from_some_cell(sol, w, ls[q]));
                let (j1, t1): (int, int) = choose|j: int, t: int|
                    0 <= j < sol.len() && 0 <= t < 5 && ls[p] == #[trigger] lin_of(sol[j], w, t);
                let (j2, t2): (int, int) = choose|j: int, t: int|
                    0 <= j < sol.len() && 0 <= t < 5 && ls[q] == #[trigger] lin_of(sol[j], w, t);
                crate::board::lemma_lin_injective(
                    w,
                    sol[j1].cells[t1].0,
                    sol[j1].cells[t1].1,
                    sol[j2].cells[t2].0,
                    sol[j2].cells[t2].1,
                );
                assert(sol[j1].cells[t1] == sol[j2].cells[t2]);
                let c = sol[j1].cells[t1];
                assert(sol[j1].cells.contains(c));
                assert(sol[j2].cells.contains(c));
                assert(j1 == j2);
                // same placement: distinct cells give distinct indices, so
                // the two positions decompose identically
                if p < a.len() && q < a.len() {
                    assert(a[p] != a[q]);
                } else if p >= a.len() && q >= a.len() {
                    assert(ls[p] == lin_of(last, w, p - a.len()));
                    assert(ls[q] == lin_of(last, w, q - a.len()));
                    assert(last.cells[p - a.len()] == last.cells[q - a.len()]) by {
                        crate::board::lemma_lin_injective(
                            w,
                            last.cells[p - a.len()].0,
                            last.cells[p - a.len()].1,
                            last.cells[q - a.len()].0,
                            last.cells[q - a.len()].1,
                        );
                    }
                    assert(false);
                } else {
                    // one index comes from an earlier placement, one from
                    // the last: the shared cell would violate disjointness
                    let (pp, qq): (int, int) = if p < a.len() { (p, q) } else { (q, p) };
                    assert(a[pp] == lin_seq(rest, w)[pp]);
                    assert(from_some_cell(rest, w, a[pp]));
                    let (jp, tp): (int, int) = choose|j: int, t: int|
                        0 <= j < rest.len() && 0 <= t < 5 && a[pp] == #[trigger] lin_of(
                            rest[j],
                            w,
                            t,
                        );
                    assert(rest[jp] == sol[jp]);
                    assert(ls[pp] == a[pp]);
                    assert(ls[qq] == lin_of(last, w, qq - a.len()));
                    crate::board::lemma_lin_injective(
                        w,
                        sol[jp].cells[tp].0,
                        sol[jp].cells[tp].1,
                        last.cells[qq - a.len()].0,
                        last.cells[qq - a.len()].1,
                    );
                    let cc = sol[jp].cells[tp];
                    assert(last.cells[qq - a.len()] == cc);
                    assert(sol[jp].cells.contains(cc));
                    assert(sol[n].cells.contains(cc));
                    assert(jp != n);
                    assert(false);
                }
            }
        }
    }
}

/// Every exact cover uses exactly one five-cell placement per five board
/// cells: the board area equals five times the number of placements. In
/// particular a board whose area is not a multiple of five has no exact
/// cover at all.
pub proof fn lemma_exact_cover_area(cs: Seq<Pentomino>, w: int, h: int, sol: Seq<PlacementView>)
    requires
        0 < w,
        0 < h,
        is_exact_cover(cs, w, h, sol),
    ensures
        w * h == 5 * sol.len(),
{
    broadcast use vstd::set::group_set_axioms;
    broadcast use vstd::seq_lib::seq_to_set_is_finite;

    assert(placements_tidy(w, h, sol));
    lemma_lin_seq_props(w, h, sol);
    let ls = lin_seq(sol, w);
    ls.unique_seq_to_set();
    vstd::set_lib::lemma_int_range(0, w * h);
    assert(ls.to_set() =~= vstd::set_lib::set_int_range(0, w * h)) by {
        assert forall|v: int| ls.to_set().contains(v) implies 0 <= v < w * h by {
            let i = choose|i: int| 0 <= i < ls.len() && ls[i] == v;
            assert(from_some_cell(sol, w, ls[i]));
            let (j, t): (int, int) = choose|j: int, t: int|
                0 <= j < sol.len() && 0 <= t < 5 && ls[i] == #[trigger] lin_of(sol[j], w, t);
            assert(0 <= sol[j].cells[t].1 * w + sol[j].cells[t].0 < w * h) by (nonlinear_arith)
                requires
                    0 < w,
                    0 < h,
                    0 <= sol[j].cells[t].0 < w,
                    0 <= sol[j].cells[t].1 < h,
            ;
        }
        assert forall|v: int| 0 <= v < w * h implies ls.to_set().contains(v) by {
            let cx = v % w;
            let cy = v / w;
            vstd::arithmetic::div_mod::lemma_fundamental_div_mod(v, w);
            vstd::arithmetic::div_mod::lemma_mod_bound(v, w);
            assert(0 <= cx < w);
            assert(w * (v / w) == (v / w) * w) by (nonlinear_arith);
            assert(0 <= cy < h) by (nonlinear_arith)
                requires
                    0 < w,
                    0 < h,
                    0 <= v < w * h,
                    v == cy * w + cx,
                    0 <= cx < w,
            ;
            assert(sol_covers(sol, cx, cy));
            let j = choose|j: int| 0 <= j < sol.len() && (#[trigger] sol[j]).cells.contains(
                (cx, cy),
            );
            let t = choose|t: int| 0 <= t < sol[j].cells.len() && sol[j].cells[t] == (cx, cy);
            assert(lin_of(sol[j], w, t) == v);
            assert(ls.contains(v));
        }
    }
    assert(ls.to_set().len() == w * h);
    assert(ls.len() == w * h);
}

/// Builds a fresh board of the given dimensions and searches it with the
/// full catalog as the pool, starting from the first board cell. Returns
/// every accepted covering, each as the list of placements that formed it;
/// the count of coverings is the length of the result. Every returned
/// covering is an exact cover of the board by distinct catalog pieces, so a
/// board whose area is not a multiple of five yields a count of zero.
pub fn solve(width: usize, height: usize, catalog: &Vec<Pentomino>, exhaustive: bool) -> (r: Vec<
    Vec<Placement>,
>)
    requires
        catalog_wf(catalog@),
        0 < width,
        0 < height,
        (width + 8) * (height + 4) <= 0x7fff_ffff,
    ensures
        forall|j: int| 0 <= j < sols_view(r@).len() ==> is_exact_cover(
            catalog@,
            width as int,
            height as int,
            #[trigger] sols_view(r@)[j],
        ),
        (width * height) % 5 != 0 ==> r@.len() == 0,
        (exists|s: Seq<PlacementView>| #[trigger] is_exact_cover(
            catalog@,
            width as int,
            height as int,
            s,
        )) ==> r@.len() > 0,
{
    let mut board = Board::new(width, height);
    let mut pool: Vec<usize> = Vec::new();
    let mut k: usize = 0;
    while k < catalog.len()
        invariant
            k <= catalog@.len(),
            pool@.len() == k,
            forall|j: int| 0 <= j < k ==> #[trigger] pool@[j] == j,
        decreases catalog@.len() - k,
    {
        pool.push(k);
        k = k + 1;
    }
    let mut solutions: Vec<Vec<Placement>> = Vec::new();
    proof {
        assert(placements_match(catalog@, board.pls()));
        assert(pieces_distinct(board.pls()));
        assert(pool@.no_duplicates());
        assert(pool_ok(catalog@, pool@, board.pls()));
        assert(board.in_board(0, 0));
        assert(!board.occ(0, 0));
        assert(prefix_occupied(board, 0));
        assert(sols_view(solutions@).len() == 0);
    }
    proof {
        if exists|s: Seq<PlacementView>| #[trigger] is_exact_cover(
            catalog@,
            width as int,
            height as int,
            s,
        ) {
            // an exact cover of the empty board is an extension that
            // finishes it, so the search is bound to accept something
            let s0 = choose|s: Seq<PlacementView>| #[trigger] is_exact_cover(
                catalog@,
                width as int,
                height as int,
                s,
            );
            assert forall|j: int| 0 <= j < s0.len() implies pool_has(
                pool@,
                (#[trigger] s0[j]).piece,
            ) by {
                assert(placement_from_catalog(catalog@, s0[j]));
                let p = s0[j].piece;
                assert((pool@[p] as int) == p);
            }
            assert forall|j: int, t: int|
                0 <= j < s0.len() && 0 <= t < (#[trigger] s0[j]).cells.len() implies board
                .in_board((#[trigger] s0[j].cells[t]).0, s0[j].cells[t].1) && !board.occ(
                s0[j].cells[t].0,
                s0[j].cells[t].1,
            ) by {
                assert((#[trigger] s0[j]).cells.len() == 5);
                assert(0 <= s0[j].cells[t].0 < width as int && 0 <= s0[j].cells[t].1
                    < height as int);
                assert(board.in_board(s0[j].cells[t].0, s0[j].cells[t].1));
            }
            assert forall|cx: int, cy: int|
                board.in_board(cx, cy) && !board.occ(cx, cy) implies #[trigger] sol_covers(
                s0,
                cx,
                cy,
            ) by {}
            assert(completes(catalog@, board, pool@, s0));
        }
    }
    solve_recursively(&mut board, 0, 0, catalog, &mut pool, &mut solutions, exhaustive);
    proof {
        if solutions@.len() > 0 {
            let s0 = sols_view(solutions@)[0];
            assert(is_exact_cover(catalog@, width as int, height as int, s0));
            lemma_exact_cover_area(catalog@, width as int, height as int, s0);
            assert(((width as int) * (height as int)) % 5 == 0) by (nonlinear_arith)
                requires
                    (width as int) * (height as int) == 5 * s0.len(),
            ;
        }
    }
    solutions
}

} // verus!
