//! The padded occupancy grid and the stack of active placements.
//!
//! The grid is `(width + 8) x (height + 4)` cells stored row-major; the four
//! columns on either side and the four rows below the board proper are a
//! margin that is permanently marked occupied, so a placement that would
//! spill over an edge is rejected by the same occupancy test as an ordinary
//! conflict and index arithmetic never leaves the grid.

use vstd::prelude::*;

use crate::piece::FixedPentomino;
use crate::piece::cells_view;
use crate::piece::shape_ok;
use crate::piece::translate_cells;

verus! {

/// Where and how a piece currently sits on the board: the anchor cell, the
/// piece and orientation indices into the catalog, and the five absolute
/// board cells the placement covers.
pub struct Placement {
    pub x: i32,
    pub y: i32,
    pub piece: usize,
    pub orientation: usize,
    pub cells: Vec<(i32, i32)>,
}

pub ghost struct PlacementView {
    pub x: int,
    pub y: int,
    pub piece: int,
    pub orientation: int,
    pub cells: Seq<(int, int)>,
}

impl View for Placement {
    type V = PlacementView;

    open spec fn view(&self) -> PlacementView {
        PlacementView {
            x: self.x as int,
            y: self.y as int,
            piece: self.piece as int,
            orientation: self.orientation as int,
            cells: cells_view(self.cells@),
        }
    }
}

/// Does grid index `k` fall on one of the cells of `cs`, for a board of the
/// given width?
pub open spec fn cell_hits(w: int, cs: Seq<(int, int)>, k: int) -> bool {
    exists|i: int| 0 <= i < cs.len() && k == (#[trigger] cs[i]).1 * (w + 8) + cs[i].0 + 4
}

proof fn lemma_grid_index_bounds(w: int, h: int, cx: int, cy: int)
    requires
        0 < w,
        0 < h,
        -4 <= cx < w + 4,
        0 <= cy < h + 4,
    ensures
        0 <= cy * (w + 8) + cx + 4 < (w + 8) * (h + 4),
        w + 8 <= (w + 8) * (h + 4),
        h + 4 <= (w + 8) * (h + 4),
{
    assert(0 <= cy * (w + 8) + cx + 4 < (w + 8) * (h + 4)) by (nonlinear_arith)
        requires
            0 < w,
            0 < h,
            -4 <= cx < w + 4,
            0 <= cy < h + 4,
    ;
    assert(w + 8 <= (w + 8) * (h + 4) && h + 4 <= (w + 8) * (h + 4)) by (nonlinear_arith)
        requires
            0 < w,
            0 < h,
    ;
}

proof fn lemma_grid_index_injective(w: int, x1: int, y1: int, x2: int, y2: int)
    requires
        0 < w,
        -4 <= x1 < w + 4,
        -4 <= x2 < w + 4,
        y1 * (w + 8) + x1 + 4 == y2 * (w + 8) + x2 + 4,
    ensures
        x1 == x2 && y1 == y2,
{
    assert(x1 == x2 && y1 == y2) by (nonlinear_arith)
        requires
            0 < w,
            -4 <= x1 < w + 4,
            -4 <= x2 < w + 4,
            y1 * (w + 8) + x1 + 4 == y2 * (w + 8) + x2 + 4,
    ;
}

pub(crate) proof fn lemma_lin_injective(w: int, x1: int, y1: int, x2: int, y2: int)
    requires
        0 < w,
        0 <= x1 < w,
        0 <= x2 < w,
        y1 * w + x1 == y2 * w + x2,
    ensures
        x1 == x2 && y1 == y2,
{
    assert(x1 == x2 && y1 == y2) by (nonlinear_arith)
        requires
            0 < w,
            0 <= x1 < w,
            0 <= x2 < w,
            y1 * w + x1 == y2 * w + x2,
    ;
}

/// Width `width`, height `height`, the padded occupancy grid, and the stack
/// of active placements, pushed and popped in strict recursion order.
pub struct Board {
    pub width: usize,
    pub height: usize,
    pub grid_cache: Vec<bool>,
    pub pentominos: Vec<Placement>,
}

impl Board {
    pub open spec fn gw(&self) -> int {
        self.width + 8
    }

    /// The grid index of board cell (cx, cy); margin cells have cx in
    /// [-4, 0) or [width, width + 4), or cy in [height, height + 4).
    pub open spec fn gidx(&self, cx: int, cy: int) -> int {
        cy * self.gw() + cx + 4
    }

    pub open spec fn occ(&self, cx: int, cy: int) -> bool {
        self.grid_cache@[self.gidx(cx, cy)]
    }

    pub open spec fn valid_cell(&self, cx: int, cy: int) -> bool {
        -4 <= cx < self.width + 4 && 0 <= cy < self.height + 4
    }

    pub open spec fn in_board(&self, cx: int, cy: int) -> bool {
        0 <= cx < self.width && 0 <= cy < self.height
    }

    pub open spec fn pls(&self) -> Seq<PlacementView> {
        self.pentominos@.map_values(|p: Placement| p@)
    }

    pub open spec fn dims_ok(&self) -> bool {
        0 < self.width && 0 < self.height && (self.width + 8) * (self.height + 4) <= 0x7fff_ffff
    }

    pub open spec fn grid_wf(&self) -> bool {
        self.dims_ok() && self.grid_cache@.len() == (self.width + 8) * (self.height + 4)
    }

    pub open spec fn placement_ok(&self, j: int) -> bool {
        let p = self.pls()[j];
        &&& p.cells.len() == 5
        &&& p.cells.no_duplicates()
        &&& forall|i: int| 0 <= i < p.cells.len() ==> self.in_board(
            (#[trigger] p.cells[i]).0,
            p.cells[i].1,
        )
    }

    /// Board cell (cx, cy) lies under some active placement.
    pub open spec fn covered(&self, cx: int, cy: int) -> bool {
        exists|j: int| 0 <= j < self.pls().len() && (#[trigger] self.pls()[j]).cells.contains(
            (cx, cy),
        )
    }

    pub open spec fn disjoint_placements(&self) -> bool {
        forall|j: int, k: int, cx: int, cy: int|
            0 <= j < self.pls().len() && 0 <= k < self.pls().len() && j != k && (
            #[trigger] self.pls()[j].cells.contains((cx, cy))) ==> !(
            #[trigger] self.pls()[k].cells.contains((cx, cy)))
    }

    /// The board invariant: the grid has its declared size, the whole margin
    /// is marked occupied, every active placement covers five distinct board
    /// cells, no two placements overlap, and a board cell is marked occupied
    /// exactly when some active placement covers it.
    pub open spec fn wf(&self) -> bool {
        &&& self.grid_wf()
        &&& forall|cx: int, cy: int| self.valid_cell(cx, cy) && !self.in_board(cx, cy) ==> (
            #[trigger] self.occ(cx, cy))
        &&& forall|j: int| 0 <= j < self.pls().len() ==> #[trigger] self.placement_ok(j)
        &&& forall|cx: int, cy: int| self.in_board(cx, cy) ==> ((#[trigger] self.occ(cx, cy))
            <==> self.covered(cx, cy))
        &&& self.disjoint_placements()
    }

    fn cell_index(&self, cx: i32, cy: i32) -> (r: usize)
        requires
            self.grid_wf(),
            self.valid_cell(cx as int, cy as int),
        ensures
            r == self.gidx(cx as int, cy as int),
            r < self.grid_cache@.len(),
    {
        proof {
            lemma_grid_index_bounds(
                self.width as int,
                self.height as int,
                cx as int,
                cy as int,
            );
        }
        (cy as usize) * (self.width + 8) + ((cx + 4) as usize)
    }

    /// A fresh board: every interior cell free, every margin cell occupied,
    /// no active placements.
    #[verifier::loop_isolation(false)]
    pub fn new(width: usize, height: usize) -> (r: Board)
        requires
            0 < width,
            0 < height,
            (width + 8) * (height + 4) <= 0x7fff_ffff,
        ensures
            r.wf(),
            r.width == width,
            r.height == height,
            r.pls().len() == 0,
            forall|cx: int, cy: int| r.in_board(cx, cy) ==> !(#[trigger] r.occ(cx, cy)),
    {
        proof {
            lemma_grid_index_bounds(width as int, height as int, 0, 0);
        }
        let mut grid: Vec<bool> = Vec::new();
        let mut gy: usize = 0;
        while gy < height + 4
            invariant
                gy <= height + 4,
                grid@.len() == gy * (width + 8),
                forall|cx: int, cy: int|
                    -4 <= cx < width + 4 && 0 <= cy < gy ==> #[trigger] grid@[cy * (width + 8) + cx
                        + 4] == !(0 <= cx < width && 0 <= cy < height),
            decreases height + 4 - gy,
        {
            let ghost row_base = grid@.len() as int;
            let mut gx: usize = 0;
            while gx < width + 8
                invariant
                    gx <= width + 8,
                    grid@.len() == row_base + gx,
                    row_base == gy * (width + 8),
                    gy < height + 4,
                    forall|cx: int, cy: int|
                        -4 <= cx < width + 4 && 0 <= cy < gy ==> #[trigger] grid@[cy * (width + 8)
                            + cx + 4] == !(0 <= cx < width && 0 <= cy < height),
                    forall|cx: int|
                        -4 <= cx && cx + 4 < gx ==> #[trigger] grid@[row_base + cx + 4] == !(0 <= cx
                            < width && gy < height),
                decreases width + 8 - gx,
            {
                let is_margin = gx < 4 || gx >= width + 4 || gy >= height;
                grid.push(is_margin);
                proof {
                    assert(grid@[row_base + (gx - 4) + 4] == is_margin);
                    assert forall|cx: int, cy: int|
                        -4 <= cx < width + 4 && 0 <= cy < gy implies #[trigger] grid@[cy * (width
                        + 8) + cx + 4] == !(0 <= cx < width && 0 <= cy < height) by {
                        lemma_grid_index_bounds(width as int, height as int, cx, cy);
                        assert(cy * (width + 8) + cx + 4 < gy * (width + 8)) by (nonlinear_arith)
                            requires
                                0 < width,
                                -4 <= cx < width + 4,
                                0 <= cy < gy,
                        ;
                    }
                }
                gx = gx + 1;
            }
            proof {
                assert((gy + 1) * (width + 8) == gy * (width + 8) + (width + 8))
                    by (nonlinear_arith);
                assert forall|cx: int, cy: int|
                    -4 <= cx < width + 4 && 0 <= cy < gy + 1 implies #[trigger] grid@[cy * (width
                    + 8) + cx + 4] == !(0 <= cx < width && 0 <= cy < height) by {
                    if cy == gy {
                        assert(grid@[row_base + cx + 4] == !(0 <= cx < width && gy < height));
                    }
                }
            }
            gy = gy + 1;
        }
        let r = Board { width, height, grid_cache: grid, pentominos: Vec::new() };
        proof {
            assert forall|cx: int, cy: int|
                r.valid_cell(cx, cy) && !r.in_board(cx, cy) implies #[trigger] r.occ(cx, cy) by {
                assert(r.grid_cache@[cy * (width + 8) + cx + 4] == !(0 <= cx < width && 0 <= cy
                    < height));
            }
            assert forall|cx: int, cy: int| r.in_board(cx, cy) implies !(#[trigger] r.occ(
                cx,
                cy,
            )) by {
                assert(r.grid_cache@[cy * (width + 8) + cx + 4] == !(0 <= cx < width && 0 <= cy
                    < height));
            }
            assert(r.pls() =~= Seq::<PlacementView>::empty());
            assert(((height + 4) as int) * ((width + 8) as int) == ((width + 8) as int) * ((height
                + 4) as int)) by (nonlinear_arith);
            assert(r.grid_wf());
            assert forall|cx: int, cy: int| r.in_board(cx, cy) implies ((#[trigger] r.occ(cx, cy))
                <==> r.covered(cx, cy)) by {
                assert(!r.occ(cx, cy));
                assert(!r.covered(cx, cy));
            }
            assert(r.wf());
        }
        r
    }

    /// Marks or clears the five given cells; nothing else in the grid moves.
    #[verifier::loop_isolation(false)]
    fn update_cache(&mut self, cells: &Vec<(i32, i32)>, value: bool)
        requires
            old(self).grid_wf(),
            cells@.len() == 5,
            forall|i: int| 0 <= i < 5 ==> old(self).valid_cell(
                (#[trigger] cells_view(cells@)[i]).0,
                cells_view(cells@)[i].1,
            ),
        ensures
            final(self).width == old(self).width,
            final(self).height == old(self).height,
            final(self).pentominos == old(self).pentominos,
            final(self).grid_cache@.len() == old(self).grid_cache@.len(),
            forall|k: int| 0 <= k < old(self).grid_cache@.len() ==> #[trigger] final(self).grid_cache@[k] == if cell_hits(old(self).width as int, cells_view(cells@), k) {
                value
            } else {
                old(self).grid_cache@[k]
            },
            forall|ax: int, ay: int| old(self).valid_cell(ax, ay) ==> #[trigger] final(self).occ(
                ax,
                ay,
            ) == if cells_view(cells@).contains((ax, ay)) {
                value
            } else {
                old(self).occ(ax, ay)
            },
    {
        let ghost w = old(self).width as int;
        let ghost cv = cells_view(cells@);
        let mut i: usize = 0;
        while i < 5
            invariant
                i <= 5,
                self.width == old(self).width,
                self.height == old(self).height,
                self.pentominos == old(self).pentominos,
                self.grid_cache@.len() == old(self).grid_cache@.len(),
                self.grid_wf(),
                forall|k: int| 0 <= k < old(self).grid_cache@.len() ==> #[trigger] self
                    .grid_cache@[k] == if cell_hits_upto(w, cv, k, i as int) {
                    value
                } else {
                    old(self).grid_cache@[k]
                },
            decreases 5 - i,
        {
            let c = cells[i];
            proof {
                assert(cv[i as int] == (c.0 as int, c.1 as int));
            }
            let idx = self.cell_index(c.0, c.1);
            self.grid_cache.set(idx, value);
            proof {
                assert forall|k: int| 0 <= k < old(self).grid_cache@.len() implies #[trigger] self
                    .grid_cache@[k] == if cell_hits_upto(w, cv, k, i + 1) {
                    value
                } else {
                    old(self).grid_cache@[k]
                } by {
                    if k == idx {
                        assert(cell_hits_upto(w, cv, k, i + 1));
                    } else {
                        if cell_hits_upto(w, cv, k, i + 1) && !cell_hits_upto(w, cv, k, i as int) {
                            assert(k == cv[i as int].1 * (w + 8) + cv[i as int].0 + 4);
                        }
                    }
                }
            }
            i = i + 1;
        }
        proof {
            assert forall|k: int| 0 <= k < old(self).grid_cache@.len() implies #[trigger] self
                .grid_cache@[k] == if cell_hits(w, cv, k) {
                value
            } else {
                old(self).grid_cache@[k]
            } by {
                assert(cell_hits_upto(w, cv, k, 5) == cell_hits(w, cv, k));
            }
            assert forall|ax: int, ay: int| old(self).valid_cell(ax, ay) implies #[trigger] self
                .occ(ax, ay) == if cv.contains((ax, ay)) {
                value
            } else {
                old(self).occ(ax, ay)
            } by {
                let k = old(self).gidx(ax, ay);
                lemma_grid_index_bounds(w, old(self).height as int, ax, ay);
                if cv.contains((ax, ay))  {
                    let i0 = choose|i0: int| 0 <= i0 < cv.len() && cv[i0] == (ax, ay);
                    assert(k == cv[i0].1 * (w + 8) + cv[i0].0 + 4);
                    assert(cell_hits(w, cv, k));
                } else {
                    if cell_hits(w, cv, k) {
                        let i0 = choose|i0: int| 0 <= i0 < cv.len() && k == (#[trigger] cv[i0]).1 * (
                        w + 8) + cv[i0].0 + 4;
                        lemma_grid_index_injective(w, cv[i0].0, cv[i0].1, ax, ay);
                        assert(cv[i0] == (ax, ay));
                        assert(cv.contains((ax, ay)));
                    }
                }
            }
        }
    }
}

/// `cell_hits` restricted to the first `n` cells of the list.
pub open spec fn cell_hits_upto(w: int, cs: Seq<(int, int)>, k: int, n: int) -> bool {
    exists|i: int| 0 <= i < n && i < cs.len() && k == (#[trigger] cs[i]).1 * (w + 8) + cs[i].0 + 4
}

impl Board {
    /// Attempts to place the given orientation with its anchor at (fx, fy):
    /// if any of its five cells is already occupied (a conflict with an
    /// earlier placement, or a spill into the margin), nothing changes and
    /// `Err` comes back; otherwise all five cells are marked occupied and the
    /// placement is pushed, atomically.
    #[verifier::loop_isolation(false)]
    #[verifier::rlimit(80)]
    pub fn push(&mut self, fx: i32, fy: i32, shape: &FixedPentomino, piece: usize, orientation:
        usize) -> (r: Result<(), ()>)
        requires
            old(self).wf(),
            shape.squares@.len() == 5,
            shape_ok(shape@),
            old(self).in_board(fx as int, fy as int),
        ensures
            final(self).width == old(self).width,
            final(self).height == old(self).height,
            final(self).grid_cache@.len() == old(self).grid_cache@.len(),
            final(self).wf(),
            match r {
                Result::Ok(()) => {
                    let cells = translate_cells(shape@, fx as int, fy as int);
                    &&& forall|i: int| 0 <= i < 5 ==> !old(self).occ(
                        (#[trigger] cells[i]).0,
                        cells[i].1,
                    )
                    &&& final(self).pls() == old(self).pls().push(
                        PlacementView {
                            x: fx as int,
                            y: fy as int,
                            piece: piece as int,
                            orientation: orientation as int,
                            cells,
                        },
                    )
                    &&& forall|k: int| 0 <= k < old(self).grid_cache@.len() ==> #[trigger] final(self).grid_cache@[k] == (old(self).grid_cache@[k] || cell_hits(
                        old(self).width as int,
                        cells,
                        k,
                    ))
                    &&& forall|ax: int, ay: int| old(self).valid_cell(ax, ay) ==> #[trigger] final(self).occ(ax, ay) == (old(self).occ(ax, ay) || cells.contains((ax, ay)))
                },
                Result::Err(()) => {
                    let cells = translate_cells(shape@, fx as int, fy as int);
                    &&& *final(self) == *old(self)
                    &&& exists|i: int| 0 <= i < 5 && old(self).occ(
                        (#[trigger] cells[i]).0,
                        cells[i].1,
                    )
                },
            },
    {
        let ghost tcells = translate_cells(shape@, fx as int, fy as int);
        proof {
            lemma_grid_index_bounds(self.width as int, self.height as int, 0, 0);
        }
        // the five absolute board cells this placement would cover
        let mut cells: Vec<(i32, i32)> = Vec::new();
        let mut i: usize = 0;
        while i < 5
            invariant
                i <= 5,
                cells@.len() == i,
                forall|k: int| 0 <= k < i ==> #[trigger] cells_view(cells@)[k] == tcells[k],
            decreases 5 - i,
        {
            let c = shape.squares[i];
            proof {
                assert(shape@[i as int] == (c.0 as int, c.1 as int));
                assert(-4 <= shape@[i as int].0 <= 4 && 0 <= shape@[i as int].1 <= 4);
            }
            let ghost old_cells = cells@;
            cells.push((fx + c.0, fy + c.1));
            proof {
                assert forall|k: int| 0 <= k <= i implies #[trigger] cells_view(cells@)[k]
                    == tcells[k] by {
                    if k < i {
                        assert(cells@[k] == old_cells[k]);
                        assert(cells_view(old_cells)[k] == tcells[k]);
                    } else {
                        assert(cells@[k] == (((fx + c.0) as i32), ((fy + c.1) as i32)));
                    }
                }
            }
            i = i + 1;
        }
        proof {
            assert(cells_view(cells@) =~= tcells);
            assert forall|k: int| 0 <= k < 5 implies old(self).valid_cell(
                (#[trigger] tcells[k]).0,
                tcells[k].1,
            ) by {
                assert(-4 <= shape@[k].0 <= 4 && 0 <= shape@[k].1 <= 4);
            }
        }

        // conflict check: no mutation yet
        let mut i: usize = 0;
        while i < 5
            invariant
                i <= 5,
                *self == *old(self),
                cells@.len() == 5,
                cells_view(cells@) == tcells,
                forall|k: int| 0 <= k < i ==> !old(self).occ((#[trigger] tcells[k]).0, tcells[k].1),
            decreases 5 - i,
        {
            let c = cells[i];
            proof {
                assert(cells_view(cells@)[i as int] == (c.0 as int, c.1 as int));
            }
            let idx = self.cell_index(c.0, c.1);
            if self.grid_cache[idx] {
                return Result::Err(());
            }
            i = i + 1;
        }

        self.update_cache(&cells, true);
        let ghost mid = *self;
        let p = Placement { x: fx, y: fy, piece, orientation, cells };
        let ghost pv = PlacementView {
            x: fx as int,
            y: fy as int,
            piece: piece as int,
            orientation: orientation as int,
            cells: tcells,
        };
        self.pentominos.push(p);
        proof {
            assert(p@ == pv);
            assert(self.pls() =~= old(self).pls().push(pv));
            assert(self.grid_cache@ == mid.grid_cache@);

            // each covered cell is a board cell: it was free, and margins are
            // always occupied
            assert forall|k: int| 0 <= k < 5 implies old(self).in_board(
                (#[trigger] tcells[k]).0,
                tcells[k].1,
            ) by {
                assert(!old(self).occ(tcells[k].0, tcells[k].1));
            }

            let w = old(self).width as int;
            let n = old(self).pls().len() as int;

            // occupancy after the update, in terms of the old board
            assert forall|ax: int, ay: int| old(self).valid_cell(ax, ay) implies #[trigger] self
                .occ(ax, ay) == (old(self).occ(ax, ay) || tcells.contains((ax, ay))) by {
                assert(mid.occ(ax, ay) == if tcells.contains((ax, ay)) {
                    true
                } else {
                    old(self).occ(ax, ay)
                });
                assert(self.occ(ax, ay) == mid.occ(ax, ay));
            }

            // the placement list grew by one well-formed, disjoint placement
            assert forall|j: int| 0 <= j < self.pls().len() implies #[trigger] self.placement_ok(
                j,
            ) by {
                if j < n {
                    assert(old(self).placement_ok(j));
                    assert(self.pls()[j] == old(self).pls()[j]);
                } else {
                    assert(self.pls()[j] == pv);
                    assert(tcells.len() == 5);
                    assert forall|a: int, b: int|
                        0 <= a < 5 && 0 <= b < 5 && a != b implies tcells[a] != tcells[b] by {
                        assert(shape@[a] != shape@[b]);
                    }
                    assert(tcells.no_duplicates());
                }
            }
            assert forall|j: int, k: int, cx: int, cy: int|
                0 <= j < self.pls().len() && 0 <= k < self.pls().len() && j != k && (
                #[trigger] self.pls()[j].cells.contains((cx, cy))) implies !(
                #[trigger] self.pls()[k].cells.contains((cx, cy))) by {
                if j < n && k < n {
                    assert(old(self).pls()[j].cells.contains((cx, cy)));
                    assert(!old(self).pls()[k].cells.contains((cx, cy)));
                } else if k == n {
                    // old placement j covers (cx, cy); the new cells were free
                    assert(old(self).pls()[j].cells.contains((cx, cy)));
                    assert(old(self).placement_ok(j));
                    assert(old(self).in_board(cx, cy));
                    assert(old(self).covered(cx, cy));
                    assert(old(self).occ(cx, cy));
                    if self.pls()[k].cells.contains((cx, cy)) {
                        let t = choose|t: int| 0 <= t < 5 && tcells[t] == (cx, cy);
                        assert(!old(self).occ(tcells[t].0, tcells[t].1));
                    }
                } else {
                    assert(j == n);
                    assert(self.pls()[j].cells.contains((cx, cy)));
                    let t = choose|t: int| 0 <= t < 5 && tcells[t] == (cx, cy);
                    assert(!old(self).occ(tcells[t].0, tcells[t].1));
                    assert(old(self).in_board(cx, cy));
                    if self.pls()[k].cells.contains((cx, cy)) {
                        assert(old(self).pls()[k].cells.contains((cx, cy)));
                        assert(old(self).covered(cx, cy));
                        assert(old(self).occ(cx, cy));
                    }
                }
            }

            // occupied still means covered and the other way round
            assert forall|cx: int, cy: int| self.in_board(cx, cy) implies ((#[trigger] self.occ(
                cx,
                cy,
            )) <==> self.covered(cx, cy)) by {
                assert(old(self).valid_cell(cx, cy));
                if self.occ(cx, cy) {
                    if tcells.contains((cx, cy)) {
                        assert(self.pls()[n].cells.contains((cx, cy)));
                        assert(self.covered(cx, cy));
                    } else {
                        assert(old(self).occ(cx, cy));
                        assert(old(self).covered(cx, cy));
                        let j = choose|j: int| 0 <= j < n && (#[trigger] old(self).pls()[j]).cells
                            .contains((cx, cy));
                        assert(self.pls()[j].cells.contains((cx, cy)));
                        assert(self.covered(cx, cy));
                    }
                } else {
                    if self.covered(cx, cy) {
                        let j = choose|j: int| 0 <= j < self.pls().len() && (#[trigger] self.pls()[
                        j]).cells.contains((cx, cy));
                        if j < n {
                            assert(old(self).pls()[j].cells.contains((cx, cy)));
                            assert(old(self).covered(cx, cy));
                            assert(old(self).occ(cx, cy));
                        } else {
                            assert(tcells.contains((cx, cy)));
                        }
                        assert(false);
                    }
                }
            }

            // margins only ever gain occupancy
            assert forall|cx: int, cy: int|
                self.valid_cell(cx, cy) && !self.in_board(cx, cy) implies (#[trigger] self.occ(
                cx,
                cy,
            )) by {
                assert(old(self).occ(cx, cy));
            }
            assert(self.wf());
        }
        Result::Ok(())
    }

    /// Pops the most recent placement and clears its five cells. The stack
    /// must not be empty.
    #[verifier::loop_isolation(false)]
    #[verifier::rlimit(80)]
    pub fn pop(&mut self)
        requires
            old(self).wf(),
            old(self).pls().len() > 0,
        ensures
            final(self).width == old(self).width,
            final(self).height == old(self).height,
            final(self).grid_cache@.len() == old(self).grid_cache@.len(),
            final(self).wf(),
            final(self).pls() == old(self).pls().drop_last(),
            forall|k: int| 0 <= k < old(self).grid_cache@.len() ==> #[trigger] final(self).grid_cache@[k] == (old(self).grid_cache@[k] && !cell_hits(
                old(self).width as int,
                old(self).pls().last().cells,
                k,
            )),
            forall|ax: int, ay: int| old(self).valid_cell(ax, ay) ==> #[trigger] final(self).occ(
                ax,
                ay,
            ) == (old(self).occ(ax, ay) && !old(self).pls().last().cells.contains((ax, ay))),
    {
        let ghost n = old(self).pls().len() as int;
        let ghost top = old(self).pls().last();
        proof {
            assert(old(self).placement_ok(n - 1));
        }
        let popped = self.pentominos.pop();
        match popped {
            Option::Some(p) => {
                proof {
                    assert(p@ == top);
                    assert(self.pls() =~= old(self).pls().drop_last());
                    assert(p.cells@.len() == 5);
                    assert forall|i: int| 0 <= i < 5 implies old(self).valid_cell(
                        (#[trigger] cells_view(p.cells@)[i]).0,
                        cells_view(p.cells@)[i].1,
                    ) by {
                        assert(old(self).in_board(top.cells[i].0, top.cells[i].1));
                    }
                }
                let ghost mid = *self;
                self.update_cache(&p.cells, false);
                proof {
                    assert(self.pls() == mid.pls());
                    assert(self.pls() == old(self).pls().drop_last());
                    let w = old(self).width as int;

                    // occupancy in terms of the old board
                    assert forall|ax: int, ay: int| old(self).valid_cell(ax, ay) implies
                        #[trigger] self.occ(ax, ay) == (old(self).occ(ax, ay) && !top.cells
                        .contains((ax, ay))) by {
                        if top.cells.contains((ax, ay)) {
                            assert(self.occ(ax, ay) == false);
                            assert(old(self).in_board(ax, ay));
                            assert(old(self).covered(ax, ay));
                            assert(old(self).occ(ax, ay));
                        } else {
                            assert(self.occ(ax, ay) == mid.occ(ax, ay));
                        }
                    }

                    // wf again: margins untouched, placements a prefix
                    assert forall|cx: int, cy: int|
                        self.valid_cell(cx, cy) && !self.in_board(cx, cy) implies (
                        #[trigger] self.occ(cx, cy)) by {
                        assert(old(self).occ(cx, cy));
                        if top.cells.contains((cx, cy)) {
                            let t = choose|t: int| 0 <= t < 5 && top.cells[t] == (cx, cy);
                            assert(old(self).in_board(top.cells[t].0, top.cells[t].1));
                            assert(false);
                        }
                    }
                    assert forall|j: int| 0 <= j < self.pls().len() implies #[trigger] self
                        .placement_ok(j) by {
                        assert(old(self).placement_ok(j));
                        assert(self.pls()[j] == old(self).pls()[j]);
                    }
                    assert forall|j: int, k: int, cx: int, cy: int|
                        0 <= j < self.pls().len() && 0 <= k < self.pls().len() && j != k && (
                        #[trigger] self.pls()[j].cells.contains((cx, cy))) implies !(
                        #[trigger] self.pls()[k].cells.contains((cx, cy))) by {
                        assert(old(self).pls()[j].cells.contains((cx, cy)));
                        assert(!old(self).pls()[k].cells.contains((cx, cy)));
                    }
                    assert forall|cx: int, cy: int| self.in_board(cx, cy) implies ((
                    #[trigger] self.occ(cx, cy)) <==> self.covered(cx, cy)) by {
                        if self.occ(cx, cy) {
                            assert(old(self).occ(cx, cy) && !top.cells.contains((cx, cy)));
                            assert(old(self).covered(cx, cy));
                            let j = choose|j: int|
                                0 <= j < n && (#[trigger] old(self).pls()[j]).cells.contains(
                                    (cx, cy),
                                );
                            assert(j != n - 1);
                            assert(self.pls()[j].cells.contains((cx, cy)));
                            assert(self.covered(cx, cy));
                        } else {
                            if self.covered(cx, cy) {
                                let j = choose|j: int|
                                    0 <= j < self.pls().len() && (#[trigger] self.pls()[j]).cells
                                        .contains((cx, cy));
                                assert(old(self).pls()[j].cells.contains((cx, cy)));
                                assert(old(self).covered(cx, cy));
                                assert(old(self).occ(cx, cy));
                                // j is not the popped placement, so the cell
                                // cannot also be one of the popped cells
                                assert(!top.cells.contains((cx, cy)));
                                assert(false);
                            }
                        }
                    }
                    assert(self.wf());
                }
            },
            Option::None => {
                proof {
                    assert(false);
                }
            },
        }
    }

    /// Scans board cells in row-major order from (x, y) inclusive and returns
    /// the first free one, or `None` when everything from there to the end of
    /// the board is occupied. The result is always a board cell, never a
    /// margin cell.
    #[verifier::loop_isolation(false)]
    pub fn next_free_square_from(&self, x: i32, y: i32) -> (r: Option<(i32, i32)>)
        requires
            self.wf(),
            self.in_board(x as int, y as int),
        ensures
            match r {
                Option::Some(c) => {
                    &&& self.in_board(c.0 as int, c.1 as int)
                    &&& !self.occ(c.0 as int, c.1 as int)
                    &&& (y as int) * self.width + x <= (c.1 as int) * self.width + c.0
                    &&& forall|ax: int, ay: int|
                        self.in_board(ax, ay) && (y as int) * self.width + x <= ay * self.width
                            + ax < (c.1 as int) * self.width + c.0 ==> self.occ(ax, ay)
                },
                Option::None => forall|ax: int, ay: int|
                    self.in_board(ax, ay) && ay * self.width + ax >= (y as int) * self.width + x
                        ==> self.occ(ax, ay),
            },
    {
        proof {
            lemma_grid_index_bounds(self.width as int, self.height as int, 0, 0);
        }
        let w = self.width;
        let h = self.height;
        let mut cx: usize = x as usize;
        let mut cy: usize = y as usize;
        let ghost start = (y as int) * self.width + x as int;
        while cy < h
            invariant
                cx < w,
                cy <= h,
                start <= (cy as int) * self.width + cx,
                forall|ax: int, ay: int|
                    self.in_board(ax, ay) && start <= ay * self.width + ax < (cy as int)
                        * self.width + cx ==> self.occ(ax, ay),
            decreases h - cy, w - cx,
        {
            let idx = self.cell_index(cx as i32, cy as i32);
            if !self.grid_cache[idx] {
                return Option::Some((cx as i32, cy as i32));
            }
            proof {
                let pos = (cy as int) * self.width + cx;
                assert(self.occ(cx as int, cy as int));
                assert forall|ax: int, ay: int|
                    self.in_board(ax, ay) && start <= ay * self.width + ax < pos + 1 implies self
                    .occ(ax, ay) by {
                    if ay * self.width + ax == pos {
                        lemma_lin_injective(self.width as int, ax, ay, cx as int, cy as int);
                    }
                }
            }
            cx = cx + 1;
            if cx == w {
                proof {
                    assert((cy as int) * (self.width as int) + (self.width as int) == ((
                    cy as int) + 1) * (self.width as int)) by (nonlinear_arith);
                }
                cx = 0;
                cy = cy + 1;
            }
        }
        proof {
            assert forall|ax: int, ay: int|
                self.in_board(ax, ay) && ay * self.width + ax >= start implies self.occ(
                ax,
                ay,
            ) by {
                assert(ay * self.width + ax < (self.height as int) * self.width)
                    by (nonlinear_arith)
                    requires
                        0 < self.width,
                        0 <= ax < self.width,
                        0 <= ay < self.height,
                ;
            }
        }
        Option::None
    }
}

/// Placing a shape and immediately removing it restores the occupancy grid
/// bit for bit: marking five previously free cells and then clearing exactly
/// those cells gives back the grid that was there before. (A rejected
/// placement changes nothing, so it restores the grid trivially.)
pub proof fn lemma_place_unplace_restores(b0: Board, b1: Board, b2: Board, cells: Seq<(int, int)>)
    requires
        b1.width == b0.width,
        b2.width == b0.width,
        b1.grid_cache@.len() == b0.grid_cache@.len(),
        b2.grid_cache@.len() == b0.grid_cache@.len(),
        forall|k: int| 0 <= k < b0.grid_cache@.len() && cell_hits(b0.width as int, cells, k)
            ==> !(#[trigger] b0.grid_cache@[k]),
        forall|k: int| 0 <= k < b0.grid_cache@.len() ==> #[trigger] b1.grid_cache@[k] == (
        b0.grid_cache@[k] || cell_hits(b0.width as int, cells, k)),
        forall|k: int| 0 <= k < b0.grid_cache@.len() ==> #[trigger] b2.grid_cache@[k] == (
        b1.grid_cache@[k] && !cell_hits(b0.width as int, cells, k)),
    ensures
        b2.grid_cache@ == b0.grid_cache@,
{
    assert forall|k: int| 0 <= k < b0.grid_cache@.len() implies b2.grid_cache@[k]
        == b0.grid_cache@[k] by {
        assert(b1.grid_cache@[k] == (b0.grid_cache@[k] || cell_hits(b0.width as int, cells, k)));
        assert(b2.grid_cache@[k] == (b1.grid_cache@[k] && !cell_hits(b0.width as int, cells, k)));
    }
    assert(b2.grid_cache@ =~= b0.grid_cache@);
}

/// Along one search path the target cell of each recursion step is placed on
/// before the next lookup, so successive free cells come in strictly
/// increasing row-major order: a free cell at or after an occupied cursor
/// lies strictly after it.
pub proof fn lemma_next_free_strictly_increases(b: Board, x: int, y: int, cx: int, cy: int)
    requires
        b.dims_ok(),
        b.in_board(x, y),
        b.occ(x, y),
        b.in_board(cx, cy),
        cy * b.width + cx >= y * b.width + x,
        !b.occ(cx, cy),
    ensures
        cy * b.width + cx > y * b.width + x,
{
    if cy * b.width + cx == y * b.width + x {
        lemma_lin_injective(b.width as int, cx, cy, x, y);
    }
}

} // verus!
