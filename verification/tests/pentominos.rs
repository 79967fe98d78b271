use pentominos::Board;
use pentominos::FixedPentomino;
use pentominos::Pentomino;
use pentominos::make_catalog;
use pentominos::solve;

fn f_base() -> Vec<(i32, i32)> {
    vec![(1, 0), (2, 0), (0, 1), (1, 1), (1, 2)]
}

#[test]
fn transform_identity_anchors() {
    let f = FixedPentomino { squares: f_base() };
    let t = f.transform(0);
    // sorted row-major, shifted so the leftmost cell of the top row is (0, 0)
    assert_eq!(t.squares, vec![(0, 0), (1, 0), (-1, 1), (0, 1), (0, 2)]);
}

#[test]
fn transform_rotation_quarter() {
    // the I pentomino turned a quarter becomes a horizontal bar
    let i = FixedPentomino { squares: vec![(0, 0), (0, 1), (0, 2), (0, 3), (0, 4)] };
    let t = i.transform(1);
    assert_eq!(t.squares, vec![(0, 0), (1, 0), (2, 0), (3, 0), (4, 0)]);
}

#[test]
fn transform_round_trip() {
    // applying a symmetry and then its inverse gives back the canonical base
    let inverse: [i32; 8] = [0, 3, 2, 1, 4, 5, 6, 7];
    let f = FixedPentomino { squares: f_base() };
    let base = f.transform(0);
    for n in 0..8i32 {
        let t = f.transform(n);
        let back = t.transform(inverse[n as usize]);
        assert_eq!(back.squares, base.squares);
    }
}

#[test]
fn orientation_counts_match_symmetry() {
    // 8 divided by the order of each piece's symmetry group
    let catalog = make_catalog();
    let expected: [usize; 12] = [8, 2, 8, 8, 8, 4, 4, 4, 4, 1, 8, 4];
    assert_eq!(catalog.len(), 12);
    for (i, pent) in catalog.iter().enumerate() {
        assert_eq!(pent.shapes.len(), expected[i], "piece {}", i);
    }
}

#[test]
fn dedup_never_merges_distinct_orientations() {
    let catalog = make_catalog();
    // the F pentomino is fully asymmetric: all eight orientations differ
    let f = &catalog[0];
    for a in 0..f.shapes.len() {
        for b in 0..f.shapes.len() {
            if a != b {
                assert_ne!(f.shapes[a].squares, f.shapes[b].squares);
            }
        }
    }
    // the X pentomino has the full symmetry of the square: all eight collapse
    let x = &catalog[9];
    assert_eq!(x.shapes.len(), 1);
}

#[test]
fn place_then_unplace_restores_grid() {
    let catalog = make_catalog();
    let f = &catalog[0];
    let mut board = Board::new(10, 6);
    let before = board.grid_cache.clone();
    // a placement that fits
    let r = board.push(1, 0, &f.shapes[0], 0, 0);
    assert!(r.is_ok());
    assert_ne!(board.grid_cache, before);
    board.pop();
    assert_eq!(board.grid_cache, before);
    assert_eq!(board.pentominos.len(), 0);
}

#[test]
fn rejected_placement_changes_nothing() {
    let catalog = make_catalog();
    let f = &catalog[0];
    let mut board = Board::new(10, 6);
    let before = board.grid_cache.clone();
    // orientation 0 of F holds cell (-1, 1); anchored at (0, 0) it spills
    // into the left margin, which counts as an occupied cell
    let r = board.push(0, 0, &f.shapes[0], 0, 0);
    assert!(r.is_err());
    assert_eq!(board.grid_cache, before);
    assert_eq!(board.pentominos.len(), 0);
}

#[test]
fn next_free_square_scans_in_row_major_order() {
    let catalog = make_catalog();
    let f = &catalog[0];
    let mut board = Board::new(10, 6);
    assert_eq!(board.next_free_square_from(0, 0), Some((0, 0)));
    // covering (1,0), (2,0), (0,1), (1,1), (1,2) leaves (0,0) first
    let r = board.push(1, 0, &f.shapes[0], 0, 0);
    assert!(r.is_ok());
    assert_eq!(board.next_free_square_from(0, 0), Some((0, 0)));
    // from the covered target (1, 0) the next free cell is strictly later
    assert_eq!(board.next_free_square_from(1, 0), Some((3, 0)));
    // never a margin cell
    let c = board.next_free_square_from(9, 5).unwrap();
    assert!(c.0 >= 0 && c.0 < 10 && c.1 >= 0 && c.1 < 6);
}

fn small_catalog() -> Vec<Pentomino> {
    // F, U and P: together they tile a 5 x 3 box
    vec![
        Pentomino::new((221, 187, 153), vec![(1, 0), (2, 0), (0, 1), (1, 1), (1, 2)]),
        Pentomino::new((136, 204, 204), vec![(0, 0), (2, 0), (0, 1), (1, 1), (2, 1)]),
        Pentomino::new((187, 221, 153), vec![(0, 0), (1, 0), (0, 1), (1, 1), (0, 2)]),
    ]
}

#[test]
fn solver_finds_a_covering() {
    let catalog = small_catalog();
    let solutions = solve(5, 3, &catalog, true);
    assert!(solutions.len() >= 1);
}

#[test]
fn accepted_coverings_are_exact_covers() {
    let catalog = small_catalog();
    let solutions = solve(5, 3, &catalog, true);
    assert!(solutions.len() >= 1);
    for sol in &solutions {
        // each of the three pieces exactly once
        assert_eq!(sol.len(), 3);
        let mut pieces: Vec<usize> = sol.iter().map(|p| p.piece).collect();
        pieces.sort();
        assert_eq!(pieces, vec![0, 1, 2]);
        // no overlaps, no cell left uncovered
        let mut hit = [[0u8; 5]; 3];
        for p in sol {
            assert_eq!(p.cells.len(), 5);
            for &(cx, cy) in &p.cells {
                assert!(cx >= 0 && cx < 5 && cy >= 0 && cy < 3);
                hit[cy as usize][cx as usize] += 1;
            }
        }
        for row in &hit {
            for &n in row {
                assert_eq!(n, 1);
            }
        }
    }
}

#[test]
fn full_board_has_no_free_square() {
    let catalog = small_catalog();
    let solutions = solve(5, 3, &catalog, false);
    assert!(solutions.len() >= 1);
    let sol = &solutions[0];
    let mut board = Board::new(5, 3);
    for p in sol {
        let shape = &catalog[p.piece].shapes[p.orientation];
        let r = board.push(p.x, p.y, shape, p.piece, p.orientation);
        assert!(r.is_ok());
    }
    assert_eq!(board.next_free_square_from(0, 0), None);
}

#[test]
fn exhaustive_search_accepts_at_least_as_many() {
    // with `exhaustive` the search keeps going after an accepted covering
    // instead of returning from that call frame, so it can only find more
    let catalog = small_catalog();
    let all = solve(5, 3, &catalog, true);
    let first_per_branch = solve(5, 3, &catalog, false);
    assert!(all.len() >= first_per_branch.len());
    assert!(first_per_branch.len() >= 1);
}

#[test]
fn area_not_multiple_of_five_yields_zero() {
    let catalog = make_catalog();
    // 4 x 3 = 12 cells cannot be covered by five-cell pieces
    let solutions = solve(4, 3, &catalog, true);
    assert_eq!(solutions.len(), 0);
}

#[test]
fn seven_by_six_board_yields_zero() {
    // 42 cells: the search runs to exhaustion and simply accepts nothing
    let catalog = make_catalog();
    let solutions = solve(7, 6, &catalog, false);
    assert_eq!(solutions.len(), 0);
}

#[test]
fn args_default_board() {
    let args = pentominos::Args::default();
    assert!(!args.pieces && !args.solve && !args.count);
    assert_eq!(args.width, 10);
    assert_eq!(args.height, 6);
}
