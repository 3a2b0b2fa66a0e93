use freeport_core::town::fractal::{boxes, hull, pieces, rim, GRID};
use freeport_core::town::grade::{held, wanted};

/// A square town with an enclosed lake, a bay open to the country, and
/// one lone cell in the grid's corner.
fn plan() -> Vec<bool> {
    let mut m = vec![false; GRID * GRID];
    for j in 0..GRID {
        for i in 0..GRID {
            let mut town = (100..400).contains(&i) && (100..400).contains(&j);
            if (200..250).contains(&i) && (200..250).contains(&j) {
                town = false;
            }
            if (380..400).contains(&i) && (240..260).contains(&j) {
                town = false;
            }
            if i == 0 && j == 0 {
                town = true;
            }
            m[j * GRID + i] = town;
        }
    }
    m
}

#[test]
fn the_rim_counts_the_holes_and_the_hull_does_not() {
    let m = plan();
    let r = rim(&m);
    let h = hull(&m);
    let at = |i: usize, j: usize| j * GRID + i;
    // The town's outer edge is both.
    assert!(r[at(100, 150)] && h[at(100, 150)]);
    // Beside the lake: a boundary, but not one the country sees.
    assert!(r[at(199, 220)] && !h[at(199, 220)]);
    assert!(r[at(220, 250)] && !h[at(220, 250)]);
    // Beside the bay, which joins the country: both.
    assert!(r[at(379, 250)] && h[at(379, 250)]);
    assert!(r[at(390, 239)] && h[at(390, 239)]);
    // The middle of a block is neither, and neither is open ground.
    assert!(!r[at(150, 150)] && !h[at(150, 150)]);
    assert!(!r[at(220, 220)] && !h[at(220, 220)]);
    assert!(!r[at(50, 50)] && !h[at(50, 50)]);
    // A town cell on the grid's own rim is on both.
    assert!(r[at(0, 0)] && h[at(0, 0)]);
    assert_eq!(r.iter().filter(|c| **c).count(), 1435);
    assert_eq!(h.iter().filter(|c| **c).count(), 1235);
}

#[test]
fn the_hull_is_part_of_the_rim() {
    let m = plan();
    let r = rim(&m);
    let h = hull(&m);
    for k in 0..GRID * GRID {
        assert!(!h[k] || r[k]);
    }
}

#[test]
fn boxes_of_every_size_on_the_ladder() {
    let m = plan();
    let r = rim(&m);
    let h = hull(&m);
    let want = [(4, 356, 305), (8, 180, 153), (16, 87, 75), (32, 43, 39), (64, 24, 23)];
    for (s, on_rim, on_hull) in want {
        assert_eq!(boxes(&r, s), on_rim, "rim at {s}");
        assert_eq!(boxes(&h, s), on_hull, "hull at {s}");
    }
    // A box of one cell is a cell; a box of the whole grid is one box;
    // a size that does not divide the grid drops what is left over.
    assert_eq!(boxes(&r, 1), 1435);
    assert_eq!(boxes(&r, GRID), 1);
    assert_eq!(boxes(&r, 100), 10);
    assert_eq!(boxes(&vec![false; GRID * GRID], 8), 0);
}

#[test]
fn an_empty_plan_has_no_rim_and_a_full_one_only_its_frame() {
    let empty = vec![false; GRID * GRID];
    assert!(rim(&empty).iter().all(|c| !c));
    assert!(hull(&empty).iter().all(|c| !c));
    let full = vec![true; GRID * GRID];
    let r = rim(&full);
    let h = hull(&full);
    assert_eq!(r.iter().filter(|c| **c).count(), 4 * GRID - 4);
    assert_eq!(h, r);
}

#[test]
fn a_node_is_held_where_the_town_reaches_within_reading() {
    let n = 7;
    let m = 2 * n + 1;
    let mut at = vec![false; m * m];
    at[2 * m + 2] = true;
    let keep = held(n, m, &at);
    let kept: Vec<(usize, usize)> =
        (0..n * n).filter(|k| keep[*k]).map(|k| (k % n, k / n)).collect();
    assert_eq!(
        kept,
        vec![(0, 0), (1, 0), (2, 0), (0, 1), (1, 1), (2, 1), (0, 2), (1, 2), (2, 2)]
    );
    assert!(held(n, m, &vec![false; m * m]).iter().all(|k| !k));
}

#[test]
fn a_sample_is_wanted_where_a_held_nodes_cell_reaches() {
    let n = 7;
    let m = 2 * n + 1;
    let mut at = vec![false; m * m];
    at[2 * m + 2] = true;
    let keep = held(n, m, &at);
    let w = wanted(n, m, &keep);
    assert_eq!(w.iter().filter(|s| **s).count(), 49);
    for fj in 0..m {
        for fi in 0..m {
            assert_eq!(w[fj * m + fi], fi <= 6 && fj <= 6, "({fi}, {fj})");
        }
    }
}

#[test]
fn the_pieces_of_a_plan_biggest_first() {
    // The square less its lake and its bay, and the lone corner cell.
    assert_eq!(pieces(&plan()), vec![300 * 300 - 50 * 50 - 20 * 20, 1]);
    assert!(pieces(&vec![false; GRID * GRID]).is_empty());
    assert_eq!(pieces(&vec![true; GRID * GRID]), vec![GRID * GRID]);
}

#[test]
fn cells_touching_only_at_a_corner_are_two_pieces() {
    let mut m = vec![false; GRID * GRID];
    let mut mark = |i: usize, j: usize| m[j * GRID + i] = true;
    mark(10, 10);
    mark(11, 11);
    for i in 20..25 {
        mark(i, 30);
    }
    mark(24, 31);
    for j in 100..103 {
        for i in 100..103 {
            mark(i, j);
        }
    }
    assert_eq!(pieces(&m), vec![9, 6, 1, 1]);
}

#[test]
fn without_holes_the_hull_is_the_rim() {
    let mut m = plan();
    for j in 200..250 {
        for i in 200..250 {
            m[j * GRID + i] = true;
        }
    }
    assert_eq!(hull(&m), rim(&m));
}

#[test]
fn no_piece_is_empty() {
    let p = pieces(&plan());
    assert!(p.iter().all(|s| *s >= 1));
}
