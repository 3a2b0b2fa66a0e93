use freeport_core::tables::{crosses, edge_table, tri_table};

#[test]
fn every_table_row_is_whole_triangles() {
    let tri_table = tri_table();
    let edge_table = edge_table();
    for (config, row) in tri_table.iter().enumerate() {
        let used = row.iter().take_while(|&&e| e >= 0).count();
        assert_eq!(used % 3, 0, "config {config} lists {used} edge numbers");
        assert!(row.iter().all(|&e| e < 12));
        if config == 0 || config == 255 {
            assert_eq!(used, 0);
            assert_eq!(edge_table[config], 0);
        }
        for &e in row.iter().take(used) {
            assert!(
                edge_table[config] & (1 << e) != 0,
                "config {config} uses edge {e} it does not cross"
            );
        }
    }
}

#[test]
fn the_edge_table_is_the_edges_each_configuration_crosses() {
    let edges = edge_table();
    assert_eq!(edges.len(), 256);
    assert_eq!(
        &edges[..16],
        &[
            0x000, 0x109, 0x203, 0x30a, 0x406, 0x50f, 0x605, 0x70c, 0x80c, 0x905, 0xa0f, 0xb06,
            0xc0a, 0xd03, 0xe09, 0xf00
        ]
    );
    for c in 0..256usize {
        for e in 0..12usize {
            assert_eq!(edges[c] & (1 << e) != 0, crosses(c, e), "config {c} edge {e}");
        }
        // Turning rock to air and air to rock crosses the same edges.
        assert_eq!(edges[c], edges[255 - c]);
    }
}

#[test]
fn the_first_rows_of_the_triangle_table() {
    let t = tri_table();
    assert_eq!(t[0], vec![-1]);
    assert_eq!(t[1], vec![0, 8, 3, -1]);
    assert_eq!(t[2], vec![0, 1, 9, -1]);
    assert_eq!(t[3], vec![1, 8, 3, 1, 9, 8, -1]);
    assert_eq!(t[5], vec![0, 8, 3, 1, 2, 10, -1]);
}

#[test]
fn every_crossed_edge_carries_the_surface_and_a_row_fits_five_triangles() {
    let t = tri_table();
    for c in 0..256usize {
        let used: Vec<i8> = t[c].iter().copied().take_while(|&e| e >= 0).collect();
        assert!(used.len() <= 15, "config {c} has {} entries", used.len());
        for e in 0..12usize {
            if crosses(c, e) {
                assert!(used.contains(&(e as i8)), "config {c} leaves edge {e} out");
            }
        }
    }
}

/// Inside a cell, every triangle edge of the surface is shared by two
/// triangles or lies on a face of the cube, so the surface has no hole
/// of its own.
#[test]
fn a_cells_surface_is_closed_but_for_its_faces() {
    let t = tri_table();
    let faces: [[usize; 4]; 6] = [
        [0, 1, 2, 3],
        [4, 5, 6, 7],
        [0, 9, 4, 8],
        [1, 10, 5, 9],
        [2, 11, 6, 10],
        [3, 8, 7, 11],
    ];
    for c in 0..256usize {
        let used: Vec<usize> =
            t[c].iter().take_while(|&&e| e >= 0).map(|&e| e as usize).collect();
        let mut sides: Vec<(usize, usize)> = Vec::new();
        for tri in used.chunks(3) {
            for k in 0..3 {
                let (a, b) = (tri[k], tri[(k + 1) % 3]);
                sides.push((a.min(b), a.max(b)));
            }
        }
        for &(a, b) in &sides {
            let on_face = faces.iter().any(|f| f.contains(&a) && f.contains(&b));
            let twice = sides.iter().filter(|s| **s == (a, b)).count();
            assert!(on_face || twice == 2, "config {c}: side {a}-{b} is open");
        }
    }
}
