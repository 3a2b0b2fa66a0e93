use freeport_core::stack::{key, lattice_point, Stacks};

/// How far over the relief a tile stands: nought where nothing was built.
fn height(stacks: &Stacks<f64>, k: u64) -> f64 {
    stacks.at(k).unwrap_or(0.0)
}

/// Raise a tile and answer what it stands at now; a tile back at nought
/// leaves the store.
fn raise(stacks: &mut Stacks<f64>, k: u64, metres: f64) -> f64 {
    match stacks.at(k) {
        Some(h) => {
            let now = h + metres;
            if now.abs() < 1e-9 {
                stacks.take(k);
                0.0
            } else {
                stacks.put(k, now);
                now
            }
        }
        None => {
            if metres.abs() < 1e-9 {
                return 0.0;
            }
            stacks.put(k, metres);
            metres
        }
    }
}

// Two tiles' keys: a tile of the grid stands here as its key.
const A: u64 = 1_234_567;
const B: u64 = 1_234_568;

#[test]
fn a_tile_stands_where_it_was_raised_to_and_nowhere_else() {
    let mut stacks: Stacks<f64> = Stacks::new();
    assert_eq!(height(&stacks, A), 0.0);
    assert_eq!(raise(&mut stacks, A, 0.5), 0.5);
    assert_eq!(raise(&mut stacks, A, 0.5), 1.0);
    assert_eq!(height(&stacks, A), 1.0);
    assert_eq!(height(&stacks, B), 0.0, "a neighbour was not raised");
    assert_eq!(stacks.len(), 1);
}

#[test]
fn an_edit_taken_back_leaves_the_store_as_it_was_found() {
    let mut stacks: Stacks<f64> = Stacks::new();
    raise(&mut stacks, A, 1.5);
    assert_eq!(stacks.len(), 1);
    raise(&mut stacks, A, -1.5);
    assert!(stacks.is_empty(), "a tile back at nought was kept");
    assert_eq!(height(&stacks, A), 0.0);
}

#[test]
fn the_keys_are_sorted_and_one_tile_is_one_key() {
    let mut stacks: Stacks<f64> = Stacks::new();
    let mut tiles: Vec<u64> = Vec::new();
    let mut x: u64 = 88_172_645_463_325_252;
    for _ in 0..200 {
        x ^= x << 13;
        x ^= x >> 7;
        x ^= x << 17;
        let tile = x % 5_000;
        if tiles.contains(&tile) {
            continue;
        }
        tiles.push(tile);
        raise(&mut stacks, tile, 0.5);
    }
    assert_eq!(stacks.len(), tiles.len());
    let keys: Vec<u64> = stacks.each().iter().map(|(k, _)| *k).collect();
    assert!(keys.windows(2).all(|w| w[0] < w[1]), "the keys are not sorted");
    for tile in tiles {
        assert_eq!(height(&stacks, tile), 0.5, "{tile} lost its height");
    }
}

#[test]
fn a_tile_stands_where_it_was_set_and_nowhere_else() {
    let mut stacks: Stacks<f64> = Stacks::new();
    assert!(stacks.is_empty());
    assert_eq!(stacks.at(41), None);
    stacks.put(41, 0.5);
    stacks.put(41, 1.0);
    assert_eq!(stacks.at(41), Some(1.0));
    assert_eq!(stacks.at(42), None, "a neighbour was not raised");
    assert_eq!(stacks.len(), 1);
}

#[test]
fn a_key_taken_back_leaves_the_store_as_it_was_found() {
    let mut stacks: Stacks<f64> = Stacks::new();
    stacks.put(9, 2.0);
    stacks.put(3, -1.0);
    let before = stacks.each();
    stacks.put(5, 1.5);
    assert_eq!(stacks.len(), 3);
    stacks.take(5);
    assert_eq!(stacks.each(), before);
    stacks.take(5);
    assert_eq!(stacks.each(), before, "taking a key it never held changed it");
}

#[test]
fn every_key_is_listed_once_in_the_order_of_the_keys() {
    let mut stacks: Stacks<u32> = Stacks::new();
    let keys: [u64; 8] = [70, 3, 55, 3, 1_000_000_000_000, 0, 55, 12];
    for (n, k) in keys.iter().enumerate() {
        stacks.put(*k, n as u32);
    }
    let out = stacks.each();
    let got: Vec<u64> = out.iter().map(|e| e.0).collect();
    assert_eq!(got, vec![0, 3, 12, 55, 70, 1_000_000_000_000]);
    assert_eq!(stacks.at(3), Some(3));
    assert_eq!(stacks.at(55), Some(6));
}

#[test]
fn two_stores_built_to_one_shape_are_one_list() {
    let mut a: Stacks<u8> = Stacks::new();
    let mut b: Stacks<u8> = Stacks::new();
    for k in [5u64, 1, 9, 7] {
        a.put(k, (k * 2) as u8);
    }
    for k in [9u64, 7, 2, 1, 5] {
        b.put(k, (k * 2) as u8);
    }
    b.take(2);
    assert_eq!(a.each(), b.each());
    assert_eq!(a.each(), vec![(1, 2), (5, 10), (7, 14), (9, 18)]);
}

#[test]
fn a_key_names_its_own_lattice_point_and_nothing_else() {
    let n: u64 = 6;
    let mut keys: Vec<u64> = Vec::new();
    for face in 0..20u8 {
        for i in 0..=n {
            for j in 0..=(n - i) {
                let k = key(n, face, i, j);
                assert_eq!(lattice_point(n, k), Some((face, i, j)), "{face} {i} {j} did not come back");
                keys.push(k);
            }
        }
    }
    let mut sorted = keys.clone();
    sorted.sort_unstable();
    sorted.dedup();
    assert_eq!(sorted.len(), keys.len(), "two tiles share a key");
}

#[test]
fn a_key_is_the_face_then_the_row_then_the_column() {
    assert_eq!(key(4, 3, 1, 2), 82);
    assert_eq!(lattice_point(4, 82), Some((3, 1, 2)));
    assert_eq!(lattice_point(4, 20 * 25), None, "past the twentieth face");
    assert_eq!(lattice_point(4, 3 * 25 + 4 * 5 + 4), None, "off the face's triangle");
}
