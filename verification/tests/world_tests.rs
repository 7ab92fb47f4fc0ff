use isoworld::world::{find_highest_z, world_fn};

fn grid(layers: usize, rows: usize, cols: usize) -> Vec<Vec<Vec<usize>>> {
    vec![vec![vec![0; cols]; rows]; layers]
}

#[test]
fn world_fn_blocked_by_layer_above() {
    let mut w = grid(4, 3, 3);
    w[2][1][1] = 5;
    assert!(!world_fn(1, 1, 0, &w, 3, 3));
    assert!(!world_fn(1, 1, 1, &w, 3, 3));
}

#[test]
fn world_fn_free_at_top_and_edges() {
    let mut w = grid(4, 3, 3);
    w[2][1][1] = 5;
    // no two layers above z = 2
    assert!(world_fn(1, 1, 2, &w, 3, 3));
    // first column and row are never checked
    w[1][0][1] = 1;
    assert!(world_fn(1, 0, 0, &w, 3, 3));
    assert!(world_fn(0, 1, 0, &w, 3, 3));
    // an empty column
    assert!(world_fn(2, 2, 0, &w, 3, 3));
    // outside the map's width
    assert!(world_fn(3, 1, 0, &w, 3, 3));
}

#[test]
fn world_fn_width_is_taken_as_i32() {
    let mut w = grid(4, 3, 3);
    w[1][1][2] = 9;
    // 2^32 + 2 as i32 is 2, so x = 2 lies outside
    assert!(world_fn(2, 1, 0, &w, (1u64 << 32) + 2, 3));
    assert!(!world_fn(2, 1, 0, &w, 3, 3));
}

#[test]
fn highest_z_finds_block_layer() {
    let mut w = grid(3, 3, 3);
    for row in w[0].iter_mut() {
        for c in row.iter_mut() {
            *c = 1;
        }
    }
    w[1][1][1] = 2;
    assert_eq!(find_highest_z(1, 1, &w), 1);
    assert_eq!(find_highest_z(2, 2, &w), 0);
}

#[test]
fn highest_z_compares_tile_with_layer_index() {
    // every layer holds tile 1: layer 1 is kept, since 1 is not greater than 1
    let mut w = grid(4, 3, 3);
    for k in 0..4 {
        w[k][1][1] = 1;
    }
    assert_eq!(find_highest_z(1, 1, &w), 1);
}

#[test]
fn highest_z_outside_floor_is_zero() {
    let mut w = grid(2, 3, 3);
    w[1][0][1] = 4;
    w[1][1][0] = 4;
    assert_eq!(find_highest_z(1, 0, &w), 0);
    assert_eq!(find_highest_z(0, 1, &w), 0);
    assert_eq!(find_highest_z(1, 3, &w), 0);
    assert_eq!(find_highest_z(3, 1, &w), 0);
}

#[test]
fn highest_z_empty_column_is_floor() {
    let w = grid(5, 3, 3);
    assert_eq!(find_highest_z(1, 1, &w), 0);
}
