use isoworld::player::{press_jump, Direction};
use isoworld::projectile::ProjectileType;
use isoworld::tiles::{tile_draws, tileset_sources, TileDraw, TILE_HEIGHT, TILE_WIDTH};

#[test]
fn tileset_sources_row_by_row() {
    assert_eq!(
        tileset_sources(96, 64),
        vec![(0, 0), (32, 0), (64, 0), (0, 32), (32, 32), (64, 32)]
    );
    assert_eq!(tileset_sources(100, 40), vec![(0, 0), (32, 0), (64, 0)]);
}

#[test]
fn tileset_sources_small_image_has_none() {
    assert!(tileset_sources(31, 64).is_empty());
    assert!(tileset_sources(0, 0).is_empty());
    assert!(tileset_sources(-64, 64).is_empty());
}

#[test]
fn tileset_sources_negative_sizes_follow_rust_division() {
    assert_eq!(tileset_sources(-64, -64), vec![(0, 0), (32, 0), (0, -32), (32, -32)]);
}

#[test]
fn tileset_sources_lie_inside_image() {
    let (w, h) = (320, 96);
    for (x, y) in tileset_sources(w, h) {
        assert!(x >= 0 && x + TILE_WIDTH <= w);
        assert!(y >= 0 && y + TILE_HEIGHT <= h);
    }
}

#[test]
fn draws_skip_empty_and_shade_line_of_sight() {
    let layers = vec![vec![vec![0, 3], vec![1, 0]], vec![vec![2]]];
    assert_eq!(
        tile_draws(&layers, 1, 1),
        vec![
            TileDraw { layer: 0, row: 0, column: 1, source: 2, shaded: false },
            TileDraw { layer: 0, row: 1, column: 0, source: 0, shaded: false },
            TileDraw { layer: 1, row: 0, column: 0, source: 1, shaded: true },
        ]
    );
}

#[test]
fn draws_show_their_tiles() {
    let layers = vec![vec![vec![4, 0, 2], vec![0, 0, 7]], vec![vec![1], vec![0, 5]]];
    let draws = tile_draws(&layers, 2, 1);
    assert_eq!(draws.len(), 5);
    for d in draws {
        let tile = layers[d.layer][d.row][d.column];
        assert!(tile != 0);
        assert_eq!(d.source + 1, tile);
        assert_eq!(d.shaded, d.column + d.layer == 2 && d.row + d.layer == 1);
    }
}

#[test]
fn draws_of_empty_world() {
    assert!(tile_draws(&vec![vec![vec![0, 0]]], 0, 0).is_empty());
}

#[test]
fn one_jump_per_landing() {
    assert_eq!(press_jump(0, true), (1, true));
    assert_eq!(press_jump(0, false), (1, false));
    assert_eq!(press_jump(1, true), (2, false));
    assert_eq!(press_jump(254, true), (255, false));
}

#[test]
fn kinds_are_distinct() {
    assert_ne!(Direction::UP, Direction::DOWN);
    assert_eq!(ProjectileType::Ball, ProjectileType::Ball);
}
