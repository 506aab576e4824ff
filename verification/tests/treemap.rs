use ccdu::big::Big;
use ccdu::model::NodeId;
use ccdu::tui::treemap::{squarify, Tile};

fn items(sizes: &[u64]) -> Vec<(NodeId, u64)> {
    sizes.iter().enumerate().map(|(i, &s)| (i as NodeId, s)).collect()
}

/// Every cell belongs to exactly one tile, and no tile leaves the area.
fn assert_tiles_partition(tiles: &[Tile], x: u16, y: u16, width: u16, height: u16) {
    let mut seen = vec![false; width as usize * height as usize];
    for tile in tiles {
        assert!(tile.width > 0 && tile.height > 0, "zero-sized tile {tile:?}");
        assert!(
            tile.x >= x
                && tile.y >= y
                && tile.x + tile.width <= x + width
                && tile.y + tile.height <= y + height,
            "tile {tile:?} escapes the {width}x{height} area at ({x},{y})"
        );
        for cy in tile.y..tile.y + tile.height {
            for cx in tile.x..tile.x + tile.width {
                let index = (cy - y) as usize * width as usize + (cx - x) as usize;
                assert!(!seen[index], "tiles overlap at ({cx},{cy})");
                seen[index] = true;
            }
        }
    }
    assert!(seen.iter().all(|&covered| covered), "part of the area was left blank");
}

#[test]
fn tiles_cover_the_area_exactly() {
    let tiles = squarify(&items(&[6, 6, 4, 3, 2, 2, 1]), 0, 0, 40, 12);
    assert_eq!(tiles.len(), 7);
    assert_tiles_partition(&tiles, 0, 0, 40, 12);
}

#[test]
fn tiles_respect_an_offset_origin() {
    let tiles = squarify(&items(&[5, 3, 2]), 7, 4, 20, 9);
    assert_tiles_partition(&tiles, 7, 4, 20, 9);
}

#[test]
fn area_follows_size() {
    let tiles = squarify(&items(&[100, 50, 25]), 0, 0, 60, 20);
    let area = |id: NodeId| tiles.iter().find(|t| t.id == id).unwrap().area() as f64;

    // Proportions hold approximately; whole cells cannot divide exactly.
    assert!((area(0) / area(1) - 2.0).abs() < 0.35, "{:?}", tiles);
    assert!(area(0) > area(1) && area(1) > area(2));
}

#[test]
fn rectangles_stay_reasonably_square() {
    let tiles = squarify(&items(&[10; 16]), 0, 0, 40, 20);
    assert_tiles_partition(&tiles, 0, 0, 40, 20);

    // The whole point of squarifying: no long thin slivers among equal-sized items.
    for tile in &tiles {
        let ratio = tile.width as f64 / tile.height as f64;
        assert!(ratio > 0.15 && ratio < 7.0, "sliver {tile:?}");
    }
}

#[test]
fn one_item_takes_everything() {
    let tiles = squarify(&items(&[42]), 0, 0, 10, 5);
    assert_eq!(tiles.len(), 1);
    assert_eq!(tiles[0], Tile { id: 0, x: 0, y: 0, width: 10, height: 5 });
}

#[test]
fn empty_input_and_empty_areas_produce_nothing() {
    assert!(squarify(&[], 0, 0, 20, 10).is_empty());
    assert!(squarify(&items(&[1, 2]), 0, 0, 0, 10).is_empty());
    assert!(squarify(&items(&[1, 2]), 0, 0, 20, 0).is_empty());
    assert!(squarify(&items(&[0, 0]), 0, 0, 20, 10).is_empty(), "zero-sized items");
}

#[test]
fn more_items_than_cells_still_partitions_cleanly() {
    // 200 items into 20 cells: most cannot be drawn, and the ones that are must still tile.
    let tiles = squarify(&items(&vec![1; 200]), 0, 0, 5, 4);
    assert!(!tiles.is_empty());
    assert_tiles_partition(&tiles, 0, 0, 5, 4);
}

#[test]
fn a_single_row_of_cells_is_handled() {
    let tiles = squarify(&items(&[3, 2, 1]), 0, 0, 30, 1);
    assert_tiles_partition(&tiles, 0, 0, 30, 1);
    assert!(tiles.iter().all(|t| t.height == 1));
}

#[test]
fn a_dominant_item_does_not_starve_the_rest_of_the_area() {
    // One huge item and several tiny ones: the tiny ones may be dropped, but whatever is drawn
    // must still cover the area with no gaps.
    let tiles = squarify(&items(&[1_000_000, 1, 1, 1]), 0, 0, 30, 10);
    assert_tiles_partition(&tiles, 0, 0, 30, 10);
    let biggest = tiles.iter().find(|t| t.id == 0).unwrap();
    assert!(biggest.area() > 200, "the dominant item should dominate: {biggest:?}");
}

#[test]
fn layout_is_deterministic_for_equal_sizes() {
    let a = squarify(&items(&[5, 5, 5, 5]), 0, 0, 20, 10);
    let b = squarify(&items(&[5, 5, 5, 5]), 0, 0, 20, 10);
    assert_eq!(a, b, "ties must break the same way every frame or the map flickers");
}

#[test]
fn neither_order_nor_empty_items_change_the_layout() {
    let a = [(3, 5), (1, 9), (7, 5), (2, 1)];
    let b = [(8, 0), (2, 1), (7, 5), (1, 9), (9, 0), (3, 5)];
    let tiles = squarify(&a, 1, 2, 20, 10);
    assert_eq!(tiles, squarify(&b, 1, 2, 20, 10));
    assert_eq!(tiles.iter().map(|t| t.id).collect::<Vec<_>>(), [1, 3, 7, 2]);
}

#[test]
fn every_cell_is_in_one_tile_and_counts_towards_its_area() {
    let tiles = squarify(&items(&[8, 4, 2, 1]), 3, 2, 24, 8);
    let mut cells = vec![0u32; tiles.len()];
    for x in 0..40u16 {
        for y in 0..20u16 {
            let inside = (3..27).contains(&x) && (2..10).contains(&y);
            let holders: Vec<usize> =
                (0..tiles.len()).filter(|&i| tiles[i].contains(x, y)).collect();
            assert_eq!(holders.len(), inside as usize, "({x}, {y})");
            if let [i] = holders[..] {
                cells[i] += 1;
            }
        }
    }
    for (tile, count) in tiles.iter().zip(cells) {
        assert_eq!(tile.area(), count);
        assert!(tile.contains(tile.x, tile.y) && !tile.contains(tile.x + tile.width, tile.y));
    }
}

#[test]
fn lookup_by_position_finds_the_right_tile() {
    let tiles = squarify(&items(&[8, 4, 2, 1]), 0, 0, 24, 8);
    for tile in &tiles {
        let found = tiles.iter().find(|t| t.contains(tile.x, tile.y)).unwrap();
        assert_eq!(found.id, tile.id);
    }
}

#[test]
fn the_largest_sizes_there_are_still_tile() {
    let tiles = squarify(&items(&[u64::MAX, u64::MAX, u64::MAX / 3, 7]), 3, 2, 50, 17);
    assert_tiles_partition(&tiles, 3, 2, 50, 17);
}

#[test]
fn products_beyond_machine_words_are_compared() {
    let a = Big::of(u128::MAX);
    let b = Big::of(u128::MAX - 1);
    assert!(b.times(&a).is_less(&a.times(&a)));
    assert!(!a.times(&a).is_less(&a.times(&a)));
    assert!(Big::of(5).is_less(&a));
}
