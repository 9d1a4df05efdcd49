use daedal::{grid, partition, Tile};

#[test]
fn one_worker_gets_whole_image() {
    assert_eq!(grid(1), (1, 1));
    assert_eq!(partition(80, 60, 1), vec![Tile { x1: 0, x2: 80, y1: 0, y2: 60 }]);
}

#[test]
fn grid_leans_toward_four_rows() {
    assert_eq!(grid(4), (1, 4));
    assert_eq!(grid(12), (3, 4));
    assert_eq!(grid(64), (16, 4));
    assert_eq!(grid(6), (2, 3));
}

#[test]
fn grid_tie_takes_fewer_columns() {
    // 7 columns of 1 row and 1 column of 7 rows are both 3 rows away.
    assert_eq!(grid(7), (1, 7));
}

#[test]
fn tiles_go_column_by_column() {
    let tiles = partition(100, 100, 12);
    assert_eq!(tiles.len(), 12);
    assert_eq!(tiles[0], Tile { x1: 0, x2: 33, y1: 0, y2: 25 });
    assert_eq!(tiles[5], Tile { x1: 33, x2: 66, y1: 25, y2: 50 });
    assert_eq!(tiles[11], Tile { x1: 66, x2: 99, y1: 75, y2: 100 });
}

#[test]
fn tiles_cover_evenly_divided_image_once() {
    for n in [1u32, 2, 3, 4, 5, 8, 10, 20, 25] {
        let (w, h) = (200u32, 100u32);
        let tiles = partition(w, h, n);
        assert_eq!(tiles.len(), n as usize);
        let (xm, ym) = grid(n);
        if w % xm != 0 || h % ym != 0 {
            continue;
        }
        for x in 0..w {
            for y in 0..h {
                let owners = tiles
                    .iter()
                    .filter(|t| t.x1 <= x && x < t.x2 && t.y1 <= y && y < t.y2)
                    .count();
                assert_eq!(owners, 1, "pixel ({x}, {y}) with {n} tiles");
            }
        }
    }
}

#[test]
fn uneven_division_leaves_last_rows_out() {
    let tiles = partition(10, 10, 3);
    assert_eq!(
        tiles,
        vec![
            Tile { x1: 0, x2: 10, y1: 0, y2: 3 },
            Tile { x1: 0, x2: 10, y1: 3, y2: 6 },
            Tile { x1: 0, x2: 10, y1: 6, y2: 9 },
        ]
    );
}
