use minesweeper::{Board, Tile, TileState};

/// Independent, straight-line recomputation of the neighbor-mine counts,
/// used to cross-check the board's own.
fn expected_counts(width: usize, height: usize, tiles: &[Tile]) -> Vec<u8> {
    let mut out = Vec::new();
    for r in 0..height as i64 {
        for c in 0..width as i64 {
            let mut n = 0u8;
            for dr in -1..=1i64 {
                for dc in -1..=1i64 {
                    if dr == 0 && dc == 0 {
                        continue;
                    }
                    let (nr, nc) = (r + dr, c + dc);
                    if nr >= 0 && nc >= 0 && nr < height as i64 && nc < width as i64 {
                        if tiles[(nr * width as i64 + nc) as usize] == Tile::Mine {
                            n += 1;
                        }
                    }
                }
            }
            out.push(n);
        }
    }
    out
}

#[test]
fn new_clears_click_neighborhood() {
    let b = Board::new(3, 3, 4);
    for i in 0..9 {
        assert_eq!(b.tiles()[i], Tile::Empty);
        assert_eq!(b.uncovered()[i], TileState::Covered);
        assert_eq!(b.neighbors()[i], 0);
    }
    assert!(!b.has_lost());
    assert!(!b.has_won());
}

#[test]
fn new_edge_click_keeps_neighbors_safe() {
    // Clicking a corner of a larger random board: the corner and its
    // three in-bounds neighbors must be free of mines.
    let b = Board::new(8, 8, 0);
    assert_eq!(b.tiles()[0], Tile::Empty);
    assert_eq!(b.tiles()[1], Tile::Empty);
    assert_eq!(b.tiles()[8], Tile::Empty);
    assert_eq!(b.tiles()[9], Tile::Empty);
    assert!(!b.has_lost());
}

#[test]
fn new_counts_match_layout() {
    // Whatever layout the randomness produced, the stored counts must
    // agree with an independent recomputation.
    let b = Board::new(7, 5, 17);
    let want = expected_counts(7, 5, b.tiles());
    assert_eq!(b.neighbors().as_slice(), want.as_slice());
}

#[test]
fn center_reveal_opens_whole_board() {
    // A 3x3 board with the center forced safe leaves every cell empty, so
    // one reveal floods all nine cells and wins the game.
    let mut b = Board::new(3, 3, 4);
    b.uncover_tile(1, 1);
    for i in 0..9 {
        assert_eq!(b.uncovered()[i], TileState::Uncovered);
    }
    assert!(!b.has_lost());
    assert!(b.has_won());
}

#[test]
fn mine_reveal_loses_and_shows_mines() {
    // Mine at index 0 of a 2x2 board: revealing it loses, opens it, and
    // opens the other mine too; safe cells keep their cover.
    let tiles = vec![Tile::Mine, Tile::Empty, Tile::Empty, Tile::Mine];
    let mut b = Board::from_tiles(2, 2, tiles);
    b.uncover_tile(0, 0);
    assert!(b.has_lost());
    assert!(!b.has_won());
    assert_eq!(b.uncovered()[0], TileState::Uncovered);
    assert_eq!(b.uncovered()[3], TileState::Uncovered);
    assert_eq!(b.uncovered()[1], TileState::Covered);
    assert_eq!(b.uncovered()[2], TileState::Covered);
}

#[test]
fn neighbor_counts_exact() {
    let mut tiles = vec![Tile::Empty; 9];
    tiles[0] = Tile::Mine;
    tiles[4] = Tile::Mine;
    let b = Board::from_tiles(3, 3, tiles);
    assert_eq!(b.neighbors().as_slice(), &[1, 2, 1, 2, 1, 1, 1, 1, 1]);
}

#[test]
fn reveal_is_idempotent() {
    let mut tiles = vec![Tile::Empty; 9];
    tiles[8] = Tile::Mine;
    let mut b = Board::from_tiles(3, 3, tiles);
    b.uncover_tile(0, 0);
    let once = b.uncovered().clone();
    let lost_once = b.has_lost();
    b.uncover_tile(0, 0);
    assert_eq!(b.uncovered().as_slice(), once.as_slice());
    assert_eq!(b.has_lost(), lost_once);
}

#[test]
fn flood_stops_at_numbers_and_spares_the_mine() {
    // Mine at the corner 8: the zero region 0,1,2,3,6 floods, its rim
    // 4,5,7 opens with it, and the mine stays covered.
    let mut tiles = vec![Tile::Empty; 9];
    tiles[8] = Tile::Mine;
    let mut b = Board::from_tiles(3, 3, tiles);
    b.uncover_tile(0, 0);
    for i in 0..8 {
        assert_eq!(b.uncovered()[i], TileState::Uncovered);
    }
    assert_eq!(b.uncovered()[8], TileState::Covered);
    assert!(!b.has_lost());
    assert!(!b.has_won());
    // Flagging the remaining mine closes out the win.
    b.flag_tile(2, 2);
    assert!(b.has_won());
}

#[test]
fn flag_toggles_and_uncovered_stays() {
    let tiles = vec![Tile::Empty; 4];
    let mut b = Board::from_tiles(2, 2, tiles);
    b.flag_tile(0, 0);
    assert_eq!(b.uncovered()[0], TileState::Flagged);
    b.flag_tile(0, 0);
    assert_eq!(b.uncovered()[0], TileState::Covered);
    b.uncover_tile(1, 1);
    b.flag_tile(1, 1);
    assert_eq!(b.uncovered()[3], TileState::Uncovered);
}

#[test]
fn flagged_cell_cannot_be_revealed() {
    let tiles = vec![Tile::Mine, Tile::Empty, Tile::Empty, Tile::Empty];
    let mut b = Board::from_tiles(2, 2, tiles);
    b.flag_tile(0, 0);
    b.uncover_tile(0, 0);
    assert_eq!(b.uncovered()[0], TileState::Flagged);
    assert!(!b.has_lost());
}

#[test]
fn chord_with_wrong_flag_count_does_nothing() {
    let mut tiles = vec![Tile::Empty; 9];
    tiles[0] = Tile::Mine;
    let mut b = Board::from_tiles(3, 3, tiles);
    b.uncover_tile(1, 1);
    assert_eq!(b.uncovered()[4], TileState::Uncovered);
    let before = b.uncovered().clone();
    // No flag placed, but the center counts one mine: the chord is gated.
    b.chord(1, 1);
    assert_eq!(b.uncovered().as_slice(), before.as_slice());
    assert!(!b.has_lost());
}

#[test]
fn chord_with_misplaced_flag_loses() {
    let mut tiles = vec![Tile::Empty; 9];
    tiles[0] = Tile::Mine;
    let mut b = Board::from_tiles(3, 3, tiles);
    b.uncover_tile(1, 1);
    // Flag the wrong neighbor; the count now matches and the chord opens
    // the actual mine.
    b.flag_tile(0, 1);
    b.chord(1, 1);
    assert!(b.has_lost());
    assert_eq!(b.uncovered()[0], TileState::Uncovered);
}

#[test]
fn chord_with_right_flag_opens_the_rest() {
    let mut tiles = vec![Tile::Empty; 9];
    tiles[0] = Tile::Mine;
    let mut b = Board::from_tiles(3, 3, tiles);
    b.uncover_tile(1, 1);
    b.flag_tile(0, 0);
    b.chord(1, 1);
    assert!(!b.has_lost());
    assert_eq!(b.uncovered()[0], TileState::Flagged);
    for i in 1..9 {
        assert_eq!(b.uncovered()[i], TileState::Uncovered);
    }
    assert!(b.has_won());
}

#[test]
fn chord_on_covered_cell_does_nothing() {
    let mut tiles = vec![Tile::Empty; 9];
    tiles[0] = Tile::Mine;
    let mut b = Board::from_tiles(3, 3, tiles);
    let before = b.uncovered().clone();
    b.chord(1, 1);
    assert_eq!(b.uncovered().as_slice(), before.as_slice());
}

#[test]
fn flags_alone_do_not_win() {
    let tiles = vec![Tile::Mine, Tile::Empty, Tile::Empty, Tile::Empty];
    let mut b = Board::from_tiles(2, 2, tiles);
    b.flag_tile(0, 0);
    assert!(!b.has_won());
}

#[test]
fn loss_is_terminal() {
    let tiles = vec![Tile::Mine, Tile::Empty, Tile::Empty, Tile::Empty];
    let mut b = Board::from_tiles(2, 2, tiles);
    b.uncover_tile(0, 0);
    assert!(b.has_lost());
    b.flag_tile(1, 1);
    assert!(b.has_lost());
    b.flag_tile(1, 1);
    b.uncover_tile(0, 1);
    assert!(b.has_lost());
    b.uncover_tile(1, 0);
    b.uncover_tile(1, 1);
    assert!(b.has_lost());
    assert!(!b.has_won());
}

#[test]
fn won_board_reports_no_loss() {
    let tiles = vec![Tile::Empty; 4];
    let mut b = Board::from_tiles(2, 2, tiles);
    b.uncover_tile(0, 0);
    assert!(b.has_won());
    assert!(!b.has_lost());
}
