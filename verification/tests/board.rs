use game_of_life::GameBoard;
use game_of_life::Point;

#[test]
fn new_game_board_constructs_with_valid_initial_state() {
    let init_state = vec![Point::new(1, 1)];
    let board = GameBoard::new(3, 3, &init_state);

    assert_eq!(board.width, 3);
    assert_eq!(board.height, 3);
    assert_eq!(board.points.len(), 9);
    assert!(!board.points[0]); // (0,0) empty
    assert!(board.points[4]); // (1,1) alive
}

#[test]
fn count_live_neighbors_counts_zero_on_empty_board() {
    let init_state = vec![];
    let board = GameBoard::new(3, 3, &init_state);

    assert_eq!(board.count_live_neighbors(1, 1), 0);
}

#[test]
fn count_live_neighbors_counts_one_on_single_cell_board() {
    let init_state = vec![Point { x: 0, y: 0 }];
    let board = GameBoard::new(3, 3, &init_state);

    assert_eq!(board.count_live_neighbors(1, 1), 1);
}

#[test]
fn count_live_neighbors_on_full_board() {
    let init_state = vec![
        Point { x: 0, y: 0 },
        Point { x: 1, y: 0 },
        Point { x: 2, y: 0 },
        Point { x: 0, y: 1 },
        Point { x: 2, y: 1 },
        Point { x: 0, y: 2 },
        Point { x: 1, y: 2 },
        Point { x: 2, y: 2 },
    ];
    let board = GameBoard::new(3, 3, &init_state);

    assert_eq!(board.count_live_neighbors(1, 1), 8);
}

#[test]
fn count_live_neighbors_counts_edge_neighbors() {
    let init_state = vec![Point { x: 0, y: 0 }, Point { x: 1, y: 0 }];
    let board = GameBoard::new(3, 3, &init_state);

    assert_eq!(board.count_live_neighbors(0, 0), 1);
}

#[test]
fn count_live_neighbors_counts_corner_neighbors() {
    let init_state = vec![
        Point { x: 1, y: 0 },
        Point { x: 0, y: 1 },
        Point { x: 1, y: 1 },
    ];
    let board = GameBoard::new(3, 3, &init_state);
    assert_eq!(board.count_live_neighbors(0, 0), 3);
}

#[test]
fn count_live_neighbors_does_not_count_self() {
    let init_state = vec![Point { x: 1, y: 1 }];
    let board = GameBoard::new(3, 3, &init_state);
    assert_eq!(board.count_live_neighbors(1, 1), 0);
}

#[test]
fn next_state_cell_dies_from_underpopulation() {
    // Single cell dies from loneliness.
    let init_state = vec![Point { x: 1, y: 1 }];
    let mut board = GameBoard::new(3, 3, &init_state);
    board.next_state();

    assert!(!board.points[4]); // Center cell should die
}

#[test]
fn next_state_cell_survives() {
    // Three cells in a row, middle cell should survive.
    let init_state = vec![
        Point { x: 0, y: 1 },
        Point { x: 1, y: 1 },
        Point { x: 2, y: 1 },
    ];
    let mut board = GameBoard::new(3, 3, &init_state);
    board.next_state();

    assert!(board.points[4]); // Center cell should survive
}

#[test]
fn next_state_cell_dies_from_overpopulation() {
    // Center cell surrounded by 4 neighbors should die.
    let init_state = vec![
        Point { x: 0, y: 0 },
        Point { x: 2, y: 0 },
        Point { x: 1, y: 1 },
        Point { x: 0, y: 2 },
        Point { x: 2, y: 2 },
    ];
    let mut board = GameBoard::new(3, 3, &init_state);
    board.next_state();

    assert!(!board.points[4]); // Center cell should die
}

#[test]
fn next_state_cell_is_born_through_reproduction() {
    // Empty cell with exactly 3 neighbors should become alive.
    let init_state = vec![
        Point { x: 0, y: 0 },
        Point { x: 1, y: 0 },
        Point { x: 0, y: 1 },
    ];
    let mut board = GameBoard::new(3, 3, &init_state);
    board.next_state();

    assert!(board.points[4]); // Center cell should become alive
}

fn board_of(width: u16, height: u16, cells: &[(u16, u16)]) -> GameBoard {
    let seeds: Vec<Point> = cells.iter().map(|&(x, y)| Point::new(x, y)).collect();
    GameBoard::new(width, height, &seeds)
}

fn live_cells(board: &GameBoard) -> Vec<(u16, u16)> {
    let mut cells = Vec::new();
    for y in 0..board.height {
        for x in 0..board.width {
            if board.points[usize::from(x) + usize::from(y) * usize::from(board.width)] {
                cells.push((x, y));
            }
        }
    }
    cells
}

#[test]
fn new_board_has_one_dead_cell_for_each_place_but_the_seeds() {
    for &(width, height) in &[(0u16, 0u16), (0, 5), (5, 0), (1, 1), (7, 3), (3, 7), (40, 25)] {
        let empty = board_of(width, height, &[]);
        assert_eq!(empty.width, width);
        assert_eq!(empty.height, height);
        assert_eq!(empty.points.len(), usize::from(width) * usize::from(height));
        assert!(empty.points.iter().all(|alive| !alive));
    }
    let board = board_of(7, 3, &[(6, 2), (0, 0), (3, 1), (6, 2)]);
    assert_eq!(board.points.len(), 21);
    assert_eq!(live_cells(&board), vec![(0, 0), (3, 1), (6, 2)]);
    assert!(board.points[20] && board.points[0] && board.points[10]);
}

#[test]
fn new_board_indexes_rows_beyond_sixteen_bits() {
    // 300 * 299 does not fit in sixteen bits; the cell is still the last of
    // the first column.
    let board = board_of(300, 300, &[(0, 299), (299, 299)]);
    assert_eq!(board.points.len(), 90000);
    assert!(board.points[89700]);
    assert!(board.points[89999]);
    assert_eq!(board.points.iter().filter(|alive| **alive).count(), 2);
    assert_eq!(board.count_live_neighbors(1, 298), 1);
    assert_eq!(board.count_live_neighbors(298, 298), 1);
}

#[test]
fn count_live_neighbors_does_not_wrap_around_the_edges() {
    // All four corners alive: no corner sees another one.
    let board = board_of(4, 3, &[(0, 0), (3, 0), (0, 2), (3, 2)]);
    assert_eq!(board.count_live_neighbors(0, 0), 0);
    assert_eq!(board.count_live_neighbors(3, 0), 0);
    assert_eq!(board.count_live_neighbors(0, 2), 0);
    assert_eq!(board.count_live_neighbors(3, 2), 0);
    assert_eq!(board.count_live_neighbors(0, 1), 2);
    // A full row: the ends have one neighbour, not two.
    let row = board_of(5, 1, &[(0, 0), (1, 0), (2, 0), (3, 0), (4, 0)]);
    assert_eq!(row.count_live_neighbors(0, 0), 1);
    assert_eq!(row.count_live_neighbors(4, 0), 1);
    assert_eq!(row.count_live_neighbors(2, 0), 2);
}

#[test]
fn count_live_neighbors_of_places_off_the_board() {
    let board = board_of(3, 3, &[(0, 0), (2, 2), (2, 0)]);
    // Just beyond the right edge and below the bottom edge.
    assert_eq!(board.count_live_neighbors(3, 3), 1);
    assert_eq!(board.count_live_neighbors(3, 1), 2);
    assert_eq!(board.count_live_neighbors(1, 3), 1);
    // Far away, and at the end of the coordinate range: column 65535 has no
    // neighbour in column 0.
    assert_eq!(board.count_live_neighbors(100, 100), 0);
    assert_eq!(board.count_live_neighbors(65535, 0), 0);
    assert_eq!(board.count_live_neighbors(65535, 65535), 0);
    assert_eq!(board.count_live_neighbors(0, 65535), 0);
}

#[test]
fn count_live_neighbors_counts_each_of_the_eight() {
    let around = [(0u16, 0u16), (1, 0), (2, 0), (0, 1), (2, 1), (0, 2), (1, 2), (2, 2)];
    for (i, &cell) in around.iter().enumerate() {
        let one = board_of(3, 3, &[cell]);
        assert_eq!(one.count_live_neighbors(1, 1), 1, "{:?}", cell);
        let with_centre = board_of(3, 3, &[cell, (1, 1)]);
        assert_eq!(with_centre.count_live_neighbors(1, 1), 1, "{:?}", cell);
        let up_to: Vec<(u16, u16)> = around[..=i].to_vec();
        assert_eq!(board_of(3, 3, &up_to).count_live_neighbors(1, 1) as usize, i + 1);
    }
}

#[test]
fn next_state_follows_the_rule_for_every_count() {
    let around = [(0u16, 0u16), (1, 0), (2, 0), (0, 1), (2, 1), (0, 2), (1, 2), (2, 2)];
    for count in 0..=8usize {
        for &alive in &[false, true] {
            let mut cells: Vec<(u16, u16)> = around[..count].to_vec();
            if alive {
                cells.push((1, 1));
            }
            let mut board = board_of(3, 3, &cells);
            board.next_state();
            let expected = if alive { count == 2 || count == 3 } else { count == 3 };
            assert_eq!(board.points[4], expected, "alive {} with {}", alive, count);
            assert_eq!(board.points.len(), 9);
            assert_eq!((board.width, board.height), (3, 3));
        }
    }
}

#[test]
fn next_state_decides_every_cell_from_the_generation_before() {
    // A blinker turns from a row into a column and back. Deciding cells from
    // half-updated neighbours would break it.
    let mut board = board_of(5, 5, &[(1, 2), (2, 2), (3, 2)]);
    board.next_state();
    assert_eq!(live_cells(&board), vec![(2, 1), (2, 2), (2, 3)]);
    board.next_state();
    assert_eq!(live_cells(&board), vec![(1, 2), (2, 2), (3, 2)]);
    // A block stays as it is.
    let mut block = board_of(4, 4, &[(1, 1), (2, 1), (1, 2), (2, 2)]);
    block.next_state();
    assert_eq!(live_cells(&block), vec![(1, 1), (2, 1), (1, 2), (2, 2)]);
}

#[test]
fn next_state_glider_moves_one_cell_in_four_generations() {
    let mut board = board_of(8, 8, &[(1, 0), (2, 1), (0, 2), (1, 2), (2, 2)]);
    for _ in 0..4 {
        board.next_state();
    }
    assert_eq!(live_cells(&board), vec![(2, 1), (3, 2), (1, 3), (2, 3), (3, 3)]);
}

#[test]
fn next_state_on_board_without_cells() {
    let mut board = board_of(0, 7, &[]);
    board.next_state();
    assert_eq!(board.points.len(), 0);
    assert_eq!((board.width, board.height), (0, 7));
}

#[test]
fn frame_lists_every_cell_row_after_row() {
    let board = board_of(3, 2, &[(1, 0), (2, 1)]);
    let frame = board.frame();
    let listed: Vec<(u16, u16, char)> = frame.iter().map(|g| (g.x, g.y, g.symbol)).collect();
    assert_eq!(
        listed,
        vec![
            (0, 0, ' '),
            (1, 0, '\u{2588}'),
            (2, 0, ' '),
            (0, 1, ' '),
            (1, 1, ' '),
            (2, 1, '\u{2588}'),
        ]
    );
    assert!(board_of(0, 3, &[]).frame().is_empty());
}

#[test]
fn next_cell_is_the_rule() {
    assert!(!game_of_life::board::next_cell(true, 0));
    assert!(!game_of_life::board::next_cell(true, 1));
    assert!(game_of_life::board::next_cell(true, 2));
    assert!(game_of_life::board::next_cell(true, 3));
    assert!(!game_of_life::board::next_cell(true, 4));
    assert!(!game_of_life::board::next_cell(true, 8));
    assert!(!game_of_life::board::next_cell(false, 2));
    assert!(game_of_life::board::next_cell(false, 3));
    assert!(!game_of_life::board::next_cell(false, 4));
    assert!(!game_of_life::board::next_cell(false, 0));
}

#[test]
fn next_state_dead_cell_with_eight_neighbors_stays_dead() {
    let mut board = board_of(
        3,
        3,
        &[(0, 0), (1, 0), (2, 0), (0, 1), (2, 1), (0, 2), (1, 2), (2, 2)],
    );
    assert_eq!(board.count_live_neighbors(1, 1), 8);
    board.next_state();
    assert!(!board.points[4]);
    // The corners had two live neighbours each and live on; the cells between
    // them had four and die.
    assert_eq!(live_cells(&board), vec![(0, 0), (2, 0), (0, 2), (2, 2)]);
}
