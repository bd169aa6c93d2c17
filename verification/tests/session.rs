use game_of_life::center_points_on_screen;
use game_of_life::on_event;
use game_of_life::seed_board;
use game_of_life::Action;
use game_of_life::Event;
use game_of_life::GameBoard;
use game_of_life::Point;

fn blinker() -> GameBoard {
    GameBoard::new(
        5,
        5,
        &vec![Point::new(1, 2), Point::new(2, 2), Point::new(3, 2)],
    )
}

#[test]
fn on_event_key_ends_the_run_and_leaves_the_board() {
    let mut board = blinker();
    let before = board.points.clone();
    assert_eq!(on_event(&mut board, Event::KeyPressed), Action::Quit);
    assert_eq!(board.points, before);
    assert_eq!((board.width, board.height), (5, 5));
}

#[test]
fn on_event_anything_else_moves_on_and_renders() {
    for event in [Event::Started, Event::WaitElapsed, Event::OtherInput] {
        let mut board = blinker();
        let mut expected = blinker();
        expected.next_state();
        assert_eq!(on_event(&mut board, event), Action::Render);
        assert_eq!(board.points, expected.points);
        assert_ne!(board.points, blinker().points);
    }
}

#[test]
fn on_event_run_of_three_generations() {
    let mut board = blinker();
    let events = [
        Event::Started,
        Event::WaitElapsed,
        Event::OtherInput,
        Event::KeyPressed,
    ];
    let mut rendered = 0;
    for event in events {
        match on_event(&mut board, event) {
            Action::Render => rendered += 1,
            Action::Quit => break,
        }
    }
    assert_eq!(rendered, 3);
    let mut expected = blinker();
    for _ in 0..3 {
        expected.next_state();
    }
    assert_eq!(board.points, expected.points);
}

#[test]
fn seed_board_fits_the_pattern_and_seeds_it() {
    let pattern = vec![Point::new(100, 100), Point::new(101, 100), Point::new(100, 101)];
    let board = seed_board(&pattern, 10, 6).unwrap();
    assert_eq!((board.width, board.height), (10, 6));
    assert_eq!(board.points.len(), 60);
    let fitted = center_points_on_screen(&pattern, 10, 6);
    assert_eq!(fitted, vec![Point::new(4, 2), Point::new(5, 2), Point::new(4, 3)]);
    for y in 0..6u16 {
        for x in 0..10u16 {
            let seeded = fitted.contains(&Point::new(x, y));
            assert_eq!(board.points[usize::from(x) + usize::from(y) * 10], seeded);
        }
    }
}

#[test]
fn seed_board_of_empty_pattern_is_empty() {
    let board = seed_board(&[], 4, 3).unwrap();
    assert_eq!(board.points, vec![false; 12]);
    let none = seed_board(&[], 0, 0).unwrap();
    assert!(none.points.is_empty());
    let flat = seed_board(&[], 0, 9).unwrap();
    assert_eq!((flat.width, flat.height, flat.points.len()), (0, 9, 0));
}

#[test]
fn seed_board_needs_a_cell_for_a_pattern() {
    let pattern = vec![Point::new(1, 1)];
    assert!(seed_board(&pattern, 0, 0).is_none());
    assert!(seed_board(&pattern, 0, 5).is_none());
    assert!(seed_board(&pattern, 5, 0).is_none());
    assert!(seed_board(&pattern, 1, 1).is_some());
    let one = seed_board(&pattern, 1, 1).unwrap();
    assert_eq!(one.points, vec![true]);
}

#[test]
fn seed_board_large_pattern_on_small_screen() {
    let pattern = vec![Point::new(0, 0), Point::new(65535, 65535), Point::new(30000, 2)];
    let board = seed_board(&pattern, 3, 3).unwrap();
    assert_eq!(board.points.iter().filter(|alive| **alive).count(), 2);
    assert!(board.points[4]);
}
