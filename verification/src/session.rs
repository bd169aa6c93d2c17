//! A run of the game: how it starts and when it ends.
//!
//! The game itself does no waiting and reads no keys. Whoever drives it
//! tells it what happened, and is told what to do next.

use vstd::prelude::*;
use crate::board::GameBoard;
use crate::board::seed_cells;
use crate::point::Point;
use crate::viewport::center_points_on_screen;
use crate::viewport::centered;
use crate::viewport::lemma_centered_within_viewport;

verus! {

/// What happened since the board was last shown.
#[derive(Debug, Clone, Copy, PartialEq, Eq, Structural)]
pub enum Event {
    /// The run has just begun; nothing has been shown yet.
    Started,
    /// The wait ran out with no input.
    WaitElapsed,
    /// A key was pressed during the wait.
    KeyPressed,
    /// Some input other than a key arrived during the wait.
    OtherInput,
}

/// What is to be done next.
#[derive(Debug, Clone, Copy, PartialEq, Eq, Structural)]
pub enum Action {
    /// Show the board, which has moved on by one generation, and wait again.
    Render,
    /// End the run.
    Quit,
}

/// Whether `event` ends the run: any key does, and nothing else.
pub open spec fn ends_run(event: Event) -> bool {
    event is KeyPressed
}

/// Decides what follows `event`. A key ends the run and leaves the board as
/// it is. Otherwise the board moves on to its next generation, which is then
/// to be shown.
pub fn on_event(board: &mut GameBoard, event: Event) -> (action: Action)
    requires
        old(board).wf(),
    ensures
        final(board).wf(),
        ends_run(event) ==> action is Quit && final(board).same_as(old(board)),
        !ends_run(event) ==> action is Render && old(board).steps_to(final(board)),
{
    match event {
        Event::KeyPressed => Action::Quit,
        _ => {
            board.next_state();
            Action::Render
        },
    }
}

/// Whether a pattern can be put on a board of `width` by `height` cells: an
/// empty pattern always can, any other needs a board with a cell in it.
pub open spec fn fits_board(pattern: Seq<Point>, width: u16, height: u16) -> bool {
    pattern.len() == 0 || (width >= 1 && height >= 1)
}

/// Sets up the board for a run: fits `pattern` into `width` by `height`
/// cells and makes exactly the fitted cells alive. There is no board for a
/// pattern with cells where the screen has none.
pub fn seed_board(pattern: &[Point], width: u16, height: u16) -> (board: Option<GameBoard>)
    ensures
        board is Some <==> fits_board(pattern@, width, height),
        board matches Some(b) ==> b.wf() && b.width == width && b.height == height && b@
            == seed_cells(centered(pattern@, width as int, height as int)),
{
    if pattern.len() > 0 && (width == 0 || height == 0) {
        return None;
    }
    let seeds = center_points_on_screen(pattern, width, height);
    assert forall|i: int| 0 <= i < seeds@.len() implies (#[trigger] seeds@[i]).x < width
        && seeds@[i].y < height by {
        lemma_centered_within_viewport(pattern@, width, height, i);
    }
    Some(GameBoard::new(width, height, &seeds))
}

} // verus!
