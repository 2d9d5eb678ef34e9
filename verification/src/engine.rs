//! Trusted boundary to the `open_ttt_lib` game engine.
//!
//! The engine is consumed as an opaque capability: it validates moves,
//! detects wins and ties, and renders the board.  Its state is abstracted by
//! two uninterpreted names: `game_marks`, the cells it currently holds with
//! their owners, keyed by row-major cell index, and `game_state`, its
//! classification of the position.  Every contract below states only what
//! the engine's source shows.

use vstd::prelude::*;
use crate::game::GameState;

verus! {

#[verifier::external_type_specification]
#[verifier::external_body]
pub struct ExGame(open_ttt_lib::game::Game);

/// What the engine's board holds: a map from row-major cell index
/// (row * 3 + column) to whether the cell is owned by player X.
pub uninterp spec fn game_marks(g: open_ttt_lib::game::Game) -> Map<int, bool>;

/// The engine's classification of its current position.
pub uninterp spec fn game_state(g: open_ttt_lib::game::Game) -> GameState;

/// The classification the engine computes after a move: a function of the
/// board contents and of the player who has just moved.  The engine ends
/// every move by recomputing its state from its board and the mover alone
/// (`calculate_next_state`), and a board reached by legal moves holds at
/// most one winning line, so that computation reads nothing else.
pub uninterp spec fn class_after(m: Map<int, bool>, mover_x: bool) -> GameState;

/// What the engine's board rendering shows: a function of the board
/// contents alone.
pub uninterp spec fn render_of(m: Map<int, bool>) -> Seq<char>;

/// The engine's board holds no mark at all.
pub open spec fn no_marks(m: Map<int, bool>) -> bool {
    m == Map::<int, bool>::empty()
}

/// Relies on `open_ttt_lib::game::Game::new`: a fresh game has an empty
/// three-by-three board and player X makes the first move.
#[verifier::external_body]
pub fn new_game() -> (g: open_ttt_lib::game::Game)
    ensures
        no_marks(game_marks(g)),
        game_state(g) == GameState::XMove,
{
    open_ttt_lib::game::Game::new()
}

/// Relies on `open_ttt_lib::game::Game::start_next_game`: it clears the
/// board and the player who went second last game goes first next game.  On
/// a game with an empty board no move has been made, so the player slated to
/// move is the one who started it, and the other player starts the next one.
#[verifier::external_body]
pub fn start_next_game(g: &mut open_ttt_lib::game::Game)
    requires
        no_marks(game_marks(*old(g))),
        !game_state(*old(g)).is_over(),
    ensures
        no_marks(game_marks(*final(g))),
        game_state(*final(g)) == game_state(*old(g)).flipped(),
{
    g.start_next_game();
}

/// Relies on `open_ttt_lib::game::Game::state`: it returns the engine's
/// current classification.  The winning-cell payloads of the win states are
/// dropped.
#[verifier::external_body]
pub fn engine_state(g: &open_ttt_lib::game::Game) -> (s: GameState)
    ensures
        s == game_state(*g),
{
    match g.state() {
        open_ttt_lib::game::State::PlayerXMove => GameState::XMove,
        open_ttt_lib::game::State::PlayerOMove => GameState::OMove,
        open_ttt_lib::game::State::PlayerXWin(_) => GameState::XWin,
        open_ttt_lib::game::State::PlayerOWin(_) => GameState::OWin,
        open_ttt_lib::game::State::CatsGame => GameState::Tie,
    }
}

/// Relies on `open_ttt_lib::game::Game::do_move`: it marks the given cell
/// for the player whose turn it is and recomputes the classification,
/// succeeding exactly when the game is not over and the cell is free; on
/// failure the game is unchanged.  The recomputed classification is the
/// function `class_after` of the new board contents and the mover; when it
/// ends neither game nor turn, the other player is to move next.
#[verifier::external_body]
pub fn engine_do_move(g: &mut open_ttt_lib::game::Game, row: u8, col: u8) -> (ok: bool)
    requires
        row < 3,
        col < 3,
    ensures
        ok <==> !game_state(*old(g)).is_over() && !game_marks(*old(g)).dom().contains(
            3 * row + col,
        ),
        ok ==> game_marks(*final(g)) == game_marks(*old(g)).insert(
            3 * row + col,
            game_state(*old(g)) is XMove,
        ),
        ok ==> game_state(*final(g)) == class_after(
            game_marks(*final(g)),
            game_state(*old(g)) is XMove,
        ),
        ok ==> game_state(*final(g)).is_over() || game_state(*final(g)) == game_state(
            *old(g),
        ).flipped(),
        !ok ==> game_marks(*final(g)) == game_marks(*old(g)) && game_state(*final(g))
            == game_state(*old(g)),
{
    let position = open_ttt_lib::game::Position { row: row as i32, column: col as i32 };
    g.do_move(position).is_ok()
}

/// Relies on `open_ttt_lib::ai::Opponent::get_move` with `Difficulty::Medium`:
/// the opponent never selects a position that is not free, and it declines
/// only when it has no legal move: the game is over or no cell is free.
/// Which free position it selects involves randomness, so nothing more is
/// stated.
#[verifier::external_body]
pub fn ai_choose_move(g: &open_ttt_lib::game::Game) -> (r: Option<(u8, u8)>)
    ensures
        r matches Some(p) ==> p.0 < 3 && p.1 < 3 && !game_state(*g).is_over() && !game_marks(
            *g,
        ).dom().contains(3 * p.0 + p.1),
        r is None ==> game_state(*g).is_over() || (forall|i: int|
            0 <= i < 9 ==> game_marks(*g).dom().contains(i)),
{
    let ai = open_ttt_lib::ai::Opponent::new(open_ttt_lib::ai::Difficulty::Medium);
    match ai.get_move(g) {
        Some(p) => Some((p.row as u8, p.column as u8)),
        None => None,
    }
}

/// Relies on the `Display` implementation of `open_ttt_lib::board::Board`,
/// reached through `Game::board`: it renders the board for human readers,
/// reading nothing but the board's squares.
#[verifier::external_body]
pub fn board_text(g: &open_ttt_lib::game::Game) -> (s: String)
    ensures
        s@ == render_of(game_marks(*g)),
{
    format!("{}", g.board())
}

} // verus!
