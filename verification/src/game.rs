//! The match state machine: players, the durable match state, and the
//! transitions that move a match from one game to the next.

use vstd::prelude::*;
use vstd::string::StringSliceAdditionalSpecFns;
use crate::engine;
use crate::engine::{game_marks, game_state};
use crate::replay::{
    board_marks, counts_ok, whose_turn, replay_seq, marks_upto, slot_mover, slot_owner_x,
    lemma_replay_seq, lemma_marks_upto_lookup, lemma_replay_marks, lemma_replay_len,
    lemma_board_marks_update, lemma_count_all_zero,
};

verus! {

/// One of the two players of a game.
#[derive(Clone, Copy, Debug, PartialEq, Eq, Structural)]
pub enum Player {
    PlayerX,
    PlayerO,
}

/// The classification the game engine assigns to a position: either one of
/// the players still has to move, or the game ended with a win or a tie.
#[derive(Clone, Copy, Debug, PartialEq, Eq, Structural)]
pub enum GameState {
    XMove,
    OMove,
    XWin,
    OWin,
    Tie,
}

/// The failures the match controller can report.  All of them indicate a
/// damaged snapshot or a logic defect, never expected user input.
#[derive(Clone, Copy, Debug, PartialEq, Eq, Structural)]
pub enum MatchError {
    /// The snapshot violates the board invariant, or the engine rejected a
    /// replayed move.
    CorruptState,
    /// A move was requested although the current game already ended.
    GameOver,
    /// A move was requested for a cell that already carries a mark.
    PositionOccupied,
    /// The stored current player disagrees with the engine's notion of whose
    /// turn it is.
    TurnMismatch,
}

impl Player {
    /// The opponent of this player.
    pub open spec fn spec_other(self) -> Player {
        match self {
            Player::PlayerX => Player::PlayerO,
            Player::PlayerO => Player::PlayerX,
        }
    }

    /// Returns the opponent of this player.
    pub fn other(self) -> (q: Player)
        ensures
            q == self.spec_other(),
    {
        match self {
            Player::PlayerX => Player::PlayerO,
            Player::PlayerO => Player::PlayerX,
        }
    }

    /// The cell value that marks a cell owned by this player.
    pub open spec fn spec_mark(self) -> u32 {
        match self {
            Player::PlayerX => 2u32,
            Player::PlayerO => 1u32,
        }
    }

    /// Returns the cell value that marks a cell owned by this player.
    pub fn mark(self) -> (v: u32)
        ensures
            v == self.spec_mark(),
    {
        match self {
            Player::PlayerX => 2,
            Player::PlayerO => 1,
        }
    }

    /// A human-readable name for the player.
    pub fn name(self) -> (s: &'static str)
        ensures
            self is PlayerX ==> s@ == "PlayerX"@,
            self is PlayerO ==> s@ == "PlayerO"@,
    {
        match self {
            Player::PlayerX => "PlayerX",
            Player::PlayerO => "PlayerO",
        }
    }
}

impl GameState {
    /// Whether this classification ends the current game.
    pub open spec fn is_over(self) -> bool {
        !(self is XMove || self is OMove)
    }

    /// Returns whether this classification ends the current game.
    pub fn is_game_over(self) -> (b: bool)
        ensures
            b == self.is_over(),
    {
        match self {
            GameState::XMove | GameState::OMove => false,
            _ => true,
        }
    }

    /// The classification in which the given player has to move.
    pub open spec fn move_state_of(p: Player) -> GameState {
        match p {
            Player::PlayerX => GameState::XMove,
            Player::PlayerO => GameState::OMove,
        }
    }

    /// The move classification of the other player; meaningful only for the
    /// two move classifications.
    pub open spec fn flipped(self) -> GameState {
        if self is XMove {
            GameState::OMove
        } else {
            GameState::XMove
        }
    }
}

/// The durable, minimal representation of one in-progress or just-concluded
/// game plus cumulative scores.  `board` has nine cells in row-major order
/// (index = row * 3 + column); a cell is 0 when empty, 2 when owned by
/// player X and 1 when owned by player O.
#[derive(Clone, Debug, PartialEq, Eq)]
pub struct MatchState {
    pub start_player: Player,
    pub current_player: Player,
    pub player_x_score: u64,
    pub player_o_score: u64,
    pub tie_score: u64,
    pub board: Vec<u32>,
}

/// The mathematical view of a `MatchState`.
pub ghost struct StateView {
    pub start_player: Player,
    pub current_player: Player,
    pub player_x_score: u64,
    pub player_o_score: u64,
    pub tie_score: u64,
    pub board: Seq<u32>,
}

impl View for MatchState {
    type V = StateView;

    open spec fn view(&self) -> StateView {
        StateView {
            start_player: self.start_player,
            current_player: self.current_player,
            player_x_score: self.player_x_score,
            player_o_score: self.player_o_score,
            tie_score: self.tie_score,
            board: self.board@,
        }
    }
}

/// A board is entirely empty.
pub open spec fn board_empty(b: Seq<u32>) -> bool {
    forall|i: int| 0 <= i < b.len() ==> b[i] == 0
}

impl StateView {
    /// Structural validity of a snapshot: nine cells, each empty or owned by
    /// one of the two players.
    pub open spec fn wf(self) -> bool {
        &&& self.board.len() == 9
        &&& forall|i: int| 0 <= i < 9 ==> self.board[i] <= 2
    }
}

/// The snapshot after the current game concluded: whoever started this game
/// does not start the next one, and the board is cleared.  Scores are kept.
pub open spec fn next_game_of(v: StateView) -> StateView {
    StateView {
        start_player: v.start_player.spec_other(),
        current_player: v.start_player.spec_other(),
        board: Seq::new(9, |i: int| 0u32),
        ..v
    }
}

/// The snapshot after one score counter was bumped for the given outcome:
/// a win for the given player, or a tie when `winner` is `None`.
pub open spec fn scored(v: StateView, winner: Option<Player>) -> StateView {
    match winner {
        Some(Player::PlayerX) => StateView { player_x_score: (v.player_x_score + 1) as u64, ..v },
        Some(Player::PlayerO) => StateView { player_o_score: (v.player_o_score + 1) as u64, ..v },
        None => StateView { tie_score: (v.tie_score + 1) as u64, ..v },
    }
}

/// The snapshot after the engine's classification was folded into the match
/// state: an ongoing game refreshes the current player; a concluded game
/// bumps exactly one score counter and prepares the next game.
pub open spec fn evaluated(v: StateView, c: GameState) -> StateView {
    match c {
        GameState::XMove => StateView { current_player: Player::PlayerX, ..v },
        GameState::OMove => StateView { current_player: Player::PlayerO, ..v },
        GameState::XWin => next_game_of(scored(v, Some(Player::PlayerX))),
        GameState::OWin => next_game_of(scored(v, Some(Player::PlayerO))),
        GameState::Tie => next_game_of(scored(v, None)),
    }
}

/// Law: preparing the next game swaps the starting player and the current
/// player to the opponent of the old starting player, clears the board, and
/// keeps every score; preparing it twice restores the original starting
/// player.
pub proof fn lemma_next_game_alternates(v: StateView)
    ensures
        next_game_of(v).start_player == v.start_player.spec_other(),
        next_game_of(v).current_player == v.start_player.spec_other(),
        board_empty(next_game_of(v).board),
        next_game_of(v).player_x_score == v.player_x_score,
        next_game_of(v).player_o_score == v.player_o_score,
        next_game_of(v).tie_score == v.tie_score,
        next_game_of(next_game_of(v)).start_player == v.start_player,
{
}

/// Law: folding a classification into the match state never decreases any of
/// the three score counters, and a terminal classification increments exactly
/// one of them by one while an ongoing one leaves all three unchanged.
pub proof fn lemma_evaluate_scores(v: StateView, c: GameState)
    requires
        v.player_x_score < u64::MAX,
        v.player_o_score < u64::MAX,
        v.tie_score < u64::MAX,
    ensures
        evaluated(v, c).player_x_score >= v.player_x_score,
        evaluated(v, c).player_o_score >= v.player_o_score,
        evaluated(v, c).tie_score >= v.tie_score,
        c is XWin ==> evaluated(v, c).player_x_score == v.player_x_score + 1
            && evaluated(v, c).player_o_score == v.player_o_score
            && evaluated(v, c).tie_score == v.tie_score,
        c is OWin ==> evaluated(v, c).player_o_score == v.player_o_score + 1
            && evaluated(v, c).player_x_score == v.player_x_score
            && evaluated(v, c).tie_score == v.tie_score,
        c is Tie ==> evaluated(v, c).tie_score == v.tie_score + 1
            && evaluated(v, c).player_x_score == v.player_x_score
            && evaluated(v, c).player_o_score == v.player_o_score,
        !c.is_over() ==> evaluated(v, c).player_x_score == v.player_x_score
            && evaluated(v, c).player_o_score == v.player_o_score
            && evaluated(v, c).tie_score == v.tie_score,
{
}

/// The replay of a snapshot crosses no terminal position before its last
/// move: after each proper prefix of the inferred move order the engine's
/// classification still expects a move.  Exactly then the engine accepts
/// the whole replay.  Boards written by the controller itself always
/// satisfy this, since a game ends at its winning move.
pub open spec fn replay_ok(b: Seq<u32>, start: Player) -> bool {
    forall|j: int|
        1 <= j < replay_seq(b, start).len() ==> !(#[trigger] engine::class_after(
            marks_upto(replay_seq(b, start), start, j),
            slot_owner_x(start, j - 1),
        )).is_over()
}

/// The classification the engine reports after a snapshot was replayed: for
/// an empty board the starting player is to move; otherwise it is the
/// engine's classification of the full board contents after the last slot's
/// owner moved.  A reference engine fed the same cells as moves in the same
/// alternation order ends in the same classification.
pub open spec fn replayed_class(b: Seq<u32>, start: Player) -> GameState {
    let n = replay_seq(b, start).len();
    if n == 0 {
        GameState::move_state_of(start)
    } else {
        engine::class_after(board_marks(b), slot_owner_x(start, n - 1))
    }
}

/// One running match: the durable snapshot together with the live engine
/// instance reconstructed from it.  The engine is never serialized; the
/// snapshot is the only durable representation.
pub struct Match {
    pub state: MatchState,
    pub game: open_ttt_lib::game::Game,
}

impl Match {
    /// The live engine and the snapshot agree on the board contents.
    pub open spec fn synced(self) -> bool {
        game_marks(self.game) == board_marks(self.state@.board)
    }

    /// The snapshot is structurally valid.
    pub open spec fn wf(self) -> bool {
        self.state@.wf()
    }

    /// The engine's current classification of this match's game.
    pub open spec fn classification(self) -> GameState {
        game_state(self.game)
    }

    /// Reconstructs a live match from a snapshot.  The snapshot must satisfy
    /// the structural and count invariants; its cells are then replayed into
    /// a fresh engine in alternation order, starting with `start_player`.  A
    /// snapshot that violates an invariant, or whose replay the engine
    /// rejects as already decided, is reported as corrupt; a valid snapshot
    /// whose replay crosses no terminal position is always reconstructed.
    #[verifier::loop_isolation(false)]
    pub fn from_state(state: MatchState) -> (r: Result<Match, MatchError>)
        ensures
            !(state@.wf() && counts_ok(state@.board, state@.start_player)) ==> r is Err,
            state@.wf() && counts_ok(state@.board, state@.start_player) && board_empty(
                state@.board,
            ) ==> r is Ok,
            state@.wf() && counts_ok(state@.board, state@.start_player) && replay_ok(
                state@.board,
                state@.start_player,
            ) ==> r is Ok,
            r matches Err(e) ==> e is CorruptState,
            r matches Ok(m) ==> {
                &&& state@.wf() && counts_ok(state@.board, state@.start_player)
                &&& m.state == state
                &&& m.wf() && m.synced()
                &&& m.classification() == replayed_class(state@.board, state@.start_player)
                &&& m.classification().is_over() || m.classification() == GameState::move_state_of(
                    whose_turn(state@.board, state@.start_player),
                )
            },
    {
        if state.board.len() != 9 {
            return Err(MatchError::CorruptState);
        }
        let mut ci: usize = 0;
        while ci < 9
            invariant
                state@.board.len() == 9,
                ci <= 9,
                forall|j: int| 0 <= j < ci ==> state@.board[j] <= 2,
            decreases 9 - ci,
        {
            if state.board[ci] > 2 {
                return Err(MatchError::CorruptState);
            }
            ci += 1;
        }
        let moves = match crate::replay::replay_moves(&state.board, state.start_player) {
            Some(m) => m,
            None => {
                return Err(MatchError::CorruptState);
            },
        };
        let ghost bv = state@.board;
        let ghost sp = state@.start_player;
        let ghost rs = replay_seq(bv, sp);
        proof {
            lemma_replay_seq(bv, sp);
            lemma_replay_len(bv, sp);
            lemma_replay_marks(bv, sp);
            if board_empty(bv) {
                lemma_count_all_zero(bv, 1);
                lemma_count_all_zero(bv, 2);
            }
        }
        let mut g = engine::new_game();
        match state.start_player {
            Player::PlayerX => {
                let s = engine::engine_state(&g);
                if s != GameState::XMove {
                    engine::start_next_game(&mut g);
                }
            },
            Player::PlayerO => {
                let s = engine::engine_state(&g);
                if s != GameState::OMove {
                    engine::start_next_game(&mut g);
                }
            },
        }
        assert(game_state(g) == GameState::move_state_of(sp));
        assert(game_marks(g) =~= marks_upto(rs, sp, 0));
        let mut k: usize = 0;
        while k < moves.len()
            invariant
                k <= moves.len(),
                moves@.len() == rs.len(),
                rs == replay_seq(bv, sp),
                bv.len() == 9,
                forall|i: int| 0 <= i < 9 ==> bv[i] <= 2,
                counts_ok(bv, sp),
                forall|j: int| 0 <= j < moves@.len() ==> #[trigger] moves@[j] as int == rs[j],
                forall|j: int|
                    0 <= j < rs.len() ==> 0 <= #[trigger] rs[j] < 9 && bv[rs[j]] == (
                    if slot_owner_x(sp, j) {
                        2u32
                    } else {
                        1u32
                    }),
                forall|k1: int, k2: int|
                    0 <= k1 < k2 < rs.len() ==> #[trigger] rs[k1] != #[trigger] rs[k2],
                game_marks(g) == marks_upto(rs, sp, k as int),
                game_state(g).is_over() || game_state(g) == GameState::move_state_of(
                    slot_mover(sp, k as int),
                ),
                k == 0 ==> game_state(g) == GameState::move_state_of(sp),
                k > 0 ==> game_state(g) == engine::class_after(
                    marks_upto(rs, sp, k as int),
                    slot_owner_x(sp, k as int - 1),
                ),
            decreases moves@.len() - k,
        {
            let idx = moves[k];
            assert(idx < 9);
            let row = idx / 3;
            let col = idx % 3;
            assert(row < 3 && col < 3 && 3 * row + col == idx) by (nonlinear_arith)
                requires
                    idx < 9,
                    row == idx / 3,
                    col == idx % 3,
            ;
            let st = engine::engine_state(&g);
            if st.is_game_over() {
                proof {
                    if replay_ok(bv, sp) {
                        assert(k > 0);
                        assert(!engine::class_after(
                            marks_upto(rs, sp, k as int),
                            slot_owner_x(sp, k as int - 1),
                        ).is_over());
                        assert(false);
                    }
                }
                return Err(MatchError::CorruptState);
            }
            proof {
                lemma_marks_upto_lookup(rs, sp, k as int);
                if marks_upto(rs, sp, k as int).dom().contains(rs[k as int]) {
                    let j = choose|j: int| 0 <= j < k && #[trigger] rs[j] == rs[k as int];
                    assert(false);
                }
            }
            let ok = engine::engine_do_move(&mut g, row, col);
            assert(ok);
            proof {
                assert(st is XMove == slot_owner_x(sp, k as int));
                assert(game_marks(g) =~= marks_upto(rs, sp, k + 1));
            }
            k += 1;
        }
        proof {
            assert(game_marks(g) == marks_upto(rs, sp, rs.len() as int));
            assert(rs.len() == crate::replay::count_marks(bv, 1u32) + crate::replay::count_marks(
                bv,
                2u32,
            ));
        }
        Ok(Match { state, game: g })
    }

    /// Bumps the score counter for the given outcome: a win for the given
    /// player, or a tie when no winner is given.
    fn inc_score(&mut self, winner: Option<Player>)
        requires
            old(self).state@.player_x_score < u64::MAX,
            old(self).state@.player_o_score < u64::MAX,
            old(self).state@.tie_score < u64::MAX,
        ensures
            final(self).state@ == scored(old(self).state@, winner),
            final(self).game == old(self).game,
    {
        match winner {
            None => {
                self.state.tie_score = self.state.tie_score + 1;
            },
            Some(p) => {
                match p {
                    Player::PlayerX => {
                        self.state.player_x_score = self.state.player_x_score + 1;
                    },
                    Player::PlayerO => {
                        self.state.player_o_score = self.state.player_o_score + 1;
                    },
                }
            },
        }
    }

    /// Starts the next game of the match: whoever started this game does not
    /// start the next one, and the board is cleared.  Scores are kept and the
    /// live engine is left untouched.
    pub fn prepare_next_game(&mut self)
        ensures
            final(self).state@ == next_game_of(old(self).state@),
            final(self).game == old(self).game,
            final(self).wf(),
    {
        let next = self.state.start_player.other();
        self.state.start_player = next;
        self.state.current_player = next;
        self.state.board = vec![0u32; 9];
        proof {
            assert(self.state@.board =~= Seq::new(9, |i: int| 0u32));
        }
    }

    /// Applies one move of the current player: writes the mark into the
    /// snapshot and forwards the same move to the live engine.  The current
    /// player is left unchanged; it is only refreshed by `evaluate_state`.
    /// The move fails, leaving the match unchanged, when the game is already
    /// over, when the stored current player is not the one the engine expects
    /// to move, or when the cell is occupied.
    pub fn do_move(&mut self, row: u8, col: u8) -> (r: Result<(), MatchError>)
        requires
            row < 3,
            col < 3,
            old(self).wf(),
            old(self).synced(),
        ensures
            final(self).wf(),
            final(self).synced(),
            r is Ok <==> {
                &&& !game_state(old(self).game).is_over()
                &&& game_state(old(self).game) == GameState::move_state_of(
                    old(self).state@.current_player,
                )
                &&& old(self).state@.board[3 * row + col] == 0
            },
            r matches Err(e) ==> *final(self) == *old(self) && !(e is CorruptState) && (e
                is GameOver <==> game_state(old(self).game).is_over()) && (e is TurnMismatch
                ==> game_state(old(self).game) != GameState::move_state_of(
                old(self).state@.current_player,
            )) && (e is PositionOccupied ==> old(self).state@.board[3 * row + col] != 0),
            r is Ok ==> {
                &&& final(self).state@.board == old(self).state@.board.update(
                    3 * row + col,
                    old(self).state@.current_player.spec_mark(),
                )
                &&& final(self).state@.start_player == old(self).state@.start_player
                &&& final(self).state@.current_player == old(self).state@.current_player
                &&& final(self).state@.player_x_score == old(self).state@.player_x_score
                &&& final(self).state@.player_o_score == old(self).state@.player_o_score
                &&& final(self).state@.tie_score == old(self).state@.tie_score
                &&& game_state(final(self).game).is_over() || game_state(final(self).game)
                    == game_state(old(self).game).flipped()
            },
    {
        let st = engine::engine_state(&self.game);
        if st.is_game_over() {
            return Err(MatchError::GameOver);
        }
        let expect = match self.state.current_player {
            Player::PlayerX => GameState::XMove,
            Player::PlayerO => GameState::OMove,
        };
        if st != expect {
            return Err(MatchError::TurnMismatch);
        }
        let idx = (row * 3 + col) as usize;
        if self.state.board[idx] != 0 {
            return Err(MatchError::PositionOccupied);
        }
        let ok = engine::engine_do_move(&mut self.game, row, col);
        assert(ok);
        let mark = self.state.current_player.mark();
        self.state.board[idx] = mark;
        proof {
            lemma_board_marks_update(old(self).state@.board, idx as int, mark);
            assert((mark == 2) == (st is XMove));
        }
        Ok(())
    }

    /// Lets the automated opponent take one turn: asks the opponent strategy
    /// for a move and, if it offers one, applies it as the current player's
    /// move.  It declines, leaving the match unchanged and returning
    /// `Ok(false)`, exactly when it has no legal move: the game is over or
    /// no cell is free.
    pub fn ai_move(&mut self) -> (r: Result<bool, MatchError>)
        requires
            old(self).wf(),
            old(self).synced(),
        ensures
            final(self).wf(),
            final(self).synced(),
            r matches Err(e) ==> *final(self) == *old(self) && e is TurnMismatch,
            r matches Ok(moved) ==> (moved <==> !game_state(old(self).game).is_over() && exists|
                i: int,
            |
                0 <= i < 9 && old(self).state@.board[i] == 0),
            r matches Ok(moved) && !moved ==> *final(self) == *old(self),
            r matches Ok(moved) && moved ==> {
                &&& exists|i: int|
                    0 <= i < 9 && old(self).state@.board[i] == 0 && final(self).state@.board == old(
                        self,
                    ).state@.board.update(i, old(self).state@.current_player.spec_mark())
                &&& final(self).state@.start_player == old(self).state@.start_player
                &&& final(self).state@.current_player == old(self).state@.current_player
                &&& final(self).state@.player_x_score == old(self).state@.player_x_score
                &&& final(self).state@.player_o_score == old(self).state@.player_o_score
                &&& final(self).state@.tie_score == old(self).state@.tie_score
            },
    {
        match engine::ai_choose_move(&self.game) {
            None => {
                proof {
                    if !game_state(self.game).is_over() {
                        assert forall|i: int| 0 <= i < 9 implies self.state@.board[i] != 0 by {
                            assert(game_marks(self.game).dom().contains(i));
                            assert(board_marks(self.state@.board).dom().contains(i));
                        }
                    }
                }
                Ok(false)
            },
            Some((row, col)) => {
                assert(self.state@.board[3 * row + col] == 0) by {
                    assert(!board_marks(self.state@.board).dom().contains(3 * row + col));
                }
                match self.do_move(row, col) {
                    Ok(()) => {
                        proof {
                            assert(final(self).state@.board == old(self).state@.board.update(
                                3 * row + col,
                                old(self).state@.current_player.spec_mark(),
                            ));
                        }
                        Ok(true)
                    },
                    Err(e) => Err(e),
                }
            },
        }
    }

    /// Queries the engine's classification and folds it into the match
    /// state: an ongoing game refreshes the current player; a concluded game
    /// bumps exactly one score counter and prepares the next game.
    pub fn evaluate_state(&mut self)
        requires
            old(self).wf(),
            old(self).state@.player_x_score < u64::MAX,
            old(self).state@.player_o_score < u64::MAX,
            old(self).state@.tie_score < u64::MAX,
        ensures
            final(self).state@ == evaluated(old(self).state@, game_state(old(self).game)),
            final(self).game == old(self).game,
            final(self).wf(),
    {
        let st = engine::engine_state(&self.game);
        match st {
            GameState::XMove => {
                self.state.current_player = Player::PlayerX;
            },
            GameState::OMove => {
                self.state.current_player = Player::PlayerO;
            },
            GameState::XWin => {
                self.inc_score(Some(Player::PlayerX));
                self.prepare_next_game();
            },
            GameState::OWin => {
                self.inc_score(Some(Player::PlayerO));
                self.prepare_next_game();
            },
            GameState::Tie => {
                self.inc_score(None);
                self.prepare_next_game();
            },
        }
    }

    /// Whether the current game has not seen a single move yet.
    pub fn is_new_game(&self) -> (b: bool)
        ensures
            b == board_empty(self.state@.board),
    {
        let mut i: usize = 0;
        while i < self.state.board.len()
            invariant
                i <= self.state@.board.len(),
                forall|j: int| 0 <= j < i ==> self.state@.board[j] == 0,
            decreases self.state@.board.len() - i,
        {
            if self.state.board[i] != 0 {
                return false;
            }
            i += 1;
        }
        true
    }

    /// The engine's classification of the current position.
    pub fn current_classification(&self) -> (s: GameState)
        ensures
            s == self.classification(),
    {
        engine::engine_state(&self.game)
    }

    /// A human-readable rendering of the live engine's board.
    pub fn board_rendering(&self) -> (s: String)
        ensures
            s@ == engine::render_of(game_marks(self.game)),
    {
        engine::board_text(&self.game)
    }

    /// Renders the match report: cumulative scores, whose turn it is, and
    /// the live engine's rendering of the board.  A pure projection; the
    /// match is not changed.
    pub fn markdown_report(&self) -> (r: Vec<u8>)
        ensures
            r@ == crate::report::report_bytes(
                self.state@,
                vstd::utf8::encode_utf8(engine::render_of(game_marks(self.game))),
            ),
    {
        let board = self.board_rendering();
        let bs = board.as_str();
        let r = crate::report::markdown_report(&self.state, bs);
        proof {
            assert(r@ == crate::report::report_bytes(self.state@, bs.spec_bytes()));
            assert(bs.spec_bytes() == vstd::utf8::encode_utf8(
                engine::render_of(game_marks(self.game)),
            ));
        }
        r
    }
}

/// Law: writing a player's mark into any cell leaves the board non-empty.
pub proof fn lemma_move_breaks_new_game(b: Seq<u32>, i: int, v: u32)
    requires
        0 <= i < b.len(),
        v != 0,
    ensures
        !board_empty(b.update(i, v)),
{
    assert(b.update(i, v)[i] == v);
}

} // verus!
