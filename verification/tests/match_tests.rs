use ttt_match::codec::{serialize_state, state_from_bytes};
use ttt_match::game::{Match, MatchError, MatchState, Player};
use ttt_match::opening::get_position;

fn sample_state() -> MatchState {
    MatchState {
        start_player: Player::PlayerX,
        current_player: Player::PlayerX,
        player_x_score: 123,
        player_o_score: 321,
        tie_score: 42,
        board: vec![0, 1, 0, 2, 1, 0, 0, 1, 0],
    }
}

fn empty_state(start: Player) -> MatchState {
    MatchState {
        start_player: start,
        current_player: start,
        player_x_score: 0,
        player_o_score: 0,
        tie_score: 0,
        board: vec![0; 9],
    }
}

#[test]
fn write_game_state_from_json_file() {
    let state = sample_state();
    let bytes = serialize_state(&state);
    let read_state = state_from_bytes(&bytes).unwrap();
    assert_eq!(read_state, state);
}

#[test]
fn round_trip_preserves_all_fields() {
    let state = MatchState {
        start_player: Player::PlayerO,
        current_player: Player::PlayerX,
        player_x_score: 0,
        player_o_score: u64::MAX,
        tie_score: 1000000007,
        board: vec![2, 0, 1, 0, 2, 0, 1, 0, 0],
    };
    let bytes = serialize_state(&state);
    assert_eq!(state_from_bytes(&bytes), Some(state));
}

#[test]
fn serialized_form_is_canonical_json() {
    let bytes = serialize_state(&sample_state());
    let text = String::from_utf8(bytes).unwrap();
    assert_eq!(
        text,
        "{\"start_player\":\"PlayerX\",\"current_player\":\"PlayerX\",\
         \"player_x_score\":123,\"player_o_score\":321,\"tie_score\":42,\
         \"board\":[0,1,0,2,1,0,0,1,0]}"
    );
    let value: serde_json::Value = serde_json::from_str(&text).unwrap();
    assert_eq!(value["start_player"].as_str(), Some("PlayerX"));
    assert_eq!(value["current_player"].as_str(), Some("PlayerX"));
    assert_eq!(value["player_x_score"].as_u64(), Some(123));
    assert_eq!(value["player_o_score"].as_u64(), Some(321));
    assert_eq!(value["tie_score"].as_u64(), Some(42));
    assert_eq!(value["board"][3].as_u64(), Some(2));
    assert_eq!(value["board"][0].as_u64(), Some(0));
}

#[test]
fn deserialize_rejects_garbage() {
    assert_eq!(state_from_bytes(&b"nonsense".to_vec()), None);
    let mut truncated = serialize_state(&sample_state());
    truncated.pop();
    assert_eq!(state_from_bytes(&truncated), None);
    assert_eq!(state_from_bytes(&Vec::new()), None);
}

#[test]
fn deserialize_rejects_non_canonical_records() {
    // A leading zero on a counter is not the canonical rendering.
    let canonical = String::from_utf8(serialize_state(&sample_state())).unwrap();
    let padded = canonical.replace(":123,", ":0123,");
    assert_eq!(state_from_bytes(&padded.into_bytes()), None);
    // Trailing bytes after the record are refused.
    let mut extended = serialize_state(&sample_state());
    extended.push(b' ');
    assert_eq!(state_from_bytes(&extended), None);
}

#[test]
fn reconstruction_matches_direct_replay() {
    // The snapshot [2,1,0,0,1,0,0,2,0] with X starting replays as
    // X@(0,0), O@(0,1), X@(2,1), O@(1,1); afterwards X is to move.
    let mut state = empty_state(Player::PlayerX);
    state.board = vec![2, 1, 0, 0, 1, 0, 0, 2, 0];
    let mut reconstructed = Match::from_state(state.clone()).unwrap();
    reconstructed.evaluate_state();
    assert_eq!(reconstructed.state.current_player, Player::PlayerX);
    assert_eq!(reconstructed.state.player_x_score, 0);
    assert_eq!(reconstructed.state.player_o_score, 0);
    assert_eq!(reconstructed.state.tie_score, 0);
    assert_eq!(reconstructed.state.board, state.board);

    // A fresh match fed the same moves directly, in alternation order,
    // reaches the same snapshot and the same classification.
    let mut direct = Match::from_state(empty_state(Player::PlayerX)).unwrap();
    for (row, col) in [(0u8, 0u8), (0, 1), (2, 1), (1, 1)] {
        direct.do_move(row, col).unwrap();
        direct.evaluate_state();
    }
    assert_eq!(direct.state.board, reconstructed.state.board);
    assert_eq!(direct.state.current_player, reconstructed.state.current_player);
    assert_eq!(direct.current_classification(), reconstructed.current_classification());
}

#[test]
fn win_increments_exactly_one_score() {
    let mut state = empty_state(Player::PlayerX);
    state.board = vec![2, 2, 0, 1, 1, 0, 0, 0, 0];
    let mut m = Match::from_state(state).unwrap();
    m.do_move(0, 2).unwrap();
    m.evaluate_state();
    assert_eq!(m.state.player_x_score, 1);
    assert_eq!(m.state.player_o_score, 0);
    assert_eq!(m.state.tie_score, 0);
    assert_eq!(m.state.board, vec![0; 9]);
    assert_eq!(m.state.start_player, Player::PlayerO);
    assert_eq!(m.state.current_player, Player::PlayerO);
}

#[test]
fn o_win_increments_o_score() {
    let mut state = empty_state(Player::PlayerO);
    state.board = vec![1, 1, 0, 2, 2, 0, 0, 0, 0];
    let mut m = Match::from_state(state).unwrap();
    m.do_move(0, 2).unwrap();
    m.evaluate_state();
    assert_eq!(m.state.player_o_score, 1);
    assert_eq!(m.state.player_x_score, 0);
    assert_eq!(m.state.tie_score, 0);
    assert_eq!(m.state.start_player, Player::PlayerX);
}

#[test]
fn tie_increments_tie_score() {
    let mut state = empty_state(Player::PlayerX);
    state.board = vec![2, 1, 2, 2, 1, 1, 1, 2, 2];
    state.current_player = Player::PlayerO;
    let mut m = Match::from_state(state).unwrap();
    m.evaluate_state();
    assert_eq!(m.state.tie_score, 1);
    assert_eq!(m.state.player_x_score, 0);
    assert_eq!(m.state.player_o_score, 0);
    assert_eq!(m.state.board, vec![0; 9]);
    assert_eq!(m.state.start_player, Player::PlayerO);
}

#[test]
fn ongoing_game_only_refreshes_current_player() {
    let mut state = empty_state(Player::PlayerX);
    state.board = vec![2, 0, 0, 0, 0, 0, 0, 0, 0];
    state.current_player = Player::PlayerX;
    let mut m = Match::from_state(state).unwrap();
    m.evaluate_state();
    assert_eq!(m.state.current_player, Player::PlayerO);
    assert_eq!(m.state.player_x_score, 0);
    assert_eq!(m.state.board, vec![2, 0, 0, 0, 0, 0, 0, 0, 0]);
}

#[test]
fn prepare_next_game_alternates_start_player() {
    let mut m = Match::from_state(empty_state(Player::PlayerX)).unwrap();
    m.do_move(1, 1).unwrap();
    m.prepare_next_game();
    assert_eq!(m.state.start_player, Player::PlayerO);
    assert_eq!(m.state.current_player, Player::PlayerO);
    assert_eq!(m.state.board, vec![0; 9]);
    m.prepare_next_game();
    assert_eq!(m.state.start_player, Player::PlayerX);
    assert_eq!(m.state.current_player, Player::PlayerX);
}

#[test]
fn new_game_detection() {
    let mut m = Match::from_state(empty_state(Player::PlayerX)).unwrap();
    assert!(m.is_new_game());
    m.do_move(0, 0).unwrap();
    assert!(!m.is_new_game());
}

#[test]
fn opening_mapping_is_deterministic() {
    // "a1": a = 10, 1 = 1, sum 11, 11 % 9 = 2 -> row 0, column 2.
    assert_eq!(get_position("a1"), (0, 2));
    assert_eq!(get_position("a1"), get_position("a1"));
    assert_eq!(get_position(""), (0, 0));
    // "ff": 15 + 15 = 30, 30 % 9 = 3 -> row 1, column 0.
    assert_eq!(get_position("ff"), (1, 0));
    assert_eq!(get_position("AB"), get_position("ab"));
}

#[test]
fn invariant_violation_is_rejected() {
    let mut state = empty_state(Player::PlayerX);
    state.board = vec![2, 2, 2, 0, 0, 0, 0, 0, 0];
    assert_eq!(Match::from_state(state).err(), Some(MatchError::CorruptState));
    let mut lopsided = empty_state(Player::PlayerX);
    lopsided.board = vec![1, 1, 0, 0, 0, 0, 0, 0, 0];
    assert_eq!(Match::from_state(lopsided).err(), Some(MatchError::CorruptState));
    let mut bad_cell = empty_state(Player::PlayerX);
    bad_cell.board = vec![3, 0, 0, 0, 0, 0, 0, 0, 0];
    assert_eq!(Match::from_state(bad_cell).err(), Some(MatchError::CorruptState));
    let mut short = empty_state(Player::PlayerX);
    short.board = vec![0; 8];
    assert_eq!(Match::from_state(short).err(), Some(MatchError::CorruptState));
}

#[test]
fn move_on_finished_game_is_rejected() {
    let mut state = empty_state(Player::PlayerX);
    state.board = vec![2, 2, 2, 1, 1, 0, 0, 0, 0];
    let mut m = Match::from_state(state).unwrap();
    assert_eq!(m.do_move(2, 2), Err(MatchError::GameOver));
}

#[test]
fn move_by_wrong_player_is_rejected() {
    let mut state = empty_state(Player::PlayerX);
    state.current_player = Player::PlayerO;
    let mut m = Match::from_state(state).unwrap();
    assert_eq!(m.do_move(0, 0), Err(MatchError::TurnMismatch));
}

#[test]
fn move_on_occupied_cell_is_rejected() {
    let mut state = empty_state(Player::PlayerX);
    state.board = vec![2, 1, 0, 0, 0, 0, 0, 0, 0];
    let mut m = Match::from_state(state).unwrap();
    assert_eq!(m.do_move(0, 0), Err(MatchError::PositionOccupied));
}

#[test]
fn automated_turn_fills_exactly_one_cell() {
    let mut m = Match::from_state(empty_state(Player::PlayerX)).unwrap();
    let moved = m.ai_move().unwrap();
    assert!(moved);
    let marks: Vec<&u32> = m.state.board.iter().filter(|c| **c != 0).collect();
    assert_eq!(marks, vec![&2]);
    assert!(!m.is_new_game());
}

#[test]
fn automated_turn_declines_on_finished_game() {
    let mut state = empty_state(Player::PlayerX);
    state.board = vec![2, 1, 2, 2, 1, 1, 1, 2, 2];
    let mut m = Match::from_state(state.clone()).unwrap();
    let moved = m.ai_move().unwrap();
    assert!(!moved);
    assert_eq!(m.state.board, state.board);
}

#[test]
fn player_names_match_tags() {
    assert_eq!(Player::PlayerX.name(), "PlayerX");
    assert_eq!(Player::PlayerO.name(), "PlayerO");
    assert_eq!(Player::PlayerX.other(), Player::PlayerO);
    assert_eq!(Player::PlayerO.other(), Player::PlayerX);
}

#[test]
fn automated_turn_with_wrong_turn_errors() {
    let mut state = empty_state(Player::PlayerX);
    state.current_player = Player::PlayerO;
    let mut m = Match::from_state(state).unwrap();
    assert_eq!(m.ai_move(), Err(MatchError::TurnMismatch));
}

#[test]
fn markdown_report_shows_scores_and_turn() {
    let mut state = sample_state();
    state.board = vec![0; 9];
    let m = Match::from_state(state).unwrap();
    let report = String::from_utf8(m.markdown_report()).unwrap();
    let expected_head = ":x::o: Tic-Tac-Toe played indefinitely by github action runners! \
                         See [my workflow](.github/workflows/play.yaml).\n\n\
                         |PlayerX wins|PlayerO wins|Ties|\n|-|-|-|\n|123|321|42|\n\n\
                         PlayerX's turn.\n\n<pre>\n";
    assert!(report.starts_with(expected_head));
    assert!(report.ends_with("</pre>"));
}
