use minesweeper::field::{Field, RevealResult};
use minesweeper::rng::SeededSampler;
use minesweeper::state::State;

/// A 4x4 field, one mine, seeded so the mine falls on (3, 3).
fn single_mine_field() -> Field {
    for seed in 0..10_000u64 {
        let mut field = Field::new(4, 4, 1);
        let mut sampler = SeededSampler::new(seed);
        field.populate_with(None, &mut sampler);
        if field.get_cell(3, 3).has_mine {
            return field;
        }
    }
    panic!("no seed put the mine on (3, 3)");
}

#[test]
fn new_session_is_idle() {
    let session = State::new();
    assert_eq!(session.field().width(), 8);
    assert_eq!(session.field().height(), 8);
    assert_eq!(session.field().mine_count(), 10);
    assert!(!session.game_over());
    assert_eq!(session.timer(), 0);
    assert_eq!(session.mines_remaining(), 10);
}

#[test]
fn first_session_reveal_is_never_a_mine() {
    let mut session = State::new();
    let result = session.reveal_cell(0, 0);
    assert!(!matches!(result, RevealResult::Mine));
    assert!(!session.field().get_cell(0, 0).has_mine);
    assert!(!session.game_over());
}

#[test]
fn revealing_a_mine_stops_the_session() {
    let mut session = State::from_field(single_mine_field());
    assert!(!session.game_over());
    match session.reveal_cell(3, 3) {
        RevealResult::Mine => {}
        other => panic!("expected a detonation, got {:?}", other),
    }
    assert!(session.game_over());
    let frozen = session.timer();
    let again = session.timer();
    assert_eq!(frozen, again, "a stopped timer must not move");
}

#[test]
fn timer_is_monotone_while_running() {
    let mut session = State::from_field(single_mine_field());
    session.reveal_cell(0, 0);
    assert!(!session.game_over());
    let t1 = session.timer();
    let t2 = session.timer();
    let t3 = session.timer();
    assert!(t1 <= t2 && t2 <= t3);
}

#[test]
fn flags_do_not_start_the_timer() {
    let mut session = State::new();
    session.toggle_flag(2, 2);
    assert_eq!(session.timer(), 0);
    assert!(!session.game_over());
}

#[test]
fn mines_remaining_follows_flags_and_goes_negative() {
    let mut session = State::from_field(single_mine_field());
    assert_eq!(session.mines_remaining(), 1);
    session.toggle_flag(0, 0);
    assert_eq!(session.mines_remaining(), 0);
    session.toggle_flag(0, 1);
    session.toggle_flag(0, 2);
    assert_eq!(session.mines_remaining(), -2);
    session.toggle_flag(0, 2);
    assert_eq!(session.mines_remaining(), -1);
}

#[test]
fn session_toggle_refuses_revealed_cells() {
    let mut session = State::from_field(single_mine_field());
    match session.reveal_cell(0, 0) {
        RevealResult::Success(_) => {}
        other => panic!("expected a reveal, got {:?}", other),
    }
    session.toggle_flag(0, 0);
    assert!(!session.field().get_cell(0, 0).flagged);
    assert_eq!(session.field().flagged_cells(), 0);
}

#[test]
fn stopped_session_keeps_its_time_through_further_calls() {
    let mut session = State::from_field(single_mine_field());
    session.reveal_cell(3, 3);
    assert!(session.game_over());
    let frozen = session.timer();
    session.toggle_flag(0, 0);
    session.reveal_cell(0, 0);
    assert_eq!(session.timer(), frozen);
    assert!(session.game_over());
}
