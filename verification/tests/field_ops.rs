use minesweeper::field::{Field, RevealResult, ToggleFlagResult};
use minesweeper::rng::SeededSampler;

fn count_mines(field: &Field) -> u32 {
    let mut mines = 0;
    for x in 0..field.width() {
        for y in 0..field.height() {
            if field.get_cell(x, y).has_mine {
                mines += 1;
            }
        }
    }
    mines
}

fn count_flags(field: &Field) -> u32 {
    let mut flags = 0;
    for x in 0..field.width() {
        for y in 0..field.height() {
            if field.get_cell(x, y).flagged {
                flags += 1;
            }
        }
    }
    flags
}

fn neighbor_mines(field: &Field, x: u8, y: u8) -> u8 {
    let mut count = 0;
    for dx in -1i32..=1 {
        for dy in -1i32..=1 {
            if dx == 0 && dy == 0 {
                continue;
            }
            let nx = x as i32 + dx;
            let ny = y as i32 + dy;
            if nx >= 0 && ny >= 0 && nx < field.width() as i32 && ny < field.height() as i32 {
                if field.get_cell(nx as u8, ny as u8).has_mine {
                    count += 1;
                }
            }
        }
    }
    count
}

/// A 4x4 field, one mine, seeded so the mine falls on (3, 3).
fn single_mine_at_3_3() -> Field {
    for seed in 0..10_000u64 {
        let mut field = Field::new(4, 4, 1);
        let mut sampler = SeededSampler::new(seed);
        field.populate_with(None, &mut sampler);
        if field.get_cell(3, 3).has_mine {
            return field;
        }
    }
    panic!("no seed put the mine on (3, 3)");
}

#[test]
fn new_field_is_blank() {
    let field = Field::new(8, 8, 10);
    assert_eq!(field.width(), 8);
    assert_eq!(field.height(), 8);
    assert_eq!(field.mine_count(), 10);
    assert_eq!(field.flagged_cells(), 0);
    for x in 0..8 {
        for y in 0..8 {
            let cell = field.get_cell(x, y);
            assert!(!cell.has_mine);
            assert!(!cell.revealed);
            assert!(!cell.flagged);
            assert_eq!(cell.neighboring_mines, 0);
        }
    }
}

#[test]
fn largest_field_builds() {
    let field = Field::new(255, 255, 100);
    assert_eq!(field.width(), 255);
    assert_eq!(field.height(), 255);
}

#[test]
fn populated_field_has_exact_mine_total() {
    let field = Field::new_populated(8, 8, 10);
    assert_eq!(count_mines(&field), 10);
}

#[test]
fn seeded_population_has_exact_mine_total() {
    let mut field = Field::new(16, 9, 40);
    let mut sampler = SeededSampler::new(7);
    field.populate_with(None, &mut sampler);
    assert_eq!(count_mines(&field), 40);
}

#[test]
fn seeded_population_is_reproducible() {
    let mut a = Field::new(8, 8, 10);
    let mut b = Field::new(8, 8, 10);
    let mut sa = SeededSampler::new(42);
    let mut sb = SeededSampler::new(42);
    a.populate_with(None, &mut sa);
    b.populate_with(None, &mut sb);
    for x in 0..8 {
        for y in 0..8 {
            assert_eq!(a.get_cell(x, y).has_mine, b.get_cell(x, y).has_mine);
        }
    }
}

#[test]
fn neighbor_counts_are_exact() {
    let mut field = Field::new(8, 8, 10);
    let mut sampler = SeededSampler::new(3);
    field.populate_with(None, &mut sampler);
    for x in 0..8 {
        for y in 0..8 {
            assert_eq!(
                field.get_cell(x, y).neighboring_mines,
                neighbor_mines(&field, x, y),
                "wrong count at ({}, {})",
                x,
                y
            );
        }
    }
}

#[test]
fn neighbor_counts_around_single_mine() {
    let field = single_mine_at_3_3();
    // The corner mine at (3, 3) touches exactly three cells.
    assert_eq!(field.get_cell(2, 2).neighboring_mines, 1);
    assert_eq!(field.get_cell(3, 2).neighboring_mines, 1);
    assert_eq!(field.get_cell(2, 3).neighboring_mines, 1);
    assert_eq!(field.get_cell(0, 0).neighboring_mines, 0);
    assert_eq!(field.get_cell(1, 2).neighboring_mines, 0);
    assert_eq!(field.get_cell(3, 3).neighboring_mines, 0);
}

#[test]
fn numbered_cell_reveals_only_itself() {
    let mut field = single_mine_at_3_3();
    match field.reveal_cell(2, 2) {
        RevealResult::Success(revealed) => assert_eq!(revealed, vec![(2, 2)]),
        other => panic!("expected a single revealed cell, got {:?}", other),
    }
    assert!(field.get_cell(2, 2).revealed);
    assert!(!field.get_cell(1, 1).revealed);
}

#[test]
fn population_avoids_safe_cell() {
    let mut field = Field::new(8, 8, 10);
    let mut sampler = SeededSampler::new(11);
    field.populate_with(Some((3, 3)), &mut sampler);
    assert!(!field.get_cell(3, 3).has_mine);
    assert_eq!(count_mines(&field), 10);
}

#[test]
fn first_reveal_is_never_a_mine() {
    let mut field = Field::new(8, 8, 10);
    let result = field.reveal_cell(0, 0);
    assert!(!field.get_cell(0, 0).has_mine);
    assert!(matches!(result, RevealResult::Success(_)));
    assert!(field.get_cell(0, 0).revealed);
}

#[test]
fn full_capacity_mines_leave_only_the_safe_cell() {
    // 2x2 with 3 mines: every cell but the first click holds a mine.
    let mut field = Field::new(2, 2, 3);
    let result = field.reveal_cell(1, 1);
    assert!(!field.get_cell(1, 1).has_mine);
    assert_eq!(count_mines(&field), 3);
    match result {
        RevealResult::Success(revealed) => assert_eq!(revealed, vec![(1, 1)]),
        other => panic!("expected a single revealed cell, got {:?}", other),
    }
}

#[test]
fn zero_mine_field_cascades_everywhere() {
    let mut field = Field::new_populated(8, 8, 0);
    let result = field.reveal_cell(5, 2);
    match result {
        RevealResult::Success(mut revealed) => {
            assert_eq!(revealed.len(), 64);
            revealed.sort();
            revealed.dedup();
            assert_eq!(revealed.len(), 64, "a coordinate was revealed twice");
        }
        other => panic!("expected a full cascade, got {:?}", other),
    }
    for x in 0..8 {
        for y in 0..8 {
            assert!(field.get_cell(x, y).revealed);
        }
    }
}

#[test]
fn one_by_one_field_reveals_its_only_cell() {
    let mut field = Field::new_populated(1, 1, 0);
    match field.reveal_cell(0, 0) {
        RevealResult::Success(revealed) => assert_eq!(revealed, vec![(0, 0)]),
        other => panic!("expected one revealed cell, got {:?}", other),
    }
}

#[test]
fn cascade_stops_at_the_mine_border() {
    let mut field = single_mine_at_3_3();
    let result = field.reveal_cell(0, 0);
    match result {
        RevealResult::Success(revealed) => {
            // Everything but the mine is one connected zero region plus its
            // border of counted cells.
            assert_eq!(revealed.len(), 15);
            assert!(!revealed.contains(&(3, 3)));
        }
        other => panic!("expected a cascade, got {:?}", other),
    }
    assert!(!field.get_cell(3, 3).revealed);
    for x in 0..4 {
        for y in 0..4 {
            if (x, y) != (3, 3) {
                assert!(field.get_cell(x, y).revealed);
            }
        }
    }
}

#[test]
fn cascade_never_reveals_a_mine() {
    let mut field = Field::new(16, 16, 30);
    let mut sampler = SeededSampler::new(1234);
    field.populate_with(Some((0, 0)), &mut sampler);
    match field.reveal_cell(0, 0) {
        RevealResult::Success(revealed) => {
            for (x, y) in revealed {
                assert!(!field.get_cell(x, y).has_mine);
            }
        }
        RevealResult::Nothing => panic!("the safe cell was revealable"),
        RevealResult::Mine => panic!("the safe cell held a mine"),
    }
}

#[test]
fn revealing_a_mine_detonates() {
    let mut field = single_mine_at_3_3();
    match field.reveal_cell(3, 3) {
        RevealResult::Mine => {}
        other => panic!("expected a detonation, got {:?}", other),
    }
    assert!(field.get_cell(3, 3).revealed);
}

#[test]
fn second_reveal_does_nothing() {
    let mut field = single_mine_at_3_3();
    match field.reveal_cell(0, 0) {
        RevealResult::Success(_) => {}
        other => panic!("expected a reveal, got {:?}", other),
    }
    let before: Vec<(bool, bool, bool, u8)> = (0..4)
        .flat_map(|x| (0..4).map(move |y| (x, y)))
        .map(|(x, y)| {
            let c = field.get_cell(x, y);
            (c.has_mine, c.revealed, c.flagged, c.neighboring_mines)
        })
        .collect();
    match field.reveal_cell(0, 0) {
        RevealResult::Nothing => {}
        other => panic!("expected nothing on the second reveal, got {:?}", other),
    }
    let after: Vec<(bool, bool, bool, u8)> = (0..4)
        .flat_map(|x| (0..4).map(move |y| (x, y)))
        .map(|(x, y)| {
            let c = field.get_cell(x, y);
            (c.has_mine, c.revealed, c.flagged, c.neighboring_mines)
        })
        .collect();
    assert_eq!(before, after);
}

#[test]
fn reveal_on_flagged_cell_does_nothing() {
    let mut field = single_mine_at_3_3();
    assert!(matches!(field.toggle_flag(0, 0), ToggleFlagResult::Flagged));
    assert!(matches!(field.reveal_cell(0, 0), RevealResult::Nothing));
    assert!(!field.get_cell(0, 0).revealed);
    assert!(field.get_cell(0, 0).flagged);
}

#[test]
fn toggle_on_revealed_cell_does_nothing() {
    let mut field = single_mine_at_3_3();
    assert!(matches!(field.reveal_cell(0, 0), RevealResult::Success(_)));
    let flags_before = field.flagged_cells();
    assert!(matches!(field.toggle_flag(0, 0), ToggleFlagResult::Nothing));
    assert_eq!(field.flagged_cells(), flags_before);
    assert!(!field.get_cell(0, 0).flagged);
}

#[test]
fn flag_counter_tracks_toggles() {
    let mut field = Field::new(4, 4, 3);
    assert!(matches!(field.toggle_flag(0, 0), ToggleFlagResult::Flagged));
    assert!(matches!(field.toggle_flag(1, 2), ToggleFlagResult::Flagged));
    assert!(matches!(field.toggle_flag(3, 3), ToggleFlagResult::Flagged));
    assert_eq!(field.flagged_cells(), 3);
    assert_eq!(count_flags(&field), 3);
    assert!(matches!(field.toggle_flag(1, 2), ToggleFlagResult::Unflagged));
    assert_eq!(field.flagged_cells(), 2);
    assert_eq!(count_flags(&field), 2);
    assert!(matches!(field.toggle_flag(1, 2), ToggleFlagResult::Flagged));
    assert!(matches!(field.toggle_flag(0, 0), ToggleFlagResult::Unflagged));
    assert_eq!(field.flagged_cells(), 2);
    assert_eq!(count_flags(&field), 2);
}

#[test]
fn flags_survive_lazy_population() {
    let mut field = Field::new(8, 8, 10);
    field.toggle_flag(7, 7);
    let result = field.reveal_cell(0, 0);
    assert!(matches!(result, RevealResult::Success(_)));
    assert!(field.get_cell(7, 7).flagged);
    assert_eq!(field.flagged_cells(), 1);
}
