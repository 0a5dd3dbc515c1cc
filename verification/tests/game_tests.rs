use filler::game::{State, ROUND_LIMIT};
use filler::bot::{Greedy, Player};

fn first_valid(s: &State) -> u8 {
    s.valid_moves()[0]
}

#[test]
fn generate_seed_zero_has_corner_territories() {
    let s = State::generate(0);
    assert!(s.player1.get(0, 0));
    assert!(s.player2.get(15, 15));
    for k in 0..8 {
        assert!(!s.colors[k].get(0, 0));
        assert!(!s.colors[k].get(15, 15));
    }
    assert!(!s.walls.get(0, 0));
    assert!(!s.walls.get(15, 15));
    assert_eq!(s.round, 0);
    assert!(s.player1_next());
    assert_eq!(s.player1_last_move, None);
    assert_eq!(s.player2_last_move, None);
    assert_eq!(s.seed, 0);
}

#[test]
fn generate_is_deterministic() {
    let a = State::generate(123);
    let b = State::generate(123);
    assert_eq!(a, b);
}

#[test]
fn generated_boards_pass_the_validity_check() {
    for seed in 0..8u64 {
        let s = State::generate(seed);
        assert!(s.is_valid());
        // the partition covers the whole grid
        let mut union = s.walls.or(s.player1).or(s.player2);
        for k in 0..8 {
            union = union.or(s.colors[k]);
        }
        assert!(union.is_full());
    }
}

#[test]
fn play_grows_the_mover_and_records_the_move() {
    let mut s = State::generate(0);
    let before = s;
    let color = first_valid(&s);
    s.play(color);
    assert_eq!(s.round, 1);
    assert_eq!(s.player1_last_move, Some(color));
    assert_eq!(s.player2_last_move, None);
    assert_eq!(s.player2, before.player2);
    // monotonic capture: nothing is ever removed from a territory
    assert_eq!(s.player1.and(before.player1), before.player1);
    assert!(!s.player1_next());
}

#[test]
fn play_alternates_turns_and_last_moves() {
    let mut s = State::generate(3);
    assert!(s.player1_next());
    let c1 = first_valid(&s);
    s.play(c1);
    assert!(!s.player1_next());
    let before = s;
    let c2 = first_valid(&s);
    s.play(c2);
    assert!(s.player1_next());
    // exactly one last-move field changed
    assert_eq!(s.player1_last_move, before.player1_last_move);
    assert_eq!(s.player2_last_move, Some(c2));
    assert_ne!(before.player2_last_move, Some(c2));
}

#[test]
fn valid_moves_excludes_both_last_moves() {
    let mut s = State::generate(0);
    assert_eq!(s.valid_moves().len(), 8);
    let c1 = first_valid(&s);
    s.play(c1);
    let moves = s.valid_moves();
    assert_eq!(moves.len(), 7);
    assert!(!moves.contains(&c1));
    let c2 = moves[0];
    s.play(c2);
    let moves = s.valid_moves();
    assert_eq!(moves.len(), 6);
    assert!(!moves.contains(&c1));
    assert!(!moves.contains(&c2));
}

#[test]
fn checkpoint_restore_is_identity_without_moves() {
    let mut s = State::generate(9);
    let before = s;
    let cp = s.checkpoint();
    s.restore(cp);
    assert_eq!(s, before);
}

#[test]
fn checkpoint_restore_undoes_a_sequence_of_moves() {
    let mut s = State::generate(4);
    // advance into the midgame first
    for _ in 0..4 {
        if s.game_over() {
            break;
        }
        let c = first_valid(&s);
        s.play(c);
    }
    let before = s;
    let cp = s.checkpoint();
    let mut played = 0;
    while played < 3 && !s.game_over() {
        let c = first_valid(&s);
        s.play(c);
        played += 1;
    }
    s.restore(cp);
    assert_eq!(s, before);
}

#[test]
fn games_terminate_within_the_round_limit() {
    for seed in 0..4u64 {
        let mut s = State::generate(seed);
        let mut p1 = Greedy;
        let mut p2 = Greedy;
        let mut guard = 0u32;
        while !s.game_over() {
            let color = if s.player1_next() {
                p1.play(&s)
            } else {
                p2.play(&s)
            };
            s.play(color);
            guard += 1;
            assert!(guard <= ROUND_LIMIT);
        }
        assert!(s.round <= ROUND_LIMIT);
        assert!(s.is_valid());
    }
}

#[test]
fn final_margin_matches_finalized_counts() {
    let mut s = State::generate(1);
    let mut p = Greedy;
    while !s.game_over() {
        let color = p.play(&s);
        s.play(color);
    }
    let margin = s.final_margin();
    let mut t = s;
    t.finalize();
    // territory only grows on finalize
    assert_eq!(t.player1.and(s.player1), s.player1);
    assert_eq!(t.player2.and(s.player2), s.player2);
    assert_eq!(
        margin,
        t.player1.count_ones() as i32 - t.player2.count_ones() as i32
    );
}

#[test]
fn separated_positions_are_over_before_the_limit() {
    // after a full greedy game ends by separation, the two reachable sets
    // are disjoint
    let mut s = State::generate(2);
    let mut p = Greedy;
    while !s.game_over() {
        let color = p.play(&s);
        s.play(color);
    }
    if s.round < ROUND_LIMIT {
        let accessible = s.player1.or(s.player2).or(s.walls).not();
        let r1 = s.player1.bfs(accessible);
        let r2 = s.player2.bfs(accessible);
        assert!(r1.and(r2).is_empty());
    }
}

#[test]
fn is_valid_rejects_overlapping_territories() {
    let mut s = State::generate(0);
    assert!(s.is_valid());
    s.player1 = s.player1.or(s.player2);
    assert!(!s.is_valid());
}

#[test]
fn is_valid_rejects_inconsistent_bookkeeping() {
    let mut s = State::generate(0);
    s.round = 5;
    assert!(!s.is_valid());
    let mut s = State::generate(0);
    s.player1_last_move = Some(3);
    assert!(!s.is_valid());
}

#[test]
fn is_valid_rejects_a_territory_on_a_wall() {
    let mut s = State::generate(0);
    // walls are never empty: the generator reserves a wall budget
    assert!(s.walls.count_ones() >= 32);
    s.player1 = s.player1.or(s.walls);
    assert!(!s.is_valid());
}
