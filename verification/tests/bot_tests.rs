use filler::bot::{negamax, Accessible, Captured, Closer, Eval, Greedy, Lex, Negamax, Player, INFINITY, TOP_WINDOW};
use filler::game::State;

/// Reference search: full-width negamax with no pruning at all.
fn full_width(state: &mut State, eval: &impl Eval, depth: u32, sign: i32) -> i32 {
    if state.game_over() {
        return sign * (INFINITY + state.final_margin() + depth as i32);
    }
    if depth == 0 {
        return sign * eval.eval(state);
    }
    let checkpoint = state.checkpoint();
    let mut best = i32::MIN;
    for color in state.valid_moves() {
        state.play(color);
        let value = -full_width(state, eval, depth - 1, -sign);
        state.restore(checkpoint);
        if value > best {
            best = value;
        }
    }
    best
}

fn midgame(seed: u64, moves: u32) -> State {
    let mut s = State::generate(seed);
    let mut p = Greedy;
    for _ in 0..moves {
        if s.game_over() {
            break;
        }
        let c = p.play(&s);
        s.play(c);
    }
    s
}

#[test]
fn captured_counts_territory_difference() {
    let s = State::generate(0);
    assert_eq!(Captured.eval(&s), 0);
    let mut s = s;
    let c = s.valid_moves()[0];
    s.play(c);
    assert_eq!(
        Captured.eval(&s),
        s.player1.count_ones() as i32 - s.player2.count_ones() as i32
    );
}

#[test]
fn accessible_matches_a_hand_rolled_flood() {
    let s = midgame(5, 3);
    let accessible = s.player1.or(s.player2).or(s.walls).not();
    let expected = s.player1.bfs(accessible).count_ones() as i32
        - s.player2.bfs(accessible).count_ones() as i32;
    assert_eq!(Accessible.eval(&s), expected);
}

#[test]
fn closer_matches_a_hand_rolled_race() {
    let s = midgame(6, 4);
    let accessible = s.player1.or(s.player2).or(s.walls).not();
    let (mine, _contested, theirs) = s.player1.closer(s.player2, accessible);
    let expected = mine.count_ones() as i32 - theirs.count_ones() as i32;
    assert_eq!(Closer.eval(&s), expected);
}

#[test]
fn lex_packs_components_lexicographically() {
    let s = midgame(7, 2);
    let pair = Lex(Closer, Captured);
    assert_eq!(pair.eval(&s), 256 * Closer.eval(&s) + Captured.eval(&s));
    let triple = Lex(Lex(Closer, Accessible), Captured);
    assert_eq!(
        triple.eval(&s),
        65536 * Closer.eval(&s) + 256 * Accessible.eval(&s) + Captured.eval(&s)
    );
}

#[test]
fn negamax_at_depth_zero_is_the_evaluator() {
    let mut s = State::generate(0);
    let v = negamax(&mut s, &Captured, 0, -TOP_WINDOW, TOP_WINDOW, 1);
    assert_eq!(v, Captured.eval(&s));
}

#[test]
fn negamax_on_a_finished_game_scores_the_margin() {
    let mut s = State::generate(1);
    let mut p = Greedy;
    while !s.game_over() {
        let c = p.play(&s);
        s.play(c);
    }
    let sign: i32 = if s.player1_next() { 1 } else { -1 };
    let margin = s.final_margin();
    let v = negamax(&mut s, &Captured, 3, -TOP_WINDOW, TOP_WINDOW, sign);
    assert_eq!(v, sign * (INFINITY + margin + 3));
}

#[test]
fn pruned_search_equals_full_width_search() {
    for seed in 0..3u64 {
        for plies in [0u32, 2, 5] {
            let mut s = midgame(seed, plies);
            if s.game_over() {
                continue;
            }
            let sign: i32 = if s.player1_next() { 1 } else { -1 };
            for depth in 0..3u32 {
                let before = s;
                let pruned = negamax(&mut s, &Captured, depth, -TOP_WINDOW, TOP_WINDOW, sign);
                assert_eq!(s, before);
                let unpruned = full_width(&mut s, &Captured, depth, sign);
                assert_eq!(pruned, unpruned);
            }
        }
    }
}

#[test]
fn negamax_leaves_the_state_untouched() {
    let mut s = midgame(2, 1);
    let before = s;
    let sign: i32 = if s.player1_next() { 1 } else { -1 };
    negamax(&mut s, &Lex(Closer, Captured), 2, -TOP_WINDOW, TOP_WINDOW, sign);
    assert_eq!(s, before);
}

#[test]
fn greedy_picks_the_largest_immediate_capture() {
    let s = State::generate(0);
    let mut g = Greedy;
    let picked = g.play(&s);
    let moves = s.valid_moves();
    assert!(moves.contains(&picked));
    let key = |c: u8| {
        let mut t = s;
        t.play(c);
        t.player1.count_ones()
    };
    for &c in &moves {
        assert!(key(picked) >= key(c));
    }
}

#[test]
fn search_player_picks_the_argmax_of_child_values() {
    let s = midgame(3, 2);
    assert!(!s.game_over());
    let mut player = Negamax(Captured, 1);
    let picked = player.play(&s);
    let moves = s.valid_moves();
    assert!(moves.contains(&picked));
    let sign: i32 = if s.player1_next() { 1 } else { -1 };
    let value = |c: u8| {
        let mut t = s;
        t.play(c);
        -full_width(&mut t, &Captured, 1, -sign)
    };
    for &c in &moves {
        assert!(value(picked) >= value(c));
    }
}

#[test]
fn search_players_finish_a_game() {
    let mut s = State::generate(8);
    let mut p1 = Negamax(Lex(Closer, Captured), 1);
    let mut p2 = Negamax(Accessible, 1);
    while !s.game_over() {
        let color = if s.player1_next() {
            p1.play(&s)
        } else {
            p2.play(&s)
        };
        s.play(color);
    }
    assert!(s.is_valid());
    let _ = s.final_margin();
}
