//! The search engine: negamax with alpha-beta pruning over the game state,
//! parameterized by depth and a leaf evaluator, plus the evaluators and the
//! player strategies built on it.

use vstd::prelude::*;

use crate::game::State;
use crate::game::accessible_spec;
use crate::game::checkpoint_spec;
use crate::game::game_over_spec;
use crate::game::margin_spec;
use crate::game::play_spec;
use crate::game::valid_move;
use crate::game::lemma_descends_refl;
use crate::game::lemma_play_descends;
use crate::game::lemma_restore_exact;
use crate::mask::m_empty;
use crate::mask::mcount;
use crate::mask::closer_rec;
use crate::mask::flood;
use crate::mask::lemma_mcount_bound;

verus! {

/// The base score of a finished game in the search: any terminal value
/// outweighs any heuristic leaf value.
pub const INFINITY: i32 = 1_000_000_000;

/// The window passed to top-level search calls; it strictly brackets every
/// reachable search value, so those calls return exact values.
pub const TOP_WINDOW: i32 = 2_000_000_000;

/// A stateless score for a non-terminal position, from player 1's
/// perspective: positive is good for player 1.
pub trait Eval {
    /// The value this evaluator assigns to a state.
    spec fn eval_spec(&self, s: State) -> int;

    /// A bound on the magnitude of `eval_spec`.
    spec fn eval_bound(&self) -> int;

    /// The bound is a bound, and it is non-negative.
    proof fn lemma_eval_bounded(&self, s: State)
        ensures
            0 <= self.eval_bound(),
            -self.eval_bound() <= self.eval_spec(s) <= self.eval_bound(),
    ;

    /// Score a state.
    fn eval(&self, state: &State) -> (r: i32)
        requires
            self.eval_bound() <= INFINITY,
        ensures
            r as int == self.eval_spec(*state),
    ;
}

/// Captured-cell difference: |player 1's territory| - |player 2's|.
#[derive(Default, Clone, Copy, Debug)]
pub struct Captured;

impl Eval for Captured {
    open spec fn eval_spec(&self, s: State) -> int {
        mcount(s.player1) - mcount(s.player2)
    }

    open spec fn eval_bound(&self) -> int {
        256
    }

    proof fn lemma_eval_bounded(&self, s: State) {
        lemma_mcount_bound(s.player1);
        lemma_mcount_bound(s.player2);
    }

    fn eval(&self, state: &State) -> (r: i32) {
        proof {
            lemma_mcount_bound(state.player1);
            lemma_mcount_bound(state.player2);
        }
        state.player1.count_ones() as i32 - state.player2.count_ones() as i32
    }
}

/// Reachable-cell difference: each territory flood-filled across the
/// neutral space, an estimate of eventual reachable space.
#[derive(Default, Clone, Copy, Debug)]
pub struct Accessible;

impl Eval for Accessible {
    open spec fn eval_spec(&self, s: State) -> int {
        mcount(flood(s.player1, accessible_spec(s))) - mcount(flood(s.player2, accessible_spec(s)))
    }

    open spec fn eval_bound(&self) -> int {
        256
    }

    proof fn lemma_eval_bounded(&self, s: State) {
        lemma_mcount_bound(flood(s.player1, accessible_spec(s)));
        lemma_mcount_bound(flood(s.player2, accessible_spec(s)));
    }

    fn eval(&self, state: &State) -> (r: i32) {
        let accessible = state.player1.or(state.player2).or(state.walls).not();
        let player1_accessible = state.player1.bfs(accessible);
        let player2_accessible = state.player2.bfs(accessible);
        proof {
            lemma_mcount_bound(player1_accessible);
            lemma_mcount_bound(player2_accessible);
        }
        player1_accessible.count_ones() as i32 - player2_accessible.count_ones() as i32
    }
}

/// Two-source race difference: the cells strictly closer to player 1
/// minus those strictly closer to player 2, a territory estimate that
/// accounts for race dynamics rather than raw reachability.
#[derive(Default, Clone, Copy, Debug)]
pub struct Closer;

impl Eval for Closer {
    open spec fn eval_spec(&self, s: State) -> int {
        mcount(closer_rec(s.player1, s.player2, m_empty(), accessible_spec(s)).0) - mcount(
            closer_rec(s.player1, s.player2, m_empty(), accessible_spec(s)).2,
        )
    }

    open spec fn eval_bound(&self) -> int {
        256
    }

    proof fn lemma_eval_bounded(&self, s: State) {
        lemma_mcount_bound(closer_rec(s.player1, s.player2, m_empty(), accessible_spec(s)).0);
        lemma_mcount_bound(closer_rec(s.player1, s.player2, m_empty(), accessible_spec(s)).2);
    }

    fn eval(&self, state: &State) -> (r: i32) {
        let accessible = state.player1.or(state.player2).or(state.walls).not();
        let (player1_closer, _contested, player2_closer) = state.player1.closer(
            state.player2,
            accessible,
        );
        proof {
            lemma_mcount_bound(player1_closer);
            lemma_mcount_bound(player2_closer);
        }
        player1_closer.count_ones() as i32 - player2_closer.count_ones() as i32
    }
}

/// Lexicographic pairing: the first evaluator scaled by 256 plus the
/// second. Correct ordering relies on the second component's magnitude
/// staying well under half the scale factor; nesting pairs multiplies the
/// bound by 256 each time, and `eval` demands the total stays under
/// `INFINITY` — the documented limit of this packing.
#[derive(Default, Clone, Copy, Debug)]
pub struct Lex<A, B>(pub A, pub B);

impl<A: Eval, B: Eval> Eval for Lex<A, B> {
    open spec fn eval_spec(&self, s: State) -> int {
        256 * self.0.eval_spec(s) + self.1.eval_spec(s)
    }

    open spec fn eval_bound(&self) -> int {
        256 * self.0.eval_bound() + self.1.eval_bound()
    }

    proof fn lemma_eval_bounded(&self, s: State) {
        self.0.lemma_eval_bounded(s);
        self.1.lemma_eval_bounded(s);
    }

    fn eval(&self, state: &State) -> (r: i32) {
        proof {
            self.0.lemma_eval_bounded(*state);
            self.1.lemma_eval_bounded(*state);
        }
        256 * self.0.eval(state) + self.1.eval(state)
    }
}

/// The floor used for the running maximum before any move is scored; it
/// lies strictly below every reachable search value.
pub const VALUE_FLOOR: i32 = -2_147_483_648;

/// Every search value at remaining depth `d` lies within this cap.
pub open spec fn value_cap(depth: nat) -> int {
    INFINITY + 256 + depth
}

/// The full-width negamax value of `s` at the given depth, times `sign`
/// (`sign` is +1 exactly when the mover is player 1, so the value is from
/// the mover's perspective at internal nodes). Terminal positions score
/// `INFINITY` plus the final margin plus the remaining depth, so earlier
/// endings outrank later ones; depth-zero leaves score by the evaluator.
pub open spec fn nm_spec<E: Eval>(eval: &E, s: State, depth: nat, sign: int) -> int
    decreases depth, 10int,
{
    if game_over_spec(s) {
        sign * (INFINITY + margin_spec(s) + depth)
    } else if depth == 0 {
        sign * eval.eval_spec(s)
    } else {
        nm_moves_spec(eval, s, depth, sign, 0)
    }
}

/// The maximum of `-nm_spec(play(s, cc), depth - 1, -sign)` over the valid
/// moves `cc >= c`, or `VALUE_FLOOR` if there is none.
pub open spec fn nm_moves_spec<E: Eval>(eval: &E, s: State, depth: nat, sign: int, c: int) -> int
    decreases depth, 9int - c,
    when 1 <= depth && 0 <= c <= 8
{
    if c >= 8 {
        VALUE_FLOOR as int
    } else {
        let rest = nm_moves_spec(eval, s, depth, sign, c + 1);
        if valid_move(s, c as u8) {
            let v = -nm_spec(eval, play_spec(s, c as u8), (depth - 1) as nat, -sign);
            if v >= rest {
                v
            } else {
                rest
            }
        } else {
            rest
        }
    }
}

/// Among colors 0, 1 and 2 at least one is a valid move: the exclusion
/// rule rules out at most two colors.
proof fn lemma_some_valid_move(s: State)
    ensures
        valid_move(s, 0) || valid_move(s, 1) || valid_move(s, 2),
{
}

proof fn lemma_nm_moves_bound<E: Eval>(eval: &E, s: State, depth: nat, sign: int, c: int)
    requires
        sign == 1 || sign == -1,
        eval.eval_bound() <= INFINITY,
        1 <= depth <= 1000,
        0 <= c <= 8,
    ensures
        nm_moves_spec(eval, s, depth, sign, c) == VALUE_FLOOR as int || -value_cap(
            (depth - 1) as nat,
        ) <= nm_moves_spec(eval, s, depth, sign, c) <= value_cap((depth - 1) as nat),
        (exists|cc: int| c <= cc < 8 && valid_move(s, (#[trigger] (cc as u8))))
            ==> nm_moves_spec(eval, s, depth, sign, c) != VALUE_FLOOR as int,
    decreases depth, 9int - c,
{
    if c < 8 {
        lemma_nm_moves_bound(eval, s, depth, sign, c + 1);
        if valid_move(s, c as u8) {
            lemma_nm_bound(eval, play_spec(s, c as u8), (depth - 1) as nat, -sign);
        }
        if exists|cc: int| c <= cc < 8 && valid_move(s, (#[trigger] (cc as u8))) {
            let cc = choose|cc: int| c <= cc < 8 && valid_move(s, (#[trigger] (cc as u8)));
            if cc > c {
                assert(exists|cc2: int|
                    c + 1 <= cc2 < 8 && valid_move(s, (#[trigger] (cc2 as u8))));
            }
        }
    }
}

/// Every negamax value at depth `d` lies within `value_cap(d)`.
pub proof fn lemma_nm_bound<E: Eval>(eval: &E, s: State, depth: nat, sign: int)
    requires
        sign == 1 || sign == -1,
        eval.eval_bound() <= INFINITY,
        depth <= 1000,
    ensures
        -value_cap(depth) <= nm_spec(eval, s, depth, sign) <= value_cap(depth),
    decreases depth, 10int,
{
    if game_over_spec(s) {
        lemma_mcount_bound(flood(s.player1, accessible_spec(s)));
        lemma_mcount_bound(flood(s.player2, accessible_spec(s)));
    } else if depth == 0 {
        eval.lemma_eval_bounded(s);
    } else {
        lemma_nm_moves_bound(eval, s, depth, sign, 0);
        lemma_some_valid_move(s);
        if valid_move(s, 0) {
            assert(valid_move(s, (0int as u8)));
        } else if valid_move(s, 1) {
            assert(valid_move(s, (1int as u8)));
        } else {
            assert(valid_move(s, (2int as u8)));
        }
    }
}

/// Skipping a stretch of invalid moves does not change the running max.
proof fn lemma_nm_moves_skip<E: Eval>(eval: &E, s: State, depth: nat, sign: int, lo: int, hi: int)
    requires
        1 <= depth,
        0 <= lo <= hi <= 8,
        forall|cc: int| lo <= cc < hi ==> !valid_move(s, (#[trigger] (cc as u8))),
    ensures
        nm_moves_spec(eval, s, depth, sign, lo) == nm_moves_spec(eval, s, depth, sign, hi),
    decreases hi - lo,
{
    if lo < hi {
        assert(!valid_move(s, (lo as u8)));
        lemma_nm_moves_skip(eval, s, depth, sign, lo + 1, hi);
    }
}

/// The running max from `lo` dominates the value of any valid move at or
/// after `lo`.
proof fn lemma_nm_moves_ge<E: Eval>(eval: &E, s: State, depth: nat, sign: int, lo: int, c: int)
    requires
        1 <= depth,
        0 <= lo <= c < 8,
        valid_move(s, c as u8),
    ensures
        nm_moves_spec(eval, s, depth, sign, lo) >= -nm_spec(
            eval,
            play_spec(s, c as u8),
            (depth - 1) as nat,
            -sign,
        ),
    decreases c - lo,
{
    if lo < c {
        lemma_nm_moves_ge(eval, s, depth, sign, lo + 1, c);
    }
}

/// Negamax with alpha-beta pruning over `state`, fail-soft: the result is
/// exact whenever it lies strictly inside the (alpha, beta) window, an
/// upper bound on the true value when it is at most alpha, and a lower
/// bound when it is at least beta. `state` is explored by play/restore
/// cycles and handed back exactly as it came.
#[verifier::loop_isolation(false)]
pub fn negamax<E: Eval>(
    state: &mut State,
    eval: &E,
    depth: u32,
    alpha: i32,
    beta: i32,
    sign: i32,
) -> (r: i32)
    requires
        old(state).inv(),
        eval.eval_bound() <= INFINITY,
        depth <= 1000,
        sign as int == (if old(state).round % 2 == 0 { 1int } else { -1int }),
        -TOP_WINDOW <= alpha < beta <= TOP_WINDOW,
    ensures
        *final(state) == *old(state),
        -value_cap(depth as nat) <= r as int <= value_cap(depth as nat),
        r < beta ==> nm_spec(eval, *old(state), depth as nat, sign as int) <= r as int,
        r > alpha ==> nm_spec(eval, *old(state), depth as nat, sign as int) >= r as int,
        alpha < r < beta ==> r as int == nm_spec(eval, *old(state), depth as nat, sign as int),
    decreases depth,
{
    if state.game_over() {
        let m = state.final_margin();
        return sign * (INFINITY + m + depth as i32);
    }
    if depth == 0 {
        proof {
            eval.lemma_eval_bounded(*state);
        }
        return sign * eval.eval(state);
    }
    let moves = state.valid_moves();
    let checkpoint = state.checkpoint();
    let ghost s0 = *state;
    let ghost d = depth as nat;
    let ghost v0 = nm_spec(eval, s0, d, sign as int);
    proof {
        assert(v0 == nm_moves_spec(eval, s0, d, sign as int, 0));
    }
    let mut max_value = VALUE_FLOOR;
    let mut alpha_cur = alpha;
    let mut t: usize = 0;
    let ghost mut cur: int = 0;
    while t < moves.len() && alpha_cur < beta
        invariant
            *state == s0,
            checkpoint == checkpoint_spec(s0),
            0 <= cur <= 8,
            t <= moves@.len(),
            forall|tt: int| 0 <= tt < t ==> moves@[tt] < cur,
            forall|tt: int| t <= tt < moves@.len() ==> cur <= moves@[tt],
            alpha_cur as int == (if max_value as int > alpha as int {
                max_value as int
            } else {
                alpha as int
            }),
            t == 0 ==> max_value == VALUE_FLOOR,
            t > 0 ==> VALUE_FLOOR < max_value as int && -value_cap((d - 1) as nat) <= max_value
                as int <= value_cap((d - 1) as nat),
            (max_value as int) < (beta as int) ==> v0 <= (if max_value as int >= nm_moves_spec(
                eval,
                s0,
                d,
                sign as int,
                cur,
            ) {
                max_value as int
            } else {
                nm_moves_spec(eval, s0, d, sign as int, cur)
            }),
            (max_value as int) > (alpha as int) ==> v0 >= max_value as int,
        decreases moves@.len() - t,
    {
        let color = moves[t];
        proof {
            assert(valid_move(s0, color));
            assert forall|cc: int| cur <= cc < color as int implies !valid_move(
                s0,
                (#[trigger] (cc as u8)),
            ) by {
                if valid_move(s0, cc as u8) {
                    assert(moves@.contains(cc as u8));
                    let tt = choose|tt: int| 0 <= tt < moves@.len() && moves@[tt] == cc as u8;
                    if tt < t as int {
                        assert(moves@[tt] < cur);
                    } else if tt > t as int {
                        assert(moves@[t as int] < moves@[tt]);
                    }
                }
            }
            lemma_nm_moves_skip(eval, s0, d, sign as int, cur, color as int);
            cur = color as int;
        }
        let ghost pre_max = max_value;
        let ghost pre_alpha = alpha_cur;
        state.play(color);
        proof {
            assert((state.round % 2 == 0) == !(s0.round % 2 == 0));
        }
        let value_raw = negamax(state, eval, depth - 1, -beta, -alpha_cur, -sign);
        let value = -value_raw;
        state.restore(checkpoint);
        proof {
            lemma_descends_refl(s0);
            lemma_play_descends(s0, s0, color);
            lemma_restore_exact(play_spec(s0, color), s0);
            let child = play_spec(s0, color);
            let vc = -nm_spec(eval, child, (d - 1) as nat, -(sign as int));
            let rest = nm_moves_spec(eval, s0, d, sign as int, color as int + 1);
            assert((color as int) as u8 == color);
            assert(nm_moves_spec(eval, s0, d, sign as int, color as int) == (if vc >= rest {
                vc
            } else {
                rest
            }));
            let new_max: int = if (value as int) > (pre_max as int) {
                value as int
            } else {
                pre_max as int
            };
            if new_max < beta as int {
                assert((value as int) < (beta as int));
                assert(value_raw as int > -(beta as int));
                assert(vc <= value as int);
            }
            if new_max > alpha as int && new_max != pre_max as int {
                assert(new_max == value as int);
                if (value as int) > (pre_alpha as int) {
                    assert(value_raw < -pre_alpha);
                    assert(vc >= value as int);
                    lemma_nm_moves_ge(eval, s0, d, sign as int, 0, color as int);
                }
            }
            cur = color as int + 1;
        }
        if value > max_value {
            max_value = value;
        }
        if value > alpha_cur {
            alpha_cur = value;
        }
        t = t + 1;
    }
    proof {
        if t == moves@.len() && alpha_cur < beta {
            assert forall|cc: int| cur <= cc < 8 implies !valid_move(
                s0,
                (#[trigger] (cc as u8)),
            ) by {
                if valid_move(s0, cc as u8) {
                    assert(moves@.contains(cc as u8));
                    let tt = choose|tt: int| 0 <= tt < moves@.len() && moves@[tt] == cc as u8;
                    assert(moves@[tt] < cur);
                }
            }
            lemma_nm_moves_skip(eval, s0, d, sign as int, cur, 8);
            assert(moves@.len() >= 1);
        } else {
            assert(alpha_cur >= beta);
            assert((max_value as int) > (alpha as int));
        }
    }
    max_value
}

/// A move-choosing strategy.
pub trait Player {
    /// The strategy's own well-formedness condition; `play` demands it.
    spec fn wf(&self) -> bool;

    /// Choose a color among the valid moves of a non-terminal state. The
    /// state handed in is never modified (strategies work on copies).
    fn play(&mut self, state: &State) -> (r: u8)
        requires
            old(self).wf(),
            state.inv(),
            !game_over_spec(*state),
        ensures
            valid_move(*state, r),
            final(self).wf(),
    ;
}

/// The capture count the mover ends up with after choosing `c`.
pub open spec fn greedy_key(s: State, c: u8) -> int {
    if s.round % 2 == 0 {
        mcount(play_spec(s, c).player1)
    } else {
        mcount(play_spec(s, c).player2)
    }
}

/// The score the mover's own capture count gives move `c`.
fn greedy_score(state: &State, c: u8) -> (k: u32)
    requires
        state.inv(),
        !game_over_spec(*state),
        valid_move(*state, c),
    ensures
        k as int == greedy_key(*state, c),
{
    let mut probe = *state;
    probe.play(c);
    if probe.player1_next() {
        probe.player2.count_ones()
    } else {
        probe.player1.count_ones()
    }
}

/// The one-ply greedy baseline: among the valid moves, pick the one that
/// maximizes the mover's own resulting territory count, first seen on a
/// tie, ignoring the opponent's response.
pub struct Greedy;

impl Player for Greedy {
    open spec fn wf(&self) -> bool {
        true
    }

    #[verifier::loop_isolation(false)]
    fn play(&mut self, state: &State) -> (r: u8)
        ensures
            forall|c: u8|
                valid_move(*state, c) ==> greedy_key(*state, r) >= greedy_key(*state, c),
            forall|c: u8|
                valid_move(*state, c) && greedy_key(*state, c) == greedy_key(*state, r) ==> r <= c,
    {
        let moves = state.valid_moves();
        let mut best: u8 = moves[0];
        let mut best_key = greedy_score(state, best);
        let mut t: usize = 1;
        while t < moves.len()
            invariant
                1 <= t <= moves@.len(),
                valid_move(*state, best),
                best_key as int == greedy_key(*state, best),
                exists|tt0: int| 0 <= tt0 < t && moves@[tt0] == best,
                forall|tt: int|
                    0 <= tt < t ==> greedy_key(*state, best) >= greedy_key(
                        *state,
                        #[trigger] moves@[tt],
                    ),
                forall|tt: int|
                    0 <= tt < t && greedy_key(*state, #[trigger] moves@[tt]) == greedy_key(
                        *state,
                        best,
                    ) ==> best <= moves@[tt],
            decreases moves@.len() - t,
        {
            let c = moves[t];
            let k = greedy_score(state, c);
            if k > best_key {
                best = c;
                best_key = k;
            }
            t = t + 1;
        }
        proof {
            assert forall|c: u8| valid_move(*state, c) implies greedy_key(*state, best)
                >= greedy_key(*state, c) by {
                assert(moves@.contains(c));
                let tt = choose|tt: int| 0 <= tt < moves@.len() && moves@[tt] == c;
                assert(greedy_key(*state, best) >= greedy_key(*state, moves@[tt]));
            }
            assert forall|c: u8|
                valid_move(*state, c) && greedy_key(*state, c) == greedy_key(
                    *state,
                    best,
                ) implies best <= c by {
                assert(moves@.contains(c));
                let tt = choose|tt: int| 0 <= tt < moves@.len() && moves@[tt] == c;
                assert(best <= moves@[tt]);
            }
        }
        best
    }
}

/// The value move `color` earns for the mover of `s` under a full-width
/// search of the given depth below it.
pub open spec fn search_value<E: Eval>(eval: &E, s: State, depth: nat, color: u8) -> int {
    -nm_spec(
        eval,
        play_spec(s, color),
        depth,
        if s.round % 2 == 0 {
            -1int
        } else {
            1int
        },
    )
}

/// A search-backed strategy: evaluate every valid move by a depth-bounded
/// negamax with leaf evaluator `E`, and keep the first maximum.
#[derive(Default, Clone, Copy, Debug)]
pub struct Negamax<E>(pub E, pub u32);

impl<E: Eval> Player for Negamax<E> {
    open spec fn wf(&self) -> bool {
        self.0.eval_bound() <= INFINITY && self.1 <= 1000
    }

    #[verifier::loop_isolation(false)]
    fn play(&mut self, state: &State) -> (r: u8)
        ensures
            forall|c: u8|
                valid_move(*state, c) ==> search_value(&old(self).0, *state, old(self).1 as nat, r)
                    >= search_value(&old(self).0, *state, old(self).1 as nat, c),
            forall|c: u8|
                valid_move(*state, c) && search_value(&old(self).0, *state, old(self).1 as nat, c)
                    == search_value(&old(self).0, *state, old(self).1 as nat, r) ==> r <= c,
    {
        let moves = state.valid_moves();
        let mut scratch = *state;
        let checkpoint = scratch.checkpoint();
        let sign: i32 = if scratch.player1_next() {
            1
        } else {
            -1
        };
        let ghost s0 = *state;
        let ghost d = old(self).1 as nat;
        let mut best: u8 = 0;
        let mut best_value: i32 = VALUE_FLOOR;
        let mut t: usize = 0;
        while t < moves.len()
            invariant
                *state == s0,
                scratch == s0,
                s0.inv(),
                !game_over_spec(s0),
                checkpoint == checkpoint_spec(s0),
                old(self).0.eval_bound() <= INFINITY,
                old(self).1 <= 1000,
                sign as int == (if s0.round % 2 == 0 { 1int } else { -1int }),
                t <= moves@.len(),
                t > 0 ==> valid_move(s0, best),
                t > 0 ==> best_value as int == search_value(&old(self).0, s0, d, best),
                t > 0 ==> exists|tt0: int| 0 <= tt0 < t && moves@[tt0] == best,
                forall|tt: int|
                    0 <= tt < t ==> (t > 0 && search_value(&old(self).0, s0, d, best) >= search_value(
                        &old(self).0,
                        s0,
                        d,
                        #[trigger] moves@[tt],
                    )),
                forall|tt: int|
                    0 <= tt < t && search_value(&old(self).0, s0, d, #[trigger] moves@[tt])
                        == search_value(&old(self).0, s0, d, best) ==> (t > 0 && best <= moves@[tt]),
            decreases moves@.len() - t,
        {
            let color = moves[t];
            scratch.play(color);
            let value_raw = negamax(&mut scratch, &self.0, self.1, -TOP_WINDOW, TOP_WINDOW, -sign);
            let value = -value_raw;
            scratch.restore(checkpoint);
            proof {
                lemma_descends_refl(s0);
                lemma_play_descends(s0, s0, color);
                lemma_restore_exact(play_spec(s0, color), s0);
                let child = play_spec(s0, color);
                lemma_nm_bound(&old(self).0, child, d, -(sign as int));
                assert(value_raw as int == nm_spec(&old(self).0, child, d, -(sign as int)));
                assert(value as int == search_value(&old(self).0, s0, d, color));
            }
            if t == 0 || value > best_value {
                best = color;
                best_value = value;
            }
            t = t + 1;
        }
        proof {
            assert(moves@.len() >= 1);
            assert forall|c: u8| valid_move(s0, c) implies search_value(&old(self).0, s0, d, best)
                >= search_value(&old(self).0, s0, d, c) by {
                assert(moves@.contains(c));
                let tt = choose|tt: int| 0 <= tt < moves@.len() && moves@[tt] == c;
                assert(search_value(&old(self).0, s0, d, best) >= search_value(
                    &old(self).0,
                    s0,
                    d,
                    moves@[tt],
                ));
            }
            assert forall|c: u8|
                valid_move(s0, c) && search_value(&old(self).0, s0, d, c) == search_value(
                    &old(self).0,
                    s0,
                    d,
                    best,
                ) implies best <= c by {
                assert(moves@.contains(c));
                let tt = choose|tt: int| 0 <= tt < moves@.len() && moves@[tt] == c;
                assert(best <= moves@[tt]);
            }
        }
        best
    }
}

} // verus!
