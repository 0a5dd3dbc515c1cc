//! The game state machine: the board partition, whose turn it is, capture
//! by confined flood fill, termination and final scoring, and the O(1)
//! checkpoint/restore undo pair.

use vstd::prelude::*;

use crate::mask::Mask;
use crate::mask::m_and;
use crate::mask::m_andn;
use crate::mask::m_empty;
use crate::mask::m_full;
use crate::mask::m_not;
use crate::mask::m_onehot;
use crate::mask::m_or;
use crate::mask::mcount;
use crate::mask::in_grid;
use crate::mask::flood;
use crate::mask::lemma_flood_exists;
use crate::mask::lemma_mask_ext;
use crate::mask::lemma_mcount_bound;
use crate::mask::lemma_and_empty_iff_disjoint;
use crate::mask::group_mask_cells;
use crate::rng::Pcg64;
use crate::rng::pcg_from_seed;
use crate::rng::pcg_range;
use crate::rng::pcg_shuffle;

verus! {

broadcast use group_mask_cells;

/// Number of moves after which a game ends regardless of position.
pub const ROUND_LIMIT: u32 = 100;

/// The authoritative game position.
///
/// `colors` and `walls` are fixed at generation; `play` only ever grows the
/// two territories, which is what makes the union checkpoint exact.
#[derive(Clone, Copy, PartialEq, Eq, Debug)]
pub struct State {
    /// The eight color regions, fixed at generation time.
    pub colors: [Mask; 8],
    /// Permanently unclaimable cells.
    pub walls: Mask,
    /// Cells captured by player 1; holds the corner (0, 0).
    pub player1: Mask,
    /// Cells captured by player 2; holds the corner (15, 15).
    pub player2: Mask,
    /// The color player 1 chose last, if player 1 has moved.
    pub player1_last_move: Option<u8>,
    /// The color player 2 chose last, if player 2 has moved.
    pub player2_last_move: Option<u8>,
    /// Number of moves played so far; even means player 1 moves next.
    pub round: u32,
    /// The generation seed, kept for provenance only.
    pub seed: u64,
}

/// A lightweight snapshot for O(1) backtracking: the union of both
/// territories plus the scalar move bookkeeping. Not a full state copy.
#[derive(Clone, Copy, PartialEq, Eq, Debug)]
pub struct Checkpoint {
    /// The union of both players' territories at capture time.
    pub players: Mask,
    /// Player 1's last move at capture time.
    pub player1_last_move: Option<u8>,
    /// Player 2's last move at capture time.
    pub player2_last_move: Option<u8>,
    /// The round at capture time.
    pub round: u32,
}

/// The two starting cells: opposite corners of the grid.
pub open spec fn corners() -> Mask {
    m_or(m_onehot(0, 0), m_onehot(15, 15))
}

/// Cell (i, j) lies in one of the eight color regions.
pub open spec fn in_some_color(s: State, i: int, j: int) -> bool {
    exists|k: int| 0 <= k < 8 && (#[trigger] s.colors[k]).has(i, j)
}

impl State {
    /// The immutable generation partition: the corners, the eight color
    /// regions and the walls are pairwise disjoint and cover the grid.
    pub open spec fn gen_inv(self) -> bool {
        &&& forall|a: int, b: int|
            0 <= a < b < 8 ==> (#[trigger] self.colors[a]).disjoint_from(#[trigger] self.colors[b])
        &&& forall|k: int| 0 <= k < 8 ==> corners().disjoint_from(#[trigger] self.colors[k])
        &&& forall|k: int| 0 <= k < 8 ==> self.walls.disjoint_from(#[trigger] self.colors[k])
        &&& self.walls.disjoint_from(corners())
        &&& forall|i: int, j: int|
            in_grid(i, j) ==> corners().has(i, j) || in_some_color(self, i, j)
                || #[trigger] self.walls.has(i, j)
    }

    /// The mutable part of the invariant: each player holds its corner, and
    /// the territories avoid each other and the walls.
    pub open spec fn players_inv(self) -> bool {
        &&& self.player1.has(0, 0)
        &&& self.player2.has(15, 15)
        &&& self.player1.disjoint_from(self.player2)
        &&& self.player1.disjoint_from(self.walls)
        &&& self.player2.disjoint_from(self.walls)
    }

    /// Move bookkeeping: a player has a last move exactly once it has
    /// moved, recorded moves index a color, and the round is capped.
    pub open spec fn turn_inv(self) -> bool {
        &&& self.round <= ROUND_LIMIT
        &&& self.player1_last_move.is_some() == (self.round >= 1)
        &&& self.player2_last_move.is_some() == (self.round >= 2)
        &&& match self.player1_last_move {
            Some(c) => c < 8,
            None => true,
        }
        &&& match self.player2_last_move {
            Some(c) => c < 8,
            None => true,
        }
    }

    /// The state invariant: every state reachable from `generate` by legal
    /// plays, checkpoints and restores satisfies it.
    pub open spec fn inv(self) -> bool {
        self.gen_inv() && self.players_inv() && self.turn_inv()
    }
}

/// Partition coverage: in every state satisfying the invariant, the eight
/// color regions, the walls and the two territories together cover the
/// whole grid, and walls and territories are pairwise disjoint. A captured
/// cell stays in its color region's mask, so a region may intersect a
/// territory once (part of) it has been captured.
pub proof fn lemma_grid_covered(s: State)
    requires
        s.inv(),
    ensures
        forall|i: int, j: int|
            in_grid(i, j) ==> s.player1.has(i, j) || s.player2.has(i, j) || #[trigger] s.walls.has(
                i,
                j,
            ) || in_some_color(s, i, j),
{
    assert forall|i: int, j: int| in_grid(i, j) implies s.player1.has(i, j) || s.player2.has(i, j)
        || #[trigger] s.walls.has(i, j) || in_some_color(s, i, j) by {
        if corners().has(i, j) {
            if m_onehot(0, 0).has(i, j) {
                assert(i == 0 && j == 0);
            } else {
                assert(i == 15 && j == 15);
            }
        }
    }
}

/// The neutral space: cells held by nobody and not walls.
pub open spec fn accessible_spec(s: State) -> Mask {
    m_not(m_or(m_or(s.player1, s.player2), s.walls))
}

/// The final score, player 1's perspective: cells reachable by player 1
/// minus cells reachable by player 2 across the neutral space.
pub open spec fn margin_spec(s: State) -> int {
    mcount(flood(s.player1, accessible_spec(s))) - mcount(flood(s.player2, accessible_spec(s)))
}

/// The game is over at the round ceiling, or when the cells reachable by
/// the two players across the neutral space no longer intersect.
pub open spec fn game_over_spec(s: State) -> bool {
    ||| s.round == ROUND_LIMIT
    ||| flood(s.player1, accessible_spec(s)).disjoint_from(flood(s.player2, accessible_spec(s)))
}

/// `color` indexes a region and is neither player's most recent choice.
pub open spec fn valid_move(s: State, color: u8) -> bool {
    &&& color < 8
    &&& s.player1_last_move != Some(color)
    &&& s.player2_last_move != Some(color)
}

/// The state after the mover flood-fills into region `color`, confined to
/// the region minus the opponent's territory.
pub open spec fn play_spec(s: State, color: u8) -> State {
    if s.round % 2 == 0 {
        State {
            player1: flood(s.player1, m_andn(s.colors[color as int], s.player2)),
            player1_last_move: Some(color),
            round: (s.round + 1) as u32,
            ..s
        }
    } else {
        State {
            player2: flood(s.player2, m_andn(s.colors[color as int], s.player1)),
            player2_last_move: Some(color),
            round: (s.round + 1) as u32,
            ..s
        }
    }
}

/// What `checkpoint` records.
pub open spec fn checkpoint_spec(s: State) -> Checkpoint {
    Checkpoint {
        players: m_or(s.player1, s.player2),
        player1_last_move: s.player1_last_move,
        player2_last_move: s.player2_last_move,
        round: s.round,
    }
}

/// What `restore` computes: each territory is cut back to the recorded
/// union, and the scalar bookkeeping is restored verbatim.
pub open spec fn restore_spec(s: State, cp: Checkpoint) -> State {
    State {
        player1: m_and(s.player1, cp.players),
        player2: m_and(s.player2, cp.players),
        player1_last_move: cp.player1_last_move,
        player2_last_move: cp.player2_last_move,
        round: cp.round,
        ..s
    }
}

/// `s` was reached from `s0` by plays alone: board fixed, territories only
/// grown, and grown only into cells neither player held in `s0`.
pub open spec fn descends(s: State, s0: State) -> bool {
    &&& s.colors == s0.colors
    &&& s.walls == s0.walls
    &&& s.seed == s0.seed
    &&& s0.player1.subset_of(s.player1)
    &&& s0.player2.subset_of(s.player2)
    &&& forall|i: int, j: int|
        #[trigger] s.player1.has(i, j) && !s0.player1.has(i, j) ==> !s0.player2.has(i, j)
    &&& forall|i: int, j: int|
        #[trigger] s.player2.has(i, j) && !s0.player2.has(i, j) ==> !s0.player1.has(i, j)
}

/// Checkpoint/restore round trip: restoring the checkpoint of `s0` on any
/// state that descends from `s0` — by zero or more plays — gives back
/// exactly `s0`. With `s == s0` this is the immediate round trip.
pub proof fn lemma_restore_exact(s: State, s0: State)
    requires
        descends(s, s0),
    ensures
        restore_spec(s, checkpoint_spec(s0)) == s0,
{
    let cp = checkpoint_spec(s0);
    assert forall|i: int, j: int|
        #[trigger] m_and(s.player1, cp.players).has(i, j) == s0.player1.has(i, j) by {
        if s0.player1.has(i, j) {
            assert(s.player1.has(i, j));
        }
    }
    lemma_mask_ext(m_and(s.player1, cp.players), s0.player1);
    assert forall|i: int, j: int|
        #[trigger] m_and(s.player2, cp.players).has(i, j) == s0.player2.has(i, j) by {
        if s0.player2.has(i, j) {
            assert(s.player2.has(i, j));
        }
    }
    lemma_mask_ext(m_and(s.player2, cp.players), s0.player2);
}

/// The state after playing a whole sequence of colors, first element
/// first.
pub open spec fn play_seq(s: State, moves: Seq<u8>) -> State
    decreases moves.len(),
{
    if moves.len() == 0 {
        s
    } else {
        play_seq(play_spec(s, moves[0]), moves.skip(1))
    }
}

proof fn lemma_play_seq_descends(s: State, s0: State, moves: Seq<u8>)
    requires
        descends(s, s0),
    ensures
        descends(play_seq(s, moves), s0),
    decreases moves.len(),
{
    if moves.len() > 0 {
        lemma_play_descends(s, s0, moves[0]);
        lemma_play_seq_descends(play_spec(s, moves[0]), s0, moves.skip(1));
    }
}

/// Checkpoint/restore round trip over whole games: take a checkpoint,
/// play any sequence of moves, restore — the state is back exactly as it
/// was, bit for bit. With the empty sequence this is the immediate round
/// trip.
pub proof fn lemma_checkpoint_round_trip(s0: State, moves: Seq<u8>)
    ensures
        restore_spec(play_seq(s0, moves), checkpoint_spec(s0)) == s0,
{
    lemma_descends_refl(s0);
    lemma_play_seq_descends(s0, s0, moves);
    lemma_restore_exact(play_seq(s0, moves), s0);
}

/// Restoring a checkpoint of an invariant-satisfying ancestor restores the
/// invariant with it.
pub proof fn lemma_restore_preserves_inv(s: State, s0: State)
    requires
        descends(s, s0),
        s0.inv(),
    ensures
        restore_spec(s, checkpoint_spec(s0)).inv(),
{
    lemma_restore_exact(s, s0);
}

/// Every state descends from itself.
pub proof fn lemma_descends_refl(s: State)
    ensures
        descends(s, s),
{
}

/// Monotonic capture: a play never removes a cell from either territory,
/// and it extends the mover's territory only into the chosen region,
/// avoiding the opponent.
pub proof fn lemma_monotonic_capture(s: State, color: u8)
    ensures
        s.player1.subset_of(play_spec(s, color).player1),
        s.player2.subset_of(play_spec(s, color).player2),
        s.round % 2 == 0 ==> forall|i: int, j: int|
            #[trigger] play_spec(s, color).player1.has(i, j) ==> s.player1.has(i, j) || (
            s.colors[color as int].has(i, j) && !s.player2.has(i, j)),
        s.round % 2 != 0 ==> forall|i: int, j: int|
            #[trigger] play_spec(s, color).player2.has(i, j) ==> s.player2.has(i, j) || (
            s.colors[color as int].has(i, j) && !s.player1.has(i, j)),
{
    if s.round % 2 == 0 {
        let acc = m_andn(s.colors[color as int], s.player2);
        lemma_flood_exists(s.player1, acc);
        assert forall|i: int, j: int| #[trigger] play_spec(s, color).player1.has(i, j)
            implies s.player1.has(i, j) || (s.colors[color as int].has(i, j) && !s.player2.has(
            i,
            j,
        )) by {
            assert(m_or(s.player1, acc).has(i, j));
        }
    } else {
        let acc = m_andn(s.colors[color as int], s.player1);
        lemma_flood_exists(s.player2, acc);
        assert forall|i: int, j: int| #[trigger] play_spec(s, color).player2.has(i, j)
            implies s.player2.has(i, j) || (s.colors[color as int].has(i, j) && !s.player1.has(
            i,
            j,
        )) by {
            assert(m_or(s.player2, acc).has(i, j));
        }
    }
}

/// A play from any state descending from `s0` still descends from `s0`:
/// capture grows territories only outward, never into `s0`'s cells.
pub proof fn lemma_play_descends(s: State, s0: State, color: u8)
    requires
        descends(s, s0),
    ensures
        descends(play_spec(s, color), s0),
{
    lemma_monotonic_capture(s, color);
    let s1 = play_spec(s, color);
    assert forall|i: int, j: int| #[trigger] s1.player1.has(i, j) && !s0.player1.has(i, j)
        implies !s0.player2.has(i, j) by {
        if s.player1.has(i, j) {
        } else {
            assert(!s.player2.has(i, j));
            assert(s0.player2.subset_of(s.player2));
            if s0.player2.has(i, j) {
                assert(s.player2.has(i, j));
            }
        }
    }
    assert forall|i: int, j: int| #[trigger] s1.player2.has(i, j) && !s0.player2.has(i, j)
        implies !s0.player1.has(i, j) by {
        if s.player2.has(i, j) {
        } else {
            assert(!s.player1.has(i, j));
            if s0.player1.has(i, j) {
                assert(s.player1.has(i, j));
            }
        }
    }
}

/// Turn alternation: a play advances the round by one and changes exactly
/// one last-move field — the mover's, determined by round parity.
pub proof fn lemma_turn_alternation(s: State, color: u8)
    requires
        valid_move(s, color),
        s.round < ROUND_LIMIT,
    ensures
        play_spec(s, color).round == s.round + 1,
        s.round % 2 == 0 ==> play_spec(s, color).player1_last_move == Some(color) && play_spec(
            s,
            color,
        ).player2_last_move == s.player2_last_move && play_spec(s, color).player1_last_move
            != s.player1_last_move,
        s.round % 2 != 0 ==> play_spec(s, color).player2_last_move == Some(color) && play_spec(
            s,
            color,
        ).player1_last_move == s.player1_last_move && play_spec(s, color).player2_last_move
            != s.player2_last_move,
{
}

/// The generation partition depends only on the board: it transfers to any
/// state with the same colors and walls.
pub proof fn lemma_gen_inv_same_board(s: State, s1: State)
    requires
        s.gen_inv(),
        s1.colors == s.colors,
        s1.walls == s.walls,
    ensures
        s1.gen_inv(),
{
    assert forall|k: int| 0 <= k < 8 implies #[trigger] s1.colors[k] == s.colors[k] by {
        assert(s1.colors@ == s.colors@);
    }
    assert forall|a: int, b: int| 0 <= a < b < 8 implies (#[trigger] s1.colors[a]).disjoint_from(
        #[trigger] s1.colors[b],
    ) by {
        assert(s1.colors[a] == s.colors[a] && s1.colors[b] == s.colors[b]);
    }
    assert forall|k: int| 0 <= k < 8 implies corners().disjoint_from(#[trigger] s1.colors[k])
        && s1.walls.disjoint_from(s1.colors[k]) by {
        assert(s1.colors[k] == s.colors[k]);
    }
    assert forall|i: int, j: int| in_grid(i, j) implies corners().has(i, j) || in_some_color(
        s1,
        i,
        j,
    ) || #[trigger] s1.walls.has(i, j) by {
        if !corners().has(i, j) && !s.walls.has(i, j) {
            let k = choose|k: int| 0 <= k < 8 && (#[trigger] s.colors[k]).has(i, j);
            assert(s1.colors[k] == s.colors[k]);
            assert((s1.colors[k]).has(i, j));
        }
    }
}
/// Partition invariant: a legal play preserves the state invariant, so it
/// holds of every reachable state.
pub proof fn lemma_play_preserves_inv(s: State, color: u8)
    requires
        s.inv(),
        valid_move(s, color),
        s.round < ROUND_LIMIT,
    ensures
        play_spec(s, color).inv(),
{
    lemma_monotonic_capture(s, color);
    let s1 = play_spec(s, color);
    lemma_gen_inv_same_board(s, s1);
    assert(s.walls.disjoint_from(s.colors[color as int]));
    assert(s1.colors[color as int] == s.colors[color as int]) by {
        assert(s1.colors@ == s.colors@);
    }
    if s.round % 2 == 0 {
        assert forall|i: int, j: int| #[trigger] s1.player1.has(i, j)
            implies !s1.player2.has(i, j) && !s1.walls.has(i, j) by {
            if s.player1.has(i, j) {
            } else {
                assert(s.colors[color as int].has(i, j) && !s.player2.has(i, j));
                if s.walls.has(i, j) {
                    assert(!s.colors[color as int].has(i, j));
                }
            }
        }
        assert forall|i: int, j: int| #[trigger] s1.player2.has(i, j)
            implies !s1.player1.has(i, j) by {
            if s1.player1.has(i, j) {
                assert(!s1.player2.has(i, j));
            }
        }
        assert(s1.player1.has(0, 0)) by {
            assert(s.player1.subset_of(s1.player1));
        }
    } else {
        assert forall|i: int, j: int| #[trigger] s1.player2.has(i, j)
            implies !s1.player1.has(i, j) && !s1.walls.has(i, j) by {
            if s.player2.has(i, j) {
            } else {
                assert(s.colors[color as int].has(i, j) && !s.player1.has(i, j));
                if s.walls.has(i, j) {
                    assert(!s.colors[color as int].has(i, j));
                }
            }
        }
        assert forall|i: int, j: int| #[trigger] s1.player1.has(i, j)
            implies !s1.player2.has(i, j) by {
            if s1.player2.has(i, j) {
                assert(!s1.player1.has(i, j));
            }
        }
    }
}

impl State {
    /// True iff player 1 moves next: the round count is even.
    pub fn player1_next(&self) -> (r: bool)
        ensures
            r == (self.round % 2 == 0),
    {
        self.round % 2 == 0
    }

    /// Record the minimal snapshot needed to undo any number of plays.
    pub fn checkpoint(&self) -> (cp: Checkpoint)
        ensures
            cp == checkpoint_spec(*self),
    {
        Checkpoint {
            players: self.player1.or(self.player2),
            player1_last_move: self.player1_last_move,
            player2_last_move: self.player2_last_move,
            round: self.round,
        }
    }

    /// Undo back to a checkpoint: each territory is intersected with the
    /// recorded union — which removes exactly the cells captured since, as
    /// capture is monotonic — and the bookkeeping is restored verbatim.
    pub fn restore(&mut self, checkpoint: Checkpoint)
        ensures
            *final(self) == restore_spec(*old(self), checkpoint),
    {
        self.player1 = self.player1.and(checkpoint.players);
        self.player2 = self.player2.and(checkpoint.players);
        self.player1_last_move = checkpoint.player1_last_move;
        self.player2_last_move = checkpoint.player2_last_move;
        self.round = checkpoint.round;
    }

    /// True when the round ceiling is reached, or when no neutral cell is
    /// reachable by both players, so no move can change the final split.
    pub fn game_over(&self) -> (r: bool)
        ensures
            r == game_over_spec(*self),
    {
        if self.round == ROUND_LIMIT {
            return true;
        }
        let accessible = self.player1.or(self.player2).or(self.walls).not();
        let player1_accessible = self.player1.bfs(accessible);
        let player2_accessible = self.player2.bfs(accessible);
        let r = player1_accessible.and(player2_accessible).is_empty();
        proof {
            lemma_and_empty_iff_disjoint(player1_accessible, player2_accessible);
        }
        r
    }

    /// The final score: cells reachable by player 1 minus cells reachable
    /// by player 2, each flood-filled across all non-wall, non-opponent
    /// cells. Meaningful only on a finished game.
    pub fn final_margin(&self) -> (r: i32)
        requires
            game_over_spec(*self),
        ensures
            r == margin_spec(*self),
            -256 <= r <= 256,
    {
        let accessible = self.player1.or(self.player2).or(self.walls).not();
        let player1 = self.player1.bfs(accessible);
        let player2 = self.player2.bfs(accessible);
        proof {
            lemma_mcount_bound(player1);
            lemma_mcount_bound(player2);
        }
        player1.count_ones() as i32 - player2.count_ones() as i32
    }

    /// Commit each player's territory to its full reachable set, turning
    /// neutral space into final scored territory.
    pub fn finalize(&mut self)
        requires
            game_over_spec(*old(self)),
        ensures
            *final(self) == (State {
                player1: flood(old(self).player1, accessible_spec(*old(self))),
                player2: flood(old(self).player2, accessible_spec(*old(self))),
                ..*old(self)
            }),
            old(self).inv() && flood(old(self).player1, accessible_spec(*old(self))).disjoint_from(
                flood(old(self).player2, accessible_spec(*old(self))),
            ) ==> final(self).inv(),
    {
        let ghost s0 = *self;
        let accessible = self.player1.or(self.player2).or(self.walls).not();
        self.player1 = self.player1.bfs(accessible);
        self.player2 = self.player2.bfs(accessible);
        proof {
            let acc = accessible_spec(s0);
            let f1 = flood(s0.player1, acc);
            let f2 = flood(s0.player2, acc);
            if s0.inv() && f1.disjoint_from(f2) {
                lemma_gen_inv_same_board(s0, *self);
                lemma_flood_exists(s0.player1, acc);
                lemma_flood_exists(s0.player2, acc);
                assert(f1.has(0, 0)) by {
                    assert(s0.player1.subset_of(f1));
                }
                assert(f2.has(15, 15)) by {
                    assert(s0.player2.subset_of(f2));
                }
                assert forall|i: int, j: int| #[trigger] f1.has(i, j)
                    implies !s0.walls.has(i, j) by {
                    assert(m_or(s0.player1, acc).has(i, j));
                    if acc.has(i, j) {
                        assert(!m_or(m_or(s0.player1, s0.player2), s0.walls).has(i, j));
                    }
                }
                assert forall|i: int, j: int| #[trigger] f2.has(i, j)
                    implies !s0.walls.has(i, j) by {
                    assert(m_or(s0.player2, acc).has(i, j));
                    if acc.has(i, j) {
                        assert(!m_or(m_or(s0.player1, s0.player2), s0.walls).has(i, j));
                    }
                }
            }
        }
    }

    /// The color indices eligible under the last-move exclusion rule, in
    /// increasing order. At most two of the eight colors are excluded, so
    /// the result is never empty.
    pub fn valid_moves(&self) -> (v: Vec<u8>)
        ensures
            forall|t: int| 0 <= t < v@.len() ==> valid_move(*self, #[trigger] v@[t]),
            forall|c: u8| valid_move(*self, c) ==> v@.contains(c),
            forall|t1: int, t2: int| 0 <= t1 < t2 < v@.len() ==> v@[t1] < v@[t2],
            v@.len() >= 1,
    {
        let mut v: Vec<u8> = Vec::new();
        let mut c: u8 = 0;
        while c < 8
            invariant
                c <= 8,
                forall|t: int| 0 <= t < v@.len() ==> valid_move(*self, #[trigger] v@[t]) && v@[t]
                    < c,
                forall|cc: u8| cc < c && valid_move(*self, cc) ==> v@.contains(cc),
                forall|t1: int, t2: int| 0 <= t1 < t2 < v@.len() ==> v@[t1] < v@[t2],
            decreases 8 - c,
        {
            let mut excluded = false;
            if let Some(last) = self.player1_last_move {
                if last == c {
                    excluded = true;
                }
            }
            if let Some(last) = self.player2_last_move {
                if last == c {
                    excluded = true;
                }
            }
            let ghost pre = v@;
            if !excluded {
                v.push(c);
            }
            proof {
                if !excluded {
                    assert(v@[pre.len() as int] == c);
                }
                assert forall|cc: u8| cc < c + 1 && valid_move(*self, cc) implies v@.contains(
                    cc,
                ) by {
                    if cc < c {
                        assert(pre.contains(cc));
                        let t = choose|t: int| 0 <= t < pre.len() && pre[t] == cc;
                        assert(v@[t] == cc);
                    } else {
                        assert(v@[pre.len() as int] == cc);
                    }
                }
            }
            c = c + 1;
        }
        proof {
            assert(valid_move(*self, 0) || valid_move(*self, 1) || valid_move(*self, 2));
            if valid_move(*self, 0) {
                assert(v@.contains(0));
            } else if valid_move(*self, 1) {
                assert(v@.contains(1));
            } else {
                assert(v@.contains(2));
            }
        }
        v
    }

    /// Apply a legal move: flood-fill the mover's territory into region
    /// `color` (blocked by the opponent), record the move, advance the
    /// round. The sole mutator of captured territory.
    pub fn play(&mut self, color: u8)
        requires
            old(self).inv(),
            !game_over_spec(*old(self)),
            valid_move(*old(self), color),
        ensures
            *final(self) == play_spec(*old(self), color),
            final(self).inv(),
            old(self).player1.subset_of(final(self).player1),
            old(self).player2.subset_of(final(self).player2),
            final(self).round == old(self).round + 1,
    {
        proof {
            lemma_play_preserves_inv(*self, color);
            lemma_monotonic_capture(*self, color);
        }
        if self.player1_next() {
            let acc = self.colors[color as usize].and_not(self.player2);
            self.player1 = self.player1.bfs(acc);
            self.player1_last_move = Some(color);
        } else {
            let acc = self.colors[color as usize].and_not(self.player1);
            self.player2 = self.player2.bfs(acc);
            self.player2_last_move = Some(color);
        }
        self.round = self.round + 1;
    }
}

// ---------------------------------------------------------------------------
// Board generation.
// ---------------------------------------------------------------------------

/// Cell (i, j) lies in one of the eight regions of `colors`.
pub open spec fn some_color_has(colors: [Mask; 8], i: int, j: int) -> bool {
    exists|k: int| 0 <= k < 8 && (#[trigger] colors[k]).has(i, j)
}

/// The generation loop invariant: the regions are pairwise disjoint, avoid
/// the corners, and `used` is exactly the corners plus all region cells.
pub open spec fn gen_wf(colors: [Mask; 8], used: Mask) -> bool {
    &&& forall|a: int, b: int|
        0 <= a < b < 8 ==> (#[trigger] colors[a]).disjoint_from(#[trigger] colors[b])
    &&& forall|k: int| 0 <= k < 8 ==> corners().disjoint_from(#[trigger] colors[k])
    &&& forall|i: int, j: int|
        #[trigger] used.has(i, j) == (corners().has(i, j) || some_color_has(colors, i, j))
}

/// `m` holds at most one cell: it is a single cell or empty.
pub open spec fn at_most_one_cell(m: Mask) -> bool {
    m == m_empty() || exists|r: int, c: int| in_grid(r, c) && m == m_onehot(r, c)
}

proof fn lemma_at_most_one_cell_count(m: Mask)
    requires
        at_most_one_cell(m),
    ensures
        mcount(m) <= 1,
{
    if m == m_empty() {
        crate::mask::lemma_mcount_empty();
    } else {
        let (r, c) = choose|r: int, c: int| in_grid(r, c) && m == m_onehot(r, c);
        crate::mask::lemma_mcount_onehot(r, c);
    }
}

proof fn lemma_shift_keeps_one_cell(m: Mask)
    requires
        at_most_one_cell(m),
    ensures
        at_most_one_cell(crate::mask::m_shl(m)),
        at_most_one_cell(crate::mask::m_shr(m)),
        at_most_one_cell(crate::mask::m_shu(m)),
        at_most_one_cell(crate::mask::m_shd(m)),
{
    if m == m_empty() {
        crate::mask::lemma_shift_empty();
    } else {
        let (r, c) = choose|r: int, c: int| in_grid(r, c) && m == m_onehot(r, c);
        crate::mask::lemma_shift_onehot(r, c);
    }
}

/// Assign `mask` to a random region — unless it overlaps what is already
/// used, in which case nothing changes. Keeps the generation invariant and
/// grows `used` by at most the cells of `mask`.
fn add_color(rng: &mut Pcg64, colors: &mut [Mask; 8], used: &mut Mask, mask: Mask)
    requires
        gen_wf(*old(colors), *old(used)),
    ensures
        gen_wf(*final(colors), *final(used)),
        old(used).subset_of(*final(used)),
        mcount(*final(used)) <= mcount(*old(used)) + mcount(mask),
{
    let ghost colors0 = *colors;
    let ghost used0 = *used;
    proof {
        lemma_mcount_bound(mask);
    }
    let overlap = mask.and(*used);
    if overlap.is_empty() {
        proof {
            lemma_and_empty_iff_disjoint(mask, used0);
        }
        let i = pcg_range(rng, 0, 8) as usize;
        let merged = colors[i].or(mask);
        colors[i] = merged;
        *used = used.or(mask);
        proof {
            crate::mask::lemma_mcount_union_le(used0, mask);
            let ii = i as int;
            assert(colors[ii] == m_or(colors0[ii], mask));
            assert forall|k: int| 0 <= k < 8 && k != ii implies #[trigger] colors[k]
                == colors0[k] by {
                assert(colors@ == colors0@.update(ii, merged));
            }
            assert forall|r: int, c: int| #[trigger] mask.has(r, c)
                implies !some_color_has(colors0, r, c) && !corners().has(r, c) && !used0.has(
                r,
                c,
            ) by {}
            assert forall|a: int, b: int|
                0 <= a < b < 8 implies (#[trigger] colors[a]).disjoint_from(
                #[trigger] colors[b],
            ) by {
                assert forall|r: int, c: int| #[trigger] colors[a].has(r, c)
                    implies !colors[b].has(r, c) by {
                    if a == ii {
                        assert(colors[a].has(r, c) == (colors0[a].has(r, c) || mask.has(r, c)));
                        assert(colors[b] == colors0[b]);
                        if mask.has(r, c) && colors0[b].has(r, c) {
                            assert(some_color_has(colors0, r, c));
                            assert(used0.has(r, c));
                        }
                    } else if b == ii {
                        assert(colors[b].has(r, c) == (colors0[b].has(r, c) || mask.has(r, c)));
                        assert(colors[a] == colors0[a]);
                        if mask.has(r, c) && colors0[a].has(r, c) {
                            assert(some_color_has(colors0, r, c));
                            assert(used0.has(r, c));
                        }
                    } else {
                        assert(colors[a] == colors0[a] && colors[b] == colors0[b]);
                    }
                }
            }
            assert forall|k: int| 0 <= k < 8 implies corners().disjoint_from(
                #[trigger] colors[k],
            ) by {
                assert forall|r: int, c: int| #[trigger] corners().has(r, c)
                    implies !colors[k].has(r, c) by {
                    if k == ii {
                        assert(colors[k].has(r, c) == (colors0[k].has(r, c) || mask.has(r, c)));
                        if mask.has(r, c) {
                            assert(used0.has(r, c));
                        }
                    } else {
                        assert(colors[k] == colors0[k]);
                    }
                }
            }
            assert forall|r: int, c: int|
                #[trigger] used.has(r, c) == (corners().has(r, c) || some_color_has(
                    *colors,
                    r,
                    c,
                )) by {
                assert(used.has(r, c) == (used0.has(r, c) || mask.has(r, c)));
                if mask.has(r, c) {
                    assert(colors[ii].has(r, c));
                }
                if used0.has(r, c) && !corners().has(r, c) {
                    let k = choose|k: int| 0 <= k < 8 && (#[trigger] colors0[k]).has(r, c);
                    if k == ii {
                        assert(colors[ii].has(r, c));
                    } else {
                        assert(colors[k] == colors0[k]);
                        assert(colors[k].has(r, c));
                    }
                }
                if some_color_has(*colors, r, c) && !used0.has(r, c) && !mask.has(r, c) {
                    let k = choose|k: int| 0 <= k < 8 && (#[trigger] colors[k]).has(r, c);
                    if k == ii {
                        assert(colors0[k].has(r, c));
                        assert(some_color_has(colors0, r, c));
                    } else {
                        assert(colors[k] == colors0[k]);
                        assert(some_color_has(colors0, r, c));
                    }
                }
            }
        }
    }
}

fn add_protected_cell(rng: &mut Pcg64, colors: &mut [Mask; 8], used: &mut Mask, r: usize, c: usize)
    requires
        r < 16,
        c < 16,
        gen_wf(*old(colors), *old(used)),
    ensures
        gen_wf(*final(colors), *final(used)),
        old(used).subset_of(*final(used)),
        mcount(*final(used)) <= mcount(*old(used)) + 1,
{
    proof {
        crate::mask::lemma_mcount_onehot(r as int, c as int);
    }
    add_color(rng, colors, used, Mask::one_hot(r, c));
}

/// Produce the eight color regions and the wall set from a seed: protected
/// cells near each corner, two random monotone lattice paths, then random
/// growth adjacent to the used region until only a wall budget of cells
/// remains unused. The same seed always yields the same board.
#[verifier::loop_isolation(false)]
fn generate(seed: u64) -> (r: ([Mask; 8], Mask))
    ensures
        forall|a: int, b: int|
            0 <= a < b < 8 ==> (#[trigger] r.0[a]).disjoint_from(#[trigger] r.0[b]),
        forall|k: int| 0 <= k < 8 ==> corners().disjoint_from(#[trigger] r.0[k]),
        forall|k: int| 0 <= k < 8 ==> r.1.disjoint_from(#[trigger] r.0[k]),
        r.1.disjoint_from(corners()),
        forall|i: int, j: int|
            in_grid(i, j) ==> corners().has(i, j) || some_color_has(r.0, i, j) || r.1.has(i, j),
{
    let mut rng = pcg_from_seed(seed);
    let mut colors: [Mask; 8] = [Mask::empty(); 8];
    let mut used = Mask::one_hot(0, 0).or(Mask::one_hot(15, 15));
    proof {
        assert(used == corners());
        assert forall|i: int, j: int|
            #[trigger] used.has(i, j) == (corners().has(i, j) || some_color_has(colors, i, j)) by {
            if some_color_has(colors, i, j) {
                let k = choose|k: int| 0 <= k < 8 && (#[trigger] colors[k]).has(i, j);
                assert(colors[k] == m_empty());
                assert(!m_empty().has(i, j));
            }
        }
        assert forall|k: int| 0 <= k < 8 implies corners().disjoint_from(
            #[trigger] colors[k],
        ) by {
            assert(colors[k] == m_empty());
            assert forall|i: int, j: int| #[trigger] corners().has(i, j)
                implies !m_empty().has(i, j) by {}
        }
        assert forall|a: int, b: int|
            0 <= a < b < 8 implies (#[trigger] colors[a]).disjoint_from(
            #[trigger] colors[b],
        ) by {
            assert(colors[a] == m_empty());
            assert forall|i: int, j: int| #[trigger] m_empty().has(i, j)
                implies !colors[b].has(i, j) by {}
        }
        crate::mask::lemma_mcount_onehot(0, 0);
        crate::mask::lemma_mcount_onehot(15, 15);
        crate::mask::lemma_mcount_union_le(m_onehot(0, 0), m_onehot(15, 15));
    }
    // a fixed stock of cells near each corner, each given to a random region
    add_protected_cell(&mut rng, &mut colors, &mut used, 0, 1);
    add_protected_cell(&mut rng, &mut colors, &mut used, 0, 2);
    add_protected_cell(&mut rng, &mut colors, &mut used, 0, 3);
    add_protected_cell(&mut rng, &mut colors, &mut used, 1, 0);
    add_protected_cell(&mut rng, &mut colors, &mut used, 1, 1);
    add_protected_cell(&mut rng, &mut colors, &mut used, 1, 2);
    add_protected_cell(&mut rng, &mut colors, &mut used, 1, 3);
    add_protected_cell(&mut rng, &mut colors, &mut used, 2, 0);
    add_protected_cell(&mut rng, &mut colors, &mut used, 2, 1);
    add_protected_cell(&mut rng, &mut colors, &mut used, 2, 2);
    add_protected_cell(&mut rng, &mut colors, &mut used, 3, 0);
    add_protected_cell(&mut rng, &mut colors, &mut used, 3, 1);
    add_protected_cell(&mut rng, &mut colors, &mut used, 12, 14);
    add_protected_cell(&mut rng, &mut colors, &mut used, 12, 15);
    add_protected_cell(&mut rng, &mut colors, &mut used, 13, 13);
    add_protected_cell(&mut rng, &mut colors, &mut used, 13, 14);
    add_protected_cell(&mut rng, &mut colors, &mut used, 13, 15);
    add_protected_cell(&mut rng, &mut colors, &mut used, 14, 12);
    add_protected_cell(&mut rng, &mut colors, &mut used, 14, 13);
    add_protected_cell(&mut rng, &mut colors, &mut used, 14, 14);
    add_protected_cell(&mut rng, &mut colors, &mut used, 14, 15);
    add_protected_cell(&mut rng, &mut colors, &mut used, 15, 12);
    add_protected_cell(&mut rng, &mut colors, &mut used, 15, 13);
    add_protected_cell(&mut rng, &mut colors, &mut used, 15, 14);

    // two random monotone lattice paths, one from each corner region, each
    // a shuffled mix of 14 rightward and 14 vertical unit steps
    let mut directions: Vec<bool> = Vec::new();
    let mut d: usize = 0;
    while d < 14
        invariant
            directions@.len() == d,
            d <= 14,
        decreases 14 - d,
    {
        directions.push(true);
        d = d + 1;
    }
    d = 0;
    while d < 14
        invariant
            directions@.len() == 14 + d,
            d <= 14,
        decreases 14 - d,
    {
        directions.push(false);
        d = d + 1;
    }
    pcg_shuffle(&mut rng, &mut directions);

    let mut position = Mask::one_hot(1, 1);
    proof {
        assert(in_grid(1, 1) && position == m_onehot(1, 1));
    }
    let mut idx: usize = 0;
    while idx < directions.len()
        invariant
            gen_wf(colors, used),
            at_most_one_cell(position),
            directions@.len() == 28,
            idx <= 28,
            mcount(used) <= 26 + idx,
        decreases directions@.len() - idx,
    {
        proof {
            lemma_shift_keeps_one_cell(position);
        }
        if directions[idx] {
            position = position.shift_left();
        } else {
            position = position.shift_down();
        }
        proof {
            lemma_at_most_one_cell_count(position);
        }
        add_color(&mut rng, &mut colors, &mut used, position);
        idx = idx + 1;
    }

    pcg_shuffle(&mut rng, &mut directions);
    let pr = pcg_range(&mut rng, 13, 16) as usize;
    let pc = pcg_range(&mut rng, 0, 3) as usize;
    let mut position = Mask::one_hot(pr, pc);
    proof {
        assert(in_grid(pr as int, pc as int) && position == m_onehot(pr as int, pc as int));
    }
    let mut idx: usize = 0;
    while idx < directions.len()
        invariant
            gen_wf(colors, used),
            at_most_one_cell(position),
            directions@.len() == 28,
            idx <= 28,
            mcount(used) <= 54 + idx,
        decreases directions@.len() - idx,
    {
        proof {
            lemma_shift_keeps_one_cell(position);
        }
        if directions[idx] {
            position = position.shift_left();
        } else {
            position = position.shift_up();
        }
        proof {
            lemma_at_most_one_cell_count(position);
        }
        add_color(&mut rng, &mut colors, &mut used, position);
        idx = idx + 1;
    }

    // grow the regions one random adjacent cell at a time, leaving a wall
    // budget of cells unused
    let wall_count = pcg_range(&mut rng, 32, 65);
    let used_count = used.count_ones();
    let todo = 256 - used_count - wall_count;
    let mut t: u32 = 0;
    while t < todo
        invariant
            gen_wf(colors, used),
        decreases todo - t,
    {
        let nb = used.neighbors();
        let cnt = nb.count_ones();
        if cnt == 0 {
            break;
        }
        let cell = nb.sample(&mut rng);
        proof {
            let (si, sj) = choose|i: int, j: int| #[trigger] nb.has(i, j) && cell == m_onehot(i, j);
            crate::mask::lemma_has_in_grid(nb, si, sj);
            crate::mask::lemma_mcount_onehot(si, sj);
        }
        add_color(&mut rng, &mut colors, &mut used, cell);
        t = t + 1;
    }

    // everything still unused is a wall
    let walls = used.not();
    proof {
        assert forall|k: int| 0 <= k < 8 implies walls.disjoint_from(#[trigger] colors[k]) by {
            assert forall|i: int, j: int| #[trigger] walls.has(i, j)
                implies !colors[k].has(i, j) by {
                if colors[k].has(i, j) {
                    assert(some_color_has(colors, i, j));
                    assert(used.has(i, j));
                }
            }
        }
        assert forall|i: int, j: int| #[trigger] walls.has(i, j)
            implies !corners().has(i, j) by {
            if corners().has(i, j) {
                assert(used.has(i, j));
            }
        }
    }
    (colors, walls)
}

impl State {
    /// Build the initial state for a seed: a generated board partition,
    /// each player holding its corner, no moves played.
    pub fn generate(seed: u64) -> (s: State)
        ensures
            s.inv(),
            s.round == 0,
            s.player1_last_move == None::<u8>,
            s.player2_last_move == None::<u8>,
            s.player1 == m_onehot(0, 0),
            s.player2 == m_onehot(15, 15),
            s.seed == seed,
    {
        let (colors, walls) = generate(seed);
        let s = State {
            colors,
            walls,
            player1: Mask::one_hot(0, 0),
            player2: Mask::one_hot(15, 15),
            player1_last_move: None,
            player2_last_move: None,
            round: 0,
            seed,
        };
        proof {
            assert forall|k: int| 0 <= k < 8 implies #[trigger] s.colors[k] == colors[k] by {
                assert(s.colors@ == colors@);
            }
            assert forall|a: int, b: int|
                0 <= a < b < 8 implies (#[trigger] s.colors[a]).disjoint_from(
                #[trigger] s.colors[b],
            ) by {
                assert(s.colors[a] == colors[a] && s.colors[b] == colors[b]);
            }
            assert forall|k: int| 0 <= k < 8 implies corners().disjoint_from(#[trigger] s.colors[k])
                && s.walls.disjoint_from(s.colors[k]) by {
                assert(s.colors[k] == colors[k]);
            }
            assert forall|i: int, j: int| in_grid(i, j) implies corners().has(i, j)
                || in_some_color(s, i, j) || #[trigger] s.walls.has(i, j) by {
                if !corners().has(i, j) && !walls.has(i, j) {
                    let k = choose|k: int| 0 <= k < 8 && (#[trigger] colors[k]).has(i, j);
                    assert(s.colors[k] == colors[k]);
                    assert(s.colors[k].has(i, j));
                }
            }
            assert forall|i: int, j: int| #[trigger] s.player1.has(i, j)
                implies !s.player2.has(i, j) && !s.walls.has(i, j) by {}
            assert forall|i: int, j: int| #[trigger] s.player2.has(i, j)
                implies !s.walls.has(i, j) by {
                if s.walls.has(i, j) {
                    assert(!corners().has(i, j));
                }
            }
        }
        s
    }
}

/// Termination: the invariant caps the round at the ceiling, at the
/// ceiling the game is over, and each play advances the round by one — so
/// from any reachable state at most `ROUND_LIMIT - round` further plays
/// are possible.
pub proof fn lemma_termination(s: State)
    requires
        s.inv(),
    ensures
        s.round == ROUND_LIMIT ==> game_over_spec(s),
        !game_over_spec(s) ==> s.round < ROUND_LIMIT,
        !game_over_spec(s) ==> forall|color: u8|
            #[trigger] play_spec(s, color).round == s.round + 1,
{
}

/// Cell (i, j) lies in one of the first `k` color regions.
pub open spec fn some_color_below(s: State, k: int, i: int, j: int) -> bool {
    exists|a: int| 0 <= a < k && (#[trigger] s.colors[a]).has(i, j)
}

/// What the executable validity check decides: move bookkeeping consistent
/// with the round, walls and the two territories pairwise disjoint, and the
/// corners, color regions and walls a partition of the grid.
pub open spec fn is_valid_spec(s: State) -> bool {
    &&& (s.round >= 1) == s.player1_last_move.is_some()
    &&& (s.round >= 2) == s.player2_last_move.is_some()
    &&& s.walls.disjoint_from(s.player1)
    &&& s.walls.disjoint_from(s.player2)
    &&& s.player1.disjoint_from(s.player2)
    &&& s.gen_inv()
}

/// A state satisfying the invariant passes the validity check.
pub proof fn lemma_inv_is_valid(s: State)
    requires
        s.inv(),
    ensures
        is_valid_spec(s),
{
    crate::mask::lemma_disjoint_sym(s.player1, s.walls);
    crate::mask::lemma_disjoint_sym(s.player2, s.walls);
}

impl State {
    /// Full self-check of the partition and bookkeeping invariants, for
    /// testing and diagnostics; the hot path never consults it.
    #[verifier::loop_isolation(false)]
    pub fn is_valid(&self) -> (r: bool)
        ensures
            r == is_valid_spec(*self),
    {
        let s = *self;
        if (self.round >= 1) != self.player1_last_move.is_some() || (self.round >= 2)
            != self.player2_last_move.is_some() {
            return false;
        }
        let mut seen = self.walls;
        if !seen.and(self.player1).is_empty() {
            proof {
                lemma_and_empty_iff_disjoint(s.walls, s.player1);
            }
            return false;
        }
        proof {
            lemma_and_empty_iff_disjoint(s.walls, s.player1);
        }
        seen = seen.or(self.player1);
        if !seen.and(self.player2).is_empty() {
            proof {
                lemma_and_empty_iff_disjoint(m_or(s.walls, s.player1), s.player2);
                let (wi, wj) = choose|i: int, j: int|
                    #[trigger] m_or(s.walls, s.player1).has(i, j) && s.player2.has(i, j);
                if s.walls.has(wi, wj) {
                    assert(s.walls.has(wi, wj) && s.player2.has(wi, wj));
                    assert(!s.walls.disjoint_from(s.player2));
                } else {
                    assert(s.player1.has(wi, wj) && s.player2.has(wi, wj));
                    assert(!s.player1.disjoint_from(s.player2));
                }
            }
            return false;
        }
        proof {
            lemma_and_empty_iff_disjoint(m_or(s.walls, s.player1), s.player2);
            assert forall|i: int, j: int| #[trigger] s.walls.has(i, j)
                implies !s.player2.has(i, j) by {
                assert(m_or(s.walls, s.player1).has(i, j));
            }
            assert forall|i: int, j: int| #[trigger] s.player1.has(i, j)
                implies !s.player2.has(i, j) by {
                assert(m_or(s.walls, s.player1).has(i, j));
            }
        }
        let mut seen = Mask::one_hot(0, 0).or(Mask::one_hot(15, 15));
        let mut k: usize = 0;
        while k < 8
            invariant
                k <= 8,
                forall|a: int, b: int|
                    0 <= a < b < k ==> (#[trigger] s.colors[a]).disjoint_from(
                        #[trigger] s.colors[b],
                    ),
                forall|a: int| 0 <= a < k ==> corners().disjoint_from(#[trigger] s.colors[a]),
                forall|i: int, j: int|
                    #[trigger] seen.has(i, j) == (corners().has(i, j) || some_color_below(
                        s,
                        k as int,
                        i,
                        j,
                    )),
            decreases 8 - k,
        {
            let c = self.colors[k];
            if !seen.and(c).is_empty() {
                proof {
                    lemma_and_empty_iff_disjoint(seen, c);
                    let (wi, wj) = choose|i: int, j: int|
                        #[trigger] seen.has(i, j) && c.has(i, j);
                    if !corners().has(wi, wj) {
                        let a = choose|a: int|
                            0 <= a < k && (#[trigger] s.colors[a]).has(wi, wj);
                        assert(s.colors[a].has(wi, wj) && s.colors[k as int].has(wi, wj));
                    }
                }
                return false;
            }
            proof {
                lemma_and_empty_iff_disjoint(seen, c);
                assert forall|a: int, b: int|
                    0 <= a < b < k + 1 implies (#[trigger] s.colors[a]).disjoint_from(
                    #[trigger] s.colors[b],
                ) by {
                    if b == k as int {
                        assert forall|i: int, j: int| #[trigger] s.colors[a].has(i, j)
                            implies !s.colors[b].has(i, j) by {
                            if s.colors[b].has(i, j) {
                                assert(some_color_below(s, k as int, i, j));
                                assert(seen.has(i, j));
                            }
                        }
                    }
                }
                assert forall|a: int| 0 <= a < k + 1 implies corners().disjoint_from(
                    #[trigger] s.colors[a],
                ) by {
                    if a == k as int {
                        assert forall|i: int, j: int| #[trigger] corners().has(i, j)
                            implies !s.colors[a].has(i, j) by {
                            if s.colors[a].has(i, j) {
                                assert(seen.has(i, j));
                            }
                        }
                    }
                }
            }
            seen = seen.or(c);
            proof {
                assert forall|i: int, j: int|
                    #[trigger] seen.has(i, j) == (corners().has(i, j) || some_color_below(
                        s,
                        k + 1,
                        i,
                        j,
                    )) by {
                    if s.colors[k as int].has(i, j) {
                        assert(some_color_below(s, k + 1, i, j));
                    }
                    if !corners().has(i, j) && some_color_below(s, k + 1, i, j) {
                        let a = choose|a: int|
                            0 <= a < k + 1 && (#[trigger] s.colors[a]).has(i, j);
                        if a < k {
                            assert(some_color_below(s, k as int, i, j));
                        }
                    }
                }
            }
            k = k + 1;
        }
        if !seen.and(self.walls).is_empty() {
            proof {
                lemma_and_empty_iff_disjoint(seen, s.walls);
                let (wi, wj) = choose|i: int, j: int|
                    #[trigger] seen.has(i, j) && s.walls.has(i, j);
                if corners().has(wi, wj) {
                    assert(s.walls.has(wi, wj) && corners().has(wi, wj));
                    assert(!s.walls.disjoint_from(corners()));
                } else {
                    let a = choose|a: int| 0 <= a < 8 && (#[trigger] s.colors[a]).has(wi, wj);
                    assert(s.colors[a].has(wi, wj) && s.walls.has(wi, wj));
                }
            }
            return false;
        }
        proof {
            lemma_and_empty_iff_disjoint(seen, s.walls);
        }
        let ghost seen_colors = seen;
        seen = seen.or(self.walls);
        let full = seen.is_full();
        proof {
            if full {
                assert forall|i: int, j: int| in_grid(i, j) implies corners().has(i, j)
                    || in_some_color(s, i, j) || #[trigger] s.walls.has(i, j) by {
                    assert(m_full().has(i, j));
                    assert(seen.has(i, j));
                    if !corners().has(i, j) && !s.walls.has(i, j) {
                        let a = choose|a: int| 0 <= a < 8 && (#[trigger] s.colors[a]).has(i, j);
                        assert(in_some_color(s, i, j));
                    }
                }
                assert forall|a: int| 0 <= a < 8 implies s.walls.disjoint_from(
                    #[trigger] s.colors[a],
                ) by {
                    assert forall|i: int, j: int| #[trigger] s.walls.has(i, j)
                        implies !s.colors[a].has(i, j) by {
                        if s.colors[a].has(i, j) {
                            assert(some_color_below(s, 8, i, j));
                            assert(seen_colors.has(i, j));
                        }
                    }
                }
                assert forall|i: int, j: int| #[trigger] s.walls.has(i, j)
                    implies !corners().has(i, j) by {
                    if corners().has(i, j) {
                        assert(seen_colors.has(i, j));
                    }
                }
            } else {
                if forall|i: int, j: int| #[trigger] seen.has(i, j) == m_full().has(i, j) {
                    lemma_mask_ext(seen, m_full());
                }
                let (wi, wj) = choose|i: int, j: int|
                    #[trigger] seen.has(i, j) != m_full().has(i, j);
                if seen.has(wi, wj) {
                    crate::mask::lemma_has_in_grid(seen, wi, wj);
                    assert(m_full().has(wi, wj));
                }
                assert(m_full().has(wi, wj) && !seen.has(wi, wj));
                assert(in_grid(wi, wj));
                if in_some_color(s, wi, wj) {
                    let a = choose|a: int| 0 <= a < 8 && (#[trigger] s.colors[a]).has(wi, wj);
                    assert(some_color_below(s, 8, wi, wj));
                    assert(seen_colors.has(wi, wj));
                }
            }
        }
        full
    }
}

} // verus!
