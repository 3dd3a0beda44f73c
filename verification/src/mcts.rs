//! The turn engine and the Monte Carlo tree search.
//!
//! A game state wraps a board, whose turn it is, and how many players are
//! active; it derives legal actions and terminal scores from the board's
//! influence queries. The search engine owns a tree of statistics nodes in an
//! arena, repeatedly clones the state, descends by a selection policy,
//! expands, runs one random rollout, and backpropagates a reward vector.
//!
//! Rewards are kept in tenths as exact integers, and the selection policy
//! evaluates its formula in fixed-point arithmetic, so that a fixed seed
//! makes a whole search exactly reproducible.

use vstd::prelude::*;

use crate::hobogo::{Board, Coord, Player};
use crate::hobogo::{lemma_i_to_xy, lemma_index_in_range, lemma_xi_yi};
use crate::rng::shuffle;

verus! {

/// One turn: place a stone, or pass when no placement is legal.
#[derive(Clone, Copy, Debug, PartialEq, Eq, Structural)]
pub enum Action {
    Pass,
    Move(Coord),
}

/// Per-player terminal rewards, in tenths.
pub type Score = Vec<i64>;

/// A board, whose turn it is, and how many players are active.
pub struct GameState {
    /// Who is making the next turn?
    pub next_player: Player,
    pub num_players: usize,
    pub board: Board,
}

/// The coordinate of the cell with row-major index i.
pub open spec fn coord_of(b: Board, i: int) -> Coord {
    Coord { x: b.xi(i) as i32, y: b.yi(i) as i32 }
}

/// Whether player q has any legal placement on the board.
pub open spec fn has_valid_move(b: Board, q: Player, np: usize) -> bool {
    exists|c: Coord| b.valid_move_spec(c, q, np)
}

/// The legal placements for the player among the first k cells, row by row.
pub open spec fn moves_upto(b: Board, player: Player, np: usize, k: int) -> Seq<Coord>
    decreases k,
{
    if k <= 0 {
        Seq::empty()
    } else {
        let rest = moves_upto(b, player, np, k - 1);
        if b.valid_move_spec(coord_of(b, k - 1), player, np) {
            rest.push(coord_of(b, k - 1))
        } else {
            rest
        }
    }
}

/// All legal placements for the player, row by row.
pub open spec fn moves_spec(b: Board, player: Player, np: usize) -> Seq<Coord> {
    moves_upto(b, player, np, b.cells@.len() as int)
}

/// A legal placement names a cell of the board.
pub proof fn lemma_valid_is_cell(b: Board, c: Coord, player: Player, np: usize)
    requires
        b.wf(),
        b.valid_move_spec(c, player, np),
    ensures
        0 <= b.spec_index(c.x as int, c.y as int) < b.cells@.len(),
        coord_of(b, b.spec_index(c.x as int, c.y as int)) == c,
{
    lemma_index_in_range(b, c.x as int, c.y as int);
    lemma_xi_yi(b, c.x as int, c.y as int);
}

/// The move list is complete: it is empty exactly when none of the first k
/// cells is a legal placement, and everything in it is a legal placement.
pub proof fn lemma_moves_upto_complete(b: Board, player: Player, np: usize, k: int)
    requires
        0 <= k,
    ensures
        forall|j: int|
            0 <= j < k && b.valid_move_spec(#[trigger] coord_of(b, j), player, np) ==> moves_upto(
                b,
                player,
                np,
                k,
            ).contains(coord_of(b, j)),
        forall|c: Coord|
            moves_upto(b, player, np, k).contains(c) ==> b.valid_move_spec(c, player, np),
    decreases k,
{
    if k > 0 {
        lemma_moves_upto_complete(b, player, np, k - 1);
        let prev = moves_upto(b, player, np, k - 1);
        let cur = moves_upto(b, player, np, k);
        assert forall|j: int|
            0 <= j < k && b.valid_move_spec(#[trigger] coord_of(b, j), player, np) implies cur.contains(
            coord_of(b, j),
        ) by {
            if j < k - 1 {
                assert(prev.contains(coord_of(b, j)));
                let t = choose|t: int| 0 <= t < prev.len() && prev[t] == coord_of(b, j);
                assert(cur[t] == coord_of(b, j));
            } else {
                assert(cur[cur.len() - 1] == coord_of(b, j));
            }
        }
        assert forall|c: Coord| cur.contains(c) implies b.valid_move_spec(c, player, np) by {
            let t = choose|t: int| 0 <= t < cur.len() && cur[t] == c;
            if t < prev.len() {
                assert(prev.contains(c));
            }
        }
    }
}

/// A player with any legal placement has one in the move list.
pub proof fn lemma_moves_spec_complete(b: Board, player: Player, np: usize)
    requires
        b.wf(),
    ensures
        moves_spec(b, player, np).len() == 0 <==> !has_valid_move(b, player, np),
{
    let n = b.cells@.len() as int;
    lemma_moves_upto_complete(b, player, np, n);
    if has_valid_move(b, player, np) {
        let c = choose|c: Coord| b.valid_move_spec(c, player, np);
        lemma_valid_is_cell(b, c, player, np);
        let i = b.spec_index(c.x as int, c.y as int);
        assert(b.valid_move_spec(coord_of(b, i), player, np));
        assert(moves_spec(b, player, np).contains(coord_of(b, i)));
    }
    if moves_spec(b, player, np).len() > 0 {
        let c = moves_spec(b, player, np)[0];
        assert(moves_spec(b, player, np).contains(c));
        assert(b.valid_move_spec(c, player, np));
    }
}

/// The actions open to the player: nothing once the game is over (a
/// terminal position is terminal even while legal placements remain);
/// otherwise every legal placement, or a lone pass when there is none.
pub open spec fn actions_spec(s: GameState, player: Player) -> Seq<Action> {
    if s.board.game_over_spec(s.num_players as int) {
        Seq::empty()
    } else {
        let moves = moves_spec(s.board, player, s.num_players);
        if moves.len() > 0 {
            moves.map(|i: int, c: Coord| Action::Move(c))
        } else {
            seq![Action::Pass]
        }
    }
}

impl Clone for GameState {
    /// A deep copy, so that two branches of search never observe each
    /// other's mutations.
    fn clone(&self) -> (r: GameState)
        ensures
            r.next_player == self.next_player,
            r.num_players == self.num_players,
            r.board.cells@ == self.board.cells@,
            r.board.width == self.board.width,
            r.board.height == self.board.height,
    {
        GameState {
            next_player: self.next_player,
            num_players: self.num_players,
            board: self.board.clone(),
        }
    }
}

impl GameState {
    /// The state invariant: a well-formed board and a turn holder among the
    /// active players, of whom there are at most eight.
    pub open spec fn wf(self) -> bool {
        &&& self.board.wf()
        &&& 1 <= self.num_players <= 8
        &&& (self.next_player as usize) < self.num_players
    }

    /// All legal placements for the given player, row by row.
    pub fn available_moves_for(&self, player: Player) -> (r: Vec<Coord>)
        requires
            self.wf(),
            player < self.num_players,
        ensures
            r@ == moves_spec(self.board, player, self.num_players),
    {
        let coords = self.board.coords();
        let mut r: Vec<Coord> = Vec::new();
        let mut i: usize = 0;
        while i < coords.len()
            invariant
                self.wf(),
                player < self.num_players,
                coords@.len() == self.board.cells@.len(),
                i <= coords@.len(),
                forall|k: int|
                    0 <= k < coords@.len() ==> #[trigger] coords@[k] == coord_of(self.board, k),
                r@ == moves_upto(self.board, player, self.num_players, i as int),
            decreases coords@.len() - i,
        {
            if self.board.is_valid_move(coords[i], player, self.num_players) {
                r.push(coords[i]);
            }
            i += 1;
        }
        r
    }

    /// The actions open to the given player.
    pub fn available_actions_for(&self, player: Player) -> (r: Vec<Action>)
        requires
            self.wf(),
            player < self.num_players,
        ensures
            r@ == actions_spec(*self, player),
    {
        if self.board.is_game_over(self.num_players) {
            return Vec::new();
        }
        let available_moves = self.available_moves_for(player);
        if available_moves.len() == 0 {
            let mut r: Vec<Action> = Vec::new();
            r.push(Action::Pass);
            proof {
                assert(r@ =~= seq![Action::Pass]);
            }
            r
        } else {
            let mut r: Vec<Action> = Vec::new();
            let mut i: usize = 0;
            while i < available_moves.len()
                invariant
                    i <= available_moves@.len(),
                    r@.len() == i,
                    forall|j: int|
                        0 <= j < i ==> #[trigger] r@[j] == Action::Move(available_moves@[j]),
                decreases available_moves@.len() - i,
            {
                r.push(Action::Move(available_moves[i]));
                i += 1;
            }
            proof {
                assert(r@ =~= available_moves@.map(|i: int, c: Coord| Action::Move(c)));
            }
            r
        }
    }

    /// The actions open to whoever moves next.
    pub fn available_actions(&self) -> (r: Vec<Action>)
        requires
            self.wf(),
        ensures
            r@ == actions_spec(*self, self.next_player),
    {
        self.available_actions_for(self.next_player)
    }

    /// Applies one action: a move writes the acting player into the target
    /// cell, a pass writes nothing; either way the turn advances.
    pub fn take_action(&mut self, action: &Action)
        requires
            old(self).wf(),
            action matches Action::Move(c) ==> old(self).board.spec_contains(
                c.x as int,
                c.y as int,
            ),
        ensures
            final(self).wf(),
            final(self).num_players == old(self).num_players,
            final(self).board.width == old(self).board.width,
            final(self).board.height == old(self).board.height,
            final(self).next_player as int == if old(self).next_player as int + 1
                < old(self).num_players {
                old(self).next_player as int + 1
            } else {
                0
            },
            action is Pass ==> final(self).board == old(self).board,
            action matches Action::Move(c) ==> final(self).board.cells@ == old(
                self,
            ).board.cells@.update(
                old(self).board.spec_index(c.x as int, c.y as int),
                Some(old(self).next_player),
            ),
    {
        if let Action::Move(coord) = action {
            let p = self.next_player;
            self.board.set(*coord, p);
        }
        let np8 = self.num_players as u8;
        let next = (self.next_player + 1) % np8;
        proof {
            if self.next_player as int + 1 < np8 as int {
                vstd::arithmetic::div_mod::lemma_small_mod(
                    (self.next_player + 1) as nat,
                    np8 as nat,
                );
            } else {
                vstd::arithmetic::div_mod::lemma_mod_self_0(np8 as int);
            }
        }
        self.next_player = next;
    }
}


/// The board's per-player point counts, as a sequence of eight integers.
pub open spec fn pts_view(b: Board) -> Seq<int> {
    Seq::new(8, |p: int| b.points_spec(p as Player) as int)
}

/// The highest point count among the players 0..k.
pub open spec fn max_pts(pts: Seq<int>, k: int) -> int
    decreases k,
{
    if k <= 1 {
        pts[0]
    } else {
        let m = max_pts(pts, k - 1);
        if pts[k - 1] > m {
            pts[k - 1]
        } else {
            m
        }
    }
}

/// The lowest-indexed player among 0..k with the highest point count.
pub open spec fn first_winner(pts: Seq<int>, k: int) -> int
    decreases k,
{
    if k <= 1 {
        0
    } else {
        let a = first_winner(pts, k - 1);
        if pts[k - 1] > pts[a] {
            k - 1
        } else {
            a
        }
    }
}

/// The highest point count among the players 0..k other than the winner.
pub open spec fn second_pts_upto(pts: Seq<int>, np: int, k: int) -> int
    decreases k,
{
    if k <= 0 {
        0
    } else {
        let rest = second_pts_upto(pts, np, k - 1);
        if k - 1 == first_winner(pts, np) {
            rest
        } else if pts[k - 1] > rest {
            pts[k - 1]
        } else {
            rest
        }
    }
}

/// The runner-up's point count: the second-highest, or the winner's own when
/// there is nobody else.
pub open spec fn runner_up_pts(pts: Seq<int>, np: int) -> int {
    if np <= 1 {
        pts[0]
    } else {
        second_pts_upto(pts, np, np)
    }
}

/// The terminal reward of player p, in tenths: half a point to each of
/// several tied winners and nothing to the rest; a sole winner earns one
/// point plus a tenth per point of margin, and everyone else loses a tenth
/// per point they finished behind the winner.
pub open spec fn reward_spec(pts: Seq<int>, np: int, p: int) -> int {
    let maxv = max_pts(pts, np);
    let second = runner_up_pts(pts, np);
    if second == maxv {
        if pts[p] == maxv {
            5
        } else {
            0
        }
    } else {
        if pts[p] == maxv {
            10 + (maxv - second)
        } else {
            -(maxv - pts[p])
        }
    }
}

/// The whole reward vector, one entry per active player.
pub open spec fn score_spec(pts: Seq<int>, np: int) -> Seq<int> {
    Seq::new(np as nat, |p: int| reward_spec(pts, np, p))
}

/// The winner has the highest count, every player below it a lower one.
pub proof fn lemma_max_props(pts: Seq<int>, k: int)
    requires
        1 <= k,
    ensures
        0 <= first_winner(pts, k) < k,
        max_pts(pts, k) == pts[first_winner(pts, k)],
        forall|q: int| 0 <= q < k ==> #[trigger] pts[q] <= max_pts(pts, k),
        forall|q: int| 0 <= q < first_winner(pts, k) ==> #[trigger] pts[q] < max_pts(pts, k),
    decreases k,
{
    if k > 1 {
        lemma_max_props(pts, k - 1);
    }
}

/// The runner-up's count dominates every player but the winner, and is
/// either zero or achieved by one of them.
pub proof fn lemma_second_props(pts: Seq<int>, np: int, k: int)
    requires
        1 <= np,
        0 <= k <= np,
    ensures
        forall|q: int|
            0 <= q < k && q != first_winner(pts, np) ==> #[trigger] pts[q] <= second_pts_upto(
                pts,
                np,
                k,
            ),
        second_pts_upto(pts, np, k) == 0 || exists|q: int|
            0 <= q < k && q != first_winner(pts, np) && #[trigger] pts[q] == second_pts_upto(
                pts,
                np,
                k,
            ),
    decreases k,
{
    if k > 0 {
        lemma_second_props(pts, np, k - 1);
    }
}

/// LAW: on a terminal board with a single point-lead winner, the winner's
/// reward strictly exceeds every other player's.
pub proof fn lemma_score_single_winner(pts: Seq<int>, np: int, w: int, p: int)
    requires
        2 <= np <= 8,
        forall|q: int| 0 <= q < np ==> #[trigger] pts[q] >= 0,
        0 <= w < np,
        0 <= p < np,
        p != w,
        forall|q: int| 0 <= q < np && q != w ==> #[trigger] pts[q] < pts[w],
    ensures
        reward_spec(pts, np, w) >= 11,
        reward_spec(pts, np, p) <= -1,
        reward_spec(pts, np, w) > reward_spec(pts, np, p),
{
    lemma_max_props(pts, np);
    let fw = first_winner(pts, np);
    assert(fw == w) by {
        if fw != w {
            assert(pts[fw] < pts[w]);
            assert(pts[w] <= max_pts(pts, np));
        }
    }
    lemma_second_props(pts, np, np);
    let second = second_pts_upto(pts, np, np);
    assert(second < max_pts(pts, np)) by {
        let other: int = if w == 0 {
            1
        } else {
            0
        };
        assert(pts[other] >= 0);
        assert(pts[other] < pts[w]);
        if second == 0 {
        } else {
            let q = choose|q: int|
                0 <= q < np && q != first_winner(pts, np) && #[trigger] pts[q] == second_pts_upto(
                    pts,
                    np,
                    np,
                );
            assert(pts[q] < pts[w]);
        }
    }
}

impl GameState {
    /// The terminal reward vector: per-player points are derived from the
    /// influence classification of the whole board, then turned into
    /// relative-ranking rewards in tenths.
    pub fn score(&self) -> (r: Score)
        requires
            self.wf(),
        ensures
            r@.len() == self.num_players as int,
            forall|p: int|
                0 <= p < self.num_players ==> #[trigger] r@[p] as int == reward_spec(
                    pts_view(self.board),
                    self.num_players as int,
                    p,
                ),
            forall|p: int|
                0 <= p < self.num_players ==> -(10 + self.board.cells@.len() as int) <= #[trigger] r@[p]
                    <= 10 + self.board.cells@.len() as int,
    {
        let np = self.num_players;
        let points = self.board.points();
        let ghost ptsv = pts_view(self.board);
        let ghost n = self.board.cells@.len() as int;
        proof {
            assert forall|q: int| 0 <= q < 8 implies #[trigger] ptsv[q] == points@[q] as int
                && 0 <= ptsv[q] <= n by {
                assert(points@[q] == self.board.points_spec(q as Player));
            }
            assert(n < 0x4000_0000_0000_0000) by (nonlinear_arith)
                requires
                    n == self.board.width as int * self.board.height as int,
                    0 <= self.board.width < 0x8000_0000,
                    0 <= self.board.height < 0x8000_0000,
            ;
        }
        let mut winner: usize = 0;
        let mut p: usize = 1;
        while p < np
            invariant
                1 <= p <= np <= 8,
                points@.len() == 8,
                forall|q: int| 0 <= q < 8 ==> #[trigger] ptsv[q] == points@[q] as int,
                winner < p,
                winner as int == first_winner(ptsv, p as int),
            decreases np - p,
        {
            if points[p] > points[winner] {
                winner = p;
            }
            p += 1;
        }
        let mut second: usize = 0;
        let mut q: usize = 0;
        while q < np
            invariant
                q <= np <= 8,
                1 <= np,
                points@.len() == 8,
                forall|t: int| 0 <= t < 8 ==> #[trigger] ptsv[t] == points@[t] as int,
                winner < np,
                winner as int == first_winner(ptsv, np as int),
                second as int == second_pts_upto(ptsv, np as int, q as int),
                second as int <= n || second == 0,
                forall|t: int| 0 <= t < 8 ==> 0 <= #[trigger] ptsv[t] <= n,
                n == self.board.cells@.len() as int,
            decreases np - q,
        {
            proof {
                assert(0 <= ptsv[q as int] <= n);
            }
            if q != winner {
                if points[q] > second {
                    second = points[q];
                }
            }
            q += 1;
        }
        let runner_up: usize = if np == 1 {
            points[0]
        } else {
            second
        };
        proof {
            assert(runner_up as int == runner_up_pts(ptsv, np as int));
            lemma_max_props(ptsv, np as int);
            assert(points@[winner as int] as int == max_pts(ptsv, np as int));
        }
        proof {
            lemma_second_props(ptsv, np as int, np as int);
            assert(0 <= ptsv[0]);
            assert(runner_up as int <= max_pts(ptsv, np as int)) by {
                if np > 1 {
                    if second_pts_upto(ptsv, np as int, np as int) != 0 {
                        let t = choose|t: int|
                            0 <= t < np && t != first_winner(ptsv, np as int) && #[trigger] ptsv[t]
                                == second_pts_upto(ptsv, np as int, np as int);
                        assert(ptsv[t] <= max_pts(ptsv, np as int));
                    }
                }
            }
        }
        let tie = points[winner] == runner_up;
        let mut r: Vec<i64> = Vec::new();
        let mut pi: usize = 0;
        while pi < np
            invariant
                pi <= np <= 8,
                1 <= np,
                points@.len() == 8,
                forall|t: int| 0 <= t < 8 ==> #[trigger] ptsv[t] == points@[t] as int,
                forall|t: int| 0 <= t < 8 ==> 0 <= #[trigger] ptsv[t] <= n,
                n == self.board.cells@.len() as int,
                n < 0x4000_0000_0000_0000,
                winner < np,
                points@[winner as int] as int == max_pts(ptsv, np as int),
                runner_up as int == runner_up_pts(ptsv, np as int),
                tie == (runner_up_pts(ptsv, np as int) == max_pts(ptsv, np as int)),
                runner_up as int <= n,
                runner_up as int <= max_pts(ptsv, np as int),
                forall|t: int| 0 <= t < np ==> #[trigger] ptsv[t] <= max_pts(ptsv, np as int),
                r@.len() == pi,
                forall|t: int|
                    0 <= t < pi ==> #[trigger] r@[t] as int == reward_spec(ptsv, np as int, t),
                forall|t: int| 0 <= t < pi ==> -(10 + n) <= #[trigger] r@[t] <= 10 + n,
            decreases np - pi,
        {
            proof {
                assert(0 <= ptsv[pi as int] <= max_pts(ptsv, np as int));
                assert(0 <= ptsv[winner as int] <= n);
                assert(max_pts(ptsv, np as int) <= n);
            }
            let points_behind_winner = points[winner] - points[pi];
            let entry: i64 = if points_behind_winner == 0 {
                if tie {
                    5
                } else {
                    let points_ahead = points[winner] - runner_up;
                    10 + points_ahead as i64
                }
            } else if tie {
                0i64
            } else {
                0i64 - points_behind_winner as i64
            };
            proof {
                assert(entry as int == reward_spec(ptsv, np as int, pi as int));
            }
            r.push(entry);
            pi += 1;
        }
        r
    }
}


/// How many of the first k cells are empty.
pub open spec fn count_none_upto(s: Seq<Option<Player>>, k: int) -> nat
    decreases k,
{
    if k <= 0 {
        0
    } else {
        count_none_upto(s, k - 1) + if s[k - 1] is None {
            1nat
        } else {
            0nat
        }
    }
}

/// How many cells of the board are empty.
pub open spec fn count_none(s: Seq<Option<Player>>) -> nat {
    count_none_upto(s, s.len() as int)
}

/// Writing a stone into an empty cell lowers the empty-cell count by one.
pub proof fn lemma_count_none_update(s: Seq<Option<Player>>, j: int, p: Player, k: int)
    requires
        0 <= j < s.len(),
        s[j] is None,
        0 <= k <= s.len(),
    ensures
        count_none_upto(s, k) == count_none_upto(s.update(j, Some(p)), k) + if j < k {
            1nat
        } else {
            0nat
        },
    decreases k,
{
    if k > 0 {
        lemma_count_none_update(s, j, p, k - 1);
    }
}

/// The player s turns before q in a rotation of np players.
pub open spec fn back(q: int, s: int, np: int) -> int {
    if q - s >= 0 {
        q - s
    } else {
        q - s + np
    }
}

/// On a board where the game is not yet over, some active player still has a
/// legal placement: any empty cell is a legal move for the most influential
/// active player there.
pub proof fn lemma_not_over_has_mover(b: Board, np: usize)
    requires
        b.wf(),
        1 <= np <= 8,
        b.more_than_one_spec(np as int),
    ensures
        exists|q: Player| q < np && #[trigger] has_valid_move(b, q, np),
{
    let i = choose|i: int|
        0 <= i < b.cells@.len() && (b.influence_at(i) is Tied || b.influence_at(i) is Ruled
            || b.influence_at(i) is Claimed);
    assert(0 <= i < b.cells@.len() && (b.influence_at(i) is Tied || b.influence_at(i) is Ruled
        || b.influence_at(i) is Claimed)) by {
        if b.has_tied_cell() {
            let t = choose|t: int|
                0 <= t < b.cells@.len() && #[trigger] b.influence_at(t) == crate::hobogo::Influence::Tied;
            assert(b.influence_at(t) is Tied);
        } else {
            let (p1, p2) = choose|p1: Player, p2: Player|
                p1 < p2 < np && #[trigger] b.player_has_move(p1) && #[trigger] b.player_has_move(
                    p2,
                );
            let t = choose|t: int|
                0 <= t < b.cells@.len() && (#[trigger] b.influence_at(t)
                    == crate::hobogo::Influence::Ruled(p1) || b.influence_at(t)
                    == crate::hobogo::Influence::Claimed(p1));
            assert(b.influence_at(t) is Ruled || b.influence_at(t) is Claimed);
        }
    }
    lemma_i_to_xy(b, i);
    let x = b.xi(i);
    let y = b.yi(i);
    assert(b.cell_at(x, y) is None);
    crate::hobogo::lemma_argmax_ge(b, x, y, np as int);
    let a = b.argmax_upto(x, y, np as int);
    let c = coord_of(b, i);
    assert(c.x as int == x && c.y as int == y);
    assert(b.valid_move_spec(c, a, np)) by {
        assert forall|q: Player| q < np implies #[trigger] b.infl(c.x as int, c.y as int, q)
            <= b.infl(c.x as int, c.y as int, a) by {
            assert(b.infl(x, y, q) <= b.infl(x, y, a));
        }
    }
    assert(a < np && has_valid_move(b, a, np));
}

impl GameState {
    /// One uniformly random legal placement for whoever moves next, if any.
    fn random_move(&self, rng: &mut rand::rngs::SmallRng) -> (r: Option<Coord>)
        requires
            self.wf(),
        ensures
            r matches Some(c) ==> self.board.valid_move_spec(c, self.next_player, self.num_players),
            r is None ==> !has_valid_move(self.board, self.next_player, self.num_players),
    {
        let mut moves = self.available_moves_for(self.next_player);
        if moves.len() == 0 {
            proof {
                lemma_moves_spec_complete(self.board, self.next_player, self.num_players);
            }
            None
        } else {
            let ghost orig = moves@;
            shuffle(&mut moves, rng);
            let c = moves[0];
            proof {
                broadcast use vstd::seq_lib::group_to_multiset_ensures;

                assert(moves@.contains(c));
                assert(moves@.to_multiset().contains(c));
                assert(orig.to_multiset().contains(c));
                assert(orig.contains(c));
                lemma_moves_upto_complete(
                    self.board,
                    self.next_player,
                    self.num_players,
                    self.board.cells@.len() as int,
                );
            }
            Some(c)
        }
    }

    /// One full random playout, repeated until the game has ended: whoever
    /// moves next places a uniformly random legal stone, or passes when they
    /// have none. Stones are only ever added: every occupied cell keeps its
    /// owner.
    pub fn random_playout(&mut self, rng: &mut rand::rngs::SmallRng)
        requires
            old(self).wf(),
        ensures
            final(self).wf(),
            final(self).num_players == old(self).num_players,
            final(self).board.width == old(self).board.width,
            final(self).board.height == old(self).board.height,
            final(self).board.game_over_spec(old(self).num_players as int),
            forall|x: int, y: int|
                (#[trigger] old(self).board.cell_at(x, y)) is Some ==> final(self).board.cell_at(
                    x,
                    y,
                ) == old(self).board.cell_at(x, y),
    {
        let np = self.num_players;
        let mut streak: usize = 0;
        loop
            invariant
                self.wf(),
                np == self.num_players,
                np == old(self).num_players,
                self.board.width == old(self).board.width,
                self.board.height == old(self).board.height,
                streak < np,
                forall|s: int|
                    1 <= s <= streak ==> !has_valid_move(
                        self.board,
                        back(self.next_player as int, s, np as int) as Player,
                        np,
                    ),
                forall|x: int, y: int|
                    (#[trigger] old(self).board.cell_at(x, y)) is Some ==> self.board.cell_at(
                        x,
                        y,
                    ) == old(self).board.cell_at(x, y),
            ensures
                self.wf(),
                np == self.num_players,
                self.board.width == old(self).board.width,
                self.board.height == old(self).board.height,
                self.board.game_over_spec(np as int),
                forall|x: int, y: int|
                    (#[trigger] old(self).board.cell_at(x, y)) is Some ==> self.board.cell_at(
                        x,
                        y,
                    ) == old(self).board.cell_at(x, y),
            decreases count_none(self.board.cells@), np - streak,
        {
            if self.board.is_game_over(np) {
                break;
            }
            let next = self.next_player;
            match self.random_move(rng) {
                Some(c) => {
                    let ghost pre_board = self.board;
                    let ghost cells0 = self.board.cells@;
                    let ghost j = self.board.spec_index(c.x as int, c.y as int);
                    proof {
                        lemma_index_in_range(self.board, c.x as int, c.y as int);
                    }
                    self.take_action(&Action::Move(c));
                    streak = 0;
                    proof {
                        lemma_count_none_update(cells0, j, next, cells0.len() as int);
                        assert(count_none(self.board.cells@) < count_none(cells0));
                        assert forall|x: int, y: int|
                            (#[trigger] pre_board.cell_at(x, y)) is Some implies self.board.cell_at(
                            x,
                            y,
                        ) == pre_board.cell_at(x, y) by {
                            crate::hobogo::lemma_cell_after_update(
                                pre_board,
                                self.board,
                                c.x as int,
                                c.y as int,
                                next,
                                x,
                                y,
                            );
                        }
                    }
                },
                None => {
                    proof {
                        assert(self.board.more_than_one_spec(np as int));
                        lemma_not_over_has_mover(self.board, np);
                        let qstar = choose|q: Player| q < np && #[trigger] has_valid_move(
                            self.board,
                            q,
                            np,
                        );
                        assert(streak + 1 < np) by {
                            if streak + 1 >= np {
                                if qstar == next {
                                    assert(!has_valid_move(self.board, next, np));
                                } else {
                                    let s: int = if qstar < next {
                                        next as int - qstar as int
                                    } else {
                                        next as int - qstar as int + np as int
                                    };
                                    assert(1 <= s <= streak);
                                    assert(back(next as int, s, np as int) == qstar as int);
                                    assert(!has_valid_move(self.board, qstar, np));
                                }
                            }
                        }
                    }
                    let ghost old_next = self.next_player as int;
                    let ghost old_board = self.board;
                    self.take_action(&Action::Pass);
                    streak = streak + 1;
                    proof {
                        assert(self.board.cells@ == old_board.cells@);
                        assert forall|s: int| 1 <= s <= streak implies !has_valid_move(
                            self.board,
                            back(self.next_player as int, s, np as int) as Player,
                            np,
                        ) by {
                            if s == 1 {
                                assert(back(self.next_player as int, 1, np as int) == old_next);
                                assert(!has_valid_move(old_board, next, np));
                            } else {
                                assert(back(self.next_player as int, s, np as int) == back(
                                    old_next,
                                    s - 1,
                                    np as int,
                                ));
                                assert(!has_valid_move(
                                    old_board,
                                    back(old_next, s - 1, np as int) as Player,
                                    np,
                                ));
                            }
                        }
                    }
                },
            }
        }
    }
}


/// Two boards with the same grid content classify every move alike.
pub open spec fn same_grid(b1: Board, b2: Board) -> bool {
    &&& b1.cells@ == b2.cells@
    &&& b1.width == b2.width
    &&& b1.height == b2.height
}

/// Neighbor tallies depend on the grid content alone.
pub proof fn lemma_same_grid_tallies(b1: Board, b2: Board, x: int, y: int, p: Player, k: int)
    requires
        same_grid(b1, b2),
        0 <= k <= 8,
    ensures
        b1.infl_upto(x, y, p, k) == b2.infl_upto(x, y, p, k),
        b1.empty_upto(x, y, k) == b2.empty_upto(x, y, k),
    decreases k,
{
    if k > 0 {
        lemma_same_grid_tallies(b1, b2, x, y, p, k - 1);
    }
}

/// Move legality depends on the grid content alone.
pub proof fn lemma_same_grid_valid(b1: Board, b2: Board, np: usize)
    requires
        same_grid(b1, b2),
    ensures
        forall|c: Coord, p: Player|
            #[trigger] b1.valid_move_spec(c, p, np) == b2.valid_move_spec(c, p, np),
        forall|p: Player| #[trigger] has_valid_move(b1, p, np) == has_valid_move(b2, p, np),
{
    assert forall|c: Coord, p: Player|
        #[trigger] b1.valid_move_spec(c, p, np) == b2.valid_move_spec(c, p, np) by {
        assert forall|q: Player| #[trigger] b1.infl(c.x as int, c.y as int, q) == b2.infl(
            c.x as int,
            c.y as int,
            q,
        ) by {
            lemma_same_grid_tallies(b1, b2, c.x as int, c.y as int, q, 8);
        }
        if b1.valid_move_spec(c, p, np) {
            assert forall|q: Player| q < np implies #[trigger] b2.infl(c.x as int, c.y as int, q)
                <= b2.infl(c.x as int, c.y as int, p) by {
                assert(b1.infl(c.x as int, c.y as int, q) <= b1.infl(c.x as int, c.y as int, p));
            }
        }
        if b2.valid_move_spec(c, p, np) {
            assert forall|q: Player| q < np implies #[trigger] b1.infl(c.x as int, c.y as int, q)
                <= b1.infl(c.x as int, c.y as int, p) by {
                assert(b2.infl(c.x as int, c.y as int, q) <= b2.infl(c.x as int, c.y as int, p));
            }
        }
    }
    assert forall|p: Player| #[trigger] has_valid_move(b1, p, np) == has_valid_move(b2, p, np) by {
        if has_valid_move(b1, p, np) {
            let c = choose|c: Coord| b1.valid_move_spec(c, p, np);
            assert(b2.valid_move_spec(c, p, np));
        }
        if has_valid_move(b2, p, np) {
            let c = choose|c: Coord| b2.valid_move_spec(c, p, np);
            assert(b1.valid_move_spec(c, p, np));
        }
    }
}

/// The provisional claimant and strength depend on the grid content alone.
pub proof fn lemma_same_grid_claims(b1: Board, b2: Board, np: int, x: int, y: int)
    requires
        same_grid(b1, b2),
    ensures
        b1.argmax_upto(x, y, np) == b2.argmax_upto(x, y, np),
        b1.second_upto(x, y, np, np) == b2.second_upto(x, y, np, np),
        b1.strength_xy(np, x, y) == b2.strength_xy(np, x, y),
        b1.claimant_xy(np, x, y) == b2.claimant_xy(np, x, y),
{
    assert forall|q: Player| #[trigger] b1.infl(x, y, q) == b2.infl(x, y, q) by {
        lemma_same_grid_tallies(b1, b2, x, y, q, 8);
    }
    assert forall|k: int| 0 <= k <= 8 implies #[trigger] b1.argmax_upto(x, y, k)
        == b2.argmax_upto(x, y, k) by {
        lemma_same_grid_argmax(b1, b2, x, y, k);
    }
    assert forall|k: int| 0 <= k <= 8 implies #[trigger] b1.second_upto(x, y, np, k)
        == b2.second_upto(x, y, np, k) by {
        lemma_same_grid_second(b1, b2, x, y, np, k);
    }
    if 0 <= np <= 8 {
        assert(b1.argmax_upto(x, y, np) == b2.argmax_upto(x, y, np));
    } else {
        lemma_same_grid_argmax(b1, b2, x, y, np);
        lemma_same_grid_second(b1, b2, x, y, np, np);
    }
}

/// The provisional leader depends on the grid content alone.
pub proof fn lemma_same_grid_argmax(b1: Board, b2: Board, x: int, y: int, k: int)
    requires
        same_grid(b1, b2),
    ensures
        b1.argmax_upto(x, y, k) == b2.argmax_upto(x, y, k),
    decreases k,
{
    assert forall|q: Player| #[trigger] b1.infl(x, y, q) == b2.infl(x, y, q) by {
        lemma_same_grid_tallies(b1, b2, x, y, q, 8);
    }
    if k > 1 {
        lemma_same_grid_argmax(b1, b2, x, y, k - 1);
    }
}

/// The rival's influence depends on the grid content alone.
pub proof fn lemma_same_grid_second(b1: Board, b2: Board, x: int, y: int, np: int, k: int)
    requires
        same_grid(b1, b2),
    ensures
        b1.second_upto(x, y, np, k) == b2.second_upto(x, y, np, k),
    decreases k,
{
    assert forall|q: Player| #[trigger] b1.infl(x, y, q) == b2.infl(x, y, q) by {
        lemma_same_grid_tallies(b1, b2, x, y, q, 8);
    }
    lemma_same_grid_argmax(b1, b2, x, y, np);
    if k > 0 {
        lemma_same_grid_second(b1, b2, x, y, np, k - 1);
    }
}

/// The pretended claims and the volatile support depend on the grid content
/// alone.
pub proof fn lemma_same_grid_weakening(
    b1: Board,
    b2: Board,
    np: int,
    marks: Seq<bool>,
    x: int,
    y: int,
    k: int,
)
    requires
        same_grid(b1, b2),
        0 <= k <= 8,
    ensures
        b1.penalty_upto(np, x, y, k) == b2.penalty_upto(np, x, y, k),
        b1.support_upto(np, marks, x, y, k) == b2.support_upto(np, marks, x, y, k),
    decreases k,
{
    if k > 0 {
        lemma_same_grid_weakening(b1, b2, np, marks, x, y, k - 1);
        let nx = x + crate::hobogo::doff(k - 1).0;
        let ny = y + crate::hobogo::doff(k - 1).1;
        lemma_same_grid_claims(b1, b2, np, nx, ny);
        lemma_same_grid_claims(b1, b2, np, x, y);
    }
}

/// The whole volatility analysis depends on the grid content alone.
pub proof fn lemma_same_grid_volatile(b1: Board, b2: Board, np: int, k: int)
    requires
        same_grid(b1, b2),
    ensures
        b1.volatile_rounds(np, k) == b2.volatile_rounds(np, k),
    decreases k,
{
    if k <= 0 {
        assert(b1.volatile_rounds(np, k) =~= b2.volatile_rounds(np, k));
    } else {
        lemma_same_grid_volatile(b1, b2, np, k - 1);
        let prev = b1.volatile_rounds(np, k - 1);
        assert forall|i: int| 0 <= i < b1.cells@.len() implies #[trigger] b1.vol_next(np, prev, i)
            == b2.vol_next(np, prev, i) by {
            let x = b1.xi(i);
            let y = b1.yi(i);
            lemma_same_grid_claims(b1, b2, np, x, y);
            lemma_same_grid_weakening(b1, b2, np, prev, x, y, 8);
        }
        assert(b1.volatile_rounds(np, k) =~= b2.volatile_rounds(np, k));
    }
}

/// The influence classification depends on the grid content alone.
pub proof fn lemma_same_grid_influence(b1: Board, b2: Board, x: int, y: int)
    requires
        same_grid(b1, b2),
    ensures
        b1.influence_spec(x, y) == b2.influence_spec(x, y),
{
    assert forall|q: Player| #[trigger] b1.infl(x, y, q) == b2.infl(x, y, q) by {
        lemma_same_grid_tallies(b1, b2, x, y, q, 8);
    }
    lemma_same_grid_tallies(b1, b2, x, y, 0, 8);
    assert forall|p: Player| #[trigger] b1.ruled_by(x, y, p) == b2.ruled_by(x, y, p) by {
        if b1.ruled_by(x, y, p) {
            assert forall|q: Player| q < 8 && q != p implies b2.infl(x, y, q) + b2.empties(x, y)
                < b2.infl(x, y, p) by {
                assert(b1.infl(x, y, q) + b1.empties(x, y) < b1.infl(x, y, p));
            }
        }
        if b2.ruled_by(x, y, p) {
            assert forall|q: Player| q < 8 && q != p implies b1.infl(x, y, q) + b1.empties(x, y)
                < b1.infl(x, y, p) by {
                assert(b2.infl(x, y, q) + b2.empties(x, y) < b2.infl(x, y, p));
            }
        }
    }
    assert forall|p: Player| #[trigger] b1.claimed_by(x, y, p) == b2.claimed_by(x, y, p) by {
        if b1.claimed_by(x, y, p) {
            assert forall|q: Player| q < 8 && q != p implies b2.infl(x, y, q) < b2.infl(
                x,
                y,
                p,
            ) by {
                assert(b1.infl(x, y, q) < b1.infl(x, y, p));
            }
        }
        if b2.claimed_by(x, y, p) {
            assert forall|q: Player| q < 8 && q != p implies b1.infl(x, y, q) < b1.infl(
                x,
                y,
                p,
            ) by {
                assert(b2.infl(x, y, q) < b2.infl(x, y, p));
            }
        }
    }
    crate::hobogo::lemma_influence_classification(b1, x, y);
    crate::hobogo::lemma_influence_classification(b2, x, y);
    match b1.influence_spec(x, y) {
        crate::hobogo::Influence::Occupied(p) => {},
        crate::hobogo::Influence::Ruled(p) => {
            assert(b1.ruled_by(x, y, p));
            assert(b2.ruled_by(x, y, p));
        },
        crate::hobogo::Influence::Claimed(p) => {
            assert(b1.claimed_by(x, y, p) && !b1.ruled_by(x, y, p));
            assert(b2.claimed_by(x, y, p) && !b2.ruled_by(x, y, p));
        },
        crate::hobogo::Influence::Tied => {
            match b2.influence_spec(x, y) {
                crate::hobogo::Influence::Occupied(p) => {},
                crate::hobogo::Influence::Ruled(p) => {
                    assert(b2.ruled_by(x, y, p));
                    assert(b1.ruled_by(x, y, p));
                },
                crate::hobogo::Influence::Claimed(p) => {
                    assert(b2.claimed_by(x, y, p));
                    assert(b1.claimed_by(x, y, p));
                },
                crate::hobogo::Influence::Tied => {},
            }
        },
    }
}

/// Whether the game is over depends on the grid content alone.
pub proof fn lemma_same_grid_game_over(b1: Board, b2: Board, np: int)
    requires
        same_grid(b1, b2),
    ensures
        b1.game_over_spec(np) == b2.game_over_spec(np),
{
    assert forall|i: int| 0 <= i < b1.cells@.len() implies #[trigger] b1.influence_at(i)
        == b2.influence_at(i) by {
        lemma_same_grid_influence(b1, b2, b1.xi(i), b1.yi(i));
    }
    assert(b1.has_tied_cell() == b2.has_tied_cell()) by {
        if b1.has_tied_cell() {
            let i = choose|i: int|
                0 <= i < b1.cells@.len() && #[trigger] b1.influence_at(i)
                    == crate::hobogo::Influence::Tied;
            assert(b2.influence_at(i) == crate::hobogo::Influence::Tied);
        }
        if b2.has_tied_cell() {
            let i = choose|i: int|
                0 <= i < b2.cells@.len() && #[trigger] b2.influence_at(i)
                    == crate::hobogo::Influence::Tied;
            assert(b1.influence_at(i) == crate::hobogo::Influence::Tied);
        }
    }
    assert forall|p: Player| #[trigger] b1.player_has_move(p) == b2.player_has_move(p) by {
        if b1.player_has_move(p) {
            let i = choose|i: int|
                0 <= i < b1.cells@.len() && (#[trigger] b1.influence_at(i)
                    == crate::hobogo::Influence::Ruled(p) || b1.influence_at(i)
                    == crate::hobogo::Influence::Claimed(p));
            assert(b2.influence_at(i) == crate::hobogo::Influence::Ruled(p) || b2.influence_at(i)
                == crate::hobogo::Influence::Claimed(p));
        }
        if b2.player_has_move(p) {
            let i = choose|i: int|
                0 <= i < b2.cells@.len() && (#[trigger] b2.influence_at(i)
                    == crate::hobogo::Influence::Ruled(p) || b2.influence_at(i)
                    == crate::hobogo::Influence::Claimed(p));
            assert(b1.influence_at(i) == crate::hobogo::Influence::Ruled(p) || b1.influence_at(i)
                == crate::hobogo::Influence::Claimed(p));
        }
    }
    assert(b1.more_than_one_spec(np) == b2.more_than_one_spec(np)) by {
        if exists|p1: Player, p2: Player|
            p1 < p2 < np && #[trigger] b1.player_has_move(p1) && #[trigger] b1.player_has_move(
                p2,
            ) {
            let (p1, p2) = choose|p1: Player, p2: Player|
                p1 < p2 < np && #[trigger] b1.player_has_move(p1) && #[trigger] b1.player_has_move(
                    p2,
                );
            assert(b2.player_has_move(p1) && b2.player_has_move(p2));
        }
        if exists|p1: Player, p2: Player|
            p1 < p2 < np && #[trigger] b2.player_has_move(p1) && #[trigger] b2.player_has_move(
                p2,
            ) {
            let (p1, p2) = choose|p1: Player, p2: Player|
                p1 < p2 < np && #[trigger] b2.player_has_move(p1) && #[trigger] b2.player_has_move(
                    p2,
                );
            assert(b1.player_has_move(p1) && b1.player_has_move(p2));
        }
    }
    lemma_same_grid_volatile(b1, b2, np, b1.cells@.len() as int);
    assert(b1.volatile_spec(np) == b2.volatile_spec(np));
    assert((forall|i: int| 0 <= i < b1.cells@.len() ==> !(#[trigger] b1.volatile_spec(np)[i]))
        == (forall|i: int| 0 <= i < b2.cells@.len() ==> !(#[trigger] b2.volatile_spec(np)[i])));
}

/// The integer square root.
pub open spec fn isqrt_spec(x: int) -> int {
    choose|r: int| 0 <= r && #[trigger] (r * r) <= x && x < (r + 1) * (r + 1)
}

/// The integer square root is what its defining property says, uniquely.
pub proof fn lemma_isqrt_unique(x: int, r: int)
    requires
        0 <= r,
        r * r <= x,
        x < (r + 1) * (r + 1),
    ensures
        isqrt_spec(x) == r,
{
    assert(0 <= r && #[trigger] (r * r) <= x && x < (r + 1) * (r + 1));
    let r2 = choose|r2: int| 0 <= r2 && #[trigger] (r2 * r2) <= x && x < (r2 + 1) * (r2 + 1);
    if r2 < r {
        assert((r2 + 1) * (r2 + 1) <= r * r) by (nonlinear_arith)
            requires
                0 <= r2 + 1 <= r,
        ;
    }
    if r2 > r {
        assert((r + 1) * (r + 1) <= r2 * r2) by (nonlinear_arith)
            requires
                0 <= r + 1 <= r2,
        ;
    }
}

/// The integer square root, by bisection.
fn isqrt(x: u64) -> (r: u64)
    ensures
        r * r <= x,
        x < (r + 1) * (r + 1),
        r <= 0xffff_ffff,
        r as int == isqrt_spec(x as int),
{
    let mut lo: u64 = 0;
    let mut hi: u64 = 0x1_0000_0000;
    while lo + 1 < hi
        invariant
            lo < hi <= 0x1_0000_0000,
            (lo as int) * (lo as int) <= x,
            x < (hi as int) * (hi as int),
        decreases hi - lo,
    {
        let mid = lo + (hi - lo) / 2;
        proof {
            assert(lo < mid < hi);
            assert((mid as int) * (mid as int) < 0x1_0000_0000_0000_0000) by (nonlinear_arith)
                requires
                    0 <= mid < 0x1_0000_0000,
            ;
        }
        if mid * mid <= x {
            lo = mid;
        } else {
            hi = mid;
        }
    }
    proof {
        lemma_isqrt_unique(x as int, lo as int);
    }
    lo
}

/// The capped floor of the base-two logarithm: how many halvings, at most
/// cap, bring x below two.
spec fn log2_floor(x: int, cap: int) -> int
    decreases cap,
{
    if x < 2 || cap <= 0 {
        0
    } else {
        1 + log2_floor(x / 2, cap - 1)
    }
}

/// v halved s times.
spec fn halved(v: int, s: int) -> int
    decreases s,
{
    if s <= 0 {
        v
    } else {
        halved(v, s - 1) / 2
    }
}

/// v doubled s times, each doubling skipped once the octave's top is
/// reached.
spec fn doubled_into_octave(v: int, s: int) -> int
    decreases s,
{
    if s <= 0 {
        v
    } else {
        let p = doubled_into_octave(v, s - 1);
        if p < 0x1_0000 {
            p * 2
        } else {
            p
        }
    }
}

/// The mantissa the fixed-point logarithm starts from: m scaled into one
/// octave of the 16-bit fixed-point range.
spec fn ln_mantissa(m: int) -> int {
    let k = log2_floor(m, 63);
    let y = if k >= 16 {
        halved(m, k - 16)
    } else if m < 0x2_0000 {
        doubled_into_octave(m, 16 - k)
    } else {
        doubled_into_octave(0x1_ffff, 16 - k)
    };
    if y >= 0x2_0000 {
        0x1_ffff
    } else {
        y
    }
}

/// i squaring steps of the running mantissa, gathering one fraction bit of
/// the base-two logarithm each.
spec fn frac_bits(y: int, frac: int, i: int) -> (int, int)
    decreases i,
{
    if i <= 0 {
        (y, frac)
    } else {
        let (y1, f1) = frac_bits(y, frac, i - 1);
        let y2 = (y1 * y1) / 0x1_0000;
        if y2 >= 0x2_0000 {
            (y2 / 2, if f1 < 0x8000 {
                f1 * 2 + 1
            } else {
                0xffff
            })
        } else {
            (y2, if f1 < 0x8000 {
                f1 * 2
            } else {
                0xfffe
            })
        }
    }
}

/// The natural logarithm in 16-bit fixed point, exactly as the routine
/// below computes it: the floor of the base-two logarithm as the integer
/// part, sixteen squared-out fraction bits, the whole scaled by ln 2.
spec fn ln_fp_spec(m: int) -> int {
    let k = log2_floor(m, 63);
    let frac = frac_bits(ln_mantissa(m), 0, 16).1;
    let frac16 = if frac < 0x1_0000 {
        frac
    } else {
        0xffff
    };
    ((k * 0x1_0000 + frac16) * 45426) / 0x1_0000
}

/// The natural logarithm in 16-bit fixed point, by normalizing the argument
/// to one octave and squaring out sixteen fractional bits of the base-two
/// logarithm, computing exactly what the spec function above states.
fn ln_fp(m: u64) -> (r: u64)
    requires
        m >= 1,
    ensures
        r <= 0x50_0000,
        r as int == ln_fp_spec(m as int),
{
    let mut k: u64 = 0;
    let mut x: u64 = m;
    while x >= 2 && k < 63
        invariant
            x >= 1,
            k <= 63,
            log2_floor(m as int, 63) == k + log2_floor(x as int, 63 - k),
        decreases x,
    {
        x = x / 2;
        k += 1;
    }
    proof {
        assert(log2_floor(x as int, 63 - k as int) == 0);
        assert(k == log2_floor(m as int, 63));
    }
    let mut y: u64 = if k >= 16 {
        let mut shifted: u64 = m;
        let mut s: u64 = 0;
        while s < k - 16
            invariant
                s <= k - 16,
                k <= 63,
                shifted as int == halved(m as int, s as int),
            decreases k - 16 - s,
        {
            shifted = shifted / 2;
            s += 1;
        }
        shifted
    } else {
        let mut shifted: u64 = if m < 0x2_0000 {
            m
        } else {
            0x1_ffff
        };
        let ghost init = shifted as int;
        let mut s: u64 = 0;
        while s < 16 - k
            invariant
                s <= 16 - k,
                k < 16,
                shifted < 0x2_0000,
                shifted * 0x1_0000 < 0x2_0000_0000_0000,
                shifted as int == doubled_into_octave(init, s as int),
            decreases 16 - k - s,
        {
            if shifted < 0x1_0000 {
                shifted = shifted * 2;
            }
            s += 1;
        }
        shifted
    };
    if y >= 0x2_0000 {
        y = 0x1_ffff;
    }
    proof {
        assert(y as int == ln_mantissa(m as int));
    }
    let ghost y0 = y as int;
    let mut frac: u64 = 0;
    let mut i: usize = 0;
    while i < 16
        invariant
            i <= 16,
            y < 0x2_0000,
            frac <= 0xffff,
            y as int == frac_bits(y0, 0, i as int).0,
            frac as int == frac_bits(y0, 0, i as int).1,
        decreases 16 - i,
    {
        proof {
            assert(y * y < 0x4_0000_0000) by (nonlinear_arith)
                requires
                    y < 0x2_0000,
            ;
        }
        y = (y * y) / 0x1_0000;
        if y >= 0x2_0000 {
            y = y / 2;
            frac = if frac < 0x8000 {
                frac * 2 + 1
            } else {
                0xffff
            };
        } else {
            frac = if frac < 0x8000 {
                frac * 2
            } else {
                0xfffe
            };
        }
        i += 1;
    }
    let frac16 = if frac < 0x1_0000 {
        frac
    } else {
        0xffff
    };
    let log2fp: u64 = k * 0x1_0000 + frac16;
    proof {
        assert(log2fp <= 63 * 0x1_0000 + 0xffff);
        assert(log2fp * 45426 <= 0x40_0000u64 * 45426) by (nonlinear_arith)
            requires
                log2fp <= 0x40_0000,
        ;
    }
    let r = (log2fp * 45426) / 0x1_0000;
    proof {
        vstd::arithmetic::div_mod::lemma_div_is_ordered(
            log2fp as int * 45426,
            0x40_0000int * 45426,
            0x1_0000,
        );
    }
    r
}

/// The selection value of one child in 16-bit fixed point: the mean reward
/// (in whole-point units) plus the exploration bonus
/// sqrt(2 ln(parent visits) / child visits).
spec fn uct_spec(score_sum: int, child_num: int, parent_num: int) -> int {
    let mag = if score_sum < 0 {
        -score_sum
    } else {
        score_sum
    };
    let denom = 10 * child_num;
    let mean_fp = (mag / denom) * 0x1_0000 + ((mag % denom) * 0x1_0000) / denom;
    let ex = isqrt_spec((2 * ln_fp_spec(parent_num) * 0x1_0000) / child_num);
    if score_sum < 0 {
        ex - mean_fp
    } else {
        ex + mean_fp
    }
}

/// The selection value, computed exactly as the spec function states it.
fn uct_value_fp(score_sum: i128, child_num: u64, parent_num: u64, bound: u64) -> (v: i128)
    requires
        child_num >= 1,
        parent_num >= 1,
        -((child_num as int) * (bound as int)) <= score_sum as int <= (child_num as int) * (
        bound as int),
        bound <= 0x4800_0000_0000_0000,
    ensures
        v as int == uct_spec(score_sum as int, child_num as int, parent_num as int),
{
    let neg = score_sum < 0;
    proof {
        assert((child_num as int) * (bound as int)
            < 0x8000_0000_0000_0000_0000_0000_0000_0000int) by (nonlinear_arith)
            requires
                child_num <= 0xffff_ffff_ffff_ffffu64,
                bound <= 0x4800_0000_0000_0000u64,
        ;
    }
    let mag: u128 = if neg {
        (-score_sum) as u128
    } else {
        score_sum as u128
    };
    proof {
        assert(mag <= child_num as u128 * bound as u128) by (nonlinear_arith)
            requires
                -((child_num as int) * (bound as int)) <= score_sum as int <= (child_num as int)
                    * (bound as int),
                mag == if score_sum < 0 {
                    -(score_sum as int)
                } else {
                    score_sum as int
                },
        ;
    }
    let denom: u128 = 10u128 * (child_num as u128);
    let q: u128 = mag / denom;
    let rem: u128 = mag % denom;
    proof {
        assert(q <= bound as u128) by (nonlinear_arith)
            requires
                mag <= child_num as u128 * bound as u128,
                denom == 10 * child_num as u128,
                child_num >= 1,
                q == mag / denom,
        ;
        vstd::arithmetic::div_mod::lemma_mod_bound(mag as int, denom as int);
    }
    let mean_fp: u128 = q * 0x1_0000 + (rem * 0x1_0000) / denom;
    let lnp = ln_fp(parent_num);
    let e: u64 = (2 * lnp * 0x1_0000) / child_num;
    let ex = isqrt(e);
    let v: i128 = if neg {
        (ex as i128) - (mean_fp as i128)
    } else {
        (ex as i128) + (mean_fp as i128)
    };
    v
}


/// Simple Monte Carlo Tree Search implementation. The statistics nodes live
/// in an arena: parallel columns hold each node's visit count, its cumulative
/// reward (for the player who was about to move when the node was reached),
/// and its lazily built children, as (action, node index) pairs. Children are
/// built exactly once, on a node's first visit; a node's children always have
/// larger indices than the node itself.
pub struct Mcts {
    start_state: GameState,
    nums: Vec<u64>,
    score_sums: Vec<i128>,
    children: Vec<Option<Vec<(Action, usize)>>>,
}

impl Mcts {
    /// The state the search starts from.
    pub closed spec fn start(self) -> GameState {
        self.start_state
    }

    /// How many search iterations have completed.
    pub closed spec fn iterations(self) -> u64 {
        self.nums@[0]
    }

    /// The visit counts of the root's children, in the root's once-shuffled
    /// child order; empty before the root has been expanded.
    pub closed spec fn root_visits(self) -> Seq<u64> {
        match self.children@[0] {
            Some(ch) => ch@.map(|j: int, pr: (Action, usize)| self.nums@[pr.1 as int]),
            None => Seq::empty(),
        }
    }

    /// The total number of visits over the root's children.
    pub closed spec fn root_visits_total(self) -> int {
        match self.children@[0] {
            Some(ch) => ids_sum(self.nums@, ch@, ch@.len() as int),
            None => 0,
        }
    }

    /// The action of the root's j-th child.
    pub closed spec fn root_action(self, j: int) -> Action {
        self.children@[0].unwrap()@[j].0
    }

    /// j names a most-visited root child, the first such in the root's child
    /// order: it has been visited, no child has more visits, and every child
    /// before it has strictly fewer.
    pub closed spec fn is_best_index(self, j: int) -> bool {
        &&& 0 <= j < self.root_visits().len()
        &&& self.root_visits()[j] >= 1
        &&& forall|t: int|
            0 <= t < self.root_visits().len() ==> #[trigger] self.root_visits()[t]
                <= self.root_visits()[j]
        &&& forall|t: int| 0 <= t < j ==> #[trigger] self.root_visits()[t] < self.root_visits()[j]
    }

    /// How many nodes the arena holds.
    spec fn n_nodes(self) -> int {
        self.nums@.len() as int
    }

    /// No reward entry can exceed this magnitude, in tenths.
    spec fn bnd(self) -> int {
        10 + self.start_state.board.cells@.len() as int
    }

    /// The three columns of the arena line up and the root exists.
    spec fn lens_ok(self) -> bool {
        &&& self.nums@.len() >= 1
        &&& self.score_sums@.len() == self.nums@.len()
        &&& self.children@.len() == self.nums@.len()
    }

    /// A node's children have indices beyond it, and each move among their
    /// actions names a cell of the board.
    spec fn child_ok(self, k: int) -> bool {
        match self.children@[k] {
            Some(ch) => {
                &&& forall|j: int| 0 <= j < ch@.len() ==> k < (#[trigger] ch@[j]).1 < self.n_nodes()
                &&& forall|j: int|
                    0 <= j < ch@.len() ==> ((#[trigger] ch@[j]).0 matches Action::Move(c)
                        ==> self.start_state.board.spec_contains(c.x as int, c.y as int))
            },
            None => true,
        }
    }

    /// A node is visited at most as often as the root, and its cumulative
    /// reward is bounded by its visit count times the reward bound.
    spec fn stats_ok(self, k: int) -> bool {
        &&& self.nums@[k] <= self.nums@[0]
        &&& -((self.nums@[k] as int) * self.bnd()) <= self.score_sums@[k] as int
            <= (self.nums@[k] as int) * self.bnd()
    }

    /// A visited node has its children built.
    spec fn expanded_ok(self, k: int) -> bool {
        self.nums@[k] >= 1 ==> self.children@[k] is Some
    }

    /// The root's children carry exactly the actions available in the start
    /// state (in some shuffled order), and after any completed iteration at
    /// least one of them has been visited.
    spec fn root_ok(self) -> bool {
        match self.children@[0] {
            Some(ch) => {
                &&& ch@.map(|j: int, pr: (Action, usize)| pr.0).to_multiset() == actions_spec(
                    self.start_state,
                    self.start_state.next_player,
                ).to_multiset()
                &&& (self.nums@[0] >= 1 && ch@.len() > 0 ==> exists|j: int|
                    0 <= j < ch@.len() && self.nums@[(#[trigger] ch@[j]).1 as int] >= 1)
            },
            None => self.nums@[0] == 0,
        }
    }

    /// How many children the root has.
    spec fn root_len(self) -> int {
        match self.children@[0] {
            Some(ch) => ch@.len() as int,
            None => 0,
        }
    }

    /// The root's children occupy the arena slots right after the root, in
    /// order; before the root is expanded the arena holds the root alone.
    spec fn root_ids_ok(self) -> bool {
        match self.children@[0] {
            Some(ch) => forall|j: int| 0 <= j < ch@.len() ==> (#[trigger] ch@[j]).1 == j + 1,
            None => self.nums@.len() == 1,
        }
    }

    /// Children of deeper nodes sit beyond the root's slots, so nobody but
    /// the root lists a root child.
    spec fn above_root_ok(self, k: int) -> bool {
        1 <= k ==> match self.children@[k] {
            Some(ch) => forall|j: int|
                0 <= j < ch@.len() ==> (#[trigger] ch@[j]).1 > self.root_len(),
            None => true,
        }
    }

    /// Every iteration visits exactly one root child, and unvisited root
    /// children are taken before any visited one is revisited: the root
    /// children's visits sum to the iteration count, and the number of
    /// visited root children grows with it until all are covered.
    spec fn root_accounting_ok(self) -> bool {
        match self.children@[0] {
            Some(ch) => {
                &&& (ch@.len() > 0 ==> ids_sum(self.nums@, ch@, ch@.len() as int)
                    == self.nums@[0] as int)
                &&& ids_visited(self.nums@, ch@, ch@.len() as int) == if (self.nums@[0] as int)
                    < ch@.len() as int {
                    self.nums@[0] as int
                } else {
                    ch@.len() as int
                }
            },
            None => true,
        }
    }

    /// The engine invariant.
    pub closed spec fn wf(self) -> bool {
        &&& self.start_state.wf()
        &&& self.lens_ok()
        &&& forall|k: int| 0 <= k < self.n_nodes() ==> #[trigger] self.child_ok(k)
        &&& forall|k: int| 0 <= k < self.n_nodes() ==> #[trigger] self.stats_ok(k)
        &&& forall|k: int| 0 <= k < self.n_nodes() ==> #[trigger] self.expanded_ok(k)
        &&& forall|k: int| 0 <= k < self.n_nodes() ==> #[trigger] self.above_root_ok(k)
        &&& self.root_ok()
        &&& self.root_ids_ok()
        &&& self.root_accounting_ok()
    }

    /// A fresh engine: one unvisited, unexpanded root.
    pub fn new(state: GameState) -> (r: Mcts)
        requires
            state.wf(),
        ensures
            r.wf(),
            r.start() == state,
            r.iterations() == 0,
    {
        let mut nums: Vec<u64> = Vec::new();
        let mut score_sums: Vec<i128> = Vec::new();
        let mut children: Vec<Option<Vec<(Action, usize)>>> = Vec::new();
        nums.push(0);
        score_sums.push(0);
        children.push(None);
        let r = Mcts { start_state: state, nums, score_sums, children };
        proof {
            assert forall|k: int| 0 <= k < r.n_nodes() implies #[trigger] r.child_ok(k)
                && #[trigger] r.stats_ok(k) && #[trigger] r.expanded_ok(k)
                && #[trigger] r.above_root_ok(k) by {
                assert(k == 0);
            }
        }
        r
    }

    /// How many search iterations have completed.
    pub fn num_iterations(&self) -> (r: u64)
        requires
            self.wf(),
        ensures
            r == self.iterations(),
    {
        self.nums[0]
    }

    /// The action of the most visited root child, ties broken by first
    /// encounter; nothing before the first iteration or when the start state
    /// is terminal.
    pub fn best_action(&self) -> (r: Option<Action>)
        requires
            self.wf(),
        ensures
            r matches Some(a) ==> actions_spec(self.start(), self.start().next_player).contains(a),
            self.iterations() >= 1 && actions_spec(self.start(), self.start().next_player).len()
                > 0 ==> r is Some,
            self.iterations() == 0 ==> r is None,
            actions_spec(self.start(), self.start().next_player).len() == 0 ==> r is None,
            r is None <==> (self.root_visits().len() == 0 || forall|t: int|
                0 <= t < self.root_visits().len() ==> #[trigger] self.root_visits()[t] == 0),
            r matches Some(a) ==> exists|j: int|
                #[trigger] self.is_best_index(j) && a == self.root_action(j),
    {
        let ghost acts = actions_spec(self.start(), self.start().next_player);
        match &self.children[0] {
            None => {
                proof {
                    assert(self.nums@[0] == 0);
                    assert(self.root_visits().len() == 0);
                }
                None
            },
            Some(ch) => {
                proof {
                    broadcast use vstd::seq_lib::group_to_multiset_ensures;

                    let mapped = ch@.map(|j: int, pr: (Action, usize)| pr.0);
                    assert(mapped.to_multiset() == acts.to_multiset());
                    assert(mapped.to_multiset().len() == mapped.len());
                    assert(acts.to_multiset().len() == acts.len());
                    assert(mapped.len() == ch@.len());
                    assert(ch@.len() == acts.len());
                    assert(self.child_ok(0));
                }
                let mut best_action: Option<Action> = None;
                let mut most_explored: u64 = 0;
                let ghost mut best_j: int = 0;
                let mut j: usize = 0;
                while j < ch.len()
                    invariant
                        self.wf(),
                        acts == actions_spec(self.start(), self.start().next_player),
                        self.children@[0] == Some(*ch),
                        forall|t: int|
                            0 <= t < ch@.len() ==> 0 <= (#[trigger] ch@[t]).1 < self.n_nodes(),
                        j <= ch@.len(),
                        best_action is Some ==> {
                            &&& 0 <= best_j < j
                            &&& best_action == Some(ch@[best_j].0)
                            &&& most_explored == self.nums@[ch@[best_j].1 as int]
                            &&& most_explored >= 1
                            &&& forall|t: int|
                                0 <= t < j ==> self.nums@[(#[trigger] ch@[t]).1 as int]
                                    <= most_explored
                            &&& forall|t: int|
                                0 <= t < best_j ==> self.nums@[(#[trigger] ch@[t]).1 as int]
                                    < most_explored
                        },
                        best_action is None ==> most_explored == 0 && forall|t: int|
                            0 <= t < j ==> self.nums@[(#[trigger] ch@[t]).1 as int] == 0,
                    decreases ch@.len() - j,
                {
                    let (action, child) = ch[j];
                    if self.nums[child] > most_explored {
                        most_explored = self.nums[child];
                        best_action = Some(action);
                        proof {
                            best_j = j as int;
                        }
                    }
                    j += 1;
                }
                proof {
                    broadcast use vstd::seq_lib::group_to_multiset_ensures;

                    let visits = self.root_visits();
                    assert forall|t: int| 0 <= t < ch@.len() implies #[trigger] visits[t]
                        == self.nums@[ch@[t].1 as int] by {}
                    if best_action is Some {
                        let t = best_j;
                        let mapped = ch@.map(|j2: int, pr: (Action, usize)| pr.0);
                        assert(mapped[t] == ch@[t].0);
                        assert(mapped.contains(ch@[t].0));
                        assert(mapped.to_multiset().contains(ch@[t].0));
                        assert(acts.to_multiset().contains(ch@[t].0));
                        assert(acts.contains(ch@[t].0));
                        assert(self.is_best_index(best_j));
                        assert(best_action == Some(self.root_action(best_j)));
                        assert(self.stats_ok(ch@[best_j].1 as int));
                        assert(self.nums@[0] >= 1);
                    } else {
                        assert(forall|t: int|
                            0 <= t < visits.len() ==> #[trigger] visits[t] == 0);
                    }
                    if self.nums@[0] >= 1 && acts.len() > 0 {
                        assert(ch@.len() > 0);
                        let t = choose|t: int|
                            0 <= t < ch@.len() && self.nums@[(#[trigger] ch@[t]).1 as int] >= 1;
                        assert(best_action is Some);
                    }
                }
                best_action
            },
        }
    }
}



/// The summed visit counts of the listed children.
spec fn ids_sum(nums: Seq<u64>, ch: Seq<(Action, usize)>, k: int) -> int
    decreases k,
{
    if k <= 0 {
        0
    } else {
        ids_sum(nums, ch, k - 1) + nums[ch[k - 1].1 as int]
    }
}

/// How many of the listed children have been visited at least once.
spec fn ids_visited(nums: Seq<u64>, ch: Seq<(Action, usize)>, k: int) -> int
    decreases k,
{
    if k <= 0 {
        0
    } else {
        ids_visited(nums, ch, k - 1) + if nums[ch[k - 1].1 as int] >= 1 {
            1int
        } else {
            0int
        }
    }
}

/// Unvisited children contribute nothing to either count.
proof fn lemma_ids_all_zero(nums: Seq<u64>, ch: Seq<(Action, usize)>, k: int)
    requires
        forall|j: int| 0 <= j < k ==> nums[(#[trigger] ch[j]).1 as int] == 0,
    ensures
        ids_sum(nums, ch, k) == 0,
        ids_visited(nums, ch, k) == 0,
    decreases k,
{
    if k > 0 {
        lemma_ids_all_zero(nums, ch, k - 1);
    }
}

/// Two visit columns that agree on the listed children count alike.
proof fn lemma_ids_congruent(n1: Seq<u64>, n2: Seq<u64>, ch: Seq<(Action, usize)>, k: int)
    requires
        forall|j: int| 0 <= j < k ==> n1[(#[trigger] ch[j]).1 as int] == n2[ch[j].1 as int],
    ensures
        ids_sum(n1, ch, k) == ids_sum(n2, ch, k),
        ids_visited(n1, ch, k) == ids_visited(n2, ch, k),
    decreases k,
{
    if k > 0 {
        lemma_ids_congruent(n1, n2, ch, k - 1);
    }
}

/// One extra visit on one listed child raises the sum by one, and the
/// visited count by one exactly when that child had never been visited.
proof fn lemma_ids_one_increment(
    n1: Seq<u64>,
    n2: Seq<u64>,
    ch: Seq<(Action, usize)>,
    k: int,
    c: int,
)
    requires
        forall|j: int| 0 <= j < k ==> (#[trigger] ch[j]).1 == j + 1,
        forall|j: int|
            0 <= j < k ==> if j + 1 == c {
                n2[(#[trigger] ch[j]).1 as int] as int == n1[ch[j].1 as int] as int + 1
            } else {
                n2[ch[j].1 as int] == n1[ch[j].1 as int]
            },
    ensures
        ids_sum(n2, ch, k) == ids_sum(n1, ch, k) + if 1 <= c <= k {
            1int
        } else {
            0int
        },
        ids_visited(n2, ch, k) == ids_visited(n1, ch, k) + if 1 <= c <= k && n1[ch[c - 1].1
            as int] == 0 {
            1int
        } else {
            0int
        },
    decreases k,
{
    if k > 0 {
        lemma_ids_one_increment(n1, n2, ch, k - 1, c);
    }
}

/// The visited count runs over each listed child once, and reaches the
/// child count exactly when every listed child has been visited.
proof fn lemma_ids_visited_full(nums: Seq<u64>, ch: Seq<(Action, usize)>, k: int)
    requires
        0 <= k,
    ensures
        0 <= ids_visited(nums, ch, k) <= k,
        ids_visited(nums, ch, k) == k <==> (forall|j: int|
            0 <= j < k ==> nums[(#[trigger] ch[j]).1 as int] >= 1),
    decreases k,
{
    if k > 0 {
        lemma_ids_visited_full(nums, ch, k - 1);
        if ids_visited(nums, ch, k) == k {
            assert forall|j: int| 0 <= j < k implies nums[(#[trigger] ch[j]).1 as int] >= 1 by {
                if j < k - 1 {
                } else {
                    assert(ids_visited(nums, ch, k - 1) <= k - 1);
                }
            }
        }
    }
}

/// Every move among the actions open to whoever moves next is legal for them.
pub proof fn lemma_actions_are_moves(s: GameState)
    requires
        s.wf(),
    ensures
        forall|a: Action|
            #[trigger] actions_spec(s, s.next_player).contains(a) ==> (a matches Action::Move(c)
                ==> s.board.valid_move_spec(c, s.next_player, s.num_players)),
{
    let acts = actions_spec(s, s.next_player);
    let moves = moves_spec(s.board, s.next_player, s.num_players);
    lemma_moves_upto_complete(
        s.board,
        s.next_player,
        s.num_players,
        s.board.cells@.len() as int,
    );
    assert forall|a: Action| #[trigger] acts.contains(a) implies (a matches Action::Move(c)
        ==> s.board.valid_move_spec(c, s.next_player, s.num_players)) by {
        match a {
            Action::Move(c) => {
                if acts.contains(a) {
                    if moves.len() > 0 {
                        let j = choose|j: int| 0 <= j < acts.len() && acts[j] == a;
                        assert(moves[j] == c);
                        assert(moves.contains(c));
                    } else {
                        assert(acts == Seq::<Action>::empty() || acts == seq![Action::Pass]);
                        let j = choose|j: int| 0 <= j < acts.len() && acts[j] == a;
                    }
                }
            },
            Action::Pass => {},
        }
    }
}

/// A shuffled copy of the open actions still holds only legal moves.
pub proof fn lemma_shuffled_actions_valid(s: GameState, shuffled: Seq<Action>)
    requires
        s.wf(),
        shuffled.to_multiset() == actions_spec(s, s.next_player).to_multiset(),
    ensures
        forall|j: int|
            0 <= j < shuffled.len() ==> ((#[trigger] shuffled[j]) matches Action::Move(c)
                ==> s.board.valid_move_spec(c, s.next_player, s.num_players)),
{
    broadcast use vstd::seq_lib::group_to_multiset_ensures;

    lemma_actions_are_moves(s);
    let acts = actions_spec(s, s.next_player);
    assert forall|j: int|
        0 <= j < shuffled.len() implies ((#[trigger] shuffled[j]) matches Action::Move(c)
        ==> s.board.valid_move_spec(c, s.next_player, s.num_players)) by {
        assert(shuffled.contains(shuffled[j]));
        assert(shuffled.to_multiset().contains(shuffled[j]));
        assert(acts.to_multiset().contains(shuffled[j]));
        assert(acts.contains(shuffled[j]));
    }
}

/// A sequence whose consecutive entries strictly increase is strictly
/// increasing overall.
pub proof fn lemma_path_increasing(p: Seq<usize>, s1: int, s2: int)
    requires
        forall|s: int| 0 <= s < p.len() - 1 ==> #[trigger] p[s] < p[s + 1],
        0 <= s1 < s2 < p.len(),
    ensures
        p[s1] < p[s2],
    decreases s2 - s1,
{
    if s1 + 1 < s2 {
        lemma_path_increasing(p, s1 + 1, s2);
    }
    assert(p[s1] < p[s1 + 1]);
}

impl Mcts {
    /// Appends one fresh unvisited node per action and installs the list as
    /// node k's children, in the order given (already shuffled by the
    /// caller).
    fn expand_at(&mut self, k: usize, actions: Vec<Action>)
        requires
            old(self).wf(),
            (k as int) < old(self).n_nodes(),
            old(self).children@[k as int] is None,
            forall|j: int|
                0 <= j < actions@.len() ==> ((#[trigger] actions@[j]) matches Action::Move(c)
                    ==> old(self).start_state.board.spec_contains(c.x as int, c.y as int)),
            k == 0 ==> actions@.to_multiset() == actions_spec(
                old(self).start_state,
                old(self).start_state.next_player,
            ).to_multiset(),
        ensures
            final(self).wf(),
            final(self).start_state == old(self).start_state,
            final(self).n_nodes() == old(self).n_nodes() + actions@.len(),
            forall|j: int|
                0 <= j < old(self).n_nodes() ==> final(self).nums@[j] == old(self).nums@[j],
            forall|j: int|
                0 <= j < old(self).n_nodes() ==> final(self).score_sums@[j] == old(
                    self,
                ).score_sums@[j],
            forall|j: int|
                0 <= j < old(self).n_nodes() && j != k ==> final(self).children@[j] == old(
                    self,
                ).children@[j],
            final(self).children@[k as int] is Some,
            forall|j: int|
                old(self).n_nodes() <= j < final(self).n_nodes() ==> final(self).nums@[j] == 0,
    {
        let ghost base = self.nums@.len() as int;
        let ghost onums = self.nums@;
        let ghost osums = self.score_sums@;
        let ghost och = self.children@;
        let mut ch: Vec<(Action, usize)> = Vec::new();
        let mut t: usize = 0;
        while t < actions.len()
            invariant
                t <= actions@.len(),
                ch@.len() == t,
                base >= 1,
                (k as int) < base,
                self.nums@.len() == base + t,
                self.score_sums@.len() == base + t,
                self.children@.len() == base + t,
                self.nums@.subrange(0, base) == onums,
                self.score_sums@.subrange(0, base) == osums,
                self.children@.subrange(0, base) == och,
                self.start_state == old(self).start_state,
                forall|j: int|
                    0 <= j < t ==> #[trigger] ch@[j] == (actions@[j], (base + j) as usize)
                        && base + j <= usize::MAX,
                forall|j: int| base <= j < self.nums@.len() ==> #[trigger] self.nums@[j] == 0,
                forall|j: int|
                    base <= j < self.nums@.len() ==> #[trigger] self.score_sums@[j] == 0,
                forall|j: int|
                    base <= j < self.nums@.len() ==> (#[trigger] self.children@[j]) is None,
            decreases actions@.len() - t,
        {
            self.nums.push(0);
            self.score_sums.push(0);
            self.children.push(None);
            ch.push((actions[t], self.nums.len() - 1));
            proof {
                assert(self.nums@.subrange(0, base) =~= onums);
                assert(self.score_sums@.subrange(0, base) =~= osums);
                assert(self.children@.subrange(0, base) =~= och);
            }
            t += 1;
        }
        self.children.set(k, Some(ch));
        proof {
            let s = *self;
            let kch = s.children@[k as int].unwrap();
            assert forall|kk: int| 0 <= kk < s.n_nodes() implies #[trigger] s.child_ok(kk) by {
                if kk == k {
                    assert forall|j: int| 0 <= j < kch@.len() implies (k as int) < (
                    #[trigger] kch@[j]).1 < s.n_nodes() && (kch@[j].0 matches Action::Move(c)
                        ==> s.start_state.board.spec_contains(c.x as int, c.y as int)) by {
                        assert(kch@[j] == (actions@[j], (base + j) as usize));
                    }
                } else if kk < base {
                    assert(old(self).child_ok(kk));
                    assert(s.children@[kk] == old(self).children@[kk]);
                } else {
                    assert(s.children@[kk] is None);
                }
            }
            assert forall|kk: int| 0 <= kk < s.n_nodes() implies #[trigger] s.stats_ok(kk) by {
                assert(s.nums@[0] == onums[0]);
                if kk < base {
                    assert(old(self).stats_ok(kk));
                    assert(s.nums@[kk] == old(self).nums@[kk]);
                    assert(s.score_sums@[kk] == old(self).score_sums@[kk]);
                } else {
                    assert(s.nums@[kk] == 0);
                    assert(s.score_sums@[kk] == 0);
                }
            }
            assert forall|kk: int| 0 <= kk < s.n_nodes() implies #[trigger] s.expanded_ok(kk) by {
                if kk == k {
                    assert(s.children@[kk] is Some);
                } else if kk < base {
                    assert(old(self).expanded_ok(kk));
                    assert(s.children@[kk] == old(self).children@[kk]);
                    assert(s.nums@[kk] == old(self).nums@[kk]);
                } else {
                    assert(s.nums@[kk] == 0);
                }
            }
            assert(s.root_ok()) by {
                if k == 0 {
                    let mapped = kch@.map(|j: int, pr: (Action, usize)| pr.0);
                    assert(mapped =~= actions@);
                    assert(old(self).root_ok());
                    assert(s.nums@[0] == 0);
                } else {
                    assert(s.children@[0] == old(self).children@[0]);
                    assert(old(self).root_ok());
                    match s.children@[0] {
                        Some(rch) => {
                            assert(s.nums@[0] == old(self).nums@[0]);
                            if s.nums@[0] >= 1 && rch@.len() > 0 {
                                let j = choose|j: int|
                                    0 <= j < rch@.len()
                                        && old(self).nums@[(#[trigger] rch@[j]).1 as int] >= 1;
                                assert(old(self).child_ok(0));
                                assert(0 <= rch@[j].1 < base);
                                assert(s.nums@[rch@[j].1 as int] >= 1);
                            }
                        },
                        None => {},
                    }
                }
            }
            assert(s.start_state.wf());
            assert(s.lens_ok());
            assert(s.root_ids_ok()) by {
                if k == 0 {
                    assert(old(self).nums@.len() == 1);
                    assert(base == 1);
                    assert forall|j: int| 0 <= j < kch@.len() implies (#[trigger] kch@[j]).1 == j
                        + 1 by {
                        assert(kch@[j] == (actions@[j], (base + j) as usize));
                    }
                } else {
                    assert(s.children@[0] == old(self).children@[0]);
                    assert(old(self).root_ids_ok());
                    assert(old(self).children@[0] is Some) by {
                        if old(self).children@[0] is None {
                            assert(old(self).nums@.len() == 1);
                        }
                    }
                }
            }
            assert forall|kk: int| 0 <= kk < s.n_nodes() implies #[trigger] s.above_root_ok(
                kk,
            ) by {
                assert(s.root_len() == old(self).root_len() || k == 0);
                if kk == k && k >= 1 {
                    assert(old(self).root_ids_ok());
                    assert(old(self).child_ok(0));
                    let orl = old(self).root_len();
                    assert(orl < base) by {
                        match old(self).children@[0] {
                            Some(rch) => {
                                if rch@.len() > 0 {
                                    assert(rch@[orl - 1].1 == orl);
                                    assert(rch@[orl - 1].1 < base);
                                }
                            },
                            None => {},
                        }
                    }
                    assert forall|j: int| 0 <= j < kch@.len() implies (#[trigger] kch@[j]).1
                        > s.root_len() by {
                        assert(kch@[j] == (actions@[j], (base + j) as usize));
                    }
                } else if kk == k && k == 0 {
                } else if kk < base {
                    assert(old(self).above_root_ok(kk));
                    assert(s.children@[kk] == old(self).children@[kk]);
                    if k == 0 {
                        assert(old(self).children@[0] is None);
                        assert(old(self).nums@.len() == 1);
                    }
                } else {
                    assert(s.children@[kk] is None);
                }
            }
            assert(s.root_accounting_ok()) by {
                if k == 0 {
                    assert(s.nums@[0] == 0);
                    assert forall|j: int| 0 <= j < kch@.len() implies s.nums@[(
                    #[trigger] kch@[j]).1 as int] == 0 by {
                        assert(kch@[j] == (actions@[j], (base + j) as usize));
                    }
                    lemma_ids_all_zero(s.nums@, kch@, kch@.len() as int);
                } else {
                    assert(s.children@[0] == old(self).children@[0]);
                    match old(self).children@[0] {
                        Some(rch) => {
                            assert(old(self).root_accounting_ok());
                            assert(old(self).root_ids_ok());
                            assert(old(self).child_ok(0));
                            assert forall|j: int|
                                0 <= j < rch@.len() implies old(self).nums@[(
                            #[trigger] rch@[j]).1 as int] == s.nums@[rch@[j].1 as int] by {
                                assert(0 <= rch@[j].1 < base);
                            }
                            lemma_ids_congruent(old(self).nums@, s.nums@, rch@,
                                rch@.len() as int);
                        },
                        None => {
                            assert(old(self).nums@.len() == 1);
                        },
                    }
                }
            }
            assert(s.wf());
        }
    }

    /// The selection value of node cur's t-th child: its mean reward plus
    /// the exploration bonus, in fixed point, with an unvisited parent
    /// counted as visited once.
    spec fn sel_value(self, cur: int, t: int) -> int {
        let ch = self.children@[cur].unwrap()@;
        let pn: int = if self.nums@[cur] == 0 {
            1
        } else {
            self.nums@[cur] as int
        };
        uct_spec(self.score_sums@[ch[t].1 as int] as int, self.nums@[ch[t].1 as int] as int, pn)
    }

    /// Picks which child of node cur to descend into: the first never-visited
    /// child if any (breadth first), else the one with the highest selection
    /// value, ties broken by first encounter.
    fn select_index(&self, cur: usize) -> (r: usize)
        requires
            self.wf(),
            (cur as int) < self.n_nodes(),
            self.children@[cur as int] is Some,
            self.children@[cur as int].unwrap()@.len() > 0,
            self.start_state.board.cells@.len() < 0x4000_0000_0000_0000,
        ensures
            (r as int) < self.children@[cur as int].unwrap()@.len(),
            forall|t: int|
                0 <= t < r ==> self.nums@[(#[trigger] self.children@[cur as int].unwrap()@[t]).1
                    as int] >= 1,
            (exists|t: int|
                0 <= t < self.children@[cur as int].unwrap()@.len() && self.nums@[(
                #[trigger] self.children@[cur as int].unwrap()@[t]).1 as int] == 0)
                ==> self.nums@[self.children@[cur as int].unwrap()@[r as int].1 as int] == 0,
            (forall|t: int|
                0 <= t < self.children@[cur as int].unwrap()@.len() ==> self.nums@[(
                #[trigger] self.children@[cur as int].unwrap()@[t]).1 as int] >= 1) ==> {
                &&& forall|t: int|
                    0 <= t < self.children@[cur as int].unwrap()@.len()
                        ==> #[trigger] self.sel_value(cur as int, t) <= self.sel_value(
                        cur as int,
                        r as int,
                    )
                &&& forall|t: int|
                    0 <= t < r ==> #[trigger] self.sel_value(cur as int, t) < self.sel_value(
                        cur as int,
                        r as int,
                    )
            },
    {
        match &self.children[cur] {
            Some(ch) => {
                proof {
                    assert(self.child_ok(cur as int));
                }
                let mut unvisited: usize = 0;
                let mut found: bool = false;
                let mut j: usize = 0;
                while j < ch.len()
                    invariant
                        j <= ch@.len(),
                        self.wf(),
                        (cur as int) < self.n_nodes(),
                        self.children@[cur as int] == Some(*ch),
                        forall|t: int|
                            0 <= t < ch@.len() ==> (cur as int) < (#[trigger] ch@[t]).1
                                < self.n_nodes(),
                        found ==> unvisited < ch@.len() && self.nums@[ch@[unvisited as int].1
                            as int] == 0,
                        found ==> forall|t: int|
                            0 <= t < unvisited ==> self.nums@[(#[trigger] ch@[t]).1 as int] >= 1,
                        !found ==> forall|t: int|
                            0 <= t < j ==> self.nums@[(#[trigger] ch@[t]).1 as int] >= 1,
                    decreases ch@.len() - j,
                {
                    if !found && self.nums[ch[j].1] == 0 {
                        unvisited = j;
                        found = true;
                    }
                    j += 1;
                }
                if found {
                    unvisited
                } else {
                    let bnd_exec: u64 = 10 + (self.start_state.board.cells.len() as u64);
                    let pn: u64 = if self.nums[cur] == 0 {
                        1
                    } else {
                        self.nums[cur]
                    };
                    let c0 = ch[0].1;
                    proof {
                        assert(self.stats_ok(c0 as int));
                    }
                    let mut best_v: i128 = uct_value_fp(
                        self.score_sums[c0],
                        self.nums[c0],
                        pn,
                        bnd_exec,
                    );
                    let mut best_j: usize = 0;
                    let mut j2: usize = 1;
                    while j2 < ch.len()
                        invariant
                            1 <= j2 <= ch@.len(),
                            ch@.len() > 0,
                            self.wf(),
                            (cur as int) < self.n_nodes(),
                            self.children@[cur as int] == Some(*ch),
                            bnd_exec as int == 10 + self.start_state.board.cells@.len() as int,
                            bnd_exec <= 0x4800_0000_0000_0000,
                            pn as int == if self.nums@[cur as int] == 0 {
                                1int
                            } else {
                                self.nums@[cur as int] as int
                            },
                            best_j < j2,
                            best_v as int == self.sel_value(cur as int, best_j as int),
                            forall|t: int|
                                0 <= t < j2 ==> #[trigger] self.sel_value(cur as int, t)
                                    <= best_v as int,
                            forall|t: int|
                                0 <= t < best_j ==> #[trigger] self.sel_value(cur as int, t)
                                    < best_v as int,
                            forall|t: int|
                                0 <= t < ch@.len() ==> (cur as int) < (#[trigger] ch@[t]).1
                                    < self.n_nodes(),
                            forall|t: int|
                                0 <= t < ch@.len() ==> self.nums@[(#[trigger] ch@[t]).1 as int]
                                    >= 1,
                        decreases ch@.len() - j2,
                    {
                        let c = ch[j2].1;
                        proof {
                            assert(self.stats_ok(c as int));
                        }
                        let v = uct_value_fp(self.score_sums[c], self.nums[c], pn, bnd_exec);
                        proof {
                            assert(v as int == self.sel_value(cur as int, j2 as int));
                        }
                        if v > best_v {
                            best_v = v;
                            best_j = j2;
                        }
                        j2 += 1;
                    }
                    best_j
                }
            },
            None => {
                proof {
                    assert(false);
                }
                0
            },
        }
    }

    /// Walks back up the visited path: every node on it gains one visit and
    /// adds to its cumulative reward the entry of the player who was about to
    /// move when the node's action was taken.
    #[verifier::rlimit(100)]
    fn backprop(&mut self, path: &Vec<usize>, opts: &Vec<u8>, value: &Vec<i64>)
        requires
            old(self).wf(),
            old(self).nums@[0] < u64::MAX,
            path@.len() >= 1,
            opts@.len() == path@.len(),
            path@[0] == 0,
            forall|s: int|
                0 <= s < path@.len() ==> 0 <= #[trigger] path@[s] < old(self).n_nodes() && old(
                    self,
                ).children@[path@[s] as int] is Some,
            forall|s: int|
                0 <= s < opts@.len() ==> (#[trigger] opts@[s] as usize) < old(
                    self,
                ).start_state.num_players,
            forall|s: int| 0 <= s < path@.len() - 1 ==> #[trigger] path@[s] < path@[s + 1],
            value@.len() == old(self).start_state.num_players,
            forall|p: int|
                0 <= p < value@.len() ==> -old(self).bnd() <= #[trigger] value@[p] <= old(
                    self,
                ).bnd(),
            path@.len() >= 2 ==> (match old(self).children@[0] {
                Some(rch) => exists|j: int|
                    0 <= j < rch@.len() && (#[trigger] rch@[j]).1 == path@[1],
                None => false,
            }),
            (match old(self).children@[0] {
                Some(rch) => rch@.len() > 0 ==> path@.len() >= 2,
                None => false,
            }),
            (match old(self).children@[0] {
                Some(rch) => {
                    &&& forall|t: int| 2 <= t < path@.len() ==> #[trigger] path@[t] > rch@.len()
                    &&& (path@.len() >= 2 && (old(self).nums@[0] as int) < rch@.len() ==> old(
                        self,
                    ).nums@[path@[1] as int] == 0)
                },
                None => true,
            }),
        ensures
            final(self).wf(),
            final(self).start_state == old(self).start_state,
            final(self).nums@[0] as int == old(self).nums@[0] as int + 1,
    {
        let ghost bnd = self.bnd();
        let ghost onums = self.nums@;
        let ghost osums = self.score_sums@;
        let np = self.start_state.num_players;
        let n = self.nums.len();
        proof {
            assert(self.start_state.board.cells@.len() < 0x4000_0000_0000_0000)
                by (nonlinear_arith)
                requires
                    self.start_state.board.cells@.len() == self.start_state.board.width as int
                        * self.start_state.board.height as int,
                    0 <= self.start_state.board.width < 0x8000_0000,
                    0 <= self.start_state.board.height < 0x8000_0000,
            ;
            assert forall|k: int| 0 <= k < n implies #[trigger] onums[k] <= onums[0] && -((
            onums[k] as int) * bnd) <= osums[k] as int <= (onums[k] as int) * bnd by {
                assert(old(self).stats_ok(k));
            }
        }
        let mut t: usize = 0;
        while t < path.len()
            invariant
                t <= path@.len(),
                path@.len() >= 1,
                opts@.len() == path@.len(),
                path@[0] == 0,
                self.nums@.len() == n,
                self.score_sums@.len() == n,
                self.children@ == old(self).children@,
                self.start_state == old(self).start_state,
                onums[0] < u64::MAX,
                bnd <= 0x4000_0000_0000_0010,
                value@.len() == np,
                forall|p: int| 0 <= p < np ==> -bnd <= #[trigger] value@[p] <= bnd,
                forall|s: int|
                    0 <= s < path@.len() ==> 0 <= #[trigger] path@[s] < n
                        && self.children@[path@[s] as int] is Some,
                forall|s: int| 0 <= s < opts@.len() ==> (#[trigger] opts@[s] as usize) < np,
                forall|s: int| 0 <= s < path@.len() - 1 ==> #[trigger] path@[s] < path@[s + 1],
                t >= 1 ==> self.nums@[0] as int == onums[0] as int + 1,
                forall|s: int|
                    0 <= s < t ==> self.nums@[(#[trigger] path@[s]) as int] as int
                        == onums[path@[s] as int] as int + 1,
                forall|k: int|
                    0 <= k < n ==> #[trigger] self.nums@[k] as int <= onums[0] as int + 1,
                forall|k: int|
                    0 <= k < n ==> -((self.nums@[k] as int) * bnd) <= (
                    #[trigger] self.score_sums@[k]) as int <= (self.nums@[k] as int) * bnd,
                forall|k: int| 0 <= k < n ==> #[trigger] onums[k] <= onums[0],
                forall|k: int| #![trigger self.nums@[k]]
                    0 <= k < n && (self.nums@[k] != onums[k] || self.score_sums@[k] != osums[k])
                        ==> exists|w: int| 0 <= w < t && #[trigger] path@[w] == k,
            decreases path@.len() - t,
        {
            let k = path[t];
            let o = opts[t];
            let v = value[o as usize];
            let ghost prev_nums = self.nums@;
            let ghost prev_sums = self.score_sums@;
            proof {
                assert(self.nums@[k as int] == onums[k as int]
                    && self.score_sums@[k as int] == osums[k as int]) by {
                    if self.nums@[k as int] != onums[k as int] || self.score_sums@[k as int]
                        != osums[k as int] {
                        assert(exists|w: int| 0 <= w < t && #[trigger] path@[w] == k as int);
                        let w = choose|w: int| 0 <= w < t && #[trigger] path@[w] == k as int;
                        assert(0 <= w < t && path@[w] == k as int);
                        lemma_path_increasing(path@, w, t as int);
                    }
                }
                assert(self.nums@[k as int] as int + 1 <= onums[0] as int + 1);
                assert((self.nums@[k as int] as int + 1) * bnd <= 0x1_0000_0000_0000_0000
                    * 0x4000_0000_0000_0010) by (nonlinear_arith)
                    requires
                        0 <= self.nums@[k as int] as int + 1 <= 0x1_0000_0000_0000_0000,
                        0 <= bnd <= 0x4000_0000_0000_0010,
                ;
                assert((self.nums@[k as int] as int + 1) * bnd == (self.nums@[k as int] as int)
                    * bnd + bnd) by (nonlinear_arith);
            }
            let old_num = self.nums[k];
            self.nums.set(k, old_num + 1);
            let old_sum = self.score_sums[k];
            self.score_sums.set(k, old_sum + (v as i128));
            proof {
                assert forall|k2: int| #![trigger self.nums@[k2]]
                    0 <= k2 < n && (self.nums@[k2] != onums[k2] || self.score_sums@[k2]
                        != osums[k2]) implies exists|w: int|
                    0 <= w < t + 1 && #[trigger] path@[w] == k2 by {
                    if k2 == k as int {
                        assert(path@[t as int] == k2);
                    } else {
                        assert(self.nums@[k2] == prev_nums[k2]);
                        assert(self.score_sums@[k2] == prev_sums[k2]);
                        assert(exists|w: int| 0 <= w < t && #[trigger] path@[w] == k2);
                        let w = choose|w: int| 0 <= w < t && #[trigger] path@[w] == k2;
                        assert(0 <= w < t + 1 && path@[w] == k2);
                    }
                }
            }
            t += 1;
        }
        proof {
            let s = *self;
            assert(s.nums@[0] as int == onums[0] as int + 1);
            assert forall|k: int| 0 <= k < s.n_nodes() implies #[trigger] s.child_ok(k) by {
                assert(old(self).child_ok(k));
                assert(s.children@[k] == old(self).children@[k]);
            }
            assert forall|k: int| 0 <= k < s.n_nodes() implies #[trigger] s.stats_ok(k) by {
                assert(s.nums@[k] as int <= onums[0] as int + 1);
            }
            assert forall|k: int| 0 <= k < s.n_nodes() implies #[trigger] s.expanded_ok(k) by {
                assert(old(self).expanded_ok(k));
                assert(s.children@[k] == old(self).children@[k]);
                if s.nums@[k] != onums[k] {
                    assert(exists|w: int| 0 <= w < path@.len() as int && #[trigger] path@[w] == k)
                        by {
                        assert(exists|w: int| 0 <= w < t && #[trigger] path@[w] == k);
                    };
                    let w = choose|w: int| 0 <= w < path@.len() && #[trigger] path@[w] == k;
                    assert(0 <= w < path@.len() && path@[w] == k);
                    assert(s.children@[path@[w] as int] is Some);
                }
            }
            assert(s.root_ok()) by {
                match s.children@[0] {
                    Some(rch) => {
                        assert(old(self).root_ok());
                        if rch@.len() > 0 {
                            assert(path@.len() >= 2);
                            let j = choose|j: int|
                                0 <= j < rch@.len() && (#[trigger] rch@[j]).1 == path@[1];
                            assert(s.nums@[path@[1] as int] as int == onums[path@[1] as int] as int
                                + 1);
                            assert(s.nums@[rch@[j].1 as int] >= 1);
                        }
                    },
                    None => {
                        assert(s.children@[path@[0] as int] is Some);
                    },
                }
            }
            assert(s.root_ids_ok() && (forall|k: int|
                0 <= k < s.n_nodes() ==> #[trigger] s.above_root_ok(k))) by {
                assert(old(self).root_ids_ok());
                assert forall|k: int| 0 <= k < s.n_nodes() implies #[trigger] s.above_root_ok(
                    k,
                ) by {
                    assert(old(self).above_root_ok(k));
                }
            }
            assert(s.root_accounting_ok()) by {
                match s.children@[0] {
                    Some(rch) => {
                        let rl = rch@.len() as int;
                        assert(old(self).root_accounting_ok());
                        if rl == 0 {
                            assert(path@.len() == 1) by {
                                if path@.len() >= 2 {
                                    let j = choose|j: int|
                                        0 <= j < rch@.len() && (#[trigger] rch@[j]).1 == path@[1];
                                }
                            }
                            assert(ids_visited(s.nums@, rch@, 0) == 0);
                        } else {
                            assert(path@.len() >= 2);
                            let jw = choose|j: int|
                                0 <= j < rch@.len() && (#[trigger] rch@[j]).1 == path@[1];
                            let c = path@[1] as int;
                            assert(rch@[jw].1 == jw + 1);
                            assert(1 <= c <= rl);
                            assert forall|j: int|
                                0 <= j < rl implies if j + 1 == c {
                                s.nums@[(#[trigger] rch@[j]).1 as int] as int == onums[rch@[j].1
                                    as int] as int + 1
                            } else {
                                s.nums@[rch@[j].1 as int] == onums[rch@[j].1 as int]
                            } by {
                                let id = rch@[j].1 as int;
                                assert(id == j + 1);
                                if j + 1 == c {
                                    assert(s.nums@[c] as int == onums[c] as int + 1);
                                } else {
                                    assert(s.nums@[id] == onums[id]) by {
                                        if s.nums@[id] != onums[id] {
                                            assert(old(self).child_ok(0));
                                            assert(0 <= id < n);
                                            assert(exists|w: int|
                                                0 <= w < t && #[trigger] path@[w] == id);
                                            let w = choose|w: int|
                                                0 <= w < t && #[trigger] path@[w] == id;
                                            assert(0 <= w < path@.len() && path@[w] == id);
                                            if w == 0 {
                                            } else if w == 1 {
                                            } else {
                                                assert(path@[w] > rch@.len());
                                            }
                                        }
                                    }
                                }
                            }
                            lemma_ids_one_increment(onums, s.nums@, rch@, rl, c);
                            lemma_ids_visited_full(onums, rch@, rl);
                            if (onums[0] as int) < rl {
                                assert(onums[c] == 0);
                            } else {
                                assert(ids_visited(onums, rch@, rl) == rl);
                                assert(onums[rch@[c - 1].1 as int] >= 1);
                            }
                        }
                    },
                    None => {
                        assert(s.children@[path@[0] as int] is Some);
                    },
                }
            }
            assert(s.wf());
        }
    }

    /// One search iteration: descend from the root by the selection policy,
    /// expand the first never-visited node reached, run one random playout to
    /// a terminal state, and backpropagate the reward vector along the
    /// visited path. The tree is left fully backpropagated at every return.
    pub fn iterate(&mut self, rng: &mut rand::rngs::SmallRng)
        requires
            old(self).wf(),
            old(self).iterations() < u64::MAX,
        ensures
            final(self).wf(),
            final(self).start() == old(self).start(),
            final(self).iterations() == old(self).iterations() + 1,
            final(self).root_visits().len() > 0 ==> final(self).root_visits_total()
                == final(self).iterations() as int,
            final(self).iterations() as int >= final(self).root_visits().len() ==> forall|j: int|
                0 <= j < final(self).root_visits().len()
                    ==> (#[trigger] final(self).root_visits()[j]) >= 1,
    {
        let ghost bnd = self.bnd();
        let np = self.start_state.num_players;
        proof {
            assert(self.start_state.board.cells@.len() < 0x4000_0000_0000_0000)
                by (nonlinear_arith)
                requires
                    self.start_state.board.cells@.len() == self.start_state.board.width as int
                        * self.start_state.board.height as int,
                    0 <= self.start_state.board.width < 0x8000_0000,
                    0 <= self.start_state.board.height < 0x8000_0000,
            ;
        }

        if self.children[0].is_none() {
            let mut actions = self.start_state.available_actions();
            shuffle(&mut actions, rng);
            proof {
                lemma_shuffled_actions_valid(self.start_state, actions@);
            }
            self.expand_at(0, actions);
        }

        let mut state = self.start_state.clone();
        let mut path: Vec<usize> = Vec::new();
        let mut opts: Vec<u8> = Vec::new();
        path.push(0);
        let prev0: u8 = if state.next_player == 0 {
            (np - 1) as u8
        } else {
            state.next_player - 1
        };
        opts.push(prev0);
        let mut cur: usize = 0;
        let mut value: Vec<i64> = Vec::new();
        loop
            invariant
                self.wf(),
                self.start_state == old(self).start_state,
                self.nums@[0] == old(self).nums@[0],
                np == self.start_state.num_players,
                bnd == self.bnd(),
                self.start_state.board.cells@.len() < 0x4000_0000_0000_0000,
                state.wf(),
                state.num_players == np,
                state.board.width == self.start_state.board.width,
                state.board.height == self.start_state.board.height,
                state.board.cells@.len() == self.start_state.board.cells@.len(),
                (cur as int) < self.n_nodes(),
                self.children@[cur as int] is Some,
                path@.len() >= 1,
                opts@.len() == path@.len(),
                path@[0] == 0,
                path@[path@.len() - 1] == cur as int,
                forall|s: int|
                    0 <= s < path@.len() ==> 0 <= #[trigger] path@[s] < self.n_nodes()
                        && self.children@[path@[s] as int] is Some,
                forall|s: int| 0 <= s < opts@.len() ==> (#[trigger] opts@[s] as usize) < np,
                forall|s: int| 0 <= s < path@.len() - 1 ==> #[trigger] path@[s] < path@[s + 1],
                path@.len() == 1 ==> cur == 0,
                path@.len() >= 2 ==> (match self.children@[0] {
                    Some(rch) => exists|j: int|
                        0 <= j < rch@.len() && (#[trigger] rch@[j]).1 == path@[1],
                    None => false,
                }),
                (match self.children@[0] {
                    Some(rch) => {
                        &&& forall|t: int|
                            2 <= t < path@.len() ==> #[trigger] path@[t] > rch@.len()
                        &&& (path@.len() >= 2 && (self.nums@[0] as int) < rch@.len()
                            ==> self.nums@[path@[1] as int] == 0)
                    },
                    None => false,
                }),
            ensures
                self.wf(),
                self.start_state == old(self).start_state,
                self.nums@[0] == old(self).nums@[0],
                np == self.start_state.num_players,
                bnd == self.bnd(),
                opts@.len() == path@.len(),
                path@.len() >= 1,
                path@[0] == 0,
                forall|s: int|
                    0 <= s < path@.len() ==> 0 <= #[trigger] path@[s] < self.n_nodes()
                        && self.children@[path@[s] as int] is Some,
                forall|s: int| 0 <= s < opts@.len() ==> (#[trigger] opts@[s] as usize) < np,
                forall|s: int| 0 <= s < path@.len() - 1 ==> #[trigger] path@[s] < path@[s + 1],
                path@.len() >= 2 ==> (match self.children@[0] {
                    Some(rch) => exists|j: int|
                        0 <= j < rch@.len() && (#[trigger] rch@[j]).1 == path@[1],
                    None => false,
                }),
                (match self.children@[0] {
                    Some(rch) => rch@.len() > 0 ==> path@.len() >= 2,
                    None => false,
                }),
                (match self.children@[0] {
                    Some(rch) => {
                        &&& forall|t: int|
                            2 <= t < path@.len() ==> #[trigger] path@[t] > rch@.len()
                        &&& (path@.len() >= 2 && (self.nums@[0] as int) < rch@.len()
                            ==> self.nums@[path@[1] as int] == 0)
                    },
                    None => false,
                }),
                value@.len() == np,
                forall|p: int| 0 <= p < np ==> -bnd <= #[trigger] value@[p] <= bnd,
            decreases self.n_nodes() - cur,
        {
            let ch_empty: bool = match &self.children[cur] {
                Some(ch) => ch.len() == 0,
                None => true,
            };
            if ch_empty {
                value = state.score();
                break;
            }
            let j = self.select_index(cur);
            let (act, nxt): (Action, usize) = match &self.children[cur] {
                Some(ch) => ch[j],
                None => (Action::Pass, 0),
            };
            proof {
                assert(self.child_ok(cur as int));
                match self.children@[0] {
                    Some(rch) => {
                        if path@.len() == 1 {
                            // descending from the root: breadth first, an
                            // unvisited root child is taken while one exists
                            if (self.nums@[0] as int) < rch@.len() {
                                assert(self.root_accounting_ok());
                                lemma_ids_visited_full(self.nums@, rch@, rch@.len() as int);
                                assert(exists|t: int|
                                    0 <= t < rch@.len() && self.nums@[(#[trigger] rch@[t]).1
                                        as int] == 0) by {
                                    if forall|t: int|
                                        0 <= t < rch@.len() ==> self.nums@[(#[trigger] rch@[t]).1
                                            as int] >= 1 {
                                        assert(ids_visited(self.nums@, rch@, rch@.len() as int)
                                            == rch@.len());
                                    }
                                }
                                assert(self.nums@[nxt as int] == 0);
                            }
                        } else {
                            // descending deeper: the next node is a child of
                            // a non-root node, whose slots lie past the root's
                            assert(self.above_root_ok(cur as int));
                            assert(cur as int >= 1) by {
                                assert(path@[path@.len() - 1] == cur as int);
                                assert(path@[0] < path@[1]);
                                lemma_path_increasing(
                                    path@,
                                    0,
                                    path@.len() - 1,
                                );
                            }
                            assert(nxt as int > rch@.len());
                        }
                    },
                    None => {},
                }
            }
            let actor = state.next_player;
            state.take_action(&act);
            path.push(nxt);
            opts.push(actor);
            cur = nxt;
            if self.nums[cur] == 0 {
                if self.children[cur].is_none() {
                    let mut actions = state.available_actions();
                    shuffle(&mut actions, rng);
                    proof {
                        lemma_shuffled_actions_valid(state, actions@);
                        assert forall|j2: int|
                            0 <= j2 < actions@.len() implies ((#[trigger] actions@[j2])
                            matches Action::Move(c) ==> self.start_state.board.spec_contains(
                            c.x as int,
                            c.y as int,
                        )) by {
                            match actions@[j2] {
                                Action::Move(c) => {
                                    if actions@[j2] matches Action::Move(c2) {
                                        assert(state.board.valid_move_spec(c, state.next_player,
                                            np));
                                        assert(state.board.spec_contains(c.x as int, c.y as int));
                                    }
                                },
                                Action::Pass => {},
                            }
                        }
                    }
                    let ghost pre_exp = *self;
                    self.expand_at(cur, actions);
                    proof {
                        assert forall|s: int|
                            0 <= s < path@.len() implies 0 <= #[trigger] path@[s] < self.n_nodes()
                            && self.children@[path@[s] as int] is Some by {
                            if path@[s] as int != cur as int {
                                assert(self.children@[path@[s] as int]
                                    == pre_exp.children@[path@[s] as int]);
                            }
                        }
                        assert(path@.len() >= 2 ==> (match self.children@[0] {
                            Some(rch) => exists|j2: int|
                                0 <= j2 < rch@.len() && (#[trigger] rch@[j2]).1 == path@[1],
                            None => false,
                        })) by {
                            if path@.len() >= 2 {
                                assert(cur as int != 0);
                                assert(self.children@[0] == pre_exp.children@[0]);
                            }
                        }
                    }
                }
                state.random_playout(rng);
                value = state.score();
                break;
            }
            proof {
                assert(self.expanded_ok(cur as int));
            }
        }

        let ghost post = *self;
        self.backprop(&path, &opts, &value);
        proof {
            assert(self.nums@[0] as int == post.nums@[0] as int + 1);
            match self.children@[0] {
                Some(rch) => {
                    assert(self.root_visits().len() == rch@.len());
                    if rch@.len() > 0 {
                        assert(self.root_accounting_ok());
                        assert(self.root_visits_total() == self.iterations() as int);
                    }
                    if self.iterations() as int >= rch@.len() as int {
                        lemma_ids_visited_full(self.nums@, rch@, rch@.len() as int);
                        assert(ids_visited(self.nums@, rch@, rch@.len() as int)
                            == rch@.len() as int);
                        assert forall|j: int| 0 <= j < self.root_visits().len() implies (
                        #[trigger] self.root_visits()[j]) >= 1 by {
                            assert(self.nums@[rch@[j].1 as int] >= 1);
                        }
                    }
                },
                None => {
                    assert(self.root_visits().len() == 0);
                },
            }
        }
    }
}


impl Board {
    /// Runs the search from this position for the given number of
    /// iterations with the given pseudorandom source, and returns the most
    /// visited root action translated back to a coordinate — or nothing,
    /// when the chosen action was a pass or no action exists at all.
    pub fn ai_move(
        &self,
        player: Player,
        num_players: usize,
        think_budget: u64,
        rng: &mut rand::rngs::SmallRng,
    ) -> (r: Option<Coord>)
        requires
            self.wf(),
            1 <= num_players <= 8,
            (player as usize) < num_players,
        ensures
            r matches Some(c) ==> self.valid_move_spec(c, player, num_players),
            !has_valid_move(*self, player, num_players) ==> r is None,
            self.game_over_spec(num_players as int) ==> r is None,
            think_budget >= 1 && has_valid_move(*self, player, num_players)
                && !self.game_over_spec(num_players as int) ==> r is Some,
    {
        let state = GameState { next_player: player, num_players, board: self.clone() };
        proof {
            lemma_same_grid_valid(state.board, *self, num_players);
            lemma_same_grid_game_over(state.board, *self, num_players as int);
        }
        let ghost start = state;
        let mut mcts = Mcts::new(state);
        let mut it: u64 = 0;
        while it < think_budget
            invariant
                mcts.wf(),
                mcts.start() == start,
                mcts.iterations() == it,
                it <= think_budget,
            decreases think_budget - it,
        {
            mcts.iterate(rng);
            it += 1;
        }
        let best = mcts.best_action();
        proof {
            let acts = actions_spec(start, player);
            lemma_actions_are_moves(start);
            lemma_moves_spec_complete(start.board, player, num_players);
            if self.game_over_spec(num_players as int) {
                assert(acts.len() == 0);
                assert(best is None);
            }
            if think_budget >= 1 && has_valid_move(*self, player, num_players)
                && !self.game_over_spec(num_players as int) {
                assert(has_valid_move(start.board, player, num_players));
                assert(moves_spec(start.board, player, num_players).len() > 0);
                assert(acts.len() > 0);
                assert(best is Some);
            }
            match best {
                Some(a) => {
                    assert(acts.contains(a));
                    match a {
                        Action::Move(c) => {
                            assert(start.board.valid_move_spec(c, player, num_players));
                            assert(self.valid_move_spec(c, player, num_players));
                        },
                        Action::Pass => {
                            assert(moves_spec(start.board, player, num_players).len() == 0) by {
                                if moves_spec(start.board, player, num_players).len() > 0 {
                                    let j = choose|j: int|
                                        0 <= j < acts.len() && acts[j] == Action::Pass;
                                }
                            }
                            assert(!has_valid_move(*self, player, num_players));
                        },
                    }
                },
                None => {},
            }
        }
        match best {
            Some(Action::Move(c)) => Some(c),
            Some(Action::Pass) => None,
            None => None,
        }
    }
}

} // verus!
