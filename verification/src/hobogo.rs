//! The board and the influence classifier.
//!
//! A board is a dense row-major grid of cells; each cell is either empty or
//! owned by one player. Every empty cell is classified by the influence of the
//! stones in its 8-connected neighborhood: `Ruled` (nobody else can ever take
//! it), `Claimed` (currently favored, still contestable) or `Tied`.

use vstd::prelude::*;

verus! {

/// The hard ceiling on the number of players: per-player tallies are
/// fixed-size arrays of this length.
pub const MAX_PLAYERS: usize = 8;

/// A player is identified by its index, below `MAX_PLAYERS`.
pub type Player = u8;

/// A cell carries no owner, or exactly one player index.
pub type Cell = Option<Player>;

/// Per-player cell counts, one slot per supported player.
pub type Points = [usize; 8];

/// Maps the external flat-array encoding of one cell (negative = empty,
/// otherwise the owner's index) to a cell value.
fn player_from_i8(x: i8) -> (c: Cell)
    ensures
        c == spec_player_from_i8(x),
{
    if x < 0 {
        None
    } else {
        Some(x as Player)
    }
}

/// The meaning of one entry of the flat board ingestion format.
pub open spec fn spec_player_from_i8(x: i8) -> Cell {
    if x < 0 {
        None
    } else {
        Some(x as Player)
    }
}

/// The derived ownership status of a cell.
#[derive(Clone, Copy, Debug, PartialEq, Eq, Structural)]
pub enum Influence {
    /// This player occupies this cell.
    Occupied(Player),
    /// This player has so much influence that no one else can ever occupy
    /// this cell.
    Ruled(Player),
    /// The given player is currently the most influential here, so nobody can
    /// steal it right away.
    Claimed(Player),
    /// Up for grabs.
    Tied,
}

impl Influence {
    /// The player this cell leans towards, if any.
    pub fn player(&self) -> (r: Option<Player>)
        ensures
            r == self.spec_player(),
    {
        match self {
            Influence::Occupied(player) => Some(*player),
            Influence::Ruled(player) => Some(*player),
            Influence::Claimed(player) => Some(*player),
            Influence::Tied => None,
        }
    }

    /// The player this cell leans towards, if any.
    pub open spec fn spec_player(self) -> Option<Player> {
        match self {
            Influence::Occupied(player) => Some(player),
            Influence::Ruled(player) => Some(player),
            Influence::Claimed(player) => Some(player),
            Influence::Tied => None,
        }
    }

    /// Whether the cell already carries a stone.
    pub fn is_occupied(&self) -> (r: bool)
        ensures
            r == (self is Occupied),
    {
        match self {
            Influence::Occupied(_) => true,
            Influence::Ruled(_) => false,
            Influence::Claimed(_) => false,
            Influence::Tied => false,
        }
    }
}

/// A board-relative position.
#[derive(Clone, Copy, Debug, PartialEq, Eq, Structural)]
pub struct Coord {
    pub x: i32,
    pub y: i32,
}

/// A grid of cells, stored row-major.
pub struct Board {
    pub cells: Vec<Cell>,
    pub width: i32,
    pub height: i32,
}

/// A cell value is well formed when its owner, if any, is a supported player.
pub open spec fn cell_wf(c: Cell) -> bool {
    match c {
        Some(p) => p < 8,
        None => true,
    }
}

impl Board {
    /// The board invariant: non-negative extents, a cell for every coordinate,
    /// and every owner a supported player index.
    pub open spec fn wf(self) -> bool {
        &&& 0 <= self.width
        &&& 0 <= self.height
        &&& self.cells@.len() == self.width as int * self.height as int
        &&& forall|i: int| 0 <= i < self.cells@.len() ==> cell_wf(#[trigger] self.cells@[i])
    }

    /// Whether (x, y) lies on the board.
    pub open spec fn spec_contains(self, x: int, y: int) -> bool {
        0 <= x < self.width && 0 <= y < self.height
    }

    /// Row-major index of (x, y).
    pub open spec fn spec_index(self, x: int, y: int) -> int {
        y * self.width + x
    }

    /// The cell at (x, y); coordinates off the board carry no value.
    pub open spec fn cell_at(self, x: int, y: int) -> Cell {
        if self.spec_contains(x, y) {
            self.cells@[self.spec_index(x, y)]
        } else {
            None
        }
    }

    /// An all-empty board of the given extents.
    pub fn new(width: i32, height: i32) -> (b: Board)
        requires
            0 <= width,
            0 <= height,
            width as int * height as int <= usize::MAX,
        ensures
            b.wf(),
            b.width == width,
            b.height == height,
            forall|x: int, y: int| b.spec_contains(x, y) ==> b.cell_at(x, y) is None,
    {
        let n: usize = (width as usize) * (height as usize);
        let mut cells: Vec<Cell> = Vec::new();
        let mut i: usize = 0;
        while i < n
            invariant
                i <= n,
                cells@.len() == i,
                forall|j: int| 0 <= j < i ==> cells@[j] is None,
            decreases n - i,
        {
            cells.push(None);
            i += 1;
        }
        let b = Board { cells, width, height };
        proof {
            assert forall|x: int, y: int| b.spec_contains(x, y) implies b.cell_at(x, y) is None by {
                lemma_index_in_range(b, x, y);
            }
        }
        b
    }

    /// Whether the board carries no stone at all.
    pub fn is_empty(&self) -> (r: bool)
        ensures
            r == (forall|i: int| 0 <= i < self.cells@.len() ==> self.cells@[i] is None),
    {
        let mut i: usize = 0;
        while i < self.cells.len()
            invariant
                i <= self.cells@.len(),
                forall|j: int| 0 <= j < i ==> self.cells@[j] is None,
            decreases self.cells@.len() - i,
        {
            if self.cells[i].is_some() {
                return false;
            }
            i += 1;
        }
        true
    }

    /// Whether c lies on the board.
    pub fn contains(&self, c: Coord) -> (r: bool)
        ensures
            r == self.spec_contains(c.x as int, c.y as int),
    {
        0 <= c.x && c.x < self.width && 0 <= c.y && c.y < self.height
    }

    /// Row-major index of c, or nothing when c is off the board.
    pub fn index(&self, c: Coord) -> (r: Option<usize>)
        requires
            self.wf(),
        ensures
            self.spec_contains(c.x as int, c.y as int) ==> {
                &&& 0 <= self.spec_index(c.x as int, c.y as int) < self.cells@.len()
                &&& r == Some(self.spec_index(c.x as int, c.y as int) as usize)
                &&& r.unwrap() as int == self.spec_index(c.x as int, c.y as int)
            },
            !self.spec_contains(c.x as int, c.y as int) ==> r is None,
    {
        if self.contains(c) {
            let _n = self.cells.len();
            proof {
                assert(self.cells@.len() <= usize::MAX);
                lemma_index_in_range(*self, c.x as int, c.y as int);
                let w = self.width as int;
                let y = c.y as int;
                assert(w * y == y * w) by (nonlinear_arith);
                assert(0 <= w * y) by (nonlinear_arith)
                    requires
                        0 <= w,
                        0 <= y,
                ;
            }
            Some((self.width as usize) * (c.y as usize) + (c.x as usize))
        } else {
            None
        }
    }

    /// The cell at c; coordinates off the board carry no value.
    pub fn at(&self, c: Coord) -> (r: Cell)
        requires
            self.wf(),
        ensures
            r == self.cell_at(c.x as int, c.y as int),
    {
        match self.index(c) {
            Some(index) => self.cells[index],
            None => None,
        }
    }

    /// Writes a stone for the given player at c.
    pub fn set(&mut self, c: Coord, player: Player)
        requires
            old(self).wf(),
            old(self).spec_contains(c.x as int, c.y as int),
            player < 8,
        ensures
            final(self).wf(),
            final(self).width == old(self).width,
            final(self).height == old(self).height,
            final(self).cells@ == old(self).cells@.update(
                old(self).spec_index(c.x as int, c.y as int),
                Some(player),
            ),
            final(self).cell_at(c.x as int, c.y as int) == Some(player),
            forall|x: int, y: int|
                !(x == c.x as int && y == c.y as int) ==> final(self).cell_at(x, y) == old(
                    self,
                ).cell_at(x, y),
    {
        let index = match self.index(c) {
            Some(index) => index,
            None => {
                proof {
                    assert(false);
                }
                0
            },
        };
        self.cells.set(index, Some(player));
        proof {
            assert forall|x: int, y: int|
                !(x == c.x as int && y == c.y as int) implies self.cell_at(x, y) == old(
                self,
            ).cell_at(x, y) by {
                if old(self).spec_contains(x, y) {
                    lemma_index_in_range(*old(self), x, y);
                    lemma_index_injective(*old(self), x, y, c.x as int, c.y as int);
                }
            }
        }
    }

    /// Every coordinate of the board, row by row.
    pub fn coords(&self) -> (r: Vec<Coord>)
        requires
            self.wf(),
        ensures
            r@.len() == self.cells@.len(),
            forall|k: int|
                0 <= k < r@.len() ==> #[trigger] r@[k] == (Coord {
                    x: (k % self.width as int) as i32,
                    y: (k / self.width as int) as i32,
                }),
            forall|k: int| 0 <= k < r@.len() ==> self.spec_contains(r@[k].x as int, r@[k].y as int),
    {
        let mut r: Vec<Coord> = Vec::new();
        let mut y: i32 = 0;
        while y < self.height
            invariant
                self.wf(),
                0 <= y <= self.height,
                r@.len() == y as int * self.width as int,
                forall|k: int|
                    0 <= k < r@.len() ==> #[trigger] r@[k] == (Coord {
                        x: (k % self.width as int) as i32,
                        y: (k / self.width as int) as i32,
                    }),
            decreases self.height - y,
        {
            let mut x: i32 = 0;
            while x < self.width
                invariant
                    self.wf(),
                    0 <= y < self.height,
                    0 <= x <= self.width,
                    r@.len() == y as int * self.width as int + x as int,
                    forall|k: int|
                        0 <= k < r@.len() ==> #[trigger] r@[k] == (Coord {
                            x: (k % self.width as int) as i32,
                            y: (k / self.width as int) as i32,
                        }),
                decreases self.width - x,
            {
                r.push(Coord { x, y });
                proof {
                    let w = self.width as int;
                    let k = r@.len() - 1;
                    vstd::arithmetic::div_mod::lemma_fundamental_div_mod_converse(
                        k,
                        w,
                        y as int,
                        x as int,
                    );
                }
                x += 1;
            }
            proof {
                let w = self.width as int;
                assert((y as int + 1) * w == y as int * w + w) by (nonlinear_arith);
            }
            y += 1;
        }
        proof {
            assert(self.height as int * self.width as int == self.width as int
                * self.height as int) by (nonlinear_arith);
            assert forall|k: int| 0 <= k < r@.len() implies self.spec_contains(
                r@[k].x as int,
                r@[k].y as int,
            ) by {
                let w = self.width as int;
                let h = self.height as int;
                let q = k / w;
                let m = k % w;
                vstd::arithmetic::div_mod::lemma_fundamental_div_mod(k, w);
                vstd::arithmetic::div_mod::lemma_mod_bound(k, w);
                vstd::arithmetic::div_mod::lemma_div_pos_is_pos(k, w);
                assert(q < h) by (nonlinear_arith)
                    requires
                        k == w * q + m,
                        0 <= m < w,
                        k < h * w,
                        0 < w,
                ;
            }
        }
        r
    }
}

/// The offsets of the 8-connected neighborhood, in row-major order.
pub open spec fn doff(k: int) -> (int, int) {
    if k == 0 {
        (-1, -1)
    } else if k == 1 {
        (0, -1)
    } else if k == 2 {
        (1, -1)
    } else if k == 3 {
        (-1, 0)
    } else if k == 4 {
        (1, 0)
    } else if k == 5 {
        (-1, 1)
    } else if k == 6 {
        (0, 1)
    } else {
        (1, 1)
    }
}

/// The offsets of the 8-connected neighborhood, in row-major order.
fn neighbor_offset(k: usize) -> (r: (i32, i32))
    requires
        k < 8,
    ensures
        r.0 as int == doff(k as int).0,
        r.1 as int == doff(k as int).1,
{
    if k == 0 {
        (-1, -1)
    } else if k == 1 {
        (0, -1)
    } else if k == 2 {
        (1, -1)
    } else if k == 3 {
        (-1, 0)
    } else if k == 4 {
        (1, 0)
    } else if k == 5 {
        (-1, 1)
    } else if k == 6 {
        (0, 1)
    } else {
        (1, 1)
    }
}

impl Board {
    /// How many of the first k neighbors of (x, y) carry a stone of player p.
    pub open spec fn infl_upto(self, x: int, y: int, p: Player, k: int) -> nat
        decreases k,
    {
        if k <= 0 {
            0
        } else {
            self.infl_upto(x, y, p, k - 1) + if self.cell_at(
                x + doff(k - 1).0,
                y + doff(k - 1).1,
            ) == Some(p) {
                1nat
            } else {
                0nat
            }
        }
    }

    /// The influence of player p on the cell (x, y): how many of its
    /// 8-connected neighbors carry a stone of p.
    pub open spec fn infl(self, x: int, y: int, p: Player) -> nat {
        self.infl_upto(x, y, p, 8)
    }

    /// How many of the first k neighbors of (x, y) are on the board and empty.
    pub open spec fn empty_upto(self, x: int, y: int, k: int) -> nat
        decreases k,
    {
        if k <= 0 {
            0
        } else {
            self.empty_upto(x, y, k - 1) + if self.spec_contains(
                x + doff(k - 1).0,
                y + doff(k - 1).1,
            ) && self.cell_at(x + doff(k - 1).0, y + doff(k - 1).1) is None {
                1nat
            } else {
                0nat
            }
        }
    }

    /// How many 8-connected neighbors of (x, y) are on the board and empty.
    pub open spec fn empties(self, x: int, y: int) -> nat {
        self.empty_upto(x, y, 8)
    }

    /// Player p rules the empty cell (x, y): even if every empty neighbor
    /// went to some other player q, q would still not catch up with p.
    pub open spec fn ruled_by(self, x: int, y: int, p: Player) -> bool {
        &&& p < 8
        &&& self.cell_at(x, y) is None
        &&& forall|q: Player|
            q < 8 && q != p ==> self.infl(x, y, q) + self.empties(x, y) < self.infl(x, y, p)
    }

    /// Player p claims the empty cell (x, y): p is currently strictly the
    /// most influential player there.
    pub open spec fn claimed_by(self, x: int, y: int, p: Player) -> bool {
        &&& p < 8
        &&& self.cell_at(x, y) is None
        &&& forall|q: Player| q < 8 && q != p ==> self.infl(x, y, q) < self.infl(x, y, p)
    }

    /// The influence classification of the cell (x, y): occupied cells belong
    /// to their owner; an empty cell is ruled or claimed by the single
    /// qualifying player, if there is one, and tied otherwise.
    pub open spec fn influence_spec(self, x: int, y: int) -> Influence {
        if self.cell_at(x, y) is Some {
            Influence::Occupied(self.cell_at(x, y).unwrap())
        } else if exists|p: Player| self.ruled_by(x, y, p) {
            Influence::Ruled(choose|p: Player| self.ruled_by(x, y, p))
        } else if exists|p: Player| self.claimed_by(x, y, p) {
            Influence::Claimed(choose|p: Player| self.claimed_by(x, y, p))
        } else {
            Influence::Tied
        }
    }

    /// The move legality rule, stated over neighbor tallies: the cell must be
    /// on the board and empty, and no active player may have strictly more
    /// influence on it than the mover. (An alternate rule based on the
    /// influence classification exists and is not equivalent at the margins;
    /// this tally rule is the one applied everywhere legality is checked.)
    pub open spec fn valid_move_spec(self, c: Coord, mover: Player, num_players: usize) -> bool {
        &&& self.spec_contains(c.x as int, c.y as int)
        &&& self.cell_at(c.x as int, c.y as int) is None
        &&& forall|q: Player|
            q < num_players ==> #[trigger] self.infl(c.x as int, c.y as int, q) <= self.infl(
                c.x as int,
                c.y as int,
                mover as Player,
            )
    }
}

/// The partial influence tallies never exceed the number of neighbors seen.
pub proof fn lemma_infl_upto_bound(b: Board, x: int, y: int, p: Player, k: int)
    requires
        0 <= k <= 8,
    ensures
        b.infl_upto(x, y, p, k) <= k,
        b.empty_upto(x, y, k) <= k,
    decreases k,
{
    if k > 0 {
        lemma_infl_upto_bound(b, x, y, p, k - 1);
    }
}

/// At most one player can claim a cell, and a ruler is also a claimant; hence
/// the classification of every cell is well defined.
pub proof fn lemma_claimed_unique(b: Board, x: int, y: int, p: Player, q: Player)
    requires
        b.claimed_by(x, y, p),
        b.claimed_by(x, y, q),
    ensures
        p == q,
{
    if p != q {
        assert(b.infl(x, y, q) < b.infl(x, y, p));
        assert(b.infl(x, y, p) < b.infl(x, y, q));
    }
}

/// A player who rules a cell also claims it.
pub proof fn lemma_ruled_implies_claimed(b: Board, x: int, y: int, p: Player)
    requires
        b.ruled_by(x, y, p),
    ensures
        b.claimed_by(x, y, p),
{
    assert forall|q: Player| q < 8 && q != p implies b.infl(x, y, q) < b.infl(x, y, p) by {
        assert(b.infl(x, y, q) + b.empties(x, y) < b.infl(x, y, p));
    }
}

impl Board {
    /// How many of the first k neighbor offsets of (x, y) land on the board.
    pub open spec fn nbrs_on_upto(self, x: int, y: int, k: int) -> nat
        decreases k,
    {
        if k <= 0 {
            0
        } else {
            self.nbrs_on_upto(x, y, k - 1) + if self.spec_contains(
                x + doff(k - 1).0,
                y + doff(k - 1).1,
            ) {
                1nat
            } else {
                0nat
            }
        }
    }

    /// How many 8-connected neighbors of (x, y) lie on the board.
    pub open spec fn neighbors_on_board(self, x: int, y: int) -> nat {
        self.nbrs_on_upto(x, y, 8)
    }

    /// The total influence of the players below m on (x, y), over the first
    /// k neighbor offsets.
    pub open spec fn infl_sum_upto(self, x: int, y: int, m: int, k: int) -> nat
        decreases m,
    {
        if m <= 0 {
            0
        } else {
            self.infl_sum_upto(x, y, m - 1, k) + self.infl_upto(x, y, (m - 1) as Player, k)
        }
    }
}

/// Each occupied in-board neighbor is counted once in the summed influences.
pub proof fn lemma_infl_sum_step(b: Board, x: int, y: int, m: int, k: int)
    requires
        0 <= m <= 8,
        1 <= k,
    ensures
        b.infl_sum_upto(x, y, m, k) == b.infl_sum_upto(x, y, m, k - 1) + match b.cell_at(
            x + doff(k - 1).0,
            y + doff(k - 1).1,
        ) {
            Some(p0) => if p0 < m {
                1nat
            } else {
                0nat
            },
            None => 0nat,
        },
    decreases m,
{
    if m > 0 {
        lemma_infl_sum_step(b, x, y, m - 1, k);
    }
}

/// LAW: a cell's neighbor tallies partition its on-board neighborhood: the
/// per-player influences and the empty count sum to the number of in-board
/// neighbors.
pub proof fn lemma_tally_partition(b: Board, x: int, y: int, k: int)
    requires
        b.wf(),
        0 <= k <= 8,
    ensures
        b.infl_sum_upto(x, y, 8, k) + b.empty_upto(x, y, k) == b.nbrs_on_upto(x, y, k),
    decreases k,
{
    if k > 0 {
        lemma_tally_partition(b, x, y, k - 1);
        lemma_infl_sum_step(b, x, y, 8, k);
        let nx = x + doff(k - 1).0;
        let ny = y + doff(k - 1).1;
        if b.spec_contains(nx, ny) {
            lemma_index_in_range(b, nx, ny);
            assert(cell_wf(b.cell_at(nx, ny)));
        }
    } else {
        lemma_infl_sum_zero(b, x, y, 8);
    }
}

/// With no neighbors counted, the summed influences are zero.
pub proof fn lemma_infl_sum_zero(b: Board, x: int, y: int, m: int)
    requires
        0 <= m <= 8,
    ensures
        b.infl_sum_upto(x, y, m, 0) == 0,
    decreases m,
{
    if m > 0 {
        lemma_infl_sum_zero(b, x, y, m - 1);
    }
}

impl Board {
    /// The per-player influence counts and the count of empty neighbors of c,
    /// over the 8-connected neighborhood clipped to the board edge.
    pub fn tally_neighbors(&self, c: Coord) -> (r: ([u8; 8], u8))
        requires
            self.wf(),
        ensures
            forall|p: Player| p < 8 ==> r.0@[p as int] == self.infl(c.x as int, c.y as int, p),
            r.1 as nat == self.empties(c.x as int, c.y as int),
            forall|p: Player| p < 8 ==> r.0@[p as int] <= 8,
            r.1 <= 8,
            r.0@[0] as int + r.0@[1] as int + r.0@[2] as int + r.0@[3] as int + r.0@[4] as int
                + r.0@[5] as int + r.0@[6] as int + r.0@[7] as int + r.1 as int
                == self.neighbors_on_board(c.x as int, c.y as int),
    {
        let mut influences: Vec<u8> = Vec::new();
        let mut i: usize = 0;
        while i < 8
            invariant
                i <= 8,
                influences@.len() == i,
                forall|j: int| 0 <= j < i ==> influences@[j] == 0,
            decreases 8 - i,
        {
            influences.push(0);
            i += 1;
        }
        let mut empty_neighbors: u8 = 0;
        let mut k: usize = 0;
        while k < 8
            invariant
                self.wf(),
                k <= 8,
                influences@.len() == 8,
                forall|p: Player|
                    p < 8 ==> influences@[p as int] == self.infl_upto(
                        c.x as int,
                        c.y as int,
                        p,
                        k as int,
                    ),
                empty_neighbors as nat == self.empty_upto(c.x as int, c.y as int, k as int),
            decreases 8 - k,
        {
            proof {
                assert forall|p: Player| p < 8 implies self.infl_upto(
                    c.x as int,
                    c.y as int,
                    p,
                    k as int,
                ) <= k by {
                    lemma_infl_upto_bound(*self, c.x as int, c.y as int, p, k as int);
                }
                lemma_infl_upto_bound(*self, c.x as int, c.y as int, 0, k as int);
            }
            let (dx, dy) = neighbor_offset(k);
            let nx: i64 = c.x as i64 + dx as i64;
            let ny: i64 = c.y as i64 + dy as i64;
            if 0 <= nx && nx < self.width as i64 && 0 <= ny && ny < self.height as i64 {
                let nc = Coord { x: nx as i32, y: ny as i32 };
                match self.at(nc) {
                    Some(player) => {
                        proof {
                            lemma_index_in_range(*self, nx as int, ny as int);
                        }
                        let old_count = influences[player as usize];
                        influences.set(player as usize, old_count + 1);
                    },
                    None => {
                        empty_neighbors += 1;
                    },
                }
            }
            k += 1;
        }
        let r0 = [
            influences[0],
            influences[1],
            influences[2],
            influences[3],
            influences[4],
            influences[5],
            influences[6],
            influences[7],
        ];
        proof {
            assert forall|p: Player| p < 8 implies r0@[p as int] == self.infl(
                c.x as int,
                c.y as int,
                p,
            ) && r0@[p as int] <= 8 by {
                lemma_infl_upto_bound(*self, c.x as int, c.y as int, p, 8);
            }
            lemma_infl_upto_bound(*self, c.x as int, c.y as int, 0, 8);
            lemma_tally_partition(*self, c.x as int, c.y as int, 8);
            let x = c.x as int;
            let y = c.y as int;
            assert(self.infl_sum_upto(x, y, 0, 8) == 0);
            assert(self.infl_sum_upto(x, y, 1, 8) == self.infl(x, y, 0));
            assert(self.infl_sum_upto(x, y, 2, 8) == self.infl_sum_upto(x, y, 1, 8) + self.infl(
                x,
                y,
                1,
            ));
            assert(self.infl_sum_upto(x, y, 3, 8) == self.infl_sum_upto(x, y, 2, 8) + self.infl(
                x,
                y,
                2,
            ));
            assert(self.infl_sum_upto(x, y, 4, 8) == self.infl_sum_upto(x, y, 3, 8) + self.infl(
                x,
                y,
                3,
            ));
            assert(self.infl_sum_upto(x, y, 5, 8) == self.infl_sum_upto(x, y, 4, 8) + self.infl(
                x,
                y,
                4,
            ));
            assert(self.infl_sum_upto(x, y, 6, 8) == self.infl_sum_upto(x, y, 5, 8) + self.infl(
                x,
                y,
                5,
            ));
            assert(self.infl_sum_upto(x, y, 7, 8) == self.infl_sum_upto(x, y, 6, 8) + self.infl(
                x,
                y,
                6,
            ));
            assert(self.infl_sum_upto(x, y, 8, 8) == self.infl_sum_upto(x, y, 7, 8) + self.infl(
                x,
                y,
                7,
            ));
        }
        (r0, empty_neighbors)
    }

    /// The influence classification of the cell at c.
    pub fn influence(&self, c: Coord) -> (r: Influence)
        requires
            self.wf(),
        ensures
            r == self.influence_spec(c.x as int, c.y as int),
    {
        let x = c.x;
        let y = c.y;
        if let Some(player) = self.at(c) {
            return Influence::Occupied(player);
        }
        let (influences, empty_neighbors) = self.tally_neighbors(c);

        let mut player: usize = 0;
        while player < 8
            invariant
                self.wf(),
                x == c.x,
                y == c.y,
                player <= 8,
                self.cell_at(x as int, y as int) is None,
                forall|p: Player| p < 8 ==> influences@[p as int] == self.infl(x as int, y as int, p),
                empty_neighbors as nat == self.empties(x as int, y as int),
                forall|p: Player| p < player ==> !self.ruled_by(x as int, y as int, p),
                forall|p: Player| p < player ==> !self.claimed_by(x as int, y as int, p),
            decreases 8 - player,
        {
            let mut other_player_can_take_this = false;
            let mut other_player_is_as_influential = false;
            let mut other: usize = 0;
            while other < 8
                invariant
                    self.wf(),
                    x == c.x,
                    y == c.y,
                    player < 8,
                    other <= 8,
                    forall|p: Player|
                        p < 8 ==> influences@[p as int] == self.infl(x as int, y as int, p),
                    empty_neighbors as nat == self.empties(x as int, y as int),
                    other_player_can_take_this == exists|q: Player|
                        q < other && q != player && #[trigger] self.infl(x as int, y as int, q)
                            + self.empties(x as int, y as int) >= self.infl(
                            x as int,
                            y as int,
                            player as Player,
                        ),
                    other_player_is_as_influential == exists|q: Player|
                        q < other && q != player && #[trigger] self.infl(x as int, y as int, q)
                            >= self.infl(x as int, y as int, player as Player),
                decreases 8 - other,
            {
                if other != player {
                    if influences[other] as usize + empty_neighbors as usize
                        >= influences[player] as usize {
                        other_player_can_take_this = true;
                        proof {
                            let q = other as Player;
                            assert(q < other + 1 && q != player && self.infl(x as int, y as int, q)
                                + self.empties(x as int, y as int) >= self.infl(
                                x as int,
                                y as int,
                                player as Player,
                            ));
                        }
                    }
                    if influences[other] >= influences[player] {
                        other_player_is_as_influential = true;
                        proof {
                            let q = other as Player;
                            assert(q < other + 1 && q != player && self.infl(x as int, y as int, q)
                                >= self.infl(x as int, y as int, player as Player));
                        }
                    }
                }
                other += 1;
            }
            if !other_player_can_take_this {
                proof {
                    assert(self.ruled_by(x as int, y as int, player as Player));
                    let w = choose|p: Player| self.ruled_by(x as int, y as int, p);
                    lemma_ruled_implies_claimed(*self, x as int, y as int, w);
                    lemma_ruled_implies_claimed(*self, x as int, y as int, player as Player);
                    lemma_claimed_unique(*self, x as int, y as int, w, player as Player);
                }
                return Influence::Ruled(player as Player);
            }
            if !other_player_is_as_influential {
                proof {
                    assert(self.claimed_by(x as int, y as int, player as Player));
                    assert forall|p: Player| !self.ruled_by(x as int, y as int, p) by {
                        if self.ruled_by(x as int, y as int, p) {
                            lemma_ruled_implies_claimed(*self, x as int, y as int, p);
                            lemma_claimed_unique(*self, x as int, y as int, p, player as Player);
                            assert(self.infl(x as int, y as int, player as Player) + self.empties(
                                x as int,
                                y as int,
                            ) < self.infl(x as int, y as int, player as Player));
                        }
                    }
                    let w = choose|p: Player| self.claimed_by(x as int, y as int, p);
                    lemma_claimed_unique(*self, x as int, y as int, w, player as Player);
                }
                return Influence::Claimed(player as Player);
            }
            player += 1;
        }
        proof {
            assert forall|p: Player| !self.ruled_by(x as int, y as int, p) by {
                if p < 8 {
                    assert(!self.ruled_by(x as int, y as int, p));
                }
            }
            assert forall|p: Player| !self.claimed_by(x as int, y as int, p) by {
                if p < 8 {
                    assert(!self.claimed_by(x as int, y as int, p));
                }
            }
        }
        Influence::Tied
    }

    /// Whether the mover may place a stone at c: the cell must be on the board
    /// and empty, and no active player may out-influence the mover there.
    pub fn is_valid_move(&self, c: Coord, who_wants_to_move: Player, num_players: usize) -> (r:
        bool)
        requires
            self.wf(),
            1 <= num_players <= 8,
            who_wants_to_move < num_players,
        ensures
            r == self.valid_move_spec(c, who_wants_to_move, num_players),
    {
        if !self.contains(c) {
            return false;
        }
        if let Some(_) = self.at(c) {
            return false;
        }
        let (influences, _empty_neighbors) = self.tally_neighbors(c);
        let mut player: usize = 0;
        while player < num_players
            invariant
                self.wf(),
                num_players <= 8,
                who_wants_to_move < num_players,
                player <= num_players,
                forall|p: Player|
                    p < 8 ==> influences@[p as int] == self.infl(c.x as int, c.y as int, p),
                forall|q: Player|
                    q < player ==> self.infl(c.x as int, c.y as int, q) <= self.infl(
                        c.x as int,
                        c.y as int,
                        who_wants_to_move,
                    ),
            decreases num_players - player,
        {
            if influences[player] > influences[who_wants_to_move as usize] {
                return false;
            }
            player += 1;
        }
        true
    }
}

/// On a well-formed board, the row-major index of an on-board coordinate is a
/// valid position in the cell vector.
pub proof fn lemma_index_in_range(b: Board, x: int, y: int)
    requires
        b.wf(),
        b.spec_contains(x, y),
    ensures
        0 <= b.spec_index(x, y) < b.cells@.len(),
        b.spec_index(x, y) == y * b.width + x,
{
    let w = b.width as int;
    let h = b.height as int;
    assert(y * w + x < h * w) by (nonlinear_arith)
        requires
            0 <= x < w,
            0 <= y < h,
    ;
    assert(0 <= y * w + x) by (nonlinear_arith)
        requires
            0 <= x,
            0 <= y,
            0 <= w,
    ;
    assert(h * w == w * h) by (nonlinear_arith);
}

/// Distinct on-board coordinates have distinct row-major indices.
pub proof fn lemma_index_injective(b: Board, x1: int, y1: int, x2: int, y2: int)
    requires
        b.wf(),
        b.spec_contains(x1, y1),
        b.spec_contains(x2, y2),
        !(x1 == x2 && y1 == y2),
    ensures
        b.spec_index(x1, y1) != b.spec_index(x2, y2),
{
    let w = b.width as int;
    assert(y1 * w + x1 != y2 * w + x2) by (nonlinear_arith)
        requires
            0 <= x1 < w,
            0 <= x2 < w,
            !(x1 == x2 && y1 == y2),
    ;
}


impl Board {
    /// Column of the cell with row-major index i.
    pub open spec fn xi(self, i: int) -> int {
        i % (self.width as int)
    }

    /// Row of the cell with row-major index i.
    pub open spec fn yi(self, i: int) -> int {
        i / (self.width as int)
    }

    /// The lowest-indexed player among 0..k with the highest influence on
    /// (x, y).
    pub open spec fn argmax_upto(self, x: int, y: int, k: int) -> Player
        decreases k,
    {
        if k <= 1 {
            0
        } else {
            let a = self.argmax_upto(x, y, k - 1);
            if self.infl(x, y, (k - 1) as Player) > self.infl(x, y, a) {
                (k - 1) as Player
            } else {
                a
            }
        }
    }

    /// The highest influence on (x, y) among the players 0..k other than the
    /// provisional claimant (the lowest-indexed argmax over 0..np).
    pub open spec fn second_upto(self, x: int, y: int, np: int, k: int) -> nat
        decreases k,
    {
        if k <= 0 {
            0
        } else {
            let rest = self.second_upto(x, y, np, k - 1);
            if (k - 1) as Player == self.argmax_upto(x, y, np) {
                rest
            } else {
                let cur = self.infl(x, y, (k - 1) as Player);
                if cur > rest {
                    cur
                } else {
                    rest
                }
            }
        }
    }

    /// The provisional lead of the claimant of (x, y) over its closest rival:
    /// occupied cells (and the sole player of a one-player game) can never be
    /// caught, which the sentinel 127 stands for.
    pub open spec fn strength_xy(self, np: int, x: int, y: int) -> int {
        if self.cell_at(x, y) is Some {
            127
        } else if np <= 1 {
            127
        } else {
            self.infl(x, y, self.argmax_upto(x, y, np)) - self.second_upto(x, y, np, np)
        }
    }

    /// The provisional claimant of (x, y): the owner of an occupied cell, the
    /// most influential player of an uncontested empty cell, nobody when the
    /// lead is zero (a tie).
    pub open spec fn claimant_xy(self, np: int, x: int, y: int) -> Option<Player> {
        if self.cell_at(x, y) is Some {
            Some(self.cell_at(x, y).unwrap())
        } else if self.strength_xy(np, x, y) == 0 {
            None
        } else {
            Some(self.argmax_upto(x, y, np))
        }
    }

    /// The provisional claimant of the cell with row-major index i.
    pub open spec fn claimant_at(self, np: int, i: int) -> Option<Player> {
        self.claimant_xy(np, self.xi(i), self.yi(i))
    }

    /// The provisional strength of the cell with row-major index i.
    pub open spec fn strength_at(self, np: int, i: int) -> int {
        self.strength_xy(np, self.xi(i), self.yi(i))
    }

    /// How many of the first k neighbors of (x, y) are empty cells whose
    /// provisional claimant is somebody other than the claimant of (x, y):
    /// if each such claim were realized, each would weaken this cell once.
    pub open spec fn penalty_upto(self, np: int, x: int, y: int, k: int) -> nat
        decreases k,
    {
        if k <= 0 {
            0
        } else {
            let nx = x + doff(k - 1).0;
            let ny = y + doff(k - 1).1;
            self.penalty_upto(np, x, y, k - 1) + if self.spec_contains(nx, ny) && self.cell_at(
                nx,
                ny,
            ) is None && self.claimant_xy(np, nx, ny) is Some && self.claimant_xy(np, x, y) is Some
                && self.claimant_xy(np, nx, ny) != self.claimant_xy(np, x, y) {
                1nat
            } else {
                0nat
            }
        }
    }

    /// How many of the first k neighbors of (x, y) are already marked
    /// volatile and were supporting the claim on (x, y): a tied neighbor, or
    /// one claimed by the same player.
    pub open spec fn support_upto(self, np: int, marks: Seq<bool>, x: int, y: int, k: int) -> nat
        decreases k,
    {
        if k <= 0 {
            0
        } else {
            let nx = x + doff(k - 1).0;
            let ny = y + doff(k - 1).1;
            self.support_upto(np, marks, x, y, k - 1) + if self.spec_contains(nx, ny)
                && marks[self.spec_index(nx, ny)] && (self.claimant_xy(np, nx, ny) is None
                || self.claimant_xy(np, nx, ny) == self.claimant_xy(np, x, y)) {
                1nat
            } else {
                0nat
            }
        }
    }

    /// One weakening round: a tied cell is volatile; a claimed cell becomes
    /// volatile once the claims pretended against it and the volatile cells
    /// that were supporting it eat up its whole strength.
    pub open spec fn vol_next(self, np: int, marks: Seq<bool>, i: int) -> bool {
        let x = self.xi(i);
        let y = self.yi(i);
        if self.claimant_xy(np, x, y) is None {
            true
        } else {
            self.strength_xy(np, x, y) <= self.penalty_upto(np, x, y, 8) + self.support_upto(
                np,
                marks,
                x,
                y,
                8,
            )
        }
    }

    /// The volatile marks after k weakening rounds, starting from none.
    pub open spec fn volatile_rounds(self, np: int, k: int) -> Seq<bool>
        decreases k,
    {
        if k <= 0 {
            Seq::new(self.cells@.len(), |i: int| false)
        } else {
            let prev = self.volatile_rounds(np, k - 1);
            Seq::new(self.cells@.len(), |i: int| self.vol_next(np, prev, i))
        }
    }

    /// Which cells could still change their eventual owner: the closure of
    /// the weakening rounds, reached after as many rounds as there are cells.
    pub open spec fn volatile_spec(self, np: int) -> Seq<bool> {
        self.volatile_rounds(np, self.cells@.len() as int)
    }
}

/// The lowest-indexed argmax is in range and dominates every player below k.
pub proof fn lemma_argmax_ge(b: Board, x: int, y: int, k: int)
    requires
        1 <= k <= 8,
    ensures
        b.argmax_upto(x, y, k) < k,
        forall|q: Player|
            q < k ==> #[trigger] b.infl(x, y, q) <= b.infl(x, y, b.argmax_upto(x, y, k)),
    decreases k,
{
    if k > 1 {
        lemma_argmax_ge(b, x, y, k - 1);
    }
}

/// The rival's influence never exceeds the claimant's.
pub proof fn lemma_second_le(b: Board, x: int, y: int, np: int, k: int)
    requires
        1 <= np <= 8,
        0 <= k <= np,
    ensures
        b.second_upto(x, y, np, k) <= b.infl(x, y, b.argmax_upto(x, y, np)),
    decreases k,
{
    lemma_argmax_ge(b, x, y, np);
    if k > 0 {
        lemma_second_le(b, x, y, np, k - 1);
    }
}

/// The step-3 penalty and the per-round support each count at most the 8
/// neighbors once.
pub proof fn lemma_penalty_support_bound(b: Board, np: int, marks: Seq<bool>, x: int, y: int, k: int)
    requires
        0 <= k <= 8,
    ensures
        b.penalty_upto(np, x, y, k) <= k,
        b.support_upto(np, marks, x, y, k) <= k,
    decreases k,
{
    if k > 0 {
        lemma_penalty_support_bound(b, np, marks, x, y, k - 1);
    }
}

impl Board {
    /// The provisional claimant and strength of the cell at c.
    fn claim_one(&self, c: Coord, num_players: usize) -> (r: (Option<Player>, u8))
        requires
            self.wf(),
            1 <= num_players <= 8,
        ensures
            r.0 == self.claimant_xy(num_players as int, c.x as int, c.y as int),
            r.1 as int == self.strength_xy(num_players as int, c.x as int, c.y as int),
    {
        let x = c.x;
        let y = c.y;
        let np = num_players;
        if let Some(owner) = self.at(c) {
            return (Some(owner), 127);
        }
        if np == 1 {
            return (Some(0), 127);
        }
        let (influences, _empty_neighbors) = self.tally_neighbors(c);
        let mut best: usize = 0;
        let mut p: usize = 1;
        while p < np
            invariant
                self.wf(),
                x == c.x,
                y == c.y,
                1 <= p <= np,
                np <= 8,
                best < p,
                forall|q: Player|
                    q < 8 ==> influences@[q as int] == self.infl(x as int, y as int, q),
                best as Player == self.argmax_upto(x as int, y as int, p as int),
            decreases np - p,
        {
            if influences[p] > influences[best] {
                best = p;
            }
            p += 1;
        }
        let mut second: u8 = 0;
        let mut q: usize = 0;
        while q < np
            invariant
                self.wf(),
                x == c.x,
                y == c.y,
                q <= np,
                1 <= np <= 8,
                best < np,
                forall|pq: Player|
                    pq < 8 ==> influences@[pq as int] == self.infl(x as int, y as int, pq),
                best as Player == self.argmax_upto(x as int, y as int, np as int),
                second as nat == self.second_upto(x as int, y as int, np as int, q as int),
                second <= 8,
            decreases np - q,
        {
            proof {
                lemma_infl_upto_bound(*self, x as int, y as int, q as Player, 8);
            }
            if q != best {
                if influences[q] > second {
                    second = influences[q];
                }
            }
            q += 1;
        }
        proof {
            lemma_second_le(*self, x as int, y as int, np as int, np as int);
        }
        let strength = influences[best] - second;
        if strength == 0 {
            (None, 0)
        } else {
            (Some(best as Player), strength)
        }
    }
}


/// Splitting a row-major index back into its coordinates.
pub proof fn lemma_xi_yi(b: Board, x: int, y: int)
    requires
        b.wf(),
        b.spec_contains(x, y),
    ensures
        b.xi(b.spec_index(x, y)) == x,
        b.yi(b.spec_index(x, y)) == y,
{
    let w = b.width as int;
    vstd::arithmetic::div_mod::lemma_fundamental_div_mod_converse(y * w + x, w, y, x);
}

impl Board {
    /// How many neighbors of c hold an empty cell claimed by somebody other
    /// than the claimant of c itself.
    fn penalty_one(&self, c: Coord, claim: &Vec<Option<Player>>, num_players: usize) -> (r: u8)
        requires
            self.wf(),
            1 <= num_players <= 8,
            claim@.len() == self.cells@.len(),
            forall|j: int|
                0 <= j < claim@.len() ==> claim@[j] == self.claimant_at(num_players as int, j),
        ensures
            r as nat == self.penalty_upto(num_players as int, c.x as int, c.y as int, 8),
    {
        let np = num_players;
        let mine = match self.index(c) {
            Some(i) => {
                proof {
                    lemma_xi_yi(*self, c.x as int, c.y as int);
                }
                claim[i]
            },
            None => self.claim_one(c, np).0,
        };
        let mut count: u8 = 0;
        let mut k: usize = 0;
        while k < 8
            invariant
                self.wf(),
                1 <= np <= 8,
                k <= 8,
                claim@.len() == self.cells@.len(),
                forall|j: int|
                    0 <= j < claim@.len() ==> claim@[j] == self.claimant_at(np as int, j),
                mine == self.claimant_xy(np as int, c.x as int, c.y as int),
                count as nat == self.penalty_upto(np as int, c.x as int, c.y as int, k as int),
                count <= k,
            decreases 8 - k,
        {
            let (dx, dy) = neighbor_offset(k);
            let nx: i64 = c.x as i64 + dx as i64;
            let ny: i64 = c.y as i64 + dy as i64;
            if 0 <= nx && nx < self.width as i64 && 0 <= ny && ny < self.height as i64 {
                let nc = Coord { x: nx as i32, y: ny as i32 };
                proof {
                    lemma_index_in_range(*self, nx as int, ny as int);
                    lemma_xi_yi(*self, nx as int, ny as int);
                }
                let j = match self.index(nc) {
                    Some(j) => j,
                    None => 0,
                };
                if self.at(nc).is_none() {
                    let hit = match (claim[j], mine) {
                        (Some(a), Some(b)) => a != b,
                        _ => false,
                    };
                    if hit {
                        count += 1;
                    }
                }
            }
            k += 1;
        }
        count
    }

    /// How many neighbors of c are marked volatile and were supporting the
    /// claim of c: tied neighbors, or neighbors claimed by the same player.
    fn support_one(
        &self,
        c: Coord,
        claim: &Vec<Option<Player>>,
        marks: &Vec<bool>,
        num_players: usize,
    ) -> (r: u8)
        requires
            self.wf(),
            1 <= num_players <= 8,
            claim@.len() == self.cells@.len(),
            marks@.len() == self.cells@.len(),
            forall|j: int|
                0 <= j < claim@.len() ==> claim@[j] == self.claimant_at(num_players as int, j),
        ensures
            r as nat == self.support_upto(num_players as int, marks@, c.x as int, c.y as int, 8),
    {
        let np = num_players;
        let mine = match self.index(c) {
            Some(i) => {
                proof {
                    lemma_xi_yi(*self, c.x as int, c.y as int);
                }
                claim[i]
            },
            None => self.claim_one(c, np).0,
        };
        let mut count: u8 = 0;
        let mut k: usize = 0;
        while k < 8
            invariant
                self.wf(),
                1 <= np <= 8,
                k <= 8,
                claim@.len() == self.cells@.len(),
                marks@.len() == self.cells@.len(),
                forall|j: int|
                    0 <= j < claim@.len() ==> claim@[j] == self.claimant_at(np as int, j),
                mine == self.claimant_xy(np as int, c.x as int, c.y as int),
                count as nat == self.support_upto(
                    np as int,
                    marks@,
                    c.x as int,
                    c.y as int,
                    k as int,
                ),
                count <= k,
            decreases 8 - k,
        {
            let (dx, dy) = neighbor_offset(k);
            let nx: i64 = c.x as i64 + dx as i64;
            let ny: i64 = c.y as i64 + dy as i64;
            if 0 <= nx && nx < self.width as i64 && 0 <= ny && ny < self.height as i64 {
                let nc = Coord { x: nx as i32, y: ny as i32 };
                proof {
                    lemma_index_in_range(*self, nx as int, ny as int);
                    lemma_xi_yi(*self, nx as int, ny as int);
                }
                let j = match self.index(nc) {
                    Some(j) => j,
                    None => 0,
                };
                if marks[j] {
                    let hit = match (claim[j], mine) {
                        (None, _) => true,
                        (Some(a), Some(b)) => a == b,
                        (Some(_), None) => false,
                    };
                    if hit {
                        count += 1;
                    }
                }
            }
            k += 1;
        }
        count
    }

    /// One weakening round over the whole board.
    fn volatile_round(
        &self,
        claim: &Vec<Option<Player>>,
        strength: &Vec<u8>,
        penalty: &Vec<u8>,
        marks: &Vec<bool>,
        num_players: usize,
    ) -> (r: Vec<bool>)
        requires
            self.wf(),
            1 <= num_players <= 8,
            claim@.len() == self.cells@.len(),
            strength@.len() == self.cells@.len(),
            penalty@.len() == self.cells@.len(),
            marks@.len() == self.cells@.len(),
            forall|j: int|
                0 <= j < claim@.len() ==> claim@[j] == self.claimant_at(num_players as int, j),
            forall|j: int|
                0 <= j < strength@.len() ==> strength@[j] as int == self.strength_at(
                    num_players as int,
                    j,
                ),
            forall|j: int|
                0 <= j < penalty@.len() ==> penalty@[j] as nat == self.penalty_upto(
                    num_players as int,
                    self.xi(j),
                    self.yi(j),
                    8,
                ),
        ensures
            r@.len() == self.cells@.len(),
            forall|i: int|
                0 <= i < r@.len() ==> r@[i] == self.vol_next(num_players as int, marks@, i),
    {
        let np = num_players;
        let _n = self.cells.len();
        let mut r: Vec<bool> = Vec::new();
        let mut y: i32 = 0;
        let mut i: usize = 0;
        while y < self.height
            invariant
                self.wf(),
                1 <= np <= 8,
                0 <= y <= self.height,
                i == y as int * self.width as int,
                i <= self.cells@.len(),
                self.cells@.len() <= usize::MAX,
                r@.len() == i,
                claim@.len() == self.cells@.len(),
                strength@.len() == self.cells@.len(),
                penalty@.len() == self.cells@.len(),
                marks@.len() == self.cells@.len(),
                forall|j: int|
                    0 <= j < claim@.len() ==> claim@[j] == self.claimant_at(np as int, j),
                forall|j: int|
                    0 <= j < strength@.len() ==> strength@[j] as int == self.strength_at(
                        np as int,
                        j,
                    ),
                forall|j: int|
                    0 <= j < penalty@.len() ==> penalty@[j] as nat == self.penalty_upto(
                        np as int,
                        self.xi(j),
                        self.yi(j),
                        8,
                    ),
                forall|j: int| 0 <= j < i ==> r@[j] == self.vol_next(np as int, marks@, j),
            decreases self.height - y,
        {
            let mut x: i32 = 0;
            while x < self.width
                invariant
                    self.wf(),
                    1 <= np <= 8,
                    0 <= y < self.height,
                    0 <= x <= self.width,
                    i == y as int * self.width as int + x as int,
                    i <= self.cells@.len(),
                    self.cells@.len() <= usize::MAX,
                    r@.len() == i,
                    claim@.len() == self.cells@.len(),
                    strength@.len() == self.cells@.len(),
                    penalty@.len() == self.cells@.len(),
                    marks@.len() == self.cells@.len(),
                    forall|j: int|
                        0 <= j < claim@.len() ==> claim@[j] == self.claimant_at(np as int, j),
                    forall|j: int|
                        0 <= j < strength@.len() ==> strength@[j] as int == self.strength_at(
                            np as int,
                            j,
                        ),
                    forall|j: int|
                        0 <= j < penalty@.len() ==> penalty@[j] as nat == self.penalty_upto(
                            np as int,
                            self.xi(j),
                            self.yi(j),
                            8,
                        ),
                    forall|j: int| 0 <= j < i ==> r@[j] == self.vol_next(np as int, marks@, j),
                decreases self.width - x,
            {
                let c = Coord { x, y };
                proof {
                    lemma_index_in_range(*self, x as int, y as int);
                    lemma_xi_yi(*self, x as int, y as int);
                }
                let vol = match claim[i] {
                    None => true,
                    Some(_) => {
                        let sup = self.support_one(c, claim, marks, np);
                        proof {
                            lemma_penalty_support_bound(
                                *self,
                                np as int,
                                marks@,
                                x as int,
                                y as int,
                                8,
                            );
                        }
                        strength[i] as usize <= penalty[i] as usize + sup as usize
                    },
                };
                r.push(vol);
                x += 1;
                i += 1;
            }
            proof {
                let w = self.width as int;
                assert((y as int + 1) * w == y as int * w + w) by (nonlinear_arith);
            }
            y += 1;
        }
        proof {
            assert(self.height as int * self.width as int == self.width as int
                * self.height as int) by (nonlinear_arith);
        }
        r
    }

    /// Which cells could still change their eventual owner, one flag per
    /// cell in row-major order.
    pub fn volatile_cells(&self, num_players: usize) -> (r: Vec<bool>)
        requires
            self.wf(),
            1 <= num_players <= 8,
        ensures
            r@ == self.volatile_spec(num_players as int),
            r@.len() == self.cells@.len(),
    {
        let np = num_players;
        let n = self.cells.len();

        let mut claim: Vec<Option<Player>> = Vec::new();
        let mut strength: Vec<u8> = Vec::new();
        let mut y: i32 = 0;
        let mut i: usize = 0;
        while y < self.height
            invariant
                self.wf(),
                1 <= np <= 8,
                0 <= y <= self.height,
                i == y as int * self.width as int,
                i <= self.cells@.len(),
                self.cells@.len() <= usize::MAX,
                claim@.len() == i,
                strength@.len() == i,
                forall|j: int| 0 <= j < i ==> claim@[j] == self.claimant_at(np as int, j),
                forall|j: int| 0 <= j < i ==> strength@[j] as int == self.strength_at(np as int, j),
            decreases self.height - y,
        {
            let mut x: i32 = 0;
            while x < self.width
                invariant
                    self.wf(),
                    1 <= np <= 8,
                    0 <= y < self.height,
                    0 <= x <= self.width,
                    i == y as int * self.width as int + x as int,
                    i <= self.cells@.len(),
                    self.cells@.len() <= usize::MAX,
                    claim@.len() == i,
                    strength@.len() == i,
                    forall|j: int| 0 <= j < i ==> claim@[j] == self.claimant_at(np as int, j),
                    forall|j: int|
                        0 <= j < i ==> strength@[j] as int == self.strength_at(np as int, j),
                decreases self.width - x,
            {
                proof {
                    lemma_index_in_range(*self, x as int, y as int);
                    lemma_xi_yi(*self, x as int, y as int);
                }
                let (cl, st) = self.claim_one(Coord { x, y }, np);
                claim.push(cl);
                strength.push(st);
                x += 1;
                i += 1;
            }
            proof {
                let w = self.width as int;
                assert((y as int + 1) * w == y as int * w + w) by (nonlinear_arith);
            }
            y += 1;
        }
        proof {
            assert(self.height as int * self.width as int == self.width as int
                * self.height as int) by (nonlinear_arith);
        }

        let mut penalty: Vec<u8> = Vec::new();
        let mut y: i32 = 0;
        let mut i: usize = 0;
        while y < self.height
            invariant
                self.wf(),
                1 <= np <= 8,
                0 <= y <= self.height,
                i == y as int * self.width as int,
                i <= self.cells@.len(),
                self.cells@.len() <= usize::MAX,
                claim@.len() == self.cells@.len(),
                forall|j: int|
                    0 <= j < claim@.len() ==> claim@[j] == self.claimant_at(np as int, j),
                penalty@.len() == i,
                forall|j: int|
                    0 <= j < i ==> penalty@[j] as nat == self.penalty_upto(
                        np as int,
                        self.xi(j),
                        self.yi(j),
                        8,
                    ),
            decreases self.height - y,
        {
            let mut x: i32 = 0;
            while x < self.width
                invariant
                    self.wf(),
                    1 <= np <= 8,
                    0 <= y < self.height,
                    0 <= x <= self.width,
                    i == y as int * self.width as int + x as int,
                    i <= self.cells@.len(),
                    self.cells@.len() <= usize::MAX,
                    claim@.len() == self.cells@.len(),
                    forall|j: int|
                        0 <= j < claim@.len() ==> claim@[j] == self.claimant_at(np as int, j),
                    penalty@.len() == i,
                    forall|j: int|
                        0 <= j < i ==> penalty@[j] as nat == self.penalty_upto(
                            np as int,
                            self.xi(j),
                            self.yi(j),
                            8,
                        ),
                decreases self.width - x,
            {
                proof {
                    lemma_index_in_range(*self, x as int, y as int);
                    lemma_xi_yi(*self, x as int, y as int);
                }
                let pen = self.penalty_one(Coord { x, y }, &claim, np);
                penalty.push(pen);
                x += 1;
                i += 1;
            }
            proof {
                let w = self.width as int;
                assert((y as int + 1) * w == y as int * w + w) by (nonlinear_arith);
            }
            y += 1;
        }
        proof {
            assert(self.height as int * self.width as int == self.width as int
                * self.height as int) by (nonlinear_arith);
        }

        let mut marks: Vec<bool> = Vec::new();
        let mut j: usize = 0;
        while j < n
            invariant
                j <= n,
                n == self.cells@.len(),
                marks@.len() == j,
                forall|t: int| 0 <= t < j ==> marks@[t] == false,
            decreases n - j,
        {
            marks.push(false);
            j += 1;
        }
        proof {
            assert(marks@ =~= self.volatile_rounds(np as int, 0));
        }

        let mut round: usize = 0;
        while round < n
            invariant
                self.wf(),
                1 <= np <= 8,
                round <= n,
                n == self.cells@.len(),
                claim@.len() == n,
                strength@.len() == n,
                penalty@.len() == n,
                marks@.len() == n,
                forall|t: int| 0 <= t < n ==> claim@[t] == self.claimant_at(np as int, t),
                forall|t: int| 0 <= t < n ==> strength@[t] as int == self.strength_at(np as int, t),
                forall|t: int|
                    0 <= t < n ==> penalty@[t] as nat == self.penalty_upto(
                        np as int,
                        self.xi(t),
                        self.yi(t),
                        8,
                    ),
                marks@ == self.volatile_rounds(np as int, round as int),
            decreases n - round,
        {
            let next = self.volatile_round(&claim, &strength, &penalty, &marks, np);
            proof {
                assert(next@ =~= self.volatile_rounds(np as int, round as int + 1));
            }
            marks = next;
            round += 1;
        }
        marks
    }
}


impl Clone for Board {
    /// A deep copy: search branches clone the board so that no two branches
    /// alias mutable state.
    fn clone(&self) -> (r: Board)
        ensures
            r.cells@ == self.cells@,
            r.width == self.width,
            r.height == self.height,
    {
        let mut cells: Vec<Cell> = Vec::new();
        let mut i: usize = 0;
        while i < self.cells.len()
            invariant
                i <= self.cells@.len(),
                cells@.len() == i,
                forall|j: int| 0 <= j < i ==> cells@[j] == self.cells@[j],
            decreases self.cells@.len() - i,
        {
            cells.push(self.cells[i]);
            i += 1;
        }
        proof {
            assert(cells@ =~= self.cells@);
        }
        Board { cells, width: self.width, height: self.height }
    }
}

impl Board {
    /// The influence classification of the cell with row-major index i.
    pub open spec fn influence_at(self, i: int) -> Influence {
        self.influence_spec(self.xi(i), self.yi(i))
    }

    /// Whether some cell of the board is classified as ruled or claimed by p:
    /// such a cell is a legal move for p.
    pub open spec fn player_has_move(self, p: Player) -> bool {
        exists|i: int|
            0 <= i < self.cells@.len() && (#[trigger] self.influence_at(i) == Influence::Ruled(p)
                || self.influence_at(i) == Influence::Claimed(p))
    }

    /// Whether some cell of the board is tied: a tied cell counts as a legal
    /// move for everyone.
    pub open spec fn has_tied_cell(self) -> bool {
        exists|i: int|
            0 <= i < self.cells@.len() && #[trigger] self.influence_at(i) == Influence::Tied
    }

    /// Whether at least two distinct players still have a legal move.
    pub open spec fn more_than_one_spec(self, np: int) -> bool {
        self.has_tied_cell() || exists|p1: Player, p2: Player|
            p1 < p2 < np && #[trigger] self.player_has_move(p1)
                && #[trigger] self.player_has_move(p2)
    }

    /// The game has ended: fewer than two distinct players have any legal
    /// move left, or no cell is volatile (the board has fully settled even
    /// though empty cells remain).
    pub open spec fn game_over_spec(self, np: int) -> bool {
        !self.more_than_one_spec(np) || (forall|i: int|
            0 <= i < self.cells@.len() ==> !self.volatile_spec(np)[i])
    }

    /// Whether at least two distinct players still have a legal move; a tied
    /// cell is a legal move for everyone and short-circuits the scan.
    fn more_than_one_player_has_valid_move(&self, num_players: usize) -> (r: bool)
        requires
            self.wf(),
            1 <= num_players <= 8,
        ensures
            r == self.more_than_one_spec(num_players as int),
    {
        let np = num_players;
        let _n = self.cells.len();
        let mut num_moves: Vec<usize> = Vec::new();
        let mut t: usize = 0;
        while t < 8
            invariant
                t <= 8,
                num_moves@.len() == t,
                forall|j: int| 0 <= j < t ==> num_moves@[j] == 0,
            decreases 8 - t,
        {
            num_moves.push(0);
            t += 1;
        }
        let mut y: i32 = 0;
        let mut i: usize = 0;
        while y < self.height
            invariant
                self.wf(),
                1 <= np <= 8,
                0 <= y <= self.height,
                i == y as int * self.width as int,
                i <= self.cells@.len(),
                self.cells@.len() <= usize::MAX,
                num_moves@.len() == 8,
                forall|j: int| 0 <= j < i ==> self.influence_at(j) != Influence::Tied,
                forall|p: Player|
                    p < 8 ==> ((num_moves@[p as int] > 0) <==> exists|j: int|
                        0 <= j < i && (#[trigger] self.influence_at(j) == Influence::Ruled(p)
                            || self.influence_at(j) == Influence::Claimed(p))),
                forall|p: Player| p < 8 ==> num_moves@[p as int] <= i,
            decreases self.height - y,
        {
            let mut x: i32 = 0;
            while x < self.width
                invariant
                    self.wf(),
                    1 <= np <= 8,
                    0 <= y < self.height,
                    0 <= x <= self.width,
                    i == y as int * self.width as int + x as int,
                    i <= self.cells@.len(),
                    self.cells@.len() <= usize::MAX,
                    num_moves@.len() == 8,
                    forall|j: int| 0 <= j < i ==> self.influence_at(j) != Influence::Tied,
                    forall|p: Player|
                        p < 8 ==> ((num_moves@[p as int] > 0) <==> exists|j: int|
                            0 <= j < i && (#[trigger] self.influence_at(j) == Influence::Ruled(p)
                                || self.influence_at(j) == Influence::Claimed(p))),
                    forall|p: Player| p < 8 ==> num_moves@[p as int] <= i,
                decreases self.width - x,
            {
                proof {
                    lemma_index_in_range(*self, x as int, y as int);
                    lemma_xi_yi(*self, x as int, y as int);
                }
                let infl = self.influence(Coord { x, y });
                match infl {
                    Influence::Occupied(_) => {},
                    Influence::Ruled(player) => {
                        proof {
                            assert(self.influence_at(i as int) == Influence::Ruled(player));
                        }
                        let old_count = num_moves[player as usize];
                        num_moves.set(player as usize, old_count + 1);
                    },
                    Influence::Claimed(player) => {
                        proof {
                            assert(self.influence_at(i as int) == Influence::Claimed(player));
                        }
                        let old_count = num_moves[player as usize];
                        num_moves.set(player as usize, old_count + 1);
                    },
                    Influence::Tied => {
                        proof {
                            assert(self.influence_at(i as int) == Influence::Tied);
                            assert(self.has_tied_cell());
                        }
                        return true;
                    },
                }
                x += 1;
                i += 1;
            }
            proof {
                let w = self.width as int;
                assert((y as int + 1) * w == y as int * w + w) by (nonlinear_arith);
            }
            y += 1;
        }
        proof {
            assert(self.height as int * self.width as int == self.width as int
                * self.height as int) by (nonlinear_arith);
            assert(!self.has_tied_cell());
        }
        let mut found: Option<Player> = None;
        let mut p: usize = 0;
        while p < np
            invariant
                self.wf(),
                1 <= np <= 8,
                np == num_players,
                p <= np,
                num_moves@.len() == 8,
                forall|q: Player|
                    q < 8 ==> ((num_moves@[q as int] > 0) <==> self.player_has_move(q)),
                match found {
                    None => forall|q: Player| q < p ==> !self.player_has_move(q),
                    Some(f) => f < p && self.player_has_move(f) && forall|q: Player|
                        q < p && q != f ==> !self.player_has_move(q),
                },
            decreases np - p,
        {
            if num_moves[p] > 0 {
                match found {
                    Some(f) => {
                        proof {
                            let p2 = p as Player;
                            assert(f < p2 < np && self.player_has_move(f)
                                && self.player_has_move(p2));
                            assert(self.more_than_one_spec(np as int));
                        }
                        return true;
                    },
                    None => {
                        found = Some(p as Player);
                    },
                }
            }
            p += 1;
        }
        false
    }

    /// Whether the game has ended: fewer than two distinct players have any
    /// legal move left, or no cell is volatile.
    pub fn is_game_over(&self, num_players: usize) -> (r: bool)
        requires
            self.wf(),
            1 <= num_players <= 8,
        ensures
            r == self.game_over_spec(num_players as int),
    {
        if !self.more_than_one_player_has_valid_move(num_players) {
            return true;
        }
        let volatiles = self.volatile_cells(num_players);
        let mut i: usize = 0;
        while i < volatiles.len()
            invariant
                self.more_than_one_spec(num_players as int),
                1 <= num_players <= 8,
                volatiles@ == self.volatile_spec(num_players as int),
                volatiles@.len() == self.cells@.len(),
                i <= volatiles@.len(),
                forall|j: int| 0 <= j < i ==> !self.volatile_spec(num_players as int)[j],
            decreases volatiles@.len() - i,
        {
            if volatiles[i] {
                return false;
            }
            i += 1;
        }
        true
    }

    /// How many of the first k cells lean towards player p.
    pub open spec fn points_upto(self, p: Player, k: int) -> nat
        decreases k,
    {
        if k <= 0 {
            0
        } else {
            self.points_upto(p, k - 1) + if self.influence_at(k - 1).spec_player() == Some(p) {
                1nat
            } else {
                0nat
            }
        }
    }

    /// The number of cells whose influence classification leans towards
    /// player p: occupied, ruled or claimed by p.
    pub open spec fn points_spec(self, p: Player) -> nat {
        self.points_upto(p, self.cells@.len() as int)
    }

    /// Per-player cell counts derived from the influence classification of
    /// the whole board.
    pub fn points(&self) -> (r: Points)
        requires
            self.wf(),
        ensures
            forall|p: Player| p < 8 ==> r@[p as int] == self.points_spec(p),
            forall|p: Player| p < 8 ==> r@[p as int] <= self.cells@.len(),
    {
        let _n = self.cells.len();
        let mut counts: Vec<usize> = Vec::new();
        let mut t: usize = 0;
        while t < 8
            invariant
                t <= 8,
                counts@.len() == t,
                forall|j: int| 0 <= j < t ==> counts@[j] == 0,
            decreases 8 - t,
        {
            counts.push(0);
            t += 1;
        }
        let mut y: i32 = 0;
        let mut i: usize = 0;
        while y < self.height
            invariant
                self.wf(),
                0 <= y <= self.height,
                i == y as int * self.width as int,
                i <= self.cells@.len(),
                self.cells@.len() <= usize::MAX,
                counts@.len() == 8,
                forall|p: Player| p < 8 ==> counts@[p as int] == self.points_upto(p, i as int),
                forall|p: Player| p < 8 ==> counts@[p as int] <= i,
            decreases self.height - y,
        {
            let mut x: i32 = 0;
            while x < self.width
                invariant
                    self.wf(),
                    0 <= y < self.height,
                    0 <= x <= self.width,
                    i == y as int * self.width as int + x as int,
                    i <= self.cells@.len(),
                    self.cells@.len() <= usize::MAX,
                    counts@.len() == 8,
                    forall|p: Player| p < 8 ==> counts@[p as int] == self.points_upto(p, i as int),
                    forall|p: Player| p < 8 ==> counts@[p as int] <= i,
                decreases self.width - x,
            {
                proof {
                    lemma_index_in_range(*self, x as int, y as int);
                    lemma_xi_yi(*self, x as int, y as int);
                }
                let infl = self.influence(Coord { x, y });
                if let Some(player) = infl.player() {
                    proof {
                        assert(self.influence_at(i as int).spec_player() == Some(player));
                        assert(cell_wf(self.cell_at(x as int, y as int)));
                    }
                    let old_count = counts[player as usize];
                    counts.set(player as usize, old_count + 1);
                }
                x += 1;
                i += 1;
            }
            proof {
                let w = self.width as int;
                assert((y as int + 1) * w == y as int * w + w) by (nonlinear_arith);
            }
            y += 1;
        }
        proof {
            assert(self.height as int * self.width as int == self.width as int
                * self.height as int) by (nonlinear_arith);
        }
        let r = [
            counts[0],
            counts[1],
            counts[2],
            counts[3],
            counts[4],
            counts[5],
            counts[6],
            counts[7],
        ];
        r
    }
}


/// Whether n is the square of some representable board side.
pub open spec fn is_square_len(n: int) -> bool {
    exists|m: int| 0 <= m <= 0x7fff_ffff && #[trigger] (m * m) == n
}

/// Whether every entry of the flat encoding names a supported player or is
/// the negative empty sentinel.
pub open spec fn entries_ok(s: Seq<i8>) -> bool {
    forall|i: int| 0 <= i < s.len() ==> s[i] < 8
}

impl Board {
    /// Builds a square board from the flat external encoding: one integer per
    /// cell in row-major order, negative for empty, the owner's index
    /// otherwise. A cell count that is not a perfect square, or an owner
    /// index at or above the supported maximum, is rejected before any board
    /// exists.
    pub fn from_js(board: &[i8]) -> (r: Option<Board>)
        ensures
            r is Some <==> (is_square_len(board@.len() as int) && entries_ok(board@)),
            r matches Some(b) ==> {
                &&& b.wf()
                &&& b.width == b.height
                &&& b.width as int * b.height as int == board@.len()
                &&& b.cells@.len() == board@.len()
                &&& forall|i: int|
                    0 <= i < board@.len() ==> b.cells@[i] == spec_player_from_i8(board@[i])
            },
    {
        let len = board.len();
        let mut m: usize = 0;
        loop
            invariant
                m <= 0x7fff_ffff,
                (m as int) * (m as int) <= len as int,
            ensures
                m <= 0x7fff_ffff,
                (m as int) * (m as int) <= len as int,
                m == 0x7fff_ffff || (m as int + 1) * (m as int + 1) > len as int,
            decreases 0x7fff_ffff - m,
        {
            if m >= 0x7fff_ffff {
                break;
            }
            let next: u64 = m as u64 + 1;
            proof {
                assert(next * next < 0x8000_0000_0000_0000) by (nonlinear_arith)
                    requires
                        next <= 0x8000_0000,
                ;
            }
            if next * next > len as u64 {
                break;
            }
            m += 1;
        }
        if (m as u64) * (m as u64) != len as u64 {
            proof {
                assert(!is_square_len(board@.len() as int)) by {
                    if is_square_len(len as int) {
                        let m2 = choose|m2: int| 0 <= m2 <= 0x7fff_ffff && #[trigger] (m2 * m2)
                            == len as int;
                        if m2 <= m {
                            assert(m2 * m2 <= (m as int) * (m as int)) by (nonlinear_arith)
                                requires
                                    0 <= m2 <= m as int,
                            ;
                        } else {
                            assert(m < 0x7fff_ffff);
                            assert((m as int + 1) * (m as int + 1) > len as int);
                            assert((m as int + 1) * (m as int + 1) <= m2 * m2)
                                by (nonlinear_arith)
                                requires
                                    0 <= m as int + 1 <= m2,
                            ;
                        }
                    }
                }
            }
            return None;
        }
        let mut cells: Vec<Cell> = Vec::new();
        let mut i: usize = 0;
        while i < len
            invariant
                i <= len,
                len == board@.len(),
                cells@.len() == i,
                forall|j: int| 0 <= j < i ==> cells@[j] == spec_player_from_i8(board@[j]),
                forall|j: int| 0 <= j < i ==> board@[j] < 8,
            decreases len - i,
        {
            let e = board[i];
            if e >= 8 {
                proof {
                    assert(!entries_ok(board@));
                }
                return None;
            }
            cells.push(player_from_i8(e));
            i += 1;
        }
        let b = Board { cells, width: m as i32, height: m as i32 };
        proof {
            assert((m as int) * (m as int) == len as int);
            assert(is_square_len(board@.len() as int)) by {
                let mi = m as int;
                assert(0 <= mi <= 0x7fff_ffff && mi * mi == board@.len() as int);
            }
            assert forall|j: int| 0 <= j < b.cells@.len() implies cell_wf(
                #[trigger] b.cells@[j],
            ) by {
                assert(b.cells@[j] == spec_player_from_i8(board@[j]));
                assert(board@[j] < 8);
            }
        }
        Some(b)
    }

    /// Places a stone for the player at coord on a copy of the board, or
    /// nothing when the move is not legal.
    pub fn try_make_move(&self, coord: Coord, player: Player, num_players: usize) -> (r: Option<
        Board,
    >)
        requires
            self.wf(),
            1 <= num_players <= 8,
            player < num_players,
        ensures
            r is Some <==> self.valid_move_spec(coord, player, num_players),
            r matches Some(b2) ==> {
                &&& b2.wf()
                &&& b2.width == self.width
                &&& b2.height == self.height
                &&& b2.cells@ == self.cells@.update(
                    self.spec_index(coord.x as int, coord.y as int),
                    Some(player),
                )
            },
    {
        if self.is_valid_move(coord, player, num_players) {
            let mut after = self.clone();
            after.set(coord, player);
            Some(after)
        } else {
            None
        }
    }
}


/// LAW: the influence classification is exhaustive and mutually exclusive.
/// Every occupied cell maps to `Occupied` of its owner; every empty cell maps
/// to exactly one of `Ruled`, `Claimed` or `Tied`, and the qualifying player
/// of a ruled or claimed cell is unique.
pub proof fn lemma_influence_classification(b: Board, x: int, y: int)
    ensures
        b.cell_at(x, y) is Some ==> b.influence_spec(x, y) == Influence::Occupied(
            b.cell_at(x, y).unwrap(),
        ),
        b.cell_at(x, y) is None ==> (b.influence_spec(x, y) is Ruled || b.influence_spec(x, y)
            is Claimed || b.influence_spec(x, y) is Tied),
        forall|p: Player, q: Player|
            b.ruled_by(x, y, p) && b.ruled_by(x, y, q) ==> p == q,
        forall|p: Player, q: Player|
            b.claimed_by(x, y, p) && b.claimed_by(x, y, q) ==> p == q,
        forall|p: Player|
            b.influence_spec(x, y) == Influence::Ruled(p) <==> b.ruled_by(x, y, p),
        forall|p: Player|
            b.influence_spec(x, y) == Influence::Claimed(p) <==> (b.claimed_by(x, y, p)
                && !b.ruled_by(x, y, p)),
        b.influence_spec(x, y) == Influence::Tied <==> (b.cell_at(x, y) is None && forall|
            p: Player,
        | !b.claimed_by(x, y, p)),
{
    assert forall|p: Player, q: Player|
        b.claimed_by(x, y, p) && b.claimed_by(x, y, q) implies p == q by {
        lemma_claimed_unique(b, x, y, p, q);
    }
    assert forall|p: Player, q: Player| b.ruled_by(x, y, p) && b.ruled_by(x, y, q) implies p
        == q by {
        lemma_ruled_implies_claimed(b, x, y, p);
        lemma_ruled_implies_claimed(b, x, y, q);
        lemma_claimed_unique(b, x, y, p, q);
    }
    assert forall|p: Player|
        b.influence_spec(x, y) == Influence::Ruled(p) implies b.ruled_by(x, y, p) by {
        if b.cell_at(x, y) is None && exists|w: Player| b.ruled_by(x, y, w) {
            let w = choose|w: Player| b.ruled_by(x, y, w);
            assert(b.ruled_by(x, y, w));
        }
    }
    assert forall|p: Player|
        b.ruled_by(x, y, p) implies b.influence_spec(x, y) == Influence::Ruled(p) by {
        let w = choose|w: Player| b.ruled_by(x, y, w);
        lemma_ruled_implies_claimed(b, x, y, p);
        lemma_ruled_implies_claimed(b, x, y, w);
        lemma_claimed_unique(b, x, y, p, w);
    }
    assert forall|p: Player|
        b.influence_spec(x, y) == Influence::Claimed(p) implies (b.claimed_by(x, y, p)
            && !b.ruled_by(x, y, p)) by {
        if b.cell_at(x, y) is None && !exists|w: Player| b.ruled_by(x, y, w) && exists|w: Player|
            b.claimed_by(x, y, w) {
            let w = choose|w: Player| b.claimed_by(x, y, w);
            assert(b.claimed_by(x, y, w));
        }
    }
    assert forall|p: Player|
        (b.claimed_by(x, y, p) && !b.ruled_by(x, y, p)) implies b.influence_spec(x, y)
            == Influence::Claimed(p) by {
        assert(!exists|w: Player| b.ruled_by(x, y, w)) by {
            if exists|w: Player| b.ruled_by(x, y, w) {
                let w = choose|w: Player| b.ruled_by(x, y, w);
                lemma_ruled_implies_claimed(b, x, y, w);
                lemma_claimed_unique(b, x, y, p, w);
            }
        }
        let w = choose|w: Player| b.claimed_by(x, y, w);
        lemma_claimed_unique(b, x, y, p, w);
    }
    assert(b.influence_spec(x, y) == Influence::Tied ==> (b.cell_at(x, y) is None && forall|
        p: Player,
    | !b.claimed_by(x, y, p))) by {
        if b.influence_spec(x, y) == Influence::Tied {
            assert forall|p: Player| !b.claimed_by(x, y, p) by {
                if b.claimed_by(x, y, p) {
                }
            }
        }
    }
    assert((b.cell_at(x, y) is None && (forall|p: Player| !b.claimed_by(x, y, p)))
        ==> b.influence_spec(x, y) == Influence::Tied) by {
        if b.cell_at(x, y) is None && (forall|p: Player| !b.claimed_by(x, y, p)) {
            assert(!exists|w: Player| b.ruled_by(x, y, w)) by {
                if exists|w: Player| b.ruled_by(x, y, w) {
                    let w = choose|w: Player| b.ruled_by(x, y, w);
                    lemma_ruled_implies_claimed(b, x, y, w);
                }
            }
        }
    }
}

/// LAW: the volatility analysis is a function of the board and the player
/// count alone, so computing it twice on an unmutated board yields identical
/// results.
pub proof fn lemma_volatile_idempotent(b: Board, np: int, r1: Seq<bool>, r2: Seq<bool>)
    requires
        r1 == b.volatile_spec(np),
        r2 == b.volatile_spec(np),
    ensures
        r1 == r2,
{
}

/// Splitting a row-major index into coordinates lands on the board.
pub proof fn lemma_i_to_xy(b: Board, i: int)
    requires
        b.wf(),
        0 <= i < b.cells@.len(),
    ensures
        b.spec_contains(b.xi(i), b.yi(i)),
        b.spec_index(b.xi(i), b.yi(i)) == i,
{
    let w = b.width as int;
    let h = b.height as int;
    assert(0 < w && 0 < h) by (nonlinear_arith)
        requires
            0 <= w,
            0 <= h,
            0 <= i < w * h,
    ;
    vstd::arithmetic::div_mod::lemma_fundamental_div_mod(i, w);
    vstd::arithmetic::div_mod::lemma_mod_bound(i, w);
    vstd::arithmetic::div_mod::lemma_div_pos_is_pos(i, w);
    let q = i / w;
    let r = i % w;
    assert(q < h) by (nonlinear_arith)
        requires
            i == w * q + r,
            0 <= r < w,
            i < w * h,
            0 < w,
    ;
    assert(q * w + r == w * q + r) by (nonlinear_arith);
}

/// LAW: the game is over on any board where every cell is occupied: no cell
/// is tied, no player has a ruled or claimed cell, so fewer than two players
/// have a move.
pub proof fn lemma_all_occupied_game_over(b: Board, np: int)
    requires
        b.wf(),
        1 <= np <= 8,
        forall|i: int| 0 <= i < b.cells@.len() ==> #[trigger] b.cells@[i] is Some,
    ensures
        b.game_over_spec(np),
{
    assert forall|i: int| 0 <= i < b.cells@.len() implies #[trigger] b.influence_at(i)
        is Occupied by {
        lemma_i_to_xy(b, i);
        assert(b.cell_at(b.xi(i), b.yi(i)) == b.cells@[i]);
    }
    assert(!b.has_tied_cell());
    assert forall|p: Player| !b.player_has_move(p) by {
        if b.player_has_move(p) {
            let i = choose|i: int|
                0 <= i < b.cells@.len() && (#[trigger] b.influence_at(i) == Influence::Ruled(p)
                    || b.influence_at(i) == Influence::Claimed(p));
            assert(b.influence_at(i) is Occupied);
        }
    }
    assert(!b.more_than_one_spec(np));
}

/// How many of the offsets below k point from (cx, cy) exactly at (mx, my).
pub open spec fn hit_upto(cx: int, cy: int, mx: int, my: int, k: int) -> nat
    decreases k,
{
    if k <= 0 {
        0
    } else {
        hit_upto(cx, cy, mx, my, k - 1) + if cx + doff(k - 1).0 == mx && cy + doff(k - 1).1
            == my {
            1nat
        } else {
            0nat
        }
    }
}

/// What one placed stone does to a single cell: the placed coordinate now
/// carries the mover, everything else is unchanged.
pub proof fn lemma_cell_after_update(
    b1: Board,
    b2: Board,
    mx: int,
    my: int,
    mover: Player,
    x: int,
    y: int,
)
    requires
        b1.wf(),
        b2.width == b1.width,
        b2.height == b1.height,
        b1.spec_contains(mx, my),
        b2.cells@ == b1.cells@.update(b1.spec_index(mx, my), Some(mover)),
    ensures
        x == mx && y == my ==> b2.cell_at(x, y) == Some(mover),
        !(x == mx && y == my) ==> b2.cell_at(x, y) == b1.cell_at(x, y),
{
    lemma_index_in_range(b1, mx, my);
    if x == mx && y == my {
    } else if b1.spec_contains(x, y) {
        lemma_index_in_range(b1, x, y);
        lemma_index_injective(b1, x, y, mx, my);
    }
}

/// What one placed stone does to the neighbor tallies of (cx, cy): the mover
/// gains the hits on the placed coordinate, everybody else keeps their
/// influence, and the empty count loses exactly those hits.
pub proof fn lemma_tally_after_move(
    b1: Board,
    b2: Board,
    mx: int,
    my: int,
    mover: Player,
    cx: int,
    cy: int,
    k: int,
)
    requires
        b1.wf(),
        b2.wf(),
        b2.width == b1.width,
        b2.height == b1.height,
        b1.spec_contains(mx, my),
        b1.cell_at(mx, my) is None,
        b2.cells@ == b1.cells@.update(b1.spec_index(mx, my), Some(mover)),
        0 <= k <= 8,
    ensures
        b2.infl_upto(cx, cy, mover, k) == b1.infl_upto(cx, cy, mover, k) + hit_upto(
            cx,
            cy,
            mx,
            my,
            k,
        ),
        forall|q: Player|
            q != mover ==> #[trigger] b2.infl_upto(cx, cy, q, k) == b1.infl_upto(cx, cy, q, k),
        b2.empty_upto(cx, cy, k) + hit_upto(cx, cy, mx, my, k) == b1.empty_upto(cx, cy, k),
    decreases k,
{
    if k > 0 {
        lemma_tally_after_move(b1, b2, mx, my, mover, cx, cy, k - 1);
        let nx = cx + doff(k - 1).0;
        let ny = cy + doff(k - 1).1;
        lemma_cell_after_update(b1, b2, mx, my, mover, nx, ny);
        assert forall|q: Player| q != mover implies #[trigger] b2.infl_upto(cx, cy, q, k)
            == b1.infl_upto(cx, cy, q, k) by {
            assert(b2.infl_upto(cx, cy, q, k - 1) == b1.infl_upto(cx, cy, q, k - 1));
            assert(b2.cell_at(nx, ny) == Some(q) <==> b1.cell_at(nx, ny) == Some(q));
        }
    }
}

/// One move somewhere else never breaks a ruling: the mover gains at most
/// what the vanished empty neighbor would have given, so the ruler's margin
/// survives.
pub proof fn lemma_ruled_persists_one_move(
    b1: Board,
    b2: Board,
    cx: int,
    cy: int,
    p: Player,
    mx: int,
    my: int,
    mover: Player,
)
    requires
        b1.wf(),
        b2.wf(),
        b2.width == b1.width,
        b2.height == b1.height,
        b1.spec_contains(mx, my),
        b1.cell_at(mx, my) is None,
        b2.cells@ == b1.cells@.update(b1.spec_index(mx, my), Some(mover)),
        !(mx == cx && my == cy),
        b1.ruled_by(cx, cy, p),
    ensures
        b2.ruled_by(cx, cy, p),
{
    lemma_cell_after_update(b1, b2, mx, my, mover, cx, cy);
    lemma_tally_after_move(b1, b2, mx, my, mover, cx, cy, 8);
    let h = hit_upto(cx, cy, mx, my, 8);
    assert forall|q: Player| q < 8 && q != p implies b2.infl(cx, cy, q) + b2.empties(cx, cy)
        < b2.infl(cx, cy, p) by {
        assert(b1.infl(cx, cy, q) + b1.empties(cx, cy) < b1.infl(cx, cy, p));
        if q == mover {
            assert(b2.infl(cx, cy, q) == b1.infl(cx, cy, q) + h);
            assert(b2.empties(cx, cy) + h == b1.empties(cx, cy));
        } else {
            assert(b2.infl(cx, cy, q) == b1.infl(cx, cy, q));
        }
        if p == mover {
            assert(b2.infl(cx, cy, p) == b1.infl(cx, cy, p) + h);
        } else {
            assert(b2.infl(cx, cy, p) == b1.infl(cx, cy, p));
        }
    }
}

/// A cell ruled by an active player is not a legal move for any other active
/// player.
pub proof fn lemma_ruled_blocks_others(b: Board, c: Coord, p: Player, q: Player, np: usize)
    requires
        b.wf(),
        b.ruled_by(c.x as int, c.y as int, p),
        1 <= np <= 8,
        p < np,
        q < np,
        q != p,
    ensures
        !b.valid_move_spec(c, q, np),
{
    if b.valid_move_spec(c, q, np) {
        assert(b.infl(c.x as int, c.y as int, p) <= b.infl(c.x as int, c.y as int, q));
        assert(b.infl(c.x as int, c.y as int, q) + b.empties(c.x as int, c.y as int) < b.infl(
            c.x as int,
            c.y as int,
            p,
        ));
    }
}

/// One legal move by one active player, stated over two board values.
pub open spec fn move_step(b1: Board, b2: Board, mx: int, my: int, mover: Player, np: int) -> bool {
    &&& b1.wf()
    &&& b2.wf()
    &&& b2.width == b1.width
    &&& b2.height == b1.height
    &&& b1.spec_contains(mx, my)
    &&& b1.cell_at(mx, my) is None
    &&& mover < np
    &&& forall|q: Player|
        q < np ==> #[trigger] b1.infl(mx, my, q) <= b1.infl(mx, my, mover)
    &&& b2.cells@ == b1.cells@.update(b1.spec_index(mx, my), Some(mover))
}

/// LAW: once a cell is ruled by an active player p, no sequence of legal
/// moves by the other active players can take the rule away from p. Each
/// board in the chain arises from its predecessor by one legal move of a
/// player other than p; the cell stays ruled by p throughout, and in
/// particular (by the blocking lemma) no other player can ever occupy it.
pub proof fn lemma_ruled_monotone(
    boards: Seq<Board>,
    moves: Seq<(int, int, Player)>,
    cx: int,
    cy: int,
    p: Player,
    np: int,
)
    requires
        1 <= np <= 8,
        p < np,
        boards.len() == moves.len() + 1,
        forall|t: int|
            0 <= t < moves.len() ==> #[trigger] move_step(
                boards[t],
                boards[t + 1],
                moves[t].0,
                moves[t].1,
                moves[t].2,
                np,
            ),
        forall|t: int| 0 <= t < moves.len() ==> (#[trigger] moves[t].2) != p,
        boards[0].wf(),
        boards[0].ruled_by(cx, cy, p),
    ensures
        boards.last().ruled_by(cx, cy, p),
    decreases moves.len(),
{
    if moves.len() == 0 {
    } else {
        let b1 = boards[0];
        let b2 = boards[1];
        let (mx, my, mover) = moves[0];
        assert(move_step(boards[0], boards[0int + 1], moves[0].0, moves[0].1, moves[0].2, np));
        assert(move_step(b1, b2, mx, my, mover, np));
        assert(!(mx == cx && my == cy)) by {
            if mx == cx && my == cy {
                assert(b1.infl(mx, my, p) <= b1.infl(mx, my, mover));
                assert(b1.infl(cx, cy, mover) + b1.empties(cx, cy) < b1.infl(cx, cy, p));
            }
        }
        lemma_ruled_persists_one_move(b1, b2, cx, cy, p, mx, my, mover);
        let boards2 = boards.subrange(1, boards.len() as int);
        let moves2 = moves.subrange(1, moves.len() as int);
        assert forall|t: int| 0 <= t < moves2.len() implies #[trigger] move_step(
            boards2[t],
            boards2[t + 1],
            moves2[t].0,
            moves2[t].1,
            moves2[t].2,
            np,
        ) by {
            assert(boards2[t] == boards[t + 1]);
            assert(boards2[t + 1] == boards[t + 2]);
            assert(moves2[t] == moves[t + 1]);
            assert(move_step(
                boards[t + 1],
                boards[t + 2],
                moves[t + 1].0,
                moves[t + 1].1,
                moves[t + 1].2,
                np,
            ));
        }
        assert forall|t: int| 0 <= t < moves2.len() implies (#[trigger] moves2[t].2) != p by {
            assert(moves2[t] == moves[t + 1]);
            assert(moves[t + 1].2 != p);
        }
        lemma_ruled_monotone(boards2, moves2, cx, cy, p, np);
        assert(boards2.last() == boards.last());
    }
}

/// The number of the first k cells that lean towards some player below m.
pub open spec fn settled_below_upto(b: Board, m: int, k: int) -> nat
    decreases k,
{
    if k <= 0 {
        0
    } else {
        settled_below_upto(b, m, k - 1) + match b.influence_at(k - 1).spec_player() {
            Some(p) => if p < m {
                1nat
            } else {
                0nat
            },
            None => 0,
        }
    }
}

/// The per-player point counts of the players below m, summed, over the
/// first k cells.
pub open spec fn points_sum_upto(b: Board, m: int, k: int) -> nat
    decreases m,
{
    if m <= 0 {
        0
    } else {
        points_sum_upto(b, m - 1, k) + b.points_upto((m - 1) as Player, k)
    }
}

/// With no cells counted, the summed point counts are zero.
pub proof fn lemma_points_sum_zero(b: Board, m: int)
    requires
        0 <= m <= 8,
    ensures
        points_sum_upto(b, m, 0) == 0,
    decreases m,
{
    if m > 0 {
        lemma_points_sum_zero(b, m - 1);
    }
}

/// Each cell that leans towards a player below m is counted exactly once in
/// the summed point counts.
pub proof fn lemma_points_sum_step(b: Board, m: int, k: int)
    requires
        0 <= m <= 8,
        1 <= k,
    ensures
        points_sum_upto(b, m, k) == points_sum_upto(b, m, k - 1) + match b.influence_at(
            k - 1,
        ).spec_player() {
            Some(p) => if p < m {
                1nat
            } else {
                0nat
            },
            None => 0nat,
        },
    decreases m,
{
    if m > 0 {
        lemma_points_sum_step(b, m - 1, k);
    }
}

/// LAW: the per-player points sum to the number of cells whose influence
/// leans towards somebody — the occupied or settled cells.
pub proof fn lemma_points_sum(b: Board, k: int)
    requires
        b.wf(),
        0 <= k <= b.cells@.len(),
    ensures
        points_sum_upto(b, 8, k) == settled_below_upto(b, 8, k),
    decreases k,
{
    if k > 0 {
        lemma_points_sum(b, k - 1);
        lemma_points_sum_step(b, 8, k);
        let pl = b.influence_at(k - 1).spec_player();
        if pl is Some {
            lemma_i_to_xy(b, k - 1);
            let x = b.xi(k - 1);
            let y = b.yi(k - 1);
            assert(cell_wf(b.cell_at(x, y)));
            lemma_influence_classification(b, x, y);
            assert(pl.unwrap() < 8) by {
                match b.influence_spec(x, y) {
                    Influence::Occupied(p0) => {
                        assert(b.cell_at(x, y) == Some(p0));
                    },
                    Influence::Ruled(p0) => {
                        assert(b.ruled_by(x, y, p0));
                    },
                    Influence::Claimed(p0) => {
                        assert(b.claimed_by(x, y, p0));
                    },
                    Influence::Tied => {},
                }
            }
        }
        let x_val: nat = match pl {
            Some(p) => if p < 8 {
                1nat
            } else {
                0nat
            },
            None => 0nat,
        };
        assert(points_sum_upto(b, 8, k) == points_sum_upto(b, 8, k - 1) + x_val);
        assert(settled_below_upto(b, 8, k) == settled_below_upto(b, 8, k - 1) + x_val);
    } else {
        lemma_points_sum_zero(b, 8);
    }
}

} // verus!
