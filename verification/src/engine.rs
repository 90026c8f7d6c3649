//! The game state and its operations: start a game, apply a move, spawn a
//! tile, and step on a key press.

use vstd::prelude::*;

use crate::model::{
    board_bounded, board_full, board_max, board_ok, empty_cells_of,
    empty_cells_upto, is_pow2, lane_cell, lane_changed, lane_gain, lane_values, lemma_board_max,
    lemma_board_max_le, lemma_empty_cells_upto, lemma_lane_cell_range, lemma_move_board_capped,
    lemma_move_gain_bounds, lemma_moved_iff_changed, lemma_settle_gain_lb, lemma_settle_gain_ub,
    lemma_settle_snoc, lemma_slide_lanes_len, lemma_slide_lanes_untouched,
    lemma_tile_count_update, lemma_tile_count_zero, move_gain, move_gain_upto, moved_board, settle,
    slid_lane, slide_lanes, tile_count, valid_cell, with_lane, Direction, MAX_CELL, SCORE_LIMIT,
};
use crate::rng::random_below;

verus! {

/// A 2048 game: the 16-cell board (row-major) and the accumulated score.
pub struct GameState {
    cells: Vec<u32>,
    score: u64,
}

impl GameState {
    /// The board as a sequence of 16 cells, row-major.
    pub closed spec fn board(&self) -> Seq<u32> {
        self.cells@
    }

    /// The accumulated score.
    pub closed spec fn points(&self) -> u64 {
        self.score
    }

    /// Well-formed: 16 cells, each empty or a power-of-two tile.
    pub open spec fn wf(&self) -> bool {
        board_ok(self.board())
    }

    /// Every cell is below the executable cap.
    pub open spec fn bounded(&self) -> bool {
        board_bounded(self.board())
    }

    /// A game over the given cells, with score 0.
    pub fn from_cells(cells: Vec<u32>) -> (g: GameState)
        requires
            cells@.len() == 16,
        ensures
            g.board() == cells@,
            g.points() == 0,
    {
        GameState { cells, score: 0 }
    }

    /// Read the cell in row `r`, column `c`.
    pub fn cell(&self, r: usize, c: usize) -> (v: u32)
        requires
            self.board().len() == 16,
            r < 4,
            c < 4,
        ensures
            v == self.board()[4 * r + c],
    {
        self.cells[4 * r + c]
    }

    /// The current score.
    pub fn score(&self) -> (s: u64)
        ensures
            s == self.points(),
    {
        self.score
    }

    /// The empty cells, in ascending row-major order.
    fn empty_cells(&self) -> (v: Vec<usize>)
        requires
            self.board().len() == 16,
        ensures
            v@ == empty_cells_of(self.board()),
    {
        let mut v: Vec<usize> = Vec::new();
        let mut i: usize = 0;
        while i < 16
            invariant
                i <= 16,
                self.cells@.len() == 16,
                v@ == empty_cells_upto(self.cells@, i as int),
            decreases 16 - i,
        {
            if self.cells[i] == 0 {
                v.push(i);
            }
            i = i + 1;
        }
        v
    }

    /// Put a tile (4 when `four`, else 2) into the `pick`-th empty cell.
    /// The deterministic companion of `spawn_tile`: it pins down exactly
    /// which board results from a given choice, so tests can drive spawning
    /// without randomness.
    pub fn place_tile(&mut self, pick: usize, four: bool)
        requires
            old(self).board().len() == 16,
            (pick as int) < empty_cells_of(old(self).board()).len(),
        ensures
            final(self).points() == old(self).points(),
            final(self).board() == old(self).board().update(
                empty_cells_of(old(self).board())[pick as int] as int,
                if four {
                    4u32
                } else {
                    2u32
                },
            ),
            old(self).wf() ==> final(self).wf(),
    {
        let e = self.empty_cells();
        proof {
            lemma_empty_cells_upto(self.cells@, 16);
            assert((e@[pick as int] as int) < 16);
        }
        let idx = e[pick];
        let v: u32 = if four {
            4
        } else {
            2
        };
        self.cells[idx] = v;
        proof {
            if old(self).wf() {
                assert(is_pow2(1));
                assert(is_pow2(2));
                assert(is_pow2(4));
                assert(valid_cell(v));
                assert(self.cells@ == old(self).cells@.update(idx as int, v));
                assert(forall|k: int| 0 <= k < 16 ==> valid_cell(self.cells@[k]));
            }
        }
    }

    /// Spawn a tile into a uniformly chosen empty cell: 2 with probability
    /// 9/10, else 4. On a full board this is a no-op: the board is unchanged.
    /// Whatever the random draws, exactly one empty cell is filled, the rest
    /// of the board and the score stay as they were.
    pub fn spawn_tile(&mut self)
        requires
            old(self).board().len() == 16,
        ensures
            final(self).points() == old(self).points(),
            board_full(old(self).board()) ==> final(self).board() == old(self).board(),
            !board_full(old(self).board()) ==> (exists|i: int|
                0 <= i < 16 && old(self).board()[i] == 0
                    && (final(self).board()[i] == 2 || final(self).board()[i] == 4)
                    && final(self).board() == old(self).board().update(i, final(self).board()[i])),
            old(self).wf() ==> final(self).wf(),
            old(self).bounded() ==> final(self).bounded(),
    {
        let e = self.empty_cells();
        proof {
            lemma_empty_cells_upto(self.cells@, 16);
        }
        if e.len() > 0 {
            let pick = random_below(e.len() as u32);
            let roll = random_below(10);
            self.place_tile(pick as usize, roll == 0);
            proof {
                let i = empty_cells_of(old(self).board())[pick as int] as int;
                assert(old(self).board()[i] == 0);
                assert(self.board() == old(self).board().update(i, self.board()[i]));
                assert(0 <= i < 16 && old(self).board()[i] == 0 && (self.board()[i] == 2
                    || self.board()[i] == 4) && self.board() == old(self).board().update(
                    i,
                    self.board()[i],
                ));
            }
        } else {
            proof {
                assert(board_full(self.cells@));
            }
        }
    }

    /// A fresh game: empty board and score 0, then two spawned tiles.
    pub fn new() -> (g: GameState)
        ensures
            g.wf(),
            g.points() == 0,
            g.bounded(),
            tile_count(g.board()) == 2,
            forall|i: int|
                0 <= i < 16 ==> (g.board()[i] == 0 || g.board()[i] == 2 || g.board()[i] == 4),
    {
        let cells: Vec<u32> = vec![0u32; 16];
        let mut g = GameState { cells, score: 0 };
        let ghost b0 = g.board();
        proof {
            assert(b0.len() == 16);
            assert(forall|i: int| 0 <= i < 16 ==> b0[i] == 0);
            lemma_tile_count_zero(b0, 16);
            assert(!board_full(b0));
        }
        g.spawn_tile();
        let ghost b1 = g.board();
        proof {
            let i1 = choose|i: int|
                0 <= i < 16 && b0[i] == 0 && (b1[i] == 2 || b1[i] == 4) && b1 == b0.update(
                    i,
                    b1[i],
                );
            lemma_tile_count_update(b0, i1, b1[i1]);
            let j: int = if i1 == 0 {
                1
            } else {
                0
            };
            assert(b1[j] == 0);
            assert(!board_full(b1));
        }
        g.spawn_tile();
        proof {
            let b2 = g.board();
            let i1 = choose|i: int|
                0 <= i < 16 && b0[i] == 0 && (b1[i] == 2 || b1[i] == 4) && b1 == b0.update(
                    i,
                    b1[i],
                );
            let i2 = choose|i: int|
                0 <= i < 16 && b1[i] == 0 && (b2[i] == 2 || b2[i] == 4) && b2 == b1.update(
                    i,
                    b2[i],
                );
            lemma_tile_count_update(b0, i1, b1[i1]);
            lemma_tile_count_update(b1, i2, b2[i2]);
            assert(tile_count(b2) == 2);
            assert forall|k: int| 0 <= k < 16 implies (b2[k] == 0 || b2[k] == 2 || b2[k] == 4) by {
                if k != i2 {
                    assert(b2[k] == b1[k]);
                    if k != i1 {
                        assert(b1[k] == b0[k]);
                    }
                }
            }
        }
        g
    }

    /// Board index of offset `p` on lane `l` for a move toward `dir`.
    fn lane_cell_at(dir: Direction, l: usize, p: usize) -> (i: usize)
        requires
            l < 4,
            p < 4,
        ensures
            i as int == lane_cell(dir, l as int, p as int),
            i < 16,
    {
        match dir {
            Direction::Left => 4 * l + p,
            Direction::Right => 4 * l + 3 - p,
            Direction::Up => 4 * p + l,
            Direction::Down => 4 * (3 - p) + l,
        }
    }

    /// Slide and merge one lane of four values, the one nearest the target
    /// edge first. Returns the settled lane, padded with empty cells, and
    /// the score gained by its merges.
    fn settle_lane(vals: &Vec<u32>) -> (r: (Vec<u32>, u64))
        requires
            vals@.len() == 4,
            forall|i: int| 0 <= i < 4 ==> vals@[i] <= MAX_CELL,
        ensures
            r.0@ == slid_lane(vals@),
            r.1 as int == lane_gain(vals@),
            r.0@.len() == 4,
    {
        let mut acc: Vec<u32> = Vec::new();
        let mut merged = false;
        let mut gain: u64 = 0;
        let mut p: usize = 0;
        while p < 4
            invariant
                p <= 4,
                vals@.len() == 4,
                forall|i: int| 0 <= i < 4 ==> vals@[i] <= MAX_CELL,
                acc@ == settle(vals@.take(p as int), Seq::empty(), false, 0).0,
                merged == settle(vals@.take(p as int), Seq::empty(), false, 0).1,
                gain as int == settle(vals@.take(p as int), Seq::empty(), false, 0).2,
                acc@.len() <= p,
                gain <= 0x4000_0000u64 * (p as u64),
            decreases 4 - p,
        {
            let v = vals[p];
            proof {
                lemma_settle_snoc(vals@.take(p as int), v, Seq::empty(), false, 0);
                assert(vals@.take(p as int + 1) =~= vals@.take(p as int).push(v));
            }
            if v != 0 {
                let n = acc.len();
                if n > 0 && !merged && acc[n - 1] == v {
                    let m = 2 * v;
                    acc[n - 1] = m;
                    gain = gain + m as u64;
                    merged = true;
                } else {
                    acc.push(v);
                    merged = false;
                }
            }
            p = p + 1;
        }
        proof {
            assert(vals@.take(4) =~= vals@);
        }
        let ghost s0 = acc@;
        while acc.len() < 4
            invariant
                s0 == settle(vals@, Seq::empty(), false, 0).0,
                s0.len() <= acc@.len() <= 4,
                acc@ == s0 + Seq::new((acc@.len() - s0.len()) as nat, |q: int| 0u32),
            decreases 4 - acc.len(),
        {
            acc.push(0);
            proof {
                assert(acc@ =~= s0 + Seq::new((acc@.len() - s0.len()) as nat, |q: int| 0u32));
            }
        }
        proof {
            assert(acc@ =~= slid_lane(vals@));
        }
        (acc, gain)
    }

    /// Apply one move: slide and merge every lane toward `dir`, each tile
    /// merging at most once per move. Returns whether anything slid or
    /// merged, which is exactly "the board changed"; when nothing changed
    /// the board is identical. The score grows by exactly the values of the
    /// merges the move makes, so it never decreases.
    pub fn apply_move(&mut self, dir: Direction) -> (moved: bool)
        requires
            old(self).wf(),
            old(self).bounded(),
            old(self).points() <= SCORE_LIMIT,
        ensures
            final(self).wf(),
            final(self).board() == moved_board(old(self).board(), dir),
            final(self).points() as int == old(self).points() as int + move_gain(
                old(self).board(),
                dir,
            ),
            moved == (final(self).board() != old(self).board()),
            final(self).points() >= old(self).points(),
            forall|i: int| 0 <= i < 16 ==> final(self).board()[i] <= 2 * MAX_CELL,
            forall|i: int|
                0 <= i < 16 ==> final(self).board()[i] <= 2 * board_max(old(self).board()),
    {
        let ghost b0 = self.cells@;
        let ghost s0 = self.score;
        let mut moved = false;
        let mut l: usize = 0;
        while l < 4
            invariant
                l <= 4,
                board_ok(b0),
                board_bounded(b0),
                s0 <= SCORE_LIMIT,
                self.cells@ == slide_lanes(b0, dir, l as int),
                self.score as int == s0 as int + move_gain_upto(b0, dir, l as int),
                self.score as int <= s0 as int + (l as int) * 0x1_0000_0000,
                s0 <= self.score,
                moved <==> (exists|l2: int| 0 <= l2 < l as int && lane_changed(b0, dir, l2)),
            decreases 4 - l,
        {
            proof {
                lemma_slide_lanes_len(b0, dir, l as int);
                assert(lane_values(self.cells@, dir, l as int) =~= lane_values(
                    b0,
                    dir,
                    l as int,
                )) by {
                    assert forall|q: int| 0 <= q < 4 implies self.cells@[lane_cell(
                        dir,
                        l as int,
                        q,
                    )] == b0[lane_cell(dir, l as int, q)] by {
                        lemma_slide_lanes_untouched(b0, dir, l as int, l as int, q);
                    }
                }
            }
            let mut vals: Vec<u32> = Vec::new();
            let mut p: usize = 0;
            while p < 4
                invariant
                    p <= 4,
                    l < 4,
                    self.cells@.len() == 16,
                    vals@.len() == p as int,
                    forall|q: int|
                        0 <= q < p as int ==> vals@[q] == self.cells@[lane_cell(dir, l as int, q)],
                decreases 4 - p,
            {
                let idx = Self::lane_cell_at(dir, l, p);
                let cv = self.cells[idx];
                vals.push(cv);
                p = p + 1;
            }
            proof {
                assert(vals@ =~= lane_values(self.cells@, dir, l as int));
                assert(vals@ == lane_values(b0, dir, l as int));
                assert forall|q: int| 0 <= q < 4 implies vals@[q] <= MAX_CELL by {
                    lemma_lane_cell_range(dir, l as int, q);
                }
                lemma_settle_gain_lb(vals@, Seq::empty(), false, 0);
                lemma_settle_gain_ub(vals@, Seq::empty(), false, 0);
            }
            let r = Self::settle_lane(&vals);
            let out = r.0;
            let gain = r.1;
            let mut changed = false;
            let mut q: usize = 0;
            while q < 4
                invariant
                    q <= 4,
                    out@.len() == 4,
                    vals@.len() == 4,
                    changed <==> (exists|q2: int| 0 <= q2 < q as int && out@[q2] != vals@[q2]),
                decreases 4 - q,
            {
                if out[q] != vals[q] {
                    changed = true;
                    proof {
                        assert(out@[q as int] != vals@[q as int]);
                    }
                }
                q = q + 1;
            }
            proof {
                if changed {
                    let q2 = choose|q2: int| 0 <= q2 < 4 && out@[q2] != vals@[q2];
                    assert(out@[q2] != vals@[q2]);
                    assert(out@ != vals@);
                } else {
                    assert(out@ =~= vals@);
                }
                assert(changed == lane_changed(b0, dir, l as int));
            }
            let i0 = Self::lane_cell_at(dir, l, 0);
            let i1 = Self::lane_cell_at(dir, l, 1);
            let i2 = Self::lane_cell_at(dir, l, 2);
            let i3 = Self::lane_cell_at(dir, l, 3);
            let o0 = out[0];
            let o1 = out[1];
            let o2 = out[2];
            let o3 = out[3];
            self.cells[i0] = o0;
            self.cells[i1] = o1;
            self.cells[i2] = o2;
            self.cells[i3] = o3;
            proof {
                assert(self.cells@ == with_lane(
                    slide_lanes(b0, dir, l as int),
                    dir,
                    l as int,
                    out@,
                ));
                assert(self.cells@ == slide_lanes(b0, dir, l as int + 1));
            }
            self.score = self.score + gain;
            moved = moved || changed;
            proof {
                assert(move_gain_upto(b0, dir, l as int + 1) == move_gain_upto(b0, dir, l as int)
                    + lane_gain(lane_values(b0, dir, l as int)));
                if moved {
                    if changed {
                        assert(lane_changed(b0, dir, l as int));
                        assert(exists|l2: int|
                            0 <= l2 < l as int + 1 && lane_changed(b0, dir, l2));
                    } else {
                        let l2 = choose|l2: int| 0 <= l2 < l as int && lane_changed(b0, dir, l2);
                        assert(0 <= l2 < l as int + 1 && lane_changed(b0, dir, l2));
                    }
                }
            }
            l = l + 1;
        }
        proof {
            assert(self.cells@ == moved_board(b0, dir));
            lemma_moved_iff_changed(b0, dir);
            lemma_board_max(b0, 16);
            lemma_board_max_le(b0, 16, MAX_CELL as int);
            lemma_move_board_capped(b0, dir, board_max(b0));
            lemma_move_gain_bounds(b0, dir);
        }
        moved
    }

    /// One key press: apply the move, and exactly when it changed the
    /// board, spawn a tile into one of the empty cells.
    pub fn step(&mut self, dir: Direction) -> (moved: bool)
        requires
            old(self).wf(),
            old(self).bounded(),
            old(self).points() <= SCORE_LIMIT,
        ensures
            final(self).wf(),
            moved == (moved_board(old(self).board(), dir) != old(self).board()),
            !moved ==> final(self).board() == old(self).board()
                && final(self).points() == old(self).points(),
            moved ==> final(self).points() as int == old(self).points() as int + move_gain(
                old(self).board(),
                dir,
            ),
            moved ==> (board_full(moved_board(old(self).board(), dir)) ==> final(self).board()
                == moved_board(old(self).board(), dir)),
            moved ==> (!board_full(moved_board(old(self).board(), dir)) ==> (exists|i: int|
                0 <= i < 16 && moved_board(old(self).board(), dir)[i] == 0
                    && (final(self).board()[i] == 2 || final(self).board()[i] == 4)
                    && final(self).board() == moved_board(old(self).board(), dir).update(i, final(self).board()[i]))),
            forall|i: int|
                0 <= i < 16 ==> final(self).board()[i] <= 2 * board_max(old(self).board())
                    || final(self).board()[i] == 2 || final(self).board()[i] == 4,
    {
        let moved = self.apply_move(dir);
        let ghost mid = self.board();
        if !moved {
            proof {
                crate::model::lemma_unmoved_no_gain(old(self).board(), dir);
            }
        } else {
            self.spawn_tile();
        }
        proof {
            lemma_board_max(old(self).board(), 16);
            let bm = board_max(old(self).board());
            assert forall|i: int| 0 <= i < 16 implies self.board()[i] <= 2 * bm
                || self.board()[i] == 2 || self.board()[i] == 4 by {
                if moved {
                    if !board_full(mid) {
                        let j = choose|j: int|
                            0 <= j < 16 && mid[j] == 0 && (self.board()[j] == 2
                                || self.board()[j] == 4) && self.board() == mid.update(
                                j,
                                self.board()[j],
                            );
                        if i != j {
                            assert(self.board()[i] == mid[i]);
                        }
                    } else {
                        assert(self.board() == mid);
                    }
                } else {
                    assert(self.board() == old(self).board());
                }
            }
        }
        moved
    }

    /// Whether the state satisfies what `apply_move` requires; the front
    /// end checks this before every move.
    pub fn move_ready(&self) -> (ok: bool)
        ensures
            ok == (self.wf() && self.bounded() && self.points() <= SCORE_LIMIT),
    {
        if self.cells.len() != 16 {
            return false;
        }
        if self.score > SCORE_LIMIT {
            return false;
        }
        let mut i: usize = 0;
        let mut ok = true;
        while i < 16
            invariant
                i <= 16,
                self.cells@.len() == 16,
                ok <==> (forall|k: int|
                    0 <= k < i as int ==> valid_cell(self.cells@[k]) && self.cells@[k] <= MAX_CELL),
            decreases 16 - i,
        {
            let v = self.cells[i];
            let good = (v == 0 || (v >= 2 && Self::is_power_of_two(v))) && v <= MAX_CELL;
            proof {
                assert(good == (valid_cell(self.cells@[i as int]) && self.cells@[i as int]
                    <= MAX_CELL));
            }
            ok = ok && good;
            i = i + 1;
        }
        ok
    }

    /// The board as text: four rows, each a bordered line of centred cell
    /// values, as the terminal shows it.
    pub fn render(&self) -> (r: String)
        requires
            self.board().len() == 16,
        ensures
            r@ == crate::render::board_text(self.board()),
    {
        crate::render::board_string(&self.cells)
    }

    /// Whether `v` is a power of two.
    fn is_power_of_two(v: u32) -> (b: bool)
        ensures
            b == is_pow2(v as nat),
        decreases v,
    {
        if v == 0 {
            false
        } else if v == 1 {
            true
        } else if v % 2 != 0 {
            false
        } else {
            Self::is_power_of_two(v / 2)
        }
    }
}

} // verus!
