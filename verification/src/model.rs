//! Mathematical model of the 4x4 board and of one move.
//!
//! A board is a row-major sequence of 16 cells. A move is described lane by
//! lane: for each of the four lanes perpendicular to the move axis, the lane's
//! values are read starting at the edge the tiles travel toward, settled by
//! `settle`, and written back. `settle` walks the values in that order and
//! keeps an accumulator of already settled tiles: an empty cell disappears, a
//! value equal to the last settled tile doubles it (adding the doubled value
//! to the gained score) unless that tile was itself made by a merge of this
//! move, and any other value settles behind it. This is the effect of
//! sliding each tile as far as it goes toward the target edge and merging it
//! with an equal neighbour, processed nearest-to-farthest from that edge,
//! with each tile merging at most once per move.

use vstd::prelude::*;

verus! {

/// Direction a move slides the tiles in.
#[derive(Clone, Copy, PartialEq, Eq, Structural, Debug)]
pub enum Direction {
    Up,
    Down,
    Left,
    Right,
}

/// Largest tile value the executable move accepts; far above anything a 4x4
/// game can build (131072), it keeps the doubled value inside `u32`.
pub const MAX_CELL: u32 = 0x2000_0000;

/// Largest score the executable move accepts; one move can add at most
/// 16 * 2 * MAX_CELL, which the remaining headroom covers.
pub const SCORE_LIMIT: u64 = 0xFFFF_FFE0_0000_0000;

/// `v` is a power of two (1, 2, 4, ...).
pub open spec fn is_pow2(v: nat) -> bool
    decreases v,
{
    if v == 0 {
        false
    } else if v == 1 {
        true
    } else {
        v % 2 == 0 && is_pow2(v / 2)
    }
}

/// A cell is either empty (0) or a tile: a power of two at least 2.
pub open spec fn valid_cell(v: u32) -> bool {
    v == 0 || (v >= 2 && is_pow2(v as nat))
}

/// A well-formed board: 16 cells, each empty or a tile.
pub open spec fn board_ok(b: Seq<u32>) -> bool {
    &&& b.len() == 16
    &&& forall|i: int| 0 <= i < 16 ==> valid_cell(b[i])
}

/// Every cell of the board is below the executable cap.
pub open spec fn board_bounded(b: Seq<u32>) -> bool {
    forall|i: int| 0 <= i < b.len() ==> b[i] <= MAX_CELL
}

/// Every cell of the board is occupied.
pub open spec fn board_full(b: Seq<u32>) -> bool {
    forall|i: int| 0 <= i < b.len() ==> b[i] != 0
}

/// Doubling a power of two gives a power of two.
pub proof fn lemma_pow2_double(v: nat)
    requires
        is_pow2(v),
    ensures
        is_pow2(2 * v),
{
    assert(2 * v != 0);
    assert(2 * v != 1);
    assert((2 * v) % 2 == 0);
    assert((2 * v) / 2 == v);
}

/// Settle the values of one lane, read from the target edge outward, onto
/// the accumulator `acc` of already settled tiles, carrying whether the last
/// settled tile was made by a merge of this move (`merged`) and the score
/// gained so far. A value merges only into an equal last tile that has not
/// itself merged yet, so a tile merges at most once per move. Result: the
/// settled tiles, the flag, and the total gain.
pub open spec fn settle(vals: Seq<u32>, acc: Seq<u32>, merged: bool, gain: int) -> (
    Seq<u32>,
    bool,
    int,
)
    decreases vals.len(),
{
    if vals.len() == 0 {
        (acc, merged, gain)
    } else {
        let v = vals[0];
        let rest = vals.drop_first();
        if v == 0 {
            settle(rest, acc, merged, gain)
        } else if acc.len() > 0 && acc[acc.len() - 1] == v && !merged {
            settle(rest, acc.update(acc.len() - 1, (2 * v) as u32), true, gain + 2 * v)
        } else {
            settle(rest, acc.push(v), false, gain)
        }
    }
}

/// The lane after a move: the settled tiles at the front, empty cells behind,
/// four cells in all.
pub open spec fn slid_lane(vals: Seq<u32>) -> Seq<u32> {
    let s = settle(vals, Seq::empty(), false, 0).0;
    s + Seq::new((4 - s.len() as int) as nat, |i: int| 0u32)
}

/// Score gained by settling one lane.
pub open spec fn lane_gain(vals: Seq<u32>) -> int {
    settle(vals, Seq::empty(), false, 0).2
}

/// Settling one more value extends the settled lane at its far end.
pub proof fn lemma_settle_snoc(vals: Seq<u32>, v: u32, acc: Seq<u32>, merged: bool, gain: int)
    ensures
        settle(vals.push(v), acc, merged, gain) == ({
            let (a, m, g) = settle(vals, acc, merged, gain);
            if v == 0 {
                (a, m, g)
            } else if a.len() > 0 && a[a.len() - 1] == v && !m {
                (a.update(a.len() - 1, (2 * v) as u32), true, g + 2 * v)
            } else {
                (a.push(v), false, g)
            }
        }),
    decreases vals.len(),
{
    reveal_with_fuel(settle, 3);
    if vals.len() == 0 {
        assert(vals.push(v).drop_first() =~= Seq::<u32>::empty());
        assert(vals.push(v)[0] == v);
    } else {
        assert(vals.push(v)[0] == vals[0]);
        assert(vals.push(v).drop_first() =~= vals.drop_first().push(v));
        let v0 = vals[0];
        if v0 == 0 {
            lemma_settle_snoc(vals.drop_first(), v, acc, merged, gain);
        } else if acc.len() > 0 && acc[acc.len() - 1] == v0 && !merged {
            lemma_settle_snoc(
                vals.drop_first(),
                v,
                acc.update(acc.len() - 1, (2 * v0) as u32),
                true,
                gain + 2 * v0,
            );
        } else {
            lemma_settle_snoc(vals.drop_first(), v, acc.push(v0), false, gain);
        }
    }
}

/// Settling never grows the lane beyond one tile per value.
pub proof fn lemma_settle_len(vals: Seq<u32>, acc: Seq<u32>, merged: bool, gain: int)
    ensures
        acc.len() <= settle(vals, acc, merged, gain).0.len() + vals.len(),
        settle(vals, acc, merged, gain).0.len() <= acc.len() + vals.len(),
    decreases vals.len(),
{
    if vals.len() > 0 {
        let v = vals[0];
        let rest = vals.drop_first();
        if v == 0 {
            lemma_settle_len(rest, acc, merged, gain);
        } else if acc.len() > 0 && acc[acc.len() - 1] == v && !merged {
            lemma_settle_len(rest, acc.update(acc.len() - 1, (2 * v) as u32), true, gain + 2 * v);
        } else {
            lemma_settle_len(rest, acc.push(v), false, gain);
        }
    }
}

/// Settling valid cells capped by `cap` yields valid tiles, at most twice
/// the cap: a tile merges at most once, so nothing grows past one doubling.
pub proof fn lemma_settle_valid(vals: Seq<u32>, acc: Seq<u32>, merged: bool, gain: int, cap: int)
    requires
        0 <= cap <= MAX_CELL,
        forall|i: int| 0 <= i < vals.len() ==> valid_cell(vals[i]) && vals[i] <= cap,
        forall|i: int| 0 <= i < acc.len() ==> valid_cell(acc[i]) && acc[i] <= 2 * cap,
    ensures
        forall|i: int|
            0 <= i < settle(vals, acc, merged, gain).0.len() ==> valid_cell(
                settle(vals, acc, merged, gain).0[i],
            ) && settle(vals, acc, merged, gain).0[i] <= 2 * cap,
    decreases vals.len(),
{
    if vals.len() > 0 {
        let v = vals[0];
        let rest = vals.drop_first();
        assert(forall|i: int| 0 <= i < rest.len() ==> valid_cell(rest[i]) && rest[i] <= cap);
        let merging = v != 0 && acc.len() > 0 && acc[acc.len() - 1] == v && !merged;
        let acc2 = if v == 0 {
            acc
        } else if merging {
            acc.update(acc.len() - 1, (2 * v) as u32)
        } else {
            acc.push(v)
        };
        let merged2 = if v == 0 {
            merged
        } else {
            merging
        };
        let gain2 = if merging {
            gain + 2 * v
        } else {
            gain
        };
        if merging {
            assert(valid_cell((2 * v) as u32) && (2 * v) as u32 <= 2 * cap) by {
                lemma_pow2_double(v as nat);
            }
        }
        assert(forall|i: int| 0 <= i < acc2.len() ==> valid_cell(acc2[i]) && acc2[i] <= 2 * cap);
        lemma_settle_valid(rest, acc2, merged2, gain2, cap);
        assert(settle(vals, acc, merged, gain) == settle(rest, acc2, merged2, gain2));
        assert forall|i: int| 0 <= i < settle(vals, acc, merged, gain).0.len() implies valid_cell(
            settle(vals, acc, merged, gain).0[i],
        ) && settle(vals, acc, merged, gain).0[i] <= 2 * cap by {
            assert(valid_cell(settle(rest, acc2, merged2, gain2).0[i]) && settle(
                rest,
                acc2,
                merged2,
                gain2,
            ).0[i] <= 2 * cap);
        }
    }
}

/// Settling never lowers the carried gain.
pub proof fn lemma_settle_gain_lb(vals: Seq<u32>, acc: Seq<u32>, merged: bool, gain: int)
    ensures
        settle(vals, acc, merged, gain).2 >= gain,
    decreases vals.len(),
{
    if vals.len() > 0 {
        let v = vals[0];
        let rest = vals.drop_first();
        if v == 0 {
            lemma_settle_gain_lb(rest, acc, merged, gain);
        } else if acc.len() > 0 && acc[acc.len() - 1] == v && !merged {
            lemma_settle_gain_lb(
                rest,
                acc.update(acc.len() - 1, (2 * v) as u32),
                true,
                gain + 2 * v,
            );
        } else {
            lemma_settle_gain_lb(rest, acc.push(v), false, gain);
        }
    }
}

/// With capped values, each settled value adds at most `2 * MAX_CELL` gain.
pub proof fn lemma_settle_gain_ub(vals: Seq<u32>, acc: Seq<u32>, merged: bool, gain: int)
    requires
        forall|i: int| 0 <= i < vals.len() ==> vals[i] <= MAX_CELL,
    ensures
        settle(vals, acc, merged, gain).2 <= gain + 2 * (MAX_CELL as int) * vals.len(),
    decreases vals.len(),
{
    if vals.len() > 0 {
        let v = vals[0];
        let rest = vals.drop_first();
        assert(forall|i: int| 0 <= i < rest.len() ==> rest[i] <= MAX_CELL);
        if v == 0 {
            lemma_settle_gain_ub(rest, acc, merged, gain);
        } else if acc.len() > 0 && acc[acc.len() - 1] == v && !merged {
            lemma_settle_gain_ub(
                rest,
                acc.update(acc.len() - 1, (2 * v) as u32),
                true,
                gain + 2 * v,
            );
        } else {
            lemma_settle_gain_ub(rest, acc.push(v), false, gain);
        }
    }
}

/// Row-major index of the cell at offset `p` along lane `l` of a move toward
/// `dir`, counted from the edge the tiles travel toward.
pub open spec fn lane_cell(dir: Direction, l: int, p: int) -> int {
    match dir {
        Direction::Left => 4 * l + p,
        Direction::Right => 4 * l + 3 - p,
        Direction::Up => 4 * p + l,
        Direction::Down => 4 * (3 - p) + l,
    }
}

/// The four cells of lane `l`, read from the target edge outward.
pub open spec fn lane_values(b: Seq<u32>, dir: Direction, l: int) -> Seq<u32> {
    Seq::new(4, |p: int| b[lane_cell(dir, l, p)])
}

/// Lane cells stay on the board.
pub proof fn lemma_lane_cell_range(dir: Direction, l: int, p: int)
    requires
        0 <= l < 4,
        0 <= p < 4,
    ensures
        0 <= lane_cell(dir, l, p) < 16,
{
}

/// Distinct lane/offset pairs name distinct cells.
pub proof fn lemma_lane_cell_distinct(dir: Direction, l: int, p: int, l2: int, p2: int)
    requires
        0 <= l < 4,
        0 <= p < 4,
        0 <= l2 < 4,
        0 <= p2 < 4,
        (l, p) != (l2, p2),
    ensures
        lane_cell(dir, l, p) != lane_cell(dir, l2, p2),
{
}

/// The lane and offset of a board cell under a move toward `dir`.
pub open spec fn lane_of(dir: Direction, i: int) -> int {
    match dir {
        Direction::Left => i / 4,
        Direction::Right => i / 4,
        Direction::Up => i % 4,
        Direction::Down => i % 4,
    }
}

/// The offset along its lane of a board cell under a move toward `dir`.
pub open spec fn pos_of(dir: Direction, i: int) -> int {
    match dir {
        Direction::Left => i % 4,
        Direction::Right => 3 - i % 4,
        Direction::Up => i / 4,
        Direction::Down => 3 - i / 4,
    }
}

/// Every board cell lies on exactly one lane.
pub proof fn lemma_lane_cover(dir: Direction, i: int)
    requires
        0 <= i < 16,
    ensures
        0 <= lane_of(dir, i) < 4,
        0 <= pos_of(dir, i) < 4,
        lane_cell(dir, lane_of(dir, i), pos_of(dir, i)) == i,
{
    assert(i == 4 * (i / 4) + i % 4) by {
        vstd::arithmetic::div_mod::lemma_fundamental_div_mod(i, 4);
    }
    assert(0 <= i % 4 < 4);
    assert(0 <= i / 4 < 4);
}

/// Write the four values of a lane back into the board.
pub open spec fn with_lane(b: Seq<u32>, dir: Direction, l: int, vals: Seq<u32>) -> Seq<u32> {
    b.update(lane_cell(dir, l, 0), vals[0]).update(lane_cell(dir, l, 1), vals[1]).update(
        lane_cell(dir, l, 2),
        vals[2],
    ).update(lane_cell(dir, l, 3), vals[3])
}

/// The board after the first `n` lanes have been slid toward `dir`.
pub open spec fn slide_lanes(b: Seq<u32>, dir: Direction, n: int) -> Seq<u32>
    decreases n,
{
    if n <= 0 {
        b
    } else {
        let prev = slide_lanes(b, dir, n - 1);
        with_lane(prev, dir, n - 1, slid_lane(lane_values(prev, dir, n - 1)))
    }
}

/// The whole board after a move toward `dir`.
pub open spec fn moved_board(b: Seq<u32>, dir: Direction) -> Seq<u32> {
    slide_lanes(b, dir, 4)
}

/// Score gained by the first `n` lanes of a move toward `dir`.
pub open spec fn move_gain_upto(b: Seq<u32>, dir: Direction, n: int) -> int
    decreases n,
{
    if n <= 0 {
        0
    } else {
        move_gain_upto(b, dir, n - 1) + lane_gain(lane_values(b, dir, n - 1))
    }
}

/// Score gained by a move toward `dir`: the values of all merges it makes.
pub open spec fn move_gain(b: Seq<u32>, dir: Direction) -> int {
    move_gain_upto(b, dir, 4)
}

/// A slid lane always has four cells.
pub proof fn lemma_slid_lane_len(vals: Seq<u32>)
    requires
        vals.len() == 4,
    ensures
        slid_lane(vals).len() == 4,
        settle(vals, Seq::empty(), false, 0).0.len() <= 4,
{
    lemma_settle_len(vals, Seq::empty(), false, 0);
}

/// Sliding lanes keeps the board's length.
pub proof fn lemma_slide_lanes_len(b: Seq<u32>, dir: Direction, n: int)
    requires
        b.len() == 16,
        0 <= n <= 4,
    ensures
        slide_lanes(b, dir, n).len() == b.len(),
    decreases n,
{
    if n > 0 {
        lemma_slide_lanes_len(b, dir, n - 1);
        lemma_lane_cell_range(dir, n - 1, 0);
        lemma_lane_cell_range(dir, n - 1, 1);
        lemma_lane_cell_range(dir, n - 1, 2);
        lemma_lane_cell_range(dir, n - 1, 3);
    }
}

/// Cells of lanes that have not been slid yet are untouched.
pub proof fn lemma_slide_lanes_untouched(b: Seq<u32>, dir: Direction, n: int, l: int, p: int)
    requires
        b.len() == 16,
        0 <= n <= 4,
        n <= l < 4,
        0 <= p < 4,
    ensures
        slide_lanes(b, dir, n)[lane_cell(dir, l, p)] == b[lane_cell(dir, l, p)],
    decreases n,
{
    lemma_lane_cell_range(dir, l, p);
    if n > 0 {
        lemma_slide_lanes_untouched(b, dir, n - 1, l, p);
        lemma_slide_lanes_len(b, dir, n - 1);
        let m = n - 1;
        assert forall|q: int| 0 <= q < 4 implies #[trigger] lane_cell(dir, m, q) != lane_cell(
            dir,
            l,
            p,
        ) by {
            lemma_lane_cell_distinct(dir, m, q, l, p);
        }
    }
}

/// After sliding `n` lanes, each cell of an already slid lane holds its
/// settled value.
pub proof fn lemma_slide_lanes_cell(b: Seq<u32>, dir: Direction, n: int, l: int, p: int)
    requires
        b.len() == 16,
        0 <= l < n <= 4,
        0 <= p < 4,
    ensures
        slide_lanes(b, dir, n)[lane_cell(dir, l, p)] == slid_lane(lane_values(b, dir, l))[p],
    decreases n,
{
    lemma_lane_cell_range(dir, l, p);
    lemma_slide_lanes_len(b, dir, n - 1);
    let prev = slide_lanes(b, dir, n - 1);
    if l == n - 1 {
        assert(lane_values(prev, dir, l) =~= lane_values(b, dir, l)) by {
            assert forall|q: int| 0 <= q < 4 implies prev[lane_cell(dir, l, q)] == b[lane_cell(
                dir,
                l,
                q,
            )] by {
                lemma_slide_lanes_untouched(b, dir, n - 1, l, q);
            }
        }
        let vals = slid_lane(lane_values(b, dir, l));
        lemma_slid_lane_len(lane_values(b, dir, l));
        assert forall|q: int| 0 <= q < 4 && q != p implies lane_cell(dir, l, q) != lane_cell(
            dir,
            l,
            p,
        ) by {
            lemma_lane_cell_distinct(dir, l, q, l, p);
        }
        assert(with_lane(prev, dir, l, vals)[lane_cell(dir, l, p)] == vals[p]);
    } else {
        lemma_slide_lanes_cell(b, dir, n - 1, l, p);
        let m = n - 1;
        assert forall|q: int| 0 <= q < 4 implies #[trigger] lane_cell(dir, m, q) != lane_cell(
            dir,
            l,
            p,
        ) by {
            lemma_lane_cell_distinct(dir, m, q, l, p);
        }
    }
}

/// The lane is changed by the move.
pub open spec fn lane_changed(b: Seq<u32>, dir: Direction, l: int) -> bool {
    slid_lane(lane_values(b, dir, l)) != lane_values(b, dir, l)
}

/// A move changes the board exactly when it changes some lane.
pub proof fn lemma_moved_iff_changed(b: Seq<u32>, dir: Direction)
    requires
        b.len() == 16,
    ensures
        (moved_board(b, dir) != b) <==> (exists|l: int| 0 <= l < 4 && lane_changed(b, dir, l)),
{
    lemma_slide_lanes_len(b, dir, 4);
    if exists|l: int| 0 <= l < 4 && lane_changed(b, dir, l) {
        let l = choose|l: int| 0 <= l < 4 && lane_changed(b, dir, l);
        let vals = lane_values(b, dir, l);
        let slid = slid_lane(vals);
        lemma_slid_lane_len(vals);
        if forall|p: int| 0 <= p < 4 ==> slid[p] == vals[p] {
            assert(slid =~= vals);
            assert(false);
        }
        let p = choose|p: int| 0 <= p < 4 && slid[p] != vals[p];
        lemma_slide_lanes_cell(b, dir, 4, l, p);
        lemma_lane_cell_range(dir, l, p);
        assert(moved_board(b, dir)[lane_cell(dir, l, p)] != b[lane_cell(dir, l, p)]);
    } else {
        assert(moved_board(b, dir) =~= b) by {
            assert forall|i: int| 0 <= i < 16 implies moved_board(b, dir)[i] == b[i] by {
                lemma_lane_cover(dir, i);
                let l = lane_of(dir, i);
                let p = pos_of(dir, i);
                lemma_slide_lanes_cell(b, dir, 4, l, p);
                assert(!lane_changed(b, dir, l));
                assert(slid_lane(lane_values(b, dir, l))[p] == lane_values(b, dir, l)[p]);
            }
        }
    }
}

/// A move over a board whose cells are valid and at most `cap` yields a
/// board whose cells are valid and at most `2 * cap`: each tile merges at
/// most once, so one move at most doubles the largest tile. This lets a
/// caller chain moves: a game that starts small stays within the caps for
/// as many moves as the headroom allows.
pub proof fn lemma_move_board_capped(b: Seq<u32>, dir: Direction, cap: int)
    requires
        board_ok(b),
        0 <= cap <= MAX_CELL,
        forall|i: int| 0 <= i < 16 ==> b[i] <= cap,
    ensures
        board_ok(moved_board(b, dir)),
        forall|i: int| 0 <= i < 16 ==> moved_board(b, dir)[i] <= 2 * cap,
{
    lemma_slide_lanes_len(b, dir, 4);
    assert forall|i: int| 0 <= i < 16 implies valid_cell(moved_board(b, dir)[i]) && moved_board(
        b,
        dir,
    )[i] <= 2 * cap by {
        lemma_lane_cover(dir, i);
        let l = lane_of(dir, i);
        let p = pos_of(dir, i);
        lemma_slide_lanes_cell(b, dir, 4, l, p);
        let vals = lane_values(b, dir, l);
        assert forall|q: int| 0 <= q < vals.len() implies valid_cell(vals[q]) && vals[q]
            <= cap by {
            lemma_lane_cell_range(dir, l, q);
        }
        lemma_settle_valid(vals, Seq::empty(), false, 0, cap);
        lemma_slid_lane_len(vals);
        let s = settle(vals, Seq::empty(), false, 0).0;
        if p < s.len() {
            assert(slid_lane(vals)[p] == s[p]);
        } else {
            assert(slid_lane(vals)[p] == 0);
        }
    }
}

/// A move keeps every cell a valid tile or empty, and below twice the cap.
/// This is the board half of the game invariant: however the tiles slide and
/// merge, each cell stays 0 or a power of two at least 2.
pub proof fn lemma_move_board_ok(b: Seq<u32>, dir: Direction)
    requires
        board_ok(b),
        board_bounded(b),
    ensures
        board_ok(moved_board(b, dir)),
        forall|i: int| 0 <= i < 16 ==> moved_board(b, dir)[i] <= 2 * MAX_CELL,
{
    lemma_move_board_capped(b, dir, MAX_CELL as int);
}

/// A move never lowers the score, and one move's gain is bounded by the cap.
/// This is the score half of the game invariant: the score changes only by
/// adding each merge's doubled value, which is never negative.
pub proof fn lemma_move_gain_bounds(b: Seq<u32>, dir: Direction)
    requires
        b.len() == 16,
        board_bounded(b),
    ensures
        0 <= move_gain(b, dir) <= 16 * 2 * (MAX_CELL as int),
{
    assert forall|l: int| 0 <= l < 4 implies 0 <= #[trigger] lane_gain(lane_values(b, dir, l)) <= 8
        * (MAX_CELL as int) by {
        let vals = lane_values(b, dir, l);
        assert forall|q: int| 0 <= q < vals.len() implies vals[q] <= MAX_CELL by {
            lemma_lane_cell_range(dir, l, q);
        }
        lemma_settle_gain_lb(vals, Seq::empty(), false, 0);
        lemma_settle_gain_ub(vals, Seq::empty(), false, 0);
    }
    assert(move_gain_upto(b, dir, 0) == 0);
    assert(move_gain_upto(b, dir, 1) == move_gain_upto(b, dir, 0) + lane_gain(
        lane_values(b, dir, 0),
    ));
    assert(move_gain_upto(b, dir, 2) == move_gain_upto(b, dir, 1) + lane_gain(
        lane_values(b, dir, 1),
    ));
    assert(move_gain_upto(b, dir, 3) == move_gain_upto(b, dir, 2) + lane_gain(
        lane_values(b, dir, 2),
    ));
    assert(move_gain_upto(b, dir, 4) == move_gain_upto(b, dir, 3) + lane_gain(
        lane_values(b, dir, 3),
    ));
}

/// Occupied cells of a lane.
pub open spec fn nonzero_count(s: Seq<u32>) -> int
    decreases s.len(),
{
    if s.len() == 0 {
        0
    } else {
        (if s[0] != 0 {
            1int
        } else {
            0int
        }) + nonzero_count(s.drop_first())
    }
}

/// Settling keeps every settled cell occupied; it gains score exactly when
/// it drops a tile by merging, so the gain is unchanged exactly when every
/// occupied value settles as its own tile.
pub proof fn lemma_settle_no_gain(vals: Seq<u32>, acc: Seq<u32>, merged: bool, gain: int)
    requires
        forall|i: int| 0 <= i < vals.len() ==> vals[i] <= MAX_CELL,
        forall|i: int| 0 <= i < acc.len() ==> acc[i] != 0,
    ensures
        settle(vals, acc, merged, gain).0.len() <= acc.len() + nonzero_count(vals),
        (settle(vals, acc, merged, gain).2 == gain) <==> (settle(vals, acc, merged, gain).0.len()
            == acc.len() + nonzero_count(vals)),
        settle(vals, acc, merged, gain).2 >= gain,
        forall|i: int|
            0 <= i < settle(vals, acc, merged, gain).0.len() ==> settle(
                vals,
                acc,
                merged,
                gain,
            ).0[i] != 0,
    decreases vals.len(),
{
    if vals.len() > 0 {
        let v = vals[0];
        let rest = vals.drop_first();
        assert(forall|i: int| 0 <= i < rest.len() ==> rest[i] <= MAX_CELL);
        let merging = v != 0 && acc.len() > 0 && acc[acc.len() - 1] == v && !merged;
        let acc2 = if v == 0 {
            acc
        } else if merging {
            acc.update(acc.len() - 1, (2 * v) as u32)
        } else {
            acc.push(v)
        };
        let merged2 = if v == 0 {
            merged
        } else {
            merging
        };
        let gain2 = if merging {
            gain + 2 * v
        } else {
            gain
        };
        assert(forall|i: int| 0 <= i < acc2.len() ==> acc2[i] != 0);
        lemma_settle_no_gain(rest, acc2, merged2, gain2);
        assert(settle(vals, acc, merged, gain) == settle(rest, acc2, merged2, gain2));
        assert forall|i: int| 0 <= i < settle(vals, acc, merged, gain).0.len() implies settle(
            vals,
            acc,
            merged,
            gain,
        ).0[i] != 0 by {
            assert(settle(rest, acc2, merged2, gain2).0[i] != 0);
        }
    }
}

/// A sequence of occupied cells counts its own length.
pub proof fn lemma_nonzero_count_all(s: Seq<u32>)
    requires
        forall|i: int| 0 <= i < s.len() ==> s[i] != 0,
    ensures
        nonzero_count(s) == s.len(),
    decreases s.len(),
{
    if s.len() > 0 {
        assert(forall|i: int| 0 <= i < s.drop_first().len() ==> s.drop_first()[i] != 0);
        lemma_nonzero_count_all(s.drop_first());
    }
}

/// Appended empty cells do not change the count.
pub proof fn lemma_nonzero_count_pad(s: Seq<u32>, z: Seq<u32>)
    requires
        forall|i: int| 0 <= i < z.len() ==> z[i] == 0,
    ensures
        nonzero_count(s + z) == nonzero_count(s),
    decreases s.len() + z.len(),
{
    if s.len() == 0 {
        if z.len() == 0 {
            assert(s + z =~= s);
        } else {
            assert((s + z)[0] == z[0]);
            assert((s + z).drop_first() =~= Seq::<u32>::empty() + z.drop_first());
            assert(forall|i: int| 0 <= i < z.drop_first().len() ==> z.drop_first()[i] == 0);
            lemma_nonzero_count_pad(Seq::empty(), z.drop_first());
        }
    } else {
        assert((s + z)[0] == s[0]);
        assert((s + z).drop_first() =~= s.drop_first() + z);
        lemma_nonzero_count_pad(s.drop_first(), z);
    }
}

/// A lane the move leaves in place gains no score: every merge drops a tile
/// and so changes the lane.
pub proof fn lemma_unchanged_lane_no_gain(vals: Seq<u32>)
    requires
        vals.len() == 4,
        forall|i: int| 0 <= i < 4 ==> vals[i] <= MAX_CELL,
        slid_lane(vals) == vals,
    ensures
        lane_gain(vals) == 0,
{
    lemma_settle_no_gain(vals, Seq::empty(), false, 0);
    let s = settle(vals, Seq::empty(), false, 0).0;
    let z = Seq::new((4 - s.len() as int) as nat, |i: int| 0u32);
    lemma_nonzero_count_pad(s, z);
    lemma_nonzero_count_all(s);
    assert(nonzero_count(vals) == nonzero_count(s + z));
    assert(nonzero_count(s) == s.len());
}

/// A move that leaves the whole board unchanged gains no score.
pub proof fn lemma_unmoved_no_gain(b: Seq<u32>, dir: Direction)
    requires
        b.len() == 16,
        board_bounded(b),
        moved_board(b, dir) == b,
    ensures
        move_gain(b, dir) == 0,
{
    lemma_moved_iff_changed(b, dir);
    assert forall|l: int| 0 <= l < 4 implies #[trigger] lane_gain(lane_values(b, dir, l)) == 0 by {
        let vals = lane_values(b, dir, l);
        assert(!lane_changed(b, dir, l));
        assert forall|q: int| 0 <= q < vals.len() implies vals[q] <= MAX_CELL by {
            lemma_lane_cell_range(dir, l, q);
        }
        lemma_unchanged_lane_no_gain(vals);
    }
    assert(move_gain_upto(b, dir, 0) == 0);
    assert(move_gain_upto(b, dir, 1) == move_gain_upto(b, dir, 0) + lane_gain(
        lane_values(b, dir, 0),
    ));
    assert(move_gain_upto(b, dir, 2) == move_gain_upto(b, dir, 1) + lane_gain(
        lane_values(b, dir, 1),
    ));
    assert(move_gain_upto(b, dir, 3) == move_gain_upto(b, dir, 2) + lane_gain(
        lane_values(b, dir, 2),
    ));
    assert(move_gain_upto(b, dir, 4) == move_gain_upto(b, dir, 3) + lane_gain(
        lane_values(b, dir, 3),
    ));
}

/// The largest value among the first `n` cells (0 on an empty prefix).
pub open spec fn board_max_upto(b: Seq<u32>, n: int) -> int
    decreases n,
{
    if n <= 0 {
        0
    } else {
        let m = board_max_upto(b, n - 1);
        if b[n - 1] > m {
            b[n - 1] as int
        } else {
            m
        }
    }
}

/// The largest cell value on the board.
pub open spec fn board_max(b: Seq<u32>) -> int {
    board_max_upto(b, 16)
}

/// `board_max` bounds every cell.
pub proof fn lemma_board_max(b: Seq<u32>, n: int)
    requires
        0 <= n <= 16,
        b.len() == 16,
    ensures
        board_max_upto(b, n) >= 0,
        forall|i: int| 0 <= i < n ==> b[i] <= board_max_upto(b, n),
    decreases n,
{
    if n > 0 {
        lemma_board_max(b, n - 1);
    }
}

/// `board_max` is below any cap that every cell keeps to.
pub proof fn lemma_board_max_le(b: Seq<u32>, n: int, c: int)
    requires
        0 <= n <= 16,
        b.len() == 16,
        c >= 0,
        forall|i: int| 0 <= i < n ==> b[i] <= c,
    ensures
        board_max_upto(b, n) <= c,
    decreases n,
{
    if n > 0 {
        lemma_board_max_le(b, n - 1, c);
    }
}

/// The empty cells among the first `n`, in ascending order.
pub open spec fn empty_cells_upto(b: Seq<u32>, n: int) -> Seq<usize>
    decreases n,
{
    if n <= 0 {
        Seq::empty()
    } else {
        let s = empty_cells_upto(b, n - 1);
        if b[n - 1] == 0 {
            s.push((n - 1) as usize)
        } else {
            s
        }
    }
}

/// The empty cells of the board, in ascending order.
pub open spec fn empty_cells_of(b: Seq<u32>) -> Seq<usize> {
    empty_cells_upto(b, 16)
}

/// The listed cells are empty, and the list is empty exactly when the first
/// `n` cells are all occupied.
pub proof fn lemma_empty_cells_upto(b: Seq<u32>, n: int)
    requires
        b.len() == 16,
        0 <= n <= 16,
    ensures
        forall|k: int|
            0 <= k < empty_cells_upto(b, n).len() ==> (empty_cells_upto(b, n)[k] as int) < n
                && b[empty_cells_upto(b, n)[k] as int] == 0,
        (empty_cells_upto(b, n).len() == 0) <==> (forall|i: int| 0 <= i < n ==> b[i] != 0),
        empty_cells_upto(b, n).len() <= n,
    decreases n,
{
    if n > 0 {
        lemma_empty_cells_upto(b, n - 1);
        let s = empty_cells_upto(b, n - 1);
        let s2 = empty_cells_upto(b, n);
        assert forall|k: int| 0 <= k < s2.len() implies (s2[k] as int) < n && b[s2[k] as int]
            == 0 by {
            if k < s.len() {
                assert(s2[k] == s[k]);
                assert((s[k] as int) < n - 1 && b[s[k] as int] == 0);
            } else {
                assert(b[n - 1] == 0 && k == s.len());
                assert(s2[k] == (n - 1) as usize);
            }
        }
        if b[n - 1] == 0 {
            assert(s2.len() > 0);
        } else {
            assert(s2 == s);
        }
    }
}

/// Tiles among the first `n` cells.
pub open spec fn tile_count_upto(b: Seq<u32>, n: int) -> int
    decreases n,
{
    if n <= 0 {
        0
    } else {
        tile_count_upto(b, n - 1) + if b[n - 1] != 0 {
            1int
        } else {
            0int
        }
    }
}

/// Tiles on the board.
pub open spec fn tile_count(b: Seq<u32>) -> int {
    tile_count_upto(b, 16)
}

proof fn lemma_tile_count_update_upto(b: Seq<u32>, i: int, v: u32, n: int)
    requires
        0 <= i < b.len(),
        b[i] == 0,
        v != 0,
        0 <= n <= b.len(),
    ensures
        tile_count_upto(b.update(i, v), n) == tile_count_upto(b, n) + if i < n {
            1int
        } else {
            0int
        },
    decreases n,
{
    if n > 0 {
        lemma_tile_count_update_upto(b, i, v, n - 1);
    }
}

/// Filling one empty cell adds exactly one tile.
pub proof fn lemma_tile_count_update(b: Seq<u32>, i: int, v: u32)
    requires
        b.len() == 16,
        0 <= i < 16,
        b[i] == 0,
        v != 0,
    ensures
        tile_count(b.update(i, v)) == tile_count(b) + 1,
{
    lemma_tile_count_update_upto(b, i, v, 16);
}

/// An all-empty prefix holds no tiles.
pub proof fn lemma_tile_count_zero(b: Seq<u32>, n: int)
    requires
        0 <= n <= b.len(),
        forall|i: int| 0 <= i < n ==> b[i] == 0,
    ensures
        tile_count_upto(b, n) == 0,
    decreases n,
{
    if n > 0 {
        lemma_tile_count_zero(b, n - 1);
    }
}

} // verus!
