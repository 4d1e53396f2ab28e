use vstd::prelude::*;
use crate::geometry::{views, Direction, Position};

verus! {

/// What is known of one cell of the maze.
#[derive(Debug, Clone, Copy, PartialEq, Eq, Structural)]
pub enum Cell {
    Unexplored,
    /// Visited; the mask holds the codes of the open directions.
    Passage(u8),
    /// Known to lead only into a pocket that cannot reach the goal.
    Flooded,
    Start,
    Goal,
}

impl Cell {
    /// The marker code used for drawing: the mask itself for a passage, the
    /// `Direction` sentinels for the rest.
    pub fn code(&self) -> (r: u8)
        ensures
            r == self.code_spec(),
    {
        match self {
            Cell::Unexplored => Direction::EMPTY,
            Cell::Passage(m) => *m,
            Cell::Flooded => Direction::FLOODED,
            Cell::Start => Direction::START,
            Cell::Goal => Direction::GOAL,
        }
    }

    pub open spec fn code_spec(&self) -> u8 {
        match self {
            Cell::Unexplored => 0,
            Cell::Passage(m) => *m,
            Cell::Flooded => 16,
            Cell::Start => 32,
            Cell::Goal => 64,
        }
    }
}

/// Whether `p` lies on a grid of the given size.
pub open spec fn within(size: (i32, i32), p: (int, int)) -> bool {
    0 <= p.0 <= size.0 && 0 <= p.1 <= size.1
}

/// Whether the ratio `nw / nl` of a fresh report beats the stored `ow / ol`.
/// A `0 / 0` report has no ratio and never wins; anything beats a stored
/// `0 / 0`; a count over zero losses counts as infinite.
pub open spec fn ratio_beats(nw: int, nl: int, ow: int, ol: int) -> bool {
    if nw == 0 && nl == 0 {
        false
    } else if ow == 0 && ol == 0 {
        true
    } else {
        nw * ol > ow * nl
    }
}

/// The pair kept after a report of `nw / nl` against a stored `ow / ol`.
pub open spec fn kept_score(nw: int, nl: int, ow: int, ol: int) -> (int, int) {
    if ratio_beats(nw, nl, ow, ol) {
        (nw, nl)
    } else {
        (ow, ol)
    }
}

/// The kept score never falls: neither the pair stored before nor the
/// fresh report beats the pair kept, for counts that are not negative.
pub proof fn lemma_score_never_drops(nw: int, nl: int, ow: int, ol: int)
    requires
        nw >= 0,
        nl >= 0,
        ow >= 0,
        ol >= 0,
    ensures
        ({
            let k = kept_score(nw, nl, ow, ol);
            !ratio_beats(ow, ol, k.0, k.1) && !ratio_beats(nw, nl, k.0, k.1)
        }),
{
}

/// The shared maze state: the cell markers, indexed `map[x][y]`, and the
/// bookkeeping around them.
pub struct State {
    pub map: Vec<Vec<Cell>>,
    pub start: Position,
    pub goal: Position,
    pub size: (i32, i32),
    pub wins: u32,
    pub loses: u32,
}

impl State {
    /// The grid holds `(width + 1) x (height + 1)` cells and the goal cell is
    /// marked as the goal.
    pub open spec fn wf(&self) -> bool {
        &&& 0 <= self.size.0 < i32::MAX
        &&& 0 <= self.size.1 < i32::MAX
        &&& self.map@.len() == self.size.0 + 1
        &&& forall|x: int| 0 <= x < self.map@.len() ==> (#[trigger] self.map@[x])@.len() == self.size.1 + 1
        &&& within(self.size, self.goal@)
        &&& self.cell(self.goal@) == Cell::Goal
        &&& forall|p: (int, int)| #[trigger] within(self.size, p) && p != self.goal@ ==> self.cell(p) != Cell::Goal
    }

    /// The marker of an in-bounds cell.
    pub open spec fn cell(&self, p: (int, int)) -> Cell {
        self.map@[p.0]@[p.1]
    }

    /// Every in-bounds cell is unexplored but the goal.
    pub open spec fn is_fresh(&self) -> bool {
        forall|p: (int, int)| #[trigger] within(self.size, p) && p != self.goal@ ==> self.cell(p) == Cell::Unexplored
    }

    /// A grid of one cell, which is the goal, at the origin.
    pub fn new() -> (r: Self)
        ensures
            r.wf(),
            r.is_fresh(),
            r.size == (0i32, 0i32),
            r.goal@ == (0int, 0int),
            r.wins == 0,
            r.loses == 0,
    {
        let mut st = State {
            map: Vec::new(),
            start: Position::new(0, 0),
            goal: Position::new(0, 0),
            size: (0, 0),
            wins: 0,
            loses: 0,
        };
        st.reset(0, 0, Position::new(0, 0));
        st
    }

    /// Starts a new maze of the given size: every cell unexplored but the
    /// goal, the start back at the origin. The score is kept.
    pub fn reset(&mut self, width: i32, height: i32, goal: Position)
        requires
            0 <= width < i32::MAX,
            0 <= height < i32::MAX,
            within((width, height), goal@),
        ensures
            final(self).wf(),
            final(self).is_fresh(),
            final(self).size == (width, height),
            final(self).goal == goal,
            final(self).start@ == (0int, 0int),
            final(self).wins == old(self).wins,
            final(self).loses == old(self).loses,
    {
        let w = width as usize + 1;
        let h = height as usize + 1;
        let gx = goal.x as usize;
        let gy = goal.y as usize;
        let mut map: Vec<Vec<Cell>> = Vec::new();
        let mut x: usize = 0;
        while x < w
            invariant
                w == width + 1,
                h == height + 1,
                gx == goal.x,
                gy == goal.y,
                gy < h,
                x <= w,
                map@.len() == x,
                forall|i: int| 0 <= i < x ==> (#[trigger] map@[i])@.len() == h,
                forall|i: int, j: int| 0 <= i < x && 0 <= j < h && (i, j) != goal@ ==> #[trigger] map@[i]@[j] == Cell::Unexplored,
                gx < x ==> map@[gx as int]@[gy as int] == Cell::Goal,
            decreases w - x,
        {
            let mut row: Vec<Cell> = Vec::new();
            let mut y: usize = 0;
            while y < h
                invariant
                    h == height + 1,
                    gx == goal.x,
                    gy == goal.y,
                    gy < h,
                    y <= h,
                    row@.len() == y,
                    forall|j: int| 0 <= j < y && (x as int, j) != goal@ ==> #[trigger] row@[j] == Cell::Unexplored,
                    x == gx && gy < y ==> row@[gy as int] == Cell::Goal,
                decreases h - y,
            {
                if x == gx && y == gy {
                    row.push(Cell::Goal);
                } else {
                    row.push(Cell::Unexplored);
                }
                y = y + 1;
            }
            map.push(row);
            x = x + 1;
        }
        self.map = map;
        self.start = Position::new(0, 0);
        self.goal = goal;
        self.size = (width, height);
    }

    pub fn in_bounds(&self, pos: &Position) -> (r: bool)
        ensures
            r == within(self.size, pos@),
    {
        let (x, y) = self.size;
        pos.x <= x && pos.y <= y && pos.x >= 0 && pos.y >= 0
    }

    /// The marker of an in-bounds cell.
    pub fn get_cell(&self, pos: &Position) -> (r: Cell)
        requires
            self.wf(),
            within(self.size, pos@),
        ensures
            r == self.cell(pos@),
    {
        self.map[pos.x as usize][pos.y as usize]
    }

    /// Overwrites one in-bounds cell other than the goal.
    fn set_cell(&mut self, pos: &Position, c: Cell)
        requires
            old(self).wf(),
            within(old(self).size, pos@),
            pos@ != old(self).goal@,
            c != Cell::Goal,
        ensures
            final(self).wf(),
            final(self).size == old(self).size,
            final(self).goal == old(self).goal,
            final(self).start == old(self).start,
            final(self).wins == old(self).wins,
            final(self).loses == old(self).loses,
            final(self).cell(pos@) == c,
            forall|q: (int, int)| #[trigger] within(old(self).size, q) && q != pos@ ==> final(self).cell(q) == old(self).cell(q),
    {
        let x = pos.x as usize;
        let y = pos.y as usize;
        let mut row: Vec<Cell> = Vec::new();
        std::mem::swap(&mut row, &mut self.map[x]);
        row.set(y, c);
        self.map.set(x, row);
        assert forall|q: (int, int)| #[trigger] within(old(self).size, q) && q != pos@ implies self.cell(q) == old(self).cell(q) by {
            if q.0 != x {
                assert(self.map@[q.0] == old(self).map@[q.0]);
            }
        }
        assert(self.map@[self.goal.x as int] == old(self).map@[self.goal.x as int] || self.goal.x as int == x);
    }

    /// Records the open directions of a visited cell: the mask `bits`, or the
    /// start marker where this is the first cell an agent visits. The goal
    /// keeps its marker, and a position off the grid changes nothing.
    pub fn mark_passage(&mut self, pos: &Position, bits: u8, first: bool)
        requires
            old(self).wf(),
        ensures
            final(self).wf(),
            final(self).size == old(self).size,
            final(self).goal == old(self).goal,
            final(self).start == old(self).start,
            final(self).wins == old(self).wins,
            final(self).loses == old(self).loses,
            forall|q: (int, int)| #[trigger] within(old(self).size, q) ==> final(self).cell(q) == (
                if q == pos@ && q != old(self).goal@ {
                    if first { Cell::Start } else { Cell::Passage(bits) }
                } else {
                    old(self).cell(q)
                }),
    {
        if self.in_bounds(pos) && !(pos.x == self.goal.x && pos.y == self.goal.y) {
            if first {
                self.set_cell(pos, Cell::Start);
            } else {
                self.set_cell(pos, Cell::Passage(bits));
            }
        }
    }

    /// Marks every listed in-bounds cell as flooded, but the start and the
    /// goal.
    pub fn mark_flooded(&mut self, positions: &Vec<Position>)
        requires
            old(self).wf(),
        ensures
            final(self).wf(),
            final(self).size == old(self).size,
            final(self).goal == old(self).goal,
            final(self).start == old(self).start,
            final(self).wins == old(self).wins,
            final(self).loses == old(self).loses,
            forall|q: (int, int)| #[trigger] within(old(self).size, q) ==> final(self).cell(q) == (
                if views(positions@).contains(q) && old(self).cell(q) != Cell::Start
                    && old(self).cell(q) != Cell::Goal {
                    Cell::Flooded
                } else {
                    old(self).cell(q)
                }),
    {
        let ghost ps = positions@;
        let mut i: usize = 0;
        while i < positions.len()
            invariant
                ps == positions@,
                i <= ps.len(),
                self.wf(),
                self.size == old(self).size,
                self.goal == old(self).goal,
                self.start == old(self).start,
                self.wins == old(self).wins,
                self.loses == old(self).loses,
                forall|q: (int, int)| #[trigger] within(old(self).size, q) ==> self.cell(q) == (
                    if views(ps.subrange(0, i as int)).contains(q) && old(self).cell(q) != Cell::Start
                        && old(self).cell(q) != Cell::Goal {
                        Cell::Flooded
                    } else {
                        old(self).cell(q)
                    }),
            decreases ps.len() - i,
        {
            let p = positions[i];
            let ghost prev = views(ps.subrange(0, i as int));
            let ghost next = views(ps.subrange(0, i as int + 1));
            assert(next =~= prev.push(p@));
            assert forall|q: (int, int)| #[trigger] next.contains(q) == (prev.contains(q) || q == p@) by {
                if q == p@ {
                    assert(next[i as int] == q);
                }
                if prev.contains(q) {
                    let k = choose|k: int| 0 <= k < prev.len() && prev[k] == q;
                    assert(next[k] == q);
                }
            }
            if self.in_bounds(&p) {
                let c = self.get_cell(&p);
                if c != Cell::Start && c != Cell::Goal {
                    self.set_cell(&p, Cell::Flooded);
                }
            }
            i = i + 1;
        }
        assert(ps.subrange(0, i as int) =~= ps);
    }

    /// Keeps the better of the stored score and a fresh report: the report
    /// replaces the stored pair only where its ratio is strictly higher.
    pub fn update_score(&mut self, wins: u32, loses: u32)
        ensures
            (final(self).wins as int, final(self).loses as int) == kept_score(
                wins as int,
                loses as int,
                old(self).wins as int,
                old(self).loses as int,
            ),
            final(self).map == old(self).map,
            final(self).size == old(self).size,
            final(self).goal == old(self).goal,
            final(self).start == old(self).start,
    {
        assert((wins as u64) * (self.loses as u64) <= 0xffff_ffff * 0xffff_ffff) by (nonlinear_arith)
            requires
                wins <= 0xffff_ffff,
                self.loses <= 0xffff_ffff,
        ;
        assert((self.wins as u64) * (loses as u64) <= 0xffff_ffff * 0xffff_ffff) by (nonlinear_arith)
            requires
                loses <= 0xffff_ffff,
                self.wins <= 0xffff_ffff,
        ;
        let beats = if wins == 0 && loses == 0 {
            false
        } else if self.wins == 0 && self.loses == 0 {
            true
        } else {
            (wins as u64) * (self.loses as u64) > (self.wins as u64) * (loses as u64)
        };
        if beats {
            self.wins = wins;
            self.loses = loses;
        }
    }
}

} // verus!
