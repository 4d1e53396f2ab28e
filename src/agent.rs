use vstd::prelude::*;
use crate::frontier::{candidates_at, keys, keys_unique, slot_of, visited, Entry, STree};
use crate::geometry::{mask_of, moved, opposite, within_grid, Direction, Position};
use crate::grid::{ratio_beats, within, Cell, State};
use crate::predictor::{is_dead_pocket, predict_dead_end, reachable};
use crate::priority::{allowed_order, PrioMode};
use crate::proto::Proto;

verus! {

/// Who an agent logs in as and how it orders its candidates.
pub struct BotConfig {
    pub username: String,
    pub password: String,
    pub index: u32,
    pub prio: PrioMode,
}

impl BotConfig {
    pub fn new(username: &str, password: &str, index: u32, prio: PrioMode) -> (r: Self)
        ensures
            r.username@ == username@,
            r.password@ == password@,
            r.index == index,
            r.prio == prio,
    {
        Self { username: username.to_owned(), password: password.to_owned(), index, prio }
    }
}

/// What an agent answers to a message.
#[derive(Debug, Clone, Copy, PartialEq, Eq, Structural)]
pub enum Reply {
    /// Nothing to send.
    Nothing,
    /// Send this move.
    Move(Direction),
    /// No way is left: give up.
    Stuck,
}

/// The last move taken, if any.
pub open spec fn last_move(path: Seq<Direction>) -> Option<Direction> {
    if path.len() == 0 {
        None
    } else {
        Some(path.last())
    }
}

/// One exploring agent: its candidates per visited cell, and the moves that
/// led from its start to where it stands.
pub struct Bot {
    pub config: BotConfig,
    pub stree: STree,
    pub path: Vec<Direction>,
}

impl Bot {
    pub fn new(config: BotConfig) -> (r: Self)
        ensures
            r.wf(),
            r.stree@.len() == 0,
            r.path@.len() == 0,
    {
        Bot { config, stree: STree::new(), path: Vec::new() }
    }

    pub open spec fn wf(&self) -> bool {
        self.stree.wf()
    }

    /// Steps back along the path.
    fn backtrack(&mut self) -> (r: Reply)
        requires
            old(self).path@.len() > 0,
        ensures
            r == Reply::Move(opposite(old(self).path@.last())),
            final(self).path@ == old(self).path@.drop_last(),
            final(self).stree == old(self).stree,
            final(self).config == old(self).config,
    {
        let last = self.path.pop().unwrap();
        Reply::Move(last.inverse())
    }
    /// Records a position report at `pos` whose open directions are `space`,
    /// with `ordered` the same directions in priority order (the one to try
    /// first last): the cell is marked (as the start where this agent has
    /// recorded nothing yet), and recorded on its first visit with `ordered`
    /// less the way back.
    pub fn record(&mut self, state: &mut State, pos: &Position, space: &Vec<Direction>, ordered: Vec<Direction>)
        requires
            old(self).wf(),
            old(state).wf(),
        ensures
            recorded(*old(self), *old(state), *final(self), *final(state), *pos, space@, ordered@),
    {
        let first = self.stree.is_empty();
        let bits = Direction::into_bits(space.as_slice());
        state.mark_passage(pos, bits, first);
        let came = if self.path.len() == 0 {
            None
        } else {
            Some(self.path[self.path.len() - 1])
        };
        if self.path.len() == 0 && !self.stree.contains_key(pos) {
            state.start = *pos;
        }
        self.stree.ensure_visited(pos, ordered, came);
    }

    /// The move from `pos` once it is recorded. With no candidate left the
    /// agent steps back, or is stuck where it has no step to take back; where
    /// the next candidate leads into a flooded cell it steps back too.
    /// Otherwise the candidate is taken off and the flood runs from the cell
    /// it leads to: on a dead pocket the pocket is marked and the agent steps
    /// back (at its own start, with no step to take back, it tries the next
    /// candidate instead), else it moves there.
    pub fn choose_move(&mut self, state: &mut State, pos: &Position) -> (r: Reply)
        requires
            old(self).wf(),
            old(state).wf(),
            within(old(state).size, pos@),
            keys(old(self).stree@).contains(*pos),
        ensures
            chose(*old(self), *old(state), *final(self), *final(state), *pos, r),
    {
        let ghost m = self.stree@;
        let ghost s1 = *state;
        let ghost path0 = self.path@;
        let ghost k0 = slot_of(m, *pos);
        let ghost cands0 = candidates_at(m, *pos);
        let ghost t0 = moved(pos@, cands0.last());
        let ghost later = false;
        proof {
            lemma_slot(m, *pos);
            assert(m.update(k0, (*pos, cands0)) =~= m);
            assert(cands0.subrange(0, cands0.len() as int) =~= cands0);
        }
        loop
            invariant
                self.wf(),
                state.wf(),
                state.size == s1.size,
                state.goal == s1.goal,
                state.start == s1.start,
                state.wins == s1.wins,
                state.loses == s1.loses,
                s1 == *old(state),
                m == old(self).stree@,
                within(state.size, pos@),
                self.path@ == path0,
                self.config == old(self).config,
                path0 == old(self).path@,
                k0 == slot_of(m, *pos),
                0 <= k0 < m.len(),
                m[k0].0 == *pos,
                cands0 == candidates_at(m, *pos),
                t0 == moved(pos@, cands0.last()),
                keys(m).contains(*pos),
                slot_of(self.stree@, *pos) == k0,
                keys(self.stree@) == keys(m),
                self.stree@ == m.update(k0, (*pos, candidates_at(self.stree@, *pos))),
                candidates_at(self.stree@, *pos) == cands0.subrange(0, candidates_at(self.stree@, *pos).len() as int),
                candidates_at(self.stree@, *pos).len() <= cands0.len(),
                !later ==> self.stree@ == m && *state == s1,
                later ==> path0.len() == 0 && cands0.len() > 0 && is_dead_pocket(s1, t0)
                    && candidates_at(self.stree@, *pos).len() < cands0.len(),
                later ==> forall|q: (int, int)| #[trigger] within(s1.size, q) && reachable(s1, t0, q)
                    ==> state.cell(q) == Cell::Flooded,
                candidates_at(self.stree@, *pos).len() < cands0.len() ==> later,
            decreases candidates_at(self.stree@, *pos).len(),
        {
            let next = match self.stree.peek_last(pos) {
                None => {
                    if self.path.len() == 0 {
                        return Reply::Stuck;
                    } else {
                        return self.backtrack();
                    }
                },
                Some(d) => d,
            };
            proof {
                assert(within_grid(pos@));
            }
            let target = pos.add(&next);
            let blocked = state.in_bounds(&target) && state.get_cell(&target) == Cell::Flooded;
            if blocked && self.path.len() > 0 {
                return self.backtrack();
            }
            let ghost before = self.stree@;
            let ghost cb = candidates_at(before, *pos);
            let dir = self.stree.next_candidate(pos).unwrap();
            proof {
                assert(keys(self.stree@) =~= keys(before));
                assert(self.stree@ == before.update(k0, (*pos, cb.drop_last())));
                assert(self.stree@[k0].0 == *pos);
                lemma_slot_at(self.stree@, *pos, k0);
                assert(self.stree@ =~= m.update(k0, (*pos, cb.drop_last())));
                assert(cb.drop_last() =~= cands0.subrange(0, cb.len() - 1));
            }
            let ghost s_before = *state;
            let dead = predict_dead_end(state, &target);
            proof {
                if later {
                    assert forall|q: (int, int)| #[trigger] within(s1.size, q) && reachable(s1, t0, q)
                        implies state.cell(q) == Cell::Flooded by {
                        assert(s_before.cell(q) == Cell::Flooded);
                    }
                }
            }
            if !dead {
                self.path.push(dir);
                return Reply::Move(dir);
            }
            if self.path.len() > 0 {
                return self.backtrack();
            }
            proof {
                later = true;
            }
        }
    }

    /// The decision for a position report at `pos` whose open directions are
    /// `space`, with `ordered` the same directions in priority order: the
    /// report is recorded, then the move chosen.
    pub fn decide(&mut self, state: &mut State, pos: &Position, space: &Vec<Direction>, ordered: Vec<Direction>) -> (r: Reply)
        requires
            old(self).wf(),
            old(state).wf(),
            within(old(state).size, pos@),
        ensures
            decided(*old(self), *old(state), *final(self), *final(state), *pos, space@, ordered@, r),
    {
        let ghost ord = ordered@;
        self.record(state, pos, space, ordered);
        let ghost b1 = *self;
        let ghost s1 = *state;
        proof {
            let m = self.stree@;
            if !keys(old(self).stree@).contains(*pos) {
                assert(keys(m)[old(self).stree@.len() as int] == *pos);
            }
        }
        let r = self.choose_move(state, pos);
        assert(recorded(*old(self), *old(state), b1, s1, *pos, space@, ord) && chose(b1, s1, *self, *state, *pos, r));
        r
    }

    /// Reacts to one message. A position report with open directions, on the
    /// grid and off the goal, is decided on, its candidates ordered as the
    /// agent's priority mode allows; a report at the goal needs no move, and
    /// one off the grid or with no open direction is ignored. A new game
    /// resets the grid and this agent's record; a win or lose report updates
    /// the score. Other messages change nothing.
    pub fn handle(&mut self, state: &mut State, event: &Proto) -> (r: Reply)
        requires
            old(self).wf(),
            old(state).wf(),
        ensures
            final(self).wf(),
            final(state).wf(),
            final(self).config == old(self).config,
            r == Reply::Stuck ==> old(self).path@.len() == 0,
            r != Reply::Nothing ==> *event is Pos,
            *event matches Proto::Pos { pos, space } ==> if space@.len() > 0 && within(old(state).size, pos@)
                && pos@ != old(state).goal@ {
                exists|o: Seq<Direction>| allowed_order(old(self).config.prio, space@, pos@, old(state).goal@, o)
                    && #[trigger] decided(*old(self), *old(state), *final(self), *final(state), pos, space@, o, r)
            } else {
                r == Reply::Nothing && *final(state) == *old(state) && *final(self) == *old(self)
            },
            *event matches Proto::Game { width, height, goal } ==> if 0 <= width < i32::MAX && 0 <= height < i32::MAX
                && within((width, height), goal@) {
                &&& final(state).wf()
                &&& final(state).is_fresh()
                &&& final(state).size == (width, height)
                &&& final(state).goal == goal
                &&& final(state).wins == old(state).wins
                &&& final(state).loses == old(state).loses
                &&& final(self).stree@.len() == 0
                &&& final(self).path@.len() == 0
            } else {
                *final(state) == *old(state) && *final(self) == *old(self)
            },
            (*event is Win || *event is Lose) ==> final(state).map == old(state).map && final(state).goal == old(state).goal
                && final(state).size == old(state).size && final(state).start == old(state).start
                && *final(self) == *old(self),
            *event matches Proto::Win { wins, loses } ==> score_after(*old(state), *final(state), wins, loses),
            *event matches Proto::Lose { wins, loses } ==> score_after(*old(state), *final(state), wins, loses),
            !(*event is Pos || *event is Game || *event is Win || *event is Lose) ==> *final(state) == *old(state)
                && *final(self) == *old(self),
    {
        match event {
            Proto::Pos { pos, space } => {
                if space.len() > 0 && state.in_bounds(pos) && !(pos.x == state.goal.x && pos.y == state.goal.y) {
                    let ghost b0 = *self;
                    let ghost s0 = *state;
                    let ordered = self.config.prio.order(space, pos, &state.goal);
                    let r = self.decide(state, pos, space, ordered);
                    assert(allowed_order(b0.config.prio, space@, pos@, s0.goal@, ordered@));
                    r
                } else {
                    Reply::Nothing
                }
            },
            Proto::Game { width, height, goal } => {
                if 0 <= *width && *width < i32::MAX && 0 <= *height && *height < i32::MAX && 0 <= goal.x
                    && goal.x <= *width && 0 <= goal.y && goal.y <= *height {
                    state.reset(*width, *height, *goal);
                    self.stree = STree::new();
                    self.path = Vec::new();
                }
                Reply::Nothing
            },
            Proto::Win { wins, loses } => {
                report_score(state, *wins, *loses);
                Reply::Nothing
            },
            Proto::Lose { wins, loses } => {
                report_score(state, *wins, *loses);
                Reply::Nothing
            },
            _ => Reply::Nothing,
        }
    }
}

/// What `Bot::record` does to the agent (`b0` to `b1`) and the grid (`s0`
/// to `s1`) on a report at `pos` with open directions `space`, ordered as
/// `ordered`.
pub open spec fn recorded(
    b0: Bot,
    s0: State,
    b1: Bot,
    s1: State,
    pos: Position,
    space: Seq<Direction>,
    ordered: Seq<Direction>,
) -> bool {
    &&& b1.wf()
    &&& b1.config == b0.config
    &&& b1.path == b0.path
    &&& b1.stree@ == visited(b0.stree@, pos, ordered, last_move(b0.path@))
    &&& s1.wf()
    &&& s1.size == s0.size
    &&& s1.goal == s0.goal
    &&& s1.wins == s0.wins
    &&& s1.loses == s0.loses
    &&& s1.start == (if b0.path@.len() == 0 && !keys(b0.stree@).contains(pos) {
        pos
    } else {
        s0.start
    })
    &&& forall|q: (int, int)| #[trigger] within(s0.size, q) ==> s1.cell(q) == (
        if q == pos@ && q != s0.goal@ {
            if b0.stree@.len() == 0 { Cell::Start } else { Cell::Passage(mask_of(space)) }
        } else {
            s0.cell(q)
        })
}

/// What `Bot::choose_move` does from a recorded cell `pos`, answering `r`.
pub open spec fn chose(b0: Bot, s0: State, b1: Bot, s1: State, pos: Position, r: Reply) -> bool {
    let cands = candidates_at(b0.stree@, pos);
    let next = cands.last();
    let target = moved(pos@, next);
    let back = b0.path@.len() > 0;
    let step_back = Reply::Move(opposite(b0.path@.last()));
    let blocked = within(s0.size, target) && s0.cell(target) == Cell::Flooded;
    let taken = b0.stree@.update(slot_of(b0.stree@, pos), (pos, cands.drop_last()));
    let left = candidates_at(b1.stree@, pos);
    &&& b1.wf()
    &&& b1.config == b0.config
    &&& keys(b1.stree@) == keys(b0.stree@)
    &&& s1.wf()
    &&& s1.size == s0.size
    &&& s1.goal == s0.goal
    &&& s1.start == s0.start
    &&& s1.wins == s0.wins
    &&& s1.loses == s0.loses
    &&& r != Reply::Nothing
    &&& r == Reply::Stuck ==> !back && b1.path@ == b0.path@
    &&& (r matches Reply::Move(d) ==> b1.path@ == b0.path@.push(d) || (back && d == opposite(b0.path@.last())
        && b1.path@ == b0.path@.drop_last()))
    &&& cands.len() == 0 && !back ==> r == Reply::Stuck && b1.path@ == b0.path@ && b1.stree@ == b0.stree@ && s1 == s0
    &&& cands.len() == 0 && back ==> r == step_back && b1.path@ == b0.path@.drop_last() && b1.stree@ == b0.stree@
        && s1 == s0
    &&& cands.len() > 0 && back && blocked ==> r == step_back && b1.path@ == b0.path@.drop_last()
        && b1.stree@ == b0.stree@ && s1 == s0
    &&& cands.len() > 0 && !(back && blocked) && !is_dead_pocket(s0, target) ==> r == Reply::Move(next)
        && b1.path@ == b0.path@.push(next) && b1.stree@ == taken && s1 == s0
    &&& cands.len() > 0 && is_dead_pocket(s0, target) && back ==> r == step_back
        && b1.path@ == b0.path@.drop_last() && b1.stree@ == taken
        && forall|q: (int, int)| #[trigger] within(s0.size, q) ==> s1.cell(q) == (
            if reachable(s0, target, q) { Cell::Flooded } else { s0.cell(q) })
    &&& cands.len() > 0 && is_dead_pocket(s0, target) && !back ==> left.len() < cands.len()
        && left == cands.subrange(0, left.len() as int)
        && b1.stree@ == b0.stree@.update(slot_of(b0.stree@, pos), (pos, left))
        && forall|q: (int, int)| #[trigger] within(s0.size, q) && reachable(s0, target, q) ==> s1.cell(q) == Cell::Flooded
}

/// What `Bot::decide` does: a report recorded, then the move chosen from the
/// agent and grid that the recording left.
pub open spec fn decided(
    b0: Bot,
    s0: State,
    b2: Bot,
    s2: State,
    pos: Position,
    space: Seq<Direction>,
    ordered: Seq<Direction>,
    r: Reply,
) -> bool {
    exists|b1: Bot, s1: State| #[trigger] recorded(b0, s0, b1, s1, pos, space, ordered) && chose(b1, s1, b2, s2, pos, r)
}

/// A frontier position is found at its slot.
proof fn lemma_slot(s: Seq<Entry>, p: Position)
    requires
        keys(s).contains(p),
    ensures
        0 <= slot_of(s, p) < s.len(),
        s[slot_of(s, p)].0 == p,
{
    let i = choose|i: int| 0 <= i < keys(s).len() && keys(s)[i] == p;
    assert(s[i].0 == p);
}

/// With unique positions, the slot of a position is where it stands.
proof fn lemma_slot_at(s: Seq<Entry>, p: Position, i: int)
    requires
        keys_unique(s),
        0 <= i < s.len(),
        s[i].0 == p,
    ensures
        slot_of(s, p) == i,
{
    let j = slot_of(s, p);
    assert(0 <= j < s.len() && s[j].0 == p);
}

/// The score after a report of `wins` and `loses`: a report with a negative
/// count is no count and is dropped; any other replaces the stored pair only
/// where its ratio is higher.
pub open spec fn score_after(before: State, after: State, wins: i32, loses: i32) -> bool {
    if wins >= 0 && loses >= 0 && ratio_beats(wins as int, loses as int, before.wins as int, before.loses as int) {
        after.wins == wins && after.loses == loses
    } else {
        after.wins == before.wins && after.loses == before.loses
    }
}

fn report_score(state: &mut State, wins: i32, loses: i32)
    requires
        old(state).wf(),
    ensures
        final(state).wf(),
        final(state).map == old(state).map,
        final(state).goal == old(state).goal,
        final(state).size == old(state).size,
        final(state).start == old(state).start,
        score_after(*old(state), *final(state), wins, loses),
{
    if wins >= 0 && loses >= 0 {
        state.update_score(wins as u32, loses as u32);
    }
}

} // verus!
