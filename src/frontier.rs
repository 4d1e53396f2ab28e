use vstd::prelude::*;
use crate::geometry::{opposite, Direction, Position};

verus! {

/// One visited cell and the directions still to try from it, the next one
/// last.
pub type Entry = (Position, Seq<Direction>);

/// The positions of a frontier, in order of first visit.
pub open spec fn keys(m: Seq<Entry>) -> Seq<Position> {
    m.map_values(|e: Entry| e.0)
}

/// No position is recorded twice.
pub open spec fn keys_unique(m: Seq<Entry>) -> bool {
    forall|i: int, j: int| 0 <= i < m.len() && 0 <= j < m.len() && i != j ==> (#[trigger] m[i]).0 != (#[trigger] m[j]).0
}

/// Where `p` is recorded, if it is.
pub open spec fn slot_of(m: Seq<Entry>, p: Position) -> int {
    choose|i: int| 0 <= i < m.len() && m[i].0 == p
}

/// The remaining directions recorded for `p`.
pub open spec fn candidates_at(m: Seq<Entry>, p: Position) -> Seq<Direction> {
    m[slot_of(m, p)].1
}

/// `s` without the direction `d`.
pub open spec fn without(s: Seq<Direction>, d: Direction) -> Seq<Direction>
    decreases s.len(),
{
    if s.len() == 0 {
        seq![]
    } else if s.last() == d {
        without(s.drop_last(), d)
    } else {
        without(s.drop_last(), d).push(s.last())
    }
}

/// The directions to record for a cell first reached by moving `came`:
/// every candidate but the way back. The first cell keeps them all.
pub open spec fn first_candidates(cands: Seq<Direction>, came: Option<Direction>) -> Seq<Direction> {
    match came {
        Some(d) => without(cands, opposite(d)),
        None => cands,
    }
}

/// A frontier after a visit of `p`: unchanged where `p` is recorded, else
/// with a new entry for it at the end.
pub open spec fn visited(m: Seq<Entry>, p: Position, cands: Seq<Direction>, came: Option<Direction>) -> Seq<Entry> {
    if keys(m).contains(p) {
        m
    } else {
        m.push((p, first_candidates(cands, came)))
    }
}

/// A second visit of a position with the same inputs changes nothing: the
/// candidates recorded at the first visit are kept.
pub proof fn lemma_visit_idempotent(m: Seq<Entry>, p: Position, cands: Seq<Direction>, came: Option<Direction>)
    ensures
        visited(visited(m, p, cands, came), p, cands, came) == visited(m, p, cands, came),
{
    let once = visited(m, p, cands, came);
    if !keys(m).contains(p) {
        assert(keys(once)[m.len() as int] == p);
    }
}

/// The per-agent record of visited cells, each with its remaining candidate
/// directions. A position appears at most once; entries are never removed.
pub struct STree(Vec<(Position, Vec<Direction>)>);

impl View for STree {
    type V = Seq<Entry>;

    closed spec fn view(&self) -> Seq<Entry> {
        self.0@.map_values(|e: (Position, Vec<Direction>)| (e.0, e.1@))
    }
}

impl STree {
    pub open spec fn wf(&self) -> bool {
        keys_unique(self@)
    }

    pub fn new() -> (r: Self)
        ensures
            r@ == Seq::<Entry>::empty(),
            r.wf(),
    {
        STree(Vec::new())
    }

    pub fn len(&self) -> (r: usize)
        ensures
            r == self@.len(),
    {
        self.0.len()
    }

    pub fn is_empty(&self) -> (r: bool)
        ensures
            r == (self@.len() == 0),
    {
        self.0.len() == 0
    }

    /// The recorded positions, in order of first visit.
    pub fn get_keys(&self) -> (r: Vec<Position>)
        ensures
            r@ == keys(self@),
    {
        let mut out: Vec<Position> = Vec::new();
        let mut i: usize = 0;
        while i < self.0.len()
            invariant
                i <= self@.len(),
                out@ == keys(self@.subrange(0, i as int)),
            decreases self@.len() - i,
        {
            assert(keys(self@.subrange(0, i as int + 1)) =~= keys(self@.subrange(0, i as int)).push(self@[i as int].0));
            out.push(self.0[i].0);
            i = i + 1;
        }
        assert(self@.subrange(0, i as int) =~= self@);
        out
    }

    /// Where `pos` is recorded, if it is.
    fn find(&self, pos: &Position) -> (r: Option<usize>)
        ensures
            r is None ==> !keys(self@).contains(*pos),
            r matches Some(i) ==> i < self@.len() && self@[i as int].0 == *pos,
    {
        let mut i: usize = 0;
        while i < self.0.len()
            invariant
                i <= self@.len(),
                forall|k: int| 0 <= k < i ==> (#[trigger] self@[k]).0 != *pos,
            decreases self@.len() - i,
        {
            if self.0[i].0 == *pos {
                return Some(i);
            }
            i = i + 1;
        }
        assert forall|k: int| 0 <= k < self@.len() implies (#[trigger] keys(self@)[k]) != *pos by {
            assert(self@[k].0 != *pos);
        }
        None
    }

    pub fn contains_key(&self, pos: &Position) -> (r: bool)
        ensures
            r == keys(self@).contains(*pos),
    {
        match self.find(pos) {
            Some(i) => {
                assert(keys(self@)[i as int] == *pos);
                true
            },
            None => false,
        }
    }

    /// The remaining candidates of `pos`, if it is recorded.
    pub fn get(&self, pos: &Position) -> (r: Option<&Vec<Direction>>)
        requires
            self.wf(),
        ensures
            r is None <==> !keys(self@).contains(*pos),
            r matches Some(v) ==> v@ == candidates_at(self@, *pos),
    {
        match self.find(pos) {
            Some(i) => {
                assert(keys(self@)[i as int] == *pos);
                Some(&self.0[i].1)
            },
            None => None,
        }
    }

    /// The remaining candidates of `pos`, for change in place.
    pub fn get_mut(&mut self, pos: &Position) -> (r: Option<&mut Vec<Direction>>)
        requires
            old(self).wf(),
        ensures
            r is None <==> !keys(old(self)@).contains(*pos),
            r is None ==> *final(self) == *old(self),
            r matches Some(v) ==> v@ == candidates_at(old(self)@, *pos)
                && final(self)@ == old(self)@.update(slot_of(old(self)@, *pos), (*pos, final(v)@)),
    {
        match self.find(pos) {
            Some(i) => {
                assert(keys(self@)[i as int] == *pos);
                Some(&mut self.0[i].1)
            },
            None => None,
        }
    }

    /// Records `pos` on its first visit, with `candidates` less the way back
    /// (the inverse of `came_from`); a position already recorded keeps the
    /// candidates it has left.
    pub fn ensure_visited(&mut self, pos: &Position, candidates: Vec<Direction>, came_from: Option<Direction>)
        requires
            old(self).wf(),
        ensures
            final(self).wf(),
            final(self)@ == visited(old(self)@, *pos, candidates@, came_from),
    {
        if self.contains_key(pos) {
            return;
        }
        let kept = match came_from {
            Some(d) => drop_direction(&candidates, d.inverse()),
            None => candidates,
        };
        self.0.push((*pos, kept));
        assert(self@ =~= old(self)@.push((*pos, first_candidates(candidates@, came_from))));
        assert forall|i: int, j: int| 0 <= i < self@.len() && 0 <= j < self@.len() && i != j
            implies (#[trigger] self@[i]).0 != (#[trigger] self@[j]).0 by {
            if i == old(self)@.len() {
                assert(keys(old(self)@)[j] == old(self)@[j].0);
            }
            if j == old(self)@.len() {
                assert(keys(old(self)@)[i] == old(self)@[i].0);
            }
        }
    }

    /// The next direction to try from `pos`, left in place.
    pub fn peek_last(&self, pos: &Position) -> (r: Option<Direction>)
        requires
            self.wf(),
        ensures
            !keys(self@).contains(*pos) ==> r is None,
            keys(self@).contains(*pos) ==> r == (if candidates_at(self@, *pos).len() == 0 {
                None
            } else {
                Some(candidates_at(self@, *pos).last())
            }),
    {
        match self.find(pos) {
            Some(i) => {
                assert(keys(self@)[i as int] == *pos);
                let v = &self.0[i].1;
                if v.len() == 0 {
                    None
                } else {
                    Some(v[v.len() - 1])
                }
            },
            None => None,
        }
    }

    /// Takes the next direction to try from `pos` off its candidates.
    pub fn next_candidate(&mut self, pos: &Position) -> (r: Option<Direction>)
        requires
            old(self).wf(),
        ensures
            final(self).wf(),
            !keys(old(self)@).contains(*pos) ==> r is None && final(self)@ == old(self)@,
            keys(old(self)@).contains(*pos) && candidates_at(old(self)@, *pos).len() == 0 ==> r is None
                && final(self)@ == old(self)@,
            keys(old(self)@).contains(*pos) && candidates_at(old(self)@, *pos).len() > 0 ==> r == Some(
                candidates_at(old(self)@, *pos).last(),
            ) && final(self)@ == old(self)@.update(
                slot_of(old(self)@, *pos),
                (*pos, candidates_at(old(self)@, *pos).drop_last()),
            ),
    {
        match self.find(pos) {
            Some(i) => {
                assert(keys(self@)[i as int] == *pos);
                let ghost s = slot_of(self@, *pos);
                assert(s == i);
                if self.0[i].1.len() == 0 {
                    None
                } else {
                    let mut v: Vec<Direction> = Vec::new();
                    std::mem::swap(&mut v, &mut self.0[i].1);
                    let d = v.pop();
                    self.0.set(i, (*pos, v));
                    assert(self@ =~= old(self)@.update(i as int, (*pos, candidates_at(old(self)@, *pos).drop_last())));
                    assert forall|a: int, b: int| 0 <= a < self@.len() && 0 <= b < self@.len() && a != b
                        implies (#[trigger] self@[a]).0 != (#[trigger] self@[b]).0 by {
                        assert(old(self)@[a].0 != old(self)@[b].0);
                    }
                    d
                }
            },
            None => None,
        }
    }
}

/// `s` without the direction `d`, in the same order.
fn drop_direction(s: &Vec<Direction>, d: Direction) -> (r: Vec<Direction>)
    ensures
        r@ == without(s@, d),
{
    let mut out: Vec<Direction> = Vec::new();
    let mut i: usize = 0;
    while i < s.len()
        invariant
            i <= s@.len(),
            out@ == without(s@.subrange(0, i as int), d),
        decreases s@.len() - i,
    {
        assert(s@.subrange(0, i as int + 1).drop_last() =~= s@.subrange(0, i as int));
        if s[i] != d {
            out.push(s[i]);
        }
        i = i + 1;
    }
    assert(s@.subrange(0, i as int) =~= s@);
    out
}

} // verus!
