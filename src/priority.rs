use vstd::prelude::*;
use vstd::seq_lib::{group_to_multiset_ensures, to_multiset_build, to_multiset_insert};
use vstd::multiset::group_multiset_axioms;
use rand::seq::SliceRandom;
use crate::geometry::{dist_sq, moved, neighbours_fit, Direction, Position};

verus! {

/// How an agent orders the candidate directions of a newly visited cell.
/// The candidate tried first ends up last.
#[derive(Debug, Clone, Copy)]
pub enum PrioMode {
    /// The neighbour nearest to the goal first.
    Distance,
    /// A fresh random order at every visit.
    Random,
    /// A fixed precedence, highest first.
    Deterministic([Direction; 4]),
}

/// The directions of `space`, from the lowest in `order` to the highest.
pub open spec fn ranked(space: Seq<Direction>, order: Seq<Direction>) -> Seq<Direction>
    decreases order.len(),
{
    if order.len() == 0 {
        seq![]
    } else if space.contains(order[0]) {
        ranked(space, order.drop_first()).push(order[0])
    } else {
        ranked(space, order.drop_first())
    }
}

/// How far the neighbour of `pos` in direction `d` is from `goal`, squared.
pub open spec fn goal_key(pos: (int, int), goal: (int, int), d: Direction) -> int {
    dist_sq(moved(pos, d), goal)
}

/// The nearest neighbour to the goal comes last.
pub open spec fn nearest_last(s: Seq<Direction>, pos: (int, int), goal: (int, int)) -> bool {
    forall|i: int, j: int| 0 <= i < j < s.len() ==> goal_key(pos, goal, #[trigger] s[i]) >= goal_key(pos, goal, #[trigger] s[j])
}

/// An ordering of `space` that `mode` may give at `pos`: any reordering
/// for a random mode, a reordering with the nearest neighbour to the goal
/// last for the distance mode, the ranked directions for a fixed order.
pub open spec fn allowed_order(mode: PrioMode, space: Seq<Direction>, pos: (int, int), goal: (int, int), o: Seq<Direction>) -> bool {
    match mode {
        PrioMode::Random => o.to_multiset() == space.to_multiset(),
        PrioMode::Distance => o.to_multiset() == space.to_multiset() && nearest_last(o, pos, goal),
        PrioMode::Deterministic(order) => o == ranked(space, order@),
    }
}

/// The directions of `space` that `order` ranks, the highest ranked last.
pub fn order_deterministic(space: &Vec<Direction>, order: [Direction; 4]) -> (r: Vec<Direction>)
    ensures
        r@ == ranked(space@, order@),
{
    let mut out: Vec<Direction> = Vec::new();
    let mut i: usize = 4;
    while i > 0
        invariant
            i <= 4,
            order@.len() == 4,
            out@ == ranked(space@, order@.subrange(i as int, 4)),
        decreases i,
    {
        let d = order[i - 1];
        assert(order@.subrange(i - 1, 4).drop_first() =~= order@.subrange(i as int, 4));
        assert(order@.subrange(i - 1, 4)[0] == d);
        if contains_direction(space, d) {
            out.push(d);
        }
        i = i - 1;
    }
    assert(order@.subrange(0, 4) =~= order@);
    out
}

/// Whether `s` holds `d`.
pub fn contains_direction(s: &Vec<Direction>, d: Direction) -> (r: bool)
    ensures
        r == s@.contains(d),
{
    let mut i: usize = 0;
    while i < s.len()
        invariant
            i <= s@.len(),
            forall|k: int| 0 <= k < i ==> s@[k] != d,
        decreases s@.len() - i,
    {
        if s[i] == d {
            return true;
        }
        i = i + 1;
    }
    false
}

/// The directions of `space` ordered by the distance of the neighbour they
/// lead to from `goal`, the nearest last.
pub fn order_by_distance(space: &Vec<Direction>, pos: &Position, goal: &Position) -> (r: Vec<Direction>)
    requires
        neighbours_fit(pos@),
    ensures
        r@.to_multiset() == space@.to_multiset(),
        nearest_last(r@, pos@, goal@),
{
    broadcast use group_to_multiset_ensures, group_multiset_axioms;
    let mut out: Vec<Direction> = Vec::new();
    let mut i: usize = 0;
    assert(out@.to_multiset() =~= space@.subrange(0, 0).to_multiset()) by {
        assert(out@ =~= space@.subrange(0, 0));
    }
    while i < space.len()
        invariant
            neighbours_fit(pos@),
            i <= space@.len(),
            out@.to_multiset() == space@.subrange(0, i as int).to_multiset(),
            nearest_last(out@, pos@, goal@),
        decreases space@.len() - i,
    {
        let d = space[i];
        let key = pos.add(&d).distance_sq(goal);
        let mut k: usize = 0;
        while k < out.len()
            invariant
                neighbours_fit(pos@),
                k <= out@.len(),
                key == goal_key(pos@, goal@, d),
                forall|j: int| 0 <= j < k ==> goal_key(pos@, goal@, #[trigger] out@[j]) >= key,
            ensures
                k <= out@.len(),
                forall|j: int| 0 <= j < k ==> goal_key(pos@, goal@, #[trigger] out@[j]) >= key,
                k < out@.len() ==> goal_key(pos@, goal@, out@[k as int]) < key,
            decreases out@.len() - k,
        {
            let other = pos.add(&out[k]).distance_sq(goal);
            if other < key {
                break;
            }
            k = k + 1;
        }
        let ghost before = out@;
        out.insert(k, d);
        assert(space@.subrange(0, i as int + 1) =~= space@.subrange(0, i as int).push(d));
        proof {
            to_multiset_insert(before, k as int, d);
            to_multiset_build(space@.subrange(0, i as int), d);
        }
        assert forall|a: int, b: int| 0 <= a < b < out@.len()
            implies goal_key(pos@, goal@, #[trigger] out@[a]) >= goal_key(pos@, goal@, #[trigger] out@[b]) by {
            if a < k && b == k {
            } else if a == k && b > k {
                if k < before.len() {
                    assert(goal_key(pos@, goal@, before[k as int]) < key);
                    assert(goal_key(pos@, goal@, before[k as int]) >= goal_key(pos@, goal@, before[b - 1]) || b - 1 == k);
                }
            } else if a < k && b > k {
                assert(out@[a] == before[a]);
                assert(out@[b] == before[b - 1]);
            } else if a > k {
                assert(out@[a] == before[a - 1]);
                assert(out@[b] == before[b - 1]);
            }
        }
        i = i + 1;
    }
    assert(space@.subrange(0, i as int) =~= space@);
    out
}

/// Relies on rand's `SliceRandom::shuffle` with the thread-local generator:
/// it only swaps elements, so the result is a reordering of `v`.
#[verifier::external_body]
fn shuffled(v: &Vec<Direction>) -> (r: Vec<Direction>)
    ensures
        r@.to_multiset() == v@.to_multiset(),
{
    let mut r = v.clone();
    r.shuffle(&mut rand::thread_rng());
    r
}

impl PrioMode {
    /// The candidates of a cell at `pos`, ordered so that the one to try
    /// first comes last. A random order is a reordering of `space`; the
    /// others are fixed by the mode.
    pub fn order(&self, space: &Vec<Direction>, pos: &Position, goal: &Position) -> (r: Vec<Direction>)
        requires
            neighbours_fit(pos@),
        ensures
            allowed_order(*self, space@, pos@, goal@, r@),
    {
        match self {
            PrioMode::Distance => order_by_distance(space, pos, goal),
            PrioMode::Random => shuffled(space),
            PrioMode::Deterministic(o) => order_deterministic(space, *o),
        }
    }
}

} // verus!
