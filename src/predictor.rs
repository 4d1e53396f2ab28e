use vstd::prelude::*;
use vstd::set_lib::{lemma_int_range, lemma_len_subset, set_int_range};
use crate::geometry::{moved, neighbour_dir, neighbours_fit, opposite, views, Direction, Position};
use crate::grid::{within, Cell, State};

verus! {

/// A cell that the flood may enter: on the grid, and unexplored or the goal.
pub open spec fn passable(st: State, p: (int, int)) -> bool {
    within(st.size, p) && (st.cell(p) == Cell::Unexplored || st.cell(p) == Cell::Goal)
}

/// The cell reached from `c` by the moves `ds`.
pub open spec fn walk(c: (int, int), ds: Seq<Direction>) -> (int, int)
    decreases ds.len(),
{
    if ds.len() == 0 {
        c
    } else {
        moved(walk(c, ds.drop_last()), ds.last())
    }
}

/// Every cell along the moves `ds` from `c`, `c` included, is passable.
pub open spec fn walk_ok(st: State, c: (int, int), ds: Seq<Direction>) -> bool
    decreases ds.len(),
{
    passable(st, walk(c, ds)) && (ds.len() == 0 || walk_ok(st, c, ds.drop_last()))
}

/// `p` is reached from `c` through passable cells.
pub open spec fn reachable(st: State, c: (int, int), p: (int, int)) -> bool {
    exists|ds: Seq<Direction>| walk_ok(st, c, ds) && #[trigger] walk(c, ds) == p
}

proof fn lemma_reach_from_passable(st: State, c: (int, int), ds: Seq<Direction>)
    requires
        walk_ok(st, c, ds),
    ensures
        passable(st, c),
    decreases ds.len(),
{
    if ds.len() > 0 {
        lemma_reach_from_passable(st, c, ds.drop_last());
    }
}

/// A passable neighbour of a reachable cell is reachable.
proof fn lemma_reach_step(st: State, c: (int, int), q: (int, int), d: Direction)
    requires
        reachable(st, c, q),
        passable(st, moved(q, d)),
    ensures
        reachable(st, c, moved(q, d)),
{
    let ds = choose|ds: Seq<Direction>| walk_ok(st, c, ds) && #[trigger] walk(c, ds) == q;
    let ds2 = ds.push(d);
    assert(ds2.drop_last() =~= ds);
    assert(walk(c, ds2) == moved(q, d));
    assert(walk_ok(st, c, ds2));
}

/// A set of cells that holds `c` where `c` is passable, and each passable
/// neighbour of each of its cells, holds everything reachable from `c`.
proof fn lemma_closed_holds_reachable(st: State, c: (int, int), fv: Seq<(int, int)>, ds: Seq<Direction>)
    requires
        passable(st, c) ==> fv.contains(c),
        forall|k: int, d: Direction| 0 <= k < fv.len() && passable(st, #[trigger] moved(fv[k], d)) ==> fv.contains(moved(fv[k], d)),
        walk_ok(st, c, ds),
    ensures
        fv.contains(walk(c, ds)),
    decreases ds.len(),
{
    if ds.len() > 0 {
        let q = walk(c, ds.drop_last());
        lemma_closed_holds_reachable(st, c, fv, ds.drop_last());
        let k = choose|k: int| 0 <= k < fv.len() && fv[k] == q;
        assert(passable(st, moved(fv[k], ds.last())));
    }
}

/// Distinct cells of a `(w + 1) x (h + 1)` grid number at most its size.
proof fn lemma_distinct_cells_bound(s: Seq<(int, int)>, w: int, h: int)
    requires
        w >= 0,
        h >= 0,
        s.no_duplicates(),
        forall|k: int| 0 <= k < s.len() ==> within_box(w, h, #[trigger] s[k]),
    ensures
        s.len() <= (w + 1) * (h + 1),
{
    let f = |p: (int, int)| p.0 * (h + 1) + p.1;
    let idx = s.map_values(f);
    assert forall|i: int, j: int| 0 <= i < idx.len() && 0 <= j < idx.len() && i != j implies idx[i] != idx[j] by {
        let a = s[i];
        let b = s[j];
        assert(within_box(w, h, a) && within_box(w, h, b));
        assert(a != b);
        if a.0 == b.0 {
            assert(idx[i] != idx[j]);
        } else if a.0 < b.0 {
            assert(a.0 * (h + 1) + (h + 1) <= b.0 * (h + 1)) by (nonlinear_arith)
                requires
                    a.0 < b.0,
                    h >= 0,
            ;
        } else {
            assert(b.0 * (h + 1) + (h + 1) <= a.0 * (h + 1)) by (nonlinear_arith)
                requires
                    b.0 < a.0,
                    h >= 0,
            ;
        }
    }
    assert(idx.no_duplicates());
    let range = set_int_range(0, (w + 1) * (h + 1));
    assert(0 <= (w + 1) * (h + 1)) by (nonlinear_arith)
        requires
            w >= 0,
            h >= 0,
    ;
    lemma_int_range(0, (w + 1) * (h + 1));
    assert forall|v: int| idx.to_set().contains(v) implies range.contains(v) by {
        let k = choose|k: int| 0 <= k < idx.len() && idx[k] == v;
        let a = s[k];
        assert(within_box(w, h, a));
        assert(0 <= a.0 * (h + 1) && a.0 * (h + 1) <= w * (h + 1)) by (nonlinear_arith)
            requires
                0 <= a.0 <= w,
                h >= 0,
        ;
        assert(w * (h + 1) + (h + 1) == (w + 1) * (h + 1)) by (nonlinear_arith);
    }
    lemma_len_subset(idx.to_set(), range);
    idx.unique_seq_to_set();
}

spec fn within_box(w: int, h: int, p: (int, int)) -> bool {
    0 <= p.0 <= w && 0 <= p.1 <= h
}

proof fn lemma_push_contains<A>(s: Seq<A>, x: A, y: A)
    ensures
        s.push(x).contains(y) <==> (s.contains(y) || y == x),
{
    if y == x {
        assert(s.push(x)[s.len() as int] == y);
    }
    if s.contains(y) {
        let k = choose|k: int| 0 <= k < s.len() && s[k] == y;
        assert(s.push(x)[k] == y);
    }
}

proof fn lemma_drop_last_contains<A>(s: Seq<A>, y: A)
    requires
        s.len() > 0,
    ensures
        s.contains(y) <==> (s.drop_last().contains(y) || y == s.last()),
{
    if s.drop_last().contains(y) {
        let k = choose|k: int| 0 <= k < s.len() - 1 && s.drop_last()[k] == y;
        assert(s[k] == y);
    }
    if s.contains(y) && y != s.last() {
        let k = choose|k: int| 0 <= k < s.len() && s[k] == y;
        assert(s.drop_last()[k] == y);
    }
}

/// Whether `ps` lists `p`.
fn listed(ps: &Vec<Position>, p: &Position) -> (r: bool)
    ensures
        r == views(ps@).contains(p@),
{
    let mut i: usize = 0;
    while i < ps.len()
        invariant
            i <= ps@.len(),
            forall|k: int| 0 <= k < i ==> (#[trigger] ps@[k])@ != p@,
        decreases ps@.len() - i,
    {
        if ps[i].x == p.x && ps[i].y == p.y {
            assert(views(ps@)[i as int] == p@);
            return true;
        }
        i = i + 1;
    }
    assert forall|k: int| 0 <= k < ps@.len() implies (#[trigger] views(ps@)[k]) != p@ by {
        assert(ps@[k]@ != p@);
    }
    false
}

/// The pocket reached from `curr`: a depth-first traversal through cells
/// that are on the grid and unexplored or the goal, which stops as soon as it
/// takes in the goal.
///
/// The result lists distinct reachable cells. It holds the goal exactly when
/// the goal is reachable, and then ends with it. Without the goal it holds
/// every reachable cell, and is empty exactly when `curr` is not passable.
pub fn flood(state: &State, curr: &Position) -> (r: Vec<Position>)
    requires
        state.wf(),
    ensures
        views(r@).no_duplicates(),
        forall|k: int| 0 <= k < r@.len() ==> reachable(*state, curr@, #[trigger] views(r@)[k]),
        views(r@).contains(state.goal@) <==> reachable(*state, curr@, state.goal@),
        views(r@).contains(state.goal@) ==> r@.last()@ == state.goal@,
        !views(r@).contains(state.goal@) ==> forall|p: (int, int)| #[trigger] reachable(*state, curr@, p) <==> views(r@).contains(p),
        r@.len() == 0 <==> !passable(*state, curr@),
        r@.len() > 0 ==> r@[0]@ == curr@,
{
    let ghost st = *state;
    let ghost c = curr@;
    let ghost cells = (st.size.0 + 1) * (st.size.1 + 1);
    let mut search: Vec<Position> = Vec::new();
    search.push(*curr);
    let mut fl: Vec<Position> = Vec::new();
    let mut found = false;
    assert(views(search@) =~= seq![c]);
    assert(views(search@)[0] == c);
    while search.len() > 0 && !found
        invariant
            st == *state,
            st.wf(),
            c == curr@,
            cells == (st.size.0 + 1) * (st.size.1 + 1),
            views(fl@).no_duplicates(),
            fl@.len() <= cells,
            forall|k: int| 0 <= k < fl@.len() ==> passable(st, #[trigger] views(fl@)[k]),
            forall|k: int| 0 <= k < fl@.len() ==> reachable(st, c, #[trigger] views(fl@)[k]),
            forall|k: int| 0 <= k < search@.len() ==> #[trigger] views(search@)[k] == c
                || exists|d: Direction| #[trigger] reachable(st, c, moved(views(search@)[k], d)),
            forall|k: int, d: Direction| 0 <= k < fl@.len() && passable(st, #[trigger] moved(views(fl@)[k], d))
                ==> views(fl@).contains(moved(views(fl@)[k], d)) || views(search@).contains(moved(views(fl@)[k], d)),
            passable(st, c) ==> views(fl@).contains(c) || views(search@).contains(c),
            found <==> views(fl@).contains(st.goal@),
            found ==> fl@.len() > 0 && fl@.last()@ == st.goal@,
            fl@.len() > 0 ==> fl@[0]@ == c,
            fl@.len() == 0 ==> search@.len() == 0 || (search@.len() == 1 && search@[0]@ == c),
        decreases cells - fl@.len(), search@.len(),
    {
        let ghost fv0 = views(fl@);
        let ghost sv0 = views(search@);
        let elem = search.pop().unwrap();
        assert(views(search@) =~= sv0.drop_last());
        assert(elem@ == sv0.last());
        assert forall|y: (int, int)| sv0.contains(y) <==> (views(search@).contains(y) || y == elem@) by {
            lemma_drop_last_contains(sv0, y);
        }
        if !state.in_bounds(&elem) {
            continue;
        }
        let cell = state.get_cell(&elem);
        if !(cell == Cell::Unexplored || cell == Cell::Goal) || listed(&fl, &elem) {
            continue;
        }
        proof {
            assert(passable(st, elem@));
            let k = (sv0.len() - 1) as int;
            assert(sv0[k] == elem@);
            if elem@ == c {
                assert(walk(c, Seq::<Direction>::empty()) == c);
                assert(walk_ok(st, c, Seq::<Direction>::empty()));
            } else {
                let d = choose|d: Direction| #[trigger] reachable(st, c, moved(sv0[k], d));
                assert(moved(moved(elem@, d), opposite(d)) == elem@);
                lemma_reach_step(st, c, moved(elem@, d), opposite(d));
            }
            assert(neighbours_fit(elem@));
        }
        let nb = elem.surroundings();
        let ghost sv1 = views(search@);
        search.push(nb[0]);
        search.push(nb[1]);
        search.push(nb[2]);
        search.push(nb[3]);
        fl.push(elem);
        let ghost fv = views(fl@);
        let ghost sv = views(search@);
        proof {
            assert(fv =~= fv0.push(elem@));
            assert(sv =~= sv1.push(nb@[0]@).push(nb@[1]@).push(nb@[2]@).push(nb@[3]@));
            assert forall|y: (int, int)| #[trigger] fv.contains(y) <==> (fv0.contains(y) || y == elem@) by {
                lemma_push_contains(fv0, elem@, y);
            }
            assert forall|y: (int, int)| sv1.contains(y) implies #[trigger] sv.contains(y) by {
                if sv1.contains(y) {
                    let k = choose|k: int| 0 <= k < sv1.len() && sv1[k] == y;
                    assert(sv[k] == y);
                }
            }
            assert forall|i: int| 0 <= i < 4 implies #[trigger] sv.contains(moved(elem@, neighbour_dir(i))) by {
                assert(sv[sv1.len() + i] == nb@[i]@);
            }
            assert forall|d: Direction| #[trigger] sv.contains(moved(elem@, d)) by {
                match d {
                    Direction::Up => assert(sv.contains(moved(elem@, neighbour_dir(0)))),
                    Direction::Down => assert(sv.contains(moved(elem@, neighbour_dir(1)))),
                    Direction::Right => assert(sv.contains(moved(elem@, neighbour_dir(2)))),
                    Direction::Left => assert(sv.contains(moved(elem@, neighbour_dir(3)))),
                }
            }
            assert(fv.no_duplicates()) by {
                assert forall|i: int, j: int| 0 <= i < fv.len() && 0 <= j < fv.len() && i != j implies fv[i] != fv[j] by {
                    if i == fv0.len() {
                        assert(fv0[j] == fv[j]);
                    } else if j == fv0.len() {
                        assert(fv0[i] == fv[i]);
                    }
                }
            }
            assert forall|k: int| 0 <= k < fv.len() implies within_box(st.size.0 as int, st.size.1 as int, #[trigger] fv[k]) by {
                if k < fv0.len() {
                    assert(fv[k] == fv0[k]);
                    assert(passable(st, fv0[k]));
                }
            }
            lemma_distinct_cells_bound(fv, st.size.0 as int, st.size.1 as int);
            assert forall|k: int| 0 <= k < sv.len() implies #[trigger] sv[k] == c
                || exists|d: Direction| #[trigger] reachable(st, c, moved(sv[k], d)) by {
                if k < sv1.len() {
                    assert(sv[k] == sv1[k]);
                    assert(sv1[k] == sv0[k]);
                } else {
                    let i = k - sv1.len();
                    let d = neighbour_dir(i);
                    assert(sv[k] == moved(elem@, d));
                    assert(moved(moved(elem@, d), opposite(d)) == elem@);
                    assert(reachable(st, c, moved(sv[k], opposite(d))));
                }
            }
            assert forall|k: int| 0 <= k < fv.len() implies reachable(st, c, #[trigger] fv[k]) by {
                if k < fv0.len() {
                    assert(fv[k] == fv0[k]);
                }
            }
            assert forall|k: int, d: Direction| 0 <= k < fv.len() && passable(st, #[trigger] moved(fv[k], d))
                implies fv.contains(moved(fv[k], d)) || sv.contains(moved(fv[k], d)) by {
                if k < fv0.len() {
                    assert(fv[k] == fv0[k]);
                    let q = moved(fv0[k], d);
                    if sv0.contains(q) && q != elem@ {
                        assert(views(search@.subrange(0, sv1.len() as int)) =~= sv1);
                    }
                } else {
                    assert(fv[k] == elem@);
                }
            }
        }
        if elem.x == state.goal.x && elem.y == state.goal.y {
            found = true;
        }
    }
    proof {
        let fv = views(fl@);
        if !found {
            assert(search@.len() == 0);
            assert forall|k: int, d: Direction| 0 <= k < fv.len() && passable(st, #[trigger] moved(fv[k], d))
                implies fv.contains(moved(fv[k], d)) by {
                assert(!views(search@).contains(moved(fv[k], d)));
            }
            assert forall|p: (int, int)| #[trigger] reachable(st, c, p) <==> fv.contains(p) by {
                if reachable(st, c, p) {
                    let ds = choose|ds: Seq<Direction>| walk_ok(st, c, ds) && #[trigger] walk(c, ds) == p;
                    lemma_closed_holds_reachable(st, c, fv, ds);
                }
                if fv.contains(p) {
                    let k = choose|k: int| 0 <= k < fv.len() && fv[k] == p;
                }
            }
        }
        if passable(st, c) {
            assert(walk(c, Seq::<Direction>::empty()) == c);
            assert(walk_ok(st, c, Seq::<Direction>::empty()));
        }
        if fl@.len() > 0 {
            assert(reachable(st, c, fv[0]));
            let ds = choose|ds: Seq<Direction>| walk_ok(st, c, ds) && #[trigger] walk(c, ds) == fv[0];
            lemma_reach_from_passable(st, c, ds);
        }
    }
    fl
}

/// A cell reached from `c` is passable.
proof fn lemma_reached_passable(st: State, c: (int, int), p: (int, int))
    requires
        reachable(st, c, p),
    ensures
        passable(st, p),
{
    let ds = choose|ds: Seq<Direction>| walk_ok(st, c, ds) && #[trigger] walk(c, ds) == p;
}

/// Whether a move onto `c` leads into a dead pocket: `c` is passable and
/// the goal cannot be reached from it.
pub open spec fn is_dead_pocket(st: State, c: (int, int)) -> bool {
    passable(st, c) && !reachable(st, c, st.goal@)
}

/// Runs the flood from `curr` and, where it finds a dead pocket, marks every
/// cell of the pocket flooded. Returns whether it did; where the goal is
/// reachable nothing is marked.
pub fn predict_dead_end(state: &mut State, curr: &Position) -> (r: bool)
    requires
        old(state).wf(),
    ensures
        final(state).wf(),
        final(state).size == old(state).size,
        final(state).goal == old(state).goal,
        final(state).start == old(state).start,
        final(state).wins == old(state).wins,
        final(state).loses == old(state).loses,
        r == is_dead_pocket(*old(state), curr@),
        !r ==> *final(state) == *old(state),
        forall|q: (int, int)| #[trigger] within(old(state).size, q) ==> final(state).cell(q) == (
            if r && reachable(*old(state), curr@, q) {
                Cell::Flooded
            } else {
                old(state).cell(q)
            }),
{
    let ghost st = *state;
    let pocket = flood(state, curr);
    let dead = pocket.len() > 0 && !listed(&pocket, &state.goal);
    if dead {
        state.mark_flooded(&pocket);
        assert forall|q: (int, int)| #[trigger] within(st.size, q) implies state.cell(q) == (
            if reachable(st, curr@, q) { Cell::Flooded } else { st.cell(q) }) by {
            if reachable(st, curr@, q) {
                lemma_reached_passable(st, curr@, q);
            }
        }
    }
    dead
}

} // verus!
