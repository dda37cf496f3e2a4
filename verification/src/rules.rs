//! The mathematical model of the automaton: a live population is a
//! `Set<(int, int)>`, and `step` gives the next generation under Conway's
//! survival and birth rules over the 8-cell Moore neighborhood.

use vstd::prelude::*;

verus! {

/// 1 if `q` is live in `l`, 0 otherwise.
pub open spec fn indicator(l: Set<(int, int)>, q: (int, int)) -> int {
    if l.contains(q) {
        1
    } else {
        0
    }
}

/// The number of the 8 Moore neighbors of `c` that are live in `l`.
pub open spec fn live_neighbors(l: Set<(int, int)>, c: (int, int)) -> int {
    indicator(l, (c.0 - 1, c.1 - 1)) + indicator(l, (c.0, c.1 - 1)) + indicator(
        l,
        (c.0 + 1, c.1 - 1),
    ) + indicator(l, (c.0 - 1, c.1)) + indicator(l, (c.0 + 1, c.1)) + indicator(
        l,
        (c.0 - 1, c.1 + 1),
    ) + indicator(l, (c.0, c.1 + 1)) + indicator(l, (c.0 + 1, c.1 + 1))
}

/// A live cell stays alive exactly when it has 2 or 3 live neighbors.
pub open spec fn survives(l: Set<(int, int)>, c: (int, int)) -> bool {
    l.contains(c) && (live_neighbors(l, c) == 2 || live_neighbors(l, c) == 3)
}

/// A dead cell becomes alive exactly when it has 3 live neighbors.
pub open spec fn born(l: Set<(int, int)>, c: (int, int)) -> bool {
    !l.contains(c) && live_neighbors(l, c) == 3
}

/// Whether `c` is live in the generation after `l`.
pub open spec fn alive_next(l: Set<(int, int)>, c: (int, int)) -> bool {
    survives(l, c) || born(l, c)
}

/// The generation that follows `l`.
pub open spec fn step(l: Set<(int, int)>) -> Set<(int, int)> {
    Set::new(|c: (int, int)| alive_next(l, c))
}

/// `l` advanced by `n` generations.
pub open spec fn step_n(l: Set<(int, int)>, n: nat) -> Set<(int, int)>
    decreases n,
{
    if n == 0 {
        l
    } else {
        step(step_n(l, (n - 1) as nat))
    }
}

/// `l` shifted by `(dx, dy)`.
pub open spec fn translate(l: Set<(int, int)>, dx: int, dy: int) -> Set<(int, int)> {
    Set::new(|c: (int, int)| l.contains((c.0 - dx, c.1 - dy)))
}

/// The four cells of a 2x2 block whose corner is `(x, y)`: a still life.
pub open spec fn block_at(x: int, y: int) -> Set<(int, int)> {
    set![(x, y), (x + 1, y), (x, y + 1), (x + 1, y + 1)]
}

/// The three cells of a horizontal blinker whose left cell is `(x, y)`.
pub open spec fn blinker_row(x: int, y: int) -> Set<(int, int)> {
    set![(x, y), (x + 1, y), (x + 2, y)]
}

/// The three cells of a vertical blinker through the center of the
/// horizontal one at `(x, y)`: its other phase.
pub open spec fn blinker_column(x: int, y: int) -> Set<(int, int)> {
    set![(x + 1, y - 1), (x + 1, y), (x + 1, y + 1)]
}

/// A cell of the next generation is exactly a live cell with 2 or 3 live
/// neighbors, or a dead cell with exactly 3 live neighbors.
pub proof fn lemma_step_membership(l: Set<(int, int)>, c: (int, int))
    ensures
        step(l).contains(c) <==> ((l.contains(c) && (live_neighbors(l, c) == 2 || live_neighbors(
            l,
            c,
        ) == 3)) || (!l.contains(c) && live_neighbors(l, c) == 3)),
{
}

/// Translation invariance: advancing a pattern translated by `(dx, dy)`
/// gives the advanced pattern translated by the same offset.
pub proof fn lemma_translation(l: Set<(int, int)>, dx: int, dy: int)
    ensures
        step(translate(l, dx, dy)) == translate(step(l), dx, dy),
{
    assert forall|c: (int, int)|
        step(translate(l, dx, dy)).contains(c) <==> translate(step(l), dx, dy).contains(c) by {
        let t = translate(l, dx, dy);
        let b = (c.0 - dx, c.1 - dy);
        assert(live_neighbors(t, c) == live_neighbors(l, b)) by {
            assert(t.contains((c.0 - 1, c.1 - 1)) == l.contains((b.0 - 1, b.1 - 1)));
            assert(t.contains((c.0, c.1 - 1)) == l.contains((b.0, b.1 - 1)));
            assert(t.contains((c.0 + 1, c.1 - 1)) == l.contains((b.0 + 1, b.1 - 1)));
            assert(t.contains((c.0 - 1, c.1)) == l.contains((b.0 - 1, b.1)));
            assert(t.contains((c.0 + 1, c.1)) == l.contains((b.0 + 1, b.1)));
            assert(t.contains((c.0 - 1, c.1 + 1)) == l.contains((b.0 - 1, b.1 + 1)));
            assert(t.contains((c.0, c.1 + 1)) == l.contains((b.0, b.1 + 1)));
            assert(t.contains((c.0 + 1, c.1 + 1)) == l.contains((b.0 + 1, b.1 + 1)));
        }
        assert(t.contains(c) == l.contains(b));
    }
    assert(step(translate(l, dx, dy)) =~= translate(step(l), dx, dy));
}

/// A still life: one generation leaves a 2x2 block unchanged.
pub proof fn lemma_block_stable(x: int, y: int)
    ensures
        step(block_at(x, y)) == block_at(x, y),
{
    let b = block_at(x, y);
    assert forall|c: (int, int)| step(b).contains(c) <==> b.contains(c) by {
        let u = c.0 - x;
        let v = c.1 - y;
        if u < -1 || u > 2 || v < -1 || v > 2 {
            assert(live_neighbors(b, c) == 0);
        }
    }
    assert(step(b) =~= b);
}

/// A pattern one generation leaves unchanged is unchanged by any number
/// of generations.
pub proof fn lemma_fixed_point_iterate(l: Set<(int, int)>, n: nat)
    requires
        step(l) == l,
    ensures
        step_n(l, n) == l,
    decreases n,
{
    if n > 0 {
        lemma_fixed_point_iterate(l, (n - 1) as nat);
    }
}

/// Idempotence of a stable pattern: a 2x2 block, ticked any number of
/// times, leaves the live set unchanged.
pub proof fn lemma_block_stable_forever(x: int, y: int, n: nat)
    ensures
        step_n(block_at(x, y), n) == block_at(x, y),
{
    lemma_block_stable(x, y);
    lemma_fixed_point_iterate(block_at(x, y), n);
}

/// One generation turns a horizontal blinker into the vertical blinker
/// through its center.
pub proof fn lemma_blinker_flips(x: int, y: int)
    ensures
        step(blinker_row(x, y)) == blinker_column(x, y),
{
    let r = blinker_row(x, y);
    assert forall|c: (int, int)| step(r).contains(c) <==> blinker_column(x, y).contains(c) by {
        let u = c.0 - x;
        let v = c.1 - y;
        if u < -1 || u > 3 || v < -1 || v > 1 {
            assert(live_neighbors(r, c) == 0);
        }
    }
    assert(step(r) =~= blinker_column(x, y));
}

/// One generation turns the vertical blinker back into the horizontal.
pub proof fn lemma_blinker_flips_back(x: int, y: int)
    ensures
        step(blinker_column(x, y)) == blinker_row(x, y),
{
    let col = blinker_column(x, y);
    assert forall|c: (int, int)| step(col).contains(c) <==> blinker_row(x, y).contains(c) by {
        let u = c.0 - x;
        let v = c.1 - y;
        if u < 0 || u > 2 || v < -2 || v > 2 {
            assert(live_neighbors(col, c) == 0);
        }
    }
    assert(step(col) =~= blinker_row(x, y));
}

/// Periodicity: a blinker, ticked twice, restores the exact original
/// live set.
pub proof fn lemma_blinker_period_two(x: int, y: int)
    ensures
        step_n(blinker_row(x, y), 2) == blinker_row(x, y),
{
    let r = blinker_row(x, y);
    lemma_blinker_flips(x, y);
    lemma_blinker_flips_back(x, y);
    assert(step_n(r, 0) == r);
    assert(step_n(r, 1) == step(r));
    assert(step_n(r, 2) == step(step(r)));
}

} // verus!
