//! The sparse cell-state representation and the simulation engine:
//! membership, insertion, removal and enumeration of live cells, the
//! per-generation `tick`, the bounding box of the population, and the
//! viewport-centering arithmetic.

use vstd::prelude::*;

use crate::rules::{alive_next, live_neighbors, step};

verus! {

/// The lattice point an executable cell stands for.
pub open spec fn cell_view(c: (isize, isize)) -> (int, int) {
    (c.0 as int, c.1 as int)
}

/// Whether some element of `s` stands for the lattice point `q`.
pub open spec fn has_coord(s: Seq<(isize, isize)>, q: (int, int)) -> bool {
    exists|i: int| 0 <= i < s.len() && cell_view(s[i]) == q
}

/// The set of lattice points the elements of `s` stand for.
pub open spec fn coords_of(s: Seq<(isize, isize)>) -> Set<(int, int)> {
    Set::new(|q: (int, int)| has_coord(s, q))
}

proof fn lemma_coords_push(s: Seq<(isize, isize)>, c: (isize, isize))
    ensures
        coords_of(s.push(c)) =~= coords_of(s).insert(cell_view(c)),
{
    assert forall|q: (int, int)|
        coords_of(s.push(c)).contains(q) <==> coords_of(s).insert(cell_view(c)).contains(q) by {
        if has_coord(s.push(c), q) {
            let i = choose|i: int| 0 <= i < s.push(c).len() && cell_view(s.push(c)[i]) == q;
            if i < s.len() {
                assert(s.push(c)[i] == s[i]);
                assert(cell_view(s[i]) == q);
            } else {
                assert(s.push(c)[i] == c);
            }
        }
        if coords_of(s).insert(cell_view(c)).contains(q) {
            if q == cell_view(c) {
                assert(cell_view(s.push(c)[s.len() as int]) == q);
            } else {
                let i = choose|i: int| 0 <= i < s.len() && cell_view(s[i]) == q;
                assert(cell_view(s.push(c)[i]) == q);
            }
        }
    }
}

proof fn lemma_has_coord_take_step(s: Seq<(isize, isize)>, i: int, q: (int, int))
    requires
        0 <= i < s.len(),
    ensures
        has_coord(s.take(i + 1), q) <==> (has_coord(s.take(i), q) || cell_view(s[i]) == q),
{
    if has_coord(s.take(i + 1), q) {
        let j = choose|j: int| 0 <= j < s.take(i + 1).len() && #[trigger] cell_view(s.take(i + 1)[j]) == q;
        if j < i {
            assert(cell_view(s.take(i)[j]) == q);
        } else {
            assert(s.take(i + 1)[j] == s[i]);
        }
    }
    if has_coord(s.take(i), q) {
        let j = choose|j: int| 0 <= j < s.take(i).len() && #[trigger] cell_view(s.take(i)[j]) == q;
        assert(cell_view(s.take(i + 1)[j]) == q);
    }
    if cell_view(s[i]) == q {
        assert(cell_view(s.take(i + 1)[i]) == q);
    }
}

proof fn lemma_has_coord_take_all(s: Seq<(isize, isize)>, q: (int, int))
    ensures
        has_coord(s.take(s.len() as int), q) <==> has_coord(s, q),
{
    assert(s.take(s.len() as int) =~= s);
}

/// The set of live cells on the infinite integer lattice, unique by value
/// and unordered; membership is the sole source of truth for "alive".
pub struct LiveSet {
    cells: Vec<(isize, isize)>,
}

impl View for LiveSet {
    type V = Set<(int, int)>;

    closed spec fn view(&self) -> Set<(int, int)> {
        coords_of(self.cells@)
    }
}

fn copy_cells(v: &Vec<(isize, isize)>) -> (r: Vec<(isize, isize)>)
    ensures
        r@ == v@,
{
    let n = v.len();
    let mut out: Vec<(isize, isize)> = Vec::new();
    let mut i: usize = 0;
    while i < n
        invariant
            0 <= i <= n,
            n == v@.len(),
            out@ == v@.take(i as int),
        decreases n - i,
    {
        out.push(v[i]);
        proof {
            assert(v@.take(i + 1) =~= v@.take(i as int).push(v@[i as int]));
        }
        i += 1;
    }
    proof {
        assert(v@.take(n as int) =~= v@);
    }
    out
}

impl Clone for LiveSet {
    /// A deep copy with the same live cells.
    fn clone(&self) -> (r: Self)
        ensures
            r@ == self@,
    {
        LiveSet { cells: copy_cells(&self.cells) }
    }
}

impl LiveSet {
    /// An empty population.
    pub fn new() -> (r: LiveSet)
        ensures
            r@ == Set::<(int, int)>::empty(),
    {
        let r = LiveSet { cells: Vec::new() };
        proof {
            assert(r@ =~= Set::<(int, int)>::empty());
        }
        r
    }

    /// Membership test: is the cell at `c` alive?
    pub fn contains(&self, c: (isize, isize)) -> (r: bool)
        ensures
            r == self@.contains(cell_view(c)),
    {
        let n = self.cells.len();
        let mut i: usize = 0;
        while i < n
            invariant
                0 <= i <= n,
                n == self.cells@.len(),
                forall|j: int| 0 <= j < i ==> cell_view(self.cells@[j]) != cell_view(c),
            decreases n - i,
        {
            let e = self.cells[i];
            if e.0 == c.0 && e.1 == c.1 {
                proof {
                    assert(cell_view(self.cells@[i as int]) == cell_view(c));
                }
                return true;
            }
            i += 1;
        }
        false
    }

    /// Insertion; inserting an already-present cell changes nothing.
    pub fn insert(&mut self, c: (isize, isize))
        ensures
            final(self)@ == old(self)@.insert(cell_view(c)),
    {
        if !self.contains(c) {
            proof {
                lemma_coords_push(self.cells@, c);
            }
            self.cells.push(c);
        } else {
            proof {
                assert(old(self)@.insert(cell_view(c)) =~= old(self)@);
            }
        }
    }

    /// Removal; removing an absent cell is a no-op, not an error.
    pub fn remove(&mut self, c: (isize, isize))
        ensures
            final(self)@ == old(self)@.remove(cell_view(c)),
    {
        let n = self.cells.len();
        let mut out: Vec<(isize, isize)> = Vec::new();
        let mut i: usize = 0;
        while i < n
            invariant
                0 <= i <= n,
                n == self.cells@.len(),
                self.cells@ == old(self).cells@,
                forall|q: (int, int)| #[trigger] coords_of(out@).contains(q) <==> (has_coord(
                    self.cells@.take(i as int),
                    q,
                ) && q != cell_view(c)),
            decreases n - i,
        {
            let ghost prev = out@;
            let e = self.cells[i];
            if !(e.0 == c.0 && e.1 == c.1) {
                out.push(e);
                proof {
                    lemma_coords_push(prev, e);
                }
            }
            proof {
                assert forall|q: (int, int)| #[trigger] coords_of(out@).contains(q) <==> (
                has_coord(self.cells@.take(i + 1), q) && q != cell_view(c)) by {
                    lemma_has_coord_take_step(self.cells@, i as int, q);
                }
            }
            i += 1;
        }
        self.cells = out;
        proof {
            assert forall|q: (int, int)|
                final(self)@.contains(q) <==> old(self)@.remove(cell_view(c)).contains(q) by {
                lemma_has_coord_take_all(old(self).cells@, q);
            }
            assert(final(self)@ =~= old(self)@.remove(cell_view(c)));
        }
    }

    /// A fresh, finite, unordered enumeration of the live cells.
    pub fn iterate(&self) -> (v: Vec<(isize, isize)>)
        ensures
            coords_of(v@) == self@,
            forall|i: int| 0 <= i < v@.len() ==> self@.contains(#[trigger] cell_view(v@[i])),
    {
        let v = copy_cells(&self.cells);
        proof {
            assert forall|i: int| 0 <= i < v@.len() implies self@.contains(
                #[trigger] cell_view(v@[i]),
            ) by {
                assert(cell_view(self.cells@[i]) == cell_view(v@[i]));
            }
        }
        v
    }

    /// Whether every live cell is far enough from the edge of the machine
    /// integer range for a `tick` to compute all its neighbors.
    pub fn all_in_tick_range(&self) -> (r: bool)
        ensures
            r == live_set_in_range(self@),
    {
        let n = self.cells.len();
        let lo = isize::MIN + 2;
        let hi = isize::MAX - 2;
        let mut i: usize = 0;
        while i < n
            invariant
                0 <= i <= n,
                n == self.cells@.len(),
                lo == isize::MIN + 2,
                hi == isize::MAX - 2,
                forall|j: int| 0 <= j < i ==> coord_in_range(#[trigger] cell_view(self.cells@[j])),
            decreases n - i,
        {
            let e = self.cells[i];
            if e.0 < lo || e.0 > hi || e.1 < lo || e.1 > hi {
                proof {
                    assert(cell_view(self.cells@[i as int]) == cell_view(e));
                    assert(self@.contains(cell_view(e)));
                    assert(!coord_in_range(cell_view(e)));
                }
                return false;
            }
            i += 1;
        }
        proof {
            assert forall|q: (int, int)| #[trigger] self@.contains(q) implies coord_in_range(q) by {
                let j = choose|j: int| 0 <= j < self.cells@.len() && cell_view(self.cells@[j]) == q;
                assert(coord_in_range(cell_view(self.cells@[j])));
            }
        }
        true
    }
}

/// Whether a lattice point keeps a margin of 2 from the ends of the
/// machine integer range, so neighbor coordinates can be computed.
pub open spec fn coord_in_range(q: (int, int)) -> bool {
    &&& isize::MIN + 2 <= q.0 <= isize::MAX - 2
    &&& isize::MIN + 2 <= q.1 <= isize::MAX - 2
}

/// Whether every member of `l` is in range for a `tick`.
pub open spec fn live_set_in_range(l: Set<(int, int)>) -> bool {
    forall|q: (int, int)| #[trigger] l.contains(q) ==> coord_in_range(q)
}

/// The double-buffered world: the live population of the current
/// generation, the buffer the next one is computed into, and the fixed
/// dimensions of the display viewport (they bound nothing but the display).
pub struct World {
    /// Viewport height in rows.
    pub height: usize,
    /// Viewport width in columns.
    pub width: usize,
    /// The live population of the current generation.
    pub current: LiveSet,
    /// The other buffer; outside a running `tick` it carries the same
    /// population as `current`.
    pub next: LiveSet,
}

impl World {
    /// A world over the seed population, with fixed viewport dimensions.
    pub fn new(height: usize, width: usize, map1: LiveSet, map2: LiveSet) -> (w: World)
        ensures
            w.height == height,
            w.width == width,
            w.current@ == map1@,
            w.next@ == map2@,
    {
        World { height, width, current: map1, next: map2 }
    }
}

fn count_live_neighbors(ls: &LiveSet, x: isize, y: isize) -> (count: usize)
    requires
        isize::MIN < x < isize::MAX,
        isize::MIN < y < isize::MAX,
    ensures
        count == live_neighbors(ls@, (x as int, y as int)),
{
    let mut count: usize = 0;
    if ls.contains((x - 1, y - 1)) {
        count += 1;
    }
    if ls.contains((x, y - 1)) {
        count += 1;
    }
    if ls.contains((x + 1, y - 1)) {
        count += 1;
    }
    if ls.contains((x - 1, y)) {
        count += 1;
    }
    if ls.contains((x + 1, y)) {
        count += 1;
    }
    if ls.contains((x - 1, y + 1)) {
        count += 1;
    }
    if ls.contains((x, y + 1)) {
        count += 1;
    }
    if ls.contains((x + 1, y + 1)) {
        count += 1;
    }
    count
}

/// The number of the 8 Moore neighbors of `(x, y)` that are live in the
/// current generation of `world`.
pub fn check_neighbors(world: &World, x: isize, y: isize) -> (count: usize)
    requires
        isize::MIN < x < isize::MAX,
        isize::MIN < y < isize::MAX,
    ensures
        count == live_neighbors(world.current@, (x as int, y as int)),
{
    count_live_neighbors(&world.current, x, y)
}

/// Whether the cell at `p` is live in the generation that follows `ls`.
fn cell_alive_next(ls: &LiveSet, p: (isize, isize)) -> (r: bool)
    requires
        isize::MIN < p.0 < isize::MAX,
        isize::MIN < p.1 < isize::MAX,
    ensures
        r == alive_next(ls@, cell_view(p)),
{
    let count = count_live_neighbors(ls, p.0, p.1);
    if ls.contains(p) {
        count == 2 || count == 3
    } else {
        count == 3
    }
}

/// `q` shifted by the displacement `d`.
pub open spec fn shifted(q: (int, int), d: (int, int)) -> (int, int) {
    (q.0 + d.0, q.1 + d.1)
}

/// The 9 displacements a scan of one live cell considers: the cell itself
/// and its 8 Moore neighbors.
pub open spec fn cand_delta(k: int) -> (int, int) {
    if k == 0 {
        (-1, -1)
    } else if k == 1 {
        (0, -1)
    } else if k == 2 {
        (1, -1)
    } else if k == 3 {
        (-1, 0)
    } else if k == 4 {
        (0, 0)
    } else if k == 5 {
        (1, 0)
    } else if k == 6 {
        (-1, 1)
    } else if k == 7 {
        (0, 1)
    } else {
        (1, 1)
    }
}

fn cand_offset(k: usize) -> (d: (isize, isize))
    requires
        k < 9,
    ensures
        cell_view(d) == cand_delta(k as int),
        -1 <= d.0 <= 1,
        -1 <= d.1 <= 1,
{
    if k == 0 {
        (-1, -1)
    } else if k == 1 {
        (0, -1)
    } else if k == 2 {
        (1, -1)
    } else if k == 3 {
        (-1, 0)
    } else if k == 4 {
        (0, 0)
    } else if k == 5 {
        (1, 0)
    } else if k == 6 {
        (-1, 1)
    } else if k == 7 {
        (0, 1)
    } else {
        (1, 1)
    }
}

/// Whether the pair scan has already visited candidate `q`: some cell
/// index `j` and displacement index `m` strictly before position `(i, k)`
/// reach it.
spec fn covered(s: Seq<(isize, isize)>, i: int, k: int, q: (int, int)) -> bool {
    exists|j: int, m: int|
        0 <= j < s.len() && 0 <= m < 9 && (j < i || (j == i && m < k)) && q == shifted(
            cell_view(s[j]),
            cand_delta(m),
        )
}

proof fn lemma_covered_none(s: Seq<(isize, isize)>, q: (int, int))
    ensures
        !covered(s, 0, 0, q),
{
}

proof fn lemma_covered_step(s: Seq<(isize, isize)>, i: int, k: int, q: (int, int))
    requires
        0 <= i < s.len(),
        0 <= k < 9,
    ensures
        covered(s, i, k + 1, q) <==> (covered(s, i, k, q) || q == shifted(
            cell_view(s[i]),
            cand_delta(k),
        )),
{
    if covered(s, i, k + 1, q) {
        let (j, m) = choose|j: int, m: int|
            0 <= j < s.len() && 0 <= m < 9 && (j < i || (j == i && m < k + 1)) && q == shifted(
                cell_view(s[j]),
                cand_delta(m),
            );
        if j < i || (j == i && m < k) {
            assert(covered(s, i, k, q));
        } else {
            assert(j == i && m == k);
        }
    }
    if covered(s, i, k, q) {
        let (j, m) = choose|j: int, m: int|
            0 <= j < s.len() && 0 <= m < 9 && (j < i || (j == i && m < k)) && q == shifted(
                cell_view(s[j]),
                cand_delta(m),
            );
        assert(covered(s, i, k + 1, q));
    }
    if q == shifted(cell_view(s[i]), cand_delta(k)) {
        assert(covered(s, i, k + 1, q));
    }
}

proof fn lemma_covered_row(s: Seq<(isize, isize)>, i: int, q: (int, int))
    ensures
        covered(s, i, 9, q) <==> covered(s, i + 1, 0, q),
{
    if covered(s, i, 9, q) {
        let (j, m) = choose|j: int, m: int|
            0 <= j < s.len() && 0 <= m < 9 && (j < i || (j == i && m < 9)) && q == shifted(
                cell_view(s[j]),
                cand_delta(m),
            );
        assert(covered(s, i + 1, 0, q));
    }
    if covered(s, i + 1, 0, q) {
        let (j, m) = choose|j: int, m: int|
            0 <= j < s.len() && 0 <= m < 9 && (j < i + 1) && q == shifted(
                cell_view(s[j]),
                cand_delta(m),
            );
        assert(covered(s, i, 9, q));
    }
}

proof fn lemma_covered_full(s: Seq<(isize, isize)>, q: (int, int))
    requires
        alive_next(coords_of(s), q),
    ensures
        covered(s, s.len() as int, 0, q),
{
    let l = coords_of(s);
    let n = s.len() as int;
    if l.contains(q) {
        let j = choose|j: int| 0 <= j < s.len() && cell_view(s[j]) == q;
        assert(q == shifted(cell_view(s[j]), cand_delta(4)));
        assert(covered(s, n, 0, q));
    } else {
        if l.contains((q.0 - 1, q.1 - 1)) {
            let j = choose|j: int| 0 <= j < s.len() && cell_view(s[j]) == (q.0 - 1, q.1 - 1);
            assert(q == shifted(cell_view(s[j]), cand_delta(8)));
            assert(covered(s, n, 0, q));
        } else if l.contains((q.0, q.1 - 1)) {
            let j = choose|j: int| 0 <= j < s.len() && cell_view(s[j]) == (q.0, q.1 - 1);
            assert(q == shifted(cell_view(s[j]), cand_delta(7)));
            assert(covered(s, n, 0, q));
        } else if l.contains((q.0 + 1, q.1 - 1)) {
            let j = choose|j: int| 0 <= j < s.len() && cell_view(s[j]) == (q.0 + 1, q.1 - 1);
            assert(q == shifted(cell_view(s[j]), cand_delta(6)));
            assert(covered(s, n, 0, q));
        } else if l.contains((q.0 - 1, q.1)) {
            let j = choose|j: int| 0 <= j < s.len() && cell_view(s[j]) == (q.0 - 1, q.1);
            assert(q == shifted(cell_view(s[j]), cand_delta(5)));
            assert(covered(s, n, 0, q));
        } else if l.contains((q.0 + 1, q.1)) {
            let j = choose|j: int| 0 <= j < s.len() && cell_view(s[j]) == (q.0 + 1, q.1);
            assert(q == shifted(cell_view(s[j]), cand_delta(3)));
            assert(covered(s, n, 0, q));
        } else if l.contains((q.0 - 1, q.1 + 1)) {
            let j = choose|j: int| 0 <= j < s.len() && cell_view(s[j]) == (q.0 - 1, q.1 + 1);
            assert(q == shifted(cell_view(s[j]), cand_delta(2)));
            assert(covered(s, n, 0, q));
        } else if l.contains((q.0, q.1 + 1)) {
            let j = choose|j: int| 0 <= j < s.len() && cell_view(s[j]) == (q.0, q.1 + 1);
            assert(q == shifted(cell_view(s[j]), cand_delta(1)));
            assert(covered(s, n, 0, q));
        } else if l.contains((q.0 + 1, q.1 + 1)) {
            let j = choose|j: int| 0 <= j < s.len() && cell_view(s[j]) == (q.0 + 1, q.1 + 1);
            assert(q == shifted(cell_view(s[j]), cand_delta(0)));
            assert(covered(s, n, 0, q));
        } else {
            assert(live_neighbors(l, q) == 0);
            assert(false);
        }
    }
}

/// Advance the world by exactly one generation, in place.
///
/// `next` must carry the same population as `current` when the tick
/// begins (the double-buffer discipline); all reads are against the
/// pre-tick `current`, and at the end `current` is replaced by the
/// contents of the freshly built `next`.
pub fn tick(world: &mut World)
    requires
        old(world).current@ == old(world).next@,
        live_set_in_range(old(world).current@),
    ensures
        final(world).current@ == step(old(world).current@),
        final(world).next@ == final(world).current@,
        final(world).height == old(world).height,
        final(world).width == old(world).width,
{
    let ghost l = world.current@;
    let ghost s = world.current.cells@;
    let n = world.current.cells.len();
    let mut next = LiveSet::new();
    proof {
        assert forall|q: (int, int)|
            next@.contains(q) <==> (alive_next(l, q) && covered(s, 0, 0, q)) by {
            lemma_covered_none(s, q);
        }
    }
    let mut i: usize = 0;
    while i < n
        invariant
            0 <= i <= n,
            n == s.len(),
            world.current.cells@ == s,
            l == coords_of(s),
            live_set_in_range(l),
            forall|q: (int, int)|
                #[trigger] next@.contains(q) <==> (alive_next(l, q) && covered(s, i as int, 0, q)),
        decreases n - i,
    {
        let c = world.current.cells[i];
        proof {
            assert(cell_view(s[i as int]) == cell_view(c));
            assert(l.contains(cell_view(c)));
            assert(coord_in_range(cell_view(c)));
        }
        let mut k: usize = 0;
        while k < 9
            invariant
                0 <= k <= 9,
                0 <= i < n,
                n == s.len(),
                world.current.cells@ == s,
                l == coords_of(s),
                live_set_in_range(l),
                c == s[i as int],
                coord_in_range(cell_view(c)),
                forall|q: (int, int)|
                    #[trigger] next@.contains(q) <==> (alive_next(l, q) && covered(s, i as int, k as int, q)),
            decreases 9 - k,
        {
            let d = cand_offset(k);
            let p = (c.0 + d.0, c.1 + d.1);
            let ghost prev = next@;
            let ghost pv = cell_view(p);
            proof {
                assert(pv == shifted(cell_view(c), cand_delta(k as int)));
                assert(world.current@ == l);
            }
            if cell_alive_next(&world.current, p) {
                next.insert(p);
            }
            proof {
                assert forall|q: (int, int)|
                    next@.contains(q) <==> (alive_next(l, q) && covered(
                        s,
                        i as int,
                        k + 1,
                        q,
                    )) by {
                    lemma_covered_step(s, i as int, k as int, q);
                    assert(prev.contains(q) <==> (alive_next(l, q) && covered(
                        s,
                        i as int,
                        k as int,
                        q,
                    )));
                }
            }
            k += 1;
        }
        proof {
            assert forall|q: (int, int)|
                next@.contains(q) <==> (alive_next(l, q) && covered(s, i + 1, 0, q)) by {
                lemma_covered_row(s, i as int, q);
            }
        }
        i += 1;
    }
    proof {
        assert forall|q: (int, int)| next@.contains(q) <==> step(l).contains(q) by {
            if alive_next(l, q) {
                lemma_covered_full(s, q);
            }
        }
        assert(next@ =~= step(l));
    }
    world.next = next;
    world.current = world.next.clone();
}

/// The tight axis-aligned bounding box of the live cells, as
/// `(min_x, min_y, max_x, max_y)`: `None` exactly when the set is empty
/// (no finite box exists); otherwise every live cell lies within the box
/// and each of its four edges is touched by some live cell.
pub fn bounding_box(ls: &LiveSet) -> (r: Option<(isize, isize, isize, isize)>)
    ensures
        match r {
            None => ls@ == Set::<(int, int)>::empty(),
            Some(b) => {
                &&& forall|q: (int, int)| #[trigger]
                    ls@.contains(q) ==> b.0 <= q.0 <= b.2 && b.1 <= q.1 <= b.3
                &&& exists|q: (int, int)| #[trigger] ls@.contains(q) && q.0 == b.0
                &&& exists|q: (int, int)| #[trigger] ls@.contains(q) && q.1 == b.1
                &&& exists|q: (int, int)| #[trigger] ls@.contains(q) && q.0 == b.2
                &&& exists|q: (int, int)| #[trigger] ls@.contains(q) && q.1 == b.3
            },
        },
{
    let ghost s = ls.cells@;
    let n = ls.cells.len();
    if n == 0 {
        proof {
            assert(ls@ =~= Set::<(int, int)>::empty());
        }
        return None;
    }
    let first = ls.cells[0];
    let mut min_x = first.0;
    let mut min_y = first.1;
    let mut max_x = first.0;
    let mut max_y = first.1;
    let mut i: usize = 1;
    while i < n
        invariant
            1 <= i <= n,
            n == s.len(),
            ls.cells@ == s,
            forall|j: int|
                0 <= j < i ==> min_x <= (#[trigger] s[j]).0 <= max_x && min_y <= s[j].1 <= max_y,
            exists|j: int| 0 <= j < i && (#[trigger] s[j]).0 == min_x,
            exists|j: int| 0 <= j < i && (#[trigger] s[j]).1 == min_y,
            exists|j: int| 0 <= j < i && (#[trigger] s[j]).0 == max_x,
            exists|j: int| 0 <= j < i && (#[trigger] s[j]).1 == max_y,
        decreases n - i,
    {
        let e = ls.cells[i];
        if e.0 < min_x {
            min_x = e.0;
        }
        if e.0 > max_x {
            max_x = e.0;
        }
        if e.1 < min_y {
            min_y = e.1;
        }
        if e.1 > max_y {
            max_y = e.1;
        }
        proof {
            assert(s[i as int] == e);
        }
        i += 1;
    }
    proof {
        assert forall|q: (int, int)| #[trigger]
            ls@.contains(q) implies min_x <= q.0 <= max_x && min_y <= q.1 <= max_y by {
            let j = choose|j: int| 0 <= j < s.len() && cell_view(s[j]) == q;
            assert(min_x <= s[j].0 <= max_x && min_y <= s[j].1 <= max_y);
        }
        let jx0 = choose|j: int| 0 <= j < n && (#[trigger] s[j]).0 == min_x;
        assert(ls@.contains(cell_view(s[jx0])) && cell_view(s[jx0]).0 == min_x);
        let jy0 = choose|j: int| 0 <= j < n && (#[trigger] s[j]).1 == min_y;
        assert(ls@.contains(cell_view(s[jy0])) && cell_view(s[jy0]).1 == min_y);
        let jx1 = choose|j: int| 0 <= j < n && (#[trigger] s[j]).0 == max_x;
        assert(ls@.contains(cell_view(s[jx1])) && cell_view(s[jx1]).0 == max_x);
        let jy1 = choose|j: int| 0 <= j < n && (#[trigger] s[j]).1 == max_y;
        assert(ls@.contains(cell_view(s[jy1])) && cell_view(s[jy1]).1 == max_y);
    }
    Some((min_x, min_y, max_x, max_y))
}

fn floor_half(a: isize) -> (r: isize)
    ensures
        r as int == (a as int) / 2,
{
    match a.checked_div_euclid(2) {
        Some(q) => q,
        None => {
            proof {
                vstd::arithmetic::div_mod::lemma_fundamental_div_mod(a as int, 2);
                vstd::arithmetic::div_mod::lemma_mod_bound(a as int, 2);
                assert(false);
            }
            0
        },
    }
}

/// The viewport offset for one frame: the midpoint of the bounding box
/// (floor of the average on each axis) minus half the viewport dimension
/// on each axis; the result is the lattice coordinate that maps to the
/// viewport's top-left cell.
pub fn compute_viewport_offset(b: (isize, isize, isize, isize), width: usize, height: usize) -> (r:
    (isize, isize))
    requires
        isize::MIN <= b.0 + b.2 <= isize::MAX,
        isize::MIN <= b.1 + b.3 <= isize::MAX,
        width <= isize::MAX,
        height <= isize::MAX,
        isize::MIN <= (b.0 + b.2) / 2 - (width as int) / 2,
        isize::MIN <= (b.1 + b.3) / 2 - (height as int) / 2,
    ensures
        r.0 == (b.0 + b.2) / 2 - (width as int) / 2,
        r.1 == (b.1 + b.3) / 2 - (height as int) / 2,
{
    let sx = b.0 + b.2;
    let sy = b.1 + b.3;
    let cx = floor_half(sx);
    let cy = floor_half(sy);
    let half_w = width / 2;
    let half_h = height / 2;
    proof {
        vstd::arithmetic::div_mod::lemma_fundamental_div_mod(sx as int, 2);
        vstd::arithmetic::div_mod::lemma_mod_bound(sx as int, 2);
        vstd::arithmetic::div_mod::lemma_fundamental_div_mod(sy as int, 2);
        vstd::arithmetic::div_mod::lemma_mod_bound(sy as int, 2);
    }
    let ox = cx - (half_w as isize);
    let oy = cy - (half_h as isize);
    (ox, oy)
}

/// The viewport contents for one frame: `rows[y][x]` says whether the
/// cell at `(o_x + x, o_y + y)` is live in the current generation. The
/// caller draws the glyphs; nothing here mutates the world.
pub fn render_cells(world: &World, o_x: isize, o_y: isize) -> (rows: Vec<Vec<bool>>)
    requires
        world.width <= isize::MAX,
        world.height <= isize::MAX,
        o_x + world.width <= isize::MAX + 1,
        o_y + world.height <= isize::MAX + 1,
    ensures
        rows@.len() == world.height,
        forall|y: int| 0 <= y < world.height ==> (#[trigger] rows@[y])@.len() == world.width,
        forall|y: int, x: int|
            0 <= y < world.height && 0 <= x < world.width ==> (#[trigger] rows@[y]@[x])
                == world.current@.contains((o_x + x, o_y + y)),
{
    let mut rows: Vec<Vec<bool>> = Vec::new();
    let mut y: usize = 0;
    while y < world.height
        invariant
            0 <= y <= world.height,
            world.width <= isize::MAX,
            world.height <= isize::MAX,
            o_x + world.width <= isize::MAX + 1,
            o_y + world.height <= isize::MAX + 1,
            rows@.len() == y,
            forall|yy: int| 0 <= yy < y ==> (#[trigger] rows@[yy])@.len() == world.width,
            forall|yy: int, x: int|
                0 <= yy < y && 0 <= x < world.width ==> (#[trigger] rows@[yy]@[x])
                    == world.current@.contains((o_x + x, o_y + yy)),
        decreases world.height - y,
    {
        let mut row: Vec<bool> = Vec::new();
        let mut x: usize = 0;
        while x < world.width
            invariant
                0 <= x <= world.width,
                0 <= y < world.height,
                world.width <= isize::MAX,
                world.height <= isize::MAX,
                o_x + world.width <= isize::MAX + 1,
                o_y + world.height <= isize::MAX + 1,
                row@.len() == x,
                forall|xx: int|
                    0 <= xx < x ==> (#[trigger] row@[xx]) == world.current@.contains(
                        (o_x + xx, o_y + y),
                    ),
            decreases world.width - x,
        {
            let alive = world.current.contains((o_x + (x as isize), o_y + (y as isize)));
            row.push(alive);
            x += 1;
        }
        rows.push(row);
        y += 1;
    }
    rows
}

} // verus!
