use crate::map::{cell_index, lemma_cell_index_bounds, lemma_index_to_cell, tile_blocks, TileMap, TileType};
use vstd::prelude::*;

verus! {

/// Cost of a step to a cell in the same row or column: one, in
/// millionths.
pub const CARDINAL_COST: u32 = 1000000;

/// Cost of a diagonal step: the square root of two, in millionths,
/// rounded. The rounding changes no comparison between routes of up to
/// 200 steps of either kind, nor with the cap: `lemma_costs_compare`.
pub const DIAGONAL_COST: u32 = 1414214;

/// Routes that cost this much or more are not followed: 200, in
/// millionths.
pub const MAX_COST: u32 = 200000000;

/// The distance recorded for a cell that no route reaches.
pub const UNREACHED: u32 = 0xffff_ffff;

/// What `a` steps along a row or column and `b` diagonal steps cost.
pub open spec fn steps_cost(a: int, b: int) -> int {
    a * CARDINAL_COST + b * DIAGONAL_COST
}

/// Whether `a1` plus `b1` times the square root of two is less than `a2`
/// plus `b2` times the square root of two, decided in whole numbers.
pub open spec fn less_exactly(a1: int, b1: int, a2: int, b2: int) -> bool {
    let da = a2 - a1;
    let db = b1 - b2;
    if db <= 0 {
        if da >= 0 {
            da > 0 || db < 0
        } else {
            2 * (db * db) > da * da
        }
    } else {
        da > 0 && 2 * (db * db) < da * da
    }
}

/// No square is twice a square: the square root of two is no fraction.
pub proof fn lemma_no_square_is_twice_a_square(a: int, b: int)
    requires
        a >= 0,
        b > 0,
    ensures
        a * a != 2 * (b * b),
    decreases a,
{
    if a * a == 2 * (b * b) {
        let q = a / 2;
        if a % 2 == 1 {
            assert(a * a == 4 * (q * q) + 4 * q + 1) by (nonlinear_arith)
                requires
                    a == 2 * q + 1,
            ;
            assert(false);
        }
        assert(a * a == 4 * (q * q)) by (nonlinear_arith)
            requires
                a == 2 * q,
        ;
        assert(b * b == 2 * (q * q));
        assert(q > 0) by (nonlinear_arith)
            requires
                b * b == 2 * (q * q),
                b > 0,
                q >= 0,
        ;
        assert(b < a) by (nonlinear_arith)
            requires
                a * a == 2 * (b * b),
                b > 0,
                a >= 0,
        ;
        lemma_no_square_is_twice_a_square(b, q);
    }
}

/// Of up to 200 steps each, `x` diagonal steps cost less than `y` steps
/// along a row or column exactly where `x` times the square root of two
/// is less than `y`; and they never cost the same.
pub proof fn lemma_diagonal_against_cardinal(x: int, y: int)
    requires
        1 <= x <= 200,
        1 <= y <= 200,
    ensures
        x * DIAGONAL_COST < y * CARDINAL_COST <==> 2 * (x * x) < y * y,
        x * DIAGONAL_COST != y * CARDINAL_COST,
{
    let u = x * 1414214;
    let v = y * 1000000;
    let xx = x * x;
    let yy = y * y;
    assert(u * u == 2000001237796 * xx) by (nonlinear_arith)
        requires
            u == x * 1414214,
            xx == x * x,
    ;
    assert(v * v == 1000000000000 * yy) by (nonlinear_arith)
        requires
            v == y * 1000000,
            yy == y * y,
    ;
    assert(1 <= xx <= 40000) by (nonlinear_arith)
        requires
            1 <= x <= 200,
            xx == x * x,
    ;
    assert(1 <= yy) by (nonlinear_arith)
        requires
            1 <= y,
            yy == y * y,
    ;
    lemma_no_square_is_twice_a_square(y, x);
    if u < v {
        assert(u * u < v * v) by (nonlinear_arith)
            requires
                0 < u < v,
        ;
    } else {
        assert(u * u >= v * v) by (nonlinear_arith)
            requires
                u >= v > 0,
        ;
    }
}

/// The rounded costs order routes as their true lengths do: of routes of
/// up to 200 steps of either kind, one costs less than another exactly
/// where its true length, with the square root of two for a diagonal
/// step, is less. With 200 steps along a row for the second route this is
/// the comparison with the cap.
pub proof fn lemma_costs_compare(a1: int, b1: int, a2: int, b2: int)
    requires
        0 <= a1 <= 200,
        0 <= b1 <= 200,
        0 <= a2 <= 200,
        0 <= b2 <= 200,
    ensures
        steps_cost(a1, b1) < steps_cost(a2, b2) <==> less_exactly(a1, b1, a2, b2),
{
    let da = a2 - a1;
    let db = b1 - b2;
    assert((steps_cost(a1, b1) < steps_cost(a2, b2)) == (db * 1414214 < da * 1000000));
    if db > 0 && da > 0 {
        lemma_diagonal_against_cardinal(db, da);
    } else if db < 0 && da < 0 {
        lemma_diagonal_against_cardinal(-db, -da);
        lemma_no_square_is_twice_a_square(-da, -db);
        assert((-db) * (-db) == db * db) by (nonlinear_arith);
        assert((-da) * (-da) == da * da) by (nonlinear_arith);
    } else if db == 0 && da < 0 {
        assert(db * db == 0) by (nonlinear_arith)
            requires
                db == 0,
        ;
        assert(da * da > 0) by (nonlinear_arith)
            requires
                da < 0,
        ;
    }
}

/// Which cells of a `width` by `height` map can be entered.
pub struct Terrain {
    pub blocked: Seq<bool>,
    pub width: int,
    pub height: int,
}

/// The terrain of a map whose blocked cells are exactly its walls and voids.
pub open spec fn terrain_of(tiles: Seq<TileType>, width: int, height: int) -> Terrain {
    Terrain { blocked: Seq::new(tiles.len(), |i: int| tile_blocks(tiles[i])), width, height }
}

impl Terrain {
    /// There is one flag for every cell.
    pub open spec fn wf(self) -> bool {
        &&& self.width > 0
        &&& self.height > 0
        &&& self.blocked.len() == self.width * self.height
    }

    /// Cell `i` can be entered: it is a cell of the map and not blocked.
    pub open spec fn open(self, i: int) -> bool {
        &&& 0 <= i < self.blocked.len()
        &&& !self.blocked[i]
    }

    /// `b` is one of the eight cells around `a`.
    pub open spec fn adjacent(self, a: int, b: int) -> bool {
        &&& a != b
        &&& -1 <= b % self.width - a % self.width <= 1
        &&& -1 <= b / self.width - a / self.width <= 1
    }

    /// One move: from any cell `a` to an adjacent cell `b` that can be entered.
    pub open spec fn step(self, a: int, b: int) -> bool {
        &&& 0 <= a < self.blocked.len()
        &&& self.adjacent(a, b)
        &&& self.open(b)
    }

    /// What a step from `a` to the adjacent cell `b` costs.
    pub open spec fn step_cost(self, a: int, b: int) -> int {
        if a % self.width == b % self.width || a / self.width == b / self.width {
            CARDINAL_COST as int
        } else {
            DIAGONAL_COST as int
        }
    }

    /// `p` lists the cells of a walk from `from` to `to`, one step at a time.
    pub open spec fn is_route(self, p: Seq<int>, from: int, to: int) -> bool {
        &&& p.len() >= 1
        &&& p[0] == from
        &&& p.last() == to
        &&& 0 <= from < self.blocked.len()
        &&& forall|k: int| 0 <= k < p.len() - 1 ==> self.step(#[trigger] p[k], p[k + 1])
    }

    /// The summed cost of the steps of `p`.
    pub open spec fn route_cost(self, p: Seq<int>) -> int
        decreases p.len(),
    {
        if p.len() <= 1 {
            0
        } else {
            self.route_cost(p.drop_last()) + self.step_cost(p[p.len() - 2], p.last())
        }
    }

    /// How many steps of `p` are diagonal.
    pub open spec fn diagonal_steps(self, p: Seq<int>) -> int
        decreases p.len(),
    {
        if p.len() <= 1 {
            0
        } else {
            self.diagonal_steps(p.drop_last()) + if self.step_cost(p[p.len() - 2], p.last()) == DIAGONAL_COST {
                1int
            } else {
                0int
            }
        }
    }

    /// A route costs what its steps along rows and columns and its
    /// diagonal steps cost.
    pub proof fn lemma_route_cost_counts(self, p: Seq<int>)
        requires
            p.len() >= 1,
        ensures
            0 <= self.diagonal_steps(p) <= p.len() - 1,
            self.route_cost(p) == steps_cost(p.len() - 1 - self.diagonal_steps(p), self.diagonal_steps(p)),
        decreases p.len(),
    {
        if p.len() > 1 {
            self.lemma_route_cost_counts(p.drop_last());
        }
    }

    /// A route of steps along rows and columns only leads from `from` to
    /// `to`.
    pub open spec fn straight_linked(self, from: int, to: int) -> bool {
        exists|p: Seq<int>| #[trigger] self.is_route(p, from, to) && self.diagonal_steps(p) == 0
    }

    /// Every cell is linked to itself.
    pub proof fn lemma_straight_here(self, at: int)
        requires
            0 <= at < self.blocked.len(),
        ensures
            self.straight_linked(at, at),
    {
        assert(self.is_route(seq![at], at, at));
    }

    /// A route along rows and columns can be taken one such step further.
    pub proof fn lemma_straight_on(self, from: int, to: int, next: int)
        requires
            self.straight_linked(from, to),
            self.step(to, next),
            self.step_cost(to, next) == CARDINAL_COST,
        ensures
            self.straight_linked(from, next),
    {
        let p = choose|p: Seq<int>| #[trigger] self.is_route(p, from, to) && self.diagonal_steps(p) == 0;
        self.lemma_route_extend(p, from, to, next);
        let q = p.push(next);
        assert(q.drop_last() =~= p);
        assert(self.diagonal_steps(q) == 0);
    }

    /// Some route from `from` to `to` costs exactly `c`.
    pub open spec fn reaches(self, from: int, to: int, c: int) -> bool {
        exists|p: Seq<int>| #[trigger] self.is_route(p, from, to) && self.route_cost(p) == c
    }

    /// Some route from `from` to `to` costs less than `cap`.
    pub open spec fn connected(self, from: int, to: int, cap: int) -> bool {
        exists|c: int| c < cap && #[trigger] self.reaches(from, to, c)
    }

    /// `d` is the cost of a cheapest route from `from` to `to`.
    pub open spec fn is_distance(self, from: int, to: int, d: int) -> bool {
        &&& self.reaches(from, to, d)
        &&& forall|c: int| #[trigger] self.reaches(from, to, c) ==> d <= c
    }

    /// A route is never cheaper than nothing.
    pub proof fn lemma_route_cost_nonnegative(self, p: Seq<int>)
        ensures
            self.route_cost(p) >= 0,
            p.len() >= 2 ==> self.route_cost(p) >= CARDINAL_COST,
        decreases p.len(),
    {
        if p.len() > 1 {
            self.lemma_route_cost_nonnegative(p.drop_last());
        }
    }

    /// Extending a route by one step adds that step's cost.
    pub proof fn lemma_route_extend(self, p: Seq<int>, from: int, to: int, next: int)
        requires
            self.is_route(p, from, to),
            self.step(to, next),
        ensures
            self.is_route(p.push(next), from, next),
            self.route_cost(p.push(next)) == self.route_cost(p) + self.step_cost(to, next),
    {
        let q = p.push(next);
        assert(q.drop_last() =~= p);
        assert forall|k: int| 0 <= k < q.len() - 1 implies self.step(#[trigger] q[k], q[k + 1]) by {
            if k < p.len() - 1 {
                assert(self.step(p[k], p[k + 1]));
            }
        }
    }

    /// A route without its last step is a route to the cell before, and
    /// costs that step less.
    pub proof fn lemma_route_shorten(self, p: Seq<int>, from: int, to: int)
        requires
            self.is_route(p, from, to),
            p.len() >= 2,
        ensures
            self.is_route(p.drop_last(), from, p[p.len() - 2]),
            self.step(p[p.len() - 2], to),
            self.route_cost(p) == self.route_cost(p.drop_last()) + self.step_cost(p[p.len() - 2], to),
    {
        let q = p.drop_last();
        assert forall|k: int| 0 <= k < q.len() - 1 implies self.step(#[trigger] q[k], q[k + 1]) by {
            assert(self.step(p[k], p[k + 1]));
        }
        assert(self.step(p[p.len() - 2], p[p.len() - 2 + 1]));
    }
}

impl Terrain {
    /// The cost of a cheapest route from `from` to `to`, where there is a
    /// route at all.
    pub open spec fn distance(self, from: int, to: int) -> int {
        choose|d: int| self.is_distance(from, to, d)
    }

    /// The first steps of a route are a route, and cost no more than the
    /// whole.
    pub proof fn lemma_route_prefix(self, p: Seq<int>, from: int, to: int, k: int)
        requires
            self.is_route(p, from, to),
            0 <= k < p.len(),
        ensures
            self.is_route(p.subrange(0, k + 1), from, p[k]),
            self.route_cost(p.subrange(0, k + 1)) <= self.route_cost(p),
        decreases p.len(),
    {
        if k == p.len() - 1 {
            assert(p.subrange(0, k + 1) =~= p);
        } else {
            self.lemma_route_shorten(p, from, to);
            let q = p.drop_last();
            self.lemma_route_prefix(q, from, p[p.len() - 2], k);
            assert(q.subrange(0, k + 1) =~= p.subrange(0, k + 1));
        }
    }

    /// A route stays a route, at the same cost, on any terrain of the same
    /// size on which the cells it enters are not blocked.
    pub proof fn lemma_route_transfer(self, other: Terrain, p: Seq<int>, from: int, to: int)
        requires
            self.width == other.width,
            self.blocked.len() == other.blocked.len(),
            self.is_route(p, from, to),
            forall|k: int| 1 <= k < p.len() ==> !other.blocked[#[trigger] p[k]],
        ensures
            other.is_route(p, from, to),
            other.route_cost(p) == self.route_cost(p),
        decreases p.len(),
    {
        assert forall|k: int| 0 <= k < p.len() - 1 implies other.step(#[trigger] p[k], p[k + 1]) by {
            assert(self.step(p[k], p[k + 1]));
            assert(!other.blocked[p[k + 1]]);
        }
        if p.len() >= 2 {
            self.lemma_route_shorten(p, from, to);
            let q = p.drop_last();
            assert forall|k: int| 1 <= k < q.len() implies !other.blocked[#[trigger] q[k]] by {
                assert(q[k] == p[k]);
            }
            self.lemma_route_transfer(other, q, from, p[p.len() - 2]);
        }
    }

    /// Only the starting cell is reached at no cost.
    pub proof fn lemma_free_route_stays(self, from: int, to: int, c: int)
        requires
            self.reaches(from, to, c),
        ensures
            c >= 0,
            to != from ==> c >= CARDINAL_COST,
    {
        let p = choose|p: Seq<int>| #[trigger] self.is_route(p, from, to) && self.route_cost(p) == c;
        self.lemma_route_cost_nonnegative(p);
    }
}

impl Terrain {
    /// Some route leads from `from` to `to`, at whatever cost.
    pub open spec fn linked(self, from: int, to: int) -> bool {
        exists|c: int| #[trigger] self.reaches(from, to, c)
    }

    /// Every cell is linked to itself.
    pub proof fn lemma_linked_here(self, at: int)
        requires
            0 <= at < self.blocked.len(),
        ensures
            self.linked(at, at),
    {
        let p = seq![at];
        assert(self.is_route(p, at, at));
        assert(self.reaches(at, at, self.route_cost(p)));
    }

    /// A link can be extended by one step.
    pub proof fn lemma_linked_step(self, from: int, via: int, to: int)
        requires
            self.linked(from, via),
            self.step(via, to),
        ensures
            self.linked(from, to),
    {
        let c = choose|c: int| #[trigger] self.reaches(from, via, c);
        let p = choose|p: Seq<int>| #[trigger] self.is_route(p, from, via) && self.route_cost(p) == c;
        self.lemma_route_extend(p, from, via, to);
        assert(self.reaches(from, to, self.route_cost(p.push(to))));
    }

    /// A link can be extended by a route.
    pub proof fn lemma_linked_along(self, from: int, via: int, to: int, p: Seq<int>)
        requires
            self.linked(from, via),
            self.is_route(p, via, to),
        ensures
            self.linked(from, to),
        decreases p.len(),
    {
        if p.len() >= 2 {
            self.lemma_route_shorten(p, via, to);
            self.lemma_linked_along(from, via, p[p.len() - 2], p.drop_last());
            self.lemma_linked_step(from, p[p.len() - 2], to);
        }
    }

    /// Links can be joined end to end.
    pub proof fn lemma_linked_trans(self, from: int, via: int, to: int)
        requires
            self.linked(from, via),
            self.linked(via, to),
        ensures
            self.linked(from, to),
    {
        let c = choose|c: int| #[trigger] self.reaches(via, to, c);
        let p = choose|p: Seq<int>| #[trigger] self.is_route(p, via, to) && self.route_cost(p) == c;
        self.lemma_linked_along(from, via, to, p);
    }

    /// A route can be walked back, where its first cell can be entered.
    pub proof fn lemma_linked_back(self, from: int, to: int)
        requires
            self.linked(from, to),
            self.open(from),
        ensures
            self.linked(to, from),
    {
        let c = choose|c: int| #[trigger] self.reaches(from, to, c);
        let p = choose|p: Seq<int>| #[trigger] self.is_route(p, from, to) && self.route_cost(p) == c;
        let n = p.len() as int;
        let q = Seq::new(p.len(), |k: int| p[n - 1 - k]);
        assert forall|k: int| 0 <= k < n implies self.open(#[trigger] p[k]) by {
            if k > 0 {
                assert(self.step(p[k - 1], p[k - 1 + 1]));
            }
        }
        assert forall|k: int| 0 <= k < q.len() - 1 implies self.step(#[trigger] q[k], q[k + 1]) by {
            let a = p[n - 2 - k];
            let b = p[n - 1 - k];
            assert(self.step(p[n - 2 - k], p[n - 2 - k + 1]));
            assert(self.open(p[n - 1 - k]));
            assert(self.open(p[n - 2 - k]));
        }
        assert(self.open(p[n - 1]));
        assert(self.is_route(q, to, from));
        assert(self.reaches(to, from, self.route_cost(q)));
    }

    /// The cell at `(x, y)` is on the map and can be entered.
    pub open spec fn open_at(self, x: int, y: int) -> bool {
        &&& 0 <= x < self.width
        &&& 0 <= y < self.height
        &&& !self.blocked[cell_index(self.width, x, y)]
    }

    /// A cell that can be entered is linked to the cell beside it, in
    /// whatever of the eight directions, once that can be reached.
    pub proof fn lemma_linked_beside(self, from: int, x: int, y: int, dx: int, dy: int)
        requires
            self.wf(),
            0 <= x < self.width,
            0 <= y < self.height,
            self.linked(from, cell_index(self.width, x, y)),
            -1 <= dx <= 1,
            -1 <= dy <= 1,
            dx != 0 || dy != 0,
            self.open_at(x + dx, y + dy),
        ensures
            self.linked(from, cell_index(self.width, x + dx, y + dy)),
    {
        lemma_cell_index_bounds(self.width, self.height, x, y);
        lemma_cell_index_bounds(self.width, self.height, x + dx, y + dy);
        let a = cell_index(self.width, x, y);
        let b = cell_index(self.width, x + dx, y + dy);
        assert(self.step(a, b));
        self.lemma_linked_step(from, a, b);
    }

    /// Along a row of cells that can all be entered, every cell is linked
    /// to what the first is linked to. The row runs from column `xa` to
    /// column `xb`, in whichever direction.
    pub proof fn lemma_linked_row(self, from: int, y: int, xa: int, xb: int)
        requires
            self.wf(),
            0 <= xa < self.width,
            0 <= y < self.height,
            self.linked(from, cell_index(self.width, xa, y)),
            forall|x: int| spanned(xa, xb, x) && x != xa ==> #[trigger] self.open_at(x, y),
        ensures
            forall|x: int| spanned(xa, xb, x) ==> self.linked(from, #[trigger] cell_index(self.width, x, y)),
        decreases
                if xb >= xa {
                    xb - xa
                } else {
                    xa - xb
                },
    {
        if xb != xa {
            let before = if xb > xa {
                xb - 1
            } else {
                xb + 1
            };
            assert forall|x: int| spanned(xa, before, x) && x != xa implies #[trigger] self.open_at(x, y) by {
                assert(spanned(xa, xb, x));
            }
            self.lemma_linked_row(from, y, xa, before);
            assert(spanned(xa, before, before));
            assert(self.linked(from, cell_index(self.width, before, y)));
            assert(spanned(xa, xb, xb));
            assert(self.open_at(xb, y));
            if before != xa {
                assert(spanned(xa, xb, before));
                assert(self.open_at(before, y));
            }
            self.lemma_linked_beside(from, before, y, xb - before, 0);
            assert forall|x: int| spanned(xa, xb, x) implies self.linked(
                from,
                #[trigger] cell_index(self.width, x, y),
            ) by {
                if x != xb {
                    assert(spanned(xa, before, x));
                }
            }
        }
    }

    /// Along a column of cells that can all be entered, every cell is
    /// linked to what the first is linked to. The column runs from row
    /// `ya` to row `yb`, in whichever direction.
    pub proof fn lemma_linked_column(self, from: int, x: int, ya: int, yb: int)
        requires
            self.wf(),
            0 <= x < self.width,
            0 <= ya < self.height,
            self.linked(from, cell_index(self.width, x, ya)),
            forall|y: int| spanned(ya, yb, y) && y != ya ==> #[trigger] self.open_at(x, y),
        ensures
            forall|y: int| spanned(ya, yb, y) ==> self.linked(from, #[trigger] cell_index(self.width, x, y)),
        decreases
                if yb >= ya {
                    yb - ya
                } else {
                    ya - yb
                },
    {
        if yb != ya {
            let before = if yb > ya {
                yb - 1
            } else {
                yb + 1
            };
            assert forall|y: int| spanned(ya, before, y) && y != ya implies #[trigger] self.open_at(x, y) by {
                assert(spanned(ya, yb, y));
            }
            self.lemma_linked_column(from, x, ya, before);
            assert(spanned(ya, before, before));
            assert(self.linked(from, cell_index(self.width, x, before)));
            assert(spanned(ya, yb, yb));
            assert(self.open_at(x, yb));
            if before != ya {
                assert(spanned(ya, yb, before));
                assert(self.open_at(x, before));
            }
            self.lemma_linked_beside(from, x, before, 0, yb - before);
            assert forall|y: int| spanned(ya, yb, y) implies self.linked(
                from,
                #[trigger] cell_index(self.width, x, y),
            ) by {
                if y != yb {
                    assert(spanned(ya, before, y));
                }
            }
        }
    }

    /// In a block of cells that can all be entered, every cell is linked
    /// to what one of them is linked to.
    pub proof fn lemma_linked_block(self, from: int, x_lo: int, x_hi: int, y_lo: int, y_hi: int, ax: int, ay: int)
        requires
            self.wf(),
            x_lo <= ax <= x_hi,
            y_lo <= ay <= y_hi,
            self.linked(from, cell_index(self.width, ax, ay)),
            forall|x: int, y: int| x_lo <= x <= x_hi && y_lo <= y <= y_hi ==> #[trigger] self.open_at(x, y),
        ensures
            forall|x: int, y: int|
                x_lo <= x <= x_hi && y_lo <= y <= y_hi ==> self.linked(from, #[trigger] cell_index(self.width, x, y)),
    {
        assert(self.open_at(ax, ay));
        assert forall|x: int, y: int| x_lo <= x <= x_hi && y_lo <= y <= y_hi implies self.linked(
            from,
            #[trigger] cell_index(self.width, x, y),
        ) by {
            assert forall|cx: int| spanned(ax, x, cx) && cx != ax implies #[trigger] self.open_at(cx, ay) by {}
            self.lemma_linked_row(from, ay, ax, x);
            assert(spanned(ax, x, x));
            assert(self.linked(from, cell_index(self.width, x, ay)));
            assert(self.open_at(x, ay));
            assert forall|cy: int| spanned(ay, y, cy) && cy != ay implies #[trigger] self.open_at(x, cy) by {}
            self.lemma_linked_column(from, x, ay, y);
            assert(spanned(ay, y, y));
        }
    }

    /// Two cells joined by an elbow of cells that can be entered are
    /// linked. The elbow runs from `(ax, ay)` along its row to column `bx`
    /// and on along that column to `(bx, by)`; the cell in the bend need
    /// not be open when the run comes back towards it from further on.
    pub proof fn lemma_linked_elbow(self, from: int, ax: int, ay: int, bx: int, by: int)
        requires
            self.wf(),
            0 <= ax < self.width,
            0 <= ay < self.height,
            self.linked(from, cell_index(self.width, ax, ay)),
            self.open_at(bx, by),
            self.open_at(ax, ay),
            forall|x: int| lower(ax, bx) < x <= upper(ax, bx) ==> #[trigger] self.open_at(x, ay),
            forall|y: int| lower(ay, by) < y <= upper(ay, by) ==> #[trigger] self.open_at(bx, y),
        ensures
            forall|x: int|
                lower(ax, bx) < x <= upper(ax, bx) ==> self.linked(from, #[trigger] cell_index(self.width, x, ay)),
            forall|y: int|
                lower(ay, by) < y <= upper(ay, by) ==> self.linked(from, #[trigger] cell_index(self.width, bx, y)),
            self.linked(from, cell_index(self.width, bx, by)),
    {
        if ax <= bx {
            // The row runs away from the start and reaches the bend.
            assert forall|x: int| spanned(ax, bx, x) && x != ax implies #[trigger] self.open_at(x, ay) by {}
            self.lemma_linked_row(from, ay, ax, bx);
            assert(spanned(ax, bx, bx));
            assert(self.linked(from, cell_index(self.width, bx, ay)));
            assert forall|x: int| lower(ax, bx) < x <= upper(ax, bx) implies self.linked(
                from,
                #[trigger] cell_index(self.width, x, ay),
            ) by {
                assert(spanned(ax, bx, x));
            }
            self.lemma_column_from_bend(from, bx, ay, by);
        } else {
            // The row is carved from the bend's neighbour up to the start.
            assert forall|x: int| spanned(ax, bx + 1, x) && x != ax implies #[trigger] self.open_at(x, ay) by {}
            self.lemma_linked_row(from, ay, ax, bx + 1);
            assert forall|x: int| lower(ax, bx) < x <= upper(ax, bx) implies self.linked(
                from,
                #[trigger] cell_index(self.width, x, ay),
            ) by {
                assert(spanned(ax, bx + 1, x));
            }
            assert(spanned(ax, bx + 1, bx + 1));
            assert(self.linked(from, cell_index(self.width, bx + 1, ay)));
            if ay == by {
                self.lemma_linked_beside(from, bx + 1, ay, -1, 0);
            } else if ay < by {
                assert(self.open_at(bx, ay + 1));
                self.lemma_linked_beside(from, bx + 1, ay, -1, 1);
                assert forall|y: int| spanned(ay + 1, by, y) && y != ay + 1 implies #[trigger] self.open_at(
                    bx,
                    y,
                ) by {}
                self.lemma_linked_column(from, bx, ay + 1, by);
                assert forall|y: int| lower(ay, by) < y <= upper(ay, by) implies self.linked(
                    from,
                    #[trigger] cell_index(self.width, bx, y),
                ) by {
                    assert(spanned(ay + 1, by, y));
                }
                assert(spanned(ay + 1, by, by));
            } else {
                assert(self.open_at(bx, ay));
                self.lemma_linked_beside(from, bx + 1, ay, -1, 0);
                self.lemma_column_from_bend(from, bx, ay, by);
            }
        }
    }

    /// The same for an elbow that runs from `(ax, ay)` along its column
    /// to row `by` first and on along that row to `(bx, by)`.
    pub proof fn lemma_linked_elbow_turned(self, from: int, ax: int, ay: int, bx: int, by: int)
        requires
            self.wf(),
            0 <= ax < self.width,
            0 <= ay < self.height,
            self.linked(from, cell_index(self.width, ax, ay)),
            self.open_at(bx, by),
            self.open_at(ax, ay),
            forall|y: int| lower(ay, by) < y <= upper(ay, by) ==> #[trigger] self.open_at(ax, y),
            forall|x: int| lower(ax, bx) < x <= upper(ax, bx) ==> #[trigger] self.open_at(x, by),
        ensures
            forall|y: int|
                lower(ay, by) < y <= upper(ay, by) ==> self.linked(from, #[trigger] cell_index(self.width, ax, y)),
            forall|x: int|
                lower(ax, bx) < x <= upper(ax, bx) ==> self.linked(from, #[trigger] cell_index(self.width, x, by)),
            self.linked(from, cell_index(self.width, bx, by)),
    {
        if ay <= by {
            assert forall|y: int| spanned(ay, by, y) && y != ay implies #[trigger] self.open_at(ax, y) by {}
            self.lemma_linked_column(from, ax, ay, by);
            assert(spanned(ay, by, by));
            assert(self.linked(from, cell_index(self.width, ax, by)));
            assert forall|y: int| lower(ay, by) < y <= upper(ay, by) implies self.linked(
                from,
                #[trigger] cell_index(self.width, ax, y),
            ) by {
                assert(spanned(ay, by, y));
            }
            self.lemma_row_from_bend(from, by, ax, bx);
        } else {
            assert forall|y: int| spanned(ay, by + 1, y) && y != ay implies #[trigger] self.open_at(ax, y) by {}
            self.lemma_linked_column(from, ax, ay, by + 1);
            assert forall|y: int| lower(ay, by) < y <= upper(ay, by) implies self.linked(
                from,
                #[trigger] cell_index(self.width, ax, y),
            ) by {
                assert(spanned(ay, by + 1, y));
            }
            assert(spanned(ay, by + 1, by + 1));
            assert(self.linked(from, cell_index(self.width, ax, by + 1)));
            if ax == bx {
                self.lemma_linked_beside(from, ax, by + 1, 0, -1);
            } else if ax < bx {
                assert(self.open_at(ax + 1, by));
                self.lemma_linked_beside(from, ax, by + 1, 1, -1);
                assert forall|x: int| spanned(ax + 1, bx, x) && x != ax + 1 implies #[trigger] self.open_at(
                    x,
                    by,
                ) by {}
                self.lemma_linked_row(from, by, ax + 1, bx);
                assert forall|x: int| lower(ax, bx) < x <= upper(ax, bx) implies self.linked(
                    from,
                    #[trigger] cell_index(self.width, x, by),
                ) by {
                    assert(spanned(ax + 1, bx, x));
                }
                assert(spanned(ax + 1, bx, bx));
            } else {
                assert(self.open_at(ax, by));
                self.lemma_linked_beside(from, ax, by + 1, 0, -1);
                self.lemma_row_from_bend(from, by, ax, bx);
            }
        }
    }

    /// The row of a turned elbow, once its bend is linked.
    proof fn lemma_row_from_bend(self, from: int, by: int, ax: int, bx: int)
        requires
            self.wf(),
            0 <= ax < self.width,
            0 <= by < self.height,
            self.linked(from, cell_index(self.width, ax, by)),
            self.open_at(bx, by),
            forall|x: int| lower(ax, bx) < x <= upper(ax, bx) ==> #[trigger] self.open_at(x, by),
        ensures
            forall|x: int|
                lower(ax, bx) < x <= upper(ax, bx) ==> self.linked(from, #[trigger] cell_index(self.width, x, by)),
            self.linked(from, cell_index(self.width, bx, by)),
    {
        if ax > bx {
            assert(self.open_at(ax, by));
        }
        assert forall|x: int| spanned(ax, bx, x) && x != ax implies #[trigger] self.open_at(x, by) by {}
        self.lemma_linked_row(from, by, ax, bx);
        assert forall|x: int| lower(ax, bx) < x <= upper(ax, bx) implies self.linked(
            from,
            #[trigger] cell_index(self.width, x, by),
        ) by {
            assert(spanned(ax, bx, x));
        }
        assert(spanned(ax, bx, bx));
    }

    /// The column of an elbow, once its bend is linked.
    proof fn lemma_column_from_bend(self, from: int, bx: int, ay: int, by: int)
        requires
            self.wf(),
            0 <= bx < self.width,
            0 <= ay < self.height,
            self.linked(from, cell_index(self.width, bx, ay)),
            self.open_at(bx, by),
            forall|y: int| lower(ay, by) < y <= upper(ay, by) ==> #[trigger] self.open_at(bx, y),
        ensures
            forall|y: int|
                lower(ay, by) < y <= upper(ay, by) ==> self.linked(from, #[trigger] cell_index(self.width, bx, y)),
            self.linked(from, cell_index(self.width, bx, by)),
    {
        if ay <= by {
            assert forall|y: int| spanned(ay, by, y) && y != ay implies #[trigger] self.open_at(bx, y) by {}
            self.lemma_linked_column(from, bx, ay, by);
            assert forall|y: int| lower(ay, by) < y <= upper(ay, by) implies self.linked(
                from,
                #[trigger] cell_index(self.width, bx, y),
            ) by {
                assert(spanned(ay, by, y));
            }
            assert(spanned(ay, by, by));
        } else {
            // The column is carved from the cell below the end up to the bend.
            assert(self.open_at(bx, ay));
            assert forall|y: int| spanned(ay, by, y) && y != ay implies #[trigger] self.open_at(bx, y) by {}
            self.lemma_linked_column(from, bx, ay, by);
            assert forall|y: int| lower(ay, by) < y <= upper(ay, by) implies self.linked(
                from,
                #[trigger] cell_index(self.width, bx, y),
            ) by {
                assert(spanned(ay, by, y));
            }
            assert(spanned(ay, by, by));
        }
    }
}

/// `v` lies between `a` and `b`, whichever of the two is smaller.
pub open spec fn spanned(a: int, b: int, v: int) -> bool {
    (a <= v <= b) || (b <= v <= a)
}

/// The smaller of two numbers.
pub open spec fn lower(a: int, b: int) -> int {
    if a <= b {
        a
    } else {
        b
    }
}

/// The larger of two numbers.
pub open spec fn upper(a: int, b: int) -> int {
    if a <= b {
        b
    } else {
        a
    }
}

/// Links survive a change of tiles that blocks no cell that could be
/// entered.
pub proof fn lemma_links_stay(
    before: Seq<TileType>,
    after: Seq<TileType>,
    width: int,
    height: int,
    from: int,
    to: int,
)
    requires
        before.len() == after.len(),
        terrain_of(before, width, height).linked(from, to),
        forall|j: int| 0 <= j < before.len() && !tile_blocks(#[trigger] before[j]) ==> !tile_blocks(after[j]),
    ensures
        terrain_of(after, width, height).linked(from, to),
{
    let t = terrain_of(before, width, height);
    let t2 = terrain_of(after, width, height);
    let c = choose|c: int| #[trigger] t.reaches(from, to, c);
    let p = choose|p: Seq<int>| #[trigger] t.is_route(p, from, to) && t.route_cost(p) == c;
    assert forall|k: int| 1 <= k < p.len() implies !t2.blocked[#[trigger] p[k]] by {
        assert(t.step(p[k - 1], p[k - 1 + 1]));
        assert(!tile_blocks(before[p[k]]));
    }
    t.lemma_route_transfer(t2, p, from, to);
    assert(t2.reaches(from, to, c));
}

/// What a distance field says of one cell: its entry is finite exactly when
/// a route cheaper than `cap` reaches the cell, and is then the distance.
pub proof fn lemma_field_meaning(t: Terrain, start: int, cap: int, dist: Seq<u32>, i: int)
    requires
        is_field(t, start, cap, dist),
        0 <= i < dist.len(),
        cap <= UNREACHED,
    ensures
        dist[i] != UNREACHED <==> t.connected(start, i, cap),
        dist[i] != UNREACHED ==> t.is_distance(start, i, dist[i] as int) && t.distance(start, i) == dist[i],
{
    if dist[i] != UNREACHED {
        assert(t.reaches(start, i, dist[i] as int));
        assert(t.is_distance(start, i, dist[i] as int));
        let d = t.distance(start, i);
        assert(t.is_distance(start, i, d));
    } else {
        if t.connected(start, i, cap) {
            let c = choose|c: int| c < cap && #[trigger] t.reaches(start, i, c);
            assert(dist[i] <= c);
        }
    }
}

impl TileMap {
    /// The terrain given by the map's `blocked` flags.
    pub open spec fn terrain(&self) -> Terrain {
        Terrain { blocked: self.blocked@, width: self.width as int, height: self.height as int }
    }
}

/// Sum of all entries.
pub open spec fn total(s: Seq<u32>) -> int
    decreases s.len(),
{
    if s.len() == 0 {
        0
    } else {
        total(s.drop_last()) + s.last()
    }
}

proof fn lemma_total_update(s: Seq<u32>, i: int, v: u32)
    requires
        0 <= i < s.len(),
    ensures
        total(s.update(i, v)) == total(s) - s[i] + v,
        total(s) >= 0,
    decreases s.len(),
{
    lemma_total_nonnegative(s);
    let t = s.update(i, v);
    if i == s.len() - 1 {
        assert(t.drop_last() =~= s.drop_last());
    } else {
        assert(t.drop_last() =~= s.drop_last().update(i, v));
        lemma_total_update(s.drop_last(), i, v);
    }
}

proof fn lemma_total_nonnegative(s: Seq<u32>)
    ensures
        total(s) >= 0,
    decreases s.len(),
{
    if s.len() > 0 {
        lemma_total_nonnegative(s.drop_last());
    }
}

/// Every finite entry of `dist` is below `cap` and is the cost of some
/// route from `start`.
pub open spec fn sound(t: Terrain, start: int, cap: int, dist: Seq<u32>) -> bool {
    &&& dist.len() == t.blocked.len()
    &&& forall|i: int|
        0 <= i < dist.len() && #[trigger] dist[i] != UNREACHED ==> dist[i] < cap && t.reaches(
            start,
            i,
            dist[i] as int,
        )
}

/// No step out of `u` would lower an entry of `dist`.
pub open spec fn relaxed(t: Terrain, cap: int, dist: Seq<u32>, u: int) -> bool {
    forall|v: int|
        dist[u] != UNREACHED && #[trigger] t.step(u, v) && dist[u] + t.step_cost(u, v) < cap
            ==> dist[v] <= dist[u] + t.step_cost(u, v)
}

/// No step at all would lower an entry of `dist`.
pub open spec fn settled(t: Terrain, cap: int, dist: Seq<u32>) -> bool {
    forall|u: int| 0 <= u < dist.len() ==> #[trigger] relaxed(t, cap, dist, u)
}

/// `dist` holds, for every cell, the cost of a cheapest route from `start`
/// if that is below `cap`, and `UNREACHED` otherwise.
pub open spec fn is_field(t: Terrain, start: int, cap: int, dist: Seq<u32>) -> bool {
    &&& sound(t, start, cap, dist)
    &&& forall|i: int, c: int| #[trigger] t.reaches(start, i, c) && c < cap ==> dist[i] <= c
}

/// Once nothing can be lowered, every entry is at most the cost of any
/// route below `cap` that ends there.
proof fn lemma_settled_minimal(t: Terrain, start: int, cap: int, dist: Seq<u32>, p: Seq<int>, to: int)
    requires
        t.wf(),
        sound(t, start, cap, dist),
        settled(t, cap, dist),
        0 <= start < dist.len(),
        dist[start] == 0,
        t.is_route(p, start, to),
        t.route_cost(p) < cap,
    ensures
        0 <= to < dist.len(),
        dist[to] <= t.route_cost(p),
    decreases p.len(),
{
    if p.len() >= 2 {
        t.lemma_route_shorten(p, start, to);
        let q = p.drop_last();
        let u = p[p.len() - 2];
        t.lemma_route_cost_nonnegative(q);
        lemma_settled_minimal(t, start, cap, dist, q, u);
        assert(relaxed(t, cap, dist, u));
        assert(t.step(u, to));
    }
}

/// Tries the step from `(x, y)` to `(x + dx, y + dy)` and lowers the
/// target's entry if the step makes it cheaper to reach.
fn relax(
    map: &TileMap,
    dist: &mut Vec<u32>,
    Ghost(start): Ghost<int>,
    cap: u32,
    x: i32,
    y: i32,
    dx: i32,
    dy: i32,
) -> (changed: bool)
    requires
        map.wf(),
        map.in_bounds(x as int, y as int),
        -1 <= dx <= 1,
        -1 <= dy <= 1,
        dx != 0 || dy != 0,
        cap <= UNREACHED - DIAGONAL_COST,
        sound(map.terrain(), start, cap as int, old(dist)@),
        0 <= start < old(dist)@.len(),
        old(dist)@[start] == 0,
        old(dist)@[map.idx(x as int, y as int)] != UNREACHED,
    ensures
        sound(map.terrain(), start, cap as int, final(dist)@),
        final(dist)@[start] == 0,
        final(dist)@[map.idx(x as int, y as int)] != UNREACHED,
        !changed ==> final(dist)@ == old(dist)@,
        changed ==> total(final(dist)@) < total(old(dist)@),
        !changed ==> ({
            let u = map.idx(x as int, y as int);
            let v = map.idx(x + dx, y + dy);
            let t = map.terrain();
            map.in_bounds(x + dx, y + dy) && t.step(u, v) && old(dist)@[u] + t.step_cost(u, v) < cap
                ==> old(dist)@[v] <= old(dist)@[u] + t.step_cost(u, v)
        }),
{
    let nx: i32 = x + dx;
    let ny: i32 = y + dy;
    if !map.is_open(nx, ny) {
        proof {
            if map.in_bounds(nx as int, ny as int) {
                map.lemma_idx_bounds(nx as int, ny as int);
            }
        }
        return false;
    }
    let u: usize = map.xy_idx(x, y);
    let v: usize = map.xy_idx(nx, ny);
    let cost: u32 = if dx == 0 || dy == 0 {
        CARDINAL_COST
    } else {
        DIAGONAL_COST
    };
    proof {
        map.lemma_idx_bounds(x as int, y as int);
        map.lemma_idx_bounds(nx as int, ny as int);
        assert(dist@[u as int] < cap);
        assert(map.terrain().step_cost(u as int, v as int) == cost);
    }
    let candidate: u32 = dist[u] + cost;
    if candidate < dist[v] && candidate < cap {
        proof {
            let t = map.terrain();
            assert(t.step(u as int, v as int));
            let p = choose|p: Seq<int>| #[trigger]
                t.is_route(p, start, u as int) && t.route_cost(p) == dist@[u as int];
            t.lemma_route_extend(p, start, u as int, v as int);
            assert(t.reaches(start, v as int, candidate as int));
            lemma_total_update(dist@, v as int, candidate);
        }
        dist[v] = candidate;
        true
    } else {
        false
    }
}

/// Tries all eight steps out of `(x, y)`.
fn relax_around(map: &TileMap, dist: &mut Vec<u32>, Ghost(start): Ghost<int>, cap: u32, x: i32, y: i32) -> (changed:
    bool)
    requires
        map.wf(),
        map.in_bounds(x as int, y as int),
        cap <= UNREACHED - DIAGONAL_COST,
        sound(map.terrain(), start, cap as int, old(dist)@),
        0 <= start < old(dist)@.len(),
        old(dist)@[start] == 0,
    ensures
        sound(map.terrain(), start, cap as int, final(dist)@),
        final(dist)@[start] == 0,
        !changed ==> final(dist)@ == old(dist)@,
        changed ==> total(final(dist)@) < total(old(dist)@),
        !changed ==> relaxed(map.terrain(), cap as int, old(dist)@, map.idx(x as int, y as int)),
{
    let u: usize = map.xy_idx(x, y);
    if dist[u] == UNREACHED {
        return false;
    }
    let c1: bool = relax(map, dist, Ghost(start), cap, x, y, -1, 0);
    let c2: bool = relax(map, dist, Ghost(start), cap, x, y, 1, 0);
    let c3: bool = relax(map, dist, Ghost(start), cap, x, y, 0, -1);
    let c4: bool = relax(map, dist, Ghost(start), cap, x, y, 0, 1);
    let c5: bool = relax(map, dist, Ghost(start), cap, x, y, -1, -1);
    let c6: bool = relax(map, dist, Ghost(start), cap, x, y, 1, -1);
    let c7: bool = relax(map, dist, Ghost(start), cap, x, y, -1, 1);
    let c8: bool = relax(map, dist, Ghost(start), cap, x, y, 1, 1);
    let changed: bool = c1 || c2 || c3 || c4 || c5 || c6 || c7 || c8;
    proof {
        if !changed {
            let t = map.terrain();
            let w = map.width as int;
            map.lemma_idx_bounds(x as int, y as int);
            assert forall|v: int|
                dist@[u as int] != UNREACHED && #[trigger] t.step(u as int, v) && dist@[u as int]
                    + t.step_cost(u as int, v) < cap implies dist@[v] <= dist@[u as int] + t.step_cost(
                u as int,
                v,
            ) by {
                let vx = v % w;
                let vy = v / w;
                lemma_index_to_cell(w, map.height as int, v);
                let ddx = vx - x;
                let ddy = vy - y;
                assert(map.idx(x + ddx, y + ddy) == v);
                assert(map.in_bounds(x + ddx, y + ddy));
            }
        }
    }
    changed
}

/// The cost of a cheapest route from `start` to every cell that a route
/// cheaper than `cap` reaches, and `UNREACHED` for every other cell.
pub fn distance_field(map: &TileMap, start: usize, cap: u32) -> (dist: Vec<u32>)
    requires
        map.wf(),
        start < map.tiles@.len(),
        0 < cap <= UNREACHED - DIAGONAL_COST,
    ensures
        is_field(map.terrain(), start as int, cap as int, dist@),
        dist@[start as int] == 0,
{
    let n: usize = map.tiles.len();
    let ghost t = map.terrain();
    let mut dist: Vec<u32> = Vec::new();
    let mut i: usize = 0;
    while i < n
        invariant
            i <= n,
            dist@.len() == i,
            forall|j: int| 0 <= j < i ==> #[trigger] dist@[j] == UNREACHED,
        decreases n - i,
    {
        dist.push(UNREACHED);
        i += 1;
    }
    dist[start] = 0;
    proof {
        let p = seq![start as int];
        assert(t.is_route(p, start as int, start as int));
        assert(t.route_cost(p) == 0);
        assert(t.reaches(start as int, start as int, 0));
    }
    let mut done: bool = false;
    while !done
        invariant
            map.wf(),
            t == map.terrain(),
            n == map.tiles@.len(),
            start < n,
            0 < cap <= UNREACHED - DIAGONAL_COST,
            sound(t, start as int, cap as int, dist@),
            dist@[start as int] == 0,
            done ==> settled(t, cap as int, dist@),
        decreases total(dist@) + (if done { 0int } else { 1int }),
    {
        let ghost before = dist@;
        let mut changed: bool = false;
        let mut y: i32 = 0;
        while y < map.height
            invariant
                map.wf(),
                t == map.terrain(),
                n == map.tiles@.len(),
                start < n,
                0 < cap <= UNREACHED - DIAGONAL_COST,
                0 <= y <= map.height,
                sound(t, start as int, cap as int, dist@),
                dist@[start as int] == 0,
                !changed ==> dist@ == before,
                changed ==> total(dist@) < total(before),
                !changed ==> forall|u: int| 0 <= u < y * map.width ==> #[trigger] relaxed(t, cap as int, dist@, u),
            decreases map.height - y,
        {
            let mut x: i32 = 0;
            while x < map.width
                invariant
                    map.wf(),
                    t == map.terrain(),
                    n == map.tiles@.len(),
                    start < n,
                    0 < cap <= UNREACHED - DIAGONAL_COST,
                    0 <= y < map.height,
                    0 <= x <= map.width,
                    sound(t, start as int, cap as int, dist@),
                    dist@[start as int] == 0,
                    !changed ==> dist@ == before,
                    changed ==> total(dist@) < total(before),
                    !changed ==> forall|u: int|
                        0 <= u < y * map.width + x ==> #[trigger] relaxed(t, cap as int, dist@, u),
                decreases map.width - x,
            {
                let c: bool = relax_around(map, &mut dist, Ghost(start as int), cap, x, y);
                changed = changed || c;
                x += 1;
            }
            proof {
                assert((y + 1) * map.width == y * map.width + map.width) by (nonlinear_arith);
            }
            y += 1;
        }
        if !changed {
            done = true;
            proof {
                assert(map.height * map.width == map.width * map.height) by (nonlinear_arith);
            }
        }
        proof {
            lemma_total_nonnegative(dist@);
        }
    }
    proof {
        assert forall|i: int, c: int| #[trigger] t.reaches(start as int, i, c) && c < cap implies dist@[i] <= c by {
            let p = choose|p: Seq<int>| #[trigger] t.is_route(p, start as int, i) && t.route_cost(p) == c;
            lemma_settled_minimal(t, start as int, cap as int, dist@, p, i);
        }
    }
    dist
}

} // verus!
