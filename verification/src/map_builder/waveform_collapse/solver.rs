use crate::map::{cell_index, lemma_cell_index_bounds, lemma_index_to_cell, TileMap, TileType};
use crate::map_builder::waveform_collapse::common::{
    chunk_index, lemma_partner_list, lemma_sides_agree_symmetric, MapChunk, sides_agree, table_consistent,
};
use crate::random::roll_dice;
use rltk::RandomNumberGenerator;
use vstd::prelude::*;

verus! {

/// Fills a grid of chunk slots with patterns, one slot at a time, so that
/// each pattern is listed as a possible neighbour by the patterns already
/// placed around it.
pub struct Solver {
    pub constraints: Vec<MapChunk>,
    pub chunk_size: i32,
    pub chunks: Vec<Option<usize>>,
    pub chunks_x: usize,
    pub chunks_y: usize,
    pub remaining: Vec<(usize, i32)>,
    pub possible: bool,
}

/// Every pattern has `chunk_size` squared tiles, and every listed
/// neighbour is a pattern of the table.
pub open spec fn table_valid(table: Seq<MapChunk>, chunk_size: int) -> bool {
    &&& table.len() < i32::MAX
    &&& forall|i: int| 0 <= i < table.len() ==> (#[trigger] table[i]).pattern@.len() == chunk_size * chunk_size
    &&& forall|i: int, d: int, k: int|
        0 <= i < table.len() && 0 <= d < 4 && 0 <= k < table[i].partners(d).len() ==> #[trigger] table[i].partners(
            d,
        )[k] < table.len()
}

/// A table with consistent neighbour lists lists only its own patterns.
pub proof fn lemma_consistent_table_valid(table: Seq<MapChunk>, chunk_size: int)
    requires
        table_consistent(table),
        table.len() < i32::MAX,
        forall|i: int| 0 <= i < table.len() ==> (#[trigger] table[i]).pattern@.len() == chunk_size * chunk_size,
    ensures
        table_valid(table, chunk_size),
{
    assert forall|i: int, d: int, k: int|
        0 <= i < table.len() && 0 <= d < 4 && 0 <= k < table[i].partners(d).len() implies #[trigger] table[i].partners(
        d,
    )[k] < table.len() by {
        lemma_partner_list(table, i, d, table.len() as int, 0);
    }
}

/// No two entries name the same slot.
pub open spec fn distinct_slots(s: Seq<(usize, i32)>) -> bool {
    forall|i: int, j: int| 0 <= i < j < s.len() ==> s[i].0 != s[j].0
}

/// The entries among the first `n` of `rem` whose count is `c`, in order.
pub open spec fn bucket(rem: Seq<(usize, i32)>, c: int, n: int) -> Seq<(usize, i32)>
    decreases n,
{
    if n <= 0 {
        Seq::empty()
    } else {
        let rest = bucket(rem, c, n - 1);
        if rem[n - 1].1 == c {
            rest.push(rem[n - 1])
        } else {
            rest
        }
    }
}

/// The entries of `rem` with a count from `c` to 4: those with count 4
/// first, then those with 3, and so on, each group in its former order.
pub open spec fn ranked(rem: Seq<(usize, i32)>, c: int) -> Seq<(usize, i32)>
    decreases 5 - c,
{
    if c > 4 {
        Seq::empty()
    } else {
        ranked(rem, c + 1) + bucket(rem, c, rem.len() as int)
    }
}

/// `rem` sorted by falling count, entries of equal count in their former
/// order.
pub open spec fn ordered(rem: Seq<(usize, i32)>) -> Seq<(usize, i32)> {
    ranked(rem, 0)
}

proof fn lemma_bucket(rem: Seq<(usize, i32)>, c: int, n: int)
    requires
        0 <= n <= rem.len(),
        distinct_slots(rem),
    ensures
        forall|j: int|
            0 <= j < bucket(rem, c, n).len() ==> (#[trigger] bucket(rem, c, n)[j]).1 == c && exists|m: int|
                0 <= m < n && rem[m] == bucket(rem, c, n)[j],
        distinct_slots(bucket(rem, c, n)),
        bucket(rem, c, n).len() <= n,
    decreases n,
{
    if n > 0 {
        lemma_bucket(rem, c, n - 1);
        let rest = bucket(rem, c, n - 1);
        let all = bucket(rem, c, n);
        assert forall|j: int| 0 <= j < all.len() implies (#[trigger] all[j]).1 == c && exists|m: int|
            0 <= m < n && rem[m] == all[j] by {
            if j < rest.len() {
                assert(rest[j] == all[j]);
                let m = choose|m: int| 0 <= m < n - 1 && rem[m] == rest[j];
                assert(rem[m] == all[j]);
            } else {
                assert(rem[n - 1] == all[j]);
            }
        }
        assert forall|i: int, j: int| 0 <= i < j < all.len() implies all[i].0 != all[j].0 by {
            if j >= rest.len() {
                assert(rest[i] == all[i]);
                let m = choose|m: int| 0 <= m < n - 1 && rem[m] == rest[i];
                assert(rem[m].0 != rem[n - 1].0);
            } else {
                assert(rest[i] == all[i] && rest[j] == all[j]);
            }
        }
    }
}

proof fn lemma_ranked(rem: Seq<(usize, i32)>, c: int)
    requires
        0 <= c <= 5,
        distinct_slots(rem),
    ensures
        forall|j: int|
            0 <= j < ranked(rem, c).len() ==> (#[trigger] ranked(rem, c)[j]).1 >= c && exists|m: int|
                0 <= m < rem.len() && rem[m] == ranked(rem, c)[j],
        distinct_slots(ranked(rem, c)),
    decreases 5 - c,
{
    if c <= 4 {
        lemma_ranked(rem, c + 1);
        lemma_bucket(rem, c, rem.len() as int);
        let high = ranked(rem, c + 1);
        let low = bucket(rem, c, rem.len() as int);
        let all = ranked(rem, c);
        assert forall|j: int| 0 <= j < all.len() implies (#[trigger] all[j]).1 >= c && exists|m: int|
            0 <= m < rem.len() && rem[m] == all[j] by {
            if j < high.len() {
                assert(high[j] == all[j]);
                let m = choose|m: int| 0 <= m < rem.len() && rem[m] == high[j];
                assert(rem[m] == all[j]);
            } else {
                assert(low[j - high.len()] == all[j]);
                let m = choose|m: int| 0 <= m < rem.len() && rem[m] == low[j - high.len()];
                assert(rem[m] == all[j]);
            }
        }
        assert forall|i: int, j: int| 0 <= i < j < all.len() implies all[i].0 != all[j].0 by {
            if j < high.len() {
                assert(high[i] == all[i] && high[j] == all[j]);
            } else if i >= high.len() {
                assert(low[i - high.len()] == all[i] && low[j - high.len()] == all[j]);
            } else {
                assert(high[i] == all[i]);
                assert(low[j - high.len()] == all[j]);
                let m1 = choose|m: int| 0 <= m < rem.len() && rem[m] == high[i];
                let m2 = choose|m: int| 0 <= m < rem.len() && rem[m] == low[j - high.len()];
                if all[i].0 == all[j].0 {
                    if m1 < m2 {
                        assert(rem[m1].0 != rem[m2].0);
                    } else if m2 < m1 {
                        assert(rem[m2].0 != rem[m1].0);
                    }
                }
            }
        }
    }
}

/// Slot `s` is named by one of the entries.
pub open spec fn is_outstanding(rem: Seq<(usize, i32)>, s: usize) -> bool {
    exists|k: int| 0 <= k < rem.len() && (#[trigger] rem[k]).0 == s
}

proof fn lemma_bucket_complete(rem: Seq<(usize, i32)>, n: int, m: int)
    requires
        0 <= m < n <= rem.len(),
    ensures
        exists|j: int|
            0 <= j < bucket(rem, rem[m].1 as int, n).len() && #[trigger] bucket(rem, rem[m].1 as int, n)[j]
                == rem[m],
    decreases n,
{
    let c = rem[m].1 as int;
    let all = bucket(rem, c, n);
    if m == n - 1 {
        assert(all[all.len() - 1] == rem[m]);
    } else {
        lemma_bucket_complete(rem, n - 1, m);
        let rest = bucket(rem, c, n - 1);
        let j = choose|j: int| 0 <= j < rest.len() && #[trigger] rest[j] == rem[m];
        assert(all[j] == rem[m]);
    }
}

/// Sorting loses no entry.
proof fn lemma_ordered_complete(rem: Seq<(usize, i32)>, m: int)
    requires
        0 <= m < rem.len(),
        0 <= rem[m].1 <= 4,
    ensures
        exists|j: int| 0 <= j < ordered(rem).len() && #[trigger] ordered(rem)[j] == rem[m],
{
    reveal_with_fuel(ranked, 7);
    let n = rem.len() as int;
    lemma_bucket_complete(rem, n, m);
    let c = rem[m].1 as int;
    let b = bucket(rem, c, n);
    let j = choose|j: int| 0 <= j < b.len() && #[trigger] b[j] == rem[m];
    let b4 = bucket(rem, 4, n);
    let b3 = bucket(rem, 3, n);
    let b2 = bucket(rem, 2, n);
    let b1 = bucket(rem, 1, n);
    let b0 = bucket(rem, 0, n);
    let all = ordered(rem);
    assert(all =~= b4 + b3 + b2 + b1 + b0);
    if c == 4 {
        assert(all[j] == rem[m]);
    } else if c == 3 {
        assert(all[b4.len() + j] == rem[m]);
    } else if c == 2 {
        assert(all[b4.len() + b3.len() + j] == rem[m]);
    } else if c == 1 {
        assert(all[b4.len() + b3.len() + b2.len() + j] == rem[m]);
    } else {
        assert(all[b4.len() + b3.len() + b2.len() + b1.len() + j] == rem[m]);
    }
}

/// Taking one entry out leaves the others: in their order, each slot
/// still named once, and every slot but the one taken still named.
proof fn lemma_entry_removed(rem: Seq<(usize, i32)>, j: int)
    requires
        0 <= j < rem.len(),
        distinct_slots(rem),
    ensures
        rem.remove(j).len() == rem.len() - 1,
        forall|k: int|
            0 <= k < rem.len() - 1 ==> #[trigger] rem.remove(j)[k] == rem[if k < j {
                k
            } else {
                k + 1
            }],
        distinct_slots(rem.remove(j)),
        forall|k: int| 0 <= k < rem.len() - 1 ==> (#[trigger] rem.remove(j)[k]).0 != rem[j].0,
        forall|s: usize| is_outstanding(rem, s) && s != rem[j].0 ==> is_outstanding(rem.remove(j), s),
{
    let left = rem.remove(j);
    assert forall|a: int, b: int| 0 <= a < b < left.len() implies left[a].0 != left[b].0 by {
        let ma = if a < j {
            a
        } else {
            a + 1
        };
        let mb = if b < j {
            b
        } else {
            b + 1
        };
        assert(left[a] == rem[ma] && left[b] == rem[mb]);
    }
    assert forall|k: int| 0 <= k < rem.len() - 1 implies (#[trigger] left[k]).0 != rem[j].0 by {
        let m = if k < j {
            k
        } else {
            k + 1
        };
        assert(left[k] == rem[m]);
        if m < j {
            assert(rem[m].0 != rem[j].0);
        } else {
            assert(rem[j].0 != rem[m].0);
        }
    }
    assert forall|s: usize| is_outstanding(rem, s) && s != rem[j].0 implies is_outstanding(left, s) by {
        let k = choose|k: int| 0 <= k < rem.len() && (#[trigger] rem[k]).0 == s;
        if k < j {
            assert(left[k] == rem[k]);
        } else {
            assert(left[k - 1] == rem[k]);
        }
    }
}

/// The five groups together hold as many entries as there are.
proof fn lemma_buckets_total(rem: Seq<(usize, i32)>, n: int)
    requires
        0 <= n <= rem.len(),
        forall|k: int| 0 <= k < rem.len() ==> 0 <= (#[trigger] rem[k]).1 <= 4,
    ensures
        bucket(rem, 0, n).len() + bucket(rem, 1, n).len() + bucket(rem, 2, n).len() + bucket(rem, 3, n).len()
            + bucket(rem, 4, n).len() == n,
    decreases n,
{
    if n > 0 {
        lemma_buckets_total(rem, n - 1);
        assert(0 <= rem[n - 1].1 <= 4);
    }
}

proof fn lemma_ordered_len(rem: Seq<(usize, i32)>)
    requires
        forall|k: int| 0 <= k < rem.len() ==> 0 <= (#[trigger] rem[k]).1 <= 4,
    ensures
        ordered(rem).len() == rem.len(),
{
    reveal_with_fuel(ranked, 7);
    lemma_buckets_total(rem, rem.len() as int);
}

impl Solver {
    /// What slot `(x, y)` holds.
    pub open spec fn slot(&self, x: int, y: int) -> Option<usize> {
        self.chunks@[cell_index(self.chunks_x as int, x, y)]
    }

    /// Whether `(x, y)` names a slot of the grid.
    pub open spec fn inside(&self, x: int, y: int) -> bool {
        0 <= x < self.chunks_x && 0 <= y < self.chunks_y
    }

    /// How many of the four slots around `(x, y)` are filled.
    pub open spec fn neighbour_count(&self, x: int, y: int) -> int {
        (if x > 0 && self.slot(x - 1, y) is Some {
            1int
        } else {
            0int
        }) + (if x < self.chunks_x - 1 && self.slot(x + 1, y) is Some {
            1int
        } else {
            0int
        }) + (if y > 0 && self.slot(x, y - 1) is Some {
            1int
        } else {
            0int
        }) + (if y < self.chunks_y - 1 && self.slot(x, y + 1) is Some {
            1int
        } else {
            0int
        })
    }

    /// The table is valid, there is one slot for every chunk, filled slots hold patterns of the table, and
    /// the outstanding entries name empty slots, each slot once.
    pub open spec fn wf(&self) -> bool {
        &&& self.chunk_size >= 1
        &&& self.chunk_size * self.chunk_size <= i32::MAX
        &&& table_valid(self.constraints@, self.chunk_size as int)
        &&& self.chunks@.len() == self.chunks_x * self.chunks_y
        &&& self.chunks@.len() < i32::MAX
        &&& forall|s: int|
            0 <= s < self.chunks@.len() && (#[trigger] self.chunks@[s]) is Some ==> self.chunks@[s]->0
                < self.constraints@.len()
        &&& self.remaining@.len() <= self.chunks@.len()
        &&& forall|k: int|
            0 <= k < self.remaining@.len() ==> (#[trigger] self.remaining@[k]).0 < self.chunks@.len()
                && self.chunks@[self.remaining@[k].0 as int] is None
        &&& distinct_slots(self.remaining@)
    }

    /// As long as no contradiction was met, every empty slot is
    /// outstanding.
    pub open spec fn accounted(&self) -> bool {
        self.possible ==> forall|s: int|
            0 <= s < self.chunks@.len() && (#[trigger] self.chunks@[s]) is None
                ==> is_outstanding(self.remaining@, s as usize)
    }

    /// Every slot is filled.
    pub open spec fn filled(&self) -> bool {
        forall|s: int| 0 <= s < self.chunks@.len() ==> (#[trigger] self.chunks@[s]) is Some
    }

    /// Tile `i` of the map, if it lies in the chunk of the filled slot
    /// `(x, y)`, is the tile of that slot's pattern.
    pub open spec fn slot_shown(&self, map: &TileMap, x: int, y: int, i: int) -> bool {
        let cx = map.x_of(i) - x * self.chunk_size;
        let cy = map.y_of(i) - y * self.chunk_size;
        self.slot(x, y) is Some && 0 <= cx < self.chunk_size && 0 <= cy < self.chunk_size ==> map.tiles@[i]
            == self.constraints@[self.slot(x, y)->0 as int].pattern@[chunk_index(self.chunk_size as int, cx, cy)]
    }

    /// The map shows the pattern of every filled slot in the slot's place.
    pub open spec fn shown(&self, map: &TileMap) -> bool {
        forall|x: int, y: int, i: int|
            self.inside(x, y) && 0 <= i < map.tiles@.len() ==> #[trigger] self.slot_shown(map, x, y, i)
    }

    /// Some empty slot has no candidate: the contradiction that ends a
    /// run.
    pub open spec fn contradicts(&self) -> bool {
        exists|x: int, y: int|
            self.inside(x, y) && (#[trigger] self.slot(x, y)) is None && self.candidate_list(
                x,
                y,
                self.constraints@.len() as int,
            ).len() == 0
    }

    /// The candidates of a slot depend on the slots and the table alone.
    pub proof fn lemma_candidates_transfer(&self, other: &Solver, x: int, y: int, n: int)
        requires
            self.chunks@ == other.chunks@,
            self.constraints@ == other.constraints@,
            self.chunks_x == other.chunks_x,
            self.chunks_y == other.chunks_y,
        ensures
            self.candidate_list(x, y, n) == other.candidate_list(x, y, n),
        decreases n,
    {
        if n > 0 {
            self.lemma_candidates_transfer(other, x, y, n - 1);
            assert(self.slot(x - 1, y) == other.slot(x - 1, y));
            assert(self.slot(x + 1, y) == other.slot(x + 1, y));
            assert(self.slot(x, y - 1) == other.slot(x, y - 1));
            assert(self.slot(x, y + 1) == other.slot(x, y + 1));
            assert(self.is_candidate(x, y, (n - 1) as usize) == other.is_candidate(x, y, (n - 1) as usize));
        }
    }

    /// The places of two different slots do not overlap.
    proof fn lemma_places_apart(&self, a: int, b: int, ca: int, cb: int)
        requires
            self.chunk_size >= 1,
            a != b,
            0 <= ca < self.chunk_size,
            0 <= cb < self.chunk_size,
        ensures
            a * self.chunk_size + ca != b * self.chunk_size + cb,
    {
        let c = self.chunk_size as int;
        if a < b {
            assert((a + 1) * c <= b * c) by (nonlinear_arith)
                requires
                    a + 1 <= b,
                    c >= 1,
            ;
            assert((a + 1) * c == a * c + c) by (nonlinear_arith);
        } else {
            assert((b + 1) * c <= a * c) by (nonlinear_arith)
                requires
                    b + 1 <= a,
                    c >= 1,
            ;
            assert((b + 1) * c == b * c + c) by (nonlinear_arith);
        }
    }

    /// The slot grid, cut into chunks, lies on the map.
    pub open spec fn fits(&self, map: &TileMap) -> bool {
        &&& self.chunks_x * self.chunk_size <= map.width
        &&& self.chunks_y * self.chunk_size <= map.height
    }

    /// Pattern `a` to the left of pattern `b`: one lists the other.
    pub open spec fn beside(&self, a: usize, b: usize) -> bool {
        self.constraints@[a as int].partners(3).contains(b) || self.constraints@[b as int].partners(2).contains(a)
    }

    /// Pattern `a` above pattern `b`: one lists the other.
    pub open spec fn stacked(&self, a: usize, b: usize) -> bool {
        self.constraints@[a as int].partners(1).contains(b) || self.constraints@[b as int].partners(0).contains(a)
    }

    /// Any two filled slots that touch hold patterns of which one lists
    /// the other as a possible neighbour on that side.
    pub open spec fn agrees(&self) -> bool {
        &&& forall|x: int, y: int|
            #![trigger self.slot(x, y), self.slot(x + 1, y)]
            0 <= x < self.chunks_x - 1 && 0 <= y < self.chunks_y && self.slot(x, y) is Some
                && self.slot(x + 1, y) is Some ==> self.beside(self.slot(x, y)->0, self.slot(x + 1, y)->0)
        &&& forall|x: int, y: int|
            #![trigger self.slot(x, y), self.slot(x, y + 1)]
            0 <= x < self.chunks_x && 0 <= y < self.chunks_y - 1 && self.slot(x, y) is Some
                && self.slot(x, y + 1) is Some ==> self.stacked(self.slot(x, y)->0, self.slot(x, y + 1)->0)
    }

    /// On every border between two filled slots the exit bitmaps of the
    /// two patterns agree.
    pub open spec fn borders_agree(&self) -> bool {
        &&& forall|x: int, y: int|
            #![trigger self.slot(x, y), self.slot(x + 1, y)]
            0 <= x < self.chunks_x - 1 && 0 <= y < self.chunks_y && self.slot(x, y) is Some
                && self.slot(x + 1, y) is Some ==> sides_agree(
                self.constraints@[self.slot(x, y)->0 as int].side(3),
                self.constraints@[self.slot(x + 1, y)->0 as int].side(2),
            )
        &&& forall|x: int, y: int|
            #![trigger self.slot(x, y), self.slot(x, y + 1)]
            0 <= x < self.chunks_x && 0 <= y < self.chunks_y - 1 && self.slot(x, y) is Some
                && self.slot(x, y + 1) is Some ==> sides_agree(
                self.constraints@[self.slot(x, y)->0 as int].side(1),
                self.constraints@[self.slot(x, y + 1)->0 as int].side(0),
            )
    }

    /// With a table whose neighbour lists are consistent, patterns that
    /// list each other have exit bitmaps that agree: no border between
    /// two filled slots joins sides that disagree.
    pub proof fn lemma_borders_agree(&self)
        requires
            self.wf(),
            self.agrees(),
            table_consistent(self.constraints@),
        ensures
            self.borders_agree(),
    {
        let table = self.constraints@;
        let n = table.len() as int;
        assert forall|x: int, y: int|
            #![trigger self.slot(x, y), self.slot(x + 1, y)]
            0 <= x < self.chunks_x - 1 && 0 <= y < self.chunks_y && self.slot(x, y) is Some
                && self.slot(x + 1, y) is Some implies sides_agree(
            table[self.slot(x, y)->0 as int].side(3),
            table[self.slot(x + 1, y)->0 as int].side(2),
        ) by {
            let a = self.slot(x, y)->0;
            let b = self.slot(x + 1, y)->0;
            lemma_cell_index_bounds(self.chunks_x as int, self.chunks_y as int, x, y);
            lemma_cell_index_bounds(self.chunks_x as int, self.chunks_y as int, x + 1, y);
            assert(self.beside(a, b));
            assert(table[a as int].partners(3) == partner_list_of(table, a as int, 3));
            assert(table[b as int].partners(2) == partner_list_of(table, b as int, 2));
            lemma_partner_list(table, a as int, 3, n, b as int);
            lemma_partner_list(table, b as int, 2, n, a as int);
            lemma_sides_agree_symmetric(table[a as int].side(3), table[b as int].side(2));
        }
        assert forall|x: int, y: int|
            #![trigger self.slot(x, y), self.slot(x, y + 1)]
            0 <= x < self.chunks_x && 0 <= y < self.chunks_y - 1 && self.slot(x, y) is Some
                && self.slot(x, y + 1) is Some implies sides_agree(
            table[self.slot(x, y)->0 as int].side(1),
            table[self.slot(x, y + 1)->0 as int].side(0),
        ) by {
            let a = self.slot(x, y)->0;
            let b = self.slot(x, y + 1)->0;
            lemma_cell_index_bounds(self.chunks_x as int, self.chunks_y as int, x, y);
            lemma_cell_index_bounds(self.chunks_x as int, self.chunks_y as int, x, y + 1);
            assert(self.stacked(a, b));
            assert(table[a as int].partners(1) == partner_list_of(table, a as int, 1));
            assert(table[b as int].partners(0) == partner_list_of(table, b as int, 0));
            lemma_partner_list(table, a as int, 1, n, b as int);
            lemma_partner_list(table, b as int, 0, n, a as int);
            lemma_sides_agree_symmetric(table[a as int].side(1), table[b as int].side(0));
        }
    }

    /// A solver for the map, with every slot empty and outstanding.
    pub fn new(constraints: Vec<MapChunk>, chunk_size: i32, map: &TileMap) -> (solver: Solver)
        requires
            map.wf(),
            chunk_size >= 1,
            chunk_size * chunk_size <= i32::MAX,
            table_valid(constraints@, chunk_size as int),
            (map.width / chunk_size) * (map.height / chunk_size) < i32::MAX,
        ensures
            solver.wf(),
            solver.fits(map),
            solver.agrees(),
            solver.accounted(),
            solver.shown(map),
            solver.possible,
            solver.constraints@ == constraints@,
            solver.chunk_size == chunk_size,
            solver.chunks_x == map.width / chunk_size,
            solver.chunks_y == map.height / chunk_size,
            forall|s: int| 0 <= s < solver.chunks@.len() ==> (#[trigger] solver.chunks@[s]) is None,
            solver.remaining@.len() == solver.chunks@.len(),
            forall|k: int| 0 <= k < solver.remaining@.len() ==> #[trigger] solver.remaining@[k] == (k as usize, 0i32),
    {
        proof {
            vstd::arithmetic::div_mod::lemma_div_pos_is_pos(map.width as int, chunk_size as int);
            vstd::arithmetic::div_mod::lemma_div_pos_is_pos(map.height as int, chunk_size as int);
            vstd::arithmetic::div_mod::lemma_fundamental_div_mod(map.width as int, chunk_size as int);
            vstd::arithmetic::div_mod::lemma_fundamental_div_mod(map.height as int, chunk_size as int);
            vstd::arithmetic::div_mod::lemma_mod_bound(map.width as int, chunk_size as int);
            vstd::arithmetic::div_mod::lemma_mod_bound(map.height as int, chunk_size as int);
            assert((map.width / chunk_size) * chunk_size == chunk_size * (map.width / chunk_size))
                by (nonlinear_arith);
            assert((map.height / chunk_size) * chunk_size == chunk_size * (map.height / chunk_size))
                by (nonlinear_arith);
            assert(0 <= (map.width / chunk_size) * (map.height / chunk_size)) by (nonlinear_arith)
                requires
                    0 <= map.width / chunk_size,
                    0 <= map.height / chunk_size,
            ;
        }
        let chunks_x: usize = (map.width / chunk_size) as usize;
        let chunks_y: usize = (map.height / chunk_size) as usize;
        let total: usize = chunks_x * chunks_y;
        let mut remaining: Vec<(usize, i32)> = Vec::new();
        let mut chunks: Vec<Option<usize>> = Vec::new();
        let mut i: usize = 0;
        while i < total
            invariant
                i <= total,
                remaining@.len() == i,
                chunks@.len() == i,
                forall|k: int| 0 <= k < i ==> #[trigger] remaining@[k] == (k as usize, 0i32),
                forall|k: int| 0 <= k < i ==> (#[trigger] chunks@[k]) is None,
            decreases total - i,
        {
            remaining.push((i, 0));
            chunks.push(None);
            i += 1;
        }
        let solver = Solver { constraints, chunk_size, chunks, chunks_x, chunks_y, remaining, possible: true };
        proof {
            assert forall|x: int, y: int, i: int|
                solver.inside(x, y) && 0 <= i < map.tiles@.len() implies #[trigger] solver.slot_shown(map, x, y, i) by {
                lemma_cell_index_bounds(chunks_x as int, chunks_y as int, x, y);
            }
            assert forall|s: int|
                0 <= s < solver.chunks@.len() && (#[trigger] solver.chunks@[s]) is None implies is_outstanding(
                solver.remaining@,
                s as usize,
            ) by {
                assert(solver.remaining@[s].0 == s as usize);
            }
            assert forall|x: int, y: int| 0 <= x < chunks_x && 0 <= y < chunks_y implies (#[trigger] solver.slot(
                x,
                y,
            )) is None by {
                lemma_cell_index_bounds(chunks_x as int, chunks_y as int, x, y);
            }
        }
        solver
    }

    /// The index of the slot `(x, y)`, counted row by row.
    pub fn chunk_idx(&self, x: usize, y: usize) -> (idx: usize)
        requires
            self.wf(),
            self.inside(x as int, y as int),
        ensures
            idx == cell_index(self.chunks_x as int, x as int, y as int),
            idx < self.chunks@.len(),
            idx % self.chunks_x == x,
            idx / self.chunks_x == y,
    {
        proof {
            lemma_cell_index_bounds(self.chunks_x as int, self.chunks_y as int, x as int, y as int);
        }
        (y * self.chunks_x) + x
    }

    /// How many of the four slots around `(chunk_x, chunk_y)` are filled.
    pub fn count_neighbours(&self, chunk_x: usize, chunk_y: usize) -> (neighbours: i32)
        requires
            self.wf(),
            self.inside(chunk_x as int, chunk_y as int),
        ensures
            neighbours == self.neighbour_count(chunk_x as int, chunk_y as int),
            0 <= neighbours <= 4,
    {
        let mut neighbours: i32 = 0;
        if chunk_x > 0 {
            let left_idx = self.chunk_idx(chunk_x - 1, chunk_y);
            if self.chunks[left_idx].is_some() {
                neighbours += 1
            }
        }
        if chunk_x < self.chunks_x - 1 {
            let right_idx = self.chunk_idx(chunk_x + 1, chunk_y);
            if self.chunks[right_idx].is_some() {
                neighbours += 1
            }
        }
        if chunk_y > 0 {
            let up_idx = self.chunk_idx(chunk_x, chunk_y - 1);
            if self.chunks[up_idx].is_some() {
                neighbours += 1
            }
        }
        if chunk_y < self.chunks_y - 1 {
            let down_idx = self.chunk_idx(chunk_x, chunk_y + 1);
            if self.chunks[down_idx].is_some() {
                neighbours += 1
            }
        }
        neighbours
    }

    /// The outstanding entries, each with the count of filled slots around
    /// its slot as it is now.
    pub open spec fn recounted(&self) -> Seq<(usize, i32)> {
        Seq::new(
            self.remaining@.len(),
            |k: int|
                (
                    self.remaining@[k].0,
                    self.neighbour_count(
                        self.remaining@[k].0 as int % self.chunks_x as int,
                        self.remaining@[k].0 as int / self.chunks_x as int,
                    ) as i32,
                ),
        )
    }

    /// Counts the filled neighbours of every outstanding slot anew and
    /// sorts the outstanding slots by falling count, slots of equal count
    /// staying in their order.
    pub fn prioritise(&mut self)
        requires
            old(self).wf(),
        ensures
            final(self).wf(),
            final(self).remaining@ == ordered(old(self).recounted()),
            final(self).remaining@.len() == old(self).remaining@.len(),
            final(self).constraints@ == old(self).constraints@,
            final(self).chunks@ == old(self).chunks@,
            final(self).chunk_size == old(self).chunk_size,
            final(self).chunks_x == old(self).chunks_x,
            final(self).chunks_y == old(self).chunks_y,
            final(self).possible == old(self).possible,
            forall|k: int|
                0 <= k < final(self).remaining@.len() ==> (#[trigger] final(self).remaining@[k]).1
                    == final(self).neighbour_count(
                    final(self).remaining@[k].0 as int % final(self).chunks_x as int,
                    final(self).remaining@[k].0 as int / final(self).chunks_x as int,
                ),
            forall|j: int, k: int|
                0 <= j <= k < final(self).remaining@.len() ==> final(self).remaining@[j].1
                    >= final(self).remaining@[k].1,
            forall|s: usize| is_outstanding(old(self).remaining@, s) ==> is_outstanding(final(self).remaining@, s),
    {
        let n: usize = self.remaining.len();
        let mut counted: Vec<(usize, i32)> = Vec::new();
        let mut k: usize = 0;
        while k < n
            invariant
                self.wf(),
                *self == *old(self),
                n == self.remaining@.len(),
                k <= n,
                counted@.len() == k,
                forall|j: int| 0 <= j < k ==> #[trigger] counted@[j] == self.recounted()[j],
            decreases n - k,
        {
            let idx: usize = self.remaining[k].0;
            proof {
                assert(self.chunks_x > 0) by (nonlinear_arith)
                    requires
                        self.chunks_x * self.chunks_y > 0,
                ;
                lemma_index_to_cell(self.chunks_x as int, self.chunks_y as int, idx as int);
            }
            let chunk_x: usize = idx % self.chunks_x;
            let chunk_y: usize = idx / self.chunks_x;
            let c: i32 = self.count_neighbours(chunk_x, chunk_y);
            counted.push((idx, c));
            k += 1;
        }
        proof {
            assert(counted@ =~= self.recounted());
        }
        let mut sorted: Vec<(usize, i32)> = Vec::new();
        let mut c: i32 = 4;
        while c >= 0
            invariant
                -1 <= c <= 4,
                n == counted@.len(),
                sorted@ == ranked(counted@, c + 1),
            decreases c + 1,
        {
            let mut j: usize = 0;
            while j < n
                invariant
                    0 <= c <= 4,
                    n == counted@.len(),
                    j <= n,
                    sorted@ == ranked(counted@, c + 1) + bucket(counted@, c as int, j as int),
                decreases n - j,
            {
                if counted[j].1 == c {
                    sorted.push(counted[j]);
                }
                proof {
                    let grown = bucket(counted@, c as int, j + 1);
                    let high = ranked(counted@, c + 1);
                    assert(sorted@ =~= high + grown);
                }
                j += 1;
            }
            c -= 1;
        }
        proof {
            let rem = counted@;
            assert forall|i: int, j: int| 0 <= i < j < rem.len() implies rem[i].0 != rem[j].0 by {
                assert(self.remaining@[i].0 != self.remaining@[j].0);
            }
            lemma_ranked(rem, 0);
            lemma_ordered_len(rem);
            lemma_ranked_sorted(rem, 0);
            assert forall|s: usize| is_outstanding(self.remaining@, s) implies is_outstanding(sorted@, s) by {
                let k = choose|k: int| 0 <= k < self.remaining@.len() && (#[trigger] self.remaining@[k]).0 == s;
                assert(rem[k] == self.recounted()[k]);
                lemma_ordered_complete(rem, k);
                let j = choose|j: int| 0 <= j < ordered(rem).len() && #[trigger] ordered(rem)[j] == rem[k];
                assert(sorted@[j].0 == s);
            }
            assert forall|k: int| 0 <= k < sorted@.len() implies (#[trigger] sorted@[k]).0 < self.chunks@.len()
                && self.chunks@[sorted@[k].0 as int] is None && sorted@[k].1 == self.neighbour_count(
                sorted@[k].0 as int % self.chunks_x as int,
                sorted@[k].0 as int / self.chunks_x as int,
            ) by {
                let m = choose|m: int| 0 <= m < rem.len() && rem[m] == sorted@[k];
                assert(rem[m] == self.recounted()[m]);
                assert(self.remaining@[m].0 == rem[m].0);
            }
        }
        self.remaining = sorted;
    }

    /// Whether every filled slot around `(x, y)` lists pattern `p` as a
    /// possible neighbour on the side that faces `(x, y)`.
    pub open spec fn is_candidate(&self, x: int, y: int, p: usize) -> bool {
        &&& x > 0 && self.slot(x - 1, y) is Some ==> self.constraints@[self.slot(x - 1, y)->0 as int].partners(
            3,
        ).contains(p)
        &&& x < self.chunks_x - 1 && self.slot(x + 1, y) is Some ==> self.constraints@[self.slot(
            x + 1,
            y,
        )->0 as int].partners(2).contains(p)
        &&& y > 0 && self.slot(x, y - 1) is Some ==> self.constraints@[self.slot(x, y - 1)->0 as int].partners(
            1,
        ).contains(p)
        &&& y < self.chunks_y - 1 && self.slot(x, y + 1) is Some ==> self.constraints@[self.slot(
            x,
            y + 1,
        )->0 as int].partners(0).contains(p)
    }

    /// The candidates for slot `(x, y)` among the first `n` patterns, in
    /// index order.
    pub open spec fn candidate_list(&self, x: int, y: int, n: int) -> Seq<usize>
        decreases n,
    {
        if n <= 0 {
            Seq::empty()
        } else {
            let rest = self.candidate_list(x, y, n - 1);
            if self.is_candidate(x, y, (n - 1) as usize) {
                rest.push((n - 1) as usize)
            } else {
                rest
            }
        }
    }

    /// The list holds exactly the candidates.
    pub proof fn lemma_candidate_list(&self, x: int, y: int, n: int)
        requires
            0 <= n <= usize::MAX,
        ensures
            forall|k: int|
                0 <= k < self.candidate_list(x, y, n).len() ==> (#[trigger] self.candidate_list(x, y, n)[k]) < n
                    && self.is_candidate(x, y, self.candidate_list(x, y, n)[k]),
            forall|p: usize| p < n && self.is_candidate(x, y, p) ==> self.candidate_list(x, y, n).contains(p),
        decreases n,
    {
        if n > 0 {
            self.lemma_candidate_list(x, y, n - 1);
            let rest = self.candidate_list(x, y, n - 1);
            let all = self.candidate_list(x, y, n);
            assert forall|p: usize| p < n && self.is_candidate(x, y, p) implies all.contains(p) by {
                if p < n - 1 {
                    let k = choose|k: int| 0 <= k < rest.len() && rest[k] == p;
                    assert(all[k] == p);
                } else {
                    assert(all[all.len() - 1] == p);
                }
            }
        }
    }

    /// The pattern in the slot at `(x, y)`, or nothing where the slot is
    /// empty or off the grid.
    fn neighbour(&self, x: usize, y: usize, present: bool) -> (r: Option<usize>)
        requires
            self.wf(),
            present ==> self.inside(x as int, y as int),
        ensures
            r == (if present {
                self.slot(x as int, y as int)
            } else {
                None
            }),
            r is Some ==> r->0 < self.constraints@.len(),
    {
        if present {
            let idx = self.chunk_idx(x, y);
            self.chunks[idx]
        } else {
            None
        }
    }

    /// The patterns that every filled slot around `(chunk_x, chunk_y)`
    /// lists on the side facing it, in index order.
    pub fn candidates(&self, chunk_x: usize, chunk_y: usize) -> (list: Vec<usize>)
        requires
            self.wf(),
            self.inside(chunk_x as int, chunk_y as int),
        ensures
            list@ == self.candidate_list(chunk_x as int, chunk_y as int, self.constraints@.len() as int),
    {
        let left: Option<usize> = self.neighbour(if chunk_x > 0 { chunk_x - 1 } else { 0 }, chunk_y, chunk_x > 0);
        let right: Option<usize> = self.neighbour(chunk_x + 1, chunk_y, chunk_x < self.chunks_x - 1);
        let up: Option<usize> = self.neighbour(chunk_x, if chunk_y > 0 { chunk_y - 1 } else { 0 }, chunk_y > 0);
        let down: Option<usize> = self.neighbour(chunk_x, chunk_y + 1, chunk_y < self.chunks_y - 1);
        let n: usize = self.constraints.len();
        let mut list: Vec<usize> = Vec::new();
        let mut p: usize = 0;
        while p < n
            invariant
                self.wf(),
                self.inside(chunk_x as int, chunk_y as int),
                n == self.constraints@.len(),
                p <= n,
                left == (if chunk_x > 0 { self.slot(chunk_x - 1, chunk_y as int) } else { None }),
                right == (if chunk_x < self.chunks_x - 1 { self.slot(chunk_x + 1, chunk_y as int) } else { None }),
                up == (if chunk_y > 0 { self.slot(chunk_x as int, chunk_y - 1) } else { None }),
                down == (if chunk_y < self.chunks_y - 1 { self.slot(chunk_x as int, chunk_y + 1) } else { None }),
                left is Some ==> left->0 < n,
                right is Some ==> right->0 < n,
                up is Some ==> up->0 < n,
                down is Some ==> down->0 < n,
                list@ == self.candidate_list(chunk_x as int, chunk_y as int, p as int),
            decreases n - p,
        {
            let ok_left: bool = match left {
                Some(nt) => list_holds(&self.constraints[nt].compatible_with[3], p),
                None => true,
            };
            let ok_right: bool = match right {
                Some(nt) => list_holds(&self.constraints[nt].compatible_with[2], p),
                None => true,
            };
            let ok_up: bool = match up {
                Some(nt) => list_holds(&self.constraints[nt].compatible_with[1], p),
                None => true,
            };
            let ok_down: bool = match down {
                Some(nt) => list_holds(&self.constraints[nt].compatible_with[0], p),
                None => true,
            };
            if ok_left && ok_right && ok_up && ok_down {
                list.push(p);
            }
            p += 1;
        }
        list
    }

    /// Puts `pattern` into the empty slot `(chunk_x, chunk_y)` and copies
    /// its tiles onto the map.
    pub fn place(&mut self, map: &mut TileMap, chunk_x: usize, chunk_y: usize, pattern: usize)
        requires
            old(self).wf(),
            old(map).wf(),
            old(self).fits(old(map)),
            old(self).inside(chunk_x as int, chunk_y as int),
            pattern < old(self).constraints@.len(),
            old(self).slot(chunk_x as int, chunk_y as int) is None,
            forall|k: int|
                0 <= k < old(self).remaining@.len() ==> (#[trigger] old(self).remaining@[k]).0 != cell_index(
                    old(self).chunks_x as int,
                    chunk_x as int,
                    chunk_y as int,
                ),
        ensures
            final(self).wf(),
            final(self).fits(final(map)),
            final(map).same_frame(old(map)),
            final(self).chunks@ == old(self).chunks@.update(
                cell_index(old(self).chunks_x as int, chunk_x as int, chunk_y as int),
                Some(pattern),
            ),
            final(self).remaining@ == old(self).remaining@,
            final(self).constraints@ == old(self).constraints@,
            final(self).chunk_size == old(self).chunk_size,
            final(self).chunks_x == old(self).chunks_x,
            final(self).chunks_y == old(self).chunks_y,
            final(self).possible == old(self).possible,
            forall|i: int|
                0 <= i < final(map).tiles@.len() ==> #[trigger] final(map).tiles@[i] == stamped_tile(
                    old(self).constraints@[pattern as int].pattern@,
                    old(self).chunk_size as int,
                    chunk_x * old(self).chunk_size,
                    chunk_y * old(self).chunk_size,
                    old(map).x_of(i),
                    old(map).y_of(i),
                    old(map).tiles@[i],
                ),
            old(self).agrees() && old(self).is_candidate(chunk_x as int, chunk_y as int, pattern) ==> final(self).agrees(),
            old(self).shown(old(map)) ==> final(self).shown(final(map)),
    {
        let idx: usize = self.chunk_idx(chunk_x, chunk_y);
        proof {
            assert((chunk_x + 1) * self.chunk_size <= self.chunks_x * self.chunk_size) by (nonlinear_arith)
                requires
                    chunk_x < self.chunks_x,
                    self.chunk_size >= 1,
            ;
            assert((chunk_y + 1) * self.chunk_size <= self.chunks_y * self.chunk_size) by (nonlinear_arith)
                requires
                    chunk_y < self.chunks_y,
                    self.chunk_size >= 1,
            ;
            assert((chunk_x + 1) * self.chunk_size == chunk_x * self.chunk_size + self.chunk_size)
                by (nonlinear_arith);
            assert((chunk_y + 1) * self.chunk_size == chunk_y * self.chunk_size + self.chunk_size)
                by (nonlinear_arith);
            assert(0 <= chunk_x * self.chunk_size && 0 <= chunk_y * self.chunk_size) by (nonlinear_arith)
                requires
                    self.chunk_size >= 1,
            ;
        }
        self.chunks[idx] = Some(pattern);
        let left: i32 = chunk_x as i32 * self.chunk_size;
        let top: i32 = chunk_y as i32 * self.chunk_size;
        stamp_pattern(map, &self.constraints[pattern].pattern, self.chunk_size, left, top);
        proof {
            let cols = self.chunks_x as int;
            let rows = self.chunks_y as int;
            let cx = chunk_x as int;
            let cy = chunk_y as int;
            lemma_cell_index_bounds(cols, rows, cx, cy);
            if old(self).shown(old(map)) {
                assert forall|x: int, y: int, i: int|
                    self.inside(x, y) && 0 <= i < map.tiles@.len() implies #[trigger] self.slot_shown(map, x, y, i) by {
                    lemma_cell_index_bounds(cols, rows, x, y);
                    let ax = map.x_of(i) - x * self.chunk_size;
                    let ay = map.y_of(i) - y * self.chunk_size;
                    if !(x == cx && y == cy) {
                        assert(old(self).slot_shown(old(map), x, y, i));
                        assert(self.slot(x, y) == old(self).slot(x, y));
                        if 0 <= ax < self.chunk_size && 0 <= ay < self.chunk_size {
                            let bx = map.x_of(i) - cx * self.chunk_size;
                            let by = map.y_of(i) - cy * self.chunk_size;
                            if x != cx && 0 <= bx < self.chunk_size {
                                self.lemma_places_apart(x, cx, ax, bx);
                            }
                            if y != cy && 0 <= by < self.chunk_size {
                                self.lemma_places_apart(y, cy, ay, by);
                            }
                            assert(map.tiles@[i] == old(map).tiles@[i]);
                        }
                    }
                }
            }
            if old(self).agrees() && old(self).is_candidate(cx, cy, pattern) {
                assert forall|x: int, y: int|
                    #![trigger self.slot(x, y), self.slot(x + 1, y)]
            0 <= x < self.chunks_x - 1 && 0 <= y < self.chunks_y && self.slot(x, y) is Some
                        && self.slot(x + 1, y) is Some implies self.beside(
                    self.slot(x, y)->0,
                    self.slot(x + 1, y)->0,
                ) by {
                    lemma_cell_index_bounds(cols, rows, x, y);
                    lemma_cell_index_bounds(cols, rows, x + 1, y);
                    if x == cx && y == cy {
                        assert(old(self).slot(x + 1, y) == self.slot(x + 1, y));
                    } else if x + 1 == cx && y == cy {
                        assert(old(self).slot(x, y) == self.slot(x, y));
                    } else {
                        assert(old(self).slot(x, y) == self.slot(x, y));
                        assert(old(self).slot(x + 1, y) == self.slot(x + 1, y));
                    }
                }
                assert forall|x: int, y: int|
                    #![trigger self.slot(x, y), self.slot(x, y + 1)]
            0 <= x < self.chunks_x && 0 <= y < self.chunks_y - 1 && self.slot(x, y) is Some
                        && self.slot(x, y + 1) is Some implies self.stacked(
                    self.slot(x, y)->0,
                    self.slot(x, y + 1)->0,
                ) by {
                    lemma_cell_index_bounds(cols, rows, x, y);
                    lemma_cell_index_bounds(cols, rows, x, y + 1);
                    if x == cx && y == cy {
                        assert(old(self).slot(x, y + 1) == self.slot(x, y + 1));
                    } else if x == cx && y + 1 == cy {
                        assert(old(self).slot(x, y) == self.slot(x, y));
                    } else {
                        assert(old(self).slot(x, y) == self.slot(x, y));
                        assert(old(self).slot(x, y + 1) == self.slot(x, y + 1));
                    }
                }
            }
        }
    }

    /// `after` has taken slot `(x, y)` off the list of outstanding slots:
    /// the filled slots around every slot of the list were counted and
    /// the list sorted by that count, most first and otherwise in its
    /// order; the slot taken is the first of the sorted list if that one
    /// has a filled slot beside it, and any of the list otherwise; and no
    /// slot left on the list, which keeps the counts, has more filled
    /// slots around it than the one taken.
    pub open spec fn took(&self, after: &Solver, x: int, y: int) -> bool {
        &&& exists|j: int|
            0 <= j < self.remaining@.len() && (ordered(self.recounted())[0].1 > 0 ==> j == 0)
                && #[trigger] ordered(self.recounted())[j].0 == cell_index(self.chunks_x as int, x, y)
                && after.remaining@ == ordered(self.recounted()).remove(j)
        &&& forall|k: int|
            0 <= k < after.remaining@.len() ==> (#[trigger] after.remaining@[k]).1 <= self.neighbour_count(x, y)
    }

    /// Some slot is filled.
    pub open spec fn begun(&self) -> bool {
        exists|fx: int, fy: int| self.inside(fx, fy) && (#[trigger] self.slot(fx, fy)) is Some
    }

    /// Between an empty slot and a filled one lies an empty slot with a
    /// filled slot beside it.
    pub proof fn lemma_frontier(&self, ex: int, ey: int, fx: int, fy: int)
        requires
            self.wf(),
            self.inside(ex, ey),
            self.inside(fx, fy),
            self.slot(ex, ey) is None,
            self.slot(fx, fy) is Some,
        ensures
            exists|x: int, y: int| self.inside(x, y) && (#[trigger] self.slot(x, y)) is None && self.neighbour_count(
                x,
                y,
            ) > 0,
        decreases (if ex >= fx {
            ex - fx
        } else {
            fx - ex
        }) + (if ey >= fy {
            ey - fy
        } else {
            fy - ey
        }),
    {
        let (nx, ny) = if ex > fx {
            (ex - 1, ey)
        } else if ex < fx {
            (ex + 1, ey)
        } else if ey > fy {
            (ex, ey - 1)
        } else {
            (ex, ey + 1)
        };
        assert(ex != fx || ey != fy);
        assert(self.inside(nx, ny));
        if self.slot(nx, ny) is Some {
            assert(self.neighbour_count(ex, ey) > 0);
        } else {
            self.lemma_frontier(nx, ny, fx, fy);
        }
    }

    /// As long as no contradiction was met, once a slot is filled every
    /// slot taken off the list lies beside a filled one.
    pub proof fn lemma_taken_touches(&self, after: &Solver, x: int, y: int, fx: int, fy: int)
        requires
            self.wf(),
            self.possible,
            self.accounted(),
            self.inside(x, y),
            self.slot(x, y) is None,
            self.took(after, x, y),
            self.inside(fx, fy),
            self.slot(fx, fy) is Some,
        ensures
            self.neighbour_count(x, y) > 0,
    {
        self.lemma_frontier(x, y, fx, fy);
        let (ex, ey) = choose|ex: int, ey: int|
            self.inside(ex, ey) && (#[trigger] self.slot(ex, ey)) is None && self.neighbour_count(ex, ey) > 0;
        let w = self.chunks_x as int;
        let at = cell_index(w, ex, ey);
        lemma_cell_index_bounds(w, self.chunks_y as int, ex, ey);
        lemma_cell_index_bounds(w, self.chunks_y as int, x, y);
        assert(self.chunks@[at] is None);
        assert(is_outstanding(self.remaining@, at as usize));
        let m = choose|m: int| 0 <= m < self.remaining@.len() && (#[trigger] self.remaining@[m]).0 == at as usize;
        let counted = self.recounted();
        assert(counted[m].0 == at as usize);
        assert(counted[m].1 == self.neighbour_count(ex, ey));
        lemma_ordered_complete(counted, m);
        let sorted = ordered(counted);
        let jj = choose|jj: int| 0 <= jj < sorted.len() && #[trigger] sorted[jj] == counted[m];
        let j = choose|j: int|
            0 <= j < self.remaining@.len() && (ordered(self.recounted())[0].1 > 0 ==> j == 0)
                && #[trigger] ordered(self.recounted())[j].0 == cell_index(self.chunks_x as int, x, y)
                && after.remaining@ == ordered(self.recounted()).remove(j);
        assert forall|k: int| 0 <= k < counted.len() implies 0 <= (#[trigger] counted[k]).1 <= 4 by {}
        lemma_ordered_len(counted);
        if jj != j {
            let k = if jj < j {
                jj
            } else {
                jj - 1
            };
            assert(0 <= k < sorted.len() - 1);
            assert(sorted.remove(j)[k] == sorted[jj]);
            assert(after.remaining@[k].1 <= self.neighbour_count(x, y));
        }
    }

    /// The slot `(x, y)` that `after` took off the list is empty and has
    /// no candidate.
    pub open spec fn stuck_on(&self, after: &Solver, x: int, y: int) -> bool {
        &&& self.took(after, x, y)
        &&& after.inside(x, y)
        &&& after.slot(x, y) is None
        &&& after.candidate_list(x, y, after.constraints@.len() as int).len() == 0
    }

    /// One slot went from empty to holding pattern `p`, a candidate for
    /// it, and the pattern's tiles were copied onto the slot's place on the
    /// map.
    pub open spec fn filled_one(
        &self,
        after: &Solver,
        map: &TileMap,
        map_after: &TileMap,
        x: int,
        y: int,
        p: usize,
    ) -> bool {
        &&& self.inside(x, y)
        &&& self.slot(x, y) is None
        &&& p < self.constraints@.len()
        &&& self.is_candidate(x, y, p)
        &&& after.chunks@ == self.chunks@.update(cell_index(self.chunks_x as int, x, y), Some(p))
        &&& forall|i: int|
            0 <= i < map_after.tiles@.len() ==> #[trigger] map_after.tiles@[i] == stamped_tile(
                self.constraints@[p as int].pattern@,
                self.chunk_size as int,
                x * self.chunk_size,
                y * self.chunk_size,
                map.x_of(i),
                map.y_of(i),
                map.tiles@[i],
            )
    }

    /// Advances the solver by one slot. Returns `true` when there is
    /// nothing left to do: no slot was outstanding, or no pattern fits the
    /// slot that was chosen, in which case `possible` is cleared.
    pub fn iteration(&mut self, map: &mut TileMap, rng: &mut RandomNumberGenerator) -> (done: bool)
        requires
            old(self).wf(),
            old(map).wf(),
            old(self).fits(old(map)),
        ensures
            final(self).wf(),
            final(self).fits(final(map)),
            final(map).same_frame(old(map)),
            final(self).constraints@ == old(self).constraints@,
            final(self).chunk_size == old(self).chunk_size,
            final(self).chunks_x == old(self).chunks_x,
            final(self).chunks_y == old(self).chunks_y,
            old(self).agrees() ==> final(self).agrees(),
            old(self).accounted() ==> final(self).accounted(),
            old(self).shown(old(map)) ==> final(self).shown(final(map)),
            done && old(self).remaining@.len() > 0 ==> final(self).contradicts() && exists|x: int, y: int| #[trigger]
                old(self).stuck_on(final(self), x, y),
            old(self).remaining@.len() == 0 ==> done && final(self).remaining@.len() == 0 && final(self).chunks@
                == old(self).chunks@ && final(map).tiles@ == old(map).tiles@ && final(self).possible == old(self).possible,
            old(self).remaining@.len() > 0 ==> final(self).remaining@.len() == old(self).remaining@.len() - 1,
            !done ==> final(self).possible == old(self).possible && exists|x: int, y: int, p: usize|
                old(self).filled_one(final(self), old(map), final(map), x, y, p) && old(self).took(final(self), x, y)
                    && (old(self).possible && old(self).accounted() && old(self).begun() ==> old(self).neighbour_count(
                    x,
                    y,
                ) > 0),
            done && old(self).remaining@.len() > 0 ==> !final(self).possible && final(self).chunks@
                == old(self).chunks@ && final(map).tiles@ == old(map).tiles@,
    {
        if self.remaining.len() == 0 {
            return true;
        }
        let (chunk_x, chunk_y) = self.take_slot(rng);
        let choice: Option<usize> = self.pick_pattern(rng, chunk_x, chunk_y);
        proof {
            if old(self).agrees() {
                old(self).lemma_agrees_transfer(self);
            }
            if old(self).shown(old(map)) {
                old(self).lemma_shown_transfer(self, old(map), map);
            }
        }
        match choice {
            None => {
                let ghost taken = *self;
                self.possible = false;
                proof {
                    if taken.agrees() {
                        taken.lemma_agrees_transfer(self);
                    }
                    if taken.shown(map) {
                        taken.lemma_shown_transfer(self, map, map);
                    }
                    taken.lemma_candidates_transfer(
                        self,
                        chunk_x as int,
                        chunk_y as int,
                        self.constraints@.len() as int,
                    );
                    assert(self.slot(chunk_x as int, chunk_y as int) == taken.slot(chunk_x as int, chunk_y as int));
                    assert(self.inside(chunk_x as int, chunk_y as int));
                    assert(old(self).took(self, chunk_x as int, chunk_y as int));
                    assert(old(self).stuck_on(self, chunk_x as int, chunk_y as int));
                }
                true
            },
            Some(new_chunk_idx) => {
                let ghost before = *self;
                self.place(map, chunk_x, chunk_y, new_chunk_idx);
                proof {
                    assert(old(self).chunks@ == before.chunks@);
                    if old(self).accounted() && self.possible {
                        let at = cell_index(self.chunks_x as int, chunk_x as int, chunk_y as int);
                        lemma_cell_index_bounds(
                            self.chunks_x as int,
                            self.chunks_y as int,
                            chunk_x as int,
                            chunk_y as int,
                        );
                        assert(self.chunks@ == before.chunks@.update(at, Some(new_chunk_idx)));
                        assert forall|s: int|
                            0 <= s < self.chunks@.len() && (#[trigger] self.chunks@[s]) is None implies is_outstanding(
                            self.remaining@,
                            s as usize,
                        ) by {
                            assert(s != at);
                            assert(self.chunks@[s] == before.chunks@[s]);
                            assert(before.chunks@[s] is None);
                            assert(old(self).chunks@[s] is None);
                            assert(is_outstanding(old(self).remaining@, s as usize));
                            assert(is_outstanding(before.remaining@, s as usize));
                        }
                    }
                    assert(old(self).chunks@ == before.chunks@);
                    assert(old(self).filled_one(self, old(map), map, chunk_x as int, chunk_y as int, new_chunk_idx));
                    assert(self.remaining@ == before.remaining@);
                    assert(old(self).took(self, chunk_x as int, chunk_y as int));
                    if old(self).possible && old(self).accounted() && old(self).begun() {
                        let (fx, fy) = choose|fx: int, fy: int|
                            old(self).inside(fx, fy) && (#[trigger] old(self).slot(fx, fy)) is Some;
                        old(self).lemma_taken_touches(self, chunk_x as int, chunk_y as int, fx, fy);
                    }
                }
                false
            },
        }
    }

    /// Runs the solver until it is done, and says whether every slot is
    /// filled: a run ends either with no slot outstanding or with a
    /// contradiction.
    pub fn run(&mut self, map: &mut TileMap, rng: &mut RandomNumberGenerator) -> (possible: bool)
        requires
            old(self).wf(),
            old(map).wf(),
            old(self).fits(old(map)),
        ensures
            final(self).wf(),
            final(self).fits(final(map)),
            final(map).same_frame(old(map)),
            final(self).constraints@ == old(self).constraints@,
            final(self).chunk_size == old(self).chunk_size,
            final(self).chunks_x == old(self).chunks_x,
            final(self).chunks_y == old(self).chunks_y,
            possible == final(self).possible,
            old(self).agrees() ==> final(self).agrees(),
            old(self).accounted() ==> final(self).accounted(),
            old(self).shown(old(map)) ==> final(self).shown(final(map)),
            possible && old(self).accounted() ==> final(self).filled(),
            old(self).possible && !possible ==> final(self).contradicts(),
            possible && old(self).agrees() && table_consistent(final(self).constraints@) ==> final(self).borders_agree(),
            !old(self).possible ==> !possible,
    {
        let mut done: bool = false;
        while !done
            invariant
                self.wf(),
                map.wf(),
                self.fits(map),
                map.same_frame(old(map)),
                self.constraints@ == old(self).constraints@,
                self.chunk_size == old(self).chunk_size,
                self.chunks_x == old(self).chunks_x,
                self.chunks_y == old(self).chunks_y,
                old(self).agrees() ==> self.agrees(),
                old(self).accounted() ==> self.accounted(),
                old(self).shown(old(map)) ==> self.shown(map),
                !old(self).possible ==> !self.possible,
                !done ==> self.possible == old(self).possible,
                done && old(self).possible && !self.possible ==> self.contradicts(),
                done ==> self.remaining@.len() == 0 || !self.possible,
            decreases self.remaining@.len() + (if done { 0int } else { 1int }),
        {
            done = self.iteration(map, rng);
        }
        proof {
            if self.possible && old(self).accounted() {
                assert forall|s: int| 0 <= s < self.chunks@.len() implies (#[trigger] self.chunks@[s]) is Some by {
                    if self.chunks@[s] is None {
                        assert(is_outstanding(self.remaining@, s as usize));
                    }
                }
            }
            if self.possible && old(self).agrees() && table_consistent(self.constraints@) {
                self.lemma_borders_agree();
            }
        }
        self.possible
    }

    /// What the map shows depends on the slots, the table and the tiles
    /// alone.
    pub proof fn lemma_shown_transfer(&self, other: &Solver, map: &TileMap, later: &TileMap)
        requires
            self.shown(map),
            self.chunks@ == other.chunks@,
            self.constraints@ == other.constraints@,
            self.chunk_size == other.chunk_size,
            self.chunks_x == other.chunks_x,
            self.chunks_y == other.chunks_y,
            map.tiles@ == later.tiles@,
            map.width == later.width,
        ensures
            other.shown(later),
    {
        assert forall|x: int, y: int, i: int|
            other.inside(x, y) && 0 <= i < later.tiles@.len() implies #[trigger] other.slot_shown(later, x, y, i) by {
            assert(self.slot_shown(map, x, y, i));
            assert(self.slot(x, y) == other.slot(x, y));
        }
    }

    /// Agreement depends on the slots and the table alone.
    pub proof fn lemma_agrees_transfer(&self, other: &Solver)
        requires
            self.agrees(),
            self.chunks@ == other.chunks@,
            self.constraints@ == other.constraints@,
            self.chunks_x == other.chunks_x,
            self.chunks_y == other.chunks_y,
        ensures
            other.agrees(),
    {
        assert forall|x: int, y: int|
            #![trigger other.slot(x, y), other.slot(x + 1, y)]
            0 <= x < other.chunks_x - 1 && 0 <= y < other.chunks_y && other.slot(x, y) is Some && other.slot(
                x + 1,
                y,
            ) is Some implies other.beside(other.slot(x, y)->0, other.slot(x + 1, y)->0) by {
            assert(self.slot(x, y) == other.slot(x, y));
            assert(self.slot(x + 1, y) == other.slot(x + 1, y));
        }
        assert forall|x: int, y: int|
            #![trigger other.slot(x, y), other.slot(x, y + 1)]
            0 <= x < other.chunks_x && 0 <= y < other.chunks_y - 1 && other.slot(x, y) is Some && other.slot(
                x,
                y + 1,
            ) is Some implies other.stacked(other.slot(x, y)->0, other.slot(x, y + 1)->0) by {
            assert(self.slot(x, y) == other.slot(x, y));
            assert(self.slot(x, y + 1) == other.slot(x, y + 1));
        }
    }

    /// Sorts the outstanding slots by the number of filled slots around
    /// them and takes one off the list: the first, if it has a filled
    /// neighbour, and one drawn at random otherwise.
    pub fn take_slot(&mut self, rng: &mut RandomNumberGenerator) -> (slot: (usize, usize))
        requires
            old(self).wf(),
            old(self).remaining@.len() > 0,
        ensures
            final(self).wf(),
            final(self).inside(slot.0 as int, slot.1 as int),
            final(self).slot(slot.0 as int, slot.1 as int) is None,
            forall|k: int|
                0 <= k < final(self).remaining@.len() ==> (#[trigger] final(self).remaining@[k]).0 != cell_index(
                    final(self).chunks_x as int,
                    slot.0 as int,
                    slot.1 as int,
                ),
            final(self).constraints@ == old(self).constraints@,
            final(self).chunks@ == old(self).chunks@,
            final(self).chunk_size == old(self).chunk_size,
            final(self).chunks_x == old(self).chunks_x,
            final(self).chunks_y == old(self).chunks_y,
            final(self).possible == old(self).possible,
            final(self).remaining@.len() == old(self).remaining@.len() - 1,
            exists|j: int|
                0 <= j < old(self).remaining@.len() && (ordered(old(self).recounted())[0].1 > 0 ==> j == 0)
                    && #[trigger] ordered(old(self).recounted())[j].0 == cell_index(
                    old(self).chunks_x as int,
                    slot.0 as int,
                    slot.1 as int,
                ) && final(self).remaining@ == ordered(old(self).recounted()).remove(j),
            forall|k: int|
                0 <= k < final(self).remaining@.len() ==> (#[trigger] final(self).remaining@[k]).1
                    <= final(self).neighbour_count(slot.0 as int, slot.1 as int),
            old(self).took(final(self), slot.0 as int, slot.1 as int),
            forall|s: usize|
                is_outstanding(old(self).remaining@, s) && s != cell_index(
                    final(self).chunks_x as int,
                    slot.0 as int,
                    slot.1 as int,
                ) ==> is_outstanding(final(self).remaining@, s),
    {
        self.prioritise();
        let neighbours_exist: bool = self.remaining[0].1 > 0;
        let remaining_index: usize = if !neighbours_exist {
            (roll_dice(rng, 1, self.remaining.len() as i32) - 1) as usize
        } else {
            0usize
        };
        let chunk_index: usize = self.remaining[remaining_index].0;
        let ghost listed = self.remaining@;
        self.remaining.remove(remaining_index);
        proof {
            assert(self.chunks_x > 0) by (nonlinear_arith)
                requires
                    self.chunks_x * self.chunks_y > 0,
            ;
            lemma_index_to_cell(self.chunks_x as int, self.chunks_y as int, chunk_index as int);
            lemma_entry_removed(listed, remaining_index as int);
            assert(listed[0].1 >= listed[remaining_index as int].1);
            assert forall|k: int| 0 <= k < self.remaining@.len() implies (#[trigger] self.remaining@[k]).0
                < self.chunks@.len() && self.chunks@[self.remaining@[k].0 as int] is None && self.remaining@[k].0
                != chunk_index && self.remaining@[k].1 <= listed[remaining_index as int].1 by {
                let m = if k < remaining_index {
                    k
                } else {
                    k + 1
                };
                assert(self.remaining@[k] == listed[m]);
                assert(listed[0].1 >= listed[m].1);
            }
        }
        (chunk_index % self.chunks_x, chunk_index / self.chunks_x)
    }

    /// Chooses a pattern for slot `(chunk_x, chunk_y)` among its
    /// candidates, at random where there is more than one, and returns
    /// nothing where there is none.
    pub fn pick_pattern(&self, rng: &mut RandomNumberGenerator, chunk_x: usize, chunk_y: usize) -> (choice: Option<
        usize,
    >)
        requires
            self.wf(),
            self.inside(chunk_x as int, chunk_y as int),
        ensures
            match choice {
                Some(p) => p < self.constraints@.len() && self.is_candidate(chunk_x as int, chunk_y as int, p),
                None => self.candidate_list(chunk_x as int, chunk_y as int, self.constraints@.len() as int).len()
                    == 0,
            },
            self.candidate_list(chunk_x as int, chunk_y as int, self.constraints@.len() as int).len() == 1
                ==> choice == Some(
                self.candidate_list(chunk_x as int, chunk_y as int, self.constraints@.len() as int)[0],
            ),
    {
        let neighbours: i32 = self.count_neighbours(chunk_x, chunk_y);
        proof {
            self.lemma_candidate_list(chunk_x as int, chunk_y as int, self.constraints@.len() as int);
        }
        if neighbours == 0 {
            if self.constraints.len() == 0 {
                return None;
            }
            let p: usize = (roll_dice(rng, 1, self.constraints.len() as i32) - 1) as usize;
            proof {
                let list = self.candidate_list(chunk_x as int, chunk_y as int, self.constraints@.len() as int);
                assert(self.is_candidate(chunk_x as int, chunk_y as int, p));
                assert(list.contains(p));
                if list.len() == 1 {
                    assert(self.is_candidate(chunk_x as int, chunk_y as int, 0usize));
                    assert(list.contains(0usize));
                }
            }
            Some(p)
        } else {
            let possible_options: Vec<usize> = self.candidates(chunk_x, chunk_y);
            if possible_options.len() == 0 {
                return None;
            }
            proof {
                assert(possible_options@.len() <= self.constraints@.len()) by {
                    self.lemma_candidate_list_len(chunk_x as int, chunk_y as int, self.constraints@.len() as int);
                }
            }
            let pick: usize = if possible_options.len() == 1 {
                0
            } else {
                (roll_dice(rng, 1, possible_options.len() as i32) - 1) as usize
            };
            Some(possible_options[pick])
        }
    }

    proof fn lemma_candidate_list_len(&self, x: int, y: int, n: int)
        requires
            0 <= n,
        ensures
            self.candidate_list(x, y, n).len() <= n,
        decreases n,
    {
        if n > 0 {
            self.lemma_candidate_list_len(x, y, n - 1);
        }
    }
}

/// The list that a consistent table holds for side `dir` of pattern `i`.
pub open spec fn partner_list_of(table: Seq<MapChunk>, i: int, dir: int) -> Seq<usize> {
    crate::map_builder::waveform_collapse::common::partner_list(table, i, dir, table.len() as int)
}

/// Ranked entries come in falling order of count.
proof fn lemma_ranked_sorted(rem: Seq<(usize, i32)>, c: int)
    requires
        0 <= c <= 5,
        distinct_slots(rem),
    ensures
        forall|j: int, k: int| 0 <= j <= k < ranked(rem, c).len() ==> ranked(rem, c)[j].1 >= ranked(rem, c)[k].1,
    decreases 5 - c,
{
    if c <= 4 {
        lemma_ranked_sorted(rem, c + 1);
        lemma_ranked(rem, c + 1);
        lemma_bucket(rem, c, rem.len() as int);
        let high = ranked(rem, c + 1);
        let low = bucket(rem, c, rem.len() as int);
        let all = ranked(rem, c);
        assert forall|j: int, k: int| 0 <= j <= k < all.len() implies all[j].1 >= all[k].1 by {
            if k < high.len() {
                assert(high[j] == all[j] && high[k] == all[k]);
            } else if j >= high.len() {
                assert(low[j - high.len()] == all[j] && low[k - high.len()] == all[k]);
            } else {
                assert(high[j] == all[j]);
                assert(low[k - high.len()] == all[k]);
            }
        }
    }
}

/// Whether `list` holds `p`.
pub fn list_holds(list: &Vec<usize>, p: usize) -> (r: bool)
    ensures
        r == list@.contains(p),
{
    let mut i: usize = 0;
    while i < list.len()
        invariant
            i <= list@.len(),
            forall|j: int| 0 <= j < i ==> list@[j] != p,
        decreases list@.len() - i,
    {
        if list[i] == p {
            return true;
        }
        i += 1;
    }
    false
}

/// What copying a pattern onto the map with its corner at `(left, top)`
/// leaves at `(cx, cy)`.
pub open spec fn stamped_tile(
    pattern: Seq<TileType>,
    chunk_size: int,
    left: int,
    top: int,
    cx: int,
    cy: int,
    before: TileType,
) -> TileType {
    if left <= cx < left + chunk_size && top <= cy < top + chunk_size {
        pattern[chunk_index(chunk_size, cx - left, cy - top)]
    } else {
        before
    }
}

/// Copies a pattern onto the map, its first tile at `(left, top)`.
pub fn stamp_pattern(map: &mut TileMap, pattern: &Vec<TileType>, chunk_size: i32, left: i32, top: i32)
    requires
        old(map).wf(),
        chunk_size >= 1,
        chunk_size * chunk_size <= i32::MAX,
        pattern@.len() == chunk_size * chunk_size,
        0 <= left,
        left + chunk_size <= old(map).width,
        0 <= top,
        top + chunk_size <= old(map).height,
    ensures
        final(map).same_frame(old(map)),
        forall|i: int|
            0 <= i < final(map).tiles@.len() ==> #[trigger] final(map).tiles@[i] == stamped_tile(
                pattern@,
                chunk_size as int,
                left as int,
                top as int,
                old(map).x_of(i),
                old(map).y_of(i),
                old(map).tiles@[i],
            ),
{
    let mut py: i32 = 0;
    while py < chunk_size
        invariant
            map.same_frame(old(map)),
            chunk_size >= 1,
            chunk_size * chunk_size <= i32::MAX,
            pattern@.len() == chunk_size * chunk_size,
            0 <= left,
            left + chunk_size <= map.width,
            0 <= top,
            top + chunk_size <= map.height,
            0 <= py <= chunk_size,
            forall|i: int|
                0 <= i < map.tiles@.len() ==> #[trigger] map.tiles@[i] == (if old(map).y_of(i) < top + py {
                    stamped_tile(
                        pattern@,
                        chunk_size as int,
                        left as int,
                        top as int,
                        old(map).x_of(i),
                        old(map).y_of(i),
                        old(map).tiles@[i],
                    )
                } else {
                    old(map).tiles@[i]
                }),
        decreases chunk_size - py,
    {
        let mut px: i32 = 0;
        while px < chunk_size
            invariant
                map.same_frame(old(map)),
                chunk_size >= 1,
                chunk_size * chunk_size <= i32::MAX,
                pattern@.len() == chunk_size * chunk_size,
                0 <= left,
                left + chunk_size <= map.width,
                0 <= top,
                top + chunk_size <= map.height,
                0 <= py < chunk_size,
                0 <= px <= chunk_size,
                forall|i: int|
                    0 <= i < map.tiles@.len() ==> #[trigger] map.tiles@[i] == (if old(map).y_of(i) < top + py || (
                    old(map).y_of(i) == top + py && old(map).x_of(i) < left + px) {
                        stamped_tile(
                            pattern@,
                            chunk_size as int,
                            left as int,
                            top as int,
                            old(map).x_of(i),
                            old(map).y_of(i),
                            old(map).tiles@[i],
                        )
                    } else {
                        old(map).tiles@[i]
                    }),
            decreases chunk_size - px,
        {
            let k: usize = crate::map_builder::waveform_collapse::common::tile_idx_in_chunk(chunk_size, px, py);
            map.set_tile(left + px, top + py, pattern[k]);
            px += 1;
        }
        proof {
            assert forall|i: int| 0 <= i < map.tiles@.len() implies #[trigger] map.tiles@[i] == (if old(map).y_of(i)
                < top + py + 1 {
                stamped_tile(
                    pattern@,
                    chunk_size as int,
                    left as int,
                    top as int,
                    old(map).x_of(i),
                    old(map).y_of(i),
                    old(map).tiles@[i],
                )
            } else {
                old(map).tiles@[i]
            }) by {
                old(map).lemma_cell_of_index(i);
            }
        }
        py += 1;
    }
    proof {
        assert forall|i: int| 0 <= i < map.tiles@.len() implies #[trigger] map.tiles@[i] == stamped_tile(
            pattern@,
            chunk_size as int,
            left as int,
            top as int,
            old(map).x_of(i),
            old(map).y_of(i),
            old(map).tiles@[i],
        ) by {
            old(map).lemma_cell_of_index(i);
        }
    }
}

} // verus!
