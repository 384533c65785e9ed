use crate::map::{copy_flags, copy_tiles, TileType};
use vstd::prelude::*;

verus! {

/// The side of a chunk that faces up.
pub const NORTH: usize = 0;

/// The side of a chunk that faces down.
pub const SOUTH: usize = 1;

/// The side of a chunk that faces left.
pub const WEST: usize = 2;

/// The side of a chunk that faces right.
pub const EAST: usize = 3;

/// A square pattern of tiles, the places along its four sides where it is
/// open, and the patterns that may stand next to it on each side.
#[derive(Debug)]
pub struct MapChunk {
    pub pattern: Vec<TileType>,
    pub exits: [Vec<bool>; 4],
    pub has_exits: bool,
    pub compatible_with: [Vec<usize>; 4],
}

/// Index of the tile at `(x, y)` within a chunk.
pub open spec fn chunk_index(chunk_size: int, x: int, y: int) -> int {
    y * chunk_size + x
}

/// The side opposite to `dir`.
pub open spec fn opposite(dir: int) -> int {
    if dir == 0 {
        1
    } else if dir == 1 {
        0
    } else if dir == 2 {
        3
    } else {
        2
    }
}

/// Index within a chunk of the border tile at place `slot` of side `dir`.
pub open spec fn border_index(chunk_size: int, dir: int, slot: int) -> int {
    if dir == 0 {
        chunk_index(chunk_size, slot, 0)
    } else if dir == 1 {
        chunk_index(chunk_size, slot, chunk_size - 1)
    } else if dir == 2 {
        chunk_index(chunk_size, 0, slot)
    } else {
        chunk_index(chunk_size, chunk_size - 1, slot)
    }
}

/// The exit bitmap of side `dir`: one flag per border tile, set where the
/// tile is floor.
pub open spec fn exit_row(pattern: Seq<TileType>, chunk_size: int, dir: int) -> Seq<bool> {
    Seq::new(chunk_size as nat, |slot: int| pattern[border_index(chunk_size, dir, slot)] == TileType::Floor)
}

/// Some place of the bitmap is open.
pub open spec fn any_open(row: Seq<bool>) -> bool {
    exists|s: int| 0 <= s < row.len() && #[trigger] row[s]
}

/// Some place is open in both bitmaps.
pub open spec fn share_open(a: Seq<bool>, b: Seq<bool>) -> bool {
    exists|s: int| 0 <= s < a.len() && s < b.len() && #[trigger] a[s] && b[s]
}

/// Two facing sides agree: they share an open place, or one of them has
/// no open place at all.
pub open spec fn sides_agree(a: Seq<bool>, b: Seq<bool>) -> bool {
    !any_open(a) || !any_open(b) || share_open(a, b)
}

/// Agreement does not depend on which side is named first.
pub proof fn lemma_sides_agree_symmetric(a: Seq<bool>, b: Seq<bool>)
    ensures
        sides_agree(a, b) == sides_agree(b, a),
{
    if share_open(a, b) {
        let s = choose|s: int| 0 <= s < a.len() && s < b.len() && #[trigger] a[s] && b[s];
        assert(b[s] && a[s]);
    }
    if share_open(b, a) {
        let s = choose|s: int| 0 <= s < b.len() && s < a.len() && #[trigger] b[s] && a[s];
        assert(a[s] && b[s]);
    }
}

/// The patterns among the first `n` of `table` that may stand on side
/// `dir` of pattern `i`, in index order: those whose facing side agrees
/// with side `dir` of pattern `i`.
pub open spec fn partner_list(table: Seq<MapChunk>, i: int, dir: int, n: int) -> Seq<usize>
    decreases n,
{
    if n <= 0 {
        Seq::empty()
    } else {
        let rest = partner_list(table, i, dir, n - 1);
        if sides_agree(table[i].side(dir), table[n - 1].side(opposite(dir))) {
            rest.push((n - 1) as usize)
        } else {
            rest
        }
    }
}

/// Every list of possible neighbours holds exactly the patterns whose
/// facing side agrees.
pub open spec fn table_consistent(table: Seq<MapChunk>) -> bool {
    forall|i: int, dir: int|
        0 <= i < table.len() && 0 <= dir < 4 ==> #[trigger] table[i].partners(dir) == partner_list(
            table,
            i,
            dir,
            table.len() as int,
        )
}

/// `table` is the constraint table of `patterns`: one chunk per pattern,
/// with that pattern's bitmaps, and with consistent neighbour lists.
pub open spec fn is_constraint_table(table: Seq<MapChunk>, patterns: Seq<Seq<TileType>>, chunk_size: int) -> bool {
    &&& table.len() == patterns.len()
    &&& forall|i: int|
        0 <= i < table.len() ==> (#[trigger] table[i]).pattern@ == patterns[i] && table[i].describes_pattern(
            chunk_size,
        )
    &&& table_consistent(table)
}

/// A pattern is listed as a possible neighbour exactly when the facing
/// sides agree.
pub proof fn lemma_partner_list(table: Seq<MapChunk>, i: int, dir: int, n: int, j: int)
    requires
        0 <= n <= usize::MAX,
    ensures
        forall|k: int| 0 <= k < partner_list(table, i, dir, n).len() ==> #[trigger] partner_list(table, i, dir, n)[k]
            < n,
        0 <= j <= usize::MAX ==> (partner_list(table, i, dir, n).contains(j as usize) <==> 0 <= j < n
            && sides_agree(table[i].side(dir), table[j].side(opposite(dir)))),
    decreases n,
{
    if n > 0 {
        let rest = partner_list(table, i, dir, n - 1);
        let all = partner_list(table, i, dir, n);
        lemma_partner_list(table, i, dir, n - 1, j);
        if sides_agree(table[i].side(dir), table[n - 1].side(opposite(dir))) {
            assert(all[all.len() - 1] == (n - 1) as usize);
            if 0 <= j <= usize::MAX {
                if all.contains(j as usize) {
                    let k = choose|k: int| 0 <= k < all.len() && all[k] == j as usize;
                    if k < rest.len() {
                        assert(rest[k] == j as usize);
                    }
                }
                if rest.contains(j as usize) {
                    let k = choose|k: int| 0 <= k < rest.len() && rest[k] == j as usize;
                    assert(all[k] == j as usize);
                }
            }
        }
    } else {
        assert(partner_list(table, i, dir, n) =~= Seq::<usize>::empty());
    }
}

impl MapChunk {
    /// The exit bitmap of side `dir`.
    pub open spec fn side(&self, dir: int) -> Seq<bool> {
        self.exits@[dir]@
    }

    /// The patterns listed as possible neighbours on side `dir`.
    pub open spec fn partners(&self, dir: int) -> Seq<usize> {
        self.compatible_with@[dir]@
    }

    /// The bitmaps and the flag are those of the pattern.
    pub open spec fn describes_pattern(&self, chunk_size: int) -> bool {
        &&& self.pattern@.len() == chunk_size * chunk_size
        &&& forall|dir: int| 0 <= dir < 4 ==> #[trigger] self.side(dir) == exit_row(self.pattern@, chunk_size, dir)
        &&& self.has_exits == (any_open(self.side(0)) || any_open(self.side(1)) || any_open(self.side(2))
            || any_open(self.side(3)))
    }

    /// A copy that shares nothing with `self`.
    pub fn duplicate(&self) -> (copy: MapChunk)
        ensures
            copy.pattern@ == self.pattern@,
            copy.has_exits == self.has_exits,
            forall|dir: int| 0 <= dir < 4 ==> #[trigger] copy.side(dir) == self.side(dir),
            forall|dir: int| 0 <= dir < 4 ==> #[trigger] copy.partners(dir) == self.partners(dir),
    {
        let copy = MapChunk {
            pattern: copy_tiles(&self.pattern),
            exits: [
                copy_flags(&self.exits[0]),
                copy_flags(&self.exits[1]),
                copy_flags(&self.exits[2]),
                copy_flags(&self.exits[3]),
            ],
            has_exits: self.has_exits,
            compatible_with: [
                copy_indices(&self.compatible_with[0]),
                copy_indices(&self.compatible_with[1]),
                copy_indices(&self.compatible_with[2]),
                copy_indices(&self.compatible_with[3]),
            ],
        };
        copy
    }
}

/// An element-by-element copy of an index list.
pub fn copy_indices(src: &Vec<usize>) -> (dst: Vec<usize>)
    ensures
        dst@ == src@,
{
    let mut dst: Vec<usize> = Vec::new();
    let mut i: usize = 0;
    while i < src.len()
        invariant
            i <= src@.len(),
            dst@ == src@.subrange(0, i as int),
        decreases src@.len() - i,
    {
        dst.push(src[i]);
        proof {
            assert(dst@ =~= src@.subrange(0, i + 1));
        }
        i += 1;
    }
    proof {
        assert(dst@ =~= src@);
    }
    dst
}

/// The index of the tile at `(x, y)` within a chunk, counted row by row.
pub fn tile_idx_in_chunk(chunk_size: i32, x: i32, y: i32) -> (idx: usize)
    requires
        0 <= x < chunk_size,
        0 <= y < chunk_size,
        chunk_size * chunk_size <= i32::MAX,
    ensures
        idx == chunk_index(chunk_size as int, x as int, y as int),
        idx < chunk_size * chunk_size,
{
    proof {
        crate::map::lemma_cell_index_bounds(chunk_size as int, chunk_size as int, x as int, y as int);
    }
    ((y * chunk_size) + x) as usize
}

} // verus!
