use crate::map::{copy_tiles, TileMap, TileType};
use crate::map::copy_flags;
use crate::map_builder::waveform_collapse::common::{
    any_open, border_index, exit_row, is_constraint_table, MapChunk, opposite, partner_list, share_open,
    sides_agree, tile_idx_in_chunk,
};
use crate::map_builder::waveform_collapse::solver::{stamp_pattern, stamped_tile};
use vstd::prelude::*;

verus! {

/// The tile sequences of a list of patterns.
pub open spec fn pattern_views(patterns: Seq<Vec<TileType>>) -> Seq<Seq<TileType>> {
    Seq::new(patterns.len(), |i: int| patterns[i]@)
}

/// The pattern cut from chunk `(cx, cy)` of a map `width` cells wide,
/// read row by row, mirrored left to right under `flip_h` and top to
/// bottom under `flip_v`.
pub open spec fn chunk_pattern(
    tiles: Seq<TileType>,
    width: int,
    chunk_size: int,
    cx: int,
    cy: int,
    flip_h: bool,
    flip_v: bool,
) -> Seq<TileType> {
    Seq::new(
        (chunk_size * chunk_size) as nat,
        |k: int|
            {
                let px = k % chunk_size;
                let py = k / chunk_size;
                let sx = if flip_h {
                    chunk_size - 1 - px
                } else {
                    px
                };
                let sy = if flip_v {
                    chunk_size - 1 - py
                } else {
                    py
                };
                tiles[(cy * chunk_size + sy) * width + cx * chunk_size + sx]
            },
    )
}

/// All patterns of a map before duplicates are dropped: chunk by chunk,
/// row by row, and for each chunk, with `flips`, the pattern as it is,
/// mirrored left to right, mirrored top to bottom, and mirrored both ways.
pub open spec fn raw_patterns(map: &TileMap, chunk_size: int, flips: bool) -> Seq<Seq<TileType>> {
    let chunks_x = (map.width as int) / chunk_size;
    let chunks_y = (map.height as int) / chunk_size;
    let per_chunk: int = if flips {
        4
    } else {
        1
    };
    Seq::new(
        (chunks_x * chunks_y * per_chunk) as nat,
        |k: int|
            {
                let c = k / per_chunk;
                let v = k % per_chunk;
                chunk_pattern(
                    map.tiles@,
                    map.width as int,
                    chunk_size,
                    c % chunks_x,
                    c / chunks_x,
                    v == 1 || v == 3,
                    v == 2 || v == 3,
                )
            },
    )
}

/// The first `n` entries of `raw` with every repetition of an earlier
/// entry dropped.
pub open spec fn unique_prefix(raw: Seq<Seq<TileType>>, n: int) -> Seq<Seq<TileType>>
    decreases n,
{
    if n <= 0 {
        Seq::empty()
    } else {
        let rest = unique_prefix(raw, n - 1);
        if rest.contains(raw[n - 1]) {
            rest
        } else {
            rest.push(raw[n - 1])
        }
    }
}

/// `raw` with every repetition of an earlier entry dropped.
pub open spec fn unique(raw: Seq<Seq<TileType>>) -> Seq<Seq<TileType>> {
    unique_prefix(raw, raw.len() as int)
}

/// Dropping repetitions keeps exactly the patterns that occur, each once.
pub proof fn lemma_unique_prefix(raw: Seq<Seq<TileType>>, n: int)
    requires
        0 <= n <= raw.len(),
    ensures
        forall|p: Seq<TileType>| #[trigger]
            unique_prefix(raw, n).contains(p) <==> raw.subrange(0, n).contains(p),
        forall|i: int, j: int|
            0 <= i < j < unique_prefix(raw, n).len() ==> unique_prefix(raw, n)[i] != unique_prefix(raw, n)[j],
        unique_prefix(raw, n).len() <= n,
    decreases n,
{
    if n > 0 {
        lemma_unique_prefix(raw, n - 1);
        let rest = unique_prefix(raw, n - 1);
        let all = unique_prefix(raw, n);
        let head = raw.subrange(0, n - 1);
        let full = raw.subrange(0, n);
        assert forall|p: Seq<TileType>| #[trigger] all.contains(p) <==> full.contains(p) by {
            if all.contains(p) {
                let k = choose|k: int| 0 <= k < all.len() && all[k] == p;
                if k < rest.len() {
                    assert(rest[k] == p);
                    assert(rest.contains(p));
                    assert(head.contains(p));
                    let m = choose|m: int| 0 <= m < head.len() && head[m] == p;
                    assert(full[m] == p);
                } else {
                    assert(full[n - 1] == p);
                }
            }
            if full.contains(p) {
                let m = choose|m: int| 0 <= m < full.len() && full[m] == p;
                if m < n - 1 {
                    assert(head[m] == p);
                    assert(head.contains(p));
                    assert(rest.contains(p));
                    let k = choose|k: int| 0 <= k < rest.len() && rest[k] == p;
                    assert(all[k] == p);
                } else {
                    if !rest.contains(raw[n - 1]) {
                        assert(all[all.len() - 1] == p);
                    }
                }
            }
        }
        assert forall|i: int, j: int| 0 <= i < j < all.len() implies all[i] != all[j] by {
            if j >= rest.len() {
                assert(rest[i] == all[i]);
                assert(rest.contains(all[i]));
            }
        }
    } else {
        assert(unique_prefix(raw, n) =~= Seq::<Seq<TileType>>::empty());
        assert(raw.subrange(0, n) =~= Seq::<Seq<TileType>>::empty());
    }
}

/// Two lists that hold the same patterns, in whatever order and however
/// often, hold the same patterns after their repetitions are dropped.
pub proof fn lemma_unique_same_set(first: Seq<Seq<TileType>>, second: Seq<Seq<TileType>>)
    requires
        forall|p: Seq<TileType>| first.contains(p) <==> second.contains(p),
    ensures
        forall|p: Seq<TileType>| #[trigger] unique(first).contains(p) <==> unique(second).contains(p),
{
    lemma_unique_prefix(first, first.len() as int);
    lemma_unique_prefix(second, second.len() as int);
    assert(first.subrange(0, first.len() as int) =~= first);
    assert(second.subrange(0, second.len() as int) =~= second);
    assert forall|p: Seq<TileType>| #[trigger] unique(first).contains(p) <==> unique(second).contains(p) by {
        assert(unique(first).contains(p) <==> first.contains(p));
        assert(unique(second).contains(p) <==> second.contains(p));
    }
}

/// Two runs of `build_patterns` with `dedupe` on the same map, chunk size
/// and flipping give the same set of patterns, each pattern once.
pub proof fn lemma_dedupe_repeatable(
    map: &TileMap,
    chunk_size: int,
    flips: bool,
    first: Seq<Seq<TileType>>,
    second: Seq<Seq<TileType>>,
)
    requires
        first == unique(raw_patterns(map, chunk_size, flips)),
        second == unique(raw_patterns(map, chunk_size, flips)),
    ensures
        forall|p: Seq<TileType>| first.contains(p) <==> second.contains(p),
        forall|i: int, j: int| 0 <= i < j < first.len() ==> first[i] != first[j],
        unique(first) == first,
{
    let raw = raw_patterns(map, chunk_size, flips);
    lemma_unique_prefix(raw, raw.len() as int);
    lemma_unique_idempotent(raw);
}

/// Dropping repetitions a second time changes nothing.
pub proof fn lemma_unique_idempotent(raw: Seq<Seq<TileType>>)
    ensures
        unique(unique(raw)) == unique(raw),
{
    lemma_unique_prefix(raw, raw.len() as int);
    lemma_distinct_unique_prefix(unique(raw), unique(raw).len() as int);
    assert(unique(raw).subrange(0, unique(raw).len() as int) =~= unique(raw));
}

/// A list without repetitions is its own list of first occurrences.
proof fn lemma_distinct_unique_prefix(s: Seq<Seq<TileType>>, n: int)
    requires
        0 <= n <= s.len(),
        forall|i: int, j: int| 0 <= i < j < s.len() ==> s[i] != s[j],
    ensures
        unique_prefix(s, n) == s.subrange(0, n),
    decreases n,
{
    if n > 0 {
        lemma_distinct_unique_prefix(s, n - 1);
        let rest = unique_prefix(s, n - 1);
        if rest.contains(s[n - 1]) {
            let k = choose|k: int| 0 <= k < rest.len() && rest[k] == s[n - 1];
            assert(s[k] == s[n - 1]);
        }
        assert(rest.push(s[n - 1]) =~= s.subrange(0, n));
    } else {
        assert(unique_prefix(s, n) =~= s.subrange(0, n));
    }
}

/// Whether two tile vectors hold the same tiles.
pub fn same_tiles(a: &Vec<TileType>, b: &Vec<TileType>) -> (r: bool)
    ensures
        r == (a@ == b@),
{
    if a.len() != b.len() {
        return false;
    }
    let mut i: usize = 0;
    while i < a.len()
        invariant
            a@.len() == b@.len(),
            i <= a@.len(),
            forall|j: int| 0 <= j < i ==> a@[j] == b@[j],
        decreases a@.len() - i,
    {
        if a[i] != b[i] {
            return false;
        }
        i += 1;
    }
    proof {
        assert(a@ =~= b@);
    }
    true
}

/// Cuts one pattern out of the map.
fn cut_pattern(map: &TileMap, chunk_size: i32, cx: i32, cy: i32, flip_h: bool, flip_v: bool) -> (pattern: Vec<
    TileType,
>)
    requires
        map.wf(),
        chunk_size >= 1,
        0 <= cx < map.width / chunk_size,
        0 <= cy < map.height / chunk_size,
    ensures
        pattern@ == chunk_pattern(
            map.tiles@,
            map.width as int,
            chunk_size as int,
            cx as int,
            cy as int,
            flip_h,
            flip_v,
        ),
{
    proof {
        lemma_chunk_inside(map.width as int, chunk_size as int, cx as int);
        lemma_chunk_inside(map.height as int, chunk_size as int, cy as int);
    }
    let start_x: i32 = cx * chunk_size;
    let start_y: i32 = cy * chunk_size;
    let mut pattern: Vec<TileType> = Vec::new();
    let ghost goal = chunk_pattern(
        map.tiles@,
        map.width as int,
        chunk_size as int,
        cx as int,
        cy as int,
        flip_h,
        flip_v,
    );
    let mut py: i32 = 0;
    while py < chunk_size
        invariant
            map.wf(),
            chunk_size >= 1,
            0 <= py <= chunk_size,
            start_x == cx * chunk_size,
            start_y == cy * chunk_size,
            0 <= start_x,
            0 <= start_y,
            start_x + chunk_size <= map.width,
            start_y + chunk_size <= map.height,
            goal == chunk_pattern(
                map.tiles@,
                map.width as int,
                chunk_size as int,
                cx as int,
                cy as int,
                flip_h,
                flip_v,
            ),
            pattern@.len() == py * chunk_size,
            forall|k: int| 0 <= k < pattern@.len() ==> #[trigger] pattern@[k] == goal[k],
        decreases chunk_size - py,
    {
        let mut px: i32 = 0;
        while px < chunk_size
            invariant
                map.wf(),
                chunk_size >= 1,
                0 <= py < chunk_size,
                0 <= px <= chunk_size,
                start_x == cx * chunk_size,
                start_y == cy * chunk_size,
                0 <= start_x,
                0 <= start_y,
                start_x + chunk_size <= map.width,
                start_y + chunk_size <= map.height,
                goal == chunk_pattern(
                    map.tiles@,
                    map.width as int,
                    chunk_size as int,
                    cx as int,
                    cy as int,
                    flip_h,
                    flip_v,
                ),
                pattern@.len() == py * chunk_size + px,
                forall|k: int| 0 <= k < pattern@.len() ==> #[trigger] pattern@[k] == goal[k],
            decreases chunk_size - px,
        {
            let sx: i32 = if flip_h {
                chunk_size - 1 - px
            } else {
                px
            };
            let sy: i32 = if flip_v {
                chunk_size - 1 - py
            } else {
                py
            };
            let t: TileType = map.tile(start_x + sx, start_y + sy);
            proof {
                let k = py * chunk_size + px;
                crate::map::lemma_cell_index_bounds(chunk_size as int, chunk_size as int, px as int, py as int);
                assert(k % (chunk_size as int) == px);
                assert(k / (chunk_size as int) == py);
                assert(0 <= k < chunk_size * chunk_size);
                assert(goal[k] == t);
            }
            pattern.push(t);
            px += 1;
        }
        proof {
            assert((py + 1) * chunk_size == py * chunk_size + chunk_size) by (nonlinear_arith);
        }
        py += 1;
    }
    proof {
        assert(pattern@ =~= goal);
    }
    pattern
}

/// Chunk number `c` along an axis of length `extent` lies inside it.
proof fn lemma_chunk_inside(extent: int, chunk_size: int, c: int)
    requires
        chunk_size >= 1,
        extent >= 0,
        0 <= c < extent / chunk_size,
    ensures
        0 <= c * chunk_size,
        c * chunk_size + chunk_size <= extent,
{
    vstd::arithmetic::div_mod::lemma_fundamental_div_mod(extent, chunk_size);
    vstd::arithmetic::div_mod::lemma_mod_bound(extent, chunk_size);
    assert(c * chunk_size + chunk_size <= (extent / chunk_size) * chunk_size) by (nonlinear_arith)
        requires
            0 <= c < extent / chunk_size,
            chunk_size >= 1,
    ;
    assert(0 <= c * chunk_size) by (nonlinear_arith)
        requires
            0 <= c,
            chunk_size >= 1,
    ;
    assert((extent / chunk_size) * chunk_size == chunk_size * (extent / chunk_size)) by (nonlinear_arith);
}

/// Whether `list` holds a vector with the tiles of `p`.
fn holds_pattern(list: &Vec<Vec<TileType>>, p: &Vec<TileType>) -> (r: bool)
    ensures
        r == pattern_views(list@).contains(p@),
{
    let mut i: usize = 0;
    while i < list.len()
        invariant
            i <= list@.len(),
            forall|j: int| 0 <= j < i ==> pattern_views(list@)[j] != p@,
        decreases list@.len() - i,
    {
        if same_tiles(&list[i], p) {
            proof {
                assert(pattern_views(list@)[i as int] == p@);
            }
            return true;
        }
        i += 1;
    }
    false
}

/// Cuts the map into square chunks of `chunk_size` tiles a side and
/// returns their patterns; with `include_flipping` also each pattern's
/// three mirror images; with `dedupe` each distinct pattern once only, in
/// the order of first occurrence.
pub fn build_patterns(map: &TileMap, chunk_size: i32, include_flipping: bool, dedupe: bool) -> (patterns: Vec<
    Vec<TileType>,
>)
    requires
        map.wf(),
        chunk_size >= 1,
    ensures
        pattern_views(patterns@) == (if dedupe {
            unique(raw_patterns(map, chunk_size as int, include_flipping))
        } else {
            raw_patterns(map, chunk_size as int, include_flipping)
        }),
{
    let chunks_x: i32 = map.width / chunk_size;
    let chunks_y: i32 = map.height / chunk_size;
    let ghost raw = raw_patterns(map, chunk_size as int, include_flipping);
    let ghost per_chunk: int = if include_flipping {
        4
    } else {
        1
    };
    let mut patterns: Vec<Vec<TileType>> = Vec::new();
    let ghost mut seen: int = 0;
    proof {
        vstd::arithmetic::div_mod::lemma_div_pos_is_pos(map.width as int, chunk_size as int);
        vstd::arithmetic::div_mod::lemma_div_pos_is_pos(map.height as int, chunk_size as int);
        assert(0 <= chunks_x * chunks_y * per_chunk) by (nonlinear_arith)
            requires
                0 <= chunks_x,
                0 <= chunks_y,
                1 <= per_chunk,
        ;
    }
    let mut cy: i32 = 0;
    while cy < chunks_y
        invariant
            map.wf(),
            chunk_size >= 1,
            chunks_x == map.width / chunk_size,
            chunks_y == map.height / chunk_size,
            0 <= chunks_x,
            0 <= cy <= chunks_y,
            per_chunk == (if include_flipping { 4int } else { 1int }),
            raw == raw_patterns(map, chunk_size as int, include_flipping),
            raw.len() == chunks_x * chunks_y * per_chunk,
            seen == cy * chunks_x * per_chunk,
            0 <= seen <= raw.len(),
            pattern_views(patterns@) == (if dedupe {
                unique_prefix(raw, seen)
            } else {
                raw.subrange(0, seen)
            }),
        decreases chunks_y - cy,
    {
        let mut cx: i32 = 0;
        while cx < chunks_x
            invariant
                map.wf(),
                chunk_size >= 1,
                chunks_x == map.width / chunk_size,
                chunks_y == map.height / chunk_size,
                0 <= cy < chunks_y,
                0 <= cx <= chunks_x,
                per_chunk == (if include_flipping { 4int } else { 1int }),
                raw == raw_patterns(map, chunk_size as int, include_flipping),
                raw.len() == chunks_x * chunks_y * per_chunk,
                seen == (cy * chunks_x + cx) * per_chunk,
                0 <= seen <= raw.len(),
                pattern_views(patterns@) == (if dedupe {
                    unique_prefix(raw, seen)
                } else {
                    raw.subrange(0, seen)
                }),
            decreases chunks_x - cx,
        {
            proof {
                let c = cy * chunks_x + cx;
                crate::map::lemma_cell_index_bounds(chunks_x as int, chunks_y as int, cx as int, cy as int);
                assert((c + 1) * per_chunk <= chunks_x * chunks_y * per_chunk) by (nonlinear_arith)
                    requires
                        0 <= c < chunks_x * chunks_y,
                        1 <= per_chunk,
                ;
                assert((c + 1) * per_chunk == c * per_chunk + per_chunk) by (nonlinear_arith);
                assert(forall|v: int| 0 <= v < per_chunk ==> (#[trigger] (c * per_chunk + v)) / per_chunk == c && (c
                    * per_chunk + v) % per_chunk == v) by {
                    assert forall|v: int| 0 <= v < per_chunk implies (#[trigger] (c * per_chunk + v)) / per_chunk
                        == c && (c * per_chunk + v) % per_chunk == v by {
                        vstd::arithmetic::div_mod::lemma_fundamental_div_mod_converse(
                            c * per_chunk + v,
                            per_chunk,
                            c,
                            v,
                        );
                    }
                }
            }
            let plain: Vec<TileType> = cut_pattern(map, chunk_size, cx, cy, false, false);
            proof {
                assert(raw[seen] == plain@);
            }
            add_pattern(&mut patterns, plain, dedupe, Ghost(raw), Ghost(seen));
            proof {
                seen = seen + 1;
            }
            if include_flipping {
                let pattern_horizontal: Vec<TileType> = cut_pattern(map, chunk_size, cx, cy, true, false);
                proof {
                    assert(raw[seen] == pattern_horizontal@);
                }
                add_pattern(&mut patterns, pattern_horizontal, dedupe, Ghost(raw), Ghost(seen));
                proof {
                    seen = seen + 1;
                }
                let pattern_vertical: Vec<TileType> = cut_pattern(map, chunk_size, cx, cy, false, true);
                proof {
                    assert(raw[seen] == pattern_vertical@);
                }
                add_pattern(&mut patterns, pattern_vertical, dedupe, Ghost(raw), Ghost(seen));
                proof {
                    seen = seen + 1;
                }
                let pattern_both: Vec<TileType> = cut_pattern(map, chunk_size, cx, cy, true, true);
                proof {
                    assert(raw[seen] == pattern_both@);
                }
                add_pattern(&mut patterns, pattern_both, dedupe, Ghost(raw), Ghost(seen));
                proof {
                    seen = seen + 1;
                }
            }
            cx += 1;
        }
        proof {
            assert((cy + 1) * chunks_x * per_chunk == (cy * chunks_x + chunks_x) * per_chunk) by (nonlinear_arith);
        }
        cy += 1;
    }
    proof {
        assert(chunks_y * chunks_x * per_chunk == chunks_x * chunks_y * per_chunk) by (nonlinear_arith);
        assert(seen == raw.len());
        assert(raw.subrange(0, seen) =~= raw);
    }
    patterns
}

/// Appends entry `seen` of `raw` to the list, unless duplicates are to be
/// dropped and the list holds it already.
fn add_pattern(
    patterns: &mut Vec<Vec<TileType>>,
    pattern: Vec<TileType>,
    dedupe: bool,
    Ghost(raw): Ghost<Seq<Seq<TileType>>>,
    Ghost(seen): Ghost<int>,
)
    requires
        0 <= seen < raw.len(),
        raw[seen] == pattern@,
        pattern_views(old(patterns)@) == (if dedupe {
            unique_prefix(raw, seen)
        } else {
            raw.subrange(0, seen)
        }),
    ensures
        pattern_views(final(patterns)@) == (if dedupe {
            unique_prefix(raw, seen + 1)
        } else {
            raw.subrange(0, seen + 1)
        }),
{
    if dedupe && holds_pattern(patterns, &pattern) {
        return ;
    }
    let ghost before = pattern_views(patterns@);
    patterns.push(pattern);
    proof {
        assert(pattern_views(patterns@) =~= before.push(raw[seen]));
        if !dedupe {
            assert(raw.subrange(0, seen + 1) =~= raw.subrange(0, seen).push(raw[seen]));
        }
    }
}

/// The exit bitmap of one side of a pattern.
fn side_exits(pattern: &Vec<TileType>, chunk_size: i32, dir: usize) -> (row: Vec<bool>)
    requires
        chunk_size >= 1,
        chunk_size * chunk_size <= i32::MAX,
        pattern@.len() == chunk_size * chunk_size,
        dir < 4,
    ensures
        row@ == exit_row(pattern@, chunk_size as int, dir as int),
{
    let mut row: Vec<bool> = Vec::new();
    let mut slot: i32 = 0;
    while slot < chunk_size
        invariant
            chunk_size >= 1,
            chunk_size * chunk_size <= i32::MAX,
            pattern@.len() == chunk_size * chunk_size,
            dir < 4,
            0 <= slot <= chunk_size,
            row@.len() == slot,
            forall|k: int|
                0 <= k < slot ==> #[trigger] row@[k] == (pattern@[border_index(chunk_size as int, dir as int, k)]
                    == TileType::Floor),
        decreases chunk_size - slot,
    {
        let idx: usize = if dir == 0 {
            tile_idx_in_chunk(chunk_size, slot, 0)
        } else if dir == 1 {
            tile_idx_in_chunk(chunk_size, slot, chunk_size - 1)
        } else if dir == 2 {
            tile_idx_in_chunk(chunk_size, 0, slot)
        } else {
            tile_idx_in_chunk(chunk_size, chunk_size - 1, slot)
        };
        row.push(pattern[idx] == TileType::Floor);
        slot += 1;
    }
    proof {
        assert(row@ =~= exit_row(pattern@, chunk_size as int, dir as int));
    }
    row
}

/// Whether any place of the bitmap is open.
pub fn row_any_open(row: &Vec<bool>) -> (r: bool)
    ensures
        r == any_open(row@),
{
    let mut s: usize = 0;
    while s < row.len()
        invariant
            s <= row@.len(),
            forall|k: int| 0 <= k < s ==> !#[trigger] row@[k],
        decreases row@.len() - s,
    {
        if row[s] {
            return true;
        }
        s += 1;
    }
    false
}

/// Whether some place is open in both bitmaps.
pub fn rows_share_open(a: &Vec<bool>, b: &Vec<bool>) -> (r: bool)
    ensures
        r == share_open(a@, b@),
{
    let mut s: usize = 0;
    while s < a.len() && s < b.len()
        invariant
            s <= a@.len(),
            s <= b@.len(),
            forall|k: int| 0 <= k < s ==> !(#[trigger] a@[k] && b@[k]),
        decreases a@.len() - s,
    {
        if a[s] && b[s] {
            return true;
        }
        s += 1;
    }
    false
}

/// Whether two facing sides agree.
pub fn rows_agree(a: &Vec<bool>, b: &Vec<bool>) -> (r: bool)
    ensures
        r == sides_agree(a@, b@),
{
    !row_any_open(a) || !row_any_open(b) || rows_share_open(a, b)
}

/// The patterns among the first `n` whose facing side agrees with side
/// `dir` of pattern `i`, where `sides` holds the four bitmaps of every
/// pattern one after the other.
pub open spec fn agreeing(sides: Seq<Vec<bool>>, i: int, dir: int, n: int) -> Seq<usize>
    decreases n,
{
    if n <= 0 {
        Seq::empty()
    } else {
        let rest = agreeing(sides, i, dir, n - 1);
        if sides_agree(sides[4 * i + dir]@, sides[4 * (n - 1) + opposite(dir)]@) {
            rest.push((n - 1) as usize)
        } else {
            rest
        }
    }
}

proof fn lemma_agreeing_is_partner_list(sides: Seq<Vec<bool>>, table: Seq<MapChunk>, i: int, dir: int, n: int)
    requires
        0 <= i < table.len(),
        0 <= dir < 4,
        0 <= n <= table.len(),
        sides.len() == 4 * table.len(),
        forall|k: int, d: int| 0 <= k < table.len() && 0 <= d < 4 ==> (#[trigger] table[k].side(d)) == sides[4 * k + d]@,
    ensures
        agreeing(sides, i, dir, n) == partner_list(table, i, dir, n),
    decreases n,
{
    if n > 0 {
        lemma_agreeing_is_partner_list(sides, table, i, dir, n - 1);
        assert(table[i].side(dir) == sides[4 * i + dir]@);
        assert(table[n - 1].side(opposite(dir)) == sides[4 * (n - 1) + opposite(dir)]@);
    }
}

/// The list of patterns that may stand on side `dir` of pattern `i`.
fn partners_of(sides: &Vec<Vec<bool>>, i: usize, dir: usize, n: usize) -> (list: Vec<usize>)
    requires
        sides@.len() == 4 * n,
        4 * n <= usize::MAX,
        i < n,
        dir < 4,
    ensures
        list@ == agreeing(sides@, i as int, dir as int, n as int),
{
    let opp: usize = if dir == 0 {
        1
    } else if dir == 1 {
        0
    } else if dir == 2 {
        3
    } else {
        2
    };
    let mut list: Vec<usize> = Vec::new();
    let mut j: usize = 0;
    while j < n
        invariant
            sides@.len() == 4 * n,
            4 * n <= usize::MAX,
            i < n,
            dir < 4,
            opp == opposite(dir as int),
            j <= n,
            list@ == agreeing(sides@, i as int, dir as int, j as int),
        decreases n - j,
    {
        if rows_agree(&sides[4 * i + dir], &sides[4 * j + opp]) {
            list.push(j);
        }
        j += 1;
    }
    list
}

/// Builds the constraint table of a list of patterns: for each pattern its
/// four exit bitmaps, whether it has any exit, and for each side the
/// patterns that may stand there.
pub fn patterns_to_constraints(patterns: Vec<Vec<TileType>>, chunk_size: i32) -> (constraints: Vec<MapChunk>)
    requires
        chunk_size >= 1,
        chunk_size * chunk_size <= i32::MAX,
        forall|i: int| 0 <= i < patterns@.len() ==> (#[trigger] patterns@[i])@.len() == chunk_size * chunk_size,
        4 * patterns@.len() <= usize::MAX,
    ensures
        is_constraint_table(constraints@, pattern_views(patterns@), chunk_size as int),
{
    let n: usize = patterns.len();
    let mut sides: Vec<Vec<bool>> = Vec::new();
    let mut i: usize = 0;
    while i < n
        invariant
            chunk_size >= 1,
            chunk_size * chunk_size <= i32::MAX,
            forall|k: int| 0 <= k < patterns@.len() ==> (#[trigger] patterns@[k])@.len() == chunk_size * chunk_size,
            n == patterns@.len(),
            4 * n <= usize::MAX,
            i <= n,
            sides@.len() == 4 * i,
            forall|k: int, d: int|
                0 <= k < i && 0 <= d < 4 ==> (#[trigger] sides@[4 * k + d])@ == exit_row(
                    patterns@[k]@,
                    chunk_size as int,
                    d,
                ),
        decreases n - i,
    {
        let north: Vec<bool> = side_exits(&patterns[i], chunk_size, 0);
        let south: Vec<bool> = side_exits(&patterns[i], chunk_size, 1);
        let west: Vec<bool> = side_exits(&patterns[i], chunk_size, 2);
        let east: Vec<bool> = side_exits(&patterns[i], chunk_size, 3);
        sides.push(north);
        sides.push(south);
        sides.push(west);
        sides.push(east);
        i += 1;
    }
    let mut constraints: Vec<MapChunk> = Vec::new();
    let mut c: usize = 0;
    while c < n
        invariant
            chunk_size >= 1,
            n == patterns@.len(),
            4 * n <= usize::MAX,
            c <= n,
            sides@.len() == 4 * n,
            forall|k: int, d: int|
                0 <= k < n && 0 <= d < 4 ==> (#[trigger] sides@[4 * k + d])@ == exit_row(
                    patterns@[k]@,
                    chunk_size as int,
                    d,
                ),
            forall|k: int| 0 <= k < patterns@.len() ==> (#[trigger] patterns@[k])@.len() == chunk_size * chunk_size,
            constraints@.len() == c,
            forall|k: int|
                0 <= k < c ==> (#[trigger] constraints@[k]).pattern@ == patterns@[k]@ && constraints@[k].describes_pattern(
                    chunk_size as int,
                ),
            forall|k: int, d: int|
                0 <= k < c && 0 <= d < 4 ==> (#[trigger] constraints@[k].side(d)) == sides@[4 * k + d]@,
            forall|k: int, d: int|
                0 <= k < c && 0 <= d < 4 ==> (#[trigger] constraints@[k].partners(d)) == agreeing(
                    sides@,
                    k,
                    d,
                    n as int,
                ),
        decreases n - c,
    {
        let north: Vec<bool> = copy_flags(&sides[4 * c]);
        let south: Vec<bool> = copy_flags(&sides[4 * c + 1]);
        let west: Vec<bool> = copy_flags(&sides[4 * c + 2]);
        let east: Vec<bool> = copy_flags(&sides[4 * c + 3]);
        let has_exits: bool = row_any_open(&north) || row_any_open(&south) || row_any_open(&west) || row_any_open(
            &east,
        );
        let to_north: Vec<usize> = partners_of(&sides, c, 0, n);
        let to_south: Vec<usize> = partners_of(&sides, c, 1, n);
        let to_west: Vec<usize> = partners_of(&sides, c, 2, n);
        let to_east: Vec<usize> = partners_of(&sides, c, 3, n);
        let new_chunk = MapChunk {
            pattern: copy_tiles(&patterns[c]),
            exits: [north, south, west, east],
            has_exits,
            compatible_with: [to_north, to_south, to_west, to_east],
        };
        proof {
            assert(sides@[4 * c + 0]@ == exit_row(patterns@[c as int]@, chunk_size as int, 0));
            assert(sides@[4 * c + 1]@ == exit_row(patterns@[c as int]@, chunk_size as int, 1));
            assert(sides@[4 * c + 2]@ == exit_row(patterns@[c as int]@, chunk_size as int, 2));
            assert(sides@[4 * c + 3]@ == exit_row(patterns@[c as int]@, chunk_size as int, 3));
            assert(new_chunk.side(0) == north@);
            assert(new_chunk.side(1) == south@);
            assert(new_chunk.side(2) == west@);
            assert(new_chunk.side(3) == east@);
            assert(new_chunk.partners(0) == to_north@);
            assert(new_chunk.partners(1) == to_south@);
            assert(new_chunk.partners(2) == to_west@);
            assert(new_chunk.partners(3) == to_east@);
        }
        constraints.push(new_chunk);
        c += 1;
    }
    proof {
        let table = constraints@;
        assert forall|k: int, d: int| 0 <= k < table.len() && 0 <= d < 4 implies #[trigger] table[k].partners(d)
            == partner_list(table, k, d, table.len() as int) by {
            lemma_agreeing_is_partner_list(sides@, table, k, d, n as int);
        }
        assert(pattern_views(patterns@).len() == n);
    }
    constraints
}

/// Every pattern cut from a map has one tile for each cell of a chunk, and
/// each of its tiles is a tile of the map.
pub proof fn lemma_raw_pattern_tiles(map: &TileMap, chunk_size: int, flips: bool, j: int, k: int)
    requires
        map.wf(),
        chunk_size >= 1,
        0 <= j < raw_patterns(map, chunk_size, flips).len(),
        0 <= k < chunk_size * chunk_size,
    ensures
        raw_patterns(map, chunk_size, flips)[j].len() == chunk_size * chunk_size,
        exists|i: int| 0 <= i < map.tiles@.len() && raw_patterns(map, chunk_size, flips)[j][k] == #[trigger] map.tiles@[i],
{
    let w = map.width as int;
    let h = map.height as int;
    let chunks_x = w / chunk_size;
    let chunks_y = h / chunk_size;
    let per: int = if flips {
        4
    } else {
        1
    };
    vstd::arithmetic::div_mod::lemma_div_pos_is_pos(w, chunk_size);
    vstd::arithmetic::div_mod::lemma_div_pos_is_pos(h, chunk_size);
    let c = j / per;
    let v = j % per;
    assert(0 <= c < chunks_x * chunks_y) by (nonlinear_arith)
        requires
            0 <= j < chunks_x * chunks_y * per,
            c == j / per,
            per == 1 || per == 4,
    ;
    assert(chunks_x > 0) by (nonlinear_arith)
        requires
            chunks_x * chunks_y > 0,
            chunks_x >= 0,
            chunks_y >= 0,
    ;
    crate::map::lemma_index_to_cell(chunks_x, chunks_y, c);
    let cx = c % chunks_x;
    let cy = c / chunks_x;
    crate::map::lemma_index_to_cell(chunk_size, chunk_size, k);
    let px = k % chunk_size;
    let py = k / chunk_size;
    let flip_h = v == 1 || v == 3;
    let flip_v = v == 2 || v == 3;
    let sx = if flip_h {
        chunk_size - 1 - px
    } else {
        px
    };
    let sy = if flip_v {
        chunk_size - 1 - py
    } else {
        py
    };
    lemma_chunk_inside(w, chunk_size, cx);
    lemma_chunk_inside(h, chunk_size, cy);
    crate::map::lemma_cell_index_bounds(w, h, cx * chunk_size + sx, cy * chunk_size + sy);
    let i = (cy * chunk_size + sy) * w + cx * chunk_size + sx;
    let pattern = chunk_pattern(map.tiles@, w, chunk_size, cx, cy, flip_h, flip_v);
    assert(raw_patterns(map, chunk_size, flips)[j] == pattern);
    assert(pattern[k] == map.tiles@[i]);
}

/// Whether the cell `(px, py)` of a chunk lies at place `slot` of side
/// `dir`.
pub open spec fn on_side(chunk_size: int, dir: int, slot: int, px: int, py: int) -> bool {
    if dir == 0 {
        py == 0 && px == slot
    } else if dir == 1 {
        py == chunk_size - 1 && px == slot
    } else if dir == 2 {
        px == 0 && py == slot
    } else {
        px == chunk_size - 1 && py == slot
    }
}

/// Whether the cell `(px, py)` of the chunk is an exit on side `dir`.
pub open spec fn exit_cell(row: Seq<bool>, chunk_size: int, dir: int, px: int, py: int) -> bool {
    exists|slot: int| 0 <= slot < row.len() && #[trigger] row[slot] && on_side(chunk_size, dir, slot, px, py)
}

/// What showing a chunk with its corner at `(start_x, start_y)` leaves at
/// `(cx, cy)`: inside the chunk a placeholder where the chunk has an
/// exit, and the tile of the pattern elsewhere.
pub open spec fn shown_tile(
    chunk: &MapChunk,
    chunk_size: int,
    start_x: int,
    start_y: int,
    cx: int,
    cy: int,
    before: TileType,
) -> TileType {
    let px = cx - start_x;
    let py = cy - start_y;
    if exit_cell(chunk.side(0), chunk_size, 0, px, py) || exit_cell(chunk.side(1), chunk_size, 1, px, py)
        || exit_cell(chunk.side(2), chunk_size, 2, px, py) || exit_cell(chunk.side(3), chunk_size, 3, px, py) {
        TileType::Placeholder
    } else {
        stamped_tile(chunk.pattern@, chunk_size, start_x, start_y, cx, cy, before)
    }
}

/// Puts a placeholder on every exit of one side of a chunk.
fn mark_exits(map: &mut TileMap, row: &Vec<bool>, chunk_size: i32, start_x: i32, start_y: i32, dir: usize)
    requires
        old(map).wf(),
        chunk_size >= 1,
        row@.len() == chunk_size,
        dir < 4,
        0 <= start_x,
        start_x + chunk_size <= old(map).width,
        0 <= start_y,
        start_y + chunk_size <= old(map).height,
    ensures
        final(map).same_frame(old(map)),
        forall|i: int|
            0 <= i < final(map).tiles@.len() ==> #[trigger] final(map).tiles@[i] == (if exit_cell(
                row@,
                chunk_size as int,
                dir as int,
                old(map).x_of(i) - start_x,
                old(map).y_of(i) - start_y,
            ) {
                TileType::Placeholder
            } else {
                old(map).tiles@[i]
            }),
{
    let mut slot: i32 = 0;
    while slot < chunk_size
        invariant
            map.same_frame(old(map)),
            chunk_size >= 1,
            row@.len() == chunk_size,
            dir < 4,
            0 <= start_x,
            start_x + chunk_size <= map.width,
            0 <= start_y,
            start_y + chunk_size <= map.height,
            0 <= slot <= chunk_size,
            forall|i: int|
                0 <= i < map.tiles@.len() ==> #[trigger] map.tiles@[i] == (if exit_cell(
                    row@.subrange(0, slot as int),
                    chunk_size as int,
                    dir as int,
                    old(map).x_of(i) - start_x,
                    old(map).y_of(i) - start_y,
                ) {
                    TileType::Placeholder
                } else {
                    old(map).tiles@[i]
                }),
        decreases chunk_size - slot,
    {
        let px: i32 = if dir == 0 || dir == 1 {
            slot
        } else if dir == 2 {
            0
        } else {
            chunk_size - 1
        };
        let py: i32 = if dir == 0 {
            0
        } else if dir == 1 {
            chunk_size - 1
        } else {
            slot
        };
        let ghost before = *map;
        let ghost seen = row@.subrange(0, slot as int);
        let ghost more = row@.subrange(0, slot + 1);
        if row[slot as usize] {
            map.set_tile(start_x + px, start_y + py, TileType::Placeholder);
        }
        proof {
            assert forall|i: int| 0 <= i < map.tiles@.len() implies #[trigger] map.tiles@[i] == (if exit_cell(
                more,
                chunk_size as int,
                dir as int,
                old(map).x_of(i) - start_x,
                old(map).y_of(i) - start_y,
            ) {
                TileType::Placeholder
            } else {
                old(map).tiles@[i]
            }) by {
                let qx = old(map).x_of(i) - start_x;
                let qy = old(map).y_of(i) - start_y;
                assert(before.x_of(i) == old(map).x_of(i) && before.y_of(i) == old(map).y_of(i));
                if exit_cell(seen, chunk_size as int, dir as int, qx, qy) {
                    let s0 = choose|s0: int|
                        0 <= s0 < seen.len() && #[trigger] seen[s0] && on_side(
                            chunk_size as int,
                            dir as int,
                            s0,
                            qx,
                            qy,
                        );
                    assert(more[s0]);
                }
                if exit_cell(more, chunk_size as int, dir as int, qx, qy) {
                    let s1 = choose|s1: int|
                        0 <= s1 < more.len() && #[trigger] more[s1] && on_side(
                            chunk_size as int,
                            dir as int,
                            s1,
                            qx,
                            qy,
                        );
                    if s1 < slot {
                        assert(seen[s1]);
                    }
                }
                if row@[slot as int] && on_side(chunk_size as int, dir as int, slot as int, qx, qy) {
                    assert(more[slot as int]);
                }
            }
        }
        slot += 1;
    }
    proof {
        assert(row@.subrange(0, chunk_size as int) =~= row@);
    }
}

/// Shows a chunk on the map with its corner at `(start_x, start_y)`: the
/// tiles of its pattern, with a placeholder on every exit, all visible.
pub fn render_pattern_to_map(map: &mut TileMap, chunk: &MapChunk, chunk_size: i32, start_x: i32, start_y: i32)
    requires
        old(map).wf(),
        chunk_size >= 1,
        chunk_size * chunk_size <= i32::MAX,
        chunk.pattern@.len() == chunk_size * chunk_size,
        forall|dir: int| 0 <= dir < 4 ==> (#[trigger] chunk.side(dir)).len() == chunk_size,
        0 <= start_x,
        start_x + chunk_size <= old(map).width,
        0 <= start_y,
        start_y + chunk_size <= old(map).height,
    ensures
        final(map).wf(),
        final(map).same_shape(old(map)),
        final(map).revealed_tiles@ == old(map).revealed_tiles@,
        final(map).blocked@ == old(map).blocked@,
        forall|i: int|
            0 <= i < final(map).tiles@.len() ==> #[trigger] final(map).tiles@[i] == shown_tile(
                chunk,
                chunk_size as int,
                start_x as int,
                start_y as int,
                old(map).x_of(i),
                old(map).y_of(i),
                old(map).tiles@[i],
            ),
        forall|i: int|
            0 <= i < final(map).visible_tiles@.len() ==> #[trigger] final(map).visible_tiles@[i]
                == (old(map).visible_tiles@[i] || (start_x <= old(map).x_of(i) < start_x + chunk_size
                    && start_y <= old(map).y_of(i) < start_y + chunk_size)),
{
    proof {
        assert(chunk.side(0).len() == chunk_size);
        assert(chunk.side(1).len() == chunk_size);
        assert(chunk.side(2).len() == chunk_size);
        assert(chunk.side(3).len() == chunk_size);
    }
    stamp_pattern(map, &chunk.pattern, chunk_size, start_x, start_y);
    mark_exits(map, &chunk.exits[0], chunk_size, start_x, start_y, 0);
    mark_exits(map, &chunk.exits[1], chunk_size, start_x, start_y, 1);
    mark_exits(map, &chunk.exits[2], chunk_size, start_x, start_y, 2);
    mark_exits(map, &chunk.exits[3], chunk_size, start_x, start_y, 3);
    let ghost shown = map.tiles@;
    let mut y: i32 = 0;
    while y < chunk_size
        invariant
            map.wf(),
            old(map).wf(),
            map.same_shape(old(map)),
            map.revealed_tiles@ == old(map).revealed_tiles@,
            map.blocked@ == old(map).blocked@,
            map.tiles@ == shown,
            chunk_size >= 1,
            0 <= start_x,
            start_x + chunk_size <= map.width,
            0 <= start_y,
            start_y + chunk_size <= map.height,
            0 <= y <= chunk_size,
            forall|i: int|
                0 <= i < map.visible_tiles@.len() ==> #[trigger] map.visible_tiles@[i]
                    == (old(map).visible_tiles@[i] || (start_x <= old(map).x_of(i) < start_x + chunk_size
                        && start_y <= old(map).y_of(i) < start_y + y)),
        decreases chunk_size - y,
    {
        let mut x: i32 = 0;
        while x < chunk_size
            invariant
                map.wf(),
                old(map).wf(),
                map.same_shape(old(map)),
                map.revealed_tiles@ == old(map).revealed_tiles@,
                map.blocked@ == old(map).blocked@,
                map.tiles@ == shown,
                chunk_size >= 1,
                0 <= start_x,
                start_x + chunk_size <= map.width,
                0 <= start_y,
                start_y + chunk_size <= map.height,
                0 <= y < chunk_size,
                0 <= x <= chunk_size,
                forall|i: int|
                    0 <= i < map.visible_tiles@.len() ==> #[trigger] map.visible_tiles@[i]
                        == (old(map).visible_tiles@[i] || (start_x <= old(map).x_of(i) < start_x + chunk_size
                            && start_y <= old(map).y_of(i) < start_y + y) || (old(map).y_of(i) == start_y + y
                                && start_x <= old(map).x_of(i)
                        < start_x + x)),
            decreases chunk_size - x,
        {
            let idx: usize = map.xy_idx(start_x + x, start_y + y);
            proof {
                assert forall|i: int|
                    0 <= i < map.tiles@.len() && #[trigger] old(map).y_of(i) == start_y + y && old(map).x_of(i)
                        == start_x + x implies i == idx by {
                    old(map).lemma_cell_of_index(i);
                }
                assert(old(map).x_of(idx as int) == start_x + x && old(map).y_of(idx as int) == start_y + y);
            }
            map.visible_tiles[idx] = true;
            x += 1;
        }
        y += 1;
    }
}

} // verus!
