use crate::map::{MAP_HEIGHT, MAP_WIDTH, TileMap, TileType};
use rltk::XpFile;
use vstd::prelude::*;

verus! {

#[verifier::external_type_specification]
#[verifier::external_body]
pub struct ExXpFile(XpFile);

/// One layer of a REX Paint image: the glyph of every cell, column by
/// column.
pub struct RexLayer {
    pub width: usize,
    pub height: usize,
    pub glyphs: Vec<u32>,
}

/// The layers of a REX Paint image, each as its width, its height and
/// the glyphs of its cells in the order in which the image stores them.
pub uninterp spec fn rex_content(xp_file: XpFile) -> Seq<(usize, usize, Seq<u32>)>;

/// The width, height and glyphs of a list of layers.
pub open spec fn layer_views(layers: Seq<RexLayer>) -> Seq<(usize, usize, Seq<u32>)> {
    Seq::new(layers.len(), |l: int| layers[l]@)
}

/// Reads the public fields `layers`, `width`, `height`, `cells` and `ch`
/// of an `XpFile`. The contract names what is read and claims no more.
#[verifier::external_body]
fn rex_layers(xp_file: &XpFile) -> (layers: Vec<RexLayer>)
    ensures
        layer_views(layers@) == rex_content(*xp_file),
{
    let mut layers: Vec<RexLayer> = Vec::new();
    for layer in xp_file.layers.iter() {
        layers.push(
            RexLayer {
                width: layer.width,
                height: layer.height,
                glyphs: layer.cells.iter().map(|cell| cell.ch).collect(),
            },
        );
    }
    layers
}

/// The glyph at `(x, y)` of a layer given by its width, its height and
/// its glyphs column by column, where the layer has that cell.
pub open spec fn glyph_in(layer: (usize, usize, Seq<u32>), x: int, y: int) -> Option<u32> {
    if 0 <= x < layer.0 && 0 <= y < layer.1 && x * layer.1 + y < layer.2.len() {
        Some(layer.2[x * layer.1 + y])
    } else {
        None
    }
}

impl RexLayer {
    /// The width, the height and the glyphs of the layer.
    pub open spec fn view(&self) -> (usize, usize, Seq<u32>) {
        (self.width, self.height, self.glyphs@)
    }

    /// The glyph at `(x, y)`, where the layer has that cell.
    pub open spec fn glyph_at(&self, x: int, y: int) -> Option<u32> {
        glyph_in(self@, x, y)
    }

    /// The glyph at `(x, y)`, where the layer has that cell.
    pub fn get(&self, x: usize, y: usize) -> (glyph: Option<u32>)
        ensures
            glyph == self.glyph_at(x as int, y as int),
    {
        if x < self.width && y < self.height {
            proof {
                assert(0 <= (x as int) * (self.height as int) <= 0xffff_ffff_ffff_ffff * 0xffff_ffff_ffff_ffff)
                    by (nonlinear_arith)
                    requires
                        0 <= x <= 0xffff_ffff_ffff_ffff,
                        0 <= self.height <= 0xffff_ffff_ffff_ffff,
                ;
            }
            let at: u128 = (x as u128) * (self.height as u128) + (y as u128);
            if at < self.glyphs.len() as u128 {
                return Some(self.glyphs[at as usize]);
            }
        }
        None
    }
}

/// What a layer makes of the tile at `(cx, cy)`: floor under a space,
/// a wall under a hash sign, and `before` under anything else or where
/// the layer has no cell.
pub open spec fn layer_tile(layer: (usize, usize, Seq<u32>), cx: int, cy: int, before: TileType) -> TileType {
    match glyph_in(layer, cx, cy) {
        Some(glyph) => if glyph == 32 {
            TileType::Floor
        } else if glyph == 35 {
            TileType::Wall
        } else {
            before
        },
        None => before,
    }
}

/// What the first `n` layers, laid one over the other onto the void,
/// make of the tile at `(cx, cy)`.
pub open spec fn rex_tile(layers: Seq<(usize, usize, Seq<u32>)>, n: int, cx: int, cy: int) -> TileType
    decreases n,
{
    if n <= 0 {
        TileType::Void
    } else {
        layer_tile(layers[n - 1], cx, cy, rex_tile(layers, n - 1, cx, cy))
    }
}

/// A map of the standard size drawn from the layers of an image: every
/// layer in turn turns its spaces into floor and its hash signs into
/// walls.
pub fn load_layers(depth: i32, layers: &Vec<RexLayer>) -> (map: TileMap)
    ensures
        map.wf(),
        map.width == MAP_WIDTH,
        map.height == MAP_HEIGHT,
        map.depth == depth,
        forall|i: int|
            0 <= i < map.tiles@.len() ==> #[trigger] map.tiles@[i] == rex_tile(
                layer_views(layers@),
                layers@.len() as int,
                map.x_of(i),
                map.y_of(i),
            ),
{
    let mut map: TileMap = TileMap::new(MAP_WIDTH as i32, MAP_HEIGHT as i32, depth, None);
    let ghost views = layer_views(layers@);
    let mut l: usize = 0;
    while l < layers.len()
        invariant
            map.wf(),
            map.width == MAP_WIDTH,
            map.height == MAP_HEIGHT,
            map.depth == depth,
            l <= layers@.len(),
            views == layer_views(layers@),
            forall|i: int|
                0 <= i < map.tiles@.len() ==> #[trigger] map.tiles@[i] == rex_tile(
                    views,
                    l as int,
                    map.x_of(i),
                    map.y_of(i),
                ),
        decreases layers@.len() - l,
    {
        let mut i: usize = 0;
        let ghost below = map.tiles@;
        while i < map.tiles.len()
            invariant
                map.wf(),
                map.width == MAP_WIDTH,
                map.height == MAP_HEIGHT,
                map.depth == depth,
                l < layers@.len(),
                views == layer_views(layers@),
                i <= map.tiles@.len(),
                below.len() == map.tiles@.len(),
                forall|j: int|
                    0 <= j < map.tiles@.len() ==> #[trigger] map.tiles@[j] == (if j < i {
                        layer_tile(views[l as int], map.x_of(j), map.y_of(j), below[j])
                    } else {
                        below[j]
                    }),
            decreases map.tiles@.len() - i,
        {
            let x: usize = i % (map.width as usize);
            let y: usize = i / (map.width as usize);
            proof {
                assert(views[l as int] == layers@[l as int]@);
            }
            match layers[l].get(x, y) {
                Some(glyph) => {
                    if glyph == 32 {
                        map.tiles[i] = TileType::Floor;
                    } else if glyph == 35 {
                        map.tiles[i] = TileType::Wall;
                    }
                },
                None => {},
            }
            i += 1;
        }
        l += 1;
    }
    map
}

/// The layers of a REX Paint image as plain values.
pub fn image_layers(xp_file: &XpFile) -> (layers: Vec<RexLayer>)
    ensures
        layer_views(layers@) == rex_content(*xp_file),
{
    rex_layers(xp_file)
}

/// A map of the standard size drawn from a REX Paint image.
pub fn load_rex_map(depth: i32, xp_file: &XpFile) -> (map: TileMap)
    ensures
        map.wf(),
        map.width == MAP_WIDTH,
        map.height == MAP_HEIGHT,
        map.depth == depth,
        forall|i: int|
            0 <= i < map.tiles@.len() ==> #[trigger] map.tiles@[i] == rex_tile(
                rex_content(*xp_file),
                rex_content(*xp_file).len() as int,
                map.x_of(i),
                map.y_of(i),
            ),
{
    let layers: Vec<RexLayer> = rex_layers(xp_file);
    proof {
        assert(layer_views(layers@).len() == layers@.len());
    }
    load_layers(depth, &layers)
}

} // verus!
