use crate::components::Position;
use crate::map::{MAP_HEIGHT, MAP_WIDTH, TileMap, TileType};
use crate::map_builder::common::{BuildError, find_floor_leftward};
use crate::map_builder::waveform_collapse::image_loader::RexLayer;
use vstd::prelude::*;

verus! {

#[allow(dead_code)]
#[derive(PartialEq, Eq, Debug)]
pub enum PrefabMode {
    RexLevel { template: &'static str },
}

/// Builds a level from a drawing.
pub struct PrefabBuilder {
    pub map: TileMap,
    pub starting_position: Position,
    pub depth: i32,
    pub mode: PrefabMode,
}

/// The character that a glyph stands for: its lowest eight bits.
pub open spec fn glyph_char(glyph: u32) -> int {
    glyph as int % 256
}

/// Every glyph of the drawing that falls onto the map is a space or a
/// hash sign.
pub open spec fn template_known(map: &TileMap, layers: Seq<RexLayer>) -> bool {
    forall|l: int, x: int, y: int|
        0 <= l < layers.len() && map.in_bounds(x, y) && (#[trigger] layers[l].glyph_at(x, y)) is Some ==> glyph_char(
            layers[l].glyph_at(x, y)->0,
        ) == 32 || glyph_char(layers[l].glyph_at(x, y)->0) == 35
}

/// What a layer of a template makes of the tile at `(cx, cy)`.
pub open spec fn template_tile(layer: RexLayer, cx: int, cy: int, before: TileType) -> TileType {
    match layer.glyph_at(cx, cy) {
        Some(glyph) => if glyph_char(glyph) == 32 {
            TileType::Floor
        } else {
            TileType::Wall
        },
        None => before,
    }
}

/// What the first `n` layers of a template make of a tile that was
/// `before`.
pub open spec fn prefab_tile(layers: Seq<RexLayer>, n: int, cx: int, cy: int, before: TileType) -> TileType
    decreases n,
{
    if n <= 0 {
        before
    } else {
        template_tile(layers[n - 1], cx, cy, prefab_tile(layers, n - 1, cx, cy, before))
    }
}

impl PrefabBuilder {
    /// The map has the standard size.
    pub open spec fn wf(&self) -> bool {
        &&& self.map.wf()
        &&& self.map.width == MAP_WIDTH
        &&& self.map.height == MAP_HEIGHT
    }

    pub fn new(depth: i32) -> (builder: PrefabBuilder)
        ensures
            builder.wf(),
            builder.depth == depth,
            builder.map.depth == depth,
            builder.starting_position == (Position { x: 0, y: 0 }),
            forall|i: int| 0 <= i < builder.map.tiles@.len() ==> #[trigger] builder.map.tiles@[i] == TileType::Void,
    {
        PrefabBuilder {
            map: TileMap::new_default(depth),
            starting_position: Position { x: 0, y: 0 },
            depth,
            mode: PrefabMode::RexLevel { template: "../resources/wfc-demo1.xp" },
        }
    }

    /// An independent copy of the map.
    pub fn get_map(&self) -> (map: TileMap)
        ensures
            map.same_shape(&self.map),
            map.tiles@ == self.map.tiles@,
            map.revealed_tiles@ == self.map.revealed_tiles@,
            map.visible_tiles@ == self.map.visible_tiles@,
            map.blocked@ == self.map.blocked@,
    {
        self.map.duplicate()
    }

    pub fn get_starting_position(&self) -> (position: Position)
        ensures
            position == self.starting_position,
    {
        self.starting_position
    }

    /// Whether every glyph of the drawing that falls onto the map is a
    /// space or a hash sign.
    pub fn knows_template(&self, layers: &Vec<RexLayer>) -> (known: bool)
        requires
            self.wf(),
        ensures
            known == template_known(&self.map, layers@),
    {
        let mut l: usize = 0;
        while l < layers.len()
            invariant
                self.wf(),
                l <= layers@.len(),
                forall|k: int, x: int, y: int|
                    0 <= k < l && self.map.in_bounds(x, y) && (#[trigger] layers@[k].glyph_at(x, y)) is Some
                        ==> glyph_char(layers@[k].glyph_at(x, y)->0) == 32 || glyph_char(
                        layers@[k].glyph_at(x, y)->0,
                    ) == 35,
            decreases layers@.len() - l,
        {
            let mut y: i32 = 0;
            while y < self.map.height
                invariant
                    self.wf(),
                    l < layers@.len(),
                    0 <= y <= self.map.height,
                    forall|x: int, cy: int|
                        0 <= x < self.map.width && 0 <= cy < y && (#[trigger] layers@[l as int].glyph_at(
                            x,
                            cy,
                        )) is Some ==> glyph_char(layers@[l as int].glyph_at(x, cy)->0) == 32 || glyph_char(
                            layers@[l as int].glyph_at(x, cy)->0,
                        ) == 35,
                decreases self.map.height - y,
            {
                let mut x: i32 = 0;
                while x < self.map.width
                    invariant
                        self.wf(),
                        l < layers@.len(),
                        0 <= y < self.map.height,
                        0 <= x <= self.map.width,
                        forall|cx: int, cy: int|
                            0 <= cx < self.map.width && 0 <= cy < y && (#[trigger] layers@[l as int].glyph_at(
                                cx,
                                cy,
                            )) is Some ==> glyph_char(layers@[l as int].glyph_at(cx, cy)->0) == 32 || glyph_char(
                                layers@[l as int].glyph_at(cx, cy)->0,
                            ) == 35,
                        forall|cx: int|
                            0 <= cx < x && (#[trigger] layers@[l as int].glyph_at(cx, y as int)) is Some
                                ==> glyph_char(layers@[l as int].glyph_at(cx, y as int)->0) == 32 || glyph_char(
                                layers@[l as int].glyph_at(cx, y as int)->0,
                            ) == 35,
                    decreases self.map.width - x,
                {
                    match layers[l].get(x as usize, y as usize) {
                        Some(glyph) => {
                            if glyph % 256 != 32 && glyph % 256 != 35 {
                                proof {
                                    assert(layers@[l as int].glyph_at(x as int, y as int) is Some);
                                }
                                return false;
                            }
                        },
                        None => {},
                    }
                    x += 1;
                }
                y += 1;
            }
            l += 1;
        }
        true
    }

    /// Draws the layers of the template onto the map: a space is floor
    /// and a hash sign is a wall.
    #[allow(dead_code)]
    pub fn load_rex_map(&mut self, layers: &Vec<RexLayer>)
        requires
            old(self).wf(),
            template_known(&old(self).map, layers@),
        ensures
            final(self).wf(),
            final(self).map.same_frame(&old(self).map),
            final(self).depth == old(self).depth,
            final(self).starting_position == old(self).starting_position,
            forall|i: int|
                0 <= i < final(self).map.tiles@.len() ==> #[trigger] final(self).map.tiles@[i] == prefab_tile(
                    layers@,
                    layers@.len() as int,
                    old(self).map.x_of(i),
                    old(self).map.y_of(i),
                    old(self).map.tiles@[i],
                ),
    {
        let mut l: usize = 0;
        while l < layers.len()
            invariant
                self.wf(),
                old(self).wf(),
                self.map.same_frame(&old(self).map),
                self.depth == old(self).depth,
                self.starting_position == old(self).starting_position,
                template_known(&old(self).map, layers@),
                l <= layers@.len(),
                forall|i: int|
                    0 <= i < self.map.tiles@.len() ==> #[trigger] self.map.tiles@[i] == prefab_tile(
                        layers@,
                        l as int,
                        old(self).map.x_of(i),
                        old(self).map.y_of(i),
                        old(self).map.tiles@[i],
                    ),
            decreases layers@.len() - l,
        {
            let ghost below = self.map.tiles@;
            let mut i: usize = 0;
            while i < self.map.tiles.len()
                invariant
                    self.wf(),
                    old(self).wf(),
                    self.map.same_frame(&old(self).map),
                    self.depth == old(self).depth,
                    self.starting_position == old(self).starting_position,
                    template_known(&old(self).map, layers@),
                    l < layers@.len(),
                    i <= self.map.tiles@.len(),
                    below.len() == self.map.tiles@.len(),
                    forall|j: int|
                        0 <= j < self.map.tiles@.len() ==> #[trigger] self.map.tiles@[j] == (if j < i {
                            template_tile(layers@[l as int], old(self).map.x_of(j), old(self).map.y_of(j), below[j])
                        } else {
                            below[j]
                        }),
                decreases self.map.tiles@.len() - i,
            {
                let x: usize = i % (self.map.width as usize);
                let y: usize = i / (self.map.width as usize);
                proof {
                    old(self).map.lemma_cell_of_index(i as int);
                }
                match layers[l].get(x, y) {
                    Some(glyph) => {
                        self.map.tiles[i] = if glyph % 256 == 32 {
                            TileType::Floor
                        } else {
                            TileType::Wall
                        };
                    },
                    None => {},
                }
                i += 1;
            }
            l += 1;
        }
    }

    /// Draws the template and starts on the first floor tile found
    /// walking left from the middle of the map.
    pub fn build(&mut self, layers: &Vec<RexLayer>) -> (r: Result<(), BuildError>)
        requires
            old(self).wf(),
            template_known(&old(self).map, layers@),
        ensures
            final(self).wf(),
            final(self).map.same_frame(&old(self).map),
            final(self).depth == old(self).depth,
            forall|i: int|
                0 <= i < final(self).map.tiles@.len() ==> #[trigger] final(self).map.tiles@[i] == prefab_tile(
                    layers@,
                    layers@.len() as int,
                    old(self).map.x_of(i),
                    old(self).map.y_of(i),
                    old(self).map.tiles@[i],
                ),
            final(self).starting_position.y == MAP_HEIGHT / 2,
            match r {
                Ok(()) => {
                    &&& 0 <= final(self).starting_position.x <= MAP_WIDTH / 2
                    &&& final(self).map.at(
                        final(self).starting_position.x as int,
                        final(self).starting_position.y as int,
                    ) == TileType::Floor
                    &&& forall|cx: int|
                        final(self).starting_position.x < cx <= MAP_WIDTH / 2 ==> #[trigger] final(self).map.at(
                            cx,
                            MAP_HEIGHT as int / 2,
                        ) != TileType::Floor
                },
                Err(e) => e == BuildError::NoStart && forall|cx: int|
                    0 <= cx <= MAP_WIDTH / 2 ==> #[trigger] final(self).map.at(cx, MAP_HEIGHT as int / 2)
                        != TileType::Floor,
            },
    {
        self.load_rex_map(layers);
        let center_x: i32 = self.map.width / 2;
        let center_y: i32 = self.map.height / 2;
        self.starting_position = Position { x: center_x, y: center_y };
        match find_floor_leftward(&self.map, center_x, center_y) {
            None => Err(BuildError::NoStart),
            Some(fx) => {
                self.starting_position = Position { x: fx, y: center_y };
                Ok(())
            },
        }
    }
}

} // verus!
