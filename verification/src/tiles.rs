//! Tiles of the tileset image and the tiles to draw for a world.
use vstd::prelude::*;
use crate::world::Grid;

verus! {

/// Width of a tile in the tileset image, in pixels.
pub const TILE_WIDTH: i32 = 32;

/// Height of a tile in the tileset image, in pixels.
pub const TILE_HEIGHT: i32 = 32;

/// Integer division rounding toward zero, as Rust's `/` on signed integers.
pub open spec fn div_toward_zero(a: int, b: int) -> int {
    if a >= 0 {
        a / b
    } else {
        -((-a) / b)
    }
}

/// The remainder that goes with `div_toward_zero`, as Rust's `%` on signed
/// integers.
pub open spec fn rem_toward_zero(a: int, b: int) -> int {
    a - b * div_toward_zero(a, b)
}

/// The number of tile columns of a tileset image of the given width.
pub open spec fn tileset_columns(texture_width: i32) -> int {
    div_toward_zero(texture_width as int, TILE_WIDTH as int)
}

/// The number of tile rows of a tileset image of the given height.
pub open spec fn tileset_rows(texture_height: i32) -> int {
    div_toward_zero(texture_height as int, TILE_HEIGHT as int)
}

/// The number of tiles of a tileset image: columns times rows, or none where
/// that product is not positive.
pub open spec fn tileset_count(texture_width: i32, texture_height: i32) -> int {
    if tileset_columns(texture_width) * tileset_rows(texture_height) > 0 {
        tileset_columns(texture_width) * tileset_rows(texture_height)
    } else {
        0
    }
}

/// The pixel position, in the tileset image, of tile `id` when the image has
/// `columns` tile columns: tiles are numbered row by row.
pub open spec fn tile_source(id: int, columns: int) -> (i32, i32) {
    (
        (rem_toward_zero(id, columns) * TILE_WIDTH) as i32,
        (div_toward_zero(id, columns) * TILE_HEIGHT) as i32,
    )
}

/// `a / 32` rounding toward zero.
fn div_tile(a: i32) -> (q: i32)
    ensures
        q == div_toward_zero(a as int, 32),
{
    if a >= 0 {
        a / 32
    } else {
        let n: i64 = -(a as i64);
        let q: i64 = n / 32;
        -(q as i32)
    }
}

/// The pixel position of each tile of a tileset image of the given size,
/// numbered row by row: tile `id` sits at column `id % columns` and row
/// `id / columns`, where `columns` and the number of rows are the image's
/// width and height divided by the tile's (as Rust divides `i32`).
pub fn tileset_sources(texture_width: i32, texture_height: i32) -> (sources: Vec<(i32, i32)>)
    requires
        i32::MIN <= tileset_columns(texture_width) * tileset_rows(texture_height) <= i32::MAX,
    ensures
        sources@.len() == tileset_count(texture_width, texture_height),
        forall|id: int|
            0 <= id < sources@.len() ==> #[trigger] sources@[id] == tile_source(
                id,
                tileset_columns(texture_width),
            ),
{
    let columns = div_tile(texture_width);
    let rows = div_tile(texture_height);
    let count: i32 = columns * rows;
    let mut sources: Vec<(i32, i32)> = Vec::new();
    let mut id: i32 = 0;
    if count > 0 {
        assert(columns != 0);
        assert(columns as int * rows as int == count as int);
        while id < count
            invariant
                columns == tileset_columns(texture_width),
                rows == tileset_rows(texture_height),
                count == columns * rows,
                count > 0,
                columns != 0,
                0 <= id <= count,
                sources@.len() == id,
                forall|t: int| 0 <= t < id ==> #[trigger] sources@[t] == tile_source(t, columns as int),
            decreases count - id,
        {
            let abs_columns: i64 = if columns > 0 {
                columns as i64
            } else {
                -(columns as i64)
            };
            let q: i64 = (id as i64) / abs_columns;
            let r: i64 = (id as i64) % abs_columns;
            let row: i64 = if columns > 0 {
                q
            } else {
                -q
            };
            proof {
                let a = abs_columns as int;
                let ab_rows: int = if rows > 0 { rows as int } else { -(rows as int) };
                assert(count as int == a * ab_rows) by (nonlinear_arith)
                    requires
                        count as int == columns as int * rows as int,
                        a == if columns > 0 { columns as int } else { -(columns as int) },
                        ab_rows == if rows > 0 { rows as int } else { -(rows as int) },
                        count > 0,
                ;
                assert(q * a <= id && 0 <= r < a && id == q * a + r) by (nonlinear_arith)
                    requires q == (id as int) / a, r == (id as int) % a, a > 0, id >= 0;
                assert(q < ab_rows) by (nonlinear_arith)
                    requires q * a <= id, id < count, count == a * ab_rows, a > 0;
                assert(ab_rows <= 67108864);
                assert(a <= 67108864);
                if columns < 0 {
                    assert((id as int) / (columns as int) == -q) by (nonlinear_arith)
                        requires
                            columns < 0,
                            a == -(columns as int),
                            id == q * a + r,
                            0 <= r < a,
                    ;
                }
                assert(div_toward_zero(id as int, columns as int) == row);
                assert(rem_toward_zero(id as int, columns as int) == r) by (nonlinear_arith)
                    requires
                        row == div_toward_zero(id as int, columns as int),
                        id == q * a + r,
                        columns > 0 ==> row == q && a == columns,
                        columns < 0 ==> row == -q && a == -columns,
                        columns != 0,
                ;
            }
            let x: i32 = (r as i32) * TILE_WIDTH;
            let y: i32 = (row as i32) * TILE_HEIGHT;
            sources.push((x, y));
            id += 1;
        }
    }
    sources
}

/// A tile to draw: where it stands in the raw layers, which tile of the
/// tileset it shows, and whether it is drawn shaded.
#[derive(Debug, Clone, Copy, PartialEq, Eq)]
pub struct TileDraw {
    pub layer: usize,
    pub row: usize,
    pub column: usize,
    /// Index of the tile in the tileset: the tile id less one.
    pub source: usize,
    /// The tile lies on the player's line of sight: the player's cell is
    /// `(column + layer, row + layer)`.
    pub shaded: bool,
}

/// How the tile `tile` at `(x, y)` of layer `z` is drawn for a player at
/// cell `(px, py)`.
pub open spec fn tile_draw(z: int, y: int, x: int, tile: usize, px: int, py: int) -> TileDraw {
    TileDraw {
        layer: z as usize,
        row: y as usize,
        column: x as usize,
        source: (tile - 1) as usize,
        shaded: px == x + z && py == y + z,
    }
}

/// The draws of one row: one for each non-empty tile, left to right.
pub open spec fn row_draws(row: Seq<usize>, z: int, y: int, px: int, py: int) -> Seq<TileDraw>
    decreases row.len(),
{
    if row.len() == 0 {
        seq![]
    } else {
        let before = row_draws(row.drop_last(), z, y, px, py);
        if row.last() == 0 {
            before
        } else {
            before.push(tile_draw(z, y, row.len() - 1, row.last(), px, py))
        }
    }
}

/// The draws of one layer, row by row.
pub open spec fn layer_draws(layer: Seq<Seq<usize>>, z: int, px: int, py: int) -> Seq<TileDraw>
    decreases layer.len(),
{
    if layer.len() == 0 {
        seq![]
    } else {
        layer_draws(layer.drop_last(), z, px, py) + row_draws(layer.last(), z, layer.len() - 1, px, py)
    }
}

/// The draws of all layers, from the bottom one up.
pub open spec fn world_draws(g: Grid, px: int, py: int) -> Seq<TileDraw>
    decreases g.len(),
{
    if g.len() == 0 {
        seq![]
    } else {
        world_draws(g.drop_last(), px, py) + layer_draws(g.last(), g.len() - 1, px, py)
    }
}

/// The tiles to draw for the raw layers of a world, bottom layer first, row by
/// row, left to right; empty cells are skipped, and a tile is shaded when the
/// player's cell `(player_x, player_y)` is its cell moved by its layer index
/// down and right.
pub fn tile_draws(layers: &Vec<Vec<Vec<usize>>>, player_x: usize, player_y: usize) -> (draws: Vec<TileDraw>)
    ensures
        draws@ == world_draws(layers.deep_view(), player_x as int, player_y as int),
{
    let ghost g = layers.deep_view();
    let ghost px = player_x as int;
    let ghost py = player_y as int;
    let mut draws: Vec<TileDraw> = Vec::new();
    let mut z: usize = 0;
    while z < layers.len()
        invariant
            g == layers.deep_view(),
            px == player_x as int,
            py == player_y as int,
            z <= g.len(),
            draws@ == world_draws(g.take(z as int), px, py),
        decreases g.len() - z,
    {
        let layer = &layers[z];
        let ghost lg = g[z as int];
        assert(lg == layer.deep_view());
        let ghost base = draws@;
        let mut y: usize = 0;
        while y < layer.len()
            invariant
                lg == layer.deep_view(),
                px == player_x as int,
                py == player_y as int,
                y <= lg.len(),
                draws@ == base + layer_draws(lg.take(y as int), z as int, px, py),
            decreases lg.len() - y,
        {
            let row = &layer[y];
            let ghost rg = lg[y as int];
            assert(rg == row@);
            let ghost base_row = draws@;
            let mut x: usize = 0;
            while x < row.len()
                invariant
                    rg == row@,
                    px == player_x as int,
                    py == player_y as int,
                    x <= rg.len(),
                    draws@ == base_row + row_draws(rg.take(x as int), z as int, y as int, px, py),
                decreases rg.len() - x,
            {
                let tile = row[x];
                assert(rg.take(x + 1).drop_last() =~= rg.take(x as int));
                if tile != 0 {
                    let shaded = player_x >= z && player_x - z == x && player_y >= z && player_y - z == y;
                    let d = TileDraw { layer: z, row: y, column: x, source: tile - 1, shaded };
                    assert(rg.take(x + 1).last() == tile);
                    assert(d == tile_draw(z as int, y as int, x as int, tile, px, py));
                    assert(row_draws(rg.take(x + 1), z as int, y as int, px, py) == row_draws(
                        rg.take(x as int),
                        z as int,
                        y as int,
                        px,
                        py,
                    ).push(d));
                    draws.push(d);
                    assert(draws@ =~= base_row + row_draws(rg.take(x + 1), z as int, y as int, px, py));
                } else {
                    assert(draws@ =~= base_row + row_draws(rg.take(x + 1), z as int, y as int, px, py));
                }
                x += 1;
            }
            assert(rg.take(rg.len() as int) =~= rg);
            assert(lg.take(y + 1).drop_last() =~= lg.take(y as int));
            assert(lg.take(y + 1).last() == rg);
            assert(draws@ =~= base + layer_draws(lg.take(y + 1), z as int, px, py));
            y += 1;
        }
        assert(lg.take(lg.len() as int) =~= lg);
        assert(g.take(z + 1).drop_last() =~= g.take(z as int));
        assert(g.take(z + 1).last() == lg);
        assert(draws@ =~= world_draws(g.take(z + 1), px, py));
        z += 1;
    }
    assert(g.take(g.len() as int) =~= g);
    draws
}

/// A draw shows the tile of its cell: the cell exists and is not empty, the
/// source is its id less one, and it is shaded exactly when the player's cell
/// is the draw's cell moved by its layer index.
pub open spec fn draw_shows_cell(g: Grid, d: TileDraw, px: int, py: int) -> bool {
    &&& 0 <= d.layer < g.len()
    &&& 0 <= d.row < g[d.layer as int].len()
    &&& 0 <= d.column < g[d.layer as int][d.row as int].len()
    &&& g[d.layer as int][d.row as int][d.column as int] != 0
    &&& d.source + 1 == g[d.layer as int][d.row as int][d.column as int]
    &&& d.shaded == (px == d.column + d.layer && py == d.row + d.layer)
}

proof fn lemma_row_draws_show(row: Seq<usize>, z: int, y: int, px: int, py: int, g: Grid)
    requires
        0 <= z < g.len(),
        0 <= y < g[z].len(),
        g[z][y] == row,
        z <= usize::MAX,
        y <= usize::MAX,
        row.len() <= usize::MAX + 1,
    ensures
        forall|i: int|
            0 <= i < row_draws(row, z, y, px, py).len() ==> #[trigger] draw_shows_cell(
                g,
                row_draws(row, z, y, px, py)[i],
                px,
                py,
            ),
    decreases row.len(),
{
    if row.len() > 0 {
        let init = row.drop_last();
        let ig = g.update(z, g[z].update(y, init));
        lemma_row_draws_show(init, z, y, px, py, ig);
        let ds = row_draws(row, z, y, px, py);
        let before = row_draws(init, z, y, px, py);
        assert forall|i: int| 0 <= i < ds.len() implies #[trigger] draw_shows_cell(g, ds[i], px, py) by {
            if i < before.len() {
                assert(ds[i] == before[i]);
                assert(draw_shows_cell(ig, before[i], px, py));
            }
        }
    }
}

proof fn lemma_layer_draws_show(layer: Seq<Seq<usize>>, z: int, px: int, py: int, g: Grid)
    requires
        0 <= z < g.len(),
        g[z] == layer,
        z <= usize::MAX,
        layer.len() <= usize::MAX + 1,
        forall|y: int| 0 <= y < layer.len() ==> (#[trigger] layer[y]).len() <= usize::MAX + 1,
    ensures
        forall|i: int|
            0 <= i < layer_draws(layer, z, px, py).len() ==> #[trigger] draw_shows_cell(
                g,
                layer_draws(layer, z, px, py)[i],
                px,
                py,
            ),
    decreases layer.len(),
{
    if layer.len() > 0 {
        let init = layer.drop_last();
        let ig = g.update(z, init);
        lemma_layer_draws_show(init, z, px, py, ig);
        let y = layer.len() - 1;
        lemma_row_draws_show(layer[y], z, y, px, py, g);
        let ds = layer_draws(layer, z, px, py);
        let before = layer_draws(init, z, px, py);
        let rd = row_draws(layer[y], z, y, px, py);
        assert(ds == before + rd);
        assert forall|i: int| 0 <= i < ds.len() implies #[trigger] draw_shows_cell(g, ds[i], px, py) by {
            if i < before.len() {
                assert(ds[i] == before[i]);
                assert(draw_shows_cell(ig, before[i], px, py));
            } else {
                assert(ds[i] == rd[i - before.len()]);
            }
        }
    }
}

/// The grid's sizes fit in a `usize`, as those of a grid held in vectors do.
pub open spec fn grid_fits(g: Grid) -> bool {
    &&& g.len() <= usize::MAX + 1
    &&& forall|z: int| 0 <= z < g.len() ==> (#[trigger] g[z]).len() <= usize::MAX + 1
    &&& forall|z: int, y: int|
        0 <= z < g.len() && 0 <= y < g[z].len() ==> (#[trigger] g[z][y]).len() <= usize::MAX + 1
}

/// Every tile drawn shows the tile of its own cell: a non-empty cell of the
/// layers, its source the cell's id less one, shaded exactly when the player's
/// cell is that cell moved by the layer index.
pub proof fn law_draws_show_tiles(g: Grid, px: int, py: int)
    requires
        grid_fits(g),
    ensures
        forall|i: int|
            0 <= i < world_draws(g, px, py).len() ==> #[trigger] draw_shows_cell(
                g,
                world_draws(g, px, py)[i],
                px,
                py,
            ),
    decreases g.len(),
{
    if g.len() > 0 {
        let init = g.drop_last();
        assert forall|z: int| 0 <= z < init.len() implies (#[trigger] init[z]).len() <= usize::MAX + 1 by {
            assert(init[z] == g[z]);
        }
        assert forall|z: int, y: int| 0 <= z < init.len() && 0 <= y < init[z].len() implies (
        #[trigger] init[z][y]).len() <= usize::MAX + 1 by {
            assert(init[z] == g[z]);
        }
        law_draws_show_tiles(init, px, py);
        let z = g.len() - 1;
        assert forall|y: int| 0 <= y < g[z].len() implies (#[trigger] g[z][y]).len() <= usize::MAX + 1 by {}
        lemma_layer_draws_show(g[z], z, px, py, g);
        let ds = world_draws(g, px, py);
        let before = world_draws(init, px, py);
        let ld = layer_draws(g[z], z, px, py);
        assert(ds == before + ld);
        assert forall|i: int| 0 <= i < ds.len() implies #[trigger] draw_shows_cell(g, ds[i], px, py) by {
            if i < before.len() {
                assert(ds[i] == before[i]);
                assert(draw_shows_cell(init, before[i], px, py));
                let d = before[i];
                assert(init[d.layer as int] == g[d.layer as int]);
            } else {
                assert(ds[i] == ld[i - before.len()]);
            }
        }
    }
}

/// Every tile of a tileset image lies inside the image: for an image of
/// non-negative size, the tile `id` (one of `columns * rows`) starts at a
/// non-negative position and ends within the image's width and height.
pub proof fn law_sources_inside_image(texture_width: i32, texture_height: i32, id: int)
    requires
        texture_width >= 0,
        texture_height >= 0,
        0 <= id < tileset_columns(texture_width) * tileset_rows(texture_height),
    ensures
        0 <= tile_source(id, tileset_columns(texture_width)).0,
        tile_source(id, tileset_columns(texture_width)).0 + TILE_WIDTH <= texture_width,
        0 <= tile_source(id, tileset_columns(texture_width)).1,
        tile_source(id, tileset_columns(texture_width)).1 + TILE_HEIGHT <= texture_height,
{
    let c = tileset_columns(texture_width);
    let r = tileset_rows(texture_height);
    assert(c == texture_width / 32);
    assert(r == texture_height / 32);
    assert(c * 32 <= texture_width && r * 32 <= texture_height) by (nonlinear_arith)
        requires c == texture_width / 32, r == texture_height / 32, texture_width >= 0, texture_height >= 0;
    assert(c > 0 && r > 0) by (nonlinear_arith)
        requires 0 <= id < c * r, c >= 0, r >= 0;
    let q = id / c;
    let m = id % c;
    assert(div_toward_zero(id, c) == q);
    assert(rem_toward_zero(id, c) == m) by (nonlinear_arith)
        requires q == id / c, m == id % c, c > 0, rem_toward_zero(id, c) == id - c * q;
    assert(0 <= m < c && 0 <= q < r) by (nonlinear_arith)
        requires q == id / c, m == id % c, c > 0, 0 <= id < c * r;
    assert(m * 32 + 32 <= c * 32 && q * 32 + 32 <= r * 32) by (nonlinear_arith)
        requires 0 <= m < c, 0 <= q < r;
}

/// For an image of non-negative size, tiles are numbered row by row: there are
/// `width / 32` columns, and tile `id` sits at column `id % columns`, row
/// `id / columns`, so its source is `(32 * (id % columns), 32 * (id / columns))`.
pub proof fn law_sources_row_major(texture_width: i32, texture_height: i32, id: int)
    requires
        texture_width >= 0,
        texture_height >= 0,
        0 <= id < tileset_columns(texture_width) * tileset_rows(texture_height),
    ensures
        tileset_columns(texture_width) == texture_width / 32,
        tileset_rows(texture_height) == texture_height / 32,
        tile_source(id, tileset_columns(texture_width)).0 == (id % (texture_width / 32)) * 32,
        tile_source(id, tileset_columns(texture_width)).1 == (id / (texture_width / 32)) * 32,
{
    let c = tileset_columns(texture_width);
    let r = tileset_rows(texture_height);
    law_sources_inside_image(texture_width, texture_height, id);
    assert(c > 0 && r > 0) by (nonlinear_arith)
        requires 0 <= id < c * r, c >= 0, r >= 0;
    let q = id / c;
    let m = id % c;
    assert(div_toward_zero(id, c) == q);
    assert(rem_toward_zero(id, c) == m) by (nonlinear_arith)
        requires q == id / c, m == id % c, c > 0, rem_toward_zero(id, c) == id - c * q;
    assert(r * 32 <= texture_height) by (nonlinear_arith)
        requires r == texture_height / 32, texture_height >= 0;
    assert(0 <= q < r) by (nonlinear_arith)
        requires q == id / c, c > 0, 0 <= id < c * r;
    assert(0 <= q * 32 < r * 32) by (nonlinear_arith)
        requires 0 <= q < r;
}

/// Distinct tiles of a tileset image of non-negative size sit at distinct
/// positions.
pub proof fn law_sources_distinct(texture_width: i32, texture_height: i32, a: int, b: int)
    requires
        texture_width >= 0,
        texture_height >= 0,
        0 <= a < tileset_columns(texture_width) * tileset_rows(texture_height),
        0 <= b < tileset_columns(texture_width) * tileset_rows(texture_height),
        a != b,
    ensures
        tile_source(a, tileset_columns(texture_width)) != tile_source(b, tileset_columns(texture_width)),
{
    let c = texture_width / 32;
    law_sources_row_major(texture_width, texture_height, a);
    law_sources_row_major(texture_width, texture_height, b);
    assert(c > 0) by (nonlinear_arith)
        requires
            0 <= a < c * tileset_rows(texture_height),
            c >= 0,
            tileset_rows(texture_height) >= 0,
    ;
    if a % c == b % c && a / c == b / c {
        assert(a == c * (a / c) + a % c && b == c * (b / c) + b % c) by (nonlinear_arith)
            requires c > 0;
    }
}

/// `a` comes before `b` in drawing order: by layer, then row, then column.
pub open spec fn draw_before(a: TileDraw, b: TileDraw) -> bool {
    ||| a.layer < b.layer
    ||| a.layer == b.layer && a.row < b.row
    ||| a.layer == b.layer && a.row == b.row && a.column < b.column
}

proof fn lemma_row_order(row: Seq<usize>, z: int, y: int, px: int, py: int)
    requires
        0 <= z <= usize::MAX,
        0 <= y <= usize::MAX,
        row.len() <= usize::MAX + 1,
    ensures
        ({
            let ds = row_draws(row, z, y, px, py);
            &&& forall|i: int|
                0 <= i < ds.len() ==> (#[trigger] ds[i]).layer == z && ds[i].row == y
                    && ds[i].column < row.len()
            &&& forall|i: int, j: int|
                0 <= i < j < ds.len() ==> (#[trigger] ds[i]).column < (#[trigger] ds[j]).column
            &&& forall|x: int|
                0 <= x < row.len() && #[trigger] row[x] != 0 ==> exists|i: int|
                    0 <= i < ds.len() && (#[trigger] ds[i]).column == x
        }),
    decreases row.len(),
{
    if row.len() > 0 {
        let init = row.drop_last();
        lemma_row_order(init, z, y, px, py);
        let ds = row_draws(row, z, y, px, py);
        let before = row_draws(init, z, y, px, py);
        assert forall|x: int| 0 <= x < row.len() && #[trigger] row[x] != 0 implies exists|i: int|
            0 <= i < ds.len() && (#[trigger] ds[i]).column == x by {
            if x < init.len() {
                assert(init[x] == row[x]);
                let i = choose|i: int| 0 <= i < before.len() && (#[trigger] before[i]).column == x;
                assert(ds[i] == before[i]);
            } else {
                assert(row.last() != 0);
                assert(ds[ds.len() - 1].column == x);
            }
        }
        if row.last() != 0 {
            assert forall|i: int| 0 <= i < ds.len() implies (#[trigger] ds[i]).layer == z && ds[i].row
                == y && ds[i].column < row.len() by {
                if i < before.len() {
                    assert(ds[i] == before[i]);
                }
            }
            assert forall|i: int, j: int| 0 <= i < j < ds.len() implies (#[trigger] ds[i]).column < (
            #[trigger] ds[j]).column by {
                assert(ds[i] == before[i]);
                if j < before.len() {
                    assert(ds[j] == before[j]);
                }
            }
        }
    }
}

proof fn lemma_layer_order(layer: Seq<Seq<usize>>, z: int, px: int, py: int)
    requires
        0 <= z <= usize::MAX,
        layer.len() <= usize::MAX + 1,
        forall|y: int| 0 <= y < layer.len() ==> (#[trigger] layer[y]).len() <= usize::MAX + 1,
    ensures
        ({
            let ds = layer_draws(layer, z, px, py);
            &&& forall|i: int|
                0 <= i < ds.len() ==> (#[trigger] ds[i]).layer == z && ds[i].row < layer.len()
            &&& forall|i: int, j: int|
                0 <= i < j < ds.len() ==> (#[trigger] ds[i]).row < (#[trigger] ds[j]).row || (
                ds[i].row == ds[j].row && ds[i].column < ds[j].column)
            &&& forall|y: int, x: int|
                0 <= y < layer.len() && 0 <= x < layer[y].len() && #[trigger] layer[y][x] != 0
                    ==> exists|i: int|
                    0 <= i < ds.len() && (#[trigger] ds[i]).row == y && ds[i].column == x
        }),
    decreases layer.len(),
{
    if layer.len() > 0 {
        let init = layer.drop_last();
        assert forall|y: int| 0 <= y < init.len() implies (#[trigger] init[y]).len() <= usize::MAX + 1 by {
            assert(init[y] == layer[y]);
        }
        lemma_layer_order(init, z, px, py);
        let yl = layer.len() - 1;
        lemma_row_order(layer[yl], z, yl, px, py);
        let ds = layer_draws(layer, z, px, py);
        let before = layer_draws(init, z, px, py);
        let rd = row_draws(layer[yl], z, yl, px, py);
        assert(ds == before + rd);
        assert forall|i: int| 0 <= i < ds.len() implies (#[trigger] ds[i]).layer == z && ds[i].row
            < layer.len() by {
            if i < before.len() {
                assert(ds[i] == before[i]);
            } else {
                assert(ds[i] == rd[i - before.len()]);
            }
        }
        assert forall|i: int, j: int| 0 <= i < j < ds.len() implies (#[trigger] ds[i]).row < (
        #[trigger] ds[j]).row || (ds[i].row == ds[j].row && ds[i].column < ds[j].column) by {
            if j < before.len() {
                assert(ds[i] == before[i]);
                assert(ds[j] == before[j]);
            } else if i < before.len() {
                assert(ds[i] == before[i]);
                assert(ds[j] == rd[j - before.len()]);
            } else {
                assert(ds[i] == rd[i - before.len()]);
                assert(ds[j] == rd[j - before.len()]);
            }
        }
        assert forall|y: int, x: int|
            0 <= y < layer.len() && 0 <= x < layer[y].len() && #[trigger] layer[y][x] != 0 implies exists|
            i: int,
        | 0 <= i < ds.len() && (#[trigger] ds[i]).row == y && ds[i].column == x by {
            if y < init.len() {
                assert(init[y] == layer[y]);
                assert(init[y][x] != 0);
                let i = choose|i: int| 0 <= i < before.len() && (#[trigger] before[i]).row == y && before[i].column == x;
                assert(ds[i] == before[i]);
            } else {
                assert(layer[yl][x] != 0);
                let i = choose|i: int| 0 <= i < rd.len() && (#[trigger] rd[i]).column == x;
                assert(ds[before.len() + i] == rd[i]);
            }
        }
    }
}

/// The tiles are drawn in order, layer by layer, row by row, left to right,
/// each cell at most once, and every non-empty cell of the layers is drawn.
pub proof fn law_draws_ordered_and_complete(g: Grid, px: int, py: int)
    requires
        grid_fits(g),
    ensures
        forall|i: int, j: int|
            0 <= i < j < world_draws(g, px, py).len() ==> draw_before(
                #[trigger] world_draws(g, px, py)[i],
                #[trigger] world_draws(g, px, py)[j],
            ),
        forall|z: int, y: int, x: int|
            0 <= z < g.len() && 0 <= y < g[z].len() && 0 <= x < g[z][y].len() && #[trigger] g[z][y][x]
                != 0 ==> exists|i: int|
                0 <= i < world_draws(g, px, py).len() && (#[trigger] world_draws(g, px, py)[i]).layer
                    == z && world_draws(g, px, py)[i].row == y && world_draws(g, px, py)[i].column == x,
    decreases g.len(),
{
    if g.len() > 0 {
        let init = g.drop_last();
        assert forall|z: int| 0 <= z < init.len() implies (#[trigger] init[z]).len() <= usize::MAX + 1 by {
            assert(init[z] == g[z]);
        }
        assert forall|z: int, y: int| 0 <= z < init.len() && 0 <= y < init[z].len() implies (
        #[trigger] init[z][y]).len() <= usize::MAX + 1 by {
            assert(init[z] == g[z]);
        }
        law_draws_ordered_and_complete(init, px, py);
        let zl = g.len() - 1;
        assert forall|y: int| 0 <= y < g[zl].len() implies (#[trigger] g[zl][y]).len() <= usize::MAX + 1 by {}
        lemma_layer_order(g[zl], zl, px, py);
        let ds = world_draws(g, px, py);
        let before = world_draws(init, px, py);
        let ld = layer_draws(g[zl], zl, px, py);
        assert(ds == before + ld);
        lemma_world_layers_below(init, px, py);
        assert forall|i: int, j: int| 0 <= i < j < ds.len() implies draw_before(
            #[trigger] ds[i],
            #[trigger] ds[j],
        ) by {
            if j < before.len() {
                assert(ds[i] == before[i]);
                assert(ds[j] == before[j]);
            } else if i < before.len() {
                assert(ds[i] == before[i]);
                assert(ds[j] == ld[j - before.len()]);
            } else {
                assert(ds[i] == ld[i - before.len()]);
                assert(ds[j] == ld[j - before.len()]);
            }
        }
        assert forall|z: int, y: int, x: int|
            0 <= z < g.len() && 0 <= y < g[z].len() && 0 <= x < g[z][y].len() && #[trigger] g[z][y][x]
                != 0 implies exists|i: int|
            0 <= i < ds.len() && (#[trigger] ds[i]).layer == z && ds[i].row == y && ds[i].column == x by {
            if z < init.len() {
                assert(init[z] == g[z]);
                assert(init[z][y][x] != 0);
                let i = choose|i: int|
                    0 <= i < before.len() && (#[trigger] before[i]).layer == z && before[i].row == y
                        && before[i].column == x;
                assert(ds[i] == before[i]);
            } else {
                assert(g[zl][y][x] != 0);
                let i = choose|i: int| 0 <= i < ld.len() && (#[trigger] ld[i]).row == y && ld[i].column == x;
                assert(ds[before.len() + i] == ld[i]);
            }
        }
    }
}

proof fn lemma_world_layers_below(g: Grid, px: int, py: int)
    requires
        grid_fits(g),
    ensures
        forall|i: int| 0 <= i < world_draws(g, px, py).len() ==> (#[trigger] world_draws(g, px, py)[i]).layer < g.len(),
    decreases g.len(),
{
    if g.len() > 0 {
        let init = g.drop_last();
        assert forall|z: int| 0 <= z < init.len() implies (#[trigger] init[z]).len() <= usize::MAX + 1 by {
            assert(init[z] == g[z]);
        }
        assert forall|z: int, y: int| 0 <= z < init.len() && 0 <= y < init[z].len() implies (
        #[trigger] init[z][y]).len() <= usize::MAX + 1 by {
            assert(init[z] == g[z]);
        }
        lemma_world_layers_below(init, px, py);
        let zl = g.len() - 1;
        assert forall|y: int| 0 <= y < g[zl].len() implies (#[trigger] g[zl][y]).len() <= usize::MAX + 1 by {}
        lemma_layer_order(g[zl], zl, px, py);
        let ds = world_draws(g, px, py);
        let before = world_draws(init, px, py);
        let ld = layer_draws(g[zl], zl, px, py);
        assert(ds == before + ld);
        assert forall|i: int| 0 <= i < ds.len() implies (#[trigger] ds[i]).layer < g.len() by {
            if i < before.len() {
                assert(ds[i] == before[i]);
            } else {
                assert(ds[i] == ld[i - before.len()]);
            }
        }
    }
}

/// A tileset image of non-negative size holds one tile per whole 32 by 32
/// square: `(width / 32) * (height / 32)` tiles.
pub proof fn law_tileset_count(texture_width: i32, texture_height: i32)
    requires
        texture_width >= 0,
        texture_height >= 0,
    ensures
        tileset_count(texture_width, texture_height) == (texture_width / 32) * (texture_height / 32),
{
    let c = texture_width / 32;
    let r = texture_height / 32;
    assert(c >= 0 && r >= 0);
    assert(c * r >= 0) by (nonlinear_arith)
        requires c >= 0, r >= 0;
}

} // verus!
