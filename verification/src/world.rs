//! The block world: a stack of layers, each a grid of tile ids (`0` is empty).
//! A grid is indexed `world[z][y][x]`.
use vstd::prelude::*;

verus! {

/// The mathematical model of a world: layers of rows of tile ids.
pub type Grid = Seq<Seq<Seq<usize>>>;

/// The cell `(z, y, x)` exists in `g`.
pub open spec fn cell_exists(g: Grid, z: int, y: int, x: int) -> bool {
    &&& 0 <= z < g.len()
    &&& 0 <= y < g[z].len()
    &&& 0 <= x < g[z][y].len()
}

/// The position `(x, y, z)` is one whose two cells above `z` are looked at:
/// there are two layers above `z`, and `(x, y)` lies strictly inside the map,
/// away from the first row and column.
pub open spec fn probes_cells(
    g: Grid,
    x: i32,
    y: i32,
    z: usize,
    world_width: u64,
    world_height: u64,
) -> bool {
    &&& z + 2 < g.len()
    &&& 1 <= x < (world_width as i32)
    &&& 1 <= y < (world_height as i32)
}

/// What `world_fn` reads exists: the cell above `z`, and the one above that
/// where the first is empty.
pub open spec fn world_fn_cells_exist(
    g: Grid,
    x: i32,
    y: i32,
    z: usize,
    world_width: u64,
    world_height: u64,
) -> bool {
    probes_cells(g, x, y, z, world_width, world_height) ==> {
        &&& cell_exists(g, z + 1, y as int, x as int)
        &&& (g[z + 1][y as int][x as int] == 0 ==> cell_exists(g, z + 2, y as int, x as int))
    }
}

/// A body standing with its feet in layer `z` at column `(x, y)` is free
/// unless one of the two layers above holds a block there.
pub open spec fn spec_world_fn(
    g: Grid,
    x: i32,
    y: i32,
    z: usize,
    world_width: u64,
    world_height: u64,
) -> bool {
    !(probes_cells(g, x, y, z, world_width, world_height) && (g[z + 1][y as int][x as int] != 0
        || g[z + 2][y as int][x as int] != 0))
}

/// Determines if the player can be in the cell `(x, y)` of layer `z`: false
/// when the cell is inside the map (first row and column excluded), two layers
/// lie above `z`, and one of them holds a block at `(x, y)`.
pub fn world_fn(
    x: i32,
    y: i32,
    z: usize,
    world: &Vec<Vec<Vec<usize>>>,
    world_width: u64,
    world_height: u64,
) -> (free: bool)
    requires
        world@.len() >= 2,
        world_fn_cells_exist(world.deep_view(), x, y, z, world_width, world_height),
    ensures
        free == spec_world_fn(world.deep_view(), x, y, z, world_width, world_height),
{
    let ghost g = world.deep_view();
    if z < world.len() - 2 {
        let w: i32 = world_width as i32;
        let h: i32 = world_height as i32;
        if (x < w && x >= 1) && (y < h && y >= 1) {
            let yi = y as usize;
            let xi = x as usize;
            assert(g[z + 1][yi as int] == world@[z + 1]@[yi as int].deep_view());
            if world[z + 1][yi][xi] != 0 {
                return false;
            }
            assert(g[z + 2][yi as int] == world@[z + 2]@[yi as int].deep_view());
            if world[z + 2][yi][xi] != 0 {
                return false;
            }
        }
    }
    true
}

/// The layer kept by scanning the layers from the bottom: a layer replaces the
/// one kept so far when its tile at `(x, y)` is greater than the index of the
/// layer kept so far. `n` layers are scanned.
pub open spec fn highest_scan(g: Grid, y: int, x: int, n: nat) -> nat
    decreases n,
{
    if n == 0 {
        0
    } else {
        let kept = highest_scan(g, y, x, (n - 1) as nat);
        if g[n - 1][y][x] > kept {
            (n - 1) as nat
        } else {
            kept
        }
    }
}

/// The column `(x, y)` lies outside the bottom layer, or on its first row or
/// column: no scan is made there.
pub open spec fn outside_floor(g: Grid, x: int, y: int) -> bool {
    x < 1 || y < 1 || y >= g[0].len() || x >= g[0][y].len()
}

/// Every layer has a cell at `(x, y)`.
pub open spec fn column_exists(g: Grid, x: int, y: int) -> bool {
    forall|k: int| 0 <= k < g.len() ==> cell_exists(g, k, y, x)
}

/// What `find_highest_z` answers for the column `(x, y)`.
pub open spec fn spec_find_highest_z(g: Grid, x: int, y: int) -> nat {
    if outside_floor(g, x, y) {
        0
    } else {
        highest_scan(g, y, x, g.len())
    }
}

/// The layer on which a body standing in column `(x, y)` rests: `0` outside
/// the floor (the first row and column included), otherwise the layer found by
/// scanning the layers from the bottom (see `highest_scan`).
pub fn find_highest_z(x: usize, y: usize, world: &Vec<Vec<Vec<usize>>>) -> (z: usize)
    requires
        world@.len() >= 1,
        !outside_floor(world.deep_view(), x as int, y as int) ==> column_exists(
            world.deep_view(),
            x as int,
            y as int,
        ),
    ensures
        z == spec_find_highest_z(world.deep_view(), x as int, y as int),
{
    let ghost g = world.deep_view();
    assert(g[0] == world@[0].deep_view());
    if x < 1 || y < 1 || y >= world[0].len() {
        return 0;
    }
    assert(g[0][y as int] == world@[0]@[y as int].deep_view());
    if x >= world[0][y].len() {
        return 0;
    }
    let mut highest_z: usize = 0;
    let mut k: usize = 0;
    while k < world.len()
        invariant
            g == world.deep_view(),
            k <= world@.len(),
            column_exists(g, x as int, y as int),
            highest_z == highest_scan(g, y as int, x as int, k as nat),
        decreases world@.len() - k,
    {
        assert(cell_exists(g, k as int, y as int, x as int));
        assert(g[k as int][y as int] == world@[k as int]@[y as int].deep_view());
        if world[k][y][x] > highest_z {
            highest_z = k;
        }
        k += 1;
    }
    highest_z
}

proof fn lemma_scan_holds_block(g: Grid, y: int, x: int, n: nat)
    requires
        n <= g.len(),
        forall|k: int| 0 <= k < n ==> cell_exists(g, k, y, x),
    ensures
        highest_scan(g, y, x, n) == 0 || (highest_scan(g, y, x, n) < n && g[highest_scan(
            g,
            y,
            x,
            n,
        ) as int][y][x] > 0),
        (forall|k: int| 0 <= k < n ==> g[k][y][x] == 0) ==> highest_scan(g, y, x, n) == 0,
    decreases n,
{
    if n > 0 {
        lemma_scan_holds_block(g, y, x, (n - 1) as nat);
    }
}

/// The layer on which a body rests is the floor (`0`) or a layer that holds a
/// block in that column; and a column without any block gives the floor.
pub proof fn law_highest_z_rests_on_block(g: Grid, x: int, y: int)
    requires
        g.len() >= 1,
        !outside_floor(g, x, y) ==> column_exists(g, x, y),
    ensures
        spec_find_highest_z(g, x, y) == 0 || (spec_find_highest_z(g, x, y) < g.len() && g[spec_find_highest_z(g, x, y) as int][y][x] != 0),
        column_exists(g, x, y) && (forall|k: int| 0 <= k < g.len() ==> g[k][y][x] == 0)
            ==> spec_find_highest_z(g, x, y) == 0,
{
    if !outside_floor(g, x, y) {
        lemma_scan_holds_block(g, y, x, g.len());
    }
}

/// A body is blocked exactly when a block stands in one of the two cells right
/// above its feet: where there are two layers above `z` and `(x, y)` lies
/// inside the map (first row and column excluded), it is free if and only if
/// both cells above hold tile `0`; anywhere else it is free.
pub proof fn law_world_fn_free_iff_above_empty(
    g: Grid,
    x: i32,
    y: i32,
    z: usize,
    world_width: u64,
    world_height: u64,
)
    ensures
        (z + 2 < g.len() && 1 <= x < (world_width as i32) && 1 <= y < (world_height as i32)) ==> (
        spec_world_fn(g, x, y, z, world_width, world_height) <==> (g[z + 1][y as int][x as int] == 0
            && g[z + 2][y as int][x as int] == 0)),
        !(z + 2 < g.len() && 1 <= x < (world_width as i32) && 1 <= y < (world_height as i32))
            ==> spec_world_fn(g, x, y, z, world_width, world_height),
{
}

proof fn lemma_scan_bounds(g: Grid, y: int, x: int, n: nat)
    ensures
        n == 0 ==> highest_scan(g, y, x, n) == 0,
        n > 0 ==> highest_scan(g, y, x, n) < n,
        forall|k: int|
            highest_scan(g, y, x, n) < k < n ==> #[trigger] g[k][y][x] <= highest_scan(g, y, x, n),
        forall|k: int| 0 <= k < n && #[trigger] g[k][y][x] > k ==> highest_scan(g, y, x, n) >= k,
    decreases n,
{
    if n > 0 {
        lemma_scan_bounds(g, y, x, (n - 1) as nat);
    }
}

/// The layer a body rests on, for a column inside the floor: it is one of the
/// layers; no layer above it holds a tile greater than its index; every layer
/// whose tile is greater than its own index lies at or below it; and it is
/// either the floor or a layer holding a block there. Outside the floor it is
/// `0`.
pub proof fn law_highest_z_no_greater_tile_above(g: Grid, x: int, y: int)
    requires
        g.len() >= 1,
    ensures
        (x < 1 || y < 1 || y >= g[0].len() || x >= g[0][y].len()) ==> spec_find_highest_z(g, x, y)
            == 0,
        !(x < 1 || y < 1 || y >= g[0].len() || x >= g[0][y].len()) ==> {
            let r = spec_find_highest_z(g, x, y);
            &&& r < g.len()
            &&& forall|k: int| r < k < g.len() ==> #[trigger] g[k][y][x] <= r
            &&& forall|k: int| 0 <= k < g.len() && #[trigger] g[k][y][x] > k ==> r >= k
            &&& (r == 0 || g[r as int][y][x] > 0)
        },
{
    if !(x < 1 || y < 1 || y >= g[0].len() || x >= g[0][y].len()) {
        lemma_scan_bounds(g, y, x, g.len());
        let r = spec_find_highest_z(g, x, y);
        if r > 0 {
            lemma_scan_positive(g, y, x, g.len());
        }
    }
}

proof fn lemma_scan_positive(g: Grid, y: int, x: int, n: nat)
    ensures
        highest_scan(g, y, x, n) == 0 || g[highest_scan(g, y, x, n) as int][y][x] > 0,
    decreases n,
{
    if n > 0 {
        lemma_scan_positive(g, y, x, (n - 1) as nat);
    }
}

proof fn lemma_scan_prefix(g: Grid, h: Grid, y: int, x: int, n: nat)
    requires
        n <= g.len(),
        n <= h.len(),
        forall|k: int| 0 <= k < n ==> #[trigger] g[k] == h[k],
    ensures
        highest_scan(g, y, x, n) == highest_scan(h, y, x, n),
    decreases n,
{
    if n > 0 {
        lemma_scan_prefix(g, h, y, x, (n - 1) as nat);
        assert(g[n - 1] == h[n - 1]);
    }
}

/// How the answer grows with the world, for a column inside the floor: a world
/// of one layer gives `0`; adding layer `n` on top makes it the answer exactly
/// when its tile in the column is greater than the answer for the layers below,
/// and otherwise leaves the answer unchanged.
pub proof fn law_highest_z_layer_by_layer(g: Grid, x: int, y: int, n: int)
    requires
        1 <= n < g.len(),
        !(x < 1 || y < 1 || y >= g[0].len() || x >= g[0][y].len()),
    ensures
        spec_find_highest_z(g.take(1), x, y) == 0,
        spec_find_highest_z(g.take(n + 1), x, y) == if g[n][y][x] > spec_find_highest_z(
            g.take(n),
            x,
            y,
        ) {
            n
        } else {
            spec_find_highest_z(g.take(n), x, y) as int
        },
{
    let a = g.take(n + 1);
    let b = g.take(n);
    assert(a[0] == g[0] && b[0] == g[0] && g.take(1)[0] == g[0]);
    assert(g.take(1).len() == 1);
    assert(highest_scan(g.take(1), y, x, 0) == 0);
    assert(highest_scan(g.take(1), y, x, 1) == 0);
    assert forall|k: int| 0 <= k < n implies #[trigger] a[k] == b[k] by {}
    lemma_scan_prefix(a, b, y, x, n as nat);
    assert(a[n] == g[n]);
}

} // verus!
