//! Laying out a world from the layers of a Tiled map: rows cut from a flat
//! list of tile ids, each layer above the first shifted one step down and right
//! per layer, and two empty layers on top.
use vstd::prelude::*;
use crate::world::{Grid, spec_world_fn, world_fn_cells_exist};

verus! {

/// The flat list `s` cut into rows of `w` ids; the last row holds what is left.
pub open spec fn spec_chunks(s: Seq<usize>, w: nat) -> Seq<Seq<usize>>
    recommends
        w > 0,
    decreases s.len(),
{
    if s.len() == 0 || w == 0 {
        seq![]
    } else if s.len() <= w {
        seq![s]
    } else {
        seq![s.take(w as int)] + spec_chunks(s.skip(w as int), w)
    }
}

/// The rows of a grid laid end to end.
pub open spec fn flatten_rows(rows: Seq<Seq<usize>>) -> Seq<usize>
    decreases rows.len(),
{
    if rows.len() == 0 {
        seq![]
    } else {
        rows[0] + flatten_rows(rows.drop_first())
    }
}

/// An empty layer of `h` rows of `w` cells.
pub open spec fn zero_layer(w: nat, h: nat) -> Seq<Seq<usize>> {
    Seq::new(h, |r: int| Seq::new(w, |c: int| 0usize))
}

/// The cell `(r, c)` of layer `k` once shifted: the raw cell `(r - k, c - k)`,
/// or empty where there is none.
pub open spec fn shifted_cell(layer: Seq<Seq<usize>>, k: int, r: int, c: int) -> usize {
    if k <= r && k <= c && r - k < layer.len() && c - k < layer[r - k].len() {
        layer[r - k][c - k]
    } else {
        0
    }
}

/// Layer `k` shifted `k` cells down and `k` cells right, cut to `h` rows of
/// `w` cells.
pub open spec fn shift_layer(layer: Seq<Seq<usize>>, k: int, w: nat, h: nat) -> Seq<Seq<usize>> {
    Seq::new(h, |r: int| Seq::new(w, |c: int| shifted_cell(layer, k, r, c)))
}

/// The world laid out from its raw layers: the first as it is, each other one
/// shifted by its index, then two empty layers on top.
pub open spec fn spec_build_world(raw: Grid, w: nat, h: nat) -> Grid {
    Seq::new(
        raw.len() + 2,
        |k: int|
            if k < raw.len() {
                if k == 0 {
                    raw[0]
                } else {
                    shift_layer(raw[k], k, w, h)
                }
            } else {
                zero_layer(w, h)
            },
    )
}

/// Cuts `data` into rows of `width` ids, the last row holding what is left.
pub fn rows_from_data(data: &Vec<usize>, width: usize) -> (rows: Vec<Vec<usize>>)
    requires
        width > 0,
    ensures
        rows.deep_view() == spec_chunks(data@, width as nat),
{
    let mut rows: Vec<Vec<usize>> = Vec::new();
    let n = data.len();
    let mut i: usize = 0;
    assert(data@.skip(0) =~= data@);
    assert(rows.deep_view() =~= Seq::<Seq<usize>>::empty());
    while i < n
        invariant
            n == data@.len(),
            width > 0,
            i <= n,
            spec_chunks(data@, width as nat) == rows.deep_view() + spec_chunks(
                data@.skip(i as int),
                width as nat,
            ),
        decreases n - i,
    {
        let end: usize = if n - i <= width {
            n
        } else {
            i + width
        };
        let mut row: Vec<usize> = Vec::new();
        let mut j: usize = i;
        while j < end
            invariant
                n == data@.len(),
                i <= j <= end <= n,
                row@ == data@.subrange(i as int, j as int),
            decreases end - j,
        {
            row.push(data[j]);
            j += 1;
        }
        let ghost rest = data@.skip(i as int);
        let ghost before = rows.deep_view();
        assert(row.deep_view() =~= row@);
        if n - i <= width {
            assert(row@ =~= rest);
            assert(spec_chunks(rest, width as nat) == seq![rest]);
            assert(data@.skip(n as int) =~= Seq::<usize>::empty());
        } else {
            assert(row@ =~= rest.take(width as int));
            assert(rest.skip(width as int) =~= data@.skip(end as int));
        }
        rows.push(row);
        assert(rows.deep_view() =~= before.push(row.deep_view()));
        assert(spec_chunks(data@, width as nat) =~= rows.deep_view() + spec_chunks(
            data@.skip(end as int),
            width as nat,
        ));
        i = end;
    }
    assert(spec_chunks(data@.skip(n as int), width as nat) =~= Seq::<Seq<usize>>::empty()) by {
        assert(data@.skip(n as int).len() == 0);
    }
    assert(rows.deep_view() =~= spec_chunks(data@, width as nat));
    rows
}

/// Cutting a list into rows loses and adds nothing: the rows laid end to end
/// give back the list; every row but the last holds exactly `w` ids, and the
/// last holds between one and `w`.
pub proof fn law_chunks_restore(s: Seq<usize>, w: nat)
    requires
        w > 0,
    ensures
        flatten_rows(spec_chunks(s, w)) == s,
        forall|r: int|
            0 <= r < spec_chunks(s, w).len() - 1 ==> #[trigger] spec_chunks(s, w)[r].len() == w,
        spec_chunks(s, w).len() > 0 ==> 0 < spec_chunks(s, w).last().len() <= w,
        spec_chunks(s, w).len() * w >= s.len(),
        spec_chunks(s, w).len() * w < s.len() + w,
    decreases s.len(),
{
    let c = spec_chunks(s, w);
    if s.len() == 0 {
        assert(flatten_rows(c) =~= s);
        assert(c.len() == 0);
        assert(c.len() * w == 0) by (nonlinear_arith)
            requires c.len() == 0;
    } else if s.len() <= w {
        assert(c == seq![s]);
        assert(c.drop_first() =~= Seq::<Seq<usize>>::empty());
        assert(flatten_rows(Seq::<Seq<usize>>::empty()) == Seq::<usize>::empty());
        assert(flatten_rows(c) =~= s);
        assert(c.len() * w == w) by (nonlinear_arith)
            requires c.len() == 1;
    } else {
        let rest = spec_chunks(s.skip(w as int), w);
        law_chunks_restore(s.skip(w as int), w);
        assert(c == seq![s.take(w as int)] + rest);
        assert(c.drop_first() =~= rest);
        assert(flatten_rows(c) == s.take(w as int) + flatten_rows(rest));
        assert(flatten_rows(c) =~= s);
        assert forall|r: int| 0 <= r < c.len() - 1 implies #[trigger] c[r].len() == w by {
            if r > 0 {
                assert(c[r] == rest[r - 1]);
            }
        }
        assert(c.len() == rest.len() + 1);
        assert(c.len() * w == rest.len() * w + w) by (nonlinear_arith)
            requires c.len() == rest.len() + 1;
        assert(s.skip(w as int).len() == s.len() - w);
        assert(c.len() * w >= s.len());
        assert(c.len() * w < s.len() + w);
    }
}

/// An empty layer of `world_height` rows of `world_width` cells.
pub fn empty_layer(world_width: usize, world_height: usize) -> (layer: Vec<Vec<usize>>)
    ensures
        layer.deep_view() == zero_layer(world_width as nat, world_height as nat),
{
    let mut layer: Vec<Vec<usize>> = Vec::new();
    let mut r: usize = 0;
    while r < world_height
        invariant
            r <= world_height,
            layer@.len() == r,
            forall|i: int|
                0 <= i < r ==> #[trigger] layer@[i].deep_view() == Seq::new(
                    world_width as nat,
                    |c: int| 0usize,
                ),
        decreases world_height - r,
    {
        let mut row: Vec<usize> = Vec::new();
        let mut c: usize = 0;
        while c < world_width
            invariant
                c <= world_width,
                row@.len() == c,
                forall|j: int| 0 <= j < c ==> row@[j] == 0,
            decreases world_width - c,
        {
            row.push(0);
            c += 1;
        }
        assert(row.deep_view() =~= Seq::new(world_width as nat, |c: int| 0usize));
        layer.push(row);
        r += 1;
    }
    assert(layer.deep_view() =~= zero_layer(world_width as nat, world_height as nat));
    layer
}

/// A copy of a layer, row by row.
fn copy_layer(layer: &Vec<Vec<usize>>) -> (copy: Vec<Vec<usize>>)
    ensures
        copy.deep_view() == layer.deep_view(),
{
    let mut copy: Vec<Vec<usize>> = Vec::new();
    let mut r: usize = 0;
    while r < layer.len()
        invariant
            r <= layer@.len(),
            copy@.len() == r,
            forall|i: int| 0 <= i < r ==> #[trigger] copy@[i].deep_view() == layer@[i].deep_view(),
        decreases layer@.len() - r,
    {
        let row = layer[r].clone();
        assert(row@ =~= layer@[r as int]@);
        assert(row.deep_view() =~= layer@[r as int].deep_view());
        copy.push(row);
        r += 1;
    }
    assert(copy.deep_view() =~= layer.deep_view());
    copy
}

/// Layer `k` shifted `k` cells down and `k` cells right onto an empty layer of
/// `world_height` rows of `world_width` cells; what falls outside is dropped.
fn shifted_layer(layer: &Vec<Vec<usize>>, k: usize, world_width: usize, world_height: usize) -> (out: Vec<Vec<usize>>)
    ensures
        out.deep_view() == shift_layer(layer.deep_view(), k as int, world_width as nat, world_height as nat),
{
    let ghost lg = layer.deep_view();
    let mut out: Vec<Vec<usize>> = Vec::new();
    let mut r: usize = 0;
    while r < world_height
        invariant
            lg == layer.deep_view(),
            r <= world_height,
            out@.len() == r,
            forall|i: int|
                0 <= i < r ==> #[trigger] out@[i].deep_view() == Seq::new(
                    world_width as nat,
                    |c: int| shifted_cell(lg, k as int, i, c),
                ),
        decreases world_height - r,
    {
        let mut row: Vec<usize> = Vec::new();
        let mut c: usize = 0;
        while c < world_width
            invariant
                lg == layer.deep_view(),
                r < world_height,
                c <= world_width,
                row@.len() == c,
                forall|j: int| 0 <= j < c ==> row@[j] == shifted_cell(lg, k as int, r as int, j),
            decreases world_width - c,
        {
            let mut v: usize = 0;
            if k <= r && k <= c {
                let rr = r - k;
                let cc = c - k;
                if rr < layer.len() {
                    assert(lg[rr as int] == layer@[rr as int].deep_view());
                    if cc < layer[rr].len() {
                        v = layer[rr][cc];
                    }
                }
            }
            row.push(v);
            c += 1;
        }
        assert(row.deep_view() =~= Seq::new(
            world_width as nat,
            |c: int| shifted_cell(lg, k as int, r as int, c),
        ));
        out.push(row);
        r += 1;
    }
    assert(out.deep_view() =~= shift_layer(lg, k as int, world_width as nat, world_height as nat));
    out
}

/// Lays out the world from the raw layers of a map: the first layer as it is,
/// each layer `k` above it shifted `k` cells down and right onto an empty
/// `world_height` by `world_width` layer, then two empty layers on top.
pub fn build_world(raw: &Vec<Vec<Vec<usize>>>, world_width: usize, world_height: usize) -> (world: Vec<Vec<Vec<usize>>>)
    ensures
        world.deep_view() == spec_build_world(raw.deep_view(), world_width as nat, world_height as nat),
{
    let ghost target = spec_build_world(raw.deep_view(), world_width as nat, world_height as nat);
    let mut world: Vec<Vec<Vec<usize>>> = Vec::new();
    let mut k: usize = 0;
    while k < raw.len()
        invariant
            target == spec_build_world(raw.deep_view(), world_width as nat, world_height as nat),
            k <= raw@.len(),
            world@.len() == k,
            forall|i: int| 0 <= i < k ==> #[trigger] world@[i].deep_view() == target[i],
        decreases raw@.len() - k,
    {
        if k == 0 {
            world.push(copy_layer(&raw[0]));
        } else {
            world.push(shifted_layer(&raw[k], k, world_width, world_height));
        }
        k += 1;
    }
    world.push(empty_layer(world_width, world_height));
    world.push(empty_layer(world_width, world_height));
    assert(world.deep_view() =~= target);
    world
}

/// What laying out the world keeps: two more layers than the map has, the two
/// on top empty, the first layer unchanged, and every cell `(j, i)` of a layer
/// `k > 0` found at `(j + k, i + k)` where that falls inside the world; all
/// other cells of a shifted layer are empty.
pub proof fn law_build_world_shifts(raw: Grid, w: nat, h: nat)
    ensures
        spec_build_world(raw, w, h).len() == raw.len() + 2,
        spec_build_world(raw, w, h)[raw.len() as int] == zero_layer(w, h),
        spec_build_world(raw, w, h)[raw.len() + 1int] == zero_layer(w, h),
        forall|k: int|
            raw.len() <= k < raw.len() + 2 ==> (#[trigger] spec_build_world(raw, w, h)[k]).len() == h
                && forall|r: int|
                0 <= r < h ==> (#[trigger] spec_build_world(raw, w, h)[k][r]).len() == w && forall|
                    c: int,
                | 0 <= c < w ==> #[trigger] spec_build_world(raw, w, h)[k][r][c] == 0,
        raw.len() > 0 ==> spec_build_world(raw, w, h)[0] == raw[0],
        forall|k: int|
            0 < k < raw.len() ==> (#[trigger] spec_build_world(raw, w, h)[k]).len() == h && forall|
                r: int,
            | 0 <= r < h ==> (#[trigger] spec_build_world(raw, w, h)[k][r]).len() == w,
        forall|k: int, j: int, i: int|
            0 < k < raw.len() && 0 <= j < raw[k].len() && 0 <= i < raw[k][j].len() && j + k < h
                && i + k < w ==> #[trigger] spec_build_world(raw, w, h)[k][j + k][i + k]
                == #[trigger] raw[k][j][i],
        forall|k: int, r: int, c: int|
            0 < k < raw.len() && 0 <= r < h && 0 <= c < w && #[trigger] spec_build_world(
                raw,
                w,
                h,
            )[k][r][c] != 0 ==> k <= r && k <= c && r - k < raw[k].len() && c - k < raw[k][r
                - k].len(),
{
}

/// In a laid-out world, a body standing on the topmost layer of the map, or
/// higher, is always free: the two layers laid on top of the map are empty.
pub proof fn law_top_of_world_is_free(
    raw: Grid,
    w: nat,
    h: nat,
    x: i32,
    y: i32,
    z: usize,
    world_width: u64,
    world_height: u64,
)
    requires
        raw.len() >= 1,
        z + 1 >= raw.len(),
        world_fn_cells_exist(spec_build_world(raw, w, h), x, y, z, world_width, world_height),
    ensures
        spec_world_fn(spec_build_world(raw, w, h), x, y, z, world_width, world_height),
{
}

} // verus!
