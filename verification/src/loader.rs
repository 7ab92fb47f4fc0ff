//! Reading a world from the text of a Tiled map (`.tmj`): its size, the tile
//! ids of each layer that has data, and the world laid out from them.
use vstd::prelude::*;
use crate::json::{
    JsonValue, json_parse, parse_json, get, as_i64, as_u64, as_array, spec_get, spec_as_i64,
    spec_as_u64, spec_as_array,
};
use crate::layout::{spec_chunks, spec_build_world, rows_from_data, build_world, flatten_rows, law_chunks_restore};
use crate::world::Grid;

verus! {

/// Why a map text gives no world.
#[derive(Debug)]
pub enum LoadError {
    /// The text is not JSON.
    Json(serde_json::Error),
    /// No unsigned integer `width`.
    MissingWidth,
    /// No unsigned integer `height`.
    MissingHeight,
    /// A layer has data, but rows of width zero cannot be cut.
    ZeroWidth,
}

/// A world read from a map: its size, the raw layers (rows of tile ids) and
/// the world laid out from them.
#[derive(Debug)]
pub struct LoadedWorld {
    pub world_width: u64,
    pub world_height: u64,
    pub layers_raw: Vec<Vec<Vec<usize>>>,
    pub world: Vec<Vec<Vec<usize>>>,
}

/// The unsigned integer under `key`.
pub open spec fn spec_u64_field(v: JsonValue, key: Seq<char>) -> Option<u64> {
    match spec_get(v, key) {
        Some(x) => spec_as_u64(x),
        None => None,
    }
}

/// The items of the array `data` of a layer.
pub open spec fn layer_data(layer: JsonValue) -> Option<Seq<JsonValue>> {
    match spec_get(layer, "data"@) {
        Some(d) => spec_as_array(d),
        None => None,
    }
}

/// The items of the array `layers` of a map; none where there is no such array.
pub open spec fn map_layers(v: JsonValue) -> Seq<JsonValue> {
    match spec_get(v, "layers"@) {
        Some(l) => match spec_as_array(l) {
            Some(s) => s,
            None => seq![],
        },
        None => seq![],
    }
}

/// The tile ids of a layer's data: the items that are `i64` numbers, in order,
/// each taken as a `usize` (a negative one wraps around).
pub open spec fn spec_tile_ids(data: Seq<JsonValue>) -> Seq<usize>
    decreases data.len(),
{
    if data.len() == 0 {
        seq![]
    } else {
        let before = spec_tile_ids(data.drop_last());
        match spec_as_i64(data.last()) {
            Some(x) => before.push(x as usize),
            None => before,
        }
    }
}

/// The raw layers of a map: for each layer that has data, in order, its tile
/// ids cut into rows of `w`.
pub open spec fn spec_raw_layers(layers: Seq<JsonValue>, w: nat) -> Grid
    decreases layers.len(),
{
    if layers.len() == 0 {
        seq![]
    } else {
        let before = spec_raw_layers(layers.drop_last(), w);
        match layer_data(layers.last()) {
            Some(d) => before.push(spec_chunks(spec_tile_ids(d), w)),
            None => before,
        }
    }
}

/// Some layer of the map has data.
pub open spec fn has_data_layer(layers: Seq<JsonValue>) -> bool {
    exists|i: int| 0 <= i < layers.len() && (#[trigger] layer_data(layers[i])) is Some
}

/// What reading a world from the JSON document `v` gives.
pub open spec fn world_outcome(v: JsonValue, res: Result<LoadedWorld, LoadError>) -> bool {
    let wd = spec_u64_field(v, "width"@);
    let ht = spec_u64_field(v, "height"@);
    let layers = map_layers(v);
    match res {
        Ok(lw) => {
            &&& wd == Some(lw.world_width)
            &&& ht == Some(lw.world_height)
            &&& !(lw.world_width as usize == 0 && has_data_layer(layers))
            &&& lw.layers_raw.deep_view() == spec_raw_layers(layers, lw.world_width as usize as nat)
            &&& lw.world.deep_view() == spec_build_world(
                lw.layers_raw.deep_view(),
                lw.world_width as usize as nat,
                lw.world_height as usize as nat,
            )
        },
        Err(LoadError::MissingWidth) => wd is None,
        Err(LoadError::MissingHeight) => wd is Some && ht is None,
        Err(LoadError::ZeroWidth) => {
            &&& wd is Some
            &&& ht is Some
            &&& wd.unwrap() as usize == 0
            &&& has_data_layer(layers)
        },
        Err(LoadError::Json(_)) => false,
    }
}

/// The tile ids of a layer's data: the items that are `i64` numbers, each
/// taken as a `usize`.
pub fn tile_ids(data: &Vec<JsonValue>) -> (ids: Vec<usize>)
    ensures
        ids@ == spec_tile_ids(data@),
{
    let mut ids: Vec<usize> = Vec::new();
    let mut i: usize = 0;
    while i < data.len()
        invariant
            i <= data@.len(),
            ids@ == spec_tile_ids(data@.take(i as int)),
        decreases data@.len() - i,
    {
        assert(data@.take(i + 1).drop_last() =~= data@.take(i as int));
        if let Some(x) = as_i64(&data[i]) {
            ids.push(x as usize);
        }
        i += 1;
    }
    assert(data@.take(data@.len() as int) =~= data@);
    ids
}

/// The unsigned integer under `key`.
fn u64_field(v: &JsonValue, key: &str) -> (res: Option<u64>)
    ensures
        res == spec_u64_field(*v, key@),
{
    match get(v, key) {
        Some(x) => as_u64(x),
        None => None,
    }
}

/// Reads a world from a map's JSON document: its `width` and `height`, then,
/// for each item of `layers` that has a `data` array, the `i64` ids of that
/// array cut into rows of `width`; the world is laid out from those layers.
pub fn world_from_json(v: &JsonValue) -> (res: Result<LoadedWorld, LoadError>)
    ensures
        world_outcome(*v, res),
{
    let world_width = match u64_field(v, "width") {
        Some(w) => w,
        None => return Err(LoadError::MissingWidth),
    };
    let world_height = match u64_field(v, "height") {
        Some(h) => h,
        None => return Err(LoadError::MissingHeight),
    };
    let ghost layers = map_layers(*v);
    let ghost w = world_width as usize as nat;
    let mut layers_raw: Vec<Vec<Vec<usize>>> = Vec::new();
    let width = world_width as usize;
    let found = match get(v, "layers") {
        Some(l) => as_array(l),
        None => None,
    };
    if let Some(items) = found {
        assert(items@ == layers);
        let mut i: usize = 0;
        while i < items.len()
            invariant
                items@ == layers,
                layers == map_layers(*v),
                spec_u64_field(*v, "width"@) == Some(world_width),
                spec_u64_field(*v, "height"@) == Some(world_height),
                width == world_width as usize,
                w == width as nat,
                i <= items@.len(),
                layers_raw.deep_view() == spec_raw_layers(items@.take(i as int), w),
                width == 0 ==> forall|j: int| 0 <= j < i ==> (#[trigger] layer_data(items@[j])) is None,
            decreases items@.len() - i,
        {
            assert(items@.take(i + 1).drop_last() =~= items@.take(i as int));
            let data = match get(&items[i], "data") {
                Some(d) => as_array(d),
                None => None,
            };
            if let Some(d) = data {
                if width == 0 {
                    assert(layer_data(layers[i as int]) is Some);
                    assert(has_data_layer(layers));
                    return Err(LoadError::ZeroWidth);
                }
                let ids = tile_ids(d);
                let rows = rows_from_data(&ids, width);
                let ghost before = layers_raw.deep_view();
                layers_raw.push(rows);
                assert(layers_raw.deep_view() =~= before.push(rows.deep_view()));
            }
            i += 1;
        }
        assert(items@.take(items@.len() as int) =~= items@);
    } else {
        assert(layers == Seq::<JsonValue>::empty());
        assert(layers_raw.deep_view() =~= spec_raw_layers(layers, w));
    }
    let world = build_world(&layers_raw, width, world_height as usize);
    Ok(LoadedWorld { world_width, world_height, layers_raw, world })
}

/// Reads a world from the text of a Tiled map: an error where the text is not
/// JSON, otherwise what `world_from_json` gives for the document.
pub fn load_world(text: &str) -> (res: Result<LoadedWorld, LoadError>)
    ensures
        match json_parse(text@) {
            None => res matches Err(LoadError::Json(_)),
            Some(v) => world_outcome(v, res),
        },
{
    match parse_json(text) {
        Ok(v) => world_from_json(&v),
        Err(e) => Err(LoadError::Json(e)),
    }
}

/// Reading tile ids keeps the integer items and only those, in order: never
/// more ids than items, and where every item is an `i64` number, one id per
/// item, each that number taken as a `usize`.
pub proof fn law_tile_ids_keep_integers(data: Seq<JsonValue>)
    ensures
        spec_tile_ids(data).len() <= data.len(),
        (forall|i: int| 0 <= i < data.len() ==> (#[trigger] spec_as_i64(data[i])) is Some) ==> {
            &&& spec_tile_ids(data).len() == data.len()
            &&& forall|i: int|
                0 <= i < data.len() ==> #[trigger] spec_tile_ids(data)[i] == spec_as_i64(
                    data[i],
                ).unwrap() as usize
        },
    decreases data.len(),
{
    if data.len() > 0 {
        let init = data.drop_last();
        law_tile_ids_keep_integers(init);
        if forall|i: int| 0 <= i < data.len() ==> (#[trigger] spec_as_i64(data[i])) is Some {
            assert forall|i: int| 0 <= i < init.len() implies (#[trigger] spec_as_i64(init[i])) is Some by {
                assert(init[i] == data[i]);
            }
            assert(spec_as_i64(data[data.len() - 1]) is Some);
            assert forall|i: int| 0 <= i < data.len() implies #[trigger] spec_tile_ids(data)[i]
                == spec_as_i64(data[i]).unwrap() as usize by {
                if i < data.len() - 1 {
                    assert(init[i] == data[i]);
                }
            }
        }
    }
}

/// No tile id is lost or added when the layers are cut into rows: there are
/// never more raw layers than map layers, and where every map layer has data
/// (and the width is not zero), raw layer `i` laid end to end is the tile ids
/// of map layer `i`.
pub proof fn law_raw_layers_keep_ids(layers: Seq<JsonValue>, w: nat)
    ensures
        spec_raw_layers(layers, w).len() <= layers.len(),
        w > 0 && (forall|i: int| 0 <= i < layers.len() ==> (#[trigger] layer_data(layers[i])) is Some)
            ==> {
            &&& spec_raw_layers(layers, w).len() == layers.len()
            &&& forall|i: int|
                0 <= i < layers.len() ==> flatten_rows(#[trigger] spec_raw_layers(layers, w)[i])
                    == spec_tile_ids(layer_data(layers[i]).unwrap())
        },
    decreases layers.len(),
{
    if layers.len() > 0 {
        let init = layers.drop_last();
        law_raw_layers_keep_ids(init, w);
        if w > 0 && (forall|i: int| 0 <= i < layers.len() ==> (#[trigger] layer_data(layers[i])) is Some) {
            assert forall|i: int| 0 <= i < init.len() implies (#[trigger] layer_data(init[i])) is Some by {
                assert(init[i] == layers[i]);
            }
            let last = layers[layers.len() - 1];
            assert(layer_data(last) is Some);
            law_chunks_restore(spec_tile_ids(layer_data(last).unwrap()), w);
            assert forall|i: int| 0 <= i < layers.len() implies flatten_rows(
                #[trigger] spec_raw_layers(layers, w)[i],
            ) == spec_tile_ids(layer_data(layers[i]).unwrap()) by {
                if i < layers.len() - 1 {
                    assert(init[i] == layers[i]);
                }
            }
        }
    }
}

/// Reading tile ids goes item by item: the ids of two runs of items laid end
/// to end are the ids of each run laid end to end, and a single item gives its
/// number, taken as a `usize`, when it is an `i64` number, and nothing
/// otherwise.
pub proof fn law_tile_ids_item_by_item(a: Seq<JsonValue>, b: Seq<JsonValue>, v: JsonValue)
    ensures
        spec_tile_ids(a + b) == spec_tile_ids(a) + spec_tile_ids(b),
        spec_tile_ids(seq![v]) == match v {
            JsonValue::Number(n) => match n.as_i64 {
                Some(x) => seq![x as usize],
                None => Seq::<usize>::empty(),
            },
            _ => Seq::<usize>::empty(),
        },
    decreases b.len(),
{
    assert(seq![v].drop_last() =~= Seq::<JsonValue>::empty());
    assert(spec_tile_ids(Seq::<JsonValue>::empty()) == Seq::<usize>::empty());
    if b.len() == 0 {
        assert(a + b =~= a);
        assert(spec_tile_ids(a) + spec_tile_ids(b) =~= spec_tile_ids(a));
    } else {
        law_tile_ids_item_by_item(a, b.drop_last(), v);
        assert((a + b).drop_last() =~= a + b.drop_last());
        assert((a + b).last() == b.last());
        assert(spec_tile_ids(a + b) =~= spec_tile_ids(a) + spec_tile_ids(b));
    }
}

/// The raw layers go map layer by map layer: those of two runs of layers laid
/// end to end are those of each run laid end to end, and a single layer gives
/// its ids cut into rows of `w` when it has data, and nothing otherwise.
pub proof fn law_raw_layers_layer_by_layer(a: Seq<JsonValue>, b: Seq<JsonValue>, l: JsonValue, w: nat)
    ensures
        spec_raw_layers(a + b, w) == spec_raw_layers(a, w) + spec_raw_layers(b, w),
        spec_raw_layers(seq![l], w) == match spec_get(l, "data"@) {
            Some(JsonValue::Array(items)) => seq![spec_chunks(spec_tile_ids(items@), w)],
            _ => Seq::<Seq<Seq<usize>>>::empty(),
        },
    decreases b.len(),
{
    assert(seq![l].drop_last() =~= Seq::<JsonValue>::empty());
    assert(spec_raw_layers(Seq::<JsonValue>::empty(), w) == Seq::<Seq<Seq<usize>>>::empty());
    if b.len() == 0 {
        assert(a + b =~= a);
        assert(spec_raw_layers(a, w) + spec_raw_layers(b, w) =~= spec_raw_layers(a, w));
    } else {
        law_raw_layers_layer_by_layer(a, b.drop_last(), l, w);
        assert((a + b).drop_last() =~= a + b.drop_last());
        assert((a + b).last() == b.last());
        assert(spec_raw_layers(a + b, w) =~= spec_raw_layers(a, w) + spec_raw_layers(b, w));
    }
}

} // verus!
