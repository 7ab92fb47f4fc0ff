use isoworld::json::{as_array, as_i64, as_u64, get, JsonNumber, JsonValue};
use isoworld::loader::{load_world, tile_ids, world_from_json, LoadError};

fn num(i: Option<i64>, u: Option<u64>) -> JsonValue {
    JsonValue::Number(JsonNumber { as_i64: i, as_u64: u })
}

#[test]
fn loads_sizes_layers_and_world() {
    let text = r#"{"width":3,"height":2,"layers":[
        {"data":[1,2,3,4,5,6]},
        {"name":"objects"},
        {"data":[0,-1,7.5,2,"x",0]}]}"#;
    let lw = load_world(text).unwrap();
    assert_eq!(lw.world_width, 3);
    assert_eq!(lw.world_height, 2);
    assert_eq!(
        lw.layers_raw,
        vec![vec![vec![1, 2, 3], vec![4, 5, 6]], vec![vec![0, usize::MAX, 2], vec![0]]]
    );
    assert_eq!(lw.world.len(), 4);
    assert_eq!(lw.world[0], vec![vec![1, 2, 3], vec![4, 5, 6]]);
    assert_eq!(lw.world[1], vec![vec![0, 0, 0], vec![0, 0, usize::MAX]]);
    assert_eq!(lw.world[2], vec![vec![0, 0, 0], vec![0, 0, 0]]);
    assert_eq!(lw.world[3], vec![vec![0, 0, 0], vec![0, 0, 0]]);
}

#[test]
fn not_json_is_an_error() {
    assert!(matches!(load_world("{\"width\": 3,"), Err(LoadError::Json(_))));
    assert!(matches!(load_world("tiles"), Err(LoadError::Json(_))));
}

#[test]
fn missing_width() {
    assert!(matches!(load_world(r#"{"height":2}"#), Err(LoadError::MissingWidth)));
    assert!(matches!(load_world(r#"{"width":-3,"height":2}"#), Err(LoadError::MissingWidth)));
    assert!(matches!(load_world(r#"{"width":"3","height":2}"#), Err(LoadError::MissingWidth)));
    assert!(matches!(load_world("[3, 2]"), Err(LoadError::MissingWidth)));
}

#[test]
fn missing_height() {
    assert!(matches!(load_world(r#"{"width":3}"#), Err(LoadError::MissingHeight)));
    assert!(matches!(load_world(r#"{"width":3,"height":2.5}"#), Err(LoadError::MissingHeight)));
}

#[test]
fn zero_width_with_data() {
    assert!(matches!(
        load_world(r#"{"width":0,"height":2,"layers":[{"data":[]}]}"#),
        Err(LoadError::ZeroWidth)
    ));
}

#[test]
fn zero_width_without_data_is_fine() {
    let lw = load_world(r#"{"width":0,"height":2,"layers":[{}]}"#).unwrap();
    assert!(lw.layers_raw.is_empty());
    assert_eq!(lw.world, vec![vec![Vec::<usize>::new(), vec![]], vec![vec![], vec![]]]);
}

#[test]
fn layers_not_an_array_gives_no_layers() {
    let lw = load_world(r#"{"width":1,"height":1,"layers":{"data":[1]}}"#).unwrap();
    assert!(lw.layers_raw.is_empty());
    assert_eq!(lw.world, vec![vec![vec![0]], vec![vec![0]]]);
}

#[test]
fn tile_ids_keep_integers() {
    let data = vec![num(Some(4), Some(4)), JsonValue::Null, num(None, None), num(Some(-2), None)];
    assert_eq!(tile_ids(&data), vec![4, (-2i64) as usize]);
}

#[test]
fn world_from_document() {
    let doc = JsonValue::Object(vec![
        ("height".to_string(), num(Some(1), Some(1))),
        (
            "layers".to_string(),
            JsonValue::Array(vec![JsonValue::Object(vec![(
                "data".to_string(),
                JsonValue::Array(vec![num(Some(7), Some(7)), num(Some(8), Some(8))]),
            )])]),
        ),
        ("width".to_string(), num(Some(2), Some(2))),
    ]);
    let lw = world_from_json(&doc).unwrap();
    assert_eq!(lw.layers_raw, vec![vec![vec![7, 8]]]);
    assert_eq!(lw.world, vec![vec![vec![7, 8]], vec![vec![0, 0]], vec![vec![0, 0]]]);
}

#[test]
fn json_lookups() {
    let doc = JsonValue::Object(vec![
        ("a".to_string(), JsonValue::Bool(true)),
        ("n".to_string(), num(Some(5), Some(5))),
        ("l".to_string(), JsonValue::Array(vec![JsonValue::Null])),
    ]);
    assert!(matches!(get(&doc, "a"), Some(JsonValue::Bool(true))));
    assert!(get(&doc, "b").is_none());
    assert!(get(&JsonValue::Null, "a").is_none());
    assert_eq!(as_u64(get(&doc, "n").unwrap()), Some(5));
    assert_eq!(as_i64(get(&doc, "n").unwrap()), Some(5));
    assert_eq!(as_u64(&JsonValue::Bool(true)), None);
    assert_eq!(as_array(get(&doc, "l").unwrap()).map(|v| v.len()), Some(1));
    assert!(as_array(&doc).is_none());
}
