# isoworld

The rules of a small isometric tile game, verified with Verus.

- `src/world.rs`: collision query (`world_fn`) and the resting layer of a column (`find_highest_z`).
- `src/layout.rs`: rows cut from a Tiled layer's data, and the world laid out from the raw layers.
- `src/json.rs`: a JSON document as plain values, read with serde_json.
- `src/loader.rs`: reading a world from the text of a Tiled map.
- `src/tiles.rs`: tile positions in the tileset image and the tiles to draw.
- `src/player.rs`, `src/projectile.rs`: directions, the jump rule, projectile kinds.
- `app/`: the raylib window, input, drawing and the floating-point motion.
