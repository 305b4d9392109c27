use quasar_render::tilemap::{Tile, TileChunk, Tilemap, Tileset};

#[test]
fn tilemap_set_get_tile() {
    let tileset = Tileset::new("tiles.png", 32, 32, 4, 4);
    let mut tilemap = Tilemap::new(tileset, 16);
    tilemap.set_tile(5, 7, Tile { tile_id: 3, ..Default::default() });
    let tile = tilemap.get_tile(5, 7);
    assert!(tile.is_some());
    assert_eq!(tile.unwrap().tile_id, 3);
}

#[test]
fn negative_coordinates_use_euclidean_chunks() {
    let map = Tilemap::new(Tileset::new("t.png", 8, 8, 2, 2), 16);
    assert_eq!(map.tile_to_chunk(-1, -17), (-1, -2, 15, 15));
    assert_eq!(map.tile_to_chunk(16, 0), (1, 0, 0, 0));
}

#[test]
fn writing_creates_a_chunk_of_empty_tiles() {
    let mut map = Tilemap::new(Tileset::new("t.png", 8, 8, 2, 2), 4);
    assert!(map.get_tile(1, 1).is_none());
    map.set_tile(1, 1, Tile { tile_id: 9, flip_x: true, flip_y: false, rotation: 2 });
    assert_eq!(map.get_tile(1, 1), Some(&Tile { tile_id: 9, flip_x: true, flip_y: false, rotation: 2 }));
    assert_eq!(map.get_tile(2, 3), Some(&Tile::default()));
    assert!(map.get_tile(4, 0).is_none());
    assert_eq!(map.chunks().len(), 1);
    map.set_tile(-3, 0, Tile { tile_id: 1, ..Default::default() });
    assert_eq!(map.chunks().len(), 2);
    assert_eq!(map.get_tile(-3, 0).unwrap().tile_id, 1);
    assert_eq!(map.get_tile(1, 1).unwrap().tile_id, 9);
}

#[test]
fn visible_chunks_include_a_one_chunk_border() {
    let mut map = Tilemap::new(Tileset::new("t.png", 8, 8, 2, 2), 4);
    map.set_tile(0, 0, Tile::default());
    map.set_tile(20, 0, Tile::default());
    map.set_tile(-5, 0, Tile::default());
    map.set_tile(-1, 5, Tile::default());
    let visible = map.visible_chunk_indices((0, 0), (3, 3));
    assert_eq!(visible, vec![0, 3]);
}

#[test]
fn tileset_and_chunk_basics() {
    let ts = Tileset::new("tiles.png", 32, 16, 4, 3);
    assert_eq!(ts.tile_count(), 12);
    assert_eq!(ts.texture_path, "tiles.png");
    assert_eq!(ts.spacing, 0);
    let mut chunk = TileChunk::new(2, -1, 3);
    assert_eq!(chunk.tiles.len(), 9);
    assert!(chunk.dirty);
    chunk.dirty = false;
    chunk.set_tile(1, 2, 3, Tile { tile_id: 4, ..Default::default() });
    assert_eq!(chunk.get_tile(1, 2, 3).tile_id, 4);
    assert_eq!(chunk.tiles[7].tile_id, 4);
    assert!(chunk.dirty);
    for (i, t) in chunk.tiles.iter().enumerate() {
        if i != 7 {
            assert_eq!(t.tile_id, Tile::default().tile_id);
        }
    }
}

#[test]
fn tileset_texture_layout_counts_spacing_and_margin() {
    let mut ts = Tileset::new("tiles.png", 16, 16, 4, 2);
    ts.spacing = 2;
    ts.margin = 1;
    assert_eq!(ts.texture_size(), (72, 36));
    assert_eq!(ts.tile_origin(0), (1, 1));
    assert_eq!(ts.tile_origin(5), (19, 19));
    assert_eq!(ts.tile_origin(3), (55, 1));
}
