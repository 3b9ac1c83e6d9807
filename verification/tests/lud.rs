use workassisting::lud::{
    border_chunks, border_left_origin, border_top_origin, interior_origin, linear_index, TILE_SIZE,
};

#[test]
fn row_major_index() {
    assert_eq!(linear_index(4, 2, 3), 11);
    assert_eq!(linear_index(4, 0, 0), 0);
}

#[test]
fn border_chunk_count() {
    assert_eq!(border_chunks(128, 0), 3);
    assert_eq!(border_chunks(128, 96), 0);
}

#[test]
fn border_origins() {
    assert_eq!(border_left_origin(32, TILE_SIZE, 1, 2), (32 + 32 + 64, 32));
    assert_eq!(border_top_origin(32, TILE_SIZE, 1, 2), (32, 32 + 32 + 64));
    assert_eq!(border_left_origin(0, 32, 2, 1), (16 + 16, 0));
}

#[test]
fn interior_origins_are_distinct() {
    let rows = 3;
    let mut seen = Vec::new();
    for chunk in 0..rows * rows {
        let o = interior_origin(0, rows, 32, 32, 1, chunk);
        assert!(!seen.contains(&o));
        seen.push(o);
    }
    assert_eq!(interior_origin(0, 3, 32, 32, 1, 4), (32 + 32, 32 + 32));
}
