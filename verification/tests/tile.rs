use turbomap_core::tile::{TileId, MAX_TILE_ZOOM};

#[test]
fn children_split_the_square_in_reading_order() {
    let t = TileId::new(3, 2, 5);
    let c = t.children().unwrap();
    assert_eq!(
        c,
        [
            TileId::new(4, 4, 10),
            TileId::new(4, 5, 10),
            TileId::new(4, 4, 11),
            TileId::new(4, 5, 11),
        ]
    );
    for k in c {
        assert_eq!(k.ancestor(1), Some(t));
    }
}

#[test]
fn deepest_zoom_has_no_children() {
    let t = TileId::new(MAX_TILE_ZOOM, 7, 9);
    assert_eq!(t.children(), None);
}

#[test]
fn ancestor_divides_by_powers_of_two() {
    let t = TileId::new(11, 1054, 590);
    assert_eq!(t.ancestor(0), Some(t));
    assert_eq!(t.ancestor(3), Some(TileId::new(8, 131, 73)));
    assert_eq!(t.ancestor(11), Some(TileId::new(0, 0, 0)));
    assert_eq!(t.ancestor(12), None);
}
