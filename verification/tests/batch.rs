use turbomap_core::batch::{push_instance, DrawBatch};
use turbomap_core::tile::TileId;

#[test]
fn instances_with_the_same_bindings_share_a_batch() {
    let a = TileId::new(3, 1, 1);
    let b = TileId::new(3, 2, 1);
    let dem = Some(TileId::new(2, 0, 0));
    let mut batches: Vec<DrawBatch<u32>> = Vec::new();
    push_instance(&mut batches, a, None, 1);
    push_instance(&mut batches, a, None, 2);
    push_instance(&mut batches, a, dem, 3);
    push_instance(&mut batches, b, dem, 4);
    push_instance(&mut batches, a, None, 5);
    let shape: Vec<(TileId, Option<TileId>, Vec<u32>)> = batches
        .iter()
        .map(|bt| (bt.texture_id, bt.dem_source, bt.instances.clone()))
        .collect();
    assert_eq!(
        shape,
        vec![
            (a, None, vec![1, 2]),
            (a, dem, vec![3]),
            (b, dem, vec![4]),
            (a, None, vec![5]),
        ]
    );
}
