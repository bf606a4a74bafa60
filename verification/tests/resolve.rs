use std::collections::HashSet;
use turbomap_core::resolve::{
    collect_resident_descendants, cover_finest, nearest_resident_ancestor, resolve_cell, CellSource,
    MAX_DOWN,
};
use turbomap_core::tile::TileId;

fn resident_set(tiles: &[TileId]) -> impl Fn(TileId) -> bool {
    let set: HashSet<TileId> = tiles.iter().copied().collect();
    move |t| set.contains(&t)
}

#[test]
fn exact_resident_tile_draws_itself_only() {
    let ideal = TileId::new(14, 100, 200);
    let r = resident_set(&[ideal]);
    assert_eq!(resolve_cell(ideal, MAX_DOWN, &r), vec![CellSource::Whole(ideal)]);
}

#[test]
fn zoom_out_retains_finer_children_instead_of_coarse_ideal() {
    let ideal = TileId::new(14, 100, 200);
    let children = ideal.children().unwrap();
    let mut held = vec![ideal];
    held.extend_from_slice(&children);
    let r = resident_set(&held);

    let got = resolve_cell(ideal, MAX_DOWN, &r);
    let expected: Vec<CellSource> = children.iter().copied().map(CellSource::Whole).collect();
    assert_eq!(got, expected, "must retain finer children, not draw coarse ideal");
}

#[test]
fn zoom_out_uses_children_when_ideal_not_yet_loaded() {
    let ideal = TileId::new(13, 50, 60);
    let children = ideal.children().unwrap();
    let r = resident_set(&children);
    let got = resolve_cell(ideal, MAX_DOWN, &r);
    assert_eq!(got.len(), 4);
    assert!(got.iter().all(|s| matches!(s, CellSource::Whole(t) if children.contains(t))));
}

#[test]
fn coarse_ancestor_is_backdrop_when_nothing_finer_resident() {
    let ideal = TileId::new(15, 1000, 2000);
    let anc = ideal.ancestor(2).unwrap();
    let r = resident_set(&[anc]);
    assert_eq!(
        resolve_cell(ideal, MAX_DOWN, &r),
        vec![CellSource::AncestorPatch { ancestor: anc, target: ideal }],
    );
}

#[test]
fn partial_finer_detail_draws_over_ancestor_backdrop() {
    let ideal = TileId::new(14, 8, 8);
    let anc = ideal.ancestor(1).unwrap();
    let one_child = ideal.children().unwrap()[0];
    let r = resident_set(&[anc, one_child]);

    let got = resolve_cell(ideal, MAX_DOWN, &r);
    assert_eq!(got.first(), Some(&CellSource::AncestorPatch { ancestor: anc, target: ideal }));
    assert!(got.contains(&CellSource::Whole(one_child)));
}

#[test]
fn nothing_resident_anywhere_is_empty() {
    let ideal = TileId::new(14, 100, 200);
    let r = resident_set(&[]);
    assert!(resolve_cell(ideal, MAX_DOWN, &r).is_empty());
}

#[test]
fn steady_state_has_no_overdraw() {
    let ideal = TileId::new(16, 30000, 20000);
    let r = resident_set(&[ideal]);
    assert_eq!(resolve_cell(ideal, MAX_DOWN, &r), vec![CellSource::Whole(ideal)]);
}

#[test]
fn grandchildren_complete_a_cover_when_a_child_is_missing() {
    // Three children resident, the fourth covered by its four children.
    let ideal = TileId::new(10, 3, 5);
    let kids = ideal.children().unwrap();
    let grand = kids[3].children().unwrap();
    let mut held = vec![kids[0], kids[1], kids[2]];
    held.extend_from_slice(&grand);
    let r = resident_set(&held);
    let cover = cover_finest(ideal, MAX_DOWN, &r).unwrap();
    let mut expected = vec![kids[0], kids[1], kids[2]];
    expected.extend_from_slice(&grand);
    assert_eq!(cover, expected);
    // One level of depth is not enough to reach the grandchildren.
    assert_eq!(cover_finest(ideal, 1, &r), None);
}

#[test]
fn collect_stops_each_branch_at_its_first_resident_level() {
    let ideal = TileId::new(6, 1, 1);
    let kids = ideal.children().unwrap();
    let grand = kids[2].children().unwrap();
    let r = resident_set(&[kids[0], grand[1], grand[1].children().unwrap()[0]]);
    let mut out = Vec::new();
    collect_resident_descendants(ideal, MAX_DOWN, &r, &mut out);
    assert_eq!(out, vec![CellSource::Whole(kids[0]), CellSource::Whole(grand[1])]);
}

#[test]
fn nearest_ancestor_prefers_the_closest_resident_level() {
    let t = TileId::new(12, 1000, 1000);
    let a1 = t.ancestor(1).unwrap();
    let a3 = t.ancestor(3).unwrap();
    let r = resident_set(&[a3, a1, t]);
    assert_eq!(nearest_resident_ancestor(t, &r), Some(a1));
    let r = resident_set(&[a3]);
    assert_eq!(nearest_resident_ancestor(t, &r), Some(a3));
    let root = TileId::new(0, 0, 0);
    assert_eq!(nearest_resident_ancestor(root, &resident_set(&[root])), None);
}
