use turbomap_core::layers::{source_zoom_union, KindFilter, LayerEntry, LayerStack};
use turbomap_core::map::LayerKind;

fn stack() -> LayerStack<u32> {
    let mut s = LayerStack::new();
    s.push(LayerEntry::raster("base".to_string(), (4, 20), 1));
    s.push(LayerEntry::hillshade("relief".to_string(), 2));
    s.push(LayerEntry::vector("roads".to_string(), (0, 14), 3));
    s.push(LayerEntry::custom("fx".to_string(), 4));
    s
}

#[test]
fn zoom_union_spans_the_shallowest_and_deepest_levels() {
    // A basemap serving z4..20 under an overlay serving z0..14: the union
    // pulls back to the overlay's shallowest level and dives to the
    // basemap's deepest.
    assert_eq!(source_zoom_union(&[(4, 20), (0, 14)]), Some((0, 20)));
}

#[test]
fn zoom_union_of_no_ranges_is_none() {
    assert_eq!(source_zoom_union(&[]), None);
}

#[test]
fn zoom_union_of_one_range_is_that_range() {
    assert_eq!(source_zoom_union(&[(4, 18)]), Some((4, 18)));
}

#[test]
fn zoom_union_takes_min_and_max_from_different_ranges() {
    assert_eq!(source_zoom_union(&[(6, 10), (2, 8), (5, 19), (3, 12)]), Some((2, 19)));
}

#[test]
fn layers_keep_bottom_to_top_order() {
    let s = stack();
    assert_eq!(s.len(), 4);
    assert_eq!(s.ids(), vec!["base", "relief", "roads", "fx"]);
    assert_eq!(s.get(2).kind, LayerKind::Vector);
    assert_eq!(s.get(0).payload, 1);
}

#[test]
fn source_ranges_skip_layers_without_a_source() {
    let s = stack();
    assert_eq!(s.source_ranges(), vec![(4, 20), (0, 14)]);
    assert_eq!(source_zoom_union(&s.source_ranges()), Some((0, 20)));
}

#[test]
fn contains_and_lookup_by_kind() {
    let s = stack();
    assert!(s.contains("roads"));
    assert!(!s.contains("nope"));
    assert_eq!(s.index_of("roads", KindFilter::Any), Some(2));
    assert_eq!(s.index_of("roads", KindFilter::Only(LayerKind::Vector)), Some(2));
    assert_eq!(s.index_of("roads", KindFilter::Only(LayerKind::Raster)), None);
    assert_eq!(s.index_of("base", KindFilter::Only(LayerKind::Raster)), Some(0));
    // Fade-in skips custom layers.
    assert_eq!(s.index_of("fx", KindFilter::NotCustom), None);
    assert_eq!(s.index_of("relief", KindFilter::NotCustom), Some(1));
}

#[test]
fn visibility_reads_back_what_was_set() {
    let mut s = stack();
    assert_eq!(s.visibility("roads"), Some(true));
    assert!(s.set_visibility("roads", false));
    assert_eq!(s.visibility("roads"), Some(false));
    // Other layers are untouched.
    assert_eq!(s.visibility("base"), Some(true));
    assert_eq!(s.visibility("fx"), Some(true));
    // Unknown ids report nothing and change nothing.
    assert!(!s.set_visibility("nope", false));
    assert_eq!(s.visibility("nope"), None);
}

#[test]
fn first_visible_index_skips_hidden_layers() {
    let mut s = stack();
    assert_eq!(s.first_visible_index(), Some(0));
    s.set_visibility("base", false);
    s.set_visibility("relief", false);
    assert_eq!(s.first_visible_index(), Some(2));
    s.set_visibility("roads", false);
    s.set_visibility("fx", false);
    assert_eq!(s.first_visible_index(), None);
    assert_eq!(LayerStack::<u32>::new().first_visible_index(), None);
}

#[test]
fn remove_drops_every_layer_of_the_id_and_keeps_order() {
    let mut s = stack();
    s.push(LayerEntry::raster("roads".to_string(), (1, 5), 5));
    assert!(s.remove("roads"));
    assert_eq!(s.ids(), vec!["base", "relief", "fx"]);
    assert!(!s.contains("roads"));
    assert_eq!(s.visibility("base"), Some(true));
    assert!(!s.remove("roads"));
    assert_eq!(s.len(), 3);
}

#[test]
fn lookups_use_the_lowest_layer_of_a_duplicated_id() {
    let mut s = LayerStack::new();
    s.push(LayerEntry::raster("dup".to_string(), (0, 10), 1u8));
    s.push(LayerEntry::vector("dup".to_string(), (0, 12), 2u8));
    assert!(s.set_visibility("dup", false));
    assert_eq!(s.get(0).visible, false);
    assert_eq!(s.get(1).visible, true);
    assert_eq!(s.index_of("dup", KindFilter::Only(LayerKind::Vector)), Some(1));
}
