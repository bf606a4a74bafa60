use turbomap_core::map::MarkerId;
use turbomap_core::markers::MarkerManager;

/// The marker's payload in these tests: a radius in pixels.
const RADIUS: u32 = 10;

#[test]
fn id_zero_auto_assigns_monotonically() {
    let mut m = MarkerManager::new();
    assert_eq!(m.add(MarkerId(0), RADIUS), MarkerId(1));
    assert_eq!(m.add(MarkerId(0), RADIUS), MarkerId(2));
    assert_eq!(m.len(), 2);
}

#[test]
fn explicit_id_replaces_and_bumps_high_water_mark() {
    let mut m = MarkerManager::new();
    m.add(MarkerId(5), RADIUS);
    m.add(MarkerId(5), RADIUS);
    assert_eq!(m.len(), 1);
    assert_eq!(m.add(MarkerId(0), RADIUS), MarkerId(6));
}

#[test]
fn remove_and_clear() {
    let mut m = MarkerManager::new();
    let a = m.add(MarkerId(0), RADIUS);
    m.add(MarkerId(0), RADIUS);
    m.remove(a);
    assert_eq!(m.len(), 1);
    m.clear();
    assert!(m.is_empty());
}

#[test]
fn groups_partition_the_store_and_remove_together() {
    let mut m = MarkerManager::new();
    m.add(MarkerId(0), RADIUS);
    let a = m.add_to_group("pins", MarkerId(0), RADIUS);
    m.add_to_group("dots", MarkerId(0), RADIUS);
    m.add_to_group("pins", MarkerId(0), RADIUS);

    assert_eq!(m.len(), 4, "grouped + ungrouped share one store");
    assert_eq!(m.in_group("pins").len(), 2);
    assert_eq!(m.in_group("dots").len(), 1);
    assert_eq!(m.ungrouped().len(), 1);
    let ids: Vec<u64> = m.in_group("pins").iter().map(|mk| mk.id.0).collect();
    assert_eq!(ids, vec![a.0, 4]);

    m.remove(a);
    assert_eq!(m.in_group("pins").len(), 1);

    m.remove_group("pins");
    assert_eq!(m.len(), 2);
    assert_eq!(m.in_group("pins").len(), 0);
    assert_eq!(m.in_group("dots").len(), 1);
    assert_eq!(m.ungrouped().len(), 1);

    m.clear();
    assert_eq!(m.ungrouped().len(), 0);
    assert_eq!(m.in_group("dots").len(), 0);
}

#[test]
fn replacing_a_marker_keeps_its_place_and_payload_updates() {
    let mut m = MarkerManager::new();
    m.add(MarkerId(3), 1u32);
    m.add(MarkerId(0), 2u32);
    m.add(MarkerId(3), 9u32);
    let all = m.all();
    assert_eq!(all.len(), 2);
    assert_eq!((all[0].id, all[0].marker), (MarkerId(3), 9));
    assert_eq!((all[1].id, all[1].marker), (MarkerId(4), 2));
}

#[test]
fn regrouping_a_marker_moves_it_between_groups() {
    let mut m = MarkerManager::new();
    let id = m.add_to_group("a", MarkerId(0), 0u8);
    m.add_to_group("b", id, 0u8);
    assert_eq!(m.in_group("a").len(), 0);
    assert_eq!(m.in_group("b").len(), 1);
    m.remove_group("b");
    assert!(m.is_empty());
}

#[test]
fn marker_id_zero_means_auto_assign() {
    // A marker requested with id 0 gets the next free id; a nonzero id is
    // kept as given.
    let mut m: MarkerManager<&str> = MarkerManager::new();
    let a = m.add(MarkerId(0), "a");
    assert_ne!(a, MarkerId(0));
    assert_eq!(a, MarkerId(1));
    let b = m.add(MarkerId(7), "b");
    assert_eq!(b, MarkerId(7));
    let c = m.add(MarkerId(0), "c");
    assert_eq!(c, MarkerId(8));
}

#[test]
fn replacing_an_id_keeps_exactly_one_marker_with_it() {
    let mut m = MarkerManager::new();
    assert_eq!(m.add(MarkerId(0), 1u32), MarkerId(1));
    assert_eq!(m.add(MarkerId(0), 2u32), MarkerId(2));
    assert_eq!(m.add(MarkerId(5), 3u32), MarkerId(5));
    assert_eq!(m.add(MarkerId(5), 4u32), MarkerId(5));
    assert_eq!(m.len(), 3);
    assert_eq!(m.all().iter().filter(|e| e.id == MarkerId(5)).count(), 1);
    assert_eq!(m.high_water_mark(), 5);
    assert_eq!(m.add(MarkerId(0), 5u32), MarkerId(6));
}
