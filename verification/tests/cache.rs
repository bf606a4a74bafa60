use turbomap_core::cache::TextureCache;
use turbomap_core::tile::TileId;

fn t(x: u32) -> TileId {
    TileId::new(10, x, 1)
}

#[test]
fn inserting_past_the_budget_evicts_least_recently_used_first() {
    let mut c: TextureCache<&str> = TextureCache::new(300);
    c.insert(t(1), "a", 100);
    c.insert(t(2), "b", 100);
    c.insert(t(3), "c", 100);
    // Touch 1 so 2 becomes the least recently used.
    assert_eq!(c.get(t(1)), Some(&"a"));
    c.insert(t(4), "d", 100);
    assert!(!c.contains(t(2)));
    assert!(c.contains(t(1)) && c.contains(t(3)) && c.contains(t(4)));
    let s = c.stats();
    assert_eq!(s.entries, 3);
    assert_eq!(s.bytes_used, 300);
    assert_eq!(s.budget_bytes, 300);
    assert_eq!(s.hits, 1);
    assert_eq!(s.misses, 0);
    assert_eq!(s.inserts, 4);
    assert_eq!(s.evictions, 1);
}

#[test]
fn a_single_oversized_tile_stays_resident() {
    let mut c: TextureCache<u8> = TextureCache::new(50);
    c.insert(t(1), 1, 10);
    c.insert(t(2), 2, 500);
    assert!(c.contains(t(2)));
    assert!(!c.contains(t(1)));
    assert_eq!(c.stats().bytes_used, 500);
    assert_eq!(c.stats().evictions, 1);
}

#[test]
fn reinserting_a_cached_tile_only_refreshes_it() {
    let mut c: TextureCache<u8> = TextureCache::new(1000);
    c.insert(t(1), 1, 10);
    c.insert(t(1), 2, 10);
    assert_eq!(c.peek(t(1)), Some(&1));
    assert_eq!(c.stats().inserts, 1);
    assert_eq!(c.get(t(9)), None);
    assert_eq!(c.stats().misses, 1);
}

#[test]
fn nearest_cached_ancestor_and_covered_descendants() {
    let mut c: TextureCache<u8> = TextureCache::new(1 << 20);
    let region = TileId::new(5, 3, 4);
    let kids = region.children().unwrap();
    let grand = kids[1].children().unwrap();
    c.insert(grand[3], 0, 1);
    c.insert(kids[2], 0, 1);
    c.insert(TileId::new(7, 0, 0), 0, 1);
    c.insert(region.ancestor(2).unwrap(), 0, 1);
    c.insert(grand[0], 0, 1);
    assert_eq!(
        c.covered_descendants(region, 2),
        vec![kids[2], grand[0], grand[3]]
    );
    assert_eq!(c.covered_descendants(region, 1), vec![kids[2]]);
    assert_eq!(c.nearest_ancestor(grand[2]), Some(region.ancestor(2).unwrap()));
    assert_eq!(c.nearest_ancestor(TileId::new(3, 7, 7)), None);
}

#[test]
fn every_tile_keeps_its_entry_through_touches_and_evictions() {
    let mut c: TextureCache<&str> = TextureCache::new(300);
    let a = TileId::new(3, 1, 1);
    let b = TileId::new(3, 2, 1);
    let d = TileId::new(3, 3, 1);
    let e = TileId::new(3, 4, 1);
    c.insert(a, "a", 100);
    c.insert(b, "b", 100);
    c.insert(d, "d", 100);
    c.touch(a);
    assert_eq!(c.get(b), Some(&"b"));
    // Over budget: the least recently used tile (d) goes; the others keep
    // their own entries.
    c.insert(e, "e", 100);
    assert!(!c.contains(d));
    assert_eq!(c.peek(a), Some(&"a"));
    assert_eq!(c.peek(b), Some(&"b"));
    assert_eq!(c.peek(e), Some(&"e"));
    // Re-inserting a cached tile keeps its original entry.
    c.insert(a, "other", 100);
    assert_eq!(c.peek(a), Some(&"a"));
}
