use wall_cli::cache::{CacheStore, WallpaperCache};
use wall_cli::wallpaper::{handle_event, WallpaperData, WatchEvent};

fn set_of(names: &[&str]) -> WallpaperData {
    let mut w = WallpaperData::new();
    for n in names {
        w.insert(n.to_string());
    }
    w
}

fn filled_store(cache: &WallpaperCache) -> CacheStore {
    let mut store = CacheStore::new();
    for i in 0..cache.len() {
        assert!(store.create(&cache.key_at(i)));
    }
    store
}

#[test]
fn created_event_inserts_the_name() {
    let mut w = set_of(&["b.png"]);
    let invalidated = handle_event(&mut w, WatchEvent::Created("a.png".to_string()));
    assert!(invalidated.is_empty());
    assert_eq!(w.get_all(), vec!["a.png", "b.png"]);
}

#[test]
fn other_events_change_nothing() {
    let mut w = set_of(&["a.png", "b.png"]);
    let invalidated = handle_event(&mut w, WatchEvent::Other);
    assert!(invalidated.is_empty());
    assert_eq!(w.get_all(), vec!["a.png", "b.png"]);
}

#[test]
fn removed_event_invalidates_every_touching_entry() {
    let mut w = set_of(&["a.png", "b.png", "c.png"]);
    let cache = WallpaperCache::new(&w);
    let mut store = filled_store(&cache);
    assert!(store.has(&"a_b".to_string()));
    assert!(store.has(&"b_c".to_string()));

    let invalidated = handle_event(&mut w, WatchEvent::Removed("b.png".to_string()));
    assert_eq!(invalidated, vec!["a_b", "b_c"]);
    assert_eq!(w.get_all(), vec!["a.png", "c.png"]);

    store.invalidate_all(&invalidated);
    assert!(!store.has(&"a_b".to_string()));
    assert!(!store.has(&"b_c".to_string()));

    // The next generation pass works on the new snapshot: only the new pair
    // (a, c) is pending, and no pair contains the removed image.
    let fresh = WallpaperCache::new(&w);
    let pending = fresh.pairs_needing_generation(&store);
    assert_eq!(pending, vec![("a.png".to_string(), "c.png".to_string())]);
    for (first, second) in &pending {
        assert_ne!(first, "b.png");
        assert_ne!(second, "b.png");
    }
}

#[test]
fn rename_invalidates_the_old_pair_and_offers_the_new_one() {
    let mut w = set_of(&["dawn.png", "sunset.png"]);
    let cache = WallpaperCache::new(&w);
    assert_eq!(cache.len(), 1);
    assert_eq!(cache.key_at(0), "dawn_sunset");
    let mut store = filled_store(&cache);
    assert!(store.has(&"dawn_sunset".to_string()));

    let invalidated = handle_event(
        &mut w,
        WatchEvent::Renamed("sunset.png".to_string(), "dusk.png".to_string()),
    );
    assert_eq!(invalidated, vec!["dawn_sunset"]);
    assert_eq!(w.get_all(), vec!["dawn.png", "dusk.png"]);

    store.invalidate_all(&invalidated);
    assert!(!store.has(&"dawn_sunset".to_string()));

    let fresh = WallpaperCache::new(&w);
    let pending = fresh.pairs_needing_generation(&store);
    assert_eq!(pending, vec![("dawn.png".to_string(), "dusk.png".to_string())]);
    assert_eq!(fresh.key_at(0), "dawn_dusk");
}

#[test]
fn create_is_idempotent_and_never_overwrites() {
    let mut store = CacheStore::new();
    let key = "a_b".to_string();
    assert!(store.create(&key));
    assert!(!store.create(&key));
    assert!(store.has(&key));
}

#[test]
fn invalidate_unknown_key_changes_nothing() {
    let mut store = CacheStore::new();
    assert!(store.create(&"a_b".to_string()));
    store.invalidate(&"zz".to_string());
    assert!(store.has(&"a_b".to_string()));
    store.invalidate(&"a_b".to_string());
    assert!(!store.has(&"a_b".to_string()));
}

#[test]
fn cached_pairs_are_skipped_by_generation() {
    let w = set_of(&["a.png", "b.png", "c.png"]);
    let cache = WallpaperCache::new(&w);
    let mut store = CacheStore::new();
    assert!(store.create(&"a_b".to_string()));
    let pending = cache.pairs_needing_generation(&store);
    assert_eq!(pending, vec![("b.png".to_string(), "c.png".to_string())]);
}
