use wall_cli::cache::{CacheStore, WallpaperCache};
use wall_cli::config::{compute_iterations, parse_resolution};
use wall_cli::playback::PlaybackScheduler;
use wall_cli::processing::{
    generate_intermediate_wallpapers, split_frames, DecodedImage,
};
use wall_cli::wallpaper::WallpaperData;

// Three wallpapers at a 2x1 resolution, two frames per transition: the pairs
// are a_b and b_c, each cache entry holds exactly two frames, and the first
// frame of a_b equals a's pixels while the last equals b's.
#[test]
fn whole_pipeline_over_three_images() {
    let resolution = parse_resolution("2x1").unwrap();
    assert_eq!(resolution, (2, 1));
    let iterations = compute_iterations(2, 1).unwrap();
    assert_eq!(iterations, 2);

    let mut wallpapers = WallpaperData::new();
    for name in ["a.png", "b.png", "c.png"] {
        wallpapers.insert(name.to_string());
    }

    let cache = WallpaperCache::new(&wallpapers);
    assert_eq!(cache.len(), 2);
    assert_eq!(cache.key_at(0), "a_b");
    assert_eq!(cache.key_at(1), "b_c");

    let pixels_a = vec![10u8, 11, 12, 13, 14, 15];
    let pixels_b = vec![110u8, 111, 112, 113, 114, 115];
    let pixels_c = vec![210u8, 211, 212, 213, 214, 215];
    let image_of = |pixels: &Vec<u8>| DecodedImage {
        pixels: pixels.clone(),
        width: 2,
        height: 1,
    };

    let mut store = CacheStore::new();
    let pending = cache.pairs_needing_generation(&store);
    assert_eq!(pending.len(), 2);

    let mut folders: Vec<(String, Vec<Vec<u8>>)> = Vec::new();
    for (first_name, second_name) in &pending {
        let lookup = |name: &str| -> &Vec<u8> {
            match name {
                "a.png" => &pixels_a,
                "b.png" => &pixels_b,
                _ => &pixels_c,
            }
        };
        let first = image_of(lookup(first_name));
        let second = image_of(lookup(second_name));
        let (buf, img_len) =
            generate_intermediate_wallpapers(&first, &second, iterations, resolution).unwrap();
        let frames = split_frames(&buf, img_len);
        assert_eq!(frames.len(), iterations as usize);
        let key = wall_cli::cache::pair_key(first_name, second_name);
        assert!(store.create(&key));
        folders.push((key, frames));
    }

    assert_eq!(folders[0].0, "a_b");
    assert_eq!(folders[0].1[0], pixels_a);
    assert_eq!(folders[0].1[1], pixels_b);
    assert_eq!(folders[1].0, "b_c");
    assert_eq!(folders[1].1[0], pixels_b);
    assert_eq!(folders[1].1[1], pixels_c);

    // Every pair now has its entry, so playback sees both folders in order.
    let listed = cache.cache_folders(&store).unwrap();
    assert_eq!(listed, vec!["a_b", "b_c"]);

    // Ticks cycle through the cached pairs.
    let mut scheduler = PlaybackScheduler::new();
    assert_eq!(scheduler.tick(&cache, &store), Some("a_b".to_string()));
    assert_eq!(scheduler.tick(&cache, &store), Some("b_c".to_string()));
    assert_eq!(scheduler.tick(&cache, &store), Some("a_b".to_string()));
}

#[test]
fn second_generation_pass_is_a_no_op() {
    let mut wallpapers = WallpaperData::new();
    for name in ["a.png", "b.png", "c.png"] {
        wallpapers.insert(name.to_string());
    }
    let cache = WallpaperCache::new(&wallpapers);
    let mut store = CacheStore::new();

    let first_pass = cache.pairs_needing_generation(&store);
    assert_eq!(first_pass.len(), 2);
    for i in 0..cache.len() {
        assert!(store.create(&cache.key_at(i)));
    }

    // A re-run finds every entry in place: nothing to generate, and creating
    // an existing entry reports that it changed nothing.
    let second_pass = cache.pairs_needing_generation(&store);
    assert!(second_pass.is_empty());
    for i in 0..cache.len() {
        assert!(!store.create(&cache.key_at(i)));
    }
}

#[test]
fn playback_skips_without_pairs_or_entries() {
    let empty = WallpaperData::new();
    let no_pairs = WallpaperCache::new(&empty);
    let store = CacheStore::new();
    let mut scheduler = PlaybackScheduler::new();
    assert_eq!(scheduler.tick(&no_pairs, &store), None);

    let mut wallpapers = WallpaperData::new();
    for name in ["a.png", "b.png", "c.png"] {
        wallpapers.insert(name.to_string());
    }
    let cache = WallpaperCache::new(&wallpapers);

    // The current entry is missing: ticks skip without advancing, so once
    // the entry appears the same pair plays, not the next one.
    assert_eq!(scheduler.tick(&cache, &store), None);
    assert_eq!(scheduler.tick(&cache, &store), None);

    let mut store = store;
    assert!(store.create(&"a_b".to_string()));
    assert!(store.create(&"b_c".to_string()));
    assert_eq!(scheduler.tick(&cache, &store), Some("a_b".to_string()));
    assert_eq!(scheduler.tick(&cache, &store), Some("b_c".to_string()));
}

#[test]
fn missing_entry_fails_the_folder_listing() {
    let mut wallpapers = WallpaperData::new();
    for name in ["a.png", "b.png", "c.png"] {
        wallpapers.insert(name.to_string());
    }
    let cache = WallpaperCache::new(&wallpapers);
    let mut store = CacheStore::new();
    assert!(store.create(&"a_b".to_string()));
    match cache.cache_folders(&store) {
        Err(wall_cli::cache::CacheError::MissingEntry(k)) => assert_eq!(k, "b_c"),
        Ok(_) => panic!("listing succeeded with a missing entry"),
    }
}
