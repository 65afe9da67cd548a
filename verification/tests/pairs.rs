use wall_cli::cache::{file_stem, pair_key, WallpaperCache};
use wall_cli::wallpaper::WallpaperData;

fn set_of(names: &[&str]) -> WallpaperData {
    let mut w = WallpaperData::new();
    for n in names {
        w.insert(n.to_string());
    }
    w
}

#[test]
fn empty_set_yields_no_pairs() {
    let w = set_of(&[]);
    let cache = WallpaperCache::new(&w);
    assert_eq!(cache.len(), 0);
}

#[test]
fn single_element_yields_no_pairs() {
    let w = set_of(&["a.png"]);
    let cache = WallpaperCache::new(&w);
    assert_eq!(cache.len(), 0);
}

#[test]
fn n_names_yield_n_minus_one_adjacent_pairs() {
    let w = set_of(&["c.png", "a.png", "b.png", "d.png"]);
    let cache = WallpaperCache::new(&w);
    assert_eq!(cache.len(), 3);
    let pairs = cache.pairs();
    assert_eq!(pairs[0], ("a.png".to_string(), "b.png".to_string()));
    assert_eq!(pairs[1], ("b.png".to_string(), "c.png".to_string()));
    assert_eq!(pairs[2], ("c.png".to_string(), "d.png".to_string()));
}

#[test]
fn pair_keys_are_distinct_for_distinct_stems() {
    let w = set_of(&["a.png", "b.png", "c.png", "d.png"]);
    let cache = WallpaperCache::new(&w);
    let mut keys = Vec::new();
    for i in 0..cache.len() {
        keys.push(cache.key_at(i));
    }
    assert_eq!(keys, vec!["a_b", "b_c", "c_d"]);
    for i in 0..keys.len() {
        for j in 0..keys.len() {
            if i != j {
                assert_ne!(keys[i], keys[j]);
            }
        }
    }
}

#[test]
fn duplicate_inserts_are_ignored() {
    let mut w = WallpaperData::new();
    w.insert("a.png".to_string());
    w.insert("a.png".to_string());
    w.insert("b.png".to_string());
    assert_eq!(w.len(), 2);
    assert_eq!(w.get_all(), vec!["a.png", "b.png"]);
}

#[test]
fn snapshot_is_sorted() {
    let mut w = WallpaperData::new();
    w.insert("zebra.png".to_string());
    w.insert("apple.png".to_string());
    w.insert("mango.png".to_string());
    assert_eq!(w.get_all(), vec!["apple.png", "mango.png", "zebra.png"]);
}

#[test]
fn remove_takes_a_name_out() {
    let mut w = set_of(&["a.png", "b.png", "c.png"]);
    w.remove(&"b.png".to_string());
    assert_eq!(w.get_all(), vec!["a.png", "c.png"]);
    w.remove(&"missing.png".to_string());
    assert_eq!(w.get_all(), vec!["a.png", "c.png"]);
}

#[test]
fn file_stem_strips_the_last_extension() {
    assert_eq!(file_stem("sunset.png"), "sunset");
    assert_eq!(file_stem("archive.tar.gz"), "archive.tar");
    assert_eq!(file_stem("noext"), "noext");
    assert_eq!(file_stem(".hidden"), ".hidden");
    assert_eq!(file_stem("trailing."), "trailing");
    assert_eq!(file_stem(""), "");
}

#[test]
fn pair_key_joins_stems_with_an_underscore() {
    assert_eq!(pair_key("dawn.png", "sunset.png"), "dawn_sunset");
    assert_eq!(pair_key("a.jpg", "b.png"), "a_b");
    assert_eq!(pair_key("noext", "other.webp"), "noext_other");
}

#[test]
fn keys_touching_lists_the_pairs_of_a_member() {
    let w = set_of(&["a.png", "b.png", "c.png", "d.png"]);
    let cache = WallpaperCache::new(&w);
    assert_eq!(cache.keys_touching(&"b.png".to_string()), vec!["a_b", "b_c"]);
    assert_eq!(cache.keys_touching(&"a.png".to_string()), vec!["a_b"]);
    assert_eq!(cache.keys_touching(&"d.png".to_string()), vec!["c_d"]);
    let none: Vec<String> = Vec::new();
    assert_eq!(cache.keys_touching(&"zz.png".to_string()), none);
}
